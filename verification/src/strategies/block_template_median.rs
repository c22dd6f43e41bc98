//! The median-of-template strategy.
//!
//! Build the simulated template over the batch, then take the median fee
//! rate of the accepted records: the middle element for an odd length, the
//! exact average of the two central elements for an even one. An empty
//! template has no median; that is the distinct `EmptyTemplate` outcome,
//! never a default value that would skew downstream threshold filters.

use vstd::prelude::*;
use crate::block_data::{
    BlockBuilder, MAX_BLOCK_WEIGHT, lemma_template_laws, lemma_total_weight_elem, template_of,
};
use crate::mempool_data::{MempoolTransaction, TxView, wf_batch};
use crate::ratio::Ratio;
use crate::runner::AnalyzerError;

verus! {

/// The median fee rate of a non-empty template, as an exact rational: for an
/// odd length the central fee rate itself, for an even length the average of
/// the two central ones.
pub open spec fn median_of_template(t: Seq<TxView>) -> Ratio {
    let n = t.len() as int;
    if n % 2 == 1 {
        Ratio { num: t[n / 2].fee as u128, den: t[n / 2].weight as u128 }
    } else {
        Ratio {
            num: (t[n / 2 - 1].fee * t[n / 2].weight + t[n / 2].fee * t[n / 2 - 1].weight) as u128,
            den: (2 * t[n / 2 - 1].weight * t[n / 2].weight) as u128,
        }
    }
}

/// What the median-of-template strategy returns on a batch: the median fee
/// rate of its simulated template, `CyclicDependency` on a cyclic batch, and
/// `EmptyTemplate` when nothing was accepted.
pub open spec fn median_estimate(b: Seq<TxView>) -> Result<Ratio, AnalyzerError> {
    match template_of(b) {
        None => Err(AnalyzerError::CyclicDependency),
        Some(t) => if t.len() == 0 {
            Err(AnalyzerError::EmptyTemplate)
        } else {
            Ok(median_of_template(t))
        },
    }
}

/// The strategy that estimates the fee rate as the median of the simulated
/// block template.
#[derive(Debug)]
pub struct BlockTemplateMedianEstimator;

impl BlockTemplateMedianEstimator {
    /// Builds the template over the batch and takes its median fee rate.
    pub fn estimate_fee_rate(&self, mempool_data: &Vec<MempoolTransaction>) -> (r: Result<
        Ratio,
        AnalyzerError,
    >)
        requires
            wf_batch(mempool_data.deep_view()),
        ensures
            r == median_estimate(mempool_data.deep_view()),
            r is Ok ==> r->Ok_0.wf() && r->Ok_0.den <= u64::MAX,
    {
        let ghost b = mempool_data.deep_view();
        let batch_len = mempool_data.len();
        proof {
            assert(b.len() == batch_len);
            lemma_template_laws(b);
        }
        let template = match BlockBuilder::build_block(mempool_data) {
            Err(e) => {
                return Err(e);
            },
            Ok(t) => t,
        };
        let ghost t = template.deep_view();
        let n = template.len();
        if n == 0 {
            return Err(AnalyzerError::EmptyTemplate);
        }
        proof {
            lemma_total_weight_elem(t, n as int / 2);
            if n % 2 == 0 {
                lemma_total_weight_elem(t, n as int / 2 - 1);
            }
        }
        if n % 2 == 1 {
            let m = &template[n / 2];
            Ok(Ratio { num: m.fee as u128, den: m.weight as u128 })
        } else {
            let lo = &template[n / 2 - 1];
            let hi = &template[n / 2];
            proof {
                assert(lo@ == t[n as int / 2 - 1] && hi@ == t[n as int / 2]);
                assert((lo.fee as int) * (hi.weight as int) + (hi.fee as int) * (lo.weight as int)
                    <= u128::MAX && 0 < 2 * (lo.weight as int) * (hi.weight as int) <= u64::MAX)
                    by (nonlinear_arith)
                    requires
                        lo.fee as int <= u64::MAX,
                        hi.fee as int <= u64::MAX,
                        0 < lo.weight as int <= MAX_BLOCK_WEIGHT as int,
                        0 < hi.weight as int <= MAX_BLOCK_WEIGHT as int,
                ;
            }
            let num: u128 = (lo.fee as u128) * (hi.weight as u128) + (hi.fee as u128) * (lo.weight
                as u128);
            let den: u128 = 2 * (lo.weight as u128) * (hi.weight as u128);
            Ok(Ratio { num, den })
        }
    }

    /// The human-readable name of this strategy.
    pub fn name(&self) -> (r: &'static str)
        ensures
            r@ == "Block Template Median Strategy"@,
    {
        "Block Template Median Strategy"
    }
}

} // verus!
