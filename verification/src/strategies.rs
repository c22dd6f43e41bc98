//! Fee-rate estimation strategies.
//!
//! A strategy derives one scalar fee-rate estimate from a pool batch. The
//! strategies form a closed set selected by name at startup; an unknown name
//! is a configuration error, fatal before the tick loop begins.

pub mod block_template_median;

use vstd::prelude::*;
use vstd::string::StringExecFns;
use crate::mempool_data::{MempoolTransaction, wf_batch};
use crate::ratio::Ratio;
use crate::runner::AnalyzerError;
use crate::strategies::block_template_median::{BlockTemplateMedianEstimator, median_estimate};

verus! {

/// The closed set of fee-rate estimation strategies.
#[derive(Clone, Copy, Debug, PartialEq, Eq, Structural)]
pub enum FeeRateStrategy {
    BlockTemplateMedian,
}

impl FeeRateStrategy {
    /// Runs the selected strategy over the batch.
    pub fn estimate_fee_rate(&self, mempool_data: &Vec<MempoolTransaction>) -> (r: Result<
        Ratio,
        AnalyzerError,
    >)
        requires
            wf_batch(mempool_data.deep_view()),
        ensures
            r == median_estimate(mempool_data.deep_view()),
            r is Ok ==> r->Ok_0.wf() && r->Ok_0.den <= u64::MAX,
    {
        match self {
            FeeRateStrategy::BlockTemplateMedian => BlockTemplateMedianEstimator.estimate_fee_rate(
                mempool_data,
            ),
        }
    }
}

fn str_eq(a: &str, b: &str) -> (r: bool)
    ensures
        r == (a@ == b@),
{
    let sa = String::from_str(a);
    let sb = String::from_str(b);
    sa.eq(&sb)
}

/// Resolves a strategy name from the configuration. An unrecognized name is
/// a fatal configuration error.
pub fn select_strategy(strategy_name: &str) -> (r: Result<FeeRateStrategy, AnalyzerError>)
    ensures
        strategy_name@ == "block_template_median"@ ==> r == Result::<
            FeeRateStrategy,
            AnalyzerError,
        >::Ok(FeeRateStrategy::BlockTemplateMedian),
        strategy_name@ != "block_template_median"@ ==> r == Result::<
            FeeRateStrategy,
            AnalyzerError,
        >::Err(AnalyzerError::UnknownStrategy),
{
    if str_eq(strategy_name, "block_template_median") {
        Ok(FeeRateStrategy::BlockTemplateMedian)
    } else {
        Err(AnalyzerError::UnknownStrategy)
    }
}

} // verus!
