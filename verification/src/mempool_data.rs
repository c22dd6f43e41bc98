//! Pool transaction records.
//!
//! A `MempoolTransaction` is the immutable value describing one pool entry:
//! fee and weight in integer units, the identifiers of its direct in-pool
//! ancestors, and its input/output counts. The fee rate is the exact quotient
//! `fee / weight`; a zero weight would make it undefined, so construction
//! rejects it instead of coercing the rate to a default.

use vstd::prelude::*;
use crate::ratio::Ratio;
use crate::runner::AnalyzerError;

verus! {

/// The mathematical image of a `MempoolTransaction`: identifiers as character
/// sequences, everything else as the machine integers the record holds.
pub struct TxView {
    pub txid: Seq<char>,
    pub fee: u64,
    pub weight: u64,
    pub parent_txids: Seq<Seq<char>>,
    pub inputs_count: u32,
    pub outputs_count: u32,
}

/// One pool entry. Fees are in the smallest currency unit; `weight` is the
/// consensus-style size metric and is positive in every well-formed record.
#[derive(Debug)]
pub struct MempoolTransaction {
    pub txid: String,
    pub fee: u64,
    pub weight: u64,
    pub parent_txids: Vec<String>,
    pub inputs_count: u32,
    pub outputs_count: u32,
}

impl View for MempoolTransaction {
    type V = TxView;

    open spec fn view(&self) -> TxView {
        TxView {
            txid: self.txid@,
            fee: self.fee,
            weight: self.weight,
            parent_txids: self.parent_txids.deep_view(),
            inputs_count: self.inputs_count,
            outputs_count: self.outputs_count,
        }
    }
}

impl DeepView for MempoolTransaction {
    type V = TxView;

    open spec fn deep_view(&self) -> TxView {
        self.view()
    }
}

impl TxView {
    /// A record is well formed when its weight is positive, so that its fee
    /// rate `fee / weight` is defined.
    pub open spec fn wf(self) -> bool {
        self.weight > 0
    }

    /// The fee rate `fee / weight` as an exact rational.
    pub open spec fn spec_fee_rate(self) -> Ratio {
        Ratio { num: self.fee as u128, den: self.weight as u128 }
    }
}

impl Clone for MempoolTransaction {
    fn clone(&self) -> (r: Self)
        ensures
            r@ == self@,
    {
        let r = MempoolTransaction {
            txid: self.txid.clone(),
            fee: self.fee,
            weight: self.weight,
            parent_txids: self.parent_txids.clone(),
            inputs_count: self.inputs_count,
            outputs_count: self.outputs_count,
        };
        proof {
            assert(r.parent_txids@ =~= self.parent_txids@);
            assert(r.parent_txids.deep_view() =~= self.parent_txids.deep_view());
        }
        r
    }
}

impl MempoolTransaction {
    /// Builds a record, rejecting a zero weight: a zero-weight entry has no
    /// fee rate and must surface as an error, never as a default value.
    pub fn new(
        txid: String,
        fee: u64,
        weight: u64,
        parent_txids: Vec<String>,
        inputs_count: u32,
        outputs_count: u32,
    ) -> (r: Result<MempoolTransaction, AnalyzerError>)
        ensures
            weight == 0 ==> r == Result::<MempoolTransaction, AnalyzerError>::Err(
                AnalyzerError::ZeroWeightTransaction,
            ),
            weight > 0 ==> r is Ok && r->Ok_0@ == (TxView {
                txid: txid@,
                fee,
                weight,
                parent_txids: parent_txids.deep_view(),
                inputs_count,
                outputs_count,
            }),
            r is Ok ==> r->Ok_0@.wf(),
    {
        if weight == 0 {
            Err(AnalyzerError::ZeroWeightTransaction)
        } else {
            Ok(MempoolTransaction { txid, fee, weight, parent_txids, inputs_count, outputs_count })
        }
    }

    /// The exact fee rate of this record.
    pub fn fee_rate(&self) -> (r: Ratio)
        requires
            self@.wf(),
        ensures
            r == self@.spec_fee_rate(),
            r.wf(),
    {
        Ratio { num: self.fee as u128, den: self.weight as u128 }
    }
}

/// Every record of the batch has a defined fee rate.
pub open spec fn wf_batch(b: Seq<TxView>) -> bool {
    forall|i: int| 0 <= i < b.len() ==> (#[trigger] b[i]).wf()
}

/// Decides `wf_batch` for a concrete batch, so that callers can test the
/// batches they hand to the template builder.
pub fn check_batch(txns: &Vec<MempoolTransaction>) -> (b: bool)
    ensures
        b == wf_batch(txns.deep_view()),
{
    let mut i: usize = 0;
    while i < txns.len()
        invariant
            0 <= i <= txns.len(),
            forall|j: int| 0 <= j < i ==> (#[trigger] txns.deep_view()[j]).wf(),
        decreases txns.len() - i,
    {
        if txns[i].weight == 0 {
            proof {
                assert(!txns.deep_view()[i as int].wf());
            }
            return false;
        }
        i += 1;
    }
    true
}

} // verus!
