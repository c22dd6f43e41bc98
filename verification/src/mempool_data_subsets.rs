//! Subset filters.
//!
//! A named sample subset of the pool is carved out by a conjunction of
//! predicate rules: a fee-rate threshold in either direction, and
//! comparisons on the input and output counts. Filtering is pure: a record
//! is retained exactly when every supplied predicate holds, an empty rule
//! list keeps the batch unchanged, and applying rule lists one after the
//! other equals applying their concatenation.

use vstd::prelude::*;
use crate::config::Comparison;
use crate::mempool_data::{MempoolTransaction, TxView};
use crate::ratio::{Ratio, fee_rate_below, fee_rate_lt_ratio};

verus! {

/// Keeps the records whose fee rate lies strictly below the threshold.
#[derive(Clone, Copy, Debug, PartialEq, Eq, Structural)]
pub struct LowFeeFilter {
    pub threshold: Ratio,
}

/// Keeps the records whose fee rate lies at or above the threshold.
#[derive(Clone, Copy, Debug, PartialEq, Eq, Structural)]
pub struct HighFeeFilter {
    pub threshold: Ratio,
}

/// Keeps the records whose input count compares as requested.
#[derive(Clone, Copy, Debug, PartialEq, Eq, Structural)]
pub struct InputsCountFilter {
    pub comparison: Comparison,
    pub count: u32,
}

/// Keeps the records whose output count compares as requested.
#[derive(Clone, Copy, Debug, PartialEq, Eq, Structural)]
pub struct OutputsCountFilter {
    pub comparison: Comparison,
    pub count: u32,
}

/// One predicate rule of a subset definition.
#[derive(Clone, Copy, Debug, PartialEq, Eq, Structural)]
pub enum MempoolFilter {
    LowFee(LowFeeFilter),
    HighFee(HighFeeFilter),
    InputsCount(InputsCountFilter),
    OutputsCount(OutputsCountFilter),
}

/// A fee-rate threshold must be a well-formed rational whose denominator
/// supports the exact comparison.
pub open spec fn filter_wf(f: MempoolFilter) -> bool {
    match f {
        MempoolFilter::LowFee(lf) => lf.threshold.wf() && lf.threshold.den <= u64::MAX,
        MempoolFilter::HighFee(hf) => hf.threshold.wf() && hf.threshold.den <= u64::MAX,
        MempoolFilter::InputsCount(_) => true,
        MempoolFilter::OutputsCount(_) => true,
    }
}

pub open spec fn filters_wf(fs: Seq<MempoolFilter>) -> bool {
    forall|i: int| 0 <= i < fs.len() ==> filter_wf(#[trigger] fs[i])
}

/// The comparison a count rule applies.
pub open spec fn compare_counts(c: Comparison, value: u32, count: u32) -> bool {
    match c {
        Comparison::LessThan => value < count,
        Comparison::GreaterThan => value > count,
        Comparison::Equals => value == count,
    }
}

/// Whether one predicate rule holds of one record.
pub open spec fn filter_holds(f: MempoolFilter, t: TxView) -> bool {
    match f {
        MempoolFilter::LowFee(lf) => fee_rate_below(t.fee, t.weight, lf.threshold),
        MempoolFilter::HighFee(hf) => !fee_rate_below(t.fee, t.weight, hf.threshold),
        MempoolFilter::InputsCount(cf) => compare_counts(cf.comparison, t.inputs_count, cf.count),
        MempoolFilter::OutputsCount(cf) => compare_counts(cf.comparison, t.outputs_count, cf.count),
    }
}

/// The conjunction of a rule list: a record is retained only when every
/// rule holds of it.
pub open spec fn all_filters_hold(fs: Seq<MempoolFilter>, t: TxView) -> bool {
    forall|i: int| 0 <= i < fs.len() ==> filter_holds(#[trigger] fs[i], t)
}

impl MempoolFilter {
    /// Decides this rule on one record.
    pub fn filter(&self, txn: &MempoolTransaction) -> (r: bool)
        requires
            filter_wf(*self),
        ensures
            r == filter_holds(*self, txn@),
    {
        match self {
            MempoolFilter::LowFee(lf) => fee_rate_lt_ratio(txn.fee, txn.weight, &lf.threshold),
            MempoolFilter::HighFee(hf) => !fee_rate_lt_ratio(txn.fee, txn.weight, &hf.threshold),
            MempoolFilter::InputsCount(cf) => match cf.comparison {
                Comparison::LessThan => txn.inputs_count < cf.count,
                Comparison::GreaterThan => txn.inputs_count > cf.count,
                Comparison::Equals => txn.inputs_count == cf.count,
            },
            MempoolFilter::OutputsCount(cf) => match cf.comparison {
                Comparison::LessThan => txn.outputs_count < cf.count,
                Comparison::GreaterThan => txn.outputs_count > cf.count,
                Comparison::Equals => txn.outputs_count == cf.count,
            },
        }
    }
}

/// Retains exactly the records every supplied rule holds of, in batch
/// order.
pub fn filter_mempool_txns(txns: &Vec<MempoolTransaction>, filters: &Vec<MempoolFilter>) -> (r:
    Vec<MempoolTransaction>)
    requires
        filters_wf(filters@),
    ensures
        r.deep_view() == txns.deep_view().filter(|t: TxView| all_filters_hold(filters@, t)),
{
    let ghost b = txns.deep_view();
    let ghost pred = |t: TxView| all_filters_hold(filters@, t);
    let mut r: Vec<MempoolTransaction> = Vec::new();
    let mut i: usize = 0;
    proof {
        reveal(Seq::filter);
        assert(b.take(0) =~= Seq::<TxView>::empty());
        assert(r.deep_view() =~= Seq::<TxView>::empty().filter(pred));
    }
    while i < txns.len()
        invariant
            0 <= i <= txns.len(),
            b == txns.deep_view(),
            b.len() == txns.len(),
            filters_wf(filters@),
            pred == (|t: TxView| all_filters_hold(filters@, t)),
            r.deep_view() == b.take(i as int).filter(pred),
        decreases txns.len() - i,
    {
        let txn = &txns[i];
        let mut keep = true;
        let mut j: usize = 0;
        while j < filters.len()
            invariant
                0 <= j <= filters.len(),
                filters_wf(filters@),
                b == txns.deep_view(),
                b.len() == txns.len(),
                i < txns.len(),
                txn@ == b[i as int],
                keep == (forall|k: int| 0 <= k < j ==> filter_holds(#[trigger] filters@[k], txn@)),
            decreases filters.len() - j,
        {
            let ok = filters[j].filter(txn);
            keep = keep && ok;
            j += 1;
        }
        proof {
            reveal(Seq::filter);
            assert(keep == pred(b[i as int]));
            assert(b.take(i + 1).drop_last() =~= b.take(i as int));
            assert(b.take(i + 1).last() == b[i as int]);
        }
        if keep {
            let c = txn.clone();
            let ghost prev = r@;
            let ghost prev_dv = r.deep_view();
            r.push(c);
            proof {
                assert(r@ == prev.push(c));
                assert forall|m: int| 0 <= m < prev_dv.len() + 1 implies r.deep_view()[m] == (
                prev_dv.push(b[i as int]))[m] by {
                    assert(prev_dv.len() == prev.len());
                    if m < prev_dv.len() {
                        assert(prev.push(c)[m] == prev[m]);
                        assert(r@[m] == prev[m]);
                    } else {
                        assert(prev.push(c)[m] == c);
                        assert(r@[m] == c);
                    }
                }
                assert(r.deep_view() =~= prev_dv.push(b[i as int]));
                assert(r.deep_view() == b.take(i + 1).filter(pred));
            }
        }
        i += 1;
    }
    proof {
        reveal(Seq::filter);
        assert(b.take(txns.len() as int) =~= b);
    }
    r
}

/// Filtering with no rules keeps the batch unchanged.
pub proof fn lemma_filter_no_predicates(txns: Seq<TxView>)
    ensures
        txns.filter(|t: TxView| all_filters_hold(Seq::empty(), t)) == txns,
    decreases txns.len(),
{
    reveal(Seq::filter);
    let pred = |t: TxView| all_filters_hold(Seq::empty(), t);
    if txns.len() == 0 {
        assert(txns.filter(pred) =~= txns);
    } else {
        lemma_filter_no_predicates(txns.drop_last());
        assert(pred(txns.last()));
        assert(txns.filter(pred) =~= txns.drop_last().filter(pred).push(txns.last()));
        assert(txns.drop_last().push(txns.last()) =~= txns);
    }
}

/// The subset filter is a pure conjunction: applying a concatenated rule
/// list equals applying its parts one after the other.
pub proof fn lemma_filter_conjunction(
    txns: Seq<TxView>,
    fs1: Seq<MempoolFilter>,
    fs2: Seq<MempoolFilter>,
)
    ensures
        txns.filter(|t: TxView| all_filters_hold(fs1 + fs2, t)) == txns.filter(
            |t: TxView| all_filters_hold(fs1, t),
        ).filter(|t: TxView| all_filters_hold(fs2, t)),
    decreases txns.len(),
{
    reveal(Seq::filter);
    let pred12 = |t: TxView| all_filters_hold(fs1 + fs2, t);
    let pred1 = |t: TxView| all_filters_hold(fs1, t);
    let pred2 = |t: TxView| all_filters_hold(fs2, t);
    assert forall|t: TxView| #[trigger] pred12(t) <==> pred1(t) && pred2(t) by {
        if pred1(t) && pred2(t) {
            assert forall|i: int| 0 <= i < (fs1 + fs2).len() implies filter_holds(
                #[trigger] (fs1 + fs2)[i],
                t,
            ) by {
                if i < fs1.len() {
                    assert((fs1 + fs2)[i] == fs1[i]);
                } else {
                    assert((fs1 + fs2)[i] == fs2[i - fs1.len()]);
                }
            }
        }
        if pred12(t) {
            assert forall|i: int| 0 <= i < fs1.len() implies filter_holds(
                #[trigger] fs1[i],
                t,
            ) by {
                assert((fs1 + fs2)[i] == fs1[i]);
            }
            assert forall|i: int| 0 <= i < fs2.len() implies filter_holds(
                #[trigger] fs2[i],
                t,
            ) by {
                assert((fs1 + fs2)[fs1.len() + i] == fs2[i]);
            }
        }
    }
    if txns.len() == 0 {
        assert(txns.filter(pred12) =~= Seq::<TxView>::empty());
        assert(txns.filter(pred1) =~= Seq::<TxView>::empty());
        assert(Seq::<TxView>::empty().filter(pred2) =~= Seq::<TxView>::empty());
    } else {
        let dl = txns.drop_last();
        let x = txns.last();
        lemma_filter_conjunction(dl, fs1, fs2);
        if pred1(x) {
            assert(txns.filter(pred1) == dl.filter(pred1).push(x));
            assert((dl.filter(pred1).push(x)).drop_last() =~= dl.filter(pred1));
            assert((dl.filter(pred1).push(x)).last() == x);
            if pred2(x) {
                assert(pred12(x));
                assert(txns.filter(pred1).filter(pred2) == dl.filter(pred1).filter(pred2).push(x));
            } else {
                assert(!pred12(x));
                assert(txns.filter(pred1).filter(pred2) == dl.filter(pred1).filter(pred2));
            }
        } else {
            assert(!pred12(x));
            assert(txns.filter(pred1) == dl.filter(pred1));
            assert(txns.filter(pred12) == dl.filter(pred12));
        }
    }
}

} // verus!
