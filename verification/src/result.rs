//! Result records and the append-only history.
//!
//! One record captures everything the analysis learned about one tracked
//! height: the estimates and subset taken when the snapshot was made, and
//! the correlation counts filled in when the block was discovered. The
//! history keyed by previous block height is append-only, with one
//! idempotent update-in-place per tracked height.

use vstd::prelude::*;
use vstd::pervasive::VecAdditionalExecFns;
use crate::ratio::Ratio;

verus! {

/// The mathematical image of an `AnalyzerResult`.
pub struct AnalyzerResultView {
    pub prev_block_height: u32,
    pub prev_block_hash: Seq<char>,
    pub target_block_height: u32,
    pub target_block_hash: Seq<char>,
    pub mempool_fee_rate_estimate: Option<Ratio>,
    pub mempool_subset_fee_rate_estimate: Option<Ratio>,
    pub mempool_subset_txns_count: usize,
    pub target_block_txns_count: usize,
    pub mempool_subset_txns_in_target_block_count: usize,
    pub conditional_probability: Option<Ratio>,
    pub mempool_depth: usize,
    pub blocks_found_count: usize,
    pub block_discovery_timestamp: Seq<char>,
    pub snapshot_timestamp: Seq<char>,
}

/// One history row: heights and hashes, the fee-rate estimates (undefined
/// estimates stay absent rather than defaulting to a number), subset and
/// correlation counts, the conditional probability (absent for an empty
/// subset), and bookkeeping.
#[derive(Debug)]
pub struct AnalyzerResult {
    pub prev_block_height: u32,
    pub prev_block_hash: String,
    pub target_block_height: u32,
    pub target_block_hash: String,
    pub mempool_fee_rate_estimate: Option<Ratio>,
    pub mempool_subset_fee_rate_estimate: Option<Ratio>,
    pub mempool_subset_txns_count: usize,
    pub target_block_txns_count: usize,
    pub mempool_subset_txns_in_target_block_count: usize,
    pub conditional_probability: Option<Ratio>,
    pub mempool_depth: usize,
    pub blocks_found_count: usize,
    pub block_discovery_timestamp: String,
    pub snapshot_timestamp: String,
}

impl View for AnalyzerResult {
    type V = AnalyzerResultView;

    open spec fn view(&self) -> AnalyzerResultView {
        AnalyzerResultView {
            prev_block_height: self.prev_block_height,
            prev_block_hash: self.prev_block_hash@,
            target_block_height: self.target_block_height,
            target_block_hash: self.target_block_hash@,
            mempool_fee_rate_estimate: self.mempool_fee_rate_estimate,
            mempool_subset_fee_rate_estimate: self.mempool_subset_fee_rate_estimate,
            mempool_subset_txns_count: self.mempool_subset_txns_count,
            target_block_txns_count: self.target_block_txns_count,
            mempool_subset_txns_in_target_block_count:
                self.mempool_subset_txns_in_target_block_count,
            conditional_probability: self.conditional_probability,
            mempool_depth: self.mempool_depth,
            blocks_found_count: self.blocks_found_count,
            block_discovery_timestamp: self.block_discovery_timestamp@,
            snapshot_timestamp: self.snapshot_timestamp@,
        }
    }
}

impl DeepView for AnalyzerResult {
    type V = AnalyzerResultView;

    open spec fn deep_view(&self) -> AnalyzerResultView {
        self.view()
    }
}

impl Clone for AnalyzerResult {
    fn clone(&self) -> (r: Self)
        ensures
            r@ == self@,
    {
        AnalyzerResult {
            prev_block_height: self.prev_block_height,
            prev_block_hash: self.prev_block_hash.clone(),
            target_block_height: self.target_block_height,
            target_block_hash: self.target_block_hash.clone(),
            mempool_fee_rate_estimate: self.mempool_fee_rate_estimate,
            mempool_subset_fee_rate_estimate: self.mempool_subset_fee_rate_estimate,
            mempool_subset_txns_count: self.mempool_subset_txns_count,
            target_block_txns_count: self.target_block_txns_count,
            mempool_subset_txns_in_target_block_count:
                self.mempool_subset_txns_in_target_block_count,
            conditional_probability: self.conditional_probability,
            mempool_depth: self.mempool_depth,
            blocks_found_count: self.blocks_found_count,
            block_discovery_timestamp: self.block_discovery_timestamp.clone(),
            snapshot_timestamp: self.snapshot_timestamp.clone(),
        }
    }
}

impl Default for AnalyzerResult {
    /// The empty row the tracker starts from: zero heights and counts,
    /// empty hashes and timestamps, and no estimates.
    fn default() -> (r: Self)
        ensures
            r@.prev_block_height == 0 && r@.target_block_height == 0,
            r@.prev_block_hash == Seq::<char>::empty(),
            r@.target_block_hash == Seq::<char>::empty(),
            r@.mempool_fee_rate_estimate is None,
            r@.mempool_subset_fee_rate_estimate is None,
            r@.mempool_subset_txns_count == 0,
            r@.target_block_txns_count == 0,
            r@.mempool_subset_txns_in_target_block_count == 0,
            r@.conditional_probability is None,
            r@.mempool_depth == 0,
            r@.blocks_found_count == 0,
            r@.block_discovery_timestamp == Seq::<char>::empty(),
            r@.snapshot_timestamp == Seq::<char>::empty(),
    {
        AnalyzerResult {
            prev_block_height: 0,
            prev_block_hash: String::new(),
            target_block_height: 0,
            target_block_hash: String::new(),
            mempool_fee_rate_estimate: None,
            mempool_subset_fee_rate_estimate: None,
            mempool_subset_txns_count: 0,
            target_block_txns_count: 0,
            mempool_subset_txns_in_target_block_count: 0,
            conditional_probability: None,
            mempool_depth: 0,
            blocks_found_count: 0,
            block_discovery_timestamp: String::new(),
            snapshot_timestamp: String::new(),
        }
    }
}

/// The correlation outcome that completes a tracked row once its block is
/// discovered.
#[derive(Debug)]
pub struct AnalyzerResultUpdate {
    pub target_block_hash: String,
    pub target_block_txns_count: usize,
    pub mempool_subset_txns_in_target_block_count: usize,
}

/// A row after the correlation outcome `hash`/`block_count`/`in_block` is
/// folded into it: the discovered hash and counts replace the placeholders,
/// and the conditional probability becomes `in_block / subset`, undefined
/// for an empty subset.
pub open spec fn updated_result(
    r: AnalyzerResultView,
    hash: Seq<char>,
    block_count: usize,
    in_block: usize,
) -> AnalyzerResultView {
    AnalyzerResultView {
        target_block_hash: hash,
        target_block_txns_count: block_count,
        mempool_subset_txns_in_target_block_count: in_block,
        conditional_probability: if r.mempool_subset_txns_count == 0 {
            None
        } else {
            Some(
                Ratio {
                    num: in_block as u128,
                    den: r.mempool_subset_txns_count as u128,
                },
            )
        },
        ..r
    }
}

/// Folds a correlation outcome into every row tracking `prev_block_height`,
/// leaving all other rows unchanged.
pub fn apply_result_update(
    result: &mut Vec<AnalyzerResult>,
    prev_block_height: u32,
    result_update: &AnalyzerResultUpdate,
)
    ensures
        final(result).deep_view() == Seq::new(
            old(result).deep_view().len(),
            |i: int|
                if old(result).deep_view()[i].target_block_height == prev_block_height {
                    updated_result(
                        old(result).deep_view()[i],
                        result_update.target_block_hash@,
                        result_update.target_block_txns_count,
                        result_update.mempool_subset_txns_in_target_block_count,
                    )
                } else {
                    old(result).deep_view()[i]
                },
        ),
{
    let ghost goal = Seq::new(
        old(result).deep_view().len(),
        |i: int|
            if old(result).deep_view()[i].target_block_height == prev_block_height {
                updated_result(
                    old(result).deep_view()[i],
                    result_update.target_block_hash@,
                    result_update.target_block_txns_count,
                    result_update.mempool_subset_txns_in_target_block_count,
                )
            } else {
                old(result).deep_view()[i]
            },
    );
    let mut i: usize = 0;
    while i < result.len()
        invariant
            0 <= i <= result.len(),
            result.len() == old(result).len(),
            goal.len() == result.len(),
            forall|j: int| i <= j < result.len() ==> (#[trigger] result.deep_view()[j]) == old(
                result,
            ).deep_view()[j],
            forall|j: int| 0 <= j < i ==> (#[trigger] result.deep_view()[j]) == goal[j],
            forall|j: int|
                i <= j < result.len() ==> goal[j] == (
                if old(result).deep_view()[j].target_block_height == prev_block_height {
                    updated_result(
                        old(result).deep_view()[j],
                        result_update.target_block_hash@,
                        result_update.target_block_txns_count,
                        result_update.mempool_subset_txns_in_target_block_count,
                    )
                } else {
                    old(result).deep_view()[j]
                }),
        decreases result.len() - i,
    {
        if result[i].target_block_height == prev_block_height {
            let subset_count = result[i].mempool_subset_txns_count;
            let in_block = result_update.mempool_subset_txns_in_target_block_count;
            let mut row = result[i].clone();
            row.target_block_hash = result_update.target_block_hash.clone();
            row.target_block_txns_count = result_update.target_block_txns_count;
            row.mempool_subset_txns_in_target_block_count = in_block;
            row.conditional_probability = if subset_count == 0 {
                None
            } else {
                Some(Ratio { num: in_block as u128, den: subset_count as u128 })
            };
            let ghost prevv = result@;
            let ghost before = result.deep_view();
            proof {
                assert(result.deep_view()[i as int] == old(result).deep_view()[i as int]);
                assert(row@ == updated_result(
                    old(result).deep_view()[i as int],
                    result_update.target_block_hash@,
                    result_update.target_block_txns_count,
                    result_update.mempool_subset_txns_in_target_block_count,
                ));
            }
            result.set(i, row);
            proof {
                assert(result@ == prevv.update(i as int, row));
                assert forall|j: int| 0 <= j < result@.len() && j != i implies (
                #[trigger] result.deep_view()[j]) == before[j] by {
                    assert(prevv.update(i as int, row)[j] == prevv[j]);
                    assert(result@[j] == prevv[j]);
                }
                assert(prevv.update(i as int, row)[i as int] == row);
                assert(result.deep_view()[i as int] == row@);
                assert(result.deep_view()[i as int] == goal[i as int]);
            }
        }
        i += 1;
    }
    proof {
        assert(result.deep_view() =~= goal);
    }
}

/// There is a row tracking previous height `h`.
pub open spec fn has_height(rs: Seq<AnalyzerResultView>, h: u32) -> bool {
    exists|i: int| 0 <= i < rs.len() && (#[trigger] rs[i]).prev_block_height == h
}

/// The history after committing `r`: unchanged when a row for `r`'s
/// previous height already exists, extended by `r` otherwise.
pub open spec fn history_after_append(
    rs: Seq<AnalyzerResultView>,
    r: AnalyzerResultView,
) -> Seq<AnalyzerResultView> {
    if has_height(rs, r.prev_block_height) {
        rs
    } else {
        rs.push(r)
    }
}

/// Appends `result` to the history unless a row for its previous height is
/// already there, and reports whether it appended.
pub fn append_result_if_new(result: &mut Vec<AnalyzerResult>, record: AnalyzerResult) -> (appended:
    bool)
    ensures
        appended == !has_height(old(result).deep_view(), record.prev_block_height),
        final(result).deep_view() == history_after_append(old(result).deep_view(), record@),
{
    let mut i: usize = 0;
    while i < result.len()
        invariant
            0 <= i <= result.len(),
            result@ == old(result)@,
            forall|j: int| 0 <= j < i ==> (#[trigger] result.deep_view()[j]).prev_block_height
                != record.prev_block_height,
        decreases result.len() - i,
    {
        if result[i].prev_block_height == record.prev_block_height {
            proof {
                assert(result.deep_view()[i as int].prev_block_height
                    == record.prev_block_height);
            }
            return false;
        }
        i += 1;
    }
    proof {
        assert(!has_height(old(result).deep_view(), record.prev_block_height));
    }
    let ghost prev = result@;
    let ghost prev_dv = result.deep_view();
    result.push(record);
    proof {
        assert(result@ == prev.push(record));
        assert forall|m: int| 0 <= m < prev_dv.len() + 1 implies result.deep_view()[m] == (
        prev_dv.push(record@))[m] by {
            assert(prev_dv.len() == prev.len());
            if m < prev_dv.len() {
                assert(prev.push(record)[m] == prev[m]);
                assert(result@[m] == prev[m]);
            } else {
                assert(prev.push(record)[m] == record);
                assert(result@[m] == record);
            }
        }
        assert(result.deep_view() =~= prev_dv.push(record@));
    }
    true
}

/// Committing a row for an already-recorded height changes nothing: after
/// one commit the height is recorded, and a second commit of the same row
/// leaves the history exactly as it was.
pub proof fn lemma_history_append_idempotent(rs: Seq<AnalyzerResultView>, r: AnalyzerResultView)
    ensures
        has_height(history_after_append(rs, r), r.prev_block_height),
        history_after_append(history_after_append(rs, r), r) == history_after_append(rs, r),
{
    let rs2 = history_after_append(rs, r);
    if has_height(rs, r.prev_block_height) {
        assert(rs2 == rs);
    } else {
        assert(rs2 == rs.push(r));
        assert(rs2[rs.len() as int] == r);
        assert(has_height(rs2, r.prev_block_height));
    }
}

} // verus!
