//! Tick orchestration logic.
//!
//! Each polling tick compares the externally observed chain height with the
//! height tracked in the snapshot state, correlates the previously tracked
//! subset against a newly produced block when one appears, and computes the
//! fresh estimate and subset that the next tick will correlate. Everything
//! here is pure computation over plain values; fetching pool snapshots,
//! block data and timestamps is the caller's concern.

use vstd::prelude::*;
use crate::block_data::{BlockTransaction, has_dependency_cycle};
use crate::config::{Commands, Config};
use crate::mempool_data::{MempoolTransaction, TxView, wf_batch};
use crate::mempool_data_subsets::{
    HighFeeFilter, LowFeeFilter, InputsCountFilter, MempoolFilter, OutputsCountFilter,
    all_filters_hold, filter_mempool_txns, filters_wf,
};
use crate::ratio::{Ratio, ratio_le};
use crate::result::{AnalyzerResult, AnalyzerResultView};
use crate::strategies::FeeRateStrategy;
use crate::strategies::block_template_median::median_estimate;

verus! {

/// The failure taxonomy of the analysis computations.
///
/// `CyclicDependency` is a fatal input-data error: a spend graph can never be
/// cyclic, so a cycle means the fetched pool data is corrupt. `EmptyTemplate`
/// is the explicit "undefined" outcome of estimating over an empty template.
/// `UnknownStrategy` is a configuration error, fatal at startup.
/// `ZeroWeightTransaction` rejects a record whose fee rate would be
/// undefined. `SomethingWentWrong` covers collaborator failures around the
/// computation core.
#[derive(Clone, Copy, Debug, PartialEq, Eq, Structural)]
pub enum AnalyzerError {
    SomethingWentWrong,
    CyclicDependency,
    EmptyTemplate,
    UnknownStrategy,
    ZeroWeightTransaction,
}

/// Runs a selected estimation strategy over the batches of one tick.
#[derive(Clone, Copy, Debug, PartialEq, Eq, Structural)]
pub struct Runner {
    pub strategy: FeeRateStrategy,
}

impl Runner {
    pub fn new(strategy: FeeRateStrategy) -> (r: Runner)
        ensures
            r.strategy == strategy,
    {
        Runner { strategy }
    }
}

/// The mathematical image of a `SnapshotData`.
pub struct SnapshotDataView {
    pub target_block_height: u32,
    pub mempool_txids: Seq<Seq<char>>,
    pub mempool_txns: Seq<TxView>,
    pub analyzer_result: AnalyzerResultView,
}

/// The cross-tick memory: the height being tracked, the pool snapshot and
/// its identifiers at that tick, and the last computed result record. Read
/// and replaced once per tick under exclusive access.
#[derive(Debug)]
pub struct SnapshotData {
    pub target_block_height: u32,
    pub mempool_txids: Vec<String>,
    pub mempool_txns: Vec<MempoolTransaction>,
    pub analyzer_result: AnalyzerResult,
}

impl View for SnapshotData {
    type V = SnapshotDataView;

    open spec fn view(&self) -> SnapshotDataView {
        SnapshotDataView {
            target_block_height: self.target_block_height,
            mempool_txids: self.mempool_txids.deep_view(),
            mempool_txns: self.mempool_txns.deep_view(),
            analyzer_result: self.analyzer_result@,
        }
    }
}

impl SnapshotData {
    /// Replaces every field of the snapshot state with this tick's values.
    /// The caller holds the state exclusively, so the replacement is atomic
    /// with respect to concurrent readers.
    pub fn commit(
        &mut self,
        new_txids: Vec<String>,
        new_txns: Vec<MempoolTransaction>,
        new_height: u32,
        new_result: AnalyzerResult,
    )
        ensures
            final(self)@ == (SnapshotDataView {
                target_block_height: new_height,
                mempool_txids: new_txids.deep_view(),
                mempool_txns: new_txns.deep_view(),
                analyzer_result: new_result@,
            }),
    {
        self.target_block_height = new_height;
        self.mempool_txids = new_txids;
        self.mempool_txns = new_txns;
        self.analyzer_result = new_result;
    }
}

/// A new target block exists exactly when the tracked target height has been
/// passed by the currently observed one.
pub fn check_if_target_block_found(
    last_target_block_height: u32,
    target_block_height: u32,
) -> (found: bool)
    ensures
        found == (last_target_block_height < target_block_height),
{
    last_target_block_height < target_block_height
}

fn block_contains_txid(txns_in_block: &Vec<BlockTransaction>, txid: &String) -> (r: bool)
    ensures
        r == txns_in_block.deep_view().contains(txid@),
{
    let mut i: usize = 0;
    while i < txns_in_block.len()
        invariant
            0 <= i <= txns_in_block.len(),
            forall|j: int| 0 <= j < i ==> txns_in_block.deep_view()[j] != txid@,
        decreases txns_in_block.len() - i,
    {
        if txns_in_block[i].txid.eq(txid) {
            proof {
                assert(txns_in_block.deep_view()[i as int] == txid@);
            }
            return true;
        }
        i += 1;
    }
    false
}

/// The records of the tracked subset whose identifier appears in the
/// produced block.
pub fn find_common_transactions(
    filtered_txns: &Vec<MempoolTransaction>,
    txns_in_block: &Vec<BlockTransaction>,
) -> (r: Vec<MempoolTransaction>)
    ensures
        r.deep_view() == filtered_txns.deep_view().filter(
            |t: TxView| txns_in_block.deep_view().contains(t.txid),
        ),
{
    let ghost b = filtered_txns.deep_view();
    let ghost pred = |t: TxView| txns_in_block.deep_view().contains(t.txid);
    let mut r: Vec<MempoolTransaction> = Vec::new();
    let mut i: usize = 0;
    proof {
        reveal(Seq::filter);
        assert(b.take(0) =~= Seq::<TxView>::empty());
        assert(r.deep_view() =~= Seq::<TxView>::empty().filter(pred));
    }
    while i < filtered_txns.len()
        invariant
            0 <= i <= filtered_txns.len(),
            b == filtered_txns.deep_view(),
            b.len() == filtered_txns.len(),
            pred == (|t: TxView| txns_in_block.deep_view().contains(t.txid)),
            r.deep_view() == b.take(i as int).filter(pred),
        decreases filtered_txns.len() - i,
    {
        let txn = &filtered_txns[i];
        let keep = block_contains_txid(txns_in_block, &txn.txid);
        proof {
            reveal(Seq::filter);
            assert(keep == pred(b[i as int]));
            assert(b.take(i + 1).drop_last() =~= b.take(i as int));
            assert(b.take(i + 1).last() == b[i as int]);
        }
        if keep {
            let c = txn.clone();
            let ghost prev = r@;
            let ghost prev_dv = r.deep_view();
            r.push(c);
            proof {
                assert(r@ == prev.push(c));
                assert forall|m: int| 0 <= m < prev_dv.len() + 1 implies r.deep_view()[m] == (
                prev_dv.push(b[i as int]))[m] by {
                    assert(prev_dv.len() == prev.len());
                    if m < prev_dv.len() {
                        assert(prev.push(c)[m] == prev[m]);
                        assert(r@[m] == prev[m]);
                    } else {
                        assert(prev.push(c)[m] == c);
                        assert(r@[m] == c);
                    }
                }
                assert(r.deep_view() =~= prev_dv.push(b[i as int]));
                assert(r.deep_view() == b.take(i + 1).filter(pred));
            }
        }
        i += 1;
    }
    proof {
        reveal(Seq::filter);
        assert(b.take(filtered_txns.len() as int) =~= b);
    }
    r
}

/// The fraction of the tracked subset that landed in the produced block:
/// `subset_in_block_count / subset_count`, undefined for an empty subset so
/// that "no data" is never read as "zero probability".
pub fn compute_conditional_probability(
    subset_in_block_count: usize,
    subset_count: usize,
) -> (r: Option<Ratio>)
    ensures
        r is None <==> subset_count == 0,
        subset_count > 0 ==> r == Some(
            Ratio { num: subset_in_block_count as u128, den: subset_count as u128 },
        ),
{
    if subset_count == 0 {
        None
    } else {
        Some(Ratio { num: subset_in_block_count as u128, den: subset_count as u128 })
    }
}

/// Whenever the subset is non-empty, its conditional probability is a
/// well-formed rational between zero and one.
pub proof fn lemma_conditional_probability_in_unit_interval(
    subset_in_block_count: usize,
    subset_count: usize,
)
    requires
        subset_in_block_count <= subset_count,
        subset_count > 0,
    ensures
        (Ratio { num: subset_in_block_count as u128, den: subset_count as u128 }).wf(),
        ratio_le(
            Ratio { num: 0, den: 1 },
            Ratio { num: subset_in_block_count as u128, den: subset_count as u128 },
        ),
        ratio_le(
            Ratio { num: subset_in_block_count as u128, den: subset_count as u128 },
            Ratio { num: 1, den: 1 },
        ),
{
}

/// The predicate rules a subset command selects, given the tick's fee-rate
/// threshold: the fee-tier rules first, then the input and output count
/// rules.
pub open spec fn subset_filters(c: Commands, threshold: Ratio) -> Seq<MempoolFilter> {
    match c {
        Commands::SubsetSample { low_fee_txns, high_fee_txns, inputs, outputs } => {
            let s0 = Seq::<MempoolFilter>::empty();
            let s1 = if low_fee_txns {
                s0.push(MempoolFilter::LowFee(LowFeeFilter { threshold }))
            } else {
                s0
            };
            let s2 = if high_fee_txns {
                s1.push(MempoolFilter::HighFee(HighFeeFilter { threshold }))
            } else {
                s1
            };
            let s3 = match inputs {
                Some(rule) => s2.push(
                    MempoolFilter::InputsCount(
                        InputsCountFilter { comparison: rule.0, count: rule.1 },
                    ),
                ),
                None => s2,
            };
            match outputs {
                Some(rule) => s3.push(
                    MempoolFilter::OutputsCount(
                        OutputsCountFilter { comparison: rule.0, count: rule.1 },
                    ),
                ),
                None => s3,
            }
        },
    }
}

/// The command asks for a fee-tier rule but the tick has no defined
/// fee-rate threshold to compare against.
pub open spec fn fee_rule_undefined(c: Commands, threshold: Option<Ratio>) -> bool {
    match c {
        Commands::SubsetSample { low_fee_txns, high_fee_txns, .. } => (low_fee_txns
            || high_fee_txns) && threshold is None,
    }
}

/// The subset a command carves out of a batch under a tick's threshold. A
/// fee-tier rule with an undefined threshold retains nothing: an undefined
/// fee rate compares with no record.
pub open spec fn subset_spec(c: Commands, threshold: Option<Ratio>, b: Seq<TxView>) -> Seq<
    TxView,
> {
    if fee_rule_undefined(c, threshold) {
        Seq::empty()
    } else {
        let fs = match threshold {
            Some(th) => subset_filters(c, th),
            None => subset_filters(c, Ratio { num: 0, den: 1 }),
        };
        b.filter(|t: TxView| all_filters_hold(fs, t))
    }
}

/// What estimating over a batch yields for a tick: a defined estimate, no
/// estimate when the template is empty, or the fatal cycle error.
pub open spec fn optional_estimate(b: Seq<TxView>) -> Result<Option<Ratio>, AnalyzerError> {
    match median_estimate(b) {
        Ok(x) => Ok(Some(x)),
        Err(AnalyzerError::EmptyTemplate) => Ok(None),
        Err(e) => Err(e),
    }
}

proof fn lemma_filter_preserves_wf(b: Seq<TxView>, pred: spec_fn(TxView) -> bool)
    requires
        wf_batch(b),
    ensures
        wf_batch(b.filter(pred)),
    decreases b.len(),
{
    reveal(Seq::filter);
    if b.len() > 0 {
        assert(wf_batch(b.drop_last())) by {
            assert forall|i: int| 0 <= i < b.drop_last().len() implies (
            #[trigger] b.drop_last()[i]).wf() by {
                assert(b.drop_last()[i] == b[i]);
            }
        }
        lemma_filter_preserves_wf(b.drop_last(), pred);
        let out = b.filter(pred);
        let inner = b.drop_last().filter(pred);
        assert forall|i: int| 0 <= i < out.len() implies (#[trigger] out[i]).wf() by {
            if pred(b.last()) {
                if i < inner.len() {
                    assert(out[i] == inner[i]);
                } else {
                    assert(out[i] == b.last());
                }
            } else {
                assert(out[i] == inner[i]);
            }
        }
    }
}

proof fn lemma_subset_spec_wf(c: Commands, th: Option<Ratio>, b: Seq<TxView>)
    requires
        wf_batch(b),
    ensures
        wf_batch(subset_spec(c, th, b)),
        subset_spec(c, th, b).len() <= b.len(),
{
    if !fee_rule_undefined(c, th) {
        let fs = match th {
            Some(t) => subset_filters(c, t),
            None => subset_filters(c, Ratio { num: 0, den: 1 }),
        };
        let pred = |t: TxView| all_filters_hold(fs, t);
        lemma_filter_preserves_wf(b, pred);
        b.lemma_filter_len(pred);
    }
}

proof fn lemma_estimate_errors(b: Seq<TxView>)
    requires
        wf_batch(b),
        b.len() <= usize::MAX,
    ensures
        (median_estimate(b) == Err::<Ratio, AnalyzerError>(AnalyzerError::CyclicDependency))
            <==> has_dependency_cycle(b),
        optional_estimate(b) is Err <==> has_dependency_cycle(b),
        optional_estimate(b) is Err ==> optional_estimate(b) == Err::<
            Option<Ratio>,
            AnalyzerError,
        >(AnalyzerError::CyclicDependency),
{
    crate::block_data::lemma_template_laws(b);
}

/// Raw filter inputs of one subset computation: the configuration and
/// strategy in force, the tick's fee-rate threshold (absent when no estimate
/// was defined), and the batch to narrow.
#[derive(Debug)]
pub struct MempoolFilterParams {
    pub config: Config,
    pub runner: Runner,
    pub threshold: Option<Ratio>,
    pub mempool_txns: Vec<MempoolTransaction>,
}

/// Narrows the batch to the configured subset and estimates the subset's
/// own fee rate. The subset is the conjunction of the configured rules; the
/// subset estimate is absent when the subset's template is empty; a cyclic
/// subset is the fatal input-data error.
pub fn fetch_mempool_txns_subset(filter_params: MempoolFilterParams) -> (r: Result<
    (Vec<MempoolTransaction>, Option<Ratio>),
    AnalyzerError,
>)
    requires
        wf_batch(filter_params.mempool_txns.deep_view()),
        filter_params.threshold is Some ==> filter_params.threshold->Some_0.wf()
            && filter_params.threshold->Some_0.den <= u64::MAX,
    ensures
        ({
            let sub = subset_spec(
                filter_params.config.commands,
                filter_params.threshold,
                filter_params.mempool_txns.deep_view(),
            );
            match optional_estimate(sub) {
                Ok(est) => r is Ok && r->Ok_0.0.deep_view() == sub && r->Ok_0.1 == est,
                Err(e) => r == Result::<(Vec<MempoolTransaction>, Option<Ratio>), AnalyzerError>::Err(
                    e,
                ),
            }
        }),
{
    let ghost b = filter_params.mempool_txns.deep_view();
    let ghost sub = subset_spec(filter_params.config.commands, filter_params.threshold, b);
    match &filter_params.config.commands {
        Commands::SubsetSample { low_fee_txns, high_fee_txns, inputs, outputs } => {
            let mut filters: Vec<MempoolFilter> = Vec::new();
            if *low_fee_txns || *high_fee_txns {
                match &filter_params.threshold {
                    None => {
                        proof {
                            lemma_empty_batch_estimate();
                            assert(sub =~= Seq::<TxView>::empty());
                        }
                        let empty_subset: Vec<MempoolTransaction> = Vec::new();
                        proof {
                            assert(empty_subset.deep_view() =~= sub);
                        }
                        return Ok((empty_subset, None));
                    },
                    Some(th) => {
                        if *low_fee_txns {
                            filters.push(MempoolFilter::LowFee(LowFeeFilter { threshold: *th }));
                        }
                        if *high_fee_txns {
                            filters.push(MempoolFilter::HighFee(HighFeeFilter { threshold: *th }));
                        }
                    },
                }
            }
            match inputs {
                Some(rule) => {
                    filters.push(
                        MempoolFilter::InputsCount(
                            InputsCountFilter { comparison: rule.0, count: rule.1 },
                        ),
                    );
                },
                None => {},
            }
            match outputs {
                Some(rule) => {
                    filters.push(
                        MempoolFilter::OutputsCount(
                            OutputsCountFilter { comparison: rule.0, count: rule.1 },
                        ),
                    );
                },
                None => {},
            }
            proof {
                let fs = match filter_params.threshold {
                    Some(t) => subset_filters(filter_params.config.commands, t),
                    None => subset_filters(
                        filter_params.config.commands,
                        Ratio { num: 0, den: 1 },
                    ),
                };
                assert(filters@ =~= fs);
                assert(filters_wf(filters@));
            }
            let filtered = filter_mempool_txns(&filter_params.mempool_txns, &filters);
            proof {
                assert(filtered.deep_view() == sub);
                lemma_subset_spec_wf(filter_params.config.commands, filter_params.threshold, b);
            }
            match filter_params.runner.strategy.estimate_fee_rate(&filtered) {
                Ok(x) => Ok((filtered, Some(x))),
                Err(AnalyzerError::EmptyTemplate) => Ok((filtered, None)),
                Err(e) => Err(e),
            }
        },
    }
}

/// The fee-rate threshold a tick derives from a batch: the median estimate
/// when it is defined, absent otherwise.
pub open spec fn tick_threshold(b: Seq<TxView>) -> Option<Ratio> {
    match median_estimate(b) {
        Ok(x) => Some(x),
        Err(_) => None,
    }
}

/// The subset a tick carves out of a batch, under the threshold estimated
/// from that same batch.
pub open spec fn tick_subset_of(c: Commands, b: Seq<TxView>) -> Seq<TxView> {
    subset_spec(c, tick_threshold(b), b)
}

/// Everything a tick computes exists exactly when none of the dependency
/// graphs it builds (over the batches it estimates) is cyclic.
pub open spec fn tick_computation_ok(
    c: Commands,
    snap: SnapshotDataView,
    pool: Seq<TxView>,
    found: bool,
) -> bool {
    &&& (found ==> !has_dependency_cycle(snap.mempool_txns) && !has_dependency_cycle(
        tick_subset_of(c, snap.mempool_txns),
    ))
    &&& !has_dependency_cycle(pool)
    &&& !has_dependency_cycle(tick_subset_of(c, pool))
}

/// The record a discovered block completes: the tracked heights, hashes and
/// estimates carried in the snapshot, the subset recomputed over the
/// snapshot's pool, and the intersection with the block's identifiers.
pub open spec fn correlation_record_spec(
    snap: SnapshotDataView,
    c: Commands,
    hash: Seq<char>,
    block: Seq<Seq<char>>,
    discovery_timestamp: Seq<char>,
) -> AnalyzerResultView {
    let filtered = tick_subset_of(c, snap.mempool_txns);
    let common = filtered.filter(|t: TxView| block.contains(t.txid));
    AnalyzerResultView {
        prev_block_height: snap.analyzer_result.prev_block_height,
        prev_block_hash: snap.analyzer_result.prev_block_hash,
        target_block_height: snap.analyzer_result.target_block_height,
        target_block_hash: hash,
        mempool_fee_rate_estimate: snap.analyzer_result.mempool_fee_rate_estimate,
        mempool_subset_fee_rate_estimate: snap.analyzer_result.mempool_subset_fee_rate_estimate,
        mempool_subset_txns_count: filtered.len() as usize,
        target_block_txns_count: block.len() as usize,
        mempool_subset_txns_in_target_block_count: common.len() as usize,
        conditional_probability: if filtered.len() == 0 {
            None
        } else {
            Some(Ratio { num: common.len() as u128, den: filtered.len() as u128 })
        },
        mempool_depth: snap.mempool_txns.len() as usize,
        blocks_found_count: (snap.analyzer_result.blocks_found_count + 1) as usize,
        block_discovery_timestamp: discovery_timestamp,
        snapshot_timestamp: snap.analyzer_result.snapshot_timestamp,
    }
}

/// The record a tick carries forward for the next height: the fresh
/// estimates, subset and pool depth over the current pool, placeholder
/// correlation fields, and the running block count.
pub open spec fn fresh_record_spec(
    c: Commands,
    pool: Seq<TxView>,
    prev_block_height: u32,
    prev_block_hash: Seq<char>,
    snapshot_timestamp: Seq<char>,
    blocks_found_count: usize,
) -> AnalyzerResultView {
    let filtered = tick_subset_of(c, pool);
    AnalyzerResultView {
        prev_block_height: prev_block_height,
        prev_block_hash: prev_block_hash,
        target_block_height: (prev_block_height + 1) as u32,
        target_block_hash: Seq::empty(),
        mempool_fee_rate_estimate: tick_threshold(pool),
        mempool_subset_fee_rate_estimate: match median_estimate(filtered) {
            Ok(x) => Some(x),
            Err(_) => None,
        },
        mempool_subset_txns_count: filtered.len() as usize,
        target_block_txns_count: 0,
        mempool_subset_txns_in_target_block_count: 0,
        conditional_probability: if filtered.len() == 0 {
            None
        } else {
            Some(Ratio { num: 0, den: filtered.len() as u128 })
        },
        mempool_depth: pool.len() as usize,
        blocks_found_count: blocks_found_count,
        block_discovery_timestamp: Seq::empty(),
        snapshot_timestamp: snapshot_timestamp,
    }
}

/// The plain values a tick reads from the collaborators before deciding:
/// the current previous-block height and hash, and the tick's timestamp.
#[derive(Debug)]
pub struct TickInputs {
    pub prev_block_height: u32,
    pub prev_block_hash: String,
    pub snapshot_timestamp: String,
}

/// The data fetched for a discovered block: its hash, its transactions and
/// the discovery timestamp.
#[derive(Debug)]
pub struct BlockDiscovery {
    pub target_block_hash: String,
    pub block_txns: Vec<BlockTransaction>,
    pub discovery_timestamp: String,
}

/// What one tick produced: the completed correlation record when a block
/// was discovered, and the fresh record that becomes the new snapshot.
#[derive(Debug)]
pub struct TickEvaluation {
    pub correlation_result: Option<AnalyzerResult>,
    pub fresh_result: AnalyzerResult,
}

fn clone_txns(txns: &Vec<MempoolTransaction>) -> (r: Vec<MempoolTransaction>)
    ensures
        r.deep_view() == txns.deep_view(),
{
    let mut r: Vec<MempoolTransaction> = Vec::new();
    let mut i: usize = 0;
    while i < txns.len()
        invariant
            0 <= i <= txns.len(),
            r@.len() == i,
            forall|j: int| 0 <= j < i ==> (#[trigger] r.deep_view()[j]) == txns.deep_view()[j],
        decreases txns.len() - i,
    {
        let c = txns[i].clone();
        let ghost prev = r@;
        let ghost prev_dv = r.deep_view();
        r.push(c);
        proof {
            assert(r@ == prev.push(c));
            assert forall|j: int| 0 <= j < i + 1 implies (#[trigger] r.deep_view()[j])
                == txns.deep_view()[j] by {
                if j < i {
                    assert(prev.push(c)[j] == prev[j]);
                    assert(r@[j] == prev[j]);
                    assert(prev_dv[j] == txns.deep_view()[j]);
                } else {
                    assert(prev.push(c)[j] == c);
                    assert(r@[j] == c);
                }
            }
        }
        i += 1;
    }
    proof {
        assert(r.deep_view() =~= txns.deep_view());
    }
    r
}

/// One tick of the correlation engine, as a pure computation: when the
/// tracked height has been produced (`discovery` carries its block), the
/// previously tracked subset is correlated against the block; in every case
/// a fresh estimate and subset over the current pool become the record to
/// carry forward. The caller performs every fetch and the final commit.
pub fn evaluate_tick(
    config: &Config,
    runner: &Runner,
    last_snapshot: &SnapshotData,
    mempool_txns: &Vec<MempoolTransaction>,
    tick: TickInputs,
    discovery: Option<BlockDiscovery>,
) -> (r: Result<TickEvaluation, AnalyzerError>)
    requires
        wf_batch(last_snapshot@.mempool_txns),
        wf_batch(mempool_txns.deep_view()),
        tick.prev_block_height < u32::MAX,
        last_snapshot@.analyzer_result.blocks_found_count < usize::MAX,
        (discovery is Some) == (last_snapshot@.target_block_height < tick.prev_block_height + 1),
    ensures
        r is Ok <==> tick_computation_ok(
            config.commands,
            last_snapshot@,
            mempool_txns.deep_view(),
            discovery is Some,
        ),
        r is Err ==> r == Result::<TickEvaluation, AnalyzerError>::Err(
            AnalyzerError::CyclicDependency,
        ),
        r is Ok && discovery is Some ==> r->Ok_0.correlation_result is Some
            && r->Ok_0.correlation_result->Some_0@ == correlation_record_spec(
            last_snapshot@,
            config.commands,
            discovery->Some_0.target_block_hash@,
            discovery->Some_0.block_txns.deep_view(),
            discovery->Some_0.discovery_timestamp@,
        ),
        r is Ok && discovery is None ==> r->Ok_0.correlation_result is None,
        r is Ok ==> r->Ok_0.fresh_result@ == fresh_record_spec(
            config.commands,
            mempool_txns.deep_view(),
            tick.prev_block_height,
            tick.prev_block_hash@,
            tick.snapshot_timestamp@,
            if discovery is Some {
                (last_snapshot@.analyzer_result.blocks_found_count + 1) as usize
            } else {
                last_snapshot@.analyzer_result.blocks_found_count
            },
        ),
{
    let ghost snapv = last_snapshot@;
    let ghost poolv = mempool_txns.deep_view();
    let ghost c = config.commands;
    let target_block_height = tick.prev_block_height + 1;
    let found = check_if_target_block_found(last_snapshot.target_block_height, target_block_height);
    let mut blocks_found_count = last_snapshot.analyzer_result.blocks_found_count;
    let mut correlation_result: Option<AnalyzerResult> = None;
    proof {
        assert(snapv.mempool_txns.len() == last_snapshot.mempool_txns.len());
        lemma_estimate_errors(snapv.mempool_txns);
        lemma_subset_spec_wf(c, tick_threshold(snapv.mempool_txns), snapv.mempool_txns);
        lemma_estimate_errors(tick_subset_of(c, snapv.mempool_txns));
        assert(poolv.len() == mempool_txns.len());
        lemma_estimate_errors(poolv);
        lemma_subset_spec_wf(c, tick_threshold(poolv), poolv);
        lemma_estimate_errors(tick_subset_of(c, poolv));
    }
    if found {
        let disc = match discovery {
            Some(d) => d,
            None => {
                proof {
                    assert(false);
                }
                return Err(AnalyzerError::SomethingWentWrong);
            },
        };
        let fee_rate_estimate = match runner.strategy.estimate_fee_rate(
            &last_snapshot.mempool_txns,
        ) {
            Ok(x) => Some(x),
            Err(AnalyzerError::EmptyTemplate) => None,
            Err(e) => {
                return Err(e);
            },
        };
        proof {
            assert(fee_rate_estimate == tick_threshold(snapv.mempool_txns));
        }
        let filter_params = MempoolFilterParams {
            config: config.clone(),
            runner: *runner,
            threshold: fee_rate_estimate,
            mempool_txns: clone_txns(&last_snapshot.mempool_txns),
        };
        let (filtered_txns, _subset_estimate) = match fetch_mempool_txns_subset(filter_params) {
            Ok(p) => p,
            Err(e) => {
                return Err(e);
            },
        };
        let filtered_txns_in_block = find_common_transactions(&filtered_txns, &disc.block_txns);
        blocks_found_count = blocks_found_count + 1;
        let conditional_probability = compute_conditional_probability(
            filtered_txns_in_block.len(),
            filtered_txns.len(),
        );
        let record = AnalyzerResult {
            prev_block_height: last_snapshot.analyzer_result.prev_block_height,
            prev_block_hash: last_snapshot.analyzer_result.prev_block_hash.clone(),
            target_block_height: last_snapshot.analyzer_result.target_block_height,
            target_block_hash: disc.target_block_hash,
            mempool_fee_rate_estimate: last_snapshot.analyzer_result.mempool_fee_rate_estimate,
            mempool_subset_fee_rate_estimate:
                last_snapshot.analyzer_result.mempool_subset_fee_rate_estimate,
            mempool_subset_txns_count: filtered_txns.len(),
            target_block_txns_count: disc.block_txns.len(),
            mempool_subset_txns_in_target_block_count: filtered_txns_in_block.len(),
            conditional_probability,
            mempool_depth: last_snapshot.mempool_txns.len(),
            blocks_found_count,
            block_discovery_timestamp: disc.discovery_timestamp,
            snapshot_timestamp: last_snapshot.analyzer_result.snapshot_timestamp.clone(),
        };
        proof {
            assert(record@ == correlation_record_spec(
                snapv,
                c,
                disc.target_block_hash@,
                disc.block_txns.deep_view(),
                disc.discovery_timestamp@,
            ));
        }
        correlation_result = Some(record);
    }
    let fresh_estimate = match runner.strategy.estimate_fee_rate(mempool_txns) {
        Ok(x) => Some(x),
        Err(AnalyzerError::EmptyTemplate) => None,
        Err(e) => {
            return Err(e);
        },
    };
    proof {
        assert(fresh_estimate == tick_threshold(poolv));
    }
    let filter_params = MempoolFilterParams {
        config: config.clone(),
        runner: *runner,
        threshold: fresh_estimate,
        mempool_txns: clone_txns(mempool_txns),
    };
    let (filtered_txns, subset_fee_rate_estimate) = match fetch_mempool_txns_subset(
        filter_params,
    ) {
        Ok(p) => p,
        Err(e) => {
            return Err(e);
        },
    };
    let fresh_result = AnalyzerResult {
        prev_block_height: tick.prev_block_height,
        prev_block_hash: tick.prev_block_hash,
        target_block_height,
        target_block_hash: String::new(),
        mempool_fee_rate_estimate: fresh_estimate,
        mempool_subset_fee_rate_estimate: subset_fee_rate_estimate,
        mempool_subset_txns_count: filtered_txns.len(),
        target_block_txns_count: 0,
        mempool_subset_txns_in_target_block_count: 0,
        conditional_probability: compute_conditional_probability(0, filtered_txns.len()),
        mempool_depth: mempool_txns.len(),
        blocks_found_count,
        block_discovery_timestamp: String::new(),
        snapshot_timestamp: tick.snapshot_timestamp,
    };
    proof {
        assert(fresh_result@ == fresh_record_spec(
            c,
            poolv,
            tick.prev_block_height,
            tick.prev_block_hash@,
            tick.snapshot_timestamp@,
            blocks_found_count,
        ));
    }
    Ok(TickEvaluation { correlation_result, fresh_result })
}

/// The run is over once the configured number of blocks has been observed.
pub fn analysis_complete(blocks_found_count: usize, duration: usize) -> (done: bool)
    ensures
        done == (blocks_found_count >= duration),
{
    blocks_found_count >= duration
}

proof fn lemma_empty_batch_estimate()
    ensures
        optional_estimate(Seq::<TxView>::empty()) == Result::<
            Option<Ratio>,
            AnalyzerError,
        >::Ok(None),
{
    let b = Seq::<TxView>::empty();
    assert(crate::block_data::stable_fee_order_up_to(b, 0) =~= Seq::<usize>::empty());
    assert(crate::block_data::stable_topo_from(b, Seq::<usize>::empty(), Seq::<usize>::empty())
        == Some(Seq::<usize>::empty()));
    assert(crate::block_data::greedy_select(b, Seq::<usize>::empty(), 0) =~= Seq::<
        usize,
    >::empty());
    assert(crate::block_data::template_of(b)->Some_0.len() == 0);
}

} // verus!
