//! Block template simulation.
//!
//! `BlockBuilder::build_block` simulates a capacity-constrained block over a
//! batch of pool records in three passes: a stable sort ascending by fee
//! rate, a stable ancestor-respecting linearization of the dependency graph,
//! and a single greedy walk that accepts records while the cumulative weight
//! stays within the capacity constant. Each pass is specified by a recursive
//! function over the batch, and the laws the template obeys (ancestors
//! first, capacity respected, stability for dependency-free batches) are
//! proved from those specifications.

use vstd::prelude::*;
use vstd::multiset::Multiset;
use crate::mempool_data::{MempoolTransaction, TxView, wf_batch};
use crate::ratio::Ratio;
use crate::runner::AnalyzerError;

verus! {

/// The fixed weight capacity of a simulated block.
pub const MAX_BLOCK_WEIGHT: u64 = 4_000_000;

// ---------------------------------------------------------------------------
// Fee-rate ordering
// ---------------------------------------------------------------------------

/// `a`'s fee rate is strictly below `b`'s: `a.fee / a.weight < b.fee / b.weight`,
/// by cross multiplication.
pub open spec fn rate_lt(a: TxView, b: TxView) -> bool {
    a.fee * b.weight < b.fee * a.weight
}

/// The two records have the same fee rate.
pub open spec fn rate_eq(a: TxView, b: TxView) -> bool {
    a.fee * b.weight == b.fee * a.weight
}

/// The strict total order the pre-sort uses: ascending fee rate, with ties
/// broken by the position in the input batch. Breaking ties this way is what
/// makes the sort stable.
pub open spec fn key_lt(b: Seq<TxView>, i: int, j: int) -> bool {
    rate_lt(b[i], b[j]) || (rate_eq(b[i], b[j]) && i < j)
}

proof fn lemma_u64_mul_fits_u128(a: u64, b: u64)
    ensures
        (a as int) * (b as int) <= u128::MAX,
{
    assert((a as int) * (b as int) <= (u64::MAX as int) * (u64::MAX as int) && (u64::MAX as int)
        * (u64::MAX as int) < u128::MAX) by (nonlinear_arith)
        requires
            a as int <= u64::MAX,
            b as int <= u64::MAX,
    ;
}

/// Strict fee-rate order is transitive over records with positive weights.
pub proof fn lemma_rate_lt_trans(a: TxView, b: TxView, c: TxView)
    requires
        a.wf(),
        b.wf(),
        c.wf(),
        rate_lt(a, b),
        rate_lt(b, c),
    ensures
        rate_lt(a, c),
{
    assert(a.fee * c.weight < c.fee * a.weight) by (nonlinear_arith)
        requires
            a.weight > 0,
            b.weight > 0,
            c.weight > 0,
            a.fee * b.weight < b.fee * a.weight,
            b.fee * c.weight < c.fee * b.weight,
    ;
}

/// A strict step followed by an equal-rate step stays strict.
pub proof fn lemma_rate_lt_eq_trans(a: TxView, b: TxView, c: TxView)
    requires
        a.wf(),
        b.wf(),
        c.wf(),
        rate_lt(a, b),
        rate_eq(b, c),
    ensures
        rate_lt(a, c),
{
    assert(a.fee * c.weight < c.fee * a.weight) by (nonlinear_arith)
        requires
            a.weight > 0,
            b.weight > 0,
            c.weight > 0,
            a.fee * b.weight < b.fee * a.weight,
            b.fee * c.weight == c.fee * b.weight,
    ;
}

/// An equal-rate step followed by a strict step stays strict.
pub proof fn lemma_rate_eq_lt_trans(a: TxView, b: TxView, c: TxView)
    requires
        a.wf(),
        b.wf(),
        c.wf(),
        rate_eq(a, b),
        rate_lt(b, c),
    ensures
        rate_lt(a, c),
{
    assert(a.fee * c.weight < c.fee * a.weight) by (nonlinear_arith)
        requires
            a.weight > 0,
            b.weight > 0,
            c.weight > 0,
            a.fee * b.weight == b.fee * a.weight,
            b.fee * c.weight < c.fee * b.weight,
    ;
}

/// Equal fee rate is transitive over records with positive weights.
pub proof fn lemma_rate_eq_trans(a: TxView, b: TxView, c: TxView)
    requires
        a.wf(),
        b.wf(),
        c.wf(),
        rate_eq(a, b),
        rate_eq(b, c),
    ensures
        rate_eq(a, c),
{
    assert(a.fee * c.weight == c.fee * a.weight) by (nonlinear_arith)
        requires
            a.weight > 0,
            b.weight > 0,
            c.weight > 0,
            a.fee * b.weight == b.fee * a.weight,
            b.fee * c.weight == c.fee * b.weight,
    ;
}

/// The tie-broken key order is transitive.
pub proof fn lemma_key_lt_trans(b: Seq<TxView>, i: int, j: int, k: int)
    requires
        wf_batch(b),
        0 <= i < b.len(),
        0 <= j < b.len(),
        0 <= k < b.len(),
        key_lt(b, i, j),
        key_lt(b, j, k),
    ensures
        key_lt(b, i, k),
{
    if rate_lt(b[i], b[j]) {
        if rate_lt(b[j], b[k]) {
            lemma_rate_lt_trans(b[i], b[j], b[k]);
        } else {
            lemma_rate_lt_eq_trans(b[i], b[j], b[k]);
        }
    } else {
        if rate_lt(b[j], b[k]) {
            lemma_rate_eq_lt_trans(b[i], b[j], b[k]);
        } else {
            lemma_rate_eq_trans(b[i], b[j], b[k]);
        }
    }
}

// ---------------------------------------------------------------------------
// The stable fee-rate pre-sort, as a recursive specification
// ---------------------------------------------------------------------------

/// Inserts batch index `k` into the sorted index sequence `ord`, after every
/// entry that is not strictly above it in the key order.
pub open spec fn insert_sorted(b: Seq<TxView>, ord: Seq<usize>, k: usize) -> Seq<usize>
    decreases ord.len(),
{
    if ord.len() == 0 {
        seq![k]
    } else if !key_lt(b, k as int, ord.last() as int) {
        ord.push(k)
    } else {
        insert_sorted(b, ord.drop_last(), k).push(ord.last())
    }
}

/// The stable ascending fee-rate order of the first `n` records: insertion
/// sort, taking batch indices in input order.
pub open spec fn stable_fee_order_up_to(b: Seq<TxView>, n: int) -> Seq<usize>
    decreases n,
{
    if n <= 0 {
        Seq::empty()
    } else {
        insert_sorted(b, stable_fee_order_up_to(b, n - 1), (n - 1) as usize)
    }
}

/// The stable ascending fee-rate order of the whole batch.
pub open spec fn stable_fee_order(b: Seq<TxView>) -> Seq<usize> {
    stable_fee_order_up_to(b, b.len() as int)
}

/// `ord` enumerates the batch indices `0 .. n` exactly once each.
pub open spec fn is_order_of(n: int, ord: Seq<usize>) -> bool {
    &&& ord.len() == n
    &&& forall|p: int| 0 <= p < ord.len() ==> (#[trigger] ord[p]) < n
    &&& forall|p: int, q: int|
        0 <= p < q < ord.len() ==> #[trigger] ord[p] != #[trigger] ord[q]
    &&& forall|k: int| 0 <= k < n ==> #[trigger] ord.contains(k as usize)
}

/// Every pair of positions of `ord` is in key order.
pub open spec fn is_sorted_by_key(b: Seq<TxView>, ord: Seq<usize>) -> bool {
    forall|p: int, q: int| 0 <= p < q < ord.len() ==> key_lt(b, ord[p] as int, ord[q] as int)
}

proof fn lemma_insert_sorted_props(b: Seq<TxView>, ord: Seq<usize>, k: usize, n: int)
    requires
        wf_batch(b),
        n <= b.len(),
        k < n,
        forall|p: int| 0 <= p < ord.len() ==> (#[trigger] ord[p]) < n,
        forall|p: int| 0 <= p < ord.len() ==> (#[trigger] ord[p]) != k,
        is_sorted_by_key(b, ord),
    ensures
        insert_sorted(b, ord, k).len() == ord.len() + 1,
        forall|x: usize|
            #[trigger] insert_sorted(b, ord, k).contains(x) <==> (ord.contains(x) || x == k),
        forall|p: int| 0 <= p < insert_sorted(b, ord, k).len() ==> (#[trigger] insert_sorted(
            b,
            ord,
            k,
        )[p]) < n,
        is_sorted_by_key(b, insert_sorted(b, ord, k)),
    decreases ord.len(),
{
    let res = insert_sorted(b, ord, k);
    if ord.len() == 0 {
        assert forall|x: usize| res.contains(x) <==> (ord.contains(x) || x == k) by {
            if x == k {
                assert(res[0] == k);
            }
        }
    } else if !key_lt(b, k as int, ord.last() as int) {
        // k goes at the end: every entry of ord is key-below k.
        assert forall|p: int| 0 <= p < ord.len() implies key_lt(b, ord[p] as int, k as int) by {
            // key totality: distinct indices are strictly ordered one way.
            assert(key_lt(b, ord[p] as int, k as int) || key_lt(b, k as int, ord[p] as int));
            if key_lt(b, k as int, ord[p] as int) {
                if p < ord.len() - 1 {
                    lemma_key_lt_trans(b, k as int, ord[p] as int, ord.last() as int);
                }
            }
        }
        assert forall|x: usize| res.contains(x) <==> (ord.contains(x) || x == k) by {
            if res.contains(x) {
                let p = choose|p: int| 0 <= p < res.len() && res[p] == x;
                if p < ord.len() {
                    assert(ord[p] == x);
                }
            }
            if ord.contains(x) {
                let p = choose|p: int| 0 <= p < ord.len() && ord[p] == x;
                assert(res[p] == x);
            }
            if x == k {
                assert(res[ord.len() as int] == x);
            }
        }
    } else {
        let inner = insert_sorted(b, ord.drop_last(), k);
        lemma_insert_sorted_props(b, ord.drop_last(), k, n);
        // res == inner.push(ord.last())
        assert forall|x: usize| res.contains(x) <==> (ord.contains(x) || x == k) by {
            if res.contains(x) {
                let p = choose|p: int| 0 <= p < res.len() && res[p] == x;
                if p < inner.len() {
                    assert(inner[p] == x);
                    assert(inner.contains(x));
                    if x != k {
                        let q = choose|q: int| 0 <= q < ord.drop_last().len() && ord.drop_last()[q]
                            == x;
                        assert(ord[q] == x);
                    }
                } else {
                    assert(x == ord.last());
                    assert(ord[ord.len() - 1] == x);
                }
            }
            if ord.contains(x) {
                let p = choose|p: int| 0 <= p < ord.len() && ord[p] == x;
                if p < ord.len() - 1 {
                    assert(ord.drop_last()[p] == x);
                    assert(ord.drop_last().contains(x));
                    assert(inner.contains(x));
                    let q = choose|q: int| 0 <= q < inner.len() && inner[q] == x;
                    assert(res[q] == x);
                } else {
                    assert(res[res.len() - 1] == x);
                }
            }
            if x == k {
                assert(inner.contains(x));
                let q = choose|q: int| 0 <= q < inner.len() && inner[q] == x;
                assert(res[q] == x);
            }
        }
        // sortedness: pairs inside inner are sorted; the appended last entry
        // is key-above everything in inner.
        assert forall|p: int, q: int| 0 <= p < q < res.len() implies key_lt(
            b,
            res[p] as int,
            res[q] as int,
        ) by {
            if q < inner.len() {
            } else {
                // res[q] == ord.last(); res[p] is in inner, i.e. in
                // ord.drop_last() or k itself.
                assert(res[q] == ord.last());
                assert(inner[p] == res[p]);
                assert(inner.contains(inner[p]));
                let x = inner[p];
                if x == k {
                    assert(key_lt(b, k as int, ord.last() as int));
                } else {
                    assert(ord.drop_last().contains(x));
                    let r = choose|r: int| 0 <= r < ord.drop_last().len() && ord.drop_last()[r]
                        == x;
                    assert(ord[r] == x);
                    assert(key_lt(b, ord[r] as int, ord.last() as int));
                }
            }
        }
    }
}

/// The stable fee-rate order enumerates the batch once and is sorted by the
/// tie-broken key order.
pub proof fn lemma_stable_fee_order_props(b: Seq<TxView>, n: int)
    requires
        wf_batch(b),
        0 <= n <= b.len(),
        n <= usize::MAX,
    ensures
        is_order_of(n, stable_fee_order_up_to(b, n)),
        is_sorted_by_key(b, stable_fee_order_up_to(b, n)),
    decreases n,
{
    let ord = stable_fee_order_up_to(b, n);
    if n <= 0 {
    } else {
        let prev = stable_fee_order_up_to(b, n - 1);
        lemma_stable_fee_order_props(b, n - 1);
        assert forall|p: int| 0 <= p < prev.len() implies (#[trigger] prev[p]) != (n - 1) as usize
            by {
            assert(prev[p] < n - 1);
        }
        lemma_insert_sorted_props(b, prev, (n - 1) as usize, n);
        assert forall|p: int, q: int| 0 <= p < q < ord.len() implies #[trigger] ord[p]
            != #[trigger] ord[q] by {
            // sorted in a strict order, so entries at distinct positions differ
            assert(key_lt(b, ord[p] as int, ord[q] as int));
        }
        assert forall|k: int| 0 <= k < n implies #[trigger] ord.contains(k as usize) by {
            if k < n - 1 {
                assert(prev.contains(k as usize));
            }
        }
    }
}

// ---------------------------------------------------------------------------
// The executable pre-sort
// ---------------------------------------------------------------------------

/// Decides the key order between batch positions `i` and `j`.
fn key_lt_exec(txns: &Vec<MempoolTransaction>, i: usize, j: usize) -> (r: bool)
    requires
        i < txns.len(),
        j < txns.len(),
    ensures
        r == key_lt(txns.deep_view(), i as int, j as int),
{
    proof {
        lemma_u64_mul_fits_u128(txns[i as int].fee, txns[j as int].weight);
        lemma_u64_mul_fits_u128(txns[j as int].fee, txns[i as int].weight);
    }
    let left: u128 = (txns[i].fee as u128) * (txns[j].weight as u128);
    let right: u128 = (txns[j].fee as u128) * (txns[i].weight as u128);
    if left < right {
        true
    } else if left == right {
        i < j
    } else {
        false
    }
}

proof fn lemma_insert_sorted_at(b: Seq<TxView>, ord: Seq<usize>, k: usize, p: int)
    requires
        0 <= p <= ord.len(),
        p == 0 || !key_lt(b, k as int, ord[p - 1] as int),
        forall|j: int| p <= j < ord.len() ==> key_lt(b, k as int, (#[trigger] ord[j]) as int),
        is_sorted_by_key(b, ord),
    ensures
        insert_sorted(b, ord, k) == ord.insert(p, k),
    decreases ord.len(),
{
    if ord.len() == 0 {
        assert(insert_sorted(b, ord, k) =~= ord.insert(0, k));
    } else if !key_lt(b, k as int, ord.last() as int) {
        // k is not below the last entry, so p must be at the very end.
        assert(p == ord.len());
        assert(insert_sorted(b, ord, k) =~= ord.insert(p, k));
    } else {
        assert(p < ord.len());
        lemma_insert_sorted_at(b, ord.drop_last(), k, p);
        assert(insert_sorted(b, ord, k) =~= ord.insert(p, k));
    }
}

// ---------------------------------------------------------------------------
// The dependency graph and its stable linearization
// ---------------------------------------------------------------------------

/// `child` names `parent`'s identifier among its direct ancestors.
pub open spec fn depends_on(child: TxView, parent: TxView) -> bool {
    child.parent_txids.contains(parent.txid)
}

/// Edge `i -> j` of the dependency graph: record `j` of the batch depends on
/// record `i` of the same batch.
pub open spec fn is_parent(b: Seq<TxView>, i: int, j: int) -> bool {
    0 <= i < b.len() && 0 <= j < b.len() && depends_on(b[j], b[i])
}

/// The batch has no dependency edge at all.
pub open spec fn no_edges(b: Seq<TxView>) -> bool {
    forall|i: int, j: int| !is_parent(b, i, j)
}

/// Record `k` can be linearized next: all its in-batch parents are already in
/// `done`.
pub open spec fn ready(b: Seq<TxView>, k: int, done: Seq<usize>) -> bool {
    forall|i: int| #[trigger] is_parent(b, i, k) ==> done.contains(i as usize)
}

/// A set of batch indices in which every member has a parent inside the set.
/// A finite dependency graph admits such a set exactly when it has a cycle.
pub open spec fn cycle_witness(b: Seq<TxView>, s: Set<int>) -> bool {
    &&& exists|k: int| s.contains(k)
    &&& forall|k: int| #[trigger] s.contains(k) ==> 0 <= k < b.len()
    &&& forall|k: int|
        #[trigger] s.contains(k) ==> exists|i: int| s.contains(i) && is_parent(b, i, k)
}

/// The batch's dependency graph is cyclic.
pub open spec fn has_dependency_cycle(b: Seq<TxView>) -> bool {
    exists|s: Set<int>| cycle_witness(b, s)
}

/// The position of the first entry of `pending`, at or after position `q`,
/// that is ready given `done`.
pub open spec fn first_ready(b: Seq<TxView>, pending: Seq<usize>, done: Seq<usize>, q: int) -> Option<
    int,
>
    decreases pending.len() - q,
{
    if q < 0 || q >= pending.len() {
        None
    } else if ready(b, pending[q] as int, done) {
        Some(q)
    } else {
        first_ready(b, pending, done, q + 1)
    }
}

proof fn lemma_first_ready_bounds(b: Seq<TxView>, pending: Seq<usize>, done: Seq<usize>, q: int)
    requires
        0 <= q <= pending.len(),
    ensures
        match first_ready(b, pending, done, q) {
            Some(p) => q <= p < pending.len() && ready(b, pending[p] as int, done) && forall|j: int|
                q <= j < p ==> !ready(b, (#[trigger] pending[j]) as int, done),
            None => forall|j: int|
                q <= j < pending.len() ==> !ready(b, (#[trigger] pending[j]) as int, done),
        },
    decreases pending.len() - q,
{
    if q < pending.len() && !ready(b, pending[q] as int, done) {
        lemma_first_ready_bounds(b, pending, done, q + 1);
    }
}

/// The stable ancestor-respecting linearization: repeatedly take the first
/// still-pending record, in the order fed in, whose in-batch parents have all
/// been emitted. `None` exactly when the walk gets stuck, which happens
/// exactly on a cyclic graph.
pub open spec fn stable_topo_from(b: Seq<TxView>, pending: Seq<usize>, done: Seq<usize>) -> Option<
    Seq<usize>,
>
    decreases pending.len(),
    via stable_topo_from_dec
{
    if pending.len() == 0 {
        Some(done)
    } else {
        match first_ready(b, pending, done, 0) {
            None => None,
            Some(p) => stable_topo_from(b, pending.remove(p), done.push(pending[p])),
        }
    }
}

#[via_fn]
proof fn stable_topo_from_dec(b: Seq<TxView>, pending: Seq<usize>, done: Seq<usize>) {
    if pending.len() > 0 {
        lemma_first_ready_bounds(b, pending, done, 0);
    }
}

/// The full linearization of a batch: stable topological order seeded with
/// the stable fee-rate order.
pub open spec fn stable_topo_order(b: Seq<TxView>) -> Option<Seq<usize>> {
    stable_topo_from(b, stable_fee_order(b), Seq::empty())
}

proof fn lemma_stable_topo_props(b: Seq<TxView>, pending: Seq<usize>, done: Seq<usize>)
    requires
        stable_topo_from(b, pending, done) is Some,
        forall|p: int| 0 <= p < done.len() ==> ready(b, (#[trigger] done[p]) as int, done.take(p)),
    ensures
        stable_topo_from(b, pending, done)->Some_0.len() == done.len() + pending.len(),
        stable_topo_from(b, pending, done)->Some_0.to_multiset() == done.to_multiset().add(
            pending.to_multiset(),
        ),
        stable_topo_from(b, pending, done)->Some_0.take(done.len() as int) == done,
        forall|p: int|
            0 <= p < stable_topo_from(b, pending, done)->Some_0.len() ==> ready(
                b,
                (#[trigger] stable_topo_from(b, pending, done)->Some_0[p]) as int,
                stable_topo_from(b, pending, done)->Some_0.take(p),
            ),
    decreases pending.len(),
{
    broadcast use vstd::seq_lib::group_to_multiset_ensures;

    let t = stable_topo_from(b, pending, done)->Some_0;
    if pending.len() == 0 {
        assert(t.take(done.len() as int) =~= done);
        assert(t.to_multiset() =~= done.to_multiset().add(pending.to_multiset())) by {
            assert(pending.to_multiset() =~= Multiset::empty());
        }
    } else {
        lemma_first_ready_bounds(b, pending, done, 0);
        let p = first_ready(b, pending, done, 0)->Some_0;
        let k = pending[p];
        let pending2 = pending.remove(p);
        let done2 = done.push(k);
        assert forall|q: int| 0 <= q < done2.len() implies ready(
            b,
            (#[trigger] done2[q]) as int,
            done2.take(q),
        ) by {
            if q < done.len() {
                assert(done2.take(q) =~= done.take(q));
                assert(done2[q] == done[q]);
            } else {
                assert(done2[q] == k);
                assert(done2.take(q) =~= done);
            }
        }
        lemma_stable_topo_props(b, pending2, done2);
        assert(t.to_multiset() == done.to_multiset().add(pending.to_multiset())) by {
            assert(t.to_multiset() == done2.to_multiset().add(pending2.to_multiset()));
            assert(done2.to_multiset() =~= done.to_multiset().insert(k));
            assert(pending2.to_multiset() =~= pending.to_multiset().remove(k));
            assert(pending.contains(k));
            assert(pending.to_multiset().count(k) > 0);
            assert(done.to_multiset().insert(k).add(pending.to_multiset().remove(k))
                =~= done.to_multiset().add(pending.to_multiset()));
        }
        assert(t.take(done.len() as int) =~= done) by {
            assert(t.take(done2.len() as int) == done2);
            assert forall|j: int| 0 <= j < done.len() implies t[j] == done[j] by {
                assert(t.take(done2.len() as int)[j] == done2[j]);
            }
        }
    }
}

proof fn lemma_remove_keeps(pending: Seq<usize>, p: int)
    requires
        0 <= p < pending.len(),
        pending.no_duplicates(),
    ensures
        pending.remove(p).no_duplicates(),
        forall|x: usize|
            #[trigger] pending.remove(p).contains(x) <==> (pending.contains(x) && x != pending[p]),
{
    pending.remove_ensures(p);
    let rem = pending.remove(p);
    assert forall|x: usize| #[trigger] rem.contains(x) <==> (pending.contains(x) && x
        != pending[p]) by {
        if rem.contains(x) {
            let q = choose|q: int| 0 <= q < rem.len() && rem[q] == x;
            if q < p {
                assert(pending[q] == x);
            } else {
                assert(pending[q + 1] == x);
            }
        }
        if pending.contains(x) && x != pending[p] {
            let q = choose|q: int| 0 <= q < pending.len() && pending[q] == x;
            if q < p {
                assert(rem[q] == x);
            } else {
                assert(q > p);
                assert(rem[q - 1] == x);
            }
        }
    }
    assert forall|i: int, j: int| 0 <= i < rem.len() && 0 <= j < rem.len() && i != j implies rem[i]
        != rem[j] by {
        let i2: int = if i < p { i } else { i + 1 };
        let j2: int = if j < p { j } else { j + 1 };
        assert(rem[i] == pending[i2] && rem[j] == pending[j2]);
    }
}

proof fn lemma_topo_none_implies_cycle(b: Seq<TxView>, pending: Seq<usize>, done: Seq<usize>)
    requires
        b.len() <= usize::MAX,
        stable_topo_from(b, pending, done) is None,
        pending.no_duplicates(),
        forall|j: int| 0 <= j < pending.len() ==> (#[trigger] pending[j]) < b.len(),
        forall|x: usize| #[trigger] pending.contains(x) ==> !done.contains(x),
        forall|i: int|
            0 <= i < b.len() ==> done.contains(i as usize) || pending.contains(#[trigger] (
            i as usize)),
    ensures
        has_dependency_cycle(b),
    decreases pending.len(),
{
    broadcast use vstd::seq_lib::lemma_seq_contains_after_push;

    lemma_first_ready_bounds(b, pending, done, 0);
    match first_ready(b, pending, done, 0) {
        None => {
            // The walk is stuck: every pending record has a parent that is
            // neither emitted nor outside the batch, so the still-pending
            // records witness a cycle.
            let s = Set::new(|i: int| 0 <= i < b.len() && pending.contains(i as usize));
            assert(pending.len() > 0);
            assert(pending.contains(pending[0]));
            assert(s.contains(pending[0] as int));
            assert forall|k: int| #[trigger] s.contains(k) implies exists|i: int|
                s.contains(i) && is_parent(b, i, k) by {
                let q = choose|q: int| 0 <= q < pending.len() && pending[q] == k as usize;
                assert(!ready(b, pending[q] as int, done));
                let i = choose|i: int| is_parent(b, i, pending[q] as int) && !done.contains(
                    i as usize,
                );
                assert(pending.contains(i as usize));
                assert(s.contains(i));
                assert(is_parent(b, i, k));
            }
            assert(cycle_witness(b, s));
        },
        Some(p) => {
            let k = pending[p];
            lemma_remove_keeps(pending, p);
            let rem = pending.remove(p);
            let done2 = done.push(k);
            assert forall|j: int| 0 <= j < rem.len() implies (#[trigger] rem[j]) < b.len() by {
                assert(rem.contains(rem[j]));
                let q = choose|q: int| 0 <= q < pending.len() && pending[q] == rem[j];
            }
            assert forall|x: usize| #[trigger] rem.contains(x) implies !done2.contains(x) by {
                assert(pending.contains(x) && x != k);
                assert(!done.contains(x));
            }
            assert forall|i: int|
                0 <= i < b.len() implies done2.contains(i as usize) || rem.contains(#[trigger] (
                i as usize)) by {
                if !done.contains(i as usize) {
                    assert(pending.contains(i as usize));
                    if i as usize != k {
                        assert(rem.contains(i as usize));
                    }
                }
            }
            lemma_topo_none_implies_cycle(b, rem, done2);
        },
    }
}

proof fn lemma_prefix_excludes_witness(b: Seq<TxView>, t: Seq<usize>, s: Set<int>, p: int)
    requires
        b.len() <= usize::MAX,
        cycle_witness(b, s),
        forall|q: int| 0 <= q < t.len() ==> ready(b, (#[trigger] t[q]) as int, t.take(q)),
        t.no_duplicates(),
        0 <= p <= t.len(),
    ensures
        forall|q: int| 0 <= q < p ==> !s.contains((#[trigger] t[q]) as int),
    decreases p,
{
    if p > 0 {
        lemma_prefix_excludes_witness(b, t, s, p - 1);
        if s.contains(t[p - 1] as int) {
            let i = choose|i: int| s.contains(i) && is_parent(b, i, t[p - 1] as int);
            assert(ready(b, t[p - 1] as int, t.take(p - 1)));
            assert(t.take(p - 1).contains(i as usize));
            let r = choose|r: int| 0 <= r < p - 1 && (#[trigger] t.take(p - 1)[r]) == i as usize;
            assert(t[r] == i as usize);
            assert(0 <= i < b.len());
            assert(s.contains(t[r] as int));
            assert(false);
        }
    }
}

/// The linearization succeeds exactly on acyclic batches, and when it does,
/// it enumerates the whole batch with every record after all its parents.
pub proof fn lemma_stable_topo_order_characterization(b: Seq<TxView>)
    requires
        wf_batch(b),
        b.len() <= usize::MAX,
    ensures
        stable_topo_order(b) is Some <==> !has_dependency_cycle(b),
        stable_topo_order(b) is Some ==> is_order_of(b.len() as int, stable_topo_order(b)->Some_0),
        stable_topo_order(b) is Some ==> forall|p: int|
            0 <= p < b.len() ==> ready(
                b,
                (#[trigger] stable_topo_order(b)->Some_0[p]) as int,
                stable_topo_order(b)->Some_0.take(p),
            ),
    {
    broadcast use vstd::seq_lib::group_to_multiset_ensures;

    lemma_stable_fee_order_props(b, b.len() as int);
    let ord = stable_fee_order(b);
    assert(ord.no_duplicates()) by {
        assert forall|i: int, j: int|
            0 <= i < ord.len() && 0 <= j < ord.len() && i != j implies ord[i] != ord[j] by {
            if i < j {
                assert(ord[i] != ord[j]);
            } else {
                assert(ord[j] != ord[i]);
            }
        }
    }
    match stable_topo_order(b) {
        Some(t) => {
            lemma_stable_topo_props(b, ord, Seq::empty());
            assert(t.to_multiset() =~= ord.to_multiset()) by {
                assert(Seq::<usize>::empty().to_multiset() =~= Multiset::empty());
            }
            assert forall|x: usize| #[trigger] t.contains(x) <==> ord.contains(x) by {
                assert(t.contains(x) <==> t.to_multiset().count(x) > 0);
                assert(ord.contains(x) <==> ord.to_multiset().count(x) > 0);
            }
            assert(t.no_duplicates()) by {
                ord.lemma_multiset_has_no_duplicates();
                t.lemma_multiset_has_no_duplicates_conv();
            }
            assert forall|p: int| 0 <= p < t.len() implies (#[trigger] t[p]) < b.len() by {
                assert(t.contains(t[p]));
                let q = choose|q: int| 0 <= q < ord.len() && ord[q] == t[p];
            }
            assert(is_order_of(b.len() as int, t));
            if has_dependency_cycle(b) {
                let s = choose|s: Set<int>| cycle_witness(b, s);
                lemma_prefix_excludes_witness(b, t, s, t.len() as int);
                let k = choose|k: int| s.contains(k);
                assert(0 <= k < b.len());
                assert(t.contains(k as usize));
                let q = choose|q: int| 0 <= q < t.len() && t[q] == k as usize;
                assert(!s.contains(t[q] as int));
                assert(false);
            }
        },
        None => {
            lemma_topo_none_implies_cycle(b, ord, Seq::empty());
        },
    }
}

/// With no dependency edges, the linearization returns its input order
/// unchanged: the fee-rate pre-sort alone decides the walk.
pub proof fn lemma_no_edges_topo(b: Seq<TxView>, pending: Seq<usize>, done: Seq<usize>)
    requires
        no_edges(b),
    ensures
        stable_topo_from(b, pending, done) == Some(done + pending),
    decreases pending.len(),
{
    if pending.len() == 0 {
        assert(done + pending =~= done);
    } else {
        assert(ready(b, pending[0] as int, done));
        assert(first_ready(b, pending, done, 0) == Some(0int));
        lemma_no_edges_topo(b, pending.remove(0), done.push(pending[0]));
        assert(done.push(pending[0]) + pending.remove(0) =~= done + pending) by {
            assert(pending.remove(0) =~= pending.drop_first());
        }
    }
}

// ---------------------------------------------------------------------------
// Greedy capacity-constrained selection
// ---------------------------------------------------------------------------

/// The records of `b` at the batch indices `idxs`, in that order.
pub open spec fn tx_seq_of(b: Seq<TxView>, idxs: Seq<usize>) -> Seq<TxView> {
    Seq::new(idxs.len(), |i: int| b[idxs[i] as int])
}

/// The total weight of a sequence of records.
pub open spec fn total_weight(s: Seq<TxView>) -> int
    decreases s.len(),
{
    if s.len() == 0 {
        0
    } else {
        total_weight(s.drop_last()) + s.last().weight
    }
}

/// The total fee of a sequence of records.
pub open spec fn total_fees(s: Seq<TxView>) -> int
    decreases s.len(),
{
    if s.len() == 0 {
        0
    } else {
        total_fees(s.drop_last()) + s.last().fee
    }
}

/// The single greedy pass: walk `ord`, accept a record when the accumulated
/// weight stays within the capacity, skip it otherwise and keep walking.
pub open spec fn greedy_select(b: Seq<TxView>, ord: Seq<usize>, used: int) -> Seq<usize>
    decreases ord.len(),
{
    if ord.len() == 0 {
        Seq::empty()
    } else if used + b[ord[0] as int].weight <= MAX_BLOCK_WEIGHT {
        seq![ord[0]] + greedy_select(b, ord.drop_first(), used + b[ord[0] as int].weight)
    } else {
        greedy_select(b, ord.drop_first(), used)
    }
}

/// The first record of `ord`, in walk order, that the greedy pass skips.
pub open spec fn first_rejected(b: Seq<TxView>, ord: Seq<usize>, used: int) -> Option<usize>
    decreases ord.len(),
{
    if ord.len() == 0 {
        None
    } else if used + b[ord[0] as int].weight <= MAX_BLOCK_WEIGHT {
        first_rejected(b, ord.drop_first(), used + b[ord[0] as int].weight)
    } else {
        Some(ord[0])
    }
}

proof fn lemma_total_weight_nonneg(s: Seq<TxView>)
    ensures
        total_weight(s) >= 0,
    decreases s.len(),
{
    if s.len() > 0 {
        lemma_total_weight_nonneg(s.drop_last());
    }
}

proof fn lemma_total_weight_cons(x: TxView, s: Seq<TxView>)
    ensures
        total_weight(seq![x] + s) == x.weight + total_weight(s),
    decreases s.len(),
{
    if s.len() == 0 {
        assert(seq![x] + s =~= seq![x]);
        assert((seq![x]).drop_last() =~= Seq::<TxView>::empty());
        assert(total_weight(Seq::<TxView>::empty()) == 0);
        assert((seq![x]).last() == x);
        assert(total_weight(s) == 0);
    } else {
        assert((seq![x] + s).drop_last() =~= seq![x] + s.drop_last());
        lemma_total_weight_cons(x, s.drop_last());
        assert((seq![x] + s).last() == s.last());
    }
}

proof fn lemma_greedy_cons_split(b: Seq<TxView>, x: usize, rest: Seq<usize>)
    ensures
        tx_seq_of(b, seq![x] + rest) =~= seq![b[x as int]] + tx_seq_of(b, rest),
{
}

/// The greedy pass never exceeds the remaining capacity.
pub proof fn lemma_greedy_weight_bound(b: Seq<TxView>, ord: Seq<usize>, used: int)
    requires
        0 <= used <= MAX_BLOCK_WEIGHT,
    ensures
        used + total_weight(tx_seq_of(b, greedy_select(b, ord, used))) <= MAX_BLOCK_WEIGHT,
    decreases ord.len(),
{
    if ord.len() == 0 {
        assert(tx_seq_of(b, greedy_select(b, ord, used)) =~= Seq::<TxView>::empty());
    } else {
        let x = ord[0];
        let w = b[x as int].weight;
        if used + w <= MAX_BLOCK_WEIGHT {
            let g2 = greedy_select(b, ord.drop_first(), used + w);
            lemma_greedy_weight_bound(b, ord.drop_first(), used + w);
            lemma_greedy_cons_split(b, x, g2);
            lemma_total_weight_cons(b[x as int], tx_seq_of(b, g2));
        } else {
            lemma_greedy_weight_bound(b, ord.drop_first(), used);
        }
    }
}

/// When the greedy pass rejects anything, accepting the first rejected
/// record on top of the final selection would exceed the capacity.
pub proof fn lemma_greedy_first_rejected(b: Seq<TxView>, ord: Seq<usize>, used: int)
    requires
        0 <= used <= MAX_BLOCK_WEIGHT,
    ensures
        first_rejected(b, ord, used) is Some ==> used + total_weight(
            tx_seq_of(b, greedy_select(b, ord, used)),
        ) + b[first_rejected(b, ord, used)->Some_0 as int].weight > MAX_BLOCK_WEIGHT,
    decreases ord.len(),
{
    if ord.len() > 0 {
        let x = ord[0];
        let w = b[x as int].weight;
        if used + w <= MAX_BLOCK_WEIGHT {
            let g2 = greedy_select(b, ord.drop_first(), used + w);
            lemma_greedy_first_rejected(b, ord.drop_first(), used + w);
            lemma_greedy_cons_split(b, x, g2);
            lemma_total_weight_cons(b[x as int], tx_seq_of(b, g2));
        } else {
            lemma_greedy_first_rejected(b, ord.drop_first(), used);
            lemma_total_weight_nonneg(tx_seq_of(b, greedy_select(b, ord.drop_first(), used)));
        }
    }
}

/// Everything the greedy pass keeps comes from the walked order.
pub proof fn lemma_greedy_subset(b: Seq<TxView>, ord: Seq<usize>, used: int)
    ensures
        forall|x: usize| #[trigger] greedy_select(b, ord, used).contains(x) ==> ord.contains(x),
    decreases ord.len(),
{
    if ord.len() > 0 {
        let x0 = ord[0];
        let w = b[x0 as int].weight;
        let tail = ord.drop_first();
        if used + w <= MAX_BLOCK_WEIGHT {
            lemma_greedy_subset(b, tail, used + w);
        } else {
            lemma_greedy_subset(b, tail, used);
        }
        assert forall|x: usize|
            #[trigger] greedy_select(b, ord, used).contains(x) implies ord.contains(x) by {
            let g = greedy_select(b, ord, used);
            let p = choose|p: int| 0 <= p < g.len() && g[p] == x;
            if used + w <= MAX_BLOCK_WEIGHT && p == 0 {
                assert(ord[0] == x);
            } else {
                let g2 = if used + w <= MAX_BLOCK_WEIGHT {
                    greedy_select(b, tail, used + w)
                } else {
                    greedy_select(b, tail, used)
                };
                assert(g2.contains(x));
                assert(tail.contains(x));
                let q = choose|q: int| 0 <= q < tail.len() && tail[q] == x;
                assert(ord[q + 1] == x);
            }
        }
    }
}

/// No record of `ord` is a parent of an earlier record of `ord`.
pub open spec fn respects_ancestors(b: Seq<TxView>, ord: Seq<usize>) -> bool {
    forall|p: int, q: int|
        0 <= p < q < ord.len() ==> !is_parent(b, (#[trigger] ord[q]) as int, (#[trigger] ord[p]) as int)
}

/// A linearization that emits every record only when its parents are already
/// emitted never places a parent after a child.
pub proof fn lemma_ready_prefix_respects(b: Seq<TxView>, t: Seq<usize>)
    requires
        t.no_duplicates(),
        forall|q: int| 0 <= q < t.len() ==> ready(b, (#[trigger] t[q]) as int, t.take(q)),
    ensures
        respects_ancestors(b, t),
{
    assert forall|p: int, q: int| 0 <= p < q < t.len() implies !is_parent(
        b,
        (t[q]) as int,
        (t[p]) as int,
    ) by {
        if is_parent(b, t[q] as int, t[p] as int) {
            assert(ready(b, t[p] as int, t.take(p)));
            assert(t.take(p).contains((t[q] as int) as usize));
            let r = choose|r: int| 0 <= r < p && (#[trigger] t.take(p)[r]) == t[q];
            assert(t[r] == t[q]);
            assert(false);
        }
    }
}

/// The greedy pass keeps the walked order, and with it the
/// ancestor-before-descendant property.
pub proof fn lemma_greedy_respects(b: Seq<TxView>, ord: Seq<usize>, used: int)
    requires
        respects_ancestors(b, ord),
    ensures
        respects_ancestors(b, greedy_select(b, ord, used)),
    decreases ord.len(),
{
    if ord.len() > 0 {
        let x0 = ord[0];
        let w = b[x0 as int].weight;
        let tail = ord.drop_first();
        assert forall|p: int, q: int| 0 <= p < q < tail.len() implies !is_parent(
            b,
            (#[trigger] tail[q]) as int,
            (#[trigger] tail[p]) as int,
        ) by {
            assert(tail[q] == ord[q + 1] && tail[p] == ord[p + 1]);
        }
        if used + w <= MAX_BLOCK_WEIGHT {
            let g2 = greedy_select(b, tail, used + w);
            lemma_greedy_respects(b, tail, used + w);
            lemma_greedy_subset(b, tail, used + w);
            let g = greedy_select(b, ord, used);
            assert forall|p: int, q: int| 0 <= p < q < g.len() implies !is_parent(
                b,
                (#[trigger] g[q]) as int,
                (#[trigger] g[p]) as int,
            ) by {
                if p == 0 {
                    assert(g[q] == g2[q - 1]);
                    assert(g2.contains(g2[q - 1]));
                    assert(tail.contains(g[q]));
                    let m = choose|m: int| 0 <= m < tail.len() && tail[m] == g[q];
                    assert(ord[m + 1] == g[q]);
                    assert(!is_parent(b, (ord[m + 1]) as int, (ord[0]) as int));
                } else {
                    assert(g[q] == g2[q - 1] && g[p] == g2[p - 1]);
                }
            }
        } else {
            lemma_greedy_respects(b, tail, used);
        }
    }
}

// ---------------------------------------------------------------------------
// The simulated template
// ---------------------------------------------------------------------------

/// The batch indices of the simulated template: stable fee-rate sort, stable
/// topological order, then the greedy capacity walk. `None` exactly on a
/// cyclic dependency graph.
pub open spec fn template_order(b: Seq<TxView>) -> Option<Seq<usize>> {
    match stable_topo_order(b) {
        None => None,
        Some(t) => Some(greedy_select(b, t, 0)),
    }
}

/// The records of the simulated template, in acceptance order.
pub open spec fn template_of(b: Seq<TxView>) -> Option<Seq<TxView>> {
    match template_order(b) {
        None => None,
        Some(g) => Some(tx_seq_of(b, g)),
    }
}

// ---------------------------------------------------------------------------
// Executable helpers
// ---------------------------------------------------------------------------

/// Membership of an identifier in a list of identifiers.
fn txid_listed(parents: &Vec<String>, txid: &String) -> (r: bool)
    ensures
        r == parents.deep_view().contains(txid@),
{
    let mut i: usize = 0;
    while i < parents.len()
        invariant
            0 <= i <= parents.len(),
            forall|j: int| 0 <= j < i ==> parents.deep_view()[j] != txid@,
        decreases parents.len() - i,
    {
        if parents[i].eq(txid) {
            proof {
                assert(parents.deep_view()[i as int] == txid@);
            }
            return true;
        }
        i += 1;
    }
    false
}

/// Membership of a batch index in an index list.
fn contains_index(v: &Vec<usize>, x: usize) -> (r: bool)
    ensures
        r == v@.contains(x),
{
    let mut i: usize = 0;
    while i < v.len()
        invariant
            0 <= i <= v.len(),
            forall|j: int| 0 <= j < i ==> v@[j] != x,
        decreases v.len() - i,
    {
        if v[i] == x {
            return true;
        }
        i += 1;
    }
    false
}

/// Decides whether record `k` is ready to be linearized: every in-batch
/// parent of it is already in `done`.
fn is_ready(txns: &Vec<MempoolTransaction>, k: usize, done: &Vec<usize>) -> (r: bool)
    requires
        k < txns.len(),
    ensures
        r == ready(txns.deep_view(), k as int, done@),
{
    let ghost b = txns.deep_view();
    let mut i: usize = 0;
    while i < txns.len()
        invariant
            0 <= i <= txns.len(),
            k < txns.len(),
            b == txns.deep_view(),
            forall|j: int| 0 <= j < i && is_parent(b, j, k as int) ==> done@.contains(j as usize),
        decreases txns.len() - i,
    {
        if txid_listed(&txns[k].parent_txids, &txns[i].txid) {
            if !contains_index(done, i) {
                proof {
                    assert(is_parent(b, i as int, k as int));
                }
                return false;
            }
        }
        i += 1;
    }
    proof {
        assert forall|j: int| #[trigger] is_parent(b, j, k as int) implies done@.contains(
            j as usize,
        ) by {
            assert(0 <= j < txns.len());
        }
    }
    true
}

pub struct BlockBuilder;

impl BlockBuilder {
    /// Finds the position of the first entry of `pending` that is ready
    /// given `done`.
    fn find_first_ready(
        txns: &Vec<MempoolTransaction>,
        pending: &Vec<usize>,
        done: &Vec<usize>,
    ) -> (r: Option<usize>)
        requires
            forall|j: int| 0 <= j < pending@.len() ==> (#[trigger] pending@[j]) < txns.len(),
        ensures
            match r {
                Some(p) => p < pending@.len() && first_ready(
                    txns.deep_view(),
                    pending@,
                    done@,
                    0,
                ) == Some(p as int),
                None => first_ready(txns.deep_view(), pending@, done@, 0) is None,
            },
    {
        let ghost b = txns.deep_view();
        let mut p: usize = 0;
        while p < pending.len()
            invariant
                0 <= p <= pending.len(),
                b == txns.deep_view(),
                forall|j: int| 0 <= j < pending@.len() ==> (#[trigger] pending@[j]) < txns.len(),
                forall|j: int| 0 <= j < p ==> !ready(b, (#[trigger] pending@[j]) as int, done@),
            decreases pending.len() - p,
        {
            if is_ready(txns, pending[p], done) {
                proof {
                    lemma_first_ready_bounds(b, pending@, done@, 0);
                    assert(first_ready(b, pending@, done@, 0) == Some(p as int)) by {
                        if first_ready(b, pending@, done@, 0) is None {
                            assert(!ready(b, pending@[p as int] as int, done@));
                        } else {
                            let q = first_ready(b, pending@, done@, 0)->Some_0;
                            if q < p {
                                assert(ready(b, pending@[q] as int, done@));
                            }
                            if q > p {
                                assert(!ready(b, pending@[p as int] as int, done@));
                            }
                        }
                    }
                }
                return Some(p);
            }
            p += 1;
        }
        proof {
            lemma_first_ready_bounds(b, pending@, done@, 0);
            assert(first_ready(b, pending@, done@, 0) is None) by {
                if first_ready(b, pending@, done@, 0) is Some {
                    let q = first_ready(b, pending@, done@, 0)->Some_0;
                    assert(!ready(b, pending@[q] as int, done@));
                }
            }
        }
        None
    }

    /// Stable ancestor-respecting linearization of the batch, walking the
    /// supplied order and repeatedly emitting its first ready entry. Fails
    /// with `CyclicDependency` exactly when the dependency graph is cyclic.
    pub fn sort_txns_by_ancestor_dependencies(
        txns: &Vec<MempoolTransaction>,
        ord: &Vec<usize>,
    ) -> (r: Result<Vec<usize>, AnalyzerError>)
        requires
            forall|p: int| 0 <= p < ord@.len() ==> (#[trigger] ord@[p]) < txns.len(),
        ensures
            match stable_topo_from(txns.deep_view(), ord@, Seq::empty()) {
                Some(t) => r is Ok && r->Ok_0@ == t,
                None => r == Result::<Vec<usize>, AnalyzerError>::Err(
                    AnalyzerError::CyclicDependency,
                ),
            },
    {
        let ghost b = txns.deep_view();
        let mut pending: Vec<usize> = Vec::new();
        let mut i: usize = 0;
        while i < ord.len()
            invariant
                0 <= i <= ord.len(),
                pending@ == ord@.take(i as int),
            decreases ord.len() - i,
        {
            pending.push(ord[i]);
            i += 1;
        }
        proof {
            assert(pending@ =~= ord@);
        }
        let mut done: Vec<usize> = Vec::new();
        while pending.len() > 0
            invariant
                b == txns.deep_view(),
                forall|p: int| 0 <= p < pending@.len() ==> (#[trigger] pending@[p]) < txns.len(),
                forall|p: int| 0 <= p < done@.len() ==> (#[trigger] done@[p]) < txns.len(),
                stable_topo_from(b, ord@, Seq::empty()) == stable_topo_from(b, pending@, done@),
            decreases pending.len(),
        {
            match Self::find_first_ready(txns, &pending, &done) {
                None => {
                    return Err(AnalyzerError::CyclicDependency);
                },
                Some(p) => {
                    let k = pending.remove(p);
                    done.push(k);
                },
            }
        }
        proof {
            assert(stable_topo_from(b, pending@, done@) == Some(done@));
        }
        Ok(done)
    }

    /// Stable sort of the batch, ascending by fee rate, ties keeping input
    /// order. Returns the batch indices in sorted order.
    pub fn sort_txns_by_fee_rate(txns: &Vec<MempoolTransaction>) -> (ord: Vec<usize>)
        requires
            wf_batch(txns.deep_view()),
        ensures
            ord@ == stable_fee_order(txns.deep_view()),
            is_order_of(txns.len() as int, ord@),
            is_sorted_by_key(txns.deep_view(), ord@),
    {
        let ghost b = txns.deep_view();
        let mut ord: Vec<usize> = Vec::new();
        let mut k: usize = 0;
        proof {
            assert(ord@ =~= stable_fee_order_up_to(b, 0));
        }
        while k < txns.len()
            invariant
                k <= txns.len(),
                b == txns.deep_view(),
                wf_batch(b),
                b.len() == txns.len(),
                ord@ == stable_fee_order_up_to(b, k as int),
            decreases txns.len() - k,
        {
            proof {
                lemma_stable_fee_order_props(b, k as int);
            }
            let mut p: usize = ord.len();
            while p > 0 && key_lt_exec(txns, k, ord[p - 1])
                invariant
                    0 <= p <= ord.len(),
                    k < txns.len(),
                    b == txns.deep_view(),
                    b.len() == txns.len(),
                    ord@ == stable_fee_order_up_to(b, k as int),
                    is_order_of(k as int, ord@),
                    forall|j: int| p <= j < ord.len() ==> key_lt(
                        b,
                        k as int,
                        (#[trigger] ord@[j]) as int,
                    ),
                decreases p,
            {
                p -= 1;
            }
            proof {
                lemma_insert_sorted_at(b, ord@, k, p as int);
            }
            ord.insert(p, k);
            k += 1;
        }
        proof {
            lemma_stable_fee_order_props(b, b.len() as int);
        }
        ord
    }

    /// The greedy capacity walk over the linearized order: accept while the
    /// cumulative weight stays within the capacity, skip otherwise.
    pub fn select_txns_to_be_included_in_block(
        txns: &Vec<MempoolTransaction>,
        sorted_txns: &Vec<usize>,
    ) -> (r: Vec<usize>)
        requires
            forall|j: int| 0 <= j < sorted_txns@.len() ==> (#[trigger] sorted_txns@[j])
                < txns.len(),
        ensures
            r@ == greedy_select(txns.deep_view(), sorted_txns@, 0),
    {
        let ghost b = txns.deep_view();
        let mut result: Vec<usize> = Vec::new();
        let mut used: u64 = 0;
        let mut i: usize = 0;
        proof {
            assert(sorted_txns@.skip(0) =~= sorted_txns@);
            assert(result@ + greedy_select(b, sorted_txns@, 0) =~= greedy_select(
                b,
                sorted_txns@,
                0,
            ));
        }
        while i < sorted_txns.len()
            invariant
                0 <= i <= sorted_txns.len(),
                used <= MAX_BLOCK_WEIGHT,
                b == txns.deep_view(),
                b.len() == txns.len(),
                forall|j: int| 0 <= j < sorted_txns@.len() ==> (#[trigger] sorted_txns@[j])
                    < txns.len(),
                greedy_select(b, sorted_txns@, 0) == result@ + greedy_select(
                    b,
                    sorted_txns@.skip(i as int),
                    used as int,
                ),
            decreases sorted_txns.len() - i,
        {
            let k = sorted_txns[i];
            let w = txns[k].weight;
            proof {
                assert(sorted_txns@.skip(i as int).drop_first() =~= sorted_txns@.skip(i + 1));
                assert(sorted_txns@.skip(i as int)[0] == sorted_txns@[i as int]);
            }
            if w <= MAX_BLOCK_WEIGHT - used {
                proof {
                    assert(result@ + (seq![k] + greedy_select(
                        b,
                        sorted_txns@.skip(i + 1),
                        used + w,
                    )) =~= result@.push(k) + greedy_select(b, sorted_txns@.skip(i + 1), used + w));
                }
                result.push(k);
                used += w;
            }
            i += 1;
        }
        proof {
            assert(sorted_txns@.skip(sorted_txns.len() as int) =~= Seq::<usize>::empty());
            assert(result@ + Seq::<usize>::empty() =~= result@);
        }
        result
    }

    /// Builds the simulated block template over the batch: sort ascending by
    /// fee rate, linearize ancestors before descendants, then greedily accept
    /// records within the weight capacity. The accepted records come back in
    /// acceptance order; a cyclic dependency graph is a fatal input-data
    /// error.
    pub fn build_block(mempool_txns: &Vec<MempoolTransaction>) -> (r: Result<
        Vec<MempoolTransaction>,
        AnalyzerError,
    >)
        requires
            wf_batch(mempool_txns.deep_view()),
        ensures
            r is Ok <==> !has_dependency_cycle(mempool_txns.deep_view()),
            r is Err ==> r == Result::<Vec<MempoolTransaction>, AnalyzerError>::Err(
                AnalyzerError::CyclicDependency,
            ),
            r is Ok ==> Some(r->Ok_0.deep_view()) == template_of(mempool_txns.deep_view()),
            r is Ok ==> wf_batch(r->Ok_0.deep_view()),
            r is Ok ==> total_weight(r->Ok_0.deep_view()) <= MAX_BLOCK_WEIGHT,
            r is Ok ==> forall|p: int, q: int|
                0 <= p < q < r->Ok_0.deep_view().len() ==> !depends_on(
                    #[trigger] r->Ok_0.deep_view()[p],
                    #[trigger] r->Ok_0.deep_view()[q],
                ),
    {
        let ghost b = mempool_txns.deep_view();
        let n = mempool_txns.len();
        proof {
            assert(b.len() == n);
            lemma_template_laws(b);
        }
        let ord = Self::sort_txns_by_fee_rate(mempool_txns);
        let topo = match Self::sort_txns_by_ancestor_dependencies(mempool_txns, &ord) {
            Err(e) => {
                return Err(e);
            },
            Ok(t) => t,
        };
        proof {
            lemma_stable_topo_order_characterization(b);
        }
        let sel = Self::select_txns_to_be_included_in_block(mempool_txns, &topo);
        let mut out: Vec<MempoolTransaction> = Vec::new();
        let mut i: usize = 0;
        proof {
            lemma_greedy_subset(b, topo@, 0);
            assert forall|j: int| 0 <= j < sel@.len() implies (#[trigger] sel@[j]) < b.len() by {
                assert(sel@.contains(sel@[j]));
                assert(topo@.contains(sel@[j]));
                let q = choose|q: int| 0 <= q < topo@.len() && topo@[q] == sel@[j];
            }
        }
        while i < sel.len()
            invariant
                0 <= i <= sel.len(),
                b == mempool_txns.deep_view(),
                b.len() == mempool_txns.len(),
                forall|j: int| 0 <= j < sel@.len() ==> (#[trigger] sel@[j]) < b.len(),
                out.deep_view() == tx_seq_of(b, sel@.take(i as int)),
            decreases sel.len() - i,
        {
            let k = sel[i];
            let c = mempool_txns[k].clone();
            proof {
                assert(c@ == b[k as int]);
            }
            let ghost prev = out@;
            let ghost prev_dv = out.deep_view();
            out.push(c);
            proof {
                assert(out@ == prev.push(c));
                assert forall|j: int| 0 <= j < i + 1 implies out.deep_view()[j] == tx_seq_of(
                    b,
                    sel@.take(i + 1),
                )[j] by {
                    assert(sel@.take(i + 1)[j] == sel@[j]);
                    assert(prev_dv.len() == i);
                    assert(prev.len() == i);
                    if j < i {
                        assert(prev.push(c)[j] == prev[j]);
                        assert(out@[j] == prev[j]);
                        assert(out.deep_view()[j] == prev_dv[j]);
                        assert(prev_dv[j] == tx_seq_of(b, sel@.take(i as int))[j]);
                        assert(tx_seq_of(b, sel@.take(i as int))[j] == b[sel@[j] as int]);
                    } else {
                        assert(prev.push(c)[j] == c);
                        assert(out@[j] == c);
                        assert(out.deep_view()[j] == c@);
                    }
                }
                assert(out.deep_view() =~= tx_seq_of(b, sel@.take(i + 1)));
            }
            i += 1;
        }
        proof {
            assert(sel@.take(sel.len() as int) =~= sel@);
            assert(out.deep_view() == tx_seq_of(b, sel@));
            assert forall|j: int| 0 <= j < out.deep_view().len() implies (#[trigger] out.deep_view()[j]).wf() by {
                assert(out.deep_view()[j] == b[sel@[j] as int]);
            }
        }
        Ok(out)
    }
}

// ---------------------------------------------------------------------------
// Chain data
// ---------------------------------------------------------------------------

/// One transaction of a produced block, reduced to what the correlation
/// needs: its identifier.
#[derive(Debug)]
pub struct BlockTransaction {
    pub txid: String,
}

impl View for BlockTransaction {
    type V = Seq<char>;

    open spec fn view(&self) -> Seq<char> {
        self.txid@
    }
}

impl DeepView for BlockTransaction {
    type V = Seq<char>;

    open spec fn deep_view(&self) -> Seq<char> {
        self.txid@
    }
}

impl Clone for BlockTransaction {
    fn clone(&self) -> (r: Self)
        ensures
            r@ == self@,
    {
        BlockTransaction { txid: self.txid.clone() }
    }
}

/// The ASCII whitespace the chain collaborator pads its answers with.
pub open spec fn is_space(c: char) -> bool {
    c == ' ' || c == '\t' || c == '\n' || c == '\r'
}

/// The index of the first non-whitespace character at or after `i`, or the
/// length when there is none.
pub open spec fn first_non_space(s: Seq<char>, i: int) -> int
    decreases s.len() - i,
{
    if i < 0 || i >= s.len() {
        s.len() as int
    } else if is_space(s[i]) {
        first_non_space(s, i + 1)
    } else {
        i
    }
}

/// The cut point that removes trailing whitespace from `s.take(i)`.
pub open spec fn trim_end_from(s: Seq<char>, i: int) -> int
    decreases i,
{
    if i <= 0 {
        0
    } else if is_space(s[i - 1]) {
        trim_end_from(s, i - 1)
    } else {
        i
    }
}

/// `s` with leading and trailing whitespace removed.
pub open spec fn trimmed(s: Seq<char>) -> Seq<char> {
    let rest = s.subrange(first_non_space(s, 0), s.len() as int);
    rest.subrange(0, trim_end_from(rest, rest.len() as int))
}

fn is_space_char(c: char) -> (r: bool)
    ensures
        r == is_space(c),
{
    c == ' ' || c == '\t' || c == '\n' || c == '\r'
}

proof fn lemma_first_non_space_is(s: Seq<char>, lo: int, i: int)
    requires
        0 <= i <= lo <= s.len(),
        forall|j: int| i <= j < lo ==> is_space(#[trigger] s[j]),
        lo == s.len() || !is_space(s[lo]),
    ensures
        first_non_space(s, i) == lo,
    decreases lo - i,
{
    if i < lo {
        lemma_first_non_space_is(s, lo, i + 1);
    }
}

proof fn lemma_trim_end_is(s: Seq<char>, hi: int, i: int)
    requires
        0 <= hi <= i <= s.len(),
        forall|j: int| hi <= j < i ==> is_space(#[trigger] s[j]),
        hi == 0 || !is_space(s[hi - 1]),
    ensures
        trim_end_from(s, i) == hi,
    decreases i - hi,
{
    if hi < i {
        lemma_trim_end_is(s, hi, i - 1);
    }
}

/// Removes leading and trailing whitespace.
fn trim_str(raw: &str) -> (r: String)
    ensures
        r@ == trimmed(raw@),
{
    let n = raw.unicode_len();
    let mut lo: usize = 0;
    while lo < n && is_space_char(raw.get_char(lo))
        invariant
            0 <= lo <= n,
            n == raw@.len(),
            forall|j: int| 0 <= j < lo ==> is_space(#[trigger] raw@[j]),
        decreases n - lo,
    {
        lo += 1;
    }
    proof {
        lemma_first_non_space_is(raw@, lo as int, 0);
    }
    let rest = raw.substring_char(lo, n);
    let m = n - lo;
    let mut hi: usize = m;
    while hi > 0 && is_space_char(rest.get_char(hi - 1))
        invariant
            0 <= hi <= m,
            m == rest@.len(),
            rest@ == raw@.subrange(lo as int, n as int),
            forall|j: int| hi <= j < m ==> is_space(#[trigger] rest@[j]),
        decreases hi,
    {
        hi -= 1;
    }
    proof {
        lemma_trim_end_is(rest@, hi as int, m as int);
    }
    let out = rest.substring_char(0, hi);
    out.to_owned()
}

/// Reads the chain heights and blocks that the collaborator reports. The
/// functions here only interpret the collaborator's textual answers; issuing
/// the queries is the caller's concern.
pub struct BlockMonitor;

/// A decimal digit.
pub open spec fn is_digit(c: char) -> bool {
    '0' <= c && c <= '9'
}

/// The value of a digit string, most significant digit first.
pub open spec fn digits_value(s: Seq<char>) -> int
    decreases s.len(),
{
    if s.len() == 0 {
        0
    } else {
        digits_value(s.drop_last()) * 10 + (s.last() as u32 - 48)
    }
}

/// The digits of a decimal numeral, an optional leading plus sign removed.
pub open spec fn numeral_digits(s: Seq<char>) -> Seq<char> {
    if s.len() > 0 && s[0] == '+' {
        s.drop_first()
    } else {
        s
    }
}

/// `s` is a decimal numeral whose value fits a `u32`.
pub open spec fn is_u32_numeral(s: Seq<char>) -> bool {
    &&& numeral_digits(s).len() > 0
    &&& forall|i: int|
        0 <= i < numeral_digits(s).len() ==> is_digit(#[trigger] numeral_digits(s)[i])
    &&& digits_value(numeral_digits(s)) <= u32::MAX
}

proof fn lemma_digits_value_nonneg(s: Seq<char>)
    requires
        forall|i: int| 0 <= i < s.len() ==> is_digit(#[trigger] s[i]),
    ensures
        digits_value(s) >= 0,
    decreases s.len(),
{
    if s.len() > 0 {
        lemma_digits_value_nonneg(s.drop_last());
    }
}

proof fn lemma_digits_value_mono(s: Seq<char>, i: int)
    requires
        forall|j: int| 0 <= j < s.len() ==> is_digit(#[trigger] s[j]),
        0 <= i <= s.len(),
    ensures
        digits_value(s.take(i)) <= digits_value(s),
    decreases s.len() - i,
{
    if i < s.len() {
        lemma_digits_value_mono(s, i + 1);
        lemma_digits_value_nonneg(s.take(i));
        assert(s.take(i + 1).drop_last() =~= s.take(i));
        assert(s.take(i + 1).last() == s[i]);
        assert(digits_value(s.take(i)) * 10 >= digits_value(s.take(i))) by (nonlinear_arith)
            requires
                digits_value(s.take(i)) >= 0,
        ;
    } else {
        assert(s.take(i) =~= s);
    }
}

/// Parses a decimal numeral, leading and trailing whitespace allowed, into a
/// `u32`. Succeeds exactly on the strings whose trimmed form is a numeral in
/// range; a malformed answer surfaces as an error rather than a default
/// height.
pub(crate) fn parse_u32_numeral(digits: &str) -> (r: Result<u32, AnalyzerError>)
    ensures
        r is Ok <==> is_u32_numeral(digits@),
        r is Ok ==> r->Ok_0 == digits_value(numeral_digits(digits@)),
{
    let n = digits.unicode_len();
    let mut i: usize = 0;
    if n > 0 && digits.get_char(0) == '+' {
        i = 1;
    }
    let ghost body = numeral_digits(digits@);
    proof {
        assert(body =~= digits@.subrange(i as int, n as int));
    }
    if i == n {
        return Err(AnalyzerError::SomethingWentWrong);
    }
    let start = i;
    let mut acc: u64 = 0;
    while i < n
        invariant
            start <= i <= n,
            n == digits@.len(),
            start == (if digits@.len() > 0 && digits@[0] == '+' {
                1int
            } else {
                0int
            }),
            body == numeral_digits(digits@),
            body =~= digits@.subrange(start as int, n as int),
            forall|j: int| 0 <= j < i - start ==> is_digit(#[trigger] body[j]),
            acc == digits_value(body.take(i - start)),
            acc <= u32::MAX,
        decreases n - i,
    {
        let c = digits.get_char(i);
        if !('0' <= c && c <= '9') {
            proof {
                assert(body[i - start] == digits@[i as int]);
                assert(!is_digit(body[i - start]));
            }
            return Err(AnalyzerError::SomethingWentWrong);
        }
        let d: u64 = (c as u32 as u64) - 48;
        proof {
            assert(body.take(i - start + 1).drop_last() =~= body.take(i - start));
            assert(body.take(i - start + 1).last() == body[i - start]);
            assert(body[i - start] == digits@[i as int]);
        }
        acc = acc * 10 + d;
        i += 1;
        if acc > u32::MAX as u64 {
            proof {
                if is_u32_numeral(digits@) {
                    lemma_digits_value_mono(body, i - start);
                    assert(false);
                }
            }
            return Err(AnalyzerError::SomethingWentWrong);
        }
    }
    proof {
        assert(body.take(i - start) =~= body);
    }
    Ok(acc as u32)
}

impl BlockMonitor {
    /// Interprets the collaborator's answer to a block-height query: the
    /// decimal height, surrounded by whitespace.
    pub fn parse_block_height(raw: &str) -> (r: Result<u32, AnalyzerError>)
        ensures
            r is Ok <==> is_u32_numeral(trimmed(raw@)),
            r is Ok ==> r->Ok_0 == digits_value(numeral_digits(trimmed(raw@))),
    {
        let t = trim_str(raw);
        parse_u32_numeral(t.as_str())
    }

    /// Interprets the collaborator's answer to a block-hash query: the hash
    /// with the surrounding whitespace removed.
    pub fn get_block_hash(raw: &str) -> (r: Result<String, AnalyzerError>)
        ensures
            r is Ok,
            r->Ok_0@ == trimmed(raw@),
    {
        Ok(trim_str(raw))
    }

    /// The height the analysis tracks next, one above the height last seen.
    pub fn get_latest_target_block(prev_block_height: u32) -> (r: Result<u32, AnalyzerError>)
        ensures
            prev_block_height < u32::MAX ==> r == Result::<u32, AnalyzerError>::Ok(
                (prev_block_height + 1) as u32,
            ),
            prev_block_height == u32::MAX ==> r == Result::<u32, AnalyzerError>::Err(
                AnalyzerError::SomethingWentWrong,
            ),
    {
        if prev_block_height < u32::MAX {
            Ok(prev_block_height + 1)
        } else {
            Err(AnalyzerError::SomethingWentWrong)
        }
    }
}

/// Reporting metrics of one simulated block: how much of the pool fit, and
/// how much of the available fee value the template captured. The fee
/// fraction is an exact rational, undefined (`None`) when the pool carries
/// no fees at all.
#[derive(Debug)]
pub struct BlockMetrics {
    pub total_txns_included_in_block: usize,
    pub total_txns_in_mempool: usize,
    pub total_weight: u128,
    pub total_fees: u128,
    pub total_possible_fees: u128,
    pub fraction_of_total_possible_fees: Option<Ratio>,
}

/// Sums the `fee` fields of a batch. The accumulator is wide enough that the
/// sum of any addressable number of records cannot overflow it.
fn sum_fees(txns: &Vec<MempoolTransaction>) -> (total: u128)
    ensures
        total == total_fees(txns.deep_view()),
{
    let ghost b = txns.deep_view();
    let mut total: u128 = 0;
    let mut i: usize = 0;
    while i < txns.len()
        invariant
            0 <= i <= txns.len(),
            b == txns.deep_view(),
            b.len() == txns.len(),
            total == total_fees(b.take(i as int)),
            total <= i * (u64::MAX as int),
        decreases txns.len() - i,
    {
        proof {
            assert(b.take(i + 1).drop_last() =~= b.take(i as int));
            assert(b.take(i + 1).last() == b[i as int]);
            assert((i + 1) * (u64::MAX as int) == i * (u64::MAX as int) + u64::MAX);
        }
        total = total + (txns[i].fee as u128);
        i += 1;
    }
    proof {
        assert(b.take(txns.len() as int) =~= b);
    }
    total
}

/// Sums the `weight` fields of a batch.
fn sum_weights(txns: &Vec<MempoolTransaction>) -> (total: u128)
    ensures
        total == total_weight(txns.deep_view()),
{
    let ghost b = txns.deep_view();
    let mut total: u128 = 0;
    let mut i: usize = 0;
    while i < txns.len()
        invariant
            0 <= i <= txns.len(),
            b == txns.deep_view(),
            b.len() == txns.len(),
            total == total_weight(b.take(i as int)),
            total <= i * (u64::MAX as int),
        decreases txns.len() - i,
    {
        proof {
            assert(b.take(i + 1).drop_last() =~= b.take(i as int));
            assert(b.take(i + 1).last() == b[i as int]);
            assert((i + 1) * (u64::MAX as int) == i * (u64::MAX as int) + u64::MAX);
        }
        total = total + (txns[i].weight as u128);
        i += 1;
    }
    proof {
        assert(b.take(txns.len() as int) =~= b);
    }
    total
}

impl BlockMetrics {
    /// Total fee the simulated block would collect.
    pub fn calculate_total_block_fees_to_receive(&self, block_txns: &Vec<MempoolTransaction>) -> (total: u128)
        ensures
            total == total_fees(block_txns.deep_view()),
    {
        sum_fees(block_txns)
    }

    /// Total fee available across the whole pool batch.
    pub fn calculate_total_possible_fees(&self, txns: &Vec<MempoolTransaction>) -> (total: u128)
        ensures
            total == total_fees(txns.deep_view()),
    {
        sum_fees(txns)
    }

    /// Total weight of the simulated block.
    pub fn calculate_total_block_weight(&self, block_txns: &Vec<MempoolTransaction>) -> (total: u128)
        ensures
            total == total_weight(block_txns.deep_view()),
    {
        sum_weights(block_txns)
    }

    /// The share of the pool's available fee value the block captured, as
    /// an exact fraction. Undefined when the pool carries no fees at all:
    /// a division by zero is never coerced to a number.
    pub fn fees_fraction(total_fees: u128, total_possible_fees: u128) -> (r: Option<Ratio>)
        ensures
            r is None <==> total_possible_fees == 0,
            total_possible_fees > 0 ==> r == Some(
                Ratio { num: total_fees, den: total_possible_fees },
            ),
            r is Some ==> r->Some_0.wf(),
    {
        if total_possible_fees == 0 {
            None
        } else {
            Some(Ratio { num: total_fees, den: total_possible_fees })
        }
    }

    /// Gathers the reporting metrics of one simulated block over its pool.
    pub fn compute(
        mempool_txns: &Vec<MempoolTransaction>,
        block_txns: &Vec<MempoolTransaction>,
    ) -> (m: BlockMetrics)
        ensures
            m.total_txns_included_in_block == block_txns.len(),
            m.total_txns_in_mempool == mempool_txns.len(),
            m.total_weight == total_weight(block_txns.deep_view()),
            m.total_fees == total_fees(block_txns.deep_view()),
            m.total_possible_fees == total_fees(mempool_txns.deep_view()),
            m.fraction_of_total_possible_fees is None <==> total_fees(mempool_txns.deep_view())
                == 0,
            total_fees(mempool_txns.deep_view()) > 0
                ==> m.fraction_of_total_possible_fees == Some(
                Ratio {
                    num: total_fees(block_txns.deep_view()) as u128,
                    den: total_fees(mempool_txns.deep_view()) as u128,
                },
            ),
    {
        let block_fees = sum_fees(block_txns);
        let possible_fees = sum_fees(mempool_txns);
        BlockMetrics {
            total_txns_included_in_block: block_txns.len(),
            total_txns_in_mempool: mempool_txns.len(),
            total_weight: sum_weights(block_txns),
            total_fees: block_fees,
            total_possible_fees: possible_fees,
            fraction_of_total_possible_fees: Self::fees_fraction(block_fees, possible_fees),
        }
    }
}

/// The pre-sort is stable: two records with equal fee rates keep their
/// input order.
pub proof fn lemma_fee_order_stable_ties(b: Seq<TxView>, p: int, q: int)
    requires
        wf_batch(b),
        b.len() <= usize::MAX,
        0 <= p < q < stable_fee_order(b).len(),
        rate_eq(
            b[stable_fee_order(b)[p] as int],
            b[stable_fee_order(b)[q] as int],
        ),
    ensures
        stable_fee_order(b)[p] < stable_fee_order(b)[q],
{
    lemma_stable_fee_order_props(b, b.len() as int);
    let ord = stable_fee_order(b);
    assert(key_lt(b, ord[p] as int, ord[q] as int));
}

/// Every record's weight is bounded by the total weight of the sequence it
/// stands in.
pub proof fn lemma_total_weight_elem(s: Seq<TxView>, i: int)
    requires
        0 <= i < s.len(),
    ensures
        s[i].weight <= total_weight(s),
    decreases s.len(),
{
    if i == s.len() - 1 {
        lemma_total_weight_nonneg(s.drop_last());
    } else {
        lemma_total_weight_elem(s.drop_last(), i);
        assert(s.drop_last()[i] == s[i]);
    }
}

/// The laws of the simulated template: it exists exactly for acyclic
/// batches; it never exceeds the weight capacity, and accepting the first
/// record the greedy walk rejected would exceed it; no record of it depends
/// on a later one; and on a batch with no dependency edges at all the
/// acceptance order is the stable fee-rate order itself.
pub proof fn lemma_template_laws(b: Seq<TxView>)
    requires
        wf_batch(b),
        b.len() <= usize::MAX,
    ensures
        template_of(b) is Some <==> !has_dependency_cycle(b),
        template_of(b) is Some ==> total_weight(template_of(b)->Some_0) <= MAX_BLOCK_WEIGHT,
        template_of(b) is Some && first_rejected(b, stable_topo_order(b)->Some_0, 0) is Some
            ==> total_weight(template_of(b)->Some_0) + b[first_rejected(
            b,
            stable_topo_order(b)->Some_0,
            0,
        )->Some_0 as int].weight > MAX_BLOCK_WEIGHT,
        template_of(b) is Some ==> forall|p: int, q: int|
            0 <= p < q < template_of(b)->Some_0.len() ==> !depends_on(
                #[trigger] template_of(b)->Some_0[p],
                #[trigger] template_of(b)->Some_0[q],
            ),
        no_edges(b) ==> template_order(b) == Some(
            greedy_select(b, stable_fee_order(b), 0),
        ),
{
    lemma_stable_topo_order_characterization(b);
    if stable_topo_order(b) is Some {
        let t = stable_topo_order(b)->Some_0;
        let g = greedy_select(b, t, 0);
        lemma_greedy_weight_bound(b, t, 0);
        lemma_greedy_first_rejected(b, t, 0);
        assert(t.no_duplicates()) by {
            assert forall|i: int, j: int|
                0 <= i < t.len() && 0 <= j < t.len() && i != j implies t[i] != t[j] by {
                if i < j {
                    assert(t[i] != t[j]);
                } else {
                    assert(t[j] != t[i]);
                }
            }
        }
        lemma_ready_prefix_respects(b, t);
        lemma_greedy_respects(b, t, 0);
        lemma_greedy_subset(b, t, 0);
        let tpl = tx_seq_of(b, g);
        assert forall|j: int| 0 <= j < g.len() implies (#[trigger] g[j]) < b.len() by {
            assert(g.contains(g[j]));
            assert(t.contains(g[j]));
            let q = choose|q: int| 0 <= q < t.len() && t[q] == g[j];
        }
        assert forall|p: int, q: int| 0 <= p < q < tpl.len() implies !depends_on(
            #[trigger] tpl[p],
            #[trigger] tpl[q],
        ) by {
            assert(!is_parent(b, (g[q]) as int, (g[p]) as int));
        }
    }
    if no_edges(b) {
        lemma_no_edges_topo(b, stable_fee_order(b), Seq::empty());
        assert(Seq::<usize>::empty() + stable_fee_order(b) =~= stable_fee_order(b));
    }
}

} // verus!
