use crate::graph::blocks;
use crate::graph::blocks_via;
use crate::graph::key_precedes;
use crate::graph::lemma_blocks_bounds;
use crate::graph::TxEntry;
use vstd::prelude::*;

verus! {

// The drain protocol of the builder pops every currently-ready transaction
// into one layer, then releases their holds, and repeats. A transaction is
// hence popped in the layer after its last-resolved blocking predecessor:
// its layer is the length of the longest blocking chain leading to it. This
// module defines that layer assignment and the one visible edge per blocked
// transaction — from the predecessor whose release made it ready — as pure
// functions of the insertion history, and proves the order properties of the
// blocking relation.

/// The greatest layer among the blocking predecessors of `i` that were
/// inserted before position `b`; `0` when there is none.
pub open spec fn max_blocker_layer(txs: Seq<TxEntry>, i: int, b: int) -> int
    decreases i, b,
{
    if b <= 0 || b > i {
        0
    } else {
        let rest = max_blocker_layer(txs, i, b - 1);
        if blocks(txs, b - 1, i) {
            let lj = layer_of(txs, b - 1);
            if lj > rest {
                lj
            } else {
                rest
            }
        } else {
            rest
        }
    }
}

/// The drain layer of transaction `i`, starting at `1` for transactions with
/// no blocking predecessor: one more than the greatest layer among its
/// blockers.
pub open spec fn layer_of(txs: Seq<TxEntry>, i: int) -> int
    decreases i, i + 1,
{
    if i < 0 {
        1
    } else {
        1 + max_blocker_layer(txs, i, i)
    }
}

proof fn lemma_mbl_nonneg(txs: Seq<TxEntry>, i: int, b: int)
    ensures
        max_blocker_layer(txs, i, b) >= 0,
    decreases i, b,
{
    if !(b <= 0 || b > i) {
        lemma_mbl_nonneg(txs, i, b - 1);
    }
}

/// Every layer is at least `1`.
pub proof fn lemma_layer_at_least_one(txs: Seq<TxEntry>, i: int)
    ensures
        layer_of(txs, i) >= 1,
{
    if i >= 0 {
        lemma_mbl_nonneg(txs, i, i);
    }
}

proof fn lemma_mbl_ge(txs: Seq<TxEntry>, i: int, b: int, j: int)
    requires
        0 <= j < b <= i,
        blocks(txs, j, i),
    ensures
        max_blocker_layer(txs, i, b) >= layer_of(txs, j),
    decreases b,
{
    if j == b - 1 {
        lemma_mbl_nonneg(txs, i, b - 1);
    } else {
        lemma_mbl_ge(txs, i, b - 1, j);
    }
}

proof fn lemma_mbl_le(txs: Seq<TxEntry>, i: int, b: int, v: int)
    requires
        v >= 0,
        forall|j: int| 0 <= j < b && #[trigger] blocks(txs, j, i) ==> layer_of(txs, j) <= v,
    ensures
        max_blocker_layer(txs, i, b) <= v,
    decreases b,
{
    if !(b <= 0 || b > i) {
        lemma_mbl_le(txs, i, b - 1, v);
    }
}

proof fn lemma_mbl_witness(txs: Seq<TxEntry>, i: int, b: int)
    requires
        max_blocker_layer(txs, i, b) >= 1,
    ensures
        exists|j: int|
            0 <= j < b && #[trigger] blocks(txs, j, i) && layer_of(txs, j) == max_blocker_layer(
                txs,
                i,
                b,
            ),
    decreases b,
{
    let v = max_blocker_layer(txs, i, b);
    let rest = max_blocker_layer(txs, i, b - 1);
    if blocks(txs, b - 1, i) && layer_of(txs, b - 1) == v {
        assert(0 <= b - 1 < b && blocks(txs, b - 1, i) && layer_of(txs, b - 1) == v);
    } else {
        lemma_mbl_witness(txs, i, b - 1);
        let j = choose|j: int|
            0 <= j < b - 1 && #[trigger] blocks(txs, j, i) && layer_of(txs, j) == rest;
        assert(0 <= j < b && blocks(txs, j, i) && layer_of(txs, j) == v);
    }
}

/// A blocking predecessor sits in a strictly lower layer, so it is popped in
/// a strictly earlier drain step.
pub proof fn lemma_blocker_layer_lt(txs: Seq<TxEntry>, j: int, i: int)
    requires
        blocks(txs, j, i),
    ensures
        layer_of(txs, j) < layer_of(txs, i),
{
    lemma_blocks_bounds(txs, j, i);
    lemma_mbl_ge(txs, i, i, j);
}

/// A bound on every blocker's layer bounds the transaction's own layer.
pub proof fn lemma_layer_bounds(txs: Seq<TxEntry>, i: int, v: int)
    requires
        0 <= i,
        v >= 0,
        forall|j: int| #[trigger] blocks(txs, j, i) ==> layer_of(txs, j) <= v,
    ensures
        layer_of(txs, i) <= v + 1,
{
    assert forall|j: int| 0 <= j < i && #[trigger] blocks(txs, j, i) implies layer_of(txs, j)
        <= v by {}
    lemma_mbl_le(txs, i, i, v);
}

/// A transaction in layer two or higher has a blocking predecessor in the
/// layer right below it.
pub proof fn lemma_layer_witness(txs: Seq<TxEntry>, i: int)
    requires
        0 <= i,
        layer_of(txs, i) >= 2,
    ensures
        exists|j: int|
            #[trigger] blocks(txs, j, i) && layer_of(txs, j) == layer_of(txs, i) - 1,
{
    lemma_mbl_witness(txs, i, i);
    let j = choose|j: int|
        0 <= j < i && #[trigger] blocks(txs, j, i) && layer_of(txs, j) == max_blocker_layer(
            txs,
            i,
            i,
        );
    assert(blocks(txs, j, i) && layer_of(txs, j) == layer_of(txs, i) - 1);
}

/// A transaction's layer never exceeds its insertion position plus one.
pub proof fn lemma_layer_le_index(txs: Seq<TxEntry>, i: int)
    requires
        i >= 0,
    ensures
        layer_of(txs, i) <= i + 1,
    decreases i,
{
    assert forall|j: int| #[trigger] blocks(txs, j, i) implies layer_of(txs, j) <= i by {
        lemma_blocks_bounds(txs, j, i);
        lemma_layer_le_index(txs, j);
    }
    lemma_layer_bounds(txs, i, i);
}

/// Transaction `d` must execute after transaction `s`: there is a chain of
/// blocking edges from `s` to `d`.
pub open spec fn reaches(txs: Seq<TxEntry>, s: int, d: int) -> bool
    decreases d,
{
    if d < 0 {
        false
    } else {
        blocks(txs, s, d) || exists|m: int|
            0 <= m < d && #[trigger] blocks(txs, m, d) && reaches(txs, s, m)
    }
}

/// Blocking chains only run forward in insertion order.
pub proof fn lemma_reaches_increases(txs: Seq<TxEntry>, s: int, d: int)
    requires
        reaches(txs, s, d),
    ensures
        0 <= s < d < txs.len(),
    decreases d,
{
    if blocks(txs, s, d) {
        lemma_blocks_bounds(txs, s, d);
    } else {
        let m = choose|m: int| 0 <= m < d && #[trigger] blocks(txs, m, d) && reaches(txs, s, m);
        lemma_blocks_bounds(txs, m, d);
        lemma_reaches_increases(txs, s, m);
    }
}

/// Blocking chains compose.
pub proof fn lemma_reaches_trans(txs: Seq<TxEntry>, s: int, m: int, d: int)
    requires
        reaches(txs, s, m),
        reaches(txs, m, d),
    ensures
        reaches(txs, s, d),
    decreases d,
{
    lemma_reaches_increases(txs, s, m);
    lemma_reaches_increases(txs, m, d);
    if blocks(txs, m, d) {
        assert(0 <= m < d && blocks(txs, m, d) && reaches(txs, s, m));
    } else {
        let m2 = choose|m2: int| 0 <= m2 < d && #[trigger] blocks(txs, m2, d) && reaches(txs, m, m2);
        lemma_reaches_trans(txs, s, m, m2);
        assert(0 <= m2 < d && blocks(txs, m2, d) && reaches(txs, s, m2));
    }
}

/// The produced edge relation is acyclic: no transaction must execute after
/// itself, for any insertion history.
pub proof fn lemma_no_cycles(txs: Seq<TxEntry>, i: int)
    ensures
        !reaches(txs, i, i),
{
    if reaches(txs, i, i) {
        lemma_reaches_increases(txs, i, i);
    }
}

/// Write-write ordering: when two transactions write one account, the graph
/// holds a chain of blocking edges from the earlier-inserted one to the
/// later, and the earlier one sits in a strictly lower layer — it is popped
/// no later than the other.
pub proof fn lemma_write_write_ordering(txs: Seq<TxEntry>, a: u64, i: int, j: int)
    requires
        0 <= i < j < txs.len(),
        txs[i].writes(a),
        txs[j].writes(a),
    ensures
        reaches(txs, i, j),
        layer_of(txs, i) < layer_of(txs, j),
    decreases j - i,
{
    if is_last_writer_between(txs, a, i, j) {
        assert(blocks_via(txs, i, j, a)) by {
            assert(crate::graph::is_last_writer(txs, a, i, j));
        }
        assert(blocks(txs, i, j));
        lemma_blocker_layer_lt(txs, i, j);
    } else {
        let m = choose|m: int| i < m < j && #[trigger] txs[m].writes(a);
        lemma_write_write_ordering(txs, a, i, m);
        lemma_write_write_ordering(txs, a, m, j);
        lemma_reaches_trans(txs, i, m, j);
    }
}

/// `i` is the most recent writer of `a` looking back from `j`.
spec fn is_last_writer_between(txs: Seq<TxEntry>, a: u64, i: int, j: int) -> bool {
    forall|m: int| i < m < j ==> !(#[trigger] txs[m].writes(a))
}

/// Read-read independence: two transactions whose shared accounts are read by
/// both, with no account one of them writes in common, have no blocking edge
/// between them in either direction. They may therefore appear in one ready
/// layer.
pub proof fn lemma_read_read_independent(txs: Seq<TxEntry>, i: int, j: int)
    requires
        0 <= i < txs.len(),
        0 <= j < txs.len(),
        i != j,
        txs[i].wf(),
        txs[j].wf(),
        forall|a: u64|
            #[trigger] txs[i].touches(a) && txs[j].touches(a) ==> (
            txs[i].reads(a) && txs[j].reads(a)),
    ensures
        !blocks(txs, i, j),
        !blocks(txs, j, i),
{
    assert forall|a: u64| !(#[trigger] blocks_via(txs, i, j, a)) by {
        if blocks_via(txs, i, j, a) {
            assert(txs[i].touches(a));
            assert(txs[j].touches(a));
        }
    }
    assert forall|a: u64| !(#[trigger] blocks_via(txs, j, i, a)) by {
        if blocks_via(txs, j, i, a) {
            assert(txs[i].touches(a));
            assert(txs[j].touches(a));
        }
    }
    if blocks(txs, i, j) {
        let a = choose|a: u64| blocks_via(txs, i, j, a);
    }
    if blocks(txs, j, i) {
        let a = choose|a: u64| blocks_via(txs, j, i, a);
    }
}

/// Transaction `i` has at least one blocking predecessor.
pub open spec fn has_blocker(txs: Seq<TxEntry>, i: int) -> bool {
    exists|j: int| #[trigger] blocks(txs, j, i)
}

/// Each key carries its own insertion position.
pub open spec fn keys_indexed(txs: Seq<TxEntry>) -> bool {
    forall|q: int| 0 <= q < txs.len() ==> (#[trigger] txs[q].key).index == q
}

/// The blocker of `i` below position `b` that lies in the layer right below
/// `i` and is popped last among those — the one whose release makes `i`
/// ready; `-1` when there is none.
pub open spec fn edge_source_below(txs: Seq<TxEntry>, i: int, b: int) -> int
    decreases b,
{
    if b <= 0 || b > i {
        -1
    } else {
        let rest = edge_source_below(txs, i, b - 1);
        if blocks(txs, b - 1, i) && layer_of(txs, b - 1) == layer_of(txs, i) - 1 {
            if rest == -1 {
                b - 1
            } else if key_precedes(txs[rest].key, txs[b - 1].key) {
                b - 1
            } else {
                rest
            }
        } else {
            rest
        }
    }
}

/// The predecessor whose release makes `i` ready: the last-popped among the
/// blockers of `i` in the layer right below it. This is the one edge the
/// drain surfaces for `i`.
pub open spec fn edge_source(txs: Seq<TxEntry>, i: int) -> int {
    edge_source_below(txs, i, i)
}

proof fn lemma_esb_char(txs: Seq<TxEntry>, i: int, b: int)
    requires
        keys_indexed(txs),
        0 <= b <= i < txs.len(),
    ensures
        ({
            let s = edge_source_below(txs, i, b);
            &&& s == -1 || (0 <= s < b && blocks(txs, s, i) && layer_of(txs, s) == layer_of(
                txs,
                i,
            ) - 1)
            &&& forall|o: int|
                0 <= o < b && #[trigger] blocks(txs, o, i) && layer_of(txs, o) == layer_of(txs, i)
                    - 1 && o != s ==> (s != -1 && key_precedes(txs[o].key, txs[s].key))
        }),
    decreases b,
{
    if b > 0 {
        lemma_esb_char(txs, i, b - 1);
        let rest = edge_source_below(txs, i, b - 1);
        let s = edge_source_below(txs, i, b);
        assert forall|o: int|
            0 <= o < b && #[trigger] blocks(txs, o, i) && layer_of(txs, o) == layer_of(txs, i) - 1
                && o != s implies (s != -1 && key_precedes(txs[o].key, txs[s].key)) by {
            if o == b - 1 {
                // The new candidate was compared against `rest` and lost.
                assert(s == rest && rest != -1);
                assert(!key_precedes(txs[rest].key, txs[b - 1].key));
                assert(txs[rest].key.index == rest && txs[b - 1].key.index == b - 1);
                assert(key_precedes(txs[b - 1].key, txs[rest].key));
            } else {
                if s == rest {
                } else {
                    // `b - 1` replaced `rest`; everything below either
                    // precedes `rest`, which precedes `b - 1`, or is `rest`.
                    assert(s == b - 1);
                    assert(blocks(txs, b - 1, i) && layer_of(txs, b - 1) == layer_of(txs, i) - 1);
                    if rest == -1 {
                        assert(o < b - 1);
                        assert(false);
                    } else if o == rest {
                        assert(key_precedes(txs[rest].key, txs[b - 1].key));
                    } else {
                        assert(key_precedes(txs[o].key, txs[rest].key));
                        assert(key_precedes(txs[rest].key, txs[b - 1].key));
                    }
                }
            }
        }
    }
}

/// What the drain's surfaced edge for a blocked transaction is: its source
/// blocks it, sits exactly one layer below, and is the last-popped blocker in
/// that layer, so every other such blocker precedes it in pop order.
pub proof fn lemma_edge_source_char(txs: Seq<TxEntry>, i: int)
    requires
        keys_indexed(txs),
        0 <= i < txs.len(),
        has_blocker(txs, i),
    ensures
        ({
            let s = edge_source(txs, i);
            &&& 0 <= s < i
            &&& blocks(txs, s, i)
            &&& layer_of(txs, s) == layer_of(txs, i) - 1
            &&& forall|o: int|
                #[trigger] blocks(txs, o, i) && layer_of(txs, o) == layer_of(txs, i) - 1 && o != s
                    ==> key_precedes(txs[o].key, txs[s].key)
        }),
{
    let j0 = choose|j: int| #[trigger] blocks(txs, j, i);
    lemma_blocks_bounds(txs, j0, i);
    lemma_layer_at_least_one(txs, j0);
    lemma_mbl_ge(txs, i, i, j0);
    lemma_layer_witness(txs, i);
    let jw = choose|j: int|
        #[trigger] blocks(txs, j, i) && layer_of(txs, j) == layer_of(txs, i) - 1;
    lemma_blocks_bounds(txs, jw, i);
    lemma_esb_char(txs, i, i);
    let s = edge_source(txs, i);
    if s == -1 {
        assert(key_precedes(txs[jw].key, txs[s].key) && s != -1);
    }
    assert forall|o: int|
        #[trigger] blocks(txs, o, i) && layer_of(txs, o) == layer_of(txs, i) - 1 && o != s implies key_precedes(
        txs[o].key,
        txs[s].key,
    ) by {
        lemma_blocks_bounds(txs, o, i);
    }
}

} // verus!
