use crate::graph::blocks;
use crate::graph::entry_of;
use crate::graph::AccountLockSet;
use crate::graph::ConflictGraphBuilder;
use crate::graph::PriorityKey;
use crate::graph::TxEntry;
use crate::order::edge_source;
use crate::order::has_blocker;
use crate::order::keys_indexed;
use crate::order::layer_of;
use crate::order::lemma_blocker_layer_lt;
use crate::order::lemma_edge_source_char;
use crate::order::lemma_layer_at_least_one;
use crate::order::lemma_layer_bounds;
use crate::order::lemma_layer_le_index;
use crate::graph::key_precedes;
use crate::graph::key_before;
use crate::graph::lemma_blocks_bounds;
use crate::event::batches_wf;
use crate::event::event_wf;
use crate::event::events_wf;
use crate::event::groups_wf;
use crate::event::packet_wf;
use crate::event::ChannelLabel;
use crate::event::PacketRecord;
use crate::event::TimedTracedEvent;
use crate::event::TracedEvent;
use crate::priority::get_priority_and_requested_cus;
use crate::priority::priority_of;
use crate::priority::requested_cus_of;
use crate::sort::sort_transactions;
use crate::sort::sorted_by_priority;
use crate::sort::stable_insert;
use crate::sort::lemma_sorted_all;
use crate::sort::lemma_sorted_by_priority_sorted;
use vstd::prelude::*;

verus! {

/// One decoded transaction ready for graph building: its signature (as an
/// interned identifier), its derived priority and requested compute units,
/// and its resolved account locks.
pub struct TransactionRecord {
    pub signature: u64,
    pub priority: u64,
    pub requested_cus: u64,
    pub locks: AccountLockSet,
}

/// The insertion history that feeding `rs` to a fresh builder in order
/// produces: entry `q` carries the key `(priority, q)`.
pub open spec fn entries_of(rs: Seq<TransactionRecord>) -> Seq<TxEntry> {
    Seq::new(
        rs.len(),
        |q: int|
            entry_of(
                PriorityKey { priority: rs[q].priority, index: q as usize },
                rs[q].locks,
            ),
    )
}

/// The transactions that received at least one blocking edge, in insertion
/// order, restricted to the first `b` of them.
pub open spec fn blocked_targets_below(txs: Seq<TxEntry>, b: int) -> Seq<int>
    decreases b,
{
    if b <= 0 {
        Seq::empty()
    } else {
        let rest = blocked_targets_below(txs, b - 1);
        if has_blocker(txs, b - 1) {
            rest.push(b - 1)
        } else {
            rest
        }
    }
}

/// The transactions that received at least one blocking edge, in insertion
/// order. The exported document holds exactly one edge per such transaction.
pub open spec fn blocked_targets(txs: Seq<TxEntry>) -> Seq<int> {
    blocked_targets_below(txs, txs.len() as int)
}

/// Per-transaction metadata carried by an exported node.
#[derive(Clone, Copy, PartialEq, Eq, Structural, Debug)]
pub struct GraphiaInputNodeMetaData {
    pub signature: u64,
    pub priority: u64,
    pub requested_cus: u64,
    /// The drain step in which the transaction became ready, starting at one.
    pub layer: usize,
}

/// One exported node: its identifier is the insertion position.
#[derive(Clone, Copy, PartialEq, Eq, Structural, Debug)]
pub struct GraphiaInputNode {
    pub id: usize,
    pub metadata: GraphiaInputNodeMetaData,
}

/// One exported "must be scheduled after" edge.
#[derive(Clone, Copy, PartialEq, Eq, Structural, Debug)]
pub struct GraphiaInputEdge {
    pub id: usize,
    pub source: usize,
    pub target: usize,
}

/// The node-and-edge interchange structure of the export.
pub struct GraphiaInputGraph {
    pub directed: bool,
    pub edges: Vec<GraphiaInputEdge>,
    pub nodes: Vec<GraphiaInputNode>,
}

impl Default for GraphiaInputGraph {
    /// An empty directed graph document.
    fn default() -> (g: GraphiaInputGraph)
        ensures
            g.directed,
            g.nodes@.len() == 0,
            g.edges@.len() == 0,
    {
        GraphiaInputGraph { directed: true, edges: Vec::new(), nodes: Vec::new() }
    }
}

/// The whole export document.
pub struct GraphiaInput {
    pub graph: GraphiaInputGraph,
}

/// What the exported document of a record sequence is: one node per record,
/// in insertion order, carrying its metadata and drain layer; and one edge
/// per blocked transaction, in insertion order of the target, from the
/// predecessor whose release made the target ready.
pub open spec fn graphia_matches(rs: Seq<TransactionRecord>, g: GraphiaInputGraph) -> bool {
    let txs = entries_of(rs);
    &&& g.directed
    &&& g.nodes@.len() == rs.len()
    &&& forall|q: int|
        0 <= q < rs.len() ==> #[trigger] g.nodes@[q] == (GraphiaInputNode {
            id: q as usize,
            metadata: GraphiaInputNodeMetaData {
                signature: rs[q].signature,
                priority: rs[q].priority,
                requested_cus: rs[q].requested_cus,
                layer: layer_of(txs, q) as usize,
            },
        })
    &&& g.edges@.len() == blocked_targets(txs).len()
    &&& forall|e: int|
        0 <= e < g.edges@.len() ==> #[trigger] g.edges@[e] == (GraphiaInputEdge {
            id: e as usize,
            source: edge_source(txs, blocked_targets(txs)[e]) as usize,
            target: blocked_targets(txs)[e] as usize,
        })
}

proof fn lemma_btb_members(txs: Seq<TxEntry>, b: int)
    ensures
        forall|e: int|
            0 <= e < blocked_targets_below(txs, b).len() ==> {
                let tgt = #[trigger] blocked_targets_below(txs, b)[e];
                0 <= tgt < b && has_blocker(txs, tgt)
            },
    decreases b,
{
    if b > 0 {
        lemma_btb_members(txs, b - 1);
        let rest = blocked_targets_below(txs, b - 1);
        let cur = blocked_targets_below(txs, b);
        assert forall|e: int|
            0 <= e < cur.len() implies {
            let tgt = #[trigger] cur[e];
            0 <= tgt < b && has_blocker(txs, tgt)
        } by {
            if e < rest.len() {
                assert(cur[e] == rest[e]);
            }
        }
    }
}

/// Every edge of the exported document runs from a blocking predecessor of
/// its target that sits in the layer directly below it: along each edge the
/// source is popped in a strictly earlier drain step than the target.
pub proof fn lemma_edges_respect_layers(rs: Seq<TransactionRecord>, g: GraphiaInputGraph, e: int)
    requires
        rs.len() <= usize::MAX,
        graphia_matches(rs, g),
        0 <= e < g.edges@.len(),
    ensures
        ({
            let txs = entries_of(rs);
            let tgt = blocked_targets(txs)[e];
            &&& g.edges@[e].target == tgt
            &&& blocks(txs, g.edges@[e].source as int, tgt)
            &&& layer_of(txs, g.edges@[e].source as int) + 1 == layer_of(txs, tgt)
        }),
{
    let txs = entries_of(rs);
    lemma_entries_keys_indexed(rs);
    lemma_btb_members(txs, txs.len() as int);
    let tgt = blocked_targets(txs)[e];
    lemma_edge_source_char(txs, tgt);
    let s = edge_source(txs, tgt);
    crate::order::lemma_blocker_layer_lt(txs, s, tgt);
}

/// Write-write ordering in the exported document: when an earlier record and
/// a later record both write one account, the earlier one's node carries a
/// strictly smaller layer — it is popped in an earlier drain step — and a
/// chain of blocking edges leads from it to the later one.
pub proof fn lemma_write_write_in_document(
    rs: Seq<TransactionRecord>,
    g: GraphiaInputGraph,
    a: u64,
    i: int,
    j: int,
)
    requires
        rs.len() <= usize::MAX,
        graphia_matches(rs, g),
        0 <= i < j < rs.len(),
        rs[i].locks.writes(a),
        rs[j].locks.writes(a),
    ensures
        g.nodes@[i].metadata.layer < g.nodes@[j].metadata.layer,
        crate::order::reaches(entries_of(rs), i, j),
{
    let txs = entries_of(rs);
    assert(txs[i].writes(a) && txs[j].writes(a));
    crate::order::lemma_write_write_ordering(txs, a, i, j);
    crate::order::lemma_layer_at_least_one(txs, i);
    lemma_layer_le_index(txs, i);
    lemma_layer_le_index(txs, j);
}

/// Determinism: the exported document is a function of the record sequence,
/// so re-running an identical insertion sequence on a fresh builder yields an
/// identical node, edge, and layer assignment.
pub proof fn lemma_build_deterministic(
    rs: Seq<TransactionRecord>,
    g1: GraphiaInputGraph,
    g2: GraphiaInputGraph,
)
    requires
        graphia_matches(rs, g1),
        graphia_matches(rs, g2),
    ensures
        g1.directed == g2.directed,
        g1.nodes@ == g2.nodes@,
        g1.edges@ == g2.edges@,
{
    assert(g1.nodes@ =~= g2.nodes@);
    assert(g1.edges@ =~= g2.edges@);
}

/// The keys `entries_of` assigns carry their insertion position.
proof fn lemma_entries_keys_indexed(rs: Seq<TransactionRecord>)
    requires
        rs.len() <= usize::MAX,
    ensures
        keys_indexed(entries_of(rs)),
{
    let txs = entries_of(rs);
    assert forall|q: int| 0 <= q < txs.len() implies (#[trigger] txs[q].key).index == q by {
        assert(txs[q].key.index == q as usize);
    }
}

/// Feeds every record to a fresh builder, highest priority first.
fn insert_all(records: &Vec<TransactionRecord>) -> (b: ConflictGraphBuilder)
    requires
        forall|m: int| 0 <= m < records@.len() ==> (#[trigger] records@[m]).locks.wf(),
        forall|m1: int, m2: int|
            0 <= m1 < m2 < records@.len() ==> records@[m1].priority >= records@[m2].priority,
        records@.len() < usize::MAX,
    ensures
        b.wf(),
        b.no_pops(),
        b.txs() == entries_of(records@),
{
    let ghost entries = entries_of(records@);
    let mut b = ConflictGraphBuilder::new();
    let mut q: usize = 0;
    while q < records.len()
        invariant
            0 <= q <= records@.len(),
            records@.len() < usize::MAX,
            forall|m: int| 0 <= m < records@.len() ==> (#[trigger] records@[m]).locks.wf(),
            forall|m1: int, m2: int|
                0 <= m1 < m2 < records@.len() ==> records@[m1].priority >= records@[m2].priority,
            entries == entries_of(records@),
            b.wf(),
            b.no_pops(),
            b.txs() == entries.take(q as int),
        decreases records@.len() - q,
    {
        let key = PriorityKey { priority: records[q].priority, index: q };
        let locks = records[q].locks.duplicate();
        proof {
            assert(records@[q as int].locks.wf());
            assert forall|a: u64| #[trigger] locks.writes(a) implies !locks.reads(a) by {
                assert(records@[q as int].locks.writes(a));
                assert(!records@[q as int].locks.reads(a));
            }
            assert(locks.wf());
            if q > 0 {
                assert(b.txs().last() == entries[q - 1]);
                assert(entries[q - 1].key.priority == records@[q - 1].priority);
            }
        }
        b.insert(key, locks);
        proof {
            assert(entry_of(key, locks) == entries[q as int]) by {
                assert(entries[q as int] == entry_of(
                    PriorityKey { priority: records@[q as int].priority, index: q },
                    records@[q as int].locks,
                ));
            }
            assert(b.txs() =~= entries.take(q as int + 1));
        }
        q += 1;
    }
    proof {
        assert(entries.take(records@.len() as int) =~= entries);
    }
    b
}

/// The number of popped transactions among the first `b`.
spec fn popped_count(g: ConflictGraphBuilder, b: int) -> int
    decreases b,
{
    if b <= 0 {
        0
    } else {
        popped_count(g, b - 1) + if g.popped(b - 1) {
            1int
        } else {
            0int
        }
    }
}

proof fn lemma_popped_count_le(g: ConflictGraphBuilder, b: int)
    ensures
        0 <= popped_count(g, b),
        b >= 0 ==> popped_count(g, b) <= b,
    decreases b,
{
    if b > 0 {
        lemma_popped_count_le(g, b - 1);
    }
}

proof fn lemma_popped_count_step(
    g1: ConflictGraphBuilder,
    g2: ConflictGraphBuilder,
    b: int,
    idx: int,
)
    requires
        forall|x: int| g2.popped(x) == (g1.popped(x) || x == idx),
        !g1.popped(idx),
        0 <= idx,
    ensures
        idx < b ==> popped_count(g2, b) == popped_count(g1, b) + 1,
        b <= idx ==> popped_count(g2, b) == popped_count(g1, b),
    decreases b,
{
    if b > 0 {
        lemma_popped_count_step(g1, g2, b - 1, idx);
    }
}

/// Drains the builder to emptiness by the layer protocol — pop every
/// currently-ready transaction, then release each popped one's holds in pop
/// order, and repeat — and records each transaction's layer number.
fn drain_layers(builder: &mut ConflictGraphBuilder) -> (layers: Vec<usize>)
    requires
        old(builder).wf(),
        old(builder).no_pops(),
        old(builder).txs().len() < usize::MAX,
    ensures
        final(builder).wf(),
        final(builder).txs() == old(builder).txs(),
        layers@.len() == old(builder).txs().len(),
        forall|q: int|
            0 <= q < layers@.len() ==> #[trigger] layers@[q] as int == layer_of(
                old(builder).txs(),
                q,
            ),
{
    let ghost entries = builder.txs();
    let n = builder.len();
    let mut layers: Vec<usize> = Vec::new();
    let mut z: usize = 0;
    while z < n
        invariant
            0 <= z <= n,
            layers@.len() == z,
        decreases n - z,
    {
        layers.push(0);
        z += 1;
    }
    let mut layer: usize = 0;
    proof {
        assert forall|q: int| 0 <= q < n implies !builder.popped(q) && !builder.unblocked(q) by {
            if builder.unblocked(q) {
                crate::graph::lemma_unblocked_implies_popped(*builder, q);
            }
        }
        assert forall|q: int| 0 <= q < n implies layer_of(entries, q) > 0 by {
            lemma_layer_at_least_one(entries, q);
        }
    }
    while !builder.is_empty()
        invariant
            builder.wf(),
            builder.txs() == entries,
            n == entries.len(),
            n < usize::MAX,
            layer as int <= n,
            layers@.len() == n,
            forall|q: int|
                0 <= q < n ==> (builder.popped(q) <==> layer_of(entries, q) <= layer as int),
            forall|q: int|
                0 <= q < n ==> (builder.unblocked(q) <==> layer_of(entries, q) <= layer as int),
            forall|q: int|
                0 <= q < n && builder.popped(q) ==> #[trigger] layers@[q] as int == layer_of(
                    entries,
                    q,
                ),
        decreases n - layer,
    {
        proof {
            let u = choose|u: int| 0 <= u < entries.len() && !builder.popped(u);
            assert(layer_of(entries, u) > layer as int);
            lemma_layer_le_index(entries, u);
            assert((layer as int) < n);
        }
        layer += 1;
        let ghost lo = layer as int;
        let mut batch: Vec<PriorityKey> = Vec::new();
        loop
            invariant_except_break
                builder.wf(),
                builder.txs() == entries,
                n == entries.len(),
                n < usize::MAX,
                layer as int == lo,
                1 <= lo <= n,
                layers@.len() == n,
                forall|q: int|
                    0 <= q < n ==> (builder.unblocked(q) <==> layer_of(entries, q) <= lo - 1),
                forall|q: int| 0 <= q < n && builder.popped(q) ==> layer_of(entries, q) <= lo,
                forall|q: int| 0 <= q < n && layer_of(entries, q) <= lo - 1 ==> builder.popped(q),
                forall|m: int|
                    0 <= m < batch@.len() ==> {
                        let ki = #[trigger] batch@[m].index as int;
                        &&& ki < n
                        &&& entries[ki].key == batch@[m]
                        &&& builder.popped(ki)
                        &&& layer_of(entries, ki) == lo
                        &&& layers@[ki] as int == lo
                    },
                forall|m1: int, m2: int|
                    0 <= m1 < m2 < batch@.len() ==> batch@[m1].index != batch@[m2].index,
                forall|q: int|
                    0 <= q < n && builder.popped(q) && layer_of(entries, q) == lo ==> exists|m: int|
                        0 <= m < batch@.len() && #[trigger] batch@[m].index as int == q,
                forall|q: int|
                    0 <= q < n && builder.popped(q) ==> #[trigger] layers@[q] as int == layer_of(
                        entries,
                        q,
                    ),
            ensures
                builder.wf(),
                builder.txs() == entries,
                layer as int == lo,
                layers@.len() == n,
                forall|q: int|
                    0 <= q < n ==> (builder.unblocked(q) <==> layer_of(entries, q) <= lo - 1),
                forall|q: int| 0 <= q < n ==> (builder.popped(q) <==> layer_of(entries, q) <= lo),
                forall|m: int|
                    0 <= m < batch@.len() ==> {
                        let ki = #[trigger] batch@[m].index as int;
                        &&& ki < n
                        &&& entries[ki].key == batch@[m]
                        &&& layer_of(entries, ki) == lo
                    },
                forall|m1: int, m2: int|
                    0 <= m1 < m2 < batch@.len() ==> batch@[m1].index != batch@[m2].index,
                forall|q: int|
                    0 <= q < n && layer_of(entries, q) == lo ==> exists|m: int|
                        0 <= m < batch@.len() && #[trigger] batch@[m].index as int == q,
                forall|q: int|
                    0 <= q < n && builder.popped(q) ==> #[trigger] layers@[q] as int == layer_of(
                        entries,
                        q,
                    ),
            decreases n - popped_count(*builder, n as int),
        {
            let ghost before = *builder;
            proof {
                lemma_popped_count_le(before, n as int);
            }
            let r = builder.pop();
            match r {
                Option::None => {
                    proof {
                        assert forall|q: int|
                            0 <= q < n && layer_of(entries, q) == lo implies builder.popped(q) by {
                            if !builder.popped(q) {
                                assert forall|j: int|
                                    #[trigger] blocks(entries, j, q) implies builder.unblocked(
                                    j,
                                ) by {
                                    lemma_blocker_layer_lt(entries, j, q);
                                    lemma_blocks_bounds(entries, j, q);
                                }
                                assert(builder.ready(q));
                                assert(!before.ready(q));
                                assert(false);
                            }
                        }
                        assert forall|q: int|
                            0 <= q < n && builder.popped(q) implies layer_of(entries, q) <= lo by {}
                    }
                    break;
                },
                Option::Some(k) => {
                    proof {
                        let ki = k.index as int;
                        assert(before.ready(ki));
                        assert forall|j: int|
                            #[trigger] blocks(entries, j, ki) implies layer_of(entries, j) <= lo
                            - 1 by {
                            assert(before.unblocked(j));
                        }
                        lemma_layer_bounds(entries, ki, lo - 1);
                        assert(!(layer_of(entries, ki) <= lo - 1));
                        assert(layer_of(entries, ki) == lo);
                        lemma_popped_count_step(before, *builder, n as int, ki);
                        lemma_popped_count_le(*builder, n as int);
                    }
                    layers.set(k.index, layer);
                    let ghost batch_old = batch@;
                    batch.push(k);
                    proof {
                        let ki = k.index as int;
                        assert forall|m: int|
                            0 <= m < batch@.len() implies {
                            let bi = #[trigger] batch@[m].index as int;
                            &&& bi < n
                            &&& entries[bi].key == batch@[m]
                            &&& builder.popped(bi)
                            &&& layer_of(entries, bi) == lo
                            &&& layers@[bi] as int == lo
                        } by {
                            if m < batch_old.len() {
                                assert(batch@[m] == batch_old[m]);
                                assert(batch_old[m].index != k.index) by {
                                    if batch_old[m].index as int == ki {
                                        assert(before.popped(ki));
                                    }
                                }
                            } else {
                                assert(batch@[m] == k);
                            }
                        }
                        assert forall|m1: int, m2: int|
                            0 <= m1 < m2 < batch@.len() implies batch@[m1].index
                            != batch@[m2].index by {
                            if m2 < batch_old.len() {
                                assert(batch@[m1] == batch_old[m1] && batch@[m2] == batch_old[m2]);
                            } else {
                                assert(batch@[m2] == k);
                                assert(batch@[m1] == batch_old[m1]);
                                if batch_old[m1].index as int == ki {
                                    assert(before.popped(ki));
                                }
                            }
                        }
                        assert forall|q: int|
                            0 <= q < n && builder.popped(q) && layer_of(entries, q)
                                == lo implies exists|m: int|
                            0 <= m < batch@.len() && #[trigger] batch@[m].index as int == q by {
                            if q == ki {
                                assert(batch@[batch@.len() - 1].index as int == q);
                            } else {
                                assert(before.popped(q));
                                let m = choose|m: int|
                                    0 <= m < batch_old.len() && #[trigger] batch_old[m].index as int
                                        == q;
                                assert(batch@[m].index as int == q);
                            }
                        }
                    }
                },
            }
        }
        // Release every popped transaction's holds, in pop order.
        let ghost batch_seq = batch@;
        let mut tdx: usize = 0;
        while tdx < batch.len()
            invariant
                builder.wf(),
                builder.txs() == entries,
                n == entries.len(),
                n < usize::MAX,
                layer as int == lo,
                1 <= lo <= n,
                layers@.len() == n,
                batch@ == batch_seq,
                0 <= tdx <= batch@.len(),
                forall|q: int| 0 <= q < n ==> (builder.popped(q) <==> layer_of(entries, q) <= lo),
                forall|m: int|
                    0 <= m < batch@.len() ==> {
                        let ki = #[trigger] batch@[m].index as int;
                        &&& ki < n
                        &&& entries[ki].key == batch@[m]
                        &&& layer_of(entries, ki) == lo
                    },
                forall|m1: int, m2: int|
                    0 <= m1 < m2 < batch@.len() ==> batch@[m1].index != batch@[m2].index,
                forall|q: int|
                    0 <= q < n && layer_of(entries, q) == lo ==> exists|m: int|
                        0 <= m < batch@.len() && #[trigger] batch@[m].index as int == q,
                forall|q: int|
                    0 <= q < n ==> (builder.unblocked(q) <==> (layer_of(entries, q) <= lo - 1
                        || exists|m: int|
                        0 <= m < tdx && #[trigger] batch@[m].index as int == q)),
                forall|q: int|
                    0 <= q < n && builder.popped(q) ==> #[trigger] layers@[q] as int == layer_of(
                        entries,
                        q,
                    ),
            decreases batch@.len() - tdx,
        {
            let k = batch[tdx];
            proof {
                let ki = k.index as int;
                assert(builder.popped(ki));
                assert(!builder.unblocked(ki)) by {
                    if exists|m: int| 0 <= m < tdx && #[trigger] batch@[m].index as int == ki {
                        let m = choose|m: int|
                            0 <= m < tdx && #[trigger] batch@[m].index as int == ki;
                        assert(batch@[m].index == batch@[tdx as int].index);
                    }
                }
                assert(entries[ki].key == k);
            }
            let ghost before = *builder;
            let _newly = builder.unblock(k);
            proof {
                let ki = k.index as int;
                assert forall|q: int|
                    0 <= q < n implies (builder.unblocked(q) <==> (layer_of(entries, q) <= lo - 1
                        || exists|m: int|
                    0 <= m < tdx + 1 && #[trigger] batch@[m].index as int == q)) by {
                    if builder.unblocked(q) {
                        if q == ki {
                            assert(batch@[tdx as int].index as int == q);
                        } else {
                            assert(before.unblocked(q));
                            if !(layer_of(entries, q) <= lo - 1) {
                                let m = choose|m: int|
                                    0 <= m < tdx && #[trigger] batch@[m].index as int == q;
                                assert(0 <= m < tdx + 1 && batch@[m].index as int == q);
                            }
                        }
                    } else {
                        assert(!before.unblocked(q) && q != ki);
                        if exists|m: int| 0 <= m < tdx + 1 && #[trigger] batch@[m].index as int
                            == q {
                            let m = choose|m: int|
                                0 <= m < tdx + 1 && #[trigger] batch@[m].index as int == q;
                            assert(m < tdx);
                            assert(before.unblocked(q));
                            assert(false);
                        }
                    }
                }
            }
            tdx += 1;
        }
        proof {
            assert forall|q: int|
                0 <= q < n implies (builder.unblocked(q) <==> layer_of(entries, q)
                <= layer as int) by {
                if layer_of(entries, q) == lo {
                    assert(builder.popped(q));
                    let m = choose|m: int|
                        0 <= m < batch@.len() && #[trigger] batch@[m].index as int == q;
                    assert(builder.unblocked(q));
                }
                if builder.unblocked(q) && !(layer_of(entries, q) <= lo - 1) {
                    let m = choose|m: int|
                        0 <= m < batch@.len() && #[trigger] batch@[m].index as int == q;
                    assert(layer_of(entries, q) == lo);
                }
            }
        }
    }
    proof {
        assert forall|q: int|
            0 <= q < layers@.len() implies #[trigger] layers@[q] as int == layer_of(entries, q) by {
            assert(builder.popped(q));
        }
    }
    layers
}

/// Collects the surfaced edges: for each transaction with a blocking
/// predecessor, one edge from the predecessor whose release made it ready.
fn collect_edges(
    builder: &ConflictGraphBuilder,
    layers: &Vec<usize>,
) -> (edges: Vec<GraphiaInputEdge>)
    requires
        builder.wf(),
        keys_indexed(builder.txs()),
        builder.txs().len() < usize::MAX,
        layers@.len() == builder.txs().len(),
        forall|q: int|
            0 <= q < layers@.len() ==> #[trigger] layers@[q] as int == layer_of(builder.txs(), q),
    ensures
        edges@.len() == blocked_targets(builder.txs()).len(),
        forall|e: int|
            0 <= e < edges@.len() ==> #[trigger] edges@[e] == (GraphiaInputEdge {
                id: e as usize,
                source: edge_source(builder.txs(), blocked_targets(builder.txs())[e]) as usize,
                target: blocked_targets(builder.txs())[e] as usize,
            }),
{
    let ghost txs = builder.txs();
    let n = builder.len();
    let mut edges: Vec<GraphiaInputEdge> = Vec::new();
    let mut q: usize = 0;
    while q < n
        invariant
            builder.wf(),
            txs == builder.txs(),
            keys_indexed(txs),
            n == txs.len(),
            n < usize::MAX,
            layers@.len() == n,
            forall|q2: int|
                0 <= q2 < n ==> #[trigger] layers@[q2] as int == layer_of(txs, q2),
            0 <= q <= n,
            edges@.len() == blocked_targets_below(txs, q as int).len(),
            forall|e: int|
                0 <= e < edges@.len() ==> #[trigger] edges@[e] == (GraphiaInputEdge {
                    id: e as usize,
                    source: edge_source(txs, blocked_targets_below(txs, q as int)[e]) as usize,
                    target: blocked_targets_below(txs, q as int)[e] as usize,
                }),
        decreases n - q,
    {
        let ghost btb_old = blocked_targets_below(txs, q as int);
        let bs = builder.blockers_of(q);
        if bs.len() > 0 {
            proof {
                assert(blocks(txs, bs@[0] as int, q as int));
                assert(has_blocker(txs, q as int));
                lemma_edge_source_char(txs, q as int);
                let s = edge_source(txs, q as int);
                lemma_layer_at_least_one(txs, s);
                assert(layer_of(txs, q as int) >= 2);
            }
            let lq = layers[q];
            assert(lq >= 2);
            let mut best: usize = 0;
            let mut have: bool = false;
            let mut p: usize = 0;
            while p < bs.len()
                invariant
                    builder.wf(),
                    txs == builder.txs(),
                    keys_indexed(txs),
                    n == txs.len(),
                    layers@.len() == n,
                    forall|q2: int|
                        0 <= q2 < n ==> #[trigger] layers@[q2] as int == layer_of(txs, q2),
                    q < n,
                    lq as int == layer_of(txs, q as int),
                    lq >= 2,
                    0 <= p <= bs@.len(),
                    crate::graph::nodup_usize(bs@),
                    forall|m: int|
                        0 <= m < bs@.len() ==> blocks(txs, #[trigger] bs@[m] as int, q as int),
                    forall|j: int| blocks(txs, j, q as int) ==> bs@.contains(j as usize),
                    have ==> {
                        &&& best < n
                        &&& blocks(txs, best as int, q as int)
                        &&& layer_of(txs, best as int) == lq - 1
                        &&& exists|mb: int| 0 <= mb < p && bs@[mb] == best
                        &&& forall|m: int|
                            0 <= m < p && blocks(txs, #[trigger] bs@[m] as int, q as int)
                                && layer_of(txs, bs@[m] as int) == lq - 1 && bs@[m] != best
                                ==> key_precedes(txs[bs@[m] as int].key, txs[best as int].key)
                    },
                    !have ==> forall|m: int|
                        0 <= m < p ==> !(blocks(txs, #[trigger] bs@[m] as int, q as int)
                            && layer_of(txs, bs@[m] as int) == lq - 1),
                decreases bs@.len() - p,
            {
                let j = bs[p];
                proof {
                    lemma_blocks_bounds(txs, j as int, q as int);
                }
                if layers[j] == lq - 1 {
                    if !have {
                        best = j;
                        have = true;
                    } else {
                        let kb = builder.node_key(best);
                        let kj = builder.node_key(j);
                        proof {
                            assert(txs[best as int].key.index == best);
                            assert(txs[j as int].key.index == j);
                        }
                        if key_before(&kb, &kj) {
                            proof {
                                assert forall|m: int|
                                    0 <= m < p + 1 && blocks(txs, #[trigger] bs@[m] as int, q as int)
                                        && layer_of(txs, bs@[m] as int) == lq - 1 && bs@[m]
                                        != j implies key_precedes(
                                    txs[bs@[m] as int].key,
                                    txs[j as int].key,
                                ) by {
                                    if m < p {
                                        if bs@[m] == best {
                                        } else {
                                            assert(key_precedes(
                                                txs[bs@[m] as int].key,
                                                txs[best as int].key,
                                            ));
                                        }
                                    }
                                }
                            }
                            best = j;
                        } else {
                            proof {
                                assert(j != best) by {
                                    if bs@[p as int] == best {
                                        let mb = choose|mb: int|
                                            0 <= mb < p && bs@[mb] == best;
                                        assert(bs@[mb] != bs@[p as int]);
                                    }
                                }
                                assert(key_precedes(txs[j as int].key, txs[best as int].key));
                            }
                        }
                    }
                } else {
                    proof {
                        assert(layers@[j as int] as int == layer_of(txs, j as int));
                        assert(layer_of(txs, j as int) != lq - 1);
                    }
                }
                proof {
                    if have {
                        if bs@[p as int] == best {
                            assert(exists|mb: int| 0 <= mb < p + 1 && bs@[mb] == best);
                        } else {
                            let mb = choose|mb: int| 0 <= mb < p && bs@[mb] == best;
                            assert(0 <= mb < p + 1 && bs@[mb] == best);
                        }
                    }
                }
                p += 1;
            }
            proof {
                let s = edge_source(txs, q as int);
                assert(bs@.contains(s as usize));
                let ms = choose|ms: int| 0 <= ms < bs@.len() && bs@[ms] == s as usize;
                assert(have) by {
                    if !have {
                        assert(!(blocks(txs, bs@[ms] as int, q as int) && layer_of(
                            txs,
                            bs@[ms] as int,
                        ) == lq - 1));
                    }
                }
                if best as int != s {
                    assert(key_precedes(txs[s].key, txs[best as int].key)) by {
                        assert(blocks(txs, bs@[ms] as int, q as int));
                    }
                    assert(key_precedes(txs[best as int].key, txs[s].key));
                    assert(false);
                }
                assert(best as int == s);
            }
            let e = GraphiaInputEdge { id: edges.len(), source: best, target: q };
            let ghost edges_old = edges@;
            edges.push(e);
            proof {
                let btb_new = blocked_targets_below(txs, q as int + 1);
                assert(btb_new == btb_old.push(q as int));
                assert forall|e2: int|
                    0 <= e2 < edges@.len() implies #[trigger] edges@[e2] == (GraphiaInputEdge {
                    id: e2 as usize,
                    source: edge_source(txs, btb_new[e2]) as usize,
                    target: btb_new[e2] as usize,
                }) by {
                    if e2 < edges_old.len() {
                        assert(edges@[e2] == edges_old[e2]);
                        assert(btb_new[e2] == btb_old[e2]);
                    } else {
                        assert(edges@[e2] == e);
                        assert(btb_new[e2] == q as int);
                    }
                }
            }
        } else {
            proof {
                assert(!has_blocker(txs, q as int)) by {
                    if has_blocker(txs, q as int) {
                        let j = choose|j: int| #[trigger] blocks(txs, j, q as int);
                        assert(bs@.contains(j as usize));
                        let m = choose|m: int| 0 <= m < bs@.len() && bs@[m] == j as usize;
                    }
                }
                assert(blocked_targets_below(txs, q as int + 1) == btb_old);
            }
        }
        q += 1;
    }
    edges
}

/// Builds the exported document for a priority-sorted record sequence:
/// inserts every record into a fresh conflict-graph builder, drains it by the
/// layer protocol, and emits one node per transaction and one edge per
/// blocked transaction.
pub fn build_graphia_input(records: &Vec<TransactionRecord>) -> (out: GraphiaInput)
    requires
        forall|m: int| 0 <= m < records@.len() ==> (#[trigger] records@[m]).locks.wf(),
        forall|m1: int, m2: int|
            0 <= m1 < m2 < records@.len() ==> records@[m1].priority >= records@[m2].priority,
        records@.len() < usize::MAX,
    ensures
        graphia_matches(records@, out.graph),
{
    let ghost entries = entries_of(records@);
    proof {
        lemma_entries_keys_indexed(records@);
    }
    let mut builder = insert_all(records);
    let layers = drain_layers(&mut builder);
    let edges = collect_edges(&builder, &layers);
    let mut nodes: Vec<GraphiaInputNode> = Vec::new();
    let n = records.len();
    let mut q: usize = 0;
    while q < n
        invariant
            0 <= q <= n,
            n == records@.len(),
            layers@.len() == n,
            forall|q2: int|
                0 <= q2 < n ==> #[trigger] layers@[q2] as int == layer_of(entries, q2),
            entries == entries_of(records@),
            nodes@.len() == q,
            forall|q2: int|
                0 <= q2 < q ==> #[trigger] nodes@[q2] == (GraphiaInputNode {
                    id: q2 as usize,
                    metadata: GraphiaInputNodeMetaData {
                        signature: records@[q2].signature,
                        priority: records@[q2].priority,
                        requested_cus: records@[q2].requested_cus,
                        layer: layer_of(entries, q2) as usize,
                    },
                }),
        decreases n - q,
    {
        let nd = GraphiaInputNode {
            id: q,
            metadata: GraphiaInputNodeMetaData {
                signature: records[q].signature,
                priority: records[q].priority,
                requested_cus: records[q].requested_cus,
                layer: layers[q],
            },
        };
        nodes.push(nd);
        q += 1;
    }
    GraphiaInput { graph: GraphiaInputGraph { directed: true, edges, nodes } }
}

/// The two records agree in everything the exported document can see: the
/// plain fields and the lock sets' contents.
pub open spec fn record_view_equal(a: TransactionRecord, b: TransactionRecord) -> bool {
    &&& a.signature == b.signature
    &&& a.priority == b.priority
    &&& a.requested_cus == b.requested_cus
    &&& a.locks.writable@ == b.locks.writable@
    &&& a.locks.readonly@ == b.locks.readonly@
}

/// Pointwise [`record_view_equal`].
pub open spec fn records_view_equal(a: Seq<TransactionRecord>, b: Seq<TransactionRecord>) -> bool {
    &&& a.len() == b.len()
    &&& forall|m: int| 0 <= m < a.len() ==> record_view_equal(#[trigger] a[m], b[m])
}

/// View-equal record sequences have the same insertion history.
proof fn lemma_entries_view_equal(a: Seq<TransactionRecord>, b: Seq<TransactionRecord>)
    requires
        records_view_equal(a, b),
    ensures
        entries_of(a) == entries_of(b),
{
    assert forall|q: int| 0 <= q < a.len() implies entries_of(a)[q] == entries_of(b)[q] by {
        assert(record_view_equal(a[q], b[q]));
    }
    assert(entries_of(a) =~= entries_of(b));
}

/// The exported document does not tell view-equal record sequences apart.
pub proof fn lemma_matches_view_equal(
    a: Seq<TransactionRecord>,
    b: Seq<TransactionRecord>,
    g: GraphiaInputGraph,
)
    requires
        records_view_equal(a, b),
        graphia_matches(a, g),
    ensures
        graphia_matches(b, g),
{
    lemma_entries_view_equal(a, b);
    assert forall|q: int| 0 <= q < b.len() implies #[trigger] g.nodes@[q] == (GraphiaInputNode {
        id: q as usize,
        metadata: GraphiaInputNodeMetaData {
            signature: b[q].signature,
            priority: b[q].priority,
            requested_cus: b[q].requested_cus,
            layer: layer_of(entries_of(b), q) as usize,
        },
    }) by {
        assert(record_view_equal(a[q], b[q]));
    }
}

/// Stable insertion sends view-equal inputs to view-equal outputs.
proof fn lemma_stable_insert_view_equal(
    a: Seq<TransactionRecord>,
    b: Seq<TransactionRecord>,
    x: TransactionRecord,
    y: TransactionRecord,
)
    requires
        records_view_equal(a, b),
        record_view_equal(x, y),
    ensures
        records_view_equal(stable_insert(a, x), stable_insert(b, y)),
    decreases a.len(),
{
    if a.len() == 0 {
        assert(record_view_equal(stable_insert(a, x)[0], stable_insert(b, y)[0]));
    } else {
        assert(record_view_equal(a.last(), b.last()));
        if a.last().priority >= x.priority {
            assert forall|m: int|
                0 <= m < a.len() + 1 implies record_view_equal(
                #[trigger] stable_insert(a, x)[m],
                stable_insert(b, y)[m],
            ) by {
                if m < a.len() {
                    assert(stable_insert(a, x)[m] == a[m] && stable_insert(b, y)[m] == b[m]);
                    assert(record_view_equal(a[m], b[m]));
                } else {
                    assert(stable_insert(a, x)[m] == x && stable_insert(b, y)[m] == y);
                }
            }
        } else {
            assert forall|m: int|
                0 <= m < a.drop_last().len() implies record_view_equal(
                #[trigger] a.drop_last()[m],
                b.drop_last()[m],
            ) by {
                assert(a.drop_last()[m] == a[m] && b.drop_last()[m] == b[m]);
                assert(record_view_equal(a[m], b[m]));
            }
            lemma_stable_insert_view_equal(a.drop_last(), b.drop_last(), x, y);
            crate::sort::lemma_stable_insert_all(a.drop_last(), x, |r: TransactionRecord| true);
            crate::sort::lemma_stable_insert_all(b.drop_last(), y, |r: TransactionRecord| true);
            let ra = stable_insert(a.drop_last(), x);
            let rb = stable_insert(b.drop_last(), y);
            assert forall|m: int|
                0 <= m < a.len() + 1 implies record_view_equal(
                #[trigger] stable_insert(a, x)[m],
                stable_insert(b, y)[m],
            ) by {
                if m < ra.len() {
                    assert(stable_insert(a, x)[m] == ra[m] && stable_insert(b, y)[m] == rb[m]);
                } else {
                    assert(stable_insert(a, x)[m] == a.last() && stable_insert(b, y)[m]
                        == b.last());
                }
            }
        }
    }
}

/// Sorting sends view-equal inputs to view-equal outputs.
pub proof fn lemma_sorted_view_equal(a: Seq<TransactionRecord>, b: Seq<TransactionRecord>)
    requires
        records_view_equal(a, b),
    ensures
        records_view_equal(sorted_by_priority(a), sorted_by_priority(b)),
    decreases a.len(),
{
    if a.len() > 0 {
        assert forall|m: int|
            0 <= m < a.drop_last().len() implies record_view_equal(
            #[trigger] a.drop_last()[m],
            b.drop_last()[m],
        ) by {
            assert(a.drop_last()[m] == a[m] && b.drop_last()[m] == b[m]);
            assert(record_view_equal(a[m], b[m]));
        }
        lemma_sorted_view_equal(a.drop_last(), b.drop_last());
        assert(record_view_equal(a.last(), b.last()));
        lemma_stable_insert_view_equal(
            sorted_by_priority(a.drop_last()),
            sorted_by_priority(b.drop_last()),
            a.last(),
            b.last(),
        );
    }
}

/// The packet contributes a transaction to the analysis: its bytes decoded
/// and its locks resolved.
pub open spec fn packet_included(p: PacketRecord) -> bool {
    match p.payload {
        Option::Some(t) => t.locks is Some,
        Option::None => false,
    }
}

/// The record an included packet contributes: its signature, its derived
/// priority and requested compute units, and its resolved locks.
pub open spec fn packet_record(p: PacketRecord) -> TransactionRecord {
    match p.payload {
        Option::Some(t) => match t.locks {
            Option::Some(l) => TransactionRecord {
                signature: t.signature,
                priority: priority_of(t.instructions@),
                requested_cus: requested_cus_of(t.instructions@),
                locks: l,
            },
            Option::None => arbitrary(),
        },
        Option::None => arbitrary(),
    }
}

/// The records of one packet batch, in capture order.
pub open spec fn records_of_packets(ps: Seq<PacketRecord>) -> Seq<TransactionRecord>
    decreases ps.len(),
{
    if ps.len() == 0 {
        Seq::empty()
    } else {
        let rest = records_of_packets(ps.drop_last());
        if packet_included(ps.last()) {
            rest.push(packet_record(ps.last()))
        } else {
            rest
        }
    }
}

/// The records of one batch group.
pub open spec fn records_of_batches(bs: Seq<Vec<PacketRecord>>) -> Seq<TransactionRecord>
    decreases bs.len(),
{
    if bs.len() == 0 {
        Seq::empty()
    } else {
        records_of_batches(bs.drop_last()) + records_of_packets(bs.last()@)
    }
}

/// The records of a whole buffered trace, in capture order.
pub open spec fn records_of_groups(gs: Seq<Vec<Vec<PacketRecord>>>) -> Seq<TransactionRecord>
    decreases gs.len(),
{
    if gs.len() == 0 {
        Seq::empty()
    } else {
        records_of_groups(gs.drop_last()) + records_of_batches(gs.last()@)
    }
}

/// Extracts every included packet's record from the buffered batch groups, in
/// capture order.
pub(crate) fn collect_records(buffer: &Vec<Vec<Vec<PacketRecord>>>) -> (rs: Vec<TransactionRecord>)
    requires
        groups_wf(buffer@),
    ensures
        records_view_equal(rs@, records_of_groups(buffer@)),
        forall|m: int| 0 <= m < rs@.len() ==> (#[trigger] rs@[m]).locks.wf(),
{
    let mut rs: Vec<TransactionRecord> = Vec::new();
    let mut gi: usize = 0;
    while gi < buffer.len()
        invariant
            groups_wf(buffer@),
            0 <= gi <= buffer@.len(),
            records_view_equal(rs@, records_of_groups(buffer@.take(gi as int))),
            forall|m: int| 0 <= m < rs@.len() ==> (#[trigger] rs@[m]).locks.wf(),
        decreases buffer@.len() - gi,
    {
        let group = &buffer[gi];
        let ghost done_groups = records_of_groups(buffer@.take(gi as int));
        let mut bi: usize = 0;
        while bi < group.len()
            invariant
                groups_wf(buffer@),
                0 <= gi < buffer@.len(),
                group == &buffer@[gi as int],
                done_groups == records_of_groups(buffer@.take(gi as int)),
                0 <= bi <= group@.len(),
                records_view_equal(rs@, done_groups + records_of_batches(group@.take(bi as int))),
                forall|m: int| 0 <= m < rs@.len() ==> (#[trigger] rs@[m]).locks.wf(),
            decreases group@.len() - bi,
        {
            let batch = &group[bi];
            let ghost done_batches = done_groups + records_of_batches(group@.take(bi as int));
            let mut pk: usize = 0;
            while pk < batch.len()
                invariant
                    groups_wf(buffer@),
                    0 <= gi < buffer@.len(),
                    group == &buffer@[gi as int],
                    0 <= bi < group@.len(),
                    batch == &group@[bi as int],
                    done_batches == done_groups + records_of_batches(group@.take(bi as int)),
                    0 <= pk <= batch@.len(),
                    records_view_equal(
                        rs@,
                        done_batches + records_of_packets(batch@.take(pk as int)),
                    ),
                    forall|m: int| 0 <= m < rs@.len() ==> (#[trigger] rs@[m]).locks.wf(),
                decreases batch@.len() - pk,
            {
                proof {
                    assert(batches_wf(buffer@[gi as int]@));
                    assert(packet_wf(batch@[pk as int]));
                    assert(batch@.take(pk + 1 as int).drop_last() =~= batch@.take(pk as int));
                    assert(batch@.take(pk + 1 as int).last() == batch@[pk as int]);
                }
                let p = &batch[pk];
                match &p.payload {
                    Option::Some(t) => {
                        match &t.locks {
                            Option::Some(l) => {
                                let (priority, requested_cus) = get_priority_and_requested_cus(
                                    &t.instructions,
                                );
                                let rec = TransactionRecord {
                                    signature: t.signature,
                                    priority,
                                    requested_cus,
                                    locks: l.duplicate(),
                                };
                                let ghost rs_old = rs@;
                                proof {
                                    assert(packet_included(batch@[pk as int]));
                                    assert(record_view_equal(rec, packet_record(batch@[pk as int])));
                                    assert forall|a: u64| #[trigger] rec.locks.writes(a)
                                        implies !rec.locks.reads(a) by {
                                        assert(l.writes(a));
                                        assert(!l.reads(a));
                                    }
                                    assert(rec.locks.wf());
                                }
                                rs.push(rec);
                                proof {
                                    let target = done_batches + records_of_packets(
                                        batch@.take(pk + 1 as int),
                                    );
                                    assert(records_of_packets(batch@.take(pk + 1 as int))
                                        == records_of_packets(batch@.take(pk as int)).push(
                                        packet_record(batch@[pk as int]),
                                    ));
                                    assert forall|m: int|
                                        0 <= m < rs@.len() implies record_view_equal(
                                        #[trigger] rs@[m],
                                        target[m],
                                    ) by {
                                        if m < rs_old.len() {
                                            assert(rs@[m] == rs_old[m]);
                                            assert(target[m] == (done_batches
                                                + records_of_packets(batch@.take(pk as int)))[m]);
                                        } else {
                                            assert(rs@[m] == rec);
                                            assert(target[m] == packet_record(batch@[pk as int]));
                                        }
                                    }
                                }
                            },
                            Option::None => {
                                proof {
                                    assert(!packet_included(batch@[pk as int]));
                                    assert(done_batches + records_of_packets(
                                        batch@.take(pk + 1 as int),
                                    ) =~= done_batches + records_of_packets(batch@.take(pk as int)));
                                }
                            },
                        }
                    },
                    Option::None => {
                        proof {
                            assert(!packet_included(batch@[pk as int]));
                            assert(done_batches + records_of_packets(batch@.take(pk + 1 as int))
                                =~= done_batches + records_of_packets(batch@.take(pk as int)));
                        }
                    },
                }
                pk += 1;
            }
            proof {
                assert(batch@.take(batch@.len() as int) =~= batch@);
                assert(group@.take(bi + 1 as int).drop_last() =~= group@.take(bi as int));
                assert(group@.take(bi + 1 as int).last() == group@[bi as int]);
                assert(records_of_batches(group@.take(bi + 1 as int)) == records_of_batches(
                    group@.take(bi as int),
                ) + records_of_packets(group@[bi as int]@));
                assert(done_groups + records_of_batches(group@.take(bi + 1 as int)) =~= done_batches
                    + records_of_packets(batch@));
            }
            bi += 1;
        }
        proof {
            assert(group@.take(group@.len() as int) =~= group@);
            assert(buffer@.take(gi + 1 as int).drop_last() =~= buffer@.take(gi as int));
            assert(buffer@.take(gi + 1 as int).last() == buffer@[gi as int]);
            assert(records_of_groups(buffer@.take(gi + 1 as int)) == records_of_groups(
                buffer@.take(gi as int),
            ) + records_of_batches(buffer@[gi as int]@));
        }
        gi += 1;
    }
    proof {
        assert(buffer@.take(buffer@.len() as int) =~= buffer@);
    }
    rs
}

/// How one event advances the per-slot accumulation: nothing once done;
/// non-vote batch groups are buffered; a boundary of another slot clears the
/// buffer, and the boundary of the handler's own slot finishes it.
pub open spec fn graphia_step(
    slot: u64,
    buf: Seq<Vec<Vec<PacketRecord>>>,
    done: bool,
    ev: TimedTracedEvent,
) -> (Seq<Vec<Vec<PacketRecord>>>, bool) {
    if done {
        (buf, true)
    } else {
        match ev.1 {
            TracedEvent::PacketBatch(label, b) => match label {
                ChannelLabel::NonVote => (buf.push(b), false),
                ChannelLabel::Vote => (buf, false),
            },
            TracedEvent::BlockAndBankHash(s) => if s == slot {
                (buf, true)
            } else {
                (Seq::empty(), false)
            },
        }
    }
}

/// The accumulation state after a whole event sequence.
pub open spec fn graphia_fold(slot: u64, evs: Seq<TimedTracedEvent>) -> (
    Seq<Vec<Vec<PacketRecord>>>,
    bool,
)
    decreases evs.len(),
{
    if evs.len() == 0 {
        (Seq::empty(), false)
    } else {
        let st = graphia_fold(slot, evs.drop_last());
        graphia_step(slot, st.0, st.1, evs.last())
    }
}

/// Accumulates the non-vote packet batches of one slot out of the event
/// stream, until that slot's finalization marker arrives.
pub struct GraphiaInputHandler {
    /// The slot whose scheduling order is reconstructed.
    pub slot: u64,
    /// The batch groups buffered since the last foreign slot boundary.
    pub current_packet_batches: Vec<Vec<Vec<PacketRecord>>>,
    /// Whether this handler's slot has been finalized.
    pub done: bool,
}

impl GraphiaInputHandler {
    /// A fresh handler for `slot`.
    pub fn new(slot: u64) -> (h: GraphiaInputHandler)
        ensures
            h.slot == slot,
            h.current_packet_batches@.len() == 0,
            !h.done,
    {
        GraphiaInputHandler { slot, current_packet_batches: Vec::new(), done: false }
    }

    /// Feeds one event through the accumulation step.
    pub fn handle_event(&mut self, event: TimedTracedEvent)
        ensures
            final(self).slot == old(self).slot,
            ({
                let st = graphia_step(
                    old(self).slot,
                    old(self).current_packet_batches@,
                    old(self).done,
                    event,
                );
                final(self).current_packet_batches@ == st.0 && final(self).done == st.1
            }),
    {
        if self.done {
            return ;
        }
        match event.1 {
            TracedEvent::PacketBatch(label, batches) => {
                match label {
                    ChannelLabel::NonVote => {
                        self.current_packet_batches.push(batches);
                    },
                    ChannelLabel::Vote => {},
                }
            },
            TracedEvent::BlockAndBankHash(slot) => {
                if self.slot != slot {
                    self.current_packet_batches.clear();
                } else {
                    self.done = true;
                }
            },
        }
    }

    /// Builds the export document for everything buffered so far: the
    /// decoded, lock-resolved transactions are sorted by priority and run
    /// through the conflict-graph builder.
    pub fn report(&self) -> (out: GraphiaInput)
        requires
            groups_wf(self.current_packet_batches@),
            records_of_groups(self.current_packet_batches@).len() < usize::MAX,
        ensures
            graphia_matches(
                sorted_by_priority(records_of_groups(self.current_packet_batches@)),
                out.graph,
            ),
    {
        let ghost spec_rs = records_of_groups(self.current_packet_batches@);
        let rs = collect_records(&self.current_packet_batches);
        let ghost rs_view = rs@;
        let sorted = sort_transactions(rs);
        proof {
            lemma_sorted_all(rs_view, |r: TransactionRecord| r.locks.wf());
            lemma_sorted_by_priority_sorted(rs_view);
        }
        let out = build_graphia_input(&sorted);
        proof {
            lemma_sorted_view_equal(rs_view, spec_rs);
            lemma_matches_view_equal(
                sorted_by_priority(rs_view),
                sorted_by_priority(spec_rs),
                out.graph,
            );
        }
        out
    }
}

/// Replays a trace for one slot and returns the export document of the
/// conflict-serialization order its transactions would be scheduled in.
pub fn graphia_input(events: Vec<TimedTracedEvent>, slot: u64) -> (out: GraphiaInput)
    requires
        events_wf(events@),
        records_of_groups(graphia_fold(slot, events@).0).len() < usize::MAX,
    ensures
        graphia_matches(
            sorted_by_priority(records_of_groups(graphia_fold(slot, events@).0)),
            out.graph,
        ),
{
    let ghost evs = events@;
    let n0 = events.len();
    proof {
        assert(evs.len() == n0);
    }
    let mut handler = GraphiaInputHandler::new(slot);
    let mut rest = events;
    let mut k: usize = 0;
    while rest.len() > 0
        invariant
            evs.len() <= usize::MAX,
            events_wf(evs),
            k as int + rest@.len() == evs.len(),
            rest@ == evs.subrange(k as int, evs.len() as int),
            handler.slot == slot,
            handler.current_packet_batches@ == graphia_fold(slot, evs.take(k as int)).0,
            handler.done == graphia_fold(slot, evs.take(k as int)).1,
            groups_wf(handler.current_packet_batches@),
        decreases rest@.len(),
    {
        let ev = rest.remove(0);
        proof {
            assert(ev == evs[k as int]);
            assert(rest@ =~= evs.subrange(k as int + 1, evs.len() as int));
            assert(evs.take(k + 1 as int).drop_last() =~= evs.take(k as int));
            assert(evs.take(k + 1 as int).last() == evs[k as int]);
            assert(event_wf(evs[k as int]));
        }
        let ghost buf_old = handler.current_packet_batches@;
        handler.handle_event(ev);
        proof {
            assert forall|g: int|
                0 <= g < handler.current_packet_batches@.len() implies batches_wf(
                (#[trigger] handler.current_packet_batches@[g])@,
            ) by {
                if g < buf_old.len() {
                    assert(handler.current_packet_batches@[g] == buf_old[g]);
                }
            }
        }
        k += 1;
    }
    proof {
        assert(evs.take(evs.len() as int) =~= evs);
    }
    handler.report()
}

} // verus!
