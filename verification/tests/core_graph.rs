use prio_graph::{AccessKind, PrioGraph, TopLevelId};
use trace_tool::graph::{AccountLockSet, ConflictGraphBuilder, PriorityKey};
use trace_tool::graphia_input::{build_graphia_input, GraphiaInput, TransactionRecord};
use trace_tool::sort::sort_transactions;

fn locks(writable: Vec<u64>, readonly: Vec<u64>) -> AccountLockSet {
    AccountLockSet { writable, readonly }
}

fn record(signature: u64, priority: u64, l: AccountLockSet) -> TransactionRecord {
    TransactionRecord { signature, priority, requested_cus: 1_400_000, locks: l }
}

/// Inserting zero transactions yields an empty graph immediately.
#[test]
fn empty_builder_is_empty() {
    let builder = ConflictGraphBuilder::new();
    assert!(builder.is_empty());
    let out = build_graphia_input(&Vec::new());
    assert!(out.graph.directed);
    assert_eq!(out.graph.nodes.len(), 0);
    assert_eq!(out.graph.edges.len(), 0);
}

/// The scenario with priorities [30, 20, 10]: T0 writes {A}; T1 writes {A}
/// and reads {B}; T2 reads {B} only. The first layer is {T0, T2}, popping T0
/// unblocks T1, and the only surfaced edge is T0 -> T1.
#[test]
fn three_transaction_scenario() {
    let mut builder = ConflictGraphBuilder::new();
    const A: u64 = 1;
    const B: u64 = 2;
    builder.insert(PriorityKey { priority: 30, index: 0 }, locks(vec![A], vec![]));
    builder.insert(PriorityKey { priority: 20, index: 1 }, locks(vec![A], vec![B]));
    builder.insert(PriorityKey { priority: 10, index: 2 }, locks(vec![], vec![B]));

    // Layer one: T0 (highest priority) then T2; T1 is blocked through A.
    let first = builder.pop().expect("a ready transaction");
    assert_eq!(first.index, 0);
    let second = builder.pop().expect("a second ready transaction");
    assert_eq!(second.index, 2);
    assert!(builder.pop().is_none());
    assert!(!builder.is_empty());

    // Releasing T0 makes T1 ready; releasing T2 reveals nothing new.
    let unblocked = builder.unblock(first);
    assert_eq!(unblocked.len(), 1);
    assert_eq!(unblocked[0].index, 1);
    let unblocked2 = builder.unblock(second);
    assert!(unblocked2.is_empty());

    // Layer two: T1 alone; then the graph is drained.
    let third = builder.pop().expect("the unblocked transaction");
    assert_eq!(third.index, 1);
    assert!(builder.pop().is_none());
    assert!(builder.is_empty());

    // The exported document: layers 1, 2, 1 and the single edge T0 -> T1.
    let records = vec![
        record(100, 30, locks(vec![A], vec![])),
        record(200, 20, locks(vec![A], vec![B])),
        record(300, 10, locks(vec![], vec![B])),
    ];
    let out = build_graphia_input(&records);
    assert_eq!(out.graph.nodes.len(), 3);
    assert_eq!(out.graph.nodes[0].metadata.layer, 1);
    assert_eq!(out.graph.nodes[1].metadata.layer, 2);
    assert_eq!(out.graph.nodes[2].metadata.layer, 1);
    assert_eq!(out.graph.nodes[0].metadata.signature, 100);
    assert_eq!(out.graph.edges.len(), 1);
    assert_eq!(out.graph.edges[0].id, 0);
    assert_eq!(out.graph.edges[0].source, 0);
    assert_eq!(out.graph.edges[0].target, 1);
}

/// Two writers of one account: the earlier is popped first and the edge runs
/// from it to the later one.
#[test]
fn write_write_ordering() {
    let records = vec![
        record(1, 50, locks(vec![7], vec![])),
        record(2, 40, locks(vec![7], vec![])),
    ];
    let out = build_graphia_input(&records);
    assert_eq!(out.graph.nodes[0].metadata.layer, 1);
    assert_eq!(out.graph.nodes[1].metadata.layer, 2);
    assert_eq!(out.graph.edges.len(), 1);
    assert_eq!(out.graph.edges[0].source, 0);
    assert_eq!(out.graph.edges[0].target, 1);
}

/// Two transactions that only read a common account get no edge and share the
/// first ready layer.
#[test]
fn read_read_independence() {
    let records = vec![
        record(1, 50, locks(vec![], vec![7])),
        record(2, 40, locks(vec![], vec![7])),
    ];
    let out = build_graphia_input(&records);
    assert_eq!(out.graph.nodes[0].metadata.layer, 1);
    assert_eq!(out.graph.nodes[1].metadata.layer, 1);
    assert!(out.graph.edges.is_empty());
}

fn scenario_records() -> Vec<TransactionRecord> {
    vec![
        record(11, 90, locks(vec![1, 2], vec![3])),
        record(12, 80, locks(vec![2], vec![1])),
        record(13, 80, locks(vec![4], vec![1, 3])),
        record(14, 70, locks(vec![3], vec![4])),
        record(15, 60, locks(vec![5], vec![])),
        record(16, 50, locks(vec![1], vec![5, 2])),
        record(17, 40, locks(vec![], vec![1, 5])),
        record(18, 30, locks(vec![2, 5], vec![3])),
    ]
}

/// Re-running the identical insertion sequence on a fresh instance yields an
/// identical node, edge and layer assignment.
#[test]
fn deterministic_rebuild() {
    let a = build_graphia_input(&scenario_records());
    let b = build_graphia_input(&scenario_records());
    assert_eq!(a.graph.nodes, b.graph.nodes);
    assert_eq!(a.graph.edges, b.graph.edges);
    assert_eq!(a.graph.directed, b.graph.directed);
}

/// Sorting is by priority descending and keeps arrival order among equal
/// priorities.
#[test]
fn sort_is_stable_by_priority() {
    let input = vec![
        record(1, 10, locks(vec![], vec![])),
        record(2, 30, locks(vec![], vec![])),
        record(3, 30, locks(vec![], vec![])),
        record(4, 20, locks(vec![], vec![])),
    ];
    let sorted = sort_transactions(input);
    let sigs: Vec<u64> = sorted.iter().map(|r| r.signature).collect();
    assert_eq!(sigs, vec![2, 3, 4, 1]);
}

#[derive(Copy, Clone, Debug, Eq, PartialEq, Hash)]
struct PriorityIndex {
    priority: u64,
    index: usize,
}

impl TopLevelId<PriorityIndex> for PriorityIndex {
    fn id(&self) -> PriorityIndex {
        *self
    }
}

impl Ord for PriorityIndex {
    fn cmp(&self, other: &Self) -> std::cmp::Ordering {
        self.priority.cmp(&other.priority).then_with(|| other.index.cmp(&self.index))
    }
}

impl PartialOrd for PriorityIndex {
    fn partial_cmp(&self, other: &Self) -> Option<std::cmp::Ordering> {
        Some(self.cmp(other))
    }
}

/// The builder agrees with the scheduler's own priority graph on layers and
/// surfaced edges, when the heap breaks priority ties by insertion index.
#[test]
fn agrees_with_reference_scheduler() {
    let records = scenario_records();

    // Reference run.
    let mut reference = PrioGraph::new(|id: &PriorityIndex, _| *id);
    for (index, r) in records.iter().enumerate() {
        let writes = r.locks.writable.iter().map(|a| (*a, AccessKind::Write));
        let reads = r.locks.readonly.iter().map(|a| (*a, AccessKind::Read));
        reference.insert_transaction(
            PriorityIndex { priority: r.priority, index },
            writes.chain(reads),
        );
    }
    let mut ref_layers: Vec<Vec<usize>> = Vec::new();
    let mut ref_edges: Vec<(usize, usize)> = Vec::new();
    while !reference.is_empty() {
        let mut layer = Vec::new();
        while let Some(id) = reference.pop() {
            layer.push(id);
        }
        for popped in &layer {
            for target in reference.unblock(popped) {
                if !reference.is_blocked(target) {
                    ref_edges.push((popped.index, target.index));
                }
            }
        }
        ref_layers.push(layer.iter().map(|id| id.index).collect());
    }

    // This crate's run, by the same drain protocol.
    let mut builder = ConflictGraphBuilder::new();
    for (index, r) in records.iter().enumerate() {
        builder.insert(
            PriorityKey { priority: r.priority, index },
            AccountLockSet {
                writable: r.locks.writable.clone(),
                readonly: r.locks.readonly.clone(),
            },
        );
    }
    let mut layers: Vec<Vec<usize>> = Vec::new();
    let mut edges: Vec<(usize, usize)> = Vec::new();
    while !builder.is_empty() {
        let mut layer = Vec::new();
        while let Some(key) = builder.pop() {
            layer.push(key);
        }
        for popped in &layer {
            for target in builder.unblock(*popped) {
                edges.push((popped.index, target.index));
            }
        }
        layers.push(layer.iter().map(|key| key.index).collect());
    }

    assert_eq!(layers, ref_layers);
    assert_eq!(edges, ref_edges);

    // And the exported document names the same edges, one per blocked
    // transaction, ordered by target.
    let out: GraphiaInput = build_graphia_input(&scenario_records());
    let mut doc_edges: Vec<(usize, usize)> = out
        .graph
        .edges
        .iter()
        .map(|e| (e.source, e.target))
        .collect();
    let mut expect = ref_edges.clone();
    doc_edges.sort();
    expect.sort();
    assert_eq!(doc_edges, expect);
}

/// Equal priorities keep arrival order: the earlier writer is scheduled
/// first, and the later one depends on it.
#[test]
fn equal_priority_tie_break() {
    let records = vec![
        record(1, 25, locks(vec![3], vec![])),
        record(2, 25, locks(vec![3], vec![])),
    ];
    let out = build_graphia_input(&records);
    assert_eq!(out.graph.nodes[0].metadata.signature, 1);
    assert_eq!(out.graph.nodes[0].metadata.layer, 1);
    assert_eq!(out.graph.nodes[1].metadata.signature, 2);
    assert_eq!(out.graph.nodes[1].metadata.layer, 2);
    assert_eq!(out.graph.edges.len(), 1);
    assert_eq!(out.graph.edges[0].source, 0);
    assert_eq!(out.graph.edges[0].target, 1);
}

/// A transaction blocked by two predecessors of one layer gets its one
/// surfaced edge from the predecessor released last — the lower-priority one.
#[test]
fn edge_comes_from_last_released_blocker() {
    let records = vec![
        record(1, 30, locks(vec![1], vec![])),
        record(2, 20, locks(vec![2], vec![])),
        record(3, 10, locks(vec![], vec![1, 2])),
    ];
    let out = build_graphia_input(&records);
    assert_eq!(out.graph.nodes[0].metadata.layer, 1);
    assert_eq!(out.graph.nodes[1].metadata.layer, 1);
    assert_eq!(out.graph.nodes[2].metadata.layer, 2);
    assert_eq!(out.graph.edges.len(), 1);
    assert_eq!(out.graph.edges[0].source, 1);
    assert_eq!(out.graph.edges[0].target, 2);
}
