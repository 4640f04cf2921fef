use trace_tool::account_usage::{account_usage, AccountUsageHandler};
use trace_tool::cli::SlotRange;
use trace_tool::dump::{dump, Dumper};
use trace_tool::duplicate_check::duplicate_check;
use trace_tool::event::{ChannelLabel, PacketRecord, TimedTracedEvent, TracedEvent, TxPayload};
use trace_tool::graph::AccountLockSet;
use trace_tool::graphia_input::graphia_input;
use trace_tool::packet_count::packet_count;
use trace_tool::priority::{get_priority_and_requested_cus, BudgetInstruction};
use trace_tool::update_alt_store::update_alt_store;

fn payload(signature: u64, writable: Vec<u64>, readonly: Vec<u64>) -> TxPayload {
    TxPayload {
        signature,
        instructions: vec![BudgetInstruction::SetComputeUnitPrice(signature)],
        static_account_keys: writable.clone(),
        lookup_tables: vec![],
        locks: Some(AccountLockSet { writable, readonly }),
    }
}

fn packet(p: TxPayload) -> PacketRecord {
    PacketRecord { discard: false, forwarded: false, staked: false, addr: 9, payload: Some(p) }
}

fn batch_event(ts: u64, packets: Vec<PacketRecord>) -> TimedTracedEvent {
    TimedTracedEvent(ts, TracedEvent::PacketBatch(ChannelLabel::NonVote, vec![packets]))
}

fn boundary(ts: u64, slot: u64) -> TimedTracedEvent {
    TimedTracedEvent(ts, TracedEvent::BlockAndBankHash(slot))
}

/// The last compute-unit price wins; an explicit limit sets the request, and
/// the request never falls below the floor.
#[test]
fn priority_price_and_limit() {
    let ixs = vec![
        BudgetInstruction::SetComputeUnitPrice(5),
        BudgetInstruction::SetComputeUnitPrice(42),
        BudgetInstruction::SetComputeUnitLimit(900_000),
    ];
    assert_eq!(get_priority_and_requested_cus(&ixs), (42, 1_400_000));

    let ixs2 = vec![BudgetInstruction::SetComputeUnitLimit(2_000_000)];
    assert_eq!(get_priority_and_requested_cus(&ixs2), (0, 2_000_000));
}

/// The deprecated combined request sets both values: the priority is the fee
/// scaled to a price per million units.
#[test]
fn priority_deprecated_request() {
    let ixs = vec![BudgetInstruction::RequestUnitsDeprecated {
        units: 1_000,
        additional_fee: 2,
    }];
    // 2 * 1_000_000 / 1_000 = 2_000; the requested 1_000 units are raised to
    // the floor.
    assert_eq!(get_priority_and_requested_cus(&ixs), (2_000, 1_400_000));
}

/// Without a request, each non-budget instruction contributes 200000 units,
/// floored at 1400000.
#[test]
fn priority_default_request() {
    let ten = vec![BudgetInstruction::NotComputeBudget; 10];
    assert_eq!(get_priority_and_requested_cus(&ten), (0, 2_000_000));
    let three = vec![BudgetInstruction::NotComputeBudget; 3];
    assert_eq!(get_priority_and_requested_cus(&three), (0, 1_400_000));
    let none: Vec<BudgetInstruction> = vec![];
    assert_eq!(get_priority_and_requested_cus(&none), (0, 1_400_000));
}

/// Account usage tallies reads and writes separately, tracks extremes, and
/// sorts by write usage.
#[test]
fn account_usage_tallies() {
    let events = vec![
        boundary(0, 95),
        batch_event(
            1,
            vec![
                packet(payload(30, vec![1], vec![2])),
                packet(payload(10, vec![1], vec![])),
                packet(payload(20, vec![2], vec![1])),
            ],
        ),
    ];
    let stats = account_usage(events, SlotRange { start_slot: 90, end_slot: 100 });
    // Account 1: two writes (priorities 30, 10), one read (20). Account 2:
    // one write (20), one read (30). Account 1 first: more writes.
    assert_eq!(stats.len(), 2);
    assert_eq!(stats[0].key, 1);
    assert_eq!(stats[0].num_writes, 2);
    assert_eq!(stats[0].num_reads, 1);
    assert_eq!(stats[0].min_priority, 10);
    assert_eq!(stats[0].max_priority, 30);
    assert_eq!(stats[0].sum_priority, 60);
    assert_eq!(stats[0].averages(), (20, 1_400_000));
    assert_eq!(stats[1].key, 2);
    assert_eq!(stats[1].num_writes, 1);
    assert_eq!(stats[1].num_reads, 1);
}

/// An in-range boundary clears the buffer: only packets after the last
/// in-range boundary are tallied.
#[test]
fn account_usage_keeps_final_sub_unit() {
    let events = vec![
        batch_event(0, vec![packet(payload(1, vec![1], vec![]))]),
        boundary(1, 95),
        batch_event(2, vec![packet(payload(2, vec![2], vec![]))]),
    ];
    let stats = account_usage(events, SlotRange { start_slot: 90, end_slot: 100 });
    assert_eq!(stats.len(), 1);
    assert_eq!(stats[0].key, 2);
}

/// A boundary past the range stops the analysis.
#[test]
fn account_usage_stops_past_range() {
    let mut handler = AccountUsageHandler::new(SlotRange { start_slot: 10, end_slot: 20 });
    handler.handle_event(boundary(0, 21));
    assert!(handler.done);
    handler.handle_event(batch_event(1, vec![packet(payload(1, vec![1], vec![]))]));
    let stats = handler.report();
    assert!(stats.is_empty());
}

/// Duplicate checking counts repeated signatures whose forwarded flag flips.
#[test]
fn duplicate_check_totals() {
    let mut first = packet(payload(7, vec![1], vec![]));
    first.forwarded = false;
    let mut second = packet(payload(7, vec![1], vec![]));
    second.forwarded = true;
    let mut third = packet(payload(7, vec![1], vec![]));
    third.forwarded = true;
    let other = packet(payload(8, vec![1], vec![]));
    let events = vec![batch_event(0, vec![first, second, third, other])];
    let totals = duplicate_check(&events, None, None);
    // Signature 7: first arrival plus two flipped duplicates; signature 8:
    // one arrival.
    assert_eq!(totals.total_packets, 4);
    assert_eq!(totals.total_duplicate_packets, 2);
    assert_eq!(totals.duplicate_forwarded_packets, 2);
    assert_eq!(totals.duplicate_tpu_packets, 0);
    assert_eq!(totals.total_tpu_packets, 2);
    assert_eq!(totals.total_forwarded_packets, 2);
}

/// The packet summary splits counts by validity, transport, stake and
/// uniqueness, and tallies per origin.
#[test]
fn packet_count_summary() {
    let mut a = packet(payload(1, vec![1], vec![]));
    a.staked = true;
    let mut b = packet(payload(1, vec![1], vec![]));
    b.forwarded = true;
    let mut discarded = packet(payload(2, vec![1], vec![]));
    discarded.discard = true;
    discarded.payload = None;
    let mut unparsable = packet(payload(3, vec![1], vec![]));
    unparsable.payload = None;
    let mut from_elsewhere = packet(payload(4, vec![1], vec![]));
    from_elsewhere.addr = 17;
    let events = vec![batch_event(0, vec![a, b, discarded, unparsable, from_elsewhere])];
    let counter = packet_count(&events, None, None);
    let m = &counter.packet_metrics;
    assert_eq!(m.total_count, 5);
    // a, b and from_elsewhere parse; b repeats a's signature so it is not
    // unique.
    assert_eq!(m.valid_count, 2);
    assert_eq!(m.valid_unique_count, 2);
    assert_eq!(m.tpu_count, 2);
    assert_eq!(m.fwd_count, 1);
    assert_eq!(m.staked_count, 1);
    assert_eq!(m.staked_tpu_count, 1);
    assert_eq!(m.staked_fwd_count, 0);
    assert_eq!(m.tpu_unique_count, 2);
    assert_eq!(m.fwd_unique_count, 0);
    assert_eq!(m.signature_set, vec![1, 4]);
    // Origin 9 saw three counted packets (the unparsable one is skipped
    // before the per-origin tallies); origin 17 saw one unique-valid packet.
    assert_eq!(m.total_ip_counts.len(), 2);
    assert_eq!(m.total_ip_counts[0].0, 9);
    assert_eq!(m.total_ip_counts[0].1.total, 3);
    assert_eq!(m.total_ip_counts[0].1.unique, 1);
    assert_eq!(m.total_ip_counts[0].1.staked, 1);
    assert_eq!(m.total_ip_counts[1].0, 17);
    assert_eq!(m.total_ip_counts[1].1.total, 1);
    assert_eq!(m.total_ip_counts[1].1.unique, 1);
}

/// The dumper picks packets by origin and account filters, against resolved
/// or static keys.
#[test]
fn dumper_filters() {
    let mut d = Dumper::new(Some(vec![5]), Some(vec![9]), true, None, None);
    let hit = packet(payload(1, vec![5], vec![]));
    let wrong_account = packet(payload(2, vec![6], vec![]));
    let mut wrong_origin = packet(payload(3, vec![5], vec![]));
    wrong_origin.addr = 8;
    let mut unresolved = packet(payload(4, vec![5], vec![]));
    if let Some(t) = unresolved.payload.as_mut() {
        t.locks = None;
    }
    let picked = d.handle_event(&batch_event(
        0,
        vec![hit, wrong_account, wrong_origin, unresolved],
    ));
    assert_eq!(picked, vec![1]);

    // Without resolution the static keys decide.
    let mut d2 = Dumper::new(Some(vec![5]), None, false, None, None);
    let mut static_hit = packet(payload(6, vec![], vec![]));
    if let Some(t) = static_hit.payload.as_mut() {
        t.static_account_keys = vec![5];
        t.locks = None;
    }
    let picked2 = d2.handle_event(&batch_event(0, vec![static_hit]));
    assert_eq!(picked2, vec![6]);

    // Outside the window nothing is picked.
    let mut d3 = Dumper::new(None, None, true, Some(100), None);
    let early = packet(payload(7, vec![5], vec![]));
    let picked3 = d3.handle_event(&batch_event(0, vec![early]));
    assert!(picked3.is_empty());
}

/// Each in-range boundary yields the unique lookup-table keys buffered since
/// the previous one, first occurrences first.
#[test]
fn update_alt_store_collects_unique_tables() {
    let mut p1 = packet(payload(1, vec![1], vec![]));
    if let Some(t) = p1.payload.as_mut() {
        t.lookup_tables = vec![10, 11, 10];
    }
    let mut p2 = packet(payload(2, vec![1], vec![]));
    if let Some(t) = p2.payload.as_mut() {
        t.lookup_tables = vec![11, 12];
    }
    let events = vec![
        batch_event(0, vec![p1]),
        batch_event(1, vec![p2]),
        boundary(2, 50),
        boundary(3, 60),
    ];
    let updates = update_alt_store(events, SlotRange { start_slot: 40, end_slot: 55 });
    // The in-range boundary at slot 50 flushes [10, 11, 12]; slot 60 is past
    // the range.
    assert_eq!(updates, vec![vec![10, 11, 12]]);
}

/// The per-slot accumulator clears on a foreign boundary and finishes on its
/// own slot's boundary.
#[test]
fn graphia_input_slot_gating() {
    let events = vec![
        batch_event(0, vec![packet(payload(1, vec![1], vec![]))]),
        boundary(1, 7),
        batch_event(2, vec![packet(payload(2, vec![2], vec![]))]),
        boundary(3, 8),
        batch_event(4, vec![packet(payload(3, vec![3], vec![]))]),
    ];
    let out = graphia_input(events, 8);
    // Only the packet between the foreign boundary (slot 7) and this slot's
    // boundary (slot 8) is in the graph.
    assert_eq!(out.graph.nodes.len(), 1);
    assert_eq!(out.graph.nodes[0].metadata.signature, 2);
    assert_eq!(out.graph.nodes[0].metadata.priority, 2);
    assert!(out.graph.edges.is_empty());
}

/// The whole-trace dump picks the matching signatures across events, in
/// capture order.
#[test]
fn dump_whole_trace() {
    let events = vec![
        batch_event(0, vec![packet(payload(1, vec![5], vec![])), packet(payload(2, vec![6], vec![]))]),
        boundary(1, 3),
        batch_event(2, vec![packet(payload(3, vec![5], vec![]))]),
    ];
    let picked = dump(&events, Some(vec![5]), None, false, None, None);
    assert_eq!(picked, vec![1, 3]);
}
