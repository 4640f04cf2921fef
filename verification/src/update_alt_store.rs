use crate::cli::SlotRange;
use crate::dump::contains_u64;
use crate::event::ChannelLabel;
use crate::event::PacketRecord;
use crate::event::TimedTracedEvent;
use crate::event::TracedEvent;
use vstd::prelude::*;

verus! {

// The address-lookup-table store is an external resolver. What belongs here
// is deciding, per finalized slot in the caller's range, which table keys
// the buffered transactions reference; handing them to the store is the
// caller's business.

/// The lookup-table keys referenced by one packet batch, in capture order.
pub open spec fn alts_of_packets(ps: Seq<PacketRecord>) -> Seq<u64>
    decreases ps.len(),
{
    if ps.len() == 0 {
        Seq::empty()
    } else {
        alts_of_packets(ps.drop_last()) + match ps.last().payload {
            Option::Some(t) => t.lookup_tables@,
            Option::None => Seq::empty(),
        }
    }
}

/// The lookup-table keys referenced by one batch group.
pub open spec fn alts_of_batches(bs: Seq<Vec<PacketRecord>>) -> Seq<u64>
    decreases bs.len(),
{
    if bs.len() == 0 {
        Seq::empty()
    } else {
        alts_of_batches(bs.drop_last()) + alts_of_packets(bs.last()@)
    }
}

/// The lookup-table keys referenced in a whole buffered trace.
pub open spec fn alts_of_groups(gs: Seq<Vec<Vec<PacketRecord>>>) -> Seq<u64>
    decreases gs.len(),
{
    if gs.len() == 0 {
        Seq::empty()
    } else {
        alts_of_groups(gs.drop_last()) + alts_of_batches(gs.last()@)
    }
}

/// The keys with later duplicates removed: each key at its first occurrence.
pub open spec fn dedup_keys(s: Seq<u64>) -> Seq<u64>
    decreases s.len(),
{
    if s.len() == 0 {
        Seq::empty()
    } else {
        let rest = dedup_keys(s.drop_last());
        if rest.contains(s.last()) {
            rest
        } else {
            rest.push(s.last())
        }
    }
}

/// What one event does to the accumulation: non-vote batch groups are
/// buffered; a boundary inside the range yields the deduplicated table keys
/// of the buffer — the store update to perform — and clears the buffer; a
/// boundary beyond the range finishes the handler.
pub open spec fn alt_step(
    range: SlotRange,
    buf: Seq<Vec<Vec<PacketRecord>>>,
    done: bool,
    ev: TimedTracedEvent,
) -> (Seq<Vec<Vec<PacketRecord>>>, bool, Option<Seq<u64>>) {
    if done {
        (buf, true, Option::None)
    } else {
        match ev.1 {
            TracedEvent::PacketBatch(label, b) => match label {
                ChannelLabel::NonVote => (buf.push(b), false, Option::None),
                ChannelLabel::Vote => (buf, false, Option::None),
            },
            TracedEvent::BlockAndBankHash(s) => if !range.spec_contains(s) {
                if s > range.end_slot {
                    (buf, true, Option::None)
                } else {
                    (buf, false, Option::None)
                }
            } else {
                (Seq::empty(), false, Option::Some(dedup_keys(alts_of_groups(buf))))
            },
        }
    }
}

/// The unique lookup-table keys referenced in the buffer, each at its first
/// occurrence.
fn collect_unique_alts(buffer: &Vec<Vec<Vec<PacketRecord>>>) -> (r: Vec<u64>)
    ensures
        r@ == dedup_keys(alts_of_groups(buffer@)),
{
    let mut r: Vec<u64> = Vec::new();
    let mut gi: usize = 0;
    while gi < buffer.len()
        invariant
            0 <= gi <= buffer@.len(),
            r@ == dedup_keys(alts_of_groups(buffer@.take(gi as int))),
        decreases buffer@.len() - gi,
    {
        let group = &buffer[gi];
        let ghost done_groups = alts_of_groups(buffer@.take(gi as int));
        let mut bi: usize = 0;
        while bi < group.len()
            invariant
                0 <= gi < buffer@.len(),
                group == &buffer@[gi as int],
                done_groups == alts_of_groups(buffer@.take(gi as int)),
                0 <= bi <= group@.len(),
                r@ == dedup_keys(done_groups + alts_of_batches(group@.take(bi as int))),
            decreases group@.len() - bi,
        {
            let batch = &group[bi];
            let ghost done_batches = done_groups + alts_of_batches(group@.take(bi as int));
            let mut pk: usize = 0;
            while pk < batch.len()
                invariant
                    0 <= gi < buffer@.len(),
                    group == &buffer@[gi as int],
                    0 <= bi < group@.len(),
                    batch == &group@[bi as int],
                    done_batches == done_groups + alts_of_batches(group@.take(bi as int)),
                    0 <= pk <= batch@.len(),
                    r@ == dedup_keys(done_batches + alts_of_packets(batch@.take(pk as int))),
                decreases batch@.len() - pk,
            {
                let ghost done_packets = done_batches + alts_of_packets(batch@.take(pk as int));
                let p = &batch[pk];
                match &p.payload {
                    Option::Some(t) => {
                        let tables = &t.lookup_tables;
                        let mut ti: usize = 0;
                        while ti < tables.len()
                            invariant
                                0 <= pk < batch@.len(),
                                batch@[pk as int].payload matches Option::Some(t2) && t2.lookup_tables
                                    == *tables,
                                0 <= ti <= tables@.len(),
                                r@ == dedup_keys(done_packets + tables@.take(ti as int)),
                            decreases tables@.len() - ti,
                        {
                            let x = tables[ti];
                            let ghost seen = done_packets + tables@.take(ti as int);
                            proof {
                                assert((done_packets + tables@.take(ti + 1 as int)).drop_last()
                                    =~= seen);
                                assert((done_packets + tables@.take(ti + 1 as int)).last()
                                    == tables@[ti as int]);
                            }
                            if !contains_u64(&r, x) {
                                r.push(x);
                            }
                            ti += 1;
                        }
                        proof {
                            assert(done_packets + tables@.take(tables@.len() as int) =~= done_packets
                                + tables@);
                            assert(batch@.take(pk + 1 as int).drop_last() =~= batch@.take(
                                pk as int,
                            ));
                            assert(batch@.take(pk + 1 as int).last() == batch@[pk as int]);
                            assert(done_batches + alts_of_packets(batch@.take(pk + 1 as int))
                                =~= done_packets + tables@);
                        }
                    },
                    Option::None => {
                        proof {
                            assert(batch@.take(pk + 1 as int).drop_last() =~= batch@.take(
                                pk as int,
                            ));
                            assert(batch@.take(pk + 1 as int).last() == batch@[pk as int]);
                            assert(done_batches + alts_of_packets(batch@.take(pk + 1 as int))
                                =~= done_packets);
                        }
                    },
                }
                pk += 1;
            }
            proof {
                assert(batch@.take(batch@.len() as int) =~= batch@);
                assert(group@.take(bi + 1 as int).drop_last() =~= group@.take(bi as int));
                assert(group@.take(bi + 1 as int).last() == group@[bi as int]);
                assert(done_groups + alts_of_batches(group@.take(bi + 1 as int)) =~= done_batches
                    + alts_of_packets(batch@));
            }
            bi += 1;
        }
        proof {
            assert(group@.take(group@.len() as int) =~= group@);
            assert(buffer@.take(gi + 1 as int).drop_last() =~= buffer@.take(gi as int));
            assert(buffer@.take(gi + 1 as int).last() == buffer@[gi as int]);
            assert(done_groups + alts_of_batches(buffer@[gi as int]@) =~= alts_of_groups(
                buffer@.take(gi + 1 as int),
            ));
        }
        gi += 1;
    }
    proof {
        assert(buffer@.take(buffer@.len() as int) =~= buffer@);
    }
    r
}

/// Accumulates the non-vote packet batches of the slots in a range, and on
/// each finalized in-range slot yields the unique lookup-table keys the
/// buffered transactions reference, for the caller to append to the store.
pub struct UpdateAddressLookupTableStoreHandler {
    /// The inclusive slot range whose tables are gathered.
    pub range: SlotRange,
    /// The batch groups buffered since the last in-range boundary.
    pub current_packet_batches: Vec<Vec<Vec<PacketRecord>>>,
    /// Whether a slot beyond the range has been finalized.
    pub done: bool,
}

impl UpdateAddressLookupTableStoreHandler {
    /// A fresh handler for the given slot range.
    pub fn new(slot_range: SlotRange) -> (h: UpdateAddressLookupTableStoreHandler)
        ensures
            h.range == slot_range,
            h.current_packet_batches@.len() == 0,
            !h.done,
    {
        UpdateAddressLookupTableStoreHandler {
            range: slot_range,
            current_packet_batches: Vec::new(),
            done: false,
        }
    }

    /// Feeds one event through the accumulation; a `Some` result is the set
    /// of table keys to append to the store for the just-finalized slot.
    pub fn handle_event(&mut self, event: TimedTracedEvent) -> (r: Option<Vec<u64>>)
        ensures
            final(self).range == old(self).range,
            ({
                let st = alt_step(
                    old(self).range,
                    old(self).current_packet_batches@,
                    old(self).done,
                    event,
                );
                &&& final(self).current_packet_batches@ == st.0
                &&& final(self).done == st.1
                &&& (r is Some) == (st.2 is Some)
                &&& (r matches Some(v) ==> st.2 == Option::Some(v@))
            }),
    {
        if self.done {
            return Option::None;
        }
        match event.1 {
            TracedEvent::PacketBatch(label, batches) => {
                match label {
                    ChannelLabel::NonVote => {
                        self.current_packet_batches.push(batches);
                    },
                    ChannelLabel::Vote => {},
                }
                Option::None
            },
            TracedEvent::BlockAndBankHash(slot) => {
                if !self.range.contains(slot) {
                    if slot > self.range.end_slot {
                        self.done = true;
                    }
                    return Option::None;
                }
                let alts = collect_unique_alts(&self.current_packet_batches);
                self.current_packet_batches.clear();
                Option::Some(alts)
            },
        }
    }
}

/// Replays a trace for a slot range and returns the per-slot store updates:
/// for each finalized in-range slot, the unique lookup-table keys referenced
/// since the previous in-range boundary.
pub fn update_alt_store(events: Vec<TimedTracedEvent>, slot_range: SlotRange) -> (updates: Vec<
    Vec<u64>,
>)
    ensures
        updates@.len() == alt_updates_spec(slot_range, events@).len(),
        forall|u: int|
            0 <= u < updates@.len() ==> #[trigger] updates@[u]@ == alt_updates_spec(
                slot_range,
                events@,
            )[u],
{
    let ghost evs = events@;
    let n0 = events.len();
    proof {
        assert(evs.len() == n0);
    }
    let mut handler = UpdateAddressLookupTableStoreHandler::new(slot_range);
    let mut updates: Vec<Vec<u64>> = Vec::new();
    let mut rest = events;
    let mut k: usize = 0;
    while rest.len() > 0
        invariant
            evs.len() <= usize::MAX,
            k as int + rest@.len() == evs.len(),
            rest@ == evs.subrange(k as int, evs.len() as int),
            handler.range == slot_range,
            handler.current_packet_batches@ == alt_fold(slot_range, evs.take(k as int)).0,
            handler.done == alt_fold(slot_range, evs.take(k as int)).1,
            updates@.len() == alt_updates_below(slot_range, evs.take(k as int)).len(),
            forall|u: int|
                0 <= u < updates@.len() ==> #[trigger] updates@[u]@ == alt_updates_below(
                    slot_range,
                    evs.take(k as int),
                )[u],
        decreases rest@.len(),
    {
        let ev = rest.remove(0);
        proof {
            assert(ev == evs[k as int]);
            assert(rest@ =~= evs.subrange(k as int + 1, evs.len() as int));
            assert(evs.take(k + 1 as int).drop_last() =~= evs.take(k as int));
            assert(evs.take(k + 1 as int).last() == evs[k as int]);
        }
        let ghost updates_old = updates@;
        let r = handler.handle_event(ev);
        if let Option::Some(alts) = r {
            updates.push(alts);
        }
        proof {
            let below_new = alt_updates_below(slot_range, evs.take(k + 1 as int));
            assert forall|u: int|
                0 <= u < updates@.len() implies #[trigger] updates@[u]@ == below_new[u] by {
                if u < updates_old.len() {
                    assert(updates@[u] == updates_old[u]);
                }
            }
        }
        k += 1;
    }
    proof {
        assert(evs.take(evs.len() as int) =~= evs);
    }
    updates
}

/// The accumulation state after a whole event sequence.
pub open spec fn alt_fold(range: SlotRange, evs: Seq<TimedTracedEvent>) -> (
    Seq<Vec<Vec<PacketRecord>>>,
    bool,
)
    decreases evs.len(),
{
    if evs.len() == 0 {
        (Seq::empty(), false)
    } else {
        let st = alt_fold(range, evs.drop_last());
        let full = alt_step(range, st.0, st.1, evs.last());
        (full.0, full.1)
    }
}

/// The store updates a whole event sequence yields, in order.
pub open spec fn alt_updates_below(range: SlotRange, evs: Seq<TimedTracedEvent>) -> Seq<Seq<u64>>
    decreases evs.len(),
{
    if evs.len() == 0 {
        Seq::empty()
    } else {
        let st = alt_fold(range, evs.drop_last());
        let rest = alt_updates_below(range, evs.drop_last());
        match alt_step(range, st.0, st.1, evs.last()).2 {
            Option::Some(v) => rest.push(v),
            Option::None => rest,
        }
    }
}

/// The store updates a whole event sequence yields.
pub open spec fn alt_updates_spec(range: SlotRange, evs: Seq<TimedTracedEvent>) -> Seq<Seq<u64>> {
    alt_updates_below(range, evs)
}

} // verus!
