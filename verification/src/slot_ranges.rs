use crate::event::TimedTracedEvent;
use crate::event::TracedEvent;
use vstd::prelude::*;

verus! {

/// Folds the slot-boundary markers of a trace into maximal runs of
/// consecutive finalized slots. A boundary extends the open run when its slot
/// is the successor of the run's end, and otherwise closes the run and opens
/// a new one.
pub struct SlotRangesHandler {
    /// The run still open, as an inclusive `(start, end)` pair.
    pub current_range: Option<(u64, u64)>,
    /// The runs closed so far, in the order they were closed.
    pub reported: Vec<(u64, u64)>,
}

/// How one event advances the run fold.
pub open spec fn slot_ranges_step(
    cur: Option<(u64, u64)>,
    rep: Seq<(u64, u64)>,
    ev: TimedTracedEvent,
) -> (Option<(u64, u64)>, Seq<(u64, u64)>) {
    match ev.1 {
        TracedEvent::BlockAndBankHash(slot) => match cur {
            Option::Some((s, e)) => if e.saturating_add(1) == slot {
                (Option::Some((s, slot)), rep)
            } else {
                (Option::Some((slot, slot)), rep.push((s, e)))
            },
            Option::None => (Option::Some((slot, slot)), rep),
        },
        TracedEvent::PacketBatch(_, _) => (cur, rep),
    }
}

/// The run fold over a whole event sequence.
pub open spec fn slot_ranges_fold(evs: Seq<TimedTracedEvent>) -> (
    Option<(u64, u64)>,
    Seq<(u64, u64)>,
)
    decreases evs.len(),
{
    if evs.len() == 0 {
        (Option::None, Seq::empty())
    } else {
        let st = slot_ranges_fold(evs.drop_last());
        slot_ranges_step(st.0, st.1, evs.last())
    }
}

/// All runs of a trace: the closed ones, and the run still open at the end.
pub open spec fn slot_ranges_spec(evs: Seq<TimedTracedEvent>) -> Seq<(u64, u64)> {
    let st = slot_ranges_fold(evs);
    match st.0 {
        Option::Some(r) => st.1.push(r),
        Option::None => st.1,
    }
}

impl Default for SlotRangesHandler {
    /// A fresh handler with no open run.
    fn default() -> (h: SlotRangesHandler)
        ensures
            h.current_range is None,
            h.reported@.len() == 0,
    {
        SlotRangesHandler { current_range: Option::None, reported: Vec::new() }
    }
}

impl SlotRangesHandler {
    /// Feeds one event through the run fold.
    pub fn handle_event(&mut self, event: &TimedTracedEvent)
        ensures
            ({
                let st = slot_ranges_step(
                    old(self).current_range,
                    old(self).reported@,
                    *event,
                );
                final(self).current_range == st.0 && final(self).reported@ == st.1
            }),
    {
        if let TracedEvent::BlockAndBankHash(slot) = event.1 {
            match self.current_range {
                Option::Some((start_slot, end_slot)) => {
                    if end_slot.saturating_add(1) == slot {
                        self.current_range = Option::Some((start_slot, slot));
                    } else {
                        self.reported.push((start_slot, end_slot));
                        self.current_range = Option::Some((slot, slot));
                    }
                },
                Option::None => {
                    self.current_range = Option::Some((slot, slot));
                },
            }
        }
    }

    /// The run still open, if any.
    pub fn report_current_range(&self) -> (r: Option<(u64, u64)>)
        ensures
            r == self.current_range,
    {
        self.current_range
    }
}

/// The maximal runs of consecutive finalized slots in the trace, in the order
/// they appear: every closed run followed by the run still open at the end.
pub fn slot_ranges(events: &Vec<TimedTracedEvent>) -> (ranges: Vec<(u64, u64)>)
    ensures
        ranges@ == slot_ranges_spec(events@),
{
    let mut handler = SlotRangesHandler::default();
    let mut k: usize = 0;
    while k < events.len()
        invariant
            0 <= k <= events@.len(),
            handler.current_range == slot_ranges_fold(events@.take(k as int)).0,
            handler.reported@ == slot_ranges_fold(events@.take(k as int)).1,
        decreases events@.len() - k,
    {
        proof {
            assert(events@.take(k + 1 as int).drop_last() =~= events@.take(k as int));
            assert(events@.take(k + 1 as int).last() == events@[k as int]);
        }
        handler.handle_event(&events[k]);
        k += 1;
    }
    proof {
        assert(events@.take(events@.len() as int) =~= events@);
    }
    let mut ranges = handler.reported;
    if let Option::Some(r) = handler.current_range {
        ranges.push(r);
    }
    ranges
}

} // verus!
