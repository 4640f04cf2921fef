use crate::event::ChannelLabel;
use crate::event::PacketRecord;
use crate::event::TimedTracedEvent;
use crate::event::TracedEvent;
use crate::window::WindowFilter;
use vstd::prelude::*;

verus! {

// Counts, per transaction signature, how often later copies of the packet
// arrived with the opposite forwarded flag. Counters saturate instead of
// wrapping; a trace long enough to saturate a 64-bit counter does not arise.

/// What is known about one signature: the forwarded flag of its first packet
/// and the duplicate tallies gathered since.
#[derive(Clone, Copy, PartialEq, Eq, Structural, Debug)]
pub struct DuplicateCheckState {
    pub initial_forwarded: bool,
    pub duplicate_tpu_count: u64,
    pub duplicate_forwarded_count: u64,
}

/// The first slot holding `sig`, or `-1`.
pub open spec fn state_index_of(states: Seq<(u64, DuplicateCheckState)>, sig: u64) -> int
    decreases states.len(),
{
    if states.len() == 0 {
        -1
    } else if states.first().0 == sig {
        0
    } else {
        let r = state_index_of(states.drop_first(), sig);
        if r == -1 {
            -1
        } else {
            r + 1
        }
    }
}

/// What the first matching slot is.
pub proof fn lemma_state_index_char(states: Seq<(u64, DuplicateCheckState)>, sig: u64)
    ensures
        ({
            let r = state_index_of(states, sig);
            &&& r == -1 ==> forall|m: int| 0 <= m < states.len() ==> (#[trigger] states[m]).0 != sig
            &&& r != -1 ==> {
                &&& 0 <= r < states.len()
                &&& states[r].0 == sig
                &&& forall|m: int| 0 <= m < r ==> (#[trigger] states[m]).0 != sig
            }
        }),
    decreases states.len(),
{
    if states.len() > 0 && states.first().0 != sig {
        lemma_state_index_char(states.drop_first(), sig);
        let d = states.drop_first();
        assert forall|m: int| 1 <= m < states.len() implies states[m] == d[m - 1] by {}
    }
}

/// How one decoded packet advances the signature table: a new signature is
/// entered with its forwarded flag; a repeated one whose forwarded flag
/// differs from the first bumps the forwarded-duplicate tally.
pub open spec fn dc_note(
    states: Seq<(u64, DuplicateCheckState)>,
    sig: u64,
    forwarded: bool,
) -> Seq<(u64, DuplicateCheckState)> {
    let r = state_index_of(states, sig);
    if r == -1 {
        states.push(
            (
                sig,
                DuplicateCheckState {
                    initial_forwarded: forwarded,
                    duplicate_tpu_count: 0,
                    duplicate_forwarded_count: 0,
                },
            ),
        )
    } else {
        let st = states[r].1;
        if st.initial_forwarded != forwarded {
            states.update(
                r,
                (
                    sig,
                    DuplicateCheckState {
                        duplicate_forwarded_count: st.duplicate_forwarded_count.saturating_add(1),
                        ..st
                    },
                ),
            )
        } else {
            states
        }
    }
}

/// The signature table after one packet batch.
pub open spec fn dc_packets(
    states: Seq<(u64, DuplicateCheckState)>,
    ps: Seq<PacketRecord>,
) -> Seq<(u64, DuplicateCheckState)>
    decreases ps.len(),
{
    if ps.len() == 0 {
        states
    } else {
        let prev = dc_packets(states, ps.drop_last());
        match ps.last().payload {
            Option::Some(t) => dc_note(prev, t.signature, ps.last().forwarded),
            Option::None => prev,
        }
    }
}

/// The signature table after one batch group.
pub open spec fn dc_batches(
    states: Seq<(u64, DuplicateCheckState)>,
    bs: Seq<Vec<PacketRecord>>,
) -> Seq<(u64, DuplicateCheckState)>
    decreases bs.len(),
{
    if bs.len() == 0 {
        states
    } else {
        dc_packets(dc_batches(states, bs.drop_last()), bs.last()@)
    }
}

/// Walks the windowed non-vote traffic and tallies duplicate packets per
/// transaction signature.
pub struct DuplicateChecker {
    /// The timestamp window gating which events are acted on.
    pub filter: WindowFilter,
    /// One entry per signature seen, in order of first appearance.
    pub signature_states: Vec<(u64, DuplicateCheckState)>,
}

impl DuplicateChecker {
    /// A fresh checker for the given inclusive timestamp window.
    pub fn new(start_timestamp: Option<u64>, end_timestamp: Option<u64>) -> (d: DuplicateChecker)
        ensures
            d.filter == WindowFilter::new_spec(start_timestamp, end_timestamp),
            d.signature_states@.len() == 0,
    {
        DuplicateChecker {
            filter: WindowFilter::new(start_timestamp, end_timestamp),
            signature_states: Vec::new(),
        }
    }

    /// Notes one decoded packet.
    fn note_packet(&mut self, sig: u64, forwarded: bool)
        ensures
            final(self).filter == old(self).filter,
            final(self).signature_states@ == dc_note(
                old(self).signature_states@,
                sig,
                forwarded,
            ),
    {
        let ghost states = self.signature_states@;
        proof {
            lemma_state_index_char(states, sig);
        }
        let n = self.signature_states.len();
        let mut k: usize = 0;
        while k < n
            invariant
                self.filter == old(self).filter,
                n == self.signature_states@.len(),
                self.signature_states@ == states,
                states == old(self).signature_states@,
                0 <= k <= n,
                forall|m: int| 0 <= m < k ==> (#[trigger] states[m]).0 != sig,
            decreases n - k,
        {
            let entry = self.signature_states[k];
            if entry.0 == sig {
                proof {
                    assert(state_index_of(states, sig) == k) by {
                        lemma_state_index_char(states, sig);
                        if state_index_of(states, sig) == -1 {
                            assert(states[k as int].0 != sig);
                        }
                    }
                }
                if entry.1.initial_forwarded != forwarded {
                    let st = entry.1;
                    self.signature_states.set(
                        k,
                        (
                            sig,
                            DuplicateCheckState {
                                duplicate_forwarded_count: st.duplicate_forwarded_count
                                    .saturating_add(1),
                                ..st
                            },
                        ),
                    );
                }
                return ;
            }
            k += 1;
        }
        proof {
            assert(state_index_of(states, sig) == -1) by {
                lemma_state_index_char(states, sig);
                let r = state_index_of(states, sig);
                if r != -1 {
                    assert(states[r].0 != sig);
                }
            }
        }
        self.signature_states.push(
            (
                sig,
                DuplicateCheckState {
                    initial_forwarded: forwarded,
                    duplicate_tpu_count: 0,
                    duplicate_forwarded_count: 0,
                },
            ),
        );
    }

    /// Feeds one event through the window; inside it, every decodable packet
    /// of a non-vote batch group is noted.
    pub fn handle_event(&mut self, event: &TimedTracedEvent)
        ensures
            final(self).filter == old(self).filter.spec_observe(event.0),
            final(self).signature_states@ == (if final(self).filter.active() {
                match event.1 {
                    TracedEvent::PacketBatch(label, b) => match label {
                        ChannelLabel::NonVote => dc_batches(old(self).signature_states@, b@),
                        ChannelLabel::Vote => old(self).signature_states@,
                    },
                    TracedEvent::BlockAndBankHash(_) => old(self).signature_states@,
                }
            } else {
                old(self).signature_states@
            }),
    {
        let act = self.filter.observe(event.0);
        if !act {
            return ;
        }
        match &event.1 {
            TracedEvent::PacketBatch(label, batches) => {
                match label {
                    ChannelLabel::NonVote => {
                        let ghost states0 = self.signature_states@;
                        let ghost filter0 = self.filter;
                        let mut bi: usize = 0;
                        while bi < batches.len()
                            invariant
                                self.filter == filter0,
                                0 <= bi <= batches@.len(),
                                self.signature_states@ == dc_batches(
                                    states0,
                                    batches@.take(bi as int),
                                ),
                            decreases batches@.len() - bi,
                        {
                            let batch = &batches[bi];
                            let ghost upto_batch = self.signature_states@;
                            let mut pk: usize = 0;
                            while pk < batch.len()
                                invariant
                                    self.filter == filter0,
                                    0 <= bi < batches@.len(),
                                    batch == &batches@[bi as int],
                                    0 <= pk <= batch@.len(),
                                    self.signature_states@ == dc_packets(
                                        upto_batch,
                                        batch@.take(pk as int),
                                    ),
                                decreases batch@.len() - pk,
                            {
                                proof {
                                    assert(batch@.take(pk + 1 as int).drop_last() =~= batch@.take(
                                        pk as int,
                                    ));
                                    assert(batch@.take(pk + 1 as int).last() == batch@[pk as int]);
                                }
                                let p = &batch[pk];
                                match &p.payload {
                                    Option::Some(t) => {
                                        self.note_packet(t.signature, p.forwarded);
                                    },
                                    Option::None => {},
                                }
                                pk += 1;
                            }
                            proof {
                                assert(batch@.take(batch@.len() as int) =~= batch@);
                                assert(batches@.take(bi + 1 as int).drop_last() =~= batches@.take(
                                    bi as int,
                                ));
                                assert(batches@.take(bi + 1 as int).last() == batches@[bi as int]);
                            }
                            bi += 1;
                        }
                        proof {
                            assert(batches@.take(batches@.len() as int) =~= batches@);
                        }
                    },
                    ChannelLabel::Vote => {},
                }
            },
            TracedEvent::BlockAndBankHash(_) => {},
        }
    }

    /// The duplicate totals: all packets, all duplicates, first-arrival-plus-
    /// duplicate tallies split by transport, and the duplicate tallies split
    /// by transport. Percentages are left to the caller.
    pub fn report(&self) -> (r: DuplicateTotals)
        ensures
            r == dc_totals(self.signature_states@),
    {
        let ghost states = self.signature_states@;
        let mut totals = DuplicateTotals {
            total_packets: 0,
            total_duplicate_packets: 0,
            total_tpu_packets: 0,
            total_forwarded_packets: 0,
            duplicate_tpu_packets: 0,
            duplicate_forwarded_packets: 0,
        };
        let mut k: usize = 0;
        while k < self.signature_states.len()
            invariant
                states == self.signature_states@,
                0 <= k <= states.len(),
                totals == dc_totals(states.take(k as int)),
            decreases states.len() - k,
        {
            proof {
                assert(states.take(k + 1 as int).drop_last() =~= states.take(k as int));
                assert(states.take(k + 1 as int).last() == states[k as int]);
            }
            let st = self.signature_states[k].1;
            totals = DuplicateTotals {
                total_packets: totals.total_packets.saturating_add(1).saturating_add(
                    st.duplicate_tpu_count,
                ).saturating_add(st.duplicate_forwarded_count),
                total_duplicate_packets: totals.total_duplicate_packets.saturating_add(
                    st.duplicate_tpu_count,
                ).saturating_add(st.duplicate_forwarded_count),
                total_tpu_packets: totals.total_tpu_packets.saturating_add(
                    st.duplicate_tpu_count,
                ).saturating_add(
                    if st.initial_forwarded {
                        0
                    } else {
                        1
                    },
                ),
                total_forwarded_packets: totals.total_forwarded_packets.saturating_add(
                    st.duplicate_forwarded_count,
                ).saturating_add(
                    if st.initial_forwarded {
                        1
                    } else {
                        0
                    },
                ),
                duplicate_tpu_packets: totals.duplicate_tpu_packets.saturating_add(
                    st.duplicate_tpu_count,
                ),
                duplicate_forwarded_packets: totals.duplicate_forwarded_packets.saturating_add(
                    st.duplicate_forwarded_count,
                ),
            };
            k += 1;
        }
        proof {
            assert(states.take(states.len() as int) =~= states);
        }
        totals
    }
}

/// The sums the duplicate report prints.
#[derive(Clone, Copy, PartialEq, Eq, Structural, Debug)]
pub struct DuplicateTotals {
    pub total_packets: u64,
    pub total_duplicate_packets: u64,
    pub total_tpu_packets: u64,
    pub total_forwarded_packets: u64,
    pub duplicate_tpu_packets: u64,
    pub duplicate_forwarded_packets: u64,
}

/// The duplicate totals over a signature table.
pub open spec fn dc_totals(states: Seq<(u64, DuplicateCheckState)>) -> DuplicateTotals
    decreases states.len(),
{
    if states.len() == 0 {
        DuplicateTotals {
            total_packets: 0,
            total_duplicate_packets: 0,
            total_tpu_packets: 0,
            total_forwarded_packets: 0,
            duplicate_tpu_packets: 0,
            duplicate_forwarded_packets: 0,
        }
    } else {
        let t = dc_totals(states.drop_last());
        let st = states.last().1;
        DuplicateTotals {
            total_packets: t.total_packets.saturating_add(1).saturating_add(
                st.duplicate_tpu_count,
            ).saturating_add(st.duplicate_forwarded_count),
            total_duplicate_packets: t.total_duplicate_packets.saturating_add(
                st.duplicate_tpu_count,
            ).saturating_add(st.duplicate_forwarded_count),
            total_tpu_packets: t.total_tpu_packets.saturating_add(st.duplicate_tpu_count)
                .saturating_add(
                if st.initial_forwarded {
                    0
                } else {
                    1
                },
            ),
            total_forwarded_packets: t.total_forwarded_packets.saturating_add(
                st.duplicate_forwarded_count,
            ).saturating_add(
                if st.initial_forwarded {
                    1
                } else {
                    0
                },
            ),
            duplicate_tpu_packets: t.duplicate_tpu_packets.saturating_add(st.duplicate_tpu_count),
            duplicate_forwarded_packets: t.duplicate_forwarded_packets.saturating_add(
                st.duplicate_forwarded_count,
            ),
        }
    }
}

/// Replays a whole trace through a fresh checker and returns the totals.
pub fn duplicate_check(
    events: &Vec<TimedTracedEvent>,
    start_timestamp: Option<u64>,
    end_timestamp: Option<u64>,
) -> (r: DuplicateTotals)
    ensures
        r == dc_totals(dc_trace_fold(start_timestamp, end_timestamp, events@).1),
{
    let mut handler = DuplicateChecker::new(start_timestamp, end_timestamp);
    let mut k: usize = 0;
    while k < events.len()
        invariant
            0 <= k <= events@.len(),
            handler.filter == dc_trace_fold(
                start_timestamp,
                end_timestamp,
                events@.take(k as int),
            ).0,
            handler.signature_states@ == dc_trace_fold(
                start_timestamp,
                end_timestamp,
                events@.take(k as int),
            ).1,
        decreases events@.len() - k,
    {
        proof {
            assert(events@.take(k + 1 as int).drop_last() =~= events@.take(k as int));
            assert(events@.take(k + 1 as int).last() == events@[k as int]);
        }
        handler.handle_event(&events[k]);
        k += 1;
    }
    proof {
        assert(events@.take(events@.len() as int) =~= events@);
    }
    handler.report()
}

/// The checker state a whole trace yields: the window filter and the
/// signature table.
pub open spec fn dc_trace_fold(
    start_timestamp: Option<u64>,
    end_timestamp: Option<u64>,
    evs: Seq<TimedTracedEvent>,
) -> (WindowFilter, Seq<(u64, DuplicateCheckState)>)
    decreases evs.len(),
{
    if evs.len() == 0 {
        (WindowFilter::new_spec(start_timestamp, end_timestamp), Seq::empty())
    } else {
        let st = dc_trace_fold(start_timestamp, end_timestamp, evs.drop_last());
        let ev = evs.last();
        let f = st.0.spec_observe(ev.0);
        let states = if f.active() {
            match ev.1 {
                TracedEvent::PacketBatch(label, b) => match label {
                    ChannelLabel::NonVote => dc_batches(st.1, b@),
                    ChannelLabel::Vote => st.1,
                },
                TracedEvent::BlockAndBankHash(_) => st.1,
            }
        } else {
            st.1
        };
        (f, states)
    }
}

} // verus!
