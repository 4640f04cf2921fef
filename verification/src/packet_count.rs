use crate::event::ChannelLabel;
use crate::event::PacketRecord;
use crate::event::TimedTracedEvent;
use crate::event::TracedEvent;
use crate::window::WindowFilter;
use vstd::prelude::*;

verus! {

// Summarises the windowed traffic: packet counts split by validity,
// transport, stake weight and uniqueness, per-origin tallies, and the set of
// transaction signatures seen. Counters saturate instead of wrapping; a trace
// long enough to saturate a 64-bit counter does not arise.
//
// A discarded packet exposes no bytes, so it counts as invalid and never as
// unique; a packet whose bytes do not parse as a transaction contributes only
// to the total count.

/// Per-origin packet tallies.
#[derive(Clone, Copy, PartialEq, Eq, Structural, Debug)]
pub struct IpPacketCounts {
    pub total: u64,
    pub unique: u64,
    pub staked: u64,
}

/// The counters of one summary run.
pub struct PacketMetrics {
    pub total_count: u64,
    pub valid_count: u64,
    pub valid_unique_count: u64,
    pub tpu_count: u64,
    pub fwd_count: u64,
    pub staked_count: u64,
    pub staked_tpu_count: u64,
    pub staked_fwd_count: u64,
    pub tpu_unique_count: u64,
    pub fwd_unique_count: u64,
    pub tpu_staked_unique_count: u64,
    pub fwd_staked_unique_count: u64,
    pub total_ip_counts: Vec<(u64, IpPacketCounts)>,
    pub tpu_ip_counts: Vec<(u64, IpPacketCounts)>,
    pub fwd_ip_counts: Vec<(u64, IpPacketCounts)>,
    pub signature_set: Vec<u64>,
}

/// The mathematical view of the counters.
pub struct PacketMetricsView {
    pub total_count: u64,
    pub valid_count: u64,
    pub valid_unique_count: u64,
    pub tpu_count: u64,
    pub fwd_count: u64,
    pub staked_count: u64,
    pub staked_tpu_count: u64,
    pub staked_fwd_count: u64,
    pub tpu_unique_count: u64,
    pub fwd_unique_count: u64,
    pub tpu_staked_unique_count: u64,
    pub fwd_staked_unique_count: u64,
    pub total_ip_counts: Seq<(u64, IpPacketCounts)>,
    pub tpu_ip_counts: Seq<(u64, IpPacketCounts)>,
    pub fwd_ip_counts: Seq<(u64, IpPacketCounts)>,
    pub signature_set: Seq<u64>,
}

impl PacketMetrics {
    /// The counters as mathematical values.
    pub open spec fn view_spec(self) -> PacketMetricsView {
        PacketMetricsView {
            total_count: self.total_count,
            valid_count: self.valid_count,
            valid_unique_count: self.valid_unique_count,
            tpu_count: self.tpu_count,
            fwd_count: self.fwd_count,
            staked_count: self.staked_count,
            staked_tpu_count: self.staked_tpu_count,
            staked_fwd_count: self.staked_fwd_count,
            tpu_unique_count: self.tpu_unique_count,
            fwd_unique_count: self.fwd_unique_count,
            tpu_staked_unique_count: self.tpu_staked_unique_count,
            fwd_staked_unique_count: self.fwd_staked_unique_count,
            total_ip_counts: self.total_ip_counts@,
            tpu_ip_counts: self.tpu_ip_counts@,
            fwd_ip_counts: self.fwd_ip_counts@,
            signature_set: self.signature_set@,
        }
    }
}

/// The view of fresh counters: everything zero and empty.
pub open spec fn pm_empty() -> PacketMetricsView {
    PacketMetricsView {
        total_count: 0,
        valid_count: 0,
        valid_unique_count: 0,
        tpu_count: 0,
        fwd_count: 0,
        staked_count: 0,
        staked_tpu_count: 0,
        staked_fwd_count: 0,
        tpu_unique_count: 0,
        fwd_unique_count: 0,
        tpu_staked_unique_count: 0,
        fwd_staked_unique_count: 0,
        total_ip_counts: Seq::empty(),
        tpu_ip_counts: Seq::empty(),
        fwd_ip_counts: Seq::empty(),
        signature_set: Seq::empty(),
    }
}

/// `x` plus one when `c`, saturating.
pub open spec fn bump(x: u64, c: bool) -> u64 {
    if c {
        x.saturating_add(1)
    } else {
        x
    }
}

/// The first slot holding `addr`, or `-1`.
pub open spec fn ip_index_of(m: Seq<(u64, IpPacketCounts)>, addr: u64) -> int
    decreases m.len(),
{
    if m.len() == 0 {
        -1
    } else if m.first().0 == addr {
        0
    } else {
        let r = ip_index_of(m.drop_first(), addr);
        if r == -1 {
            -1
        } else {
            r + 1
        }
    }
}

/// What the first matching slot is.
pub proof fn lemma_ip_index_char(m: Seq<(u64, IpPacketCounts)>, addr: u64)
    ensures
        ({
            let r = ip_index_of(m, addr);
            &&& r == -1 ==> forall|w: int| 0 <= w < m.len() ==> (#[trigger] m[w]).0 != addr
            &&& r != -1 ==> {
                &&& 0 <= r < m.len()
                &&& m[r].0 == addr
                &&& forall|w: int| 0 <= w < r ==> (#[trigger] m[w]).0 != addr
            }
        }),
    decreases m.len(),
{
    if m.len() > 0 && m.first().0 != addr {
        lemma_ip_index_char(m.drop_first(), addr);
        let d = m.drop_first();
        assert forall|w: int| 1 <= w < m.len() implies m[w] == d[w - 1] by {}
    }
}

/// One packet's contribution to a per-origin table: the totals bump, and the
/// unique and staked tallies bump when the packet is valid and unique
/// respectively valid and stake-weighted.
pub open spec fn ip_note(
    m: Seq<(u64, IpPacketCounts)>,
    addr: u64,
    unique_valid: bool,
    staked_valid: bool,
) -> Seq<(u64, IpPacketCounts)> {
    let r = ip_index_of(m, addr);
    if r == -1 {
        m.push(
            (
                addr,
                IpPacketCounts {
                    total: 1,
                    unique: if unique_valid {
                        1
                    } else {
                        0
                    },
                    staked: if staked_valid {
                        1
                    } else {
                        0
                    },
                },
            ),
        )
    } else {
        let c = m[r].1;
        m.update(
            r,
            (
                addr,
                IpPacketCounts {
                    total: c.total.saturating_add(1),
                    unique: bump(c.unique, unique_valid),
                    staked: bump(c.staked, staked_valid),
                },
            ),
        )
    }
}

/// One packet's contribution to the whole summary.
pub open spec fn pm_note(v: PacketMetricsView, p: PacketRecord) -> PacketMetricsView {
    let counted = PacketMetricsView { total_count: v.total_count.saturating_add(1), ..v };
    if !p.discard && p.payload is None {
        // The bytes were there but did not parse as a transaction: only the
        // total advances.
        counted
    } else {
        let valid = !p.discard;
        let unique = match p.payload {
            Option::Some(t) => valid && !v.signature_set.contains(t.signature),
            Option::None => false,
        };
        let sigs = match p.payload {
            Option::Some(t) => if valid && !v.signature_set.contains(t.signature) {
                v.signature_set.push(t.signature)
            } else {
                v.signature_set
            },
            Option::None => v.signature_set,
        };
        let total_ips = ip_note(v.total_ip_counts, p.addr, valid && unique, valid && p.staked);
        PacketMetricsView {
            total_count: counted.total_count,
            valid_count: bump(v.valid_count, valid && unique),
            valid_unique_count: bump(v.valid_unique_count, valid && unique),
            tpu_count: bump(v.tpu_count, valid && !p.forwarded),
            fwd_count: bump(v.fwd_count, valid && p.forwarded),
            staked_count: bump(v.staked_count, valid && p.staked),
            staked_tpu_count: bump(v.staked_tpu_count, valid && p.staked && !p.forwarded),
            staked_fwd_count: bump(v.staked_fwd_count, valid && p.staked && p.forwarded),
            tpu_unique_count: bump(v.tpu_unique_count, valid && !p.forwarded && unique),
            fwd_unique_count: bump(v.fwd_unique_count, valid && p.forwarded && unique),
            tpu_staked_unique_count: bump(
                v.tpu_staked_unique_count,
                valid && !p.forwarded && p.staked && unique,
            ),
            fwd_staked_unique_count: bump(
                v.fwd_staked_unique_count,
                valid && p.forwarded && p.staked && unique,
            ),
            total_ip_counts: total_ips,
            tpu_ip_counts: if !p.forwarded {
                ip_note(v.tpu_ip_counts, p.addr, valid && unique, valid && p.staked)
            } else {
                v.tpu_ip_counts
            },
            fwd_ip_counts: if p.forwarded {
                ip_note(v.fwd_ip_counts, p.addr, valid && unique, valid && p.staked)
            } else {
                v.fwd_ip_counts
            },
            signature_set: sigs,
        }
    }
}

/// The summary after one packet batch.
pub open spec fn pm_packets(v: PacketMetricsView, ps: Seq<PacketRecord>) -> PacketMetricsView
    decreases ps.len(),
{
    if ps.len() == 0 {
        v
    } else {
        pm_note(pm_packets(v, ps.drop_last()), ps.last())
    }
}

/// The summary after one batch group.
pub open spec fn pm_batches(v: PacketMetricsView, bs: Seq<Vec<PacketRecord>>) -> PacketMetricsView
    decreases bs.len(),
{
    if bs.len() == 0 {
        v
    } else {
        pm_packets(pm_batches(v, bs.drop_last()), bs.last()@)
    }
}

/// Updates one per-origin table for one packet.
fn upsert_ip(
    m: &mut Vec<(u64, IpPacketCounts)>,
    addr: u64,
    unique_valid: bool,
    staked_valid: bool,
)
    ensures
        final(m)@ == ip_note(old(m)@, addr, unique_valid, staked_valid),
{
    let ghost view = m@;
    proof {
        lemma_ip_index_char(view, addr);
    }
    let n = m.len();
    let mut k: usize = 0;
    while k < n
        invariant
            n == m@.len(),
            m@ == view,
            view == old(m)@,
            0 <= k <= n,
            forall|w: int| 0 <= w < k ==> (#[trigger] view[w]).0 != addr,
        decreases n - k,
    {
        let entry = m[k];
        if entry.0 == addr {
            proof {
                assert(ip_index_of(view, addr) == k) by {
                    lemma_ip_index_char(view, addr);
                    if ip_index_of(view, addr) == -1 {
                        assert(view[k as int].0 != addr);
                    }
                }
            }
            let c = entry.1;
            let updated = IpPacketCounts {
                total: c.total.saturating_add(1),
                unique: if unique_valid {
                    c.unique.saturating_add(1)
                } else {
                    c.unique
                },
                staked: if staked_valid {
                    c.staked.saturating_add(1)
                } else {
                    c.staked
                },
            };
            m.set(k, (addr, updated));
            return ;
        }
        k += 1;
    }
    proof {
        assert(ip_index_of(view, addr) == -1) by {
            lemma_ip_index_char(view, addr);
            let r = ip_index_of(view, addr);
            if r != -1 {
                assert(view[r].0 != addr);
            }
        }
    }
    m.push(
        (
            addr,
            IpPacketCounts {
                total: 1,
                unique: if unique_valid {
                    1
                } else {
                    0
                },
                staked: if staked_valid {
                    1
                } else {
                    0
                },
            },
        ),
    );
}

/// Walks the windowed traffic and gathers the packet summary.
pub struct PacketCounter {
    /// The timestamp window gating which events are acted on.
    pub filter: WindowFilter,
    /// The gathered counters.
    pub packet_metrics: PacketMetrics,
}

impl PacketCounter {
    /// A fresh counter for the given inclusive timestamp window.
    pub fn new(start_timestamp: Option<u64>, end_timestamp: Option<u64>) -> (c: PacketCounter)
        ensures
            c.filter == WindowFilter::new_spec(start_timestamp, end_timestamp),
            c.packet_metrics.view_spec() == pm_empty(),
    {
        let c = PacketCounter {
            filter: WindowFilter::new(start_timestamp, end_timestamp),
            packet_metrics: PacketMetrics {
                total_count: 0,
                valid_count: 0,
                valid_unique_count: 0,
                tpu_count: 0,
                fwd_count: 0,
                staked_count: 0,
                staked_tpu_count: 0,
                staked_fwd_count: 0,
                tpu_unique_count: 0,
                fwd_unique_count: 0,
                tpu_staked_unique_count: 0,
                fwd_staked_unique_count: 0,
                total_ip_counts: Vec::new(),
                tpu_ip_counts: Vec::new(),
                fwd_ip_counts: Vec::new(),
                signature_set: Vec::new(),
            },
        };
        proof {
            assert(c.packet_metrics.view_spec() =~= pm_empty());
        }
        c
    }

    /// Notes one packet.
    fn note_packet(&mut self, p: &PacketRecord)
        ensures
            final(self).filter == old(self).filter,
            final(self).packet_metrics.view_spec() == pm_note(
                old(self).packet_metrics.view_spec(),
                *p,
            ),
    {
        let ghost v = self.packet_metrics.view_spec();
        self.packet_metrics.total_count = self.packet_metrics.total_count.saturating_add(1);
        let valid = !p.discard;
        match &p.payload {
            Option::None => {
                if !p.discard {
                    // Bytes present but not parsable: only the total counts.
                    return ;
                }
                // A discarded packet exposes no data: it counts as invalid
                // and never as unique.
                let unique = false;
                self.bump_counters(valid, unique, p.staked, p.forwarded, p.addr);
                proof {
                    assert(self.packet_metrics.view_spec() =~= pm_note(v, *p));
                }
            },
            Option::Some(t) => {
                let unique = if valid {
                    let known = crate::dump::contains_u64(
                        &self.packet_metrics.signature_set,
                        t.signature,
                    );
                    if !known {
                        self.packet_metrics.signature_set.push(t.signature);
                    }
                    !known
                } else {
                    false
                };
                proof {
                    if !valid {
                        assert(self.packet_metrics.signature_set@ == v.signature_set);
                    }
                }
                self.bump_counters(valid, unique, p.staked, p.forwarded, p.addr);
                proof {
                    assert(self.packet_metrics.view_spec() =~= pm_note(v, *p));
                }
            },
        }
    }

    /// Applies one packet's counter and per-origin updates.
    fn bump_counters(&mut self, valid: bool, unique: bool, staked: bool, forwarded: bool, addr: u64)
        ensures
            final(self).filter == old(self).filter,
            ({
                let m = old(self).packet_metrics;
                let f = final(self).packet_metrics;
                &&& f.total_count == m.total_count
                &&& f.signature_set@ == m.signature_set@
                &&& f.valid_count == bump(m.valid_count, valid && unique)
                &&& f.valid_unique_count == bump(m.valid_unique_count, valid && unique)
                &&& f.tpu_count == bump(m.tpu_count, valid && !forwarded)
                &&& f.fwd_count == bump(m.fwd_count, valid && forwarded)
                &&& f.staked_count == bump(m.staked_count, valid && staked)
                &&& f.staked_tpu_count == bump(m.staked_tpu_count, valid && staked && !forwarded)
                &&& f.staked_fwd_count == bump(m.staked_fwd_count, valid && staked && forwarded)
                &&& f.tpu_unique_count == bump(m.tpu_unique_count, valid && !forwarded && unique)
                &&& f.fwd_unique_count == bump(m.fwd_unique_count, valid && forwarded && unique)
                &&& f.tpu_staked_unique_count == bump(
                    m.tpu_staked_unique_count,
                    valid && !forwarded && staked && unique,
                )
                &&& f.fwd_staked_unique_count == bump(
                    m.fwd_staked_unique_count,
                    valid && forwarded && staked && unique,
                )
                &&& f.total_ip_counts@ == ip_note(
                    m.total_ip_counts@,
                    addr,
                    valid && unique,
                    valid && staked,
                )
                &&& f.tpu_ip_counts@ == (if !forwarded {
                    ip_note(m.tpu_ip_counts@, addr, valid && unique, valid && staked)
                } else {
                    m.tpu_ip_counts@
                })
                &&& f.fwd_ip_counts@ == (if forwarded {
                    ip_note(m.fwd_ip_counts@, addr, valid && unique, valid && staked)
                } else {
                    m.fwd_ip_counts@
                })
            }),
    {
        if valid && unique {
            self.packet_metrics.valid_count = self.packet_metrics.valid_count.saturating_add(1);
            self.packet_metrics.valid_unique_count =
                self.packet_metrics.valid_unique_count.saturating_add(1);
        }
        if valid && !forwarded {
            self.packet_metrics.tpu_count = self.packet_metrics.tpu_count.saturating_add(1);
        }
        if valid && forwarded {
            self.packet_metrics.fwd_count = self.packet_metrics.fwd_count.saturating_add(1);
        }
        if valid && staked {
            self.packet_metrics.staked_count = self.packet_metrics.staked_count.saturating_add(1);
        }
        if valid && staked && !forwarded {
            self.packet_metrics.staked_tpu_count =
                self.packet_metrics.staked_tpu_count.saturating_add(1);
        }
        if valid && staked && forwarded {
            self.packet_metrics.staked_fwd_count =
                self.packet_metrics.staked_fwd_count.saturating_add(1);
        }
        if valid && !forwarded && unique {
            self.packet_metrics.tpu_unique_count =
                self.packet_metrics.tpu_unique_count.saturating_add(1);
        }
        if valid && forwarded && unique {
            self.packet_metrics.fwd_unique_count =
                self.packet_metrics.fwd_unique_count.saturating_add(1);
        }
        if valid && !forwarded && staked && unique {
            self.packet_metrics.tpu_staked_unique_count =
                self.packet_metrics.tpu_staked_unique_count.saturating_add(1);
        }
        if valid && forwarded && staked && unique {
            self.packet_metrics.fwd_staked_unique_count =
                self.packet_metrics.fwd_staked_unique_count.saturating_add(1);
        }
        upsert_ip(&mut self.packet_metrics.total_ip_counts, addr, valid && unique, valid && staked);
        if !forwarded {
            upsert_ip(
                &mut self.packet_metrics.tpu_ip_counts,
                addr,
                valid && unique,
                valid && staked,
            );
        } else {
            upsert_ip(
                &mut self.packet_metrics.fwd_ip_counts,
                addr,
                valid && unique,
                valid && staked,
            );
        }
    }

    /// The gathered counters, for the caller to print.
    pub fn report(&self) -> (r: &PacketMetrics)
        ensures
            *r == self.packet_metrics,
    {
        &self.packet_metrics
    }

    /// Feeds one event through the window; inside it, every packet of a
    /// non-vote batch group is summarised.
    pub fn handle_event(&mut self, event: &TimedTracedEvent)
        ensures
            final(self).filter == old(self).filter.spec_observe(event.0),
            final(self).packet_metrics.view_spec() == (if final(self).filter.active() {
                match event.1 {
                    TracedEvent::PacketBatch(label, b) => match label {
                        ChannelLabel::NonVote => pm_batches(
                            old(self).packet_metrics.view_spec(),
                            b@,
                        ),
                        ChannelLabel::Vote => old(self).packet_metrics.view_spec(),
                    },
                    TracedEvent::BlockAndBankHash(_) => old(self).packet_metrics.view_spec(),
                }
            } else {
                old(self).packet_metrics.view_spec()
            }),
    {
        let act = self.filter.observe(event.0);
        if !act {
            return ;
        }
        match &event.1 {
            TracedEvent::PacketBatch(label, batches) => {
                match label {
                    ChannelLabel::NonVote => {
                        let ghost v0 = self.packet_metrics.view_spec();
                        let ghost filter0 = self.filter;
                        let mut bi: usize = 0;
                        while bi < batches.len()
                            invariant
                                self.filter == filter0,
                                0 <= bi <= batches@.len(),
                                self.packet_metrics.view_spec() == pm_batches(
                                    v0,
                                    batches@.take(bi as int),
                                ),
                            decreases batches@.len() - bi,
                        {
                            let batch = &batches[bi];
                            let ghost vb = self.packet_metrics.view_spec();
                            let mut pk: usize = 0;
                            while pk < batch.len()
                                invariant
                                    self.filter == filter0,
                                    0 <= bi < batches@.len(),
                                    batch == &batches@[bi as int],
                                    0 <= pk <= batch@.len(),
                                    self.packet_metrics.view_spec() == pm_packets(
                                        vb,
                                        batch@.take(pk as int),
                                    ),
                                decreases batch@.len() - pk,
                            {
                                proof {
                                    assert(batch@.take(pk + 1 as int).drop_last() =~= batch@.take(
                                        pk as int,
                                    ));
                                    assert(batch@.take(pk + 1 as int).last() == batch@[pk as int]);
                                }
                                self.note_packet(&batch[pk]);
                                pk += 1;
                            }
                            proof {
                                assert(batch@.take(batch@.len() as int) =~= batch@);
                                assert(batches@.take(bi + 1 as int).drop_last() =~= batches@.take(
                                    bi as int,
                                ));
                                assert(batches@.take(bi + 1 as int).last() == batches@[bi as int]);
                            }
                            bi += 1;
                        }
                        proof {
                            assert(batches@.take(batches@.len() as int) =~= batches@);
                        }
                    },
                    ChannelLabel::Vote => {},
                }
            },
            TracedEvent::BlockAndBankHash(_) => {},
        }
    }
}

/// The summary state a whole trace yields: the window filter and the
/// counters.
pub open spec fn pm_trace_fold(
    start_timestamp: Option<u64>,
    end_timestamp: Option<u64>,
    evs: Seq<TimedTracedEvent>,
) -> (WindowFilter, PacketMetricsView)
    decreases evs.len(),
{
    if evs.len() == 0 {
        (WindowFilter::new_spec(start_timestamp, end_timestamp), pm_empty())
    } else {
        let st = pm_trace_fold(start_timestamp, end_timestamp, evs.drop_last());
        let ev = evs.last();
        let f = st.0.spec_observe(ev.0);
        let v = if f.active() {
            match ev.1 {
                TracedEvent::PacketBatch(label, b) => match label {
                    ChannelLabel::NonVote => pm_batches(st.1, b@),
                    ChannelLabel::Vote => st.1,
                },
                TracedEvent::BlockAndBankHash(_) => st.1,
            }
        } else {
            st.1
        };
        (f, v)
    }
}

/// Replays a whole trace through a fresh counter and returns the summary.
pub fn packet_count(
    events: &Vec<TimedTracedEvent>,
    start_timestamp: Option<u64>,
    end_timestamp: Option<u64>,
) -> (c: PacketCounter)
    ensures
        c.packet_metrics.view_spec() == pm_trace_fold(
            start_timestamp,
            end_timestamp,
            events@,
        ).1,
{
    let mut handler = PacketCounter::new(start_timestamp, end_timestamp);
    let mut k: usize = 0;
    while k < events.len()
        invariant
            0 <= k <= events@.len(),
            handler.filter == pm_trace_fold(
                start_timestamp,
                end_timestamp,
                events@.take(k as int),
            ).0,
            handler.packet_metrics.view_spec() == pm_trace_fold(
                start_timestamp,
                end_timestamp,
                events@.take(k as int),
            ).1,
        decreases events@.len() - k,
    {
        proof {
            assert(events@.take(k + 1 as int).drop_last() =~= events@.take(k as int));
            assert(events@.take(k + 1 as int).last() == events@[k as int]);
        }
        handler.handle_event(&events[k]);
        k += 1;
    }
    proof {
        assert(events@.take(events@.len() as int) =~= events@);
    }
    handler
}

} // verus!
