use crate::event::ChannelLabel;
use crate::event::PacketRecord;
use crate::event::TimedTracedEvent;
use crate::event::TracedEvent;
use crate::window::WindowFilter;
use vstd::prelude::*;

verus! {

// Dumping walks the windowed non-vote traffic and picks the transactions
// that match the caller's account and origin filters. Which packets are
// picked is decided here; printing them is the caller's business.

/// The packet's origin passes the filter: no filter, or its address listed.
pub open spec fn ip_passes(ips: Option<Vec<u64>>, addr: u64) -> bool {
    match ips {
        Option::Some(v) => v@.contains(addr),
        Option::None => true,
    }
}

/// The key list passes the filter: no filter, or some key listed.
pub open spec fn keys_pass(accounts: Option<Vec<u64>>, keys: Seq<u64>) -> bool {
    match accounts {
        Option::Some(v) => exists|m: int| 0 <= m < keys.len() && v@.contains(#[trigger] keys[m]),
        Option::None => true,
    }
}

/// Whether the dumper picks this packet: its bytes must decode, its origin
/// must pass the filter, and its account keys must pass the filter — the
/// resolved lock set's keys when lookup tables are resolved (an unresolvable
/// transaction is skipped), and the transaction's static keys otherwise.
pub open spec fn dump_selects(
    accounts: Option<Vec<u64>>,
    ips: Option<Vec<u64>>,
    resolve: bool,
    p: PacketRecord,
) -> bool {
    match p.payload {
        Option::Some(t) => ip_passes(ips, p.addr) && if resolve {
            match t.locks {
                Option::Some(l) => keys_pass(accounts, l.writable@ + l.readonly@),
                Option::None => false,
            }
        } else {
            keys_pass(accounts, t.static_account_keys@)
        },
        Option::None => false,
    }
}

/// The signatures of the picked packets, in capture order.
pub open spec fn selected_of_packets(
    accounts: Option<Vec<u64>>,
    ips: Option<Vec<u64>>,
    resolve: bool,
    ps: Seq<PacketRecord>,
) -> Seq<u64>
    decreases ps.len(),
{
    if ps.len() == 0 {
        Seq::empty()
    } else {
        let rest = selected_of_packets(accounts, ips, resolve, ps.drop_last());
        if dump_selects(accounts, ips, resolve, ps.last()) {
            rest.push(ps.last().payload.unwrap().signature)
        } else {
            rest
        }
    }
}

/// The signatures picked out of a whole batch group.
pub open spec fn selected_of_batches(
    accounts: Option<Vec<u64>>,
    ips: Option<Vec<u64>>,
    resolve: bool,
    bs: Seq<Vec<PacketRecord>>,
) -> Seq<u64>
    decreases bs.len(),
{
    if bs.len() == 0 {
        Seq::empty()
    } else {
        selected_of_batches(accounts, ips, resolve, bs.drop_last()) + selected_of_packets(
            accounts,
            ips,
            resolve,
            bs.last()@,
        )
    }
}

/// Whether `v` holds `x`.
pub(crate) fn contains_u64(v: &Vec<u64>, x: u64) -> (r: bool)
    ensures
        r == v@.contains(x),
{
    let mut k: usize = 0;
    while k < v.len()
        invariant
            0 <= k <= v@.len(),
            forall|m: int| 0 <= m < k ==> v@[m] != x,
        decreases v@.len() - k,
    {
        if v[k] == x {
            return true;
        }
        k += 1;
    }
    false
}

/// Whether some key of `keys` passes the account filter.
fn keys_pass_filter(accounts: &Option<Vec<u64>>, keys: &Vec<u64>) -> (r: bool)
    ensures
        r == keys_pass(*accounts, keys@),
{
    match accounts {
        Option::Some(v) => {
            let mut k: usize = 0;
            while k < keys.len()
                invariant
                    *accounts == Option::Some(*v),
                    0 <= k <= keys@.len(),
                    forall|m: int| 0 <= m < k ==> !v@.contains(#[trigger] keys@[m]),
                decreases keys@.len() - k,
            {
                if contains_u64(v, keys[k]) {
                    proof {
                        assert(0 <= k < keys@.len() && v@.contains(keys@[k as int]));
                        assert(*accounts == Option::Some(*v));
                        assert(keys_pass(*accounts, keys@)) by {
                            assert(exists|m: int|
                                0 <= m < keys@.len() && v@.contains(#[trigger] keys@[m]));
                        }
                    }
                    return true;
                }
                k += 1;
            }
            false
        },
        Option::None => true,
    }
}

/// Walks the windowed non-vote traffic and picks the transactions that match
/// the caller's account and origin filters.
pub struct Dumper {
    /// Keep only transactions touching one of these accounts, when given.
    pub accounts: Option<Vec<u64>>,
    /// Keep only packets from one of these origin addresses, when given.
    pub ips: Option<Vec<u64>>,
    /// Whether lookup tables are resolved before the account check.
    pub resolve: bool,
    /// The timestamp window gating which events are acted on.
    pub filter: WindowFilter,
}

impl Dumper {
    /// A fresh dumper for the given filters and inclusive timestamp window.
    pub fn new(
        accounts: Option<Vec<u64>>,
        ips: Option<Vec<u64>>,
        resolve: bool,
        start_timestamp: Option<u64>,
        end_timestamp: Option<u64>,
    ) -> (d: Dumper)
        ensures
            d.accounts == accounts,
            d.ips == ips,
            d.resolve == resolve,
            d.filter == WindowFilter::new_spec(start_timestamp, end_timestamp),
    {
        Dumper {
            accounts,
            ips,
            resolve,
            filter: WindowFilter::new(start_timestamp, end_timestamp),
        }
    }

    /// Whether the dumper picks this packet.
    pub fn should_dump(&self, p: &PacketRecord) -> (r: bool)
        ensures
            r == dump_selects(self.accounts, self.ips, self.resolve, *p),
    {
        match &p.payload {
            Option::Some(t) => {
                let ip_ok = match &self.ips {
                    Option::Some(v) => contains_u64(v, p.addr),
                    Option::None => true,
                };
                if !ip_ok {
                    return false;
                }
                let ghost acc = self.accounts;
                if self.resolve {
                    match &t.locks {
                        Option::Some(l) => {
                            if keys_pass_filter(&self.accounts, &l.writable) {
                                proof {
                                    if let Option::Some(v) = acc {
                                        let m = choose|m: int|
                                            0 <= m < l.writable@.len() && v@.contains(
                                                #[trigger] l.writable@[m],
                                            );
                                        assert((l.writable@ + l.readonly@)[m] == l.writable@[m]);
                                    }
                                }
                                true
                            } else if keys_pass_filter(&self.accounts, &l.readonly) {
                                proof {
                                    if let Option::Some(v) = acc {
                                        let m = choose|m: int|
                                            0 <= m < l.readonly@.len() && v@.contains(
                                                #[trigger] l.readonly@[m],
                                            );
                                        assert((l.writable@ + l.readonly@)[l.writable@.len() + m]
                                            == l.readonly@[m]);
                                    }
                                }
                                true
                            } else {
                                proof {
                                    if let Option::Some(v) = acc {
                                        if keys_pass(
                                            self.accounts,
                                            l.writable@ + l.readonly@,
                                        ) {
                                            let m = choose|m: int|
                                                0 <= m < (l.writable@ + l.readonly@).len()
                                                    && v@.contains(
                                                    #[trigger] (l.writable@ + l.readonly@)[m],
                                                );
                                            if m < l.writable@.len() {
                                                assert(l.writable@[m] == (l.writable@
                                                    + l.readonly@)[m]);
                                            } else {
                                                assert(l.readonly@[m - l.writable@.len()] == (
                                                l.writable@ + l.readonly@)[m]);
                                            }
                                        }
                                    }
                                }
                                false
                            }
                        },
                        Option::None => false,
                    }
                } else {
                    keys_pass_filter(&self.accounts, &t.static_account_keys)
                }
            },
            Option::None => false,
        }
    }

    /// Feeds one event through the window, and returns the signatures of the
    /// packets picked from it — empty outside the window and for boundary
    /// markers.
    pub fn handle_event(&mut self, event: &TimedTracedEvent) -> (r: Vec<u64>)
        ensures
            final(self).accounts == old(self).accounts,
            final(self).ips == old(self).ips,
            final(self).resolve == old(self).resolve,
            final(self).filter == old(self).filter.spec_observe(event.0),
            r@ == (if final(self).filter.active() {
                match event.1 {
                    TracedEvent::PacketBatch(label, b) => match label {
                        ChannelLabel::NonVote => selected_of_batches(
                            old(self).accounts,
                            old(self).ips,
                            old(self).resolve,
                            b@,
                        ),
                        ChannelLabel::Vote => Seq::<u64>::empty(),
                    },
                    TracedEvent::BlockAndBankHash(_) => Seq::<u64>::empty(),
                }
            } else {
                Seq::<u64>::empty()
            }),
    {
        let act = self.filter.observe(event.0);
        let mut r: Vec<u64> = Vec::new();
        if !act {
            return r;
        }
        match &event.1 {
            TracedEvent::PacketBatch(label, batches) => {
                match label {
                    ChannelLabel::NonVote => {
                        let mut bi: usize = 0;
                        while bi < batches.len()
                            invariant
                                self.accounts == old(self).accounts,
                                self.ips == old(self).ips,
                                self.resolve == old(self).resolve,
                                0 <= bi <= batches@.len(),
                                r@ == selected_of_batches(
                                    self.accounts,
                                    self.ips,
                                    self.resolve,
                                    batches@.take(bi as int),
                                ),
                            decreases batches@.len() - bi,
                        {
                            let batch = &batches[bi];
                            let mut pk: usize = 0;
                            while pk < batch.len()
                                invariant
                                    self.accounts == old(self).accounts,
                                    self.ips == old(self).ips,
                                    self.resolve == old(self).resolve,
                                    0 <= bi < batches@.len(),
                                    batch == &batches@[bi as int],
                                    0 <= pk <= batch@.len(),
                                    r@ == selected_of_batches(
                                        self.accounts,
                                        self.ips,
                                        self.resolve,
                                        batches@.take(bi as int),
                                    ) + selected_of_packets(
                                        self.accounts,
                                        self.ips,
                                        self.resolve,
                                        batch@.take(pk as int),
                                    ),
                                decreases batch@.len() - pk,
                            {
                                proof {
                                    assert(batch@.take(pk + 1 as int).drop_last() =~= batch@.take(
                                        pk as int,
                                    ));
                                    assert(batch@.take(pk + 1 as int).last() == batch@[pk as int]);
                                }
                                let p = &batch[pk];
                                if self.should_dump(p) {
                                    match &p.payload {
                                        Option::Some(t) => {
                                            r.push(t.signature);
                                        },
                                        Option::None => {
                                            proof {
                                                assert(false);
                                            }
                                        },
                                    }
                                }
                                pk += 1;
                            }
                            proof {
                                assert(batch@.take(batch@.len() as int) =~= batch@);
                                assert(batches@.take(bi + 1 as int).drop_last() =~= batches@.take(
                                    bi as int,
                                ));
                                assert(batches@.take(bi + 1 as int).last() == batches@[bi as int]);
                            }
                            bi += 1;
                        }
                        proof {
                            assert(batches@.take(batches@.len() as int) =~= batches@);
                        }
                    },
                    ChannelLabel::Vote => {},
                }
            },
            TracedEvent::BlockAndBankHash(_) => {},
        }
        r
    }
}

/// The dump state a whole trace yields: the window filter and the picked
/// signatures, in capture order.
pub open spec fn dump_trace_fold(
    accounts: Option<Vec<u64>>,
    ips: Option<Vec<u64>>,
    resolve: bool,
    start_timestamp: Option<u64>,
    end_timestamp: Option<u64>,
    evs: Seq<TimedTracedEvent>,
) -> (WindowFilter, Seq<u64>)
    decreases evs.len(),
{
    if evs.len() == 0 {
        (WindowFilter::new_spec(start_timestamp, end_timestamp), Seq::empty())
    } else {
        let st = dump_trace_fold(
            accounts,
            ips,
            resolve,
            start_timestamp,
            end_timestamp,
            evs.drop_last(),
        );
        let ev = evs.last();
        let f = st.0.spec_observe(ev.0);
        let picked = if f.active() {
            match ev.1 {
                TracedEvent::PacketBatch(label, b) => match label {
                    ChannelLabel::NonVote => selected_of_batches(accounts, ips, resolve, b@),
                    ChannelLabel::Vote => Seq::<u64>::empty(),
                },
                TracedEvent::BlockAndBankHash(_) => Seq::<u64>::empty(),
            }
        } else {
            Seq::<u64>::empty()
        };
        (f, st.1 + picked)
    }
}

/// Replays a whole trace through a fresh dumper and returns the picked
/// signatures, in capture order.
pub fn dump(
    events: &Vec<TimedTracedEvent>,
    accounts: Option<Vec<u64>>,
    ips: Option<Vec<u64>>,
    skip_alt_resolution: bool,
    start_timestamp: Option<u64>,
    end_timestamp: Option<u64>,
) -> (r: Vec<u64>)
    ensures
        r@ == dump_trace_fold(
            accounts,
            ips,
            !skip_alt_resolution,
            start_timestamp,
            end_timestamp,
            events@,
        ).1,
{
    let ghost acc0 = accounts;
    let ghost ips0 = ips;
    let mut dumper = Dumper::new(
        accounts,
        ips,
        !skip_alt_resolution,
        start_timestamp,
        end_timestamp,
    );
    let mut out: Vec<u64> = Vec::new();
    let mut k: usize = 0;
    while k < events.len()
        invariant
            0 <= k <= events@.len(),
            dumper.accounts == acc0,
            dumper.ips == ips0,
            dumper.resolve == !skip_alt_resolution,
            dumper.filter == dump_trace_fold(
                acc0,
                ips0,
                !skip_alt_resolution,
                start_timestamp,
                end_timestamp,
                events@.take(k as int),
            ).0,
            out@ == dump_trace_fold(
                acc0,
                ips0,
                !skip_alt_resolution,
                start_timestamp,
                end_timestamp,
                events@.take(k as int),
            ).1,
        decreases events@.len() - k,
    {
        proof {
            assert(events@.take(k + 1 as int).drop_last() =~= events@.take(k as int));
            assert(events@.take(k + 1 as int).last() == events@[k as int]);
        }
        let mut picked = dumper.handle_event(&events[k]);
        out.append(&mut picked);
        k += 1;
    }
    proof {
        assert(events@.take(events@.len() as int) =~= events@);
    }
    out
}

} // verus!
