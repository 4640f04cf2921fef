use crate::cli::SlotRange;
use crate::event::ChannelLabel;
use crate::event::PacketRecord;
use crate::event::TimedTracedEvent;
use crate::event::TracedEvent;
use crate::event::groups_wf;
use crate::graph::nodup_u64;
use crate::graphia_input::collect_records;
use crate::graphia_input::record_view_equal;
use crate::graphia_input::records_of_groups;
use crate::graphia_input::records_view_equal;
use crate::graphia_input::TransactionRecord;
use crate::update_alt_store::dedup_keys;
use vstd::prelude::*;

verus! {

// Tallies, per account, how often the windowed transactions read and write
// it, and the spread of their priorities and requested compute units. Sums
// and counts saturate instead of wrapping; a trace long enough to saturate a
// 64-bit counter does not arise.

/// The usage tallies of one account.
#[derive(Clone, Copy, PartialEq, Eq, Structural, Debug)]
pub struct AccountUsageStatistics {
    pub key: u64,
    pub num_reads: u64,
    pub num_writes: u64,
    pub min_priority: u64,
    pub sum_priority: u64,
    pub max_priority: u64,
    pub min_requested_cus: u64,
    pub sum_requested_cus: u64,
    pub max_requested_cus: u64,
}

impl AccountUsageStatistics {
    /// The tallies of an account nothing has touched yet.
    pub open spec fn new_spec(key: u64) -> AccountUsageStatistics {
        AccountUsageStatistics {
            key,
            num_reads: 0,
            num_writes: 0,
            min_priority: u64::MAX,
            sum_priority: 0,
            max_priority: 0,
            min_requested_cus: u64::MAX,
            sum_requested_cus: 0,
            max_requested_cus: 0,
        }
    }

    /// Fresh tallies for `key`.
    pub fn new(key: u64) -> (s: AccountUsageStatistics)
        ensures
            s == AccountUsageStatistics::new_spec(key),
    {
        AccountUsageStatistics {
            key,
            num_reads: 0,
            num_writes: 0,
            min_priority: u64::MAX,
            sum_priority: 0,
            max_priority: 0,
            min_requested_cus: u64::MAX,
            sum_requested_cus: 0,
            max_requested_cus: 0,
        }
    }

    /// The tallies after one more access.
    pub open spec fn update_spec(
        self,
        is_write: bool,
        priority: u64,
        requested_cus: u64,
    ) -> AccountUsageStatistics {
        AccountUsageStatistics {
            key: self.key,
            num_reads: if is_write {
                self.num_reads
            } else {
                self.num_reads.saturating_add(1)
            },
            num_writes: if is_write {
                self.num_writes.saturating_add(1)
            } else {
                self.num_writes
            },
            min_priority: if priority < self.min_priority {
                priority
            } else {
                self.min_priority
            },
            sum_priority: self.sum_priority.saturating_add(priority),
            max_priority: if priority > self.max_priority {
                priority
            } else {
                self.max_priority
            },
            min_requested_cus: if requested_cus < self.min_requested_cus {
                requested_cus
            } else {
                self.min_requested_cus
            },
            sum_requested_cus: self.sum_requested_cus.saturating_add(requested_cus),
            max_requested_cus: if requested_cus > self.max_requested_cus {
                requested_cus
            } else {
                self.max_requested_cus
            },
        }
    }

    /// Tallies one more access.
    pub fn update(&mut self, is_write: bool, priority: u64, requested_cus: u64)
        ensures
            *final(self) == old(self).update_spec(is_write, priority, requested_cus),
    {
        if is_write {
            self.num_writes = self.num_writes.saturating_add(1);
        } else {
            self.num_reads = self.num_reads.saturating_add(1);
        }
        if priority < self.min_priority {
            self.min_priority = priority;
        }
        self.sum_priority = self.sum_priority.saturating_add(priority);
        if priority > self.max_priority {
            self.max_priority = priority;
        }
        if requested_cus < self.min_requested_cus {
            self.min_requested_cus = requested_cus;
        }
        self.sum_requested_cus = self.sum_requested_cus.saturating_add(requested_cus);
        if requested_cus > self.max_requested_cus {
            self.max_requested_cus = requested_cus;
        }
    }

    /// The average priority and requested compute units over all accesses.
    pub fn averages(&self) -> (r: (u64, u64))
        requires
            self.num_reads > 0 || self.num_writes > 0,
        ensures
            ({
                let n = self.num_reads.saturating_add(self.num_writes);
                r.0 == self.sum_priority / n && r.1 == self.sum_requested_cus / n
            }),
    {
        let n = self.num_reads.saturating_add(self.num_writes);
        (self.sum_priority / n, self.sum_requested_cus / n)
    }
}

/// The tallies one record contributes to one account: a write access, a read
/// access, or nothing.
pub open spec fn record_applies(
    st: AccountUsageStatistics,
    r: TransactionRecord,
    a: u64,
) -> AccountUsageStatistics {
    if r.locks.writes(a) {
        st.update_spec(true, r.priority, r.requested_cus)
    } else if r.locks.reads(a) {
        st.update_spec(false, r.priority, r.requested_cus)
    } else {
        st
    }
}

/// One account's tallies over a whole record sequence.
pub open spec fn stat_for(rs: Seq<TransactionRecord>, a: u64) -> AccountUsageStatistics
    decreases rs.len(),
{
    if rs.len() == 0 {
        AccountUsageStatistics::new_spec(a)
    } else {
        record_applies(stat_for(rs.drop_last(), a), rs.last(), a)
    }
}

/// All account keys the records lock, with repetition, in record order:
/// writable keys first within each record.
pub open spec fn accounts_of_records(rs: Seq<TransactionRecord>) -> Seq<u64>
    decreases rs.len(),
{
    if rs.len() == 0 {
        Seq::empty()
    } else {
        accounts_of_records(rs.drop_last()) + (rs.last().locks.writable@
            + rs.last().locks.readonly@)
    }
}

/// The touched accounts, each at its first occurrence.
pub open spec fn usage_accounts(rs: Seq<TransactionRecord>) -> Seq<u64> {
    dedup_keys(accounts_of_records(rs))
}

/// The per-account usage tallies of a record sequence, in order of each
/// account's first occurrence.
pub open spec fn usage_stats(rs: Seq<TransactionRecord>) -> Seq<AccountUsageStatistics> {
    usage_accounts(rs).map(|i: int, a: u64| stat_for(rs, a))
}

/// Deduplication keeps exactly the keys of the input, once each.
pub proof fn lemma_dedup_keys(s: Seq<u64>)
    ensures
        nodup_u64(dedup_keys(s)),
        forall|x: u64| dedup_keys(s).contains(x) == s.contains(x),
    decreases s.len(),
{
    if s.len() > 0 {
        lemma_dedup_keys(s.drop_last());
        let rest = dedup_keys(s.drop_last());
        let d = dedup_keys(s);
        assert forall|x: u64| d.contains(x) == s.contains(x) by {
            assert(s.contains(x) == (s.drop_last().contains(x) || x == s.last())) by {
                if s.contains(x) {
                    let w = choose|w: int| 0 <= w < s.len() && s[w] == x;
                    if w < s.len() - 1 {
                        assert(s.drop_last()[w] == x);
                        assert(s.drop_last().contains(x));
                    }
                }
                if s.drop_last().contains(x) {
                    let w = choose|w: int| 0 <= w < s.drop_last().len() && s.drop_last()[w] == x;
                    assert(s[w] == x);
                }
                if x == s.last() {
                    assert(s[s.len() - 1] == x);
                }
            }
            assert(d.contains(x) == (rest.contains(x) || x == s.last())) by {
                if rest.contains(s.last()) {
                    assert(d == rest);
                } else {
                    if d.contains(x) {
                        let w = choose|w: int| 0 <= w < d.len() && d[w] == x;
                        if w < rest.len() {
                            assert(rest[w] == x);
                            assert(rest.contains(x));
                        }
                    }
                    if rest.contains(x) {
                        let w = choose|w: int| 0 <= w < rest.len() && rest[w] == x;
                        assert(d[w] == x);
                    }
                    if x == s.last() {
                        assert(d[d.len() - 1] == x);
                    }
                }
            }
        }
        if !rest.contains(s.last()) {
            assert forall|p: int, q: int| 0 <= p < q < d.len() implies d[p] != d[q] by {
                if q < rest.len() {
                    assert(d[p] == rest[p] && d[q] == rest[q]);
                } else {
                    assert(d[q] == s.last());
                    assert(d[p] == rest[p]);
                    assert(rest.contains(rest[p]));
                }
            }
        }
    }
}

/// The locked keys are exactly the keys some record touches.
pub proof fn lemma_accounts_contains(rs: Seq<TransactionRecord>, a: u64)
    ensures
        accounts_of_records(rs).contains(a) == exists|m: int|
            0 <= m < rs.len() && (#[trigger] rs[m]).locks.touches(a),
    decreases rs.len(),
{
    if rs.len() > 0 {
        lemma_accounts_contains(rs.drop_last(), a);
        let prev = accounts_of_records(rs.drop_last());
        let own = rs.last().locks.writable@ + rs.last().locks.readonly@;
        let cur = accounts_of_records(rs);
        if cur.contains(a) {
            let w = choose|w: int| 0 <= w < cur.len() && cur[w] == a;
            if w < prev.len() {
                assert(prev[w] == a);
                let m = choose|m: int|
                    0 <= m < rs.drop_last().len() && (#[trigger] rs.drop_last()[m]).locks.touches(
                        a,
                    );
                assert(rs[m].locks.touches(a));
            } else {
                assert(own[w - prev.len()] == a);
                if w - prev.len() < rs.last().locks.writable@.len() {
                    assert(rs.last().locks.writable@.contains(a));
                } else {
                    assert(rs.last().locks.readonly@.contains(a));
                }
                assert(rs[rs.len() - 1].locks.touches(a));
            }
        }
        if exists|m: int| 0 <= m < rs.len() && (#[trigger] rs[m]).locks.touches(a) {
            let m = choose|m: int| 0 <= m < rs.len() && (#[trigger] rs[m]).locks.touches(a);
            if m < rs.len() - 1 {
                assert(rs.drop_last()[m].locks.touches(a));
                assert(prev.contains(a));
                let w = choose|w: int| 0 <= w < prev.len() && prev[w] == a;
                assert(cur[w] == a);
            } else {
                if rs.last().locks.writable@.contains(a) {
                    let w = choose|w: int|
                        0 <= w < rs.last().locks.writable@.len() && rs.last().locks.writable@[w]
                            == a;
                    assert(own[w] == a);
                    assert(cur[prev.len() + w] == a);
                } else {
                    let w = choose|w: int|
                        0 <= w < rs.last().locks.readonly@.len() && rs.last().locks.readonly@[w]
                            == a;
                    assert(own[rs.last().locks.writable@.len() + w] == a);
                    assert(cur[prev.len() + rs.last().locks.writable@.len() + w] == a);
                }
            }
        }
    }
}

/// An account no record touches keeps its fresh tallies.
pub proof fn lemma_stat_untouched(rs: Seq<TransactionRecord>, a: u64)
    requires
        forall|m: int| 0 <= m < rs.len() ==> !(#[trigger] rs[m]).locks.touches(a),
    ensures
        stat_for(rs, a) == AccountUsageStatistics::new_spec(a),
    decreases rs.len(),
{
    if rs.len() > 0 {
        assert forall|m: int|
            0 <= m < rs.drop_last().len() implies !(#[trigger] rs.drop_last()[m]).locks.touches(
            a,
        ) by {
            assert(rs.drop_last()[m] == rs[m]);
        }
        lemma_stat_untouched(rs.drop_last(), a);
        assert(!rs[rs.len() - 1].locks.touches(a));
    }
}

/// An account outside the seen keys has fresh tallies over the absorbed
/// records.
proof fn lemma_fresh_stat(prefix: Seq<TransactionRecord>, seen: Seq<u64>, a: u64)
    requires
        !dedup_keys(seen).contains(a),
        forall|w: int|
            0 <= w < accounts_of_records(prefix).len() ==> seen.contains(
                #[trigger] accounts_of_records(prefix)[w],
            ),
    ensures
        stat_for(prefix, a) == AccountUsageStatistics::new_spec(a),
{
    lemma_dedup_keys(seen);
    assert(!accounts_of_records(prefix).contains(a)) by {
        if accounts_of_records(prefix).contains(a) {
            let w = choose|w: int|
                0 <= w < accounts_of_records(prefix).len() && accounts_of_records(prefix)[w] == a;
            assert(seen.contains(accounts_of_records(prefix)[w]));
        }
    }
    lemma_accounts_contains(prefix, a);
    assert forall|m: int| 0 <= m < prefix.len() implies !(#[trigger] prefix[m]).locks.touches(
        a,
    ) by {
        if prefix[m].locks.touches(a) {
            assert(exists|m2: int| 0 <= m2 < prefix.len() && (#[trigger] prefix[m2]).locks.touches(a));
        }
    }
    lemma_stat_untouched(prefix, a);
}

/// Applies one access to the account's tallies, entering the account first
/// when it is new. The stats list mirrors `dedup_keys(seen)`, one entry per
/// seen account in first-occurrence order.
fn upsert_stat(
    stats: &mut Vec<AccountUsageStatistics>,
    a: u64,
    is_write: bool,
    priority: u64,
    requested_cus: u64,
    Ghost(seen): Ghost<Seq<u64>>,
)
    requires
        old(stats)@.len() == dedup_keys(seen).len(),
        forall|m: int|
            0 <= m < old(stats)@.len() ==> (#[trigger] old(stats)@[m]).key == dedup_keys(seen)[m],
    ensures
        final(stats)@.len() == dedup_keys(seen.push(a)).len(),
        forall|m: int|
            0 <= m < final(stats)@.len() ==> (#[trigger] final(stats)@[m]).key == dedup_keys(
                seen.push(a),
            )[m],
        dedup_keys(seen).contains(a) ==> {
            &&& final(stats)@.len() == old(stats)@.len()
            &&& forall|m: int|
                0 <= m < final(stats)@.len() ==> #[trigger] final(stats)@[m] == (if old(
                    stats,
                )@[m].key == a {
                    old(stats)@[m].update_spec(is_write, priority, requested_cus)
                } else {
                    old(stats)@[m]
                })
        },
        !dedup_keys(seen).contains(a) ==> {
            &&& final(stats)@.len() == old(stats)@.len() + 1
            &&& forall|m: int|
                0 <= m < old(stats)@.len() ==> #[trigger] final(stats)@[m] == old(stats)@[m]
            &&& final(stats)@.last() == AccountUsageStatistics::new_spec(a).update_spec(
                is_write,
                priority,
                requested_cus,
            )
        },
{
    proof {
        lemma_dedup_keys(seen);
        assert(seen.push(a).drop_last() =~= seen);
        assert(seen.push(a).last() == a);
    }
    let n = stats.len();
    let mut m: usize = 0;
    while m < n
        invariant
            n == stats@.len(),
            stats@ == old(stats)@,
            stats@.len() == dedup_keys(seen).len(),
            forall|w: int|
                0 <= w < stats@.len() ==> (#[trigger] stats@[w]).key == dedup_keys(seen)[w],
            nodup_u64(dedup_keys(seen)),
            0 <= m <= n,
            forall|w: int| 0 <= w < m ==> (#[trigger] stats@[w]).key != a,
        decreases n - m,
    {
        if stats[m].key == a {
            proof {
                assert(dedup_keys(seen)[m as int] == a);
                assert(dedup_keys(seen).contains(a));
                assert(dedup_keys(seen.push(a)) == dedup_keys(seen)) by {
                    assert(seen.push(a).drop_last() =~= seen);
                }
            }
            let mut st = stats[m];
            st.update(is_write, priority, requested_cus);
            stats.set(m, st);
            proof {
                assert forall|w: int|
                    0 <= w < stats@.len() implies #[trigger] stats@[w] == (if old(stats)@[w].key
                    == a {
                    old(stats)@[w].update_spec(is_write, priority, requested_cus)
                } else {
                    old(stats)@[w]
                }) by {
                    if w != m {
                        assert(stats@[w] == old(stats)@[w]);
                        if old(stats)@[w].key == a {
                            assert(dedup_keys(seen)[w] == dedup_keys(seen)[m as int]);
                            assert(false);
                        }
                    }
                }
            }
            return ;
        }
        m += 1;
    }
    proof {
        assert(!dedup_keys(seen).contains(a)) by {
            if dedup_keys(seen).contains(a) {
                let w = choose|w: int|
                    0 <= w < dedup_keys(seen).len() && dedup_keys(seen)[w] == a;
                assert(stats@[w].key == a);
            }
        }
    }
    proof {
        assert(dedup_keys(seen.push(a)) == dedup_keys(seen).push(a)) by {
            assert(seen.push(a).drop_last() =~= seen);
        }
    }
    let mut st = AccountUsageStatistics::new(a);
    st.update(is_write, priority, requested_cus);
    stats.push(st);
}

/// Builds the per-account tallies of a record sequence, keyed by first
/// occurrence.
pub fn build_usage_stats(records: &Vec<TransactionRecord>) -> (stats: Vec<
    AccountUsageStatistics,
>)
    requires
        forall|m: int| 0 <= m < records@.len() ==> (#[trigger] records@[m]).locks.wf(),
    ensures
        stats@ == usage_stats(records@),
{
    let ghost rs = records@;
    let mut stats: Vec<AccountUsageStatistics> = Vec::new();
    let mut k: usize = 0;
    while k < records.len()
        invariant
            rs == records@,
            forall|m: int| 0 <= m < rs.len() ==> (#[trigger] rs[m]).locks.wf(),
            0 <= k <= rs.len(),
            stats@.len() == usage_accounts(rs.take(k as int)).len(),
            forall|m: int|
                0 <= m < stats@.len() ==> (#[trigger] stats@[m]).key == usage_accounts(
                    rs.take(k as int),
                )[m],
            forall|m: int|
                0 <= m < stats@.len() ==> #[trigger] stats@[m] == stat_for(
                    rs.take(k as int),
                    stats@[m].key,
                ),
        decreases rs.len() - k,
    {
        let rec = &records[k];
        proof {
            assert(rs.take(k + 1 as int).drop_last() =~= rs.take(k as int));
            assert(rs.take(k + 1 as int).last() == rs[k as int]);
            assert(rs[k as int].locks.wf());
        }
        let ghost prefix = rs.take(k as int);
        let ghost prefix_accounts = accounts_of_records(prefix);
        let mut wi: usize = 0;
        while wi < rec.locks.writable.len()
            invariant
                rs == records@,
                0 <= k < rs.len(),
                rec == &rs[k as int],
                rs[k as int].locks.wf(),
                prefix == rs.take(k as int),
                prefix_accounts == accounts_of_records(prefix),
                0 <= wi <= rec.locks.writable@.len(),
                stats@.len() == dedup_keys(
                    prefix_accounts + rec.locks.writable@.take(wi as int),
                ).len(),
                forall|m: int|
                    0 <= m < stats@.len() ==> (#[trigger] stats@[m]).key == dedup_keys(
                        prefix_accounts + rec.locks.writable@.take(wi as int),
                    )[m],
                forall|m: int|
                    0 <= m < stats@.len() ==> #[trigger] stats@[m] == (if rec.locks.writable@.take(
                        wi as int,
                    ).contains(stats@[m].key) {
                        record_applies(stat_for(prefix, stats@[m].key), rs[k as int], stats@[m].key)
                    } else {
                        stat_for(prefix, stats@[m].key)
                    }),
            decreases rec.locks.writable@.len() - wi,
        {
            let a = rec.locks.writable[wi];
            let ghost seen = prefix_accounts + rec.locks.writable@.take(wi as int);
            let ghost stats_old = stats@;
            proof {
                assert(seen.push(a) =~= prefix_accounts + rec.locks.writable@.take(wi + 1 as int));
                assert(!rec.locks.writable@.take(wi as int).contains(a)) by {
                    if rec.locks.writable@.take(wi as int).contains(a) {
                        let w = choose|w: int|
                            0 <= w < wi && rec.locks.writable@.take(wi as int)[w] == a;
                        assert(rec.locks.writable@[w] == rec.locks.writable@[wi as int]);
                    }
                }
                assert(rec.locks.writable@[wi as int] == a);
                assert(rec.locks.writes(a));
            }
            upsert_stat(&mut stats, a, true, rec.priority, rec.requested_cus, Ghost(seen));
            proof {
                lemma_dedup_keys(seen);
                if !dedup_keys(seen).contains(a) {
                    assert forall|w: int|
                        0 <= w < prefix_accounts.len() implies seen.contains(
                        #[trigger] prefix_accounts[w],
                    ) by {
                        assert(seen[w] == prefix_accounts[w]);
                    }
                    lemma_fresh_stat(prefix, seen, a);
                } else {
                    assert(seen.contains(a));
                    assert(!(prefix_accounts + rec.locks.writable@.take(wi as int)).contains(a)
                        ==> false);
                }
                let pnew = rec.locks.writable@.take(wi + 1 as int);
                let pold = rec.locks.writable@.take(wi as int);
                assert(pnew.drop_last() =~= pold);
                assert forall|m: int|
                    0 <= m < stats@.len() implies #[trigger] stats@[m] == (if pnew.contains(
                    stats@[m].key,
                ) {
                    record_applies(stat_for(prefix, stats@[m].key), rs[k as int], stats@[m].key)
                } else {
                    stat_for(prefix, stats@[m].key)
                }) by {
                    let key = stats@[m].key;
                    assert(pnew.contains(key) == (pold.contains(key) || key == a)) by {
                        if pnew.contains(key) {
                            let w = choose|w: int| 0 <= w < pnew.len() && pnew[w] == key;
                            if w < pold.len() {
                                assert(pold[w] == key);
                            }
                        }
                        if pold.contains(key) {
                            let w = choose|w: int| 0 <= w < pold.len() && pold[w] == key;
                            assert(pnew[w] == key);
                        }
                        if key == a {
                            assert(pnew[wi as int] == key);
                        }
                    }
                    if key == a {
                        if dedup_keys(seen).contains(a) {
                            // the account already had an entry, untouched by
                            // this record so far
                            let w = choose|w: int|
                                0 <= w < stats_old.len() && stats_old[w].key == a;
                            assert(stats@[m] == (if stats_old[m].key == a {
                                stats_old[m].update_spec(true, rec.priority, rec.requested_cus)
                            } else {
                                stats_old[m]
                            }));
                            assert(stats_old[m].key == key);
                            assert(stats_old[m] == stat_for(prefix, a));
                            assert(record_applies(stat_for(prefix, a), rs[k as int], a) == stat_for(
                                prefix,
                                a,
                            ).update_spec(true, rs[k as int].priority, rs[k as int].requested_cus));
                        } else {
                            if m < stats_old.len() {
                                assert(stats@[m] == stats_old[m]);
                                assert(stats_old[m].key == dedup_keys(seen)[m]);
                                assert(dedup_keys(seen).contains(a));
                                assert(false);
                            } else {
                                assert(stats@[m] == stats@.last());
                                assert(stat_for(prefix, a)
                                    == AccountUsageStatistics::new_spec(a));
                                assert(record_applies(stat_for(prefix, a), rs[k as int], a)
                                    == stat_for(prefix, a).update_spec(
                                    true,
                                    rs[k as int].priority,
                                    rs[k as int].requested_cus,
                                ));
                            }
                        }
                    } else {
                        if dedup_keys(seen).contains(a) {
                            assert(stats@[m] == (if stats_old[m].key == a {
                                stats_old[m].update_spec(true, rec.priority, rec.requested_cus)
                            } else {
                                stats_old[m]
                            }));
                            assert(stats_old[m].key != a || stats_old[m].key == key);
                            assert(stats@[m] == stats_old[m]);
                        } else {
                            if m < stats_old.len() {
                                assert(stats@[m] == stats_old[m]);
                            } else {
                                assert(stats@[m].key == a);
                                assert(false);
                            }
                        }
                    }
                }
            }
            wi += 1;
        }
        let ghost wdone = prefix_accounts + rec.locks.writable@;
        proof {
            assert(prefix_accounts + rec.locks.writable@.take(rec.locks.writable@.len() as int)
                =~= wdone);
            assert forall|m: int|
                0 <= m < stats@.len() implies #[trigger] stats@[m] == (if (
            rec.locks.writable@.contains(stats@[m].key) || rec.locks.readonly@.take(
                0,
            ).contains(stats@[m].key)) {
                record_applies(stat_for(prefix, stats@[m].key), rs[k as int], stats@[m].key)
            } else {
                stat_for(prefix, stats@[m].key)
            }) by {
                assert(rec.locks.writable@.take(rec.locks.writable@.len() as int) =~= rec.locks.writable@);
            }
        }
        let mut ri: usize = 0;
        while ri < rec.locks.readonly.len()
            invariant
                rs == records@,
                0 <= k < rs.len(),
                rec == &rs[k as int],
                rs[k as int].locks.wf(),
                prefix == rs.take(k as int),
                prefix_accounts == accounts_of_records(prefix),
                wdone == prefix_accounts + rec.locks.writable@,
                0 <= ri <= rec.locks.readonly@.len(),
                stats@.len() == dedup_keys(wdone + rec.locks.readonly@.take(ri as int)).len(),
                forall|m: int|
                    0 <= m < stats@.len() ==> (#[trigger] stats@[m]).key == dedup_keys(
                        wdone + rec.locks.readonly@.take(ri as int),
                    )[m],
                forall|m: int|
                    0 <= m < stats@.len() ==> #[trigger] stats@[m] == (if (
                    rec.locks.writable@.contains(stats@[m].key) || rec.locks.readonly@.take(
                        ri as int,
                    ).contains(stats@[m].key)) {
                        record_applies(stat_for(prefix, stats@[m].key), rs[k as int], stats@[m].key)
                    } else {
                        stat_for(prefix, stats@[m].key)
                    }),
            decreases rec.locks.readonly@.len() - ri,
        {
            let a = rec.locks.readonly[ri];
            let ghost seen = wdone + rec.locks.readonly@.take(ri as int);
            let ghost stats_old = stats@;
            proof {
                assert(seen.push(a) =~= wdone + rec.locks.readonly@.take(ri + 1 as int));
                assert(!rec.locks.readonly@.take(ri as int).contains(a)) by {
                    if rec.locks.readonly@.take(ri as int).contains(a) {
                        let w = choose|w: int|
                            0 <= w < ri && rec.locks.readonly@.take(ri as int)[w] == a;
                        assert(rec.locks.readonly@[w] == rec.locks.readonly@[ri as int]);
                    }
                }
                assert(rec.locks.readonly@[ri as int] == a);
                assert(rec.locks.reads(a));
                assert(!rec.locks.writes(a)) by {
                    if rec.locks.writes(a) {
                        assert(rs[k as int].locks.wf());
                    }
                }
            }
            upsert_stat(&mut stats, a, false, rec.priority, rec.requested_cus, Ghost(seen));
            proof {
                lemma_dedup_keys(seen);
                if !dedup_keys(seen).contains(a) {
                    assert forall|w: int|
                        0 <= w < prefix_accounts.len() implies seen.contains(
                        #[trigger] prefix_accounts[w],
                    ) by {
                        assert(seen[w] == prefix_accounts[w]);
                    }
                    lemma_fresh_stat(prefix, seen, a);
                }
                let pnew = rec.locks.readonly@.take(ri + 1 as int);
                let pold = rec.locks.readonly@.take(ri as int);
                assert(pnew.drop_last() =~= pold);
                assert forall|m: int|
                    0 <= m < stats@.len() implies #[trigger] stats@[m] == (if (
                rec.locks.writable@.contains(stats@[m].key) || pnew.contains(stats@[m].key)) {
                    record_applies(stat_for(prefix, stats@[m].key), rs[k as int], stats@[m].key)
                } else {
                    stat_for(prefix, stats@[m].key)
                }) by {
                    let key = stats@[m].key;
                    assert(pnew.contains(key) == (pold.contains(key) || key == a)) by {
                        if pnew.contains(key) {
                            let w = choose|w: int| 0 <= w < pnew.len() && pnew[w] == key;
                            if w < pold.len() {
                                assert(pold[w] == key);
                            }
                        }
                        if pold.contains(key) {
                            let w = choose|w: int| 0 <= w < pold.len() && pold[w] == key;
                            assert(pnew[w] == key);
                        }
                        if key == a {
                            assert(pnew[ri as int] == key);
                        }
                    }
                    if key == a {
                        assert(!rec.locks.writable@.contains(a));
                        if dedup_keys(seen).contains(a) {
                            assert(stats@[m] == (if stats_old[m].key == a {
                                stats_old[m].update_spec(false, rec.priority, rec.requested_cus)
                            } else {
                                stats_old[m]
                            }));
                            assert(stats_old[m].key == key);
                            assert(stats_old[m] == stat_for(prefix, a)) by {
                                if rec.locks.writable@.contains(a) || pold.contains(a) {
                                    assert(false);
                                }
                            }
                            assert(record_applies(stat_for(prefix, a), rs[k as int], a) == stat_for(
                                prefix,
                                a,
                            ).update_spec(
                                false,
                                rs[k as int].priority,
                                rs[k as int].requested_cus,
                            ));
                        } else {
                            if m < stats_old.len() {
                                assert(stats@[m] == stats_old[m]);
                                assert(stats_old[m].key == dedup_keys(seen)[m]);
                                assert(dedup_keys(seen).contains(a));
                                assert(false);
                            } else {
                                assert(stats@[m] == stats@.last());
                                assert(stat_for(prefix, a)
                                    == AccountUsageStatistics::new_spec(a));
                            }
                        }
                    } else {
                        if dedup_keys(seen).contains(a) {
                            assert(stats@[m] == (if stats_old[m].key == a {
                                stats_old[m].update_spec(false, rec.priority, rec.requested_cus)
                            } else {
                                stats_old[m]
                            }));
                            assert(stats@[m] == stats_old[m]);
                        } else {
                            if m < stats_old.len() {
                                assert(stats@[m] == stats_old[m]);
                            } else {
                                assert(stats@[m].key == a);
                                assert(false);
                            }
                        }
                    }
                }
            }
            ri += 1;
        }
        proof {
            let own = rs[k as int].locks.writable@ + rs[k as int].locks.readonly@;
            assert(wdone + rec.locks.readonly@.take(rec.locks.readonly@.len() as int)
                =~= prefix_accounts + own);
            assert(accounts_of_records(rs.take(k + 1 as int)) == prefix_accounts + own);
            assert forall|m: int|
                0 <= m < stats@.len() implies #[trigger] stats@[m] == stat_for(
                rs.take(k + 1 as int),
                stats@[m].key,
            ) by {
                let key = stats@[m].key;
                assert(stat_for(rs.take(k + 1 as int), key) == record_applies(
                    stat_for(prefix, key),
                    rs[k as int],
                    key,
                ));
                assert(rec.locks.readonly@.take(rec.locks.readonly@.len() as int)
                    =~= rec.locks.readonly@);
                if !(rec.locks.writable@.contains(key) || rec.locks.readonly@.contains(key)) {
                    assert(!rs[k as int].locks.touches(key));
                    assert(record_applies(stat_for(prefix, key), rs[k as int], key) == stat_for(
                        prefix,
                        key,
                    ));
                }
            }
        }
        k += 1;
    }
    proof {
        assert(rs.take(rs.len() as int) =~= rs);
        assert(stats@ =~= usage_stats(rs)) by {
            assert forall|m: int| 0 <= m < stats@.len() implies stats@[m] == usage_stats(rs)[m] by {
                assert(stats@[m].key == usage_accounts(rs)[m]);
            }
        }
    }
    stats
}

/// Write-usage tallies never increase along the sequence.
pub open spec fn writes_sorted(s: Seq<AccountUsageStatistics>) -> bool {
    forall|m1: int, m2: int| 0 <= m1 < m2 < s.len() ==> s[m1].num_writes >= s[m2].num_writes
}

/// The stable insertion of `x` into a sequence sorted by write usage
/// descending.
pub open spec fn stats_stable_insert(
    s: Seq<AccountUsageStatistics>,
    x: AccountUsageStatistics,
) -> Seq<AccountUsageStatistics>
    decreases s.len(),
{
    if s.len() == 0 {
        seq![x]
    } else if s.last().num_writes >= x.num_writes {
        s.push(x)
    } else {
        stats_stable_insert(s.drop_last(), x).push(s.last())
    }
}

/// The tallies sorted by write usage descending; equal tallies keep their
/// first-occurrence order.
pub open spec fn stats_sorted_spec(s: Seq<AccountUsageStatistics>) -> Seq<AccountUsageStatistics>
    decreases s.len(),
{
    if s.len() == 0 {
        Seq::empty()
    } else {
        stats_stable_insert(stats_sorted_spec(s.drop_last()), s.last())
    }
}

/// Stable insertion preserves any pointwise property, and adds one element.
pub proof fn lemma_stats_insert_all(
    s: Seq<AccountUsageStatistics>,
    x: AccountUsageStatistics,
    p: spec_fn(AccountUsageStatistics) -> bool,
)
    requires
        forall|m: int| 0 <= m < s.len() ==> p(#[trigger] s[m]),
        p(x),
    ensures
        stats_stable_insert(s, x).len() == s.len() + 1,
        forall|i: int| 0 <= i < s.len() + 1 ==> p(#[trigger] stats_stable_insert(s, x)[i]),
    decreases s.len(),
{
    if s.len() == 0 {
    } else if s.last().num_writes >= x.num_writes {
        assert forall|i: int|
            0 <= i < s.len() + 1 implies p(#[trigger] stats_stable_insert(s, x)[i]) by {
            if i < s.len() {
                assert(stats_stable_insert(s, x)[i] == s[i]);
            } else {
                assert(stats_stable_insert(s, x)[i] == x);
            }
        }
    } else {
        assert forall|m: int|
            0 <= m < s.drop_last().len() implies p(#[trigger] s.drop_last()[m]) by {
            assert(s.drop_last()[m] == s[m]);
        }
        lemma_stats_insert_all(s.drop_last(), x, p);
        let rec = stats_stable_insert(s.drop_last(), x);
        assert forall|i: int|
            0 <= i < s.len() + 1 implies p(#[trigger] stats_stable_insert(s, x)[i]) by {
            if i < rec.len() {
                assert(stats_stable_insert(s, x)[i] == rec[i]);
            } else {
                assert(stats_stable_insert(s, x)[i] == s.last());
            }
        }
    }
}

/// Stable insertion into a sorted sequence keeps it sorted.
pub proof fn lemma_stats_insert_sorted(s: Seq<AccountUsageStatistics>, x: AccountUsageStatistics)
    requires
        writes_sorted(s),
    ensures
        writes_sorted(stats_stable_insert(s, x)),
        stats_stable_insert(s, x).len() == s.len() + 1,
    decreases s.len(),
{
    lemma_stats_insert_all(s, x, |r: AccountUsageStatistics| true);
    if s.len() == 0 {
    } else if s.last().num_writes >= x.num_writes {
        assert forall|m1: int, m2: int|
            0 <= m1 < m2 < s.len() + 1 implies stats_stable_insert(s, x)[m1].num_writes
            >= stats_stable_insert(s, x)[m2].num_writes by {
            if m2 < s.len() {
                assert(stats_stable_insert(s, x)[m1] == s[m1] && stats_stable_insert(s, x)[m2]
                    == s[m2]);
            } else {
                assert(stats_stable_insert(s, x)[m2] == x);
                assert(stats_stable_insert(s, x)[m1] == s[m1]);
                assert(s[m1].num_writes >= s.last().num_writes);
            }
        }
    } else {
        assert forall|m1: int, m2: int|
            0 <= m1 < m2 < s.drop_last().len() implies s.drop_last()[m1].num_writes
            >= s.drop_last()[m2].num_writes by {
            assert(s.drop_last()[m1] == s[m1] && s.drop_last()[m2] == s[m2]);
        }
        lemma_stats_insert_sorted(s.drop_last(), x);
        let rec = stats_stable_insert(s.drop_last(), x);
        let ghost bound = s.last().num_writes;
        assert forall|i: int| 0 <= i < rec.len() implies (#[trigger] rec[i]).num_writes
            >= bound by {
            lemma_stats_insert_all(
                s.drop_last(),
                x,
                |r: AccountUsageStatistics| r.num_writes >= bound,
            );
            assert forall|m: int|
                0 <= m < s.drop_last().len() implies (#[trigger] s.drop_last()[m]).num_writes
                >= bound by {
                assert(s.drop_last()[m] == s[m]);
                assert(s[m].num_writes >= s.last().num_writes);
            }
        }
        assert forall|m1: int, m2: int|
            0 <= m1 < m2 < s.len() + 1 implies stats_stable_insert(s, x)[m1].num_writes
            >= stats_stable_insert(s, x)[m2].num_writes by {
            if m2 < rec.len() {
                assert(stats_stable_insert(s, x)[m1] == rec[m1] && stats_stable_insert(s, x)[m2]
                    == rec[m2]);
            } else {
                assert(stats_stable_insert(s, x)[m2] == s.last());
                assert(stats_stable_insert(s, x)[m1] == rec[m1]);
            }
        }
    }
}

/// The sorted tallies are sorted by write usage descending.
pub proof fn lemma_stats_sorted(s: Seq<AccountUsageStatistics>)
    ensures
        stats_sorted_spec(s).len() == s.len(),
        writes_sorted(stats_sorted_spec(s)),
    decreases s.len(),
{
    if s.len() > 0 {
        lemma_stats_sorted(s.drop_last());
        lemma_stats_insert_sorted(stats_sorted_spec(s.drop_last()), s.last());
    }
}

/// Where the exec insertion lands `x`.
proof fn lemma_stats_insert_split(
    s: Seq<AccountUsageStatistics>,
    x: AccountUsageStatistics,
    pos: int,
)
    requires
        0 <= pos <= s.len(),
        pos > 0 ==> s[pos - 1].num_writes >= x.num_writes,
        forall|m: int| pos <= m < s.len() ==> s[m].num_writes < x.num_writes,
    ensures
        stats_stable_insert(s, x) == s.insert(pos, x),
    decreases s.len() - pos,
{
    if pos == s.len() {
        if s.len() == 0 {
            assert(stats_stable_insert(s, x) =~= s.insert(pos, x));
        } else {
            assert(s.last().num_writes >= x.num_writes);
            assert(stats_stable_insert(s, x) == s.push(x));
            assert(s.push(x) =~= s.insert(pos, x));
        }
    } else {
        assert(s.last().num_writes < x.num_writes);
        let d = s.drop_last();
        assert forall|m: int| pos <= m < d.len() implies d[m].num_writes < x.num_writes by {
            assert(d[m] == s[m]);
        }
        if pos > 0 {
            assert(d[pos - 1] == s[pos - 1]);
        }
        lemma_stats_insert_split(d, x, pos);
        assert(stats_stable_insert(s, x) == d.insert(pos, x).push(s.last()));
        assert(d.insert(pos, x).push(s.last()) =~= s.insert(pos, x));
    }
}

/// Sorts the tallies by write usage, highest first; equal tallies keep their
/// first-occurrence order.
pub fn sort_usage_stats(stats: Vec<AccountUsageStatistics>) -> (r: Vec<AccountUsageStatistics>)
    ensures
        r@ == stats_sorted_spec(stats@),
{
    let ghost orig = stats@;
    let mut out: Vec<AccountUsageStatistics> = Vec::new();
    let mut k: usize = 0;
    while k < stats.len()
        invariant
            orig == stats@,
            0 <= k <= orig.len(),
            out@ == stats_sorted_spec(orig.take(k as int)),
        decreases orig.len() - k,
    {
        let x = stats[k];
        let mut idx: usize = out.len();
        while idx > 0 && out[idx - 1].num_writes < x.num_writes
            invariant
                0 <= idx <= out@.len(),
                forall|m: int| idx <= m < out@.len() ==> out@[m].num_writes < x.num_writes,
            decreases idx,
        {
            idx -= 1;
        }
        proof {
            lemma_stats_insert_split(out@, x, idx as int);
            assert(orig.take(k + 1 as int).drop_last() =~= orig.take(k as int));
            assert(orig.take(k + 1 as int).last() == orig[k as int]);
        }
        out.insert(idx, x);
        k += 1;
    }
    proof {
        assert(orig.take(orig.len() as int) =~= orig);
    }
    out
}

/// The usage tallies read nothing a view-equal record hides, so view-equal
/// record sequences have equal tallies.
pub proof fn lemma_usage_view_equal(rs1: Seq<TransactionRecord>, rs2: Seq<TransactionRecord>)
    requires
        records_view_equal(rs1, rs2),
    ensures
        usage_stats(rs1) == usage_stats(rs2),
    decreases rs1.len(),
{
    lemma_accounts_view_equal(rs1, rs2);
    assert forall|a: u64| true implies #[trigger] stat_for(rs1, a) == stat_for(rs2, a) by {
        lemma_stat_for_view_equal(rs1, rs2, a);
    }
    assert(usage_stats(rs1) =~= usage_stats(rs2));
}

proof fn lemma_accounts_view_equal(rs1: Seq<TransactionRecord>, rs2: Seq<TransactionRecord>)
    requires
        records_view_equal(rs1, rs2),
    ensures
        accounts_of_records(rs1) == accounts_of_records(rs2),
    decreases rs1.len(),
{
    if rs1.len() > 0 {
        assert forall|m: int|
            0 <= m < rs1.drop_last().len() implies record_view_equal(
            #[trigger] rs1.drop_last()[m],
            rs2.drop_last()[m],
        ) by {
            assert(rs1.drop_last()[m] == rs1[m] && rs2.drop_last()[m] == rs2[m]);
            assert(record_view_equal(rs1[m], rs2[m]));
        }
        lemma_accounts_view_equal(rs1.drop_last(), rs2.drop_last());
        assert(record_view_equal(rs1.last(), rs2.last()));
    }
}

proof fn lemma_stat_for_view_equal(rs1: Seq<TransactionRecord>, rs2: Seq<TransactionRecord>, a: u64)
    requires
        records_view_equal(rs1, rs2),
    ensures
        stat_for(rs1, a) == stat_for(rs2, a),
    decreases rs1.len(),
{
    if rs1.len() > 0 {
        assert forall|m: int|
            0 <= m < rs1.drop_last().len() implies record_view_equal(
            #[trigger] rs1.drop_last()[m],
            rs2.drop_last()[m],
        ) by {
            assert(rs1.drop_last()[m] == rs1[m] && rs2.drop_last()[m] == rs2[m]);
            assert(record_view_equal(rs1[m], rs2[m]));
        }
        lemma_stat_for_view_equal(rs1.drop_last(), rs2.drop_last(), a);
        assert(record_view_equal(rs1.last(), rs2.last()));
        assert(rs1.last().locks.writes(a) == rs2.last().locks.writes(a));
        assert(rs1.last().locks.reads(a) == rs2.last().locks.reads(a));
    }
}

/// How one event advances the per-range accumulation: non-vote batch groups
/// are buffered; an in-range boundary clears the buffer, so the report covers
/// the packets after the last in-range boundary; a boundary beyond the range
/// finishes the handler.
pub open spec fn usage_step(
    range: SlotRange,
    buf: Seq<Vec<Vec<PacketRecord>>>,
    done: bool,
    ev: TimedTracedEvent,
) -> (Seq<Vec<Vec<PacketRecord>>>, bool) {
    if done {
        (buf, true)
    } else {
        match ev.1 {
            TracedEvent::PacketBatch(label, b) => match label {
                ChannelLabel::NonVote => (buf.push(b), false),
                ChannelLabel::Vote => (buf, false),
            },
            TracedEvent::BlockAndBankHash(s) => if !range.spec_contains(s) {
                if s > range.end_slot {
                    (buf, true)
                } else {
                    (buf, false)
                }
            } else {
                (Seq::empty(), false)
            },
        }
    }
}

/// The accumulation state after a whole event sequence.
pub open spec fn usage_fold(range: SlotRange, evs: Seq<TimedTracedEvent>) -> (
    Seq<Vec<Vec<PacketRecord>>>,
    bool,
)
    decreases evs.len(),
{
    if evs.len() == 0 {
        (Seq::empty(), false)
    } else {
        let st = usage_fold(range, evs.drop_last());
        usage_step(range, st.0, st.1, evs.last())
    }
}

/// The report of a record sequence: the per-account tallies, sorted by write
/// usage descending.
pub open spec fn usage_report_spec(rs: Seq<TransactionRecord>) -> Seq<AccountUsageStatistics> {
    stats_sorted_spec(usage_stats(rs))
}

/// Accumulates the non-vote packet batches of the slots in a range; the
/// report tallies the packets buffered since the last in-range boundary.
pub struct AccountUsageHandler {
    /// The inclusive slot range the analysis covers.
    pub range: SlotRange,
    /// The batch groups buffered since the last in-range boundary.
    pub current_packet_batches: Vec<Vec<Vec<PacketRecord>>>,
    /// Whether a slot beyond the range has been finalized.
    pub done: bool,
}

impl AccountUsageHandler {
    /// A fresh handler for the given slot range.
    pub fn new(slot_range: SlotRange) -> (h: AccountUsageHandler)
        ensures
            h.range == slot_range,
            h.current_packet_batches@.len() == 0,
            !h.done,
    {
        AccountUsageHandler { range: slot_range, current_packet_batches: Vec::new(), done: false }
    }

    /// Feeds one event through the accumulation step.
    pub fn handle_event(&mut self, event: TimedTracedEvent)
        ensures
            final(self).range == old(self).range,
            ({
                let st = usage_step(
                    old(self).range,
                    old(self).current_packet_batches@,
                    old(self).done,
                    event,
                );
                final(self).current_packet_batches@ == st.0 && final(self).done == st.1
            }),
    {
        if self.done {
            return ;
        }
        match event.1 {
            TracedEvent::PacketBatch(label, batches) => {
                match label {
                    ChannelLabel::NonVote => {
                        self.current_packet_batches.push(batches);
                    },
                    ChannelLabel::Vote => {},
                }
            },
            TracedEvent::BlockAndBankHash(slot) => {
                if !self.range.contains(slot) {
                    if slot > self.range.end_slot {
                        self.done = true;
                    }
                } else {
                    self.current_packet_batches.clear();
                }
            },
        }
    }

    /// The per-account usage tallies of the buffered transactions, sorted by
    /// write usage descending.
    pub fn report(&self) -> (r: Vec<AccountUsageStatistics>)
        requires
            groups_wf(self.current_packet_batches@),
        ensures
            r@ == usage_report_spec(records_of_groups(self.current_packet_batches@)),
    {
        let ghost spec_rs = records_of_groups(self.current_packet_batches@);
        let rs = collect_records(&self.current_packet_batches);
        proof {
            lemma_usage_view_equal(rs@, spec_rs);
        }
        let stats = build_usage_stats(&rs);
        sort_usage_stats(stats)
    }
}

/// Replays a trace for a slot range and returns the per-account usage
/// tallies of the packets buffered since the last in-range boundary, sorted
/// by write usage descending.
pub fn account_usage(events: Vec<TimedTracedEvent>, slot_range: SlotRange) -> (r: Vec<
    AccountUsageStatistics,
>)
    requires
        crate::event::events_wf(events@),
    ensures
        r@ == usage_report_spec(records_of_groups(usage_fold(slot_range, events@).0)),
{
    let ghost evs = events@;
    let n0 = events.len();
    proof {
        assert(evs.len() == n0);
    }
    let mut handler = AccountUsageHandler::new(slot_range);
    let mut rest = events;
    let mut k: usize = 0;
    while rest.len() > 0
        invariant
            evs.len() <= usize::MAX,
            crate::event::events_wf(evs),
            k as int + rest@.len() == evs.len(),
            rest@ == evs.subrange(k as int, evs.len() as int),
            handler.range == slot_range,
            handler.current_packet_batches@ == usage_fold(slot_range, evs.take(k as int)).0,
            handler.done == usage_fold(slot_range, evs.take(k as int)).1,
            groups_wf(handler.current_packet_batches@),
        decreases rest@.len(),
    {
        let ev = rest.remove(0);
        proof {
            assert(ev == evs[k as int]);
            assert(rest@ =~= evs.subrange(k as int + 1, evs.len() as int));
            assert(evs.take(k + 1 as int).drop_last() =~= evs.take(k as int));
            assert(evs.take(k + 1 as int).last() == evs[k as int]);
            assert(crate::event::event_wf(evs[k as int]));
        }
        let ghost buf_old = handler.current_packet_batches@;
        handler.handle_event(ev);
        proof {
            assert forall|g: int|
                0 <= g < handler.current_packet_batches@.len() implies crate::event::batches_wf(
                (#[trigger] handler.current_packet_batches@[g])@,
            ) by {
                if g < buf_old.len() {
                    assert(handler.current_packet_batches@[g] == buf_old[g]);
                }
            }
        }
        k += 1;
    }
    proof {
        assert(evs.take(evs.len() as int) =~= evs);
    }
    handler.report()
}

} // verus!
