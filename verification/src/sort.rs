use crate::graphia_input::TransactionRecord;
use vstd::prelude::*;

verus! {

// The per-unit driver sorts a slot's decoded transactions by priority,
// highest first, before feeding them to the conflict-graph builder; among
// equal priorities the original arrival order is kept, so the builder's
// tie-break by insertion index preserves it.

/// Priorities never increase along the sequence.
pub open spec fn priority_sorted(s: Seq<TransactionRecord>) -> bool {
    forall|m1: int, m2: int|
        0 <= m1 < m2 < s.len() ==> s[m1].priority >= s[m2].priority
}

/// The stable insertion of `x` into a sequence sorted by priority descending:
/// `x` lands right after the last element with priority at least its own.
pub open spec fn stable_insert(
    s: Seq<TransactionRecord>,
    x: TransactionRecord,
) -> Seq<TransactionRecord>
    decreases s.len(),
{
    if s.len() == 0 {
        seq![x]
    } else if s.last().priority >= x.priority {
        s.push(x)
    } else {
        stable_insert(s.drop_last(), x).push(s.last())
    }
}

/// The records sorted by priority descending; equal priorities keep their
/// arrival order.
pub open spec fn sorted_by_priority(s: Seq<TransactionRecord>) -> Seq<TransactionRecord>
    decreases s.len(),
{
    if s.len() == 0 {
        Seq::empty()
    } else {
        stable_insert(sorted_by_priority(s.drop_last()), s.last())
    }
}

/// Stable insertion preserves any pointwise property.
pub proof fn lemma_stable_insert_all(
    s: Seq<TransactionRecord>,
    x: TransactionRecord,
    p: spec_fn(TransactionRecord) -> bool,
)
    requires
        forall|m: int| 0 <= m < s.len() ==> p(#[trigger] s[m]),
        p(x),
    ensures
        stable_insert(s, x).len() == s.len() + 1,
        forall|i: int| 0 <= i < s.len() + 1 ==> p(#[trigger] stable_insert(s, x)[i]),
    decreases s.len(),
{
    if s.len() == 0 {
    } else if s.last().priority >= x.priority {
        assert forall|i: int| 0 <= i < s.len() + 1 implies p(#[trigger] stable_insert(s, x)[i]) by {
            if i < s.len() {
                assert(stable_insert(s, x)[i] == s[i]);
            } else {
                assert(stable_insert(s, x)[i] == x);
            }
        }
    } else {
        assert forall|m: int| 0 <= m < s.drop_last().len() implies p(#[trigger] s.drop_last()[m]) by {
            assert(s.drop_last()[m] == s[m]);
        }
        lemma_stable_insert_all(s.drop_last(), x, p);
        let rec = stable_insert(s.drop_last(), x);
        assert forall|i: int| 0 <= i < s.len() + 1 implies p(#[trigger] stable_insert(s, x)[i]) by {
            if i < rec.len() {
                assert(stable_insert(s, x)[i] == rec[i]);
            } else {
                assert(stable_insert(s, x)[i] == s.last());
            }
        }
    }
}

/// Sorting preserves any pointwise property, and the length.
pub proof fn lemma_sorted_all(s: Seq<TransactionRecord>, p: spec_fn(TransactionRecord) -> bool)
    requires
        forall|m: int| 0 <= m < s.len() ==> p(#[trigger] s[m]),
    ensures
        sorted_by_priority(s).len() == s.len(),
        forall|i: int| 0 <= i < s.len() ==> p(#[trigger] sorted_by_priority(s)[i]),
    decreases s.len(),
{
    if s.len() > 0 {
        assert forall|m: int| 0 <= m < s.drop_last().len() implies p(#[trigger] s.drop_last()[m]) by {
            assert(s.drop_last()[m] == s[m]);
        }
        lemma_sorted_all(s.drop_last(), p);
        lemma_stable_insert_all(sorted_by_priority(s.drop_last()), s.last(), p);
    }
}

/// Stable insertion into a sorted sequence keeps it sorted.
pub proof fn lemma_stable_insert_sorted(s: Seq<TransactionRecord>, x: TransactionRecord)
    requires
        priority_sorted(s),
    ensures
        priority_sorted(stable_insert(s, x)),
        stable_insert(s, x).len() == s.len() + 1,
    decreases s.len(),
{
    lemma_stable_insert_all(s, x, |r: TransactionRecord| true);
    if s.len() == 0 {
    } else if s.last().priority >= x.priority {
        assert forall|m1: int, m2: int|
            0 <= m1 < m2 < s.len() + 1 implies stable_insert(s, x)[m1].priority >= stable_insert(
            s,
            x,
        )[m2].priority by {
            if m2 < s.len() {
                assert(stable_insert(s, x)[m1] == s[m1] && stable_insert(s, x)[m2] == s[m2]);
            } else {
                assert(stable_insert(s, x)[m2] == x);
                assert(stable_insert(s, x)[m1] == s[m1]);
                assert(s[m1].priority >= s.last().priority);
            }
        }
    } else {
        assert forall|m1: int, m2: int|
            0 <= m1 < m2 < s.drop_last().len() implies s.drop_last()[m1].priority
            >= s.drop_last()[m2].priority by {
            assert(s.drop_last()[m1] == s[m1] && s.drop_last()[m2] == s[m2]);
        }
        lemma_stable_insert_sorted(s.drop_last(), x);
        let rec = stable_insert(s.drop_last(), x);
        let ghost bound = s.last().priority;
        assert forall|i: int| 0 <= i < rec.len() implies (#[trigger] rec[i]).priority >= bound by {
            lemma_stable_insert_all(
                s.drop_last(),
                x,
                |r: TransactionRecord| r.priority >= bound,
            );
            assert forall|m: int|
                0 <= m < s.drop_last().len() implies (#[trigger] s.drop_last()[m]).priority
                >= bound by {
                assert(s.drop_last()[m] == s[m]);
                assert(s[m].priority >= s.last().priority);
            }
        }
        assert forall|m1: int, m2: int|
            0 <= m1 < m2 < s.len() + 1 implies stable_insert(s, x)[m1].priority >= stable_insert(
            s,
            x,
        )[m2].priority by {
            if m2 < rec.len() {
                assert(stable_insert(s, x)[m1] == rec[m1] && stable_insert(s, x)[m2] == rec[m2]);
            } else {
                assert(stable_insert(s, x)[m2] == s.last());
                assert(stable_insert(s, x)[m1] == rec[m1]);
            }
        }
    }
}

/// The sort's outcome is sorted by priority descending.
pub proof fn lemma_sorted_by_priority_sorted(s: Seq<TransactionRecord>)
    ensures
        sorted_by_priority(s).len() == s.len(),
        priority_sorted(sorted_by_priority(s)),
    decreases s.len(),
{
    if s.len() > 0 {
        lemma_sorted_by_priority_sorted(s.drop_last());
        lemma_stable_insert_sorted(sorted_by_priority(s.drop_last()), s.last());
    }
}

/// Where the exec insertion lands `x`: splitting a sorted sequence at the
/// last position whose prefix keeps priority at least `x`'s reproduces the
/// stable insertion.
proof fn lemma_stable_insert_split(s: Seq<TransactionRecord>, x: TransactionRecord, pos: int)
    requires
        0 <= pos <= s.len(),
        pos > 0 ==> s[pos - 1].priority >= x.priority,
        forall|m: int| pos <= m < s.len() ==> s[m].priority < x.priority,
    ensures
        stable_insert(s, x) == s.insert(pos, x),
    decreases s.len() - pos,
{
    if pos == s.len() {
        if s.len() == 0 {
            assert(stable_insert(s, x) =~= s.insert(pos, x));
        } else {
            assert(s.last().priority >= x.priority);
            assert(stable_insert(s, x) == s.push(x));
            assert(s.push(x) =~= s.insert(pos, x));
        }
    } else {
        assert(s.last().priority < x.priority);
        let d = s.drop_last();
        assert forall|m: int| pos <= m < d.len() implies d[m].priority < x.priority by {
            assert(d[m] == s[m]);
        }
        if pos > 0 {
            assert(d[pos - 1] == s[pos - 1]);
        }
        lemma_stable_insert_split(d, x, pos);
        assert(stable_insert(s, x) == d.insert(pos, x).push(s.last()));
        assert(d.insert(pos, x).push(s.last()) =~= s.insert(pos, x));
    }
}

/// Sorts the records by priority, highest first; records of equal priority
/// keep their arrival order.
pub fn sort_transactions(records: Vec<TransactionRecord>) -> (r: Vec<TransactionRecord>)
    ensures
        r@ == sorted_by_priority(records@),
{
    let ghost orig = records@;
    let n0 = records.len();
    proof {
        assert(orig.len() == n0);
    }
    let mut rest = records;
    let mut out: Vec<TransactionRecord> = Vec::new();
    let mut k: usize = 0;
    while rest.len() > 0
        invariant
            orig.len() <= usize::MAX,
            k as int + rest@.len() == orig.len(),
            rest@ == orig.subrange(k as int, orig.len() as int),
            out@ == sorted_by_priority(orig.take(k as int)),
        decreases rest@.len(),
    {
        let x = rest.remove(0);
        proof {
            assert(x == orig[k as int]);
            assert(rest@ =~= orig.subrange(k as int + 1, orig.len() as int));
            lemma_sorted_by_priority_sorted(orig.take(k as int));
        }
        let mut idx: usize = out.len();
        while idx > 0 && out[idx - 1].priority < x.priority
            invariant
                0 <= idx <= out@.len(),
                forall|m: int| idx <= m < out@.len() ==> out@[m].priority < x.priority,
            decreases idx,
        {
            idx -= 1;
        }
        proof {
            lemma_stable_insert_split(out@, x, idx as int);
        }
        out.insert(idx, x);
        proof {
            assert(orig.take(k as int + 1).drop_last() =~= orig.take(k as int));
            assert(orig.take(k as int + 1).last() == orig[k as int]);
        }
        k += 1;
    }
    proof {
        assert(orig.take(orig.len() as int) =~= orig);
    }
    out
}

} // verus!
