use vstd::prelude::*;

verus! {

/// Node identity used by the scheduler model: a priority and the index the
/// transaction was inserted at. Unique per transaction within one
/// graph-building run.
#[derive(Clone, Copy, PartialEq, Eq, Structural, Debug, Hash)]
pub struct PriorityKey {
    pub priority: u64,
    pub index: usize,
}

/// Strict "is scheduled ahead of" order on keys: higher priority first, and
/// among equal priorities the earlier-inserted transaction first.
pub open spec fn key_precedes(a: PriorityKey, b: PriorityKey) -> bool {
    a.priority > b.priority || (a.priority == b.priority && a.index < b.index)
}

/// Compares two keys by the scheduling order.
pub fn key_before(a: &PriorityKey, b: &PriorityKey) -> (r: bool)
    ensures
        r == key_precedes(*a, *b),
{
    a.priority > b.priority || (a.priority == b.priority && a.index < b.index)
}

/// The accounts a transaction locks: an ordered set of writable account
/// identifiers and an ordered set of read-only ones. A write lock is
/// exclusive and subsumes any read need on the same account, so the two sets
/// are disjoint.
pub struct AccountLockSet {
    pub writable: Vec<u64>,
    pub readonly: Vec<u64>,
}

impl AccountLockSet {
    /// The transaction write-locks account `a`.
    pub open spec fn writes(self, a: u64) -> bool {
        self.writable@.contains(a)
    }

    /// The transaction read-locks account `a`.
    pub open spec fn reads(self, a: u64) -> bool {
        self.readonly@.contains(a)
    }

    /// The transaction locks account `a` in either way.
    pub open spec fn touches(self, a: u64) -> bool {
        self.writes(a) || self.reads(a)
    }

    /// Each list is duplicate-free and the two are disjoint.
    pub open spec fn wf(self) -> bool {
        &&& forall|i: int, j: int|
            0 <= i < j < self.writable@.len() ==> self.writable@[i] != self.writable@[j]
        &&& forall|i: int, j: int|
            0 <= i < j < self.readonly@.len() ==> self.readonly@[i] != self.readonly@[j]
        &&& forall|a: u64| #[trigger] self.writes(a) ==> !self.reads(a)
    }
}

/// Copies a list of account identifiers.
fn copy_u64_vec(v: &Vec<u64>) -> (r: Vec<u64>)
    ensures
        r@ == v@,
{
    let mut r: Vec<u64> = Vec::new();
    let mut k: usize = 0;
    while k < v.len()
        invariant
            0 <= k <= v@.len(),
            r@ == v@.subrange(0, k as int),
        decreases v@.len() - k,
    {
        r.push(v[k]);
        assert(r@ == v@.subrange(0, k + 1 as int));
        k += 1;
    }
    assert(r@ == v@);
    r
}

impl AccountLockSet {
    /// An owned copy of the lock set.
    pub fn duplicate(&self) -> (r: AccountLockSet)
        ensures
            r.writable@ == self.writable@,
            r.readonly@ == self.readonly@,
    {
        let writable = copy_u64_vec(&self.writable);
        let readonly = copy_u64_vec(&self.readonly);
        AccountLockSet { writable, readonly }
    }
}

/// No element of the sequence occurs twice.
pub open spec fn nodup_u64(s: Seq<u64>) -> bool {
    forall|p: int, q: int| 0 <= p < q < s.len() ==> s[p] != s[q]
}

/// One inserted transaction, as the conflict model sees it: its key and the
/// mathematical view of its lock set.
pub struct TxEntry {
    pub key: PriorityKey,
    pub writes_list: Seq<u64>,
    pub reads_list: Seq<u64>,
}

impl TxEntry {
    /// The transaction write-locks account `a`.
    pub open spec fn writes(self, a: u64) -> bool {
        self.writes_list.contains(a)
    }

    /// The transaction read-locks account `a`.
    pub open spec fn reads(self, a: u64) -> bool {
        self.reads_list.contains(a)
    }

    /// The transaction locks account `a` in either way.
    pub open spec fn touches(self, a: u64) -> bool {
        self.writes(a) || self.reads(a)
    }

    /// Each list is duplicate-free and the two are disjoint.
    pub open spec fn wf(self) -> bool {
        &&& nodup_u64(self.writes_list)
        &&& nodup_u64(self.reads_list)
        &&& forall|a: u64| #[trigger] self.writes(a) ==> !self.reads(a)
    }
}

/// The model entry that a key and a lock set give rise to.
pub open spec fn entry_of(key: PriorityKey, locks: AccountLockSet) -> TxEntry {
    TxEntry { key, writes_list: locks.writable@, reads_list: locks.readonly@ }
}

/// Transaction `j` is the most recent writer of account `a` among the first
/// `n` inserted transactions.
pub open spec fn is_last_writer(txs: Seq<TxEntry>, a: u64, j: int, n: int) -> bool {
    &&& 0 <= j < n <= txs.len()
    &&& txs[j].writes(a)
    &&& forall|m: int| j < m < n ==> !(#[trigger] txs[m].writes(a))
}

/// Transaction `j` holds an unresolved read of account `a` among the first
/// `n` inserted transactions: it reads `a` and no later transaction among the
/// first `n` writes `a`.
pub open spec fn is_active_reader(txs: Seq<TxEntry>, a: u64, j: int, n: int) -> bool {
    &&& 0 <= j < n <= txs.len()
    &&& txs[j].reads(a)
    &&& forall|m: int| j < m < n ==> !(#[trigger] txs[m].writes(a))
}

/// Transaction `j` blocks transaction `i` through account `a`: at the moment
/// `i` was inserted, a write by `i` conflicts with `a`'s most recent writer
/// and with every unresolved reader, while a read by `i` conflicts only with
/// the most recent writer.
pub open spec fn blocks_via(txs: Seq<TxEntry>, j: int, i: int, a: u64) -> bool {
    &&& 0 <= i < txs.len()
    &&& {
        ||| txs[i].writes(a) && (is_last_writer(txs, a, j, i) || is_active_reader(
            txs,
            a,
            j,
            i,
        ))
        ||| txs[i].reads(a) && is_last_writer(txs, a, j, i)
    }
}

/// Transaction `j` is a blocking predecessor of transaction `i`: `i` received
/// an edge from `j` at insertion time, through at least one account.
pub open spec fn blocks(txs: Seq<TxEntry>, j: int, i: int) -> bool {
    exists|a: u64| blocks_via(txs, j, i, a)
}

/// A blocking predecessor was inserted strictly earlier.
pub proof fn lemma_blocks_bounds(txs: Seq<TxEntry>, j: int, i: int)
    requires
        blocks(txs, j, i),
    ensures
        0 <= j < i < txs.len(),
{
    let a = choose|a: u64| blocks_via(txs, j, i, a);
}

/// Whether `j` was the most recent writer of `a` among the first `n` entries
/// does not change when a further transaction is appended.
pub proof fn lemma_writer_prefix(txs: Seq<TxEntry>, t: TxEntry, a: u64, j: int, n: int)
    requires
        0 <= n <= txs.len(),
    ensures
        is_last_writer(txs.push(t), a, j, n) == is_last_writer(txs, a, j, n),
{
    let p = txs.push(t);
    if is_last_writer(p, a, j, n) {
        assert(txs[j] == p[j]);
        assert forall|m: int| j < m < n implies !(#[trigger] txs[m].writes(a)) by {
            assert(p[m] == txs[m]);
        }
    }
    if is_last_writer(txs, a, j, n) {
        assert(p[j] == txs[j]);
        assert forall|m: int| j < m < n implies !(#[trigger] p[m].writes(a)) by {
            assert(p[m] == txs[m]);
        }
    }
}

/// The unresolved readers among the first `n` entries do not change when a
/// further transaction is appended.
pub proof fn lemma_reader_prefix(txs: Seq<TxEntry>, t: TxEntry, a: u64, j: int, n: int)
    requires
        0 <= n <= txs.len(),
    ensures
        is_active_reader(txs.push(t), a, j, n) == is_active_reader(txs, a, j, n),
{
    let p = txs.push(t);
    if is_active_reader(p, a, j, n) {
        assert(txs[j] == p[j]);
        assert forall|m: int| j < m < n implies !(#[trigger] txs[m].writes(a)) by {
            assert(p[m] == txs[m]);
        }
    }
    if is_active_reader(txs, a, j, n) {
        assert(p[j] == txs[j]);
        assert forall|m: int| j < m < n implies !(#[trigger] p[m].writes(a)) by {
            assert(p[m] == txs[m]);
        }
    }
}

/// The blocking predecessors of an already-inserted transaction do not change
/// when a further transaction is appended.
pub proof fn lemma_blocks_prefix(txs: Seq<TxEntry>, t: TxEntry, j: int, i: int)
    requires
        0 <= i < txs.len(),
    ensures
        blocks(txs.push(t), j, i) == blocks(txs, j, i),
{
    let p = txs.push(t);
    assert(p[i] == txs[i]);
    if blocks(p, j, i) {
        let a = choose|a: u64| blocks_via(p, j, i, a);
        lemma_writer_prefix(txs, t, a, j, i);
        lemma_reader_prefix(txs, t, a, j, i);
        assert(blocks_via(txs, j, i, a));
    }
    if blocks(txs, j, i) {
        let a = choose|a: u64| blocks_via(txs, j, i, a);
        lemma_writer_prefix(txs, t, a, j, i);
        lemma_reader_prefix(txs, t, a, j, i);
        assert(blocks_via(p, j, i, a));
    }
}

/// No element of the sequence occurs twice.
pub open spec fn nodup_usize(s: Seq<usize>) -> bool {
    forall|p: int, q: int| 0 <= p < q < s.len() ==> s[p] != s[q]
}

/// Per-account chain state: the most recent not-yet-resolved writer and the
/// unresolved readers since that writer. This is the only mutable internal
/// structure of the builder, owned by it for the duration of one run.
struct AccountChain {
    account: u64,
    last_writer: Option<usize>,
    readers: Vec<usize>,
}

/// One registered transaction: its identity, its lock set, and the blocking
/// predecessors recorded for it at insertion time.
struct GraphNode {
    key: PriorityKey,
    locks: AccountLockSet,
    preds: Vec<usize>,
}

/// The chain records exactly the most recent writer and the unresolved
/// readers of its account in the history `txs`.
spec fn chain_matches(c: AccountChain, txs: Seq<TxEntry>) -> bool {
    let n = txs.len() as int;
    &&& match c.last_writer {
        Option::Some(w) => is_last_writer(txs, c.account, w as int, n),
        Option::None => forall|m: int|
            0 <= m < n ==> !(#[trigger] txs[m].writes(c.account)),
    }
    &&& forall|p: int|
        0 <= p < c.readers@.len() ==> is_active_reader(
            txs,
            c.account,
            #[trigger] c.readers@[p] as int,
            n,
        )
    &&& forall|j: int| is_active_reader(txs, c.account, j, n) ==> c.readers@.contains(j as usize)
}

spec fn chains_distinct(cs: Seq<AccountChain>) -> bool {
    forall|p: int, q: int| 0 <= p < q < cs.len() ==> cs[p].account != cs[q].account
}

spec fn chains_match(cs: Seq<AccountChain>, txs: Seq<TxEntry>) -> bool {
    forall|ci: int| 0 <= ci < cs.len() ==> chain_matches(#[trigger] cs[ci], txs)
}

spec fn has_chain(cs: Seq<AccountChain>, a: u64) -> bool {
    exists|ci: int| 0 <= ci < cs.len() && cs[ci].account == a
}

spec fn chains_cover(cs: Seq<AccountChain>, txs: Seq<TxEntry>) -> bool {
    forall|i0: int, a: u64|
        0 <= i0 < txs.len() && #[trigger] txs[i0].touches(a) ==> has_chain(cs, a)
}

/// Reconstructs the conflict-serialization order a priority-driven scheduler
/// would impose: transactions are inserted once each, highest priority first;
/// the graph is then drained by repeated [`pop`](Self::pop) and
/// [`unblock`](Self::unblock) until [`is_empty`](Self::is_empty).
///
/// The blocking relation the builder records is exactly [`blocks`] over the
/// insertion history [`txs`](Self::txs); every contract of the builder is
/// phrased over that pure model.
pub struct ConflictGraphBuilder {
    nodes: Vec<GraphNode>,
    popped_flags: Vec<bool>,
    unblocked_flags: Vec<bool>,
    chains: Vec<AccountChain>,
}

impl ConflictGraphBuilder {
    /// The insertion history: each registered transaction's key and lock set,
    /// in insertion order.
    pub closed spec fn txs(self) -> Seq<TxEntry> {
        self.nodes@.map(|q: int, nd: GraphNode| entry_of(nd.key, nd.locks))
    }

    /// Transaction `i` has been popped.
    pub closed spec fn popped(self, i: int) -> bool {
        0 <= i < self.popped_flags@.len() && self.popped_flags@[i]
    }

    /// Transaction `i` has been popped and its hold on successors released.
    pub closed spec fn unblocked(self, i: int) -> bool {
        0 <= i < self.unblocked_flags@.len() && self.unblocked_flags@[i]
    }

    /// No transaction has been popped yet.
    pub open spec fn no_pops(self) -> bool {
        forall|i: int| !self.popped(i)
    }

    /// Every registered transaction has been popped.
    pub open spec fn all_popped(self) -> bool {
        forall|i: int| 0 <= i < self.txs().len() ==> self.popped(i)
    }

    /// Transaction `i` is ready: not yet popped, and every blocking
    /// predecessor has released its hold.
    pub open spec fn ready(self, i: int) -> bool {
        &&& 0 <= i < self.txs().len()
        &&& !self.popped(i)
        &&& forall|j: int| blocks(self.txs(), j, i) ==> self.unblocked(j)
    }

    spec fn node_wf(self, q: int) -> bool {
        let nd = self.nodes@[q];
        &&& nd.key.index == q
        &&& nd.locks.wf()
        &&& nodup_usize(nd.preds@)
        &&& forall|p: int|
            0 <= p < nd.preds@.len() ==> blocks(self.txs(), #[trigger] nd.preds@[p] as int, q)
        &&& forall|j: int| blocks(self.txs(), j, q) ==> nd.preds@.contains(j as usize)
        &&& (self.unblocked_flags@[q] ==> self.popped_flags@[q])
        &&& (self.popped_flags@[q] ==> forall|j: int|
            blocks(self.txs(), j, q) ==> self.unblocked(j))
    }

    /// The builder's internal invariant: chain state, recorded predecessor
    /// edges, and pop/unblock flags all agree with the pure model.
    pub closed spec fn wf(self) -> bool {
        &&& self.popped_flags@.len() == self.nodes@.len()
        &&& self.unblocked_flags@.len() == self.nodes@.len()
        &&& chains_distinct(self.chains@)
        &&& chains_match(self.chains@, self.txs())
        &&& chains_cover(self.chains@, self.txs())
        &&& forall|q: int| 0 <= q < self.nodes@.len() ==> self.node_wf(q)
    }

    /// A fresh builder with no transactions. It holds no state across
    /// analysis units: one instance serves one run and is then discarded.
    pub fn new() -> (g: ConflictGraphBuilder)
        ensures
            g.wf(),
            g.no_pops(),
            g.txs().len() == 0,
            g.all_popped(),
            g.is_empty_now(),
    {
        ConflictGraphBuilder {
            nodes: Vec::new(),
            popped_flags: Vec::new(),
            unblocked_flags: Vec::new(),
            chains: Vec::new(),
        }
    }

    /// Every inserted transaction has been popped.
    pub open spec fn is_empty_now(self) -> bool {
        self.all_popped()
    }

    /// Registers one transaction, before any popping has begun. Transactions
    /// must arrive highest-priority first — `key.priority` may not exceed the
    /// previously inserted priority — and `key.index` is the insertion index.
    /// For each account the transaction writes it becomes the new most recent
    /// writer, clearing the unresolved readers; for each account it reads it
    /// joins the unresolved readers. The blocking edges recorded are exactly
    /// those of [`blocks`] over the extended history.
    pub fn insert(&mut self, key: PriorityKey, locks: AccountLockSet)
        requires
            old(self).wf(),
            old(self).no_pops(),
            locks.wf(),
            key.index == old(self).txs().len(),
            old(self).txs().len() > 0 ==> old(self).txs().last().key.priority >= key.priority,
        ensures
            final(self).wf(),
            final(self).no_pops(),
            final(self).txs() == old(self).txs().push(entry_of(key, locks)),
    {
        let ghost old_txs = self.txs();
        let ghost t = entry_of(key, locks);
        proof {
            assert forall|a: u64| #[trigger] t.writes(a) implies !t.reads(a) by {
                assert(locks.writes(a));
                assert(!locks.reads(a));
            }
            assert(t.wf());
        }
        let i = self.nodes.len();
        let preds = collect_preds(&mut self.chains, &locks, i, Ghost(old_txs), Ghost(t));
        self.nodes.push(GraphNode { key, locks, preds });
        self.popped_flags.push(false);
        self.unblocked_flags.push(false);
        proof {
            let pt = old_txs.push(t);
            assert(self.txs() =~= pt) by {
                assert(self.nodes@.len() == old(self).nodes@.len() + 1);
                assert forall|q: int| 0 <= q < self.txs().len() implies self.txs()[q] == pt[q] by {
                    if q < old_txs.len() {
                        assert(self.nodes@[q] == old(self).nodes@[q]);
                        assert(old(self).txs()[q] == pt[q]);
                    } else {
                        assert(self.nodes@[q].key == key && self.nodes@[q].locks == locks);
                    }
                }
            }
            assert forall|q: int| 0 <= q < self.nodes@.len() implies self.node_wf(q) by {
                let nd = self.nodes@[q];
                if q < old(self).nodes@.len() {
                    assert(old(self).node_wf(q));
                    assert(nd == old(self).nodes@[q]);
                    assert forall|p: int|
                        0 <= p < nd.preds@.len() implies blocks(
                        self.txs(),
                        #[trigger] nd.preds@[p] as int,
                        q,
                    ) by {
                        assert(blocks(old_txs, nd.preds@[p] as int, q));
                        lemma_blocks_prefix(old_txs, t, nd.preds@[p] as int, q);
                    }
                    assert forall|j: int| blocks(self.txs(), j, q) implies nd.preds@.contains(
                        j as usize,
                    ) by {
                        lemma_blocks_prefix(old_txs, t, j, q);
                        assert(blocks(old_txs, j, q));
                    }
                    assert(!old(self).popped(q));
                    assert(!self.popped_flags@[q]);
                    assert(!self.unblocked_flags@[q]) by {
                        if old(self).unblocked_flags@[q] {
                            assert(old(self).popped_flags@[q]);
                        }
                    }
                } else {
                    assert(q == old(self).nodes@.len());
                    assert(nd.key == key && nd.locks == locks && nd.preds == preds);
                    assert(!self.popped_flags@[q]);
                    assert(!self.unblocked_flags@[q]);
                }
            }
            assert forall|q: int| !self.popped(q) by {
                if 0 <= q < self.popped_flags@.len() {
                    if q < old(self).popped_flags@.len() {
                        assert(!old(self).popped(q));
                    }
                }
            }
        }
    }

    /// The number of transactions inserted so far.
    pub fn len(&self) -> (n: usize)
        ensures
            n == self.txs().len(),
    {
        self.nodes.len()
    }

    /// The key of the transaction inserted at position `i`.
    pub fn node_key(&self, i: usize) -> (k: PriorityKey)
        requires
            i < self.txs().len(),
        ensures
            k == self.txs()[i as int].key,
    {
        self.nodes[i].key
    }

    /// The recorded blocking predecessors of the transaction at position `i`,
    /// duplicate-free.
    pub fn blockers_of(&self, i: usize) -> (v: Vec<usize>)
        requires
            self.wf(),
            i < self.txs().len(),
        ensures
            nodup_usize(v@),
            forall|p: int| 0 <= p < v@.len() ==> blocks(self.txs(), #[trigger] v@[p] as int, i as int),
            forall|j: int| blocks(self.txs(), j, i as int) ==> v@.contains(j as usize),
    {
        assert(self.node_wf(i as int));
        let preds = &self.nodes[i].preds;
        let mut v: Vec<usize> = Vec::new();
        let mut p: usize = 0;
        while p < preds.len()
            invariant
                0 <= p <= preds.len(),
                v@ == preds@.subrange(0, p as int),
            decreases preds.len() - p,
        {
            v.push(preds[p]);
            assert(v@ == preds@.subrange(0, p + 1 as int));
            p += 1;
        }
        assert(v@ == preds@);
        v
    }

    /// True when every inserted transaction has been popped. The caller
    /// distinguishes "no transaction is ready right now" from "fully drained"
    /// with this check.
    pub fn is_empty(&self) -> (r: bool)
        requires
            self.wf(),
        ensures
            r == self.all_popped(),
    {
        let mut i: usize = 0;
        while i < self.popped_flags.len()
            invariant
                self.wf(),
                0 <= i <= self.popped_flags@.len(),
                self.popped_flags@.len() == self.txs().len(),
                forall|q: int| 0 <= q < i ==> self.popped(q),
            decreases self.popped_flags@.len() - i,
        {
            if !self.popped_flags[i] {
                assert(!self.popped(i as int));
                return false;
            }
            i += 1;
        }
        true
    }

    /// Whether transaction `i` is ready right now.
    fn is_ready_at(&self, i: usize) -> (r: bool)
        requires
            self.wf(),
            i < self.txs().len(),
        ensures
            r == self.ready(i as int),
    {
        assert(self.node_wf(i as int));
        if self.popped_flags[i] {
            return false;
        }
        let preds = &self.nodes[i].preds;
        let mut p: usize = 0;
        while p < preds.len()
            invariant
                self.wf(),
                self.node_wf(i as int),
                i < self.txs().len(),
                preds == &self.nodes@[i as int].preds,
                0 <= p <= preds.len(),
                !self.popped(i as int),
                forall|q: int| 0 <= q < p ==> self.unblocked(#[trigger] preds@[q] as int),
            decreases preds.len() - p,
        {
            let j = preds[p];
            proof {
                assert(blocks(self.txs(), j as int, i as int));
                lemma_blocks_bounds(self.txs(), j as int, i as int);
            }
            if !self.unblocked_flags[j] {
                assert(!self.unblocked(j as int));
                return false;
            }
            p += 1;
        }
        assert forall|j: int| blocks(self.txs(), j, i as int) implies self.unblocked(j) by {
            let nd = self.nodes@[i as int];
            assert(nd.preds@.contains(j as usize));
            let q = choose|q: int| 0 <= q < nd.preds@.len() && nd.preds@[q] == j as usize;
            lemma_blocks_bounds(self.txs(), j, i as int);
            assert(self.unblocked(nd.preds@[q] as int));
        }
        true
    }

    /// Removes and returns the highest-priority ready transaction, ties
    /// broken by insertion index; returns `None` when no transaction is ready
    /// (which the caller tells apart from "fully drained" via
    /// [`is_empty`](Self::is_empty)).
    pub fn pop(&mut self) -> (r: Option<PriorityKey>)
        requires
            old(self).wf(),
        ensures
            final(self).wf(),
            final(self).txs() == old(self).txs(),
            forall|j: int| final(self).unblocked(j) == old(self).unblocked(j),
            r is None ==> {
                &&& forall|i: int| !old(self).ready(i)
                &&& forall|i: int| final(self).popped(i) == old(self).popped(i)
            },
            r matches Some(k) ==> {
                &&& k.index < old(self).txs().len()
                &&& old(self).txs()[k.index as int].key == k
                &&& old(self).ready(k.index as int)
                &&& forall|i: int|
                    old(self).ready(i) && i != k.index ==> key_precedes(
                        k,
                        old(self).txs()[i].key,
                    )
                &&& forall|i: int|
                    final(self).popped(i) == (old(self).popped(i) || i == k.index)
            },
    {
        let n = self.nodes.len();
        let mut best: Option<usize> = Option::None;
        let mut i: usize = 0;
        while i < n
            invariant
                self.wf(),
                n == self.txs().len(),
                0 <= i <= n,
                match best {
                    Option::Some(b) => {
                        &&& b < i
                        &&& self.ready(b as int)
                        &&& self.txs()[b as int].key.index == b
                        &&& forall|q: int|
                            0 <= q < i && self.ready(q) && q != b ==> key_precedes(
                                self.txs()[b as int].key,
                                self.txs()[q].key,
                            )
                    },
                    Option::None => forall|q: int| 0 <= q < i ==> !self.ready(q),
                },
            decreases n - i,
        {
            if self.is_ready_at(i) {
                proof {
                    assert(self.node_wf(i as int));
                }
                best = match best {
                    Option::None => Option::Some(i),
                    Option::Some(b) => {
                        proof {
                            assert(self.node_wf(b as int));
                        }
                        if key_before(&self.nodes[i].key, &self.nodes[b].key) {
                            Option::Some(i)
                        } else {
                            assert(self.txs()[b as int].key.index == b);
                            assert(self.txs()[i as int].key.index == i);
                            assert(key_precedes(self.txs()[b as int].key, self.txs()[i as int].key));
                            Option::Some(b)
                        }
                    },
                };
            }
            i += 1;
        }
        match best {
            Option::None => Option::None,
            Option::Some(b) => {
                let k = self.nodes[b].key;
                self.popped_flags.set(b, true);
                proof {
                    assert(self.nodes@ == old(self).nodes@);
                    assert(self.txs() == old(self).txs());
                    assert(self.unblocked_flags@ == old(self).unblocked_flags@);
                    assert forall|q: int| 0 <= q < self.nodes@.len() implies self.node_wf(q) by {
                        assert(old(self).node_wf(q));
                        if self.popped_flags@[q] {
                            assert forall|j: int| blocks(self.txs(), j, q) implies self.unblocked(
                                j,
                            ) by {
                                assert(blocks(old(self).txs(), j, q));
                                if q == b {
                                    assert(old(self).ready(b as int));
                                } else {
                                    assert(old(self).popped_flags@[q]);
                                }
                                assert(old(self).unblocked(j));
                            }
                        }
                    }
                }
                Option::Some(k)
            },
        }
    }

    /// Releases the hold of a popped transaction `node`: every transaction
    /// that held a pending edge from it has its effective in-degree reduced,
    /// and the transactions whose in-degree thereby reached zero — the newly
    /// ready ones — are returned, in insertion order. Called once per popped
    /// node.
    pub fn unblock(&mut self, node: PriorityKey) -> (r: Vec<PriorityKey>)
        requires
            old(self).wf(),
            node.index < old(self).txs().len(),
            old(self).txs()[node.index as int].key == node,
            old(self).popped(node.index as int),
            !old(self).unblocked(node.index as int),
        ensures
            final(self).wf(),
            final(self).txs() == old(self).txs(),
            forall|i: int| final(self).popped(i) == old(self).popped(i),
            forall|j: int|
                final(self).unblocked(j) == (old(self).unblocked(j) || j == node.index),
            forall|m: int|
                0 <= m < r@.len() ==> {
                    let ki = #[trigger] r@[m].index as int;
                    &&& ki < old(self).txs().len()
                    &&& old(self).txs()[ki].key == r@[m]
                    &&& blocks(old(self).txs(), node.index as int, ki)
                    &&& final(self).ready(ki)
                },
            forall|m1: int, m2: int|
                0 <= m1 < m2 < r@.len() ==> r@[m1].index < r@[m2].index,
            forall|i: int|
                blocks(old(self).txs(), node.index as int, i) && final(self).ready(i)
                    ==> r@.contains(old(self).txs()[i].key),
    {
        let n = self.nodes.len();
        self.unblocked_flags.set(node.index, true);
        proof {
            assert(self.nodes@ == old(self).nodes@);
            assert(self.txs() == old(self).txs());
            assert(self.popped_flags@ == old(self).popped_flags@);
            assert forall|q: int| 0 <= q < self.nodes@.len() implies self.node_wf(q) by {
                assert(old(self).node_wf(q));
                if self.unblocked_flags@[q] && q != node.index {
                    assert(old(self).unblocked_flags@[q]);
                }
                if self.popped_flags@[q] {
                    assert forall|j: int| blocks(self.txs(), j, q) implies self.unblocked(j) by {
                        assert(blocks(old(self).txs(), j, q));
                        assert(old(self).unblocked(j));
                        lemma_blocks_bounds(old(self).txs(), j, q);
                    }
                }
            }
        }
        let ghost mid = *self;
        let mut r: Vec<PriorityKey> = Vec::new();
        let mut i: usize = 0;
        while i < n
            invariant
                *self == mid,
                self.wf(),
                n == self.txs().len(),
                node.index < n,
                0 <= i <= n,
                forall|m: int|
                    0 <= m < r@.len() ==> {
                        let ki = #[trigger] r@[m].index as int;
                        &&& ki < i
                        &&& self.txs()[ki].key == r@[m]
                        &&& blocks(self.txs(), node.index as int, ki)
                        &&& self.ready(ki)
                    },
                forall|m1: int, m2: int| 0 <= m1 < m2 < r@.len() ==> r@[m1].index < r@[m2].index,
                forall|q: int|
                    0 <= q < i && blocks(self.txs(), node.index as int, q) && self.ready(q)
                        ==> r@.contains(self.txs()[q].key),
            decreases n - i,
        {
            proof {
                assert(self.node_wf(i as int));
            }
            let ghost r_before = r@;
            let k = self.nodes[i].key;
            assert(k.index == i);
            let has_edge = contains_usize(&self.nodes[i].preds, node.index);
            let rdy = self.is_ready_at(i);
            let did = !self.popped_flags[i] && has_edge && rdy;
            if did {
                proof {
                    assert(blocks(self.txs(), node.index as int, i as int));
                    assert forall|m1: int, m2: int|
                        0 <= m1 < m2 < r@.len() + 1 implies (r@.push(k))[m1].index < (r@.push(
                        k,
                    ))[m2].index by {
                        if m2 < r@.len() {
                            assert(r@[m1].index < r@[m2].index);
                        } else {
                            assert((r@.push(k))[m2] == k);
                            if m1 < r@.len() {
                                assert((r@.push(k))[m1] == r@[m1]);
                            }
                        }
                    }
                }
                r.push(k);
            }
            i += 1;
            proof {
                assert forall|q: int|
                    0 <= q < i && blocks(self.txs(), node.index as int, q) && self.ready(q) implies r@.contains(
                    self.txs()[q].key,
                ) by {
                    if q < i - 1 {
                        assert(r_before.contains(self.txs()[q].key));
                        let w = choose|w: int|
                            0 <= w < r_before.len() && r_before[w] == self.txs()[q].key;
                        assert(r@[w] == self.txs()[q].key);
                    } else {
                        assert(q == i - 1);
                        assert(self.node_wf(q));
                        assert(self.nodes@[q].preds@.contains(node.index));
                        assert(did);
                        assert(r@[r@.len() - 1] == self.txs()[q].key);
                    }
                }
            }
        }
        r
    }
}

/// Two most-recent writers of one account coincide.
proof fn lemma_last_writer_unique(txs: Seq<TxEntry>, a: u64, j1: int, j2: int, n: int)
    requires
        is_last_writer(txs, a, j1, n),
        is_last_writer(txs, a, j2, n),
    ensures
        j1 == j2,
{
    if j1 < j2 {
        assert(txs[j2].writes(a));
        assert(false);
    }
    if j2 < j1 {
        assert(txs[j1].writes(a));
        assert(false);
    }
}

/// A chain over an account the appended transaction does not touch keeps
/// matching the history.
proof fn lemma_chain_untouched(c: AccountChain, txs: Seq<TxEntry>, t: TxEntry)
    requires
        chain_matches(c, txs),
        !t.touches(c.account),
    ensures
        chain_matches(c, txs.push(t)),
{
    let a = c.account;
    let p = txs.push(t);
    let n = txs.len() as int;
    match c.last_writer {
        Option::Some(w) => {
            assert(p[w as int] == txs[w as int]);
            assert forall|m: int| w < m < n + 1 implies !(#[trigger] p[m].writes(a)) by {
                if m < n {
                    assert(p[m] == txs[m]);
                } else {
                    assert(p[m] == t);
                }
            }
            assert(is_last_writer(p, a, w as int, n + 1));
        },
        Option::None => {
            assert forall|m: int| 0 <= m < n + 1 implies !(#[trigger] p[m].writes(a)) by {
                if m < n {
                    assert(p[m] == txs[m]);
                } else {
                    assert(p[m] == t);
                }
            }
        },
    }
    assert forall|q: int| 0 <= q < c.readers@.len() implies is_active_reader(
        p,
        a,
        #[trigger] c.readers@[q] as int,
        n + 1,
    ) by {
        let j = c.readers@[q] as int;
        assert(is_active_reader(txs, a, j, n));
        assert(p[j] == txs[j]);
        assert forall|m: int| j < m < n + 1 implies !(#[trigger] p[m].writes(a)) by {
            if m < n {
                assert(p[m] == txs[m]);
            } else {
                assert(p[m] == t);
            }
        }
    }
    assert forall|j: int| #[trigger] is_active_reader(p, a, j, n + 1) implies c.readers@.contains(
        j as usize,
    ) by {
        if j == n {
            assert(p[j] == t);
            assert(false);
        } else {
            assert(p[j] == txs[j]);
            assert forall|m: int| j < m < n implies !(#[trigger] txs[m].writes(a)) by {
                assert(p[m] == txs[m]);
            }
            assert(is_active_reader(txs, a, j, n));
        }
    }
}

/// After the appended transaction writes the account, the chain that names it
/// as sole writer with no readers matches the new history.
proof fn lemma_chain_written(c: AccountChain, txs: Seq<TxEntry>, t: TxEntry)
    requires
        t.wf(),
        t.writes(c.account),
        txs.len() <= usize::MAX,
        c.last_writer == Option::Some(txs.len() as usize),
        c.readers@.len() == 0,
    ensures
        chain_matches(c, txs.push(t)),
{
    let a = c.account;
    let p = txs.push(t);
    let n = txs.len() as int;
    assert(p[n] == t);
    assert(is_last_writer(p, a, n, n + 1));
    assert forall|j: int| #[trigger] is_active_reader(p, a, j, n + 1) implies c.readers@.contains(
        j as usize,
    ) by {
        if j == n {
            assert(p[j] == t);
            assert(false);
        } else {
            assert(p[n].writes(a));
            assert(false);
        }
    }
}

/// After the appended transaction reads the account, the chain extended by it
/// as one more reader matches the new history.
proof fn lemma_chain_read(c_old: AccountChain, c_new: AccountChain, txs: Seq<TxEntry>, t: TxEntry)
    requires
        chain_matches(c_old, txs),
        t.wf(),
        t.reads(c_old.account),
        txs.len() <= usize::MAX,
        c_new.account == c_old.account,
        c_new.last_writer == c_old.last_writer,
        c_new.readers@ == c_old.readers@.push(txs.len() as usize),
    ensures
        chain_matches(c_new, txs.push(t)),
{
    let a = c_old.account;
    let p = txs.push(t);
    let n = txs.len() as int;
    assert(p[n] == t);
    assert(!t.writes(a));
    match c_old.last_writer {
        Option::Some(w) => {
            assert(p[w as int] == txs[w as int]);
            assert forall|m: int| w < m < n + 1 implies !(#[trigger] p[m].writes(a)) by {
                if m < n {
                    assert(p[m] == txs[m]);
                }
            }
            assert(is_last_writer(p, a, w as int, n + 1));
        },
        Option::None => {
            assert forall|m: int| 0 <= m < n + 1 implies !(#[trigger] p[m].writes(a)) by {
                if m < n {
                    assert(p[m] == txs[m]);
                }
            }
        },
    }
    assert forall|q: int| 0 <= q < c_new.readers@.len() implies is_active_reader(
        p,
        a,
        #[trigger] c_new.readers@[q] as int,
        n + 1,
    ) by {
        if q < c_old.readers@.len() {
            let j = c_old.readers@[q] as int;
            assert(c_new.readers@[q] == c_old.readers@[q]);
            assert(is_active_reader(txs, a, j, n));
            assert(p[j] == txs[j]);
            assert forall|m: int| j < m < n + 1 implies !(#[trigger] p[m].writes(a)) by {
                if m < n {
                    assert(p[m] == txs[m]);
                }
            }
        } else {
            assert(c_new.readers@[q] == n as usize);
            assert(is_active_reader(p, a, n, n + 1));
        }
    }
    assert forall|j: int| #[trigger] is_active_reader(p, a, j, n + 1) implies c_new.readers@.contains(
        j as usize,
    ) by {
        if j == n {
            assert(c_new.readers@[c_old.readers@.len() as int] == n as usize);
        } else {
            assert(p[j] == txs[j]);
            assert forall|m: int| j < m < n implies !(#[trigger] txs[m].writes(a)) by {
                assert(p[m] == txs[m]);
            }
            assert(is_active_reader(txs, a, j, n));
            assert(c_old.readers@.contains(j as usize));
            let q = choose|q: int|
                0 <= q < c_old.readers@.len() && c_old.readers@[q] == j as usize;
            assert(c_new.readers@[q] == j as usize);
        }
    }
}

/// A chain over an account never touched in the history matches it with no
/// writer and no readers.
proof fn lemma_chain_fresh(c: AccountChain, txs: Seq<TxEntry>)
    requires
        c.last_writer is None,
        c.readers@.len() == 0,
        forall|m: int| 0 <= m < txs.len() ==> !(#[trigger] txs[m].touches(c.account)),
    ensures
        chain_matches(c, txs),
{
    let a = c.account;
    assert forall|m: int| 0 <= m < txs.len() implies !(#[trigger] txs[m].writes(a)) by {
        assert(!txs[m].touches(a));
    }
    assert forall|j: int| #[trigger] is_active_reader(txs, a, j, txs.len() as int) implies c.readers@.contains(
        j as usize,
    ) by {
        assert(txs[j].touches(a));
        assert(false);
    }
}

/// When the new transaction writes the account, its blocking predecessors
/// through that account are exactly the chain's writer and readers.
proof fn lemma_write_preds(c: AccountChain, txs: Seq<TxEntry>, t: TxEntry)
    requires
        chain_matches(c, txs),
        t.wf(),
        t.writes(c.account),
        txs.len() <= usize::MAX,
    ensures
        forall|j: int|
            #[trigger] blocks_via(txs.push(t), j, txs.len() as int, c.account) <==> (0 <= j
                < txs.len() && (c.last_writer == Option::Some(j as usize) || c.readers@.contains(
                j as usize,
            ))),
{
    let a = c.account;
    let p = txs.push(t);
    let n = txs.len() as int;
    assert(p[n] == t);
    assert(!t.reads(a));
    assert forall|j: int| #[trigger] blocks_via(p, j, n, a) implies (0 <= j < n && (c.last_writer
        == Option::Some(j as usize) || c.readers@.contains(j as usize))) by {
        lemma_writer_prefix(txs, t, a, j, n);
        lemma_reader_prefix(txs, t, a, j, n);
        if is_last_writer(txs, a, j, n) {
            match c.last_writer {
                Option::Some(w) => {
                    lemma_last_writer_unique(txs, a, j, w as int, n);
                },
                Option::None => {
                    assert(txs[j].writes(a));
                    assert(false);
                },
            }
        } else {
            assert(is_active_reader(txs, a, j, n));
        }
    }
    assert forall|j: int|
        0 <= j < n && (c.last_writer == Option::Some(j as usize) || c.readers@.contains(
            j as usize,
        )) implies #[trigger] blocks_via(p, j, n, a) by {
        lemma_writer_prefix(txs, t, a, j, n);
        lemma_reader_prefix(txs, t, a, j, n);
        if c.last_writer == Option::Some(j as usize) {
            assert(is_last_writer(txs, a, j, n));
        } else {
            let q = choose|q: int| 0 <= q < c.readers@.len() && c.readers@[q] == j as usize;
            assert(is_active_reader(txs, a, c.readers@[q] as int, n));
        }
    }
}

/// When the new transaction reads the account, its blocking predecessor
/// through that account is exactly the chain's most recent writer.
proof fn lemma_read_preds(c: AccountChain, txs: Seq<TxEntry>, t: TxEntry)
    requires
        chain_matches(c, txs),
        t.wf(),
        t.reads(c.account),
        txs.len() <= usize::MAX,
    ensures
        forall|j: int|
            #[trigger] blocks_via(txs.push(t), j, txs.len() as int, c.account) <==> (0 <= j
                < txs.len() && c.last_writer == Option::Some(j as usize)),
{
    let a = c.account;
    let p = txs.push(t);
    let n = txs.len() as int;
    assert(p[n] == t);
    assert(!t.writes(a));
    assert forall|j: int| #[trigger] blocks_via(p, j, n, a) implies (0 <= j < n && c.last_writer
        == Option::Some(j as usize)) by {
        lemma_writer_prefix(txs, t, a, j, n);
        assert(is_last_writer(txs, a, j, n));
        match c.last_writer {
            Option::Some(w) => {
                lemma_last_writer_unique(txs, a, j, w as int, n);
            },
            Option::None => {
                assert(txs[j].writes(a));
                assert(false);
            },
        }
    }
    assert forall|j: int|
        0 <= j < n && c.last_writer == Option::Some(j as usize) implies #[trigger] blocks_via(
        p,
        j,
        n,
        a,
    ) by {
        lemma_writer_prefix(txs, t, a, j, n);
        assert(is_last_writer(txs, a, j, n));
    }
}

/// `z` blocks the new transaction through one of the first `k` accounts of
/// `accts`.
spec fn blocks_via_prefix(pt: Seq<TxEntry>, i: int, accts: Seq<u64>, k: int, z: usize) -> bool {
    exists|m: int| 0 <= m < k && blocks_via(pt, z as int, i, accts[m])
}

proof fn lemma_prefix_extend(pt: Seq<TxEntry>, i: int, accts: Seq<u64>, k: int, z: usize)
    requires
        0 <= k < accts.len(),
    ensures
        blocks_via_prefix(pt, i, accts, k + 1, z) == (blocks_via_prefix(pt, i, accts, k, z)
            || blocks_via(pt, z as int, i, accts[k])),
{
    if blocks_via_prefix(pt, i, accts, k + 1, z) {
        let m = choose|m: int| 0 <= m < k + 1 && blocks_via(pt, z as int, i, accts[m]);
        if m < k {
            assert(blocks_via_prefix(pt, i, accts, k, z));
        }
    }
    if blocks_via_prefix(pt, i, accts, k, z) {
        let m = choose|m: int| 0 <= m < k && blocks_via(pt, z as int, i, accts[m]);
        assert(0 <= m < k + 1 && blocks_via(pt, z as int, i, accts[m]));
        assert(blocks_via_prefix(pt, i, accts, k + 1, z));
    }
    if blocks_via(pt, z as int, i, accts[k]) {
        assert(blocks_via_prefix(pt, i, accts, k + 1, z));
    }
}

/// Appends `x` unless it is already present, keeping the list duplicate-free.
fn push_unique(v: &mut Vec<usize>, x: usize)
    requires
        nodup_usize(old(v)@),
    ensures
        nodup_usize(final(v)@),
        forall|z: usize| final(v)@.contains(z) == (old(v)@.contains(z) || z == x),
{
    if !contains_usize(v, x) {
        let ghost before = v@;
        v.push(x);
        proof {
            assert forall|p: int, q: int| 0 <= p < q < v@.len() implies v@[p] != v@[q] by {
                if q < before.len() {
                    assert(v@[p] == before[p] && v@[q] == before[q]);
                } else {
                    assert(v@[q] == x);
                    assert(v@[p] == before[p]);
                    assert(!before.contains(x));
                }
            }
            assert forall|z: usize| v@.contains(z) == (before.contains(z) || z == x) by {
                if v@.contains(z) {
                    let w = choose|w: int| 0 <= w < v@.len() && v@[w] == z;
                    if w < before.len() {
                        assert(before[w] == z);
                    }
                }
                if before.contains(z) {
                    let w = choose|w: int| 0 <= w < before.len() && before[w] == z;
                    assert(v@[w] == z);
                }
                if z == x {
                    assert(v@[before.len() as int] == x);
                }
            }
        }
    } else {
        assert forall|z: usize| v@.contains(z) == (old(v)@.contains(z) || z == x) by {}
    }
}

/// Finds the chain slot for account `a`, creating an empty chain when the
/// account has none yet.
fn find_or_create_chain(chains: &mut Vec<AccountChain>, a: u64) -> (ci: usize)
    requires
        chains_distinct(old(chains)@),
    ensures
        chains_distinct(final(chains)@),
        ci < final(chains)@.len(),
        final(chains)@[ci as int].account == a,
        has_chain(old(chains)@, a) ==> final(chains)@ == old(chains)@,
        !has_chain(old(chains)@, a) ==> {
            &&& final(chains)@.len() == old(chains)@.len() + 1
            &&& ci == old(chains)@.len()
            &&& forall|m: int| 0 <= m < old(chains)@.len() ==> final(chains)@[m] == old(chains)@[m]
            &&& final(chains)@[ci as int].last_writer is None
            &&& final(chains)@[ci as int].readers@.len() == 0
        },
{
    let n = chains.len();
    let mut k: usize = 0;
    while k < n
        invariant
            0 <= k <= n,
            n == chains@.len(),
            chains@ == old(chains)@,
            chains_distinct(chains@),
            forall|m: int| 0 <= m < k ==> chains@[m].account != a,
        decreases n - k,
    {
        if chains[k].account == a {
            return k;
        }
        k += 1;
    }
    assert(!has_chain(chains@, a));
    chains.push(AccountChain { account: a, last_writer: Option::None, readers: Vec::new() });
    proof {
        assert forall|p: int, q: int|
            0 <= p < q < chains@.len() implies chains@[p].account != chains@[q].account by {
            if q < old(chains)@.len() {
                assert(chains@[p] == old(chains)@[p] && chains@[q] == old(chains)@[q]);
            } else {
                assert(chains@[q].account == a);
                assert(chains@[p] == old(chains)@[p]);
            }
        }
    }
    n
}

/// Registers the new transaction's locks against the per-account chains:
/// collects the blocking predecessors the conflict model prescribes, and
/// advances each touched chain. `txs` is the history so far and `t` the entry
/// being inserted, whose lock set is `*locks`.
fn collect_preds(
    chains: &mut Vec<AccountChain>,
    locks: &AccountLockSet,
    i: usize,
    Ghost(txs): Ghost<Seq<TxEntry>>,
    Ghost(t): Ghost<TxEntry>,
) -> (preds: Vec<usize>)
    requires
        chains_distinct(old(chains)@),
        chains_match(old(chains)@, txs),
        chains_cover(old(chains)@, txs),
        locks.wf(),
        t.wf(),
        t.writes_list == locks.writable@,
        t.reads_list == locks.readonly@,
        i as int == txs.len(),
    ensures
        chains_distinct(final(chains)@),
        chains_match(final(chains)@, txs.push(t)),
        chains_cover(final(chains)@, txs.push(t)),
        nodup_usize(preds@),
        forall|p: int|
            0 <= p < preds@.len() ==> blocks(txs.push(t), #[trigger] preds@[p] as int, i as int),
        forall|j: int| blocks(txs.push(t), j, i as int) ==> preds@.contains(j as usize),
{
    let ghost pt = txs.push(t);
    let ghost ws = locks.writable@;
    let ghost rs = locks.readonly@;
    let mut preds: Vec<usize> = Vec::new();

    let mut wi: usize = 0;
    while wi < locks.writable.len()
        invariant
            0 <= wi <= ws.len(),
            ws == locks.writable@,
            rs == locks.readonly@,
            locks.wf(),
            t.wf(),
            t.writes_list == locks.writable@,
            t.reads_list == locks.readonly@,
            pt == txs.push(t),
            i as int == txs.len(),
            chains_distinct(chains@),
            chains_cover(chains@, txs),
            forall|m: int| 0 <= m < wi ==> has_chain(chains@, #[trigger] ws[m]),
            forall|ci: int|
                0 <= ci < chains@.len() ==> if in_prefix(ws, wi as int, (#[trigger] chains@[ci]).account) {
                    chain_matches(chains@[ci], pt)
                } else {
                    chain_matches(chains@[ci], txs)
                },
            nodup_usize(preds@),
            forall|z: usize|
                #[trigger] preds@.contains(z) <==> blocks_via_prefix(pt, i as int, ws, wi as int, z),
        decreases ws.len() - wi,
    {
        let a = locks.writable[wi];
        let ghost chains_before = chains@;
        let ci = find_or_create_chain(chains, a);
        proof {
            assert(!in_prefix(ws, wi as int, a)) by {
                if in_prefix(ws, wi as int, a) {
                    let m = choose|m: int| 0 <= m < wi && ws[m] == a;
                    assert(ws[m] == ws[wi as int]);
                }
            }
            if has_chain(chains_before, a) {
                assert(chains@ == chains_before);
                assert(chain_matches(chains@[ci as int], txs));
            } else {
                assert forall|m: int|
                    0 <= m < txs.len() implies !(#[trigger] txs[m].touches(a)) by {
                    if txs[m].touches(a) {
                        assert(has_chain(chains_before, a));
                    }
                }
                lemma_chain_fresh(chains@[ci as int], txs);
            }
        }
        let ghost c_old = chains@[ci as int];
        let ghost preds_start = preds@;
        let lw = chains[ci].last_writer;
        if let Option::Some(w) = lw {
            push_unique(&mut preds, w);
        }
        let mut rt: usize = 0;
        let ghost preds_mid = preds@;
        while rt < chains[ci].readers.len()
            invariant
                ci < chains@.len(),
                chains@[ci as int] == c_old,
                0 <= rt <= c_old.readers@.len(),
                nodup_usize(preds@),
                forall|z: usize|
                    #[trigger] preds@.contains(z) <==> (preds_mid.contains(z) || exists|m: int|
                        0 <= m < rt && c_old.readers@[m] == z),
            decreases c_old.readers@.len() - rt,
        {
            let rj = chains[ci].readers[rt];
            let ghost pm = preds@;
            push_unique(&mut preds, rj);
            proof {
                assert forall|z: usize|
                    #[trigger] preds@.contains(z) implies (preds_mid.contains(z) || exists|m: int|
                        0 <= m < rt + 1 && c_old.readers@[m] == z) by {
                    if pm.contains(z) {
                        if !preds_mid.contains(z) {
                            let m = choose|m: int| 0 <= m < rt && c_old.readers@[m] == z;
                            assert(0 <= m < rt + 1 && c_old.readers@[m] == z);
                        }
                    } else {
                        assert(z == rj);
                        assert(c_old.readers@[rt as int] == z);
                    }
                }
                assert forall|z: usize|
                    (preds_mid.contains(z) || exists|m: int|
                        0 <= m < rt + 1 && c_old.readers@[m] == z) implies #[trigger] preds@.contains(
                    z,
                ) by {
                    if !preds_mid.contains(z) {
                        let m = choose|m: int| 0 <= m < rt + 1 && c_old.readers@[m] == z;
                        if m < rt {
                            assert(pm.contains(z));
                        } else {
                            assert(z == rj);
                        }
                    }
                }
            }
            rt += 1;
        }
        chains.set(ci, AccountChain { account: a, last_writer: Option::Some(i), readers: Vec::new() });
        proof {
            lemma_write_preds(c_old, txs, t);
            lemma_chain_written(chains@[ci as int], txs, t);
            // The gathered candidates are exactly the blockers through `a`.
            assert forall|z: usize|
                #[trigger] preds@.contains(z) <==> blocks_via_prefix(pt, i as int, ws, wi + 1, z) by {
                lemma_prefix_extend(pt, i as int, ws, wi as int, z);
                if preds@.contains(z) {
                    if !preds_mid.contains(z) {
                        let m = choose|m: int| 0 <= m < c_old.readers@.len() && c_old.readers@[m] == z;
                        assert(c_old.readers@.contains(z));
                        assert(blocks_via(pt, z as int, i as int, a));
                    } else if !preds_start.contains(z) {
                        assert(lw == Option::Some(z));
                        assert(blocks_via(pt, z as int, i as int, a));
                    }
                } else {
                    assert(!preds_start.contains(z));
                    assert(!(c_old.last_writer == Option::Some(z)));
                    assert(!c_old.readers@.contains(z));
                    if blocks_via(pt, z as int, i as int, a) {
                        assert(false);
                    }
                }
            }
            // Chains invariant for the next iteration.
            assert forall|ci2: int|
                0 <= ci2 < chains@.len() implies if in_prefix(ws, wi + 1, (#[trigger] chains@[ci2]).account) {
                chain_matches(chains@[ci2], pt)
            } else {
                chain_matches(chains@[ci2], txs)
            } by {
                let acc = chains@[ci2].account;
                if ci2 == ci {
                    assert(acc == a);
                    assert(ws[wi as int] == a);
                    assert(in_prefix(ws, wi + 1, acc));
                } else {
                    if ci2 < chains_before.len() {
                        assert(chains@[ci2] == chains_before[ci2]);
                    }
                    if in_prefix(ws, wi + 1, acc) {
                        let m = choose|m: int| 0 <= m < wi + 1 && ws[m] == acc;
                        if m == wi {
                            assert(chains@[ci2].account == chains@[ci as int].account);
                            assert(false);
                        }
                        assert(in_prefix(ws, wi as int, acc));
                    } else {
                        if in_prefix(ws, wi as int, acc) {
                            let m = choose|m: int| 0 <= m < wi && ws[m] == acc;
                            assert(0 <= m < wi + 1 && ws[m] == acc);
                            assert(false);
                        }
                    }
                }
            }
            assert forall|m: int| 0 <= m < wi + 1 implies has_chain(chains@, #[trigger] ws[m]) by {
                if m < wi {
                    let w0 = choose|w0: int|
                        0 <= w0 < chains_before.len() && chains_before[w0].account == ws[m];
                    if w0 == ci {
                        assert(chains@[ci as int].account == a);
                        assert(chains_before[w0].account == c_old.account);
                        assert(c_old.account == a);
                    } else {
                        assert(chains@[w0].account == ws[m]);
                    }
                    assert(has_chain(chains@, ws[m]));
                } else {
                    assert(chains@[ci as int].account == ws[m]);
                }
            }
            assert forall|i0: int, acc: u64|
                0 <= i0 < txs.len() && #[trigger] txs[i0].touches(acc) implies has_chain(
                chains@,
                acc,
            ) by {
                assert(has_chain(chains_before, acc));
                let w0 = choose|w0: int|
                    0 <= w0 < chains_before.len() && chains_before[w0].account == acc;
                if w0 == ci {
                    assert(chains@[ci as int].account == a && c_old.account == a);
                } else {
                    assert(chains@[w0].account == acc);
                }
            }
        }
        wi += 1;
    }

    let mut ri: usize = 0;
    while ri < locks.readonly.len()
        invariant
            0 <= ri <= rs.len(),
            ws == locks.writable@,
            rs == locks.readonly@,
            locks.wf(),
            t.wf(),
            t.writes_list == locks.writable@,
            t.reads_list == locks.readonly@,
            pt == txs.push(t),
            i as int == txs.len(),
            chains_distinct(chains@),
            chains_cover(chains@, txs),
            forall|m: int| 0 <= m < ws.len() ==> has_chain(chains@, #[trigger] ws[m]),
            forall|m: int| 0 <= m < ri ==> has_chain(chains@, #[trigger] rs[m]),
            forall|ci: int|
                0 <= ci < chains@.len() ==> if (in_prefix(ws, ws.len() as int, (#[trigger] chains@[ci]).account)
                    || in_prefix(rs, ri as int, chains@[ci].account)) {
                    chain_matches(chains@[ci], pt)
                } else {
                    chain_matches(chains@[ci], txs)
                },
            nodup_usize(preds@),
            forall|z: usize|
                #[trigger] preds@.contains(z) <==> (blocks_via_prefix(pt, i as int, ws, ws.len() as int, z)
                    || blocks_via_prefix(pt, i as int, rs, ri as int, z)),
        decreases rs.len() - ri,
    {
        let a = locks.readonly[ri];
        let ghost chains_before = chains@;
        let ci = find_or_create_chain(chains, a);
        proof {
            assert(!in_prefix(rs, ri as int, a)) by {
                if in_prefix(rs, ri as int, a) {
                    let m = choose|m: int| 0 <= m < ri && rs[m] == a;
                    assert(rs[m] == rs[ri as int]);
                }
            }
            assert(!in_prefix(ws, ws.len() as int, a)) by {
                if in_prefix(ws, ws.len() as int, a) {
                    let m = choose|m: int| 0 <= m < ws.len() && ws[m] == a;
                    assert(t.writes(a));
                    assert(t.reads(a));
                }
            }
            if has_chain(chains_before, a) {
                assert(chains@ == chains_before);
                assert(chain_matches(chains@[ci as int], txs));
            } else {
                assert forall|m: int|
                    0 <= m < txs.len() implies !(#[trigger] txs[m].touches(a)) by {
                    if txs[m].touches(a) {
                        assert(has_chain(chains_before, a));
                    }
                }
                lemma_chain_fresh(chains@[ci as int], txs);
            }
        }
        let ghost c_old = chains@[ci as int];
        let ghost preds_start = preds@;
        let lw = chains[ci].last_writer;
        if let Option::Some(w) = lw {
            push_unique(&mut preds, w);
        }
        let mut tmp = AccountChain { account: a, last_writer: lw, readers: Vec::new() };
        chains.set_and_swap(ci, &mut tmp);
        tmp.readers.push(i);
        let ghost c_new_readers = tmp.readers@;
        chains.set(ci, tmp);
        proof {
            assert(chains@[ci as int].account == a);
            assert(chains@[ci as int].last_writer == c_old.last_writer);
            assert(chains@[ci as int].readers@ == c_old.readers@.push(i));
            lemma_read_preds(c_old, txs, t);
            lemma_chain_read(c_old, chains@[ci as int], txs, t);
            assert forall|z: usize|
                #[trigger] preds@.contains(z) <==> (blocks_via_prefix(pt, i as int, ws, ws.len() as int, z)
                    || blocks_via_prefix(pt, i as int, rs, ri + 1, z)) by {
                lemma_prefix_extend(pt, i as int, rs, ri as int, z);
                if preds@.contains(z) {
                    if !preds_start.contains(z) {
                        assert(lw == Option::Some(z));
                        assert(blocks_via(pt, z as int, i as int, a));
                    }
                } else {
                    assert(!preds_start.contains(z));
                    assert(!(c_old.last_writer == Option::Some(z)));
                    if blocks_via(pt, z as int, i as int, a) {
                        assert(false);
                    }
                }
            }
            assert forall|ci2: int|
                0 <= ci2 < chains@.len() implies if (in_prefix(ws, ws.len() as int, (#[trigger] chains@[ci2]).account)
                || in_prefix(rs, ri + 1, chains@[ci2].account)) {
                chain_matches(chains@[ci2], pt)
            } else {
                chain_matches(chains@[ci2], txs)
            } by {
                let acc = chains@[ci2].account;
                if ci2 == ci {
                    assert(acc == a);
                    assert(rs[ri as int] == a);
                    assert(in_prefix(rs, ri + 1, acc));
                } else {
                    if ci2 < chains_before.len() {
                        assert(chains@[ci2] == chains_before[ci2]);
                    }
                    if in_prefix(rs, ri + 1, acc) && !in_prefix(rs, ri as int, acc) {
                        let m = choose|m: int| 0 <= m < ri + 1 && rs[m] == acc;
                        if m == ri {
                            assert(chains@[ci2].account == chains@[ci as int].account);
                            assert(false);
                        }
                        assert(in_prefix(rs, ri as int, acc));
                        assert(false);
                    }
                    if !in_prefix(rs, ri + 1, acc) && in_prefix(rs, ri as int, acc) {
                        let m = choose|m: int| 0 <= m < ri && rs[m] == acc;
                        assert(0 <= m < ri + 1 && rs[m] == acc);
                        assert(false);
                    }
                }
            }
            assert forall|m: int| 0 <= m < ws.len() implies has_chain(chains@, #[trigger] ws[m]) by {
                let w0 = choose|w0: int|
                    0 <= w0 < chains_before.len() && chains_before[w0].account == ws[m];
                if w0 == ci {
                    assert(chains@[ci as int].account == a && c_old.account == a);
                } else {
                    assert(chains@[w0].account == ws[m]);
                }
            }
            assert forall|m: int| 0 <= m < ri + 1 implies has_chain(chains@, #[trigger] rs[m]) by {
                if m < ri {
                    let w0 = choose|w0: int|
                        0 <= w0 < chains_before.len() && chains_before[w0].account == rs[m];
                    if w0 == ci {
                        assert(chains@[ci as int].account == a && c_old.account == a);
                    } else {
                        assert(chains@[w0].account == rs[m]);
                    }
                } else {
                    assert(chains@[ci as int].account == rs[m]);
                }
            }
            assert forall|i0: int, acc: u64|
                0 <= i0 < txs.len() && #[trigger] txs[i0].touches(acc) implies has_chain(
                chains@,
                acc,
            ) by {
                assert(has_chain(chains_before, acc));
                let w0 = choose|w0: int|
                    0 <= w0 < chains_before.len() && chains_before[w0].account == acc;
                if w0 == ci {
                    assert(chains@[ci as int].account == a && c_old.account == a);
                } else {
                    assert(chains@[w0].account == acc);
                }
            }
        }
        ri += 1;
    }

    proof {
        // Every touched chain now matches the extended history, and the
        // untouched ones still do: the appended transaction leaves them alone.
        assert forall|ci: int| 0 <= ci < chains@.len() implies chain_matches(
            #[trigger] chains@[ci],
            pt,
        ) by {
            let acc = chains@[ci].account;
            if !(in_prefix(ws, ws.len() as int, acc) || in_prefix(rs, rs.len() as int, acc)) {
                assert(!t.writes(acc)) by {
                    if t.writes(acc) {
                        let m = choose|m: int| 0 <= m < ws.len() && ws[m] == acc;
                        assert(in_prefix(ws, ws.len() as int, acc));
                    }
                }
                assert(!t.reads(acc)) by {
                    if t.reads(acc) {
                        let m = choose|m: int| 0 <= m < rs.len() && rs[m] == acc;
                        assert(in_prefix(rs, rs.len() as int, acc));
                    }
                }
                lemma_chain_untouched(chains@[ci], txs, t);
            }
        }
        // Coverage extends to the new transaction's own accounts.
        assert forall|i0: int, acc: u64|
            0 <= i0 < pt.len() && #[trigger] pt[i0].touches(acc) implies has_chain(
            chains@,
            acc,
        ) by {
            if i0 < txs.len() {
                assert(pt[i0] == txs[i0]);
            } else {
                assert(pt[i0] == t);
                if t.writes(acc) {
                    let m = choose|m: int| 0 <= m < ws.len() && ws[m] == acc;
                    assert(has_chain(chains@, ws[m]));
                } else {
                    let m = choose|m: int| 0 <= m < rs.len() && rs[m] == acc;
                    assert(has_chain(chains@, rs[m]));
                }
            }
        }
        // The gathered predecessors are exactly the blockers of the new
        // transaction.
        assert forall|p: int|
            0 <= p < preds@.len() implies blocks(pt, #[trigger] preds@[p] as int, i as int) by {
            let z = preds@[p];
            assert(preds@.contains(z));
            if blocks_via_prefix(pt, i as int, ws, ws.len() as int, z) {
                let m = choose|m: int| 0 <= m < ws.len() && blocks_via(pt, z as int, i as int, ws[m]);
            } else {
                let m = choose|m: int| 0 <= m < rs.len() && blocks_via(pt, z as int, i as int, rs[m]);
            }
        }
        assert forall|j: int| blocks(pt, j, i as int) implies preds@.contains(j as usize) by {
            lemma_blocks_bounds(pt, j, i as int);
            let a = choose|a: u64| blocks_via(pt, j, i as int, a);
            assert(pt[i as int] == t);
            assert(t.writes(a) || t.reads(a));
            let z = j as usize;
            assert(z as int == j);
            if t.writes(a) {
                let m = choose|m: int| 0 <= m < ws.len() && ws[m] == a;
                assert(blocks_via(pt, z as int, i as int, ws[m]));
                assert(blocks_via_prefix(pt, i as int, ws, ws.len() as int, z));
            } else {
                let m = choose|m: int| 0 <= m < rs.len() && rs[m] == a;
                assert(blocks_via(pt, z as int, i as int, rs[m]));
                assert(blocks_via_prefix(pt, i as int, rs, rs.len() as int, z));
            }
        }
    }
    preds
}

/// `a` occurs among the first `k` elements of `s`.
spec fn in_prefix(s: Seq<u64>, k: int, a: u64) -> bool {
    exists|m: int| 0 <= m < k && s[m] == a
}

/// Under the builder's invariant, a transaction whose hold was released has
/// been popped.
pub proof fn lemma_unblocked_implies_popped(g: ConflictGraphBuilder, i: int)
    requires
        g.wf(),
        g.unblocked(i),
    ensures
        g.popped(i),
{
    assert(g.node_wf(i));
}

/// Whether `v` holds `x`.
fn contains_usize(v: &Vec<usize>, x: usize) -> (r: bool)
    ensures
        r == v@.contains(x),
{
    let mut k: usize = 0;
    while k < v.len()
        invariant
            0 <= k <= v@.len(),
            forall|m: int| 0 <= m < k ==> v@[m] != x,
        decreases v@.len() - k,
    {
        if v[k] == x {
            return true;
        }
        k += 1;
    }
    false
}

} // verus!

