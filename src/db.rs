//! A transactional key-value store held in memory: snapshot isolation,
//! optimistic concurrency, savepoints, and module-prefixed sub-transactions.
use std::rc::Rc;

use vstd::prelude::*;

use crate::bytes::{bytes_from, compare_bytes, concat_bytes, copy_bytes, is_prefix_of, KeyOrder};
use crate::kv::{
    is_prefix_listing, lemma_insert_at, lemma_map_at, seq_to_map, sorted_keys, KvMap,
};

verus! {

/// Returned by `commit` when a transaction that committed after this one
/// began wrote a key that this one also wrote.
#[derive(PartialEq, Eq, Structural, Clone, Copy, Debug)]
pub struct WriteConflict;

pub open spec fn option_value<V>(o: Option<Rc<V>>) -> Option<V> {
    match o {
        Some(r) => Some(*r),
        None => None,
    }
}

/// One write: a new value for a key, or its removal.
pub open spec fn apply_write<V>(m: Map<Seq<u8>, V>, w: (Seq<u8>, Option<V>)) -> Map<Seq<u8>, V> {
    match w.1 {
        Some(v) => m.insert(w.0, v),
        None => m.remove(w.0),
    }
}

/// The writes of `log`, applied in order.
pub open spec fn apply_writes<V>(m: Map<Seq<u8>, V>, log: Seq<(Seq<u8>, Option<V>)>) -> Map<
    Seq<u8>,
    V,
>
    decreases log.len(),
{
    if log.len() == 0 {
        m
    } else {
        apply_write(apply_writes(m, log.drop_last()), log.last())
    }
}

pub open spec fn log_view<V>(w: Seq<(Vec<u8>, Option<Rc<V>>)>) -> Seq<(Seq<u8>, Option<V>)> {
    w.map_values(|e: (Vec<u8>, Option<Rc<V>>)| (e.0@, option_value(e.1)))
}

/// Some key that `log` writes was written by a commit numbered above `start`.
pub open spec fn conflicts<V>(
    written: Seq<(Seq<u8>, u64)>,
    start: u64,
    log: Seq<(Seq<u8>, Option<V>)>,
) -> bool {
    exists|i: int, j: int|
        0 <= i < written.len() && 0 <= j < log.len() && #[trigger] written[i].0 == #[trigger] log[j].0
            && written[i].1 > start
}

/// The keys that `log` writes, each with the commit number `version`.
pub open spec fn stamp<V>(log: Seq<(Seq<u8>, Option<V>)>, version: u64) -> Seq<(Seq<u8>, u64)> {
    log.map_values(|w: (Seq<u8>, Option<V>)| (w.0, version))
}

/// The entries of `m` under `p`, with `p` taken off their keys.
pub open spec fn strip_prefix<V>(m: Map<Seq<u8>, V>, p: Seq<u8>) -> Map<Seq<u8>, V> {
    Map::new(|k: Seq<u8>| m.contains_key(p + k), |k: Seq<u8>| m[p + k])
}

/// The writes of `log`, with `p` put before each key.
pub open spec fn prefixed_log<V>(p: Seq<u8>, log: Seq<(Seq<u8>, Option<V>)>) -> Seq<
    (Seq<u8>, Option<V>),
> {
    log.map_values(|w: (Seq<u8>, Option<V>)| (p + w.0, w.1))
}

/// `a` and `b` hold the same entries under every key that does not start with `p`.
pub open spec fn same_outside<V>(a: Map<Seq<u8>, V>, b: Map<Seq<u8>, V>, p: Seq<u8>) -> bool {
    forall|k: Seq<u8>|
        !is_prefix_of(p, k) ==> (a.contains_key(k) == b.contains_key(k) && (a.contains_key(k)
            ==> a[k] == b[k]))
}

/// Writes made under a prefix leave every key outside it alone.
pub proof fn lemma_prefixed_writes_stay_inside<V>(
    m: Map<Seq<u8>, V>,
    p: Seq<u8>,
    log: Seq<(Seq<u8>, Option<V>)>,
)
    ensures
        same_outside(apply_writes(m, prefixed_log(p, log)), m, p),
    decreases log.len(),
{
    if log.len() > 0 {
        let pl = prefixed_log(p, log);
        assert(pl.drop_last() =~= prefixed_log(p, log.drop_last()));
        lemma_prefixed_writes_stay_inside(m, p, log.drop_last());
        let k0 = pl.last().0;
        assert(k0 == p + log.last().0);
        assert(is_prefix_of(p, k0));
    }
}

/// Two transactions that began at the same commit both write key `k`. Once
/// the first one commits, the second one conflicts, so its commit is
/// refused with `WriteConflict`.
pub proof fn lemma_concurrent_writers_conflict<V>(
    written: Seq<(Seq<u8>, u64)>,
    version: u64,
    first: Seq<(Seq<u8>, Option<V>)>,
    second: Seq<(Seq<u8>, Option<V>)>,
    k: Seq<u8>,
)
    requires
        version < u64::MAX,
        exists|i: int| 0 <= i < first.len() && first[i].0 == k,
        exists|j: int| 0 <= j < second.len() && second[j].0 == k,
    ensures
        conflicts(written + stamp(first, (version + 1) as u64), version, second),
{
    let i = choose|i: int| 0 <= i < first.len() && first[i].0 == k;
    let j = choose|j: int| 0 <= j < second.len() && second[j].0 == k;
    let w = written + stamp(first, (version + 1) as u64);
    assert(w[written.len() + i] == (k, (version + 1) as u64));
    assert(w[written.len() + i].0 == second[j].0);
}

/// The committed state of the store.
pub struct MemDatabase<V> {
    data: KvMap<V>,
    version: u64,
    written: Vec<(Vec<u8>, u64)>,
}

impl<V> MemDatabase<V> {
    pub closed spec fn wf(&self) -> bool {
        &&& self.data.wf()
        &&& forall|i: int| 0 <= i < self.written@.len() ==> #[trigger] self.written@[i].1 <= self.version
    }

    /// The committed entries.
    pub closed spec fn view(&self) -> Map<Seq<u8>, V> {
        self.data.view()
    }

    /// The number of commits so far.
    pub closed spec fn version(&self) -> u64 {
        self.version
    }

    /// Each key written by a commit, with the number of that commit.
    pub closed spec fn written(&self) -> Seq<(Seq<u8>, u64)> {
        self.written@.map_values(|e: (Vec<u8>, u64)| (e.0@, e.1))
    }

    pub proof fn lemma_wf(&self)
        requires
            self.wf(),
        ensures
            self.view().dom().finite(),
            forall|i: int| 0 <= i < self.written().len() ==> #[trigger] self.written()[i].1 <= self.version(),
    {
        self.data.lemma_entries();
    }

    pub fn new() -> (r: Self)
        ensures
            r.wf(),
            r.view() == Map::<Seq<u8>, V>::empty(),
            r.version() == 0,
            r.written() == Seq::<(Seq<u8>, u64)>::empty(),
    {
        let r = MemDatabase { data: KvMap::new(), version: 0, written: Vec::new() };
        assert(r.written() =~= Seq::<(Seq<u8>, u64)>::empty());
        r
    }

    pub fn current_version(&self) -> (r: u64)
        ensures
            r == self.version(),
    {
        self.version
    }

    /// The committed value under `key`.
    pub fn get(&self, key: &[u8]) -> (r: Option<Rc<V>>)
        requires
            self.wf(),
        ensures
            r.is_some() <==> self.view().contains_key(key@),
            r.is_some() ==> *r.unwrap() == self.view()[key@],
    {
        self.data.get(key)
    }

    /// The committed entries whose key starts with `prefix`, in ascending
    /// key order.
    pub fn find_by_prefix(&self, prefix: &[u8]) -> (r: Vec<(Vec<u8>, Rc<V>)>)
        requires
            self.wf(),
        ensures
            is_prefix_listing(self.view(), prefix@, r@.map_values(|e: (Vec<u8>, Rc<V>)| (e.0@, *e.1))),
    {
        self.data.find_by_prefix(prefix)
    }

    /// Opens a transaction that sees the entries committed so far.
    pub fn begin_transaction(&self) -> (tx: DbTx<V>)
        requires
            self.wf(),
        ensures
            tx.wf(),
            tx.view() == self.view(),
            tx.snapshot() == self.view(),
            tx.log() == Seq::<(Seq<u8>, Option<V>)>::empty(),
            tx.start() == self.version(),
            tx.savepoint() is None,
    {
        let tx = DbTx {
            current: self.data.copy(),
            writes: Vec::new(),
            savepoint: None,
            start: self.version,
            snapshot: Ghost(self.data.view()),
        };
        assert(tx.log() =~= Seq::<(Seq<u8>, Option<V>)>::empty());
        tx
    }
}

/// A transaction: the entries it sees, and the writes it has made.
pub struct DbTx<V> {
    current: KvMap<V>,
    writes: Vec<(Vec<u8>, Option<Rc<V>>)>,
    savepoint: Option<(usize, KvMap<V>)>,
    start: u64,
    snapshot: Ghost<Map<Seq<u8>, V>>,
}

impl<V> DbTx<V> {
    /// What the transaction reads: its snapshot with its own writes applied.
    pub closed spec fn view(&self) -> Map<Seq<u8>, V> {
        self.current.view()
    }

    /// Its writes, in the order they were made.
    pub closed spec fn log(&self) -> Seq<(Seq<u8>, Option<V>)> {
        log_view(self.writes@)
    }

    /// The commit number of the store when it began.
    pub closed spec fn start(&self) -> u64 {
        self.start
    }

    /// The entries it saw when it began.
    pub closed spec fn snapshot(&self) -> Map<Seq<u8>, V> {
        self.snapshot@
    }

    /// The number of writes that had been made when the savepoint was set,
    /// and what the transaction read then.
    pub closed spec fn savepoint(&self) -> Option<(nat, Map<Seq<u8>, V>)> {
        match self.savepoint {
            Some(sp) => Some((sp.0 as nat, sp.1.view())),
            None => None,
        }
    }

    pub closed spec fn wf(&self) -> bool {
        &&& self.current.wf()
        &&& self.current.view() == apply_writes(self.snapshot@, self.log())
        &&& match self.savepoint {
            Some(sp) => {
                &&& sp.0 <= self.writes@.len()
                &&& sp.1.wf()
                &&& sp.1.view() == apply_writes(self.snapshot@, self.log().take(sp.0 as int))
            },
            None => true,
        }
    }

    pub proof fn lemma_wf(&self)
        requires
            self.wf(),
        ensures
            self.view() == apply_writes(self.snapshot(), self.log()),
            self.view().dom().finite(),
    {
        self.current.lemma_entries();
    }

    pub fn get_bytes(&self, key: &[u8]) -> (r: Option<Rc<V>>)
        requires
            self.wf(),
        ensures
            r.is_some() <==> self.view().contains_key(key@),
            r.is_some() ==> *r.unwrap() == self.view()[key@],
    {
        self.current.get(key)
    }

    proof fn lemma_push_write(&self, w: (Vec<u8>, Option<Rc<V>>), writes: Seq<(Vec<u8>, Option<Rc<V>>)>)
        requires
            writes == self.writes@.push(w),
        ensures
            log_view(writes) == self.log().push((w.0@, option_value(w.1))),
            log_view(writes).drop_last() == self.log(),
            forall|n: int| 0 <= n <= self.writes@.len() ==> log_view(writes).take(n) == self.log().take(n),
    {
        assert(log_view(writes) =~= self.log().push((w.0@, option_value(w.1))));
        assert(log_view(writes).drop_last() =~= self.log());
        assert forall|n: int| 0 <= n <= self.writes@.len() implies log_view(writes).take(n) == self.log().take(n) by {
            assert(log_view(writes).take(n) =~= self.log().take(n));
        }
    }

    /// Writes `value` under `key`; returns the value it replaced.
    pub fn insert_bytes(&mut self, key: &[u8], value: Rc<V>) -> (prior: Option<Rc<V>>)
        requires
            old(self).wf(),
        ensures
            final(self).wf(),
            final(self).view() == old(self).view().insert(key@, *value),
            final(self).log() == old(self).log().push((key@, Some(*value))),
            final(self).start() == old(self).start(),
            final(self).snapshot() == old(self).snapshot(),
            final(self).savepoint() == old(self).savepoint(),
            prior.is_some() <==> old(self).view().contains_key(key@),
            prior.is_some() ==> *prior.unwrap() == old(self).view()[key@],
    {
        let ghost old_self = *self;
        let prior = self.current.insert(copy_bytes(key), value.clone());
        let w = (copy_bytes(key), Some(value));
        self.writes.push(w);
        proof {
            old_self.lemma_push_write(w, self.writes@);
        }
        prior
    }

    /// Removes the entry under `key`; returns it.
    pub fn remove(&mut self, key: &[u8]) -> (prior: Option<Rc<V>>)
        requires
            old(self).wf(),
        ensures
            final(self).wf(),
            final(self).view() == old(self).view().remove(key@),
            final(self).log() == old(self).log().push((key@, None::<V>)),
            final(self).start() == old(self).start(),
            final(self).snapshot() == old(self).snapshot(),
            final(self).savepoint() == old(self).savepoint(),
            prior.is_some() <==> old(self).view().contains_key(key@),
            prior.is_some() ==> *prior.unwrap() == old(self).view()[key@],
    {
        let ghost old_self = *self;
        let prior = self.current.remove(key);
        let w: (Vec<u8>, Option<Rc<V>>) = (copy_bytes(key), None);
        self.writes.push(w);
        proof {
            old_self.lemma_push_write(w, self.writes@);
        }
        prior
    }

    /// The entries whose key starts with `prefix`, in ascending key order.
    pub fn find_by_prefix(&self, prefix: &[u8]) -> (r: Vec<(Vec<u8>, Rc<V>)>)
        requires
            self.wf(),
        ensures
            is_prefix_listing(self.view(), prefix@, r@.map_values(|e: (Vec<u8>, Rc<V>)| (e.0@, *e.1))),
    {
        self.current.find_by_prefix(prefix)
    }

    /// Marks the point that `rollback_to_savepoint` returns to.
    pub fn set_savepoint(&mut self)
        requires
            old(self).wf(),
        ensures
            final(self).wf(),
            final(self).view() == old(self).view(),
            final(self).log() == old(self).log(),
            final(self).start() == old(self).start(),
            final(self).snapshot() == old(self).snapshot(),
            final(self).savepoint() == Some((old(self).log().len(), old(self).view())),
    {
        let saved = self.current.copy();
        self.savepoint = Some((self.writes.len(), saved));
        proof {
            assert(self.log().take(self.writes@.len() as int) =~= self.log());
        }
    }

    /// Discards the writes made since the savepoint was set; the savepoint
    /// stays. Without a savepoint nothing changes and `false` is returned.
    pub fn rollback_to_savepoint(&mut self) -> (rolled_back: bool)
        requires
            old(self).wf(),
        ensures
            final(self).wf(),
            rolled_back == old(self).savepoint().is_some(),
            final(self).start() == old(self).start(),
            final(self).snapshot() == old(self).snapshot(),
            final(self).savepoint() == old(self).savepoint(),
            !rolled_back ==> final(self).view() == old(self).view() && final(self).log() == old(
                self,
            ).log(),
            rolled_back ==> final(self).log() == old(self).log().take(
                old(self).savepoint().unwrap().0 as int,
            ) && final(self).view() == old(self).savepoint().unwrap().1,
    {
        match &self.savepoint {
            None => false,
            Some(sp) => {
                let n = sp.0;
                let restored = sp.1.copy();
                let ghost old_log = self.log();
                self.writes.truncate(n);
                self.current = restored;
                proof {
                    assert(self.log() =~= old_log.take(n as int));
                    assert(self.log().take(n as int) =~= self.log());
                }
                true
            },
        }
    }

    /// Applies the writes to the store, unless a commit made after this
    /// transaction began wrote one of the same keys.
    pub fn commit(self, db: &mut MemDatabase<V>) -> (r: Result<(), WriteConflict>)
        requires
            self.wf(),
            old(db).wf(),
            old(db).version() < u64::MAX,
        ensures
            final(db).wf(),
            r.is_err() <==> conflicts(old(db).written(), self.start(), self.log()),
            r.is_err() ==> *final(db) == *old(db),
            r.is_ok() ==> final(db).view() == apply_writes(old(db).view(), self.log()),
            r.is_ok() ==> final(db).version() == old(db).version() + 1,
            r.is_ok() ==> final(db).written() == old(db).written() + stamp(
                self.log(),
                (old(db).version() + 1) as u64,
            ),
    {
        let ghost log = self.log();
        let ghost w0 = db.written();
        let mut j: usize = 0;
        while j < self.writes.len()
            invariant
                log == self.log(),
                w0 == db.written(),
                db.wf(),
                j <= self.writes@.len(),
                log.len() == self.writes@.len(),
                w0.len() == db.written@.len(),
                forall|a: int, b: int|
                    0 <= a < w0.len() && 0 <= b < j ==> !(w0[a].0 == log[b].0 && w0[a].1
                        > self.start),
            decreases self.writes@.len() - j,
        {
            let mut i: usize = 0;
            while i < db.written.len()
                invariant
                    log == self.log(),
                    w0 == db.written(),
                    db.wf(),
                    j < self.writes@.len(),
                    i <= db.written@.len(),
                    log.len() == self.writes@.len(),
                    w0.len() == db.written@.len(),
                    forall|a: int, b: int|
                        0 <= a < w0.len() && 0 <= b < j ==> !(w0[a].0 == log[b].0 && w0[a].1
                            > self.start),
                    forall|a: int| 0 <= a < i ==> !(w0[a].0 == log[j as int].0 && w0[a].1 > self.start),
                decreases db.written@.len() - i,
            {
                assert(w0[i as int].0 == db.written@[i as int].0@);
                assert(log[j as int].0 == self.writes@[j as int].0@);
                if db.written[i].1 > self.start && compare_bytes(
                    db.written[i].0.as_slice(),
                    self.writes[j].0.as_slice(),
                ) == KeyOrder::Equal {
                    return Err(WriteConflict);
                }
                i += 1;
            }
            j += 1;
        }
        let ghost d0 = db.data.view();
        let new_version = db.version + 1;
        db.version = new_version;
        let mut j: usize = 0;
        while j < self.writes.len()
            invariant
                log == self.log(),
                log.len() == self.writes@.len(),
                j <= self.writes@.len(),
                db.data.wf(),
                db.version == new_version,
                db.data.view() == apply_writes(d0, log.take(j as int)),
                db.written() == w0 + stamp(log.take(j as int), new_version),
                forall|i: int| 0 <= i < db.written@.len() ==> #[trigger] db.written@[i].1 <= db.version,
            decreases self.writes@.len() - j,
        {
            assert(log.take(j + 1).drop_last() =~= log.take(j as int));
            assert(log[j as int] == (self.writes@[j as int].0@, option_value(self.writes@[j as int].1)));
            match &self.writes[j].1 {
                Some(v) => {
                    db.data.insert(copy_bytes(self.writes[j].0.as_slice()), v.clone());
                },
                None => {
                    db.data.remove(self.writes[j].0.as_slice());
                },
            }
            let ghost before = db.written@;
            let stamped_key = copy_bytes(self.writes[j].0.as_slice());
            db.written.push((stamped_key, new_version));
            proof {
                assert(db.written@ == before.push((stamped_key, new_version)));
                assert(db.written() =~= before.map_values(|e: (Vec<u8>, u64)| (e.0@, e.1)).push((log[j as int].0, new_version)));
                assert(stamp(log.take(j + 1), new_version) =~= stamp(log.take(j as int), new_version).push((log[j as int].0, new_version)));
            }
            j += 1;
            proof {
                assert(db.written() =~= w0 + stamp(log.take(j as int), new_version));
            }
        }
        proof {
            assert(log.take(log.len() as int) =~= log);
        }
        Ok(())
    }

    /// A transaction over the entries under `prefix`, with the prefix taken
    /// off their keys. Its writes reach this transaction through
    /// `apply_module_writes`.
    pub fn module_view(&self, prefix: &[u8]) -> (sub: DbTx<V>)
        requires
            self.wf(),
        ensures
            sub.wf(),
            sub.view() == strip_prefix(self.view(), prefix@),
            sub.snapshot() == sub.view(),
            sub.log() == Seq::<(Seq<u8>, Option<V>)>::empty(),
            sub.start() == self.start(),
            sub.savepoint() is None,
    {
        let entries = self.current.find_by_prefix(prefix);
        let ghost rv = entries@.map_values(|e: (Vec<u8>, Rc<V>)| (e.0@, *e.1));
        let ghost p = prefix@;
        let mut m: KvMap<V> = KvMap::new();
        let mut j: usize = 0;
        while j < entries.len()
            invariant
                rv == entries@.map_values(|e: (Vec<u8>, Rc<V>)| (e.0@, *e.1)),
                p == prefix@,
                is_prefix_listing(self.view(), p, rv),
                j <= entries@.len(),
                m.wf(),
                m.view() == strip_prefix(seq_to_map(rv.take(j as int)), p),
            decreases entries@.len() - j,
        {
            let ghost k = rv[j as int].0;
            assert(rv[j as int] == (entries@[j as int].0@, *entries@[j as int].1));
            assert(is_prefix_of(p, k));
            let key_j = entries[j].0.as_slice();
            assert(key_j@ == k);
            assert(prefix.len() <= key_j@.len());
            let rest = bytes_from(key_j, prefix.len());
            assert(p + rest@ =~= k);
            proof {
                let t = rv.take(j as int);
                assert(sorted_keys(t));
                assert forall|a: int| 0 <= a < t.len() implies crate::bytes::lex_lt(#[trigger] t[a].0, k) by {
                    assert(t[a] == rv[a]);
                }
                lemma_insert_at(t, j as int, k, rv[j as int].1);
                assert(t.insert(j as int, (k, rv[j as int].1)) =~= rv.take(j + 1));
                let big = seq_to_map(t).insert(k, rv[j as int].1);
                assert(strip_prefix(big, p) =~= strip_prefix(seq_to_map(t), p).insert(rest@, rv[j as int].1)) by {
                    assert forall|x: Seq<u8>| (p + x == k) == (x == rest@) by {
                        if p + x == k {
                            assert(x =~= (p + x).subrange(p.len() as int, (p + x).len() as int));
                            assert(rest@ =~= k.subrange(p.len() as int, k.len() as int));
                        }
                    }
                }
            }
            m.insert(rest, entries[j].1.clone());
            j += 1;
        }
        proof {
            assert(rv.take(rv.len() as int) =~= rv);
            assert(strip_prefix(seq_to_map(rv), p) =~= strip_prefix(self.view(), p)) by {
                assert forall|x: Seq<u8>| #[trigger] seq_to_map(rv).contains_key(p + x) == self.view().contains_key(p + x) by {
                    assert(is_prefix_of(p, p + x));
                    if seq_to_map(rv).contains_key(p + x) {
                        let a = crate::kv::key_index(rv, p + x);
                    }
                }
                assert forall|x: Seq<u8>| seq_to_map(rv).contains_key(p + x) implies #[trigger] seq_to_map(rv)[p + x] == self.view()[p + x] by {
                    let a = crate::kv::key_index(rv, p + x);
                    lemma_map_at(rv, a);
                }
            }
        }
        let sub = DbTx {
            current: m,
            writes: Vec::new(),
            savepoint: None,
            start: self.start,
            snapshot: Ghost(strip_prefix(self.view(), p)),
        };
        assert(sub.log() =~= Seq::<(Seq<u8>, Option<V>)>::empty());
        sub
    }

    /// Replays the writes of `sub` here, with `prefix` before each key.
    pub fn apply_module_writes(&mut self, prefix: &[u8], sub: &DbTx<V>)
        requires
            old(self).wf(),
        ensures
            final(self).wf(),
            final(self).view() == apply_writes(old(self).view(), prefixed_log(prefix@, sub.log())),
            same_outside(final(self).view(), old(self).view(), prefix@),
            final(self).log() == old(self).log() + prefixed_log(prefix@, sub.log()),
            final(self).start() == old(self).start(),
            final(self).snapshot() == old(self).snapshot(),
            final(self).savepoint() == old(self).savepoint(),
    {
        let ghost v0 = self.view();
        let ghost sl = sub.log();
        let mut j: usize = 0;
        while j < sub.writes.len()
            invariant
                sl == sub.log(),
                sl.len() == sub.writes@.len(),
                j <= sub.writes@.len(),
                self.wf(),
                self.view() == apply_writes(v0, prefixed_log(prefix@, sl.take(j as int))),
                self.log() == old(self).log() + prefixed_log(prefix@, sl.take(j as int)),
                self.start() == old(self).start(),
                self.snapshot() == old(self).snapshot(),
                self.savepoint() == old(self).savepoint(),
            decreases sub.writes@.len() - j,
        {
            let key = concat_bytes(prefix, sub.writes[j].0.as_slice());
            proof {
                assert(prefixed_log(prefix@, sl.take(j + 1)).drop_last() =~= prefixed_log(prefix@, sl.take(j as int)));
                assert(sl[j as int] == (sub.writes@[j as int].0@, option_value(sub.writes@[j as int].1)));
            }
            match &sub.writes[j].1 {
                Some(v) => {
                    self.insert_bytes(key.as_slice(), v.clone());
                },
                None => {
                    self.remove(key.as_slice());
                },
            }
            proof {
                assert(prefixed_log(prefix@, sl.take(j + 1)) =~= prefixed_log(prefix@, sl.take(j as int)).push((key@, sl[j as int].1)));
            }
            j += 1;
        }
        proof {
            assert(sl.take(sl.len() as int) =~= sl);
            assert(prefixed_log(prefix@, sl.take(0)) =~= Seq::<(Seq<u8>, Option<V>)>::empty());
            lemma_prefixed_writes_stay_inside(v0, prefix@, sl);
        }
    }
}

} // verus!
