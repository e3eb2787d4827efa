//! An ordered map from byte-string keys to shared values, kept as a vector
//! sorted by key.
use std::rc::Rc;

use vstd::prelude::*;

use crate::bytes::{
    compare_bytes, copy_bytes, is_prefix_of, lemma_lex_asymmetric, lemma_lex_irreflexive,
    lemma_lex_total, lemma_lex_transitive, lex_lt, starts_with, KeyOrder,
};

verus! {

/// Keys strictly ascending.
pub open spec fn sorted_keys<V>(s: Seq<(Seq<u8>, V)>) -> bool {
    forall|i: int, j: int| 0 <= i < j < s.len() ==> lex_lt(s[i].0, s[j].0)
}

/// Some entry of `s` has key `k`.
pub open spec fn has_key<V>(s: Seq<(Seq<u8>, V)>, k: Seq<u8>) -> bool {
    exists|i: int| 0 <= i < s.len() && s[i].0 == k
}

/// An index of an entry of `s` with key `k`, if there is one.
pub open spec fn key_index<V>(s: Seq<(Seq<u8>, V)>, k: Seq<u8>) -> int {
    choose|i: int| 0 <= i < s.len() && s[i].0 == k
}

/// The map that a sequence of entries with distinct keys stands for.
pub open spec fn seq_to_map<V>(s: Seq<(Seq<u8>, V)>) -> Map<Seq<u8>, V> {
    Map::new(|k: Seq<u8>| has_key(s, k), |k: Seq<u8>| s[key_index(s, k)].1)
}

pub proof fn lemma_map_at<V>(s: Seq<(Seq<u8>, V)>, i: int)
    requires
        sorted_keys(s),
        0 <= i < s.len(),
    ensures
        seq_to_map(s).contains_key(s[i].0),
        seq_to_map(s)[s[i].0] == s[i].1,
{
    let k = s[i].0;
    assert(has_key(s, k));
    let j = key_index(s, k);
    if j < i {
        assert(lex_lt(s[j].0, s[i].0));
        lemma_lex_irreflexive(k);
    } else if j > i {
        assert(lex_lt(s[i].0, s[j].0));
        lemma_lex_irreflexive(k);
    }
}

/// The entries of `s` whose key starts with `p`, in the order of `s`.
pub open spec fn entries_with_prefix<V>(s: Seq<(Seq<u8>, V)>, p: Seq<u8>) -> Seq<(Seq<u8>, V)> {
    s.filter(|e: (Seq<u8>, V)| is_prefix_of(p, e.0))
}

pub open spec fn spec_deref_ref<V>(r: &V) -> V {
    *r
}

pub open spec fn spec_deref<V>(r: &Rc<V>) -> V {
    **r
}

/// `r` lists, in ascending key order, exactly the entries of `m` whose key
/// starts with `p`.
pub open spec fn is_prefix_listing<V>(m: Map<Seq<u8>, V>, p: Seq<u8>, r: Seq<(Seq<u8>, V)>) -> bool {
    &&& sorted_keys(r)
    &&& forall|j: int|
        0 <= j < r.len() ==> is_prefix_of(p, #[trigger] r[j].0) && m.contains_key(r[j].0)
            && m[r[j].0] == r[j].1
    &&& forall|k: Seq<u8>| m.contains_key(k) && is_prefix_of(p, k) ==> has_key(r, k)
}

proof fn lemma_filter_sorted<V>(s: Seq<(Seq<u8>, V)>, pred: spec_fn((Seq<u8>, V)) -> bool)
    requires
        sorted_keys(s),
    ensures
        sorted_keys(s.filter(pred)),
    decreases s.len(),
{
    reveal(Seq::filter);
    if s.len() > 0 {
        let t = s.drop_last();
        assert(sorted_keys(t));
        lemma_filter_sorted(t, pred);
        let f = t.filter(pred);
        if pred(s.last()) {
            let g = f.push(s.last());
            assert forall|a: int, b: int| 0 <= a < b < g.len() implies lex_lt(g[a].0, g[b].0) by {
                if b == f.len() {
                    assert(f.contains(f[a]));
                    t.lemma_filter_contains_rev(pred, f[a]);
                    let m = choose|m: int| 0 <= m < t.len() && t[m] == f[a];
                    assert(lex_lt(s[m].0, s[s.len() - 1].0));
                }
            }
        }
    }
}

pub proof fn lemma_prefix_listing<V>(s: Seq<(Seq<u8>, V)>, p: Seq<u8>)
    requires
        sorted_keys(s),
    ensures
        is_prefix_listing(seq_to_map(s), p, entries_with_prefix(s, p)),
{
    let pred = |e: (Seq<u8>, V)| is_prefix_of(p, e.0);
    let r = s.filter(pred);
    lemma_filter_sorted(s, pred);
    assert forall|j: int| 0 <= j < r.len() implies is_prefix_of(p, #[trigger] r[j].0) && seq_to_map(
        s,
    ).contains_key(r[j].0) && seq_to_map(s)[r[j].0] == r[j].1 by {
        s.lemma_filter_pred(pred, j);
        assert(r.contains(r[j]));
        s.lemma_filter_contains_rev(pred, r[j]);
        let m = choose|m: int| 0 <= m < s.len() && s[m] == r[j];
        lemma_map_at(s, m);
    }
    assert forall|k: Seq<u8>| seq_to_map(s).contains_key(k) && is_prefix_of(p, k) implies has_key(
        r,
        k,
    ) by {
        let m = key_index(s, k);
        s.lemma_filter_contains(pred, m);
        let j = choose|j: int| 0 <= j < r.len() && r[j] == s[m];
        assert(r[j].0 == k);
    }
}

/// An ordered map from byte strings to values held behind `Rc`.
pub struct KvMap<V> {
    entries: Vec<(Vec<u8>, Rc<V>)>,
}

impl<V> KvMap<V> {
    /// The entries, in ascending key order.
    pub closed spec fn entry_seq(&self) -> Seq<(Seq<u8>, V)> {
        self.entries@.map_values(|e: (Vec<u8>, Rc<V>)| (e.0@, *e.1))
    }

    pub closed spec fn wf(&self) -> bool {
        sorted_keys(self.entry_seq())
    }

    pub closed spec fn view(&self) -> Map<Seq<u8>, V> {
        seq_to_map(self.entry_seq())
    }

    pub proof fn lemma_entries(&self)
        requires
            self.wf(),
        ensures
            sorted_keys(self.entry_seq()),
            self.view() == seq_to_map(self.entry_seq()),
            self.view().dom().finite(),
    {
        lemma_dom_finite(self.entry_seq());
    }

    pub fn new() -> (r: Self)
        ensures
            r.wf(),
            r.view() == Map::<Seq<u8>, V>::empty(),
    {
        let r = KvMap { entries: Vec::new() };
        assert(r.view() =~= Map::<Seq<u8>, V>::empty());
        r
    }

    pub fn len(&self) -> (n: usize)
        requires
            self.wf(),
        ensures
            n == self.view().len(),
    {
        proof {
            lemma_len(self.entry_seq());
        }
        self.entries.len()
    }

    /// Index of the first entry whose key is not below `key`.
    fn position(&self, key: &[u8]) -> (r: (usize, bool))
        requires
            self.wf(),
        ensures
            r.0 <= self.entry_seq().len(),
            forall|i: int| 0 <= i < r.0 ==> lex_lt(#[trigger] self.entry_seq()[i].0, key@),
            forall|i: int| r.0 <= i < self.entry_seq().len() ==> lex_lt(key@, #[trigger] self.entry_seq()[i].0) || (i == r.0 && r.1),
            r.1 <==> (r.0 < self.entry_seq().len() && self.entry_seq()[r.0 as int].0 == key@),
    {
        let ghost s = self.entry_seq();
        let mut i: usize = 0;
        while i < self.entries.len()
            invariant
                s == self.entry_seq(),
                sorted_keys(s),
                i <= s.len(),
                s.len() == self.entries@.len(),
                forall|j: int| 0 <= j < i ==> lex_lt(#[trigger] s[j].0, key@),
            decreases s.len() - i,
        {
            assert(s[i as int].0 == self.entries@[i as int].0@);
            match compare_bytes(self.entries[i].0.as_slice(), key) {
                KeyOrder::Less => {},
                KeyOrder::Equal => {
                    proof {
                        assert forall|j: int| i < j < s.len() implies lex_lt(key@, #[trigger] s[j].0) by {
                            assert(lex_lt(s[i as int].0, s[j].0));
                        }
                    }
                    return (i, true);
                },
                KeyOrder::Greater => {
                    proof {
                        assert forall|j: int| i <= j < s.len() implies lex_lt(key@, #[trigger] s[j].0) by {
                            if j > i {
                                assert(lex_lt(s[i as int].0, s[j].0));
                                lemma_lex_transitive(key@, s[i as int].0, s[j].0);
                            }
                        }
                        assert forall|j: int| 0 <= j < i implies s[j].0 != key@ by {
                            assert(lex_lt(s[j].0, key@));
                            lemma_lex_irreflexive(key@);
                        }
                    }
                    return (i, false);
                },
            }
            i += 1;
        }
        (i, false)
    }

    pub fn get(&self, key: &[u8]) -> (r: Option<Rc<V>>)
        requires
            self.wf(),
        ensures
            r.is_some() <==> self.view().contains_key(key@),
            r.is_some() ==> *r.unwrap() == self.view()[key@],
    {
        let (i, found) = self.position(key);
        proof {
            self.lemma_not_found(key@, i as int, found);
        }
        if found {
            proof {
                lemma_map_at(self.entry_seq(), i as int);
            }
            Some(self.entries[i].1.clone())
        } else {
            None
        }
    }

    proof fn lemma_not_found(&self, key: Seq<u8>, i: int, found: bool)
        requires
            self.wf(),
            0 <= i <= self.entry_seq().len(),
            forall|j: int| 0 <= j < i ==> lex_lt(#[trigger] self.entry_seq()[j].0, key),
            forall|j: int| i <= j < self.entry_seq().len() ==> lex_lt(key, #[trigger] self.entry_seq()[j].0) || (j == i && found),
        ensures
            !found ==> !self.view().contains_key(key),
    {
        if !found {
            let s = self.entry_seq();
            assert forall|j: int| 0 <= j < s.len() implies s[j].0 != key by {
                if s[j].0 == key {
                    lemma_lex_irreflexive(key);
                }
            }
        }
    }

    /// Inserts or replaces the value under `key`; returns the value it replaced.
    pub fn insert(&mut self, key: Vec<u8>, value: Rc<V>) -> (prior: Option<Rc<V>>)
        requires
            old(self).wf(),
        ensures
            final(self).wf(),
            final(self).view() == old(self).view().insert(key@, *value),
            prior.is_some() <==> old(self).view().contains_key(key@),
            prior.is_some() ==> *prior.unwrap() == old(self).view()[key@],
    {
        let (i, found) = self.position(key.as_slice());
        let ghost s = self.entry_seq();
        let ghost k = key@;
        let ghost v = spec_deref(&value);
        proof {
            self.lemma_not_found(k, i as int, found);
        }
        if found {
            proof {
                lemma_map_at(s, i as int);
            }
            let old_entry = self.entries.remove(i);
            self.entries.insert(i, (key, value));
            proof {
                assert(self.entry_seq() =~= s.update(i as int, (k, v)));
                lemma_update_at(s, i as int, k, v);
            }
            Some(old_entry.1)
        } else {
            self.entries.insert(i, (key, value));
            proof {
                assert(self.entry_seq() =~= s.insert(i as int, (k, v)));
                lemma_insert_at(s, i as int, k, v);
            }
            None
        }
    }

    /// Removes the value under `key`; returns it.
    pub fn remove(&mut self, key: &[u8]) -> (prior: Option<Rc<V>>)
        requires
            old(self).wf(),
        ensures
            final(self).wf(),
            final(self).view() == old(self).view().remove(key@),
            prior.is_some() <==> old(self).view().contains_key(key@),
            prior.is_some() ==> *prior.unwrap() == old(self).view()[key@],
    {
        let (i, found) = self.position(key);
        let ghost s = self.entry_seq();
        proof {
            self.lemma_not_found(key@, i as int, found);
        }
        if found {
            proof {
                lemma_map_at(s, i as int);
            }
            let old_entry = self.entries.remove(i);
            proof {
                assert(self.entry_seq() =~= s.remove(i as int));
                lemma_remove_at(s, i as int);
            }
            Some(old_entry.1)
        } else {
            proof {
                assert(self.view() =~= self.view().remove(key@));
            }
            None
        }
    }

    /// The entries whose key starts with `prefix`, in ascending key order.
    pub fn find_by_prefix(&self, prefix: &[u8]) -> (r: Vec<(Vec<u8>, Rc<V>)>)
        requires
            self.wf(),
        ensures
            is_prefix_listing(self.view(), prefix@, r@.map_values(|e: (Vec<u8>, Rc<V>)| (e.0@, *e.1))),
    {
        let ghost s = self.entry_seq();
        let ghost pred = |e: (Seq<u8>, V)| is_prefix_of(prefix@, e.0);
        let mut out: Vec<(Vec<u8>, Rc<V>)> = Vec::new();
        let mut i: usize = 0;
        while i < self.entries.len()
            invariant
                s == self.entry_seq(),
                i <= s.len(),
                s.len() == self.entries@.len(),
                pred == (|e: (Seq<u8>, V)| is_prefix_of(prefix@, e.0)),
                out@.map_values(|e: (Vec<u8>, Rc<V>)| (e.0@, *e.1)) == s.take(i as int).filter(pred),
            decreases s.len() - i,
        {
            proof {
                reveal(Seq::filter);
                assert(s.take(i + 1).drop_last() =~= s.take(i as int));
                assert(s.take(i + 1).last() == s[i as int]);
            }
            if starts_with(self.entries[i].0.as_slice(), prefix) {
                let k = copy_bytes(self.entries[i].0.as_slice());
                out.push((k, self.entries[i].1.clone()));
                proof {
                    assert(out@.map_values(|e: (Vec<u8>, Rc<V>)| (e.0@, *e.1)) =~= s.take(
                        i + 1,
                    ).filter(pred));
                }
            }
            i += 1;
        }
        proof {
            assert(s.take(s.len() as int) =~= s);
            lemma_prefix_listing(s, prefix@);
        }
        out
    }

    /// A copy of the map; the values are shared.
    pub fn copy(&self) -> (r: Self)
        requires
            self.wf(),
        ensures
            r.wf(),
            r.view() == self.view(),
            r.entry_seq() == self.entry_seq(),
    {
        let ghost s = self.entry_seq();
        let mut out: Vec<(Vec<u8>, Rc<V>)> = Vec::with_capacity(self.entries.len());
        let mut i: usize = 0;
        while i < self.entries.len()
            invariant
                s == self.entry_seq(),
                s.len() == self.entries@.len(),
                i <= self.entries@.len(),
                out@.len() == i,
                out@.map_values(|e: (Vec<u8>, Rc<V>)| (e.0@, *e.1)) == s.take(i as int),
            decreases self.entries@.len() - i,
        {
            let ghost prev = out@;
            let k = copy_bytes(self.entries[i].0.as_slice());
            let v = self.entries[i].1.clone();
            assert(s[i as int] == (k@, *v));
            out.push((k, v));
            i += 1;
            proof {
                assert(out@.map_values(|e: (Vec<u8>, Rc<V>)| (e.0@, *e.1)) =~= prev.map_values(|e: (Vec<u8>, Rc<V>)| (e.0@, *e.1)).push(s[i - 1]));
                assert(out@.map_values(|e: (Vec<u8>, Rc<V>)| (e.0@, *e.1)) =~= s.take(i as int));
            }
        }
        let r = KvMap { entries: out };
        proof {
            assert(r.entry_seq() =~= self.entry_seq());
        }
        r
    }
}

proof fn lemma_dom_finite<V>(s: Seq<(Seq<u8>, V)>)
    ensures
        seq_to_map(s).dom().finite(),
    decreases s.len(),
{
    let keys = s.map_values(|e: (Seq<u8>, V)| e.0).to_set();
    assert forall|k: Seq<u8>| seq_to_map(s).dom().contains(k) implies keys.contains(k) by {
        let i = choose|i: int| 0 <= i < s.len() && s[i].0 == k;
        assert(s.map_values(|e: (Seq<u8>, V)| e.0)[i] == k);
    }
    vstd::set_lib::lemma_len_subset(seq_to_map(s).dom(), keys);
    assert(seq_to_map(s).dom() == keys.filter(|k: Seq<u8>| seq_to_map(s).dom().contains(k)));
}

proof fn lemma_len<V>(s: Seq<(Seq<u8>, V)>)
    requires
        sorted_keys(s),
    ensures
        seq_to_map(s).len() == s.len(),
    decreases s.len(),
{
    if s.len() == 0 {
        assert(seq_to_map(s).dom() =~= Set::empty());
    } else {
        let t = s.drop_last();
        let last = s.last();
        lemma_len(t);
        lemma_dom_finite(t);
        assert forall|j: int| 0 <= j < t.len() implies t[j].0 != last.0 by {
            assert(lex_lt(s[j].0, s[s.len() - 1].0));
            lemma_lex_irreflexive(last.0);
        }
        assert(seq_to_map(s).dom() =~= seq_to_map(t).dom().insert(last.0)) by {
            assert forall|k: Seq<u8>| seq_to_map(s).dom().contains(k) implies seq_to_map(t).dom().insert(
                last.0,
            ).contains(k) by {
                let i = choose|i: int| 0 <= i < s.len() && s[i].0 == k;
                if i < t.len() {
                    assert(t[i].0 == k);
                }
            }
            assert forall|k: Seq<u8>| seq_to_map(t).dom().contains(k) implies seq_to_map(s).dom().contains(k) by {
                let i = choose|i: int| 0 <= i < t.len() && t[i].0 == k;
                assert(s[i].0 == k);
            }
            assert(s[s.len() - 1].0 == last.0);
        }
    }
}

proof fn lemma_update_at<V>(s: Seq<(Seq<u8>, V)>, i: int, k: Seq<u8>, v: V)
    requires
        sorted_keys(s),
        0 <= i < s.len(),
        s[i].0 == k,
    ensures
        sorted_keys(s.update(i, (k, v))),
        seq_to_map(s.update(i, (k, v))) == seq_to_map(s).insert(k, v),
{
    let t = s.update(i, (k, v));
    assert(sorted_keys(t)) by {
        assert forall|a: int, b: int| 0 <= a < b < t.len() implies lex_lt(t[a].0, t[b].0) by {
            assert(t[a].0 == s[a].0 && t[b].0 == s[b].0);
        }
    }
    assert forall|x: Seq<u8>| #[trigger] has_key(t, x) == has_key(s, x) by {
        if has_key(s, x) {
            let j = choose|j: int| 0 <= j < s.len() && s[j].0 == x;
            assert(t[j].0 == x);
        }
        if has_key(t, x) {
            let j = choose|j: int| 0 <= j < t.len() && t[j].0 == x;
            assert(s[j].0 == x);
        }
    }
    assert forall|x: Seq<u8>| has_key(t, x) implies seq_to_map(t)[x] == seq_to_map(s).insert(k, v)[x] by {
        let j = choose|j: int| 0 <= j < t.len() && t[j].0 == x;
        lemma_map_at(t, j);
        lemma_map_at(s, j);
        if j == i {
        } else {
            if x == k {
                lemma_lex_irreflexive(k);
            }
        }
    }
    assert(has_key(s, k)) by {
        assert(s[i].0 == k);
    }
    assert(seq_to_map(t) =~= seq_to_map(s).insert(k, v));
}

pub proof fn lemma_insert_at<V>(s: Seq<(Seq<u8>, V)>, i: int, k: Seq<u8>, v: V)
    requires
        sorted_keys(s),
        0 <= i <= s.len(),
        forall|j: int| 0 <= j < i ==> lex_lt(#[trigger] s[j].0, k),
        forall|j: int| i <= j < s.len() ==> lex_lt(k, #[trigger] s[j].0),
    ensures
        sorted_keys(s.insert(i, (k, v))),
        seq_to_map(s.insert(i, (k, v))) == seq_to_map(s).insert(k, v),
{
    let t = s.insert(i, (k, v));
    assert(sorted_keys(t)) by {
        assert forall|a: int, b: int| 0 <= a < b < t.len() implies lex_lt(t[a].0, t[b].0) by {
            if a < i && b < i {
            } else if a < i && b == i {
            } else if a < i && b > i {
                assert(t[b].0 == s[b - 1].0);
                lemma_lex_transitive(t[a].0, k, t[b].0);
            } else if a == i {
                assert(t[b].0 == s[b - 1].0);
            } else {
                assert(t[a].0 == s[a - 1].0);
                assert(t[b].0 == s[b - 1].0);
            }
        }
    }
    assert(has_key(t, k)) by {
        assert(t[i].0 == k);
    }
    assert forall|x: Seq<u8>| x != k implies #[trigger] has_key(t, x) == has_key(s, x) by {
        if has_key(s, x) {
            let j = choose|j: int| 0 <= j < s.len() && s[j].0 == x;
            if j < i {
                assert(t[j].0 == x);
            } else {
                assert(t[j + 1].0 == x);
            }
        }
        if has_key(t, x) {
            let j = choose|j: int| 0 <= j < t.len() && t[j].0 == x;
            if j < i {
                assert(s[j].0 == x);
            } else {
                assert(s[j - 1].0 == x);
            }
        }
    }
    assert forall|x: Seq<u8>| has_key(t, x) implies seq_to_map(t)[x] == seq_to_map(s).insert(k, v)[x] by {
        let j = choose|j: int| 0 <= j < t.len() && t[j].0 == x;
        lemma_map_at(t, j);
        if j < i {
            lemma_map_at(s, j);
            if x == k {
                lemma_lex_irreflexive(k);
            }
        } else if j > i {
            lemma_map_at(s, j - 1);
            if x == k {
                lemma_lex_irreflexive(k);
            }
        }
    }
    assert(seq_to_map(t) =~= seq_to_map(s).insert(k, v));
}

proof fn lemma_remove_at<V>(s: Seq<(Seq<u8>, V)>, i: int)
    requires
        sorted_keys(s),
        0 <= i < s.len(),
    ensures
        sorted_keys(s.remove(i)),
        seq_to_map(s.remove(i)) == seq_to_map(s).remove(s[i].0),
{
    let t = s.remove(i);
    let k = s[i].0;
    assert(sorted_keys(t)) by {
        assert forall|a: int, b: int| 0 <= a < b < t.len() implies lex_lt(t[a].0, t[b].0) by {
            if a < i && b < i {
            } else if a < i {
                assert(t[b].0 == s[b + 1].0);
            } else {
                assert(t[a].0 == s[a + 1].0);
                assert(t[b].0 == s[b + 1].0);
            }
        }
    }
    assert forall|j: int| 0 <= j < t.len() implies t[j].0 != k by {
        if j < i {
            assert(lex_lt(s[j].0, s[i].0));
        } else {
            assert(t[j].0 == s[j + 1].0);
            assert(lex_lt(s[i].0, s[j + 1].0));
        }
        lemma_lex_irreflexive(k);
    }
    assert forall|x: Seq<u8>| x != k implies #[trigger] has_key(t, x) == has_key(s, x) by {
        if has_key(s, x) {
            let j = choose|j: int| 0 <= j < s.len() && s[j].0 == x;
            if j < i {
                assert(t[j].0 == x);
            } else {
                assert(t[j - 1].0 == x);
            }
        }
        if has_key(t, x) {
            let j = choose|j: int| 0 <= j < t.len() && t[j].0 == x;
            if j < i {
                assert(s[j].0 == x);
            } else {
                assert(s[j + 1].0 == x);
            }
        }
    }
    assert forall|x: Seq<u8>| has_key(t, x) implies seq_to_map(t)[x] == seq_to_map(s).remove(k)[x] by {
        let j = choose|j: int| 0 <= j < t.len() && t[j].0 == x;
        lemma_map_at(t, j);
        if j < i {
            lemma_map_at(s, j);
        } else {
            lemma_map_at(s, j + 1);
        }
    }
    assert(seq_to_map(t) =~= seq_to_map(s).remove(k));
}

} // verus!

verus! {

/// A listing of the entries under a prefix is unique: two listings of the
/// same map and prefix are the same sequence.
pub proof fn lemma_prefix_listing_unique<V>(
    m: Map<Seq<u8>, V>,
    p: Seq<u8>,
    r1: Seq<(Seq<u8>, V)>,
    r2: Seq<(Seq<u8>, V)>,
)
    requires
        is_prefix_listing(m, p, r1),
        is_prefix_listing(m, p, r2),
    ensures
        r1 == r2,
    decreases r1.len(),
{
    if r1.len() == 0 {
        if r2.len() > 0 {
            assert(is_prefix_of(p, r2[0].0));
            assert(has_key(r1, r2[0].0));
        }
        assert(r1 =~= r2);
    } else {
        if r2.len() == 0 {
            assert(is_prefix_of(p, r1[0].0));
            assert(has_key(r2, r1[0].0));
        }
        let n1 = r1.len() - 1;
        let n2 = r2.len() - 1;
        let k1 = r1[n1].0;
        let k2 = r2[n2].0;
        assert(is_prefix_of(p, r1[n1].0));
        assert(is_prefix_of(p, r2[n2].0));
        assert(has_key(r2, k1));
        assert(has_key(r1, k2));
        let a = choose|a: int| 0 <= a < r2.len() && r2[a].0 == k1;
        let b = choose|b: int| 0 <= b < r1.len() && r1[b].0 == k2;
        if k1 != k2 {
            assert(a < n2);
            assert(b < n1);
            assert(lex_lt(r2[a].0, r2[n2].0));
            assert(lex_lt(r1[b].0, r1[n1].0));
            lemma_lex_asymmetric(k1, k2);
        }
        let mk = m.remove(k1);
        let t1 = r1.drop_last();
        let t2 = r2.drop_last();
        lemma_listing_drop_last(m, p, r1);
        lemma_listing_drop_last(m, p, r2);
        lemma_prefix_listing_unique(mk, p, t1, t2);
        assert(r1[n1].1 == m[k1]);
        assert(r2[n2].1 == m[k2]);
        assert(r1 =~= t1.push(r1[n1]));
        assert(r2 =~= t2.push(r2[n2]));
    }
}

proof fn lemma_listing_drop_last<V>(m: Map<Seq<u8>, V>, p: Seq<u8>, r: Seq<(Seq<u8>, V)>)
    requires
        is_prefix_listing(m, p, r),
        r.len() > 0,
    ensures
        is_prefix_listing(m.remove(r.last().0), p, r.drop_last()),
{
    let k = r.last().0;
    let t = r.drop_last();
    let mk = m.remove(k);
    assert forall|j: int| 0 <= j < t.len() implies is_prefix_of(p, #[trigger] t[j].0) && mk.contains_key(t[j].0)
        && mk[t[j].0] == t[j].1 by {
        assert(t[j] == r[j]);
        assert(is_prefix_of(p, r[j].0));
        assert(lex_lt(r[j].0, r[r.len() - 1].0));
        if t[j].0 == k {
            lemma_lex_irreflexive(k);
        }
    }
    assert forall|x: Seq<u8>| mk.contains_key(x) && is_prefix_of(p, x) implies has_key(t, x) by {
        assert(has_key(r, x));
        let j = choose|j: int| 0 <= j < r.len() && r[j].0 == x;
        assert(j != r.len() - 1);
        assert(t[j].0 == x);
    }
}

} // verus!
