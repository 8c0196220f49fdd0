//! A map keyed by strings that keeps its entries in insertion order.
//!
//! Board metadata (net names, colors, row pins, column annotations) is keyed by text such as
//! `"L3"`; this map gives those tables a mathematical view (`Map<Seq<char>, V>`) and a fixed
//! iteration order.

use vstd::prelude::*;
use crate::text::str_eq;

verus! {

/// The map that a sequence of entries describes, later entries taking precedence.
pub open spec fn map_of<V>(s: Seq<(Seq<char>, V)>) -> Map<Seq<char>, V>
    decreases s.len(),
{
    if s.len() == 0 {
        Map::empty()
    } else {
        map_of(s.drop_last()).insert(s.last().0, s.last().1)
    }
}

/// No key occurs twice.
pub open spec fn distinct_keys<V>(s: Seq<(Seq<char>, V)>) -> bool {
    forall|i: int, j: int| 0 <= i < j < s.len() ==> s[i].0 != s[j].0
}

/// Index of the entry with key `k`, if any.
pub open spec fn has_key_at<V>(s: Seq<(Seq<char>, V)>, k: Seq<char>, i: int) -> bool {
    0 <= i < s.len() && s[i].0 == k
}

pub proof fn lemma_map_of<V>(s: Seq<(Seq<char>, V)>)
    requires
        distinct_keys(s),
    ensures
        forall|k: Seq<char>| #[trigger]
            map_of(s).contains_key(k) <==> exists|i: int| has_key_at(s, k, i),
        forall|i: int| 0 <= i < s.len() ==> map_of(s).contains_key(#[trigger] s[i].0) && map_of(s)[s[i].0]
            == s[i].1,
        map_of(s).dom().finite(),
        map_of(s).dom().len() == s.len(),
    decreases s.len(),
{
    if s.len() > 0 {
        let t = s.drop_last();
        assert(distinct_keys(t));
        lemma_map_of(t);
        assert forall|k: Seq<char>| #[trigger]
            map_of(s).contains_key(k) <==> exists|i: int| has_key_at(s, k, i) by {
            if map_of(s).contains_key(k) {
                if k == s.last().0 {
                    assert(has_key_at(s, k, s.len() - 1));
                } else {
                    let i = choose|i: int| has_key_at(t, k, i);
                    assert(has_key_at(s, k, i));
                }
            }
            if exists|i: int| has_key_at(s, k, i) {
                let i = choose|i: int| has_key_at(s, k, i);
                if i < s.len() - 1 {
                    assert(has_key_at(t, k, i));
                }
            }
        }
        assert forall|i: int| 0 <= i < s.len() implies map_of(s).contains_key(#[trigger] s[i].0)
            && map_of(s)[s[i].0] == s[i].1 by {
            if i < s.len() - 1 {
                assert(t[i] == s[i]);
            }
        }
        assert(!map_of(t).contains_key(s.last().0)) by {
            if map_of(t).contains_key(s.last().0) {
                let i = choose|i: int| has_key_at(t, s.last().0, i);
                assert(s[i].0 == s[s.len() - 1].0);
            }
        }
    }
}

/// The entries of `s` other than the one with key `k`, in order.
pub open spec fn without_key<V>(s: Seq<(Seq<char>, V)>, k: Seq<char>) -> Seq<(Seq<char>, V)>
    decreases s.len(),
{
    if s.len() == 0 {
        s
    } else if s.last().0 == k {
        without_key(s.drop_last(), k)
    } else {
        without_key(s.drop_last(), k).push(s.last())
    }
}

pub proof fn lemma_without_key<V>(s: Seq<(Seq<char>, V)>, k: Seq<char>)
    requires
        distinct_keys(s),
    ensures
        forall|i: int| has_key_at(s, k, i) ==> without_key(s, k) == s.remove(i),
        (forall|i: int| 0 <= i < s.len() ==> s[i].0 != k) ==> without_key(s, k) == s,
    decreases s.len(),
{
    if s.len() > 0 {
        let t = s.drop_last();
        assert(distinct_keys(t));
        lemma_without_key(t, k);
        assert forall|i: int| has_key_at(s, k, i) implies without_key(s, k) == s.remove(i) by {
            if i == s.len() - 1 {
                assert forall|j: int| 0 <= j < t.len() implies t[j].0 != k by {
                    assert(s[j].0 != s[i].0);
                }
                assert(s.remove(i) =~= t);
            } else {
                assert(has_key_at(t, k, i));
                assert(s.last().0 != k) by {
                    assert(s[i].0 != s[s.len() - 1].0);
                }
                assert(s.remove(i) =~= t.remove(i).push(s.last()));
            }
        }
        if forall|i: int| 0 <= i < s.len() ==> s[i].0 != k {
            assert(forall|i: int| 0 <= i < t.len() ==> t[i].0 != k) by {
                assert forall|i: int| 0 <= i < t.len() implies t[i].0 != k by {
                    assert(t[i] == s[i]);
                }
            }
            assert(s.last().0 != k) by {
                assert(s[s.len() - 1].0 != k);
            }
            assert(t.push(s.last()) =~= s);
        }
    }
}

pub proof fn lemma_map_of_remove<V>(s: Seq<(Seq<char>, V)>, i: int)
    requires
        distinct_keys(s),
        0 <= i < s.len(),
    ensures
        distinct_keys(s.remove(i)),
        map_of(s.remove(i)) == map_of(s).remove(s[i].0),
{
    let r = s.remove(i);
    assert(distinct_keys(r)) by {
        assert forall|a: int, b: int| 0 <= a < b < r.len() implies r[a].0 != r[b].0 by {
            let a2 = if a < i { a } else { a + 1 };
            let b2 = if b < i { b } else { b + 1 };
            assert(r[a] == s[a2] && r[b] == s[b2]);
        }
    }
    lemma_map_of(s);
    lemma_map_of(r);
    let k = s[i].0;
    assert forall|q: Seq<char>| #[trigger] map_of(r).contains_key(q) == map_of(s).remove(k).contains_key(q) by {
        if map_of(r).contains_key(q) {
            let j = choose|j: int| has_key_at(r, q, j);
            let j2 = if j < i { j } else { j + 1 };
            assert(r[j] == s[j2]);
            assert(has_key_at(s, q, j2));
            assert(q != k);
        }
        if map_of(s).remove(k).contains_key(q) {
            let j = choose|j: int| has_key_at(s, q, j);
            assert(j != i);
            let j2 = if j < i { j } else { j - 1 };
            assert(r[j2] == s[j]);
            assert(has_key_at(r, q, j2));
        }
    }
    assert forall|q: Seq<char>| #[trigger] map_of(r).contains_key(q) implies map_of(r)[q] == map_of(s).remove(k)[q] by {
        let j = choose|j: int| has_key_at(r, q, j);
        let j2 = if j < i { j } else { j + 1 };
        assert(r[j] == s[j2]);
    }
    assert(map_of(r) =~= map_of(s).remove(k));
}

/// A string-keyed map; each key occurs once and entries keep their insertion order.
pub struct StrMap<V> {
    entries: Vec<(String, V)>,
}

impl<V> StrMap<V> {
    #[verifier::type_invariant]
    spec fn keys_distinct(self) -> bool {
        distinct_keys(self.entry_seq())
    }

    /// The entries as (key text, value), in order.
    pub closed spec fn entry_seq(self) -> Seq<(Seq<char>, V)> {
        self.entries@.map_values(|e: (String, V)| (e.0@, e.1))
    }

    /// The map the entries describe.
    pub open spec fn view(self) -> Map<Seq<char>, V> {
        map_of(self.entry_seq())
    }

    proof fn lemma_view(self)
        requires
            distinct_keys(self.entry_seq()),
        ensures
            distinct_keys(self.entry_seq()),
            forall|k: Seq<char>| #[trigger]
                self.view().contains_key(k) <==> exists|i: int| has_key_at(self.entry_seq(), k, i),
            forall|i: int|
                0 <= i < self.entry_seq().len() ==> self.view().contains_key(
                    #[trigger] self.entry_seq()[i].0,
                ) && self.view()[self.entry_seq()[i].0] == self.entry_seq()[i].1,
            self.view().dom().finite(),
            self.view().dom().len() == self.entry_seq().len(),
    {
        lemma_map_of(self.entry_seq());
    }

    pub fn new() -> (m: Self)
        ensures
            m.entry_seq() == Seq::<(Seq<char>, V)>::empty(),
            m@ == Map::<Seq<char>, V>::empty(),
    {
        let m = StrMap { entries: Vec::new() };
        assert(m.entry_seq() =~= Seq::<(Seq<char>, V)>::empty());
        m
    }

    pub fn len(&self) -> (r: usize)
        ensures
            r == self.entry_seq().len(),
    {
        self.entries.len()
    }

    /// Position of the entry with the given key.
    fn index_of(&self, key: &str) -> (r: Option<usize>)
        ensures
            match r {
                Some(i) => has_key_at(self.entry_seq(), key@, i as int),
                None => forall|i: int| 0 <= i < self.entry_seq().len() ==> self.entry_seq()[i].0 != key@,
            },
    {
        let mut i: usize = 0;
        while i < self.entries.len()
            invariant
                i <= self.entries@.len(),
                forall|j: int| 0 <= j < i ==> self.entry_seq()[j].0 != key@,
            decreases self.entries.len() - i,
        {
            if str_eq(self.entries[i].0.as_str(), key) {
                return Some(i);
            }
            i = i + 1;
        }
        None
    }

    pub fn contains_key(&self, key: &str) -> (r: bool)
        ensures
            r == self@.contains_key(key@),
    {
        proof {
            use_type_invariant(&*self);
            self.lemma_view();
        }
        match self.index_of(key) {
            Some(i) => true,
            None => {
                assert(!self@.contains_key(key@)) by {
                    if self@.contains_key(key@) {
                        let i = choose|i: int| has_key_at(self.entry_seq(), key@, i);
                    }
                }
                false
            },
        }
    }

    pub fn get(&self, key: &str) -> (r: Option<&V>)
        ensures
            match r {
                Some(v) => self@.contains_key(key@) && *v == self@[key@],
                None => !self@.contains_key(key@),
            },
    {
        proof {
            use_type_invariant(&*self);
            self.lemma_view();
        }
        match self.index_of(key) {
            Some(i) => Some(&self.entries[i].1),
            None => {
                assert(!self@.contains_key(key@)) by {
                    if self@.contains_key(key@) {
                        let i = choose|i: int| has_key_at(self.entry_seq(), key@, i);
                    }
                }
                None
            },
        }
    }

    /// Removes the entry with the given key, returning its value; the other entries keep their order.
    pub fn remove(&mut self, key: &str) -> (r: Option<V>)
        ensures
            final(self)@ == old(self)@.remove(key@),
            match r {
                Some(v) => old(self)@.contains_key(key@) && v == old(self)@[key@],
                None => !old(self)@.contains_key(key@),
            },
            final(self).entry_seq() == without_key(old(self).entry_seq(), key@),
    {
        proof {
            use_type_invariant(&*self);
            self.lemma_view();
        }
        let ghost s0 = self.entry_seq();
        proof {
            lemma_without_key(s0, key@);
        }
        match self.index_of(key) {
            Some(i) => {
                let mut es: Vec<(String, V)> = Vec::new();
                std::mem::swap(&mut es, &mut self.entries);
                let (k, v) = es.remove(i);
                proof {
                    assert(es@.map_values(|e: (String, V)| (e.0@, e.1)) =~= s0.remove(i as int));
                    lemma_map_of_remove(s0, i as int);
                }
                self.entries = es;
                Some(v)
            },
            None => {
                assert(!old(self)@.contains_key(key@)) by {
                    if old(self)@.contains_key(key@) {
                        let i = choose|i: int| has_key_at(s0, key@, i);
                    }
                }
                assert(self@ =~= old(self)@.remove(key@));
                None
            },
        }
    }

    /// Sets the value of `key`: an existing entry keeps its place, a new one goes last.
    /// Returns the previous value.
    pub fn insert(&mut self, key: String, value: V) -> (r: Option<V>)
        ensures
            final(self)@ == old(self)@.insert(key@, value),
            match r {
                Some(v) => old(self)@.contains_key(key@) && v == old(self)@[key@],
                None => !old(self)@.contains_key(key@),
            },
            final(self).entry_seq() == put_entry(old(self).entry_seq(), key@, value),
    {
        proof {
            use_type_invariant(&*self);
            self.lemma_view();
        }
        let ghost s0 = self.entry_seq();
        let ghost kv = key@;
        match self.index_of(key.as_str()) {
            Some(i) => {
                let mut es: Vec<(String, V)> = Vec::new();
                std::mem::swap(&mut es, &mut self.entries);
                let (_k, old_v) = es.remove(i);
                es.insert(i, (key, value));
                proof {
                    assert(es@.map_values(|e: (String, V)| (e.0@, e.1)) =~= s0.update(
                        i as int,
                        (kv, value),
                    ));
                    lemma_map_of_update(s0, i as int, value);
                    assert(has_key_at(s0, kv, i as int));
                    assert forall|j: int| has_key_at(s0, kv, j) implies j == i by {
                        if j != i {
                            assert(s0[j].0 != s0[i as int].0);
                        }
                    }
                }
                self.entries = es;
                Some(old_v)
            },
            None => {
                let mut es: Vec<(String, V)> = Vec::new();
                std::mem::swap(&mut es, &mut self.entries);
                es.push((key, value));
                proof {
                    assert(es@.map_values(|e: (String, V)| (e.0@, e.1)) =~= s0.push((kv, value)));
                    assert(s0.push((kv, value)).drop_last() =~= s0);
                    assert(!old(self)@.contains_key(kv)) by {
                        if old(self)@.contains_key(kv) {
                            let j = choose|j: int| has_key_at(s0, kv, j);
                        }
                    }
                    assert(!exists|j: int| has_key_at(s0, kv, j));
                }
                self.entries = es;
                None
            },
        }
    }

    /// The key of the `i`-th entry.
    pub fn key_at(&self, i: usize) -> (r: &String)
        requires
            i < self.entry_seq().len(),
        ensures
            r@ == self.entry_seq()[i as int].0,
    {
        &self.entries[i].0
    }

    /// The value of the `i`-th entry.
    pub fn value_at(&self, i: usize) -> (r: &V)
        requires
            i < self.entry_seq().len(),
        ensures
            *r == self.entry_seq()[i as int].1,
    {
        &self.entries[i].1
    }

    /// The keys, in entry order.
    pub fn key_list(&self) -> (r: Vec<String>)
        ensures
            r@.len() == self.entry_seq().len(),
            forall|t: int| 0 <= t < r@.len() ==> #[trigger] r@[t]@ == self.entry_seq()[t].0,
            forall|k: Seq<char>|
                #[trigger] self@.contains_key(k) <==> exists|t: int| 0 <= t < r@.len() && #[trigger] r@[t]@ == k,
            forall|t1: int, t2: int| 0 <= t1 < t2 < r@.len() ==> #[trigger] r@[t1]@ != #[trigger] r@[t2]@,
    {
        proof {
            use_type_invariant(&*self);
            self.lemma_view();
        }
        let mut r: Vec<String> = Vec::new();
        let mut t: usize = 0;
        while t < self.entries.len()
            invariant
                t <= self.entries@.len(),
                r@.len() == t,
                forall|u: int| 0 <= u < t ==> #[trigger] r@[u]@ == self.entry_seq()[u].0,
            decreases self.entries.len() - t,
        {
            r.push(self.entries[t].0.clone());
            t = t + 1;
        }
        proof {
            assert forall|k: Seq<char>|
                #[trigger] self@.contains_key(k) <==> exists|u: int| 0 <= u < r@.len() && #[trigger] r@[u]@ == k by {
                if self@.contains_key(k) {
                    let u = choose|u: int| has_key_at(self.entry_seq(), k, u);
                    assert(r@[u]@ == k);
                }
                if exists|u: int| 0 <= u < r@.len() && #[trigger] r@[u]@ == k {
                    let u = choose|u: int| 0 <= u < r@.len() && #[trigger] r@[u]@ == k;
                    assert(has_key_at(self.entry_seq(), k, u));
                }
            }
        }
        r
    }

    /// The entries in order, consuming the map.
    pub fn into_entries(self) -> (r: Vec<(String, V)>)
        ensures
            entry_views(r@) == self.entry_seq(),
    {
        self.entries
    }
}

/// Entries with their keys as text.
pub open spec fn entry_views<V>(v: Seq<(String, V)>) -> Seq<(Seq<char>, V)> {
    v.map_values(|e: (String, V)| (e.0@, e.1))
}

/// The entries after setting `k` to `v`: in place when `k` is present, else appended.
pub open spec fn put_entry<V>(s: Seq<(Seq<char>, V)>, k: Seq<char>, v: V) -> Seq<(Seq<char>, V)> {
    if exists|i: int| has_key_at(s, k, i) {
        s.update(choose|i: int| has_key_at(s, k, i), (k, v))
    } else {
        s.push((k, v))
    }
}

pub proof fn lemma_map_of_update<V>(s: Seq<(Seq<char>, V)>, i: int, v: V)
    requires
        distinct_keys(s),
        0 <= i < s.len(),
    ensures
        distinct_keys(s.update(i, (s[i].0, v))),
        map_of(s.update(i, (s[i].0, v))) == map_of(s).insert(s[i].0, v),
{
    let k = s[i].0;
    let r = s.update(i, (k, v));
    assert(distinct_keys(r)) by {
        assert forall|a: int, b: int| 0 <= a < b < r.len() implies r[a].0 != r[b].0 by {
            assert(r[a].0 == s[a].0 && r[b].0 == s[b].0);
        }
    }
    lemma_map_of(s);
    lemma_map_of(r);
    assert forall|q: Seq<char>| #[trigger] map_of(r).contains_key(q) == map_of(s).insert(k, v).contains_key(q) by {
        if map_of(r).contains_key(q) {
            let j = choose|j: int| has_key_at(r, q, j);
            assert(has_key_at(s, q, j));
        }
        if map_of(s).contains_key(q) {
            let j = choose|j: int| has_key_at(s, q, j);
            assert(has_key_at(r, q, j));
        }
        assert(has_key_at(r, k, i));
    }
    assert forall|q: Seq<char>| #[trigger] map_of(r).contains_key(q) implies map_of(r)[q] == map_of(s).insert(k, v)[q] by {
        let j = choose|j: int| has_key_at(r, q, j);
        if j != i {
            assert(s[j].0 != s[i].0);
            assert(r[j] == s[j]);
        }
    }
    assert(map_of(r) =~= map_of(s).insert(k, v));
}

} // verus!
