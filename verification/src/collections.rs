//! Identifier-keyed maps and sets, kept sorted by code-point order of their keys.
use vstd::prelude::*;
use crate::text::{seq_lt, str_less, str_equal};
use crate::{Value, ValueModel};

verus! {

/// Keys strictly increasing in code-point order (hence distinct).
pub open spec fn increasing(ks: Seq<Seq<char>>) -> bool {
    forall|i: int, j: int| 0 <= i < j < ks.len() ==> seq_lt(#[trigger] ks[i], #[trigger] ks[j])
}

pub proof fn lemma_seq_lt_irreflexive(a: Seq<char>)
    ensures !seq_lt(a, a),
    decreases a.len(),
{
    if a.len() > 0 { lemma_seq_lt_irreflexive(a.drop_first()); }
}

pub proof fn lemma_seq_lt_transitive(a: Seq<char>, b: Seq<char>, c: Seq<char>)
    requires seq_lt(a, b), seq_lt(b, c),
    ensures seq_lt(a, c),
    decreases a.len(),
{
    if a.len() > 0 && b.len() > 0 && c.len() > 0 && a[0] == b[0] && b[0] == c[0] {
        lemma_seq_lt_transitive(a.drop_first(), b.drop_first(), c.drop_first());
    }
}

pub proof fn lemma_seq_lt_asymmetric(a: Seq<char>, b: Seq<char>)
    requires seq_lt(a, b),
    ensures !seq_lt(b, a),
    decreases a.len(),
{
    if a.len() > 0 && b.len() > 0 && a[0] == b[0] {
        lemma_seq_lt_asymmetric(a.drop_first(), b.drop_first());
    }
}

pub proof fn lemma_seq_lt_total(a: Seq<char>, b: Seq<char>)
    requires a != b,
    ensures seq_lt(a, b) || seq_lt(b, a),
    decreases a.len(),
{
    if a.len() > 0 && b.len() > 0 {
        if a[0] == b[0] {
            if a.drop_first() =~= b.drop_first() {
                assert(a =~= b) by {
                    assert forall|i: int| 0 <= i < a.len() implies a[i] == b[i] by {
                        if i > 0 { assert(a[i] == a.drop_first()[i - 1]); assert(b[i] == b.drop_first()[i - 1]); }
                    }
                }
            } else {
                lemma_seq_lt_total(a.drop_first(), b.drop_first());
            }
        } else {
            assert(a[0] < b[0] || b[0] < a[0]);
        }
    } else if a.len() == 0 && b.len() == 0 {
        assert(a =~= b);
    }
}

/// A map from identifiers to values, iterated in increasing key order.
#[derive(Debug, PartialEq, Eq)]
pub struct IdMap<V> {
    entries: Vec<(String, V)>,
}

impl<V> IdMap<V> {
    /// The keys, in increasing order.
    pub closed spec fn keys(&self) -> Seq<Seq<char>> {
        self.entries@.map_values(|e: (String, V)| e.0@)
    }

    /// The values, in the order of their keys.
    pub closed spec fn values(&self) -> Seq<V> {
        self.entries@.map_values(|e: (String, V)| e.1)
    }

    #[verifier::type_invariant]
    closed spec fn sorted(&self) -> bool {
        increasing(self.keys())
    }

    /// Position of a present key.
    pub open spec fn index_of(&self, k: Seq<char>) -> int {
        choose|i: int| 0 <= i < self.keys().len() && self.keys()[i] == k
    }

    /// Whether `k` is a key.
    pub open spec fn has(&self, k: Seq<char>) -> bool {
        self.keys().contains(k)
    }

    /// The value of a present key.
    pub open spec fn at(&self, k: Seq<char>) -> V {
        self.values()[self.index_of(k)]
    }

    /// An empty map.
    pub fn new() -> (m: Self)
        ensures m.keys().len() == 0, m.values().len() == 0,
    {
        let m = IdMap { entries: Vec::new() };
        assert(m.keys() =~= Seq::empty());
        m
    }

    /// Number of entries.
    pub fn len(&self) -> (n: usize)
        ensures n == self.keys().len(), n == self.values().len(),
    {
        self.entries.len()
    }

    /// Whether there are no entries.
    pub fn is_empty(&self) -> (r: bool)
        ensures r == (self.keys().len() == 0),
    {
        self.entries.len() == 0
    }

    /// Removes every entry.
    pub fn clear(&mut self)
        ensures final(self).keys().len() == 0, final(self).values().len() == 0,
    {
        self.entries = Vec::new();
        assert(self.keys() =~= Seq::empty());
    }

    /// The entries, in increasing key order.
    pub fn entries(&self) -> (r: &[(String, V)])
        ensures
            r@.len() == self.keys().len(),
            self.keys().len() == self.values().len(),
            forall|i: int| 0 <= i < r@.len() ==> (#[trigger] r@[i]).0@ == self.keys()[i] && r@[i].1 == self.values()[i],
            increasing(self.keys()),
    {
        proof { use_type_invariant(self); }
        self.entries.as_slice()
    }

    /// Index of the first key that is not below `k`, and whether it equals `k`.
    fn locate(&self, k: &str) -> (r: (usize, bool))
        ensures
            r.0 <= self.keys().len(),
            forall|i: int| 0 <= i < r.0 ==> seq_lt(#[trigger] self.keys()[i], k@),
            r.1 <==> (r.0 < self.keys().len() && self.keys()[r.0 as int] == k@),
            !r.1 ==> (r.0 < self.keys().len() ==> seq_lt(k@, self.keys()[r.0 as int])),
            r.1 <==> self.has(k@),
    {
        proof { use_type_invariant(self); }
        let mut i: usize = 0;
        while i < self.entries.len() && str_less(self.entries[i].0.as_str(), k)
            invariant
                i <= self.entries@.len(),
                increasing(self.keys()),
                forall|j: int| 0 <= j < i ==> seq_lt(#[trigger] self.keys()[j], k@),
            decreases self.entries@.len() - i,
        {
            i += 1;
        }
        if i < self.entries.len() {
            let found = str_equal(self.entries[i].0.as_str(), k);
            proof {
                if !found {
                    lemma_seq_lt_total(k@, self.keys()[i as int]);
                }
                if found {
                    assert(self.keys()[i as int] == k@);
                } else {
                    assert forall|j: int| 0 <= j < self.keys().len() implies self.keys()[j] != k@ by {
                        if j < i {
                            lemma_seq_lt_irreflexive(k@);
                        } else if j > i {
                            lemma_seq_lt_transitive(k@, self.keys()[i as int], self.keys()[j]);
                            lemma_seq_lt_irreflexive(k@);
                        }
                    }
                }
            }
            (i, found)
        } else {
            proof {
                assert forall|j: int| 0 <= j < self.keys().len() implies self.keys()[j] != k@ by {
                    lemma_seq_lt_irreflexive(k@);
                }
            }
            (i, false)
        }
    }

    /// The value of `k`, if present.
    pub fn get(&self, k: &str) -> (r: Option<&V>)
        ensures
            r is Some <==> self.has(k@),
            r matches Some(v) ==> *v == self.at(k@),
    {
        proof { use_type_invariant(self); }
        let (i, found) = self.locate(k);
        if found {
            proof { self.lemma_index_of(i as int); }
            Some(&self.entries[i].1)
        } else {
            None
        }
    }

    /// Whether `k` is present.
    pub fn contains_key(&self, k: &str) -> (r: bool)
        ensures r == self.has(k@),
    {
        self.locate(k).1
    }

    proof fn lemma_index_of(&self, i: int)
        requires 0 <= i < self.keys().len(), increasing(self.keys()),
        ensures self.index_of(self.keys()[i]) == i,
    {
        let k = self.keys()[i];
        assert(self.keys().contains(k));
        let j = self.index_of(k);
        if j != i {
            if j < i { lemma_seq_lt_irreflexive(k); } else { lemma_seq_lt_irreflexive(k); }
        }
    }

    /// There are as many values as keys.
    pub proof fn lemma_lengths(&self)
        ensures self.keys().len() == self.values().len(),
    {}

    /// The value at position `i` is the value of the key at position `i`.
    pub proof fn lemma_at_index(&self, i: int)
        requires 0 <= i < self.keys().len(), increasing(self.keys()),
        ensures self.has(self.keys()[i]), self.at(self.keys()[i]) == self.values()[i],
    {
        self.lemma_index_of(i);
        assert(self.keys().contains(self.keys()[i]));
    }

    /// Sets the value of `k`, returning the value it replaced.
    pub fn insert(&mut self, k: String, v: V) -> (r: Option<V>)
        ensures
            final(self).has(k@),
            final(self).at(k@) == v,
            forall|q: Seq<char>| q != k@ ==> (final(self).has(q) == old(self).has(q)
                && (old(self).has(q) ==> final(self).at(q) == old(self).at(q))),
            r is Some <==> old(self).has(k@),
            r matches Some(o) ==> o == old(self).at(k@),
            final(self).keys().len() == old(self).keys().len() + (if old(self).has(k@) { 0int } else { 1int }),
    {
        proof { use_type_invariant(&*self); }
        let (i, found) = self.locate(k.as_str());
        let ghost old_keys = self.keys();
        let ghost old_values = self.values();
        let ghost old_self = *self;
        if found {
            let mut entries = Vec::new();
            std::mem::swap(&mut entries, &mut self.entries);
            let old_entry = entries.remove(i);
            entries.insert(i, (k, v));
            proof {
                let ks = entries@.map_values(|e: (String, V)| e.0@);
                assert(ks =~= old_keys);
            }
            self.entries = entries;
            proof {
                assert(self.keys() =~= old_keys.update(i as int, old_keys[i as int]));
                assert(self.values() =~= old_values.update(i as int, v));
                old_self.lemma_index_of(i as int);
                self.lemma_index_of(i as int);
                assert forall|q: Seq<char>| q != k@ implies (self.has(q) == old_self.has(q)
                    && (old_self.has(q) ==> self.at(q) == old_self.at(q))) by {
                    if old_self.has(q) {
                        let j = old_self.index_of(q);
                        old_self.lemma_index_of(j);
                        self.lemma_index_of(j);
                    }
                    if self.has(q) {
                        let j = self.index_of(q);
                        assert(old_keys[j] == q);
                    }
                }
            }
            Some(old_entry.1)
        } else {
            let ghost kv = k@;
            let mut entries = Vec::new();
            std::mem::swap(&mut entries, &mut self.entries);
            entries.insert(i, (k, v));
            proof {
                let ks = entries@.map_values(|e: (String, V)| e.0@);
                assert(ks =~= old_keys.insert(i as int, kv));
                assert forall|a: int, b: int| 0 <= a < b < ks.len() implies seq_lt(#[trigger] ks[a], #[trigger] ks[b]) by {
                    if b == i {
                        assert(seq_lt(old_keys[a], kv));
                    } else if a == i {
                        if b > i + 1 {
                            lemma_seq_lt_transitive(kv, old_keys[i as int], old_keys[b - 1]);
                        }
                    } else if a < i && b > i {
                        assert(seq_lt(old_keys[a], old_keys[b - 1]));
                    } else if a > i {
                        assert(seq_lt(old_keys[a - 1], old_keys[b - 1]));
                    } else {
                        assert(seq_lt(old_keys[a], old_keys[b]));
                    }
                }
            }
            self.entries = entries;
            proof {
                assert(self.keys() =~= old_keys.insert(i as int, kv));
                assert(self.values() =~= old_values.insert(i as int, v));
                self.lemma_index_of(i as int);
                assert forall|q: Seq<char>| q != k@ implies (self.has(q) == old_self.has(q)
                    && (old_self.has(q) ==> self.at(q) == old_self.at(q))) by {
                    if old_self.has(q) {
                        let j = old_self.index_of(q);
                        old_self.lemma_index_of(j);
                        if j < i {
                            assert(self.keys()[j] == q);
                            self.lemma_index_of(j);
                        } else {
                            assert(self.keys()[j + 1] == q);
                            self.lemma_index_of(j + 1);
                        }
                    }
                    if self.has(q) {
                        let j = self.index_of(q);
                        if j < i { assert(old_keys[j] == q); } else { assert(old_keys[j - 1] == q); }
                    }
                }
            }
            None
        }
    }

    /// Removes `k`, returning its value.
    pub fn remove(&mut self, k: &str) -> (r: Option<V>)
        ensures
            !final(self).has(k@),
            forall|q: Seq<char>| q != k@ ==> (final(self).has(q) == old(self).has(q)
                && (old(self).has(q) ==> final(self).at(q) == old(self).at(q))),
            r is Some <==> old(self).has(k@),
            r matches Some(o) ==> o == old(self).at(k@),
    {
        proof { use_type_invariant(&*self); }
        let (i, found) = self.locate(k);
        if found {
            let ghost old_keys = self.keys();
            let ghost old_self = *self;
            proof { old_self.lemma_index_of(i as int); }
            let mut entries = Vec::new();
            std::mem::swap(&mut entries, &mut self.entries);
            let e = entries.remove(i);
            proof {
                let ks = entries@.map_values(|e: (String, V)| e.0@);
                assert(ks =~= old_keys.remove(i as int));
                assert(increasing(ks)) by {
                    assert forall|a: int, b: int| 0 <= a < b < ks.len() implies seq_lt(#[trigger] ks[a], #[trigger] ks[b]) by {
                        if a < i && b >= i { assert(seq_lt(old_keys[a], old_keys[b + 1])); }
                        else if a >= i { assert(seq_lt(old_keys[a + 1], old_keys[b + 1])); }
                        else { assert(seq_lt(old_keys[a], old_keys[b])); }
                    }
                }
            }
            self.entries = entries;
            proof {
                assert(self.keys() =~= old_keys.remove(i as int));
                assert(!self.has(k@)) by {
                    if self.has(k@) {
                        let j = choose|j: int| 0 <= j < self.keys().len() && self.keys()[j] == k@;
                        if j < i { lemma_seq_lt_irreflexive(k@); assert(seq_lt(old_keys[j], old_keys[i as int])); }
                        else { lemma_seq_lt_irreflexive(k@); assert(seq_lt(old_keys[i as int], old_keys[j + 1])); }
                    }
                }
                assert forall|q: Seq<char>| q != k@ implies (self.has(q) == old_self.has(q)
                    && (old_self.has(q) ==> self.at(q) == old_self.at(q))) by {
                    if old_self.has(q) {
                        let j = old_self.index_of(q);
                        old_self.lemma_index_of(j);
                        if j < i { assert(self.keys()[j] == q); self.lemma_index_of(j); }
                        else { assert(self.keys()[j - 1] == q); self.lemma_index_of(j - 1); }
                    }
                    if self.has(q) {
                        let j = self.index_of(q);
                        if j < i { assert(old_keys[j] == q); } else { assert(old_keys[j + 1] == q); }
                    }
                }
            }
            Some(e.1)
        } else {
            None
        }
    }

    /// A map holding the given pairs; a later pair replaces an earlier one with the same key.
    pub fn from(pairs: Vec<(String, V)>) -> (m: Self)
        ensures
            forall|q: Seq<char>| m.has(q) <==> exists|i: int| 0 <= i < pairs@.len() && (#[trigger] pairs@[i]).0@ == q,
            forall|q: Seq<char>| #[trigger] m.has(q) ==> last_pair(pairs@, q, m.at(q)),
    {
        let mut m = IdMap::new();
        let mut rest = pairs;
        let ghost all = rest@;
        assert(rest@.len() == rest.len());
        let mut done: usize = 0;
        assert(rest@ =~= all.skip(0));
        while rest.len() > 0
            invariant
                rest@ =~= all.skip(done as int),
                done <= all.len(),
                rest@.len() == all.len() - done,
                all.len() <= usize::MAX,
                forall|q: Seq<char>| m.has(q) <==> exists|i: int| 0 <= i < done && (#[trigger] all[i]).0@ == q,
                forall|q: Seq<char>| #[trigger] m.has(q) ==> last_pair(all.take(done as int), q, m.at(q)),
            decreases rest@.len(),
        {
            let ghost before = m;
            let (k, v) = rest.remove(0);
            let ghost kv = k@;
            assert(all[done as int].0@ == kv && all[done as int].1 == v);
            m.insert(k, v);
            proof {
                let t = all.take(done + 1);
                assert(t =~= all.take(done as int).push(all[done as int]));
                assert forall|q: Seq<char>| m.has(q) <==> exists|i: int| 0 <= i < done + 1 && (#[trigger] all[i]).0@ == q by {
                    if q == kv {
                        assert(all[done as int].0@ == q);
                    } else if m.has(q) {
                        assert(before.has(q));
                        let i = choose|i: int| 0 <= i < done && (#[trigger] all[i]).0@ == q;
                        assert(0 <= i < done + 1);
                    } else {
                        assert(!before.has(q));
                    }
                }
                assert forall|q: Seq<char>| #[trigger] m.has(q) implies last_pair(t, q, m.at(q)) by {
                    if q == kv {
                        assert(t[done as int].0@ == q && t[done as int].1 == m.at(q));
                    } else {
                        assert(before.has(q));
                        let i = choose|i: int| 0 <= i < done && all.take(done as int)[i].0@ == q
                            && all.take(done as int)[i].1 == before.at(q)
                            && forall|j: int| i < j < done ==> all.take(done as int)[j].0@ != q;
                        assert(t[i] == all.take(done as int)[i]);
                        assert forall|j: int| i < j < t.len() implies t[j].0@ != q by {
                            if j < done { assert(t[j] == all.take(done as int)[j]); }
                        }
                    }
                }
                assert(rest@ =~= all.skip(done + 1));
            }
            done = done + 1;
        }
        assert(all.take(done as int) =~= all);
        m
    }
}

/// Whether the last pair with key `q` holds `v`.
pub open spec fn last_pair<V>(pairs: Seq<(String, V)>, q: Seq<char>, v: V) -> bool {
    exists|i: int| 0 <= i < pairs.len() && pairs[i].0@ == q && pairs[i].1 == v
        && forall|j: int| i < j < pairs.len() ==> pairs[j].0@ != q
}

impl<V: Clone> Clone for IdMap<V> {
    fn clone(&self) -> (r: Self)
        ensures
            r.keys() == self.keys(), r.values().len() == self.values().len(),
            forall|i: int| 0 <= i < r.values().len() ==> cloned::<V>(self.values()[i], #[trigger] r.values()[i]),
    {
        proof { use_type_invariant(self); }
        let mut out: Vec<(String, V)> = Vec::new();
        let mut i: usize = 0;
        while i < self.entries.len()
            invariant
                i <= self.entries@.len(),
                out@.len() == i,
                increasing(self.keys()),
                forall|j: int| 0 <= j < i ==> (#[trigger] out@[j]).0@ == self.entries@[j].0@,
                forall|j: int| 0 <= j < i ==> cloned::<V>(self.entries@[j].1, #[trigger] out@[j].1),
            decreases self.entries@.len() - i,
        {
            let e = &self.entries[i];
            out.push((e.0.clone(), e.1.clone()));
            i += 1;
        }
        assert(out@.map_values(|e: (String, V)| e.0@) =~= self.keys());
        let r = IdMap { entries: out };
        proof {
            assert forall|i: int| 0 <= i < r.values().len() implies cloned::<V>(self.values()[i], #[trigger] r.values()[i]) by {
                assert(r.values()[i] == r.entries@[i].1);
                assert(self.values()[i] == self.entries@[i].1);
            }
        }
        r
    }
}

/// A set of identifiers, iterated in increasing order.
#[derive(Clone, Debug, PartialEq, Eq)]
pub struct IdSet {
    items: IdMap<()>,
}

impl IdSet {
    /// The members, in increasing order.
    pub closed spec fn members(&self) -> Seq<Seq<char>> { self.items.keys() }

    pub open spec fn has(&self, k: Seq<char>) -> bool { self.members().contains(k) }

    /// An empty set.
    pub fn new() -> (s: Self)
        ensures s.members().len() == 0,
    {
        IdSet { items: IdMap::new() }
    }

    /// Number of members.
    pub fn len(&self) -> (n: usize)
        ensures n == self.members().len(),
    {
        self.items.len()
    }

    pub fn is_empty(&self) -> (r: bool)
        ensures r == (self.members().len() == 0),
    {
        self.items.is_empty()
    }

    pub fn clear(&mut self)
        ensures final(self).members().len() == 0,
    {
        self.items.clear()
    }

    /// Whether `k` is a member.
    pub fn contains(&self, k: &str) -> (r: bool)
        ensures r == self.has(k@),
    {
        self.items.contains_key(k)
    }

    /// Adds `k`; true when it was not yet a member.
    pub fn insert(&mut self, k: String) -> (r: bool)
        ensures
            final(self).has(k@),
            forall|q: Seq<char>| q != k@ ==> final(self).has(q) == old(self).has(q),
            r == !old(self).has(k@),
            final(self).members().len() == old(self).members().len() + (if old(self).has(k@) { 0int } else { 1int }),
    {
        let ghost before = self.items;
        let ghost before_set = *self;
        let ghost kv = k@;
        let prior = self.items.insert(k, ());
        assert forall|q: Seq<char>| q != kv implies self.has(q) == before_set.has(q) by {
            assert(self.items.has(q) == before.has(q));
        }
        prior.is_none()
    }

    /// Removes `k`; true when it was a member.
    pub fn remove(&mut self, k: &str) -> (r: bool)
        ensures
            !final(self).has(k@),
            forall|q: Seq<char>| q != k@ ==> final(self).has(q) == old(self).has(q),
            r == old(self).has(k@),
    {
        let ghost before = self.items;
        let ghost before_set = *self;
        let r = self.items.remove(k).is_some();
        assert forall|q: Seq<char>| q != k@ implies self.has(q) == before_set.has(q) by {
            assert(self.items.has(q) == before.has(q));
        }
        r
    }

    /// The members, in increasing order.
    pub fn items(&self) -> (r: Vec<&String>)
        ensures
            r@.len() == self.members().len(),
            forall|i: int| 0 <= i < r@.len() ==> (#[trigger] r@[i])@ == self.members()[i],
            increasing(self.members()),
    {
        let entries = self.items.entries();
        let mut out: Vec<&String> = Vec::new();
        let mut i: usize = 0;
        while i < entries.len()
            invariant
                i <= entries@.len(),
                entries@.len() == self.members().len(),
                forall|j: int| 0 <= j < entries@.len() ==> (#[trigger] entries@[j]).0@ == self.members()[j],
                out@.len() == i,
                forall|j: int| 0 <= j < i ==> (#[trigger] out@[j])@ == self.members()[j],
            decreases entries@.len() - i,
        {
            out.push(&entries[i].0);
            i += 1;
        }
        out
    }

    /// A set holding the given members.
    pub fn from(members: Vec<String>) -> (s: Self)
        ensures
            forall|q: Seq<char>| s.has(q) <==> exists|i: int| 0 <= i < members@.len() && (#[trigger] members@[i])@ == q,
    {
        let mut s = IdSet::new();
        let mut i: usize = 0;
        let mut rest = members;
        let ghost all = rest@;
        assert(rest@.len() == rest.len());
        assert(rest@ =~= all.skip(0));
        while rest.len() > 0
            invariant
                rest@ =~= all.skip(i as int),
                i <= all.len(),
                rest@.len() == all.len() - i,
                all.len() <= usize::MAX,
                forall|q: Seq<char>| s.has(q) <==> exists|j: int| 0 <= j < i && (#[trigger] all[j])@ == q,
            decreases rest@.len(),
        {
            let ghost before = s;
            let k = rest.remove(0);
            let ghost kv = k@;
            s.insert(k);
            proof {
                assert forall|q: Seq<char>| s.has(q) <==> exists|j: int| 0 <= j < i + 1 && (#[trigger] all[j])@ == q by {
                    if q == kv {
                        assert(all[i as int]@ == q);
                    } else if s.has(q) {
                        assert(before.has(q));
                        let j = choose|j: int| 0 <= j < i && (#[trigger] all[j])@ == q;
                        assert(0 <= j < i + 1);
                    }
                }
                assert(rest@ =~= all.skip(i + 1));
            }
            i = i + 1;
        }
        s
    }
}


/// The views of a list of strings.
pub open spec fn string_views(v: Seq<String>) -> Seq<Seq<char>> {
    v.map_values(|x: String| x@)
}

/// The keys of `a` and `b`, each once, in increasing order.
pub open spec fn sorted_union(a: Seq<Seq<char>>, b: Seq<Seq<char>>) -> Seq<Seq<char>> {
    choose|u: Seq<Seq<char>>| increasing(u) && forall|k: Seq<char>| #[trigger] u.contains(k) <==> (a.contains(k) || b.contains(k))
}

/// A finite set of keys has only one increasing listing.
pub proof fn lemma_increasing_unique(u: Seq<Seq<char>>, v: Seq<Seq<char>>)
    requires increasing(u), increasing(v),
        forall|k: Seq<char>| #![trigger u.contains(k)] #![trigger v.contains(k)] u.contains(k) <==> v.contains(k),
    ensures u == v,
    decreases u.len(),
{
    if u.len() == 0 {
        if v.len() > 0 { assert(v.contains(v[0])); }
        assert(u =~= v);
    } else {
        assert(u.contains(u[0]));
        assert(v.len() > 0);
        assert(v.contains(v[0]));
        let j = choose|j: int| 0 <= j < v.len() && v[j] == u[0];
        let i = choose|i: int| 0 <= i < u.len() && u[i] == v[0];
        if j > 0 {
            assert(seq_lt(v[0], v[j]));
            if i > 0 {
                assert(seq_lt(u[0], u[i]));
                lemma_seq_lt_asymmetric(v[0], u[0]);
            } else {
                lemma_seq_lt_irreflexive(v[0]);
            }
        }
        assert(u[0] == v[0]);
        let ut = u.drop_first();
        let vt = v.drop_first();
        assert forall|k: Seq<char>| #![trigger ut.contains(k)] #![trigger vt.contains(k)] ut.contains(k) <==> vt.contains(k) by {
            if ut.contains(k) {
                let a = choose|a: int| 0 <= a < ut.len() && ut[a] == k;
                assert(u[a + 1] == k);
                assert(seq_lt(u[0], k));
                lemma_seq_lt_irreflexive(k);
                assert(v.contains(k));
                let b = choose|b: int| 0 <= b < v.len() && v[b] == k;
                assert(b != 0);
                assert(vt[b - 1] == k);
            }
            if vt.contains(k) {
                let a = choose|a: int| 0 <= a < vt.len() && vt[a] == k;
                assert(v[a + 1] == k);
                assert(seq_lt(v[0], k));
                lemma_seq_lt_irreflexive(k);
                assert(u.contains(k));
                let b = choose|b: int| 0 <= b < u.len() && u[b] == k;
                assert(b != 0);
                assert(ut[b - 1] == k);
            }
        }
        assert(increasing(ut)) by {
            assert forall|x: int, y: int| 0 <= x < y < ut.len() implies seq_lt(#[trigger] ut[x], #[trigger] ut[y]) by {
                assert(ut[x] == u[x + 1] && ut[y] == u[y + 1]);
            }
        }
        assert(increasing(vt)) by {
            assert forall|x: int, y: int| 0 <= x < y < vt.len() implies seq_lt(#[trigger] vt[x], #[trigger] vt[y]) by {
                assert(vt[x] == v[x + 1] && vt[y] == v[y + 1]);
            }
        }
        lemma_increasing_unique(ut, vt);
        assert(u =~= v) by {
            assert forall|x: int| 0 <= x < u.len() implies u[x] == v[x] by {
                if x > 0 { assert(u[x] == ut[x - 1] && v[x] == vt[x - 1]); }
            }
        }
    }
}

/// Adding a key to an increasing listing keeps a listing increasing.
proof fn lemma_listing_insert(u: Seq<Seq<char>>, x: Seq<char>) -> (v: Seq<Seq<char>>)
    requires increasing(u),
    ensures increasing(v), forall|k: Seq<char>| #[trigger] v.contains(k) <==> (u.contains(k) || k == x),
    decreases u.len(),
{
    if u.contains(x) {
        u
    } else if u.len() == 0 {
        let v = seq![x];
        assert forall|k: Seq<char>| #[trigger] v.contains(k) <==> (u.contains(k) || k == x) by {
            if v.contains(k) { let i = choose|i: int| 0 <= i < v.len() && v[i] == k; }
            if k == x { assert(v[0] == x); }
        }
        v
    } else if seq_lt(x, u[0]) {
        let v = seq![x] + u;
        assert forall|i: int, j: int| 0 <= i < j < v.len() implies seq_lt(#[trigger] v[i], #[trigger] v[j]) by {
            if i == 0 {
                if j > 1 { lemma_seq_lt_transitive(x, u[0], u[j - 1]); }
            } else {
                assert(v[i] == u[i - 1] && v[j] == u[j - 1]);
            }
        }
        assert forall|k: Seq<char>| #[trigger] v.contains(k) <==> (u.contains(k) || k == x) by {
            if v.contains(k) {
                let i = choose|i: int| 0 <= i < v.len() && v[i] == k;
                if i > 0 { assert(u[i - 1] == k); }
            }
            if u.contains(k) {
                let i = choose|i: int| 0 <= i < u.len() && u[i] == k;
                assert(v[i + 1] == k);
            }
            if k == x { assert(v[0] == x); }
        }
        v
    } else {
        assert(u[0] != x) by { assert(u.contains(u[0])); }
        lemma_seq_lt_total(x, u[0]);
        let t = u.drop_first();
        assert(increasing(t)) by {
            assert forall|i: int, j: int| 0 <= i < j < t.len() implies seq_lt(#[trigger] t[i], #[trigger] t[j]) by {
                assert(t[i] == u[i + 1] && t[j] == u[j + 1]);
            }
        }
        let w = lemma_listing_insert(t, x);
        let v = seq![u[0]] + w;
        assert forall|k: Seq<char>| #[trigger] v.contains(k) <==> (u.contains(k) || k == x) by {
            if v.contains(k) {
                let i = choose|i: int| 0 <= i < v.len() && v[i] == k;
                if i > 0 {
                    assert(w[i - 1] == k);
                    assert(w.contains(k));
                    if t.contains(k) {
                        let m = choose|m: int| 0 <= m < t.len() && t[m] == k;
                        assert(u[m + 1] == k);
                    }
                } else {
                    assert(u[0] == k);
                }
            }
            if u.contains(k) {
                let i = choose|i: int| 0 <= i < u.len() && u[i] == k;
                if i > 0 {
                    assert(t[i - 1] == k);
                    assert(t.contains(k));
                    assert(w.contains(k));
                    let m = choose|m: int| 0 <= m < w.len() && w[m] == k;
                    assert(v[m + 1] == k);
                } else {
                    assert(v[0] == k);
                }
            }
            if k == x {
                assert(w.contains(x));
                let m = choose|m: int| 0 <= m < w.len() && w[m] == x;
                assert(v[m + 1] == x);
            }
        }
        assert forall|i: int, j: int| 0 <= i < j < v.len() implies seq_lt(#[trigger] v[i], #[trigger] v[j]) by {
            if i == 0 {
                let k = v[j];
                assert(w[j - 1] == k);
                assert(w.contains(k));
                if k != x {
                    assert(t.contains(k));
                    let m = choose|m: int| 0 <= m < t.len() && t[m] == k;
                    assert(u[m + 1] == k);
                }
            } else {
                assert(v[i] == w[i - 1] && v[j] == w[j - 1]);
            }
        }
        v
    }
}

/// Every finite list of keys has an increasing listing.
proof fn lemma_listing_exists(s: Seq<Seq<char>>) -> (u: Seq<Seq<char>>)
    ensures increasing(u), forall|k: Seq<char>| #[trigger] u.contains(k) <==> s.contains(k),
    decreases s.len(),
{
    if s.len() == 0 {
        let u = Seq::<Seq<char>>::empty();
        assert forall|k: Seq<char>| #[trigger] u.contains(k) <==> s.contains(k) by {
            if s.contains(k) { let i = choose|i: int| 0 <= i < s.len() && s[i] == k; }
        }
        u
    } else {
        let init = s.drop_last();
        let u0 = lemma_listing_exists(init);
        let u = lemma_listing_insert(u0, s.last());
        assert forall|k: Seq<char>| #[trigger] u.contains(k) <==> s.contains(k) by {
            if s.contains(k) {
                let i = choose|i: int| 0 <= i < s.len() && s[i] == k;
                if i < s.len() - 1 { assert(init[i] == k); assert(init.contains(k)); }
            }
            if init.contains(k) {
                let i = choose|i: int| 0 <= i < init.len() && init[i] == k;
                assert(s[i] == k);
            }
            if k == s.last() { assert(s[s.len() - 1] == k); }
        }
        u
    }
}

/// The sorted union of two lists of keys is increasing and holds the keys of both.
pub proof fn lemma_sorted_union_holds(a: Seq<Seq<char>>, b: Seq<Seq<char>>)
    ensures
        increasing(sorted_union(a, b)),
        forall|k: Seq<char>| #[trigger] sorted_union(a, b).contains(k) <==> (a.contains(k) || b.contains(k)),
{
    let u = lemma_listing_exists(a + b);
    assert forall|k: Seq<char>| #[trigger] u.contains(k) <==> (a.contains(k) || b.contains(k)) by {
        if (a + b).contains(k) {
            let i = choose|i: int| 0 <= i < (a + b).len() && (a + b)[i] == k;
            if i < a.len() { assert(a[i] == k); } else { assert(b[i - a.len()] == k); }
        }
        if a.contains(k) {
            let i = choose|i: int| 0 <= i < a.len() && a[i] == k;
            assert((a + b)[i] == k);
        }
        if b.contains(k) {
            let i = choose|i: int| 0 <= i < b.len() && b[i] == k;
            assert((a + b)[i + a.len()] == k);
        }
    }
    lemma_sorted_union(a, b, u);
}

/// An increasing listing of the keys of `a` and `b` is their sorted union.
pub proof fn lemma_sorted_union(a: Seq<Seq<char>>, b: Seq<Seq<char>>, u: Seq<Seq<char>>)
    requires increasing(u), forall|k: Seq<char>| #[trigger] u.contains(k) <==> (a.contains(k) || b.contains(k)),
    ensures sorted_union(a, b) == u,
{
    let w = sorted_union(a, b);
    assert(increasing(w) && forall|k: Seq<char>| #[trigger] w.contains(k) <==> (a.contains(k) || b.contains(k)));
    lemma_increasing_unique(w, u);
}

impl IdSet {
    /// An equal copy.
    pub fn duplicate(&self) -> (c: Self)
        ensures c.members() == self.members(),
    {
        IdSet { items: self.items.clone() }
    }

    /// Whether both hold the same members.
    pub fn same(&self, other: &Self) -> (r: bool)
        ensures r == (self.members() == other.members()),
    {
        let a = self.items();
        let b = other.items();
        if a.len() != b.len() {
            return false;
        }
        let mut i: usize = 0;
        while i < a.len()
            invariant
                i <= a@.len(), a@.len() == b@.len(),
                a@.len() == self.members().len(), b@.len() == other.members().len(),
                forall|j: int| 0 <= j < a@.len() ==> (#[trigger] a@[j])@ == self.members()[j],
                forall|j: int| 0 <= j < b@.len() ==> (#[trigger] b@[j])@ == other.members()[j],
                forall|j: int| 0 <= j < i ==> #[trigger] self.members()[j] == other.members()[j],
            decreases a@.len() - i,
        {
            if !str_equal(a[i].as_str(), b[i].as_str()) {
                assert(a@[i as int]@ == self.members()[i as int] && b@[i as int]@ == other.members()[i as int]);
                return false;
            }
            assert(a@[i as int]@ == self.members()[i as int] && b@[i as int]@ == other.members()[i as int]);
            i += 1;
        }
        assert(self.members() =~= other.members());
        true
    }

    /// Number of members, and the members are increasing.
    pub fn size(&self) -> (n: usize)
        ensures n == self.members().len(), increasing(self.members()),
    {
        let _ = self.items.entries();
        self.items.len()
    }

    /// The members, in increasing order, as owned strings.
    pub fn members_owned(&self) -> (r: Vec<String>)
        ensures
            r@.len() == self.members().len(),
            forall|i: int| 0 <= i < r@.len() ==> (#[trigger] r@[i])@ == self.members()[i],
            increasing(self.members()),
    {
        let items = self.items();
        let mut out: Vec<String> = Vec::new();
        let mut i: usize = 0;
        while i < items.len()
            invariant
                i <= items@.len(), out@.len() == i,
                forall|j: int| 0 <= j < i ==> (#[trigger] out@[j])@ == items@[j]@,
            decreases items@.len() - i,
        {
            out.push(items[i].clone());
            i += 1;
        }
        out
    }
}

/// What bound values are: their IDs, in order, and their values.
pub open spec fn bindings_view(b: IdMap<Value>) -> (Seq<Seq<char>>, Seq<ValueModel>) {
    (b.keys(), b.values().map_values(|v: Value| v@))
}

impl IdMap<Value> {
    /// An equal copy.
    pub fn duplicate(&self) -> (c: Self)
        ensures bindings_view(c) == bindings_view(*self),
    {
        proof { use_type_invariant(self); }
        let mut out: Vec<(String, Value)> = Vec::new();
        let mut i: usize = 0;
        while i < self.entries.len()
            invariant
                i <= self.entries@.len(), out@.len() == i,
                increasing(self.keys()),
                forall|j: int| 0 <= j < i ==> (#[trigger] out@[j]).0@ == self.entries@[j].0@ && out@[j].1@ == self.entries@[j].1@,
            decreases self.entries@.len() - i,
        {
            let e = &self.entries[i];
            out.push((e.0.clone(), e.1.duplicate()));
            i += 1;
        }
        assert(out@.map_values(|e: (String, Value)| e.0@) =~= self.keys());
        let c = IdMap { entries: out };
        proof {
            assert(c.keys() =~= self.keys());
            assert(c.values().map_values(|v: Value| v@) =~= self.values().map_values(|v: Value| v@));
        }
        c
    }

    /// Whether both hold the same IDs with equal values.
    pub fn same(&self, other: &Self) -> (r: bool)
        ensures r == (bindings_view(*self) == bindings_view(*other)),
    {
        let a = self.entries();
        let b = other.entries();
        if a.len() != b.len() {
            proof { assert(bindings_view(*self).0.len() != bindings_view(*other).0.len()); }
            return false;
        }
        let mut i: usize = 0;
        while i < a.len()
            invariant
                a@.len() == b@.len(), i <= a@.len(),
                a@.len() == self.keys().len(), b@.len() == other.keys().len(),
                self.keys().len() == self.values().len(), other.keys().len() == other.values().len(),
                forall|j: int| 0 <= j < a@.len() ==> (#[trigger] a@[j]).0@ == self.keys()[j] && a@[j].1 == self.values()[j],
                forall|j: int| 0 <= j < b@.len() ==> (#[trigger] b@[j]).0@ == other.keys()[j] && b@[j].1 == other.values()[j],
                forall|j: int| 0 <= j < i ==> #[trigger] self.keys()[j] == other.keys()[j],
                forall|j: int| 0 <= j < i ==> (#[trigger] self.values()[j])@ == other.values()[j]@,
            decreases a@.len() - i,
        {
            let ke = str_equal(a[i].0.as_str(), b[i].0.as_str());
            let ve = a[i].1.same(&b[i].1);
            if !ke || !ve {
                proof {
                    let x = bindings_view(*self);
                    let y = bindings_view(*other);
                    if x == y {
                        assert(x.0[i as int] == y.0[i as int]);
                        assert(x.1[i as int] == y.1[i as int]);
                    }
                }
                return false;
            }
            assert(a@[i as int].0@ == self.keys()[i as int] && a@[i as int].1 == self.values()[i as int]);
            assert(b@[i as int].0@ == other.keys()[i as int] && b@[i as int].1 == other.values()[i as int]);
            assert(self.keys()[i as int] == other.keys()[i as int] && self.values()[i as int]@ == other.values()[i as int]@);
            i += 1;
        }
        proof {
            assert(self.keys() =~= other.keys());
            let x = self.values().map_values(|v: Value| v@);
            let y = other.values().map_values(|v: Value| v@);
            assert forall|j: int| 0 <= j < x.len() implies #[trigger] x[j] == y[j] by {
                assert(self.keys()[j] == other.keys()[j]);
            }
            assert(self.values().map_values(|v: Value| v@) =~= other.values().map_values(|v: Value| v@));
        }
        true
    }
}

} // verus!
