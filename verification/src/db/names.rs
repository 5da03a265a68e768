//! An ordered map from byte strings to values.

use crate::text::{
    as_slice, content, lemma_lex_irreflexive, lemma_lex_total, lemma_lex_transitive, lex_lt, rank,
    Rank,
};
use bytes::Bytes;
use vstd::prelude::*;

verus! {

/// Whether the byte strings rise strictly, in lexicographic order, along the
/// sequence.
pub open spec fn rising(names: Seq<Seq<u8>>) -> bool {
    forall|i: int, j: int|
        0 <= i < j < names.len() ==> lex_lt(#[trigger] names[i], #[trigger] names[j])
}

/// In a rising sequence no byte string occurs twice.
pub proof fn lemma_rising_distinct(names: Seq<Seq<u8>>, i: int, j: int)
    requires
        rising(names),
        0 <= i < names.len(),
        0 <= j < names.len(),
        names[i] == names[j],
    ensures
        i == j,
{
    lemma_lex_irreflexive(names[i]);
    if i < j {
        assert(lex_lt(names[i], names[j]));
    } else if j < i {
        assert(lex_lt(names[j], names[i]));
    }
}

/// A key with its value.
pub struct Slot<V> {
    key: Bytes,
    value: V,
}

/// A map from byte strings to values that keeps its keys in lexicographic
/// order.
pub struct NameMap<V> {
    slots: Vec<Slot<V>>,
}

impl<V> View for NameMap<V> {
    type V = Map<Seq<u8>, V>;

    open spec fn view(&self) -> Map<Seq<u8>, V> {
        Map::new(
            |k: Seq<u8>| self.names().contains(k),
            |k: Seq<u8>| self.values()[self.names().index_of(k)],
        )
    }
}

impl<V> NameMap<V> {
    /// The keys, in the order in which the map holds them.
    pub closed spec fn names(&self) -> Seq<Seq<u8>> {
        self.slots@.map_values(|s: Slot<V>| content(s.key))
    }

    /// The values, each at the place of its key.
    pub closed spec fn values(&self) -> Seq<V> {
        self.slots@.map_values(|s: Slot<V>| s.value)
    }

    /// The keys rise strictly, so that none occurs twice.
    pub open spec fn wf(&self) -> bool {
        &&& self.names().len() == self.values().len()
        &&& rising(self.names())
    }

    /// The key at place `i` is mapped to the value at place `i`.
    pub proof fn lemma_entry(&self, i: int)
        requires
            self.wf(),
            0 <= i < self.names().len(),
        ensures
            self@.contains_key(self.names()[i]),
            self@[self.names()[i]] == self.values()[i],
    {
        let k = self.names()[i];
        assert(self.names().contains(k));
        let j = self.names().index_of(k);
        lemma_rising_distinct(self.names(), i, j);
    }

    /// Every key of the map has a place.
    pub proof fn lemma_place(&self, k: Seq<u8>)
        requires
            self.wf(),
            self@.contains_key(k),
        ensures
            0 <= self.names().index_of(k) < self.names().len(),
            self.names()[self.names().index_of(k)] == k,
            self@[k] == self.values()[self.names().index_of(k)],
    {
    }

    /// Changing the value at one place changes what that key is mapped to,
    /// and nothing else.
    pub proof fn lemma_changed_value(before: Self, after: Self, i: int)
        requires
            before.wf(),
            0 <= i < before.values().len(),
            after.names() == before.names(),
            after.values() == before.values().update(i, after.values()[i]),
        ensures
            after.wf(),
            after@ == before@.insert(before.names()[i], after.values()[i]),
    {
        let name = before.names()[i];
        before.lemma_entry(i);
        after.lemma_entry(i);
        assert forall|k: Seq<u8>| after@.contains_key(k) implies #[trigger] after@[k]
            == before@.insert(name, after.values()[i])[k] by {
            if k != name {
                let j = before.names().index_of(k);
                before.lemma_entry(j);
                after.lemma_entry(j);
            }
        }
        assert(after@ =~= before@.insert(name, after.values()[i]));
    }

    /// A map without keys.
    pub fn new() -> (r: Self)
        ensures
            r.wf(),
            r.names().len() == 0,
            r@ == Map::<Seq<u8>, V>::empty(),
    {
        let r = Self { slots: Vec::new() };
        assert(r@ =~= Map::<Seq<u8>, V>::empty());
        r
    }

    /// The number of keys.
    pub fn len(&self) -> (r: usize)
        ensures
            r == self.names().len(),
            r == self.values().len(),
    {
        self.slots.len()
    }

    /// The key at place `i`.
    pub fn key_at(&self, i: usize) -> (r: &Bytes)
        requires
            i < self.names().len(),
        ensures
            content(*r) == self.names()[i as int],
    {
        &self.slots[i].key
    }

    /// The value at place `i`.
    pub fn value_at(&self, i: usize) -> (r: &V)
        requires
            i < self.values().len(),
        ensures
            *r == self.values()[i as int],
    {
        &self.slots[i].value
    }

    /// The value at place `i`, to be changed in place.
    pub fn value_at_mut(&mut self, i: usize) -> (r: &mut V)
        requires
            i < old(self).values().len(),
        ensures
            *r == old(self).values()[i as int],
            final(self).names() == old(self).names(),
            final(self).values() == old(self).values().update(i as int, *final(r)),
    {
        &mut self.slots[i].value
    }

    /// Where `key` is, or where it would have to go: `Ok` with its place if
    /// the map holds it, else `Err` with the place at which it keeps the keys
    /// in order.
    pub fn locate(&self, key: &[u8]) -> (r: Result<usize, usize>)
        requires
            self.wf(),
        ensures
            match r {
                Ok(i) => i < self.names().len() && self.names()[i as int] == key@,
                Err(i) => {
                    &&& i <= self.names().len()
                    &&& !self.names().contains(key@)
                    &&& forall|j: int| 0 <= j < i ==> lex_lt(#[trigger] self.names()[j], key@)
                    &&& forall|j: int|
                        i <= j < self.names().len() ==> lex_lt(key@, #[trigger] self.names()[j])
                },
            },
    {
        let ghost names = self.names();
        let mut lo: usize = 0;
        let mut hi: usize = self.slots.len();
        while lo < hi
            invariant
                names == self.names(),
                self.wf(),
                hi <= self.slots.len(),
                names.len() == self.slots.len(),
                lo <= hi,
                forall|j: int| 0 <= j < lo ==> lex_lt(#[trigger] names[j], key@),
                forall|j: int| hi <= j < names.len() ==> lex_lt(key@, #[trigger] names[j]),
            decreases hi - lo,
        {
            let mid: usize = lo + (hi - lo) / 2;
            let at: &[u8] = as_slice(&self.slots[mid].key);
            assert(at@ == names[mid as int]);
            match rank(at, key) {
                Rank::Same => {
                    return Ok(mid);
                },
                Rank::Before => {
                    assert forall|j: int| 0 <= j < mid + 1 implies lex_lt(
                        #[trigger] names[j],
                        key@,
                    ) by {
                        if j < mid {
                            assert(lex_lt(names[j], names[mid as int]));
                            lemma_lex_transitive(names[j], names[mid as int], key@);
                        }
                    }
                    lo = mid + 1;
                },
                Rank::After => {
                    proof {
                        lemma_lex_total(names[mid as int], key@);
                    }
                    assert forall|j: int| mid <= j < names.len() implies lex_lt(
                        key@,
                        #[trigger] names[j],
                    ) by {
                        if j > mid {
                            assert(lex_lt(names[mid as int], names[j]));
                            lemma_lex_transitive(key@, names[mid as int], names[j]);
                        }
                    }
                    hi = mid;
                },
            }
        }
        proof {
            if names.contains(key@) {
                let w = choose|w: int| 0 <= w < names.len() && names[w] == key@;
                lemma_lex_irreflexive(key@);
                if w < lo {
                    assert(lex_lt(names[w], key@));
                } else {
                    assert(lex_lt(key@, names[w]));
                }
            }
        }
        Err(lo)
    }

    /// The value of `key`, if the map holds it.
    pub fn get(&self, key: &[u8]) -> (r: Option<&V>)
        requires
            self.wf(),
        ensures
            match r {
                Some(v) => self@.contains_key(key@) && self@[key@] == *v,
                None => !self@.contains_key(key@),
            },
    {
        match self.locate(key) {
            Ok(i) => {
                proof {
                    self.lemma_entry(i as int);
                }
                Some(&self.slots[i].value)
            },
            Err(_) => None,
        }
    }

    /// Maps `key` to `value`. Returns the value that `key` was mapped to
    /// before, if the map held it.
    pub fn insert(&mut self, key: Bytes, value: V) -> (r: Option<V>)
        requires
            old(self).wf(),
        ensures
            final(self).wf(),
            final(self)@ == old(self)@.insert(content(key), value),
            r == if old(self)@.contains_key(content(key)) {
                Some(old(self)@[content(key)])
            } else {
                None
            },
    {
        let ghost before = *self;
        let ghost k = content(key);
        match self.locate(as_slice(&key)) {
            Ok(i) => {
                proof {
                    before.lemma_entry(i as int);
                }
                self.slots.push(Slot { key, value });
                let was = self.slots.swap_remove(i);
                proof {
                    assert(self.names() =~= before.names());
                    assert(self.values() =~= before.values().update(i as int, value));
                    assert forall|q: Seq<u8>| self@.contains_key(q) implies #[trigger] self@[q]
                        == before@.insert(k, value)[q] by {
                        let j = self.names().index_of(q);
                        if q == k {
                            lemma_rising_distinct(self.names(), i as int, j);
                        } else {
                        }
                    }
                    assert(self@ =~= before@.insert(k, value));
                }
                Some(was.value)
            },
            Err(i) => {
                self.slots.insert(i, Slot { key, value });
                proof {
                    let names = self.names();
                    let old_names = before.names();
                    assert(names =~= old_names.insert(i as int, k));
                    assert(self.values() =~= before.values().insert(i as int, value));
                    assert forall|a: int, b: int| 0 <= a < b < names.len() implies lex_lt(
                        #[trigger] names[a],
                        #[trigger] names[b],
                    ) by {
                        if a == i {
                            assert(names[b] == old_names[b - 1]);
                        } else if b == i {
                            assert(names[a] == old_names[a]);
                        } else {
                            let a0 = if a < i { a } else { a - 1 };
                            let b0 = if b < i { b } else { b - 1 };
                            assert(names[a] == old_names[a0]);
                            assert(names[b] == old_names[b0]);
                        }
                    }
                    assert forall|q: Seq<u8>| names.contains(q) <==> (q == k || old_names.contains(
                        q,
                    )) by {
                        if names.contains(q) {
                            let w = choose|w: int| 0 <= w < names.len() && names[w] == q;
                            if w < i {
                                assert(old_names[w] == q);
                            } else if w > i {
                                assert(old_names[w - 1] == q);
                            }
                        }
                        if q == k {
                            assert(names[i as int] == k);
                        } else if old_names.contains(q) {
                            let w = choose|w: int| 0 <= w < old_names.len() && old_names[w] == q;
                            if w < i {
                                assert(names[w] == q);
                            } else {
                                assert(names[w + 1] == q);
                            }
                        }
                    }
                    assert forall|q: Seq<u8>| self@.contains_key(q) implies #[trigger] self@[q]
                        == before@.insert(k, value)[q] by {
                        let j = names.index_of(q);
                        if q == k {
                            lemma_rising_distinct(names, i as int, j);
                        } else {
                            let j0 = old_names.index_of(q);
                            let j1 = if j0 < i { j0 } else { j0 + 1 };
                            assert(names[j1] == q);
                            lemma_rising_distinct(names, j, j1);
                        }
                    }
                    assert(self@ =~= before@.insert(k, value));
                }
                None
            },
        }
    }
}

} // verus!
