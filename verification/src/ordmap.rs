//! An ordered map from byte strings, kept as a sorted run of entries.
//!
//! Keys are reference-counted, so that a copy of a map shares them.

use crate::assoc;
use crate::bytes;
use crate::bytes::{bytes_eq, bytes_lt};
use std::sync::Arc;
use vstd::prelude::*;

verus! {

/// Immutable, reference-counted bytes.
pub type Shared = Arc<Vec<u8>>;

/// Another handle to the bytes, or to any other value, behind `a`: calls `Arc::clone`, which
/// makes a pointer to the same allocation, so both handles hold the same value.
#[verifier::external_body]
pub(crate) fn share<T>(a: &Arc<T>) -> (r: Arc<T>)
    ensures
        r == *a,
{
    Arc::clone(a)
}

/// A map from byte strings to `V`, listed in ascending key order.
#[derive(Debug, PartialEq, Eq)]
pub struct OrdMap<V> {
    items: Vec<(Shared, V)>,
}

/// The entries of `items`, with their keys as byte strings.
pub open spec fn items_view<V>(items: Seq<(Shared, V)>) -> Seq<(Seq<u8>, V)> {
    items.map_values(|e: (Shared, V)| (e.0@, e.1))
}

impl<V> OrdMap<V> {
    #[verifier::type_invariant]
    spec fn wf(self) -> bool {
        assoc::sorted(items_view(self.items@))
    }

    /// The entries in ascending key order.
    pub closed spec fn entries(&self) -> Seq<(Seq<u8>, V)> {
        items_view(self.items@)
    }

    /// The map that the entries stand for.
    pub open spec fn view(&self) -> Map<Seq<u8>, V> {
        assoc::to_map(self.entries())
    }

    /// An empty map.
    pub fn new() -> (r: OrdMap<V>)
        ensures
            r.entries() == Seq::<(Seq<u8>, V)>::empty(),
            r@ == Map::<Seq<u8>, V>::empty(),
    {
        let items: Vec<(Shared, V)> = Vec::new();
        assert(items_view(items@) =~= Seq::<(Seq<u8>, V)>::empty());
        let r = OrdMap { items };
        assert(r@ =~= Map::<Seq<u8>, V>::empty());
        r
    }

    /// The number of keys.
    pub fn len(&self) -> (r: usize)
        ensures
            r == self.entries().len(),
            assoc::sorted(self.entries()),
    {
        proof {
            use_type_invariant(self);
        }
        self.items.len()
    }

    /// Whether there is no key.
    pub fn is_empty(&self) -> (r: bool)
        ensures
            r == (self.entries().len() == 0),
    {
        self.items.len() == 0
    }

    /// The number of keys below `key`, which is where `key` stands or would stand.
    pub fn rank(&self, key: &[u8]) -> (r: usize)
        ensures
            r == assoc::rank(self.entries(), key@),
            r <= self.entries().len(),
            assoc::sorted(self.entries()),
    {
        proof {
            use_type_invariant(self);
        }
        rank_of(&self.items, key)
    }

    /// The key at position `i`.
    pub fn key_at(&self, i: usize) -> (r: &Shared)
        requires
            i < self.entries().len(),
        ensures
            r@ == self.entries()[i as int].0,
    {
        &self.items[i].0
    }

    /// The value at position `i`.
    pub fn value_at(&self, i: usize) -> (r: &V)
        requires
            i < self.entries().len(),
        ensures
            *r == self.entries()[i as int].1,
    {
        &self.items[i].1
    }

    /// The value of `key`.
    pub fn get(&self, key: &[u8]) -> (r: Option<&V>)
        ensures
            match r {
                Some(v) => self@.contains_key(key@) && *v == self@[key@],
                None => !self@.contains_key(key@),
            },
    {
        let p: usize = self.rank(key);
        if p < self.items.len() && bytes_eq(self.items[p].0.as_slice(), key) {
            assert(self.entries()[p as int].0 == key@);
            Some(&self.items[p].1)
        } else {
            assert(p < self.entries().len() ==> self.entries()[p as int].0 != key@);
            None
        }
    }

    /// Whether `key` is present.
    pub fn contains_key(&self, key: &[u8]) -> (r: bool)
        ensures
            r == self@.contains_key(key@),
    {
        self.get(key).is_some()
    }

    /// Map `key` to `value`; returns the value it replaces.
    pub fn insert(&mut self, key: Shared, value: V) -> (r: Option<V>)
        ensures
            final(self).entries() == assoc::upsert(old(self).entries(), key@, value),
            final(self)@ == old(self)@.insert(key@, value),
            r == assoc::find(old(self).entries(), key@),
    {
        proof {
            use_type_invariant(&*self);
            assoc::lemma_upsert(self.entries(), key@, value);
        }
        let ghost es = self.entries();
        let p: usize = rank_of(&self.items, key.as_slice());
        let mut items: Vec<(Shared, V)> = Vec::new();
        assert(items_view(items@) =~= Seq::<(Seq<u8>, V)>::empty());
        std::mem::swap(&mut items, &mut self.items);
        if p < items.len() && bytes_eq(items[p].0.as_slice(), key.as_slice()) {
            assert(es[p as int].0 == key@);
            let mut slot: V = value;
            std::mem::swap(&mut slot, &mut items[p].1);
            assert(items_view(items@) =~= assoc::upsert(es, key@, value));
            self.items = items;
            Some(slot)
        } else {
            assert(p < es.len() ==> es[p as int].0 != key@);
            items.insert(p, (key, value));
            assert(items_view(items@) =~= assoc::upsert(es, key@, value));
            self.items = items;
            None
        }
    }

    /// Take `key` out; returns its value.
    pub fn remove(&mut self, key: &[u8]) -> (r: Option<V>)
        ensures
            final(self).entries() == assoc::erase(old(self).entries(), key@),
            final(self)@ == old(self)@.remove(key@),
            r == assoc::find(old(self).entries(), key@),
    {
        proof {
            use_type_invariant(&*self);
            assoc::lemma_erase(self.entries(), key@);
        }
        let ghost es = self.entries();
        let p: usize = rank_of(&self.items, key);
        if p < self.items.len() && bytes_eq(self.items[p].0.as_slice(), key) {
            assert(es[p as int].0 == key@);
            let mut items: Vec<(Shared, V)> = Vec::new();
            assert(items_view(items@) =~= Seq::<(Seq<u8>, V)>::empty());
            std::mem::swap(&mut items, &mut self.items);
            let gone = items.remove(p);
            assert(items_view(items@) =~= assoc::erase(es, key@));
            self.items = items;
            Some(gone.1)
        } else {
            assert(p < es.len() ==> es[p as int].0 != key@);
            None
        }
    }
}

/// How many items at the front of a sorted run lie below `key`.
fn rank_of<V>(items: &Vec<(Shared, V)>, key: &[u8]) -> (r: usize)
    requires
        assoc::sorted(items_view(items@)),
    ensures
        r == assoc::rank(items_view(items@), key@),
        r <= items.len(),
{
    let ghost es = items_view(items@);
    let mut lo: usize = 0;
    let mut hi: usize = items.len();
    while lo < hi
        invariant
            lo <= hi <= items.len(),
            es == items_view(items@),
            assoc::sorted(es),
            forall|j: int| 0 <= j < lo ==> bytes::lex_lt(#[trigger] es[j].0, key@),
            forall|j: int| hi <= j < es.len() ==> !bytes::lex_lt(#[trigger] es[j].0, key@),
        decreases hi - lo,
    {
        let mid: usize = lo + (hi - lo) / 2;
        if bytes_lt(items[mid].0.as_slice(), key) {
            proof {
                assert forall|j: int| 0 <= j < mid + 1 implies bytes::lex_lt(
                    #[trigger] es[j].0,
                    key@,
                ) by {
                    if j < mid {
                        assert(bytes::lex_lt(es[j].0, es[mid as int].0));
                        bytes::lemma_lex_transitive(es[j].0, es[mid as int].0, key@);
                    }
                }
            }
            lo = mid + 1;
        } else {
            proof {
                assert forall|j: int| mid <= j < es.len() implies !bytes::lex_lt(
                    #[trigger] es[j].0,
                    key@,
                ) by {
                    if j > mid {
                        assert(bytes::lex_lt(es[mid as int].0, es[j].0));
                        if bytes::lex_lt(es[j].0, key@) {
                            bytes::lemma_lex_transitive(es[mid as int].0, es[j].0, key@);
                        }
                    }
                }
            }
            hi = mid;
        }
    }
    proof {
        assoc::lemma_rank_is(es, key@, lo as int);
    }
    lo
}

impl<V: Clone> Clone for OrdMap<V> {
    /// A copy that shares its keys with this map and clones its values.
    fn clone(&self) -> (r: OrdMap<V>)
        ensures
            r.entries().len() == self.entries().len(),
            forall|i: int|
                0 <= i < r.entries().len() ==> (#[trigger] r.entries()[i]).0 == self.entries()[i].0
                    && cloned(self.entries()[i].1, r.entries()[i].1),
    {
        proof {
            use_type_invariant(self);
        }
        let mut items: Vec<(Shared, V)> = Vec::new();
        let mut i: usize = 0;
        while i < self.items.len()
            invariant
                i <= self.items.len(),
                items.len() == i,
                forall|j: int|
                    0 <= j < i ==> (#[trigger] items@[j]).0 == self.items@[j].0 && cloned(
                        self.items@[j].1,
                        items@[j].1,
                    ),
            decreases self.items.len() - i,
        {
            items.push((share(&self.items[i].0), self.items[i].1.clone()));
            i = i + 1;
        }
        proof {
            let es = self.entries();
            let cs = items_view(items@);
            assert forall|x: int, y: int| 0 <= x < y < cs.len() implies bytes::lex_lt(
                #[trigger] cs[x].0,
                #[trigger] cs[y].0,
            ) by {
                assert(cs[x].0 == es[x].0);
                assert(cs[y].0 == es[y].0);
            }
        }
        OrdMap { items }
    }
}

impl<V> Default for OrdMap<V> {
    fn default() -> (r: OrdMap<V>)
        ensures
            r.entries() == Seq::<(Seq<u8>, V)>::empty(),
    {
        OrdMap::new()
    }
}

} // verus!
