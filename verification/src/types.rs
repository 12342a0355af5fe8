//! Core value types: operations, entries and snapshots.
//!
//! Everything here is deterministic and free of wall-clock time: the only ordering concepts
//! are the term and the commit index, a logical, monotone sequence number.

use crate::assoc;
use crate::bytes;
use crate::bytes::{bytes_eq, bytes_lt, copy_bytes, starts_with};
use crate::ordmap::{share, OrdMap};
use std::sync::Arc;
use vstd::prelude::*;

verus! {

pub use crate::ordmap::Shared;

/// Owned bytes: keys and values at the boundary and inside [`Op`].
pub type Bytes = Vec<u8>;

/// A value and the commit index that wrote it.
pub type Cell = (Seq<u8>, u64);

/// The live keys with their values and versions, in byte order.
pub type State = Seq<(Seq<u8>, Cell)>;

/// A stored entry. `version` is the commit index at which its value was written.
#[derive(Debug, PartialEq, Eq)]
pub struct Entry {
    pub value: Shared,
    pub version: u64,
}

impl Entry {
    pub open spec fn view(&self) -> Cell {
        (self.value@, self.version)
    }
}

impl Clone for Entry {
    /// Another handle to the same value.
    fn clone(&self) -> (r: Entry)
        ensures
            r == *self,
    {
        Entry { value: share(&self.value), version: self.version }
    }
}

/// The materialised state: live keys to their entries, in byte order.
pub type KvMap = OrdMap<Entry>;

/// The state that a map holds.
pub open spec fn state(m: KvMap) -> State {
    assoc::map_vals(m.entries(), |e: Entry| e@)
}

/// The mutating operations a commit can represent. Each is idempotent.
#[derive(Debug, PartialEq, Eq)]
pub enum Op {
    Put { key: Bytes, value: Bytes },
    Delete { key: Bytes },
}

/// An [`Op`] over byte strings.
#[verifier::ext_equal]
pub enum Change {
    Put(Seq<u8>, Seq<u8>),
    Delete(Seq<u8>),
}

/// Whether a change at `s` alters what a reader sees: a put of a new or different value, or a
/// delete of a present key.
pub open spec fn alters(s: State, c: Change) -> bool {
    match c {
        Change::Put(k, v) => match assoc::find(s, k) {
            Some(cell) => cell.0 != v,
            None => true,
        },
        Change::Delete(k) => assoc::find(s, k) is Some,
    }
}

/// The state after a change at commit `index`. A put of the value already there keeps the
/// entry and its version.
pub open spec fn change(s: State, c: Change, index: u64) -> State {
    if !alters(s, c) {
        s
    } else {
        match c {
            Change::Put(k, v) => assoc::upsert(s, k, (v, index)),
            Change::Delete(k) => assoc::erase(s, k),
        }
    }
}

/// The state after several changes at one commit `index`, in order.
pub open spec fn change_all(s: State, cs: Seq<Change>, index: u64) -> State
    decreases cs.len(),
{
    if cs.len() == 0 {
        s
    } else {
        change(change_all(s, cs.drop_last(), index), cs.last(), index)
    }
}

/// The changes of `ops`.
pub open spec fn changes(ops: Seq<Op>) -> Seq<Change> {
    ops.map_values(|op: Op| op@)
}

/// Changes keep a state sorted.
pub proof fn lemma_change_sorted(s: State, c: Change, index: u64)
    requires
        assoc::sorted(s),
    ensures
        assoc::sorted(change(s, c, index)),
{
    match c {
        Change::Put(k, v) => {
            assoc::lemma_upsert(s, k, (v, index));
        },
        Change::Delete(k) => {
            assoc::lemma_erase(s, k);
        },
    }
}

pub proof fn lemma_change_all_sorted(s: State, cs: Seq<Change>, index: u64)
    requires
        assoc::sorted(s),
    ensures
        assoc::sorted(change_all(s, cs, index)),
    decreases cs.len(),
{
    if cs.len() > 0 {
        lemma_change_all_sorted(s, cs.drop_last(), index);
        lemma_change_sorted(change_all(s, cs.drop_last(), index), cs.last(), index);
    }
}

/// Every operation is idempotent: a second application changes nothing, not even a version.
pub proof fn law_change_is_idempotent(s: State, c: Change, index: u64, again: u64)
    requires
        assoc::sorted(s),
    ensures
        !alters(change(s, c, index), c),
        change(change(s, c, index), c, again) == change(s, c, index),
{
    match c {
        Change::Put(k, v) => {
            assoc::lemma_upsert(s, k, (v, index));
        },
        Change::Delete(k) => {
            assoc::lemma_erase(s, k);
        },
    }
}

/// A change touches no key but its own.
pub proof fn law_change_is_local(s: State, c: Change, index: u64, j: Seq<u8>)
    requires
        assoc::sorted(s),
        j != (match c {
            Change::Put(k, v) => k,
            Change::Delete(k) => k,
        }),
    ensures
        assoc::find(change(s, c, index), j) == assoc::find(s, j),
{
    match c {
        Change::Put(k, v) => {
            assoc::lemma_upsert(s, k, (v, index));
        },
        Change::Delete(k) => {
            assoc::lemma_erase(s, k);
        },
    }
}

/// A put is found with its value. Its version is the index of the commit that wrote it, unless
/// the value was there already: that keeps its version, and the visible state is the same.
pub proof fn law_a_put_is_found(s: State, k: Seq<u8>, v: Seq<u8>, index: u64)
    requires
        assoc::sorted(s),
    ensures
        (forall|i: int| 0 <= i < s.len() ==> (#[trigger] s[i]).0 != k) ==> assoc::find(
            change(s, Change::Put(k, v), index),
            k,
        ) == Some((v, index)),
        forall|i: int|
            0 <= i < s.len() && (#[trigger] s[i]).0 == k && s[i].1.0 != v ==> assoc::find(
                change(s, Change::Put(k, v), index),
                k,
            ) == Some((v, index)),
        forall|i: int|
            0 <= i < s.len() && (#[trigger] s[i]).0 == k && s[i].1.0 == v ==> change(
                s,
                Change::Put(k, v),
                index,
            ) == s,
        alters(s, Change::Put(k, v)) <==> !exists|i: int|
            0 <= i < s.len() && (#[trigger] s[i]).0 == k && s[i].1.0 == v,
{
    assoc::lemma_upsert(s, k, (v, index));
    assert forall|i: int| 0 <= i < s.len() && (#[trigger] s[i]).0 == k implies assoc::find(s, k)
        == Some(s[i].1) by {
        assoc::lemma_find_at(s, i);
    }
    if assoc::find(s, k) is Some {
        let i = assoc::lemma_found(s, k);
        assert(s[i].0 == k);
    }
}

/// A deleted key is not found, and a delete counts as a change exactly if the key was there.
pub proof fn law_a_delete_is_final(s: State, k: Seq<u8>, index: u64)
    requires
        assoc::sorted(s),
    ensures
        assoc::find(change(s, Change::Delete(k), index), k) is None,
        forall|i: int|
            0 <= i < change(s, Change::Delete(k), index).len() ==> (#[trigger] change(
                s,
                Change::Delete(k),
                index,
            )[i]).0 != k,
        alters(s, Change::Delete(k)) <==> exists|i: int|
            0 <= i < s.len() && (#[trigger] s[i]).0 == k,
        !alters(s, Change::Delete(k)) ==> change(s, Change::Delete(k), index) == s,
{
    assoc::lemma_erase(s, k);
    let d = change(s, Change::Delete(k), index);
    assert forall|i: int| 0 <= i < d.len() implies (#[trigger] d[i]).0 != k by {
        lemma_change_sorted(s, Change::Delete(k), index);
        assoc::lemma_find_at(d, i);
    }
    assert forall|i: int| 0 <= i < s.len() && (#[trigger] s[i]).0 == k implies assoc::find(s, k)
        == Some(s[i].1) by {
        assoc::lemma_find_at(s, i);
    }
    if assoc::find(s, k) is Some {
        let i = assoc::lemma_found(s, k);
        assert(s[i].0 == k);
    }
}

/// Changes that do not name a key keep what is found there.
pub proof fn law_changes_keep_other_keys(s: State, cs: Seq<Change>, index: u64, k: Seq<u8>)
    requires
        assoc::sorted(s),
        forall|l: int|
            0 <= l < cs.len() ==> (match #[trigger] cs[l] {
                Change::Put(x, _) => x != k,
                Change::Delete(x) => x != k,
            }),
    ensures
        assoc::find(change_all(s, cs, index), k) == assoc::find(s, k),
    decreases cs.len(),
{
    if cs.len() > 0 {
        let d = cs.drop_last();
        assert forall|l: int| 0 <= l < d.len() implies (match #[trigger] d[l] {
            Change::Put(x, _) => x != k,
            Change::Delete(x) => x != k,
        }) by {
            assert(d[l] == cs[l]);
        }
        assert(cs[cs.len() - 1] == cs.last());
        law_changes_keep_other_keys(s, d, index, k);
        lemma_change_all_sorted(s, d, index);
        law_change_is_local(change_all(s, d, index), cs.last(), index, k);
    }
}

/// Of several changes at one commit, the last one to a key decides what is found there: the
/// value it puts, or nothing if it deletes.
pub proof fn law_the_last_change_to_a_key_wins(s: State, cs: Seq<Change>, index: u64, j: int)
    requires
        assoc::sorted(s),
        0 <= j < cs.len(),
        forall|l: int|
            j < l < cs.len() ==> (match (#[trigger] cs[l], cs[j]) {
                (Change::Put(x, _), Change::Put(k, _)) => x != k,
                (Change::Put(x, _), Change::Delete(k)) => x != k,
                (Change::Delete(x), Change::Put(k, _)) => x != k,
                (Change::Delete(x), Change::Delete(k)) => x != k,
            }),
    ensures
        match cs[j] {
            Change::Put(k, v) => assoc::find(change_all(s, cs, index), k) matches Some(c) && c.0
                == v,
            Change::Delete(k) => assoc::find(change_all(s, cs, index), k) is None,
        },
    decreases cs.len(),
{
    let d = cs.drop_last();
    let t = change_all(s, d, index);
    lemma_change_all_sorted(s, d, index);
    assert(cs[cs.len() - 1] == cs.last());
    if j == cs.len() - 1 {
        match cs[j] {
            Change::Put(k, v) => {
                lemma_find_after_put(t, k, v, index);
            },
            Change::Delete(k) => {
                law_a_delete_is_final(t, k, index);
            },
        }
    } else {
        assert forall|l: int| j < l < d.len() implies (match (#[trigger] d[l], d[j]) {
            (Change::Put(x, _), Change::Put(k, _)) => x != k,
            (Change::Put(x, _), Change::Delete(k)) => x != k,
            (Change::Delete(x), Change::Put(k, _)) => x != k,
            (Change::Delete(x), Change::Delete(k)) => x != k,
        }) by {
            assert(d[l] == cs[l]);
        }
        assert(d[j] == cs[j]);
        law_the_last_change_to_a_key_wins(s, d, index, j);
        match cs[j] {
            Change::Put(k, v) => {
                law_change_is_local(t, cs.last(), index, k);
            },
            Change::Delete(k) => {
                law_change_is_local(t, cs.last(), index, k);
            },
        }
    }
}

/// Changes at one commit that leave a key with another value than before stamp it with the index
/// of the commit; a version that is found is that index or the version that was there before.
pub proof fn law_a_changed_value_is_stamped(s: State, cs: Seq<Change>, index: u64, k: Seq<u8>)
    requires
        assoc::sorted(s),
    ensures
        assoc::find(change_all(s, cs, index), k) matches Some(c) ==> (c.1 == index
            || assoc::find(s, k) == Some(c)),
    decreases cs.len(),
{
    if cs.len() > 0 {
        let d = cs.drop_last();
        let t = change_all(s, d, index);
        law_a_changed_value_is_stamped(s, d, index, k);
        lemma_change_all_sorted(s, d, index);
        match cs.last() {
            Change::Put(x, v) => {
                lemma_find_after_put(t, x, v, index);
                if x != k {
                    law_change_is_local(t, cs.last(), index, k);
                }
            },
            Change::Delete(x) => {
                law_a_delete_is_final(t, x, index);
                if x != k {
                    law_change_is_local(t, cs.last(), index, k);
                }
            },
        }
    }
}

/// The change `m` of `cs` put `v` at `k`, where there was another value or none, and it has been
/// found there since, with the commit index as its version.
pub open spec fn wrote(s: State, cs: Seq<Change>, index: u64, k: Seq<u8>, v: Seq<u8>, m: int) -> bool {
    &&& 0 <= m < cs.len()
    &&& cs[m] == Change::Put(k, v)
    &&& !(assoc::find(change_all(s, cs.take(m), index), k) matches Some(c) && c.0 == v)
    &&& forall|i: int|
        m < i <= cs.len() ==> assoc::find(#[trigger] change_all(s, cs.take(i), index), k) == Some(
            (v, index),
        )
}

/// What is found after the changes of a commit was either there all along, or one of the changes
/// wrote it over something else, and none changed it since.
pub proof fn law_a_version_names_its_writer(s: State, cs: Seq<Change>, index: u64, k: Seq<u8>)
    requires
        assoc::sorted(s),
    ensures
        assoc::find(change_all(s, cs, index), k) matches Some(c) ==> ({
            ||| forall|i: int|
                0 <= i <= cs.len() ==> assoc::find(
                    #[trigger] change_all(s, cs.take(i), index),
                    k,
                ) == Some(c)
            ||| c.1 == index && exists|m: int| #[trigger] wrote(s, cs, index, k, c.0, m)
        }),
    decreases cs.len(),
{
    assert(cs.take(cs.len() as int) =~= cs);
    if assoc::find(change_all(s, cs, index), k) is Some {
        let c = assoc::find(change_all(s, cs, index), k)->0;
        if cs.len() > 0 {
            let d = cs.drop_last();
            let n = d.len() as int;
            let t = change_all(s, d, index);
            law_a_version_names_its_writer(s, d, index, k);
            lemma_change_all_sorted(s, d, index);
            assert(cs.take(n) =~= d);
            assert forall|i: int| 0 <= i <= n implies #[trigger] cs.take(i) == d.take(i) by {
                assert(cs.take(i) =~= d.take(i));
            }
            match cs.last() {
                Change::Put(x, v) => {
                    lemma_find_after_put(t, x, v, index);
                    if x != k {
                        law_change_is_local(t, cs.last(), index, k);
                    }
                },
                Change::Delete(x) => {
                    law_a_delete_is_final(t, x, index);
                    if x != k {
                        law_change_is_local(t, cs.last(), index, k);
                    }
                },
            }
            if assoc::find(t, k) == Some(c) {
                if exists|m: int| #[trigger] wrote(s, d, index, k, c.0, m) && c.1 == index {
                    let m = choose|m: int| #[trigger] wrote(s, d, index, k, c.0, m);
                    assert forall|i: int| m < i <= cs.len() implies assoc::find(
                        #[trigger] change_all(s, cs.take(i), index),
                        k,
                    ) == Some((c.0, index)) by {
                        if i <= n {
                            assert(cs.take(i) == d.take(i));
                        }
                    }
                    assert(cs.take(m) == d.take(m));
                    assert(wrote(s, cs, index, k, c.0, m));
                } else {
                    assert forall|i: int| 0 <= i <= cs.len() implies assoc::find(
                        #[trigger] change_all(s, cs.take(i), index),
                        k,
                    ) == Some(c) by {
                        if i <= n {
                            assert(cs.take(i) == d.take(i));
                        }
                    }
                }
            } else {
                assert(cs[n] == Change::Put(k, c.0));
                assert(wrote(s, cs, index, k, c.0, n));
            }
        } else {
            assert forall|i: int| 0 <= i <= cs.len() implies assoc::find(
                #[trigger] change_all(s, cs.take(i), index),
                k,
            ) == Some(c) by {
                assert(cs.take(i) =~= cs);
            }
        }
    }
}

/// What a lookup of the key of a put finds.
pub proof fn lemma_find_after_put(s: State, k: Seq<u8>, v: Seq<u8>, index: u64)
    requires
        assoc::sorted(s),
    ensures
        match assoc::find(s, k) {
            Some(c) => assoc::find(change(s, Change::Put(k, v), index), k) == Some(
                (v, if c.0 == v {
                    c.1
                } else {
                    index
                }),
            ),
            None => assoc::find(change(s, Change::Put(k, v), index), k) == Some((v, index)),
        },
{
    assoc::lemma_upsert(s, k, (v, index));
}

impl Op {
    pub open spec fn view(&self) -> Change {
        match self {
            Op::Put { key, value } => Change::Put(key@, value@),
            Op::Delete { key } => Change::Delete(key@),
        }
    }

    /// Apply this op to `map` at commit `index`, stamping `version = index`. Returns whether
    /// the visible state changed: a put of the value already there is a no-op, and so is a
    /// delete of an absent key.
    pub fn apply(&self, map: &mut KvMap, index: u64) -> (r: bool)
        ensures
            r == alters(state(*old(map)), self@),
            state(*final(map)) == change(state(*old(map)), self@, index),
    {
        let ghost es = map.entries();
        let ghost f = |e: Entry| e@;
        match self {
            Op::Put { key, value } => {
                proof {
                    assoc::lemma_map_vals(es, f, key@);
                }
                if let Some(e) = map.get(key.as_slice()) {
                    if bytes_eq(e.value.as_slice(), value.as_slice()) {
                        return false;
                    }
                }
                let e = Entry {
                    value: Arc::new(copy_bytes(value.as_slice())),
                    version: index,
                };
                assert(assoc::upsert(state(*map), key@, f(e)) == assoc::map_vals(
                    assoc::upsert(es, key@, e),
                    f,
                ));
                let _before = map.insert(Arc::new(copy_bytes(key.as_slice())), e);
                true
            },
            Op::Delete { key } => {
                proof {
                    assoc::lemma_map_vals(es, f, key@);
                }
                let gone = map.remove(key.as_slice());
                gone.is_some()
            },
        }
    }
}

impl Clone for Op {
    fn clone(&self) -> (r: Op)
        ensures
            r@ == self@,
    {
        match self {
            Op::Put { key, value } => Op::Put {
                key: copy_bytes(key.as_slice()),
                value: copy_bytes(value.as_slice()),
            },
            Op::Delete { key } => Op::Delete { key: copy_bytes(key.as_slice()) },
        }
    }
}

/// Apply several ops in order at one commit index.
pub fn apply_ops(ops: &Vec<Op>, map: &mut KvMap, index: u64)
    ensures
        state(*final(map)) == change_all(state(*old(map)), changes(ops@), index),
{
    let ghost cs = changes(ops@);
    let ghost start = state(*map);
    let mut i: usize = 0;
    assert(cs.take(0) =~= seq![]);
    while i < ops.len()
        invariant
            i <= ops.len(),
            cs == changes(ops@),
            state(*map) == change_all(start, cs.take(i as int), index),
        decreases ops.len() - i,
    {
        let _changed = ops[i].apply(map, index);
        assert(cs.take(i + 1).drop_last() =~= cs.take(i as int));
        i = i + 1;
    }
    assert(cs.take(cs.len() as int) =~= cs);
}

/// A copy of a list of ops.
pub fn copy_ops(ops: &Vec<Op>) -> (r: Vec<Op>)
    ensures
        changes(r@) == changes(ops@),
{
    let mut out: Vec<Op> = Vec::new();
    let mut i: usize = 0;
    while i < ops.len()
        invariant
            i <= ops.len(),
            changes(out@) == changes(ops@).take(i as int),
        decreases ops.len() - i,
    {
        let ghost before = changes(out@);
        out.push(ops[i].clone());
        assert(changes(out@) =~= before.push(ops@[i as int]@));
        assert(changes(out@) =~= changes(ops@).take(i + 1));
        i = i + 1;
    }
    assert(changes(out@) =~= changes(ops@));
    out
}

/// An immutable, version-stamped view of the entire state.
#[derive(Debug, PartialEq, Eq)]
pub struct Snapshot {
    /// Commit index of the last operation reflected in this snapshot.
    pub index: u64,
    /// The live entries; deletes are reflected by absence.
    pub data: KvMap,
}

/// The rows of a scan.
pub open spec fn rows(r: Seq<(Shared, Entry)>) -> State {
    r.map_values(|e: (Shared, Entry)| (e.0@, e.1@))
}

impl Snapshot {
    /// The state of this snapshot.
    pub open spec fn state(&self) -> State {
        state(self.data)
    }

    /// The empty state at index 0.
    pub fn empty() -> (r: Snapshot)
        ensures
            r.index == 0,
            r.state() == State::empty(),
    {
        let r = Snapshot { index: 0, data: OrdMap::new() };
        assert(r.state() =~= State::empty());
        r
    }

    /// Read a key; `None` if it is absent.
    pub fn get(&self, key: &[u8]) -> (r: Option<&Entry>)
        ensures
            match r {
                Some(e) => assoc::find(self.state(), key@) == Some(e@),
                None => assoc::find(self.state(), key@) is None,
            },
    {
        proof {
            assoc::lemma_map_vals(self.data.entries(), |e: Entry| e@, key@);
        }
        self.data.get(key)
    }

    /// Every live key with the given prefix, in byte order. The rows are handles into this
    /// snapshot; no later write can reach into them.
    pub fn scan_prefix(&self, prefix: &[u8]) -> (r: Vec<(Shared, Entry)>)
        ensures
            rows(r@) == self.state().filter(|e: (Seq<u8>, Cell)| bytes::has_prefix(e.0, prefix@)),
    {
        rows_with_prefix(&self.data, prefix)
    }

    /// The live keys in `[lo, hi)`, in byte order; empty when `lo >= hi`.
    pub fn range(&self, lo: &[u8], hi: &[u8]) -> (r: Vec<(Shared, Entry)>)
        ensures
            rows(r@) == self.state().filter(
                |e: (Seq<u8>, Cell)| bytes::lex_le(lo@, e.0) && bytes::lex_lt(e.0, hi@),
            ),
    {
        let ghost es = self.data.entries();
        let ghost st = self.state();
        let ghost pred = |e: (Seq<u8>, Cell)| bytes::lex_le(lo@, e.0) && bytes::lex_lt(e.0, hi@);
        let mut out: Vec<(Shared, Entry)> = Vec::new();
        if !bytes_lt(lo, hi) {
            proof {
                assert forall|j: int| 0 <= j < st.len() implies pred(#[trigger] st[j]) == (0 <= j
                    < 0) by {
                    if pred(st[j]) {
                        bytes::lemma_lex_le_lt(lo@, st[j].0, hi@);
                    }
                }
                lemma_filter_run(st, 0, 0, pred);
                assert(rows(out@) =~= st.subrange(0, 0));
            }
            return out;
        }
        let from: usize = self.data.rank(lo);
        let to: usize = self.data.rank(hi);
        proof {
            assoc::lemma_rank(es, lo@);
            assoc::lemma_rank(es, hi@);
            if from > to {
                assert(bytes::lex_lt(es[to as int].0, lo@));
                bytes::lemma_lex_transitive(es[to as int].0, lo@, hi@);
            }
            assert(rows(out@) =~= st.subrange(from as int, from as int));
        }
        let mut i: usize = from;
        while i < to
            invariant
                from <= i <= to,
                to <= es.len(),
                es == self.data.entries(),
                st == self.state(),
                rows(out@) == st.subrange(from as int, i as int),
            decreases to - i,
        {
            let ghost before = rows(out@);
            let k: Shared = share(self.data.key_at(i));
            let e: Entry = self.data.value_at(i).clone();
            out.push((k, e));
            assert(rows(out@) =~= before.push(st[i as int]));
            assert(rows(out@) =~= st.subrange(from as int, i + 1));
            i = i + 1;
        }
        proof {
            assert forall|j: int| 0 <= j < st.len() implies pred(#[trigger] st[j]) == (from <= j
                < to) by {
                assert(st[j].0 == es[j].0);
                if j >= from {
                    lemma_at_or_after(es, lo@, j);
                } else {
                    assert(bytes::lex_lt(es[j].0, lo@));
                }
                if j >= to {
                    lemma_at_or_after(es, hi@, j);
                } else {
                    assert(bytes::lex_lt(es[j].0, hi@));
                }
            }
            lemma_filter_run(st, from as int, to as int, pred);
        }
        out
    }

    /// Number of live keys.
    pub fn len(&self) -> (r: usize)
        ensures
            r == self.state().len(),
            assoc::sorted(self.state()),
    {
        proof {
            assoc::lemma_map_vals(self.data.entries(), |e: Entry| e@, seq![]);
        }
        self.data.len()
    }

    /// Whether there is no live key.
    pub fn is_empty(&self) -> (r: bool)
        ensures
            r == (self.state().len() == 0),
    {
        self.data.is_empty()
    }
}

/// The entries of a map whose key has the given prefix, in byte order.
pub fn rows_with_prefix(data: &KvMap, prefix: &[u8]) -> (r: Vec<(Shared, Entry)>)
    ensures
        rows(r@) == state(*data).filter(|e: (Seq<u8>, Cell)| bytes::has_prefix(e.0, prefix@)),
{
    let ghost es = data.entries();
    let ghost st = state(*data);
    let ghost pred = |e: (Seq<u8>, Cell)| bytes::has_prefix(e.0, prefix@);
    let n: usize = data.len();
    let from: usize = data.rank(prefix);
    let mut out: Vec<(Shared, Entry)> = Vec::new();
    let mut i: usize = from;
    proof {
        assoc::lemma_rank(es, prefix@);
        assert(rows(out@) =~= st.subrange(from as int, from as int));
    }
    while i < n && starts_with(data.key_at(i).as_slice(), prefix)
        invariant
            from <= i <= n,
            n == es.len(),
            es == data.entries(),
            st == state(*data),
            rows(out@) == st.subrange(from as int, i as int),
            forall|j: int| from <= j < i ==> bytes::has_prefix(#[trigger] es[j].0, prefix@),
        decreases n - i,
    {
        let ghost before = rows(out@);
        let k: Shared = share(data.key_at(i));
        let e: Entry = data.value_at(i).clone();
        out.push((k, e));
        assert(rows(out@) =~= before.push(st[i as int]));
        assert(rows(out@) =~= st.subrange(from as int, i + 1));
        i = i + 1;
    }
    proof {
        assert forall|j: int| 0 <= j < st.len() implies pred(#[trigger] st[j]) == (from <= j
            < i) by {
            assert(st[j].0 == es[j].0);
            if j < from {
                if bytes::has_prefix(es[j].0, prefix@) {
                    bytes::lemma_prefix_le(es[j].0, prefix@);
                }
            } else if j >= i {
                if bytes::has_prefix(es[j].0, prefix@) {
                    if j > i {
                        assert(!bytes::lex_lt(es[from as int].0, prefix@));
                        lemma_at_or_after(es, prefix@, i as int);
                        bytes::lemma_prefix_contiguous(prefix@, es[i as int].0, es[j].0);
                    }
                }
            }
        }
        lemma_filter_run(st, from as int, i as int, pred);
    }
    out
}

/// A copy of `m` that shares its keys and values.
pub fn share_map(m: &KvMap) -> (r: KvMap)
    ensures
        r.entries() == m.entries(),
        state(r) == state(*m),
{
    let r: KvMap = m.clone();
    assert(r.entries() =~= m.entries());
    r
}

impl Clone for Snapshot {
    /// A copy that shares its keys and values with this snapshot.
    fn clone(&self) -> (r: Snapshot)
        ensures
            r.index == self.index,
            r.state() == self.state(),
    {
        Snapshot { index: self.index, data: share_map(&self.data) }
    }
}

/// An entry at or after the rank of `k` is not below `k`.
proof fn lemma_at_or_after<V>(es: Seq<(Seq<u8>, V)>, k: Seq<u8>, i: int)
    requires
        assoc::sorted(es),
        assoc::rank(es, k) <= i < es.len(),
    ensures
        !bytes::lex_lt(es[i].0, k),
{
    assoc::lemma_rank(es, k);
    if i > assoc::rank(es, k) || es[i].0 != k {
        assoc::lemma_above_rank(es, k, i);
        bytes::lemma_lex_asymmetric(k, es[i].0);
    }
}

/// A predicate that holds on one run of positions filters out that run.
pub proof fn lemma_filter_run<T>(s: Seq<T>, from: int, to: int, p: spec_fn(T) -> bool)
    requires
        0 <= from <= to <= s.len(),
        forall|j: int| 0 <= j < s.len() ==> p(#[trigger] s[j]) == (from <= j < to),
    ensures
        s.filter(p) == s.subrange(from, to),
    decreases s.len(),
{
    reveal(Seq::filter);
    if s.len() > 0 {
        let d = s.drop_last();
        let n = s.len() - 1;
        assert forall|j: int| 0 <= j < d.len() implies p(#[trigger] d[j]) == (from <= j < (if to
            <= n {
            to
        } else {
            n as int
        })) by {
            assert(d[j] == s[j]);
        }
        assert(p(s[n as int]) == (from <= n < to));
        if to <= n {
            lemma_filter_run(d, from, to, p);
            assert(s.subrange(from, to) =~= d.subrange(from, to));
        } else if from <= n {
            lemma_filter_run(d, from, n as int, p);
            assert(s.subrange(from, to) =~= d.subrange(from, n as int).push(s[n as int]));
        } else {
            assert forall|j: int| 0 <= j < d.len() implies p(#[trigger] d[j]) == (n <= j < n) by {
                assert(d[j] == s[j]);
            }
            lemma_filter_run(d, n as int, n as int, p);
            assert(s.subrange(from, to) =~= d.subrange(n as int, n as int));
        }
    }
}

} // verus!
