//! A consistency checker for recorded histories.
//!
//! With a globally monotone commit index as the clock, a read of a key that observes a value at
//! snapshot index `r` is correct if that value is the one left by the latest write to the key
//! whose commit index is at most `r`: nothing, if that write was a delete or if there was none.
//! The checker records writes and reads in whatever order they arrive, and validates all reads
//! afterwards.

use crate::assoc;
use crate::bytes;
use crate::bytes::{bytes_eq, copy_bytes};
use crate::ordmap::OrdMap;
use std::sync::Arc;
use vstd::prelude::*;

verus! {

/// A value left by a write: bytes, or nothing.
#[derive(Debug, Clone, PartialEq, Eq)]
pub enum Stored {
    Present(Vec<u8>),
    Deleted,
}

impl Stored {
    pub open spec fn view(&self) -> Option<Seq<u8>> {
        match self {
            Stored::Present(v) => Some(v@),
            Stored::Deleted => None,
        }
    }
}

/// A recorded write.
#[derive(Debug, Clone, PartialEq, Eq)]
pub struct WriteRec {
    /// The commit index of the write.
    pub index: u64,
    pub key: Vec<u8>,
    pub value: Stored,
}

/// A recorded read.
#[derive(Debug, PartialEq, Eq)]
pub struct ReadRec {
    /// The index of the snapshot the value was read from.
    pub read_index: u64,
    pub key: Vec<u8>,
    pub value: Option<Vec<u8>>,
}

/// A write over byte strings: index, key, value.
pub type Write = (u64, Seq<u8>, Option<Seq<u8>>);

/// A read over byte strings: index, key, value.
pub type Read = (u64, Seq<u8>, Option<Seq<u8>>);

/// The bytes of an optional value.
pub open spec fn opt_bytes(v: Option<Vec<u8>>) -> Option<Seq<u8>> {
    match v {
        Some(b) => Some(b@),
        None => None,
    }
}

impl WriteRec {
    pub open spec fn view(&self) -> Write {
        (self.index, self.key@, self.value@)
    }
}

impl ReadRec {
    pub open spec fn view(&self) -> Read {
        (self.read_index, self.key@, opt_bytes(self.value))
    }
}

impl Clone for ReadRec {
    fn clone(&self) -> (r: ReadRec)
        ensures
            r@ == self@,
    {
        ReadRec {
            read_index: self.read_index,
            key: copy_bytes(self.key.as_slice()),
            value: copy_opt(&self.value),
        }
    }
}

/// A copy of an optional value.
fn copy_opt(v: &Option<Vec<u8>>) -> (r: Option<Vec<u8>>)
    ensures
        opt_bytes(r) == opt_bytes(*v),
{
    match v {
        Some(b) => Some(copy_bytes(b.as_slice())),
        None => None,
    }
}

/// Whether two optional values are equal.
fn opt_eq(a: &Option<Vec<u8>>, b: &Option<Vec<u8>>) -> (r: bool)
    ensures
        r == (opt_bytes(*a) == opt_bytes(*b)),
{
    match (a, b) {
        (Some(x), Some(y)) => bytes_eq(x.as_slice(), y.as_slice()),
        (None, None) => true,
        _ => false,
    }
}

/// The latest write to `key` at or below index `r`: the one with the greatest index, and of two
/// with the same index the one recorded later.
pub open spec fn latest(ws: Seq<Write>, key: Seq<u8>, r: u64) -> Option<Write>
    decreases ws.len(),
{
    if ws.len() == 0 {
        None
    } else {
        let before = latest(ws.drop_last(), key, r);
        let w = ws.last();
        if w.1 == key && w.0 <= r && (before matches Some(b) ==> b.0 <= w.0) {
            Some(w)
        } else {
            before
        }
    }
}

/// The value that a read of `key` at index `r` has to observe.
pub open spec fn expected(ws: Seq<Write>, key: Seq<u8>, r: u64) -> Option<Seq<u8>> {
    match latest(ws, key, r) {
        Some(w) => w.2,
        None => None,
    }
}

/// The reads that observed something else than they had to, each with what it had to observe.
pub open spec fn violations(ws: Seq<Write>, rs: Seq<Read>) -> Seq<(Read, Option<Seq<u8>>)>
    decreases rs.len(),
{
    if rs.len() == 0 {
        seq![]
    } else {
        let before = violations(ws, rs.drop_last());
        let r = rs.last();
        let want = expected(ws, r.1, r.0);
        if r.2 != want {
            before.push((r, want))
        } else {
            before
        }
    }
}

/// The latest write is one of the recorded writes to the key at or below the index, and none of
/// the others has a greater index; there is none only if there is no such write.
pub proof fn law_latest_has_the_greatest_index(ws: Seq<Write>, key: Seq<u8>, r: u64)
    ensures
        match latest(ws, key, r) {
            Some(w) => ws.contains(w) && w.1 == key && w.0 <= r && forall|i: int|
                0 <= i < ws.len() && (#[trigger] ws[i]).1 == key && ws[i].0 <= r ==> ws[i].0
                    <= w.0,
            None => forall|i: int|
                0 <= i < ws.len() ==> (#[trigger] ws[i]).1 != key || ws[i].0 > r,
        },
    decreases ws.len(),
{
    if ws.len() > 0 {
        let d = ws.drop_last();
        law_latest_has_the_greatest_index(d, key, r);
        assert(ws[ws.len() - 1] == ws.last());
        match latest(d, key, r) {
            Some(b) => {
                let j = choose|j: int| 0 <= j < d.len() && d[j] == b;
                assert(ws[j] == b);
                assert forall|i: int|
                    0 <= i < ws.len() && (#[trigger] ws[i]).1 == key && ws[i].0
                        <= r implies ws[i].0 <= (latest(ws, key, r)->0).0 by {
                    if i < d.len() {
                        assert(d[i] == ws[i]);
                    }
                }
            },
            None => {
                assert forall|i: int| 0 <= i < d.len() implies (#[trigger] ws[i]).1 != key
                    || ws[i].0 > r by {
                    assert(d[i] == ws[i]);
                }
            },
        }
    }
}

/// Past the last index, the index that a read asks for makes no difference.
pub proof fn lemma_latest_beyond(ws: Seq<Write>, key: Seq<u8>, r: u64, s: u64)
    requires
        r <= s,
        forall|i: int| 0 <= i < ws.len() ==> (#[trigger] ws[i]).0 <= r,
    ensures
        latest(ws, key, s) == latest(ws, key, r),
        latest(ws, key, r) matches Some(w) ==> w.0 <= r,
    decreases ws.len(),
{
    if ws.len() > 0 {
        let d = ws.drop_last();
        assert forall|i: int| 0 <= i < d.len() implies (#[trigger] d[i]).0 <= r by {
            assert(d[i] == ws[i]);
        }
        lemma_latest_beyond(d, key, r, s);
        assert(ws[ws.len() - 1].0 <= r);
    }
}

/// A history passes if and only if every read observed what it had to.
pub proof fn law_no_violations_means_every_read_is_right(ws: Seq<Write>, rs: Seq<Read>)
    ensures
        violations(ws, rs).len() == 0 <==> forall|i: int|
            0 <= i < rs.len() ==> (#[trigger] rs[i]).2 == expected(ws, rs[i].1, rs[i].0),
    decreases rs.len(),
{
    if rs.len() > 0 {
        let d = rs.drop_last();
        law_no_violations_means_every_read_is_right(ws, d);
        assert(rs[rs.len() - 1] == rs.last());
        if violations(ws, rs).len() == 0 {
            assert forall|i: int| 0 <= i < rs.len() implies (#[trigger] rs[i]).2 == expected(
                ws,
                rs[i].1,
                rs[i].0,
            ) by {
                if i < d.len() {
                    assert(d[i] == rs[i]);
                }
            }
        } else if forall|i: int|
            0 <= i < rs.len() ==> (#[trigger] rs[i]).2 == expected(ws, rs[i].1, rs[i].0) {
            assert forall|i: int| 0 <= i < d.len() implies (#[trigger] d[i]).2 == expected(
                ws,
                d[i].1,
                d[i].0,
            ) by {
                assert(d[i] == rs[i]);
            }
        }
    }
}

/// What a read has to observe is the value of the write to its key that comes last among those
/// at or below its index, by index and then by the order in which they were recorded; nothing if
/// there is no such write.
pub proof fn law_a_read_owes_the_latest_write(ws: Seq<Write>, key: Seq<u8>, r: u64)
    ensures
        forall|i: int|
            0 <= i < ws.len() && (#[trigger] ws[i]).1 == key && ws[i].0 <= r && (forall|j: int|
                0 <= j < ws.len() && (#[trigger] ws[j]).1 == key && ws[j].0 <= r ==> ws[j].0
                    < ws[i].0 || (ws[j].0 == ws[i].0 && j <= i)) ==> expected(ws, key, r)
                == ws[i].2,
        (forall|i: int| 0 <= i < ws.len() ==> (#[trigger] ws[i]).1 != key || ws[i].0 > r)
            ==> expected(ws, key, r) is None,
{
    let _at = lemma_latest_at(ws, key, r);
}

/// Where the latest write stands; -1 if there is none.
proof fn lemma_latest_at(ws: Seq<Write>, key: Seq<u8>, r: u64) -> (b: int)
    ensures
        b >= 0 ==> {
            &&& b < ws.len()
            &&& latest(ws, key, r) == Some(ws[b])
            &&& ws[b].1 == key
            &&& ws[b].0 <= r
            &&& forall|j: int|
                0 <= j < ws.len() && (#[trigger] ws[j]).1 == key && ws[j].0 <= r ==> ws[j].0
                    < ws[b].0 || (ws[j].0 == ws[b].0 && j <= b)
        },
        b < 0 ==> {
            &&& latest(ws, key, r) is None
            &&& forall|i: int| 0 <= i < ws.len() ==> (#[trigger] ws[i]).1 != key || ws[i].0 > r
        },
    decreases ws.len(),
{
    if ws.len() == 0 {
        -1
    } else {
        let d = ws.drop_last();
        let n = d.len() as int;
        let b = lemma_latest_at(d, key, r);
        let w = ws.last();
        assert(ws[n] == w);
        assert(forall|j: int| 0 <= j < n ==> #[trigger] ws[j] == d[j]);
        if w.1 == key && w.0 <= r && (b < 0 || d[b].0 <= w.0) {
            n
        } else {
            b
        }
    }
}

/// The violations are exactly the reads that did not observe what they had to, in the order in
/// which they were recorded, each with what it had to observe.
pub proof fn law_violations_are_the_wrong_reads(ws: Seq<Write>, rs: Seq<Read>)
    ensures
        violations(ws, rs) == rs.filter(|r: Read| r.2 != expected(ws, r.1, r.0)).map_values(
            |r: Read| (r, expected(ws, r.1, r.0)),
        ),
    decreases rs.len(),
{
    let wrong = |r: Read| r.2 != expected(ws, r.1, r.0);
    let with = |r: Read| (r, expected(ws, r.1, r.0));
    reveal(Seq::filter);
    if rs.len() > 0 {
        law_violations_are_the_wrong_reads(ws, rs.drop_last());
    }
    assert(violations(ws, rs) =~= rs.filter(wrong).map_values(with));
}

/// The writes of `ws`.
pub open spec fn writes_view(ws: Seq<WriteRec>) -> Seq<Write> {
    ws.map_values(|w: WriteRec| w@)
}

/// The reads of `rs`.
pub open spec fn reads_view(rs: Seq<ReadRec>) -> Seq<Read> {
    rs.map_values(|r: ReadRec| r@)
}

/// The violations of a result.
pub open spec fn violations_view(vs: Seq<(ReadRec, Option<Vec<u8>>)>) -> Seq<
    (Read, Option<Seq<u8>>),
> {
    vs.map_values(|v: (ReadRec, Option<Vec<u8>>)| (v.0@, opt_bytes(v.1)))
}

/// A recorded history.
#[derive(Debug)]
pub struct Model {
    writes: Vec<WriteRec>,
    reads: Vec<ReadRec>,
}

/// The result of validating the recorded reads.
#[derive(Debug, Clone, Default)]
pub struct CheckResult {
    /// Reads that did not observe what they had to, each with what that is.
    pub violations: Vec<(ReadRec, Option<Vec<u8>>)>,
    /// Number of reads checked.
    pub checked: usize,
}

/// What a check has to find: the violations, and how many reads there are.
pub type Verdict = (Seq<(Read, Option<Seq<u8>>)>, nat);

/// Something whose recorded reads can be validated.
pub trait CheckModel {
    /// What the check has to find.
    spec fn verdict(&self) -> Verdict;

    /// Validate every recorded read against the recorded writes.
    fn check(&self) -> (r: CheckResult)
        ensures
            (violations_view(r.violations@), r.checked as nat) == self.verdict(),
    ;
}

impl Model {
    /// The recorded writes, in the order they were recorded.
    pub closed spec fn writes(&self) -> Seq<Write> {
        writes_view(self.writes@)
    }

    /// The recorded reads, in the order they were recorded.
    pub closed spec fn reads(&self) -> Seq<Read> {
        reads_view(self.reads@)
    }

    /// An empty history.
    pub fn new() -> (r: Model)
        ensures
            r.writes() == Seq::<Write>::empty(),
            r.reads() == Seq::<Read>::empty(),
    {
        let r = Model { writes: Vec::new(), reads: Vec::new() };
        assert(r.writes() =~= Seq::<Write>::empty());
        assert(r.reads() =~= Seq::<Read>::empty());
        r
    }

    /// Record a write to `key` at commit `index`; `None` is a delete.
    pub fn record_write(&mut self, index: u64, key: &[u8], value: Option<Vec<u8>>)
        ensures
            final(self).writes() == old(self).writes().push((index, key@, opt_bytes(value))),
            final(self).reads() == old(self).reads(),
    {
        let stored: Stored = match value {
            Some(v) => Stored::Present(v),
            None => Stored::Deleted,
        };
        assert(stored@ == opt_bytes(value));
        self.writes.push(WriteRec { index, key: copy_bytes(key), value: stored });
        assert(self.writes() =~= old(self).writes().push((index, key@, opt_bytes(value))));
    }

    /// Record a read of `key` at `read_index` that observed `value`.
    pub fn record_read(&mut self, read_index: u64, key: &[u8], value: Option<Vec<u8>>)
        ensures
            final(self).writes() == old(self).writes(),
            final(self).reads() == old(self).reads().push((read_index, key@, opt_bytes(value))),
    {
        self.reads.push(ReadRec { read_index, key: copy_bytes(key), value });
        assert(self.reads() =~= old(self).reads().push((read_index, key@, opt_bytes(value))));
    }

    /// The value that a read of `key` at `read_index` has to observe.
    fn expect(&self, key: &[u8], read_index: u64) -> (r: Option<Vec<u8>>)
        ensures
            opt_bytes(r) == expected(self.writes(), key@, read_index),
    {
        let ghost ws = self.writes();
        let mut best: Option<usize> = None;
        let mut i: usize = 0;
        assert(ws.take(0) =~= seq![]);
        while i < self.writes.len()
            invariant
                i <= self.writes.len(),
                ws == self.writes(),
                ws.len() == self.writes.len(),
                match best {
                    Some(b) => b < i && latest(ws.take(i as int), key@, read_index) == Some(
                        ws[b as int],
                    ),
                    None => latest(ws.take(i as int), key@, read_index) is None,
                },
            decreases self.writes.len() - i,
        {
            let w: &WriteRec = &self.writes[i];
            proof {
                assert(ws.take(i + 1).drop_last() =~= ws.take(i as int));
                assert(ws.take(i + 1).last() == ws[i as int]);
                assert(ws[i as int] == w@);
            }
            let newer: bool = match best {
                Some(b) => self.writes[b].index <= w.index,
                None => true,
            };
            if newer && w.index <= read_index && bytes_eq(w.key.as_slice(), key) {
                best = Some(i);
            }
            i = i + 1;
        }
        assert(ws.take(ws.len() as int) =~= ws);
        match best {
            None => None,
            Some(b) => match &self.writes[b].value {
                Stored::Present(v) => Some(copy_bytes(v.as_slice())),
                Stored::Deleted => None,
            },
        }
    }
}

impl CheckModel for Model {
    open spec fn verdict(&self) -> Verdict {
        (violations(self.writes(), self.reads()), self.reads().len())
    }

    fn check(&self) -> (r: CheckResult) {
        let ghost ws = self.writes();
        let ghost rs = self.reads();
        let mut out: Vec<(ReadRec, Option<Vec<u8>>)> = Vec::new();
        let mut i: usize = 0;
        assert(rs.take(0) =~= seq![]);
        assert(violations_view(out@) =~= violations(ws, rs.take(0)));
        while i < self.reads.len()
            invariant
                i <= self.reads.len(),
                ws == self.writes(),
                rs == self.reads(),
                rs.len() == self.reads.len(),
                violations_view(out@) == violations(ws, rs.take(i as int)),
            decreases self.reads.len() - i,
        {
            let r: &ReadRec = &self.reads[i];
            let want: Option<Vec<u8>> = self.expect(r.key.as_slice(), r.read_index);
            proof {
                assert(rs.take(i + 1).drop_last() =~= rs.take(i as int));
                assert(rs.take(i + 1).last() == r@);
            }
            if !opt_eq(&r.value, &want) {
                let ghost before = violations_view(out@);
                let ghost one = (r@, opt_bytes(want));
                out.push((r.clone(), want));
                assert(violations_view(out@) =~= before.push(one));
            }
            i = i + 1;
        }
        assert(rs.take(rs.len() as int) =~= rs);
        CheckResult { violations: out, checked: self.reads.len() }
    }
}

/// A check covers every recorded read, finds exactly the wrong ones, and passes exactly if there is
/// none.
pub proof fn law_a_check_covers_every_read(m: Model)
    ensures
        m.verdict().1 == m.reads().len(),
        m.verdict().0 == m.reads().filter(
            |r: Read| r.2 != expected(m.writes(), r.1, r.0),
        ).map_values(|r: Read| (r, expected(m.writes(), r.1, r.0))),
{
    law_violations_are_the_wrong_reads(m.writes(), m.reads());
}

impl Default for Model {
    fn default() -> (r: Model)
        ensures
            r.writes() == Seq::<Write>::empty(),
            r.reads() == Seq::<Read>::empty(),
    {
        Model::new()
    }
}

/// The byte strings of `ks`.
pub open spec fn keys_view(ks: Seq<Vec<u8>>) -> Seq<Seq<u8>> {
    ks.map_values(|k: Vec<u8>| k@)
}

/// The distinct keys of a list, in byte order.
pub fn observed_keys(keys: &[Vec<u8>]) -> (r: Vec<Vec<u8>>)
    ensures
        forall|i: int, j: int|
            0 <= i < j < r@.len() ==> bytes::lex_lt(
                #[trigger] keys_view(r@)[i],
                #[trigger] keys_view(r@)[j],
            ),
        forall|k: Seq<u8>| #[trigger] keys_view(r@).contains(k) <==> keys_view(keys@).contains(k),
{
    let ghost ks = keys_view(keys@);
    let mut m: OrdMap<()> = OrdMap::new();
    let mut i: usize = 0;
    while i < keys.len()
        invariant
            i <= keys.len(),
            ks == keys_view(keys@),
            forall|k: Seq<u8>| #[trigger] m@.contains_key(k) <==> ks.take(i as int).contains(k),
        decreases keys.len() - i,
    {
        let ghost before = m@;
        let _old = m.insert(Arc::new(copy_bytes(keys[i].as_slice())), ());
        proof {
            let was = ks.take(i as int);
            let now = ks.take(i + 1);
            assert(now =~= was.push(ks[i as int]));
            assert forall|k: Seq<u8>| #[trigger] m@.contains_key(k) <==> now.contains(k) by {
                if now.contains(k) {
                    let j = choose|j: int| 0 <= j < now.len() && now[j] == k;
                    if j < i {
                        assert(was[j] == k);
                    }
                }
                if was.contains(k) {
                    let j = choose|j: int| 0 <= j < was.len() && was[j] == k;
                    assert(now[j] == k);
                }
                assert(now[i as int] == ks[i as int]);
            }
        }
        i = i + 1;
    }
    assert(ks.take(ks.len() as int) =~= ks);
    let n: usize = m.len();
    let mut out: Vec<Vec<u8>> = Vec::new();
    let mut j: usize = 0;
    while j < n
        invariant
            j <= n,
            n == m.entries().len(),
            out@.len() == j,
            forall|x: int| 0 <= x < j ==> #[trigger] keys_view(out@)[x] == m.entries()[x].0,
        decreases n - j,
    {
        let ghost before = keys_view(out@);
        out.push(copy_bytes(m.key_at(j).as_slice()));
        assert(keys_view(out@) =~= before.push(m.entries()[j as int].0));
        j = j + 1;
    }
    proof {
        let es = m.entries();
        let os = keys_view(out@);
        assert forall|x: int, y: int| 0 <= x < y < out@.len() implies bytes::lex_lt(
            #[trigger] os[x],
            #[trigger] os[y],
        ) by {
            assert(bytes::lex_lt(es[x].0, es[y].0));
        }
        assert forall|k: Seq<u8>| #[trigger] os.contains(k) <==> ks.contains(k) by {
            if os.contains(k) {
                let x = choose|x: int| 0 <= x < os.len() && os[x] == k;
                assoc::lemma_find_at(es, x);
                assert(m@.contains_key(k));
            }
            if ks.contains(k) {
                assert(m@.contains_key(k));
                let x = assoc::lemma_found(es, k);
                assert(os[x] == k);
            }
        }
    }
    out
}

} // verus!
