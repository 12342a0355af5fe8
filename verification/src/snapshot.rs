//! Durable checkpoints: the whole live state in one self-contained file.
//!
//! A checkpoint is written aside and renamed into place, after the latest one, where it is intact,
//! has been renamed to be the previous; a crash anywhere on this path leaves a complete previous
//! or new checkpoint, never a half-written one. [`load`] prefers the latest file and falls back to the previous one
//! when the latest is missing or damaged. A damaged latest with no usable previous is an error,
//! never an empty store.
//!
//! ```text
//!        [0.. 4]  magic     = "KSN1"
//!        [ 4.. 8]  version   u32 = 1
//!        [ 8..16]  index     u64    -- commit index reflected in the checkpoint
//!       [16..24]  count     u64    -- number of live entries
//!     then per entry, in key order:
//!        klen  u32 | key bytes
//!        vlen  u32 | value bytes
//!        vers  u64
//!      [end] crc32 u32 -- over everything before this field
//! ```

use crate::assoc;
use crate::bytes;
use crate::bytes::{bytes_eq, copy_bytes, get_u32_le, get_u64_le, push_all, put_u32_le};
use crate::codec;
use crate::codec::Cursor;
use crate::crc;
use crate::crc::{crc32, Crc};
use crate::dir;
use crate::dir::{DirImage, FileAction, Files, Step};
use crate::ordmap::OrdMap;
use crate::types;
use crate::types::{Cell, Entry, KvMap, Snapshot, State};
use std::sync::Arc;
use vstd::prelude::*;

verus! {

/// The format version.
pub const FORMAT: u32 = 1;

/// No checkpoint holds more entries than this.
pub const MAX_COUNT: u64 = 50_000_000;

/// The magic number: `KSN1`.
pub open spec fn magic() -> Seq<u8> {
    seq![75u8, 83, 78, 49]
}

/// A commit index and the state it reflects.
pub type Point = (u64, State);

impl Snapshot {
    pub open spec fn view(&self) -> Point {
        (self.index, self.state())
    }
}

// ---------------------------------------------------------------------------
// The layout
// ---------------------------------------------------------------------------

/// One entry.
pub open spec fn entry_bytes(e: (Seq<u8>, Cell)) -> Seq<u8> {
    codec::blob(e.0) + codec::blob(e.1.0) + bytes::le_bytes(e.1.1 as nat, 8)
}

/// Entries, one after another.
pub open spec fn entries_bytes(es: State) -> Seq<u8>
    decreases es.len(),
{
    if es.len() == 0 {
        seq![]
    } else {
        entry_bytes(es[0]) + entries_bytes(es.skip(1))
    }
}

/// Magic number, version, index and count.
pub open spec fn header_bytes(index: u64, count: u64) -> Seq<u8> {
    magic() + bytes::le_bytes(FORMAT as nat, 4) + bytes::le_bytes(index as nat, 8)
        + bytes::le_bytes(count as nat, 8)
}

/// Everything before the checksum.
pub open spec fn body_bytes(p: Point) -> Seq<u8> {
    header_bytes(p.0, p.1.len() as u64) + entries_bytes(p.1)
}

/// A checkpoint file.
pub open spec fn file_bytes(p: Point) -> Seq<u8> {
    body_bytes(p) + bytes::le_bytes(crc::crc_of(body_bytes(p)) as nat, 4)
}

// ---------------------------------------------------------------------------
// The grammar
// ---------------------------------------------------------------------------

/// Why a checkpoint was rejected.
#[derive(Debug, Clone, Copy, PartialEq, Eq, Structural)]
pub enum SnapshotError {
    /// Too short for a header and a checksum.
    TooShort,
    /// Not a checkpoint.
    BadMagic,
    /// An unknown format version.
    UnknownVersion(u32),
    /// An entry count that no checkpoint has.
    ImplausibleCount(u64),
    /// Truncated or corrupt.
    CrcMismatch,
    /// An entry ends inside its key length.
    ShortKeyLength,
    /// An entry ends inside its key.
    ShortKey,
    /// An entry ends inside its value length.
    ShortValueLength,
    /// An entry ends inside its value.
    ShortValue,
    /// An entry ends inside its version.
    ShortVersion,
    /// An entry's key has occurred before.
    RepeatedKey,
}

/// One entry and what follows it.
pub open spec fn read_entry(s: Seq<u8>) -> Result<((Seq<u8>, Cell), Seq<u8>), SnapshotError> {
    match codec::take_u32(s) {
        None => Err(SnapshotError::ShortKeyLength),
        Some((kl, s1)) => match codec::take_n(s1, kl) {
            None => Err(SnapshotError::ShortKey),
            Some((k, s2)) => match codec::take_u32(s2) {
                None => Err(SnapshotError::ShortValueLength),
                Some((vl, s3)) => match codec::take_n(s3, vl) {
                    None => Err(SnapshotError::ShortValue),
                    Some((v, s4)) => match codec::take_u64(s4) {
                        None => Err(SnapshotError::ShortVersion),
                        Some((ver, rest)) => Ok(((k, (v, ver as u64)), rest)),
                    },
                },
            },
        },
    }
}

/// `n` entries added to those of `acc`; no key occurs twice.
pub open spec fn read_entries(s: Seq<u8>, n: nat, acc: State) -> Result<State, SnapshotError>
    decreases n,
{
    if n == 0 {
        Ok(acc)
    } else {
        match read_entry(s) {
            Err(e) => Err(e),
            Ok((e, rest)) => if assoc::find(acc, e.0) is Some {
                Err(SnapshotError::RepeatedKey)
            } else {
                read_entries(rest, (n - 1) as nat, assoc::upsert(acc, e.0, e.1))
            },
        }
    }
}

/// The checkpoint in a file, or why there is none. Bytes left over before the checksum are
/// ignored.
pub open spec fn read_file(s: Seq<u8>) -> Result<Point, SnapshotError> {
    let version = bytes::le_value(s.subrange(4, 8));
    let index = bytes::le_value(s.subrange(8, 16));
    let count = bytes::le_value(s.subrange(16, 24));
    let body = s.take(s.len() - 4);
    if s.len() < 28 {
        Err(SnapshotError::TooShort)
    } else if s.take(4) != magic() {
        Err(SnapshotError::BadMagic)
    } else if version != FORMAT {
        Err(SnapshotError::UnknownVersion(version as u32))
    } else if count > MAX_COUNT {
        Err(SnapshotError::ImplausibleCount(count as u64))
    } else if bytes::le_value(s.skip(s.len() - 4)) != crc::crc_of(body) {
        Err(SnapshotError::CrcMismatch)
    } else {
        match read_entries(body.skip(24), count, seq![]) {
            Err(e) => Err(e),
            Ok(st) => Ok((index as u64, st)),
        }
    }
}

/// Every length of the checkpoint fits its field, and its count is plausible.
pub open spec fn encodable(p: Point) -> bool {
    &&& assoc::sorted(p.1)
    &&& p.1.len() <= MAX_COUNT
    &&& forall|i: int|
        0 <= i < p.1.len() ==> (#[trigger] p.1[i]).0.len() <= u32::MAX && p.1[i].1.0.len()
            <= u32::MAX
}

// ---------------------------------------------------------------------------
// Reading back what was written
// ---------------------------------------------------------------------------

proof fn lemma_entry_roundtrip(e: (Seq<u8>, Cell), rest: Seq<u8>)
    requires
        e.0.len() <= u32::MAX,
        e.1.0.len() <= u32::MAX,
    ensures
        read_entry(entry_bytes(e) + rest) == Ok::<((Seq<u8>, Cell), Seq<u8>), SnapshotError>(
            (e, rest),
        ),
{
    let k = codec::blob(e.0);
    let v = codec::blob(e.1.0);
    let n = bytes::le_bytes(e.1.1 as nat, 8);
    assert(entry_bytes(e) + rest =~= k + (v + (n + rest)));
    codec::lemma_take_blob(e.0, v + (n + rest));
    codec::lemma_take_blob(e.1.0, n + rest);
    codec::lemma_take_u64(e.1.1, rest);
}

proof fn lemma_entries_roundtrip(es: State, i: int)
    requires
        assoc::sorted(es),
        0 <= i <= es.len(),
        forall|j: int|
            0 <= j < es.len() ==> (#[trigger] es[j]).0.len() <= u32::MAX && es[j].1.0.len()
                <= u32::MAX,
    ensures
        read_entries(entries_bytes(es.skip(i)), (es.len() - i) as nat, es.take(i)) == Ok::<
            State,
            SnapshotError,
        >(es),
    decreases es.len() - i,
{
    if i == es.len() {
        assert(es.take(i) =~= es);
    } else {
        let rest = es.skip(i);
        let front = es.take(i);
        assert(rest.skip(1) =~= es.skip(i + 1));
        assert(rest[0] == es[i]);
        assert(es[i].0.len() <= u32::MAX);
        lemma_entry_roundtrip(es[i], entries_bytes(es.skip(i + 1)));
        assert(assoc::sorted(front)) by {
            assert forall|x: int, y: int| 0 <= x < y < front.len() implies bytes::lex_lt(
                #[trigger] front[x].0,
                #[trigger] front[y].0,
            ) by {
                assert(bytes::lex_lt(es[x].0, es[y].0));
            }
        }
        if i > 0 {
            assert(bytes::lex_lt(es[i - 1].0, es[i].0));
        }
        assoc::lemma_upsert_new_last(front, es[i].0, es[i].1);
        assert(es.take(i + 1) =~= front.push(es[i]));
        lemma_entries_roundtrip(es, i + 1);
    }
}

proof fn lemma_header(index: u64, count: u64, rest: Seq<u8>)
    ensures
        ({
            let s = header_bytes(index, count) + rest;
            &&& header_bytes(index, count).len() == 24
            &&& s.take(4) == magic()
            &&& bytes::le_value(s.subrange(4, 8)) == FORMAT
            &&& bytes::le_value(s.subrange(8, 16)) == index
            &&& bytes::le_value(s.subrange(16, 24)) == count
            &&& s.skip(24) == rest
        }),
{
    let s = header_bytes(index, count) + rest;
    bytes::lemma_le_u32(FORMAT);
    bytes::lemma_le_u64(index);
    bytes::lemma_le_u64(count);
    assert(s.take(4) =~= magic());
    assert(s.subrange(4, 8) =~= bytes::le_bytes(FORMAT as nat, 4));
    assert(s.subrange(8, 16) =~= bytes::le_bytes(index as nat, 8));
    assert(s.subrange(16, 24) =~= bytes::le_bytes(count as nat, 8));
    assert(s.skip(24) =~= rest);
}

/// A checkpoint file reads back as the checkpoint it was written from.
pub proof fn law_file_roundtrip(p: Point)
    requires
        encodable(p),
    ensures
        read_file(file_bytes(p)) == Ok::<Point, SnapshotError>(p),
{
    let s = file_bytes(p);
    let b = body_bytes(p);
    let count = p.1.len() as u64;
    let sum = bytes::le_bytes(crc::crc_of(b) as nat, 4);
    bytes::lemma_le_u32(crc::crc_of(b));
    lemma_header(p.0, count, entries_bytes(p.1) + sum);
    lemma_header(p.0, count, entries_bytes(p.1));
    assert(s =~= header_bytes(p.0, count) + (entries_bytes(p.1) + sum));
    assert(s.take(s.len() - 4) =~= b);
    assert(s.skip(s.len() - 4) =~= sum);
    assert(p.1.skip(0) =~= p.1);
    assert(p.1.take(0) =~= seq![]);
    lemma_entries_roundtrip(p.1, 0);
}

/// What an entry is read as does not depend on what follows it.
proof fn lemma_read_entry_extends(s: Seq<u8>, t: Seq<u8>)
    ensures
        read_entry(s) matches Ok((e, rest)) ==> read_entry(s + t) == Ok::<
            ((Seq<u8>, Cell), Seq<u8>),
            SnapshotError,
        >((e, rest + t)),
{
    codec::lemma_take_u32_extends(s, t);
    if let Some((kl, s1)) = codec::take_u32(s) {
        codec::lemma_take_n_extends(s1, t, kl);
        if let Some((k, s2)) = codec::take_n(s1, kl) {
            codec::lemma_take_u32_extends(s2, t);
            if let Some((vl, s3)) = codec::take_u32(s2) {
                codec::lemma_take_n_extends(s3, t, vl);
                if let Some((v, s4)) = codec::take_n(s3, vl) {
                    codec::lemma_take_u64_extends(s4, t);
                }
            }
        }
    }
}

proof fn lemma_cut_entries(es: State, n: int, acc: State)
    requires
        forall|j: int|
            0 <= j < es.len() ==> (#[trigger] es[j]).0.len() <= u32::MAX && es[j].1.0.len()
                <= u32::MAX,
        0 <= n < entries_bytes(es).len(),
    ensures
        read_entries(entries_bytes(es).take(n), es.len(), acc) is Err,
    decreases es.len(),
{
    let e = es[0];
    let b = entry_bytes(e);
    let more = es.skip(1);
    let s = entries_bytes(es).take(n);
    assert(es[0].0.len() <= u32::MAX);
    if n < b.len() {
        lemma_entry_roundtrip(e, seq![]);
        assert(b + Seq::<u8>::empty() =~= b);
        assert(s =~= b.take(n));
        assert(s + b.skip(n) =~= b);
        lemma_read_entry_extends(s, b.skip(n));
    } else {
        let rest = entries_bytes(more).take(n - b.len());
        assert(s =~= b + rest);
        lemma_entry_roundtrip(e, rest);
        assert forall|j: int| 0 <= j < more.len() implies (#[trigger] more[j]).0.len() <= u32::MAX
            && more[j].1.0.len() <= u32::MAX by {
            assert(more[j] == es[j + 1]);
        }
        lemma_cut_entries(more, n - b.len(), assoc::upsert(acc, e.0, e.1));
    }
}

/// A checkpoint file that is cut short is rejected.
pub proof fn law_a_cut_file_is_rejected(p: Point, n: int)
    requires
        encodable(p),
        0 <= n < file_bytes(p).len(),
    ensures
        read_file(file_bytes(p).take(n)) is Err,
{
    let count = p.1.len() as u64;
    let sum = bytes::le_bytes(crc::crc_of(body_bytes(p)) as nat, 4);
    let all = entries_bytes(p.1) + sum;
    let s = file_bytes(p).take(n);
    bytes::lemma_le_u32(crc::crc_of(body_bytes(p)));
    lemma_header(p.0, count, all);
    assert(file_bytes(p) =~= header_bytes(p.0, count) + all);
    if n >= 28 {
        lemma_header(p.0, count, all.take(n - 24));
        assert(s =~= header_bytes(p.0, count) + all.take(n - 24));
        assert(s.take(n - 4).skip(24) =~= entries_bytes(p.1).take(n - 28));
        lemma_cut_entries(p.1, n - 28, seq![]);
    }
}

/// A change confined to one byte makes an accepted checkpoint a rejected one.
pub proof fn law_changed_byte_is_rejected(s: Seq<u8>, i: int, v: u8)
    requires
        read_file(s) is Ok,
        0 <= i < s.len(),
        s[i] != v,
    ensures
        read_file(s.update(i, v)) is Err,
{
    let t = s.update(i, v);
    let n = s.len();
    if i < n - 4 {
        crc::law_crc_detects_a_changed_byte(s.take(n - 4), i, v);
        assert(t.take(n - 4) =~= s.take(n - 4).update(i, v));
        assert(t.skip(n - 4) =~= s.skip(n - 4));
    } else {
        bytes::lemma_le_digits(s.skip(n - 4));
        bytes::lemma_le_digits(t.skip(n - 4));
        assert(s.skip(n - 4)[i - (n - 4)] != t.skip(n - 4)[i - (n - 4)]);
        assert(t.take(n - 4) =~= s.take(n - 4));
    }
}

// ---------------------------------------------------------------------------
// Writing
// ---------------------------------------------------------------------------

/// Append `data` to `out` and fold it into `sum`.
fn emit(out: &mut Vec<u8>, sum: &mut Crc, data: &[u8])
    ensures
        final(out)@ == old(out)@ + data@,
        final(sum)@ == crc::crc_fold(old(sum)@, data@),
{
    sum.update(data);
    push_all(out, data);
}

/// The eight bytes of a number.
fn u64_bytes(v: u64) -> (r: Vec<u8>)
    ensures
        r@ == bytes::le_bytes(v as nat, 8),
{
    let mut b: Vec<u8> = Vec::new();
    bytes::put_u64_le(&mut b, v);
    assert(b@ =~= bytes::le_bytes(v as nat, 8));
    b
}

/// A byte string behind its length.
fn blob_bytes(v: &[u8]) -> (r: Vec<u8>)
    ensures
        r@ == codec::blob(v@),
{
    let mut b: Vec<u8> = Vec::new();
    codec::put_blob(&mut b, v);
    assert(b@ =~= codec::blob(v@));
    b
}

/// Append the header and one record per entry in key order, folding every byte into `sum`.
fn write_body(snap: &Snapshot, out: &mut Vec<u8>, sum: &mut Crc)
    requires
        old(out)@.len() == 0,
        old(sum)@ == 0xFFFF_FFFFu32,
    ensures
        final(out)@ == body_bytes(snap@),
        final(sum)@ == crc::crc_fold(0xFFFF_FFFFu32, body_bytes(snap@)),
{
    let ghost init = 0xFFFF_FFFFu32;
    let ghost es = snap.state();
    let n: usize = snap.len();
    let mut head: Vec<u8> = vec![75, 83, 78, 49];
    assert(head@ =~= magic());
    put_u32_le(&mut head, FORMAT);
    bytes::put_u64_le(&mut head, snap.index);
    bytes::put_u64_le(&mut head, n as u64);
    assert(head@ =~= header_bytes(snap.index, n as u64));
    emit(out, sum, head.as_slice());
    let ghost start = header_bytes(snap.index, n as u64);
    assert(out@ =~= start);
    let mut i: usize = 0;
    assert(es.skip(0) =~= es);
    while i < n
        invariant
            i <= n,
            n == es.len(),
            es == snap.state(),
            out@ + entries_bytes(es.skip(i as int)) == start + entries_bytes(es),
            sum@ == crc::crc_fold(init, out@),
        decreases n - i,
    {
        let ghost before = out@;
        let e: &Entry = snap.data.value_at(i);
        let mut rec: Vec<u8> = blob_bytes(snap.data.key_at(i).as_slice());
        let val: Vec<u8> = blob_bytes(e.value.as_slice());
        let ver: Vec<u8> = u64_bytes(e.version);
        push_all(&mut rec, val.as_slice());
        push_all(&mut rec, ver.as_slice());
        assert(rec@ =~= entry_bytes(es[i as int]));
        proof {
            crc::law_crc_streams(init, before, rec@);
        }
        emit(out, sum, rec.as_slice());
        proof {
            let rest = es.skip(i as int);
            assert(rest[0] == es[i as int]);
            assert(rest.skip(1) =~= es.skip(i + 1));
            assert(before + entries_bytes(rest) =~= out@ + entries_bytes(es.skip(i + 1)));
        }
        i = i + 1;
    }
    assert(out@ + entries_bytes(es.skip(es.len() as int)) =~= out@);
}

/// Everything of a checkpoint file before the checksum.
pub fn encode(snap: &Snapshot) -> (r: Vec<u8>)
    ensures
        r@ == body_bytes(snap@),
{
    let mut out: Vec<u8> = Vec::new();
    let mut sum = Crc::new();
    write_body(snap, &mut out, &mut sum);
    out
}

/// A whole checkpoint file.
pub fn encode_file(snap: &Snapshot) -> (r: Vec<u8>)
    ensures
        r@ == file_bytes(snap@),
{
    let mut out: Vec<u8> = Vec::new();
    let mut sum = Crc::new();
    write_body(snap, &mut out, &mut sum);
    put_u32_le(&mut out, sum.finish());
    out
}

// ---------------------------------------------------------------------------
// Reading
// ---------------------------------------------------------------------------

/// Read one entry.
fn next_entry(cur: &mut Cursor<'_>) -> (r: Result<(Vec<u8>, Vec<u8>, u64), SnapshotError>)
    ensures
        match r {
            Ok((k, v, ver)) => read_entry(old(cur)@) == Ok::<
                ((Seq<u8>, Cell), Seq<u8>),
                SnapshotError,
            >(((k@, (v@, ver)), final(cur)@)),
            Err(e) => read_entry(old(cur)@) == Err::<((Seq<u8>, Cell), Seq<u8>), SnapshotError>(e),
        },
{
    let kl: u32 = match cur.u32() {
        None => {
            return Err(SnapshotError::ShortKeyLength);
        },
        Some(n) => n,
    };
    let k: Vec<u8> = match cur.slice(kl as usize) {
        None => {
            return Err(SnapshotError::ShortKey);
        },
        Some(b) => copy_bytes(b),
    };
    let vl: u32 = match cur.u32() {
        None => {
            return Err(SnapshotError::ShortValueLength);
        },
        Some(n) => n,
    };
    let v: Vec<u8> = match cur.slice(vl as usize) {
        None => {
            return Err(SnapshotError::ShortValue);
        },
        Some(b) => copy_bytes(b),
    };
    match cur.u64() {
        None => Err(SnapshotError::ShortVersion),
        Some(ver) => Ok((k, v, ver)),
    }
}

/// Parse a checkpoint file. Verifies magic, version, count and checksum, and that no key occurs
/// twice; every read is bounded, so a truncated or corrupt file yields an error rather than a panic.
pub fn decode(data: &[u8]) -> (r: Result<Snapshot, SnapshotError>)
    ensures
        match r {
            Ok(s) => read_file(data@) == Ok::<Point, SnapshotError>(s@),
            Err(e) => read_file(data@) == Err::<Point, SnapshotError>(e),
        },
{
    let n: usize = data.len();
    if n < 28 {
        return Err(SnapshotError::TooShort);
    }
    let want: Vec<u8> = vec![75, 83, 78, 49];
    assert(want@ =~= magic());
    let head: &[u8] = vstd::slice::slice_subrange(data, 0, 4);
    assert(head@ =~= data@.take(4));
    if !bytes_eq(head, want.as_slice()) {
        return Err(SnapshotError::BadMagic);
    }
    let version: u32 = get_u32_le(data, 4);
    if version != FORMAT {
        return Err(SnapshotError::UnknownVersion(version));
    }
    let index: u64 = get_u64_le(data, 8);
    let count: u64 = get_u64_le(data, 16);
    if count > MAX_COUNT {
        return Err(SnapshotError::ImplausibleCount(count));
    }
    let stored: u32 = get_u32_le(data, n - 4);
    let body: &[u8] = vstd::slice::slice_subrange(data, 0, n - 4);
    assert(data@.subrange(n - 4, n as int) =~= data@.skip(n - 4));
    assert(body@ =~= data@.take(n - 4));
    if crc32(body) != stored {
        return Err(SnapshotError::CrcMismatch);
    }
    let rest: &[u8] = vstd::slice::slice_subrange(body, 24, n - 4);
    assert(rest@ =~= body@.skip(24));
    let mut cur = Cursor::new(rest);
    let mut map: KvMap = OrdMap::new();
    let mut i: u64 = 0;
    assert(types::state(map) =~= seq![]);
    let ghost f = |e: Entry| e@;
    while i < count
        invariant
            i <= count,
            f == (|e: Entry| e@),
            read_file(data@) == (match read_entries(rest@, count as nat, seq![]) {
                Err(e) => Err::<Point, SnapshotError>(e),
                Ok(st) => Ok((index, st)),
            }),
            read_entries(rest@, count as nat, seq![]) == read_entries(
                cur@,
                (count - i) as nat,
                types::state(map),
            ),
        decreases count - i,
    {
        let (k, v, version) = match next_entry(&mut cur) {
            Err(e) => {
                return Err(e);
            },
            Ok(t) => t,
        };
        let e = Entry { value: Arc::new(v), version };
        proof {
            assoc::lemma_map_vals(map.entries(), f, k@);
            assert(assoc::upsert(types::state(map), k@, f(e)) == assoc::map_vals(
                assoc::upsert(map.entries(), k@, e),
                f,
            ));
        }
        if map.insert(Arc::new(k), e).is_some() {
            return Err(SnapshotError::RepeatedKey);
        }
        i = i + 1;
    }
    Ok(Snapshot { index, data: map })
}

// ---------------------------------------------------------------------------
// Files
// ---------------------------------------------------------------------------

/// The name of the latest checkpoint: `snap.dat`.
#[verifier::opaque]
pub open spec fn latest_name() -> Seq<u8> {
    seq![115u8, 110, 97, 112, 46, 100, 97, 116]
}

/// The name of the previous checkpoint: `snap.prev`.
#[verifier::opaque]
pub open spec fn previous_name() -> Seq<u8> {
    seq![115u8, 110, 97, 112, 46, 112, 114, 101, 118]
}

/// The name of a checkpoint that is still being written: `snap.tmp`.
#[verifier::opaque]
pub open spec fn temp_name() -> Seq<u8> {
    seq![115u8, 110, 97, 112, 46, 116, 109, 112]
}

/// The file name `snap.dat`.
pub fn latest_file() -> (r: Vec<u8>)
    ensures
        r@ == latest_name(),
{
    let r: Vec<u8> = vec![115, 110, 97, 112, 46, 100, 97, 116];
    reveal(latest_name);
    assert(r@ =~= latest_name());
    r
}

/// The file name `snap.prev`.
pub fn previous_file() -> (r: Vec<u8>)
    ensures
        r@ == previous_name(),
{
    let r: Vec<u8> = vec![115, 110, 97, 112, 46, 112, 114, 101, 118];
    reveal(previous_name);
    assert(r@ =~= previous_name());
    r
}

/// The file name `snap.tmp`.
pub fn temp_file() -> (r: Vec<u8>)
    ensures
        r@ == temp_name(),
{
    let r: Vec<u8> = vec![115, 110, 97, 112, 46, 116, 109, 112];
    reveal(temp_name);
    assert(r@ =~= temp_name());
    r
}

/// The path of a file in the directory `path`.
pub open spec fn joined(path: Seq<u8>, name: Seq<u8>) -> Seq<u8> {
    if path.len() == 0 || path.last() == 47 {
        path + name
    } else {
        path.push(47) + name
    }
}

/// The path of the latest checkpoint in the directory `path`.
pub fn snapshot_path(path: &[u8]) -> (r: Vec<u8>)
    ensures
        r@ == joined(path@, latest_name()),
{
    let mut r: Vec<u8> = copy_bytes(path);
    if path.len() > 0 && path[path.len() - 1] != 47 {
        r.push(47);
    }
    push_all(&mut r, latest_file().as_slice());
    r
}

/// The checkpoint that the file `name` holds: nothing if there is no such file.
pub open spec fn loaded_file(f: Files, name: Seq<u8>) -> Result<Option<Point>, SnapshotError> {
    match assoc::find(f, name) {
        None => Ok(None),
        Some(data) => match read_file(data) {
            Ok(p) => Ok(Some(p)),
            Err(e) => Err(e),
        },
    }
}

/// The most recent usable checkpoint of a directory.
pub open spec fn loaded(f: Files) -> Result<Option<Point>, SnapshotError> {
    match loaded_file(f, latest_name()) {
        Ok(Some(p)) => Ok(Some(p)),
        Ok(None) => loaded_file(f, previous_name()),
        Err(e) => match loaded_file(f, previous_name()) {
            Ok(Some(p)) => Ok(Some(p)),
            Ok(None) => Err(e),
            Err(e2) => Err(e2),
        },
    }
}

/// Whether a directory has a latest checkpoint, and it is intact.
pub open spec fn usable(f: Files) -> bool {
    loaded_file(f, latest_name()) matches Ok(Some(p))
}

/// The view of a loaded checkpoint.
pub open spec fn point_view(s: Option<Snapshot>) -> Option<Point> {
    match s {
        None => None,
        Some(s) => Some(s@),
    }
}

/// Load and verify one checkpoint file; `Ok(None)` if it does not exist.
fn load_file(d: &DirImage, name: &[u8]) -> (r: Result<Option<Snapshot>, SnapshotError>)
    ensures
        match r {
            Ok(s) => loaded_file(d@, name@) == Ok::<Option<Point>, SnapshotError>(point_view(s)),
            Err(e) => loaded_file(d@, name@) == Err::<Option<Point>, SnapshotError>(e),
        },
{
    match d.read(name) {
        None => Ok(None),
        Some(data) => match decode(data.as_slice()) {
            Ok(s) => Ok(Some(s)),
            Err(e) => Err(e),
        },
    }
}

/// Load the most recent usable checkpoint: the latest when it is intact, else the previous one.
/// `Ok(None)` means that there is no checkpoint at all. A damaged latest with no usable previous
/// is an error.
pub fn load(d: &DirImage) -> (r: Result<Option<Snapshot>, SnapshotError>)
    ensures
        match r {
            Ok(s) => loaded(d@) == Ok::<Option<Point>, SnapshotError>(point_view(s)),
            Err(e) => loaded(d@) == Err::<Option<Point>, SnapshotError>(e),
        },
{
    match load_file(d, latest_file().as_slice()) {
        Ok(Some(s)) => Ok(Some(s)),
        Ok(None) => load_file(d, previous_file().as_slice()),
        Err(e) => match load_file(d, previous_file().as_slice()) {
            Ok(Some(s)) => Ok(Some(s)),
            Ok(None) => Err(e),
            Err(e2) => Err(e2),
        },
    }
}

/// Whether there is a latest checkpoint, and it is intact: only then may it replace the previous
/// one.
pub fn latest_usable(d: &DirImage) -> (r: bool)
    ensures
        r == usable(d@),
{
    match load_file(d, latest_file().as_slice()) {
        Ok(Some(_)) => true,
        _ => false,
    }
}

/// The steps that write a checkpoint: write it aside, keep the latest one as the previous where
/// it is usable, then rename the new one into place.
pub open spec fn write_steps(keep_latest: bool, p: Point) -> Seq<Step> {
    let first = seq![Step::Create(temp_name(), file_bytes(p))];
    let publish = Step::Rename(temp_name(), latest_name());
    if keep_latest {
        first.push(Step::Rename(latest_name(), previous_name())).push(publish)
    } else {
        first.push(publish)
    }
}

/// The steps that write a checkpoint of `snap`; `keep_latest` says whether the latest checkpoint
/// is to be kept as the previous one, as it is where [`latest_usable`].
pub fn write(keep_latest: bool, snap: &Snapshot) -> (r: Vec<FileAction>)
    ensures
        dir::steps(r@) == write_steps(keep_latest, snap@),
{
    let mut plan: Vec<FileAction> = Vec::new();
    plan.push(FileAction::Create { name: temp_file(), data: encode_file(snap) });
    if keep_latest {
        plan.push(FileAction::Rename { from: latest_file(), to: previous_file() });
    }
    plan.push(FileAction::Rename { from: temp_file(), to: latest_file() });
    assert(dir::steps(plan@) =~= write_steps(keep_latest, snap@));
    plan
}

/// The same as [`write`], for callers that name the streaming writer: there is only one, and it
/// folds the checksum as it goes.
pub fn write_streaming(keep_latest: bool, snap: &Snapshot) -> (r: Vec<FileAction>)
    ensures
        dir::steps(r@) == write_steps(keep_latest, snap@),
{
    write(keep_latest, snap)
}

/// The steps that remove a file where it exists.
pub open spec fn purge_step(f: Files, name: Seq<u8>) -> Seq<Step> {
    if dir::has(f, name) {
        seq![Step::Remove(name)]
    } else {
        seq![]
    }
}

/// The layout of a checkpoint file: magic number, format version, index, number of entries, the
/// entries in key order, and the checksum of all that.
pub proof fn law_the_layout_of_a_checkpoint(p: Point, es: State, e: (Seq<u8>, Cell))
    requires
        p.1.len() <= u64::MAX,
    ensures
        ({
            let body = seq![75u8, 83, 78, 49] + seq![1u8, 0, 0, 0] + bytes::le_bytes(
                p.0 as nat,
                8,
            ) + bytes::le_bytes(p.1.len(), 8) + entries_bytes(p.1);
            file_bytes(p) == body + bytes::le_bytes(crc::crc_of(body) as nat, 4)
        }),
        entries_bytes(seq![]) == Seq::<u8>::empty(),
        entries_bytes(es.push(e)) == entries_bytes(es) + (codec::blob(e.0) + codec::blob(e.1.0)
            + bytes::le_bytes(e.1.1 as nat, 8)),
{
    bytes::law_four_bytes(1, seq![0u8, 0, 0, 0]);
    assert(bytes::le_bytes(FORMAT as nat, 4) =~= seq![1u8, 0, 0, 0]);
    lemma_entries_push(es, e);
}

proof fn lemma_entries_push(es: State, e: (Seq<u8>, Cell))
    ensures
        entries_bytes(es.push(e)) == entries_bytes(es) + entry_bytes(e),
    decreases es.len(),
{
    let all = es.push(e);
    if es.len() == 0 {
        assert(all.skip(1) =~= seq![]);
        assert(entries_bytes(all.skip(1)) =~= seq![]);
        assert(entries_bytes(all) =~= entries_bytes(es) + entry_bytes(e));
    } else {
        lemma_entries_push(es.skip(1), e);
        assert(all.skip(1) =~= es.skip(1).push(e));
        assert(entries_bytes(all) =~= entries_bytes(es) + entry_bytes(e));
    }
}

/// Why a file is no checkpoint, in the order in which it is looked at: too short for a header and
/// a checksum, another magic number, another format version, more entries than any checkpoint
/// has, another checksum; and what is left is up to its entries.
pub proof fn law_when_a_checkpoint_is_rejected(s: Seq<u8>)
    ensures
        s.len() < 28 ==> read_file(s) == Err::<Point, SnapshotError>(SnapshotError::TooShort),
        s.len() >= 28 ==> ({
            let version = bytes::le_value(s.subrange(4, 8));
            let count = bytes::le_value(s.subrange(16, 24));
            if s.take(4) != seq![75u8, 83, 78, 49] {
                read_file(s) == Err::<Point, SnapshotError>(SnapshotError::BadMagic)
            } else if version != 1 {
                read_file(s) == Err::<Point, SnapshotError>(
                    SnapshotError::UnknownVersion(version as u32),
                )
            } else if count > 50_000_000 {
                read_file(s) == Err::<Point, SnapshotError>(
                    SnapshotError::ImplausibleCount(count as u64),
                )
            } else if bytes::le_value(s.skip(s.len() - 4)) != crc::crc_of(s.take(s.len() - 4)) {
                read_file(s) == Err::<Point, SnapshotError>(SnapshotError::CrcMismatch)
            } else {
                match read_entries(s.subrange(24, s.len() - 4), count, seq![]) {
                    Err(e) => read_file(s) == Err::<Point, SnapshotError>(e),
                    Ok(st) => read_file(s) == Ok::<Point, SnapshotError>(
                        (bytes::le_value(s.subrange(8, 16)) as u64, st),
                    ),
                }
            }
        }),
{
    if s.len() >= 28 {
        assert(s.take(s.len() - 4).skip(24) =~= s.subrange(24, s.len() - 4));
    }
}

/// How entries are read: one that is not there in full fails at its first short field; the same
/// key a second time fails; otherwise the entry is in the result, with what came before.
pub proof fn law_reading_entries(s: Seq<u8>, n: nat, acc: State)
    requires
        assoc::sorted(acc),
        n > 0,
    ensures
        read_entries(s, 0, acc) == Ok::<State, SnapshotError>(acc),
        ({
            let kl = bytes::le_value(s.take(4)) as int;
            let vl = bytes::le_value(s.subrange(4 + kl, 8 + kl)) as int;
            let k = s.subrange(4, 4 + kl);
            let v = s.subrange(8 + kl, 8 + kl + vl);
            let ver = bytes::le_value(s.subrange(8 + kl + vl, 16 + kl + vl)) as u64;
            if s.len() < 4 {
                read_entries(s, n, acc) == Err::<State, SnapshotError>(
                    SnapshotError::ShortKeyLength,
                )
            } else if s.len() < 4 + kl {
                read_entries(s, n, acc) == Err::<State, SnapshotError>(SnapshotError::ShortKey)
            } else if s.len() < 8 + kl {
                read_entries(s, n, acc) == Err::<State, SnapshotError>(
                    SnapshotError::ShortValueLength,
                )
            } else if s.len() < 8 + kl + vl {
                read_entries(s, n, acc) == Err::<State, SnapshotError>(SnapshotError::ShortValue)
            } else if s.len() < 16 + kl + vl {
                read_entries(s, n, acc) == Err::<State, SnapshotError>(
                    SnapshotError::ShortVersion,
                )
            } else if exists|i: int| 0 <= i < acc.len() && (#[trigger] acc[i]).0 == k {
                read_entries(s, n, acc) == Err::<State, SnapshotError>(SnapshotError::RepeatedKey)
            } else {
                exists|more: State|
                    {
                        &&& assoc::sorted(more)
                        &&& more.len() == acc.len() + 1
                        &&& assoc::find(more, k) == Some((v, ver))
                        &&& forall|j: Seq<u8>|
                            j != k ==> #[trigger] assoc::find(more, j) == assoc::find(acc, j)
                        &&& read_entries(s, n, acc) == #[trigger] read_entries(
                            s.skip(16 + kl + vl),
                            (n - 1) as nat,
                            more,
                        )
                    }
            }
        }),
        read_entries(s, n, acc) matches Ok(st) ==> st.len() == acc.len() + n && assoc::sorted(st),
{
    lemma_read_count(s, n, acc);
    if s.len() >= 4 {
        let kl = bytes::le_value(s.take(4)) as int;
        let s1 = s.skip(4);
        if s1.len() >= kl {
            let k = s.subrange(4, 4 + kl);
            assert(s1.take(kl) =~= k);
            let s2 = s1.skip(kl);
            if s2.len() >= 4 {
                assert(s2.take(4) =~= s.subrange(4 + kl, 8 + kl));
                let vl = bytes::le_value(s.subrange(4 + kl, 8 + kl)) as int;
                let s3 = s2.skip(4);
                if s3.len() >= vl {
                    let v = s.subrange(8 + kl, 8 + kl + vl);
                    assert(s3.take(vl) =~= v);
                    let s4 = s3.skip(vl);
                    if s4.len() >= 8 {
                        assert(s4.take(8) =~= s.subrange(8 + kl + vl, 16 + kl + vl));
                        assert(s4.skip(8) =~= s.skip(16 + kl + vl));
                        let ver = bytes::le_value(s.subrange(8 + kl + vl, 16 + kl + vl)) as u64;
                        assoc::law_a_lookup_finds_the_entry(acc, k, (v, ver));
                        assoc::lemma_upsert(acc, k, (v, ver));
                        if assoc::find(acc, k) is None {
                            let more = assoc::upsert(acc, k, (v, ver));
                            assert(read_entries(s, n, acc) == read_entries(
                                s.skip(16 + kl + vl),
                                (n - 1) as nat,
                                more,
                            ));
                        }
                    }
                }
            }
        }
    }
}

proof fn lemma_read_count(s: Seq<u8>, n: nat, acc: State)
    requires
        assoc::sorted(acc),
    ensures
        read_entries(s, n, acc) matches Ok(st) ==> st.len() == acc.len() + n && assoc::sorted(st),
    decreases n,
{
    if n > 0 {
        if let Ok((e, rest)) = read_entry(s) {
            assoc::lemma_upsert(acc, e.0, e.1);
            lemma_read_count(rest, (n - 1) as nat, assoc::upsert(acc, e.0, e.1));
        }
    }
}

/// Which checkpoint a directory has: the latest if it can be read; else the previous one if that
/// can be read; none if there is neither file. A latest that cannot be read with no previous one
/// is an error, and so is a previous one that cannot be read where it is needed.
pub proof fn law_which_checkpoint_is_loaded(f: Files)
    ensures
        match (assoc::find(f, latest_name()), assoc::find(f, previous_name())) {
            (None, None) => loaded(f) == Ok::<Option<Point>, SnapshotError>(None),
            (None, Some(b)) => match read_file(b) {
                Ok(p) => loaded(f) == Ok::<Option<Point>, SnapshotError>(Some(p)),
                Err(e) => loaded(f) == Err::<Option<Point>, SnapshotError>(e),
            },
            (Some(a), None) => match read_file(a) {
                Ok(p) => loaded(f) == Ok::<Option<Point>, SnapshotError>(Some(p)),
                Err(e) => loaded(f) == Err::<Option<Point>, SnapshotError>(e),
            },
            (Some(a), Some(b)) => match (read_file(a), read_file(b)) {
                (Ok(p), _) => loaded(f) == Ok::<Option<Point>, SnapshotError>(Some(p)),
                (Err(_), Ok(q)) => loaded(f) == Ok::<Option<Point>, SnapshotError>(Some(q)),
                (Err(_), Err(e)) => loaded(f) == Err::<Option<Point>, SnapshotError>(e),
            },
        },
        usable(f) <==> (assoc::find(f, latest_name()) matches Some(a) && read_file(a) is Ok),
{
}

proof fn lemma_names_differ()
    ensures
        latest_name() != previous_name(),
        latest_name() != temp_name(),
        previous_name() != temp_name(),
{
    reveal(latest_name);
    reveal(previous_name);
    reveal(temp_name);
    assert(latest_name()[5] != temp_name()[5]);
    assert(previous_name().len() == 9);
}

/// The three checkpoint files: `snap.dat`, `snap.prev` and `snap.tmp`.
pub proof fn law_checkpoint_file_names()
    ensures
        latest_name() == seq![115u8, 110, 97, 112, 46, 100, 97, 116],
        previous_name() == seq![115u8, 110, 97, 112, 46, 112, 114, 101, 118],
        temp_name() == seq![115u8, 110, 97, 112, 46, 116, 109, 112],
{
    reveal(latest_name);
    reveal(previous_name);
    reveal(temp_name);
}

/// Writing a checkpoint makes it the latest and leaves nothing aside: it is written in full under
/// another name before anything else changes, and renamed last. The one that was the latest
/// becomes the previous one where it is to be kept; otherwise the previous one stays. No other
/// file is touched.
pub proof fn law_writing_a_checkpoint(f: Files, keep_latest: bool, p: Point, other: Seq<u8>)
    requires
        assoc::sorted(f),
        keep_latest ==> assoc::find(f, latest_name()) is Some,
    ensures
        ({
            let plan = write_steps(keep_latest, p);
            let g = dir::apply_all(f, plan);
            &&& plan[0] == Step::Create(temp_name(), file_bytes(p))
            &&& plan.last() == Step::Rename(temp_name(), latest_name())
            &&& assoc::find(g, latest_name()) == Some(file_bytes(p))
            &&& assoc::find(g, temp_name()) is None
            &&& keep_latest ==> assoc::find(g, previous_name()) == assoc::find(f, latest_name())
            &&& !keep_latest ==> assoc::find(g, previous_name()) == assoc::find(f, previous_name())
            &&& other != latest_name() && other != previous_name() && other != temp_name()
                ==> assoc::find(g, other) == assoc::find(f, other)
        }),
{
    lemma_names_differ();
    let a = Step::Create(temp_name(), file_bytes(p));
    let b = Step::Rename(latest_name(), previous_name());
    let c = Step::Rename(temp_name(), latest_name());
    let none = Seq::<u8>::empty();
    let f1 = dir::apply(f, a);
    dir::law_a_step_changes_the_file_it_names(f, temp_name(), none, file_bytes(p), 0, latest_name());
    dir::law_a_step_changes_the_file_it_names(
        f,
        temp_name(),
        none,
        file_bytes(p),
        0,
        previous_name(),
    );
    dir::lemma_create(f, temp_name(), file_bytes(p), other);
    dir::lemma_apply_sorted(f, a);
    if keep_latest {
        let f2 = dir::apply(f1, b);
        dir::lemma_apply_sorted(f1, b);
        dir::lemma_rename(f1, latest_name(), previous_name(), temp_name());
        dir::lemma_rename(f1, latest_name(), previous_name(), other);
        dir::lemma_rename(f2, temp_name(), latest_name(), previous_name());
        dir::lemma_rename(f2, temp_name(), latest_name(), other);
        dir::lemma_apply_two(f, a, b);
        dir::lemma_apply_add(f, seq![a, b], seq![c]);
        dir::lemma_apply_one(f2, c);
        assert(write_steps(keep_latest, p) =~= seq![a, b] + seq![c]);
    } else {
        dir::lemma_rename(f1, temp_name(), latest_name(), previous_name());
        dir::lemma_rename(f1, temp_name(), latest_name(), other);
        dir::lemma_apply_two(f, a, c);
        assert(write_steps(keep_latest, p) =~= seq![a, c]);
    }
}

/// A purge leaves none of the three checkpoint files, and every other file as it was.
pub proof fn law_a_purge_removes_every_checkpoint(f: Files, other: Seq<u8>)
    requires
        assoc::sorted(f),
    ensures
        ({
            let plan = purge_step(f, latest_name()) + purge_step(f, previous_name()) + purge_step(
                f,
                temp_name(),
            );
            let g = dir::apply_all(f, plan);
            &&& assoc::find(g, latest_name()) is None
            &&& assoc::find(g, previous_name()) is None
            &&& assoc::find(g, temp_name()) is None
            &&& other != latest_name() && other != previous_name() && other != temp_name()
                ==> assoc::find(g, other) == assoc::find(f, other)
        }),
{
    lemma_names_differ();
    let a = purge_step(f, latest_name());
    let b = purge_step(f, previous_name());
    let c = purge_step(f, temp_name());
    dir::lemma_apply_add(f, a + b, c);
    dir::lemma_apply_add(f, a, b);
    let f1 = dir::apply_all(f, a);
    let f2 = dir::apply_all(f1, b);
    lemma_purge_one(f, f, latest_name());
    lemma_purge_one(f, f1, previous_name());
    lemma_purge_one(f, f2, temp_name());
}

proof fn lemma_purge_one(f: Files, g: Files, name: Seq<u8>)
    requires
        assoc::sorted(g),
        assoc::find(g, name) == assoc::find(f, name),
    ensures
        assoc::sorted(dir::apply_all(g, purge_step(f, name))),
        assoc::find(dir::apply_all(g, purge_step(f, name)), name) is None,
        forall|j: Seq<u8>|
            j != name ==> #[trigger] assoc::find(dir::apply_all(g, purge_step(f, name)), j)
                == assoc::find(g, j),
{
    assoc::lemma_erase(g, name);
    dir::lemma_apply_one(g, Step::Remove(name));
}

/// A path and a file name are joined by exactly one slash; no slash is put in front of the name
/// where the path is empty.
pub proof fn law_one_slash_joins(path: Seq<u8>, name: Seq<u8>)
    ensures
        path.len() == 0 ==> joined(path, name) == name,
        path.len() > 0 && path[path.len() - 1] == 47 ==> joined(path, name) == path + name,
        path.len() > 0 && path[path.len() - 1] != 47 ==> joined(path, name) == path + seq![47u8]
            + name,
{
    if path.len() == 0 {
        assert(path + name =~= name);
    }
    assert(path.push(47) =~= path + seq![47u8]);
}

/// The steps that remove every checkpoint file, the previous one and a transient one included.
pub fn purge(d: &DirImage) -> (r: Vec<FileAction>)
    ensures
        dir::steps(r@) == purge_step(d@, latest_name()) + purge_step(d@, previous_name())
            + purge_step(d@, temp_name()),
{
    let mut plan: Vec<FileAction> = Vec::new();
    if d.read(latest_file().as_slice()).is_some() {
        plan.push(FileAction::Remove { name: latest_file() });
    }
    assert(dir::steps(plan@) =~= purge_step(d@, latest_name()));
    let ghost first = dir::steps(plan@);
    if d.read(previous_file().as_slice()).is_some() {
        plan.push(FileAction::Remove { name: previous_file() });
    }
    assert(dir::steps(plan@) =~= first + purge_step(d@, previous_name()));
    let ghost second = dir::steps(plan@);
    if d.read(temp_file().as_slice()).is_some() {
        plan.push(FileAction::Remove { name: temp_file() });
    }
    assert(dir::steps(plan@) =~= second + purge_step(d@, temp_name()));
    plan
}

} // verus!
