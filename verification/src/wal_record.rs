//! Log records: their layout, and reading a run of them back.
//!
//! A record is framed by the length of its payload and the checksum of the payload:
//!
//! ```text
//!  offset  size  field
//!    0      4    length           # bytes of `payload`
//!    4      L    payload:
//!                     tag   u8   1 = Put, 2 = Delete, 3 = batch
//!                     term  u64
//!                     index u64  logical commit index
//!                   then, for Put and Delete:
//!                     k_len u32, key, v_len u32, val   (val is empty for Delete)
//!                   or, for a batch:
//!                     count u32, then per op: tag u8, k_len u32, key, v_len u32, val
//!    4+L     4   crc32            # over `payload`
//! ```
//!
//! A write cut short by a crash leaves a partial record at the end: its length runs past the
//! end of the file, or its checksum does not match. Reading stops there.

use crate::bytes;
use crate::bytes::{get_u32_le, push_all, put_u32_le, put_u64_le};
use crate::codec;
use crate::codec::{put_blob, Cursor};
use crate::crc;
use crate::crc::crc32;
use crate::types;
use crate::types::{copy_ops, Change, Op};
use vstd::prelude::*;

verus! {

/// The smallest payload: tag, term, index and two empty byte strings. Any smaller length is
/// a torn tail.
pub const MIN_PAYLOAD: u32 = 25;

/// One log record: the operations of one commit.
#[derive(Debug, PartialEq, Eq)]
pub struct Record {
    pub term: u64,
    pub index: u64,
    pub ops: Vec<Op>,
}

/// A [`Record`] over byte strings.
#[verifier::ext_equal]
pub struct LogRecord {
    pub term: u64,
    pub index: u64,
    pub ops: Seq<Change>,
}

impl Record {
    pub open spec fn view(&self) -> LogRecord {
        LogRecord { term: self.term, index: self.index, ops: types::changes(self.ops@) }
    }
}

impl Clone for Record {
    fn clone(&self) -> (r: Record)
        ensures
            r@ == self@,
    {
        Record { term: self.term, index: self.index, ops: copy_ops(&self.ops) }
    }
}

/// The records of `rs`.
pub open spec fn records(rs: Seq<Record>) -> Seq<LogRecord> {
    rs.map_values(|r: Record| r@)
}

// ---------------------------------------------------------------------------
// The layout
// ---------------------------------------------------------------------------

/// The tag of an operation.
pub open spec fn tag_of(c: Change) -> u8 {
    match c {
        Change::Put(k, v) => 1,
        Change::Delete(k) => 2,
    }
}

/// The key of an operation.
pub open spec fn key_of(c: Change) -> Seq<u8> {
    match c {
        Change::Put(k, v) => k,
        Change::Delete(k) => k,
    }
}

/// The value of an operation, empty for a delete.
pub open spec fn value_of(c: Change) -> Seq<u8> {
    match c {
        Change::Put(k, v) => v,
        Change::Delete(k) => seq![],
    }
}

/// The key and value of an operation.
pub open spec fn body_bytes(c: Change) -> Seq<u8> {
    codec::blob(key_of(c)) + codec::blob(value_of(c))
}

/// The operations of a batch.
pub open spec fn batch_bytes(cs: Seq<Change>) -> Seq<u8>
    decreases cs.len(),
{
    if cs.len() == 0 {
        seq![]
    } else {
        seq![tag_of(cs[0])] + body_bytes(cs[0]) + batch_bytes(cs.skip(1))
    }
}

/// The tag, term and index of a payload.
pub open spec fn head_bytes(tag: u8, term: u64, index: u64) -> Seq<u8> {
    seq![tag] + bytes::le_bytes(term as nat, 8) + bytes::le_bytes(index as nat, 8)
}

/// The payload of a record.
pub open spec fn payload(r: LogRecord) -> Seq<u8> {
    if r.ops.len() == 1 {
        head_bytes(tag_of(r.ops[0]), r.term, r.index) + body_bytes(r.ops[0])
    } else {
        head_bytes(3, r.term, r.index) + bytes::le_bytes((r.ops.len() as u32) as nat, 4)
            + batch_bytes(r.ops)
    }
}

/// A payload between its length and its checksum.
pub open spec fn frame(p: Seq<u8>) -> Seq<u8> {
    bytes::le_bytes((p.len() as u32) as nat, 4) + p + bytes::le_bytes(crc::crc_of(p) as nat, 4)
}

/// The frames of several records, one after another.
pub open spec fn frames(rs: Seq<LogRecord>) -> Seq<u8>
    decreases rs.len(),
{
    if rs.len() == 0 {
        seq![]
    } else {
        frames(rs.drop_last()) + frame(payload(rs.last()))
    }
}

// ---------------------------------------------------------------------------
// The grammar
// ---------------------------------------------------------------------------

/// Which field of a payload is missing or wrong.
#[derive(Debug, Clone, Copy, PartialEq, Eq, Structural)]
pub enum PayloadError {
    Empty,
    Term,
    Index,
    Count,
    KeyLen,
    KeyBody,
    ValueLen,
    ValueBody,
    BadTag,
}

/// A key and a value.
pub open spec fn read_body(s: Seq<u8>) -> Result<(Seq<u8>, Seq<u8>, Seq<u8>), PayloadError> {
    match codec::take_u32(s) {
        None => Err(PayloadError::KeyLen),
        Some((kl, s1)) => match codec::take_n(s1, kl) {
            None => Err(PayloadError::KeyBody),
            Some((k, s2)) => match codec::take_u32(s2) {
                None => Err(PayloadError::ValueLen),
                Some((vl, s3)) => match codec::take_n(s3, vl) {
                    None => Err(PayloadError::ValueBody),
                    Some((v, rest)) => Ok((k, v, rest)),
                },
            },
        },
    }
}

/// The operation with this tag.
pub open spec fn op_of(tag: u8, k: Seq<u8>, v: Seq<u8>) -> Option<Change> {
    if tag == 1 {
        Some(Change::Put(k, v))
    } else if tag == 2 {
        Some(Change::Delete(k))
    } else {
        None
    }
}

/// `n` operations of a batch.
pub open spec fn read_batch(s: Seq<u8>, n: nat) -> Result<(Seq<Change>, Seq<u8>), PayloadError>
    decreases n,
{
    if n == 0 {
        Ok((seq![], s))
    } else {
        match codec::take_u8(s) {
            None => Err(PayloadError::Empty),
            Some((tag, s1)) => match read_body(s1) {
                Err(e) => Err(e),
                Ok((k, v, s2)) => match op_of(tag, k, v) {
                    None => Err(PayloadError::BadTag),
                    Some(c) => match read_batch(s2, (n - 1) as nat) {
                        Err(e) => Err(e),
                        Ok((more, rest)) => Ok((seq![c] + more, rest)),
                    },
                },
            },
        }
    }
}

/// The record of a payload. Bytes after the last field are ignored.
pub open spec fn read_payload(p: Seq<u8>) -> Result<LogRecord, PayloadError> {
    match codec::take_u8(p) {
        None => Err(PayloadError::Empty),
        Some((tag, s0)) => match codec::take_u64(s0) {
            None => Err(PayloadError::Term),
            Some((term, s1)) => match codec::take_u64(s1) {
                None => Err(PayloadError::Index),
                Some((index, s2)) => match read_ops(tag, s2) {
                    Err(e) => Err(e),
                    Ok(ops) => Ok(LogRecord { term: term as u64, index: index as u64, ops }),
                },
            },
        },
    }
}

/// What follows the head of a payload.
pub open spec fn read_ops(tag: u8, s: Seq<u8>) -> Result<Seq<Change>, PayloadError> {
    if tag == 3 {
        match codec::take_u32(s) {
            None => Err(PayloadError::Count),
            Some((n, s1)) => match read_batch(s1, n) {
                Err(e) => Err(e),
                Ok((ops, rest)) => Ok(ops),
            },
        }
    } else {
        match read_body(s) {
            Err(e) => Err(e),
            Ok((k, v, rest)) => match op_of(tag, k, v) {
                None => Err(PayloadError::BadTag),
                Some(c) => Ok(seq![c]),
            },
        }
    }
}

/// The intact record at the front of `s` and the bytes it takes; nothing if `s` starts with a
/// torn or damaged one.
#[verifier::opaque]
pub open spec fn first_record(s: Seq<u8>) -> Option<(LogRecord, nat)> {
    if s.len() < 4 {
        None
    } else {
        let n = bytes::le_value(s.take(4));
        if n < MIN_PAYLOAD || n + 8 > s.len() {
            None
        } else {
            let p = s.subrange(4, 4 + n as int);
            if bytes::le_value(s.subrange(4 + n as int, 8 + n as int)) != crc::crc_of(p) {
                None
            } else {
                match read_payload(p) {
                    Ok(r) => Some((r, n + 8)),
                    Err(e) => None,
                }
            }
        }
    }
}

/// The intact records of a segment, and the offset of the first torn or damaged one.
pub open spec fn scan(s: Seq<u8>) -> (Seq<LogRecord>, Option<nat>)
    decreases s.len(),
{
    if s.len() == 0 {
        (seq![], None)
    } else {
        match first_record(s) {
            None => (seq![], Some(0)),
            Some((r, n)) => {
                proof {
                    reveal(first_record);
                }
                let (more, torn) = scan(s.skip(n as int));
                (
                    seq![r] + more,
                    match torn {
                        None => None,
                        Some(off) => Some(off + n),
                    },
                )
            },
        }
    }
}

/// Every length and count in the payload of `r` fits its field.
pub open spec fn fields_fit(r: LogRecord) -> bool {
    &&& r.ops.len() <= u32::MAX
    &&& forall|i: int|
        0 <= i < r.ops.len() ==> key_of(#[trigger] r.ops[i]).len() <= u32::MAX && value_of(
            r.ops[i],
        ).len() <= u32::MAX
}

/// The payload of `r` can be framed: there is an operation, and every length and count fits its
/// field.
pub open spec fn encodable(r: LogRecord) -> bool {
    &&& 1 <= r.ops.len()
    &&& fields_fit(r)
    &&& payload(r).len() <= u32::MAX
}

// ---------------------------------------------------------------------------
// Reading back what was written
// ---------------------------------------------------------------------------

proof fn lemma_body_roundtrip(c: Change, rest: Seq<u8>)
    requires
        key_of(c).len() <= u32::MAX,
        value_of(c).len() <= u32::MAX,
    ensures
        read_body(body_bytes(c) + rest) == Ok::<(Seq<u8>, Seq<u8>, Seq<u8>), PayloadError>(
            (key_of(c), value_of(c), rest),
        ),
        op_of(tag_of(c), key_of(c), value_of(c)) == Some(c),
        body_bytes(c).len() >= 8,
{
    let k = codec::blob(key_of(c));
    let v = codec::blob(value_of(c));
    assert(body_bytes(c) + rest =~= k + (v + rest));
    codec::lemma_take_blob(key_of(c), v + rest);
    codec::lemma_take_blob(value_of(c), rest);
    codec::lemma_blob_len(key_of(c));
    codec::lemma_blob_len(value_of(c));
}

proof fn lemma_batch_roundtrip(cs: Seq<Change>, rest: Seq<u8>)
    requires
        forall|i: int|
            0 <= i < cs.len() ==> key_of(#[trigger] cs[i]).len() <= u32::MAX && value_of(
                cs[i],
            ).len() <= u32::MAX,
    ensures
        read_batch(batch_bytes(cs) + rest, cs.len()) == Ok::<
            (Seq<Change>, Seq<u8>),
            PayloadError,
        >((cs, rest)),
        batch_bytes(cs).len() >= 9 * cs.len(),
    decreases cs.len(),
{
    if cs.len() == 0 {
        assert(batch_bytes(cs) + rest =~= rest);
        assert(cs =~= seq![]);
    } else {
        let more = cs.skip(1);
        assert forall|i: int| 0 <= i < more.len() implies key_of(#[trigger] more[i]).len()
            <= u32::MAX && value_of(more[i]).len() <= u32::MAX by {
            assert(more[i] == cs[i + 1]);
        }
        lemma_batch_roundtrip(more, rest);
        let tail = batch_bytes(more) + rest;
        let b = body_bytes(cs[0]);
        assert(key_of(cs[0]).len() <= u32::MAX);
        assert(batch_bytes(cs) + rest =~= seq![tag_of(cs[0])] + (b + tail));
        codec::lemma_take_u8(tag_of(cs[0]), b + tail);
        lemma_body_roundtrip(cs[0], tail);
        assert(cs =~= seq![cs[0]] + more);
    }
}

proof fn lemma_head(tag: u8, term: u64, index: u64, rest: Seq<u8>)
    ensures
        head_bytes(tag, term, index).len() == 17,
        codec::take_u8(head_bytes(tag, term, index) + rest) == Some(
            (tag, bytes::le_bytes(term as nat, 8) + (bytes::le_bytes(index as nat, 8) + rest)),
        ),
        codec::take_u64(
            bytes::le_bytes(term as nat, 8) + (bytes::le_bytes(index as nat, 8) + rest),
        ) == Some((term as nat, bytes::le_bytes(index as nat, 8) + rest)),
        codec::take_u64(bytes::le_bytes(index as nat, 8) + rest) == Some((index as nat, rest)),
{
    let t = bytes::le_bytes(term as nat, 8);
    let i = bytes::le_bytes(index as nat, 8);
    bytes::lemma_le_u64(term);
    bytes::lemma_le_u64(index);
    assert(head_bytes(tag, term, index) + rest =~= seq![tag] + (t + (i + rest)));
    codec::lemma_take_u8(tag, t + (i + rest));
    codec::lemma_take_u64(term, i + rest);
    codec::lemma_take_u64(index, rest);
}

/// A payload reads back as its record.
pub proof fn law_payload_roundtrip(r: LogRecord)
    requires
        fields_fit(r),
    ensures
        read_payload(payload(r)) == Ok::<LogRecord, PayloadError>(r),
        r.ops.len() >= 1 ==> payload(r).len() >= MIN_PAYLOAD,
{
    if r.ops.len() == 1 {
        assert(key_of(r.ops[0]).len() <= u32::MAX);
        let b = body_bytes(r.ops[0]);
        lemma_head(tag_of(r.ops[0]), r.term, r.index, b);
        lemma_body_roundtrip(r.ops[0], seq![]);
        assert(b + Seq::<u8>::empty() =~= b);
        assert(r.ops =~= seq![r.ops[0]]);
    } else {
        let n = r.ops.len();
        let count = bytes::le_bytes((n as u32) as nat, 4);
        let b = batch_bytes(r.ops);
        lemma_head(3, r.term, r.index, count + b);
        assert(payload(r) =~= head_bytes(3, r.term, r.index) + (count + b));
        bytes::lemma_le_u32(n as u32);
        codec::lemma_take_u32(n as u32, b);
        lemma_batch_roundtrip(r.ops, seq![]);
        assert(b + Seq::<u8>::empty() =~= b);
    }
}

/// What a key and a value are read as does not depend on what follows them.
proof fn lemma_read_body_extends(s: Seq<u8>, t: Seq<u8>)
    ensures
        read_body(s) matches Ok((k, v, rest)) ==> read_body(s + t) == Ok::<
            (Seq<u8>, Seq<u8>, Seq<u8>),
            PayloadError,
        >((k, v, rest + t)),
{
    codec::lemma_take_u32_extends(s, t);
    if let Some((kl, s1)) = codec::take_u32(s) {
        codec::lemma_take_n_extends(s1, t, kl);
        if let Some((k, s2)) = codec::take_n(s1, kl) {
            codec::lemma_take_u32_extends(s2, t);
            if let Some((vl, s3)) = codec::take_u32(s2) {
                codec::lemma_take_n_extends(s3, t, vl);
            }
        }
    }
}

/// What a batch is read as does not depend on what follows it.
proof fn lemma_read_batch_extends(s: Seq<u8>, t: Seq<u8>, n: nat)
    ensures
        read_batch(s, n) matches Ok((cs, rest)) ==> read_batch(s + t, n) == Ok::<
            (Seq<Change>, Seq<u8>),
            PayloadError,
        >((cs, rest + t)),
    decreases n,
{
    if n > 0 && s.len() > 0 {
        let s1 = s.skip(1);
        assert((s + t).skip(1) =~= s1 + t);
        lemma_read_body_extends(s1, t);
        if let Ok((k, v, s2)) = read_body(s1) {
            lemma_read_batch_extends(s2, t, (n - 1) as nat);
        }
    }
}

/// A payload that is cut short is rejected.
pub proof fn law_a_cut_payload_is_rejected(r: LogRecord, n: int)
    requires
        fields_fit(r),
        0 <= n < payload(r).len(),
    ensures
        read_payload(payload(r).take(n)) is Err,
{
    let p = payload(r);
    let s = p.take(n);
    let none = Seq::<u8>::empty();
    let tag = p[0];
    let body = if r.ops.len() == 1 {
        body_bytes(r.ops[0])
    } else {
        bytes::le_bytes((r.ops.len() as u32) as nat, 4) + batch_bytes(r.ops)
    };
    if r.ops.len() == 1 {
        assert(key_of(r.ops[0]).len() <= u32::MAX);
        lemma_body_roundtrip(r.ops[0], none);
    } else {
        bytes::lemma_le_u32(r.ops.len() as u32);
        lemma_batch_roundtrip(r.ops, none);
    }
    assert(p =~= head_bytes(tag, r.term, r.index) + body) by {
        lemma_head(tag, r.term, r.index, body);
    }
    if n >= 17 {
        let cut = body.take(n - 17);
        lemma_head(tag, r.term, r.index, cut);
        assert(s =~= head_bytes(tag, r.term, r.index) + cut);
        if r.ops.len() == 1 {
            let t = body.skip(n - 17);
            assert(cut + t =~= body);
            assert(body + none =~= body);
            lemma_read_body_extends(cut, t);
        } else if n >= 21 {
            let b = batch_bytes(r.ops);
            let part = b.take(n - 21);
            let t = b.skip(n - 21);
            assert(cut =~= bytes::le_bytes((r.ops.len() as u32) as nat, 4) + part);
            codec::lemma_take_u32(r.ops.len() as u32, part);
            assert(part + t =~= b);
            assert(b + none =~= b);
            lemma_read_batch_extends(part, t, r.ops.len());
        }
    }
}

/// A framed record at the front of a segment is its first record.
pub proof fn lemma_first_record(r: LogRecord, rest: Seq<u8>)
    requires
        encodable(r),
    ensures
        frame(payload(r)).len() == payload(r).len() + 8,
        first_record(frame(payload(r)) + rest) == Some((r, frame(payload(r)).len())),
{
    reveal(first_record);
    law_payload_roundtrip(r);
    let p = payload(r);
    let n = p.len() as int;
    let s = frame(p) + rest;
    let sum = crc::crc_of(p);
    bytes::lemma_le_u32(p.len() as u32);
    bytes::lemma_le_u32(sum);
    assert(s.take(4) =~= bytes::le_bytes((p.len() as u32) as nat, 4));
    assert(s.subrange(4, 4 + n) =~= p);
    assert(s.subrange(4 + n, 8 + n) =~= bytes::le_bytes(sum as nat, 4));
}

/// A framed record that is cut short is no record.
pub proof fn lemma_torn_frame(r: LogRecord, n: int)
    requires
        encodable(r),
        0 <= n < frame(payload(r)).len(),
    ensures
        first_record(frame(payload(r)).take(n)) is None,
{
    reveal(first_record);
    let p = payload(r);
    let s = frame(p).take(n);
    bytes::lemma_le_u32(p.len() as u32);
    bytes::lemma_le_u32(crc::crc_of(p));
    if n >= 4 {
        assert(s.take(4) =~= bytes::le_bytes((p.len() as u32) as nat, 4));
    }
}

/// The first record does not depend on what follows it.
pub proof fn lemma_first_record_extends(s: Seq<u8>, t: Seq<u8>)
    requires
        first_record(s) is Some,
    ensures
        first_record(s + t) == first_record(s),
        8 <= (first_record(s)->0).1 <= s.len(),
        first_record(s.take((first_record(s)->0).1 as int)) == first_record(s),
{
    reveal(first_record);
    let n = bytes::le_value(s.take(4)) as int;
    let u = s + t;
    assert(u.take(4) =~= s.take(4));
    assert(u.subrange(4, 4 + n) =~= s.subrange(4, 4 + n));
    assert(u.subrange(4 + n, 8 + n) =~= s.subrange(4 + n, 8 + n));
    let w = s.take(8 + n);
    assert(w.take(4) =~= s.take(4));
    assert(w.subrange(4, 4 + n) =~= s.subrange(4, 4 + n));
    assert(w.subrange(4 + n, 8 + n) =~= s.subrange(4 + n, 8 + n));
}

/// After a segment that ends cleanly, reading goes on with what is appended.
pub proof fn lemma_scan_append(s: Seq<u8>, t: Seq<u8>)
    requires
        scan(s).1 is None,
    ensures
        scan(s + t).0 == scan(s).0 + scan(t).0,
        scan(s + t).1 == (match scan(t).1 {
            None => None,
            Some(off) => Some(off + s.len()),
        }),
    decreases s.len(),
{
    if s.len() == 0 {
        assert(s + t =~= t);
        assert(scan(s).0 + scan(t).0 =~= scan(t).0);
    } else {
        let (r, n) = first_record(s)->0;
        lemma_first_record_extends(s, t);
        let rest = s.skip(n as int);
        lemma_scan_append(rest, t);
        assert((s + t).skip(n as int) =~= rest + t);
        assert(scan(s + t).0 =~= scan(s).0 + scan(t).0);
    }
}

proof fn lemma_scan_one(r: LogRecord)
    requires
        encodable(r),
    ensures
        scan(frame(payload(r))) == (seq![r], None::<nat>),
{
    let f = frame(payload(r));
    lemma_first_record(r, seq![]);
    assert(f + Seq::<u8>::empty() =~= f);
    assert(f.skip(f.len() as int) =~= seq![]);
    assert(scan(seq![]) == (Seq::<LogRecord>::empty(), None::<nat>));
    assert(seq![r] + Seq::<LogRecord>::empty() =~= seq![r]);
}

/// Appending records to a clean segment makes them readable after those already there.
pub proof fn law_append_is_read_back(s: Seq<u8>, rs: Seq<LogRecord>)
    requires
        scan(s).1 is None,
        forall|i: int| 0 <= i < rs.len() ==> encodable(#[trigger] rs[i]),
    ensures
        scan(s + frames(rs)) == (scan(s).0 + rs, None::<nat>),
    decreases rs.len(),
{
    if rs.len() == 0 {
        assert(s + frames(rs) =~= s);
        assert(scan(s).0 + rs =~= scan(s).0);
    } else {
        let front = rs.drop_last();
        assert forall|i: int| 0 <= i < front.len() implies encodable(#[trigger] front[i]) by {
            assert(front[i] == rs[i]);
        }
        law_append_is_read_back(s, front);
        let f = frame(payload(rs.last()));
        assert(encodable(rs[rs.len() - 1]));
        lemma_scan_one(rs.last());
        lemma_scan_append(s + frames(front), f);
        assert(s + frames(rs) =~= s + frames(front) + f);
        assert(scan(s).0 + front + seq![rs.last()] =~= scan(s).0 + rs);
    }
}

/// A crash while appending to a clean segment leaves a whole number of the new records: how
/// many, if `n` bytes reached the file.
pub open spec fn survivors(rs: Seq<LogRecord>, n: int) -> nat
    decreases rs.len(),
{
    if rs.len() == 0 {
        0
    } else if n >= frames(rs).len() {
        rs.len()
    } else {
        survivors(rs.drop_last(), n)
    }
}

/// An append that is cut short leaves the records already there, then whole new records and
/// at most a torn tail after them; never part of a record.
pub proof fn law_torn_append(s: Seq<u8>, rs: Seq<LogRecord>, n: int)
    requires
        scan(s).1 is None,
        forall|i: int| 0 <= i < rs.len() ==> encodable(#[trigger] rs[i]),
        0 <= n <= frames(rs).len(),
    ensures
        survivors(rs, n) <= rs.len(),
        survivors(rs, n) == rs.len() <==> n == frames(rs).len(),
        scan(s + frames(rs).take(n)).0 == scan(s).0 + rs.take(survivors(rs, n) as int),
    decreases rs.len(),
{
    if n == frames(rs).len() {
        assert(frames(rs).take(n) =~= frames(rs));
        law_append_is_read_back(s, rs);
        assert(rs.take(rs.len() as int) =~= rs);
    } else {
        let front = rs.drop_last();
        let last = rs.last();
        assert forall|i: int| 0 <= i < front.len() implies encodable(#[trigger] front[i]) by {
            assert(front[i] == rs[i]);
        }
        assert(encodable(rs[rs.len() - 1]));
        let a = frames(front);
        let f = frame(payload(last));
        if n <= a.len() {
            law_torn_append(s, front, n);
            assert(frames(rs).take(n) =~= a.take(n));
            let j = survivors(front, n) as int;
            assert(front.take(j) =~= rs.take(j));
            if front.len() == 0 {
                assert(survivors(rs, n) == 0);
            }
        } else {
            assert(survivors(front, n) == front.len());
            let m = n - a.len();
            let t = f.take(m);
            assert(frames(rs).take(n) =~= a + t);
            law_append_is_read_back(s, front);
            lemma_torn_frame(last, m);
            assert(scan(t) == (Seq::<LogRecord>::empty(), Some(0nat)));
            lemma_scan_append(s + a, t);
            assert(s + (a + t) =~= s + a + t);
            assert(scan(s).0 + front + Seq::<LogRecord>::empty() =~= scan(s).0 + front);
            assert(rs.take(front.len() as int) =~= front);
        }
    }
}

/// Cutting a segment at its torn tail leaves a clean segment with the same records.
pub proof fn law_repair(s: Seq<u8>)
    ensures
        match scan(s).1 {
            None => true,
            Some(off) => off < s.len() && scan(s.take(off as int)) == (scan(s).0, None::<nat>),
        },
    decreases s.len(),
{
    if s.len() > 0 {
        match first_record(s) {
            None => {
                assert(s.take(0) =~= seq![]);
            },
            Some((r, n)) => {
                lemma_first_record_extends(s, seq![]);
                let rest = s.skip(n as int);
                law_repair(rest);
                if scan(s).1 is Some {
                    let off = scan(rest).1->0;
                    let total = (off + n) as int;
                    let c = s.take(total);
                    assert(c.take(n as int) =~= s.take(n as int));
                    assert(s.take(n as int) + c.skip(n as int) =~= c);
                    lemma_first_record_extends(s.take(n as int), c.skip(n as int));
                    assert(c.skip(n as int) =~= rest.take(off as int));
                }
            },
        }
    }
}

/// A changed byte in the payload of a record makes the record unreadable.
pub proof fn law_changed_byte_is_detected(r: LogRecord, rest: Seq<u8>, i: int, v: u8)
    requires
        encodable(r),
        4 <= i < 4 + payload(r).len(),
        (frame(payload(r)) + rest)[i] != v,
    ensures
        first_record((frame(payload(r)) + rest).update(i, v)) is None,
{
    reveal(first_record);
    law_payload_roundtrip(r);
    let p = payload(r);
    let n = p.len() as int;
    let s = frame(p) + rest;
    let t = s.update(i, v);
    let sum = crc::crc_of(p);
    bytes::lemma_le_u32(p.len() as u32);
    bytes::lemma_le_u32(sum);
    assert(t.take(4) =~= bytes::le_bytes((p.len() as u32) as nat, 4));
    assert(t.subrange(4, 4 + n) =~= p.update(i - 4, v));
    assert(t.subrange(4 + n, 8 + n) =~= bytes::le_bytes(sum as nat, 4));
    crc::law_crc_detects_a_changed_byte(p, i - 4, v);
}

// ---------------------------------------------------------------------------
// What is written, what is read
// ---------------------------------------------------------------------------

/// The payload of a commit with one operation: its tag, the term, the index, the key and the
/// value, which is empty for a delete.
pub proof fn law_the_payload_of_one_operation(term: u64, index: u64, k: Seq<u8>, v: Seq<u8>)
    ensures
        payload(LogRecord { term, index, ops: seq![Change::Put(k, v)] }) == seq![1u8]
            + bytes::le_bytes(term as nat, 8) + bytes::le_bytes(index as nat, 8) + codec::blob(k)
            + codec::blob(v),
        payload(LogRecord { term, index, ops: seq![Change::Delete(k)] }) == seq![2u8]
            + bytes::le_bytes(term as nat, 8) + bytes::le_bytes(index as nat, 8) + codec::blob(k)
            + seq![0u8, 0, 0, 0],
{
    codec::law_a_blob_is_its_length_and_its_bytes(seq![]);
    assert(codec::blob(seq![]) =~= seq![0u8, 0, 0, 0]);
    assert(payload(LogRecord { term, index, ops: seq![Change::Put(k, v)] }) =~= seq![1u8]
        + bytes::le_bytes(term as nat, 8) + bytes::le_bytes(index as nat, 8) + codec::blob(k)
        + codec::blob(v));
    assert(payload(LogRecord { term, index, ops: seq![Change::Delete(k)] }) =~= seq![2u8]
        + bytes::le_bytes(term as nat, 8) + bytes::le_bytes(index as nat, 8) + codec::blob(k)
        + seq![0u8, 0, 0, 0]);
}

/// The payload of a batch: the batch tag, the term, the index, the number of operations, and then
/// each operation in order, written as it would be on its own but without term and index.
pub proof fn law_the_payload_of_a_batch(term: u64, index: u64, cs: Seq<Change>, i: int)
    requires
        cs.len() != 1,
        cs.len() <= u32::MAX,
        0 <= i < cs.len(),
    ensures
        payload(LogRecord { term, index, ops: cs }) == seq![3u8] + bytes::le_bytes(term as nat, 8)
            + bytes::le_bytes(index as nat, 8) + bytes::le_bytes(cs.len(), 4) + batch_bytes(cs),
        batch_bytes(cs) == batch_bytes(cs.take(i)) + batch_bytes(seq![cs[i]]) + batch_bytes(
            cs.skip(i + 1),
        ),
        batch_bytes(seq![]) == Seq::<u8>::empty(),
        forall|k: Seq<u8>, v: Seq<u8>| #[trigger]
            batch_bytes(seq![Change::Put(k, v)]) == seq![1u8] + codec::blob(k) + codec::blob(v),
        forall|k: Seq<u8>| #[trigger]
            batch_bytes(seq![Change::Delete(k)]) == seq![2u8] + codec::blob(k) + seq![0u8, 0, 0, 0],
{
    codec::law_a_blob_is_its_length_and_its_bytes(seq![]);
    assert(codec::blob(seq![]) =~= seq![0u8, 0, 0, 0]);
    reveal_with_fuel(batch_bytes, 2);
    assert forall|k: Seq<u8>, v: Seq<u8>| #[trigger]
        batch_bytes(seq![Change::Put(k, v)]) == seq![1u8] + codec::blob(k) + codec::blob(v) by {
        assert(seq![Change::Put(k, v)].skip(1) =~= seq![]);
        assert(batch_bytes(seq![Change::Put(k, v)]) =~= seq![1u8] + codec::blob(k) + codec::blob(
            v,
        ));
    }
    assert forall|k: Seq<u8>| #[trigger]
        batch_bytes(seq![Change::Delete(k)]) == seq![2u8] + codec::blob(k) + seq![0u8, 0, 0, 0] by {
        assert(seq![Change::Delete(k)].skip(1) =~= seq![]);
        assert(batch_bytes(seq![Change::Delete(k)]) =~= seq![2u8] + codec::blob(k) + seq![
            0u8,
            0,
            0,
            0,
        ]);
    }
    lemma_batch_split(cs, i);
    lemma_batch_split(cs.skip(i), 1);
    assert(cs.skip(i).take(1) =~= seq![cs[i]]);
    assert(cs.skip(i).skip(1) =~= cs.skip(i + 1));
    assert(batch_bytes(cs) =~= batch_bytes(cs.take(i)) + batch_bytes(seq![cs[i]]) + batch_bytes(
        cs.skip(i + 1),
    ));
    assert(payload(LogRecord { term, index, ops: cs }) =~= seq![3u8] + bytes::le_bytes(
        term as nat,
        8,
    ) + bytes::le_bytes(index as nat, 8) + bytes::le_bytes(cs.len(), 4) + batch_bytes(cs));
}

proof fn lemma_batch_split(cs: Seq<Change>, i: int)
    requires
        0 <= i <= cs.len(),
    ensures
        batch_bytes(cs) == batch_bytes(cs.take(i)) + batch_bytes(cs.skip(i)),
    decreases cs.len(),
{
    if i == 0 {
        assert(cs.skip(0) =~= cs);
        assert(batch_bytes(cs) =~= batch_bytes(cs.take(0)) + batch_bytes(cs.skip(0)));
    } else {
        let rest = cs.skip(1);
        lemma_batch_split(rest, i - 1);
        assert(cs.take(i).skip(1) =~= rest.take(i - 1));
        assert(rest.skip(i - 1) =~= cs.skip(i));
        assert(batch_bytes(cs) =~= batch_bytes(cs.take(i)) + batch_bytes(cs.skip(i)));
    }
}

/// When a payload with one operation can be read, and as what: every field has to be there in
/// full, and the tag is that of a put or a delete. A shorter payload fails at the first field that
/// is not there in full; an unknown tag fails once all fields are.
pub proof fn law_reading_one_operation(p: Seq<u8>)
    ensures
        read_payload(p) == Err::<LogRecord, PayloadError>(PayloadError::Empty) <== p.len() == 0,
        1 <= p.len() < 9 ==> read_payload(p) == Err::<LogRecord, PayloadError>(PayloadError::Term),
        9 <= p.len() < 17 ==> read_payload(p) == Err::<LogRecord, PayloadError>(
            PayloadError::Index,
        ),
        p.len() >= 17 && p[0] != 3 ==> ({
            let kl = bytes::le_value(p.subrange(17, 21)) as int;
            let vl = bytes::le_value(p.subrange(21 + kl, 25 + kl)) as int;
            let term = bytes::le_value(p.subrange(1, 9));
            let index = bytes::le_value(p.subrange(9, 17));
            if p.len() < 21 {
                read_payload(p) == Err::<LogRecord, PayloadError>(PayloadError::KeyLen)
            } else if p.len() < 21 + kl {
                read_payload(p) == Err::<LogRecord, PayloadError>(PayloadError::KeyBody)
            } else if p.len() < 25 + kl {
                read_payload(p) == Err::<LogRecord, PayloadError>(PayloadError::ValueLen)
            } else if p.len() < 25 + kl + vl {
                read_payload(p) == Err::<LogRecord, PayloadError>(PayloadError::ValueBody)
            } else if p[0] != 1 && p[0] != 2 {
                read_payload(p) == Err::<LogRecord, PayloadError>(PayloadError::BadTag)
            } else {
                &&& read_payload(p) matches Ok(r)
                &&& r.term == term
                &&& r.index == index
                &&& r.ops.len() == 1
                &&& p[0] == 1 ==> r.ops[0] == Change::Put(
                    p.subrange(21, 21 + kl),
                    p.subrange(25 + kl, 25 + kl + vl),
                )
                &&& p[0] == 2 ==> r.ops[0] == Change::Delete(p.subrange(21, 21 + kl))
            }
        }),
{
    if p.len() >= 17 {
        let s0 = p.skip(1);
        let s1 = s0.skip(8);
        let s2 = s1.skip(8);
        assert(s0.take(8) =~= p.subrange(1, 9));
        assert(s1.take(8) =~= p.subrange(9, 17));
        bytes::lemma_le_value_bound(s0.take(8));
        bytes::lemma_le_value_bound(s1.take(8));
        bytes::lemma_pow256_bounds();
        if p.len() >= 21 {
            assert(s2.take(4) =~= p.subrange(17, 21));
            let kl = bytes::le_value(p.subrange(17, 21)) as int;
            let s3 = s2.skip(4);
            if p.len() >= 21 + kl {
                assert(s3.take(kl) =~= p.subrange(21, 21 + kl));
                let s4 = s3.skip(kl);
                if p.len() >= 25 + kl {
                    assert(s4.take(4) =~= p.subrange(21 + kl, 25 + kl));
                    let vl = bytes::le_value(p.subrange(21 + kl, 25 + kl)) as int;
                    let s5 = s4.skip(4);
                    if p.len() >= 25 + kl + vl {
                        assert(s5.take(vl) =~= p.subrange(25 + kl, 25 + kl + vl));
                    }
                }
            }
        }
    }
}

/// A batch reads as many operations as it says, each as it would be read on its own behind a head,
/// and fails where the first of them fails.
pub proof fn law_reading_a_batch(s: Seq<u8>, head: Seq<u8>, n: nat)
    requires
        head.len() == 16,
        n > 0,
    ensures
        read_batch(s, 0) == Ok::<(Seq<Change>, Seq<u8>), PayloadError>((seq![], s)),
        s.len() == 0 ==> read_batch(s, n) == Err::<(Seq<Change>, Seq<u8>), PayloadError>(
            PayloadError::Empty,
        ),
        s.len() > 0 && s[0] != 3 ==> ({
            let kl = bytes::le_value(s.subrange(1, 5)) as int;
            let vl = bytes::le_value(s.subrange(5 + kl, 9 + kl)) as int;
            match read_payload(seq![s[0]] + head + s.skip(1)) {
                Err(e) => read_batch(s, n) == Err::<(Seq<Change>, Seq<u8>), PayloadError>(e),
                Ok(r) => match read_batch(s.skip(9 + kl + vl), (n - 1) as nat) {
                    Err(e) => read_batch(s, n) == Err::<(Seq<Change>, Seq<u8>), PayloadError>(e),
                    Ok((more, rest)) => read_batch(s, n) == Ok::<
                        (Seq<Change>, Seq<u8>),
                        PayloadError,
                    >((r.ops + more, rest)),
                },
            }
        }),
        read_batch(s, n) matches Ok((cs, rest)) ==> cs.len() == n && s[0] != 3,
{
    lemma_batch_count(s, n);
    if s.len() > 0 {
        let p = seq![s[0]] + head + s.skip(1);
        let s0 = p.skip(1);
        let s1 = s0.skip(8);
        let s2 = s1.skip(8);
        assert(s2 =~= s.skip(1));
        assert(p[0] == s[0]);
        let t = s.skip(1);
        if t.len() >= 4 {
            assert(t.take(4) =~= s.subrange(1, 5));
            let kl = bytes::le_value(s.subrange(1, 5)) as int;
            let t1 = t.skip(4);
            if t1.len() >= kl {
                let t2 = t1.skip(kl);
                if t2.len() >= 4 {
                    assert(t2.take(4) =~= s.subrange(5 + kl, 9 + kl));
                    let vl = bytes::le_value(s.subrange(5 + kl, 9 + kl)) as int;
                    let t3 = t2.skip(4);
                    if t3.len() >= vl {
                        assert(t3.skip(vl) =~= s.skip(9 + kl + vl));
                    }
                }
            }
        }
    }
}

proof fn lemma_batch_count(s: Seq<u8>, n: nat)
    ensures
        read_batch(s, n) matches Ok((cs, rest)) ==> cs.len() == n,
    decreases n,
{
    if n > 0 && s.len() > 0 {
        if let Ok((k, v, s2)) = read_body(s.skip(1)) {
            lemma_batch_count(s2, (n - 1) as nat);
        }
    }
}

/// A payload with the batch tag holds a count and that many operations; without the count it
/// fails there.
pub proof fn law_reading_a_batch_payload(p: Seq<u8>)
    requires
        p.len() >= 17,
        p[0] == 3,
    ensures
        p.len() < 21 ==> read_payload(p) == Err::<LogRecord, PayloadError>(PayloadError::Count),
        p.len() >= 21 ==> match read_batch(p.skip(21), bytes::le_value(p.subrange(17, 21))) {
            Err(e) => read_payload(p) == Err::<LogRecord, PayloadError>(e),
            Ok((cs, rest)) => {
                &&& read_payload(p) matches Ok(r)
                &&& r.term == bytes::le_value(p.subrange(1, 9))
                &&& r.index == bytes::le_value(p.subrange(9, 17))
                &&& r.ops == cs
            },
        },
{
    let s0 = p.skip(1);
    let s1 = s0.skip(8);
    let s2 = s1.skip(8);
    assert(s0.take(8) =~= p.subrange(1, 9));
    assert(s1.take(8) =~= p.subrange(9, 17));
    bytes::lemma_le_value_bound(s0.take(8));
    bytes::lemma_le_value_bound(s1.take(8));
    bytes::lemma_pow256_bounds();
    if p.len() >= 21 {
        assert(s2.take(4) =~= p.subrange(17, 21));
        assert(s2.skip(4) =~= p.skip(21));
    }
}

/// A frame is the length of the payload, the payload, and the checksum of the payload.
pub proof fn law_a_frame_carries_length_and_checksum(p: Seq<u8>)
    requires
        p.len() <= u32::MAX,
    ensures
        frame(p).len() == p.len() + 8,
        frame(p).take(4) == bytes::le_bytes(p.len(), 4),
        frame(p).subrange(4, 4 + p.len() as int) == p,
        frame(p).skip(4 + p.len() as int) == bytes::le_bytes(crc::crc_of(p) as nat, 4),
{
    bytes::lemma_le_u32(p.len() as u32);
    bytes::lemma_le_u32(crc::crc_of(p));
    assert(frame(p).take(4) =~= bytes::le_bytes(p.len(), 4));
    assert(frame(p).subrange(4, 4 + p.len() as int) =~= p);
    assert(frame(p).skip(4 + p.len() as int) =~= bytes::le_bytes(crc::crc_of(p) as nat, 4));
}

/// What counts as a record at the front of a segment: a whole frame around a payload that is not
/// too short and can be read. Every such frame is one, and nothing else is.
pub proof fn law_a_record_is_a_whole_frame(s: Seq<u8>, p: Seq<u8>, rest: Seq<u8>)
    requires
        p.len() <= u32::MAX,
    ensures
        first_record(s) matches Some((r, n)) ==> {
            &&& 33 <= n <= s.len()
            &&& s.take(n as int) == frame(s.subrange(4, n - 4))
            &&& read_payload(s.subrange(4, n - 4)) == Ok::<LogRecord, PayloadError>(r)
        },
        p.len() < 25 ==> first_record(frame(p) + rest) is None,
        p.len() >= 25 ==> match read_payload(p) {
            Ok(r) => first_record(frame(p) + rest) == Some((r, p.len() + 8)),
            Err(e) => first_record(frame(p) + rest) is None,
        },
{
    reveal(first_record);
    if first_record(s) is Some {
        let n = bytes::le_value(s.take(4)) as int;
        let q = s.subrange(4, 4 + n);
        let sum = s.subrange(4 + n, 8 + n);
        bytes::lemma_le_digits(s.take(4));
        bytes::lemma_le_digits(sum);
        bytes::lemma_le_value_bound(s.take(4));
        bytes::lemma_pow256_bounds();
        assert(s.take(8 + n) =~= s.take(4) + q + sum);
    }
    law_a_frame_carries_length_and_checksum(p);
    let t = frame(p) + rest;
    let n = p.len() as int;
    bytes::lemma_le_u32(p.len() as u32);
    bytes::lemma_le_u32(crc::crc_of(p));
    assert(t.take(4) =~= frame(p).take(4));
    assert(t.subrange(4, 4 + n) =~= p);
    assert(t.subrange(4 + n, 8 + n) =~= frame(p).skip(4 + n));
}

/// Reading a segment stops at the first thing that is no record, and nowhere else: what was read
/// before it is clean, and if nothing stopped it, the whole segment was.
pub proof fn law_reading_stops_at_the_first_bad_record(s: Seq<u8>, t: Seq<u8>)
    ensures
        scan(seq![]) == (Seq::<LogRecord>::empty(), None::<nat>),
        first_record(s) matches Some((r, n)) ==> n == s.len() ==> scan(s) == (seq![r], None::<nat>),
        s.len() > 0 && scan(s).1 is None ==> first_record(s) is Some,
        scan(s).1 is None && t.len() > 0 && first_record(t) is None ==> scan(s + t) == (
            scan(s).0,
            Some(s.len()),
        ),
        scan(s).1 is None ==> scan(s + t).0 == scan(s).0 + scan(t).0,
        scan(s).1 matches Some(off) ==> off < s.len() && first_record(s.skip(off as int)) is None
            && scan(s.take(off as int)) == (scan(s).0, None::<nat>),
{
    law_repair(s);
    lemma_torn_is_no_record(s);
    if first_record(s) is Some && (first_record(s)->0).1 == s.len() {
        lemma_first_record_extends(s, seq![]);
        assert(s.skip(s.len() as int) =~= seq![]);
        assert(scan(seq![]) == (Seq::<LogRecord>::empty(), None::<nat>));
        assert(seq![(first_record(s)->0).0] + Seq::<LogRecord>::empty() =~= seq![
            (first_record(s)->0).0,
        ]);
    }
    if scan(s).1 is None {
        lemma_scan_append(s, t);
        assert(scan(s).0 + Seq::<LogRecord>::empty() =~= scan(s).0);
    }
}

proof fn lemma_torn_is_no_record(s: Seq<u8>)
    ensures
        scan(s).1 matches Some(off) ==> off < s.len() && first_record(s.skip(off as int)) is None,
    decreases s.len(),
{
    if s.len() > 0 {
        match first_record(s) {
            None => {
                assert(s.skip(0) =~= s);
            },
            Some((r, n)) => {
                lemma_first_record_extends(s, seq![]);
                let rest = s.skip(n as int);
                lemma_torn_is_no_record(rest);
                if scan(rest).1 is Some {
                    let off = scan(rest).1->0;
                    assert(rest.skip(off as int) =~= s.skip((off + n) as int));
                }
            },
        }
    }
}

/// An append that is cut short loses only records that did not reach the file whole: the first
/// `j` survive exactly if their frames fit what was written, and those of the next do not.
pub proof fn law_survivors_are_whole(rs: Seq<LogRecord>, n: int)
    requires
        0 <= n <= frames(rs).len(),
    ensures
        survivors(rs, n) <= rs.len(),
        frames(rs.take(survivors(rs, n) as int)).len() <= n,
        survivors(rs, n) < rs.len() ==> frames(rs.take(survivors(rs, n) as int + 1)).len() > n,
        frames(seq![]).len() == 0,
    decreases rs.len(),
{
    if n < frames(rs).len() && rs.len() > 0 {
        let d = rs.drop_last();
        let j = survivors(rs, n) as int;
        if n <= frames(d).len() {
            law_survivors_are_whole(d, n);
            assert(d.take(j) =~= rs.take(j));
            if j < d.len() {
                assert(d.take(j + 1) =~= rs.take(j + 1));
            } else {
                assert(rs.take(j + 1) =~= rs);
            }
        } else {
            assert(j == d.len());
            assert(rs.take(j) =~= d);
            assert(rs.take(j + 1) =~= rs);
        }
    } else {
        assert(rs.take(rs.len() as int) =~= rs);
    }
}

// ---------------------------------------------------------------------------
// Writing
// ---------------------------------------------------------------------------

/// Append the key and value of an operation.
fn put_body(b: &mut Vec<u8>, op: &Op)
    ensures
        final(b)@ == old(b)@ + body_bytes(op@),
{
    match op {
        Op::Put { key, value } => {
            put_blob(b, key.as_slice());
            put_blob(b, value.as_slice());
        },
        Op::Delete { key } => {
            let none: Vec<u8> = Vec::new();
            put_blob(b, key.as_slice());
            put_blob(b, none.as_slice());
            assert(none@ =~= value_of(op@));
        },
    }
    assert(b@ =~= old(b)@ + body_bytes(op@));
}

/// The tag of an operation.
fn op_tag(op: &Op) -> (r: u8)
    ensures
        r == tag_of(op@),
{
    match op {
        Op::Put { .. } => 1,
        Op::Delete { .. } => 2,
    }
}

/// The payload of a record.
pub fn encode_payload(rec: &Record) -> (r: Vec<u8>)
    ensures
        r@ == payload(rec@),
{
    let ghost cs = rec@.ops;
    let mut b: Vec<u8> = Vec::new();
    if rec.ops.len() == 1 {
        b.push(op_tag(&rec.ops[0]));
        put_u64_le(&mut b, rec.term);
        put_u64_le(&mut b, rec.index);
        assert(b@ =~= head_bytes(tag_of(cs[0]), rec.term, rec.index));
        put_body(&mut b, &rec.ops[0]);
    } else {
        b.push(3);
        put_u64_le(&mut b, rec.term);
        put_u64_le(&mut b, rec.index);
        assert(b@ =~= head_bytes(3, rec.term, rec.index));
        #[verifier::truncate]
        let count: u32 = rec.ops.len() as u32;
        put_u32_le(&mut b, count);
        let ghost head = b@;
        let mut i: usize = 0;
        assert(cs.skip(0) =~= cs);
        while i < rec.ops.len()
            invariant
                i <= rec.ops.len(),
                cs == types::changes(rec.ops@),
                b@ + batch_bytes(cs.skip(i as int)) == head + batch_bytes(cs),
            decreases rec.ops.len() - i,
        {
            let ghost before = b@;
            b.push(op_tag(&rec.ops[i]));
            put_body(&mut b, &rec.ops[i]);
            proof {
                let rest = cs.skip(i as int);
                assert(rest[0] == rec.ops@[i as int]@);
                assert(rest.skip(1) =~= cs.skip(i + 1));
                assert(b@ =~= before + (seq![tag_of(rest[0])] + body_bytes(rest[0])));
                assert(before + batch_bytes(rest) =~= b@ + batch_bytes(cs.skip(i + 1)));
            }
            i = i + 1;
        }
        assert(b@ + batch_bytes(cs.skip(cs.len() as int)) =~= b@);
    }
    b
}

/// Append the frame of a record.
fn put_record(out: &mut Vec<u8>, rec: &Record)
    ensures
        final(out)@ == old(out)@ + frame(payload(rec@)),
{
    let p: Vec<u8> = encode_payload(rec);
    #[verifier::truncate]
    let n: u32 = p.len() as u32;
    put_u32_le(out, n);
    push_all(out, p.as_slice());
    put_u32_le(out, crc32(p.as_slice()));
    assert(out@ =~= old(out)@ + frame(payload(rec@)));
}

/// The frames of several records in one buffer.
pub fn encode_records(recs: &Vec<Record>) -> (r: Vec<u8>)
    ensures
        r@ == frames(records(recs@)),
{
    let ghost rs = records(recs@);
    let mut out: Vec<u8> = Vec::new();
    let mut i: usize = 0;
    assert(rs.take(0) =~= seq![]);
    assert(out@ =~= frames(rs.take(0)));
    while i < recs.len()
        invariant
            i <= recs.len(),
            rs == records(recs@),
            out@ == frames(rs.take(i as int)),
        decreases recs.len() - i,
    {
        put_record(&mut out, &recs[i]);
        assert(rs.take(i + 1).drop_last() =~= rs.take(i as int));
        i = i + 1;
    }
    assert(rs.take(rs.len() as int) =~= rs);
    out
}

// ---------------------------------------------------------------------------
// Reading
// ---------------------------------------------------------------------------

/// Read a key and a value.
fn read_kv(cur: &mut Cursor<'_>) -> (r: Result<(Vec<u8>, Vec<u8>), PayloadError>)
    ensures
        match r {
            Ok((k, v)) => read_body(old(cur)@) == Ok::<
                (Seq<u8>, Seq<u8>, Seq<u8>),
                PayloadError,
            >((k@, v@, final(cur)@)),
            Err(e) => read_body(old(cur)@) == Err::<(Seq<u8>, Seq<u8>, Seq<u8>), PayloadError>(e),
        },
{
    let kl: u32 = match cur.u32() {
        None => {
            return Err(PayloadError::KeyLen);
        },
        Some(n) => n,
    };
    let k: Vec<u8> = match cur.slice(kl as usize) {
        None => {
            return Err(PayloadError::KeyBody);
        },
        Some(b) => bytes::copy_bytes(b),
    };
    let vl: u32 = match cur.u32() {
        None => {
            return Err(PayloadError::ValueLen);
        },
        Some(n) => n,
    };
    match cur.slice(vl as usize) {
        None => Err(PayloadError::ValueBody),
        Some(b) => Ok((k, bytes::copy_bytes(b))),
    }
}

/// The operation with this tag.
fn make_op(tag: u8, key: Vec<u8>, value: Vec<u8>) -> (r: Option<Op>)
    ensures
        match r {
            Some(op) => op_of(tag, key@, value@) == Some(op@),
            None => op_of(tag, key@, value@) is None,
        },
{
    if tag == 1 {
        Some(Op::Put { key, value })
    } else if tag == 2 {
        Some(Op::Delete { key })
    } else {
        None
    }
}

/// The result of reading a batch with `front` read before it.
spec fn after_front(
    front: Seq<Change>,
    r: Result<(Seq<Change>, Seq<u8>), PayloadError>,
) -> Result<(Seq<Change>, Seq<u8>), PayloadError> {
    match r {
        Err(e) => Err(e),
        Ok((more, rest)) => Ok((front + more, rest)),
    }
}

/// Read `n` operations of a batch.
fn read_many(cur: &mut Cursor<'_>, n: u32) -> (r: Result<Vec<Op>, PayloadError>)
    ensures
        match r {
            Ok(ops) => read_batch(old(cur)@, n as nat) matches Ok((cs, rest)) && cs
                == types::changes(ops@),
            Err(e) => read_batch(old(cur)@, n as nat) == Err::<
                (Seq<Change>, Seq<u8>),
                PayloadError,
            >(e),
        },
{
    let ghost start = cur@;
    let mut ops: Vec<Op> = Vec::new();
    let mut i: u32 = 0;
    proof {
        assert(types::changes(ops@) =~= seq![]);
        match read_batch(start, n as nat) {
            Err(e) => {},
            Ok((more, rest)) => {
                assert(Seq::<Change>::empty() + more =~= more);
            },
        }
    }
    while i < n
        invariant
            i <= n,
            start == old(cur)@,
            read_batch(start, n as nat) == after_front(
                types::changes(ops@),
                read_batch(cur@, (n - i) as nat),
            ),
        decreases n - i,
    {
        let tag: u8 = match cur.u8() {
            None => {
                return Err(PayloadError::Empty);
            },
            Some(t) => t,
        };
        let (k, v) = match read_kv(cur) {
            Err(e) => {
                return Err(e);
            },
            Ok(kv) => kv,
        };
        let op: Op = match make_op(tag, k, v) {
            None => {
                return Err(PayloadError::BadTag);
            },
            Some(op) => op,
        };
        let ghost front = types::changes(ops@);
        let ghost c = op@;
        ops.push(op);
        proof {
            assert(types::changes(ops@) =~= front.push(c));
            match read_batch(cur@, (n - i - 1) as nat) {
                Err(e) => {},
                Ok((more, rest)) => {
                    assert(front + (seq![c] + more) =~= front.push(c) + more);
                },
            }
        }
        i = i + 1;
    }
    assert(types::changes(ops@) + Seq::<Change>::empty() =~= types::changes(ops@));
    Ok(ops)
}

/// The record of a payload; on failure, which field is missing or wrong.
pub fn decode_payload(b: &[u8]) -> (r: Result<Record, PayloadError>)
    ensures
        match r {
            Ok(rec) => read_payload(b@) == Ok::<LogRecord, PayloadError>(rec@),
            Err(e) => read_payload(b@) == Err::<LogRecord, PayloadError>(e),
        },
{
    let mut cur = Cursor::new(b);
    let tag: u8 = match cur.u8() {
        None => {
            return Err(PayloadError::Empty);
        },
        Some(t) => t,
    };
    let term: u64 = match cur.u64() {
        None => {
            return Err(PayloadError::Term);
        },
        Some(v) => v,
    };
    let index: u64 = match cur.u64() {
        None => {
            return Err(PayloadError::Index);
        },
        Some(v) => v,
    };
    if tag == 3 {
        let n: u32 = match cur.u32() {
            None => {
                return Err(PayloadError::Count);
            },
            Some(n) => n,
        };
        match read_many(&mut cur, n) {
            Err(e) => Err(e),
            Ok(ops) => Ok(Record { term, index, ops }),
        }
    } else {
        let (k, v) = match read_kv(&mut cur) {
            Err(e) => {
                return Err(e);
            },
            Ok(kv) => kv,
        };
        match make_op(tag, k, v) {
            None => Err(PayloadError::BadTag),
            Some(op) => {
                let ops: Vec<Op> = vec![op];
                assert(types::changes(ops@) =~= seq![op@]);
                Ok(Record { term, index, ops })
            },
        }
    }
}

/// The intact record at `pos`, and where the next one starts.
fn record_at(data: &[u8], pos: usize) -> (r: Option<(Record, usize)>)
    requires
        pos <= data.len(),
    ensures
        match r {
            Some((rec, next)) => first_record(data@.skip(pos as int)) == Some(
                (rec@, (next - pos) as nat),
            ) && pos < next <= data.len(),
            None => first_record(data@.skip(pos as int)) is None,
        },
{
    reveal(first_record);
    let ghost s = data@.skip(pos as int);
    let left: usize = data.len() - pos;
    if left < 4 {
        return None;
    }
    let n: u32 = get_u32_le(data, pos);
    assert(data@.subrange(pos as int, pos + 4) =~= s.take(4));
    if n < MIN_PAYLOAD || left < 8 || n as u64 > (left - 8) as u64 {
        return None;
    }
    let from: usize = pos + 4;
    let to: usize = from + n as usize;
    let p: &[u8] = vstd::slice::slice_subrange(data, from, to);
    proof {
        assert(p@ =~= s.subrange(4, 4 + n as int));
        assert(data@.subrange(to as int, to + 4) =~= s.subrange(4 + n as int, 8 + n as int));
    }
    if crc32(p) != get_u32_le(data, to) {
        return None;
    }
    match decode_payload(p) {
        Ok(rec) => Some((rec, to + 4)),
        Err(_) => None,
    }
}

/// Read one segment: its intact records in order, and the offset of the first torn or damaged
/// one; `None` if the segment ends cleanly. Every read is bounded, so a truncated segment
/// yields an offset, not a panic.
pub fn scan_segment(data: &[u8]) -> (r: (Vec<Record>, Option<u64>))
    ensures
        records(r.0@) == scan(data@).0,
        match r.1 {
            Some(off) => scan(data@).1 == Some(off as nat) && off < data.len(),
            None => scan(data@).1 is None,
        },
{
    let ghost whole = scan(data@);
    let mut recs: Vec<Record> = Vec::new();
    let mut pos: usize = 0;
    proof {
        assert(data@.skip(0) =~= data@);
        assert(records(recs@) + whole.0 =~= whole.0);
    }
    while pos < data.len()
        invariant
            pos <= data.len(),
            whole == scan(data@),
            whole.0 == records(recs@) + scan(data@.skip(pos as int)).0,
            whole.1 == (match scan(data@.skip(pos as int)).1 {
                None => None,
                Some(off) => Some(off + pos as nat),
            }),
        decreases data.len() - pos,
    {
        let ghost s = data@.skip(pos as int);
        match record_at(data, pos) {
            None => {
                assert(records(recs@) + Seq::<LogRecord>::empty() =~= records(recs@));
                return (recs, Some(pos as u64));
            },
            Some((rec, next)) => {
                let ghost before = records(recs@);
                let ghost one = rec@;
                recs.push(rec);
                proof {
                    assert(records(recs@) =~= before.push(one));
                    assert(s.skip(next - pos) =~= data@.skip(next as int));
                    let more = scan(data@.skip(next as int)).0;
                    assert(before + (seq![one] + more) =~= before.push(one) + more);
                }
                pos = next;
            },
        }
    }
    proof {
        assert(data@.skip(pos as int) =~= seq![]);
        assert(records(recs@) + Seq::<LogRecord>::empty() =~= records(recs@));
    }
    (recs, None)
}

} // verus!
