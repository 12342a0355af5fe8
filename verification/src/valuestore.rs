//! Off-heap value storage: an append-only log of blobs, and small handles to them.
//!
//! Reads are random: the id of a handle is resolved through an index that is rebuilt from the
//! log at open, and only the bytes of that record are read. Compaction rewrites the log with the
//! live blobs alone. Ids are stable across compaction, so a handle stays valid even though the
//! offset it recorded goes stale.
//!
//! A record is `[id: 8][len: 8][payload][crc32 of all before: 4]`, big-endian. The id of a
//! handle is never used again: where a compaction drops the highest id, the rewritten log ends in
//! a mark, a record of the reserved id `u64::MAX` whose eight-byte payload is the next id.

use crate::assoc;
use crate::bytes;
use crate::bytes::{copy_bytes, get_u32_be, get_u64_be, push_all, put_u32_be, put_u64_be};
use crate::crc;
use crate::crc::Crc;
use crate::dir;
use crate::dir::{FileAction, Step};
use std::collections::{BTreeMap, BTreeSet};
use vstd::prelude::*;

verus! {

broadcast use {vstd::std_specs::btree::group_btree_axioms, vstd::laws_cmp::group_laws_cmp};

/// A blob id.
pub type BlobId = u64;

/// A handle to a blob: its id, the offset it was written at, and its length. Only the id, and the
/// length as a check, identify the blob.
#[derive(Clone, Copy, Debug, PartialEq, Eq, PartialOrd, Ord, Hash, Default)]
pub struct BlobRef {
    pub id: BlobId,
    pub offset: u64,
    pub len: u64,
}

/// Bytes of a record before its payload.
pub const REC_HDR: usize = 16;

/// Bytes of a record after its payload.
pub const REC_TRAIL: usize = 4;

/// A blob: its id and its payload.
pub type Blob = (u64, Seq<u8>);

/// Where a blob lies: offset and length.
pub type Extent = (u64, u64);

// ---------------------------------------------------------------------------
// The log
// ---------------------------------------------------------------------------

/// The header of a record.
pub open spec fn header(id: u64, len: nat) -> Seq<u8> {
    bytes::be_bytes(id as nat, 8) + bytes::be_bytes(len, 8)
}

/// A record.
pub open spec fn record(b: Blob) -> Seq<u8> {
    let front = header(b.0, b.1.len()) + b.1;
    front + bytes::be_bytes(crc::crc_of(front) as nat, 4)
}

/// The records of several blobs, one after another.
pub open spec fn log_bytes(bs: Seq<Blob>) -> Seq<u8>
    decreases bs.len(),
{
    if bs.len() == 0 {
        seq![]
    } else {
        log_bytes(bs.drop_last()) + record(bs.last())
    }
}

/// The record that keeps ids below `next` from being used again.
pub open spec fn mark(next: u64) -> Blob {
    (u64::MAX, bytes::be_bytes(next as nat, 8))
}

/// Whether a record is a mark, and no blob.
pub open spec fn is_mark(b: Blob) -> bool {
    b.0 == u64::MAX && b.1.len() == 8
}

/// The payload of the record of `id` with length `len` at the front of `s`; nothing if it is
/// torn, damaged, or another record.
pub open spec fn read_payload(s: Seq<u8>, id: u64, len: nat) -> Option<Seq<u8>> {
    if s.len() < 20 + len {
        None
    } else if bytes::be_value(s.take(8)) != id || bytes::be_value(s.subrange(8, 16)) != len {
        None
    } else if bytes::be_value(s.subrange(16 + len as int, 20 + len as int)) != crc::crc_of(
        s.take(16 + len as int),
    ) {
        None
    } else {
        Some(s.subrange(16, 16 + len as int))
    }
}

/// The intact record at the front of `s` and the bytes it takes.
#[verifier::opaque]
pub open spec fn first_blob(s: Seq<u8>) -> Option<(Blob, nat)> {
    if s.len() < 20 {
        None
    } else {
        let id = bytes::be_value(s.take(8)) as u64;
        let len = bytes::be_value(s.subrange(8, 16));
        match read_payload(s, id, len) {
            Some(p) => Some(((id, p), 20 + len)),
            None => None,
        }
    }
}

/// The intact records of a log, blobs and marks, and the offset where they end.
pub open spec fn scan(s: Seq<u8>) -> (Seq<Blob>, nat)
    decreases s.len(),
{
    match first_blob(s) {
        None => (seq![], 0),
        Some((b, n)) => {
            proof {
                reveal(first_blob);
            }
            let (more, end) = scan(s.skip(n as int));
            (seq![b] + more, n + end)
        },
    }
}

/// The bytes that the records of several blobs take.
pub open spec fn total(bs: Seq<Blob>) -> nat
    decreases bs.len(),
{
    if bs.len() == 0 {
        0
    } else {
        total(bs.drop_last()) + 20 + bs.last().1.len()
    }
}

/// Where each blob lies; the later of two records of one id counts.
pub open spec fn index_of(bs: Seq<Blob>) -> Map<u64, Extent>
    decreases bs.len(),
{
    if bs.len() == 0 {
        Map::empty()
    } else {
        let front = index_of(bs.drop_last());
        if is_mark(bs.last()) {
            front
        } else {
            front.insert(
                bs.last().0,
                (total(bs.drop_last()) as u64, bs.last().1.len() as u64),
            )
        }
    }
}

/// The least next id that a record allows: one above the id of a blob, or what a mark says.
pub open spec fn next_after(b: Blob) -> nat {
    if is_mark(b) {
        bytes::be_value(b.1)
    } else {
        (b.0 + 1) as nat
    }
}

/// The next id: one above the highest id in the log and not below any mark, 0 if there is
/// neither.
pub open spec fn next_of(bs: Seq<Blob>) -> nat
    decreases bs.len(),
{
    if bs.len() == 0 {
        0
    } else {
        let front = next_of(bs.drop_last());
        if next_after(bs.last()) > front {
            next_after(bs.last())
        } else {
            front
        }
    }
}

/// The blobs whose ids are live.
pub open spec fn live_only(bs: Seq<Blob>, live: Set<u64>) -> Seq<Blob>
    decreases bs.len(),
{
    if bs.len() == 0 {
        seq![]
    } else {
        let front = live_only(bs.drop_last(), live);
        if live.contains(bs.last().0) && !is_mark(bs.last()) {
            front.push(bs.last())
        } else {
            front
        }
    }
}

/// The log that a compaction writes: the live blobs, and a mark where they alone would let an id
/// below `next` be used again.
pub open spec fn rewritten(bs: Seq<Blob>, live: Set<u64>, next: u64) -> Seq<Blob> {
    let kept = live_only(bs, live);
    if next_of(kept) < next {
        kept.push(mark(next))
    } else {
        kept
    }
}

/// The payload that a handle reads: nothing if its id is unknown, its length disagrees with the
/// index, or the record is damaged.
pub open spec fn fetched(index: Map<u64, Extent>, log: Seq<u8>, r: BlobRef) -> Option<Seq<u8>> {
    if !index.contains_key(r.id) || index[r.id].1 != r.len || index[r.id].0 > log.len() {
        None
    } else {
        read_payload(log.skip(index[r.id].0 as int), r.id, r.len as nat)
    }
}

// ---------------------------------------------------------------------------
// Reading back what was written
// ---------------------------------------------------------------------------

proof fn lemma_record(b: Blob, rest: Seq<u8>)
    requires
        b.1.len() <= u64::MAX,
    ensures
        record(b).len() == 20 + b.1.len(),
        read_payload(record(b) + rest, b.0, b.1.len()) == Some(b.1),
        first_blob(record(b) + rest) == Some((b, record(b).len())),
{
    reveal(first_blob);
    let n = b.1.len() as int;
    let front = header(b.0, b.1.len()) + b.1;
    let s = record(b) + rest;
    bytes::lemma_be_u64(b.0);
    bytes::lemma_be_u64(b.1.len() as u64);
    bytes::lemma_be_u32(crc::crc_of(front));
    assert(s.take(8) =~= bytes::be_bytes(b.0 as nat, 8));
    assert(s.subrange(8, 16) =~= bytes::be_bytes(b.1.len(), 8));
    assert(s.take(16 + n) =~= front);
    assert(s.subrange(16, 16 + n) =~= b.1);
    assert(s.subrange(16 + n, 20 + n) =~= bytes::be_bytes(crc::crc_of(front) as nat, 4));
}

/// A record that is cut short is no record.
proof fn lemma_torn_record(b: Blob, n: int)
    requires
        b.1.len() <= u64::MAX,
        0 <= n < record(b).len(),
    ensures
        first_blob(record(b).take(n)) is None,
{
    reveal(first_blob);
    lemma_record(b, seq![]);
    bytes::lemma_be_u64(b.0);
    bytes::lemma_be_u64(b.1.len() as u64);
    let s = record(b).take(n);
    if n >= 20 {
        assert(s.subrange(8, 16) =~= bytes::be_bytes(b.1.len(), 8));
    }
}

proof fn lemma_first_extends(s: Seq<u8>, t: Seq<u8>)
    requires
        first_blob(s) is Some,
    ensures
        first_blob(s + t) == first_blob(s),
        20 <= (first_blob(s)->0).1 <= s.len(),
        (first_blob(s)->0).1 == 20 + ((first_blob(s)->0).0).1.len(),
        first_blob(s.take((first_blob(s)->0).1 as int)) == first_blob(s),
{
    reveal(first_blob);
    let n = bytes::be_value(s.subrange(8, 16)) as int;
    let u = s + t;
    assert(u.take(8) =~= s.take(8));
    assert(u.subrange(8, 16) =~= s.subrange(8, 16));
    assert(u.take(16 + n) =~= s.take(16 + n));
    assert(u.subrange(16, 16 + n) =~= s.subrange(16, 16 + n));
    assert(u.subrange(16 + n, 20 + n) =~= s.subrange(16 + n, 20 + n));
    let w = s.take(20 + n);
    assert(w.take(8) =~= s.take(8));
    assert(w.subrange(8, 16) =~= s.subrange(8, 16));
    assert(w.take(16 + n) =~= s.take(16 + n));
    assert(w.subrange(16, 16 + n) =~= s.subrange(16, 16 + n));
    assert(w.subrange(16 + n, 20 + n) =~= s.subrange(16 + n, 20 + n));
}

/// After a log that ends cleanly, reading goes on with what is appended.
proof fn lemma_scan_append(s: Seq<u8>, t: Seq<u8>)
    requires
        scan(s).1 == s.len(),
    ensures
        scan(s + t) == (scan(s).0 + scan(t).0, s.len() + scan(t).1),
    decreases s.len(),
{
    if s.len() == 0 {
        assert(first_blob(s) is None) by {
            reveal(first_blob);
        }
        assert(s + t =~= t);
        assert(scan(s).0 + scan(t).0 =~= scan(t).0);
    } else {
        let (b, n) = first_blob(s)->0;
        assert(first_blob(s) is Some);
        lemma_first_extends(s, t);
        let rest = s.skip(n as int);
        lemma_scan_append(rest, t);
        assert((s + t).skip(n as int) =~= rest + t);
        assert(scan(s + t).0 =~= scan(s).0 + scan(t).0);
    }
}

/// A log reads back as the blobs it was written from.
pub proof fn law_log_roundtrip(bs: Seq<Blob>)
    requires
        forall|i: int| 0 <= i < bs.len() ==> (#[trigger] bs[i]).1.len() <= u64::MAX,
    ensures
        scan(log_bytes(bs)) == (bs, log_bytes(bs).len()),
        log_bytes(bs).len() == total(bs),
    decreases bs.len(),
{
    if bs.len() == 0 {
        assert(first_blob(log_bytes(bs)) is None) by {
            reveal(first_blob);
        }
        assert(bs =~= seq![]);
    } else {
        let front = bs.drop_last();
        assert forall|i: int| 0 <= i < front.len() implies (#[trigger] front[i]).1.len()
            <= u64::MAX by {
            assert(front[i] == bs[i]);
        }
        law_log_roundtrip(front);
        let b = bs.last();
        assert(bs[bs.len() - 1].1.len() <= u64::MAX);
        let r = record(b);
        lemma_record(b, seq![]);
        assert(r + Seq::<u8>::empty() =~= r);
        assert(r.skip(r.len() as int) =~= seq![]);
        assert(first_blob(seq![]) is None) by {
            reveal(first_blob);
        }
        assert(scan(r.skip(r.len() as int)) == (Seq::<Blob>::empty(), 0nat));
        assert(scan(r) == (seq![b] + Seq::<Blob>::empty(), r.len()));
        lemma_scan_append(log_bytes(front), r);
        assert(front + (seq![b] + Seq::<Blob>::empty()) =~= bs);
    }
}

/// A record that a crash cut short is dropped, and every blob before it is kept.
pub proof fn law_a_torn_append_is_dropped(bs: Seq<Blob>, b: Blob, n: int)
    requires
        forall|i: int| 0 <= i < bs.len() ==> (#[trigger] bs[i]).1.len() <= u64::MAX,
        b.1.len() <= u64::MAX,
        0 <= n < record(b).len(),
    ensures
        scan(log_bytes(bs) + record(b).take(n)) == (bs, log_bytes(bs).len()),
{
    law_log_roundtrip(bs);
    lemma_torn_record(b, n);
    lemma_scan_append(log_bytes(bs), record(b).take(n));
    assert(bs + Seq::<Blob>::empty() =~= bs);
}

/// The intact part of a log is a log of its own, with the same blobs.
pub proof fn law_cutting_the_torn_tail(s: Seq<u8>)
    ensures
        scan(s).1 <= s.len(),
        scan(s.take(scan(s).1 as int)) == scan(s),
        total(scan(s).0) == scan(s).1,
    decreases s.len(),
{
    match first_blob(s) {
        None => {
            assert(s.take(0) =~= seq![]);
            assert(first_blob(seq![]) is None) by {
                reveal(first_blob);
            }
        },
        Some((b, n)) => {
            lemma_first_extends(s, seq![]);
            let rest = s.skip(n as int);
            law_cutting_the_torn_tail(rest);
            let end = scan(s).1;
            let c = s.take(end as int);
            assert(s.take(n as int) + c.skip(n as int) =~= c);
            lemma_first_extends(s.take(n as int), c.skip(n as int));
            assert(c.skip(n as int) =~= rest.take(scan(rest).1 as int));
            lemma_total_front(b, scan(rest).0);
        },
    }
}

proof fn lemma_total_front(b: Blob, bs: Seq<Blob>)
    ensures
        total(seq![b] + bs) == 20 + b.1.len() + total(bs),
    decreases bs.len(),
{
    let all = seq![b] + bs;
    if bs.len() == 0 {
        assert(all.drop_last() =~= seq![]);
        reveal_with_fuel(total, 2);
    } else {
        lemma_total_front(b, bs.drop_last());
        assert(all.drop_last() =~= seq![b] + bs.drop_last());
    }
}

/// The ids of blobs increase along the log.
pub open spec fn increasing(bs: Seq<Blob>) -> bool {
    forall|i: int, j: int|
        0 <= i < j < bs.len() && !is_mark(#[trigger] bs[i]) && !is_mark(#[trigger] bs[j])
            ==> bs[i].0 < bs[j].0
}

/// Every length fits its field.
pub open spec fn encodable(bs: Seq<Blob>) -> bool {
    forall|i: int| 0 <= i < bs.len() ==> (#[trigger] bs[i]).1.len() <= u64::MAX
}

/// In a log with increasing ids, every blob is found where the index says.
pub proof fn law_every_blob_is_found(bs: Seq<Blob>, i: int, offset: u64)
    requires
        increasing(bs),
        encodable(bs),
        total(bs) <= u64::MAX,
        0 <= i < bs.len(),
        !is_mark(bs[i]),
    ensures
        fetched(
            index_of(bs),
            log_bytes(bs),
            (BlobRef { id: bs[i].0, offset, len: bs[i].1.len() as u64 }),
        ) == Some(bs[i].1),
    decreases bs.len(),
{
    lemma_found_in(bs, i, seq![]);
    assert(log_bytes(bs) + Seq::<u8>::empty() =~= log_bytes(bs));
}

proof fn lemma_found_in(bs: Seq<Blob>, i: int, rest: Seq<u8>)
    requires
        increasing(bs),
        encodable(bs),
        total(bs) <= u64::MAX,
        0 <= i < bs.len(),
        !is_mark(bs[i]),
    ensures
        index_of(bs).contains_key(bs[i].0),
        index_of(bs)[bs[i].0].1 == bs[i].1.len(),
        index_of(bs)[bs[i].0].0 <= log_bytes(bs).len(),
        read_payload(
            (log_bytes(bs) + rest).skip(index_of(bs)[bs[i].0].0 as int),
            bs[i].0,
            bs[i].1.len(),
        ) == Some(bs[i].1),
    decreases bs.len(),
{
    let front = bs.drop_last();
    let b = bs.last();
    assert(bs[bs.len() - 1].1.len() <= u64::MAX);
    assert(encodable(front)) by {
        assert forall|j: int| 0 <= j < front.len() implies (#[trigger] front[j]).1.len()
            <= u64::MAX by {
            assert(front[j] == bs[j]);
        }
    }
    law_log_roundtrip(front);
    law_log_roundtrip(bs);
    if i == bs.len() - 1 {
        lemma_record(b, rest);
        assert((log_bytes(bs) + rest).skip(total(front) as int) =~= record(b) + rest);
    } else {
        assert(increasing(front)) by {
            assert forall|x: int, y: int|
                0 <= x < y < front.len() && !is_mark(#[trigger] front[x]) && !is_mark(
                    #[trigger] front[y],
                ) implies front[x].0 < front[y].0 by {
                assert(bs[x] == front[x] && bs[y] == front[y]);
            }
        }
        assert(bs[bs.len() - 1] == b);
        lemma_found_in(front, i, record(b) + rest);
        assert(log_bytes(bs) + rest =~= log_bytes(front) + (record(b) + rest));
        assert(front[i] == bs[i]);
    }
}

/// What compaction keeps: the live blobs with their ids, in order.
pub proof fn lemma_live_only(bs: Seq<Blob>, live: Set<u64>)
    requires
        increasing(bs),
    ensures
        increasing(live_only(bs, live)),
        live_only(bs, live).len() <= bs.len(),
        forall|i: int|
            0 <= i < live_only(bs, live).len() ==> bs.contains(#[trigger] live_only(bs, live)[i])
                && live.contains(live_only(bs, live)[i].0) && !is_mark(live_only(bs, live)[i]),
        forall|i: int|
            0 <= i < bs.len() && live.contains((#[trigger] bs[i]).0) && !is_mark(bs[i])
                ==> live_only(bs, live).contains(bs[i]),
    decreases bs.len(),
{
    if bs.len() > 0 {
        let front = bs.drop_last();
        let b = bs.last();
        assert(increasing(front)) by {
            assert forall|x: int, y: int|
                0 <= x < y < front.len() && !is_mark(#[trigger] front[x]) && !is_mark(
                    #[trigger] front[y],
                ) implies front[x].0 < front[y].0 by {
                assert(bs[x] == front[x] && bs[y] == front[y]);
            }
        }
        lemma_live_only(front, live);
        let f = live_only(front, live);
        let r = live_only(bs, live);
        assert forall|i: int| 0 <= i < f.len() implies bs.contains(#[trigger] f[i]) && (is_mark(b)
            || f[i].0 < b.0) by {
            assert(front.contains(f[i]));
            let j = choose|j: int| 0 <= j < front.len() && front[j] == f[i];
            assert(bs[j] == f[i]);
            assert(bs[bs.len() - 1] == b);
        }
        assert(bs.contains(bs[bs.len() - 1]));
        assert forall|i: int| 0 <= i < r.len() implies bs.contains(#[trigger] r[i])
            && live.contains(r[i].0) && !is_mark(r[i]) by {
            if i < f.len() {
                assert(r[i] == f[i]);
            }
        }
        assert forall|i: int|
            0 <= i < bs.len() && live.contains((#[trigger] bs[i]).0) && !is_mark(
                bs[i],
            ) implies r.contains(bs[i]) by {
            if i < front.len() {
                assert(front[i] == bs[i]);
                assert(f.contains(front[i]));
                let j = choose|j: int| 0 <= j < f.len() && f[j] == front[i];
                assert(r[j] == bs[i]);
            } else {
                assert(r[r.len() - 1] == bs[i]);
            }
        }
    }
}

proof fn lemma_index_keys(bs: Seq<Blob>, id: u64)
    ensures
        index_of(bs).contains_key(id) <==> exists|i: int|
            0 <= i < bs.len() && (#[trigger] bs[i]).0 == id && !is_mark(bs[i]),
    decreases bs.len(),
{
    if bs.len() > 0 {
        let front = bs.drop_last();
        lemma_index_keys(front, id);
        if index_of(front).contains_key(id) {
            let i = choose|i: int|
                0 <= i < front.len() && (#[trigger] front[i]).0 == id && !is_mark(front[i]);
            assert(bs[i].0 == id && !is_mark(bs[i]));
        }
        if bs.last().0 == id {
            assert(bs[bs.len() - 1].0 == id);
        }
        if exists|i: int| 0 <= i < bs.len() && (#[trigger] bs[i]).0 == id && !is_mark(bs[i]) {
            let i = choose|i: int|
                0 <= i < bs.len() && (#[trigger] bs[i]).0 == id && !is_mark(bs[i]);
            if i < front.len() {
                assert(front[i].0 == id && !is_mark(front[i]));
            }
        }
    }
}

proof fn lemma_live_total(bs: Seq<Blob>, live: Set<u64>)
    ensures
        total(live_only(bs, live)) <= total(bs),
    decreases bs.len(),
{
    if bs.len() > 0 {
        lemma_live_total(bs.drop_last(), live);
        let f = live_only(bs.drop_last(), live);
        assert(f.push(bs.last()).drop_last() =~= f);
    }
}

/// A mark at the end changes neither what is in the log nor where it lies.
proof fn lemma_marked(kept: Seq<Blob>, next: u64)
    requires
        encodable(kept),
        increasing(kept),
    ensures
        is_mark(mark(next)),
        next_after(mark(next)) == next,
        encodable(kept.push(mark(next))),
        increasing(kept.push(mark(next))),
        index_of(kept.push(mark(next))) == index_of(kept),
        total(kept.push(mark(next))) == total(kept) + 28,
{
    bytes::lemma_be_u64(next);
    let all = kept.push(mark(next));
    assert(all.drop_last() =~= kept);
    assert forall|i: int| 0 <= i < all.len() implies (#[trigger] all[i]).1.len() <= u64::MAX by {
        if i < kept.len() {
            assert(all[i] == kept[i]);
        }
    }
    assert forall|x: int, y: int|
        0 <= x < y < all.len() && !is_mark(#[trigger] all[x]) && !is_mark(
            #[trigger] all[y],
        ) implies all[x].0 < all[y].0 by {
        assert(all[x] == kept[x] && all[y] == kept[y]);
    }
}

/// A handle to a live blob reads the same payload after a compaction; a handle to any other
/// blob reads as absent.
pub proof fn law_compaction_keeps_handles_valid(
    bs: Seq<Blob>,
    live: Set<u64>,
    next: u64,
    i: int,
    offset: u64,
)
    requires
        increasing(bs),
        encodable(bs),
        total(bs) + 28 <= u64::MAX,
        0 <= i < bs.len(),
        !is_mark(bs[i]),
    ensures
        ({
            let new = rewritten(bs, live, next);
            let r = BlobRef { id: bs[i].0, offset, len: bs[i].1.len() as u64 };
            fetched(index_of(new), log_bytes(new), r) == (if live.contains(bs[i].0) {
                fetched(index_of(bs), log_bytes(bs), r)
            } else {
                None
            })
        }),
{
    let kept = live_only(bs, live);
    let new = rewritten(bs, live, next);
    lemma_live_only(bs, live);
    lemma_live_total(bs, live);
    lemma_live_lengths(bs, live);
    lemma_marked(kept, next);
    law_every_blob_is_found(bs, i, offset);
    if live.contains(bs[i].0) {
        assert(kept.contains(bs[i]));
        let j = choose|j: int| 0 <= j < kept.len() && kept[j] == bs[i];
        assert(new[j] == bs[i]);
        law_every_blob_is_found(new, j, offset);
    } else {
        lemma_index_keys(kept, bs[i].0);
        if index_of(kept).contains_key(bs[i].0) {
            let j = choose|j: int|
                0 <= j < kept.len() && (#[trigger] kept[j]).0 == bs[i].0 && !is_mark(kept[j]);
            assert(live.contains(kept[j].0));
        }
    }
}

/// Ids outlive a compaction: a store that is opened on the rewritten log goes on with the id that
/// was next before, whichever blobs were dropped. No live id is at or above the next one.
pub proof fn law_compaction_keeps_the_next_id(bs: Seq<Blob>, live: Set<u64>, next: u64)
    requires
        encodable(bs),
        next_of(live_only(bs, live)) <= next,
    ensures
        ({
            let new = rewritten(bs, live, next);
            &&& scan(log_bytes(new)) == (new, log_bytes(new).len())
            &&& state_of(scan(log_bytes(new)).0).next == next
        }),
{
    let kept = live_only(bs, live);
    let new = rewritten(bs, live, next);
    lemma_rewritten(bs, live, next);
    bytes::lemma_be_u64(next);
    if next_of(kept) < next {
        assert(new.drop_last() =~= kept);
    }
    law_log_roundtrip(new);
}

/// A handle to a dropped blob stays absent, whatever is put into the store afterwards.
pub proof fn law_a_dropped_blob_stays_absent(
    bs: Seq<Blob>,
    live: Set<u64>,
    next: u64,
    more: Seq<Blob>,
    r: BlobRef,
    log: Seq<u8>,
)
    requires
        increasing(bs),
        r.id < next,
        !live.contains(r.id),
        forall|i: int| 0 <= i < more.len() ==> (#[trigger] more[i]).0 >= next,
    ensures
        fetched(index_of(rewritten(bs, live, next) + more), log, r) is None,
{
    let kept = live_only(bs, live);
    let new = rewritten(bs, live, next);
    let all = new + more;
    lemma_live_only(bs, live);
    bytes::lemma_be_u64(next);
    lemma_index_keys(all, r.id);
    if index_of(all).contains_key(r.id) {
        let i = choose|i: int| 0 <= i < all.len() && (#[trigger] all[i]).0 == r.id && !is_mark(all[i]);
        if i < kept.len() {
            assert(all[i] == kept[i]);
            assert(live.contains(kept[i].0));
        } else if i < new.len() {
            assert(all[i] == mark(next));
        } else {
            assert(all[i] == more[i - new.len()]);
        }
    }
}

// ---------------------------------------------------------------------------
// The store
// ---------------------------------------------------------------------------

/// The file name of the log, below the root of the store: `values/blobs`.
pub open spec fn log_name() -> Seq<u8> {
    seq![118u8, 97, 108, 117, 101, 115, 47, 98, 108, 111, 98, 115]
}

/// The file name of a log that is still being rewritten: `values/blobs.tmp`.
pub open spec fn temp_name() -> Seq<u8> {
    seq![118u8, 97, 108, 117, 101, 115, 47, 98, 108, 111, 98, 115, 46, 116, 109, 112]
}

/// The file name `values/blobs`.
pub fn log_file() -> (r: Vec<u8>)
    ensures
        r@ == log_name(),
{
    let r: Vec<u8> = vec![118, 97, 108, 117, 101, 115, 47, 98, 108, 111, 98, 115];
    assert(r@ =~= log_name());
    r
}

/// The file name `values/blobs.tmp`.
pub fn temp_file() -> (r: Vec<u8>)
    ensures
        r@ == temp_name(),
{
    let r: Vec<u8> = vec![
        118,
        97,
        108,
        117,
        101,
        115,
        47,
        98,
        108,
        111,
        98,
        115,
        46,
        116,
        109,
        112,
    ];
    assert(r@ =~= temp_name());
    r
}

/// A log whose highest id leaves no id for the next blob.
#[derive(Debug, Clone, Copy, PartialEq, Eq, Structural)]
pub struct IdsExhausted;

/// A rewritten log, and where its blobs lie.
#[derive(Debug)]
pub struct Compaction {
    data: Vec<u8>,
    index: BTreeMap<u64, Extent>,
}

/// What a value store holds.
#[verifier::ext_equal]
pub struct BlobState {
    /// The next id.
    pub next: nat,
    /// Where the log ends.
    pub end: nat,
    /// Where each blob lies.
    pub index: Map<u64, Extent>,
    /// Whether an append failed, and may have left something behind the end of the log.
    pub torn: bool,
}

/// The state that a log stands for.
pub open spec fn state_of(bs: Seq<Blob>) -> BlobState {
    BlobState { next: next_of(bs), end: total(bs), index: index_of(bs), torn: false }
}

/// The steps that append a blob under the next id: after an append that failed, the log is first
/// cut to where it ends.
pub open spec fn put_steps(s: BlobState, value: Seq<u8>) -> Seq<Step> {
    let write = Step::Append(log_name(), record((s.next as u64, value)));
    if s.torn {
        seq![Step::Truncate(log_name(), s.end), write]
    } else {
        seq![write]
    }
}

/// An off-heap, append-only, compactable value store.
///
/// The methods that change the log hand out the steps to perform; [`ValueStore::stored`] and
/// [`ValueStore::compacted`] then follow what has been performed, and [`ValueStore::failed`]
/// notes that an append was not.
#[derive(Debug)]
pub struct ValueStore {
    next_id: u64,
    end: u64,
    index: BTreeMap<u64, Extent>,
    torn: bool,
}

/// Append a record.
fn put_record(out: &mut Vec<u8>, id: u64, payload: &[u8])
    ensures
        final(out)@ == old(out)@ + record((id, payload@)),
{
    let mut hdr: Vec<u8> = Vec::new();
    put_u64_be(&mut hdr, id);
    put_u64_be(&mut hdr, payload.len() as u64);
    assert(hdr@ =~= header(id, payload@.len()));
    let mut sum = Crc::new();
    sum.update(hdr.as_slice());
    sum.update(payload);
    proof {
        crc::law_crc_streams(0xFFFF_FFFFu32, hdr@, payload@);
    }
    push_all(out, hdr.as_slice());
    push_all(out, payload);
    put_u32_be(out, sum.finish());
    assert(out@ =~= old(out)@ + record((id, payload@)));
}

/// The payload of the record of `id` with length `len` that `data` starts with; `None` if it is
/// torn, damaged, or another record.
pub fn read_record(data: &[u8], id: u64, len: u64) -> (r: Option<Vec<u8>>)
    ensures
        match r {
            Some(p) => read_payload(data@, id, len as nat) == Some(p@),
            None => read_payload(data@, id, len as nat) is None,
        },
{
    let n: usize = data.len();
    if n < REC_HDR + REC_TRAIL || len > (n - REC_HDR - REC_TRAIL) as u64 {
        return None;
    }
    let len: usize = len as usize;
    assert(data@.subrange(0, 8) =~= data@.take(8));
    if get_u64_be(data, 0) != id || get_u64_be(data, 8) != len as u64 {
        return None;
    }
    let mut sum = Crc::new();
    let hdr: &[u8] = vstd::slice::slice_subrange(data, 0, REC_HDR);
    let payload: &[u8] = vstd::slice::slice_subrange(data, REC_HDR, REC_HDR + len);
    sum.update(hdr);
    sum.update(payload);
    proof {
        crc::law_crc_streams(0xFFFF_FFFFu32, hdr@, payload@);
        assert(hdr@ + payload@ =~= data@.take(16 + len as int));
    }
    if sum.finish() != get_u32_be(data, REC_HDR + len) {
        return None;
    }
    Some(copy_bytes(payload))
}

/// The intact record at `pos`: its id, its payload, and where the next one starts.
fn record_at(log: &[u8], pos: usize) -> (r: Option<(u64, Vec<u8>, usize)>)
    requires
        pos <= log.len(),
    ensures
        match r {
            Some((id, p, next)) => first_blob(log@.skip(pos as int)) == Some(
                ((id, p@), (next - pos) as nat),
            ) && pos < next <= log.len() && next - pos == 20 + p@.len(),
            None => first_blob(log@.skip(pos as int)) is None,
        },
{
    reveal(first_blob);
    let rest: &[u8] = vstd::slice::slice_subrange(log, pos, log.len());
    assert(rest@ =~= log@.skip(pos as int));
    if rest.len() < REC_HDR + REC_TRAIL {
        return None;
    }
    assert(rest@.subrange(0, 8) =~= rest@.take(8));
    let id: u64 = get_u64_be(rest, 0);
    let len: u64 = get_u64_be(rest, 8);
    match read_record(rest, id, len) {
        None => None,
        Some(p) => Some((id, p, pos + REC_HDR + REC_TRAIL + len as usize)),
    }
}

/// The blobs read so far, with those still to come.
proof fn lemma_scan_step(log: Seq<u8>, pos: int, bs: Seq<Blob>)
    requires
        0 <= pos <= log.len(),
        scan(log) == (bs + scan(log.skip(pos)).0, (pos + scan(log.skip(pos)).1) as nat),
    ensures
        match first_blob(log.skip(pos)) {
            None => scan(log) == (bs, pos as nat),
            Some((b, n)) => n <= log.len() - pos && scan(log) == (bs.push(b) + scan(
                log.skip(pos + n),
            ).0, (pos + n + scan(log.skip(pos + n)).1) as nat),
        },
{
    let s = log.skip(pos);
    match first_blob(s) {
        None => {
            assert(bs + Seq::<Blob>::empty() =~= bs);
        },
        Some((b, n)) => {
            lemma_first_extends(s, seq![]);
            assert(s.skip(n as int) =~= log.skip(pos + n));
            let more = scan(log.skip(pos + n)).0;
            assert(bs + (seq![b] + more) =~= bs.push(b) + more);
        },
    }
}

impl ValueStore {
    pub closed spec fn view(&self) -> BlobState {
        BlobState {
            next: self.next_id as nat,
            end: self.end as nat,
            index: self.index@,
            torn: self.torn,
        }
    }

    /// Open the store of a log: rebuild the index, the id counter and the end offset, and cut
    /// off a torn trailing record so that later appends start on a clean boundary. The next id is
    /// one above the highest id ever written, also where that blob has been compacted away.
    pub fn open(log: &[u8]) -> (r: Result<(ValueStore, Vec<FileAction>), IdsExhausted>)
        ensures
            match r {
                Ok((v, plan)) => v@ == state_of(scan(log@).0) && dir::steps(plan@) == (
                if scan(log@).1 < log@.len() {
                    seq![Step::Truncate(log_name(), scan(log@).1)]
                } else {
                    seq![]
                }),
                Err(e) => next_of(scan(log@).0) > u64::MAX,
            },
    {
        let mut index: BTreeMap<u64, Extent> = BTreeMap::new();
        let mut next: u64 = 0;
        let mut pos: usize = 0;
        let ghost mut bs: Seq<Blob> = seq![];
        proof {
            assert(log@.skip(0) =~= log@);
            assert(bs + scan(log@).0 =~= scan(log@).0);
            assert(index@ =~= Map::empty());
        }
        let mut done: bool = false;
        while !done
            invariant
                pos <= log.len(),
                scan(log@) == (bs + scan(log@.skip(pos as int)).0, (pos + scan(
                    log@.skip(pos as int),
                ).1) as nat),
                done ==> scan(log@) == (bs, pos as nat),
                pos == total(bs),
                index@ == index_of(bs),
                next == next_of(bs),
            decreases log.len() - pos + (if done {
                0int
            } else {
                1
            }),
        {
            proof {
                lemma_scan_step(log@, pos as int, bs);
            }
            match record_at(log, pos) {
                None => {
                    done = true;
                },
                Some((id, payload, after)) => {
                    let ghost b = (id, payload@);
                    proof {
                        assert(bs.push(b).drop_last() =~= bs);
                    }
                    let least: u64 = if id == u64::MAX {
                        if payload.len() != 8 {
                            proof {
                                lemma_next_bounds(
                                    bs.push(b),
                                    scan(log@.skip(after as int)).0,
                                    bs.len() as int,
                                );
                            }
                            return Err(IdsExhausted);
                        }
                        assert(payload@.subrange(0, 8) =~= payload@);
                        get_u64_be(payload.as_slice(), 0)
                    } else {
                        let _before = index.insert(id, (pos as u64, payload.len() as u64));
                        id + 1
                    };
                    if least > next {
                        next = least;
                    }
                    proof {
                        bs = bs.push(b);
                    }
                    pos = after;
                },
            }
        }
        let mut plan: Vec<FileAction> = Vec::new();
        if pos < log.len() {
            plan.push(FileAction::Truncate { name: log_file(), len: pos as u64 });
            assert(dir::steps(plan@) =~= seq![Step::Truncate(log_name(), scan(log@).1)]);
        } else {
            assert(dir::steps(plan@) =~= seq![]);
        }
        let v = ValueStore { next_id: next, end: pos as u64, index, torn: false };
        assert(v@ =~= state_of(scan(log@).0));
        Ok((v, plan))
    }

    /// The handle that `value` gets, and the steps that append its record. The handle counts
    /// once the steps have been performed and [`ValueStore::stored`] was told.
    pub fn put(&self, value: &[u8]) -> (r: (BlobRef, Vec<FileAction>))
        requires
            self@.next < u64::MAX,
        ensures
            r.0.id == self@.next,
            r.0.offset == self@.end,
            r.0.len == value@.len(),
            dir::steps(r.1@) == put_steps(self@, value@),
    {
        let mut data: Vec<u8> = Vec::new();
        put_record(&mut data, self.next_id, value);
        assert(data@ =~= record((self.next_id, value@)));
        let mut plan: Vec<FileAction> = Vec::new();
        if self.torn {
            plan.push(FileAction::Truncate { name: log_file(), len: self.end });
        }
        plan.push(FileAction::Append { name: log_file(), data });
        assert(dir::steps(plan@) =~= put_steps(self@, value@));
        (BlobRef { id: self.next_id, offset: self.end, len: value.len() as u64 }, plan)
    }

    /// Follow an append that has been performed; `r` is the handle that [`ValueStore::put`] gave.
    pub fn stored(&mut self, r: &BlobRef)
        requires
            r.id == old(self)@.next,
            r.offset == old(self)@.end,
            r.id < u64::MAX,
            old(self)@.end + 20 + r.len <= u64::MAX,
        ensures
            final(self)@ == (BlobState {
                next: old(self)@.next + 1,
                end: old(self)@.end + 20 + r.len as nat,
                index: old(self)@.index.insert(r.id, (r.offset, r.len)),
                torn: false,
            }),
    {
        self.end = self.end + 20 + r.len;
        self.next_id = r.id + 1;
        self.torn = false;
        let _before = self.index.insert(r.id, (r.offset, r.len));
        assert(self@ =~= BlobState {
            next: old(self)@.next + 1,
            end: old(self)@.end + 20 + r.len as nat,
            index: old(self)@.index.insert(r.id, (r.offset, r.len)),
            torn: false,
        });
    }

    /// Note that an append could not be performed, or only in part.
    pub fn failed(&mut self)
        ensures
            final(self)@ == (BlobState { torn: true, ..old(self)@ }),
    {
        self.torn = true;
        assert(self@ =~= BlobState { torn: true, ..old(self)@ });
    }

    /// Where the record of a handle lies, by the index: `None` if its id is unknown or its length
    /// disagrees with the log.
    pub fn locate(&self, r: &BlobRef) -> (e: Option<Extent>)
        ensures
            match e {
                Some(x) => self@.index.contains_key(r.id) && self@.index[r.id] == x && x.1
                    == r.len,
                None => !self@.index.contains_key(r.id) || self@.index[r.id].1 != r.len,
            },
    {
        match self.index.get(&r.id) {
            None => None,
            Some(x) => if x.1 != r.len {
                None
            } else {
                Some(*x)
            },
        }
    }

    /// Read a blob by handle out of the log, verifying its checksum. Reads only the bytes of its
    /// record; `None` if the id is unknown, the length disagrees with the log, or the record is
    /// torn or corrupt.
    pub fn get(&self, r: &BlobRef, log: &[u8]) -> (p: Option<Vec<u8>>)
        ensures
            match p {
                Some(v) => fetched(self@.index, log@, *r) == Some(v@),
                None => fetched(self@.index, log@, *r) is None,
            },
    {
        match self.locate(r) {
            None => None,
            Some((offset, len)) => {
                if offset > log.len() as u64 {
                    return None;
                }
                let rest: &[u8] = vstd::slice::slice_subrange(log, offset as usize, log.len());
                assert(rest@ =~= log@.skip(offset as int));
                read_record(rest, r.id, len)
            },
        }
    }

    /// Rewrite the log with only the blobs whose ids are live: the rewritten log, and the steps
    /// that publish it. Ids are preserved, so every handle to a live blob stays valid, and the
    /// rewritten log keeps every id below the next one from being used again.
    pub fn compact(&self, log: &[u8], live: &BTreeSet<u64>) -> (r: (Compaction, Vec<FileAction>))
        ensures
            r.0.blobs() == rewritten(scan(log@).0, live@, self@.next as u64),
            next_of(r.0.blobs()) >= self@.next,
            r.0.wf(),
            dir::steps(r.1@) == dir::replace_steps(
                temp_name(),
                log_name(),
                log_bytes(r.0.blobs()),
            ),
    {
        let mut index: BTreeMap<u64, Extent> = BTreeMap::new();
        let mut data: Vec<u8> = Vec::new();
        let mut pos: usize = 0;
        let mut top: Option<u64> = None;
        let ghost mut bs: Seq<Blob> = seq![];
        proof {
            assert(log@.skip(0) =~= log@);
            assert(bs + scan(log@).0 =~= scan(log@).0);
            assert(index@ =~= Map::empty());
            assert(data@ =~= log_bytes(live_only(bs, live@)));
        }
        let mut done: bool = false;
        while !done
            invariant
                pos <= log.len(),
                scan(log@) == (bs + scan(log@.skip(pos as int)).0, (pos + scan(
                    log@.skip(pos as int),
                ).1) as nat),
                done ==> scan(log@) == (bs, pos as nat),
                pos == total(bs),
                index@ == index_of(live_only(bs, live@)),
                data@ == log_bytes(live_only(bs, live@)),
                data@.len() == total(live_only(bs, live@)),
                data@.len() <= pos,
                next_of(live_only(bs, live@)) == (match top {
                    Some(t) => (t + 1) as nat,
                    None => 0,
                }),
            decreases log.len() - pos + (if done {
                0int
            } else {
                1
            }),
        {
            proof {
                lemma_scan_step(log@, pos as int, bs);
            }
            match record_at(log, pos) {
                None => {
                    done = true;
                },
                Some((id, payload, after)) => {
                    let ghost b = (id, payload@);
                    let ghost kept = live_only(bs, live@);
                    proof {
                        assert(bs.push(b).drop_last() =~= bs);
                        assert(kept.push(b).drop_last() =~= kept);
                        lemma_record(b, seq![]);
                    }
                    if live.contains(&id) && (id != u64::MAX || payload.len() != 8) {
                        top = match top {
                            Some(t) if t > id => Some(t),
                            _ => Some(id),
                        };
                        let _before = index.insert(id, (data.len() as u64, payload.len() as u64));
                        put_record(&mut data, id, payload.as_slice());
                    }
                    proof {
                        bs = bs.push(b);
                    }
                    pos = after;
                },
            }
        }
        let ghost kept = live_only(bs, live@);
        let ghost new = rewritten(bs, live@, self.next_id);
        let short: bool = match top {
            Some(t) => t < self.next_id && t + 1 < self.next_id,
            None => self.next_id > 0,
        };
        if short {
            let mut next: Vec<u8> = Vec::new();
            put_u64_be(&mut next, self.next_id);
            assert(next@ =~= bytes::be_bytes(self.next_id as nat, 8));
            put_record(&mut data, u64::MAX, next.as_slice());
        }
        let plan: Vec<FileAction> = vec![
            FileAction::Create { name: temp_file(), data: copy_bytes(data.as_slice()) },
            FileAction::Rename { from: temp_file(), to: log_file() },
        ];
        let c = Compaction { data, index };
        proof {
            lemma_scanned_lengths(log@);
            lemma_live_lengths(bs, live@);
            lemma_rewritten(bs, live@, self.next_id);
            assert(c.data@ =~= log_bytes(new));
            law_log_roundtrip(new);
            assert(c.blobs() == new);
            assert(dir::steps(plan@) =~= dir::replace_steps(
                temp_name(),
                log_name(),
                log_bytes(new),
            ));
        }
        (c, plan)
    }

    /// Follow a compaction that has been published; returns the new end offset.
    pub fn compacted(&mut self, c: Compaction) -> (r: u64)
        requires
            c.wf(),
        ensures
            r == total(c.blobs()),
            final(self)@ == (BlobState {
                next: old(self)@.next,
                end: total(c.blobs()),
                index: index_of(c.blobs()),
                torn: false,
            }),
    {
        self.end = c.data.len() as u64;
        self.index = c.index;
        self.torn = false;
        proof {
            c.lemma_lengths();
        }
        assert(self@ =~= BlobState {
            next: old(self)@.next,
            end: total(c.blobs()),
            index: index_of(c.blobs()),
            torn: false,
        });
        self.end
    }

    /// Where the log ends.
    pub fn end(&self) -> (r: u64)
        ensures
            r == self@.end,
    {
        self.end
    }

    /// The next id a `put` would use.
    pub fn next_id(&self) -> (r: u64)
        ensures
            r == self@.next,
    {
        self.next_id
    }

    /// Number of blobs in the log.
    pub fn count(&self) -> (r: usize)
        ensures
            r == self@.index.len(),
    {
        self.index.len()
    }

    /// The path of the log in the directory `root`.
    pub fn path(&self, root: &[u8]) -> (r: Vec<u8>)
        ensures
            r@ == crate::snapshot::joined(root@, log_name()),
    {
        let mut r: Vec<u8> = copy_bytes(root);
        if root.len() > 0 && root[root.len() - 1] != 47 {
            r.push(47);
        }
        push_all(&mut r, log_file().as_slice());
        r
    }
}

impl Compaction {
    /// The blobs of the rewritten log.
    pub closed spec fn blobs(&self) -> Seq<Blob> {
        scan(self.data@).0
    }

    /// The index is that of the rewritten log.
    pub closed spec fn wf(&self) -> bool {
        &&& self.data@ == log_bytes(self.blobs())
        &&& encodable(self.blobs())
        &&& self.index@ == index_of(self.blobs())
    }

    proof fn lemma_lengths(&self)
        requires
            self.wf(),
        ensures
            self.data@.len() == total(self.blobs()),
    {
        law_log_roundtrip(self.blobs());
    }
}

/// A blob that was read back has a length that fits its field.
proof fn lemma_scanned_lengths(s: Seq<u8>)
    ensures
        encodable(scan(s).0),
    decreases s.len(),
{
    match first_blob(s) {
        None => {},
        Some((b, n)) => {
            lemma_first_extends(s, seq![]);
            let more = scan(s.skip(n as int)).0;
            lemma_scanned_lengths(s.skip(n as int));
            lemma_first_length(s);
            let all = scan(s).0;
            assert forall|i: int| 0 <= i < all.len() implies (#[trigger] all[i]).1.len()
                <= u64::MAX by {
                if i > 0 {
                    assert(all[i] == more[i - 1]);
                }
            }
        },
    }
}

proof fn lemma_first_length(s: Seq<u8>)
    requires
        first_blob(s) is Some,
    ensures
        ((first_blob(s)->0).0).1.len() <= u64::MAX,
{
    reveal(first_blob);
    bytes::lemma_be_value_bound(s.subrange(8, 16));
    bytes::lemma_pow256_bounds();
}

proof fn lemma_live_lengths(bs: Seq<Blob>, live: Set<u64>)
    requires
        encodable(bs),
    ensures
        encodable(live_only(bs, live)),
    decreases bs.len(),
{
    if bs.len() > 0 {
        let front = bs.drop_last();
        assert(encodable(front)) by {
            assert forall|i: int| 0 <= i < front.len() implies (#[trigger] front[i]).1.len()
                <= u64::MAX by {
                assert(front[i] == bs[i]);
            }
        }
        lemma_live_lengths(front, live);
        assert(bs[bs.len() - 1].1.len() <= u64::MAX);
    }
}

/// What the rewritten log adds to the live blobs.
proof fn lemma_rewritten(bs: Seq<Blob>, live: Set<u64>, next: u64)
    requires
        encodable(bs),
    ensures
        ({
            let kept = live_only(bs, live);
            let new = rewritten(bs, live, next);
            &&& encodable(new)
            &&& index_of(new) == index_of(kept)
            &&& next_of(new) >= next
            &&& next_of(kept) < next ==> log_bytes(new) == log_bytes(kept) + record(mark(next))
        }),
{
    let kept = live_only(bs, live);
    let new = rewritten(bs, live, next);
    lemma_live_lengths(bs, live);
    bytes::lemma_be_u64(next);
    if next_of(kept) < next {
        assert(new.drop_last() =~= kept);
        assert forall|i: int| 0 <= i < new.len() implies (#[trigger] new[i]).1.len()
            <= u64::MAX by {
            if i < kept.len() {
                assert(new[i] == kept[i]);
            }
        }
    }
}

/// Every id of a log is below the next one.
proof fn lemma_next_bounds(front: Seq<Blob>, more: Seq<Blob>, i: int)
    requires
        0 <= i < front.len(),
        !is_mark(front[i]),
    ensures
        next_of(front + more) > front[i].0,
    decreases front.len() + more.len(),
{
    let all = front + more;
    if more.len() > 0 {
        lemma_next_bounds(front, more.drop_last(), i);
        assert(all.drop_last() =~= front + more.drop_last());
    } else {
        assert(all =~= front);
        if i < front.len() - 1 {
            lemma_next_bounds(front.drop_last(), more, i);
            assert(front.drop_last() + more =~= front.drop_last());
        }
    }
}

/// A crash at any point of publishing a compaction leaves the old log or the new one.
pub proof fn law_compaction_is_atomic(f: dir::Files, kept: Seq<Blob>, g: dir::Files)
    requires
        assoc::sorted(f),
        dir::crashed(f, dir::replace_steps(temp_name(), log_name(), log_bytes(kept)), g),
    ensures
        assoc::find(g, log_name()) == assoc::find(f, log_name()) || assoc::find(g, log_name())
            == Some(log_bytes(kept)),
{
    assert(temp_name().len() != log_name().len());
    dir::law_replacement_is_atomic(f, temp_name(), log_name(), log_bytes(kept), g);
}

/// An append that failed is made good by the next one: whatever it left behind the end of the
/// log, the log then holds the blobs of before and the new one.
pub proof fn law_a_failed_append_is_made_good(
    f: dir::Files,
    bs: Seq<Blob>,
    s: BlobState,
    extra: Seq<u8>,
    value: Seq<u8>,
)
    requires
        assoc::sorted(f),
        s.torn,
        s.end == total(bs),
        encodable(bs),
        dir::content(f, log_name()) == log_bytes(bs) + extra,
    ensures
        dir::content(dir::apply_all(f, put_steps(s, value)), log_name()) == log_bytes(
            bs.push((s.next as u64, value)),
        ),
{
    let b = (s.next as u64, value);
    let cut = Step::Truncate(log_name(), s.end);
    let write = Step::Append(log_name(), record(b));
    let f1 = dir::apply(f, cut);
    law_log_roundtrip(bs);
    assert(bs.push(b).drop_last() =~= bs);
    assert(dir::cut(log_bytes(bs) + extra, s.end) =~= log_bytes(bs));
    assert(dir::content(f1, log_name()) =~= log_bytes(bs)) by {
        assoc::lemma_upsert(f, log_name(), log_bytes(bs));
    }
    dir::lemma_apply_sorted(f, cut);
    assoc::lemma_upsert(f1, log_name(), log_bytes(bs) + record(b));
    dir::lemma_apply_two(f, cut, write);
}

/// A record is the id and the length of its payload, eight bytes each, most significant first, the
/// payload, and the checksum of all that.
pub proof fn law_the_layout_of_a_record(b: Blob)
    ensures
        ({
            let front = bytes::be_bytes(b.0 as nat, 8) + bytes::be_bytes(b.1.len(), 8) + b.1;
            record(b) == front + bytes::be_bytes(crc::crc_of(front) as nat, 4)
        }),
        log_bytes(seq![]) == Seq::<u8>::empty(),
        forall|bs: Seq<Blob>| #[trigger] log_bytes(bs.push(b)) == log_bytes(bs) + record(b),
        forall|bs: Seq<Blob>| #[trigger] total(bs.push(b)) == total(bs) + record(b).len(),
        total(seq![]) == 0,
{
    bytes::lemma_le_bytes_len(b.0 as nat, 8);
    bytes::lemma_le_bytes_len(b.1.len(), 8);
    let front = bytes::be_bytes(b.0 as nat, 8) + bytes::be_bytes(b.1.len(), 8) + b.1;
    bytes::lemma_be_u32(crc::crc_of(front));
    assert forall|bs: Seq<Blob>| #[trigger] log_bytes(bs.push(b)) == log_bytes(bs) + record(b) by {
        assert(bs.push(b).drop_last() =~= bs);
    }
    assert forall|bs: Seq<Blob>| #[trigger] total(bs.push(b)) == total(bs) + record(b).len() by {
        assert(bs.push(b).drop_last() =~= bs);
    }
}

proof fn lemma_be_digits(s: Seq<u8>)
    ensures
        bytes::be_bytes(bytes::be_value(s), s.len()) == s,
{
    bytes::lemma_le_digits(s.reverse());
    assert(s.reverse().reverse() =~= s);
}

/// What is read at a place is a payload exactly if the whole record of that id and payload stands
/// there.
pub proof fn law_a_payload_is_read_from_its_record(s: Seq<u8>, id: u64, len: nat, p: Seq<u8>)
    requires
        len <= u64::MAX,
    ensures
        read_payload(s, id, len) == Some(p) <==> p.len() == len && bytes::has_prefix(
            s,
            record((id, p)),
        ),
{
    if read_payload(s, id, len) == Some(p) {
        let n = len as int;
        let front = s.take(16 + n);
        let sum = s.subrange(16 + n, 20 + n);
        lemma_be_digits(s.take(8));
        lemma_be_digits(s.subrange(8, 16));
        lemma_be_digits(sum);
        assert(front =~= s.take(8) + s.subrange(8, 16) + p);
        assert(s.take(20 + n) =~= front + sum);
    }
    if p.len() == len && bytes::has_prefix(s, record((id, p))) {
        let n = record((id, p)).len() as int;
        lemma_record((id, p), s.skip(n));
        assert(s =~= record((id, p)) + s.skip(n));
    }
}

/// A log is read as the records it starts with, up to the first place where no whole record
/// stands.
pub proof fn law_reading_a_log(s: Seq<u8>, b: Blob)
    requires
        b.1.len() <= u64::MAX,
    ensures
        first_blob(s) == Some((b, record(b).len())) <==> bytes::has_prefix(s, record(b)),
        first_blob(s) matches Some((c, n)) ==> n == record(c).len() && bytes::has_prefix(
            s,
            record(c),
        ),
        scan(s).1 <= s.len(),
        s.take(scan(s).1 as int) == log_bytes(scan(s).0),
        !bytes::has_prefix(s.skip(scan(s).1 as int), record(b)),
{
    if bytes::has_prefix(s, record(b)) {
        let n = record(b).len() as int;
        lemma_record(b, s.skip(n));
        assert(s =~= record(b) + s.skip(n));
    }
    lemma_first_is_record(s);
    law_cutting_the_torn_tail(s);
    lemma_scan_bytes(s);
    let t = s.skip(scan(s).1 as int);
    if bytes::has_prefix(t, record(b)) {
        let n = record(b).len() as int;
        lemma_record(b, t.skip(n));
        assert(t =~= record(b) + t.skip(n));
    }
}

proof fn lemma_first_is_record(s: Seq<u8>)
    ensures
        first_blob(s) matches Some((c, n)) ==> n == record(c).len() && bytes::has_prefix(
            s,
            record(c),
        ),
{
    if first_blob(s) is Some {
        let (c, n) = first_blob(s)->0;
        lemma_first_length(s);
        assert(read_payload(s, c.0, c.1.len()) == Some(c.1) && n == 20 + c.1.len()) by {
            reveal(first_blob);
        }
        law_a_payload_is_read_from_its_record(s, c.0, c.1.len(), c.1);
        lemma_record(c, seq![]);
    }
}

proof fn lemma_scan_bytes(s: Seq<u8>)
    ensures
        scan(s).1 <= s.len(),
        s.take(scan(s).1 as int) == log_bytes(scan(s).0),
        first_blob(s.skip(scan(s).1 as int)) is None,
    decreases s.len(),
{
    match first_blob(s) {
        None => {
            assert(s.skip(0) =~= s);
            assert(s.take(0) =~= log_bytes(scan(s).0));
        },
        Some((b, n)) => {
            lemma_first_extends(s, seq![]);
            let rest = s.skip(n as int);
            lemma_scan_bytes(rest);
            lemma_first_is_record(s);
            let end = scan(rest).1 as int;
            assert(rest.skip(end) =~= s.skip(n + end));
            lemma_log_front(b, scan(rest).0);
            assert(s.take(n + end) =~= s.take(n as int) + rest.take(end));
        },
    }
}

proof fn lemma_log_front(b: Blob, bs: Seq<Blob>)
    ensures
        log_bytes(seq![b] + bs) == record(b) + log_bytes(bs),
    decreases bs.len(),
{
    let all = seq![b] + bs;
    if bs.len() == 0 {
        assert(all.drop_last() =~= seq![]);
        reveal_with_fuel(log_bytes, 2);
        assert(log_bytes(all) =~= record(b) + log_bytes(bs));
    } else {
        lemma_log_front(b, bs.drop_last());
        assert(all.drop_last() =~= seq![b] + bs.drop_last());
        assert(log_bytes(all) =~= record(b) + log_bytes(bs));
    }
}

/// The index names the last record of each id that is no mark: where it starts and how long its
/// payload is. Ids without such a record are not in it.
pub proof fn law_the_index_names_the_last_record(bs: Seq<Blob>, id: u64, i: int)
    requires
        total(bs) <= u64::MAX,
    ensures
        index_of(bs).contains_key(id) <==> exists|j: int|
            0 <= j < bs.len() && (#[trigger] bs[j]).0 == id && !(id == u64::MAX && bs[j].1.len()
                == 8),
        0 <= i < bs.len() && bs[i].0 == id && !(id == u64::MAX && bs[i].1.len() == 8) && (forall|
            j: int,
        |
            i < j < bs.len() ==> (#[trigger] bs[j]).0 != id || (id == u64::MAX && bs[j].1.len()
                == 8)) ==> index_of(bs)[id].0 == total(bs.take(i)) && index_of(bs)[id].1
            == bs[i].1.len(),
    decreases bs.len(),
{
    lemma_index_keys(bs, id);
    if exists|j: int|
        0 <= j < bs.len() && (#[trigger] bs[j]).0 == id && !(id == u64::MAX && bs[j].1.len() == 8) {
        let j = choose|j: int|
            0 <= j < bs.len() && (#[trigger] bs[j]).0 == id && !(id == u64::MAX && bs[j].1.len()
                == 8);
        assert(!is_mark(bs[j]));
    }
    if index_of(bs).contains_key(id) {
        let j = choose|j: int| 0 <= j < bs.len() && (#[trigger] bs[j]).0 == id && !is_mark(bs[j]);
        assert(bs[j].0 == id);
    }
    if 0 <= i < bs.len() && bs[i].0 == id && !(id == u64::MAX && bs[i].1.len() == 8) && (forall|
        j: int,
    |
        i < j < bs.len() ==> (#[trigger] bs[j]).0 != id || (id == u64::MAX && bs[j].1.len() == 8)) {
        let d = bs.drop_last();
        if i == bs.len() - 1 {
            assert(bs.take(i) =~= d);
        } else {
            assert(bs[bs.len() - 1] == bs.last());
            assert(forall|j: int| 0 <= j < d.len() ==> #[trigger] d[j] == bs[j]);
            law_the_index_names_the_last_record(d, id, i);
            assert(d.take(i) =~= bs.take(i));
        }
    }
}

/// The next id is the least one above every blob in the log and not below any mark.
pub proof fn law_the_next_id_is_the_least_unused(bs: Seq<Blob>)
    ensures
        forall|i: int|
            0 <= i < bs.len() && !((#[trigger] bs[i]).0 == u64::MAX && bs[i].1.len() == 8)
                ==> bs[i].0 < next_of(bs),
        forall|i: int|
            0 <= i < bs.len() && (#[trigger] bs[i]).0 == u64::MAX && bs[i].1.len() == 8
                ==> bytes::be_value(bs[i].1) <= next_of(bs),
        next_of(bs) == 0 || exists|i: int|
            0 <= i < bs.len() && (if (#[trigger] bs[i]).0 == u64::MAX && bs[i].1.len() == 8 {
                next_of(bs) == bytes::be_value(bs[i].1)
            } else {
                next_of(bs) == bs[i].0 + 1
            }),
    decreases bs.len(),
{
    if bs.len() > 0 {
        let d = bs.drop_last();
        law_the_next_id_is_the_least_unused(d);
        assert(bs[bs.len() - 1] == bs.last());
        assert(forall|j: int| 0 <= j < d.len() ==> #[trigger] bs[j] == d[j]);
        if next_of(bs) == next_of(d) && next_of(d) != 0 {
            let i = choose|i: int|
                0 <= i < d.len() && (if (#[trigger] d[i]).0 == u64::MAX && d[i].1.len() == 8 {
                    next_of(d) == bytes::be_value(d[i].1)
                } else {
                    next_of(d) == d[i].0 + 1
                });
            assert(bs[i] == d[i]);
        }
    }
}

/// A compaction keeps exactly the blobs whose ids are live, in order, and drops every mark. It
/// adds one of its own, with the next id, exactly if the kept blobs alone would give a lower one.
pub proof fn law_compaction_keeps_the_live_blobs(bs: Seq<Blob>, live: Set<u64>, next: u64)
    ensures
        live_only(bs, live) == bs.filter(
            |b: Blob| live.contains(b.0) && !(b.0 == u64::MAX && b.1.len() == 8),
        ),
        next_of(live_only(bs, live)) >= next ==> rewritten(bs, live, next) == live_only(bs, live),
        next_of(live_only(bs, live)) < next ==> rewritten(bs, live, next) == live_only(
            bs,
            live,
        ).push((u64::MAX, bytes::be_bytes(next as nat, 8))),
    decreases bs.len(),
{
    reveal(Seq::filter);
    if bs.len() > 0 {
        law_compaction_keeps_the_live_blobs(bs.drop_last(), live, next);
    }
}

/// A handle reads a payload exactly if the index has its id with that length, and the whole record
/// of that id and payload stands at the place the index names. The offset in the handle does not
/// matter.
pub proof fn law_a_handle_reads_its_record(
    index: Map<u64, Extent>,
    log: Seq<u8>,
    r: BlobRef,
    p: Seq<u8>,
)
    ensures
        fetched(index, log, r) == Some(p) <==> index.contains_key(r.id) && index[r.id].1 == r.len
            && p.len() == r.len && index[r.id].0 <= log.len() && bytes::has_prefix(
            log.skip(index[r.id].0 as int),
            record((r.id, p)),
        ),
{
    if index.contains_key(r.id) && index[r.id].0 <= log.len() {
        law_a_payload_is_read_from_its_record(
            log.skip(index[r.id].0 as int),
            r.id,
            r.len as nat,
            p,
        );
    }
}

/// A store opened on a log goes on where it ends, with the next id that its records allow, and
/// finds what the index of its records names.
pub proof fn law_an_opened_store_goes_on_with_its_log(bs: Seq<Blob>)
    requires
        encodable(bs),
    ensures
        state_of(bs).end == log_bytes(bs).len(),
        state_of(bs).next == next_of(bs),
        state_of(bs).index == index_of(bs),
        !state_of(bs).torn,
{
    law_log_roundtrip(bs);
}

/// A put is one write of its record at the end of the log; only after an append that failed is the
/// log first cut to where it ends.
pub proof fn law_a_put_is_one_write(s: BlobState, value: Seq<u8>)
    ensures
        !s.torn ==> put_steps(s, value) == seq![
            Step::Append(log_name(), record((s.next as u64, value))),
        ],
        s.torn ==> put_steps(s, value) == seq![
            Step::Truncate(log_name(), s.end),
            Step::Append(log_name(), record((s.next as u64, value))),
        ],
        log_name() == seq![118u8, 97, 108, 117, 101, 115, 47, 98, 108, 111, 98, 115],
        temp_name() == log_name() + seq![46u8, 116, 109, 112],
{
    assert(temp_name() =~= log_name() + seq![46u8, 116, 109, 112]);
}

/// A stored blob is read back by its handle, the index stays that of the log, and the next id
/// is above every id in use.
pub proof fn law_put_then_get(bs: Seq<Blob>, id: u64, value: Seq<u8>)
    requires
        increasing(bs),
        encodable(bs),
        next_of(bs) <= id,
        id < u64::MAX,
        total(bs) + 20 + value.len() <= u64::MAX,
    ensures
        ({
            let all = bs.push((id, value));
            let r = BlobRef { id, offset: total(bs) as u64, len: value.len() as u64 };
            &&& increasing(all)
            &&& encodable(all)
            &&& log_bytes(all) == log_bytes(bs) + record((id, value))
            &&& state_of(all) == (BlobState {
                next: (id + 1) as nat,
                end: total(bs) + 20 + value.len(),
                index: index_of(bs).insert(id, (r.offset, r.len)),
                torn: false,
            })
            &&& fetched(index_of(all), log_bytes(all), r) == Some(value)
            &&& scan(log_bytes(all)) == (all, log_bytes(all).len())
        }),
{
    let all = bs.push((id, value));
    assert(all.drop_last() =~= bs);
    assert forall|i: int, j: int|
        0 <= i < j < all.len() && !is_mark(#[trigger] all[i]) && !is_mark(
            #[trigger] all[j],
        ) implies all[i].0 < all[j].0 by {
        assert(all[i] == bs[i]);
        if j == bs.len() {
            lemma_next_bounds(bs, seq![], i);
            assert(bs + Seq::<Blob>::empty() =~= bs);
        }
    }
    law_every_blob_is_found(all, bs.len() as int, total(bs) as u64);
    law_log_roundtrip(all);
}

} // verus!
