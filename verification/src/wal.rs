//! The write-ahead log: a run of segment files, each a run of framed records.
//!
//! A torn tail is only legitimate in the last segment: a crash interrupts at most one append.
//! A bad record in an earlier segment, with later segments present, is corruption, and
//! [`replay`] refuses to skip past it.
//!
//! Segment names embed a ten-digit sequence number, so that sorting the names yields the append
//! order. [`Wal::open`] resumes the latest segment and cuts off a torn tail first, so that new
//! records always start on a clean boundary. A segment rotates into a new file once an append
//! would overflow it, and after a step that failed: what that step left behind is cut off first.

use crate::assoc;
use crate::bytes;
use crate::bytes::{bytes_eq, copy_bytes, push_all};
use crate::decimal;
use crate::decimal::{format_padded, parse_decimal};
use crate::dir;
use crate::dir::{DirImage, FileAction, Files, Step};
use crate::wal_record;
use crate::wal_record::{encode_records, scan_segment, LogRecord};
use vstd::prelude::*;

verus! {

pub use crate::wal_record::{decode_payload, encode_payload, PayloadError, Record, MIN_PAYLOAD};

// ---------------------------------------------------------------------------
// Segment names
// ---------------------------------------------------------------------------

/// `wal-`
pub open spec fn name_prefix() -> Seq<u8> {
    seq![119u8, 97, 108, 45]
}

/// `.log`
pub open spec fn name_suffix() -> Seq<u8> {
    seq![46u8, 108, 111, 103]
}

/// The name of the segment with sequence number `seq`: `wal-`, ten digits, `.log`.
pub open spec fn segment_name(seq: nat) -> Seq<u8> {
    name_prefix() + decimal::padded(seq, 10) + name_suffix()
}

/// The sequence number in a segment name, if it is one.
pub open spec fn segment_seq(name: Seq<u8>) -> Option<nat> {
    if name.len() < 8 || name.take(4) != name_prefix() || name.skip(name.len() - 4)
        != name_suffix() {
        None
    } else {
        decimal::parsed(name.subrange(4, name.len() - 4), u32::MAX as nat)
    }
}

/// Whether a file is a segment.
pub open spec fn is_segment() -> spec_fn(Seq<u8>) -> bool {
    |name: Seq<u8>| segment_seq(name) is Some
}

/// The segments of a directory, in name order.
pub open spec fn segments(f: Files) -> Files {
    assoc::keep(f, is_segment())
}

/// A segment name holds its number.
pub proof fn lemma_segment_name(seq: nat)
    requires
        seq <= u32::MAX,
    ensures
        segment_seq(segment_name(seq)) == Some(seq),
        segment_name(seq).len() == 18,
{
    let d = decimal::padded(seq, 10);
    let name = segment_name(seq);
    lemma_ten_digits(seq);
    decimal::lemma_digits(seq, 10);
    assert(name.take(4) =~= name_prefix());
    assert(name.skip(name.len() - 4) =~= name_suffix());
    assert(name.subrange(4, name.len() - 4) =~= d);
    decimal::law_padded_parses(seq, 10, u32::MAX as nat);
}

proof fn lemma_ten_digits(seq: nat)
    requires
        seq <= u32::MAX,
    ensures
        decimal::padded(seq, 10) == decimal::digits(seq, 10),
        seq < decimal::pow10(10),
{
    decimal::lemma_pow10_ten();
    decimal::lemma_digit_count_max(seq, 10);
}

/// Segment names sort in the order of their numbers.
pub proof fn law_names_sort(a: nat, b: nat)
    requires
        a < b <= u32::MAX,
    ensures
        bytes::lex_lt(segment_name(a), segment_name(b)),
{
    lemma_ten_digits(a);
    lemma_ten_digits(b);
    decimal::law_digits_sort(a, b, 10);
    let x = decimal::digits(a, 10);
    let y = decimal::digits(b, 10);
    decimal::lemma_digits(a, 10);
    decimal::lemma_digits(b, 10);
    decimal::lemma_lex_extend(x, y, name_suffix(), name_suffix());
    decimal::lemma_lex_front(name_prefix(), x + name_suffix(), y + name_suffix());
    assert(segment_name(a) =~= name_prefix() + (x + name_suffix()));
    assert(segment_name(b) =~= name_prefix() + (y + name_suffix()));
}

/// The name of segment `seq`.
pub fn segment_file(seq: u32) -> (r: Vec<u8>)
    ensures
        r@ == segment_name(seq as nat),
{
    let mut name: Vec<u8> = vec![119, 97, 108, 45];
    let digits: Vec<u8> = format_padded(seq as u64, 10);
    let suffix: Vec<u8> = vec![46, 108, 111, 103];
    assert(name@ =~= name_prefix());
    assert(suffix@ =~= name_suffix());
    push_all(&mut name, digits.as_slice());
    push_all(&mut name, suffix.as_slice());
    name
}

/// The sequence number in a segment name, if it is one.
pub fn parse_segment(name: &[u8]) -> (r: Option<u32>)
    ensures
        match r {
            Some(seq) => segment_seq(name@) == Some(seq as nat),
            None => segment_seq(name@) is None,
        },
{
    if name.len() < 8 {
        return None;
    }
    let n: usize = name.len();
    let prefix: Vec<u8> = vec![119, 97, 108, 45];
    let suffix: Vec<u8> = vec![46, 108, 111, 103];
    assert(prefix@ =~= name_prefix());
    assert(suffix@ =~= name_suffix());
    let head: &[u8] = vstd::slice::slice_subrange(name, 0, 4);
    let tail: &[u8] = vstd::slice::slice_subrange(name, n - 4, n);
    assert(head@ =~= name@.take(4));
    assert(tail@ =~= name@.skip(n - 4));
    if !bytes_eq(head, prefix.as_slice()) || !bytes_eq(tail, suffix.as_slice()) {
        return None;
    }
    match parse_decimal(vstd::slice::slice_subrange(name, 4, n - 4), u32::MAX as u64) {
        Some(v) => Some(v as u32),
        None => None,
    }
}

// ---------------------------------------------------------------------------
// Replay
// ---------------------------------------------------------------------------

/// Where [`replay`] found a torn trailing record.
#[derive(Debug, Clone, PartialEq, Eq)]
pub struct TornTail {
    /// The segment holding the torn record.
    pub segment: Vec<u8>,
    /// Offset of the torn record's first byte; every byte before it is intact.
    pub offset: u64,
}

/// A damaged record that is not at the end of the log.
#[derive(Debug, PartialEq, Eq)]
pub struct CorruptSegment {
    /// The segment holding the damaged record.
    pub segment: Vec<u8>,
    /// Offset of the damaged record's first byte.
    pub offset: u64,
    /// How many segments follow.
    pub later: usize,
}

/// A [`TornTail`] over byte strings.
pub type Torn = (Seq<u8>, nat);

/// A [`CorruptSegment`] over byte strings.
pub type Corrupt = (Seq<u8>, nat, nat);

/// The records of a run of segments, in order, with the torn tail of the last one. Damage
/// before the last segment is an error.
pub open spec fn replayed(segs: Files) -> Result<(Seq<LogRecord>, Option<Torn>), Corrupt>
    decreases segs.len(),
{
    if segs.len() == 0 {
        Ok((seq![], None))
    } else {
        let (rs, torn) = wal_record::scan(segs[0].1);
        match torn {
            Some(off) => if segs.len() > 1 {
                Err((segs[0].0, off, (segs.len() - 1) as nat))
            } else {
                Ok((rs, Some((segs[0].0, off))))
            },
            None => match replayed(segs.skip(1)) {
                Err(e) => Err(e),
                Ok((more, t)) => Ok((rs + more, t)),
            },
        }
    }
}

/// Every segment ends cleanly.
pub open spec fn clean(segs: Files) -> bool {
    forall|i: int| 0 <= i < segs.len() ==> wal_record::scan((#[trigger] segs[i]).1).1 is None
}

/// The records of a run of segments.
pub open spec fn records_of(segs: Files) -> Seq<LogRecord>
    decreases segs.len(),
{
    if segs.len() == 0 {
        seq![]
    } else {
        wal_record::scan(segs[0].1).0 + records_of(segs.skip(1))
    }
}

/// Replaying clean segments and one last segment.
pub proof fn lemma_replay_last(front: Files, last: (Seq<u8>, Seq<u8>))
    requires
        clean(front),
    ensures
        replayed(front.push(last)) == Ok::<(Seq<LogRecord>, Option<Torn>), Corrupt>(
            (
                records_of(front) + wal_record::scan(last.1).0,
                match wal_record::scan(last.1).1 {
                    None => None,
                    Some(off) => Some((last.0, off)),
                },
            ),
        ),
    decreases front.len(),
{
    let segs = front.push(last);
    if front.len() == 0 {
        assert(segs.skip(1) =~= seq![]);
        assert(replayed(segs.skip(1)) == Ok::<(Seq<LogRecord>, Option<Torn>), Corrupt>(
            (seq![], None),
        ));
        let rs = wal_record::scan(last.1).0;
        assert(records_of(front) + rs =~= rs);
        assert(rs + Seq::<LogRecord>::empty() =~= rs);
    } else {
        let more = front.skip(1);
        assert forall|i: int| 0 <= i < more.len() implies wal_record::scan(
            (#[trigger] more[i]).1,
        ).1 is None by {
            assert(more[i] == front[i + 1]);
        }
        lemma_replay_last(more, last);
        assert(segs.skip(1) =~= more.push(last));
        assert(segs[0] == front[0]);
        let a = wal_record::scan(front[0].1).0;
        let b = records_of(more);
        let c = wal_record::scan(last.1).0;
        assert(a + (b + c) =~= a + b + c);
    }
}

/// A replay that succeeds has only clean segments before the last.
pub proof fn lemma_replay_ok(segs: Files)
    requires
        replayed(segs) is Ok,
        segs.len() > 0,
    ensures
        clean(segs.drop_last()),
    decreases segs.len(),
{
    let front = segs.drop_last();
    if segs.len() > 1 {
        let more = segs.skip(1);
        lemma_replay_ok(more);
        assert forall|i: int| 0 <= i < front.len() implies wal_record::scan(
            (#[trigger] front[i]).1,
        ).1 is None by {
            if i > 0 {
                assert(front[i] == more.drop_last()[i - 1]);
            }
        }
    }
}

pub proof fn lemma_records_of_push(front: Files, last: (Seq<u8>, Seq<u8>))
    ensures
        records_of(front.push(last)) == records_of(front) + wal_record::scan(last.1).0,
    decreases front.len(),
{
    let segs = front.push(last);
    if front.len() == 0 {
        assert(segs.skip(1) =~= seq![]);
        assert(records_of(segs.skip(1)) =~= seq![]);
        assert(records_of(segs) =~= records_of(front) + wal_record::scan(last.1).0);
    } else {
        lemma_records_of_push(front.skip(1), last);
        assert(segs.skip(1) =~= front.skip(1).push(last));
        assert(records_of(segs) =~= records_of(front) + wal_record::scan(last.1).0);
    }
}

/// Replaying clean segments gives their records and no torn tail.
pub proof fn lemma_replay_clean(segs: Files)
    requires
        clean(segs),
    ensures
        replayed(segs) == Ok::<(Seq<LogRecord>, Option<Torn>), Corrupt>((records_of(segs), None)),
{
    if segs.len() > 0 {
        let front = segs.drop_last();
        let last = segs.last();
        assert(segs =~= front.push(last));
        assert forall|i: int| 0 <= i < front.len() implies wal_record::scan(
            (#[trigger] front[i]).1,
        ).1 is None by {
            assert(front[i] == segs[i]);
        }
        assert(wal_record::scan(segs[segs.len() - 1].1).1 is None);
        lemma_replay_last(front, last);
        lemma_records_of_push(front, last);
    }
}

/// The names of the segments of a directory, in ascending order.
pub fn list_segments(d: &DirImage) -> (r: Vec<Vec<u8>>)
    ensures
        r@.len() == segments(d@).len(),
        forall|i: int| 0 <= i < r@.len() ==> #[trigger] r@[i]@ == segments(d@)[i].0,
        assoc::sorted(d@),
{
    let ghost f = d@;
    let mut out: Vec<Vec<u8>> = Vec::new();
    let n: usize = d.len();
    let mut i: usize = 0;
    assert(f.take(0) =~= seq![]);
    while i < n
        invariant
            i <= n,
            f == d@,
            n == f.len(),
            assoc::sorted(f),
            out@.len() == segments(f.take(i as int)).len(),
            forall|j: int|
                0 <= j < out@.len() ==> #[trigger] out@[j]@ == segments(f.take(i as int))[j].0,
        decreases n - i,
    {
        let name: &Vec<u8> = d.name_at(i);
        assert(f.take(i + 1).drop_last() =~= f.take(i as int));
        assert(f.take(i + 1).last() == f[i as int]);
        if parse_segment(name.as_slice()).is_some() {
            out.push(copy_bytes(name.as_slice()));
        }
        i = i + 1;
    }
    assert(f.take(f.len() as int) =~= f);
    out
}

/// Replay every segment in order.
///
/// Returns the records and the torn tail of the last segment, if there is one: the records
/// before it are complete and durable, and that is not an error. A bad record in any earlier
/// segment is corruption and is reported rather than silently truncating history.
pub fn replay(d: &DirImage) -> (r: Result<(Vec<Record>, Option<TornTail>), CorruptSegment>)
    ensures
        match r {
            Ok((rs, torn)) => replayed(segments(d@)) == Ok::<
                (Seq<LogRecord>, Option<Torn>),
                Corrupt,
            >((wal_record::records(rs@), torn_view(torn))),
            Err(e) => replayed(segments(d@)) == Err::<(Seq<LogRecord>, Option<Torn>), Corrupt>(
                (e.segment@, e.offset as nat, e.later as nat),
            ),
        },
{
    let names: Vec<Vec<u8>> = list_segments(d);
    let ghost segs = segments(d@);
    proof {
        assoc::lemma_keep(d@, is_segment());
        assert(segs.skip(0) =~= segs);
    }
    let mut out: Vec<Record> = Vec::new();
    let mut i: usize = 0;
    proof {
        lemma_after_records(wal_record::records(out@), replayed(segs));
    }
    while i < names.len()
        invariant
            i <= names.len(),
            names@.len() == segs.len(),
            segs == segments(d@),
            assoc::sorted(d@),
            forall|j: int| 0 <= j < names@.len() ==> #[trigger] names@[j]@ == segs[j].0,
            replayed(segs) == after_records(
                wal_record::records(out@),
                replayed(segs.skip(i as int)),
            ),
        decreases names.len() - i,
    {
        proof {
            assoc::lemma_keep(d@, is_segment());
            assoc::lemma_find_at(segs, i as int);
            assert(names@[i as int]@ == segs[i as int].0);
            assert(assoc::find(segments(d@), segs[i as int].0) == Some(segs[i as int].1));
        }
        let ghost rest = segs.skip(i as int);
        match d.read(names[i].as_slice()) {
            None => {},
            Some(data) => {
                let (mut recs, torn) = scan_segment(data.as_slice());
                let ghost before = wal_record::records(out@);
                let ghost added = wal_record::records(recs@);
                out.append(&mut recs);
                proof {
                    assert(wal_record::records(out@) =~= before + added);
                    assert(rest[0] == segs[i as int]);
                    assert(rest.skip(1) =~= segs.skip(i + 1));
                }
                match torn {
                    Some(offset) => {
                        let later: usize = names.len() - 1 - i;
                        let segment: Vec<u8> = copy_bytes(names[i].as_slice());
                        if later > 0 {
                            return Err(CorruptSegment { segment, offset, later });
                        }
                        return Ok((out, Some(TornTail { segment, offset })));
                    },
                    None => {
                        proof {
                            match replayed(rest.skip(1)) {
                                Err(e) => {},
                                Ok((more, t)) => {
                                    assert(before + (added + more) =~= before + added + more);
                                },
                            }
                        }
                    },
                }
            },
        }
        i = i + 1;
    }
    proof {
        assert(segs.skip(segs.len() as int) =~= seq![]);
        assert(wal_record::records(out@) + Seq::<LogRecord>::empty() =~= wal_record::records(out@));
    }
    Ok((out, None))
}

/// The name and offset of a torn tail.
pub open spec fn torn_view(t: Option<TornTail>) -> Option<Torn> {
    match t {
        None => None,
        Some(x) => Some((x.segment@, x.offset as nat)),
    }
}

/// A replay with `front` read before it.
spec fn after_records(
    front: Seq<LogRecord>,
    r: Result<(Seq<LogRecord>, Option<Torn>), Corrupt>,
) -> Result<(Seq<LogRecord>, Option<Torn>), Corrupt> {
    match r {
        Err(e) => Err(e),
        Ok((more, t)) => Ok((front + more, t)),
    }
}

proof fn lemma_after_records(
    front: Seq<LogRecord>,
    r: Result<(Seq<LogRecord>, Option<Torn>), Corrupt>,
)
    requires
        front.len() == 0,
    ensures
        after_records(front, r) == r,
{
    match r {
        Err(e) => {},
        Ok((more, t)) => {
            assert(front + more =~= more);
        },
    }
}

// ---------------------------------------------------------------------------
// The open log
// ---------------------------------------------------------------------------

/// Where the log is being written.
#[verifier::ext_equal]
pub struct LogPos {
    /// Sequence number of the current segment.
    pub seq: nat,
    /// Name of the current segment.
    pub name: Seq<u8>,
    /// Bytes in the current segment.
    pub bytes: nat,
    /// Rotation threshold.
    pub max: nat,
    /// Whether a step failed, and may have left something behind the end of the log.
    pub torn: bool,
}

/// The end of a segmented log.
///
/// The methods that change the log hand out the steps to perform; [`Wal::performed`] then
/// follows each step that has been performed, and [`Wal::failed`] notes that one was not.
#[derive(Debug)]
pub struct Wal {
    seg_seq: u32,
    seg_name: Vec<u8>,
    seg_bytes: u64,
    torn: bool,
    /// Rotation threshold.
    pub max_seg_bytes: u64,
}

/// The position after opening the log of a directory, and the steps to open it: a first
/// segment where there is none, and the torn tail of the latest one cut off.
pub open spec fn opened(f: Files, max: nat) -> (LogPos, Seq<Step>) {
    let segs = segments(f);
    let limit = if max < MIN_PAYLOAD + 8 {
        (MIN_PAYLOAD + 8) as nat
    } else {
        max
    };
    if segs.len() == 0 {
        (
            LogPos { seq: 1, name: segment_name(1), bytes: 0, max: limit, torn: false },
            seq![Step::Create(segment_name(1), seq![])],
        )
    } else {
        let (name, data) = segs.last();
        let seq = segment_seq(name)->0;
        match wal_record::scan(data).1 {
            None => (LogPos { seq, name, bytes: data.len(), max: limit, torn: false }, seq![]),
            Some(off) => (
                LogPos { seq, name, bytes: off, max: limit, torn: false },
                seq![Step::Truncate(name, off)],
            ),
        }
    }
}

/// The position after a step has been performed.
pub open spec fn after(w: LogPos, a: Step) -> LogPos {
    match a {
        Step::Create(name, data) => if w.seq < u32::MAX && name == segment_name(w.seq + 1) {
            LogPos { seq: w.seq + 1, name, bytes: data.len(), max: w.max, torn: false }
        } else {
            w
        },
        Step::Append(name, data) => if name == w.name {
            LogPos { bytes: w.bytes + data.len(), ..w }
        } else {
            w
        },
        _ => w,
    }
}

/// The position after several steps.
pub open spec fn after_all(w: LogPos, plan: Seq<Step>) -> LogPos
    decreases plan.len(),
{
    if plan.len() == 0 {
        w
    } else {
        after(after_all(w, plan.drop_last()), plan.last())
    }
}

/// The step that starts the next segment.
pub open spec fn rotate_step(w: LogPos) -> Step {
    Step::Create(segment_name(w.seq + 1), seq![])
}

/// The steps that start the next segment: after a step that failed, the current segment is first
/// cut to where the log ends.
pub open spec fn rotate_steps(w: LogPos) -> Seq<Step> {
    if w.torn {
        seq![Step::Truncate(w.name, w.bytes), rotate_step(w)]
    } else {
        seq![rotate_step(w)]
    }
}

/// Whether appending `n` bytes to a segment in use would overflow it.
pub open spec fn overflows(w: LogPos, n: nat) -> bool {
    w.bytes > 0 && w.bytes + n > w.max
}

/// Whether `n` bytes go into a new segment.
pub open spec fn rotates(w: LogPos, n: nat) -> bool {
    w.torn || overflows(w, n)
}

/// The steps that append records: one write, after a rotation where it would overflow the
/// current segment or a step has failed.
pub open spec fn append_steps(w: LogPos, rs: Seq<LogRecord>) -> Seq<Step> {
    let buf = wal_record::frames(rs);
    if rotates(w, buf.len()) {
        rotate_steps(w).push(Step::Append(segment_name(w.seq + 1), buf))
    } else {
        seq![Step::Append(w.name, buf)]
    }
}

/// Whether there is a segment number left for these records, where they need one.
pub open spec fn can_append(w: LogPos, rs: Seq<LogRecord>) -> bool {
    rotates(w, wal_record::frames(rs).len()) ==> w.seq < u32::MAX
}

/// The steps that delete the segments numbered below `boundary`, in order.
pub open spec fn remove_steps(names: Seq<Seq<u8>>, boundary: nat) -> Seq<Step>
    decreases names.len(),
{
    if names.len() == 0 {
        seq![]
    } else {
        let front = remove_steps(names.drop_last(), boundary);
        match segment_seq(names.last()) {
            Some(seq) => if seq < boundary {
                front.push(Step::Remove(names.last()))
            } else {
                front
            },
            None => front,
        }
    }
}

/// The byte strings of `names`.
pub open spec fn names_view(names: Seq<Vec<u8>>) -> Seq<Seq<u8>> {
    names.map_values(|n: Vec<u8>| n@)
}

impl Wal {
    pub closed spec fn view(&self) -> LogPos {
        LogPos {
            seq: self.seg_seq as nat,
            name: self.seg_name@,
            bytes: self.seg_bytes as nat,
            max: self.max_seg_bytes as nat,
            torn: self.torn,
        }
    }

    /// Open the log of a directory: resume the latest segment, cutting off its torn tail, or
    /// start a first one. Earlier segments are left untouched for the caller to [`replay`].
    pub fn open(d: &DirImage, max_seg_bytes: u64) -> (r: (Wal, Vec<FileAction>))
        ensures
            (r.0@, dir::steps(r.1@)) == opened(d@, max_seg_bytes as nat),
    {
        let names: Vec<Vec<u8>> = list_segments(d);
        let ghost segs = segments(d@);
        let max: u64 = if max_seg_bytes < MIN_PAYLOAD as u64 + 8 {
            MIN_PAYLOAD as u64 + 8
        } else {
            max_seg_bytes
        };
        let mut plan: Vec<FileAction> = Vec::new();
        assert(dir::steps(plan@) =~= seq![]);
        if names.len() == 0 {
            let name: Vec<u8> = segment_file(1);
            let empty: Vec<u8> = Vec::new();
            assert(empty@ =~= seq![]);
            plan.push(FileAction::Create { name: copy_bytes(name.as_slice()), data: empty });
            let w = Wal {
                seg_seq: 1,
                seg_name: name,
                seg_bytes: 0,
                torn: false,
                max_seg_bytes: max,
            };
            assert(dir::steps(plan@) =~= seq![Step::Create(segment_name(1), seq![])]);
            return (w, plan);
        }
        let last: &Vec<u8> = &names[names.len() - 1];
        proof {
            assoc::lemma_keep(d@, is_segment());
            assert(last@ == segs[segs.len() - 1].0);
            assoc::lemma_find_at(segs, segs.len() - 1);
            assert(assoc::find(segments(d@), last@) == Some(segs.last().1));
            assert(is_segment()(segs[segs.len() - 1].0));
        }
        let mut seq: u32 = 0;
        if let Some(n) = parse_segment(last.as_slice()) {
            seq = n;
        }
        let mut bytes: u64 = 0;
        if let Some(data) = d.read(last.as_slice()) {
            let (_recs, torn) = scan_segment(data.as_slice());
            bytes = data.len() as u64;
            if let Some(off) = torn {
                plan.push(FileAction::Truncate { name: copy_bytes(last.as_slice()), len: off });
                bytes = off;
            }
        }
        let w = Wal {
            seg_seq: seq,
            seg_name: copy_bytes(last.as_slice()),
            seg_bytes: bytes,
            torn: false,
            max_seg_bytes: max,
        };
        proof {
            let (pos, steps) = opened(d@, max_seg_bytes as nat);
            assert(dir::steps(plan@) =~= steps);
            assert(w@ =~= pos);
        }
        (w, plan)
    }

    /// The sequence number of the current segment.
    pub fn current(&self) -> (r: u32)
        ensures
            r == self@.seq,
    {
        self.seg_seq
    }

    /// Whether there is a segment number left for these records, where they need one.
    pub fn can_append(&self, recs: &Vec<Record>) -> (r: bool)
        ensures
            r == can_append(self@, wal_record::records(recs@)),
    {
        self.seg_seq < u32::MAX || !self.rotates(encode_records(recs).len() as u64)
    }

    /// Whether `n` bytes go into a new segment.
    fn rotates(&self, n: u64) -> (r: bool)
        ensures
            r == rotates(self@, n as nat),
    {
        self.torn || (self.seg_bytes > 0 && (self.seg_bytes > self.max_seg_bytes || n
            > self.max_seg_bytes - self.seg_bytes))
    }

    /// The steps that append one record.
    pub fn append(&self, rec: &Record) -> (r: Vec<FileAction>)
        requires
            can_append(self@, seq![rec@]),
        ensures
            dir::steps(r@) == append_steps(self@, seq![rec@]),
    {
        let one: Vec<Record> = vec![rec.clone()];
        assert(wal_record::records(one@) =~= seq![rec@]);
        self.append_many(&one)
    }

    /// The steps that append several records with one write.
    pub fn append_many(&self, recs: &Vec<Record>) -> (r: Vec<FileAction>)
        requires
            can_append(self@, wal_record::records(recs@)),
        ensures
            dir::steps(r@) == append_steps(self@, wal_record::records(recs@)),
    {
        let buf: Vec<u8> = encode_records(recs);
        let mut plan: Vec<FileAction> = Vec::new();
        if self.rotates(buf.len() as u64) {
            let (start, seq) = self.rotate_segment();
            plan = start;
            plan.push(FileAction::Append { name: segment_file(seq), data: buf });
        } else {
            plan.push(FileAction::Append { name: copy_bytes(self.seg_name.as_slice()), data: buf });
        }
        assert(dir::steps(plan@) =~= append_steps(self@, wal_record::records(recs@)));
        plan
    }

    /// The steps that start the next segment, and its number: every later record goes into a
    /// segment numbered at or above it.
    pub fn rotate_segment(&self) -> (r: (Vec<FileAction>, u32))
        requires
            self@.seq < u32::MAX,
        ensures
            dir::steps(r.0@) == rotate_steps(self@),
            r.1 == self@.seq + 1,
    {
        let mut plan: Vec<FileAction> = Vec::new();
        if self.torn {
            let name: Vec<u8> = copy_bytes(self.seg_name.as_slice());
            plan.push(FileAction::Truncate { name, len: self.seg_bytes });
        }
        let empty: Vec<u8> = Vec::new();
        assert(empty@ =~= seq![]);
        plan.push(FileAction::Create { name: segment_file(self.seg_seq + 1), data: empty });
        assert(dir::steps(plan@) =~= rotate_steps(self@));
        (plan, self.seg_seq + 1)
    }

    /// The steps that delete every segment of the log and start a fresh one. To be called only
    /// when a durable checkpoint covers their contents.
    pub fn truncate_all(&self, names: &Vec<Vec<u8>>) -> (r: Vec<FileAction>)
        requires
            self@.seq < u32::MAX,
        ensures
            dir::steps(r@) == names_view(names@).map_values(|n: Seq<u8>| Step::Remove(n)).push(
                rotate_step(self@),
            ),
    {
        let ghost todo = names_view(names@).map_values(|n: Seq<u8>| Step::Remove(n));
        let mut plan: Vec<FileAction> = Vec::new();
        let mut i: usize = 0;
        assert(dir::steps(plan@) =~= todo.take(0));
        while i < names.len()
            invariant
                i <= names.len(),
                todo == names_view(names@).map_values(|n: Seq<u8>| Step::Remove(n)),
                dir::steps(plan@) == todo.take(i as int),
            decreases names.len() - i,
        {
            let ghost before = dir::steps(plan@);
            plan.push(FileAction::Remove { name: copy_bytes(names[i].as_slice()) });
            assert(dir::steps(plan@) =~= before.push(todo[i as int]));
            assert(dir::steps(plan@) =~= todo.take(i + 1));
            i = i + 1;
        }
        let empty: Vec<u8> = Vec::new();
        assert(empty@ =~= seq![]);
        let create = FileAction::Create { name: segment_file(self.seg_seq + 1), data: empty };
        let ghost before = dir::steps(plan@);
        assert(before =~= todo);
        plan.push(create);
        assert(dir::steps(plan@) =~= before.push(create@));
        assert(dir::steps(plan@) =~= todo.push(rotate_step(self@)));
        plan
    }

    /// Whether the size of the current segment still fits after a step.
    pub fn fits(&self, a: &FileAction) -> (r: bool)
        ensures
            r == (after(self@, a@).bytes <= u64::MAX),
    {
        match a {
            FileAction::Append { name, data } => {
                !bytes_eq(name.as_slice(), self.seg_name.as_slice()) || data.len() as u64
                    <= u64::MAX - self.seg_bytes
            },
            FileAction::Create { name: _, data } => {
                assert(data@.len() == data.len());
                true
            },
            _ => true,
        }
    }

    /// Follow a step that has been performed.
    pub fn performed(&mut self, a: &FileAction)
        requires
            after(old(self)@, a@).bytes <= u64::MAX,
        ensures
            final(self)@ == after(old(self)@, a@),
    {
        match a {
            FileAction::Create { name, data } => {
                if self.seg_seq < u32::MAX {
                    let next: Vec<u8> = segment_file(self.seg_seq + 1);
                    if bytes_eq(name.as_slice(), next.as_slice()) {
                        self.seg_seq = self.seg_seq + 1;
                        self.seg_name = next;
                        self.seg_bytes = data.len() as u64;
                        self.torn = false;
                    }
                }
            },
            FileAction::Append { name, data } => {
                if bytes_eq(name.as_slice(), self.seg_name.as_slice()) {
                    self.seg_bytes = self.seg_bytes + data.len() as u64;
                }
            },
            _ => {},
        }
        assert(self@ =~= after(old(self)@, a@));
    }

    /// Note that a step could not be performed, or only in part.
    pub fn failed(&mut self)
        ensures
            final(self)@ == (LogPos { torn: true, ..old(self)@ }),
    {
        self.torn = true;
        assert(self@ =~= LogPos { torn: true, ..old(self)@ });
    }
}

/// The steps that delete the listed segments numbered below `boundary`.
pub fn remove_segments_before(names: &Vec<Vec<u8>>, boundary: u32) -> (r: Vec<FileAction>)
    ensures
        dir::steps(r@) == remove_steps(names_view(names@), boundary as nat),
{
    let ghost ns = names_view(names@);
    let mut plan: Vec<FileAction> = Vec::new();
    let mut i: usize = 0;
    assert(ns.take(0) =~= seq![]);
    assert(dir::steps(plan@) =~= remove_steps(ns.take(0), boundary as nat));
    while i < names.len()
        invariant
            i <= names.len(),
            ns == names_view(names@),
            dir::steps(plan@) == remove_steps(ns.take(i as int), boundary as nat),
        decreases names.len() - i,
    {
        let ghost before = dir::steps(plan@);
        assert(ns.take(i + 1).drop_last() =~= ns.take(i as int));
        assert(ns.take(i + 1).last() == names@[i as int]@);
        if let Some(seq) = parse_segment(names[i].as_slice()) {
            if seq < boundary {
                plan.push(FileAction::Remove { name: copy_bytes(names[i].as_slice()) });
                assert(dir::steps(plan@) =~= before.push(Step::Remove(ns[i as int])));
            }
        }
        i = i + 1;
    }
    assert(ns.take(ns.len() as int) =~= ns);
    plan
}

// ---------------------------------------------------------------------------
// Durability
// ---------------------------------------------------------------------------

/// The directory `f` holds an intact log that is being written at `w`.
pub open spec fn tracks(w: LogPos, f: Files) -> bool {
    let segs = segments(f);
    &&& assoc::sorted(f)
    &&& clean(segs)
    &&& segs.len() > 0
    &&& segs.last().0 == w.name
    &&& segs.last().1.len() == w.bytes
    &&& w.name == segment_name(w.seq)
    &&& w.seq <= u32::MAX
    &&& !w.torn
}

/// The records of the log in `f`.
pub open spec fn log_of(f: Files) -> Seq<LogRecord> {
    records_of(segments(f))
}

proof fn lemma_clean_push(front: Files, last: (Seq<u8>, Seq<u8>))
    requires
        clean(front),
        wal_record::scan(last.1).1 is None,
    ensures
        clean(front.push(last)),
{
    let segs = front.push(last);
    assert forall|i: int| 0 <= i < segs.len() implies wal_record::scan(
        (#[trigger] segs[i]).1,
    ).1 is None by {
        if i < front.len() {
            assert(segs[i] == front[i]);
        }
    }
}

proof fn lemma_clean_front(segs: Files)
    requires
        clean(segs),
        segs.len() > 0,
    ensures
        clean(segs.drop_last()),
        wal_record::scan(segs.last().1).1 is None,
{
    let front = segs.drop_last();
    assert forall|i: int| 0 <= i < front.len() implies wal_record::scan(
        (#[trigger] front[i]).1,
    ).1 is None by {
        assert(front[i] == segs[i]);
    }
    assert(wal_record::scan(segs[segs.len() - 1].1).1 is None);
}

/// Writing `data` after the current end of the log.
pub proof fn lemma_extend(w: LogPos, f: Files, data: Seq<u8>)
    requires
        tracks(w, f),
    ensures
        ({
            let g = assoc::upsert(f, w.name, dir::content(f, w.name) + data);
            let old = segments(f);
            &&& g == dir::apply(f, Step::Append(w.name, data))
            &&& assoc::sorted(g)
            &&& segments(g) == old.drop_last().push((w.name, old.last().1 + data))
            &&& clean(old.drop_last())
            &&& wal_record::scan(old.last().1).1 is None
            &&& log_of(f) == records_of(old.drop_last()) + wal_record::scan(old.last().1).0
        }),
{
    let segs = segments(f);
    let name = w.name;
    lemma_segment_name(w.seq);
    assoc::lemma_keep(f, is_segment());
    assoc::lemma_upsert_last(segs, segs.last().1 + data);
    assert(assoc::find(segments(f), name) == Some(segs.last().1));
    assert(dir::content(f, name) == segs.last().1);
    assoc::lemma_upsert(f, name, segs.last().1 + data);
    assoc::lemma_keep_upsert(f, is_segment(), name, segs.last().1 + data);
    lemma_clean_front(segs);
    assert(segs =~= segs.drop_last().push(segs.last()));
    lemma_records_of_push(segs.drop_last(), segs.last());
}

/// Starting a new segment keeps every record.
pub proof fn law_rotation_keeps_the_log(w: LogPos, f: Files)
    requires
        tracks(w, f),
        w.seq < u32::MAX,
    ensures
        tracks(after(w, rotate_step(w)), dir::apply(f, rotate_step(w))),
        log_of(dir::apply(f, rotate_step(w))) == log_of(f),
        segments(dir::apply(f, rotate_step(w))) == segments(f).push(
            (segment_name(w.seq + 1), seq![]),
        ),
{
    let segs = segments(f);
    let name = segment_name(w.seq + 1);
    lemma_segment_name(w.seq + 1);
    law_names_sort(w.seq, w.seq + 1);
    assoc::lemma_keep(f, is_segment());
    assoc::lemma_upsert_new_last(segs, name, seq![]);
    assoc::lemma_upsert(f, name, seq![]);
    assoc::lemma_keep_upsert(f, is_segment(), name, seq![]);
    assert(wal_record::scan(seq![]) == (Seq::<LogRecord>::empty(), None::<nat>));
    lemma_clean_push(segs, (name, seq![]));
    lemma_records_of_push(segs, (name, seq![]));
    assert(records_of(segs) + Seq::<LogRecord>::empty() =~= records_of(segs));
}

proof fn lemma_write(w: LogPos, f: Files, rs: Seq<LogRecord>)
    requires
        tracks(w, f),
        forall|i: int| 0 <= i < rs.len() ==> wal_record::encodable(#[trigger] rs[i]),
    ensures
        ({
            let a = Step::Append(w.name, wal_record::frames(rs));
            &&& tracks(after(w, a), dir::apply(f, a))
            &&& log_of(dir::apply(f, a)) == log_of(f) + rs
        }),
{
    let segs = segments(f);
    let old = segs.last().1;
    let front = segs.drop_last();
    let buf = wal_record::frames(rs);
    lemma_extend(w, f, buf);
    wal_record::law_append_is_read_back(old, rs);
    lemma_clean_push(front, (w.name, old + buf));
    lemma_records_of_push(front, (w.name, old + buf));
    let a = records_of(front);
    let b = wal_record::scan(old).0;
    assert(a + (b + rs) =~= a + b + rs);
}

/// Once the steps of an append have been performed, the log holds the new records after the
/// old ones, and is being written where [`after_all`] says.
pub proof fn law_append_is_durable(w: LogPos, f: Files, rs: Seq<LogRecord>)
    requires
        tracks(w, f),
        can_append(w, rs),
        forall|i: int| 0 <= i < rs.len() ==> wal_record::encodable(#[trigger] rs[i]),
    ensures
        tracks(after_all(w, append_steps(w, rs)), dir::apply_all(f, append_steps(w, rs))),
        log_of(dir::apply_all(f, append_steps(w, rs))) == log_of(f) + rs,
{
    let plan = append_steps(w, rs);
    let buf = wal_record::frames(rs);
    if overflows(w, buf.len()) {
        let a = rotate_step(w);
        let b = Step::Append(segment_name(w.seq + 1), buf);
        assert(plan =~= seq![a, b]);
        law_rotation_keeps_the_log(w, f);
        lemma_write(after(w, a), dir::apply(f, a), rs);
        dir::lemma_apply_two(f, a, b);
        lemma_after_two(w, a, b);
    } else {
        let a = Step::Append(w.name, buf);
        lemma_write(w, f, rs);
        dir::lemma_apply_one(f, a);
        lemma_after_one(w, a);
    }
}

pub proof fn lemma_after_one(w: LogPos, a: Step)
    ensures
        after_all(w, seq![a]) == after(w, a),
{
    reveal_with_fuel(after_all, 2);
    assert(seq![a].drop_last() =~= seq![]);
}

pub proof fn lemma_after_two(w: LogPos, a: Step, b: Step)
    ensures
        after_all(w, seq![a, b]) == after(after(w, a), b),
{
    assert(seq![a, b].drop_last() =~= seq![a]);
    lemma_after_one(w, a);
}

pub proof fn lemma_after_add(w: LogPos, p: Seq<Step>, q: Seq<Step>)
    ensures
        after_all(w, p + q) == after_all(after_all(w, p), q),
    decreases q.len(),
{
    if q.len() == 0 {
        assert(p + q =~= p);
    } else {
        assert((p + q).drop_last() =~= p + q.drop_last());
        lemma_after_add(w, p, q.drop_last());
    }
}

/// A crash while appending: what replay finds.
pub open spec fn replays_prefix(g: Files, before: Seq<LogRecord>, rs: Seq<LogRecord>) -> bool {
    exists|j: int|
        0 <= j <= rs.len() && #[trigger] replays(g, before + rs.take(j))
}

/// Replaying the log of `g` gives these records, with or without a torn tail.
pub open spec fn replays(g: Files, rs: Seq<LogRecord>) -> bool {
    replayed(segments(g)) matches Ok((xs, t)) && xs == rs
}

proof fn lemma_write_interrupted(w: LogPos, f: Files, rs: Seq<LogRecord>, g: Files)
    requires
        tracks(w, f),
        forall|i: int| 0 <= i < rs.len() ==> wal_record::encodable(#[trigger] rs[i]),
        dir::interrupted(f, Step::Append(w.name, wal_record::frames(rs)), g),
    ensures
        assoc::sorted(g),
        replays_prefix(g, log_of(f), rs),
{
    let segs = segments(f);
    let buf = wal_record::frames(rs);
    if g == f {
        lemma_replay_clean(segs);
        assert(log_of(f) + rs.take(0) =~= log_of(f));
        assert(replays(g, log_of(f) + rs.take(0)));
    } else {
        let n = choose|n: int|
            0 <= n <= buf.len() && g == #[trigger] assoc::upsert(
                f,
                w.name,
                dir::content(f, w.name) + buf.take(n),
            );
        let old = segs.last().1;
        let front = segs.drop_last();
        lemma_extend(w, f, buf.take(n));
        wal_record::law_torn_append(old, rs, n);
        let j = wal_record::survivors(rs, n) as int;
        lemma_replay_last(front, (w.name, old + buf.take(n)));
        let a = records_of(front);
        let b = wal_record::scan(old).0;
        assert(a + (b + rs.take(j)) =~= a + b + rs.take(j));
        assert(replays(g, log_of(f) + rs.take(j)));
    }
}

/// A crash at any point of an append leaves a log that replays the old records and some whole
/// number of the new ones, in order: no record is lost, none is read in part.
pub proof fn law_append_survives_a_crash(w: LogPos, f: Files, rs: Seq<LogRecord>, g: Files)
    requires
        tracks(w, f),
        can_append(w, rs),
        forall|i: int| 0 <= i < rs.len() ==> wal_record::encodable(#[trigger] rs[i]),
        dir::crashed(f, append_steps(w, rs), g),
    ensures
        assoc::sorted(g),
        replays_prefix(g, log_of(f), rs),
{
    let plan = append_steps(w, rs);
    let n = choose|n: int| dir::crashed_at(f, plan, g, n);
    assert(dir::crashed_at(f, plan, g, n));
    law_append_is_durable(w, f, rs);
    assert(plan.take(0) =~= seq![]);
    assert(dir::apply_all(f, plan.take(0)) == f);
    lemma_replay_clean(segments(f));
    assert(log_of(f) + rs.take(0) =~= log_of(f));
    assert(replays(f, log_of(f) + rs.take(0)));
    if n == plan.len() {
        lemma_replay_clean(segments(g));
        assert(rs.take(rs.len() as int) =~= rs);
        assert(replays(g, log_of(f) + rs.take(rs.len() as int)));
    } else if plan.len() == 1 {
        lemma_write_interrupted(w, f, rs, g);
    } else {
        let a = rotate_step(w);
        law_rotation_keeps_the_log(w, f);
        dir::lemma_apply_one(f, a);
        assert(plan.take(1) =~= seq![a]);
        let f1 = dir::apply(f, a);
        if n == 0 {
            assert(g == f || g == f1) by {
                let empty = Seq::<u8>::empty();
                if g != f {
                    let m = choose|m: int|
                        0 <= m <= empty.len() && g == #[trigger] assoc::upsert(
                            f,
                            segment_name(w.seq + 1),
                            empty.take(m),
                        );
                    assert(empty.take(m) =~= empty);
                }
            }
            lemma_replay_clean(segments(f1));
            assert(replays(f1, log_of(f) + rs.take(0)));
        } else {
            lemma_write_interrupted(after(w, a), f1, rs, g);
        }
    }
}

/// The position once what a failed step left behind is cleared.
pub open spec fn mended(w: LogPos) -> LogPos {
    LogPos { torn: false, ..w }
}

/// `g` is the directory `f` with what a step on the log at `w` can leave behind when it fails:
/// bytes after the end of the log, or the next segment, empty.
pub open spec fn left_over(f: Files, w: LogPos, g: Files) -> bool {
    ||| g == f
    ||| exists|extra: Seq<u8>| g == #[trigger] dir::apply(f, Step::Append(w.name, extra))
    ||| g == dir::apply(f, rotate_step(w))
}

/// The directory `g` holds the log of `f`, being written at `w`, with no more than what a failed
/// step left behind.
pub open spec fn stands(w: LogPos, f: Files, g: Files) -> bool {
    &&& tracks(mended(w), f)
    &&& if w.torn {
        left_over(f, w, g)
    } else {
        g == f
    }
}

/// Writing a file twice is writing it once, and writing what is there changes nothing.
proof fn lemma_rewrite(f: Files, name: Seq<u8>, a: Seq<u8>, b: Seq<u8>)
    requires
        assoc::sorted(f),
    ensures
        assoc::upsert(assoc::upsert(f, name, a), name, b) == assoc::upsert(f, name, b),
        assoc::find(f, name) == Some(b) ==> assoc::upsert(f, name, b) == f,
{
    let g = assoc::upsert(f, name, a);
    let h = assoc::upsert(f, name, b);
    assoc::lemma_upsert(f, name, a);
    assoc::lemma_upsert(g, name, b);
    assoc::lemma_upsert(f, name, b);
    assoc::lemma_same_finds(assoc::upsert(g, name, b), h);
    if assoc::find(f, name) == Some(b) {
        assoc::lemma_same_finds(h, f);
    }
}

/// Cutting the segment clears what a failed step left behind, but for an empty next segment,
/// which starting that segment replaces.
pub proof fn lemma_cut(w: LogPos, f: Files, g: Files)
    requires
        tracks(mended(w), f),
        w.seq < u32::MAX,
        left_over(f, w, g),
    ensures
        ({
            let c = dir::apply(g, Step::Truncate(w.name, w.bytes));
            let r = dir::apply(f, rotate_step(w));
            &&& c == f || c == r
            &&& dir::apply(c, rotate_step(w)) == r
        }),
{
    let segs = segments(f);
    let next = segment_name(w.seq + 1);
    let r = dir::apply(f, rotate_step(w));
    let data = segs.last().1;
    let empty = Seq::<u8>::empty();
    lemma_segment_name(w.seq);
    lemma_segment_name(w.seq + 1);
    law_names_sort(w.seq, w.seq + 1);
    bytes::lemma_lex_irreflexive(w.name);
    assoc::lemma_keep(f, is_segment());
    assoc::lemma_upsert_last(segs, data);
    assert(assoc::find(segments(f), w.name) == Some(data));
    assert(assoc::find(f, w.name) == Some(data));
    assoc::lemma_upsert(f, next, empty);
    lemma_rewrite(f, next, empty, empty);
    lemma_rewrite(f, w.name, data, data);
    lemma_rewrite(r, w.name, data, data);
    assert(dir::cut(data, w.bytes) =~= data);
    if g != f && g != r {
        let extra = choose|extra: Seq<u8>|
            g == #[trigger] dir::apply(f, Step::Append(w.name, extra));
        assoc::lemma_upsert(f, w.name, data + extra);
        assert(dir::cut(data + extra, w.bytes) =~= data);
        lemma_rewrite(f, w.name, data + extra, data);
    }
}

/// After a step that failed, the next append or rotation clears what it left behind: the steps
/// of an append are those that start a new segment, then those of an append there, and starting
/// the segment gives the directory that starting it would have given had no step failed.
pub proof fn law_a_failed_step_is_made_good(w: LogPos, f: Files, g: Files, rs: Seq<LogRecord>)
    requires
        stands(w, f, g),
        w.seq < u32::MAX,
    ensures
        dir::apply_all(g, rotate_steps(w)) == dir::apply(f, rotate_step(w)),
        after_all(w, rotate_steps(w)) == after(mended(w), rotate_step(w)),
        w.torn ==> append_steps(w, rs) == rotate_steps(w) + append_steps(
            after(mended(w), rotate_step(w)),
            rs,
        ),
{
    let a = Step::Truncate(w.name, w.bytes);
    let b = rotate_step(w);
    if w.torn {
        lemma_cut(w, f, g);
        dir::lemma_apply_two(g, a, b);
        lemma_after_two(w, a, b);
        assert(append_steps(w, rs) =~= rotate_steps(w) + append_steps(after(mended(w), b), rs));
    } else {
        assert(mended(w) =~= w);
        dir::lemma_apply_one(g, b);
        lemma_after_one(w, b);
    }
}

/// Starting a segment that fails at its step `n` leaves no more than the next append clears.
pub proof fn law_a_failed_rotation_leaves_a_log(w: LogPos, f: Files, g: Files, n: int, h: Files)
    requires
        stands(w, f, g),
        w.seq < u32::MAX,
        n < rotate_steps(w).len(),
        dir::crashed_at(g, rotate_steps(w), h, n),
    ensures
        after_all(w, rotate_steps(w).take(n)) == w,
        stands(LogPos { torn: true, ..w }, f, h),
{
    let plan = rotate_steps(w);
    let g1 = dir::apply_all(g, plan.take(n));
    let empty = Seq::<u8>::empty();
    assert(empty.take(0) =~= empty);
    assert(plan.take(0) =~= seq![]);
    if n == 1 {
        assert(plan.take(1) =~= seq![plan[0]]);
        lemma_after_one(w, plan[0]);
        dir::lemma_apply_one(g, plan[0]);
    }
    if w.torn {
        lemma_cut(w, f, g);
    }
    if n == plan.len() - 1 && h != g1 {
        let m = choose|m: int|
            0 <= m <= empty.len() && h == #[trigger] assoc::upsert(
                g1,
                segment_name(w.seq + 1),
                empty.take(m),
            );
        assert(empty.take(m) =~= empty);
    }
}

/// An append that fails at its step `n` leaves no more than the next append clears: the log of
/// before, being written where the performed steps have left it.
#[verifier::spinoff_prover]
#[verifier::rlimit(40)]
pub proof fn law_a_failed_append_leaves_a_log(
    w: LogPos,
    f: Files,
    g: Files,
    rs: Seq<LogRecord>,
    n: int,
    h: Files,
) -> (f1: Files)
    requires
        stands(w, f, g),
        can_append(w, rs),
        n < append_steps(w, rs).len(),
        dir::crashed_at(g, append_steps(w, rs), h, n),
    ensures
        ({
            let w1 = after_all(w, append_steps(w, rs).take(n));
            &&& stands(LogPos { torn: true, ..w1 }, f1, h)
            &&& log_of(f1) == log_of(f)
            &&& f1 == f || (w.seq < u32::MAX && f1 == dir::apply(f, rotate_step(w)))
        }),
{
    let plan = append_steps(w, rs);
    let buf = wal_record::frames(rs);
    let next = segment_name(w.seq + 1);
    let w1 = after_all(w, plan.take(n));
    let r = dir::apply(f, rotate_step(w));
    assert(plan.take(0) =~= seq![]);
    if !rotates(w, buf.len()) {
        lemma_left_over(f, w, w.name, buf, h);
        f
    } else {
        law_rotation_keeps_the_log(mended(w), f);
        law_a_failed_step_is_made_good(w, f, g, rs);
        if n == plan.len() - 1 {
            assert(plan.take(n) =~= rotate_steps(w));
            lemma_left_over(r, w1, next, buf, h);
            r
        } else {
            assert(plan.take(n) =~= rotate_steps(w).take(n));
            law_a_failed_rotation_leaves_a_log(w, f, g, n, h);
            f
        }
    }
}

proof fn lemma_left_over(f: Files, w: LogPos, name: Seq<u8>, buf: Seq<u8>, h: Files)
    requires
        name == w.name,
        dir::interrupted(f, Step::Append(name, buf), h),
    ensures
        left_over(f, w, h),
{
    if h != f {
        let m = choose|m: int|
            0 <= m <= buf.len() && h == #[trigger] assoc::upsert(
                f,
                name,
                dir::content(f, name) + buf.take(m),
            );
        assert(h == dir::apply(f, Step::Append(w.name, buf.take(m))));
    }
}

/// A segment's name is `wal-`, its number in ten digits or more, and `.log`; a file is a segment
/// exactly if its name has that frame around what reads as a number that fits 32 bits.
#[verifier::spinoff_prover]
#[verifier::rlimit(40)]
pub proof fn law_what_a_segment_is_called(seq: nat, name: Seq<u8>, t: Seq<u8>)
    ensures
        segment_name(seq) == seq![119u8, 97, 108, 45] + decimal::padded(seq, 10) + seq![
            46u8,
            108,
            111,
            103,
        ],
        segment_seq(name) matches Some(n) ==> name == seq![119u8, 97, 108, 45] + name.subrange(
            4,
            name.len() - 4,
        ) + seq![46u8, 108, 111, 103] && decimal::parsed(
            name.subrange(4, name.len() - 4),
            0xffff_ffff,
        ) == Some(n),
        segment_seq(seq![119u8, 97, 108, 45] + t + seq![46u8, 108, 111, 103]) == decimal::parsed(
            t,
            0xffff_ffff,
        ),
{
    if segment_seq(name) is Some {
        let mid = name.subrange(4, name.len() - 4);
        assert(name =~= name.take(4) + mid + name.skip(name.len() - 4));
    }
    let n = seq![119u8, 97, 108, 45] + t + seq![46u8, 108, 111, 103];
    assert(n.take(4) =~= name_prefix());
    assert(n.skip(n.len() - 4) =~= name_suffix());
    assert(n.subrange(4, n.len() - 4) =~= t);
}

/// The segments of a directory are its files with such names, in name order.
pub proof fn law_segments_are_filtered(f: Files)
    ensures
        segments(f) == f.filter(|e: (Seq<u8>, Seq<u8>)| segment_seq(e.0) is Some),
{
    let p = is_segment();
    assoc::law_keeping_is_filtering(f, p);
    assert(f.filter(|e: (Seq<u8>, Seq<u8>)| p(e.0)) == f.filter(
        |e: (Seq<u8>, Seq<u8>)| segment_seq(e.0) is Some,
    )) by {
        assert((|e: (Seq<u8>, Seq<u8>)| p(e.0)) =~= (|e: (Seq<u8>, Seq<u8>)|
            segment_seq(e.0) is Some));
    }
}

/// The records of a run of segments are those of each, one after another.
pub proof fn law_records_are_read_in_order(a: Files, b: Files)
    ensures
        records_of(a + b) == records_of(a) + records_of(b),
        records_of(seq![]) == Seq::<LogRecord>::empty(),
        forall|s: (Seq<u8>, Seq<u8>)| #[trigger]
            records_of(seq![s]) == wal_record::scan(s.1).0,
    decreases b.len(),
{
    reveal_with_fuel(records_of, 2);
    assert forall|s: (Seq<u8>, Seq<u8>)| #[trigger] records_of(seq![s]) == wal_record::scan(
        s.1,
    ).0 by {
        assert(seq![s].skip(1) =~= seq![]);
        assert(records_of(seq![s]) =~= wal_record::scan(s.1).0);
    }
    if b.len() == 0 {
        assert(a + b =~= a);
        assert(records_of(a) + records_of(b) =~= records_of(a));
    } else {
        let d = b.drop_last();
        law_records_are_read_in_order(a, d);
        assert(a + b =~= (a + d).push(b.last()));
        assert(b =~= d.push(b.last()));
        lemma_records_of_push(a + d, b.last());
        lemma_records_of_push(d, b.last());
        assert(records_of(a + b) =~= records_of(a) + records_of(b));
    }
}

/// What replay makes of the first segment that does not end cleanly: with no segment after it, a
/// torn tail behind the records that were read; with later ones, an error that names it, where it
/// broke off, and how many follow. If every segment ends cleanly, all records and no torn tail.
pub proof fn law_replay_stops_at_the_first_damage(segs: Files, i: int)
    ensures
        (forall|j: int|
            0 <= j < segs.len() ==> wal_record::scan((#[trigger] segs[j]).1).1 is None)
            ==> replayed(segs) == Ok::<(Seq<LogRecord>, Option<Torn>), Corrupt>(
            (records_of(segs), None),
        ),
        0 <= i < segs.len() && (forall|j: int|
            0 <= j < i ==> wal_record::scan((#[trigger] segs[j]).1).1 is None) ==> (
        wal_record::scan(segs[i].1).1 matches Some(off) ==> if i == segs.len() - 1 {
            replayed(segs) == Ok::<(Seq<LogRecord>, Option<Torn>), Corrupt>(
                (records_of(segs), Some((segs[i].0, off))),
            )
        } else {
            replayed(segs) == Err::<(Seq<LogRecord>, Option<Torn>), Corrupt>(
                (segs[i].0, off, (segs.len() - 1 - i) as nat),
            )
        }),
{
    if clean(segs) {
        lemma_replay_clean(segs);
    }
    if 0 <= i < segs.len() && (forall|j: int|
        0 <= j < i ==> wal_record::scan((#[trigger] segs[j]).1).1 is None) && wal_record::scan(
        segs[i].1,
    ).1 is Some {
        lemma_replay_damage(segs, i);
    }
}

proof fn lemma_replay_damage(segs: Files, i: int)
    requires
        0 <= i < segs.len(),
        forall|j: int| 0 <= j < i ==> wal_record::scan((#[trigger] segs[j]).1).1 is None,
        wal_record::scan(segs[i].1).1 is Some,
    ensures
        ({
            let off = wal_record::scan(segs[i].1).1->0;
            if i == segs.len() - 1 {
                replayed(segs) == Ok::<(Seq<LogRecord>, Option<Torn>), Corrupt>(
                    (records_of(segs), Some((segs[i].0, off))),
                )
            } else {
                replayed(segs) == Err::<(Seq<LogRecord>, Option<Torn>), Corrupt>(
                    (segs[i].0, off, (segs.len() - 1 - i) as nat),
                )
            }
        }),
    decreases segs.len(),
{
    let more = segs.skip(1);
    if i > 0 {
        assert(more[i - 1] == segs[i]);
        assert forall|j: int| 0 <= j < i - 1 implies wal_record::scan(
            (#[trigger] more[j]).1,
        ).1 is None by {
            assert(more[j] == segs[j + 1]);
        }
        assert(wal_record::scan(segs[0].1).1 is None);
        lemma_replay_damage(more, i - 1);
    } else if segs.len() == 1 {
        assert(more =~= seq![]);
        assert(records_of(more) =~= seq![]);
        assert(records_of(segs) =~= wal_record::scan(segs[0].1).0);
    }
}

/// Opening starts segment 1 where there is none, and otherwise goes on with the latest segment:
/// where it ends, or where its torn tail begins, which is cut off. Nothing else is touched. The
/// rotation threshold is the one asked for, but never too small for one record.
pub proof fn law_open_goes_on_with_the_latest_segment(f: Files, max: nat)
    ensures
        segments(f).len() == 0 ==> opened(f, max).1 == seq![
            Step::Create(segment_name(1), Seq::<u8>::empty()),
        ] && opened(f, max).0.seq == 1 && opened(f, max).0.name == segment_name(1) && opened(
            f,
            max,
        ).0.bytes == 0,
        segments(f).len() > 0 ==> opened(f, max).0.name == segments(f).last().0 && opened(
            f,
            max,
        ).0.seq == segment_seq(segments(f).last().0)->0,
        segments(f).len() > 0 ==> match wal_record::scan(segments(f).last().1).1 {
            None => opened(f, max).1 == Seq::<Step>::empty() && opened(f, max).0.bytes == segments(
                f,
            ).last().1.len(),
            Some(off) => opened(f, max).1 == seq![Step::Truncate(segments(f).last().0, off)]
                && opened(f, max).0.bytes == off,
        },
        opened(f, max).0.max >= max && opened(f, max).0.max >= 33,
        opened(f, max).0.max == max || opened(f, max).0.max == 33,
        !opened(f, max).0.torn,
{
}

/// An append is one write of all its frames. It goes to the current segment unless that is in use
/// and would grow past the threshold, or a step has failed: then a new, empty segment with the
/// next number is started first, and what a failed step left behind the end is cut off before.
pub proof fn law_when_an_append_rotates(w: LogPos, rs: Seq<LogRecord>)
    ensures
        !w.torn && (w.bytes == 0 || w.bytes + wal_record::frames(rs).len() <= w.max)
            ==> append_steps(w, rs) == seq![Step::Append(w.name, wal_record::frames(rs))],
        !w.torn && w.bytes > 0 && w.bytes + wal_record::frames(rs).len() > w.max ==> append_steps(
            w,
            rs,
        ) == seq![
            Step::Create(segment_name(w.seq + 1), Seq::<u8>::empty()),
            Step::Append(segment_name(w.seq + 1), wal_record::frames(rs)),
        ],
        w.torn ==> append_steps(w, rs) == seq![
            Step::Truncate(w.name, w.bytes),
            Step::Create(segment_name(w.seq + 1), Seq::<u8>::empty()),
            Step::Append(segment_name(w.seq + 1), wal_record::frames(rs)),
        ],
        can_append(w, rs) <==> w.seq < 0xffff_ffff || (!w.torn && (w.bytes == 0 || w.bytes
            + wal_record::frames(rs).len() <= w.max)),
        rotate_steps(w) == (if w.torn {
            seq![
                Step::Truncate(w.name, w.bytes),
                Step::Create(segment_name(w.seq + 1), Seq::<u8>::empty()),
            ]
        } else {
            seq![Step::Create(segment_name(w.seq + 1), Seq::<u8>::empty())]
        }),
{
    let buf = wal_record::frames(rs);
    let next = segment_name(w.seq + 1);
    if w.torn {
        assert(append_steps(w, rs) =~= seq![
            Step::Truncate(w.name, w.bytes),
            Step::Create(next, Seq::<u8>::empty()),
            Step::Append(next, buf),
        ]);
    } else if w.bytes > 0 && w.bytes + buf.len() > w.max {
        assert(append_steps(w, rs) =~= seq![
            Step::Create(next, Seq::<u8>::empty()),
            Step::Append(next, buf),
        ]);
    }
}

/// Following the steps of an append: the position moves past exactly the bytes that were written,
/// and a segment grows past the threshold only if it holds a single write.
pub proof fn law_an_append_moves_the_end(w: LogPos, rs: Seq<LogRecord>)
    requires
        can_append(w, rs),
        w.seq <= u32::MAX,
        w.name == segment_name(w.seq),
    ensures
        ({
            let n = wal_record::frames(rs).len();
            let v = after_all(w, append_steps(w, rs));
            &&& v.name == segment_name(v.seq)
            &&& v.max == w.max
            &&& !v.torn
            &&& v.bytes <= w.max || v.bytes == n
            &&& v.seq == w.seq ==> v.bytes == w.bytes + n
            &&& v.seq != w.seq ==> v.seq == w.seq + 1 && v.bytes == n
        }),
{
    law_when_an_append_rotates(w, rs);
    let buf = wal_record::frames(rs);
    let plan = append_steps(w, rs);
    let next = segment_name(w.seq + 1);
    let a = Step::Create(next, Seq::<u8>::empty());
    let b = Step::Append(next, buf);
    reveal_with_fuel(after_all, 4);
    if w.torn {
        let cut = Step::Truncate(w.name, w.bytes);
        assert(plan.drop_last() =~= seq![cut, a]);
        assert(seq![cut, a].drop_last() =~= seq![cut]);
        assert(seq![cut].drop_last() =~= seq![]);
    } else if rotates(w, buf.len()) {
        assert(plan.drop_last() =~= seq![a]);
        assert(seq![a].drop_last() =~= seq![]);
    } else {
        assert(plan.drop_last() =~= seq![]);
    }
}

/// Only the start of the next segment and a write to the current one move the end of the log: the
/// first to the length of what it holds, the second by what it adds.
pub proof fn law_what_moves_the_end(w: LogPos, name: Seq<u8>, to: Seq<u8>, data: Seq<u8>, n: nat)
    ensures
        after(w, Step::Append(w.name, data)).bytes == w.bytes + data.len(),
        after(w, Step::Append(w.name, data)).seq == w.seq,
        after(w, Step::Append(w.name, data)).name == w.name,
        after(w, Step::Append(w.name, data)).max == w.max,
        after(w, Step::Append(w.name, data)).torn == w.torn,
        name != w.name ==> after(w, Step::Append(name, data)) == w,
        w.seq < u32::MAX ==> after(w, Step::Create(segment_name(w.seq + 1), data)) == (LogPos {
            seq: w.seq + 1,
            name: segment_name(w.seq + 1),
            bytes: data.len(),
            max: w.max,
            torn: false,
        }),
        name != segment_name(w.seq + 1) ==> after(w, Step::Create(name, data)) == w,
        after(w, Step::Truncate(name, n)) == w,
        after(w, Step::Rename(name, to)) == w,
        after(w, Step::Remove(name)) == w,
{
}

/// Reclaiming deletes exactly the listed segments with a number below the boundary, in order.
pub proof fn law_reclaiming_deletes_what_is_below(names: Seq<Seq<u8>>, boundary: nat)
    ensures
        remove_steps(names, boundary) == names.filter(
            |n: Seq<u8>| segment_seq(n) matches Some(seq) && seq < boundary,
        ).map_values(|n: Seq<u8>| Step::Remove(n)),
    decreases names.len(),
{
    let below = |n: Seq<u8>| segment_seq(n) matches Some(seq) && seq < boundary;
    let step = |n: Seq<u8>| Step::Remove(n);
    reveal(Seq::filter);
    if names.len() > 0 {
        law_reclaiming_deletes_what_is_below(names.drop_last(), boundary);
    }
    assert(remove_steps(names, boundary) =~= names.filter(below).map_values(step));
}

/// Opening a log that replays leaves a clean log with the same records.
pub proof fn law_open_keeps_the_records(f: Files, max: nat)
    requires
        assoc::sorted(f),
        replayed(segments(f)) is Ok,
    ensures
        ({
            let g = dir::apply_all(f, opened(f, max).1);
            let segs = segments(g);
            &&& assoc::sorted(g)
            &&& clean(segs)
            &&& segs.len() > 0
            &&& segs.last().0 == opened(f, max).0.name
            &&& segs.last().1.len() == opened(f, max).0.bytes
            &&& replays(f, log_of(g))
            &&& replays(g, log_of(g))
        }),
{
    let segs = segments(f);
    let (w, plan) = opened(f, max);
    let g = dir::apply_all(f, plan);
    if segs.len() == 0 {
        let name = segment_name(1);
        lemma_segment_name(1);
        dir::lemma_apply_one(f, plan[0]);
        assoc::lemma_upsert(f, name, seq![]);
        assoc::lemma_keep_upsert(f, is_segment(), name, seq![]);
        assoc::lemma_upsert_new_last(segs, name, seq![]);
        assert(wal_record::scan(seq![]) == (Seq::<LogRecord>::empty(), None::<nat>));
        lemma_clean_push(segs, (name, seq![]));
        lemma_records_of_push(segs, (name, seq![]));
        assert(records_of(segs) + Seq::<LogRecord>::empty() =~= seq![]);
        assert(plan =~= seq![plan[0]]);
    } else {
        let front = segs.drop_last();
        let (name, data) = segs.last();
        assoc::lemma_keep(f, is_segment());
        assert(is_segment()(segs[segs.len() - 1].0));
        lemma_replay_ok(segs);
        assert(segs =~= front.push(segs.last()));
        lemma_replay_last(front, segs.last());
        lemma_records_of_push(front, segs.last());
        assoc::lemma_upsert_last(segs, data);
        match wal_record::scan(data).1 {
            None => {
                assert(plan =~= seq![]);
                assert(dir::apply_all(f, plan) == f);
                lemma_clean_push(front, segs.last());
            },
            Some(off) => {
                wal_record::law_repair(data);
                let cut = data.take(off as int);
                dir::lemma_apply_one(f, plan[0]);
                assert(plan =~= seq![plan[0]]);
                assert(assoc::find(segments(f), name) == Some(data));
                assert(dir::cut(data, off) == cut);
                assoc::lemma_upsert(f, name, cut);
                assoc::lemma_keep_upsert(f, is_segment(), name, cut);
                assoc::lemma_upsert_last(segs, cut);
                lemma_clean_push(front, (name, cut));
                lemma_records_of_push(front, (name, cut));
            },
        }
    }
    lemma_replay_clean(segments(g));
}

/// Opening a log that replays, whose latest segment has a regular name, leaves it being written
/// where [`opened`] says.
pub proof fn law_open_resumes_the_log(f: Files, max: nat)
    requires
        assoc::sorted(f),
        replayed(segments(f)) is Ok,
        segments(f).len() > 0 ==> (exists|seq: nat|
            seq <= u32::MAX && segments(f).last().0 == #[trigger] segment_name(seq)),
    ensures
        tracks(opened(f, max).0, dir::apply_all(f, opened(f, max).1)),
        replays(f, log_of(dir::apply_all(f, opened(f, max).1))),
{
    let segs = segments(f);
    law_open_keeps_the_records(f, max);
    if segs.len() > 0 {
        let seq = choose|seq: nat|
            seq <= u32::MAX && segs.last().0 == #[trigger] segment_name(seq);
        lemma_segment_name(seq);
    }
}

} // verus!
