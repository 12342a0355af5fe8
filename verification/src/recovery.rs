//! Recovery: what a directory stands for, and why no crash loses a commit.
//!
//! A directory stands for the latest usable checkpoint with the newer records of the log
//! applied to it. The laws below follow a directory through commits, checkpoints, reclamation
//! and crashes.

use crate::assoc;
use crate::bytes;
use crate::dir;
use crate::dir::{DirImage, Files, Step};
use crate::snapshot;
use crate::snapshot::{Point, SnapshotError};
use crate::types;
use crate::types::{apply_ops, Change, KvMap, Snapshot, State};
use crate::wal;
use crate::wal::{Corrupt, CorruptSegment, LogPos, Record};
use crate::wal_record;
use crate::wal_record::LogRecord;
use vstd::prelude::*;

verus! {

/// The empty state at index 0: a brand-new store.
pub open spec fn origin() -> Point {
    (0u64, State::empty())
}

/// A point with one record applied; a record at or below the point is already reflected.
pub open spec fn apply_record(p: Point, r: LogRecord) -> Point {
    if r.index > p.0 {
        (r.index, types::change_all(p.1, r.ops, r.index))
    } else {
        p
    }
}

/// A point with a run of records applied.
pub open spec fn apply_log(p: Point, rs: Seq<LogRecord>) -> Point
    decreases rs.len(),
{
    if rs.len() == 0 {
        p
    } else {
        apply_record(apply_log(p, rs.drop_last()), rs.last())
    }
}

/// Why a directory cannot be recovered.
pub enum Damage {
    Checkpoint(SnapshotError),
    Log(Corrupt),
}

/// Where recovery starts: the latest usable checkpoint, or the empty state.
pub open spec fn base_of(loaded: Option<Point>) -> Point {
    match loaded {
        Some(p) => p,
        None => origin(),
    }
}

/// What a directory stands for.
pub open spec fn recovered(f: Files) -> Result<Point, Damage> {
    match snapshot::loaded(f) {
        Err(e) => Err(Damage::Checkpoint(e)),
        Ok(loaded) => match wal::replayed(wal::segments(f)) {
            Err(c) => Err(Damage::Log(c)),
            Ok((rs, torn)) => Ok(apply_log(base_of(loaded), rs)),
        },
    }
}

// ---------------------------------------------------------------------------
// Applying records
// ---------------------------------------------------------------------------

pub proof fn lemma_apply_add(p: Point, a: Seq<LogRecord>, b: Seq<LogRecord>)
    ensures
        apply_log(p, a + b) == apply_log(apply_log(p, a), b),
    decreases b.len(),
{
    if b.len() == 0 {
        assert(a + b =~= a);
    } else {
        assert((a + b).drop_last() =~= a + b.drop_last());
        lemma_apply_add(p, a, b.drop_last());
    }
}

/// Every record of `rs` is at or below `index`.
pub open spec fn upto(rs: Seq<LogRecord>, index: u64) -> bool {
    forall|i: int| 0 <= i < rs.len() ==> (#[trigger] rs[i]).index <= index
}

/// Records that a point already reflects change nothing.
pub proof fn lemma_apply_reflected(p: Point, rs: Seq<LogRecord>)
    requires
        upto(rs, p.0),
    ensures
        apply_log(p, rs) == p,
    decreases rs.len(),
{
    if rs.len() > 0 {
        let d = rs.drop_last();
        assert forall|i: int| 0 <= i < d.len() implies (#[trigger] d[i]).index <= p.0 by {
            assert(d[i] == rs[i]);
        }
        lemma_apply_reflected(p, d);
        assert(rs[rs.len() - 1].index <= p.0);
    }
}

/// The index never goes back, and no record is above it afterwards.
pub proof fn lemma_apply_index(p: Point, rs: Seq<LogRecord>)
    ensures
        apply_log(p, rs).0 >= p.0,
        upto(rs, apply_log(p, rs).0),
    decreases rs.len(),
{
    if rs.len() > 0 {
        let d = rs.drop_last();
        lemma_apply_index(p, d);
        assert forall|i: int| 0 <= i < rs.len() implies (#[trigger] rs[i]).index <= apply_log(
            p,
            rs,
        ).0 by {
            if i < d.len() {
                assert(rs[i] == d[i]);
                assert(d[i].index <= apply_log(p, d).0);
            }
        }
    }
}

pub proof fn lemma_apply_sorted(p: Point, rs: Seq<LogRecord>)
    requires
        assoc::sorted(p.1),
    ensures
        assoc::sorted(apply_log(p, rs).1),
    decreases rs.len(),
{
    if rs.len() > 0 {
        lemma_apply_sorted(p, rs.drop_last());
        let q = apply_log(p, rs.drop_last());
        types::lemma_change_all_sorted(q.1, rs.last().ops, rs.last().index);
    }
}

/// A record is applied exactly if it is newer than the point: the index moves to it, and all its
/// operations take effect; otherwise nothing changes.
pub proof fn law_only_newer_records_are_applied(p: Point, r: LogRecord)
    ensures
        apply_record(p, r).0 == if r.index > p.0 {
            r.index
        } else {
            p.0
        },
        r.index <= p.0 ==> apply_record(p, r) == p,
        r.index > p.0 ==> apply_record(p, r).1 == types::change_all(p.1, r.ops, r.index),
{
}

/// Record `j` of `rs` put `v` at `k`, where there was another value or none, and it has been found
/// there since, with the index of the record as its version.
pub open spec fn wrote(p: Point, rs: Seq<LogRecord>, k: Seq<u8>, v: Seq<u8>, j: int) -> bool {
    &&& 0 <= j < rs.len()
    &&& rs[j].index > apply_log(p, rs.take(j)).0
    &&& exists|m: int| #[trigger]
        types::wrote(apply_log(p, rs.take(j)).1, rs[j].ops, rs[j].index, k, v, m)
    &&& forall|i: int|
        j < i <= rs.len() ==> assoc::find((#[trigger] apply_log(p, rs.take(i))).1, k) == Some(
            (v, rs[j].index),
        )
}

/// The version found for a key is the index of the latest commit that changed its value: either
/// the entry was there before the whole run and no record touched it, or a record with just that
/// index put the value over another one or none, and nothing changed it since.
pub proof fn law_a_version_is_the_latest_change(p: Point, rs: Seq<LogRecord>, k: Seq<u8>)
    requires
        assoc::sorted(p.1),
    ensures
        assoc::find(apply_log(p, rs).1, k) matches Some(c) ==> ({
            ||| forall|i: int|
                0 <= i <= rs.len() ==> assoc::find((#[trigger] apply_log(p, rs.take(i))).1, k)
                    == Some(c)
            ||| exists|j: int| #[trigger] wrote(p, rs, k, c.0, j) && rs[j].index == c.1
        }),
    decreases rs.len(),
{
    assert(rs.take(rs.len() as int) =~= rs);
    if assoc::find(apply_log(p, rs).1, k) is Some {
        let c = assoc::find(apply_log(p, rs).1, k)->0;
        if rs.len() > 0 {
            let d = rs.drop_last();
            let n = d.len() as int;
            let q = apply_log(p, d);
            let r = rs.last();
            law_a_version_is_the_latest_change(p, d, k);
            lemma_apply_sorted(p, d);
            assert(rs.take(n) =~= d);
            assert forall|i: int| 0 <= i <= n implies #[trigger] rs.take(i) == d.take(i) by {
                assert(rs.take(i) =~= d.take(i));
            }
            assert(rs[n] == r);
            types::law_a_version_names_its_writer(q.1, r.ops, r.index, k);
            assert(r.ops.take(0) =~= seq![]);
            assert(types::change_all(q.1, r.ops.take(0), r.index) == q.1);
            if assoc::find(q.1, k) == Some(c) && (r.index <= q.0 || forall|i: int|
                0 <= i <= r.ops.len() ==> assoc::find(
                    #[trigger] types::change_all(q.1, r.ops.take(i), r.index),
                    k,
                ) == Some(c)) {
                if exists|j: int| #[trigger] wrote(p, d, k, c.0, j) && d[j].index == c.1 {
                    let j = choose|j: int| #[trigger] wrote(p, d, k, c.0, j) && d[j].index == c.1;
                    assert(rs[j] == d[j]);
                    assert(rs.take(j) == d.take(j));
                    assert forall|i: int| j < i <= rs.len() implies assoc::find(
                        (#[trigger] apply_log(p, rs.take(i))).1,
                        k,
                    ) == Some((c.0, rs[j].index)) by {
                        if i <= n {
                            assert(rs.take(i) == d.take(i));
                        }
                    }
                    assert(wrote(p, rs, k, c.0, j));
                } else {
                    assert forall|i: int| 0 <= i <= rs.len() implies assoc::find(
                        (#[trigger] apply_log(p, rs.take(i))).1,
                        k,
                    ) == Some(c) by {
                        if i <= n {
                            assert(rs.take(i) == d.take(i));
                        }
                    }
                }
            } else {
                assert(r.index > q.0);
                assert(wrote(p, rs, k, c.0, n) && rs[n].index == c.1);
            }
        } else {
            assert forall|i: int| 0 <= i <= rs.len() implies assoc::find(
                (#[trigger] apply_log(p, rs.take(i))).1,
                k,
            ) == Some(c) by {
                assert(rs.take(i) =~= rs);
            }
        }
    }
}

/// Why a directory could not be recovered.
#[derive(Debug, PartialEq, Eq)]
pub enum RecoveryError {
    /// The latest checkpoint is damaged and the previous one cannot make up for it.
    Checkpoint(SnapshotError),
    /// The log is damaged before its last segment.
    Log(CorruptSegment),
}

impl RecoveryError {
    pub open spec fn view(&self) -> Damage {
        match self {
            RecoveryError::Checkpoint(e) => Damage::Checkpoint(*e),
            RecoveryError::Log(c) => Damage::Log((c.segment@, c.offset as nat, c.later as nat)),
        }
    }
}

/// Recover the state of a directory: load the latest usable checkpoint, then apply the records
/// of the log that are newer. A torn tail is the one append that a crash interrupted: never
/// acknowledged, so never applied.
pub fn recover(d: &DirImage) -> (r: Result<Snapshot, RecoveryError>)
    ensures
        match r {
            Ok(s) => recovered(d@) == Ok::<Point, Damage>(s@),
            Err(e) => recovered(d@) == Err::<Point, Damage>(e@),
        },
{
    let base: Snapshot = match snapshot::load(d) {
        Err(e) => {
            return Err(RecoveryError::Checkpoint(e));
        },
        Ok(Some(s)) => s,
        Ok(None) => Snapshot::empty(),
    };
    let recs: Vec<Record> = match wal::replay(d) {
        Err(c) => {
            return Err(RecoveryError::Log(c));
        },
        Ok((recs, _torn)) => recs,
    };
    let ghost rs = wal_record::records(recs@);
    let ghost start: Point = base@;
    let mut data: KvMap = base.data;
    let mut index: u64 = base.index;
    let mut i: usize = 0;
    assert(rs.take(0) =~= seq![]);
    while i < recs.len()
        invariant
            i <= recs.len(),
            rs == wal_record::records(recs@),
            (index, types::state(data)) == apply_log(start, rs.take(i as int)),
        decreases recs.len() - i,
    {
        let r: &Record = &recs[i];
        assert(rs.take(i + 1).drop_last() =~= rs.take(i as int));
        if r.index > index {
            apply_ops(&r.ops, &mut data, r.index);
            index = r.index;
        }
        i = i + 1;
    }
    assert(rs.take(rs.len() as int) =~= rs);
    Ok(Snapshot { index, data })
}

/// The records of a group of commits made at the point `p`: each takes the next index.
pub open spec fn group_records(index: u64, group: Seq<Seq<Change>>, term: u64) -> Seq<LogRecord> {
    Seq::new(
        group.len(),
        |i: int|
            LogRecord { term, index: (index + 1 + i) as u64, ops: group[i] },
    )
}

/// The point after a group of commits.
pub open spec fn commit_group(p: Point, group: Seq<Seq<Change>>, term: u64) -> Point {
    apply_log(p, group_records(p.0, group, term))
}

/// How a directory is recovered: a checkpoint that cannot be loaded comes first, then a log that
/// cannot be replayed; otherwise the records of the log are applied to the checkpoint that was
/// loaded, or to the empty state at index 0 where there is none. A torn tail does not matter.
pub proof fn law_how_a_directory_is_recovered(f: Files)
    ensures
        match (snapshot::loaded(f), wal::replayed(wal::segments(f))) {
            (Err(e), _) => recovered(f) == Err::<Point, Damage>(Damage::Checkpoint(e)),
            (Ok(_), Err(c)) => recovered(f) == Err::<Point, Damage>(Damage::Log(c)),
            (Ok(Some(p)), Ok((rs, _))) => recovered(f) == Ok::<Point, Damage>(apply_log(p, rs)),
            (Ok(None), Ok((rs, _))) => recovered(f) == Ok::<Point, Damage>(
                apply_log((0, Seq::empty()), rs),
            ),
        },
{
}

/// Records are applied one by one, in order.
pub proof fn law_records_are_applied_in_order(p: Point, a: Seq<LogRecord>, r: LogRecord)
    ensures
        apply_log(p, seq![]) == p,
        r.index > apply_log(p, a).0 ==> apply_log(p, a.push(r)) == (r.index, types::change_all(
            apply_log(p, a).1,
            r.ops,
            r.index,
        )),
        r.index <= apply_log(p, a).0 ==> apply_log(p, a.push(r)) == apply_log(p, a),
{
    assert(a.push(r).drop_last() =~= a);
}

/// Each commit of a group becomes one record with all its operations.
pub proof fn law_a_commit_is_one_record(index: u64, group: Seq<Seq<Change>>, term: u64, i: int)
    requires
        index + group.len() <= u64::MAX,
        0 <= i < group.len(),
    ensures
        group_records(index, group, term).len() == group.len(),
        group_records(index, group, term)[i].ops == group[i],
        group_records(index, group, term)[i].term == term,
        group_records(index, group, term)[i].index == index + 1 + i,
{
}

/// A group of commits takes contiguous indices, one each, in order.
pub proof fn law_indices_are_contiguous(p: Point, group: Seq<Seq<Change>>, term: u64)
    requires
        p.0 + group.len() <= u64::MAX,
    ensures
        commit_group(p, group, term).0 == p.0 + group.len(),
        forall|i: int|
            0 <= i < group.len() ==> (#[trigger] group_records(p.0, group, term)[i]).index == p.0
                + 1 + i,
    decreases group.len(),
{
    let rs = group_records(p.0, group, term);
    if group.len() > 0 {
        let g = group.drop_last();
        law_indices_are_contiguous(p, g, term);
        assert(rs.drop_last() =~= group_records(p.0, g, term));
    }
}

/// A batch is visible as a whole: the state after a commit is that of all its operations,
/// applied in order at one index.
pub proof fn law_a_commit_applies_all_its_ops(p: Point, ops: Seq<Change>, term: u64)
    requires
        p.0 < u64::MAX,
    ensures
        commit_group(p, seq![ops], term) == ((p.0 + 1) as u64, types::change_all(
            p.1,
            ops,
            (p.0 + 1) as u64,
        )),
{
    reveal_with_fuel(apply_log, 2);
    let rs = group_records(p.0, seq![ops], term);
    assert(rs.drop_last() =~= seq![]);
}

// ---------------------------------------------------------------------------
// The state of a directory
// ---------------------------------------------------------------------------

/// The directory `f` holds a log being written at `w`, and stands for the point `p`.
pub open spec fn holds(f: Files, w: LogPos, p: Point) -> bool {
    &&& wal::tracks(w, f)
    &&& snapshot::loaded(f) matches Ok(loaded) && apply_log(base_of(loaded), wal::log_of(f)) == p
}

/// Such a directory recovers to that point.
pub proof fn law_recovery(f: Files, w: LogPos, p: Point)
    requires
        holds(f, w, p),
    ensures
        recovered(f) == Ok::<Point, Damage>(p),
        wal::replays(f, wal::log_of(f)),
        upto(wal::log_of(f), p.0),
{
    wal::lemma_replay_clean(wal::segments(f));
    lemma_apply_index(base_of(snapshot::loaded(f)->Ok_0), wal::log_of(f));
}

/// No checkpoint file is a segment, and the three names differ.
pub proof fn lemma_names()
    ensures
        wal::segment_seq(snapshot::latest_name()) is None,
        wal::segment_seq(snapshot::previous_name()) is None,
        wal::segment_seq(snapshot::temp_name()) is None,
        snapshot::latest_name() != snapshot::previous_name(),
        snapshot::latest_name() != snapshot::temp_name(),
        snapshot::previous_name() != snapshot::temp_name(),
{
    reveal(snapshot::latest_name);
    reveal(snapshot::previous_name);
    reveal(snapshot::temp_name);
    let l = snapshot::latest_name();
    let p = snapshot::previous_name();
    let t = snapshot::temp_name();
    assert(l.take(4)[0] != wal::name_prefix()[0]);
    assert(p.take(4)[0] != wal::name_prefix()[0]);
    assert(t.take(4)[0] != wal::name_prefix()[0]);
    assert(l.len() == 8 && p.len() == 9 && t.len() == 8);
    assert(l[5] != t[5]);
}

/// Two directories have the same checkpoints.
pub open spec fn same_checkpoints(f: Files, g: Files) -> bool {
    &&& assoc::find(g, snapshot::latest_name()) == assoc::find(f, snapshot::latest_name())
    &&& assoc::find(g, snapshot::previous_name()) == assoc::find(f, snapshot::previous_name())
}

/// Changing a segment does not change what the checkpoints hold.
proof fn lemma_segment_only(f: Files, name: Seq<u8>, data: Seq<u8>)
    requires
        assoc::sorted(f),
        wal::segment_seq(name) is Some,
    ensures
        snapshot::loaded(assoc::upsert(f, name, data)) == snapshot::loaded(f),
        same_checkpoints(f, assoc::upsert(f, name, data)),
{
    lemma_names();
    assoc::lemma_upsert(f, name, data);
}

proof fn lemma_append_keeps_checkpoints(w: LogPos, f: Files, rs: Seq<LogRecord>)
    requires
        wal::tracks(w, f),
        wal::can_append(w, rs),
    ensures
        snapshot::loaded(dir::apply_all(f, wal::append_steps(w, rs))) == snapshot::loaded(f),
        same_checkpoints(f, dir::apply_all(f, wal::append_steps(w, rs))),
{
    let plan = wal::append_steps(w, rs);
    let buf = wal_record::frames(rs);
    wal::lemma_segment_name(w.seq);
    if wal::overflows(w, buf.len()) {
        let a = wal::rotate_step(w);
        let name = wal::segment_name(w.seq + 1);
        let b = Step::Append(name, buf);
        wal::lemma_segment_name(w.seq + 1);
        assert(plan =~= seq![a, b]);
        dir::lemma_apply_two(f, a, b);
        lemma_segment_only(f, name, seq![]);
        let f1 = dir::apply(f, a);
        dir::lemma_apply_sorted(f, a);
        lemma_segment_only(f1, name, dir::content(f1, name) + buf);
    } else {
        let a = Step::Append(w.name, buf);
        dir::lemma_apply_one(f, a);
        lemma_segment_only(f, w.name, dir::content(f, w.name) + buf);
    }
}

/// Once the steps of a commit group have been performed, the directory stands for the state
/// with all its commits.
pub proof fn law_commit_is_durable(
    f: Files,
    w: LogPos,
    p: Point,
    group: Seq<Seq<Change>>,
    term: u64,
)
    requires
        holds(f, w, p),
        wal::can_append(w, group_records(p.0, group, term)),
        forall|i: int|
            0 <= i < group.len() ==> wal_record::encodable(
                #[trigger] group_records(p.0, group, term)[i],
            ),
    ensures
        ({
            let rs = group_records(p.0, group, term);
            let plan = wal::append_steps(w, rs);
            &&& holds(dir::apply_all(f, plan), wal::after_all(w, plan), commit_group(p, group, term))
            &&& same_checkpoints(f, dir::apply_all(f, plan))
        }),
{
    let rs = group_records(p.0, group, term);
    wal::law_append_is_durable(w, f, rs);
    lemma_append_keeps_checkpoints(w, f, rs);
    lemma_apply_add(base_of(snapshot::loaded(f)->Ok_0), wal::log_of(f), rs);
}

/// A crash at any point of a commit group leaves a directory that recovers to the state with
/// some of its commits, in order: never a commit in part, never one without those before it.
pub proof fn law_commit_survives_a_crash(
    f: Files,
    w: LogPos,
    p: Point,
    group: Seq<Seq<Change>>,
    term: u64,
    g: Files,
)
    requires
        holds(f, w, p),
        wal::can_append(w, group_records(p.0, group, term)),
        forall|i: int|
            0 <= i < group.len() ==> wal_record::encodable(
                #[trigger] group_records(p.0, group, term)[i],
            ),
        dir::crashed(f, wal::append_steps(w, group_records(p.0, group, term)), g),
    ensures
        exists|j: int|
            0 <= j <= group.len() && recovered(g) == Ok::<Point, Damage>(
                #[trigger] commit_group(p, group.take(j), term),
            ),
{
    let rs = group_records(p.0, group, term);
    let plan = wal::append_steps(w, rs);
    wal::law_append_survives_a_crash(w, f, rs, g);
    lemma_crash_keeps_checkpoints(w, f, rs, g);
    let j = choose|j: int|
        0 <= j <= rs.len() && #[trigger] wal::replays(g, wal::log_of(f) + rs.take(j));
    lemma_apply_add(base_of(snapshot::loaded(f)->Ok_0), wal::log_of(f), rs.take(j));
    assert(rs.take(j) =~= group_records(p.0, group.take(j), term));
    assert(recovered(g) == Ok::<Point, Damage>(commit_group(p, group.take(j), term)));
}

proof fn lemma_crash_keeps_checkpoints(w: LogPos, f: Files, rs: Seq<LogRecord>, g: Files)
    requires
        wal::tracks(w, f),
        wal::can_append(w, rs),
        dir::crashed(f, wal::append_steps(w, rs), g),
    ensures
        snapshot::loaded(g) == snapshot::loaded(f),
{
    let plan = wal::append_steps(w, rs);
    let buf = wal_record::frames(rs);
    let n = choose|n: int| dir::crashed_at(f, plan, g, n);
    assert(dir::crashed_at(f, plan, g, n));
    lemma_append_keeps_checkpoints(w, f, rs);
    wal::lemma_segment_name(w.seq);
    if wal::overflows(w, buf.len()) {
        wal::lemma_segment_name(w.seq + 1);
        assert(plan =~= seq![wal::rotate_step(w), Step::Append(wal::segment_name(w.seq + 1), buf)]);
    }
    assert(plan.take(0) =~= seq![]);
    assert(dir::apply_all(f, plan.take(0)) == f);
    assert forall|name: Seq<u8>, d: Seq<u8>| wal::segment_seq(name) is Some implies snapshot::loaded(
        #[trigger] assoc::upsert(f, name, d),
    ) == snapshot::loaded(f) by {
        lemma_segment_only(f, name, d);
    }
    if n < plan.len() && n == 1 {
        let a = wal::rotate_step(w);
        let f1 = dir::apply(f, a);
        assert(plan.take(1) =~= seq![a]);
        dir::lemma_apply_one(f, a);
        dir::lemma_apply_sorted(f, a);
        lemma_segment_only(f, wal::segment_name(w.seq + 1), seq![]);
        assert forall|name: Seq<u8>, d: Seq<u8>|
            wal::segment_seq(name) is Some implies snapshot::loaded(
            #[trigger] assoc::upsert(f1, name, d),
        ) == snapshot::loaded(f1) by {
            lemma_segment_only(f1, name, d);
        }
    }
}

/// The steps of opening leave the checkpoints alone.
proof fn lemma_open_keeps_checkpoints(f: Files, max: nat)
    requires
        assoc::sorted(f),
    ensures
        snapshot::loaded(dir::apply_all(f, wal::opened(f, max).1)) == snapshot::loaded(f),
{
    let (w, plan) = wal::opened(f, max);
    wal::lemma_segment_name(1);
    if plan.len() == 0 {
        assert(plan =~= seq![]);
        assert(dir::apply_all(f, plan) == f);
    } else {
        assert(plan =~= seq![plan[0]]);
        dir::lemma_apply_one(f, plan[0]);
        let segs = wal::segments(f);
        if segs.len() == 0 {
            lemma_segment_only(f, wal::segment_name(1), seq![]);
        } else {
            assoc::lemma_keep(f, wal::is_segment());
            assert(wal::is_segment()(segs[segs.len() - 1].0));
            let (name, data) = segs.last();
            assoc::lemma_upsert_last(segs, data);
            assert(assoc::find(wal::segments(f), name) == Some(data));
            lemma_segment_only(f, name, dir::cut(data, wal_record::scan(data).1->0));
        }
    }
}

/// Opening changes nothing that recovery sees.
pub proof fn law_opening_keeps_what_is_recovered(f: Files, max: nat)
    requires
        assoc::sorted(f),
        recovered(f) is Ok,
    ensures
        recovered(dir::apply_all(f, wal::opened(f, max).1)) == recovered(f),
{
    wal::law_open_keeps_the_records(f, max);
    lemma_open_keeps_checkpoints(f, max);
}

/// Opening a directory that recovers, whose latest segment has a regular name, leaves its log
/// being written where [`wal::opened`] says, and the directory standing for the same point.
pub proof fn law_open_keeps_the_state(f: Files, max: nat)
    requires
        assoc::sorted(f),
        recovered(f) is Ok,
        wal::segments(f).len() > 0 ==> (exists|seq: nat|
            seq <= u32::MAX && wal::segments(f).last().0 == #[trigger] wal::segment_name(seq)),
    ensures
        holds(
            dir::apply_all(f, wal::opened(f, max).1),
            wal::opened(f, max).0,
            recovered(f)->Ok_0,
        ),
{
    wal::law_open_resumes_the_log(f, max);
    lemma_open_keeps_checkpoints(f, max);
}

// ---------------------------------------------------------------------------
// Checkpoints
// ---------------------------------------------------------------------------

/// The point `q` lies on the way of the log in `f` to `p`: with the log applied, it is `p`.
pub open spec fn leads_to(f: Files, q: Point, p: Point) -> bool {
    apply_log(q, wal::log_of(f)) == p
}

/// A pinned snapshot of the current point leads to it.
pub proof fn law_pinned(f: Files, w: LogPos, p: Point)
    requires
        holds(f, w, p),
    ensures
        leads_to(f, p, p),
{
    law_recovery(f, w, p);
    lemma_apply_reflected(p, wal::log_of(f));
}

/// Commits made after a snapshot was pinned are still on its way.
pub proof fn law_pinned_while_committing(f: Files, w: LogPos, q: Point, p: Point, rs: Seq<LogRecord>)
    requires
        wal::tracks(w, f),
        wal::can_append(w, rs),
        leads_to(f, q, p),
        forall|i: int| 0 <= i < rs.len() ==> wal_record::encodable(#[trigger] rs[i]),
    ensures
        leads_to(dir::apply_all(f, wal::append_steps(w, rs)), q, apply_log(p, rs)),
{
    wal::law_append_is_durable(w, f, rs);
    lemma_apply_add(q, wal::log_of(f), rs);
}

/// Starting a new segment keeps what a directory stands for and what leads to it.
pub proof fn law_rotation_keeps_the_state(f: Files, w: LogPos, p: Point)
    requires
        holds(f, w, p),
        w.seq < u32::MAX,
    ensures
        holds(dir::apply(f, wal::rotate_step(w)), wal::after(w, wal::rotate_step(w)), p),
        same_checkpoints(f, dir::apply(f, wal::rotate_step(w))),
        wal::log_of(dir::apply(f, wal::rotate_step(w))) == wal::log_of(f),
{
    wal::law_rotation_keeps_the_log(w, f);
    wal::lemma_segment_name(w.seq + 1);
    lemma_segment_only(f, wal::segment_name(w.seq + 1), seq![]);
}

/// Changing a file that is no segment does not change the log.
proof fn lemma_not_a_segment(f: Files, name: Seq<u8>, data: Seq<u8>)
    requires
        assoc::sorted(f),
        wal::segment_seq(name) is None,
    ensures
        wal::segments(assoc::upsert(f, name, data)) == wal::segments(f),
        wal::segments(assoc::erase(f, name)) == wal::segments(f),
{
    assoc::lemma_keep_upsert(f, wal::is_segment(), name, data);
    assoc::lemma_keep_erase(f, wal::is_segment(), name);
}

/// Renaming a file that is no segment to a name of that kind does not change the log.
proof fn lemma_rename_keeps_segments(f: Files, from: Seq<u8>, to: Seq<u8>)
    requires
        assoc::sorted(f),
        wal::segment_seq(from) is None,
        wal::segment_seq(to) is None,
    ensures
        wal::segments(dir::apply(f, Step::Rename(from, to))) == wal::segments(f),
{
    lemma_not_a_segment(f, from, seq![]);
    assoc::lemma_erase(f, from);
    lemma_not_a_segment(assoc::erase(f, from), to, dir::content(f, from));
}

/// The directory after writing a checkpoint aside.
spec fn aside(f: Files, q: Point) -> Files {
    assoc::upsert(f, snapshot::temp_name(), snapshot::file_bytes(q))
}

/// The directory after also keeping the latest checkpoint as the previous.
spec fn kept(f: Files, q: Point) -> Files {
    dir::apply(aside(f, q), Step::Rename(snapshot::latest_name(), snapshot::previous_name()))
}

proof fn lemma_aside(f: Files, q: Point)
    requires
        assoc::sorted(f),
    ensures
        ({
            let g = aside(f, q);
            &&& assoc::sorted(g)
            &&& assoc::find(g, snapshot::temp_name()) == Some(snapshot::file_bytes(q))
            &&& assoc::find(g, snapshot::latest_name()) == assoc::find(f, snapshot::latest_name())
            &&& assoc::find(g, snapshot::previous_name()) == assoc::find(
                f,
                snapshot::previous_name(),
            )
            &&& wal::segments(g) == wal::segments(f)
        }),
{
    lemma_names();
    let t = snapshot::temp_name();
    let data = snapshot::file_bytes(q);
    dir::lemma_create(f, t, data, snapshot::latest_name());
    dir::lemma_create(f, t, data, snapshot::previous_name());
    lemma_not_a_segment(f, t, data);
}

proof fn lemma_kept(f: Files, q: Point)
    requires
        assoc::sorted(f),
        dir::has(f, snapshot::latest_name()),
    ensures
        ({
            let g = kept(f, q);
            &&& assoc::sorted(g)
            &&& assoc::find(g, snapshot::temp_name()) == Some(snapshot::file_bytes(q))
            &&& assoc::find(g, snapshot::latest_name()) is None
            &&& assoc::find(g, snapshot::previous_name()) == assoc::find(
                f,
                snapshot::latest_name(),
            )
            &&& wal::segments(g) == wal::segments(f)
        }),
{
    lemma_names();
    lemma_aside(f, q);
    let l = snapshot::latest_name();
    let v = snapshot::previous_name();
    dir::lemma_rename(aside(f, q), l, v, snapshot::temp_name());
    lemma_rename_keeps_segments(aside(f, q), l, v);
}

/// The directory after all the steps of writing a checkpoint.
proof fn lemma_written(f: Files, q: Point)
    requires
        assoc::sorted(f),
    ensures
        ({
            let keep = snapshot::usable(f);
            let g = dir::apply_all(f, snapshot::write_steps(keep, q));
            &&& assoc::sorted(g)
            &&& assoc::find(g, snapshot::temp_name()) is None
            &&& assoc::find(g, snapshot::latest_name()) == Some(snapshot::file_bytes(q))
            &&& assoc::find(g, snapshot::previous_name()) == (if keep {
                assoc::find(f, snapshot::latest_name())
            } else {
                assoc::find(f, snapshot::previous_name())
            })
            &&& wal::segments(g) == wal::segments(f)
        }),
{
    let l = snapshot::latest_name();
    let v = snapshot::previous_name();
    let t = snapshot::temp_name();
    let keep = snapshot::usable(f);
    let plan = snapshot::write_steps(keep, q);
    let a = Step::Create(t, snapshot::file_bytes(q));
    let b = Step::Rename(l, v);
    let c = Step::Rename(t, l);
    lemma_names();
    lemma_aside(f, q);
    if keep {
        lemma_kept(f, q);
        dir::lemma_rename(kept(f, q), t, l, v);
        lemma_rename_keeps_segments(kept(f, q), t, l);
        assert(plan =~= seq![a, b] + seq![c]);
        dir::lemma_apply_add(f, seq![a, b], seq![c]);
        dir::lemma_apply_two(f, a, b);
        dir::lemma_apply_one(kept(f, q), c);
    } else {
        dir::lemma_rename(aside(f, q), t, l, v);
        lemma_rename_keeps_segments(aside(f, q), t, l);
        assert(plan =~= seq![a, c]);
        dir::lemma_apply_two(f, a, c);
    }
}

/// Writing a checkpoint of a point on the way keeps what the directory stands for and makes that
/// point the latest checkpoint. The one before becomes the previous; where it is damaged, the
/// previous one stays.
pub proof fn law_checkpoint_keeps_the_state(f: Files, w: LogPos, p: Point, q: Point)
    requires
        holds(f, w, p),
        leads_to(f, q, p),
        snapshot::encodable(q),
    ensures
        ({
            let keep = snapshot::usable(f);
            let g = dir::apply_all(f, snapshot::write_steps(keep, q));
            &&& holds(g, w, p)
            &&& snapshot::loaded_file(g, snapshot::latest_name()) == Ok::<
                Option<Point>,
                SnapshotError,
            >(Some(q))
            &&& assoc::find(g, snapshot::previous_name()) == (if keep {
                assoc::find(f, snapshot::latest_name())
            } else {
                assoc::find(f, snapshot::previous_name())
            })
            &&& !dir::has(g, snapshot::temp_name())
            &&& wal::segments(g) == wal::segments(f)
        }),
{
    lemma_written(f, q);
    snapshot::law_file_roundtrip(q);
}

/// The directories that a crash while writing a checkpoint can leave behind.
proof fn lemma_crash_points(f: Files, q: Point, g: Files)
    requires
        dir::crashed(f, snapshot::write_steps(snapshot::usable(f), q), g),
    ensures
        ({
            let t = snapshot::temp_name();
            let data = snapshot::file_bytes(q);
            let keep = snapshot::usable(f);
            ||| g == f
            ||| exists|m: int|
                0 <= m <= data.len() && g == #[trigger] assoc::upsert(f, t, data.take(m))
            ||| g == aside(f, q)
            ||| keep && g == kept(f, q)
            ||| g == dir::apply_all(f, snapshot::write_steps(keep, q))
        }),
{
    let l = snapshot::latest_name();
    let t = snapshot::temp_name();
    let keep = snapshot::usable(f);
    let plan = snapshot::write_steps(keep, q);
    let n = choose|n: int| dir::crashed_at(f, plan, g, n);
    assert(dir::crashed_at(f, plan, g, n));
    let a = Step::Create(t, snapshot::file_bytes(q));
    let b = Step::Rename(l, snapshot::previous_name());
    let c = Step::Rename(t, l);
    assert(plan.take(0) =~= seq![]);
    assert(dir::apply_all(f, plan.take(0)) == f);
    assert(plan.take(1) =~= seq![a]);
    dir::lemma_apply_one(f, a);
    if keep {
        assert(plan.take(2) =~= seq![a, b]);
        dir::lemma_apply_two(f, a, b);
        assert(plan =~= seq![a, b] + seq![c]);
        dir::lemma_apply_add(f, seq![a, b], seq![c]);
        dir::lemma_apply_one(kept(f, q), c);
    } else {
        assert(plan =~= seq![a, c]);
        dir::lemma_apply_two(f, a, c);
    }
}

/// A directory with the same log and the same latest and previous checkpoints recovers alike.
proof fn lemma_same_recovery(f: Files, g: Files)
    requires
        wal::segments(g) == wal::segments(f),
        assoc::find(g, snapshot::latest_name()) == assoc::find(f, snapshot::latest_name()),
        assoc::find(g, snapshot::previous_name()) == assoc::find(f, snapshot::previous_name()),
    ensures
        recovered(g) == recovered(f),
{
}

/// A crash at any point of writing a checkpoint leaves a directory that recovers to the same
/// point, whether or not the latest checkpoint is damaged.
pub proof fn law_checkpoint_survives_a_crash(f: Files, w: LogPos, p: Point, q: Point, g: Files)
    requires
        holds(f, w, p),
        leads_to(f, q, p),
        snapshot::encodable(q),
        dir::crashed(f, snapshot::write_steps(snapshot::usable(f), q), g),
    ensures
        recovered(g) == Ok::<Point, Damage>(p),
{
    let l = snapshot::latest_name();
    let v = snapshot::previous_name();
    let t = snapshot::temp_name();
    let data = snapshot::file_bytes(q);
    let keep = snapshot::usable(f);
    let done = dir::apply_all(f, snapshot::write_steps(keep, q));
    lemma_names();
    lemma_crash_points(f, q, g);
    law_recovery(f, w, p);
    lemma_aside(f, q);
    lemma_same_recovery(f, aside(f, q));
    if g == done {
        law_checkpoint_keeps_the_state(f, w, p, q);
        law_recovery(g, w, p);
    } else if keep && g == kept(f, q) {
        lemma_kept(f, q);
        assert(snapshot::loaded(g) == snapshot::loaded(f));
    } else if g != f && g != aside(f, q) {
        let m = choose|m: int|
            0 <= m <= data.len() && g == #[trigger] assoc::upsert(f, t, data.take(m));
        dir::lemma_create(f, t, data.take(m), l);
        dir::lemma_create(f, t, data.take(m), v);
        lemma_not_a_segment(f, t, data.take(m));
        lemma_same_recovery(f, g);
    }
}

/// A step that writes or renames files that are no segments.
spec fn off_log(a: Step) -> bool {
    match a {
        Step::Create(n, d) => wal::segment_seq(n) is None,
        Step::Rename(from, to) => wal::segment_seq(from) is None && wal::segment_seq(to) is None,
        _ => false,
    }
}

/// Writing a segment and a step on other files can change places.
proof fn lemma_steps_commute(f: Files, name: Seq<u8>, data: Seq<u8>, a: Step)
    requires
        assoc::sorted(f),
        wal::segment_seq(name) is Some,
        off_log(a),
    ensures
        dir::apply(assoc::upsert(f, name, data), a) == assoc::upsert(dir::apply(f, a), name, data),
        assoc::find(dir::apply(f, a), name) == assoc::find(f, name),
        assoc::sorted(dir::apply(f, a)),
{
    let g = assoc::upsert(f, name, data);
    assoc::lemma_upsert(f, name, data);
    dir::lemma_apply_sorted(f, a);
    dir::lemma_apply_sorted(g, a);
    assoc::lemma_upsert(dir::apply(f, a), name, data);
    let x = dir::apply(g, a);
    let y = assoc::upsert(dir::apply(f, a), name, data);
    match a {
        Step::Create(n, d) => {
            assoc::lemma_upsert(f, n, d);
            assoc::lemma_upsert(g, n, d);
            assert forall|k: Seq<u8>| #[trigger] assoc::find(x, k) == assoc::find(y, k) by {
                if k != n && k != name {
                    assert(assoc::find(g, k) == assoc::find(f, k));
                }
            }
        },
        Step::Rename(from, to) => {
            assoc::lemma_erase(f, from);
            assoc::lemma_erase(g, from);
            if assoc::find(f, from) is Some {
                let d = assoc::find(f, from)->0;
                assoc::lemma_upsert(assoc::erase(f, from), to, d);
                assoc::lemma_upsert(assoc::erase(g, from), to, d);
            }
            assert forall|k: Seq<u8>| #[trigger] assoc::find(x, k) == assoc::find(y, k) by {
                if k != to && k != name && k != from {
                    assert(assoc::find(g, k) == assoc::find(f, k));
                }
            }
        },
        _ => {},
    }
    assoc::lemma_same_finds(x, y);
}

/// Writing a segment and a plan on other files can change places.
proof fn lemma_plan_commutes(f: Files, name: Seq<u8>, data: Seq<u8>, plan: Seq<Step>)
    requires
        assoc::sorted(f),
        wal::segment_seq(name) is Some,
        forall|i: int| 0 <= i < plan.len() ==> off_log(#[trigger] plan[i]),
    ensures
        dir::apply_all(assoc::upsert(f, name, data), plan) == assoc::upsert(
            dir::apply_all(f, plan),
            name,
            data,
        ),
        assoc::find(dir::apply_all(f, plan), name) == assoc::find(f, name),
        assoc::sorted(dir::apply_all(f, plan)),
    decreases plan.len(),
{
    if plan.len() > 0 {
        let front = plan.drop_last();
        assert forall|i: int| 0 <= i < front.len() implies off_log(#[trigger] front[i]) by {
            assert(front[i] == plan[i]);
        }
        lemma_plan_commutes(f, name, data, front);
        assert(off_log(plan[plan.len() - 1]));
        lemma_steps_commute(dir::apply_all(f, front), name, data, plan.last());
    }
}

proof fn lemma_write_off_log(keep: bool, q: Point)
    ensures
        forall|i: int|
            0 <= i < snapshot::write_steps(keep, q).len() ==> off_log(
                #[trigger] snapshot::write_steps(keep, q)[i],
            ),
{
    lemma_names();
}

/// What a failed step on the log left behind is still no more than that after a checkpoint has
/// been written, and does not change whether the latest one is usable.
pub proof fn law_a_checkpoint_keeps_what_is_left_over(f: Files, w: LogPos, g: Files, q: Point)
    requires
        wal::tracks(wal::mended(w), f),
        w.seq < u32::MAX,
        wal::left_over(f, w, g),
    ensures
        ({
            let plan = snapshot::write_steps(snapshot::usable(f), q);
            &&& snapshot::usable(g) == snapshot::usable(f)
            &&& wal::left_over(dir::apply_all(f, plan), w, dir::apply_all(g, plan))
        }),
{
    let keep = snapshot::usable(f);
    let plan = snapshot::write_steps(keep, q);
    let next = wal::segment_name(w.seq + 1);
    let f1 = dir::apply_all(f, plan);
    wal::lemma_segment_name(w.seq);
    wal::lemma_segment_name(w.seq + 1);
    lemma_write_off_log(keep, q);
    if g == dir::apply(f, wal::rotate_step(w)) {
        lemma_segment_only(f, next, seq![]);
        lemma_plan_commutes(f, next, seq![], plan);
    } else if g != f {
        let extra = choose|extra: Seq<u8>|
            g == #[trigger] dir::apply(f, Step::Append(w.name, extra));
        let data = dir::content(f, w.name) + extra;
        lemma_segment_only(f, w.name, data);
        lemma_plan_commutes(f, w.name, data, plan);
        assert(dir::apply_all(g, plan) == dir::apply(f1, Step::Append(w.name, extra)));
    }
}

// ---------------------------------------------------------------------------
// Falling back, and reclaiming the log
// ---------------------------------------------------------------------------

/// A damaged latest checkpoint is made up for by the previous one and the log.
pub proof fn law_fallback_to_the_previous_checkpoint(
    f: Files,
    w: LogPos,
    p: Point,
    q: Point,
    bad: Seq<u8>,
)
    requires
        holds(f, w, p),
        leads_to(f, q, p),
        snapshot::loaded_file(f, snapshot::previous_name()) == Ok::<Option<Point>, SnapshotError>(
            Some(q),
        ),
        snapshot::read_file(bad) is Err,
    ensures
        recovered(assoc::upsert(f, snapshot::latest_name(), bad)) == Ok::<Point, Damage>(p),
        recovered(assoc::erase(f, snapshot::latest_name())) == Ok::<Point, Damage>(p),
{
    let l = snapshot::latest_name();
    lemma_names();
    dir::lemma_create(f, l, bad, snapshot::previous_name());
    assoc::lemma_erase(f, l);
    lemma_not_a_segment(f, l, bad);
    wal::lemma_replay_clean(wal::segments(f));
}

/// Every segment has the regular name of its number.
pub open spec fn regular(segs: Files) -> bool {
    forall|i: int|
        0 <= i < segs.len() ==> wal::segment_seq((#[trigger] segs[i]).0) is Some && segs[i].0
            == wal::segment_name(wal::segment_seq(segs[i].0)->0)
}

/// The segments numbered below `boundary` hold no record above `index`.
pub open spec fn covered(segs: Files, boundary: nat, index: u64) -> bool {
    forall|i: int|
        0 <= i < segs.len() && wal::segment_seq((#[trigger] segs[i]).0)->0 < boundary ==> upto(
            wal_record::scan(segs[i].1).0,
            index,
        )
}

proof fn lemma_log_upto(segs: Files, index: u64)
    requires
        upto(wal::records_of(segs), index),
    ensures
        forall|i: int|
            0 <= i < segs.len() ==> upto(wal_record::scan((#[trigger] segs[i]).1).0, index),
    decreases segs.len(),
{
    if segs.len() > 0 {
        let all = wal::records_of(segs);
        let a = wal_record::scan(segs[0].1).0;
        let more = segs.skip(1);
        let b = wal::records_of(more);
        assert(all =~= a + b);
        assert forall|i: int| 0 <= i < a.len() implies (#[trigger] a[i]).index <= index by {
            assert(all[i] == a[i]);
        }
        assert forall|i: int| 0 <= i < b.len() implies (#[trigger] b[i]).index <= index by {
            assert(all[a.len() + i] == b[i]);
        }
        lemma_log_upto(more, index);
        assert forall|i: int| 0 <= i < segs.len() implies upto(
            wal_record::scan((#[trigger] segs[i]).1).0,
            index,
        ) by {
            if i > 0 {
                assert(more[i - 1] == segs[i]);
            }
        }
    }
}

/// When a new segment is started, the segments before it are covered by the current point.
pub proof fn law_rotation_draws_a_boundary(f: Files, w: LogPos, p: Point)
    requires
        holds(f, w, p),
        w.seq < u32::MAX,
    ensures
        covered(
            wal::segments(dir::apply(f, wal::rotate_step(w))),
            w.seq + 1,
            p.0,
        ),
        regular(wal::segments(f)) ==> regular(
            wal::segments(dir::apply(f, wal::rotate_step(w))),
        ),
{
    law_recovery(f, w, p);
    law_rotation_keeps_the_state(f, w, p);
    wal::law_rotation_keeps_the_log(w, f);
    let g = dir::apply(f, wal::rotate_step(w));
    lemma_log_upto(wal::segments(g), p.0);
    wal::lemma_segment_name(w.seq + 1);
    let segs = wal::segments(g);
    let old = wal::segments(f);
    if regular(old) {
        assert forall|i: int| 0 <= i < segs.len() implies wal::segment_seq(
            (#[trigger] segs[i]).0,
        ) is Some && segs[i].0 == wal::segment_name(wal::segment_seq(segs[i].0)->0) by {
            if i < old.len() {
                assert(segs[i] == old[i]);
            }
        }
    }
}

proof fn lemma_write_keeps_boundary(w: LogPos, f: Files, data: Seq<u8>, boundary: nat, index: u64)
    requires
        wal::tracks(w, f),
        boundary <= w.seq,
        covered(wal::segments(f), boundary, index),
        regular(wal::segments(f)),
    ensures
        covered(
            wal::segments(dir::apply(f, Step::Append(w.name, data))),
            boundary,
            index,
        ),
        regular(wal::segments(dir::apply(f, Step::Append(w.name, data)))),
{
    wal::lemma_extend(w, f, data);
    wal::lemma_segment_name(w.seq);
    let old = wal::segments(f);
    let segs = wal::segments(dir::apply(f, Step::Append(w.name, data)));
    assert forall|i: int|
        0 <= i < segs.len() && wal::segment_seq((#[trigger] segs[i]).0)->0
            < boundary implies upto(wal_record::scan(segs[i].1).0, index) by {
        if i < old.len() - 1 {
            assert(segs[i] == old[i]);
        }
    }
    assert forall|i: int| 0 <= i < segs.len() implies wal::segment_seq((#[trigger] segs[i]).0) is Some
        && segs[i].0 == wal::segment_name(wal::segment_seq(segs[i].0)->0) by {
        if i < old.len() - 1 {
            assert(segs[i] == old[i]);
        }
    }
}

proof fn lemma_rotation_keeps_boundary(w: LogPos, f: Files, boundary: nat, index: u64)
    requires
        wal::tracks(w, f),
        w.seq < u32::MAX,
        boundary <= w.seq,
        covered(wal::segments(f), boundary, index),
        regular(wal::segments(f)),
    ensures
        covered(wal::segments(dir::apply(f, wal::rotate_step(w))), boundary, index),
        regular(wal::segments(dir::apply(f, wal::rotate_step(w)))),
{
    wal::law_rotation_keeps_the_log(w, f);
    wal::lemma_segment_name(w.seq + 1);
    let old = wal::segments(f);
    let segs = wal::segments(dir::apply(f, wal::rotate_step(w)));
    assert forall|i: int|
        0 <= i < segs.len() && wal::segment_seq((#[trigger] segs[i]).0)->0
            < boundary implies upto(wal_record::scan(segs[i].1).0, index) by {
        if i < old.len() {
            assert(segs[i] == old[i]);
        }
    }
    assert forall|i: int| 0 <= i < segs.len() implies wal::segment_seq((#[trigger] segs[i]).0) is Some
        && segs[i].0 == wal::segment_name(wal::segment_seq(segs[i].0)->0) by {
        if i < old.len() {
            assert(segs[i] == old[i]);
        }
    }
}

/// Commits go into segments at or above a boundary drawn before, so what lies below it stays
/// covered.
pub proof fn law_commits_keep_the_boundary(
    w: LogPos,
    f: Files,
    rs: Seq<LogRecord>,
    boundary: nat,
    index: u64,
)
    requires
        wal::tracks(w, f),
        wal::can_append(w, rs),
        boundary <= w.seq,
        covered(wal::segments(f), boundary, index),
        regular(wal::segments(f)),
    ensures
        covered(
            wal::segments(dir::apply_all(f, wal::append_steps(w, rs))),
            boundary,
            index,
        ),
        regular(wal::segments(dir::apply_all(f, wal::append_steps(w, rs)))),
        wal::after_all(w, wal::append_steps(w, rs)).seq >= boundary,
{
    let buf = wal_record::frames(rs);
    if wal::overflows(w, buf.len()) {
        let a = wal::rotate_step(w);
        let b = Step::Append(wal::segment_name(w.seq + 1), buf);
        assert(wal::append_steps(w, rs) =~= seq![a, b]);
        wal::law_rotation_keeps_the_log(w, f);
        lemma_rotation_keeps_boundary(w, f, boundary, index);
        lemma_write_keeps_boundary(
            wal::after(w, a),
            dir::apply(f, a),
            buf,
            boundary,
            index,
        );
        dir::lemma_apply_two(f, a, b);
        wal::lemma_after_two(w, a, b);
    } else {
        let a = Step::Append(w.name, buf);
        lemma_write_keeps_boundary(w, f, buf, boundary, index);
        dir::lemma_apply_one(f, a);
        wal::lemma_after_one(w, a);
    }
}

/// The boundary `b` was drawn for a checkpoint of `q`: the segments numbered below it hold no
/// record above `q`, and the log leads from `q` to the point `p`.
pub open spec fn bounded(f: Files, w: LogPos, p: Point, q: Point, b: nat) -> bool {
    &&& regular(wal::segments(f))
    &&& covered(wal::segments(f), b, q.0)
    &&& leads_to(f, q, p)
    &&& b <= w.seq
}

/// Commits keep the boundaries drawn before.
pub proof fn law_commits_stay_bounded(
    w: LogPos,
    f: Files,
    p: Point,
    rs: Seq<LogRecord>,
    q: Point,
    b: nat,
)
    requires
        wal::tracks(w, f),
        wal::can_append(w, rs),
        bounded(f, w, p, q, b),
        forall|i: int| 0 <= i < rs.len() ==> wal_record::encodable(#[trigger] rs[i]),
    ensures
        bounded(
            dir::apply_all(f, wal::append_steps(w, rs)),
            wal::after_all(w, wal::append_steps(w, rs)),
            apply_log(p, rs),
            q,
            b,
        ),
{
    law_commits_keep_the_boundary(w, f, rs, b, q.0);
    law_pinned_while_committing(f, w, q, p, rs);
}

/// Starting a new segment keeps the boundaries drawn before, and draws one for the current point.
pub proof fn law_rotation_stays_bounded(f: Files, w: LogPos, p: Point, q: Point, b: nat)
    requires
        holds(f, w, p),
        w.seq < u32::MAX,
    ensures
        ({
            let g = dir::apply(f, wal::rotate_step(w));
            let w1 = wal::after(w, wal::rotate_step(w));
            &&& regular(wal::segments(f)) ==> bounded(g, w1, p, p, w1.seq)
            &&& bounded(f, w, p, q, b) ==> bounded(g, w1, p, q, b) && q.0 <= p.0
        }),
{
    law_rotation_keeps_the_state(f, w, p);
    law_rotation_draws_a_boundary(f, w, p);
    law_pinned(dir::apply(f, wal::rotate_step(w)), wal::after(w, wal::rotate_step(w)), p);
    if bounded(f, w, p, q, b) {
        lemma_rotation_keeps_boundary(w, f, b, q.0);
        lemma_apply_index(q, wal::log_of(f));
    }
}

/// The names of a run of files.
pub open spec fn names_of(segs: Files) -> Seq<Seq<u8>> {
    segs.map_values(|e: (Seq<u8>, Seq<u8>)| e.0)
}

proof fn lemma_numbers_increase(segs: Files, i: int, j: int)
    requires
        assoc::sorted(segs),
        regular(segs),
        0 <= i < j < segs.len(),
    ensures
        wal::segment_seq(segs[i].0)->0 < wal::segment_seq(segs[j].0)->0,
{
    let a = wal::segment_seq(segs[i].0)->0;
    let b = wal::segment_seq(segs[j].0)->0;
    assert(segs[i].0 == wal::segment_name(a));
    assert(segs[j].0 == wal::segment_name(b));
    assert(bytes::lex_lt(segs[i].0, segs[j].0));
    if a == b {
        bytes::lemma_lex_irreflexive(segs[i].0);
    } else if b < a {
        wal::law_names_sort(b, a);
        bytes::lemma_lex_asymmetric(segs[i].0, segs[j].0);
    }
}

/// The steps that remove the first `k` of a run of segments.
spec fn remove_first(segs: Files, k: nat) -> Seq<Step> {
    Seq::new(k, |i: int| Step::Remove(segs[i].0))
}

/// Deleting the segments below a boundary deletes a run at the front.
proof fn lemma_remove_is_a_front(segs: Files, boundary: nat) -> (k: nat)
    requires
        assoc::sorted(segs),
        regular(segs),
    ensures
        k <= segs.len(),
        wal::remove_steps(names_of(segs), boundary) == remove_first(segs, k),
        forall|i: int| 0 <= i < k ==> wal::segment_seq((#[trigger] segs[i]).0)->0 < boundary,
        forall|i: int|
            k <= i < segs.len() ==> wal::segment_seq((#[trigger] segs[i]).0)->0 >= boundary,
    decreases segs.len(),
{
    if segs.len() == 0 {
        assert(names_of(segs) =~= seq![]);
        assert(remove_first(segs, 0) =~= seq![]);
        0
    } else {
        let front = segs.drop_last();
        let n = segs.len() - 1;
        assert forall|i: int, j: int| 0 <= i < j < front.len() implies bytes::lex_lt(
            #[trigger] front[i].0,
            #[trigger] front[j].0,
        ) by {
            assert(bytes::lex_lt(segs[i].0, segs[j].0));
        }
        assert forall|i: int| 0 <= i < front.len() implies wal::segment_seq(
            (#[trigger] front[i]).0,
        ) is Some && front[i].0 == wal::segment_name(wal::segment_seq(front[i].0)->0) by {
            assert(front[i] == segs[i]);
        }
        let k = lemma_remove_is_a_front(front, boundary);
        assert(names_of(segs).drop_last() =~= names_of(front));
        assert(names_of(segs).last() == segs[n as int].0);
        assert(wal::segment_seq(segs[n as int].0) is Some);
        assert(remove_first(front, k) =~= remove_first(segs, k));
        if wal::segment_seq(segs[n as int].0)->0 < boundary {
            if k < front.len() {
                lemma_numbers_increase(segs, k as int, n as int);
                assert(wal::segment_seq(front[k as int].0)->0 >= boundary);
            }
            assert(remove_first(segs, segs.len()) =~= remove_first(segs, k).push(
                Step::Remove(segs[n as int].0),
            ));
            assert forall|i: int| 0 <= i < segs.len() implies wal::segment_seq(
                (#[trigger] segs[i]).0,
            )->0 < boundary by {
                if i < n {
                    assert(front[i] == segs[i]);
                }
            }
            segs.len()
        } else {
            assert forall|i: int| 0 <= i < k implies wal::segment_seq((#[trigger] segs[i]).0)->0
                < boundary by {
                assert(front[i] == segs[i]);
            }
            assert forall|i: int| k <= i < segs.len() implies wal::segment_seq(
                (#[trigger] segs[i]).0,
            )->0 >= boundary by {
                if i < n {
                    assert(front[i] == segs[i]);
                }
            }
            k
        }
    }
}

/// Removing the first `n` segments.
proof fn lemma_removed(f: Files, n: nat)
    requires
        assoc::sorted(f),
        n <= wal::segments(f).len(),
    ensures
        ({
            let g = dir::apply_all(f, remove_first(wal::segments(f), n));
            &&& assoc::sorted(g)
            &&& wal::segments(g) == wal::segments(f).skip(n as int)
            &&& assoc::find(g, snapshot::latest_name()) == assoc::find(f, snapshot::latest_name())
            &&& assoc::find(g, snapshot::previous_name()) == assoc::find(
                f,
                snapshot::previous_name(),
            )
        }),
    decreases n,
{
    let segs = wal::segments(f);
    let plan = remove_first(segs, n);
    assoc::lemma_keep(f, wal::is_segment());
    if n == 0 {
        assert(plan =~= seq![]);
        assert(segs.skip(0) =~= segs);
    } else {
        let m = (n - 1) as nat;
        lemma_removed(f, m);
        let f1 = dir::apply_all(f, remove_first(segs, m));
        assert(plan.drop_last() =~= remove_first(segs, m));
        let name = segs[m as int].0;
        let rest = segs.skip(m as int);
        assert(rest[0] == segs[m as int]);
        assert(wal::is_segment()(segs[m as int].0));
        assoc::lemma_keep(f1, wal::is_segment());
        assoc::lemma_keep_erase(f1, wal::is_segment(), name);
        assoc::lemma_erase_first(rest);
        assoc::lemma_erase(f1, name);
        assert(rest.skip(1) =~= segs.skip(n as int));
        lemma_names();
    }
}

proof fn lemma_records_skip(segs: Files, n: nat, index: u64) -> (a: Seq<LogRecord>)
    requires
        n <= segs.len(),
        forall|i: int| 0 <= i < n ==> upto(wal_record::scan((#[trigger] segs[i]).1).0, index),
    ensures
        wal::records_of(segs) == a + wal::records_of(segs.skip(n as int)),
        upto(a, index),
    decreases n,
{
    if n == 0 {
        assert(segs.skip(0) =~= segs);
        assert(wal::records_of(segs) =~= Seq::<LogRecord>::empty() + wal::records_of(segs));
        seq![]
    } else {
        let more = segs.skip(1);
        assert forall|i: int| 0 <= i < n - 1 implies upto(
            wal_record::scan((#[trigger] more[i]).1).0,
            index,
        ) by {
            assert(more[i] == segs[i + 1]);
        }
        let b = lemma_records_skip(more, (n - 1) as nat, index);
        assert(more.skip(n - 1) =~= segs.skip(n as int));
        let c = wal_record::scan(segs[0].1).0;
        assert(upto(c, index));
        let a = c + b;
        assert(wal::records_of(segs) =~= a + wal::records_of(segs.skip(n as int)));
        assert forall|i: int| 0 <= i < a.len() implies (#[trigger] a[i]).index <= index by {
            if i < c.len() {
                assert(a[i] == c[i]);
            } else {
                assert(a[i] == b[i - c.len()]);
            }
        }
        a
    }
}

/// A crash while deleting the segments below a boundary leaves a run at the front deleted.
proof fn lemma_removal_cut_short(f: Files, boundary: nat, g: Files) -> (m: nat)
    requires
        assoc::sorted(f),
        regular(wal::segments(f)),
        dir::crashed(f, wal::remove_steps(names_of(wal::segments(f)), boundary), g),
    ensures
        m <= wal::segments(f).len(),
        g == dir::apply_all(f, remove_first(wal::segments(f), m)),
        forall|i: int|
            0 <= i < m ==> wal::segment_seq((#[trigger] wal::segments(f)[i]).0)->0 < boundary,
{
    let segs = wal::segments(f);
    assoc::lemma_keep(f, wal::is_segment());
    let k = lemma_remove_is_a_front(segs, boundary);
    let plan = remove_first(segs, k);
    let n = choose|n: int| dir::crashed_at(f, plan, g, n);
    assert(dir::crashed_at(f, plan, g, n));
    assert(plan.take(n) =~= remove_first(segs, n as nat));
    if n < plan.len() {
        assert(remove_first(segs, (n + 1) as nat).drop_last() =~= plan.take(n));
        assert(remove_first(segs, (n + 1) as nat).last() == plan[n]);
    } else {
        assert(plan.take(n) =~= plan);
    }
    if g == dir::apply_all(f, remove_first(segs, n as nat)) {
        n as nat
    } else {
        (n + 1) as nat
    }
}

/// Reclaiming the segments below a boundary, or being interrupted while doing so, keeps what
/// the directory stands for, and keeps every point on the way that covers them: the latest
/// checkpoint, and the previous one for a fall-back.
pub proof fn law_reclaiming_keeps_the_state(
    f: Files,
    w: LogPos,
    p: Point,
    q: Point,
    boundary: nat,
    g: Files,
)
    requires
        holds(f, w, p),
        leads_to(f, q, p),
        regular(wal::segments(f)),
        covered(wal::segments(f), boundary, q.0),
        boundary <= w.seq,
        snapshot::loaded(f) matches Ok(Some(l)) && l.0 >= q.0,
        dir::crashed(f, wal::remove_steps(names_of(wal::segments(f)), boundary), g),
    ensures
        holds(g, w, p),
        leads_to(g, q, p),
        regular(wal::segments(g)),
        same_checkpoints(f, g),
        forall|b: nat, i: u64| #[trigger]
            covered(wal::segments(f), b, i) ==> covered(wal::segments(g), b, i),
{
    let segs = wal::segments(f);
    let m = lemma_removal_cut_short(f, boundary, g);
    lemma_removed(f, m);
    let left = segs.skip(m as int);
    if m == segs.len() {
        wal::lemma_segment_name(w.seq);
        assert(wal::segment_seq(segs[segs.len() - 1].0)->0 < boundary);
    }
    assert(left.last() == segs.last());
    assert forall|i: int| 0 <= i < left.len() implies wal_record::scan(
        (#[trigger] left[i]).1,
    ).1 is None by {
        assert(left[i] == segs[i + m]);
    }
    assert forall|i: int| 0 <= i < left.len() implies wal::segment_seq((#[trigger] left[i]).0) is Some
        && left[i].0 == wal::segment_name(wal::segment_seq(left[i].0)->0) by {
        assert(left[i] == segs[i + m]);
    }
    assert forall|b: nat, i: u64| #[trigger] covered(segs, b, i) implies covered(left, b, i) by {
        assert forall|j: int|
            0 <= j < left.len() && wal::segment_seq((#[trigger] left[j]).0)->0 < b implies upto(
            wal_record::scan(left[j].1).0,
            i,
        ) by {
            assert(left[j] == segs[j + m]);
        }
    }
    let l = snapshot::loaded(f)->Ok_0->0;
    assert forall|i: int| 0 <= i < m implies upto(
        wal_record::scan((#[trigger] segs[i]).1).0,
        q.0,
    ) by {
        assert(wal::segment_seq(segs[i].0)->0 < boundary);
    }
    let a = lemma_records_skip(segs, m, q.0);
    lemma_apply_add(q, a, wal::records_of(left));
    lemma_apply_reflected(q, a);
    lemma_apply_add(l, a, wal::records_of(left));
    lemma_apply_reflected(l, a);
}

} // verus!
