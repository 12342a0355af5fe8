//! What readers of published snapshots observe, against what was committed.
//!
//! A store starts empty and publishes a new snapshot after each group of commits. If every
//! operation is recorded as a write at the index of its commit, and every read at the index of
//! the snapshot it was served from, then the [`checker`] finds nothing to object to, however the
//! reads and writes interleaved: a read at index `r` sees the first `r` commits and nothing else.

use crate::assoc;
use crate::checker;
use crate::recovery;
use crate::snapshot::Point;
use crate::types;
use crate::types::Change;
use vstd::prelude::*;

verus! {

/// The writes that the operations of a commit record.
pub open spec fn writes_at(ops: Seq<Change>, index: u64) -> Seq<checker::Write> {
    Seq::new(
        ops.len(),
        |i: int|
            match ops[i] {
                Change::Put(k, v) => (index, k, Some(v)),
                Change::Delete(k) => (index, k, None),
            },
    )
}

/// The writes that a run of commits records: commit `i` has the index `i + 1`.
pub open spec fn recorded(commits: Seq<Seq<Change>>) -> Seq<checker::Write>
    decreases commits.len(),
{
    if commits.len() == 0 {
        seq![]
    } else {
        recorded(commits.drop_last()) + writes_at(commits.last(), commits.len() as u64)
    }
}

/// What is published after a run of commits from the empty state.
pub open spec fn published(commits: Seq<Seq<Change>>) -> Point
    decreases commits.len(),
{
    if commits.len() == 0 {
        (0, seq![])
    } else {
        (
            commits.len() as u64,
            types::change_all(
                published(commits.drop_last()).1,
                commits.last(),
                commits.len() as u64,
            ),
        )
    }
}

/// The value that a reader of a point sees.
pub open spec fn seen(p: Point, key: Seq<u8>) -> Option<Seq<u8>> {
    match assoc::find(p.1, key) {
        Some(c) => Some(c.0),
        None => None,
    }
}

/// Committing a group publishes what the longer run of commits publishes.
pub proof fn law_commits_extend_the_run(
    commits: Seq<Seq<Change>>,
    group: Seq<Seq<Change>>,
    term: u64,
)
    requires
        commits.len() + group.len() <= u64::MAX,
    ensures
        recovery::commit_group(published(commits), group, term) == published(commits + group),
    decreases group.len(),
{
    let p = published(commits);
    let rs = recovery::group_records(p.0, group, term);
    if group.len() == 0 {
        assert(commits + group =~= commits);
    } else {
        let g = group.drop_last();
        law_commits_extend_the_run(commits, g, term);
        assert(rs.drop_last() =~= recovery::group_records(p.0, g, term));
        assert((commits + group).drop_last() =~= commits + g);
        assert((commits + group).last() == group.last());
    }
}

/// A read at index `r` sees what the first `r` commits published, and that is what it owes by the
/// recorded writes of all commits, the later ones too.
pub proof fn law_snapshot_reads_are_consistent(
    commits: Seq<Seq<Change>>,
    r: u64,
    key: Seq<u8>,
)
    requires
        r <= commits.len() <= u64::MAX,
    ensures
        checker::expected(recorded(commits), key, r) == seen(published(commits.take(r as int)), key),
        published(commits.take(r as int)).0 == r,
    decreases commits.len(),
{
    if commits.len() == 0 {
        assert(commits.take(0) =~= commits);
    } else {
        let d = commits.drop_last();
        let n = commits.len() as u64;
        let ops = commits.last();
        let ws = recorded(d);
        if r < n {
            law_snapshot_reads_are_consistent(d, r, key);
            assert(commits.take(r as int) =~= d.take(r as int));
            lemma_later_writes(ws, writes_at(ops, n), key, r);
        } else {
            assert(commits.take(r as int) =~= commits);
            assert(d.take(d.len() as int) =~= d);
            law_snapshot_reads_are_consistent(d, d.len() as u64, key);
            lemma_recorded_indices(d);
            checker::lemma_latest_beyond(ws, key, d.len() as u64, n);
            lemma_published_sorted(d);
            lemma_commit_writes(ws, published(d).1, ops, n, key);
        }
    }
}

/// A run of commits publishes what its records, applied to the empty state, leave.
proof fn lemma_published_is_applied(commits: Seq<Seq<Change>>)
    requires
        commits.len() <= u64::MAX,
    ensures
        published(commits) == recovery::apply_log(
            recovery::origin(),
            recovery::group_records(0, commits, 0),
        ),
{
    let none: Seq<Seq<Change>> = seq![];
    law_commits_extend_the_run(none, commits, 0);
    assert(none + commits =~= commits);
    assert(published(none).1 =~= recovery::origin().1);
}

/// The version found for a key is the index of the latest commit that changed its value: that
/// commit put the value that is found, it was not there with that version before, and every
/// snapshot since then serves it.
pub proof fn law_versions_are_commit_indices(commits: Seq<Seq<Change>>, key: Seq<u8>)
    requires
        commits.len() <= u64::MAX,
    ensures
        assoc::find(published(commits).1, key) matches Some(c) ==> {
            &&& 1 <= c.1 <= commits.len()
            &&& commits[c.1 - 1].contains(Change::Put(key, c.0))
            &&& assoc::find(published(commits.take(c.1 - 1)).1, key) != Some(c)
            &&& forall|i: int|
                c.1 <= i <= commits.len() ==> assoc::find(
                    (#[trigger] published(commits.take(i))).1,
                    key,
                ) == Some(c)
        },
{
    if assoc::find(published(commits).1, key) is Some {
        let c = assoc::find(published(commits).1, key)->0;
        let p = recovery::origin();
        let rs = recovery::group_records(0, commits, 0);
        lemma_published_is_applied(commits);
        recovery::law_a_version_is_the_latest_change(p, rs, key);
        assert(rs.take(0) =~= seq![]);
        assert(recovery::apply_log(p, rs.take(0)) == p);
        assert(assoc::find(p.1, key) is None);
        assert forall|i: int| 0 <= i <= commits.len() implies #[trigger] published(commits.take(i))
            == recovery::apply_log(p, rs.take(i)) by {
            lemma_published_is_applied(commits.take(i));
            assert(recovery::group_records(0, commits.take(i), 0) =~= rs.take(i));
        }
        let j = choose|j: int| #[trigger] recovery::wrote(p, rs, key, c.0, j) && rs[j].index == c.1;
        let s = recovery::apply_log(p, rs.take(j)).1;
        let m = choose|m: int| #[trigger]
            types::wrote(s, rs[j].ops, rs[j].index, key, c.0, m);
        assert(commits[j][m] == Change::Put(key, c.0));
        assert(published(commits.take(j)) == recovery::apply_log(p, rs.take(j)));
        assert forall|i: int| c.1 <= i <= commits.len() implies assoc::find(
            (#[trigger] published(commits.take(i))).1,
            key,
        ) == Some(c) by {
            assert(published(commits.take(i)) == recovery::apply_log(p, rs.take(i)));
        }
        lemma_versions_lag(commits.take(j), key);
    }
}

/// No version is above the number of commits.
proof fn lemma_versions_lag(commits: Seq<Seq<Change>>, key: Seq<u8>)
    requires
        commits.len() <= u64::MAX,
    ensures
        assoc::find(published(commits).1, key) matches Some(c) ==> c.1 <= commits.len(),
    decreases commits.len(),
{
    if commits.len() > 0 {
        let d = commits.drop_last();
        lemma_versions_lag(d, key);
        lemma_published_sorted(d);
        types::law_a_changed_value_is_stamped(
            published(d).1,
            commits.last(),
            commits.len() as u64,
            key,
        );
    }
}

/// Writes above the index of a read make no difference to it.
proof fn lemma_later_writes(
    ws: Seq<checker::Write>,
    more: Seq<checker::Write>,
    key: Seq<u8>,
    r: u64,
)
    requires
        forall|i: int| 0 <= i < more.len() ==> (#[trigger] more[i]).0 > r,
    ensures
        checker::latest(ws + more, key, r) == checker::latest(ws, key, r),
    decreases more.len(),
{
    if more.len() == 0 {
        assert(ws + more =~= ws);
    } else {
        let d = more.drop_last();
        assert forall|i: int| 0 <= i < d.len() implies (#[trigger] d[i]).0 > r by {
            assert(d[i] == more[i]);
        }
        lemma_later_writes(ws, d, key, r);
        assert((ws + more).drop_last() =~= ws + d);
        assert(more[more.len() - 1].0 > r);
    }
}

proof fn lemma_recorded_indices(commits: Seq<Seq<Change>>)
    requires
        commits.len() <= u64::MAX,
    ensures
        forall|i: int|
            0 <= i < recorded(commits).len() ==> (#[trigger] recorded(commits)[i]).0
                <= commits.len(),
    decreases commits.len(),
{
    if commits.len() > 0 {
        let d = commits.drop_last();
        lemma_recorded_indices(d);
        let ws = recorded(commits);
        assert forall|i: int| 0 <= i < ws.len() implies (#[trigger] ws[i]).0 <= commits.len() by {
            if i < recorded(d).len() {
                assert(ws[i] == recorded(d)[i]);
            }
        }
    }
}

proof fn lemma_published_sorted(commits: Seq<Seq<Change>>)
    ensures
        assoc::sorted(published(commits).1),
    decreases commits.len(),
{
    if commits.len() > 0 {
        lemma_published_sorted(commits.drop_last());
        types::lemma_change_all_sorted(
            published(commits.drop_last()).1,
            commits.last(),
            commits.len() as u64,
        );
    }
}

/// The operations of a commit change what a reader sees as their writes change what it owes.
proof fn lemma_commit_writes(
    ws: Seq<checker::Write>,
    s: types::State,
    ops: Seq<Change>,
    n: u64,
    key: Seq<u8>,
)
    requires
        assoc::sorted(s),
        checker::latest(ws, key, n) matches Some(w) ==> w.0 <= n,
        checker::expected(ws, key, n) == seen((n, s), key),
    ensures
        checker::latest(ws + writes_at(ops, n), key, n) matches Some(w) ==> w.0 <= n,
        checker::expected(ws + writes_at(ops, n), key, n) == seen(
            (n, types::change_all(s, ops, n)),
            key,
        ),
    decreases ops.len(),
{
    if ops.len() == 0 {
        assert(ws + writes_at(ops, n) =~= ws);
    } else {
        let d = ops.drop_last();
        let op = ops.last();
        lemma_commit_writes(ws, s, d, n, key);
        types::lemma_change_all_sorted(s, d, n);
        let t = types::change_all(s, d, n);
        let all = ws + writes_at(ops, n);
        assert(all.drop_last() =~= ws + writes_at(d, n));
        let own = match op {
            Change::Put(k, v) => k,
            Change::Delete(k) => k,
        };
        if key == own {
            match op {
                Change::Put(k, v) => {
                    assoc::lemma_upsert(t, k, (v, n));
                },
                Change::Delete(k) => {
                    assoc::lemma_erase(t, k);
                },
            }
        } else {
            types::law_change_is_local(t, op, n, key);
        }
    }
}

} // verus!
