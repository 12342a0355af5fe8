//! The store engine (single node).
//!
//! * The authoritative state is a [`RcuSwap`] of a [`Snapshot`]: readers work on an immutable
//!   view, and a commit publishes a new one.
//! * Every mutation is durable, then published: the operations are appended to the log before
//!   the new snapshot is published.
//! * Commits are grouped: callers queue their operations and get a ticket; whoever finds the
//!   store idle flushes everything queued with one append, and all of them settle together,
//!   each with its own commit index. A batch is one commit: one index, all or nothing.
//! * A checkpoint pins the current snapshot and starts a new log segment while no flush is
//!   running; writing the checkpoint file then goes on beside later commits. The segments that
//!   a checkpoint covers are deleted only by the next one, so that recovery can fall back to
//!   the previous checkpoint with a complete log.
//! * A flush that fails publishes nothing. What it may have left in the log is cut off by the next
//!   one, which goes into a new segment, so that later commits are not lost behind it.
//!
//! The store decides; it does not touch files. Where files have to change it hands out the
//! steps, and is told which were performed and how a flush ended.

use crate::assoc;
use crate::bytes;
use crate::bytes::copy_bytes;
use crate::dir;
use crate::dir::{DirImage, FileAction, Step};
use crate::ordmap::share;
use crate::rcu::RcuSwap;
use crate::recovery;
use crate::recovery::{recover, Damage, RecoveryError};
use crate::snapshot;
use crate::snapshot::{Point, SnapshotError};
use crate::types;
use crate::types::{apply_ops, copy_ops, share_map, Cell, Change, Entry, KvMap, Op, Shared, Snapshot};
use crate::wal;
use crate::wal::{LogPos, Record, Wal};
use crate::wal_record;
use crate::wal_record::LogRecord;
use std::collections::BTreeMap;
use std::sync::Arc;
use vstd::prelude::*;

verus! {

broadcast use {vstd::std_specs::btree::group_btree_axioms, vstd::laws_cmp::group_laws_cmp};

/// The default size at which a log segment rotates.
pub const DEFAULT_MAX_SEG_BYTES: u64 = 1048576;

/// The term of every commit: a single node never elects.
pub const TERM: u64 = 1;

/// Commit counters since the store was opened.
#[derive(Clone, Copy, Debug, Default, PartialEq, Eq, Structural)]
pub struct Stats {
    /// Commits acknowledged, one per `put`, `delete` or `put_batch`.
    pub commits: u64,
    /// Appends to the log, one per group of commits.
    pub wal_syncs: u64,
    /// Checkpoints written.
    pub checkpoints: u64,
}

/// A queued commit: the operations of one caller, and the ticket its result is delivered under.
#[derive(Debug)]
struct Pending {
    ticket: u64,
    ops: Vec<Op>,
}

/// A ticket and the operations queued under it.
pub type Commit = (u64, Seq<Change>);

/// How a commit ended: its index, or the error of the flush that failed.
pub type Outcome<E> = Result<u64, Arc<E>>;

/// The commits of a queue.
spec fn commits(q: Seq<Pending>) -> Seq<Commit> {
    q.map_values(|p: Pending| (p.ticket, types::changes(p.ops@)))
}

/// The operations of each commit.
pub open spec fn group_of(cs: Seq<Commit>) -> Seq<Seq<Change>> {
    cs.map_values(|c: Commit| c.1)
}

/// What a store holds.
#[verifier::ext_equal]
pub struct StoreState<E> {
    /// The published index and state.
    pub point: Point,
    /// Commits waiting for a flush.
    pub waiting: Seq<Commit>,
    /// The group being flushed.
    pub group: Option<Seq<Commit>>,
    /// Whether a checkpoint holds the store between flushes.
    pub exclusive: bool,
    /// Outcomes that their callers have not taken yet.
    pub settled: Map<u64, Outcome<E>>,
    /// Where the log is being written.
    pub log: LogPos,
    /// The boundary drawn by the previous checkpoint.
    pub boundary: Option<u32>,
    /// The next ticket.
    pub next_ticket: u64,
    pub stats: Stats,
}

/// The outcomes `settled` with those of a group added: `Ok` with the index of each commit, or
/// the error for all of them.
pub open spec fn settle_all<E>(
    settled: Map<u64, Outcome<E>>,
    group: Seq<Commit>,
    index: u64,
    end: Result<(), Arc<E>>,
) -> Map<u64, Outcome<E>>
    decreases group.len(),
{
    if group.len() == 0 {
        settled
    } else {
        settle_all(settled, group.drop_last(), index, end).insert(
            group.last().0,
            match end {
                Ok(u) => Ok((index + group.len()) as u64),
                Err(e) => Err(e),
            },
        )
    }
}

/// Settling a group gives every ticket of the group an outcome.
pub proof fn law_a_flush_settles_its_group<E>(
    settled: Map<u64, Outcome<E>>,
    group: Seq<Commit>,
    index: u64,
    end: Result<(), Arc<E>>,
    i: int,
)
    requires
        0 <= i < group.len(),
        index + group.len() <= u64::MAX,
        forall|x: int, y: int|
            0 <= x < y < group.len() ==> (#[trigger] group[x]).0 != (#[trigger] group[y]).0,
    ensures
        settle_all(settled, group, index, end).contains_key(group[i].0),
        settle_all(settled, group, index, end)[group[i].0] == (match end {
            Ok(u) => Ok::<u64, Arc<E>>((index + 1 + i) as u64),
            Err(e) => Err(e),
        }),
    decreases group.len(),
{
    if i < group.len() - 1 {
        let d = group.drop_last();
        assert forall|x: int, y: int| 0 <= x < y < d.len() implies (#[trigger] d[x]).0 != (
        #[trigger] d[y]).0 by {
            assert(group[x].0 != group[y].0);
        }
        law_a_flush_settles_its_group(settled, d, index, end, i);
        assert(group[i].0 != group[group.len() - 1].0);
    }
}

/// The commits whose outcome is still open: those being flushed, then those waiting.
pub open spec fn pending<E>(s: StoreState<E>) -> Seq<Commit> {
    match s.group {
        Some(g) => g + s.waiting,
        None => s.waiting,
    }
}

/// Tickets are used once: those of pending commits differ, none of them has been settled, and all
/// that were ever used are below the next one.
pub open spec fn ticketed<E>(s: StoreState<E>) -> bool {
    &&& forall|i: int|
        0 <= i < pending(s).len() ==> (#[trigger] pending(s)[i]).0 < s.next_ticket
            && !s.settled.contains_key(pending(s)[i].0)
    &&& forall|i: int, j: int|
        0 <= i < j < pending(s).len() ==> (#[trigger] pending(s)[i]).0 != (
        #[trigger] pending(s)[j]).0
    &&& forall|t: u64| #[trigger] s.settled.contains_key(t) ==> t < s.next_ticket
}

proof fn lemma_settled_tickets<E>(
    settled: Map<u64, Outcome<E>>,
    group: Seq<Commit>,
    index: u64,
    end: Result<(), Arc<E>>,
    t: u64,
)
    ensures
        settle_all(settled, group, index, end).contains_key(t) <==> settled.contains_key(t) || (
        exists|i: int| 0 <= i < group.len() && (#[trigger] group[i]).0 == t),
    decreases group.len(),
{
    if group.len() > 0 {
        let d = group.drop_last();
        lemma_settled_tickets(settled, d, index, end, t);
        if exists|i: int| 0 <= i < d.len() && (#[trigger] d[i]).0 == t {
            let i = choose|i: int| 0 <= i < d.len() && (#[trigger] d[i]).0 == t;
            assert(group[i].0 == t);
        }
        if exists|i: int| 0 <= i < group.len() && (#[trigger] group[i]).0 == t {
            let i = choose|i: int| 0 <= i < group.len() && (#[trigger] group[i]).0 == t;
            if i < d.len() {
                assert(d[i].0 == t);
            }
        }
        if group.last().0 == t {
            assert(group[group.len() - 1].0 == t);
        }
    }
}

/// Whatever a store does, its tickets are used once.
pub proof fn law_tickets_are_used_once<E>(
    point: Point,
    log: LogPos,
    s: StoreState<E>,
    ops: Seq<Change>,
    ticket: u64,
    a: Step,
    held: bool,
    boundary: u32,
    end: Result<(), Arc<E>>,
)
    ensures
        ticketed(fresh::<E>(point, log)),
        ticketed(s) && s.next_ticket < u64::MAX ==> ticketed(queued(s, ops)),
        ticketed(s) && s.group is None ==> ticketed(flushing(s)),
        ticketed(s) && s.group is Some ==> ticketed(settled_by(s, end)),
        ticketed(s) ==> ticketed(StoreState { settled: s.settled.remove(ticket), ..s }),
        ticketed(s) ==> ticketed(followed(s, a)),
        ticketed(s) ==> ticketed(StoreState { exclusive: held, ..s }),
        ticketed(s) ==> ticketed(abandoned(s)),
        ticketed(s) ==> ticketed(checkpointed(s, boundary)),
{
    if ticketed(s) && s.next_ticket < u64::MAX {
        let t = queued(s, ops);
        let n = pending(s).len() as int;
        assert(pending(t) =~= pending(s).push((s.next_ticket, ops)));
        assert forall|i: int| 0 <= i < pending(t).len() implies (#[trigger] pending(t)[i]).0
            < t.next_ticket && !t.settled.contains_key(pending(t)[i].0) by {
            if i < n {
                assert(pending(t)[i] == pending(s)[i]);
            }
        }
        assert forall|i: int, j: int| 0 <= i < j < pending(t).len() implies (
        #[trigger] pending(t)[i]).0 != (#[trigger] pending(t)[j]).0 by {
            assert(pending(t)[i] == pending(s)[i]);
            if j < n {
                assert(pending(t)[j] == pending(s)[j]);
            }
        }
    }
    if ticketed(s) && s.group is None {
        assert(pending(flushing(s)) =~= pending(s));
    }
    if ticketed(s) && s.group is Some {
        let g = s.group->0;
        let t = settled_by(s, end);
        let all = pending(s);
        assert(pending(t) =~= s.waiting);
        assert forall|i: int| 0 <= i < s.waiting.len() implies (#[trigger] s.waiting[i]).0
            < t.next_ticket && !t.settled.contains_key(s.waiting[i].0) by {
            assert(s.waiting[i] == all[g.len() + i]);
            lemma_settled_tickets(s.settled, g, s.point.0, end, s.waiting[i].0);
            assert forall|x: int| 0 <= x < g.len() implies (#[trigger] g[x]).0
                != s.waiting[i].0 by {
                assert(all[x] == g[x]);
            }
        }
        assert forall|i: int, j: int| 0 <= i < j < s.waiting.len() implies (
        #[trigger] s.waiting[i]).0 != (#[trigger] s.waiting[j]).0 by {
            assert(s.waiting[i] == all[g.len() + i]);
            assert(s.waiting[j] == all[g.len() + j]);
        }
        assert forall|k: u64| #[trigger] t.settled.contains_key(k) implies k < t.next_ticket by {
            lemma_settled_tickets(s.settled, g, s.point.0, end, k);
            if !s.settled.contains_key(k) {
                let i = choose|i: int| 0 <= i < g.len() && (#[trigger] g[i]).0 == k;
                assert(all[i] == g[i]);
            }
        }
    }
}

/// A flush gives every commit in it its outcome, and takes none from another commit.
pub proof fn law_every_flushed_commit_is_settled<E>(
    s: StoreState<E>,
    end: Result<(), Arc<E>>,
    i: int,
    ticket: u64,
)
    requires
        ticketed(s),
        s.group matches Some(g) && 0 <= i < g.len() && s.point.0 + g.len() <= u64::MAX,
    ensures
        ({
            let t = settled_by(s, end);
            let mine = s.group->0[i].0;
            &&& t.settled.contains_key(mine)
            &&& t.settled[mine] == (match end {
                Ok(u) => Ok::<u64, Arc<E>>((s.point.0 + 1 + i) as u64),
                Err(e) => Err(e),
            })
            &&& s.settled.contains_key(ticket) ==> t.settled.contains_key(ticket)
                && t.settled[ticket] == s.settled[ticket]
        }),
{
    let g = s.group->0;
    let all = pending(s);
    assert forall|x: int, y: int| 0 <= x < y < g.len() implies (#[trigger] g[x]).0 != (
    #[trigger] g[y]).0 by {
        assert(all[x] == g[x] && all[y] == g[y]);
    }
    law_a_flush_settles_its_group(s.settled, g, s.point.0, end, i);
    if s.settled.contains_key(ticket) {
        assert forall|x: int| 0 <= x < g.len() implies (#[trigger] g[x]).0 != ticket by {
            assert(all[x] == g[x]);
        }
        lemma_settled_others(s.settled, g, s.point.0, end, ticket);
    }
}

proof fn lemma_settled_others<E>(
    settled: Map<u64, Outcome<E>>,
    group: Seq<Commit>,
    index: u64,
    end: Result<(), Arc<E>>,
    t: u64,
)
    requires
        forall|i: int| 0 <= i < group.len() ==> (#[trigger] group[i]).0 != t,
    ensures
        settle_all(settled, group, index, end).contains_key(t) == settled.contains_key(t),
        settled.contains_key(t) ==> settle_all(settled, group, index, end)[t] == settled[t],
    decreases group.len(),
{
    if group.len() > 0 {
        let d = group.drop_last();
        assert forall|i: int| 0 <= i < d.len() implies (#[trigger] d[i]).0 != t by {
            assert(d[i] == group[i]);
        }
        lemma_settled_others(settled, d, index, end, t);
        assert(group[group.len() - 1].0 != t);
    }
}

/// What to do next for a ticket.
#[derive(Debug)]
pub enum CommitStep<E> {
    /// The commit has ended.
    Settled(Outcome<E>),
    /// Perform these steps, which write every queued commit, then settle the flush.
    Flush(Vec<FileAction>),
    /// A flush or a checkpoint is under way: wait until it ends and ask again.
    Wait,
}

/// What became of a batch.
#[derive(Debug, Clone, Copy, PartialEq, Eq, Structural)]
pub enum Submission {
    /// Nothing to commit: the current index.
    Current(u64),
    /// Queued under this ticket.
    Queued(u64),
}

/// A single-node, crash-recoverable key/value store.
#[derive(Debug)]
pub struct Store<E> {
    queue: Vec<Pending>,
    group: Option<Vec<Pending>>,
    exclusive: bool,
    settled: BTreeMap<u64, Outcome<E>>,
    snap: RcuSwap<Snapshot>,
    wal: Wal,
    prev_boundary: Option<u32>,
    next_ticket: u64,
    stats: Stats,
}

/// The keys and values of rows.
pub open spec fn plain(s: types::State) -> Seq<(Seq<u8>, Seq<u8>)> {
    s.map_values(|e: (Seq<u8>, Cell)| (e.0, e.1.0))
}

/// The byte strings of rows.
pub open spec fn row_view(r: Seq<(Vec<u8>, Vec<u8>)>) -> Seq<(Seq<u8>, Seq<u8>)> {
    r.map_values(|e: (Vec<u8>, Vec<u8>)| (e.0@, e.1@))
}

/// The rows of a scan are its entries without their versions, one for one and in order.
pub proof fn law_rows_are_entries_without_versions(s: types::State, i: int)
    requires
        0 <= i < s.len(),
    ensures
        plain(s).len() == s.len(),
        plain(s)[i].0 == s[i].0,
        plain(s)[i].1 == s[i].1.0,
{
}

/// A copy of rows, keys and values only.
fn copy_rows(rows: &Vec<(Shared, Entry)>) -> (r: Vec<(Vec<u8>, Vec<u8>)>)
    ensures
        row_view(r@) == plain(types::rows(rows@)),
{
    let mut out: Vec<(Vec<u8>, Vec<u8>)> = Vec::new();
    let mut i: usize = 0;
    while i < rows.len()
        invariant
            i <= rows.len(),
            row_view(out@) == plain(types::rows(rows@)).take(i as int),
        decreases rows.len() - i,
    {
        let ghost before = row_view(out@);
        let e = &rows[i];
        out.push((copy_bytes(e.0.as_slice()), copy_bytes(e.1.value.as_slice())));
        assert(row_view(out@) =~= before.push(plain(types::rows(rows@))[i as int]));
        assert(row_view(out@) =~= plain(types::rows(rows@)).take(i + 1));
        i = i + 1;
    }
    assert(row_view(out@) =~= plain(types::rows(rows@)));
    out
}

impl<E> Store<E> {
    pub closed spec fn view(&self) -> StoreState<E> {
        StoreState {
            point: self.snap@@,
            waiting: commits(self.queue@),
            group: match self.group {
                Some(g) => Some(commits(g@)),
                None => None,
            },
            exclusive: self.exclusive,
            settled: self.settled@,
            log: self.wal@,
            boundary: self.prev_boundary,
            next_ticket: self.next_ticket,
            stats: self.stats,
        }
    }

    /// Open the store of a directory, recovering from checkpoint and log.
    pub fn open(d: &DirImage) -> (r: Result<(Store<E>, Vec<FileAction>), RecoveryError>)
        ensures
            match r {
                Ok((s, plan)) => recovery::recovered(d@) == Ok::<Point, Damage>(s@.point)
                    && s@ == fresh::<E>(s@.point, s@.log) && (s@.log, dir::steps(plan@))
                    == wal::opened(d@, DEFAULT_MAX_SEG_BYTES as nat),
                Err(e) => recovery::recovered(d@) == Err::<Point, Damage>(e@),
            },
    {
        Store::open_with(d, DEFAULT_MAX_SEG_BYTES)
    }

    /// Open with a custom segment size. The steps resume the log; the log is never reclaimed
    /// here, because until a checkpoint persists it the recovered state lives only in memory.
    pub fn open_with(d: &DirImage, max_seg_bytes: u64) -> (r: Result<
        (Store<E>, Vec<FileAction>),
        RecoveryError,
    >)
        ensures
            match r {
                Ok((s, plan)) => recovery::recovered(d@) == Ok::<Point, Damage>(s@.point)
                    && s@ == fresh::<E>(s@.point, s@.log) && (s@.log, dir::steps(plan@))
                    == wal::opened(d@, max_seg_bytes as nat),
                Err(e) => recovery::recovered(d@) == Err::<Point, Damage>(e@),
            },
    {
        let snap: Snapshot = match recover(d) {
            Err(e) => {
                return Err(e);
            },
            Ok(s) => s,
        };
        let (log, plan) = Wal::open(d, max_seg_bytes);
        let s: Store<E> = Store {
            queue: Vec::new(),
            group: None,
            exclusive: false,
            settled: BTreeMap::new(),
            snap: RcuSwap::new(snap),
            wal: log,
            prev_boundary: None,
            next_ticket: 0,
            stats: Stats { commits: 0, wal_syncs: 0, checkpoints: 0 },
        };
        assert(s@ =~= fresh::<E>(s@.point, s@.log)) by {
            assert(commits(s.queue@) =~= seq![]);
            assert(s.settled@ =~= Map::empty());
        }
        Ok((s, plan))
    }

    /// The current term, always 1 on a single node.
    pub fn term(&self) -> (r: u64)
        ensures
            r == TERM,
    {
        TERM
    }

    /// The highest commit index published so far.
    pub fn index(&self) -> (r: u64)
        ensures
            r == self@.point.0,
    {
        self.snap.current().index
    }

    /// Commit counters since the store was opened.
    pub fn stats(&self) -> (r: Stats)
        ensures
            r == self@.stats,
    {
        self.stats
    }

    /// Number of live keys.
    pub fn len(&self) -> (r: usize)
        ensures
            r == self@.point.1.len(),
    {
        self.snap.current().len()
    }

    /// Whether there is no live key.
    pub fn is_empty(&self) -> (r: bool)
        ensures
            r == (self@.point.1.len() == 0),
    {
        self.snap.current().is_empty()
    }

    /// A handle to the published snapshot.
    pub fn snapshot(&self) -> (r: Arc<Snapshot>)
        ensures
            (*r)@ == self@.point,
    {
        self.snap.load()
    }

    /// Read `key` from the published snapshot.
    pub fn get(&self, key: &[u8]) -> (r: Option<Vec<u8>>)
        ensures
            match r {
                Some(v) => assoc::find(self@.point.1, key@) matches Some(c) && v@ == c.0,
                None => assoc::find(self@.point.1, key@) is None,
            },
    {
        match self.snap.current().get(key) {
            Some(e) => Some(copy_bytes(e.value.as_slice())),
            None => None,
        }
    }

    /// Read `key` together with the index of the commit that wrote its value.
    pub fn get_with_index(&self, key: &[u8]) -> (r: Option<(Vec<u8>, u64)>)
        ensures
            match r {
                Some((v, version)) => assoc::find(self@.point.1, key@) == Some((v@, version)),
                None => assoc::find(self@.point.1, key@) is None,
            },
    {
        match self.snap.current().get(key) {
            Some(e) => Some((copy_bytes(e.value.as_slice()), e.version)),
            None => None,
        }
    }

    /// Read `key` together with the index of the snapshot it was read from.
    pub fn get_at(&self, key: &[u8]) -> (r: (Option<Vec<u8>>, u64))
        ensures
            r.1 == self@.point.0,
            match r.0 {
                Some(v) => assoc::find(self@.point.1, key@) matches Some(c) && v@ == c.0,
                None => assoc::find(self@.point.1, key@) is None,
            },
    {
        (self.get(key), self.index())
    }

    /// The live keys with the given prefix and their values, in byte order.
    pub fn scan(&self, prefix: &[u8]) -> (r: Vec<(Vec<u8>, Vec<u8>)>)
        ensures
            row_view(r@) == plain(
                self@.point.1.filter(|e: (Seq<u8>, Cell)| bytes::has_prefix(e.0, prefix@)),
            ),
    {
        let rows = self.snap.current().scan_prefix(prefix);
        copy_rows(&rows)
    }

    /// The live keys in `[lo, hi)` and their values, in byte order; empty when `lo >= hi`.
    pub fn range_scan(&self, lo: &[u8], hi: &[u8]) -> (r: Vec<(Vec<u8>, Vec<u8>)>)
        ensures
            row_view(r@) == plain(
                self@.point.1.filter(
                    |e: (Seq<u8>, Cell)| bytes::lex_le(lo@, e.0) && bytes::lex_lt(e.0, hi@),
                ),
            ),
    {
        let rows = self.snap.current().range(lo, hi);
        copy_rows(&rows)
    }

    /// Queue `key -> value` as a commit; returns its ticket.
    pub fn put(&mut self, key: &[u8], value: &[u8]) -> (r: u64)
        requires
            old(self)@.next_ticket < u64::MAX,
        ensures
            r == old(self)@.next_ticket,
            final(self)@ == queued(old(self)@, seq![Change::Put(key@, value@)]),
    {
        let ops: Vec<Op> = vec![Op::Put { key: copy_bytes(key), value: copy_bytes(value) }];
        assert(types::changes(ops@) =~= seq![Change::Put(key@, value@)]);
        self.submit(ops)
    }

    /// Queue the removal of `key` as a commit; returns its ticket.
    pub fn delete(&mut self, key: &[u8]) -> (r: u64)
        requires
            old(self)@.next_ticket < u64::MAX,
        ensures
            r == old(self)@.next_ticket,
            final(self)@ == queued(old(self)@, seq![Change::Delete(key@)]),
    {
        let ops: Vec<Op> = vec![Op::Delete { key: copy_bytes(key) }];
        assert(types::changes(ops@) =~= seq![Change::Delete(key@)]);
        self.submit(ops)
    }

    /// Queue several operations as one commit: one index, all or nothing, applied in order. An
    /// empty batch commits nothing and gives the current index.
    pub fn put_batch(&mut self, ops: Vec<Op>) -> (r: Submission)
        requires
            ops@.len() > 0 ==> old(self)@.next_ticket < u64::MAX,
        ensures
            if ops@.len() == 0 {
                r == Submission::Current(old(self)@.point.0) && final(self)@ == old(self)@
            } else {
                r == Submission::Queued(old(self)@.next_ticket) && final(self)@ == queued(
                    old(self)@,
                    types::changes(ops@),
                )
            },
    {
        if ops.len() == 0 {
            return Submission::Current(self.index());
        }
        Submission::Queued(self.submit(ops))
    }

    /// Queue operations as one commit.
    fn submit(&mut self, ops: Vec<Op>) -> (r: u64)
        requires
            old(self)@.next_ticket < u64::MAX,
        ensures
            r == old(self)@.next_ticket,
            final(self)@ == queued(old(self)@, types::changes(ops@)),
    {
        let ticket: u64 = self.next_ticket;
        self.next_ticket = ticket + 1;
        let ghost before = commits(self.queue@);
        let ghost cs = types::changes(ops@);
        self.queue.push(Pending { ticket, ops });
        assert(commits(self.queue@) =~= before.push((ticket, cs)));
        assert(self@ =~= queued(old(self)@, cs));
        ticket
    }

    /// What to do next for a ticket: take its outcome, flush everything queued where nothing
    /// else is under way, or wait.
    pub fn advance(&mut self, ticket: u64) -> (r: CommitStep<E>)
        requires
            can_advance(old(self)@, ticket),
        ensures
            if old(self)@.settled.contains_key(ticket) {
                r matches CommitStep::Settled(o) && o == old(self)@.settled[ticket] && final(self)@
                    == (StoreState { settled: old(self)@.settled.remove(ticket), ..old(self)@ })
            } else if old(self)@.group is None && !old(self)@.exclusive {
                r matches CommitStep::Flush(plan) && dir::steps(plan@) == flush_steps(old(self)@)
                    && final(self)@ == flushing(old(self)@)
            } else {
                r is Wait && final(self)@ == old(self)@
            },
    {
        if let Some(o) = self.settled.remove(&ticket) {
            assert(self@ =~= StoreState {
                settled: old(self)@.settled.remove(ticket),
                ..old(self)@
            });
            return CommitStep::Settled(o);
        }
        assert(self.settled@ =~= old(self).settled@);
        if self.group.is_some() || self.exclusive {
            assert(self@ =~= old(self)@);
            return CommitStep::Wait;
        }
        let mut group: Vec<Pending> = Vec::new();
        std::mem::swap(&mut group, &mut self.queue);
        let index: u64 = self.index();
        let recs: Vec<Record> = group_log(&group, index);
        let plan: Vec<FileAction> = self.wal.append_many(&recs);
        self.group = Some(group);
        proof {
            assert(commits(self.queue@) =~= seq![]);
            assert(self@ =~= flushing(old(self)@));
        }
        CommitStep::Flush(plan)
    }

    /// Whether a ticket and an index are left for another commit.
    pub fn has_room(&self) -> (r: bool)
        ensures
            r == has_room(self@),
    {
        assert(commits(self.queue@).len() == self.queue.len());
        self.next_ticket < u64::MAX && (self.queue.len() as u64) < u64::MAX - self.index()
    }

    /// Whether [`Store::advance`] can go on with a ticket: where it is to flush, indices are left
    /// for all that is queued, and a segment number where one is needed.
    pub fn can_advance(&self, ticket: u64) -> (r: bool)
        ensures
            r == can_advance(self@, ticket),
    {
        assert(commits(self.queue@).len() == self.queue.len());
        if self.settled.contains_key(&ticket) || self.group.is_some() || self.exclusive {
            return true;
        }
        let index: u64 = self.index();
        (self.queue.len() as u64) <= u64::MAX - index && self.wal.can_append(
            &group_log(&self.queue, index),
        )
    }

    /// Whether [`Store::begin_checkpoint`] can go on: where it is to start a segment, a number is
    /// left for it.
    pub fn can_checkpoint(&self) -> (r: bool)
        ensures
            r == can_checkpoint(self@),
    {
        self.group.is_some() || self.exclusive || self.wal.current() < u32::MAX
    }

    /// Whether the size of the current segment still fits after a step.
    pub fn fits(&self, a: &FileAction) -> (r: bool)
        ensures
            r == (wal::after(self@.log, a@).bytes <= u64::MAX),
    {
        self.wal.fits(a)
    }

    /// Follow a step that has been performed.
    pub fn performed(&mut self, a: &FileAction)
        requires
            wal::after(old(self)@.log, a@).bytes <= u64::MAX,
        ensures
            final(self)@ == followed(old(self)@, a@),
    {
        self.wal.performed(a);
        assert(self@ =~= followed(old(self)@, a@));
    }

    /// End a flush. If its steps were performed, publish the state with all its commits and
    /// settle each with its index; if not, publish nothing and settle all with the error: the
    /// next steps on the log then clear what this flush may have left behind.
    pub fn settle(&mut self, end: Result<(), Arc<E>>)
        requires
            old(self)@.group matches Some(g) && old(self)@.point.0 + g.len() <= u64::MAX,
        ensures
            final(self)@ == settled_by(old(self)@, end),
    {
        let mut group: Vec<Pending> = Vec::new();
        if let Some(g) = self.group.take() {
            group = g;
        }
        let ghost cs = commits(group@);
        let ghost point = self.snap@@;
        let index: u64 = self.index();
        let n: usize = group.len();
        let mut i: usize = 0;
        let ghost start = self.settled@;
        assert(cs.take(0) =~= seq![]);
        while i < n
            invariant
                i <= n,
                n == group.len(),
                cs == commits(group@),
                index + n <= u64::MAX,
                self.settled@ == settle_all(start, cs.take(i as int), index, end),
                self.queue == old(self).queue,
                self.group is None,
                self.exclusive == old(self).exclusive,
                self.snap == old(self).snap,
                self.wal == old(self).wal,
                self.prev_boundary == old(self).prev_boundary,
                self.next_ticket == old(self).next_ticket,
                self.stats == old(self).stats,
            decreases n - i,
        {
            let o: Outcome<E> = match &end {
                Ok(_) => Ok(index + 1 + i as u64),
                Err(e) => Err(share(e)),
            };
            let _before = self.settled.insert(group[i].ticket, o);
            assert(cs.take(i + 1).drop_last() =~= cs.take(i as int));
            i = i + 1;
        }
        assert(cs.take(cs.len() as int) =~= cs);
        match end {
            Ok(_) => {
                let next: Snapshot = apply_group(self.snap.current(), &group);
                let _prev = self.snap.store(Arc::new(next));
                self.stats = Stats {
                    commits: self.stats.commits.wrapping_add(n as u64),
                    wal_syncs: self.stats.wal_syncs.wrapping_add(1),
                    checkpoints: self.stats.checkpoints,
                };
            },
            Err(_) => {
                self.wal.failed();
            },
        }
        assert(self@ =~= settled_by(old(self)@, end));
    }

    /// Start a checkpoint where nothing else is under way: hold the store between flushes and
    /// start a new log segment by the steps handed out. Its number is the boundary of the
    /// checkpoint: every later record goes into a segment numbered at or above it.
    pub fn begin_checkpoint(&mut self) -> (r: Option<(Vec<FileAction>, u32)>)
        requires
            can_checkpoint(old(self)@),
        ensures
            if old(self)@.group is None && !old(self)@.exclusive {
                r matches Some((plan, boundary)) && dir::steps(plan@) == wal::rotate_steps(
                    old(self)@.log,
                ) && boundary == old(self)@.log.seq + 1 && final(self)@ == (StoreState {
                    exclusive: true,
                    ..old(self)@
                })
            } else {
                r is None && final(self)@ == old(self)@
            },
    {
        if self.group.is_some() || self.exclusive {
            return None;
        }
        self.exclusive = true;
        assert(self@ =~= StoreState { exclusive: true, ..old(self)@ });
        Some(self.wal.rotate_segment())
    }

    /// Stop holding the store, and take a handle to the published snapshot.
    pub fn pin(&mut self) -> (r: Arc<Snapshot>)
        requires
            old(self)@.exclusive,
        ensures
            (*r)@ == old(self)@.point,
            final(self)@ == (StoreState { exclusive: false, ..old(self)@ }),
    {
        self.exclusive = false;
        assert(self@ =~= StoreState { exclusive: false, ..old(self)@ });
        self.snap.load()
    }

    /// Give up a checkpoint whose new segment could not be started: stop holding the store. The
    /// next steps on the log clear what the attempt may have left behind.
    pub fn abandon_checkpoint(&mut self)
        requires
            old(self)@.exclusive,
        ensures
            final(self)@ == abandoned(old(self)@),
    {
        self.exclusive = false;
        self.wal.failed();
        assert(self@ =~= abandoned(old(self)@));
    }

    /// Record that a checkpoint with this boundary has been written; `kept` says whether the one
    /// before it is now the previous one. Returns the boundary of the one before, if it is known
    /// and that checkpoint was kept: the segments numbered below it are covered by the retained
    /// previous checkpoint and may be deleted.
    pub fn finish_checkpoint(&mut self, boundary: u32, kept: bool) -> (r: Option<u32>)
        ensures
            r == (if kept {
                old(self)@.boundary
            } else {
                None
            }),
            final(self)@ == checkpointed(old(self)@, boundary),
    {
        let prev: Option<u32> = self.prev_boundary;
        self.prev_boundary = Some(boundary);
        self.stats = Stats {
            commits: self.stats.commits,
            wal_syncs: self.stats.wal_syncs,
            checkpoints: self.stats.checkpoints.wrapping_add(1),
        };
        assert(self@ =~= checkpointed(old(self)@, boundary));
        if kept {
            prev
        } else {
            None
        }
    }
}

/// A store that has just been opened.
pub open spec fn fresh<E>(point: Point, log: LogPos) -> StoreState<E> {
    StoreState {
        point,
        waiting: seq![],
        group: None,
        exclusive: false,
        settled: Map::empty(),
        log,
        boundary: None,
        next_ticket: 0,
        stats: Stats { commits: 0, wal_syncs: 0, checkpoints: 0 },
    }
}

/// A ticket and an index are left for another commit.
pub open spec fn has_room<E>(s: StoreState<E>) -> bool {
    &&& s.next_ticket < u64::MAX
    &&& s.point.0 + s.waiting.len() < u64::MAX
}

/// Indices are left for all that is queued, and a segment number where one is needed.
pub open spec fn can_flush<E>(s: StoreState<E>) -> bool {
    &&& s.point.0 + s.waiting.len() <= u64::MAX
    &&& wal::can_append(s.log, waiting_records(s))
}

/// The store can go on with a ticket: where it is to flush, it can.
pub open spec fn can_advance<E>(s: StoreState<E>, ticket: u64) -> bool {
    s.settled.contains_key(ticket) || s.group is Some || s.exclusive || can_flush(s)
}

/// A checkpoint can be tried: where it is to start a segment, a number is left for it.
pub open spec fn can_checkpoint<E>(s: StoreState<E>) -> bool {
    s.group is Some || s.exclusive || s.log.seq < u32::MAX
}

/// A store that has written a checkpoint with this boundary.
pub open spec fn checkpointed<E>(s: StoreState<E>, boundary: u32) -> StoreState<E> {
    StoreState {
        boundary: Some(boundary),
        stats: Stats { checkpoints: s.stats.checkpoints.wrapping_add(1), ..s.stats },
        ..s
    }
}

/// A store that has given up a checkpoint.
pub open spec fn abandoned<E>(s: StoreState<E>) -> StoreState<E> {
    StoreState { exclusive: false, log: LogPos { torn: true, ..s.log }, ..s }
}

/// A store with one more commit in its queue.
pub open spec fn queued<E>(s: StoreState<E>, ops: Seq<Change>) -> StoreState<E> {
    StoreState {
        waiting: s.waiting.push((s.next_ticket, ops)),
        next_ticket: (s.next_ticket + 1) as u64,
        ..s
    }
}

/// A store that has begun to flush everything queued.
pub open spec fn flushing<E>(s: StoreState<E>) -> StoreState<E> {
    StoreState { group: Some(s.waiting), waiting: seq![], ..s }
}

/// A store that has followed a step on its log.
pub open spec fn followed<E>(s: StoreState<E>, a: Step) -> StoreState<E> {
    StoreState { log: wal::after(s.log, a), ..s }
}

/// The records of every queued commit.
pub open spec fn waiting_records<E>(s: StoreState<E>) -> Seq<LogRecord> {
    recovery::group_records(s.point.0, group_of(s.waiting), TERM)
}

/// The steps that write every queued commit.
pub open spec fn flush_steps<E>(s: StoreState<E>) -> Seq<Step> {
    wal::append_steps(s.log, waiting_records(s))
}

/// A store whose flush has ended.
pub open spec fn settled_by<E>(s: StoreState<E>, end: Result<(), Arc<E>>) -> StoreState<E> {
    let g = s.group->0;
    let base = StoreState {
        group: None,
        settled: settle_all(s.settled, g, s.point.0, end),
        ..s
    };
    match end {
        Ok(u) => StoreState {
            point: recovery::commit_group(s.point, group_of(g), TERM),
            stats: Stats {
                commits: s.stats.commits.wrapping_add(g.len() as u64),
                wal_syncs: s.stats.wal_syncs.wrapping_add(1),
                checkpoints: s.stats.checkpoints,
            },
            ..base
        },
        Err(e) => StoreState { log: LogPos { torn: true, ..s.log }, ..base },
    }
}

/// A store that has just been opened holds what was recovered, and nothing is queued, flushed,
/// settled or counted.
pub proof fn law_an_opened_store_is_idle<E>(point: Point, log: LogPos)
    ensures
        fresh::<E>(point, log).point == point,
        fresh::<E>(point, log).log == log,
        pending(fresh::<E>(point, log)).len() == 0,
        fresh::<E>(point, log).group is None,
        !fresh::<E>(point, log).exclusive,
        fresh::<E>(point, log).boundary is None,
        forall|t: u64| !#[trigger] fresh::<E>(point, log).settled.contains_key(t),
        fresh::<E>(point, log).stats.commits == 0,
        fresh::<E>(point, log).stats.wal_syncs == 0,
        fresh::<E>(point, log).stats.checkpoints == 0,
{
}

/// Queueing a commit puts it last, under a ticket of its own, and changes nothing else: what is
/// published, being flushed, settled and written stays.
pub proof fn law_a_commit_is_queued_last<E>(s: StoreState<E>, ops: Seq<Change>)
    requires
        s.next_ticket < u64::MAX,
    ensures
        queued(s, ops).waiting == s.waiting.push((s.next_ticket, ops)),
        queued(s, ops).next_ticket == s.next_ticket + 1,
        queued(s, ops).point == s.point,
        queued(s, ops).group == s.group,
        queued(s, ops).exclusive == s.exclusive,
        queued(s, ops).settled == s.settled,
        queued(s, ops).log == s.log,
        queued(s, ops).boundary == s.boundary,
        queued(s, ops).stats == s.stats,
        pending(queued(s, ops)) == pending(s).push((s.next_ticket, ops)),
{
    assert(pending(queued(s, ops)) =~= pending(s).push((s.next_ticket, ops)));
}

/// A flush takes everything that is queued, in order, and publishes nothing yet. It writes one
/// record per commit: the next indices after the published one, term 1, all operations.
pub proof fn law_a_flush_takes_everything_queued<E>(s: StoreState<E>, i: int)
    requires
        s.group is None,
        s.point.0 + s.waiting.len() <= u64::MAX,
        0 <= i < s.waiting.len(),
    ensures
        flushing(s).group == Some(s.waiting),
        flushing(s).waiting.len() == 0,
        pending(flushing(s)) == pending(s),
        flushing(s).point == s.point,
        flushing(s).exclusive == s.exclusive,
        flushing(s).settled == s.settled,
        flushing(s).log == s.log,
        flushing(s).boundary == s.boundary,
        flushing(s).next_ticket == s.next_ticket,
        flushing(s).stats == s.stats,
        waiting_records(s).len() == s.waiting.len(),
        waiting_records(s)[i].index == s.point.0 + 1 + i,
        waiting_records(s)[i].term == 1,
        waiting_records(s)[i].ops == s.waiting[i].1,
        flush_steps(s) == wal::append_steps(s.log, waiting_records(s)),
{
    assert(pending(flushing(s)) =~= pending(s));
}

/// A flush that succeeds publishes its commits one after another: each takes the next index, and
/// all its operations are applied at that index to what the ones before it left. Commits and
/// appends are counted; what is queued behind it stays.
pub proof fn law_a_flush_publishes_its_commits<E>(s: StoreState<E>)
    requires
        s.group matches Some(g) && s.point.0 + g.len() <= u64::MAX,
    ensures
        ({
            let g = s.group->0;
            let t = settled_by(s, Ok(()));
            let u = settled_by(StoreState { group: Some(g.drop_last()), ..s }, Ok(()));
            &&& g.len() == 0 ==> t.point == s.point
            &&& g.len() > 0 ==> t.point.0 == u.point.0 + 1
            &&& g.len() > 0 ==> t.point.1 == types::change_all(u.point.1, g.last().1, t.point.0)
            &&& t.group is None
            &&& t.waiting == s.waiting
            &&& t.exclusive == s.exclusive
            &&& t.log == s.log
            &&& t.boundary == s.boundary
            &&& t.next_ticket == s.next_ticket
            &&& s.stats.commits + g.len() <= u64::MAX ==> t.stats.commits == s.stats.commits
                + g.len()
            &&& s.stats.wal_syncs < u64::MAX ==> t.stats.wal_syncs == s.stats.wal_syncs + 1
            &&& t.stats.checkpoints == s.stats.checkpoints
        }),
{
    let g = s.group->0;
    let rs = recovery::group_records(s.point.0, group_of(g), TERM);
    if g.len() > 0 {
        let d = g.drop_last();
        assert(group_of(d) =~= group_of(g).drop_last());
        assert(rs.drop_last() =~= recovery::group_records(s.point.0, group_of(d), TERM));
        recovery::law_indices_are_contiguous(s.point, group_of(d), TERM);
        assert(rs.last().ops == g.last().1);
    }
}

/// A flush that fails publishes nothing and counts nothing; it only settles its commits and
/// leaves the log to be cleaned up before the next write.
pub proof fn law_a_failed_flush_changes_nothing_else<E>(s: StoreState<E>, e: Arc<E>)
    requires
        s.group is Some,
    ensures
        settled_by(s, Err(e)).point == s.point,
        settled_by(s, Err(e)).group is None,
        settled_by(s, Err(e)).waiting == s.waiting,
        settled_by(s, Err(e)).exclusive == s.exclusive,
        settled_by(s, Err(e)).boundary == s.boundary,
        settled_by(s, Err(e)).next_ticket == s.next_ticket,
        settled_by(s, Err(e)).stats == s.stats,
        settled_by(s, Err(e)).log.torn,
        settled_by(s, Err(e)).log.bytes == s.log.bytes,
        settled_by(s, Err(e)).log.seq == s.log.seq,
        settled_by(s, Err(e)).log.name == s.log.name,
        settled_by(s, Err(e)).log.max == s.log.max,
{
}

/// Ending a checkpoint changes nothing that commits can see: a finished one is counted and its
/// boundary remembered; one that is given up leaves the log to be cleaned up and lets flushes go
/// on.
pub proof fn law_ending_a_checkpoint<E>(s: StoreState<E>, boundary: u32)
    ensures
        checkpointed(s, boundary).boundary == Some(boundary),
        s.stats.checkpoints < u64::MAX ==> checkpointed(s, boundary).stats.checkpoints
            == s.stats.checkpoints + 1,
        checkpointed(s, boundary).stats.commits == s.stats.commits,
        checkpointed(s, boundary).stats.wal_syncs == s.stats.wal_syncs,
        checkpointed(s, boundary).point == s.point,
        checkpointed(s, boundary).waiting == s.waiting,
        checkpointed(s, boundary).group == s.group,
        checkpointed(s, boundary).exclusive == s.exclusive,
        checkpointed(s, boundary).settled == s.settled,
        checkpointed(s, boundary).log == s.log,
        checkpointed(s, boundary).next_ticket == s.next_ticket,
        !abandoned(s).exclusive,
        abandoned(s).log.torn,
        abandoned(s).log.bytes == s.log.bytes,
        abandoned(s).log.seq == s.log.seq,
        abandoned(s).log.name == s.log.name,
        abandoned(s).log.max == s.log.max,
        abandoned(s).point == s.point,
        abandoned(s).waiting == s.waiting,
        abandoned(s).group == s.group,
        abandoned(s).settled == s.settled,
        abandoned(s).boundary == s.boundary,
        abandoned(s).next_ticket == s.next_ticket,
        abandoned(s).stats == s.stats,
{
}

/// Following a step on the log moves its end and nothing else.
pub proof fn law_a_step_moves_only_the_log<E>(s: StoreState<E>, a: Step)
    ensures
        followed(s, a).log == wal::after(s.log, a),
        followed(s, a).point == s.point,
        pending(followed(s, a)) == pending(s),
        followed(s, a).group == s.group,
        followed(s, a).waiting == s.waiting,
        followed(s, a).exclusive == s.exclusive,
        followed(s, a).settled == s.settled,
        followed(s, a).boundary == s.boundary,
        followed(s, a).next_ticket == s.next_ticket,
        followed(s, a).stats == s.stats,
{
}

/// When a store has to refuse: a commit, where tickets or indices are used up; a flush, where
/// indices or segment numbers are; a checkpoint, where segment numbers are. While a flush or a
/// checkpoint is under way there is only waiting, which is never refused.
pub proof fn law_when_a_store_is_full<E>(s: StoreState<E>, ticket: u64)
    ensures
        has_room(s) <==> s.next_ticket < u64::MAX && s.point.0 + s.waiting.len() < u64::MAX,
        s.group is Some || s.exclusive || s.settled.contains_key(ticket) ==> can_advance(s, ticket),
        s.point.0 + s.waiting.len() > u64::MAX && s.group is None && !s.exclusive
            && !s.settled.contains_key(ticket) ==> !can_advance(s, ticket),
        s.point.0 + s.waiting.len() <= u64::MAX && s.log.seq < u32::MAX ==> can_advance(s, ticket),
        s.group is Some || s.exclusive ==> can_checkpoint(s),
        s.group is None && !s.exclusive ==> (can_checkpoint(s) <==> s.log.seq < u32::MAX),
{
}

/// Every queued commit fits the fields of a log record.
pub open spec fn encodable<E>(s: StoreState<E>) -> bool {
    forall|i: int|
        0 <= i < s.waiting.len() ==> wal_record::encodable(#[trigger] waiting_records(s)[i])
}

/// The directory `g` belongs to the store: it is `f`, which stands for the published state, with
/// no more than what a failed step on the log left behind.
pub open spec fn backed<E>(s: StoreState<E>, f: dir::Files, g: dir::Files) -> bool {
    &&& recovery::holds(f, wal::mended(s.log), s.point)
    &&& wal::stands(s.log, f, g)
}

/// The boundary that a store remembers is that of the checkpoint of `q`, which is the latest one
/// unless that has been damaged.
pub open spec fn remembers<E>(s: StoreState<E>, f: dir::Files, q: Point) -> bool {
    s.boundary matches Some(b) ==> recovery::bounded(f, s.log, s.point, q, b as nat) && (
    snapshot::loaded_file(f, snapshot::latest_name()) matches Ok(Some(x)) ==> x == q)
}

/// A store that has been opened is backed by its directory, and remembers no boundary yet.
pub proof fn law_an_opened_store_is_backed<E>(f: dir::Files, max: nat, q: Point)
    requires
        assoc::sorted(f),
        recovery::recovered(f) is Ok,
        wal::segments(f).len() > 0 ==> (exists|seq: nat|
            seq <= u32::MAX && wal::segments(f).last().0 == #[trigger] wal::segment_name(seq)),
    ensures
        ({
            let (log, plan) = wal::opened(f, max);
            let end = dir::apply_all(f, plan);
            let s = fresh::<E>(recovery::recovered(f)->Ok_0, log);
            backed(s, end, end) && remembers(s, end, q)
        }),
{
    recovery::law_open_keeps_the_state(f, max);
    let log = wal::opened(f, max).0;
    assert(wal::mended(log) =~= log);
}

/// What a store acknowledges is durable: once the steps of a flush have been performed and the
/// flush is settled, the directory stands for the published state, and the commits that were
/// queued are in it. This holds after an earlier flush has failed too. Checkpoints and boundaries
/// stay.
pub proof fn law_acknowledged_commits_are_durable<E>(
    s: StoreState<E>,
    f: dir::Files,
    g: dir::Files,
    q: Point,
    b: nat,
)
    requires
        backed(s, f, g),
        can_flush(s),
        encodable(s),
    ensures
        ({
            let plan = flush_steps(s);
            let flushed = StoreState { log: wal::after_all(s.log, plan), ..flushing(s) };
            let done = settled_by(flushed, Ok::<(), Arc<E>>(()));
            let end = dir::apply_all(g, plan);
            &&& recovery::holds(end, done.log, done.point)
            &&& backed(done, end, end)
            &&& recovery::recovered(end) == Ok::<Point, Damage>(done.point)
            &&& recovery::same_checkpoints(f, end)
            &&& recovery::bounded(f, s.log, s.point, q, b) ==> recovery::bounded(
                end,
                done.log,
                done.point,
                q,
                b,
            )
            &&& (s.boundary matches Some(x) ==> x == b) && remembers(s, f, q) ==> remembers(
                done,
                end,
                q,
            )
        }),
{
    let group = group_of(s.waiting);
    let rs = waiting_records(s);
    let plan = flush_steps(s);
    let w = wal::mended(s.log);
    let end = dir::apply_all(g, plan);
    if s.log.torn {
        let a = wal::rotate_step(w);
        let w1 = wal::after(w, a);
        let start = wal::rotate_steps(s.log);
        let more = wal::append_steps(w1, rs);
        wal::law_a_failed_step_is_made_good(s.log, f, g, rs);
        recovery::law_rotation_keeps_the_state(f, w, s.point);
        recovery::law_commit_is_durable(dir::apply(f, a), w1, s.point, group, TERM);
        dir::lemma_apply_add(g, start, more);
        wal::lemma_after_add(s.log, start, more);
        recovery::law_rotation_stays_bounded(f, w, s.point, q, b);
        if recovery::bounded(f, s.log, s.point, q, b) {
            recovery::law_commits_stay_bounded(w1, dir::apply(f, a), s.point, rs, q, b);
        }
    } else {
        assert(w =~= s.log);
        recovery::law_commit_is_durable(f, w, s.point, group, TERM);
        if recovery::bounded(f, s.log, s.point, q, b) {
            recovery::law_commits_stay_bounded(w, f, s.point, rs, q, b);
        }
    }
    let log = wal::after_all(s.log, plan);
    assert(wal::mended(log) =~= log);
    recovery::law_recovery(end, log, recovery::commit_group(s.point, group, TERM));
}

/// The directory `g` recovers to the point `p` with the first of the commits `lost`, in order.
pub open spec fn recovers(p: Point, g: dir::Files, lost: Seq<Seq<Change>>) -> bool {
    exists|j: int|
        0 <= j <= lost.len() && recovery::recovered(g) == Ok::<Point, Damage>(
            #[trigger] recovery::commit_group(p, lost.take(j), TERM),
        )
}

proof fn lemma_recovers(p: Point, g: dir::Files, lost: Seq<Seq<Change>>)
    requires
        recovery::recovered(g) == Ok::<Point, Damage>(p),
    ensures
        recovers(p, g, lost),
{
    assert(recovery::group_records(p.0, lost.take(0), TERM) =~= seq![]);
    assert(recovery::commit_group(p, lost.take(0), TERM) == p);
}

/// A flush that fails at its step `n` leaves a directory that still belongs to the store, so that
/// later commits are durable as if it had never been tried. Until it is cleared up, the directory
/// recovers to the published state with the first commits of the group that failed, or as it did
/// before. Checkpoints and boundaries stay.
pub proof fn law_a_failed_flush_is_made_good<E>(
    s: StoreState<E>,
    f: dir::Files,
    g: dir::Files,
    n: int,
    h: dir::Files,
    e: Arc<E>,
    lost: Seq<Seq<Change>>,
    q: Point,
    b: nat,
) -> (f1: dir::Files)
    requires
        backed(s, f, g),
        can_flush(s),
        n < flush_steps(s).len(),
        dir::crashed_at(g, flush_steps(s), h, n),
    ensures
        ({
            let log = wal::after_all(s.log, flush_steps(s).take(n));
            let s1 = settled_by(StoreState { log, ..flushing(s) }, Err::<(), Arc<E>>(e));
            &&& backed(s1, f1, h)
            &&& s1.log.torn
            &&& encodable(s) && (s.log.torn ==> recovers(s.point, g, lost)) ==> recovers(s.point, h, lost)
                || recovers(s.point, h, group_of(s.waiting))
            &&& recovery::same_checkpoints(f, f1)
            &&& recovery::bounded(f, s.log, s.point, q, b) ==> recovery::bounded(
                f1,
                s1.log,
                s.point,
                q,
                b,
            )
            &&& (s.boundary matches Some(x) ==> x == b) && remembers(s, f, q) ==> remembers(
                s1,
                f1,
                q,
            )
        }),
{
    let rs = waiting_records(s);
    let w = wal::mended(s.log);
    let w1 = wal::after_all(s.log, flush_steps(s).take(n));
    let f1 = wal::law_a_failed_append_leaves_a_log(s.log, f, g, rs, n, h);
    wal::lemma_segment_name(s.log.seq);
    wal::lemma_segment_name(w1.seq);
    if f1 != f {
        wal::lemma_segment_name(s.log.seq + 1);
        wal::law_rotation_keeps_the_log(w, f);
        recovery::law_rotation_keeps_the_state(f, w, s.point);
        recovery::law_rotation_stays_bounded(f, w, s.point, q, b);
        assert(w1.seq == s.log.seq + 1);
    } else {
        assert(w1.seq == s.log.seq);
    }
    assert(wal::mended(LogPos { torn: true, ..w1 }) =~= wal::mended(w1));
    if encodable(s) && (s.log.torn ==> recovers(s.point, g, lost)) {
        assert(dir::crashed(g, flush_steps(s), h));
        law_a_crash_keeps_acknowledged_commits(s, f, g, h, lost);
    }
    f1
}

/// A crash in the middle of a flush loses no acknowledged commit: the directory recovers to the
/// published state with some of the commits being flushed, in order, or, where an earlier step had
/// failed, with some of those that it was to write.
pub proof fn law_a_crash_keeps_acknowledged_commits<E>(
    s: StoreState<E>,
    f: dir::Files,
    g: dir::Files,
    h: dir::Files,
    lost: Seq<Seq<Change>>,
)
    requires
        backed(s, f, g),
        can_flush(s),
        encodable(s),
        s.log.torn ==> recovers(s.point, g, lost),
        dir::crashed(g, flush_steps(s), h),
    ensures
        recovers(s.point, h, group_of(s.waiting)) || (s.log.torn && recovers(s.point, h, lost)),
{
    let group = group_of(s.waiting);
    let rs = waiting_records(s);
    let plan = flush_steps(s);
    let w = wal::mended(s.log);
    if s.log.torn {
        let a = wal::rotate_step(w);
        let w1 = wal::after(w, a);
        let r = dir::apply(f, a);
        let start = wal::rotate_steps(s.log);
        let more = wal::append_steps(w1, rs);
        wal::law_a_failed_step_is_made_good(s.log, f, g, rs);
        wal::lemma_cut(s.log, f, g);
        recovery::law_rotation_keeps_the_state(f, w, s.point);
        recovery::law_recovery(f, w, s.point);
        recovery::law_recovery(r, w1, s.point);
        if recovery::recovered(h) == Ok::<Point, Damage>(s.point) {
            lemma_recovers(s.point, h, group);
        }
        let n = choose|n: int| dir::crashed_at(g, plan, h, n);
        assert(dir::crashed_at(g, plan, h, n));
        let empty = Seq::<u8>::empty();
        assert(plan.take(0) =~= seq![]);
        assert(plan.take(1) =~= seq![plan[0]]);
        dir::lemma_apply_one(g, plan[0]);
        if n >= 2 {
            assert(plan.take(n) =~= start + more.take(n - 2));
            dir::lemma_apply_add(g, start, more.take(n - 2));
            dir::lemma_apply_add(g, start, more);
            assert(dir::crashed_at(r, more, h, n - 2));
            recovery::law_commit_survives_a_crash(r, w1, s.point, group, TERM, h);
        } else if n == 1 {
            let c = dir::apply(g, plan[0]);
            if h != c {
                let m = choose|m: int|
                    0 <= m <= empty.len() && h == #[trigger] assoc::upsert(
                        c,
                        wal::segment_name(w.seq + 1),
                        empty.take(m),
                    );
                assert(empty.take(m) =~= empty);
            }
        }
    } else {
        assert(w =~= s.log);
        recovery::law_commit_survives_a_crash(f, w, s.point, group, TERM, h);
    }
}

/// The segment that a checkpoint starts leaves the directory standing for the published state,
/// and its number is a boundary for it: the published state covers every segment before. This
/// holds after a flush has failed too. Earlier boundaries stay.
pub proof fn law_a_checkpoint_draws_its_boundary<E>(
    s: StoreState<E>,
    f: dir::Files,
    g: dir::Files,
    q: Point,
    b: nat,
)
    requires
        backed(s, f, g),
        s.log.seq < u32::MAX,
    ensures
        ({
            let plan = wal::rotate_steps(s.log);
            let log = wal::after_all(s.log, plan);
            let end = dir::apply_all(g, plan);
            &&& backed(StoreState { log, ..s }, end, end)
            &&& log.seq == s.log.seq + 1
            &&& recovery::covered(wal::segments(end), log.seq, s.point.0)
            &&& recovery::leads_to(end, s.point, s.point)
            &&& recovery::same_checkpoints(f, end)
            &&& recovery::regular(wal::segments(f)) ==> recovery::bounded(
                end,
                log,
                s.point,
                s.point,
                log.seq,
            )
            &&& recovery::bounded(f, s.log, s.point, q, b) ==> q.0 <= s.point.0
                && recovery::bounded(end, log, s.point, q, b)
            &&& (s.boundary matches Some(x) ==> x == b) && remembers(s, f, q) ==> remembers(
                StoreState { log, ..s },
                end,
                q,
            )
        }),
{
    let w = wal::mended(s.log);
    let log = wal::after_all(s.log, wal::rotate_steps(s.log));
    wal::law_a_failed_step_is_made_good(s.log, f, g, seq![]);
    recovery::law_rotation_keeps_the_state(f, w, s.point);
    recovery::law_rotation_draws_a_boundary(f, w, s.point);
    recovery::law_rotation_stays_bounded(f, w, s.point, q, b);
    assert(wal::mended(log) =~= log);
    recovery::law_pinned(dir::apply(f, wal::rotate_step(w)), log, s.point);
}

/// A checkpoint whose segment could not be started leaves a directory that still belongs to the
/// store and recovers to the published state, or, where an earlier step had failed, with some of
/// the commits that it was to write.
#[verifier::spinoff_prover]
#[verifier::rlimit(40)]
pub proof fn law_an_abandoned_checkpoint_is_made_good<E>(
    s: StoreState<E>,
    f: dir::Files,
    g: dir::Files,
    n: int,
    h: dir::Files,
    lost: Seq<Seq<Change>>,
    q: Point,
)
    requires
        backed(s, f, g),
        s.log.seq < u32::MAX,
        n < wal::rotate_steps(s.log).len(),
        dir::crashed_at(g, wal::rotate_steps(s.log), h, n),
    ensures
        wal::after_all(s.log, wal::rotate_steps(s.log).take(n)) == s.log,
        backed(abandoned(s), f, h),
        !s.log.torn ==> recovery::recovered(h) == Ok::<Point, Damage>(s.point),
        recovers(s.point, g, lost) ==> recovers(s.point, h, lost),
        remembers(s, f, q) ==> remembers(abandoned(s), f, q),
{
    let w = wal::mended(s.log);
    let a = wal::rotate_step(w);
    let r = dir::apply(f, a);
    let plan = wal::rotate_steps(s.log);
    let empty = Seq::<u8>::empty();
    wal::law_a_failed_rotation_leaves_a_log(s.log, f, g, n, h);
    assert(wal::mended(LogPos { torn: true, ..s.log }) =~= w);
    recovery::law_rotation_keeps_the_state(f, w, s.point);
    recovery::law_recovery(f, w, s.point);
    recovery::law_recovery(r, wal::after(w, a), s.point);
    assert(plan.take(0) =~= seq![]);
    if n == 1 {
        assert(plan.take(1) =~= seq![plan[0]]);
        dir::lemma_apply_one(g, plan[0]);
    }
    if s.log.torn {
        wal::lemma_cut(s.log, f, g);
    }
    let g1 = dir::apply_all(g, plan.take(n));
    if n == plan.len() - 1 && h != g1 {
        let m = choose|m: int|
            0 <= m <= empty.len() && h == #[trigger] assoc::upsert(
                g1,
                wal::segment_name(w.seq + 1),
                empty.take(m),
            );
        assert(empty.take(m) =~= empty);
    }
    if h != g || !s.log.torn {
        lemma_recovers(s.point, h, lost);
    }
}

/// The boundary that finishing a checkpoint gives back is covered by the checkpoint that is now
/// the previous one, and the store then remembers the boundary of the new one. The new checkpoint
/// is one of `new`, pinned when its own boundary was drawn. This holds after a flush has failed
/// too.
pub proof fn law_the_returned_boundary_is_covered<E>(
    s: StoreState<E>,
    f: dir::Files,
    g: dir::Files,
    q: Point,
    new: Point,
    boundary: u32,
)
    requires
        backed(s, f, g),
        s.log.torn ==> s.log.seq < u32::MAX,
        remembers(s, f, q),
        s.boundary is Some ==> q.0 <= new.0,
        recovery::bounded(f, s.log, s.point, new, boundary as nat),
        snapshot::encodable(new),
    ensures
        ({
            let kept = snapshot::usable(f);
            let plan = snapshot::write_steps(kept, new);
            let f1 = dir::apply_all(f, plan);
            let g1 = dir::apply_all(g, plan);
            let t = checkpointed(s, boundary);
            &&& snapshot::usable(g) == kept
            &&& backed(t, f1, g1)
            &&& remembers(t, f1, new)
            &&& snapshot::loaded(f1) == Ok::<Option<Point>, SnapshotError>(Some(new))
            &&& kept && s.boundary is Some ==> {
                &&& recovery::bounded(f1, t.log, t.point, q, s.boundary->0 as nat)
                &&& snapshot::loaded_file(f1, snapshot::previous_name()) == Ok::<
                    Option<Point>,
                    SnapshotError,
                >(Some(q))
            }
        }),
{
    let kept = snapshot::usable(f);
    let plan = snapshot::write_steps(kept, new);
    let w = wal::mended(s.log);
    recovery::law_checkpoint_keeps_the_state(f, w, s.point, new);
    if s.log.torn {
        recovery::law_a_checkpoint_keeps_what_is_left_over(f, s.log, g, new);
    }
}

/// Deleting the segments below the boundary that finishing a checkpoint gave back, or being
/// interrupted while doing so, keeps the published state, the fall-back to the previous
/// checkpoint, and the boundary that the store remembers.
pub proof fn law_reclaiming_is_safe<E>(
    s: StoreState<E>,
    f: dir::Files,
    q: Point,
    new: Point,
    b: nat,
    g: dir::Files,
)
    requires
        backed(s, f, f),
        !s.log.torn,
        remembers(s, f, new),
        recovery::leads_to(f, new, s.point),
        snapshot::loaded(f) == Ok::<Option<Point>, SnapshotError>(Some(new)),
        recovery::bounded(f, s.log, s.point, q, b),
        q.0 <= new.0,
        dir::crashed(
            f,
            wal::remove_steps(recovery::names_of(wal::segments(f)), b),
            g,
        ),
    ensures
        backed(s, g, g),
        remembers(s, g, new),
        recovery::leads_to(g, q, s.point),
        recovery::same_checkpoints(f, g),
{
    assert(wal::mended(s.log) =~= s.log);
    let segs = wal::segments(f);
    assert(recovery::covered(segs, b, new.0)) by {
        assert forall|i: int|
            0 <= i < segs.len() && wal::segment_seq((#[trigger] segs[i]).0)->0
                < b implies recovery::upto(wal_record::scan(segs[i].1).0, new.0) by {
            assert(recovery::upto(wal_record::scan(segs[i].1).0, q.0));
        }
    }
    recovery::law_reclaiming_keeps_the_state(f, s.log, s.point, q, b, g);
    recovery::law_reclaiming_keeps_the_state(f, s.log, s.point, new, b, g);
}

/// Durable before observable: queueing a commit, beginning its flush and performing the steps
/// show readers nothing new. Only settling the flush does, and by then the steps are performed.
pub proof fn law_durable_before_observable<E>(s: StoreState<E>, ops: Seq<Change>, a: Step)
    ensures
        queued(s, ops).point == s.point,
        flushing(s).point == s.point,
        followed(s, a).point == s.point,
{
}

/// A flush that fails publishes nothing.
pub proof fn law_a_failed_flush_publishes_nothing<E>(s: StoreState<E>, e: Arc<E>)
    requires
        s.group is Some,
    ensures
        settled_by(s, Err::<(), Arc<E>>(e)).point == s.point,
        settled_by(s, Err::<(), Arc<E>>(e)).stats == s.stats,
{
}

/// The records of a group of commits, numbered from `index + 1`.
fn group_log(group: &Vec<Pending>, index: u64) -> (r: Vec<Record>)
    requires
        index + group.len() <= u64::MAX,
    ensures
        wal_record::records(r@) == recovery::group_records(index, group_of(commits(group@)), TERM),
{
    let ghost want = recovery::group_records(index, group_of(commits(group@)), TERM);
    let mut recs: Vec<Record> = Vec::new();
    let mut i: usize = 0;
    while i < group.len()
        invariant
            i <= group.len(),
            index + group.len() <= u64::MAX,
            want == recovery::group_records(index, group_of(commits(group@)), TERM),
            wal_record::records(recs@) == want.take(i as int),
        decreases group.len() - i,
    {
        let ghost before = wal_record::records(recs@);
        let r = Record { term: TERM, index: index + 1 + i as u64, ops: copy_ops(&group[i].ops) };
        let ghost one = r@;
        recs.push(r);
        assert(one =~= want[i as int]);
        assert(wal_record::records(recs@) =~= before.push(one));
        assert(wal_record::records(recs@) =~= want.take(i + 1));
        i = i + 1;
    }
    assert(wal_record::records(recs@) =~= want);
    recs
}

/// The snapshot with a group of commits applied to a copy, each at its own index.
fn apply_group(cur: &Snapshot, group: &Vec<Pending>) -> (r: Snapshot)
    requires
        cur.index + group.len() <= u64::MAX,
    ensures
        r@ == recovery::commit_group(cur@, group_of(commits(group@)), TERM),
{
    let ghost want = recovery::group_records(cur.index, group_of(commits(group@)), TERM);
    let mut data: KvMap = share_map(&cur.data);
    let mut index: u64 = cur.index;
    let mut i: usize = 0;
    assert(want.take(0) =~= seq![]);
    while i < group.len()
        invariant
            i <= group.len(),
            cur.index + group.len() <= u64::MAX,
            index == cur.index + i,
            want == recovery::group_records(cur.index, group_of(commits(group@)), TERM),
            (index, types::state(data)) == recovery::apply_log(cur@, want.take(i as int)),
        decreases group.len() - i,
    {
        index = index + 1;
        apply_ops(&group[i].ops, &mut data, index);
        proof {
            assert(want.take(i + 1).drop_last() =~= want.take(i as int));
            assert(want.take(i + 1).last() == want[i as int]);
            assert(want[i as int].index == index);
        }
        i = i + 1;
    }
    assert(want.take(want.len() as int) =~= want);
    Snapshot { index, data }
}

} // verus!
