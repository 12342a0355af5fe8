//! A cluster of nodes, driven synchronously.
//!
//! A put or delete returns once its entry is replicated and committed. The quorum is fixed by the
//! size of the cluster, never by the live subset, so a minority can neither elect a leader nor
//! commit. Elections are deterministic: the live node with the most up-to-date log wins, the
//! lowest id among equals. A leader stays leader until it fails or its quorum is lost. A read
//! first brings every live node up to the leader's log, and then serves the leader's state.

use crate::assoc;
use crate::bytes;
use crate::bytes::copy_bytes;
use crate::checker;
use crate::checker::Model;
use crate::raft::node;
use crate::raft::node::{Item, LogEntry, Node, NodeId, NodeState, Role};
use crate::types;
use crate::types::{rows_with_prefix, Cell, Change, Entry, Op, Shared, State};
use std::collections::BTreeSet;
use vstd::prelude::*;

verus! {

broadcast use {
    vstd::std_specs::btree::group_btree_axioms,
    vstd::laws_cmp::group_laws_cmp,
};

/// A cluster-wide error.
#[derive(Clone, Copy, Debug, PartialEq, Eq, Structural)]
pub enum ClusterError {
    /// No reachable majority, so there can be no leader.
    NoLeader,
}

/// What a cluster holds. Node `i` has the id `i`.
#[verifier::ext_equal]
pub struct ClusterState {
    pub nodes: Seq<NodeState>,
    pub leader: Option<NodeId>,
    /// Failed or partitioned-away nodes: they neither vote nor receive entries.
    pub down: Set<NodeId>,
    /// Everything that was ever committed, in order.
    pub log: Seq<Item>,
}

/// The ids of a cluster of `n`.
pub open spec fn members(n: nat) -> Set<NodeId> {
    Set::new(|i: NodeId| i < n)
}

pub open spec fn is_live(c: ClusterState, i: int) -> bool {
    0 <= i < c.nodes.len() && !c.down.contains(i as NodeId)
}

/// The nodes that are not down.
pub open spec fn live(c: ClusterState) -> Set<NodeId> {
    Set::new(|i: NodeId| is_live(c, i as int))
}

/// Whether a majority of the whole cluster is live.
pub open spec fn has_majority(c: ClusterState) -> bool {
    live(c).len() >= node::majority(c.nodes.len())
}

/// The nodes that hold everything committed.
pub open spec fn holders(c: ClusterState) -> Set<NodeId> {
    Set::new(|i: NodeId| i < c.nodes.len() && c.nodes[i as int].log.len() == c.log.len())
}

/// The state after all of `log`.
pub open spec fn fold(log: Seq<Item>) -> State {
    node::applied_upto(seq![], log, 0, log.len())
}

pub open spec fn prefix_of(a: Seq<Item>, b: Seq<Item>) -> bool {
    a.len() <= b.len() && a == b.take(a.len() as int)
}

/// Terms never go down along a log.
pub open spec fn terms_rise(log: Seq<Item>) -> bool {
    forall|i: int, j: int| 0 <= i <= j < log.len() ==> (#[trigger] log[i]).0 <= (#[trigger] log[j]).0
}

/// Node `i` holds a prefix of what is committed, and has applied all of it.
pub open spec fn settled(c: ClusterState, i: int) -> bool {
    let n = c.nodes[i];
    &&& n.id == i
    &&& n.peers == members(c.nodes.len())
    &&& prefix_of(n.log, c.log)
    &&& n.commit == n.log.len()
    &&& n.applied == n.log.len()
    &&& n.state == fold(n.log)
    &&& node::tip_term(n.log) <= n.term
}

/// The leader is live, holds everything committed, and no node has seen a later term.
pub open spec fn leads(c: ClusterState, l: NodeId) -> bool {
    let n = c.nodes[l as int];
    &&& is_live(c, l as int)
    &&& n.role == Role::Leader
    &&& n.log == c.log
    &&& n.matched.dom() == members(c.nodes.len())
    &&& forall|i: int| 0 <= i < c.nodes.len() ==> (#[trigger] c.nodes[i]).term <= n.term
}

/// What holds of a cluster between any two calls.
pub open spec fn consistent(c: ClusterState) -> bool {
    &&& c.nodes.len() <= usize::MAX
    &&& c.log.len() <= u64::MAX
    &&& forall|i: int| 0 <= i < c.nodes.len() ==> #[trigger] settled(c, i)
    &&& terms_rise(c.log)
    &&& c.log.len() > 0 ==> holders(c).len() >= node::majority(c.nodes.len())
    &&& c.leader matches Some(l) ==> leads(c, l)
}

/// Neither the indices nor the terms are used up.
pub open spec fn has_room(c: ClusterState) -> bool {
    &&& c.log.len() + 1 < u64::MAX
    &&& forall|i: int| 0 <= i < c.nodes.len() ==> (#[trigger] c.nodes[i]).term < u64::MAX
}

/// The highest term among the first `k` nodes.
pub open spec fn top_term(c: ClusterState, k: nat) -> u64
    decreases k,
{
    if k == 0 {
        0
    } else {
        let t = top_term(c, (k - 1) as nat);
        if c.nodes[k - 1].term > t {
            c.nodes[k - 1].term
        } else {
            t
        }
    }
}

/// A live node that holds everything committed.
pub open spec fn complete(c: ClusterState, i: int) -> bool {
    is_live(c, i) && c.nodes[i].log.len() == c.log.len()
}

/// The lowest complete node at or after `from`.
pub open spec fn candidate(c: ClusterState, from: nat) -> nat
    decreases c.nodes.len() - from,
{
    if from >= c.nodes.len() || complete(c, from as int) {
        from
    } else {
        candidate(c, from + 1)
    }
}

/// Node `k` as a candidate in term `t`.
pub open spec fn standing(n: NodeState, t: u64) -> NodeState {
    NodeState {
        term: t,
        voted_for: Some(n.id),
        role: Role::Candidate,
        next: Map::empty(),
        matched: Map::empty(),
        ..n
    }
}

/// The cluster after an election: every live node has voted for the candidate, in a term that no
/// node has seen before.
pub open spec fn elected(c: ClusterState) -> ClusterState {
    let k = candidate(c, 0);
    let t = (top_term(c, c.nodes.len()) + 1) as u64;
    let tip = c.nodes[k as int].log;
    ClusterState {
        nodes: Seq::new(
            c.nodes.len(),
            |i: int|
                if i == k {
                    node::leading(standing(c.nodes[i], t))
                } else if is_live(c, i) {
                    node::voted(
                        c.nodes[i],
                        k as NodeId,
                        t,
                        tip.len() as u64,
                        node::tip_term(tip),
                    ).0
                } else {
                    c.nodes[i]
                },
        ),
        leader: Some(k as NodeId),
        ..c
    }
}

/// The cluster with a leader: the one it has, or else a newly elected one.
pub open spec fn led(c: ClusterState) -> ClusterState {
    match c.leader {
        Some(l) if !c.down.contains(l) => c,
        _ => elected(c),
    }
}

// ---------------------------------------------------------------------------
// Counting
// ---------------------------------------------------------------------------

/// How many of the first `k` nodes are live.
pub open spec fn live_below(c: ClusterState, k: nat) -> nat
    decreases k,
{
    if k == 0 {
        0
    } else {
        live_below(c, (k - 1) as nat) + if is_live(c, k - 1) {
            1nat
        } else {
            0
        }
    }
}

pub proof fn lemma_members(n: nat)
    requires
        n <= u64::MAX,
    ensures
        members(n).finite(),
        members(n).len() == n,
    decreases n,
{
    if n == 0 {
        assert(members(0) =~= Set::empty());
    } else {
        lemma_members((n - 1) as nat);
        assert(members(n) =~= members((n - 1) as nat).insert((n - 1) as NodeId));
    }
}

/// The live nodes, counted one by one.
proof fn lemma_live_below(c: ClusterState, k: nat)
    requires
        k <= c.nodes.len() <= u64::MAX,
    ensures
        ({
            let s = Set::new(|i: NodeId| i < k && is_live(c, i as int));
            s.finite() && s.len() == live_below(c, k)
        }),
        live_below(c, k) <= k,
    decreases k,
{
    let s = Set::new(|i: NodeId| i < k && is_live(c, i as int));
    if k == 0 {
        assert(s =~= Set::empty());
    } else {
        lemma_live_below(c, (k - 1) as nat);
        let t = Set::new(|i: NodeId| i < k - 1 && is_live(c, i as int));
        if is_live(c, k - 1) {
            assert(s =~= t.insert((k - 1) as NodeId));
        } else {
            assert(s =~= t);
        }
    }
}

pub proof fn lemma_live_count(c: ClusterState)
    requires
        c.nodes.len() <= u64::MAX,
    ensures
        live(c).finite(),
        live(c).len() == live_below(c, c.nodes.len()),
        live(c).len() <= c.nodes.len(),
{
    lemma_live_below(c, c.nodes.len());
    assert(live(c) =~= Set::new(
        |i: NodeId| i < c.nodes.len() && is_live(c, i as int),
    ));
}

/// Two majorities of the same cluster have a node in common.
pub proof fn law_majorities_meet(n: nat, a: Set<NodeId>, b: Set<NodeId>) -> (i: NodeId)
    requires
        n <= u64::MAX,
        a.subset_of(members(n)),
        b.subset_of(members(n)),
        a.len() >= node::majority(n),
        b.len() >= node::majority(n),
    ensures
        a.contains(i),
        b.contains(i),
{
    lemma_members(n);
    vstd::set_lib::lemma_set_subset_finite(members(n), a);
    vstd::set_lib::lemma_set_subset_finite(members(n), b);
    if a.disjoint(b) {
        vstd::set_lib::lemma_set_disjoint_lens(a, b);
        assert((a + b).subset_of(members(n)));
        vstd::set_lib::lemma_len_subset(a + b, members(n));
    }
    choose|i: NodeId| a.contains(i) && b.contains(i)
}

/// With a live majority, some live node holds everything committed: it is found, and it is the
/// lowest one.
pub proof fn lemma_candidate(c: ClusterState)
    requires
        consistent(c),
        has_majority(c),
    ensures
        complete(c, candidate(c, 0) as int),
        c.nodes[candidate(c, 0) as int].log == c.log,
        forall|i: int| 0 <= i < candidate(c, 0) ==> !#[trigger] complete(c, i),
{
    lemma_live_count(c);
    let w: NodeId = if c.log.len() > 0 {
        assert(live(c).subset_of(members(c.nodes.len())));
        assert(holders(c).subset_of(members(c.nodes.len())));
        law_majorities_meet(c.nodes.len(), live(c), holders(c))
    } else {
        assert(live(c).len() > 0);
        let i = live(c).choose();
        assert(live(c).contains(i));
        assert(settled(c, i as int));
        i
    };
    assert(complete(c, w as int));
    lemma_lowest(c, 0, w as nat);
    let k = candidate(c, 0) as int;
    assert(settled(c, k));
    assert(c.log.take(c.log.len() as int) =~= c.log);
}

proof fn lemma_lowest(c: ClusterState, from: nat, w: nat)
    requires
        from <= w,
        complete(c, w as int),
    ensures
        from <= candidate(c, from) <= w,
        complete(c, candidate(c, from) as int),
        forall|i: int| from <= i < candidate(c, from) ==> !#[trigger] complete(c, i),
    decreases c.nodes.len() - from,
{
    if !complete(c, from as int) {
        lemma_lowest(c, from + 1, w);
    }
}

/// A lowest complete node is the candidate.
proof fn lemma_candidate_is(c: ClusterState, from: nat, k: nat)
    requires
        from <= k,
        complete(c, k as int),
        forall|i: int| from <= i < k ==> !#[trigger] complete(c, i),
    ensures
        candidate(c, from) == k,
    decreases c.nodes.len() - from,
{
    if from < k {
        assert(!complete(c, from as int));
        lemma_candidate_is(c, from + 1, k);
    }
}

proof fn lemma_top_term(c: ClusterState, k: nat)
    requires
        k <= c.nodes.len(),
    ensures
        forall|i: int| 0 <= i < k ==> (#[trigger] c.nodes[i]).term <= top_term(c, k),
        top_term(c, k) == 0 || exists|i: int| 0 <= i < k && (#[trigger] c.nodes[i]).term == top_term(c, k),
    decreases k,
{
    if k > 0 {
        lemma_top_term(c, (k - 1) as nat);
        if c.nodes[k - 1].term > top_term(c, (k - 1) as nat) {
            assert(c.nodes[k - 1].term == top_term(c, k));
        }
    }
}

/// A prefix of a log with rising terms does not end in a later term.
proof fn lemma_prefix_tip(a: Seq<Item>, b: Seq<Item>)
    requires
        prefix_of(a, b),
        terms_rise(b),
    ensures
        node::tip_term(a) <= node::tip_term(b),
{
    if a.len() > 0 {
        assert(a.last() == b[a.len() - 1]);
    }
}

/// An election keeps the cluster consistent, and every live node grants its vote.
pub proof fn lemma_elected(c: ClusterState)
    requires
        consistent(c),
        has_majority(c),
        has_room(c),
    ensures
        consistent(elected(c)),
        leads(elected(c), candidate(c, 0) as NodeId),
        forall|i: int|
            is_live(c, i) && i != candidate(c, 0) ==> node::voted(
                #[trigger] c.nodes[i],
                candidate(c, 0) as NodeId,
                (top_term(c, c.nodes.len()) + 1) as u64,
                c.log.len() as u64,
                node::tip_term(c.log),
            ).1,
{
    let e = elected(c);
    let k = candidate(c, 0) as int;
    let t = (top_term(c, c.nodes.len()) + 1) as u64;
    lemma_candidate(c);
    lemma_top_term(c, c.nodes.len());
    assert(t > top_term(c, c.nodes.len()));
    assert forall|i: int| is_live(c, i) && i != k implies node::voted(
        #[trigger] c.nodes[i],
        k as NodeId,
        t,
        c.log.len() as u64,
        node::tip_term(c.log),
    ).1 by {
        assert(settled(c, i));
        lemma_prefix_tip(c.nodes[i].log, c.log);
    }
    assert forall|i: int| 0 <= i < e.nodes.len() implies #[trigger] settled(e, i) by {
        assert(settled(c, i));
    }
    assert(holders(e) =~= holders(c));
    assert(e.nodes[k].matched.dom() =~= members(c.nodes.len())) by {
        assert(settled(c, k));
    }
    assert forall|i: int| 0 <= i < e.nodes.len() implies (#[trigger] e.nodes[i]).term
        <= e.nodes[k].term by {
        assert(c.nodes[i].term <= top_term(c, c.nodes.len()));
    }
    assert(leads(e, k as NodeId));
}

// ---------------------------------------------------------------------------
// Replication
// ---------------------------------------------------------------------------

/// Node `p` after the leader has pushed its log to it, resending from wherever `p` still agrees
/// after dropping a divergent tail, and whether `p` got there. It does not if it rejects an
/// append without dropping anything, which means that it is ahead of the leader.
pub open spec fn caught_up(
    p: NodeState,
    leader: NodeId,
    log: Seq<Item>,
    commit: u64,
    term: u64,
) -> (NodeState, bool)
    decreases p.log.len(),
{
    let at = p.log.len();
    if at >= log.len() {
        (p, true)
    } else {
        let prev_term = match node::term_at(log, at) {
            Some(t) => t,
            None => 0,
        };
        let (q, r) = node::appended(p, leader, term, at as u64, prev_term, log.skip(at as int), commit);
        if r is None {
            (q, true)
        } else if q.log.len() >= at {
            (q, false)
        } else {
            caught_up(q, leader, log, commit, term)
        }
    }
}

/// Node `n` after committing up to `upto` and applying what is committed.
pub open spec fn advanced(n: NodeState, upto: u64) -> NodeState {
    let m = NodeState {
        commit: if n.commit < upto {
            upto
        } else {
            n.commit
        },
        ..n
    };
    let end = node::apply_target(m);
    NodeState {
        applied: end as u64,
        state: node::applied_upto(m.state, m.log, m.applied as nat, end),
        ..m
    }
}

/// Every live node except the leader, caught up with the leader's log.
pub open spec fn replicated(c: ClusterState) -> ClusterState {
    let l = c.leader->0;
    let n = c.nodes[l as int];
    ClusterState {
        nodes: Seq::new(
            c.nodes.len(),
            |i: int|
                if is_live(c, i) && i != l {
                    caught_up(c.nodes[i], l, n.log, n.commit, n.term).0
                } else {
                    c.nodes[i]
                },
        ),
        ..c
    }
}

/// Every live node, advanced to `upto`.
pub open spec fn all_advanced(c: ClusterState, upto: u64) -> ClusterState {
    ClusterState {
        nodes: Seq::new(
            c.nodes.len(),
            |i: int|
                if is_live(c, i) {
                    advanced(c.nodes[i], upto)
                } else {
                    c.nodes[i]
                },
        ),
        ..c
    }
}

/// The leader's log with a new entry.
pub open spec fn proposed(c: ClusterState, ch: Change) -> ClusterState {
    let l = c.leader->0;
    let n = c.nodes[l as int];
    ClusterState {
        nodes: c.nodes.update(
            l as int,
            NodeState {
                log: n.log.push((n.term, ch)),
                matched: n.matched.insert(l, (n.log.len() + 1) as u64),
                ..n
            },
        ),
        ..c
    }
}

/// `matched` with every live node below `k` at `index`.
pub open spec fn acked(c: ClusterState, matched: Map<NodeId, u64>, k: nat, index: u64) -> Map<
    NodeId,
    u64,
> {
    Map::new(
        |i: NodeId| matched.contains_key(i) || (i < k && is_live(c, i as int)),
        |i: NodeId|
            if i < k && is_live(c, i as int) {
                index
            } else {
                matched[i]
            },
    )
}

/// The leader knows that every live node holds its log, and has committed all of it.
pub open spec fn committed(c: ClusterState) -> ClusterState {
    let l = c.leader->0;
    let n = c.nodes[l as int];
    ClusterState {
        nodes: c.nodes.update(
            l as int,
            NodeState {
                matched: acked(c, n.matched, c.nodes.len(), n.log.len() as u64),
                commit: n.log.len() as u64,
                ..n
            },
        ),
        log: n.log,
        ..c
    }
}

/// The cluster after a committed change: the leader proposes it, every live node holds it, and
/// all of them have applied it.
pub open spec fn written(c: ClusterState, ch: Change) -> ClusterState {
    let w = committed(replicated(proposed(led(c), ch)));
    all_advanced(w, w.log.len() as u64)
}

/// The cluster after every live node has been brought up to the leader's log.
pub open spec fn synced(c: ClusterState) -> ClusterState {
    let s = replicated(led(c));
    all_advanced(s, s.nodes[s.leader->0 as int].commit)
}

proof fn lemma_applied_prefix(s: State, a: Seq<Item>, b: Seq<Item>, from: nat, to: nat)
    requires
        to <= a.len(),
        to <= b.len(),
        forall|i: int| 0 <= i < to ==> a[i] == b[i],
    ensures
        node::applied_upto(s, a, from, to) == node::applied_upto(s, b, from, to),
    decreases to,
{
    if to > from {
        lemma_applied_prefix(s, a, b, from, (to - 1) as nat);
    }
}

proof fn lemma_applied_split(s: State, log: Seq<Item>, from: nat, mid: nat, to: nat)
    requires
        from <= mid <= to,
    ensures
        node::applied_upto(node::applied_upto(s, log, from, mid), log, mid, to)
            == node::applied_upto(s, log, from, to),
    decreases to,
{
    if to > mid {
        lemma_applied_split(s, log, from, mid, (to - 1) as nat);
    }
}

/// A node whose log is a prefix of the leader's gets the missing entries in one append.
proof fn lemma_caught_up(p: NodeState, leader: NodeId, log: Seq<Item>, commit: u64, term: u64)
    requires
        prefix_of(p.log, log),
        p.term <= term,
        p.commit <= p.log.len(),
        commit <= log.len(),
        log.len() <= u64::MAX,
    ensures
        caught_up(p, leader, log, commit, term) == (
            if p.log.len() == log.len() {
                p
            } else {
                NodeState {
                    term,
                    role: Role::Follower,
                    voted_for: if term > p.term {
                        None
                    } else {
                        p.voted_for
                    },
                    leader_id: Some(leader),
                    log,
                    commit: if commit > p.commit {
                        commit
                    } else {
                        p.commit
                    },
                    ..p
                }
            },
            true,
        ),
{
    let at = p.log.len();
    if at < log.len() {
        if at > 0 {
            assert(p.log[at - 1] == log[at - 1]);
        }
        let rest = log.skip(at as int);
        assert(node::redelivered(p.log, at, rest) == 0);
        assert(rest.skip(0) =~= rest);
        assert(p.log.take(at as int) + rest =~= log);
        assert(node::merged(p.log, at, rest) =~= log);
    }
}

/// A node that holds all of `log` and has applied a part of it applies the rest.
proof fn lemma_advanced(n: NodeState, a: nat)
    requires
        n.log.len() <= u64::MAX,
        n.commit <= n.log.len(),
        n.applied == a <= n.log.len(),
        n.state == fold(n.log.take(a as int)),
    ensures
        advanced(n, n.log.len() as u64) == (NodeState {
            commit: n.log.len() as u64,
            applied: n.log.len() as u64,
            state: fold(n.log),
            ..n
        }),
{
    lemma_applied_prefix(seq![], n.log.take(a as int), n.log, 0, a);
    lemma_applied_split(seq![], n.log, 0, a, n.log.len());
}

/// A live node, caught up and advanced, holds and has applied all of the leader's log.
proof fn lemma_follower(p: NodeState, leader: NodeId, log: Seq<Item>, commit: u64, term: u64)
    requires
        prefix_of(p.log, log),
        p.term <= term,
        p.commit == p.log.len(),
        p.applied == p.log.len(),
        p.state == fold(p.log),
        node::tip_term(p.log) <= p.term,
        node::tip_term(log) <= term,
        commit <= log.len(),
        log.len() <= u64::MAX,
    ensures
        caught_up(p, leader, log, commit, term).1,
        ({
            let q = advanced(caught_up(p, leader, log, commit, term).0, log.len() as u64);
            &&& q.id == p.id
            &&& q.peers == p.peers
            &&& q.log == log
            &&& q.commit == log.len()
            &&& q.applied == log.len()
            &&& q.state == fold(log)
            &&& node::tip_term(log) <= q.term <= term
        }),
{
    lemma_caught_up(p, leader, log, commit, term);
    let q = caught_up(p, leader, log, commit, term).0;
    if p.log.len() == log.len() {
        assert(log.take(log.len() as int) =~= log);
    }
    lemma_advanced(q, p.log.len());
}

/// Bringing the live nodes up to the leader's log keeps the cluster consistent.
proof fn lemma_synced(e: ClusterState)
    requires
        consistent(e),
        e.leader is Some,
    ensures
        ({
            let l = e.leader->0;
            let s = all_advanced(replicated(e), e.nodes[l as int].commit);
            &&& consistent(s)
            &&& forall|i: int| is_live(e, i) ==> (#[trigger] s.nodes[i]).log == e.log
        }),
{
    let l = e.leader->0;
    let n = e.nodes[l as int];
    let r = replicated(e);
    let s = all_advanced(r, n.commit);
    assert(settled(e, l as int));
    if e.log.len() > 0 {
        assert(n.log.last() == e.log.last());
    }
    assert forall|i: int| 0 <= i < s.nodes.len() implies {
        &&& #[trigger] settled(s, i)
        &&& s.nodes[i].term <= n.term
        &&& is_live(e, i) ==> s.nodes[i].log == e.log
        &&& s.nodes[i].log.len() >= e.nodes[i].log.len()
    } by {
        assert(settled(e, i));
        assert(e.nodes[i].term <= n.term);
        assert(e.log.take(e.log.len() as int) =~= e.log);
        if is_live(e, i) {
            assert(is_live(r, i));
            if i == l {
                lemma_advanced(n, n.log.len());
                assert(n.log.take(n.log.len() as int) =~= n.log);
            } else {
                lemma_follower(e.nodes[i], l, n.log, n.commit, n.term);
            }
        }
    }
    assert forall|i: int| is_live(e, i) implies (#[trigger] s.nodes[i]).log == e.log by {
        assert(settled(s, i));
    }
    assert(holders(s).len() >= holders(e).len()) by {
        lemma_members(e.nodes.len());
        assert(holders(e).subset_of(holders(s))) by {
            assert forall|i: NodeId| holders(e).contains(i) implies holders(s).contains(i) by {
                assert(settled(s, i as int));
            }
        }
        assert(holders(s).subset_of(members(e.nodes.len())));
        vstd::set_lib::lemma_set_subset_finite(members(e.nodes.len()), holders(s));
        vstd::set_lib::lemma_len_subset(holders(e), holders(s));
    }
    assert(leads(s, l)) by {
        lemma_advanced(n, n.log.len());
        assert(n.log.take(n.log.len() as int) =~= n.log);
        assert(is_live(r, l as int));
        assert(s.nodes[l as int] =~= n);
        assert forall|i: int| 0 <= i < s.nodes.len() implies (#[trigger] s.nodes[i]).term
            <= n.term by {
            assert(settled(s, i));
        }
    }
}

/// A committed change keeps the cluster consistent, and every live node holds it.
proof fn lemma_written(e: ClusterState, ch: Change)
    requires
        consistent(e),
        e.leader is Some,
        has_majority(e),
        e.log.len() + 1 < u64::MAX,
    ensures
        ({
            let l = e.leader->0;
            let p = proposed(e, ch);
            let w = committed(replicated(p));
            let a = all_advanced(w, w.log.len() as u64);
            &&& a.log == e.log.push((e.nodes[l as int].term, ch))
            &&& consistent(a)
            &&& forall|i: int| is_live(e, i) ==> (#[trigger] a.nodes[i]).log == a.log
            &&& forall|i: int|
                is_live(e, i) && i != l ==> caught_up(
                    #[trigger] e.nodes[i],
                    l,
                    a.log,
                    e.nodes[l as int].commit,
                    e.nodes[l as int].term,
                ).1
        }),
{
    let l = e.leader->0;
    let n = e.nodes[l as int];
    let log = e.log.push((n.term, ch));
    let p = proposed(e, ch);
    let r = replicated(p);
    let w = committed(r);
    let a = all_advanced(w, w.log.len() as u64);
    assert(settled(e, l as int));
    assert(p.nodes[l as int].log == log);
    assert(r.nodes[l as int] == p.nodes[l as int]);
    assert(w.log == log);
    assert(is_live(w, l as int));
    assert(terms_rise(log)) by {
        assert forall|i: int, j: int| 0 <= i <= j < log.len() implies (#[trigger] log[i]).0 <= (
        #[trigger] log[j]).0 by {
            if i < e.log.len() {
                assert(e.log[i].0 <= e.log[e.log.len() - 1].0);
                assert(e.log.last().0 <= n.term);
            }
        }
    }
    assert forall|i: int| 0 <= i < a.nodes.len() implies {
        &&& #[trigger] settled(a, i)
        &&& a.nodes[i].term <= n.term
        &&& is_live(e, i) ==> a.nodes[i].log == log
        &&& is_live(e, i) && i != l ==> caught_up(e.nodes[i], l, log, n.commit, n.term).1
    } by {
        assert(settled(e, i));
        assert(e.nodes[i].term <= n.term);
        assert(log.take(e.nodes[i].log.len() as int) =~= e.log.take(e.nodes[i].log.len() as int));
        assert(log.take(log.len() as int) =~= log);
        if is_live(e, i) {
            assert(is_live(p, i) && is_live(r, i) && is_live(w, i));
            if i == l {
                lemma_advanced(w.nodes[i], n.log.len());
                assert(log.take(n.log.len() as int) =~= n.log);
            } else {
                assert(p.nodes[i] == e.nodes[i]);
                lemma_follower(e.nodes[i], l, log, n.commit, n.term);
            }
        }
    }
    assert forall|i: int| is_live(e, i) implies (#[trigger] a.nodes[i]).log == log by {
        assert(settled(a, i));
    }
    assert forall|i: int| is_live(e, i) && i != l implies caught_up(
        #[trigger] e.nodes[i],
        l,
        log,
        n.commit,
        n.term,
    ).1 by {
        assert(settled(a, i));
    }
    assert(holders(a).len() >= node::majority(a.nodes.len())) by {
        lemma_members(e.nodes.len());
        lemma_live_count(e);
        assert(live(e).subset_of(holders(a))) by {
            assert forall|i: NodeId| live(e).contains(i) implies holders(a).contains(i) by {
                assert(settled(a, i as int));
            }
        }
        assert(holders(a).subset_of(members(e.nodes.len())));
        vstd::set_lib::lemma_set_subset_finite(members(e.nodes.len()), holders(a));
        vstd::set_lib::lemma_len_subset(live(e), holders(a));
    }
    assert(leads(a, l)) by {
        assert(a.nodes[l as int].matched.dom() =~= members(e.nodes.len()));
        assert forall|i: int| 0 <= i < a.nodes.len() implies (#[trigger] a.nodes[i]).term
            <= n.term by {
            assert(settled(a, i));
        }
    }
}

/// The cluster after node `id` fails: it forfeits its leadership and keeps its log.
pub open spec fn failed(c: ClusterState, id: NodeId) -> ClusterState {
    ClusterState {
        leader: if c.leader == Some(id) {
            None
        } else {
            c.leader
        },
        down: c.down.insert(id),
        ..c
    }
}

/// The cluster after node `id` rejoins.
pub open spec fn revived(c: ClusterState, id: NodeId) -> ClusterState {
    ClusterState { down: c.down.remove(id), ..c }
}

/// A fresh cluster of `n` nodes.
pub open spec fn initial(n: nat) -> ClusterState {
    ClusterState {
        nodes: Seq::new(n, |i: int| node::fresh(i as NodeId, members(n))),
        leader: None,
        down: Set::empty(),
        log: seq![],
    }
}

proof fn lemma_initial(n: nat)
    requires
        n <= usize::MAX,
    ensures
        consistent(initial(n)),
        has_room(initial(n)),
{
    let c = initial(n);
    assert forall|i: int| 0 <= i < c.nodes.len() implies #[trigger] settled(c, i) by {
        assert(c.log.take(0) =~= c.log);
    }
}

/// Failures and revivals, and stepping down, keep the cluster consistent.
proof fn lemma_same_nodes(c: ClusterState, d: ClusterState)
    requires
        consistent(c),
        d.nodes == c.nodes,
        d.log == c.log,
        d.leader matches Some(l) ==> c.leader == Some(l) && !d.down.contains(l),
    ensures
        consistent(d),
{
    assert forall|i: int| 0 <= i < d.nodes.len() implies #[trigger] settled(d, i) by {
        assert(settled(c, i));
    }
    assert(holders(d) =~= holders(c));
}

/// With a live majority there is a leader, and electing it commits nothing.
proof fn lemma_led(c: ClusterState)
    requires
        consistent(c),
        has_majority(c),
        has_room(c),
    ensures
        consistent(led(c)),
        led(c).leader is Some,
        led(c).log == c.log,
        led(c).down == c.down,
        led(c).nodes.len() == c.nodes.len(),
        has_majority(led(c)),
{
    if led(c) != c {
        lemma_elected(c);
    }
    assert(live(led(c)) =~= live(c));
}

/// The writes and reads that a model has recorded.
pub type Records = (Seq<checker::Write>, Seq<checker::Read>);

/// The records with one more write.
pub open spec fn with_write(r: Option<Records>, index: u64, ch: Change) -> Option<Records> {
    match r {
        Some(m) => Some(
            (
                m.0.push(
                    match ch {
                        Change::Put(k, v) => (index, k, Some(v)),
                        Change::Delete(k) => (index, k, None),
                    },
                ),
                m.1,
            ),
        ),
        None => None,
    }
}

/// The records with one more read.
pub open spec fn with_read(
    r: Option<Records>,
    index: u64,
    key: Seq<u8>,
    value: Option<Seq<u8>>,
) -> Option<Records> {
    match r {
        Some(m) => Some((m.0, m.1.push((index, key, value)))),
        None => None,
    }
}

/// The value of `key` in a state.
pub open spec fn value_in(s: State, key: Seq<u8>) -> Option<Seq<u8>> {
    match assoc::find(s, key) {
        Some(c) => Some(c.0),
        None => None,
    }
}

/// The keys and values of a scan.
pub open spec fn pairs(r: Seq<(Vec<u8>, Vec<u8>)>) -> Seq<(Seq<u8>, Seq<u8>)> {
    r.map_values(|e: (Vec<u8>, Vec<u8>)| (e.0@, e.1@))
}

/// A cluster of nodes `0..n`, all peers of one another.
pub struct RaftCluster {
    nodes: Vec<Node>,
    leader: Option<NodeId>,
    down: BTreeSet<NodeId>,
    model: Option<Model>,
    log: Ghost<Seq<Item>>,
}

/// The states of `ns`.
pub open spec fn states(ns: Seq<Node>) -> Seq<NodeState> {
    ns.map_values(|n: Node| n@)
}

/// The ids `0..n`.
fn all_ids(n: usize) -> (r: BTreeSet<NodeId>)
    ensures
        r@ == members(n as nat),
{
    let mut r: BTreeSet<NodeId> = BTreeSet::new();
    let mut i: u64 = 0;
    assert(r@ =~= members(0));
    while i < n as u64
        invariant
            i <= n,
            r@ == members(i as nat),
        decreases n - i,
    {
        r.insert(i);
        i = i + 1;
        assert(r@ =~= members(i as nat));
    }
    r
}

impl RaftCluster {
    pub closed spec fn view(&self) -> ClusterState {
        ClusterState {
            nodes: states(self.nodes@),
            leader: self.leader,
            down: self.down@,
            log: self.log@,
        }
    }

    /// What the attached model has recorded, if there is one.
    pub closed spec fn records(&self) -> Option<Records> {
        match self.model {
            Some(m) => Some((m.writes(), m.reads())),
            None => None,
        }
    }

    /// Whether node `id` is not down.
    fn is_up(&self, id: NodeId) -> (r: bool)
        requires
            id < self@.nodes.len(),
        ensures
            r == is_live(self@, id as int),
    {
        !self.down.contains(&id)
    }

    /// The number of live nodes.
    fn live_count(&self) -> (r: usize)
        ensures
            r == live(self@).len(),
            r <= self@.nodes.len(),
    {
        let n: u64 = self.nodes.len() as u64;
        let mut r: usize = 0;
        let mut i: u64 = 0;
        while i < n
            invariant
                i <= n,
                n == self.nodes.len(),
                n == self@.nodes.len(),
                r == live_below(self@, i as nat),
                r <= i,
            decreases n - i,
        {
            if self.is_up(i) {
                r = r + 1;
            }
            i = i + 1;
        }
        proof {
            lemma_live_count(self@);
        }
        r
    }

    /// The quorum of the whole cluster, fixed by its size.
    fn quorum(&self) -> (r: usize)
        ensures
            r == node::majority(self@.nodes.len()),
    {
        self.nodes.len() / 2 + 1
    }

    /// The highest term observed by any node.
    fn max_term(&self) -> (r: u64)
        ensures
            r == top_term(self@, self@.nodes.len()),
    {
        let mut r: u64 = 0;
        let mut i: usize = 0;
        while i < self.nodes.len()
            invariant
                i <= self.nodes.len(),
                self.nodes.len() == self@.nodes.len(),
                r == top_term(self@, i as nat),
            decreases self.nodes.len() - i,
        {
            assert(self@.nodes[i as int] == self.nodes@[i as int]@);
            if self.nodes[i].term > r {
                r = self.nodes[i].term;
            }
            i = i + 1;
        }
        r
    }

    /// The live node with the most up-to-date log, the lowest id among equals.
    fn most_up_to_date(&self) -> (r: NodeId)
        requires
            consistent(self@),
            has_majority(self@),
        ensures
            r == candidate(self@, 0),
            r < self@.nodes.len(),
    {
        let ghost c = self@;
        let n: u64 = self.nodes.len() as u64;
        let mut cand: Option<NodeId> = None;
        let mut best: (u64, u64) = (0, 0);
        let mut i: u64 = 0;
        proof {
            lemma_candidate(c);
        }
        let ghost w = candidate(c, 0) as int;
        while i < n
            invariant
                i <= n,
                c == self@,
                n == c.nodes.len(),
                consistent(c),
                complete(c, w),
                0 <= w < n,
                cand matches Some(k) ==> {
                    &&& k < i
                    &&& is_live(c, k as int)
                    &&& best == (node::tip_term(c.nodes[k as int].log), c.nodes[k as int].log.len() as u64)
                    &&& complete(c, k as int) ==> forall|j: int|
                        0 <= j < k ==> !#[trigger] complete(c, j)
                },
                cand is None ==> best == (0u64, 0u64),
                forall|j: int| 0 <= j < i && #[trigger] complete(c, j) ==> (cand matches Some(k)
                    && complete(c, k as int)),
            decreases n - i,
        {
            if self.is_up(i) {
                let tip: &node::Log = &self.nodes[i as usize].log;
                let key: (u64, u64) = (tip.last_term(), tip.last_index());
                proof {
                    assert(c.nodes[i as int] == self.nodes@[i as int]@);
                    assert(settled(c, i as int));
                    lemma_prefix_tip(c.nodes[i as int].log, c.log);
                    if let Some(k) = cand {
                        assert(settled(c, k as int));
                        lemma_prefix_tip(c.nodes[k as int].log, c.log);
                    }
                    assert(c.log.take(c.log.len() as int) =~= c.log);
                }
                let better: bool = key.0 > best.0 || (key.0 == best.0 && key.1 > best.1);
                if better || (key.0 == best.0 && key.1 == best.1 && cand.is_none()) {
                    proof {
                        if complete(c, i as int) {
                            assert forall|j: int| 0 <= j < i implies !#[trigger] complete(c, j) by {
                                if complete(c, j) {
                                    assert(cand is Some);
                                }
                            }
                        } else if let Some(k) = cand {
                            if complete(c, k as int) {
                                assert(c.nodes[k as int].log == c.log);
                            }
                        }
                    }
                    cand = Some(i);
                    best = key;
                }
            }
            i = i + 1;
        }
        proof {
            let k = cand->0;
            lemma_candidate_is(c, 0, k as nat);
        }
        match cand {
            Some(k) => k,
            None => 0,
        }
    }

    /// Elect the live node with the most up-to-date log. It is at least as up to date as every
    /// other live node, so all of them grant their votes.
    fn elect(&mut self) -> (r: Option<NodeId>)
        requires
            consistent(old(self)@),
            has_majority(old(self)@),
            has_room(old(self)@),
        ensures
            r == Some(candidate(old(self)@, 0) as NodeId),
            final(self)@ == elected(old(self)@),
            final(self).records() == old(self).records(),
    {
        let ghost c = self@;
        let n: u64 = self.nodes.len() as u64;
        proof {
            lemma_candidate(c);
            lemma_top_term(c, c.nodes.len());
            lemma_elected(c);
            lemma_live_count(c);
        }
        let k: NodeId = self.most_up_to_date();
        let t: u64 = self.max_term() + 1;
        let ghost kn = c.nodes[k as int];
        let tip_term: u64 = self.nodes[k as usize].log.last_term();
        let tip_index: u64 = self.nodes[k as usize].log.last_index();
        self.nodes[k as usize].start_election();
        self.nodes[k as usize].term = t;
        assert(self@.nodes =~= c.nodes.update(k as int, standing(kn, t)));
        let mut votes: usize = 1;
        let mut i: u64 = 0;
        while i < n
            invariant
                i <= n,
                n == c.nodes.len(),
                n == self.nodes.len(),
                k < n,
                is_live(c, k as int),
                live_below(c, c.nodes.len()) <= n,
                self.leader == c.leader,
                self.down@ == c.down,
                self.log@ == c.log,
                self.records() == old(self).records(),
                forall|j: int|
                    is_live(c, j) && j != k ==> node::voted(
                        #[trigger] c.nodes[j],
                        k,
                        t,
                        tip_index,
                        tip_term,
                    ).1,
                votes == live_below(c, i as nat) + if i <= k {
                    1nat
                } else {
                    0
                },
                votes <= i + 1,
                self@.nodes == Seq::new(
                    c.nodes.len(),
                    |j: int|
                        if j == k {
                            standing(c.nodes[j], t)
                        } else if is_live(c, j) && j < i {
                            node::voted(c.nodes[j], k, t, tip_index, tip_term).0
                        } else {
                            c.nodes[j]
                        },
                ),
            decreases n - i,
        {
            let ghost before = self@.nodes;
            if i != k && self.is_up(i) {
                assert(self.nodes@[i as int]@ == before[i as int]);
                assert(before[i as int] == c.nodes[i as int]);
                let granted: bool = self.nodes[i as usize].request_vote(k, t, tip_index, tip_term);
                if granted {
                    votes = votes + 1;
                }
                assert(self@.nodes =~= before.update(
                    i as int,
                    node::voted(c.nodes[i as int], k, t, tip_index, tip_term).0,
                ));
            }
            i = i + 1;
            assert(self@.nodes =~= Seq::new(
                c.nodes.len(),
                |j: int|
                    if j == k {
                        standing(c.nodes[j], t)
                    } else if is_live(c, j) && j < i {
                        node::voted(c.nodes[j], k, t, tip_index, tip_term).0
                    } else {
                        c.nodes[j]
                    },
            ));
        }
        if votes < self.quorum() {
            self.leader = None;
            return None;
        }
        let ghost before = self@.nodes;
        assert(self.nodes@[k as int]@ == before[k as int]);
        self.nodes[k as usize].become_leader();
        assert(self@.nodes =~= before.update(k as int, node::leading(standing(kn, t))));
        self.leader = Some(k);
        assert(self@ =~= elected(c)) by {
            assert(self@.nodes =~= elected(c).nodes);
        }
        Some(k)
    }

    /// Ensure a leader backed by a quorum of the whole cluster, electing one only when there is
    /// no live leader. Without a live majority the leader steps down.
    fn ensure_leader(&mut self) -> (r: Result<NodeId, ClusterError>)
        requires
            consistent(old(self)@),
            has_room(old(self)@),
        ensures
            match r {
                Ok(l) => {
                    &&& has_majority(old(self)@)
                    &&& final(self)@ == led(old(self)@)
                    &&& final(self)@.leader == Some(l)
                    &&& leads(final(self)@, l)
                },
                Err(e) => {
                    &&& e == ClusterError::NoLeader
                    &&& !has_majority(old(self)@)
                    &&& final(self)@ == (ClusterState { leader: None, ..old(self)@ })
                },
            },
            consistent(final(self)@),
            final(self).records() == old(self).records(),
    {
        let ghost c = self@;
        if self.live_count() < self.quorum() {
            self.leader = None;
            proof {
                let d = ClusterState { leader: None, ..c };
                assert(self@ =~= d);
                assert forall|i: int| 0 <= i < d.nodes.len() implies #[trigger] settled(d, i) by {
                    assert(settled(c, i));
                }
                assert(holders(d) =~= holders(c));
            }
            return Err(ClusterError::NoLeader);
        }
        if let Some(l) = self.leader {
            if !self.down.contains(&l) {
                return Ok(l);
            }
        }
        proof {
            lemma_elected(c);
        }
        match self.elect() {
            Some(l) => Ok(l),
            None => Err(ClusterError::NoLeader),
        }
    }

    /// Push the leader's log to `peer`, resending from wherever it says it still agrees after it
    /// drops a divergent tail. Returns whether the peer got there.
    fn peer_catch_up(&mut self, l: NodeId, peer: NodeId) -> (r: bool)
        requires
            l < old(self)@.nodes.len(),
            peer < old(self)@.nodes.len(),
            l != peer,
            old(self)@.nodes[l as int].log.len() < u64::MAX,
        ensures
            ({
                let c = old(self)@;
                let n = c.nodes[l as int];
                let done = caught_up(c.nodes[peer as int], l, n.log, n.commit, n.term);
                &&& r == done.1
                &&& final(self)@ == (ClusterState {
                    nodes: c.nodes.update(peer as int, done.0),
                    ..c
                })
            }),
            final(self).records() == old(self).records(),
    {
        let ghost c = self@;
        let ghost n = c.nodes[l as int];
        let ghost done = caught_up(c.nodes[peer as int], l, n.log, n.commit, n.term);
        assert(c.nodes.update(peer as int, c.nodes[peer as int]) =~= c.nodes);
        let ghost mut p = c.nodes[peer as int];
        let mut ahead: bool = false;
        assert(l < self.nodes.len() && peer < self.nodes.len());
        assert(self.nodes@[l as int]@ == n);
        assert(self.nodes@[peer as int]@ == p);
        let idx: u64 = self.nodes[l as usize].log.last_index();
        while !ahead && self.nodes[peer as usize].log.last_index() < idx
            invariant
                l < c.nodes.len(),
                peer < c.nodes.len(),
                l != peer,
                n == c.nodes[l as int],
                self.nodes.len() == c.nodes.len(),
                self@ == (ClusterState { nodes: c.nodes.update(peer as int, p), ..c }),
                self.nodes@[l as int]@ == n,
                self.nodes@[peer as int]@ == p,
                idx == n.log.len(),
                idx < u64::MAX,
                ahead ==> (p, false) == done,
                !ahead ==> caught_up(p, l, n.log, n.commit, n.term) == done,
                self.records() == old(self).records(),
            decreases
                    if ahead || p.log.len() >= n.log.len() {
                        0
                    } else {
                        p.log.len() + 1
                    },
        {
            let ghost before = self@.nodes;
            let prev: u64 = self.nodes[peer as usize].log.last_index();
            let prev_term: u64 = match self.nodes[l as usize].log.term_of(prev) {
                Some(t) => t,
                None => 0,
            };
            let commit: u64 = self.nodes[l as usize].commit_idx;
            let term: u64 = self.nodes[l as usize].term;
            let suffix: Vec<LogEntry> = entries_after(&self.nodes[l as usize].log, prev);
            let ghost q = node::appended(
                p,
                l,
                term,
                prev,
                prev_term,
                n.log.skip(prev as int),
                commit,
            );
            let res: Option<u64> = self.nodes[peer as usize].append_entries(
                l,
                term,
                prev,
                prev_term,
                suffix.as_slice(),
                commit,
            );
            proof {
                assert(self.nodes@[peer as int]@ == q.0);
                assert(self@.nodes =~= before.update(peer as int, q.0));
                assert(self@.nodes =~= c.nodes.update(peer as int, q.0));
                if q.1 is None {
                    node::lemma_redelivered(p.log, prev as nat, n.log.skip(prev as int));
                    assert(node::redelivered(p.log, prev as nat, n.log.skip(prev as int)) == 0);
                    assert(q.0.log.len() == n.log.len());
                }
                p = q.0;
            }
            if res.is_some() && self.nodes[peer as usize].log.last_index() >= prev {
                ahead = true;
            }
        }
        !ahead
    }

    /// Commit up to `upto` on every live node, and apply what is committed.
    fn apply_committed(&mut self, upto: u64)
        ensures
            final(self)@ == all_advanced(old(self)@, upto),
            final(self).records() == old(self).records(),
    {
        let ghost c = self@;
        let n: u64 = self.nodes.len() as u64;
        let mut i: u64 = 0;
        assert(self@.nodes =~= Seq::new(
            c.nodes.len(),
            |j: int|
                if is_live(c, j) && j < 0 {
                    advanced(c.nodes[j], upto)
                } else {
                    c.nodes[j]
                },
        ));
        while i < n
            invariant
                i <= n,
                n == c.nodes.len(),
                n == self.nodes.len(),
                self@ == (ClusterState {
                    nodes: Seq::new(
                        c.nodes.len(),
                        |j: int|
                            if is_live(c, j) && j < i {
                                advanced(c.nodes[j], upto)
                            } else {
                                c.nodes[j]
                            },
                    ),
                    ..c
                }),
                self.records() == old(self).records(),
            decreases n - i,
        {
            let ghost before = self@.nodes;
            if self.is_up(i) {
                assert(self.nodes@[i as int]@ == before[i as int]);
                if self.nodes[i as usize].commit_idx < upto {
                    self.nodes[i as usize].commit_idx = upto;
                }
                let _count = self.nodes[i as usize].apply_committed();
                assert(self.nodes@[i as int]@ =~= advanced(c.nodes[i as int], upto));
                assert(self@.nodes =~= before.update(i as int, advanced(c.nodes[i as int], upto)));
            }
            i = i + 1;
            assert(self@.nodes =~= Seq::new(
                c.nodes.len(),
                |j: int|
                    if is_live(c, j) && j < i {
                        advanced(c.nodes[j], upto)
                    } else {
                        c.nodes[j]
                    },
            ));
        }
        assert(self@ =~= all_advanced(c, upto)) by {
            assert(self@.nodes =~= all_advanced(c, upto).nodes);
        }
    }

    /// Bring every live node up to the leader's log and apply everything committed.
    fn sync_live_followers(&mut self, l: NodeId)
        requires
            old(self)@.leader == Some(l),
            l < old(self)@.nodes.len(),
            old(self)@.nodes[l as int].log.len() < u64::MAX,
        ensures
            final(self)@ == all_advanced(
                replicated(old(self)@),
                old(self)@.nodes[l as int].commit,
            ),
            final(self).records() == old(self).records(),
    {
        let ghost c = self@;
        let ghost ln = c.nodes[l as int];
        let n: u64 = self.nodes.len() as u64;
        let mut i: u64 = 0;
        assert(self@.nodes =~= Seq::new(
            c.nodes.len(),
            |j: int|
                if is_live(c, j) && j != l && j < 0 {
                    caught_up(c.nodes[j], l, ln.log, ln.commit, ln.term).0
                } else {
                    c.nodes[j]
                },
        ));
        while i < n
            invariant
                i <= n,
                n == c.nodes.len(),
                n == self.nodes.len(),
                l < n,
                ln == c.nodes[l as int],
                ln.log.len() < u64::MAX,
                self@ == (ClusterState {
                    nodes: Seq::new(
                        c.nodes.len(),
                        |j: int|
                            if is_live(c, j) && j != l && j < i {
                                caught_up(c.nodes[j], l, ln.log, ln.commit, ln.term).0
                            } else {
                                c.nodes[j]
                            },
                    ),
                    ..c
                }),
                self.records() == old(self).records(),
            decreases n - i,
        {
            if i != l && self.is_up(i) {
                let _reached = self.peer_catch_up(l, i);
            }
            i = i + 1;
            assert(self@.nodes =~= Seq::new(
                c.nodes.len(),
                |j: int|
                    if is_live(c, j) && j != l && j < i {
                        caught_up(c.nodes[j], l, ln.log, ln.commit, ln.term).0
                    } else {
                        c.nodes[j]
                    },
            ));
        }
        assert(self@ =~= replicated(c)) by {
            assert(self@.nodes =~= replicated(c).nodes);
        }
        assert(self.nodes@[l as int]@ == ln) by {
            assert(replicated(c).nodes[l as int] == ln);
        }
        let ci: u64 = self.nodes[l as usize].commit_idx;
        self.apply_committed(ci);
    }

    /// Push the leader's log to every live node, and note which hold it; returns how many do.
    fn replicate(&mut self, l: NodeId) -> (r: usize)
        requires
            old(self)@.leader == Some(l),
            is_live(old(self)@, l as int),
            old(self)@.nodes[l as int].log.len() < u64::MAX,
            old(self)@.nodes[l as int].matched.contains_key(l),
            old(self)@.nodes[l as int].matched[l] == old(self)@.nodes[l as int].log.len(),
            forall|i: int|
                is_live(old(self)@, i) && i != l ==> caught_up(
                    #[trigger] old(self)@.nodes[i],
                    l,
                    old(self)@.nodes[l as int].log,
                    old(self)@.nodes[l as int].commit,
                    old(self)@.nodes[l as int].term,
                ).1,
        ensures
            r == live(old(self)@).len(),
            ({
                let c = replicated(old(self)@);
                let n = old(self)@.nodes[l as int];
                final(self)@ == (ClusterState {
                    nodes: c.nodes.update(
                        l as int,
                        NodeState {
                            matched: acked(c, n.matched, c.nodes.len(), n.log.len() as u64),
                            ..n
                        },
                    ),
                    ..c
                })
            }),
            final(self).records() == old(self).records(),
    {
        let ghost c = self@;
        let ghost ln = c.nodes[l as int];
        let n: u64 = self.nodes.len() as u64;
        assert(self.nodes@[l as int]@ == ln);
        let idx: u64 = self.nodes[l as usize].log.last_index();
        let mut acks: usize = 1;
        let mut i: u64 = 0;
        proof {
            lemma_live_count(c);
            assert(acked(c, ln.matched, 0, idx) =~= ln.matched);
            assert(self@.nodes =~= replicating(c, l, 0));
        }
        while i < n
            invariant
                i <= n,
                n == c.nodes.len(),
                n == self.nodes.len(),
                c.leader == Some(l),
                is_live(c, l as int),
                ln == c.nodes[l as int],
                idx == ln.log.len(),
                idx < u64::MAX,
                ln.matched.contains_key(l),
                ln.matched[l] == idx,
                forall|j: int|
                    is_live(c, j) && j != l ==> caught_up(
                        #[trigger] c.nodes[j],
                        l,
                        ln.log,
                        ln.commit,
                        ln.term,
                    ).1,
                acks == live_below(c, i as nat) + if i <= l {
                    1nat
                } else {
                    0
                },
                acks <= i + 1,
                live_below(c, c.nodes.len()) <= n,
                self@ == (ClusterState { nodes: replicating(c, l, i as nat), ..c }),
                self.records() == old(self).records(),
            decreases n - i,
        {
            let ghost before = self@.nodes;
            if i != l && self.is_up(i) {
                let ghost now = before[l as int];
                let reached: bool = self.peer_catch_up(l, i);
                let ghost mid = self@.nodes;
                assert(mid[l as int] == now);
                assert(self.nodes@.len() == mid.len());
                if reached {
                    assert(self.nodes@[l as int]@ == now);
                    let _old = self.nodes[l as usize].match_idx.insert(i, idx);
                    acks = acks + 1;
                    proof {
                        assert(self.nodes@[l as int]@ =~= NodeState {
                            matched: now.matched.insert(i, idx),
                            ..now
                        });
                        assert(self@.nodes =~= mid.update(
                            l as int,
                            NodeState { matched: now.matched.insert(i, idx), ..now },
                        ));
                        assert(acked(c, ln.matched, (i + 1) as nat, idx) =~= acked(
                            c,
                            ln.matched,
                            i as nat,
                            idx,
                        ).insert(i, idx));
                    }
                }
            } else {
                assert(acked(c, ln.matched, (i + 1) as nat, idx) =~= acked(
                    c,
                    ln.matched,
                    i as nat,
                    idx,
                ));
            }
            i = i + 1;
            assert(self@.nodes =~= replicating(c, l, i as nat));
        }
        proof {
            let r = replicated(c);
            assert(acked(r, ln.matched, c.nodes.len(), idx) =~= acked(
                c,
                ln.matched,
                c.nodes.len(),
                idx,
            ));
            assert(self@.nodes =~= r.nodes.update(
                l as int,
                NodeState { matched: acked(r, ln.matched, c.nodes.len(), idx), ..ln },
            ));
        }
        acks
    }

    /// The synchronous replicated write. The leader proposes the operation and replicates it to
    /// every live node; a majority of the whole cluster commits it, and it is applied to all live
    /// nodes at one index.
    fn commit(&mut self, op: Op) -> (r: Result<u64, ClusterError>)
        requires
            consistent(old(self)@),
            has_room(old(self)@),
        ensures
            match r {
                Ok(index) => {
                    &&& has_majority(old(self)@)
                    &&& index == old(self)@.log.len() + 1
                    &&& final(self)@ == written(old(self)@, op@)
                    &&& final(self).records() == with_write(old(self).records(), index, op@)
                },
                Err(e) => {
                    &&& e == ClusterError::NoLeader
                    &&& !has_majority(old(self)@)
                    &&& final(self)@ == (ClusterState { leader: None, ..old(self)@ })
                    &&& final(self).records() == old(self).records()
                },
            },
            consistent(final(self)@),
    {
        let ghost c = self@;
        proof {
            if has_majority(c) {
                lemma_led(c);
            }
        }
        let l: NodeId = match self.ensure_leader() {
            Ok(l) => l,
            Err(e) => {
                return Err(e);
            },
        };
        let ghost e = self@;
        let ghost n = e.nodes[l as int];
        proof {
            lemma_written(e, op@);
            assert(settled(e, l as int));
            assert(self.nodes@[l as int]@ == n);
        }
        let idx: u64 = self.nodes[l as usize].propose(op.clone());
        let ghost p = proposed(e, op@);
        assert(self@ =~= p) by {
            assert(self@.nodes =~= p.nodes);
        }
        assert(live(p) =~= live(e));
        assert forall|i: int| is_live(p, i) && i != l implies caught_up(
            #[trigger] p.nodes[i],
            l,
            p.nodes[l as int].log,
            p.nodes[l as int].commit,
            p.nodes[l as int].term,
        ).1 by {
            assert(p.nodes[i] == e.nodes[i]);
            assert(is_live(e, i));
        }
        let acks: usize = self.replicate(l);
        if acks < self.quorum() {
            return Err(ClusterError::NoLeader);
        }
        let ghost before = self@.nodes;
        assert(self.nodes@[l as int]@ == before[l as int]);
        proof {
            assert(replicated(p).nodes[l as int] == p.nodes[l as int]);
            assert(p.nodes[l as int].matched.dom() =~= members(e.nodes.len()));
            lemma_commits(e, before[l as int], replicated(p));
        }
        self.nodes[l as usize].advance_commit();
        assert(self@.nodes =~= before.update(
            l as int,
            NodeState { commit: idx, ..before[l as int] },
        ));
        assert(self.nodes@[l as int]@ == self@.nodes[l as int]);
        let ci: u64 = self.nodes[l as usize].commit_idx;
        proof {
            self.log@ = e.log.push((n.term, op@));
        }
        assert(self@ =~= committed(replicated(p))) by {
            assert(self@.nodes =~= committed(replicated(p)).nodes);
        }
        self.apply_committed(ci);
        let ghost w = self@;
        match &mut self.model {
            Some(m) => match op {
                Op::Put { key, value } => {
                    m.record_write(ci, key.as_slice(), Some(value));
                },
                Op::Delete { key } => {
                    m.record_write(ci, key.as_slice(), None);
                },
            },
            None => {},
        }
        assert(self@ =~= w);
        Ok(ci)
    }

    /// A fresh cluster of `n` nodes, with no leader yet.
    pub fn new(n: usize) -> (r: RaftCluster)
        ensures
            r@ == initial(n as nat),
            r.records() is None,
            consistent(r@),
            has_room(r@),
    {
        let mut nodes: Vec<Node> = Vec::new();
        let mut i: u64 = 0;
        let ghost want = initial(n as nat).nodes;
        assert(states(nodes@) =~= want.take(0));
        while i < n as u64
            invariant
                i <= n,
                want == initial(n as nat).nodes,
                states(nodes@) == want.take(i as int),
            decreases n - i,
        {
            let ghost before = states(nodes@);
            nodes.push(Node::new(i, all_ids(n)));
            assert(states(nodes@) =~= before.push(want[i as int]));
            i = i + 1;
            assert(states(nodes@) =~= want.take(i as int));
        }
        let r = RaftCluster {
            nodes,
            leader: None,
            down: BTreeSet::new(),
            model: None,
            log: Ghost(Seq::empty()),
        };
        proof {
            assert(want.take(n as int) =~= want);
            assert(r@ =~= initial(n as nat));
            lemma_initial(n as nat);
        }
        r
    }

    /// A cluster that records each write and each point read into `model`.
    pub fn with_model(n: usize, model: Model) -> (r: RaftCluster)
        ensures
            r@ == initial(n as nat),
            r.records() == Some((model.writes(), model.reads())),
            consistent(r@),
            has_room(r@),
    {
        let mut r = RaftCluster::new(n);
        r.model = Some(model);
        r
    }

    /// The attached model, if there is one.
    pub fn model(&self) -> (r: Option<&Model>)
        ensures
            match r {
                Some(m) => self.records() == Some((m.writes(), m.reads())),
                None => self.records() is None,
            },
    {
        self.model.as_ref()
    }

    /// The id of the current leader, if any.
    pub fn leader(&self) -> (r: Option<NodeId>)
        ensures
            r == self@.leader,
    {
        self.leader
    }

    /// Node `id`, if there is one.
    pub fn node(&self, id: NodeId) -> (r: Option<&Node>)
        ensures
            match r {
                Some(n) => id < self@.nodes.len() && n@ == self@.nodes[id as int],
                None => id >= self@.nodes.len(),
            },
    {
        if id < self.nodes.len() as u64 {
            assert(self@.nodes[id as int] == self.nodes@[id as int]@);
            Some(&self.nodes[id as usize])
        } else {
            None
        }
    }

    /// Whether there is an index and a term left for another call.
    pub fn has_room(&self) -> (r: bool)
        requires
            consistent(self@),
        ensures
            r == has_room(self@),
    {
        let mut i: usize = 0;
        while i < self.nodes.len()
            invariant
                i <= self.nodes.len(),
                self.nodes.len() == self@.nodes.len(),
                forall|j: int|
                    0 <= j < i ==> {
                        &&& (#[trigger] self@.nodes[j]).term < u64::MAX
                        &&& self@.nodes[j].log.len() + 1 < u64::MAX
                    },
                consistent(self@),
            decreases self.nodes.len() - i,
        {
            assert(self@.nodes[i as int] == self.nodes@[i as int]@);
            assert(settled(self@, i as int));
            if self.nodes[i].term == u64::MAX || self.nodes[i].log.last_index() >= u64::MAX - 1 {
                return false;
            }
            i = i + 1;
        }
        proof {
            let c = self@;
            if c.log.len() > 0 {
                lemma_members(c.nodes.len());
                assert(holders(c).subset_of(members(c.nodes.len())));
                let w = holders(c).choose();
                assert(holders(c).contains(w));
                assert(c.nodes[w as int].log.len() == c.log.len());
            }
        }
        true
    }

    /// Fail a node: it forfeits its leadership and keeps its log.
    pub fn fail(&mut self, id: NodeId)
        requires
            consistent(old(self)@),
        ensures
            final(self)@ == failed(old(self)@, id),
            final(self).records() == old(self).records(),
            consistent(final(self)@),
    {
        if self.leader == Some(id) {
            self.leader = None;
        }
        self.down.insert(id);
        proof {
            assert(self@ =~= failed(old(self)@, id));
            lemma_same_nodes(old(self)@, self@);
        }
    }

    /// Revive a failed node; the next call that finds a leader catches it up.
    pub fn revive(&mut self, id: NodeId)
        requires
            consistent(old(self)@),
        ensures
            final(self)@ == revived(old(self)@, id),
            final(self).records() == old(self).records(),
            consistent(final(self)@),
    {
        self.down.remove(&id);
        proof {
            assert(self@ =~= revived(old(self)@, id));
            lemma_same_nodes(old(self)@, self@);
        }
    }

    /// A put, replicated to a quorum and committed; returns its index.
    pub fn put(&mut self, key: &[u8], value: &[u8]) -> (r: Result<u64, ClusterError>)
        requires
            consistent(old(self)@),
            has_room(old(self)@),
        ensures
            match r {
                Ok(index) => {
                    &&& has_majority(old(self)@)
                    &&& index == old(self)@.log.len() + 1
                    &&& final(self)@ == written(old(self)@, Change::Put(key@, value@))
                    &&& final(self).records() == with_write(
                        old(self).records(),
                        index,
                        Change::Put(key@, value@),
                    )
                },
                Err(e) => {
                    &&& e == ClusterError::NoLeader
                    &&& !has_majority(old(self)@)
                    &&& final(self)@ == (ClusterState { leader: None, ..old(self)@ })
                    &&& final(self).records() == old(self).records()
                },
            },
            consistent(final(self)@),
    {
        self.commit(Op::Put { key: copy_bytes(key), value: copy_bytes(value) })
    }

    /// A delete, replicated to a quorum and committed; returns its index.
    pub fn delete(&mut self, key: &[u8]) -> (r: Result<u64, ClusterError>)
        requires
            consistent(old(self)@),
            has_room(old(self)@),
        ensures
            match r {
                Ok(index) => {
                    &&& has_majority(old(self)@)
                    &&& index == old(self)@.log.len() + 1
                    &&& final(self)@ == written(old(self)@, Change::Delete(key@))
                    &&& final(self).records() == with_write(
                        old(self).records(),
                        index,
                        Change::Delete(key@),
                    )
                },
                Err(e) => {
                    &&& e == ClusterError::NoLeader
                    &&& !has_majority(old(self)@)
                    &&& final(self)@ == (ClusterState { leader: None, ..old(self)@ })
                    &&& final(self).records() == old(self).records()
                },
            },
            consistent(final(self)@),
    {
        self.commit(Op::Delete { key: copy_bytes(key) })
    }

    /// The value of `key` after everything committed, served by the leader once every live node
    /// has been caught up. A minority serves nothing.
    pub fn get(&mut self, key: &[u8]) -> (r: Result<Option<Vec<u8>>, ClusterError>)
        requires
            consistent(old(self)@),
            has_room(old(self)@),
        ensures
            match r {
                Ok(v) => {
                    &&& has_majority(old(self)@)
                    &&& checker::opt_bytes(v) == value_in(fold(old(self)@.log), key@)
                    &&& final(self)@ == synced(old(self)@)
                    &&& final(self).records() == with_read(
                        old(self).records(),
                        old(self)@.log.len() as u64,
                        key@,
                        checker::opt_bytes(v),
                    )
                },
                Err(e) => {
                    &&& e == ClusterError::NoLeader
                    &&& !has_majority(old(self)@)
                    &&& final(self)@ == (ClusterState { leader: None, ..old(self)@ })
                    &&& final(self).records() == old(self).records()
                },
            },
            consistent(final(self)@),
    {
        let l: NodeId = match self.converge() {
            Ok(l) => l,
            Err(e) => {
                return Err(e);
            },
        };
        let ghost c = self@;
        assert(self.nodes@[l as int]@ == c.nodes[l as int]);
        assert(settled(c, l as int));
        let v: Option<Vec<u8>> = self.nodes[l as usize].get(key);
        let at: u64 = self.nodes[l as usize].applied;
        match &mut self.model {
            Some(m) => {
                let seen: Option<Vec<u8>> = match &v {
                    Some(b) => Some(copy_bytes(b.as_slice())),
                    None => None,
                };
                m.record_read(at, key, seen);
            },
            None => {},
        }
        assert(self@ =~= c);
        Ok(v)
    }

    /// The keys with the given prefix after everything committed, with their values and in byte
    /// order, served as a read is.
    pub fn scan(&mut self, prefix: &[u8]) -> (r: Result<Vec<(Vec<u8>, Vec<u8>)>, ClusterError>)
        requires
            consistent(old(self)@),
            has_room(old(self)@),
        ensures
            match r {
                Ok(rows) => {
                    &&& has_majority(old(self)@)
                    &&& pairs(rows@) == fold(old(self)@.log).filter(
                        |e: (Seq<u8>, Cell)| bytes::has_prefix(e.0, prefix@),
                    ).map_values(|e: (Seq<u8>, Cell)| (e.0, e.1.0))
                    &&& final(self)@ == synced(old(self)@)
                },
                Err(e) => {
                    &&& e == ClusterError::NoLeader
                    &&& !has_majority(old(self)@)
                    &&& final(self)@ == (ClusterState { leader: None, ..old(self)@ })
                },
            },
            consistent(final(self)@),
            final(self).records() == old(self).records(),
    {
        let l: NodeId = match self.converge() {
            Ok(l) => l,
            Err(e) => {
                return Err(e);
            },
        };
        assert(self.nodes@[l as int]@ == self@.nodes[l as int]);
        assert(settled(self@, l as int));
        let rows: Vec<(Shared, Entry)> = rows_with_prefix(&self.nodes[l as usize].state, prefix);
        let ghost want = types::rows(rows@).map_values(|e: (Seq<u8>, Cell)| (e.0, e.1.0));
        let mut out: Vec<(Vec<u8>, Vec<u8>)> = Vec::new();
        let mut i: usize = 0;
        assert(pairs(out@) =~= want.take(0));
        while i < rows.len()
            invariant
                i <= rows.len(),
                want == types::rows(rows@).map_values(|e: (Seq<u8>, Cell)| (e.0, e.1.0)),
                pairs(out@) == want.take(i as int),
            decreases rows.len() - i,
        {
            let ghost before = pairs(out@);
            out.push((copy_bytes(rows[i].0.as_slice()), copy_bytes(rows[i].1.value.as_slice())));
            assert(pairs(out@) =~= before.push(want[i as int]));
            i = i + 1;
            assert(pairs(out@) =~= want.take(i as int));
        }
        assert(want.take(want.len() as int) =~= want);
        Ok(out)
    }

    /// Ensure a leader, and bring every live node up to its log.
    fn converge(&mut self) -> (r: Result<NodeId, ClusterError>)
        requires
            consistent(old(self)@),
            has_room(old(self)@),
        ensures
            match r {
                Ok(l) => {
                    &&& has_majority(old(self)@)
                    &&& final(self)@ == synced(old(self)@)
                    &&& l < final(self)@.nodes.len()
                    &&& final(self)@.nodes[l as int].log == old(self)@.log
                },
                Err(e) => {
                    &&& e == ClusterError::NoLeader
                    &&& !has_majority(old(self)@)
                    &&& final(self)@ == (ClusterState { leader: None, ..old(self)@ })
                },
            },
            consistent(final(self)@),
            final(self).records() == old(self).records(),
    {
        let ghost c = self@;
        proof {
            if has_majority(c) {
                lemma_led(c);
            }
        }
        let l: NodeId = match self.ensure_leader() {
            Ok(l) => l,
            Err(e) => {
                return Err(e);
            },
        };
        proof {
            lemma_synced(self@);
            assert(replicated(self@).nodes[l as int] == self@.nodes[l as int]);
        }
        self.sync_live_followers(l);
        Ok(l)
    }
}

impl Default for RaftCluster {
    /// A cluster of three nodes.
    fn default() -> (r: RaftCluster)
        ensures
            r@ == initial(3),
            r.records() is None,
            consistent(r@),
            has_room(r@),
    {
        RaftCluster::new(3)
    }
}

/// The nodes while the leader's log is pushed to those below `k`.
spec fn replicating(c: ClusterState, l: NodeId, k: nat) -> Seq<NodeState> {
    let n = c.nodes[l as int];
    Seq::new(
        c.nodes.len(),
        |j: int|
            if j == l {
                NodeState { matched: acked(c, n.matched, k, n.log.len() as u64), ..n }
            } else if is_live(c, j) && j < k {
                caught_up(c.nodes[j], l, n.log, n.commit, n.term).0
            } else {
                c.nodes[j]
            },
    )
}

/// A leader whose newest entry is of its own term and held by a live majority commits it.
proof fn lemma_commits(e: ClusterState, n: NodeState, p: ClusterState)
    requires
        consistent(e),
        has_majority(e),
        e.log.len() < u64::MAX,
        e.leader matches Some(l) && {
            let m = p.nodes[l as int];
            &&& n == (NodeState {
                matched: acked(p, m.matched, p.nodes.len(), m.log.len() as u64),
                ..m
            })
            &&& m.log.len() == e.log.len() + 1
            &&& m.log.last().0 == m.term
            &&& m.commit == e.log.len()
            &&& m.peers == members(e.nodes.len())
            &&& m.matched.dom() == members(e.nodes.len())
        },
        p.nodes.len() == e.nodes.len(),
        p.down == e.down,
    ensures
        node::best_commit(n, n.commit as nat, n.log.len()) == n.log.len(),
{
    let len = n.log.len();
    lemma_members(e.nodes.len());
    lemma_live_count(e);
    let held = n.matched.dom().filter(|k: NodeId| n.matched[k] >= len);
    assert(n.matched.dom() =~= members(e.nodes.len()));
    assert(live(e).subset_of(held)) by {
        assert forall|i: NodeId| live(e).contains(i) implies held.contains(i) by {
            assert(is_live(p, i as int));
        }
    }
    n.matched.dom().lemma_len_filter(|k: NodeId| n.matched[k] >= len);
    vstd::set_lib::lemma_len_subset(live(e), held);
    assert(node::committable(n, len));
}

/// Copies of the entries after index `at`.
fn entries_after(log: &node::Log, at: u64) -> (r: Vec<LogEntry>)
    requires
        at <= log@.len() < u64::MAX,
    ensures
        node::items(r@) == log@.skip(at as int),
{
    let last: u64 = log.last_index();
    let mut r: Vec<LogEntry> = Vec::new();
    let mut i: u64 = at;
    assert(node::items(r@) =~= log@.subrange(at as int, at as int));
    while i < last
        invariant
            at <= i <= last,
            last == log@.len(),
            last < u64::MAX,
            node::items(r@) == log@.subrange(at as int, i as int),
        decreases last - i,
    {
        if let Some(e) = log.get(i + 1) {
            let ghost before = node::items(r@);
            r.push(e.clone());
            assert(node::items(r@) =~= before.push(log@[i as int]));
        }
        i = i + 1;
        assert(node::items(r@) =~= log@.subrange(at as int, i as int));
    }
    assert(log@.subrange(at as int, last as int) =~= log@.skip(at as int));
    r
}

// ---------------------------------------------------------------------------
// What the cluster promises
// ---------------------------------------------------------------------------

/// No split brain: of two partitions without a common node, at most one has a majority, so at
/// most one can elect a leader, commit or serve a read.
pub proof fn law_no_split_brain(c: ClusterState, a: Set<NodeId>, b: Set<NodeId>)
    requires
        c.nodes.len() <= u64::MAX,
        live(ClusterState { down: a, ..c }).disjoint(live(ClusterState { down: b, ..c })),
    ensures
        !has_majority(ClusterState { down: a, ..c }) || !has_majority(
            ClusterState { down: b, ..c },
        ),
{
    let x = ClusterState { down: a, ..c };
    let y = ClusterState { down: b, ..c };
    if has_majority(x) && has_majority(y) {
        assert(live(x).subset_of(members(c.nodes.len())));
        assert(live(y).subset_of(members(c.nodes.len())));
        let i = law_majorities_meet(c.nodes.len(), live(x), live(y));
    }
}

/// No lost update: whichever nodes fail or come back, a live majority is led by a node that
/// holds, and has applied, everything that was ever committed.
pub proof fn law_failover_loses_nothing(c: ClusterState, down: Set<NodeId>)
    requires
        consistent(c),
        has_room(c),
        has_majority(ClusterState { down, ..c }),
        c.leader matches Some(l) ==> !down.contains(l),
    ensures
        ({
            let d = led(ClusterState { down, ..c });
            d.leader matches Some(l) && d.nodes[l as int].log == c.log && d.nodes[l as int].state
                == fold(c.log)
        }),
{
    let d = ClusterState { down, ..c };
    lemma_same_nodes(c, d);
    lemma_led(d);
    let e = led(d);
    let l = e.leader->0;
    assert(leads(e, l));
    assert(settled(e, l as int));
}

/// Convergence of writes: after a committed change every live node holds the same log and the
/// same state, and the log is the one before with the change at its end.
pub proof fn law_a_write_converges(c: ClusterState, ch: Change, i: int)
    requires
        consistent(c),
        has_room(c),
        has_majority(c),
        is_live(c, i),
    ensures
        written(c, ch).log.len() == c.log.len() + 1,
        written(c, ch).log.take(c.log.len() as int) == c.log,
        written(c, ch).log.last().1 == ch,
        written(c, ch).nodes[i].log == written(c, ch).log,
        written(c, ch).nodes[i].state == fold(written(c, ch).log),
        fold(written(c, ch).log) == types::change(fold(c.log), ch, (c.log.len() + 1) as u64),
{
    lemma_led(c);
    let e = led(c);
    lemma_written(e, ch);
    let w = written(c, ch);
    assert(is_live(e, i));
    assert(settled(w, i));
    assert(w.nodes[i].log == w.log);
    assert(w.log.take(c.log.len() as int) =~= c.log);
    lemma_applied_prefix(seq![], w.log, c.log, 0, c.log.len());
}

/// Convergence of reads: after a read every live node, a revived one too, holds and has applied
/// everything committed, and nothing else was committed.
pub proof fn law_a_read_converges(c: ClusterState, i: int)
    requires
        consistent(c),
        has_room(c),
        has_majority(c),
        is_live(c, i),
    ensures
        synced(c).log == c.log,
        synced(c).nodes[i].log == c.log,
        synced(c).nodes[i].state == fold(c.log),
{
    lemma_led(c);
    let e = led(c);
    assert(replicated(e).nodes[e.leader->0 as int] == e.nodes[e.leader->0 as int]);
    lemma_synced(e);
    assert(is_live(e, i));
    assert(settled(synced(c), i));
    assert(synced(c).nodes[i].log == e.log);
}

/// A leader stays leader: neither a write nor a read elects another while it is live, and its
/// term does not change.
pub proof fn law_a_live_leader_stays(c: ClusterState, ch: Change)
    requires
        consistent(c),
        has_room(c),
        has_majority(c),
        c.leader is Some,
    ensures
        written(c, ch).leader == c.leader,
        synced(c).leader == c.leader,
        written(c, ch).nodes[c.leader->0 as int].term == c.nodes[c.leader->0 as int].term,
        synced(c).nodes[c.leader->0 as int].term == c.nodes[c.leader->0 as int].term,
{
    let l = c.leader->0;
    assert(led(c) == c);
    assert(replicated(c).nodes[l as int] == c.nodes[l as int]);
    let p = proposed(c, ch);
    assert(replicated(p).nodes[l as int] == p.nodes[l as int]);
    let w = committed(replicated(p));
    assert(is_live(w, l as int));
    assert(is_live(replicated(c), l as int));
}

/// Every election is in a term that no node has seen.
pub proof fn law_an_election_opens_a_new_term(c: ClusterState, i: int)
    requires
        consistent(c),
        has_room(c),
        has_majority(c),
        0 <= i < c.nodes.len(),
    ensures
        elected(c).leader matches Some(l) && elected(c).nodes[l as int].term > c.nodes[i].term,
{
    lemma_candidate(c);
    lemma_top_term(c, c.nodes.len());
}

/// A majority is more than half of the whole cluster, and it is the nodes that are not down that
/// are counted.
pub proof fn law_what_a_majority_is(c: ClusterState)
    requires
        c.nodes.len() <= u64::MAX,
    ensures
        has_majority(c) <==> 2 * live(c).len() > c.nodes.len(),
        forall|i: NodeId| #[trigger]
            live(c).contains(i) <==> i < c.nodes.len() && !c.down.contains(i),
        live(c).finite(),
{
    lemma_live_count(c);
}

/// Who is elected: a live node whose log no live node's is longer than, the lowest id among those
/// with the longest. Its log holds everything that was ever committed.
pub proof fn law_who_is_elected(c: ClusterState)
    requires
        consistent(c),
        has_majority(c),
        has_room(c),
    ensures
        elected(c).leader matches Some(k) && {
            &&& k < c.nodes.len()
            &&& !c.down.contains(k)
            &&& c.nodes[k as int].log == c.log
            &&& forall|i: int|
                0 <= i < c.nodes.len() && !c.down.contains(i as NodeId) ==> (
                #[trigger] c.nodes[i]).log.len() <= c.nodes[k as int].log.len()
            &&& forall|i: int|
                0 <= i < k && !c.down.contains(i as NodeId) ==> (#[trigger] c.nodes[i]).log.len()
                    < c.nodes[k as int].log.len()
        },
{
    lemma_candidate(c);
    let k = candidate(c, 0) as int;
    assert forall|i: int| 0 <= i < c.nodes.len() implies (#[trigger] c.nodes[i]).log.len()
        <= c.log.len() by {
        assert(settled(c, i));
    }
    assert forall|i: int| 0 <= i < k && !c.down.contains(i as NodeId) implies (
    #[trigger] c.nodes[i]).log.len() < c.nodes[k].log.len() by {
        assert(!complete(c, i));
        assert(is_live(c, i));
        assert(settled(c, i));
    }
}

/// What an election changes: the winner leads a term that is one above the highest that any node
/// had seen, every other live node has voted for it and follows in that term, and nodes that are
/// down have heard nothing. No log, no state and no commit index changes anywhere.
pub proof fn law_what_an_election_changes(c: ClusterState, i: int, j: int)
    requires
        consistent(c),
        has_majority(c),
        has_room(c),
        0 <= i < c.nodes.len(),
    ensures
        elected(c).nodes.len() == c.nodes.len(),
        elected(c).log == c.log,
        elected(c).down == c.down,
        elected(c).nodes[i].log == c.nodes[i].log,
        elected(c).nodes[i].state == c.nodes[i].state,
        elected(c).nodes[i].commit == c.nodes[i].commit,
        elected(c).nodes[i].applied == c.nodes[i].applied,
        elected(c).nodes[i].id == c.nodes[i].id,
        elected(c).nodes[i].peers == c.nodes[i].peers,
        c.down.contains(i as NodeId) ==> elected(c).nodes[i] == c.nodes[i],
        !c.down.contains(i as NodeId) ==> {
            let t = elected(c).nodes[i].term;
            &&& elected(c).nodes[i].voted_for == elected(c).leader
            &&& elected(c).nodes[i].role == (if elected(c).leader == Some(i as NodeId) {
                Role::Leader
            } else {
                Role::Follower
            })
            &&& 0 <= j < c.nodes.len() ==> c.nodes[j].term < t
            &&& t == 1 || exists|x: int|
                0 <= x < c.nodes.len() && (#[trigger] c.nodes[x]).term + 1 == t
        },
{
    lemma_candidate(c);
    lemma_top_term(c, c.nodes.len());
    lemma_elected(c);
    let k = candidate(c, 0) as int;
    let top = top_term(c, c.nodes.len());
    assert(settled(c, k));
    assert(top < u64::MAX) by {
        if top > 0 {
            let x = choose|x: int| 0 <= x < c.nodes.len() && (#[trigger] c.nodes[x]).term == top;
            assert(c.nodes[x].term < u64::MAX);
        }
    }
    if is_live(c, i) && i != k {
        assert(node::voted(
            c.nodes[i],
            k as NodeId,
            (top + 1) as u64,
            c.log.len() as u64,
            node::tip_term(c.log),
        ).1);
    }
}

/// An election is held exactly if there is no leader that is up; otherwise nothing changes.
pub proof fn law_when_an_election_is_held(c: ClusterState)
    ensures
        c.leader matches Some(l) ==> !c.down.contains(l) ==> led(c) == c,
        c.leader matches Some(l) ==> c.down.contains(l) ==> led(c) == elected(c),
        c.leader is None ==> led(c) == elected(c),
{
}

/// Catching up fails exactly if the node has seen a later term than the leader's and is behind it;
/// it is then left alone. Otherwise it ends with a log that is not shorter than the leader's.
pub proof fn law_when_catching_up_fails(
    p: NodeState,
    leader: NodeId,
    log: Seq<Item>,
    commit: u64,
    term: u64,
)
    requires
        log.len() < u64::MAX,
    ensures
        caught_up(p, leader, log, commit, term).1 <==> p.log.len() >= log.len() || p.term <= term,
        !caught_up(p, leader, log, commit, term).1 ==> caught_up(p, leader, log, commit, term).0
            == p,
        p.log.len() >= log.len() ==> caught_up(p, leader, log, commit, term).0 == p,
        caught_up(p, leader, log, commit, term).1 ==> caught_up(
            p,
            leader,
            log,
            commit,
            term,
        ).0.log.len() >= log.len(),
    decreases p.log.len(),
{
    let at = p.log.len();
    if at < log.len() {
        let es = log.skip(at as int);
        let prev_term = match node::term_at(log, at) {
            Some(t) => t,
            None => 0,
        };
        let (q, r) = node::appended(p, leader, term, at as u64, prev_term, es, commit);
        node::law_an_append_needs_its_predecessor(
            p,
            q,
            r,
            leader,
            term,
            at as u64,
            prev_term,
            es,
            commit,
        );
        node::law_an_append_makes_a_follower(
            p,
            q,
            r,
            leader,
            term,
            at as u64,
            prev_term,
            es,
            commit,
        );
        if r is None {
            node::law_an_accepted_append_replaces_the_conflict(
                p,
                q,
                r,
                leader,
                term,
                at as u64,
                prev_term,
                es,
                commit,
                0,
            );
        } else {
            node::law_a_refused_append_backs_up(
                p,
                q,
                r,
                leader,
                term,
                at as u64,
                prev_term,
                es,
                commit,
            );
            if p.term <= term && q.log.len() < at {
                law_when_catching_up_fails(q, leader, log, commit, term);
            }
        }
    }
}

/// A node that is behind ends with the leader's log, whatever tail it had: wherever the two had
/// entries of the same term at the same index, their logs agreed up to there.
pub proof fn law_catching_up_reaches_the_leader(
    p: NodeState,
    leader: NodeId,
    log: Seq<Item>,
    commit: u64,
    term: u64,
)
    requires
        log.len() < u64::MAX,
        p.log.len() < log.len(),
        p.term <= term,
        forall|i: int|
            0 <= i < p.log.len() && (#[trigger] p.log[i]).0 == log[i].0 ==> p.log.take(i + 1)
                == log.take(i + 1),
    ensures
        caught_up(p, leader, log, commit, term).1,
        caught_up(p, leader, log, commit, term).0.log == log,
        caught_up(p, leader, log, commit, term).0.term == term,
        caught_up(p, leader, log, commit, term).0.role == Role::Follower,
        caught_up(p, leader, log, commit, term).0.leader_id == Some(leader),
    decreases p.log.len(),
{
    let at = p.log.len();
    let es = log.skip(at as int);
    let prev_term = match node::term_at(log, at) {
        Some(t) => t,
        None => 0,
    };
    let (q, r) = node::appended(p, leader, term, at as u64, prev_term, es, commit);
    node::law_an_append_needs_its_predecessor(
        p,
        q,
        r,
        leader,
        term,
        at as u64,
        prev_term,
        es,
        commit,
    );
    node::law_an_append_makes_a_follower(p, q, r, leader, term, at as u64, prev_term, es, commit);
    if r is None {
        node::law_an_accepted_append_replaces_the_conflict(
            p,
            q,
            r,
            leader,
            term,
            at as u64,
            prev_term,
            es,
            commit,
            0,
        );
        assert(p.log.take(at as int) =~= p.log);
        assert(es.skip(0) =~= es);
        if at > 0 {
            assert(p.log[at - 1].0 == log[at - 1].0);
            assert(p.log.take(at as int) == log.take(at as int));
        } else {
            assert(p.log =~= log.take(0));
        }
        assert(q.log =~= log);
    } else {
        node::law_a_refused_append_backs_up(
            p,
            q,
            r,
            leader,
            term,
            at as u64,
            prev_term,
            es,
            commit,
        );
        assert(q.log.len() < at);
        assert forall|i: int|
            0 <= i < q.log.len() && (#[trigger] q.log[i]).0 == log[i].0 implies q.log.take(i + 1)
            == log.take(i + 1) by {
            assert(p.log[i] == q.log[i]);
            assert(p.log.take(i + 1) == log.take(i + 1));
            assert(q.log.take(i + 1) =~= p.log.take(i + 1));
        }
        law_catching_up_reaches_the_leader(q, leader, log, commit, term);
    }
}

/// What a committed change leaves on each node. The entry is in the leader's term; a live node has
/// committed and applied all of the log; a node that is down has nothing new. No node fails or
/// comes back by it, and the leader is the one that was there, or the one that was elected for it.
pub proof fn law_what_a_write_leaves(c: ClusterState, ch: Change, i: int)
    requires
        consistent(c),
        has_room(c),
        has_majority(c),
        0 <= i < c.nodes.len(),
    ensures
        written(c, ch).nodes.len() == c.nodes.len(),
        written(c, ch).down == c.down,
        written(c, ch).leader == led(c).leader,
        written(c, ch).leader matches Some(l) && written(c, ch).log.last().0 == written(
            c,
            ch,
        ).nodes[l as int].term,
        c.down.contains(i as NodeId) ==> written(c, ch).nodes[i] == c.nodes[i],
        !c.down.contains(i as NodeId) ==> written(c, ch).nodes[i].commit == c.log.len() + 1
            && written(c, ch).nodes[i].applied == c.log.len() + 1,
        consistent(written(c, ch)),
{
    lemma_led(c);
    let e = led(c);
    lemma_written(e, ch);
    let w = written(c, ch);
    let l = e.leader->0;
    let p = proposed(e, ch);
    let r = replicated(p);
    let m = committed(r);
    assert(r.nodes[l as int] == p.nodes[l as int]);
    assert(is_live(m, l as int));
    if is_live(c, i) {
        assert(is_live(e, i));
        assert(settled(w, i));
        assert(w.nodes[i].log == w.log);
    } else {
        assert(!is_live(e, i) && !is_live(p, i) && !is_live(r, i) && !is_live(m, i));
        assert(e.nodes[i] == c.nodes[i]) by {
            if e != c {
                lemma_candidate(c);
            }
        }
        assert(i != l);
    }
}

/// After a committed change the leader knows that every live node holds all of its log; of a node
/// that is down it knows what it knew before. Every other live node follows it, in its term.
pub proof fn law_what_a_leader_knows_after_a_write(c: ClusterState, ch: Change, i: int)
    requires
        consistent(c),
        has_room(c),
        has_majority(c),
        0 <= i < c.nodes.len(),
    ensures
        written(c, ch).leader matches Some(l) && {
            let n = written(c, ch).nodes[l as int];
            let m = written(c, ch).nodes[i];
            &&& !c.down.contains(i as NodeId) ==> n.matched.contains_key(i as NodeId)
                && n.matched[i as NodeId] == c.log.len() + 1
            &&& c.down.contains(i as NodeId) ==> n.matched[i as NodeId]
                == led(c).nodes[l as int].matched[i as NodeId]
            &&& n.role == Role::Leader
            &&& n.term == led(c).nodes[l as int].term
            &&& !c.down.contains(i as NodeId) && i != l ==> m.role == Role::Follower && m.term
                == n.term && m.leader_id == Some(l)
        },
{
    lemma_led(c);
    let e = led(c);
    let l = e.leader->0;
    lemma_written(e, ch);
    let log = e.log.push((e.nodes[l as int].term, ch));
    let p = proposed(e, ch);
    let r = replicated(p);
    let w = committed(r);
    assert(leads(e, l));
    assert(settled(e, l as int));
    assert(r.nodes[l as int] == p.nodes[l as int]);
    assert(is_live(w, l as int));
    if is_live(c, i) {
        assert(is_live(e, i) && is_live(p, i) && is_live(r, i) && is_live(w, i));
        if i != l {
            assert(settled(e, i));
            let n = e.nodes[l as int];
            assert(e.nodes[i].term <= n.term);
            assert(p.nodes[l as int].log == log);
            assert(log.take(e.nodes[i].log.len() as int) =~= e.log.take(
                e.nodes[i].log.len() as int,
            ));
            lemma_caught_up(e.nodes[i], l, log, n.commit, n.term);
        }
    } else {
        assert(!is_live(r, i));
    }
}

/// What a read leaves on each node: a live node has committed and applied everything committed, a
/// node that is down has nothing new, and no entry is added anywhere.
pub proof fn law_what_a_read_leaves(c: ClusterState, i: int)
    requires
        consistent(c),
        has_room(c),
        has_majority(c),
        0 <= i < c.nodes.len(),
    ensures
        synced(c).nodes.len() == c.nodes.len(),
        synced(c).down == c.down,
        synced(c).leader == led(c).leader,
        c.down.contains(i as NodeId) ==> synced(c).nodes[i] == c.nodes[i],
        !c.down.contains(i as NodeId) ==> synced(c).nodes[i].commit == c.log.len() && synced(
            c,
        ).nodes[i].applied == c.log.len(),
        consistent(synced(c)),
{
    lemma_led(c);
    let e = led(c);
    let l = e.leader->0;
    assert(replicated(e).nodes[l as int] == e.nodes[l as int]);
    lemma_synced(e);
    let s = synced(c);
    if is_live(c, i) {
        assert(is_live(e, i));
        assert(settled(s, i));
        assert(s.nodes[i].log == e.log);
    } else {
        assert(!is_live(e, i) && !is_live(replicated(e), i));
        assert(e.nodes[i] == c.nodes[i]) by {
            if e != c {
                lemma_candidate(c);
            }
        }
        assert(i != l);
    }
}

/// Advancing a node moves its commit index up to the one given, never back, and applies what that
/// commits as far as its log goes; its log, term, vote and role stay.
pub proof fn law_what_advancing_does(n: NodeState, upto: u64)
    ensures
        advanced(n, upto).commit >= n.commit,
        advanced(n, upto).commit >= upto,
        advanced(n, upto).commit == n.commit || advanced(n, upto).commit == upto,
        n.applied <= n.log.len() ==> advanced(n, upto).applied >= n.applied,
        n.applied <= n.log.len() <= u64::MAX ==> advanced(n, upto).applied == n.applied || (advanced(
            n,
            upto,
        ).applied <= advanced(n, upto).commit && advanced(n, upto).applied <= n.log.len()),
        n.applied <= n.log.len() <= u64::MAX ==> advanced(n, upto).applied >= advanced(
            n,
            upto,
        ).commit || advanced(n, upto).applied >= n.log.len(),
        advanced(n, upto).log == n.log,
        advanced(n, upto).term == n.term,
        advanced(n, upto).voted_for == n.voted_for,
        advanced(n, upto).leader_id == n.leader_id,
        advanced(n, upto).role == n.role,
        advanced(n, upto).id == n.id,
        advanced(n, upto).peers == n.peers,
        advanced(n, upto).next == n.next,
        advanced(n, upto).matched == n.matched,
        n.log.len() <= u64::MAX ==> advanced(n, upto).state == node::applied_upto(
            n.state,
            n.log,
            n.applied as nat,
            advanced(n, upto).applied as nat,
        ),
{
}

/// Failing a node takes it out of the live ones and costs it its leadership, if it had it; reviving
/// one brings it back. Neither touches a log, another node's leadership or what is committed.
pub proof fn law_failing_and_reviving(c: ClusterState, id: NodeId)
    ensures
        failed(c, id).down == c.down.insert(id),
        failed(c, id).nodes == c.nodes,
        failed(c, id).log == c.log,
        c.leader == Some(id) ==> failed(c, id).leader is None,
        c.leader != Some(id) ==> failed(c, id).leader == c.leader,
        revived(c, id).down == c.down.remove(id),
        revived(c, id).nodes == c.nodes,
        revived(c, id).log == c.log,
        revived(c, id).leader == c.leader,
{
}

/// A new cluster has nodes that know each other and nothing else: no leader, none down, nothing
/// committed.
pub proof fn law_a_new_cluster_is_empty(n: nat, i: int)
    requires
        n <= u64::MAX,
        0 <= i < n,
    ensures
        initial(n).nodes.len() == n,
        initial(n).nodes[i].id == i,
        forall|j: NodeId| #[trigger] initial(n).nodes[i].peers.contains(j) <==> j < n,
        initial(n).nodes[i].term == 0,
        initial(n).nodes[i].log.len() == 0,
        initial(n).nodes[i].role == Role::Follower,
        initial(n).leader is None,
        forall|j: NodeId| !#[trigger] initial(n).down.contains(j),
        initial(n).log.len() == 0,
{
}

/// What a model records: a write under its index with the value put, or none for a delete; a read
/// under the index it was served at, with what it observed. Without a model nothing is recorded.
pub proof fn law_what_is_recorded(
    r: Records,
    index: u64,
    k: Seq<u8>,
    v: Seq<u8>,
    seen: Option<Seq<u8>>,
)
    ensures
        with_write(Some(r), index, Change::Put(k, v)) == Some(
            (r.0.push((index, k, Some(v))), r.1),
        ),
        with_write(Some(r), index, Change::Delete(k)) == Some(
            (r.0.push((index, k, None::<Seq<u8>>)), r.1),
        ),
        with_read(Some(r), index, k, seen) == Some((r.0, r.1.push((index, k, seen)))),
        with_write(None, index, Change::Put(k, v)) is None,
        with_write(None, index, Change::Delete(k)) is None,
        with_read(None, index, k, seen) is None,
{
}

/// The writes of a log: entry `i` was committed at index `i + 1`.
pub open spec fn writes_of(log: Seq<Item>) -> Seq<checker::Write> {
    Seq::new(
        log.len(),
        |i: int|
            match log[i].1 {
                Change::Put(k, v) => ((i + 1) as u64, k, Some(v)),
                Change::Delete(k) => ((i + 1) as u64, k, None),
            },
    )
}

/// What was recorded since the first write: all writes, and only reads that are right.
pub open spec fn faithful(r: Records, log: Seq<Item>) -> bool {
    &&& log.len() <= u64::MAX
    &&& r.0 == writes_of(log)
    &&& forall|i: int|
        0 <= i < r.1.len() ==> {
            &&& (#[trigger] r.1[i]).0 <= log.len()
            &&& r.1[i].2 == checker::expected(r.0, r.1[i].1, r.1[i].0)
        }
}

/// Past the last index, the index a read asks for makes no difference.
proof fn lemma_latest_at_end(log: Seq<Item>, key: Seq<u8>, r: u64)
    requires
        log.len() <= r,
    ensures
        checker::latest(writes_of(log), key, r) == checker::latest(
            writes_of(log),
            key,
            log.len() as u64,
        ),
        checker::latest(writes_of(log), key, r) matches Some(w) ==> w.0 <= log.len(),
{
    checker::lemma_latest_beyond(writes_of(log), key, log.len() as u64, r);
}

proof fn lemma_fold_sorted(log: Seq<Item>)
    ensures
        assoc::sorted(fold(log)),
    decreases log.len(),
{
    if log.len() > 0 {
        let d = log.drop_last();
        lemma_fold_sorted(d);
        lemma_applied_prefix(seq![], log, d, 0, d.len());
        types::lemma_change_sorted(fold(d), log.last().1, log.len() as u64);
    }
}

/// What a read of the state observes is what the recorded writes make it owe.
proof fn lemma_read_is_expected(log: Seq<Item>, key: Seq<u8>)
    requires
        log.len() <= u64::MAX,
    ensures
        checker::expected(writes_of(log), key, log.len() as u64) == value_in(fold(log), key),
    decreases log.len(),
{
    let ws = writes_of(log);
    if log.len() > 0 {
        let d = log.drop_last();
        let ch = log.last().1;
        let at = log.len() as u64;
        assert(ws.drop_last() =~= writes_of(d));
        lemma_read_is_expected(d, key);
        lemma_latest_at_end(d, key, at);
        lemma_fold_sorted(d);
        lemma_applied_prefix(seq![], log, d, 0, d.len());
        assert(fold(log) == types::change(fold(d), ch, at));
        let own = match ch {
            Change::Put(k, v) => k,
            Change::Delete(k) => k,
        };
        if key == own {
            match ch {
                Change::Put(k, v) => {
                    assoc::lemma_upsert(fold(d), k, (v, at));
                },
                Change::Delete(k) => {
                    assoc::lemma_erase(fold(d), k);
                },
            }
        } else {
            types::law_change_is_local(fold(d), ch, at, key);
        }
    }
}

/// Recording a committed change leaves every recorded read right.
pub proof fn law_recorded_writes_are_faithful(r: Records, log: Seq<Item>, item: Item)
    requires
        faithful(r, log),
        log.len() < u64::MAX,
    ensures
        with_write(Some(r), (log.len() + 1) as u64, item.1) matches Some(s) && faithful(
            s,
            log.push(item),
        ),
{
    let s = with_write(Some(r), (log.len() + 1) as u64, item.1)->0;
    let now = log.push(item);
    assert(s.0 =~= writes_of(now));
    assert forall|i: int| 0 <= i < s.1.len() implies {
        &&& (#[trigger] s.1[i]).0 <= now.len()
        &&& s.1[i].2 == checker::expected(s.0, s.1[i].1, s.1[i].0)
    } by {
        assert(r.1[i].0 <= log.len());
        assert(s.0.drop_last() =~= r.0);
    }
}

/// Recording a read of the state makes it a right one.
pub proof fn law_recorded_reads_are_faithful(r: Records, log: Seq<Item>, key: Seq<u8>)
    requires
        faithful(r, log),
    ensures
        with_read(Some(r), log.len() as u64, key, value_in(fold(log), key)) matches Some(s)
            && faithful(s, log),
{
    lemma_read_is_expected(log, key);
    let s = with_read(Some(r), log.len() as u64, key, value_in(fold(log), key))->0;
    assert forall|i: int| 0 <= i < s.1.len() implies {
        &&& (#[trigger] s.1[i]).0 <= log.len()
        &&& s.1[i].2 == checker::expected(s.0, s.1[i].1, s.1[i].0)
    } by {
        if i < r.1.len() {
            assert(s.1[i] == r.1[i]);
        }
    }
}

/// What a cluster records from its first write on has no violations.
pub proof fn law_a_faithful_history_passes(r: Records, log: Seq<Item>)
    requires
        faithful(r, log),
    ensures
        checker::violations(r.0, r.1).len() == 0,
{
    checker::law_no_violations_means_every_read_is_right(r.0, r.1);
}

} // verus!
