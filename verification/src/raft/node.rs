//! One Raft node, as a pure, deterministic state machine: no clocks, no I/O, no threads.
//!
//! * A candidate wins a term only with the votes of a majority; a node votes for at most one
//!   candidate per term.
//! * An append has to agree with the log up to the entry before it. Entries that are already
//!   there are skipped, conflicting ones are replaced.
//! * An entry of the leader's own term is committed once a majority holds it, and only committed
//!   entries are applied.

use crate::assoc;
use crate::bytes::copy_bytes;
use crate::types;
use crate::types::{Change, KvMap, Op, State};
use std::collections::{BTreeSet, HashMap};
use vstd::prelude::*;

verus! {

broadcast use {
    vstd::std_specs::btree::group_btree_axioms,
    vstd::std_specs::hash::group_hash_axioms,
    vstd::laws_cmp::group_laws_cmp,
};

/// Node identifiers.
pub type NodeId = u64;

/// A command in the replicated log.
pub type Cmd = Op;

/// An entry of the log over byte strings: the term that produced it, and its command.
pub type Item = (u64, Change);

/// One entry in the replicated log.
#[derive(Debug, PartialEq, Eq)]
pub struct LogEntry {
    /// The term that produced the entry.
    pub self_term: u64,
    pub cmd: Cmd,
}

impl LogEntry {
    pub open spec fn view(&self) -> Item {
        (self.self_term, self.cmd@)
    }

    pub fn new(term: u64, cmd: Cmd) -> (r: LogEntry)
        ensures
            r@ == (term, cmd@),
    {
        LogEntry { self_term: term, cmd }
    }
}

impl Clone for LogEntry {
    fn clone(&self) -> (r: LogEntry)
        ensures
            r@ == self@,
    {
        LogEntry { self_term: self.self_term, cmd: self.cmd.clone() }
    }
}

/// The entries of `es`.
pub open spec fn items(es: Seq<LogEntry>) -> Seq<Item> {
    es.map_values(|e: LogEntry| e@)
}

#[derive(Clone, Copy, Debug, PartialEq, Eq, Structural)]
pub enum Role {
    Follower,
    Candidate,
    Leader,
}

/// The term of the entry at the 1-based `index`.
pub open spec fn term_at(log: Seq<Item>, index: nat) -> Option<u64> {
    if 1 <= index <= log.len() {
        Some(log[index - 1].0)
    } else {
        None
    }
}

/// The term of the last entry, 0 when there is none.
pub open spec fn tip_term(log: Seq<Item>) -> u64 {
    if log.len() == 0 {
        0
    } else {
        log.last().0
    }
}

/// A log with this last term and last index is at least as up to date as `log`.
pub open spec fn up_to_date(last_term: u64, last_index: nat, log: Seq<Item>) -> bool {
    last_term > tip_term(log) || (last_term == tip_term(log) && last_index >= log.len())
}

/// The replicated log, 1-indexed by convention.
#[derive(Debug, PartialEq, Eq)]
pub struct Log {
    entries: Vec<LogEntry>,
}

impl Log {
    pub closed spec fn view(&self) -> Seq<Item> {
        items(self.entries@)
    }

    pub fn new() -> (r: Log)
        ensures
            r@ == Seq::<Item>::empty(),
    {
        let r = Log { entries: Vec::new() };
        assert(r@ =~= Seq::<Item>::empty());
        r
    }

    /// Number of entries.
    pub fn len(&self) -> (r: usize)
        ensures
            r == self@.len(),
    {
        self.entries.len()
    }

    /// Whether the log holds no entries.
    pub fn is_empty(&self) -> (r: bool)
        ensures
            r == (self@.len() == 0),
    {
        self.entries.len() == 0
    }

    /// The index of the last entry, 0 when empty.
    pub fn last_index(&self) -> (r: u64)
        ensures
            r == self@.len(),
    {
        self.entries.len() as u64
    }

    /// The term of the last entry, 0 when empty.
    pub fn last_term(&self) -> (r: u64)
        ensures
            r == tip_term(self@),
    {
        if self.entries.len() == 0 {
            0
        } else {
            self.entries[self.entries.len() - 1].self_term
        }
    }

    /// The entry at a 1-based `index`, if in range.
    pub fn get(&self, index: u64) -> (r: Option<&LogEntry>)
        ensures
            match r {
                Some(e) => 1 <= index <= self@.len() && e@ == self@[index - 1],
                None => index == 0 || index > self@.len(),
            },
    {
        if index == 0 || index > self.entries.len() as u64 {
            None
        } else {
            Some(&self.entries[(index - 1) as usize])
        }
    }

    /// The term of the entry at a 1-based `index`, if in range.
    pub fn term_of(&self, index: u64) -> (r: Option<u64>)
        ensures
            r == term_at(self@, index as nat),
    {
        match self.get(index) {
            Some(e) => Some(e.self_term),
            None => None,
        }
    }

    /// Append `entries`; returns their 1-based indices.
    pub fn append(&mut self, entries: &[LogEntry]) -> (r: Vec<u64>)
        requires
            old(self)@.len() + entries@.len() <= u64::MAX,
        ensures
            final(self)@ == old(self)@ + items(entries@),
            r@ == Seq::new(entries@.len(), |i: int| (old(self)@.len() + 1 + i) as u64),
    {
        let base: u64 = self.entries.len() as u64;
        let ghost start = self@;
        let ghost added = items(entries@);
        let ghost want = Seq::new(entries@.len(), |i: int| (start.len() + 1 + i) as u64);
        let mut out: Vec<u64> = Vec::new();
        let mut i: usize = 0;
        assert(self@ =~= start + added.take(0));
        while i < entries.len()
            invariant
                i <= entries.len(),
                base == start.len(),
                base + entries@.len() <= u64::MAX,
                added == items(entries@),
                want == Seq::new(entries@.len(), |i: int| (start.len() + 1 + i) as u64),
                self@ == start + added.take(i as int),
                out@ == want.take(i as int),
            decreases entries.len() - i,
        {
            let ghost before = self@;
            out.push(base + 1 + i as u64);
            self.entries.push(entries[i].clone());
            proof {
                assert(self@ =~= before.push(added[i as int]));
                assert(self@ =~= start + added.take(i + 1));
                assert(out@ =~= want.take(i + 1));
            }
            i = i + 1;
        }
        assert(added.take(added.len() as int) =~= added);
        assert(out@ =~= want);
        out
    }

    /// Drop every entry at or after the 1-based `from_index`.
    pub fn truncate_from(&mut self, from_index: u64)
        ensures
            final(self)@ == kept_before(old(self)@, from_index as nat),
    {
        let n: u64 = self.entries.len() as u64;
        let keep: u64 = if from_index == 0 {
            0
        } else {
            from_index - 1
        };
        if keep < n {
            self.entries.truncate(keep as usize);
        }
        assert(self@ =~= kept_before(old(self)@, from_index as nat));
    }
}

/// The entries before the 1-based `from`.
pub open spec fn kept_before(log: Seq<Item>, from: nat) -> Seq<Item> {
    if from <= 1 {
        seq![]
    } else if from - 1 <= log.len() {
        log.take(from - 1)
    } else {
        log
    }
}

impl Default for Log {
    fn default() -> (r: Log)
        ensures
            r@ == Seq::<Item>::empty(),
    {
        Log::new()
    }
}

impl Clone for Log {
    fn clone(&self) -> (r: Log)
        ensures
            r@ == self@,
    {
        let mut entries: Vec<LogEntry> = Vec::new();
        let mut i: usize = 0;
        while i < self.entries.len()
            invariant
                i <= self.entries.len(),
                items(entries@) == self@.take(i as int),
            decreases self.entries.len() - i,
        {
            let ghost before = items(entries@);
            entries.push(self.entries[i].clone());
            assert(items(entries@) =~= before.push(self@[i as int]));
            assert(items(entries@) =~= self@.take(i + 1));
            i = i + 1;
        }
        assert(items(entries@) =~= self@);
        Log { entries }
    }
}

/// What a node holds.
#[verifier::ext_equal]
pub struct NodeState {
    pub id: NodeId,
    /// All members of the cluster, this node included.
    pub peers: Set<NodeId>,
    pub term: u64,
    pub voted_for: Option<NodeId>,
    pub leader_id: Option<NodeId>,
    pub role: Role,
    pub log: Seq<Item>,
    /// Highest index known to be committed.
    pub commit: u64,
    /// Highest index applied to the state machine.
    pub applied: u64,
    /// The state machine.
    pub state: State,
    pub next: Map<NodeId, u64>,
    pub matched: Map<NodeId, u64>,
}

/// A node's Raft state.
#[derive(Debug, Clone)]
pub struct Node {
    /// Stable identity.
    pub id: NodeId,
    /// All cluster member ids, this node included.
    pub peers: BTreeSet<NodeId>,
    /// The current term.
    pub term: u64,
    /// The candidate this node voted for in the current term.
    pub voted_for: Option<NodeId>,
    /// The leader this node follows.
    pub leader_id: Option<NodeId>,
    /// Current role.
    pub role: Role,
    /// The replicated log.
    pub log: Log,
    /// Highest index known to be committed.
    pub commit_idx: u64,
    /// Highest index applied to the state machine.
    pub applied: u64,
    /// The state machine.
    pub state: KvMap,
    /// For each peer, the next index the leader will send it.
    pub next_idx: HashMap<NodeId, u64>,
    /// For each peer, the highest index known to be replicated to it.
    pub match_idx: HashMap<NodeId, u64>,
}

/// The majority of a cluster of `n`.
pub open spec fn majority(n: nat) -> nat {
    n / 2 + 1
}

/// The largest index at most `from` whose entry has the term `t`, 0 if there is none.
pub open spec fn probe(log: Seq<Item>, from: nat, t: u64) -> nat
    decreases from,
{
    if from == 0 || term_at(log, from) == Some(t) {
        from
    } else {
        probe(log, (from - 1) as nat, t)
    }
}

/// How many entries at the front of `es` are already in `log` after index `at`.
pub open spec fn redelivered(log: Seq<Item>, at: nat, es: Seq<Item>) -> nat
    decreases es.len(),
{
    if es.len() == 0 || term_at(log, at + 1) != Some(es[0].0) {
        0
    } else {
        1 + redelivered(log, at + 1, es.skip(1))
    }
}

/// `log` with `es` after index `at`: entries already there are skipped, and the first one that
/// is missing or conflicts replaces everything from there on.
pub open spec fn merged(log: Seq<Item>, at: nat, es: Seq<Item>) -> Seq<Item> {
    let k = redelivered(log, at, es);
    if k == es.len() {
        log
    } else {
        log.take((at + k) as int) + es.skip(k as int)
    }
}

/// The node after an append from a leader, and its answer.
pub open spec fn appended(
    n: NodeState,
    from: NodeId,
    leader_term: u64,
    prev_index: u64,
    prev_term: u64,
    es: Seq<Item>,
    leader_commit: u64,
) -> (NodeState, Option<u64>) {
    if leader_term < n.term {
        (n, Some((n.log.len() + 1) as u64))
    } else {
        let follower = NodeState {
            term: leader_term,
            role: Role::Follower,
            voted_for: if leader_term > n.term {
                None
            } else {
                n.voted_for
            },
            leader_id: Some(from),
            ..n
        };
        if prev_index != 0 && term_at(n.log, prev_index as nat) != Some(prev_term) {
            let kept = kept_before(n.log, probe(n.log, prev_index as nat, prev_term));
            (NodeState { log: kept, ..follower }, Some(kept.len() as u64))
        } else {
            let log = merged(n.log, prev_index as nat, es);
            let safe = if leader_commit <= log.len() {
                leader_commit
            } else {
                log.len() as u64
            };
            (
                NodeState {
                    log,
                    commit: if safe > n.commit {
                        safe
                    } else {
                        n.commit
                    },
                    ..follower
                },
                None,
            )
        }
    }
}

/// The node after a vote request, and whether it grants its vote.
pub open spec fn voted(
    n: NodeState,
    from: NodeId,
    term: u64,
    last_index: u64,
    last_term: u64,
) -> (NodeState, bool) {
    let m = if term > n.term {
        NodeState { term, voted_for: None, role: Role::Follower, ..n }
    } else {
        n
    };
    if term < m.term || m.voted_for is Some || !up_to_date(last_term, last_index as nat, m.log) {
        (m, false)
    } else {
        (NodeState { voted_for: Some(from), ..m }, true)
    }
}

/// Whether index `i` is in the leader's own term and held by a majority.
pub open spec fn committable(n: NodeState, i: nat) -> bool {
    &&& term_at(n.log, i) == Some(n.term)
    &&& n.matched.dom().filter(|k: NodeId| n.matched[k] >= i).len() >= majority(n.peers.len())
}

/// The highest index in `(from, upto]` that can be committed, `from` if there is none.
pub open spec fn best_commit(n: NodeState, from: nat, upto: nat) -> nat
    decreases upto,
{
    if upto <= from {
        from
    } else if committable(n, upto) {
        upto
    } else {
        best_commit(n, from, (upto - 1) as nat)
    }
}

/// The state after applying the entries after index `from`, up to index `to`.
pub open spec fn applied_upto(s: State, log: Seq<Item>, from: nat, to: nat) -> State
    decreases to,
{
    if to <= from {
        s
    } else {
        types::change(
            applied_upto(s, log, from, (to - 1) as nat),
            log[to - 1].1,
            to as u64,
        )
    }
}

/// How far the state machine can be advanced: to the commit index, but not past the log.
pub open spec fn apply_target(n: NodeState) -> nat {
    let end = if n.commit <= n.log.len() {
        n.commit as nat
    } else {
        n.log.len()
    };
    if end < n.applied {
        n.applied as nat
    } else {
        end
    }
}

/// The largest index at most `from` with term `t` does not exceed the log.
pub proof fn lemma_probe(log: Seq<Item>, from: nat, t: u64)
    ensures
        probe(log, from, t) <= from,
        probe(log, from, t) <= log.len(),
        probe(log, from, t) == probe(log, if from <= log.len() {
            from
        } else {
            log.len()
        }, t),
    decreases from,
{
    if from > 0 && term_at(log, from) != Some(t) {
        lemma_probe(log, (from - 1) as nat, t);
    }
}

pub proof fn lemma_redelivered(log: Seq<Item>, at: nat, es: Seq<Item>)
    requires
        at <= log.len(),
    ensures
        redelivered(log, at, es) <= es.len(),
        at + redelivered(log, at, es) <= log.len(),
    decreases es.len(),
{
    if es.len() > 0 && term_at(log, at + 1) == Some(es[0].0) {
        lemma_redelivered(log, at + 1, es.skip(1));
    }
}

/// How many keys of `m` are mapped to `i` or more.
fn count_at_least(m: &HashMap<NodeId, u64>, i: u64) -> (r: usize)
    ensures
        r == m@.dom().filter(|k: NodeId| m@[k] >= i).len(),
{
    let ghost p = |k: NodeId| m@[k] >= i;
    let total: usize = m.len();
    let mut n: usize = 0;
    let ghost mut seen: Set<NodeId> = Set::empty();
    assert(seen.filter(p) =~= Set::empty());
    for k in it: m.keys()
        invariant
            p == (|k: NodeId| m@[k] >= i),
            it.seq().unref().to_set() == m@.dom(),
            it.seq().no_duplicates(),
            it.seq().len() == total,
            seen =~= it.seq().take(it.index() as int).unref().to_set(),
            seen.finite(),
            n == seen.filter(p).len(),
            n <= it.index(),
            it.index() == it.seq().len() ==> seen =~= m@.dom(),
    {
        let ghost ks = it.seq();
        let ghost at = it.index() as int;
        proof {
            let before = ks.take(at).unref();
            let now = ks.take(at + 1).unref();
            assert(ks[at] == k);
            assert(now =~= before.push(*k));
            assert(!before.contains(*k)) by {
                if before.contains(*k) {
                    let j = choose|j: int| 0 <= j < before.len() && before[j] == *k;
                    assert(ks[j] == ks[at]);
                }
            }
            assert(now.to_set() =~= seen.insert(*k)) by {
                assert forall|x: NodeId| now.to_set().contains(x) == seen.insert(*k).contains(x) by {
                    if now.contains(x) {
                        let j = choose|j: int| 0 <= j < now.len() && now[j] == x;
                        if j < at {
                            assert(before[j] == x);
                        }
                    }
                    if before.contains(x) {
                        let j = choose|j: int| 0 <= j < before.len() && before[j] == x;
                        assert(now[j] == x);
                    }
                    assert(now[at] == *k);
                }
            }
            assert(ks.unref()[at] == *k);
            assert(ks.unref().to_set().contains(*k));
            if p(*k) {
                assert(seen.insert(*k).filter(p) =~= seen.filter(p).insert(*k));
            } else {
                assert(seen.insert(*k).filter(p) =~= seen.filter(p));
            }
            seen = seen.insert(*k);
            assert(at + 1 == ks.len() ==> ks.take(at + 1) =~= ks);
        }
        if let Some(v) = m.get(k) {
            if *v >= i {
                n = n + 1;
            }
        }
    }
    proof {
        assert(seen =~= m@.dom());
    }
    n
}

/// Map every peer to `v`.
fn point_all(m: &mut HashMap<NodeId, u64>, peers: &BTreeSet<NodeId>, v: u64)
    ensures
        final(m)@ == Map::new(|k: NodeId| peers@.contains(k), |k: NodeId| v),
{
    m.clear();
    assert(m@ =~= Map::empty());
    for p in it: peers.iter()
        invariant
            it.seq().unref().to_set() == peers@,
            forall|k: NodeId| #[trigger]
                m@.contains_key(k) <==> it.seq().take(it.index() as int).unref().contains(k),
            forall|k: NodeId| m@.contains_key(k) ==> #[trigger] m@[k] == v,
            it.index() == it.seq().len() ==> m@.dom() =~= peers@,
    {
        let ghost ks = it.seq();
        let ghost at = it.index() as int;
        let ghost before = m@;
        let _old = m.insert(*p, v);
        proof {
            let now = ks.take(at + 1).unref();
            let was = ks.take(at).unref();
            assert(ks[at] == p);
            assert(now =~= was.push(*p));
            assert forall|k: NodeId| #[trigger] m@.contains_key(k) <==> now.contains(k) by {
                if now.contains(k) {
                    let j = choose|j: int| 0 <= j < now.len() && now[j] == k;
                    if j < at {
                        assert(was[j] == k);
                    }
                }
                if was.contains(k) {
                    let j = choose|j: int| 0 <= j < was.len() && was[j] == k;
                    assert(now[j] == k);
                }
                assert(now[at] == *p);
            }
            assert(at + 1 == ks.len() ==> ks.take(at + 1) =~= ks);
            assert forall|k: NodeId| at + 1 == ks.len() implies m@.dom().contains(k)
                == peers@.contains(k) by {
                assert(ks.unref().to_set().contains(k) == ks.unref().contains(k));
            }
        }
    }
    assert(m@ =~= Map::new(|k: NodeId| peers@.contains(k), |k: NodeId| v));
}

impl Node {
    pub open spec fn view(&self) -> NodeState {
        NodeState {
            id: self.id,
            peers: self.peers@,
            term: self.term,
            voted_for: self.voted_for,
            leader_id: self.leader_id,
            role: self.role,
            log: self.log@,
            commit: self.commit_idx,
            applied: self.applied,
            state: types::state(self.state),
            next: self.next_idx@,
            matched: self.match_idx@,
        }
    }

    /// A brand-new node.
    pub fn new(id: NodeId, peers: BTreeSet<NodeId>) -> (r: Node)
        ensures
            r@ == fresh(id, peers@),
    {
        let r = Node {
            id,
            peers,
            term: 0,
            voted_for: None,
            leader_id: None,
            role: Role::Follower,
            log: Log::new(),
            commit_idx: 0,
            applied: 0,
            state: KvMap::new(),
            next_idx: HashMap::new(),
            match_idx: HashMap::new(),
        };
        assert(r@ =~= fresh(id, peers@)) by {
            assert(types::state(r.state) =~= seq![]);
            assert(r.next_idx@ =~= Map::empty());
            assert(r.match_idx@ =~= Map::empty());
        }
        r
    }

    /// The quorum of this node's cluster.
    pub fn quorum(&self) -> (r: usize)
        ensures
            r == majority(self@.peers.len()),
    {
        self.peers.len() / 2 + 1
    }

    /// Become a candidate in a new term and vote for itself.
    pub fn start_election(&mut self)
        requires
            old(self)@.term < u64::MAX,
        ensures
            final(self)@ == (NodeState {
                term: (old(self)@.term + 1) as u64,
                voted_for: Some(old(self)@.id),
                role: Role::Candidate,
                next: Map::empty(),
                matched: Map::empty(),
                ..old(self)@
            }),
    {
        self.term = self.term + 1;
        self.voted_for = Some(self.id);
        self.role = Role::Candidate;
        self.next_idx.clear();
        self.match_idx.clear();
        assert(self@ =~= NodeState {
            term: (old(self)@.term + 1) as u64,
            voted_for: Some(old(self)@.id),
            role: Role::Candidate,
            next: Map::empty(),
            matched: Map::empty(),
            ..old(self)@
        });
    }

    /// Become the leader: nothing is known to be replicated to any peer yet.
    pub fn become_leader(&mut self)
        requires
            old(self)@.log.len() < u64::MAX,
        ensures
            final(self)@ == leading(old(self)@),
    {
        self.role = Role::Leader;
        let next: u64 = self.log.last_index() + 1;
        point_all(&mut self.next_idx, &self.peers, next);
        point_all(&mut self.match_idx, &self.peers, 0);
        assert(self@ =~= leading(old(self)@));
    }

    /// Handle a vote request from `from`; returns whether the vote is granted. A higher term is
    /// adopted. The vote is granted if the sender's term is not behind, this node has not voted
    /// in the term, and the sender's log is at least as up to date.
    pub fn request_vote(
        &mut self,
        from: NodeId,
        sender_term: u64,
        sender_last_index: u64,
        sender_last_term: u64,
    ) -> (r: bool)
        ensures
            (final(self)@, r) == voted(
                old(self)@,
                from,
                sender_term,
                sender_last_index,
                sender_last_term,
            ),
    {
        if sender_term > self.term {
            self.term = sender_term;
            self.voted_for = None;
            self.role = Role::Follower;
        }
        let ghost m = self@;
        if sender_term < self.term {
            assert(self@ =~= old(self)@);
            return false;
        }
        if self.voted_for.is_some() {
            return false;
        }
        let ok: bool = sender_last_term > self.log.last_term() || (sender_last_term
            == self.log.last_term() && sender_last_index >= self.log.last_index());
        if !ok {
            return false;
        }
        self.voted_for = Some(from);
        assert(self@ =~= NodeState { voted_for: Some(from), ..m });
        true
    }

    /// Handle an append from the leader `from`. Returns `None` if everything was accepted, else
    /// the index the leader should resume from. The commit index follows `leader_commit`, but
    /// never past what this node holds.
    pub fn append_entries(
        &mut self,
        from: NodeId,
        leader_term: u64,
        prev_index: u64,
        prev_term: u64,
        entries: &[LogEntry],
        leader_commit: u64,
    ) -> (r: Option<u64>)
        requires
            old(self)@.log.len() + entries@.len() < u64::MAX,
        ensures
            (final(self)@, r) == appended(
                old(self)@,
                from,
                leader_term,
                prev_index,
                prev_term,
                items(entries@),
                leader_commit,
            ),
    {
        let ghost n = self@;
        let ghost es = items(entries@);
        if leader_term < self.term {
            return Some(self.log.last_index() + 1);
        }
        if leader_term > self.term {
            self.voted_for = None;
        }
        self.term = leader_term;
        self.role = Role::Follower;
        self.leader_id = Some(from);
        let prev_ok: bool = prev_index == 0 || self.log.term_of(prev_index) == Some(prev_term);
        if !prev_ok {
            let ghost log = self.log@;
            proof {
                lemma_probe(log, prev_index as nat, prev_term);
            }
            let mut p: u64 = if prev_index <= self.log.last_index() {
                prev_index
            } else {
                self.log.last_index()
            };
            while p > 0 && self.log.term_of(p) != Some(prev_term)
                invariant
                    probe(log, prev_index as nat, prev_term) == probe(log, p as nat, prev_term),
                    self.log@ == log,
                decreases p,
            {
                p = p - 1;
            }
            self.log.truncate_from(p);
            assert(self@ =~= appended(
                n,
                from,
                leader_term,
                prev_index,
                prev_term,
                es,
                leader_commit,
            ).0);
            return Some(self.log.last_index());
        }
        self.merge(prev_index, entries);
        let last: u64 = self.log.last_index();
        let safe: u64 = if leader_commit <= last {
            leader_commit
        } else {
            last
        };
        if safe > self.commit_idx {
            self.commit_idx = safe;
        }
        assert(self@ =~= appended(
            n,
            from,
            leader_term,
            prev_index,
            prev_term,
            es,
            leader_commit,
        ).0);
        None
    }

    /// Put `entries` after index `at`: skip those already there, and from the first one that is
    /// missing or conflicts, replace what follows.
    fn merge(&mut self, at: u64, entries: &[LogEntry])
        requires
            at <= old(self)@.log.len(),
            old(self)@.log.len() + entries@.len() < u64::MAX,
        ensures
            final(self)@ == (NodeState {
                log: merged(old(self)@.log, at as nat, items(entries@)),
                ..old(self)@
            }),
    {
        let ghost n = self@;
        let ghost log = self.log@;
        let ghost es = items(entries@);
        proof {
            lemma_redelivered(log, at as nat, es);
            assert(es.skip(0) =~= es);
        }
        let mut k: usize = 0;
        while k < entries.len() && self.log.term_of(at + 1 + k as u64) == Some(entries[k].self_term)
            invariant
                k <= entries.len(),
                at + k <= log.len(),
                log.len() + entries@.len() < u64::MAX,
                self.log@ == log,
                self@ == n,
                es == items(entries@),
                redelivered(log, at as nat, es) == k + redelivered(
                    log,
                    (at + k) as nat,
                    es.skip(k as int),
                ),
            decreases entries.len() - k,
        {
            proof {
                let rest = es.skip(k as int);
                assert(rest[0] == es[k as int]);
                assert(rest.skip(1) =~= es.skip(k + 1));
            }
            k = k + 1;
        }
        if k < entries.len() {
            let rest: &[LogEntry] = vstd::slice::slice_subrange(entries, k, entries.len());
            proof {
                let more = es.skip(k as int);
                assert(more[0] == es[k as int]);
                assert(redelivered(log, (at + k) as nat, more) == 0);
                assert(items(rest@) =~= more);
            }
            self.log.truncate_from(at + 1 + k as u64);
            assert(self.log@ =~= log.take(at + k));
            let _indices = self.log.append(rest);
        } else {
            assert(es.skip(k as int) =~= seq![]);
        }
        assert(self@ =~= NodeState { log: merged(log, at as nat, es), ..n });
    }

    /// For a leader, advance the commit index to the highest entry of its own term that a
    /// majority holds. An entry of an earlier term is never committed by counting.
    pub fn advance_commit(&mut self)
        requires
            old(self)@.log.len() < u64::MAX,
        ensures
            final(self)@ == (if old(self)@.role == Role::Leader {
                NodeState {
                    commit: best_commit(
                        old(self)@,
                        old(self)@.commit as nat,
                        old(self)@.log.len(),
                    ) as u64,
                    ..old(self)@
                }
            } else {
                old(self)@
            }),
    {
        if self.role != Role::Leader {
            return;
        }
        let ghost n = self@;
        let q: usize = self.quorum();
        let last: u64 = self.log.last_index();
        let start: u64 = self.commit_idx;
        let mut best: u64 = start;
        let mut i: u64 = start;
        while i < last
            invariant
                self@ == n,
                q == majority(n.peers.len()),
                last == n.log.len(),
                start <= i,
                i <= last || i == start,
                best == best_commit(n, start as nat, i as nat),
            decreases last - i,
        {
            i = i + 1;
            if self.log.term_of(i) == Some(self.term) {
                let reps: usize = count_at_least(&self.match_idx, i);
                proof {
                    assert(n.matched.dom().filter(|k: NodeId| n.matched[k] >= i)
                        == n.matched.dom().filter(|k: NodeId| n.matched[k] >= i as nat)) by {
                        assert(n.matched.dom().filter(|k: NodeId| n.matched[k] >= i)
                            =~= n.matched.dom().filter(|k: NodeId| n.matched[k] >= i as nat));
                    }
                }
                if reps >= q {
                    best = i;
                }
            }
        }
        self.commit_idx = best;
        assert(self@ =~= NodeState {
            commit: best_commit(n, n.commit as nat, n.log.len()) as u64,
            ..n
        }) by {
            if n.log.len() < n.commit {
                assert(best_commit(n, n.commit as nat, n.log.len()) == n.commit);
            }
        }
    }

    /// Apply all committed entries that have not been applied yet, in index order; returns how
    /// many.
    pub fn apply_committed(&mut self) -> (r: usize)
        ensures
            r == apply_target(old(self)@) - old(self)@.applied,
            final(self)@ == (NodeState {
                applied: apply_target(old(self)@) as u64,
                state: applied_upto(
                    old(self)@.state,
                    old(self)@.log,
                    old(self)@.applied as nat,
                    apply_target(old(self)@),
                ),
                ..old(self)@
            }),
    {
        let ghost n = self@;
        let ghost start = n.applied as nat;
        let mut count: usize = 0;
        let len: usize = self.log.len();
        while self.applied < self.commit_idx && self.applied < len as u64
            invariant
                len == n.log.len(),
                start == n.applied,
                start <= self.applied,
                self.applied <= start || (self.applied <= n.commit && self.applied <= len),
                count == self.applied - start,
                count <= len,
                self@ == (NodeState {
                    applied: self.applied,
                    state: applied_upto(n.state, n.log, start, self.applied as nat),
                    ..n
                }),
            decreases len - self.applied,
        {
            let idx: u64 = self.applied + 1;
            if let Some(e) = self.log.get(idx) {
                let _changed = e.cmd.apply(&mut self.state, idx);
            }
            self.applied = idx;
            count = count + 1;
            assert(self@ =~= NodeState {
                applied: self.applied,
                state: applied_upto(n.state, n.log, start, self.applied as nat),
                ..n
            });
        }
        count
    }

    /// A leader appends a client command to its own log; returns the new index. Only a leader
    /// may propose.
    pub fn propose(&mut self, cmd: Cmd) -> (r: u64)
        requires
            old(self)@.role == Role::Leader,
            old(self)@.log.len() < u64::MAX,
        ensures
            r == old(self)@.log.len() + 1,
            final(self)@ == (NodeState {
                log: old(self)@.log.push((old(self)@.term, cmd@)),
                matched: old(self)@.matched.insert(old(self)@.id, r),
                ..old(self)@
            }),
    {
        let idx: u64 = self.log.last_index() + 1;
        let e = LogEntry::new(self.term, cmd);
        let one: Vec<LogEntry> = vec![e];
        let ghost before = self.log@;
        let _indices = self.log.append(one.as_slice());
        assert(self.log@ =~= before.push((self.term, cmd@)));
        let _old = self.match_idx.insert(self.id, idx);
        assert(self@ =~= NodeState {
            log: old(self)@.log.push((old(self)@.term, cmd@)),
            matched: old(self)@.matched.insert(old(self)@.id, idx),
            ..old(self)@
        });
        idx
    }

    /// A point read of the state machine.
    pub fn get(&self, key: &[u8]) -> (r: Option<Vec<u8>>)
        ensures
            match r {
                Some(v) => assoc::find(self@.state, key@) matches Some(c) && v@ == c.0,
                None => assoc::find(self@.state, key@) is None,
            },
    {
        proof {
            assoc::lemma_map_vals(self.state.entries(), |e: types::Entry| e@, key@);
        }
        match self.state.get(key) {
            Some(e) => Some(copy_bytes(e.value.as_slice())),
            None => None,
        }
    }

    /// Number of live keys in the state machine.
    pub fn kv_len(&self) -> (r: usize)
        ensures
            r == self@.state.len(),
    {
        self.state.len()
    }
}

/// A brand-new node.
pub open spec fn fresh(id: NodeId, peers: Set<NodeId>) -> NodeState {
    NodeState {
        id,
        peers,
        term: 0,
        voted_for: None,
        leader_id: None,
        role: Role::Follower,
        log: seq![],
        commit: 0,
        applied: 0,
        state: seq![],
        next: Map::empty(),
        matched: Map::empty(),
    }
}

/// A node that has become the leader.
pub open spec fn leading(n: NodeState) -> NodeState {
    NodeState {
        role: Role::Leader,
        next: Map::new(|k: NodeId| n.peers.contains(k), |k: NodeId| (n.log.len() + 1) as u64),
        matched: Map::new(|k: NodeId| n.peers.contains(k), |k: NodeId| 0u64),
        ..n
    }
}

// ---------------------------------------------------------------------------
// Safety
// ---------------------------------------------------------------------------

/// A node votes for at most one candidate per term: once it has granted its vote, it refuses
/// every later request in the same term and keeps its vote.
pub proof fn law_one_vote_per_term(
    n: NodeState,
    a: NodeId,
    b: NodeId,
    term: u64,
    i: u64,
    t: u64,
    j: u64,
    u: u64,
)
    requires
        voted(n, a, term, i, t).1,
    ensures
        !voted(voted(n, a, term, i, t).0, b, term, j, u).1,
        voted(voted(n, a, term, i, t).0, b, term, j, u).0.voted_for == Some(a),
{
}

/// A vote is kept across appends of the same term.
pub proof fn law_appends_keep_the_vote(
    n: NodeState,
    from: NodeId,
    prev_index: u64,
    prev_term: u64,
    es: Seq<Item>,
    commit: u64,
)
    ensures
        appended(n, from, n.term, prev_index, prev_term, es, commit).0.voted_for == n.voted_for,
{
}

/// A candidate whose log is behind is refused, at whatever term.
pub proof fn law_a_stale_log_cannot_win(
    n: NodeState,
    from: NodeId,
    term: u64,
    last_index: u64,
    last_term: u64,
)
    requires
        !up_to_date(last_term, last_index as nat, n.log),
    ensures
        !voted(n, from, term, last_index, last_term).1,
{
}

/// Terms never go back.
pub proof fn law_terms_do_not_go_back(
    n: NodeState,
    from: NodeId,
    term: u64,
    prev_index: u64,
    prev_term: u64,
    es: Seq<Item>,
    commit: u64,
)
    ensures
        appended(n, from, term, prev_index, prev_term, es, commit).0.term >= n.term,
        voted(n, from, term, prev_index, prev_term).0.term >= n.term,
{
}

/// An accepted append leaves the follower's log agreeing with the leader's through the
/// appended entries, if it agreed before them: log matching.
pub proof fn law_log_matching(log: Seq<Item>, leader: Seq<Item>, at: nat, upto: nat)
    requires
        at <= upto <= leader.len(),
        at <= log.len(),
        log.take(at as int) == leader.take(at as int),
        forall|i: int|
            0 <= i < log.len() && i < leader.len() && (#[trigger] log[i]).0 == leader[i].0
                ==> log[i] == leader[i],
    ensures
        ({
            let m = merged(log, at, leader.subrange(at as int, upto as int));
            m.len() >= upto && m.take(upto as int) == leader.take(upto as int)
        }),
{
    let es = leader.subrange(at as int, upto as int);
    lemma_redelivered(log, at, es);
    lemma_redelivered_agrees(log, leader, at, upto);
    let k = redelivered(log, at, es);
    let m = merged(log, at, es);
    assert(m.take(upto as int) =~= leader.take(upto as int)) by {
        assert forall|i: int| 0 <= i < upto implies m[i] == leader[i] by {
            if i < at {
                assert(log.take(at as int)[i] == leader.take(at as int)[i]);
            }
        }
    }
}

proof fn lemma_redelivered_agrees(log: Seq<Item>, leader: Seq<Item>, at: nat, upto: nat)
    requires
        at <= upto <= leader.len(),
        at <= log.len(),
        forall|i: int|
            0 <= i < log.len() && i < leader.len() && (#[trigger] log[i]).0 == leader[i].0
                ==> log[i] == leader[i],
    ensures
        ({
            let k = redelivered(log, at, leader.subrange(at as int, upto as int));
            forall|i: int| at <= i < at + k ==> #[trigger] log[i] == leader[i]
        }),
    decreases upto - at,
{
    let es = leader.subrange(at as int, upto as int);
    if es.len() > 0 && term_at(log, at + 1) == Some(es[0].0) {
        assert(es[0] == leader[at as int]);
        assert(es.skip(1) =~= leader.subrange((at + 1) as int, upto as int));
        lemma_redelivered_agrees(log, leader, at + 1, upto);
        assert(log[at as int].0 == leader[at as int].0);
    }
}

/// Delivering the same entries a second time changes nothing.
pub proof fn law_redelivery_is_idempotent(log: Seq<Item>, at: nat, es: Seq<Item>)
    requires
        at <= log.len(),
    ensures
        merged(merged(log, at, es), at, es) == merged(log, at, es),
{
    lemma_redelivered(log, at, es);
    let m = merged(log, at, es);
    let k = redelivered(log, at, es);
    lemma_all_redelivered(log, m, at, es);
}

proof fn lemma_all_redelivered(log: Seq<Item>, m: Seq<Item>, at: nat, es: Seq<Item>)
    requires
        at <= log.len(),
        m == merged(log, at, es),
    ensures
        redelivered(m, at, es) == es.len(),
    decreases es.len(),
{
    lemma_redelivered(log, at, es);
    if es.len() > 0 {
        let k = redelivered(log, at, es);
        let rest = es.skip(1);
        if k > 0 {
            lemma_redelivered(log, at + 1, rest);
            assert(es.skip(k as int) =~= rest.skip(k - 1));
            assert(merged(log, at + 1, rest) == m);
            lemma_all_redelivered(log, m, at + 1, rest);
        } else {
            assert(es.skip(0) =~= es);
            assert(m =~= log.take(at as int) + es);
            lemma_tail_redelivered(log.take(at as int), es);
        }
    }
}

proof fn lemma_tail_redelivered(front: Seq<Item>, es: Seq<Item>)
    ensures
        redelivered(front + es, front.len(), es) == es.len(),
    decreases es.len(),
{
    if es.len() > 0 {
        let all = front + es;
        assert(all[front.len() as int] == es[0]);
        assert(front.push(es[0]) + es.skip(1) =~= all);
        lemma_tail_redelivered(front.push(es[0]), es.skip(1));
    }
}

/// The largest index with a term, found from above: nothing between it and the start has that
/// term.
proof fn lemma_probe_found(log: Seq<Item>, from: nat, t: u64)
    ensures
        probe(log, from, t) <= from,
        probe(log, from, t) <= log.len(),
        probe(log, from, t) > 0 ==> log[probe(log, from, t) - 1].0 == t,
        forall|i: int|
            probe(log, from, t) < i <= from && i <= log.len() ==> (#[trigger] log[i - 1]).0 != t,
    decreases from,
{
    if from > 0 && term_at(log, from) != Some(t) {
        lemma_probe_found(log, (from - 1) as nat, t);
    }
}

/// What is redelivered has the terms that the log has, and what follows it does not.
proof fn lemma_redelivered_is(log: Seq<Item>, at: nat, es: Seq<Item>, k: nat)
    requires
        k <= es.len(),
        k > 0 ==> at + k <= log.len(),
        forall|i: int| 0 <= i < k ==> log[at + i].0 == (#[trigger] es[i]).0,
        k < es.len() ==> at + k >= log.len() || log[(at + k) as int].0 != es[k as int].0,
    ensures
        redelivered(log, at, es) == k,
    decreases es.len(),
{
    if k > 0 {
        let rest = es.skip(1);
        assert(log[at as int].0 == es[0].0);
        let next = at + 1;
        assert forall|i: int| 0 <= i < k - 1 implies log[next + i].0 == (#[trigger] rest[i]).0 by {
            assert(rest[i] == es[i + 1]);
            assert(log[at + (i + 1)].0 == es[i + 1].0);
        }
        lemma_redelivered_is(log, next, rest, (k - 1) as nat);
    }
}

/// An index has a term exactly if the log has an entry there, counting from 1, and it is the term
/// of that entry; the last entry is the one at the length of the log.
pub proof fn law_terms_are_those_of_the_entries(log: Seq<Item>, index: nat, t: u64)
    ensures
        term_at(log, index) == Some(t) <==> 1 <= index <= log.len() && log[index - 1].0 == t,
        log.len() > 0 ==> term_at(log, log.len()) == Some(tip_term(log)),
        log.len() == 0 ==> tip_term(log) == 0,
{
}

/// An append is accepted exactly if the term of its sender is not behind and the node holds the
/// entry that the new ones follow: there is none before them, or the log has one at that index,
/// with that term. A refused append adds no entry and leaves the commit index where it is.
pub proof fn law_an_append_needs_its_predecessor(
    n: NodeState,
    m: NodeState,
    answer: Option<u64>,
    from: NodeId,
    leader_term: u64,
    prev_index: u64,
    prev_term: u64,
    es: Seq<Item>,
    leader_commit: u64,
)
    requires
        (m, answer) == appended(n, from, leader_term, prev_index, prev_term, es, leader_commit),
    ensures
        answer is None <==> leader_term >= n.term && (prev_index == 0 || (prev_index <= n.log.len()
            && n.log[prev_index - 1].0 == prev_term)),
        answer is Some ==> m.commit == n.commit && m.log.len() <= n.log.len() && m.log
            == n.log.take(m.log.len() as int),
{
    if leader_term >= n.term {
        lemma_probe_found(n.log, prev_index as nat, prev_term);
    }
    if answer is Some {
        assert(m.log =~= n.log.take(m.log.len() as int));
    }
}

/// An append from an old term changes nothing at all. From a term that is not behind, the node
/// adopts the term and follows the sender, whether or not the entries fit; its vote is forgotten
/// exactly if the term is new. Only a node that did not hear from the term it leads stays leader.
pub proof fn law_an_append_makes_a_follower(
    n: NodeState,
    m: NodeState,
    answer: Option<u64>,
    from: NodeId,
    leader_term: u64,
    prev_index: u64,
    prev_term: u64,
    es: Seq<Item>,
    leader_commit: u64,
)
    requires
        (m, answer) == appended(n, from, leader_term, prev_index, prev_term, es, leader_commit),
    ensures
        leader_term < n.term ==> m == n && answer is Some,
        leader_term >= n.term ==> m.term == leader_term && m.role == Role::Follower && m.leader_id
            == Some(from),
        leader_term > n.term ==> m.voted_for is None,
        leader_term == n.term ==> m.voted_for == n.voted_for,
        m.role == Role::Leader ==> m == n,
        m.id == n.id && m.peers == n.peers && m.applied == n.applied && m.state == n.state,
        m.next == n.next && m.matched == n.matched,
{
}

/// What a refusal tells the leader. A node in a later term names the index after its log. A node
/// that misses the predecessor drops every entry from the last one at or below it with the
/// predecessor's term, and names the length of what is left.
pub proof fn law_a_refused_append_backs_up(
    n: NodeState,
    m: NodeState,
    answer: Option<u64>,
    from: NodeId,
    leader_term: u64,
    prev_index: u64,
    prev_term: u64,
    es: Seq<Item>,
    leader_commit: u64,
)
    requires
        (m, answer) == appended(n, from, leader_term, prev_index, prev_term, es, leader_commit),
        answer is Some,
        n.log.len() < u64::MAX,
    ensures
        leader_term < n.term ==> answer->0 == n.log.len() + 1,
        leader_term >= n.term ==> answer->0 == m.log.len(),
        leader_term >= n.term ==> forall|i: int|
            m.log.len() + 1 < i <= prev_index && i <= n.log.len() ==> (#[trigger] n.log[i - 1]).0
                != prev_term,
        leader_term >= n.term && m.log.len() > 0 ==> m.log.len() < n.log.len() && m.log.len()
            < prev_index && n.log[m.log.len() as int].0 == prev_term,
{
    if leader_term >= n.term {
        lemma_probe_found(n.log, prev_index as nat, prev_term);
    }
}

/// Where an accepted append puts its entries, if the first `k` of them are there already: if that
/// is all of them, the log stays; else it is cut there, and the others follow. The entries up to
/// the predecessor stay in either case. The commit index follows the leader's as far as the log
/// goes, and never goes back.
pub proof fn law_an_accepted_append_replaces_the_conflict(
    n: NodeState,
    m: NodeState,
    answer: Option<u64>,
    from: NodeId,
    leader_term: u64,
    prev_index: u64,
    prev_term: u64,
    es: Seq<Item>,
    leader_commit: u64,
    k: nat,
)
    requires
        (m, answer) == appended(n, from, leader_term, prev_index, prev_term, es, leader_commit),
        answer is None,
        n.log.len() + es.len() < u64::MAX,
        k <= es.len(),
        k > 0 ==> prev_index + k <= n.log.len(),
        forall|i: int| 0 <= i < k ==> n.log[prev_index + i].0 == (#[trigger] es[i]).0,
        k < es.len() ==> prev_index + k >= n.log.len() || n.log[prev_index + k].0
            != es[k as int].0,
    ensures
        k == es.len() ==> m.log == n.log,
        k < es.len() ==> m.log == n.log.take(prev_index + k) + es.skip(k as int),
        m.log.len() >= prev_index + es.len(),
        forall|i: int| 0 <= i < prev_index ==> #[trigger] m.log[i] == n.log[i],
        m.commit >= n.commit,
        m.commit >= leader_commit || m.commit >= m.log.len(),
        m.commit == n.commit || (m.commit <= leader_commit && m.commit <= m.log.len()),
{
    law_an_append_needs_its_predecessor(
        n,
        m,
        answer,
        from,
        leader_term,
        prev_index,
        prev_term,
        es,
        leader_commit,
    );
    lemma_redelivered(n.log, prev_index as nat, es);
    lemma_redelivered_is(n.log, prev_index as nat, es, k);
}

/// Log matching: if wherever the node and the leader hold entries of the same term at the same
/// index their logs agree up to there, then an accepted append leaves the node's log agreeing
/// with the leader's through the last of the appended entries.
pub proof fn law_an_accepted_append_agrees_with_the_leader(
    n: NodeState,
    m: NodeState,
    answer: Option<u64>,
    from: NodeId,
    leader_term: u64,
    leader: Seq<Item>,
    prev_index: u64,
    prev_term: u64,
    es: Seq<Item>,
    leader_commit: u64,
)
    requires
        (m, answer) == appended(n, from, leader_term, prev_index, prev_term, es, leader_commit),
        answer is None,
        n.log.len() + es.len() < u64::MAX,
        forall|i: int|
            0 <= i < n.log.len() && i < leader.len() && (#[trigger] n.log[i]).0 == leader[i].0
                ==> n.log.take(i + 1) == leader.take(i + 1),
        prev_index + es.len() <= leader.len(),
        es == leader.subrange(prev_index as int, prev_index + es.len()),
        prev_index > 0 ==> prev_term == leader[prev_index - 1].0,
    ensures
        m.log.len() >= prev_index + es.len(),
        m.log.take(prev_index + es.len()) == leader.take(prev_index + es.len()),
{
    law_an_append_needs_its_predecessor(
        n,
        m,
        answer,
        from,
        leader_term,
        prev_index,
        prev_term,
        es,
        leader_commit,
    );
    if prev_index > 0 {
        assert(n.log[prev_index - 1].0 == leader[prev_index - 1].0);
        assert(n.log.take(prev_index as int) == leader.take(prev_index as int));
    } else {
        assert(n.log.take(0) =~= leader.take(0));
    }
    assert forall|i: int|
        0 <= i < n.log.len() && i < leader.len() && (#[trigger] n.log[i]).0
            == leader[i].0 implies n.log[i] == leader[i] by {
        assert(n.log.take(i + 1)[i] == leader.take(i + 1)[i]);
    }
    law_log_matching(n.log, leader, prev_index as nat, (prev_index + es.len()) as nat);
}

/// A vote is granted exactly if the term of the request is not behind, the node has not voted in
/// that term, and the log of the candidate is at least as up to date: it ends in a later term, or
/// in the same one and is not shorter. An empty log counts as ending in term 0.
pub proof fn law_when_a_vote_is_granted(
    n: NodeState,
    m: NodeState,
    granted: bool,
    from: NodeId,
    term: u64,
    last_index: u64,
    last_term: u64,
)
    requires
        (m, granted) == voted(n, from, term, last_index, last_term),
    ensures
        n.log.len() > 0 ==> (granted <==> term >= n.term && (term > n.term || n.voted_for is None)
            && (last_term > n.log[n.log.len() - 1].0 || (last_term == n.log[n.log.len() - 1].0
            && last_index >= n.log.len()))),
        n.log.len() == 0 ==> (granted <==> term >= n.term && (term > n.term
            || n.voted_for is None)),
        granted ==> m.voted_for == Some(from),
        !granted && term > n.term ==> m.voted_for is None,
        !granted && term <= n.term ==> m.voted_for == n.voted_for,
{
}

/// A vote request in a later term makes the node a follower in that term, whatever it was before
/// and whether or not it grants its vote; one that is not later leaves its role and term alone.
/// So a node that leads after a request led before it, in the same term. Nothing but the role, the
/// term and the vote ever changes.
pub proof fn law_a_later_term_makes_a_follower(
    n: NodeState,
    m: NodeState,
    granted: bool,
    from: NodeId,
    term: u64,
    last_index: u64,
    last_term: u64,
)
    requires
        (m, granted) == voted(n, from, term, last_index, last_term),
    ensures
        term > n.term ==> m.term == term && m.role == Role::Follower,
        term <= n.term ==> m.term == n.term && m.role == n.role,
        m.term > n.term ==> m.role == Role::Follower,
        m.role == Role::Leader ==> n.role == Role::Leader && m.term == n.term,
        m.id == n.id && m.peers == n.peers && m.leader_id == n.leader_id && m.log == n.log,
        m.commit == n.commit && m.applied == n.applied && m.state == n.state,
        m.next == n.next && m.matched == n.matched,
{
}

/// A brand-new node grants its vote to whoever asks first, and takes whatever log it is first
/// given, with as much of it committed as the leader says.
pub proof fn law_a_new_node_takes_what_it_is_given(
    id: NodeId,
    peers: Set<NodeId>,
    from: NodeId,
    term: u64,
    last_index: u64,
    last_term: u64,
    es: Seq<Item>,
    leader_commit: u64,
)
    requires
        es.len() < u64::MAX,
    ensures
        voted(fresh(id, peers), from, term, last_index, last_term).1,
        ({
            let (m, answer) = appended(fresh(id, peers), from, term, 0, last_term, es, leader_commit);
            answer is None && m.log == es && m.commit <= leader_commit && m.commit <= es.len() && (
            m.commit == leader_commit || m.commit == es.len()) && m.applied == 0 && m.state.len()
                == 0 && m.id == id && m.peers == peers
        }),
{
    let n = fresh(id, peers);
    let (m, answer) = appended(n, from, term, 0, last_term, es, leader_commit);
    lemma_redelivered_is(n.log, 0, es, 0);
    assert(n.log.take(0) + es.skip(0) =~= es);
    assert(m.log =~= es);
}

/// A node that becomes the leader keeps its term, its vote and its log, expects every member to
/// continue after its own log, and takes nothing to be replicated anywhere.
pub proof fn law_a_new_leader_assumes_nothing(n: NodeState)
    requires
        n.log.len() < u64::MAX,
    ensures
        leading(n).role == Role::Leader,
        forall|k: NodeId| #[trigger] leading(n).next.contains_key(k) <==> n.peers.contains(k),
        forall|k: NodeId| #[trigger] leading(n).matched.contains_key(k) <==> n.peers.contains(k),
        forall|k: NodeId|
            n.peers.contains(k) ==> #[trigger] leading(n).next[k] == n.log.len() + 1,
        forall|k: NodeId| n.peers.contains(k) ==> #[trigger] leading(n).matched[k] == 0,
        leading(n).term == n.term && leading(n).voted_for == n.voted_for && leading(n).log == n.log,
        leading(n).id == n.id && leading(n).peers == n.peers && leading(n).leader_id == n.leader_id,
        leading(n).commit == n.commit && leading(n).applied == n.applied && leading(n).state
            == n.state,
{
}

/// Cutting a log at an index keeps exactly the entries before it.
pub proof fn law_a_cut_keeps_what_is_before(log: Seq<Item>, from: nat)
    ensures
        kept_before(log, from).len() <= log.len(),
        forall|i: int|
            0 <= i < kept_before(log, from).len() ==> #[trigger] kept_before(log, from)[i]
                == log[i],
        kept_before(log, from).len() == log.len() || kept_before(log, from).len() + 1 >= from,
        kept_before(log, from).len() == 0 || kept_before(log, from).len() < from,
{
}

/// A leader advances its commit index to the highest entry of its own term that more than half of
/// the cluster holds, and stays where it is if there is none above.
pub proof fn law_a_leader_commits_what_a_majority_holds(n: NodeState, from: nat, upto: nat)
    requires
        upto <= n.log.len(),
    ensures
        ({
            let b = best_commit(n, from, upto);
            &&& b >= from
            &&& b > from ==> b <= upto && n.log[b - 1].0 == n.term && 2
                * n.matched.dom().filter(|k: NodeId| n.matched[k] >= b).len() > n.peers.len()
            &&& forall|i: int|
                b < i <= upto && (#[trigger] n.log[i - 1]).0 == n.term ==> 2
                    * n.matched.dom().filter(|k: NodeId| n.matched[k] >= i).len() <= n.peers.len()
        }),
    decreases upto,
{
    if upto > from {
        let held = n.matched.dom().filter(|k: NodeId| n.matched[k] >= upto);
        assert(held =~= n.matched.dom().filter(|k: NodeId| n.matched[k] >= upto as int));
        if !committable(n, upto) {
            law_a_leader_commits_what_a_majority_holds(n, from, (upto - 1) as nat);
        }
    }
}

/// The state machine is applied up to the commit index, but not past the log, and never back.
pub proof fn law_only_committed_entries_are_applied(n: NodeState)
    ensures
        apply_target(n) >= n.applied,
        apply_target(n) == n.applied || (apply_target(n) <= n.commit && apply_target(n)
            <= n.log.len()),
        apply_target(n) >= n.commit || apply_target(n) >= n.log.len(),
{
}

pub proof fn lemma_applied_sorted(s: State, log: Seq<Item>, from: nat, to: nat)
    requires
        assoc::sorted(s),
    ensures
        assoc::sorted(applied_upto(s, log, from, to)),
    decreases to,
{
    if to > from {
        lemma_applied_sorted(s, log, from, (to - 1) as nat);
        types::lemma_change_sorted(
            applied_upto(s, log, from, (to - 1) as nat),
            log[to - 1].1,
            to as u64,
        );
    }
}

/// Entries that do not name a key leave it alone.
pub proof fn law_applied_entries_keep_other_keys(
    s: State,
    log: Seq<Item>,
    from: nat,
    to: nat,
    k: Seq<u8>,
)
    requires
        assoc::sorted(s),
        to <= log.len(),
        forall|l: int|
            from < l <= to ==> (match (#[trigger] log[l - 1]).1 {
                Change::Put(x, _) => x != k,
                Change::Delete(x) => x != k,
            }),
    ensures
        assoc::find(applied_upto(s, log, from, to), k) == assoc::find(s, k),
    decreases to,
{
    if to > from {
        law_applied_entries_keep_other_keys(s, log, from, (to - 1) as nat, k);
        lemma_applied_sorted(s, log, from, (to - 1) as nat);
        assert(match log[to - 1].1 {
            Change::Put(x, _) => x != k,
            Change::Delete(x) => x != k,
        });
        types::law_change_is_local(
            applied_upto(s, log, from, (to - 1) as nat),
            log[to - 1].1,
            to as u64,
            k,
        );
    }
}

/// After the entries up to an index are applied, the last one that names a key decides what is
/// found there: a put leaves its value, with the index of the entry as its version unless the
/// value was there before; a delete leaves nothing.
pub proof fn law_the_last_applied_entry_wins(
    s: State,
    log: Seq<Item>,
    from: nat,
    to: nat,
    i: nat,
)
    requires
        assoc::sorted(s),
        from < i <= to <= log.len() <= u64::MAX,
        forall|l: int|
            i < l <= to ==> (match ((#[trigger] log[l - 1]).1, log[i - 1].1) {
                (Change::Put(x, _), Change::Put(k, _)) => x != k,
                (Change::Put(x, _), Change::Delete(k)) => x != k,
                (Change::Delete(x), Change::Put(k, _)) => x != k,
                (Change::Delete(x), Change::Delete(k)) => x != k,
            }),
    ensures
        match log[i - 1].1 {
            Change::Put(k, v) => {
                let before = assoc::find(applied_upto(s, log, from, (i - 1) as nat), k);
                let after = assoc::find(applied_upto(s, log, from, to), k);
                if before matches Some(c) && c.0 == v {
                    after == before
                } else {
                    after == Some((v, i as u64))
                }
            },
            Change::Delete(k) => assoc::find(applied_upto(s, log, from, to), k) is None,
        },
    decreases to,
{
    let t = applied_upto(s, log, from, (to - 1) as nat);
    lemma_applied_sorted(s, log, from, (to - 1) as nat);
    if to == i {
        match log[i - 1].1 {
            Change::Put(k, v) => {
                types::lemma_find_after_put(t, k, v, i as u64);
            },
            Change::Delete(k) => {
                types::law_a_delete_is_final(t, k, i as u64);
            },
        }
    } else {
        law_the_last_applied_entry_wins(s, log, from, (to - 1) as nat, i);
        let last = log[to - 1].1;
        match log[i - 1].1 {
            Change::Put(k, v) => {
                types::law_change_is_local(t, last, to as u64, k);
            },
            Change::Delete(k) => {
                types::law_change_is_local(t, last, to as u64, k);
            },
        }
    }
}

/// The commit index of a leader never goes back.
pub proof fn law_commit_does_not_go_back(n: NodeState, from: nat, upto: nat)
    ensures
        best_commit(n, from, upto) >= from,
        best_commit(n, from, upto) > from ==> committable(n, best_commit(n, from, upto)),
    decreases upto,
{
    if upto > from && !committable(n, upto) {
        law_commit_does_not_go_back(n, from, (upto - 1) as nat);
    }
}

/// A leader commits only what a majority holds: with fewer replicas than a majority at or
/// above every new index, the commit index stays.
pub proof fn law_a_minority_cannot_commit(n: NodeState, from: nat, upto: nat)
    requires
        n.matched.dom().finite(),
        n.matched.dom().filter(|k: NodeId| n.matched[k] >= from + 1).len() < majority(
            n.peers.len(),
        ),
    ensures
        best_commit(n, from, upto) == from,
    decreases upto,
{
    if upto > from {
        let low = n.matched.dom().filter(|k: NodeId| n.matched[k] >= from + 1);
        let high = n.matched.dom().filter(|k: NodeId| n.matched[k] >= upto);
        assert(high.subset_of(low));
        vstd::set_lib::lemma_len_subset(high, low);
        law_a_minority_cannot_commit(n, from, (upto - 1) as nat);
    }
}

} // verus!
