use keystory::raft::{Log, LogEntry, Node, NodeId, Role};
use keystory::Op;
use std::collections::BTreeSet;

/// Build `n` fresh nodes numbered `0..n`, all peers of one another.
fn nodes(n: usize) -> Vec<Node> {
    let peers: BTreeSet<NodeId> = (0..n as u64).collect();
    (0..n as u64).map(|i| Node::new(i, peers.clone())).collect()
}

fn put(k: &[u8], v: &[u8]) -> Op {
    Op::Put {
        key: k.to_vec(),
        value: v.to_vec(),
    }
}

#[test]
fn single_node_elects_commits_and_applies() {
    let mut ns = nodes(1);
    ns[0].start_election();
    ns[0].become_leader();
    assert_eq!(ns[0].quorum(), 1);

    let idx = ns[0].propose(Op::Put {
        key: b"k".to_vec(),
        value: b"v".to_vec(),
    });
    assert_eq!(idx, 1, "first entry is log index 1");
    ns[0].apply_committed();
    assert_eq!(ns[0].kv_len(), 0, "nothing applied until committed");

    ns[0].advance_commit();
    assert_eq!(ns[0].commit_idx, 1, "single member = its own quorum");
    let n = ns[0].apply_committed();
    assert_eq!(n, 1, "one entry applied");
    assert_eq!(ns[0].get(b"k"), Some(b"v".to_vec()));
}

#[test]
fn three_node_election_grants_quorum_and_one_voter_per_term() {
    let mut ns = nodes(3);
    ns[2].start_election();
    assert_eq!(ns[2].term, 1, "first election is term 1");
    assert!(ns[2].voted_for == Some(2));
    assert!(ns[0].request_vote(2, 1, 0, 0), "peer 0 grants");
    assert!(ns[1].request_vote(2, 1, 0, 0), "peer 1 grants");
    assert_eq!(ns[0].term, 1, "peers adopt the candidate's term");
    assert!(!ns[1].request_vote(0, 1, 0, 0), "node 1 keeps its vote for 2");
    assert!(ns[2].voted_for == Some(2));
}

#[test]
fn stale_log_cannot_win_even_at_a_higher_term() {
    let mut ns = nodes(3);
    ns[1].start_election();
    ns[1].become_leader();
    ns[1].propose(Op::Delete { key: b"x".to_vec() });
    ns[1].advance_commit();
    let stale = ns[1].request_vote(0, 2, 0, 0);
    assert!(
        !stale,
        "a node with an older log cannot win an election even at a higher term"
    );
}

#[test]
fn log_mismatch_is_corrected() {
    let mut follower = Node::new(1, BTreeSet::from([0u64, 1]));
    follower.log.append(&[LogEntry::new(1, Op::Delete { key: b"y".to_vec() })]);
    let reply = follower.append_entries(0, 2, 1, 9, &[], 0);
    assert_eq!(
        reply,
        Some(0),
        "mismatch => leader should resume from index 0"
    );
    assert_eq!(
        follower.log.last_index(), 0, "the divergent entry was truncated");

    assert_eq!(follower.role, Role::Follower, "it now follows the newer leader");
}

#[test]
fn three_node_replication_reaches_quorum_commit() {
    let mut ns = nodes(3);
    ns[0].start_election();
    ns[0].become_leader();
    assert_eq!(ns[0].quorum(), 2, "quorum of 3 = 2");

    let idx = ns[0].propose(Op::Put {
        key: b"k".to_vec(),
        value: b"v".to_vec(),
    });
    for p in [1u64, 2] {
        let id = ns[0].id;
        let term = ns[0].term;
        let entries = ns[0].log.get(idx).cloned().into_iter().collect::<Vec<_>>();
        let prev_term = ns[0].log.term_of(idx - 1).unwrap_or(0);
        let res = ns[p as usize].append_entries(id, term, idx - 1, prev_term, &entries, 0);
        assert!(res.is_none(), "the peer accepted the contiguous append");
        ns[0].match_idx.insert(p, idx);
    }

    ns[0].advance_commit();
    assert_eq!(ns[0].commit_idx, 1, "committed once 2 of 3 hold it");
    for p in [1u64, 2] {
        let li = ns[0].id;
        let lterm = ns[0].term;
        let lci = ns[0].commit_idx;
        let res = ns[p as usize].append_entries(li, lterm, idx, lterm, &[], lci);
        assert!(res.is_none(), "the peer advanced its commit index");
    }
    for n in &mut ns {
        n.apply_committed();
    }
    for n in &ns {
        assert_eq!(
            n.get(b"k"),
            Some(b"v".to_vec()),
            "all nodes converged on the committed value"
        );
    }
}

#[test]
fn committed_entries_apply_in_order_across_a_failover() {
    let mut ns = nodes(3);
    ns[1].start_election();
    ns[1].become_leader();
    ns[1].propose(Op::Put {
        key: b"a".to_vec(),
        value: b"1".to_vec(),
    });
    let i2 = ns[1].propose(Op::Put {
        key: b"b".to_vec(),
        value: b"2".to_vec(),
    });
    ns[1].match_idx.insert(2, i2); // stand-in: peer 2 replicated both entries.
    ns[1].advance_commit();
    assert_eq!(ns[1].commit_idx, i2, "both entries committed to a majority");
    ns[1].apply_committed();

    let mut fresh = Node::new(2, ns[1].peers.clone());
    fresh.log = ns[1].log.clone();
    fresh.term = ns[1].term;
    fresh.commit_idx = ns[1].commit_idx;
    fresh.apply_committed();
    assert_eq!(fresh.get(b"a"), Some(b"1".to_vec()));
    assert_eq!(fresh.get(b"b"), Some(b"2".to_vec()));
    assert_eq!(fresh.applied, ns[1].commit_idx);
}

/// The vote of a term survives an append of the same term.
#[test]
fn an_append_keeps_the_vote() {
    let mut n = nodes(3).remove(1);
    assert!(n.request_vote(2, 5, 0, 0));
    assert_eq!(n.append_entries(2, 5, 0, 0, &[], 0), None);
    assert_eq!(n.voted_for, Some(2));
    assert!(!n.request_vote(0, 5, 9, 9));
    assert_eq!(n.append_entries(0, 6, 0, 0, &[], 0), None);
    assert_eq!(n.voted_for, None);
}

/// A redelivered append changes nothing; a conflicting one replaces what conflicts.
#[test]
fn redelivery_and_conflict() {
    let mut n = nodes(3).remove(1);
    let es = [
        LogEntry::new(1, put(b"a", b"1")),
        LogEntry::new(1, put(b"b", b"2")),
        LogEntry::new(1, put(b"c", b"3")),
    ];
    assert_eq!(n.append_entries(0, 1, 0, 0, &es, 0), None);
    assert_eq!(n.append_entries(0, 1, 0, 0, &es[..1], 0), None);
    assert_eq!(n.log.last_index(), 3, "an old append does not cut the log");
    let other = [LogEntry::new(2, put(b"z", b"9"))];
    assert_eq!(n.append_entries(2, 2, 1, 1, &other, 0), None);
    assert_eq!(n.log.last_index(), 2);
    assert_eq!(n.log.term_of(2), Some(2));
    assert_eq!(n.log.get(1), Some(&es[0]));
}

/// An append of an older term is refused, with the index after the log.
#[test]
fn a_stale_leader_is_refused() {
    let mut n = nodes(3).remove(1);
    n.log.append(&[LogEntry::new(1, put(b"a", b"1"))]);
    n.term = 4;
    assert_eq!(n.append_entries(0, 3, 0, 0, &[], 0), Some(2));
    assert_eq!(n.term, 4);
    assert!(!n.request_vote(0, 3, 9, 9));
}

/// An entry of an earlier term is not committed by counting.
#[test]
fn only_the_own_term_commits() {
    let mut n = nodes(3).remove(0);
    n.start_election();
    n.become_leader();
    let i = n.propose(put(b"a", b"1"));
    n.start_election();
    n.become_leader();
    n.match_idx.insert(0, i);
    n.match_idx.insert(1, i);
    n.advance_commit();
    assert_eq!(n.commit_idx, 0);
    let j = n.propose(put(b"b", b"2"));
    n.match_idx.insert(1, j);
    n.advance_commit();
    assert_eq!(n.commit_idx, j, "and takes the earlier one along");
    assert_eq!(n.apply_committed(), 2);
}

/// The commit index never runs past what a node holds.
#[test]
fn commits_stop_at_the_log() {
    let mut n = nodes(3).remove(1);
    let es = [LogEntry::new(1, put(b"a", b"1"))];
    assert_eq!(n.append_entries(0, 1, 0, 0, &es, 10), None);
    assert_eq!(n.commit_idx, 1);
    assert_eq!(n.append_entries(0, 1, 1, 1, &[], 0), None);
    assert_eq!(n.commit_idx, 1, "and does not go back");
}

#[test]
fn log_basics() {
    let mut l = Log::new();
    assert!(l.is_empty());
    assert_eq!((l.last_index(), l.last_term()), (0, 0));
    let es = [LogEntry::new(1, put(b"a", b"1")), LogEntry::new(3, put(b"b", b"2"))];
    assert_eq!(l.append(&es), vec![1, 2]);
    assert_eq!(l.append(&es[..1]), vec![3]);
    assert_eq!((l.len(), l.last_term()), (3, 1));
    assert!(l.get(0).is_none());
    assert!(l.get(4).is_none());
    l.truncate_from(2);
    assert_eq!(l.last_index(), 1);
    l.truncate_from(0);
    assert!(l.is_empty());
    assert_eq!(Log::default(), l);
}

/// A copy of a node goes its own way.
#[test]
fn a_cloned_node_is_independent() {
    let mut ns = nodes(1);
    ns[0].start_election();
    ns[0].become_leader();
    let mut copy = ns[0].clone();
    assert_eq!(copy.propose(put(b"k", b"v")), 1);
    assert_eq!(copy.log.last_index(), 1);
    assert_eq!(ns[0].log.last_index(), 0);
    assert_eq!(ns[0].role, Role::Leader);
}
