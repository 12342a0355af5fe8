use keystory::checker::{CheckModel, Model};
use keystory::raft::{ClusterError, RaftCluster, Role};

/// A 3-node cluster elects a leader, replicates a batch, and every node converges.
#[test]
fn election_then_replication_converges() {
    let mut c = RaftCluster::new(3);
    for i in 0..50u64 {
        c.put(&[b'k', i as u8], &[i as u8])
            .expect("commits on a live quorum");
    }
    for i in 0..50u64 {
        assert_eq!(c.get(&[b'k', i as u8]).unwrap(), Some(vec![i as u8]));
    }
    assert_eq!(c.leader(), Some(0));
}

/// Kill the leader; a new leader takes over and all committed writes still apply.
#[test]
fn failover_does_not_lose_a_committed_write() {
    let mut c = RaftCluster::new(3);
    for i in 0..30u64 {
        c.put(&[b'a'], &[i as u8]).expect("commit before failover");
    }
    c.fail(0); // kill node 0 (the current leader).
    for i in 30..60 {
        c.put(&[b'a'], &[i as u8]).expect("commit after failover");
    }
    assert_eq!(c.get(&[b'a']).unwrap(), Some(vec![59]));
}

/// A minority (below quorum) cannot make progress.
#[test]
fn minority_partition_cannot_either_elect_or_commit() {
    let mut c = RaftCluster::new(3);
    c.put(&[b'a'], &[1]).expect("seed");
    c.fail(0);
    c.fail(1);
    assert_eq!(
        c.put(&[b'a'], &[99]),
        Err(ClusterError::NoLeader),
        "a minority cannot commit"
    );
    c.fail(2);
    assert_eq!(c.put(&[b'a'], &[42]), Err(ClusterError::NoLeader));
    c.revive(0);
    c.revive(1); // 2 of 3 => a quorum, so writes resume
    assert!(c.put(&[b'a'], &[7]).is_ok());
    assert_eq!(c.get(&[b'a']).unwrap(), Some(vec![7]));
}

/// A revived follower that missed writes is caught up by the next read.
#[test]
fn get_after_revive_catches_the_node_up() {
    let mut c = RaftCluster::new(3);
    c.put(b"a", b"1").expect("seed");
    let leader = c.leader().expect("a leader");
    let follower = (0..3u64).find(|&id| id != leader).unwrap();
    c.fail(follower);
    c.put(b"a", b"2").expect("2 of 3 commit");
    c.revive(follower);
    assert_eq!(
        c.get(b"a").unwrap(),
        Some(b"2".to_vec()),
        "revived node caught up"
    );
    assert_eq!(c.leader(), Some(leader), "the leader did not change");
    assert_eq!(c.node(follower).unwrap().get(b"a"), Some(b"2".to_vec()));
}

/// A leader stays leader across writes: no election runs while a live leader exists.
#[test]
fn leader_is_sticky_across_writes() {
    let mut c = RaftCluster::new(3);
    c.put(b"a", b"1").unwrap();
    let first = c.leader().unwrap();
    for i in 0..20u8 {
        c.put(b"a", &[i]).unwrap();
        assert_eq!(c.leader(), Some(first), "no re-election on write {i}");
    }
    assert_eq!(c.node(first).unwrap().term, 1, "one election, term stays 1");
}

/// Elections without writes in between raise the term past the log's length; the next leader is
/// still found, and is the one with the complete log.
#[test]
fn elections_outnumbering_writes_still_succeed() {
    let mut c = RaftCluster::new(3);
    for round in 0..10u8 {
        for id in 0..3u64 {
            c.fail(id);
            assert!(c.get(b"k").is_ok(), "round {round}");
            c.revive(id);
        }
    }
    assert_eq!(c.put(b"k", b"v"), Ok(1));
    for id in 0..3u64 {
        c.fail(id);
        assert_eq!(c.get(b"k"), Ok(Some(b"v".to_vec())));
        c.revive(id);
    }
}

/// Indices count every committed change; a delete is one of them.
#[test]
fn indices_and_deletes() {
    let mut c = RaftCluster::default();
    assert!(c.has_room());
    assert_eq!(c.put(b"a", b"1"), Ok(1));
    assert_eq!(c.delete(b"a"), Ok(2));
    assert_eq!(c.delete(b"a"), Ok(3));
    assert_eq!(c.get(b"a"), Ok(None));
    for id in 0..3 {
        let n = c.node(id).unwrap();
        assert_eq!((n.log.last_index(), n.commit_idx, n.applied), (3, 3, 3));
    }
    assert!(c.node(3).is_none());
    assert_eq!(c.node(0).unwrap().role, Role::Leader);
}

#[test]
fn scans_are_ordered_and_need_a_quorum() {
    let mut c = RaftCluster::new(5);
    for k in [&b"b"[..], b"aa", b"ab", b"ba", b"ac"] {
        c.put(k, k).unwrap();
    }
    c.delete(b"ab").unwrap();
    assert_eq!(
        c.scan(b"a"),
        Ok(vec![
            (b"aa".to_vec(), b"aa".to_vec()),
            (b"ac".to_vec(), b"ac".to_vec())
        ])
    );
    c.fail(0);
    c.fail(1);
    assert_eq!(c.scan(b"").unwrap().len(), 4);
    c.fail(2);
    assert_eq!(c.scan(b""), Err(ClusterError::NoLeader));
    assert_eq!(c.leader(), None);
}

/// A cluster without nodes has no majority.
#[test]
fn an_empty_cluster_serves_nothing() {
    let mut c = RaftCluster::new(0);
    assert_eq!(c.put(b"a", b"1"), Err(ClusterError::NoLeader));
    assert_eq!(c.get(b"a"), Err(ClusterError::NoLeader));
}

/// The disjoint half of a split cluster cannot commit what the other half does not know.
#[test]
fn no_split_brain() {
    let mut c = RaftCluster::new(5);
    c.put(b"k", b"1").unwrap();
    c.fail(3);
    c.fail(4);
    c.put(b"k", b"2").unwrap();
    c.revive(3);
    c.revive(4);
    c.fail(0);
    c.fail(1);
    c.fail(2);
    assert_eq!(c.put(b"k", b"3"), Err(ClusterError::NoLeader));
    c.revive(2);
    assert_eq!(c.get(b"k"), Ok(Some(b"2".to_vec())), "the one that knows leads");
    assert_eq!(c.leader(), Some(2));
    assert_eq!(c.put(b"k", b"4"), Ok(3));
}

/// What a cluster records passes the check, across failovers, deletes and refused calls.
#[test]
fn recorded_histories_pass() {
    let mut c = RaftCluster::with_model(3, Model::new());
    for i in 0..30u64 {
        let k = [b'k', (i % 4) as u8];
        if i % 5 == 4 {
            c.delete(&k).unwrap();
        } else {
            c.put(&k, &i.to_le_bytes()).unwrap();
        }
        c.get(&k).unwrap();
        c.get(&[b'k', ((i + 1) % 4) as u8]).unwrap();
        if i % 7 == 0 {
            let l = c.leader().unwrap();
            c.fail(l);
            c.get(&k).unwrap();
            c.fail((l + 1) % 3);
            assert!(c.get(&k).is_err());
            c.revive(l);
            c.revive((l + 1) % 3);
        }
    }
    let r = c.model().unwrap().check();
    assert!(r.violations.is_empty());
    assert_eq!(r.checked, 65);
    assert!(RaftCluster::new(1).model().is_none());
}
