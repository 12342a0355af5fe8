use keystory::checker::{CheckModel, Model};
use keystory::raft::{ClusterError, RaftCluster};

const KEYS: u64 = 40;
const WRITES: u64 = 50;

fn key(n: u64) -> Vec<u8> {
    format!("k{n}").into_bytes()
}

fn value(n: u64, i: u64) -> Vec<u8> {
    format!("w{n}_{i}").into_bytes()
}

#[test]
fn three_nodes_converge_on_writes_and_reads() {
    let mut c = RaftCluster::new(3);
    for i in 0..WRITES {
        for n in 0..KEYS {
            assert!(
                c.put(&key(n), &value(n, i)).is_ok(),
                "put on a healthy 3-node cluster commits"
            );
        }
    }
    for n in 0..KEYS {
        let v = c.get(&key(n)).expect("read on a live cluster");
        assert_eq!(v, Some(value(n, WRITES - 1)), "every node converged on the last write");
    }
    assert!(c.leader().is_some(), "a healthy cluster has a leader");
}

#[test]
fn failover_preserves_committed_state() {
    let mut c = RaftCluster::with_model(3, Model::new());

    for i in 0..WRITES {
        for n in 0..KEYS {
            c.put(&key(n), &value(n, i)).expect("a healthy majority commits on a live quorum");
        }
        // Kill the leader exactly once, mid-workload; the next op re-elects and continues.
        if i == WRITES / 2 {
            let l = c.leader().expect("there is a leader");
            c.fail(l);
        }
    }

    for n in 0..KEYS {
        let v = c.get(&key(n)).expect("read after failover");
        assert_eq!(v, Some(value(n, WRITES - 1)), "no committed update lost across failover");
    }

    let r = c.model().unwrap().check();
    assert_eq!(
        r.violations.len(),
        0,
        "failover must not break linearisability; got {} violations",
        r.violations.len()
    );
    assert!(r.checked > 0, "we recorded reads to validate");
}

#[test]
fn minority_partition_cannot_commit() {
    let mut c = RaftCluster::new(3);

    for i in 0..10 {
        c.put(&key(0), &value(0, i)).expect("healthy commit");
    }
    assert_eq!(c.get(&key(0)).unwrap(), Some(value(0, 9)));

    // Kill the leader and one follower, leaving a lone (minority) node.
    let leader = c.leader().expect("a leader exists");
    let followers: Vec<_> = (0..3u64).filter(|&id| id != leader).collect();
    assert_eq!(followers.len(), 2);
    c.fail(followers[0]);
    c.fail(leader);

    assert_eq!(
        c.put(&key(99), &value(99, 0)),
        Err(ClusterError::NoLeader),
        "a minority cannot commit"
    );

    match c.get(&key(99)) {
        Ok(Some(_)) => panic!("split-brain: a minority served a value it could not commit"),
        Ok(None) => {}
        Err(_) => {}
    }

    c.revive(followers[0]);
    c.revive(followers[1]);
    assert!(c.put(&key(99), &value(99, 7)).is_ok(), "after healing, a majority commits");
    assert_eq!(c.get(&key(99)).unwrap(), Some(value(99, 7)), "healed cluster converged");
    assert_eq!(c.get(&key(0)).unwrap(), Some(value(0, 9)), "prior committed state preserved");
}
