use keystory::checker::{CheckModel, Model};
use keystory::dir::DirImage;
use keystory::engine::{CommitStep, Submission};
use keystory::recovery::RecoveryError;
use keystory::snapshot;
use keystory::wal;
use keystory::{Op, Stats, Store};
use std::sync::Arc;

/// A store over a directory in memory, driven by one thread.
struct Db {
    dir: DirImage,
    store: Store<String>,
}

impl Db {
    fn open_with(mut dir: DirImage, max_seg: u64) -> Result<Db, RecoveryError> {
        let (store, plan) = Store::open_with(&dir, max_seg)?;
        dir.apply_all(&plan);
        Ok(Db { dir, store })
    }

    fn open(mut dir: DirImage) -> Result<Db, RecoveryError> {
        let (store, plan) = Store::open(&dir)?;
        dir.apply_all(&plan);
        Ok(Db { dir, store })
    }

    fn new(max_seg: u64) -> Db {
        Db::open_with(DirImage::new(), max_seg).expect("open store")
    }

    fn reopen(self) -> Db {
        Db::open(self.dir).expect("reopen")
    }

    fn settle(&mut self, ticket: u64) -> u64 {
        loop {
            assert!(self.store.can_advance(ticket));
            match self.store.advance(ticket) {
                CommitStep::Settled(o) => return o.expect("committed"),
                CommitStep::Flush(plan) => {
                    for a in &plan {
                        assert!(self.store.fits(a));
                        self.dir.apply(a);
                        self.store.performed(a);
                    }
                    self.store.settle(Ok(()));
                }
                CommitStep::Wait => panic!("nobody else is flushing"),
            }
        }
    }

    fn put(&mut self, k: impl AsRef<[u8]>, v: impl AsRef<[u8]>) -> u64 {
        let t = self.store.put(k.as_ref(), v.as_ref());
        self.settle(t)
    }

    fn delete(&mut self, k: impl AsRef<[u8]>) -> u64 {
        let t = self.store.delete(k.as_ref());
        self.settle(t)
    }

    fn put_batch(&mut self, ops: Vec<Op>) -> u64 {
        match self.store.put_batch(ops) {
            Submission::Current(i) => i,
            Submission::Queued(t) => self.settle(t),
        }
    }

    fn checkpoint(&mut self) -> u64 {
        assert!(self.store.can_checkpoint());
        let (start, boundary) = self.store.begin_checkpoint().expect("nothing under way");
        for a in &start {
            self.dir.apply(a);
            self.store.performed(a);
        }
        let snap = self.store.pin();
        let kept = snapshot::latest_usable(&self.dir);
        self.dir.apply_all(&snapshot::write(kept, &snap));
        if let Some(prev) = self.store.finish_checkpoint(boundary, kept) {
            let names = wal::list_segments(&self.dir);
            self.dir.apply_all(&wal::remove_segments_before(&names, prev));
        }
        snap.index
    }
}

fn put(k: &str, v: &str) -> Op {
    Op::Put {
        key: k.as_bytes().to_vec(),
        value: v.as_bytes().to_vec(),
    }
}

#[test]
fn put_get_roundtrip() {
    let mut s = Db::new(1 << 20);
    assert!(s.store.get(b"k").is_none());
    assert_eq!(s.put(b"k", b"v"), 1, "first commit is index 1");
    assert_eq!(s.store.get(b"k"), Some(b"v".to_vec()));
    assert_eq!(
        s.store.get_with_index(b"k").unwrap().1,
        1,
        "version = commit index"
    );
    assert_eq!(
        s.store.stats(),
        Stats {
            commits: 1,
            wal_syncs: 1,
            checkpoints: 0
        }
    );
}

#[test]
fn delete_then_get_is_none() {
    let mut s = Db::new(1 << 20);
    s.put(b"k", b"v");
    s.delete(b"k");
    assert!(s.store.get(b"k").is_none(), "deleted key absent");
    assert!(s.store.is_empty(), "store empty after deleting its only key");
}

#[test]
fn scan_returns_prefix_in_order() {
    let mut s = Db::new(1 << 20);
    for k in ["b", "aa", "ab", "ac", "ba"] {
        s.put(k, k);
    }
    let got: Vec<_> = s.store.scan(b"a").into_iter().map(|(k, _)| k).collect();
    assert_eq!(got, vec![b"aa".to_vec(), b"ab".to_vec(), b"ac".to_vec()]);
}

#[test]
fn get_at_reports_snapshot_index() {
    let mut s = Db::new(1 << 20);
    s.put(b"k", b"1");
    s.put(b"k", b"2");
    let (val, snap_idx) = s.store.get_at(b"k");
    assert_eq!(val, Some(b"2".to_vec()));
    assert!(snap_idx >= 2, "read observed a snapshot >= the 2nd commit");
}

#[test]
fn crash_recovery_replays_wal() {
    let mut s = Db::new(1 << 20);
    for i in 0..100 {
        s.put(format!("k{i}"), format!("v{i}"));
    }
    let s2 = s.reopen();
    assert_eq!(s2.store.len(), 100, "all commits survive WAL replay");
    for i in 0..100 {
        assert_eq!(
            s2.store.get(format!("k{i}").as_bytes()),
            Some(format!("v{i}").into_bytes())
        );
    }
}

#[test]
fn crash_recovery_from_snapshot_then_wal_tail() {
    let mut s = Db::new(1 << 20);
    for i in 0..200 {
        s.put(format!("k{i}"), format!("v{i}"));
    }
    assert_eq!(s.checkpoint(), 200, "checkpoint reflects 200 commits");
    for i in 200..250 {
        s.put(format!("k{i}"), format!("v{i}"));
    }
    s.put(b"k10", b"overwritten");
    s.delete(b"k100");

    let s2 = s.reopen().store;
    assert_eq!(s2.len(), 249, "200 + 50 tail - 1 delete");
    for i in 0..200 {
        let k = format!("k{i}");
        if k == "k10" {
            assert_eq!(s2.get(b"k10"), Some(b"overwritten".to_vec()));
        } else if k == "k100" {
            assert!(s2.get(b"k100").is_none(), "deleted in the WAL tail");
        } else {
            assert_eq!(s2.get(k.as_bytes()), Some(format!("v{i}").into_bytes()));
        }
    }
    assert_eq!(s2.get(b"k100"), None, "deleted key must be gone");
    for i in 200..250 {
        assert_eq!(
            s2.get(format!("k{i}").as_bytes()),
            Some(format!("v{i}").into_bytes())
        );
    }
}

#[test]
fn checkpoints_reclaim_wal_one_generation_behind() {
    let mut s = Db::new(1 << 20);
    for i in 0..50 {
        s.put(format!("k{i}"), format!("v{i}"));
    }
    assert_eq!(wal::list_segments(&s.dir).len(), 1);
    s.checkpoint();
    assert_eq!(wal::list_segments(&s.dir).len(), 2);
    for i in 50..60 {
        s.put(format!("k{i}"), b"v");
    }
    s.checkpoint();
    assert!(s.dir.read(&snapshot::previous_file()).is_some());
    assert_eq!(
        wal::list_segments(&s.dir).len(),
        2,
        "the segment covered by the first checkpoint is gone; the one covered by the \
         second is retained for a fall-back"
    );
    let loaded = snapshot::load(&s.dir).unwrap();
    assert_eq!(
        loaded.map(|s| s.len()),
        Some(60),
        "latest snapshot covers 60 keys"
    );
    let fresh = s.reopen().store;
    assert_eq!(fresh.len(), 60, "recovered from snapshot");
    assert_eq!(fresh.stats().checkpoints, 0, "stats are per open");
}

#[test]
fn reopen_without_checkpoint_keeps_wal_data() {
    let mut s = Db::new(1 << 20);
    for i in 0..100 {
        s.put(format!("k{i}"), format!("v{i}"));
    }
    let mut s = s.reopen();
    assert_eq!(s.store.len(), 100, "first reopen replays the WAL");
    s.put(b"k100", b"v100");
    let s = s.reopen();
    assert_eq!(
        s.store.len(),
        101,
        "second reopen still has everything: the log was kept"
    );
    let s = s.reopen();
    assert_eq!(s.store.len(), 101, "and so does the third");
    assert_eq!(s.store.get(b"k42"), Some(b"v42".to_vec()));
    assert_eq!(s.store.get(b"k100"), Some(b"v100".to_vec()));
    assert_eq!(s.store.index(), 101);
}

#[test]
fn open_repairs_torn_tail_then_keeps_appending() {
    let mut s = Db::new(1 << 20);
    for i in 0..3 {
        s.put(format!("k{i}"), b"v");
    }
    let mut dir = s.dir;
    let last = wal::list_segments(&dir).last().expect("a segment exists").clone();
    let mut raw = dir.read(&last).unwrap().clone();
    // A length header claiming 127 bytes, followed by only three: a partial record.
    raw.extend_from_slice(&[0x7F, 0x00, 0x00, 0x00, 0x01, 0x02, 0x03]);
    dir.write(last, raw);
    let mut s = Db::open(dir).expect("open repairs the torn tail");
    assert_eq!(
        s.store.len(),
        3,
        "intact records survive, the torn one is dropped"
    );
    for i in 3..5 {
        s.put(format!("k{i}"), b"v");
    }
    let s = s.reopen();
    assert_eq!(s.store.len(), 5, "records appended after the repair replay too");
    assert_eq!(s.store.index(), 5);
}

#[test]
fn put_batch_is_one_commit() {
    let mut s = Db::new(1 << 20);
    s.put(b"c", b"old");
    let idx = s.put_batch(vec![
        put("a", "1"),
        put("b", "2"),
        Op::Delete { key: b"c".to_vec() },
    ]);
    assert_eq!(idx, 2, "the batch took exactly one index");
    assert_eq!(s.store.index(), 2);
    assert_eq!(s.store.get(b"a"), Some(b"1".to_vec()));
    assert_eq!(s.store.get_with_index(b"b"), Some((b"2".to_vec(), 2)));
    assert_eq!(s.store.get(b"c"), None);
    assert_eq!(s.put_batch(vec![]), 2, "an empty batch is a no-op");
    assert_eq!(s.store.stats().commits, 2);
    let s = s.reopen();
    assert_eq!(s.store.len(), 2);
    assert_eq!(s.store.index(), 2);
    assert_eq!(s.store.get(b"b"), Some(b"2".to_vec()));
}

#[test]
fn torn_batch_record_applies_nothing() {
    let mut s = Db::new(1 << 20);
    s.put(b"a", b"1");
    let seg = wal::list_segments(&s.dir)[0].clone();
    let clean = s.dir.read(&seg).unwrap().len();
    s.put_batch(vec![put("b", "2"), put("c", "3")]);
    let mut dir = s.dir;
    // Chop the batch record in half, as a crash mid-write would.
    let mut raw = dir.read(&seg).unwrap().clone();
    let full = raw.len();
    raw.truncate(clean + (full - clean) / 2);
    dir.write(seg, raw);
    let s = Db::open(dir).expect("torn batch is dropped at open").store;
    assert_eq!(s.get(b"a"), Some(b"1".to_vec()));
    assert_eq!(s.get(b"b"), None, "no half of a batch is applied");
    assert_eq!(s.get(b"c"), None);
    assert_eq!(s.index(), 1);
}

#[test]
fn corrupt_latest_checkpoint_falls_back_to_previous_plus_wal() {
    let mut s = Db::new(1 << 20);
    for i in 0..10 {
        s.put(format!("k{i:02}"), b"1");
    }
    s.checkpoint();
    for i in 10..20 {
        s.put(format!("k{i:02}"), b"2");
    }
    s.checkpoint();
    for i in 20..25 {
        s.put(format!("k{i:02}"), b"3");
    }
    let mut dir = s.dir;
    let latest = snapshot::latest_file();
    let mut bytes = dir.read(&latest).unwrap().clone();
    let mid = bytes.len() / 2;
    bytes[mid] ^= 0xFF;
    dir.write(latest, bytes);

    let s = Db::open(dir).expect("recovers via snap.prev + WAL").store;
    assert_eq!(
        s.len(),
        25,
        "10 from snap.prev, 15 replayed from the retained WAL"
    );
    assert_eq!(s.index(), 25);
    assert_eq!(s.get(b"k15"), Some(b"2".to_vec()));
    assert_eq!(s.get(b"k24"), Some(b"3".to_vec()));
}

#[test]
fn range_scan_is_ordered_and_half_open() {
    let k = |i: u32| -> Vec<u8> {
        let mut v = b"k".to_vec();
        v.extend_from_slice(&i.to_be_bytes());
        v
    };
    let idx_of = |kk: &Vec<u8>| -> u32 {
        let mut n = [0u8; 4];
        n.copy_from_slice(&kk[1..5]);
        u32::from_be_bytes(n)
    };
    let mut s = Db::new(1 << 20);
    for i in 1..=50u32 {
        s.put(k(i), vec![i as u8]);
    }
    let got = s.store.range_scan(&k(20), &k(30));
    let idx: Vec<u32> = got.iter().map(|(kk, _v)| idx_of(kk)).collect();
    assert_eq!(
        idx,
        (20u32..30u32).collect::<Vec<u32>>(),
        "range must be [k20,k30) in ascending order"
    );
    assert!(
        idx.windows(2).all(|w| w[0] < w[1]),
        "output stays ascending"
    );
    assert_eq!(idx.first(), Some(&20u32), "lo inclusive");
    assert_eq!(idx.last(), Some(&29u32), "hi exclusive");
    s.delete(k(25));
    let after = s.store.range_scan(&k(20), &k(30));
    let aidx: Vec<u32> = after.iter().map(|(kk, _v)| idx_of(kk)).collect();
    assert!(!aidx.contains(&25), "a deleted key drops out of the range");
}

#[test]
fn range_scan_is_empty_for_inverted_or_equal_bounds() {
    let mut s = Db::new(1 << 20);
    s.put(b"a", b"1");
    s.put(b"b", b"2");
    assert!(s.store.range_scan(b"b", b"a").is_empty(), "inverted bounds");
    assert!(s.store.range_scan(b"a", b"a").is_empty(), "empty interval");
    assert_eq!(
        s.store.range_scan(b"a", b"b"),
        vec![(b"a".to_vec(), b"1".to_vec())]
    );
}

#[test]
fn range_scan_matches_prefix_scan_after_deletes() {
    let mut s = Db::new(1 << 20);
    for i in 0..100u32 {
        s.put(format!("{i:03}"), vec![i as u8]);
    }
    for i in (0..100u32).step_by(5) {
        s.delete(format!("{i:03}"));
    }
    let via_range = s.store.range_scan(b"000", b"zzz");
    let via_prefix: Vec<(Vec<u8>, Vec<u8>)> = s.store.scan(b"");
    assert_eq!(via_range, via_prefix, "one snapshot, two views");
    let keys: Vec<Vec<u8>> = via_range.iter().map(|(k, _)| k.clone()).collect();
    assert_eq!(keys.len(), 80, "100 minus 20 deleted equals 80 live keys");
    assert!(keys.windows(2).all(|w| w[0] < w[1]), "ascending");
    assert!(
        keys.iter().all(|k| !(0..100u32)
            .step_by(5)
            .any(|j| k == format!("{j:03}").as_bytes())),
        "no deleted key survives"
    );
}

/// Commits that are queued together share one flush, and get one contiguous run of indices.
#[test]
fn queued_commits_share_a_flush() {
    let mut s = Db::new(1 << 20);
    let tickets: Vec<u64> = (0..8u8).map(|i| s.store.put(&[i], &[i])).collect();
    let indices: Vec<u64> = tickets.iter().map(|t| s.settle(*t)).collect();
    assert_eq!(indices, (1..=8).collect::<Vec<u64>>());
    assert_eq!(
        s.store.stats(),
        Stats {
            commits: 8,
            wal_syncs: 1,
            checkpoints: 0
        }
    );
    assert_eq!(s.reopen().store.len(), 8);
}

/// A flush under way, and a checkpoint that holds the store, make everybody else wait.
#[test]
fn one_thing_at_a_time() {
    let mut s = Db::new(1 << 20);
    let a = s.store.put(b"a", b"1");
    let plan = match s.store.advance(a) {
        CommitStep::Flush(plan) => plan,
        other => panic!("expected a flush, got {other:?}"),
    };
    let b = s.store.put(b"b", b"2");
    assert!(matches!(s.store.advance(b), CommitStep::Wait));
    assert!(matches!(s.store.advance(a), CommitStep::Wait));
    assert!(s.store.begin_checkpoint().is_none());
    assert!(s.store.get(b"a").is_none(), "not visible before it is durable");
    for step in &plan {
        s.dir.apply(step);
        s.store.performed(step);
    }
    s.store.settle(Ok(()));
    let (start, _boundary) = s.store.begin_checkpoint().expect("nothing under way");
    assert!(matches!(s.store.advance(b), CommitStep::Wait));
    assert_eq!(start.len(), 1);
    s.dir.apply(&start[0]);
    s.store.performed(&start[0]);
    let snap = s.store.pin();
    assert_eq!(snap.index, 1);
    assert_eq!(s.settle(b), 2);
    assert_eq!(s.settle(a), 1);
    assert_eq!(s.store.term(), 1);
}

/// A flush that fails publishes nothing and tells every commit in it.
#[test]
fn a_failed_flush_publishes_nothing() {
    let mut s = Db::new(1 << 20);
    s.put(b"a", b"1");
    let t = s.store.put(b"a", b"2");
    let u = s.store.put(b"b", b"3");
    assert!(matches!(s.store.advance(t), CommitStep::Flush(_)));
    s.store.settle(Err(Arc::new("disk full".to_string())));
    for ticket in [t, u] {
        match s.store.advance(ticket) {
            CommitStep::Settled(Err(e)) => assert_eq!(e.as_str(), "disk full"),
            other => panic!("expected the error, got {other:?}"),
        }
    }
    assert_eq!(s.store.get(b"a"), Some(b"1".to_vec()));
    assert_eq!(s.store.index(), 1);
    assert_eq!(s.store.stats().commits, 1);
    assert_eq!(s.put(b"b", b"4"), 2, "the store goes on");
}

/// A flush that fails in the middle of its write does not cost later commits: the next flush
/// first cuts off what the failed one left behind.
#[test]
fn commits_after_a_partial_flush_survive() {
    for cut in [0, 1, 7, 30] {
        let mut s = Db::new(1 << 20);
        s.put(b"a", b"1");
        let t = s.store.put(b"b", b"never acknowledged");
        let plan = match s.store.advance(t) {
            CommitStep::Flush(plan) => plan,
            other => panic!("expected a flush, got {other:?}"),
        };
        assert_eq!(plan.len(), 1);
        let seg = wal::list_segments(&s.dir)[0].clone();
        let clean = s.dir.read(&seg).unwrap().clone();
        let mut whole = DirImage::new();
        whole.write(seg.clone(), clean.clone());
        whole.apply(&plan[0]);
        let written = whole.read(&seg).unwrap()[..clean.len() + cut].to_vec();
        s.dir.write(seg.clone(), written);
        s.store.settle(Err(Arc::new("disk full".to_string())));
        assert_eq!(s.put(b"c", b"3"), 2);
        assert_eq!(s.put(b"d", b"4"), 3);
        assert_eq!(s.dir.read(&seg).unwrap(), &clean, "cut to where the log ended");
        let mut s = s.reopen();
        assert_eq!(s.store.index(), 3);
        assert_eq!(s.store.get(b"a"), Some(b"1".to_vec()));
        assert_eq!(s.store.get(b"b"), None);
        assert_eq!(s.store.get(b"c"), Some(b"3".to_vec()));
        assert_eq!(s.store.get(b"d"), Some(b"4".to_vec()));
        assert_eq!(s.put(b"e", b"5"), 4);
    }
}

/// The same where the failed flush got as far as starting a new segment.
#[test]
fn commits_after_a_failed_rotation_survive() {
    for followed in [false, true] {
        let mut s = Db::new(64);
        s.put(b"a", b"1");
        let t = s.store.put(b"b", &[0; 100]);
        let plan = match s.store.advance(t) {
            CommitStep::Flush(plan) => plan,
            other => panic!("expected a flush, got {other:?}"),
        };
        assert_eq!(plan.len(), 2, "a new segment and the write");
        s.dir.apply(&plan[0]);
        if followed {
            s.store.performed(&plan[0]);
        }
        s.store.settle(Err(Arc::new("disk full".to_string())));
        assert_eq!(s.put(b"c", b"3"), 2);
        assert_eq!(s.put(b"d", b"4"), 3);
        let s = s.reopen();
        assert_eq!(s.store.index(), 3);
        assert_eq!(s.store.get(b"b"), None);
        assert_eq!(s.store.get(b"d"), Some(b"4".to_vec()));
    }
}

/// A checkpoint whose segment cannot be started is given up; commits go on.
#[test]
fn an_abandoned_checkpoint_is_made_good() {
    let mut s = Db::new(1 << 20);
    s.put(b"a", b"1");
    let (start, _boundary) = s.store.begin_checkpoint().unwrap();
    s.dir.apply_all(&start);
    s.store.abandon_checkpoint();
    assert_eq!(s.put(b"b", b"2"), 2);
    assert_eq!(s.checkpoint(), 2);
    assert_eq!(s.put(b"c", b"3"), 3);
    let s = s.reopen();
    assert_eq!(s.store.index(), 3);
    assert_eq!(s.store.len(), 3);
}

/// A damaged latest checkpoint is not kept, and the log that the previous one needs stays.
#[test]
fn a_checkpoint_over_a_damaged_one_keeps_the_fallback() {
    let mut s = Db::new(1 << 20);
    for i in 0..3 {
        s.put(format!("k{i}"), b"1");
        s.checkpoint();
    }
    s.put(b"k3", b"1");
    let damage = |dir: &mut DirImage| {
        let latest = snapshot::latest_file();
        let mut bytes = dir.read(&latest).unwrap().clone();
        let mid = bytes.len() / 2;
        bytes[mid] ^= 0xFF;
        dir.write(latest, bytes);
    };
    damage(&mut s.dir);
    assert_eq!(s.checkpoint(), 4);
    s.put(b"k4", b"1");
    damage(&mut s.dir);
    let s = s.reopen();
    assert_eq!(s.store.index(), 5, "from the previous checkpoint and the log");
    assert_eq!(s.store.len(), 5);
}

/// Every crash point of a flush recovers either the state before or the state after.
#[test]
fn a_crash_during_a_flush_is_all_or_nothing() {
    let mut s = Db::new(1 << 20);
    s.put(b"a", b"1");
    let t = s.store.put_batch(vec![put("a", "2"), put("b", "2")]);
    let ticket = match t {
        Submission::Queued(t) => t,
        Submission::Current(_) => panic!("a batch with operations is queued"),
    };
    let plan = match s.store.advance(ticket) {
        CommitStep::Flush(plan) => plan,
        _ => panic!("expected a flush"),
    };
    let seg = wal::list_segments(&s.dir)[0].clone();
    let before = s.dir.read(&seg).unwrap().clone();
    for a in &plan {
        s.dir.apply(a);
    }
    let after = s.dir.read(&seg).unwrap().clone();
    for cut in before.len()..=after.len() {
        let mut dir = DirImage::new();
        dir.write(seg.clone(), after[..cut].to_vec());
        let r = Db::open(dir).expect("recovers").store;
        if cut == after.len() {
            assert_eq!(r.get(b"a"), Some(b"2".to_vec()));
            assert_eq!(r.get(b"b"), Some(b"2".to_vec()));
            assert_eq!(r.index(), 2);
        } else {
            assert_eq!(r.get(b"a"), Some(b"1".to_vec()));
            assert_eq!(r.get(b"b"), None);
            assert_eq!(r.index(), 1);
        }
    }
}

/// A crash between any two steps of a checkpoint loses nothing.
#[test]
fn a_crash_during_a_checkpoint_loses_nothing() {
    for cut in 0..8 {
        let mut s = Db::new(64);
        for i in 0..5 {
            s.put(format!("k{i}"), b"1");
        }
        s.checkpoint();
        for i in 0..5 {
            s.put(format!("k{i}"), b"2");
        }
        let (mut steps, boundary) = s.store.begin_checkpoint().unwrap();
        for a in &steps {
            s.store.performed(a);
        }
        let snap = s.store.pin();
        steps.extend(snapshot::write(true, &snap));
        let mut image = DirImage::new();
        for i in 0..s.dir.len() {
            image.write(s.dir.name_at(i).clone(), s.dir.data_at(i).clone());
        }
        for a in &steps {
            image.apply(a);
        }
        let prev = s.store.finish_checkpoint(boundary, true).unwrap();
        steps.extend(wal::remove_segments_before(&wal::list_segments(&image), prev));
        for a in steps.iter().take(cut) {
            s.dir.apply(a);
        }
        let r = s.reopen().store;
        assert_eq!(r.index(), 10, "after {cut} steps");
        assert_eq!(r.get(b"k3"), Some(b"2".to_vec()));
        assert_eq!(r.len(), 5);
    }
}

/// Damage that recovery cannot make up for is an error, not an empty store.
#[test]
fn unrecoverable_damage_is_reported() {
    let mut dir = DirImage::new();
    dir.write(snapshot::latest_file(), b"garbage that is long enough for a header".to_vec());
    assert!(matches!(Db::open(dir), Err(RecoveryError::Checkpoint(_))));

    let mut s = Db::new(64);
    for i in 0..10 {
        s.put(format!("k{i}"), b"v");
    }
    let first = wal::list_segments(&s.dir)[0].clone();
    let mut raw = s.dir.read(&first).unwrap().clone();
    raw[10] ^= 0xFF;
    s.dir.write(first.clone(), raw);
    match Db::open(s.dir) {
        Err(RecoveryError::Log(c)) => {
            assert_eq!(c.segment, first);
            assert_eq!(c.offset, 0);
            assert!(c.later > 0);
        }
        _ => panic!("damage before later segments is an error"),
    }
}

/// A snapshot is not touched by later commits.
#[test]
fn snapshots_are_immutable() {
    let mut s = Db::new(1 << 20);
    s.put(b"k", b"1");
    let snap = s.store.snapshot();
    s.put(b"k", b"2");
    assert_eq!(snap.get(b"k").unwrap().value.as_slice(), b"1");
    assert_eq!(snap.index, 1);
    assert_eq!(s.store.snapshot().index, 2);
}

/// Reads of any snapshot, old ones too, are consistent with the commits, however they are
/// recorded.
#[test]
fn recorded_reads_are_consistent() {
    let mut s = Db::new(256);
    let mut m = Model::new();
    let mut snaps = vec![s.store.snapshot()];
    let mut late = Vec::new();
    for i in 0..40u8 {
        let key = [b'k', i % 3];
        if i % 7 == 6 {
            let at = s.delete(key);
            m.record_write(at, &key, None);
        } else if i % 5 == 4 {
            let at = s.put_batch(vec![
                Op::Put { key: key.to_vec(), value: vec![i] },
                Op::Put { key: key.to_vec(), value: vec![i, i] },
            ]);
            m.record_write(at, &key, Some(vec![i]));
            m.record_write(at, &key, Some(vec![i, i]));
        } else {
            let at = s.put(key, [i]);
            late.push((at, key, vec![i]));
        }
        snaps.push(s.store.snapshot());
    }
    for (at, key, v) in late.into_iter().rev() {
        m.record_write(at, &key, Some(v));
    }
    for snap in &snaps {
        for k in 0..3u8 {
            let key = [b'k', k];
            m.record_read(snap.index, &key, snap.get(&key).map(|e| e.value.to_vec()));
        }
    }
    let r = m.check();
    assert!(r.violations.is_empty());
    assert_eq!(r.checked, 41 * 3);
}

/// A ticket is settled once, and another commit's flush leaves its outcome alone.
#[test]
fn tickets_are_used_once() {
    let mut s = Db::new(1 << 20);
    let a = s.store.put(b"a", b"1");
    let b = s.store.put(b"b", b"2");
    assert!(matches!(s.store.advance(a), CommitStep::Flush(_)));
    s.store.settle(Err(Arc::new("disk full".to_string())));
    let c = s.store.put(b"c", b"3");
    assert!(a < b && b < c);
    assert_eq!(s.settle(c), 1);
    assert!(matches!(s.store.advance(b), CommitStep::Settled(Err(_))));
    assert!(matches!(s.store.advance(a), CommitStep::Settled(Err(_))));
}

/// What a failed flush left behind recovers as the published state and the first of its commits.
#[test]
fn a_crash_after_a_failed_flush() {
    let mut s = Db::new(1 << 20);
    s.put(b"a", b"1");
    let seg = wal::list_segments(&s.dir)[0].clone();
    let clean = s.dir.read(&seg).unwrap().clone();
    let t = s.store.put(b"b", b"2");
    s.store.put(b"c", b"3");
    let plan = match s.store.advance(t) {
        CommitStep::Flush(plan) => plan,
        other => panic!("expected a flush, got {other:?}"),
    };
    s.dir.apply_all(&plan);
    let full = s.dir.read(&seg).unwrap().clone();
    s.store.settle(Err(Arc::new("sync failed".to_string())));
    let mut seen = Vec::new();
    for cut in clean.len()..=full.len() {
        let mut dir = DirImage::new();
        dir.write(seg.clone(), full[..cut].to_vec());
        let r = Db::open(dir).expect("recovers").store;
        assert_eq!(r.get(b"a"), Some(b"1".to_vec()));
        assert_eq!(r.get(b"b").is_some(), r.index() >= 2);
        assert_eq!(r.get(b"c").is_some(), r.index() >= 3);
        seen.push(r.index());
    }
    seen.dedup();
    assert_eq!(seen, vec![1, 2, 3]);
}

/// The boundary that a checkpoint gives back is that of the one it keeps as the previous.
#[test]
fn boundaries_belong_to_the_kept_checkpoint() {
    let mut s = Db::new(1 << 20);
    let mut drawn = Vec::new();
    for i in 0..4u8 {
        s.put([i], b"v");
        let (start, boundary) = s.store.begin_checkpoint().unwrap();
        for a in &start {
            s.dir.apply(a);
            s.store.performed(a);
        }
        let snap = s.store.pin();
        let kept = snapshot::latest_usable(&s.dir);
        s.dir.apply_all(&snapshot::write(kept, &snap));
        let prev = s.store.finish_checkpoint(boundary, kept);
        assert_eq!(prev, drawn.last().copied());
        drawn.push(boundary);
    }
    assert_eq!(drawn, vec![2, 3, 4, 5]);
    assert_eq!(s.store.finish_checkpoint(6, false), None, "nothing was kept");
}
