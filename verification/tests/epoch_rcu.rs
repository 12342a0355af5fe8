use keystory::epoch_rcu::{EpochManager, Rcu};
use std::sync::atomic::{AtomicBool, Ordering};
use std::sync::Arc;

/// A version that records its own drop.
struct Version {
    _id: u32,
    dropped: Arc<AtomicBool>,
}

impl Drop for Version {
    fn drop(&mut self) {
        self.dropped.store(true, Ordering::SeqCst);
    }
}

#[test]
fn deferred_not_freed_while_reader_active() {
    let mut rc = Rcu::new(0u32);
    let r1 = rc._mgr().enter_raw(); // reader R1 at epoch 0
    rc.publish(1); // v0 (id 0) retired, ep = 1
    assert_eq!(rc.pending(), 1, "v0 deferred, not yet reclaimable");
    assert_eq!(rc.reclaim(), 0, "grace must not elapse while R1 (entry 0 < ep 1) is active");
    assert_eq!(rc.pending(), 1, "still pending: R1's epoch blocks the grace period");
    rc._mgr().exit_raw(r1); // R1 exits -> quiescent
    assert_eq!(rc.reclaim(), 1, "grace elapses once R1 has exited");
    assert_eq!(rc.pending(), 0, "v0 reclaimed");
}

#[test]
fn later_reader_does_not_block_earlier_retiree() {
    let mut rc = Rcu::new(0u32);
    rc.publish(1); // retiree ep = 1 (no one active yet)
    let r = rc._mgr().enter_raw();
    assert_eq!(rc.reclaim(), 1, "reader entered at/after ep may be ignored for ep-1 retiree");
    rc._mgr().exit_raw(r);
}

#[test]
fn reclaims_when_quiescent() {
    let mut rc = Rcu::new(0u32);
    rc.publish(1);
    assert_eq!(rc.pending(), 1);
    assert_eq!(rc.reclaim(), 1, "free immediately when no reader is active");
    assert_eq!(rc.pending(), 0);
}

#[test]
fn clone_released_then_version_drops() {
    let flag = Arc::new(AtomicBool::new(false));
    let mut rc = Rcu::new(Version { _id: 0, dropped: flag.clone() });
    {
        let (g, _v0) = rc.snapshot(); // pins v0
        rc.publish(Version { _id: 1, dropped: Arc::new(AtomicBool::new(false)) });
        assert_eq!(rc.reclaim(), 0, "v0 cannot be reclaimed while _v0/_g live");
        rc.exit(g);
    }
    assert!(!flag.load(Ordering::SeqCst), "v0 still queued until reclaimed");
    assert_eq!(rc.reclaim(), 1, "v0 reclaimable once no refs remain");
    assert!(flag.load(Ordering::SeqCst), "v0 Drop fired after reclamation");
}

#[test]
fn all_readers_must_quiesce() {
    let mut rc = Rcu::new(0u32);
    let r1 = rc._mgr().enter_raw();
    let r2 = rc._mgr().enter_raw();
    rc.publish(1);
    assert_eq!(rc.reclaim(), 0, "defer while either reader is active");
    rc._mgr().exit_raw(r1);
    assert_eq!(rc.reclaim(), 0, "r2 still active -> defer");
    rc._mgr().exit_raw(r2);
    assert_eq!(rc.reclaim(), 1, "all gone -> free");
}

/// A reader blocks only what was retired after it entered.
#[test]
fn a_reader_blocks_only_later_retirees() {
    let mut m: EpochManager<u32> = EpochManager::new();
    assert_eq!(m.epoch(), 0);
    assert_eq!(m.retire(Arc::new(1)), 1);
    let r = m.enter();
    assert_eq!(m.retire(Arc::new(2)), 2);
    assert_eq!(m.pending(), 2);
    assert_eq!(m.reclaim(), 1);
    assert_eq!(m.pending(), 1);
    m.exit(r);
    assert_eq!(m.reclaim(), 1);
    assert_eq!(m.pending(), 0);
    let d: EpochManager<u32> = EpochManager::default();
    assert_eq!(d.pending(), 0);
}

/// A snapshot keeps the version it was taken from.
#[test]
fn snapshots_are_stable() {
    let mut rc = Rcu::new(1u32);
    let (g, v) = rc.snapshot();
    rc.publish(2);
    assert_eq!(*v, 1);
    let (h, w) = rc.snapshot();
    assert_eq!(*w, 2);
    rc.exit(g);
    rc.exit(h);
    assert_eq!(rc.reclaim(), 1);
}
