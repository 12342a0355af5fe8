use keystory::rcu::RcuSwap;
use std::sync::Arc;

#[test]
fn load_returns_initial_value() {
    let s = RcuSwap::new(42u64);
    assert_eq!(*s.load(), 42);
}

#[test]
fn store_updates_and_returns_previous() {
    let mut s = RcuSwap::new(1u64);
    let prev = s.store(Arc::new(2));
    assert_eq!(*prev, 1);
    assert_eq!(*s.load(), 2);
}

#[test]
fn reader_snapshot_is_isolated_from_later_stores() {
    let mut s = RcuSwap::new([0u8; 16]);
    let snap = s.load(); // frozen reader view
    s.store(Arc::new([7u8; 16]));
    s.store(Arc::new([9u8; 16]));
    assert_eq!(*snap, [0u8; 16], "frozen reader snapshot must be stable across stores");
    assert_eq!(*s.load(), [9u8; 16], "a fresh loader observes the latest value");
}

#[test]
fn no_leak_of_replaced_values() {
    let mut s = RcuSwap::new(vec![1u8; 32]);
    for i in 0..1000u64 {
        let _ = s.store(Arc::new(vec![i as u8; 32]));
    }
    assert_eq!(s.live_clones(), 1, "only the current value should be referenced once");
}

/// Every handle that was loaded is counted until it is dropped, and all of them share the value.
#[test]
fn handles_share_the_value() {
    let s = RcuSwap::new(vec![1u8, 2, 3]);
    let a = s.load();
    let b = s.load();
    assert!(Arc::ptr_eq(&a, &b));
    assert_eq!(s.live_clones(), 3);
    drop(a);
    assert_eq!(s.live_clones(), 2);
    assert_eq!(s.current(), &vec![1u8, 2, 3]);
}
