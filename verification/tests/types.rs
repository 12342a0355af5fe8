use keystory::types::{apply_ops, copy_ops, share_map, KvMap};
use keystory::{Entry, Op, Shared, Snapshot};
use std::sync::Arc;

fn put(k: &[u8], v: &[u8]) -> Op {
    Op::Put {
        key: k.to_vec(),
        value: v.to_vec(),
    }
}

#[test]
fn put_overwrite_changes_state() {
    let mut m = KvMap::new();
    put(b"k", b"a").apply(&mut m, 1);
    assert!(put(b"k", b"b").apply(&mut m, 2));
    let e = m.get(b"k".as_slice()).unwrap();
    assert_eq!(e.value.as_slice(), b"b");
    assert_eq!(e.version, 2);
}

#[test]
fn idempotent_put_same_value_is_noop() {
    let mut m = KvMap::new();
    put(b"k", b"a").apply(&mut m, 1);
    assert!(!put(b"k", b"a").apply(&mut m, 2));
    assert_eq!(
        m.get(b"k".as_slice()).unwrap().version,
        1,
        "an idempotent put does not bump the version"
    );
}

#[test]
fn delete_missing_is_noop() {
    let mut m = KvMap::new();
    assert!(!Op::Delete { key: b"k".to_vec() }.apply(&mut m, 1));
    put(b"k", b"v").apply(&mut m, 1);
    assert!(Op::Delete { key: b"k".to_vec() }.apply(&mut m, 2));
    assert!(!Op::Delete { key: b"k".to_vec() }.apply(&mut m, 3));
    assert!(m.is_empty());
}

#[test]
fn cloned_maps_share_bytes() {
    let mut s = Snapshot::empty();
    put(b"k", b"a-fairly-long-value").apply(&mut s.data, 1);
    let copy = s.data.clone();
    let (k1, e1) = (s.data.key_at(0), s.data.value_at(0));
    let (k2, e2) = (copy.key_at(0), copy.value_at(0));
    assert!(Arc::ptr_eq(k1, k2), "keys are shared");
    assert!(Arc::ptr_eq(&e1.value, &e2.value), "values are shared");
    let again = share_map(&copy);
    assert!(Arc::ptr_eq(k1, again.key_at(0)));
}

#[test]
fn scan_prefix_is_ordered() {
    let mut s = Snapshot::empty();
    for k in [b"ab", b"aa", b"ba", b"ac"] {
        put(k, k).apply(&mut s.data, 1);
    }
    let got: Vec<Vec<u8>> = s
        .scan_prefix(b"a")
        .into_iter()
        .map(|(k, _)| k.to_vec())
        .collect();
    assert_eq!(got, [b"aa".to_vec(), b"ab".to_vec(), b"ac".to_vec()]);
}

#[test]
fn range_is_half_open_and_ordered() {
    let mut s = Snapshot::empty();
    for k in [b"d", b"b", b"a", b"c"] {
        put(k, k).apply(&mut s.data, 1);
    }
    let keys =
        |v: Vec<(Shared, Entry)>| v.into_iter().map(|(k, _)| k.to_vec()).collect::<Vec<_>>();
    assert_eq!(
        keys(s.range(b"b", b"d")),
        vec![b"b".to_vec(), b"c".to_vec()]
    );
    assert_eq!(keys(s.range(b"a", b"zz")).len(), 4, "hi past the end");
    assert!(s.range(b"c", b"c").is_empty(), "empty interval");
    assert!(
        s.range(b"d", b"a").is_empty(),
        "inverted bounds do not panic"
    );
}

/// Prefixes at the edges: the empty one, one past every key, one with the highest byte.
#[test]
fn prefix_edges() {
    let mut s = Snapshot::empty();
    for k in [&b""[..], b"\xff", b"\xff\xff", b"a"] {
        put(k, b"v").apply(&mut s.data, 1);
    }
    assert_eq!(s.scan_prefix(b"").len(), 4);
    assert_eq!(s.scan_prefix(b"\xff").len(), 2);
    assert!(s.scan_prefix(b"\xff\xff\xff").is_empty());
    assert_eq!(s.len(), 4);
    assert!(!s.is_empty());
    assert_eq!(s.get(b"a").unwrap().version, 1);
    assert!(s.get(b"b").is_none());
}

/// Several operations at one index apply in order.
#[test]
fn operations_apply_in_order() {
    let mut m = KvMap::new();
    let ops = vec![
        put(b"a", b"1"),
        put(b"a", b"2"),
        put(b"b", b"3"),
        Op::Delete { key: b"b".to_vec() },
    ];
    apply_ops(&copy_ops(&ops), &mut m, 7);
    assert_eq!(m.len(), 1);
    assert_eq!(m.get(b"a").unwrap().value.as_slice(), b"2");
    assert_eq!(m.get(b"a").unwrap().version, 7);
    assert_eq!(ops[0].clone(), put(b"a", b"1"));
}

/// The map under the state: replacing, removing, and looking up by position.
#[test]
fn ordered_map() {
    let mut m: KvMap = KvMap::new();
    let e = |v: &[u8]| Entry {
        value: Arc::new(v.to_vec()),
        version: 1,
    };
    assert!(m.insert(Arc::new(b"b".to_vec()), e(b"1")).is_none());
    assert!(m.insert(Arc::new(b"a".to_vec()), e(b"2")).is_none());
    assert_eq!(m.insert(Arc::new(b"b".to_vec()), e(b"3")).unwrap().value.as_slice(), b"1");
    assert_eq!(m.rank(b"b"), 1);
    assert_eq!(m.rank(b"aa"), 1);
    assert!(m.contains_key(b"a"));
    assert_eq!(m.remove(b"a").unwrap().value.as_slice(), b"2");
    assert!(m.remove(b"a").is_none());
    assert_eq!(m.key_at(0).as_slice(), b"b");
}
