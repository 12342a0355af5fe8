use keystory::checker::{observed_keys, CheckModel, Model, ReadRec};

#[test]
fn consistent_history_passes() {
    let mut m = Model::new();
    m.record_write(1, b"k", Some(b"v1".to_vec()));
    m.record_write(2, b"k", Some(b"v2".to_vec()));
    m.record_write(3, b"k", None); // delete
    m.record_read(1, b"k", Some(b"v1".to_vec())); // reads v1 at snapshot 1
    m.record_read(2, b"k", Some(b"v2".to_vec())); // reads v2
    m.record_read(3, b"k", None); // absent (deleted by index 3)
    m.record_read(0, b"k", None); // before any write: absent
    assert!(m.check().violations.is_empty());
}

#[test]
fn a_stale_but_valid_read_passes() {
    let mut m = Model::new();
    m.record_write(1, b"k", Some(b"v1".to_vec()));
    m.record_write(2, b"k", Some(b"v2".to_vec()));
    m.record_write(3, b"k", Some(b"v3".to_vec()));
    m.record_read(1, b"k", Some(b"v1".to_vec()));
    m.record_read(3, b"k", Some(b"v3".to_vec()));
    assert!(m.check().violations.is_empty());
}

#[test]
fn an_inconsistent_read_is_caught() {
    let mut m = Model::new();
    m.record_write(1, b"k", Some(b"v1".to_vec()));
    m.record_write(2, b"k", Some(b"v2".to_vec()));
    m.record_read(2, b"k", Some(b"vBROKEN".to_vec()));
    assert_eq!(m.check().violations.len(), 1, "the bad read must be flagged");
}

#[test]
fn delete_then_reread_reflects_absence() {
    let mut m = Model::new();
    m.record_write(1, b"k", Some(b"v1".to_vec()));
    m.record_write(2, b"k", None);
    m.record_read(1, b"k", Some(b"v1".to_vec())); // v1 at index 1
    m.record_read(2, b"k", None); // absent at index 2
    m.record_read(3, b"k", None); // still absent (no newer write)
    assert!(m.check().violations.is_empty());
}

/// Writers may record out of order; only the index counts.
#[test]
fn recording_order_does_not_matter() {
    let mut m = Model::new();
    m.record_write(3, b"k", Some(b"v3".to_vec()));
    m.record_write(1, b"k", Some(b"v1".to_vec()));
    m.record_write(2, b"k", Some(b"v2".to_vec()));
    m.record_read(3, b"k", Some(b"v3".to_vec()));
    m.record_read(2, b"k", Some(b"v2".to_vec()));
    m.record_read(9, b"other", None);
    let r = m.check();
    assert!(r.violations.is_empty());
    assert_eq!(r.checked, 3);
}

/// A violation names the read and what it should have observed.
#[test]
fn violations_say_what_was_expected() {
    let mut m = Model::default();
    m.record_write(5, b"k", Some(b"new".to_vec()));
    m.record_read(4, b"k", Some(b"new".to_vec()));
    m.record_read(5, b"k", None);
    let r = m.check();
    assert_eq!(
        r.violations,
        vec![
            (
                ReadRec {
                    read_index: 4,
                    key: b"k".to_vec(),
                    value: Some(b"new".to_vec())
                },
                None
            ),
            (
                ReadRec {
                    read_index: 5,
                    key: b"k".to_vec(),
                    value: None
                },
                Some(b"new".to_vec())
            ),
        ]
    );
    assert_eq!(r.clone().checked, 2);
}

#[test]
fn observed_keys_are_distinct_and_sorted() {
    let keys = vec![
        b"b".to_vec(),
        b"a".to_vec(),
        b"ab".to_vec(),
        b"b".to_vec(),
        vec![],
    ];
    assert_eq!(
        observed_keys(&keys),
        vec![vec![], b"a".to_vec(), b"ab".to_vec(), b"b".to_vec()]
    );
    assert!(observed_keys(&[]).is_empty());
}
