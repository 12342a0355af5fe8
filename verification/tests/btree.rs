use keystory::btree_page::{live_file, parse_document, temp_file};
use keystory::btree_store::{commit, commit_document, open, tree_document, BTree, DocumentError};
use keystory::dir::{DirImage, FileAction};
use std::collections::BTreeMap;

fn key(i: u64) -> Vec<u8> {
    (i + 1).to_le_bytes().to_vec()
}

/// Stable, ordered, big-endian numeric keys.
fn ordered(i: u64) -> Vec<u8> {
    let mut k = vec![0x55u8];
    k.extend_from_slice(&i.to_be_bytes());
    k
}

#[test]
fn leaf_splits_and_scan() {
    let mut t = BTree::new();
    let keys: Vec<Vec<u8>> = (0..300).map(key).collect();
    for (i, k) in keys.iter().enumerate() {
        t.insert(k.clone(), vec![i as u8, (i / 10) as u8]);
        assert!(t.assert_balanced());
    }
    assert_eq!(t.len(), 300, "expected 300 keys");
    for (i, k) in keys.iter().enumerate() {
        assert_eq!(
            t.get(k),
            Some(vec![i as u8, (i / 10) as u8]),
            "lookup key {i}"
        );
    }
    let all = t.scan(|_| true);
    assert_eq!(all.len(), 300);
    for w in all.windows(2) {
        assert!(w[0].0 < w[1].0, "scan not ascending");
    }
    assert!(t.assert_balanced());
}

#[test]
fn persist_and_recover() {
    let mut dir = DirImage::new();
    let keys: Vec<Vec<u8>> = (0..150).map(key).collect();
    {
        let mut t = BTree::new();
        for (i, k) in keys.iter().enumerate() {
            t.insert(k.clone(), vec![b'v', i as u8]);
        }
        dir.apply_all(&commit(&t));
        assert!(dir.read(b"btree.dat").is_some());
    }
    let t2 = open(dir.read(b"btree.dat")).expect("reopen after clean commit");
    assert_eq!(t2.len(), 150, "recovered tree lost data");
    for (i, k) in keys.iter().enumerate() {
        assert_eq!(t2.get(k), Some(vec![b'v', i as u8]), "recovered key {i}");
    }
    assert!(t2.assert_balanced());
}

#[test]
fn corrupt_document_rejected() {
    let mut dir = DirImage::new();
    let mut t = BTree::new();
    for i in 0..50 {
        t.insert(key(i), vec![b'x']);
    }
    let doc = tree_document(&t);
    dir.apply_all(&commit_document(doc.clone()));
    let mut raw = dir.read(b"btree.dat").unwrap().clone();
    raw[doc.len() / 2] ^= 0x80;
    dir.write(b"btree.dat".to_vec(), raw);
    assert!(
        open(dir.read(b"btree.dat")).is_err(),
        "corrupt document must be rejected on open"
    );
}

#[test]
fn empty_round_trips() {
    let mut dir = DirImage::new();
    let t = BTree::new();
    dir.apply_all(&commit(&t));
    let t2 = open(dir.read(b"btree.dat")).unwrap();
    assert!(t2.is_empty());
}

#[test]
fn in_order_matches_btreemap() {
    let mut t = BTree::new();
    let mut expected = BTreeMap::new();
    for i in 0..500u64 {
        let k = key(i);
        let v = vec![i as u8, (i / 100) as u8];
        t.insert(k.clone(), v.clone());
        expected.insert(k, v);
        assert!(t.assert_balanced());
    }
    let got: BTreeMap<Vec<u8>, Vec<u8>> = t.to_sorted_map().into_iter().collect();
    assert_eq!(got, expected);
    assert_eq!(
        t.to_sorted_map(),
        expected.into_iter().collect::<Vec<_>>(),
        "already in order"
    );
}

#[test]
fn one_key_get() {
    let mut t = BTree::new();
    t.insert(b"abc".to_vec(), b"1".to_vec());
    t.insert(b"def".to_vec(), b"2".to_vec());
    assert_eq!(t.get(b"abc"), Some(b"1".to_vec()));
    assert_eq!(t.get(b"def"), Some(b"2".to_vec()));
    assert_eq!(t.get(b"xyz"), None);
}

#[test]
fn deleted_key_vanishes_and_lookups_stay_valid() {
    let k = ordered;
    let mut b = BTree::new();
    for i in 0..200u64 {
        b.insert(k(i), u32::try_from(i).unwrap().to_le_bytes().to_vec());
    }
    let mut gone = 0usize;
    for i in 0..200u64 {
        if i % 7 == 0 {
            assert!(b.delete(k(i).as_slice()), "delete not-found for a live key");
            assert_eq!(b.get(k(i).as_slice()), None, "a deleted key is still found");
            gone += 1;
        }
    }
    assert!(
        !b.delete(k(99999).as_slice()),
        "deleting an absent key is a no-op"
    );
    assert_eq!(b.len(), 200 - gone, "len must shrink by the number deleted");
    assert_eq!(b.get(k(1).as_slice()), Some(1u32.to_le_bytes().to_vec()));
}

#[test]
fn range_query_is_ordered_and_bounded() {
    let k = ordered;
    let mut b = BTree::new();
    for i in 0..200u64 {
        b.insert(k(i), u32::try_from(i).unwrap().to_le_bytes().to_vec());
    }
    b.delete(k(52).as_slice());
    let got = b.range(k(50).as_slice(), k(57).as_slice());
    let got_idx: Vec<u64> = got
        .iter()
        .map(|(k, _)| u64::from_be_bytes(k[1..].try_into().unwrap()))
        .collect();
    assert_eq!(
        got_idx,
        vec![50, 51, 53, 54, 55, 56],
        "range excludes the deleted key and the hi bound"
    );
    assert!(
        got_idx.windows(2).all(|w| w[0] < w[1]),
        "range output must be ascending"
    );
}

/// Overwriting keeps one entry per key; inserting after deleting everything works.
#[test]
fn overwrites_and_reinsertions() {
    let mut t = BTree::new();
    for round in 0..3u8 {
        for i in 0..60 {
            t.insert(ordered(i), vec![round]);
        }
    }
    assert_eq!(t.len(), 60);
    assert_eq!(t.get(&ordered(59)), Some(vec![2]));
    for i in 0..60 {
        assert!(t.delete(&ordered(i)));
    }
    assert!(t.is_empty());
    assert_eq!(t.get(&ordered(3)), None);
    for i in (0..60).rev() {
        t.insert(ordered(i), vec![9]);
    }
    assert_eq!(t.len(), 60);
    assert_eq!(t.to_sorted_map()[0].0, ordered(0));
    let copy = t.clone();
    t.delete(&ordered(0));
    assert_eq!(copy.len(), 60);
    assert_eq!(t.len(), 59);
    assert!(BTree::default().is_empty());
}

#[test]
fn inverted_and_empty_ranges() {
    let mut t = BTree::new();
    for i in 0..20 {
        t.insert(ordered(i), vec![]);
    }
    assert!(t.range(&ordered(9), &ordered(9)).is_empty());
    assert!(t.range(&ordered(9), &ordered(3)).is_empty());
    assert_eq!(t.range(&[], &[0xff]).len(), 20);
}

/// A scan keeps what its predicate accepts.
#[test]
fn scan_filters() {
    let mut t = BTree::new();
    for i in 0..50 {
        t.insert(ordered(i), vec![i as u8]);
    }
    let even = t.scan(|e| e.1[0] % 2 == 0);
    assert_eq!(even.len(), 25);
    assert_eq!(even[1].1, vec![2]);
}

/// Every way a document can be bad has its own error.
#[test]
fn document_errors() {
    let doc = tree_document(&BTree::new());
    assert_eq!(parse_document(&doc[..3]).unwrap_err(), DocumentError::TooShort);
    let mut wrong = doc.clone();
    wrong[0] ^= 1;
    assert_eq!(parse_document(&wrong).unwrap_err(), DocumentError::BadMagic);
    let mut flipped = doc.clone();
    let n = flipped.len();
    flipped[n - 1] ^= 1;
    assert_eq!(
        parse_document(&flipped).unwrap_err(),
        DocumentError::CrcMismatch
    );
    // A frame with a valid checksum around a tag that no node has.
    let body = vec![7u8, 0, 0, 0, 0];
    let mut odd = doc[..4].to_vec();
    odd.extend_from_slice(&body);
    odd.extend_from_slice(&keystory::crc::crc32(&body).to_le_bytes());
    assert_eq!(
        parse_document(&odd).unwrap_err(),
        DocumentError::Undecodable
    );
    assert!(DocumentError::CrcMismatch.message().len() > 0);
}

/// Without a document there is an empty tree; a commit goes through a temporary file.
#[test]
fn commits_replace_atomically() {
    assert!(open(None).unwrap().is_empty());
    let mut t = BTree::new();
    t.insert(b"a".to_vec(), b"1".to_vec());
    let plan = commit(&t);
    assert_eq!(plan.len(), 2);
    assert_eq!(
        plan[1],
        FileAction::Rename {
            from: temp_file(),
            to: live_file()
        }
    );
    let mut dir = DirImage::new();
    dir.apply_all(&commit(&BTree::new()));
    dir.apply(&plan[0]);
    assert!(open(dir.read(&live_file())).unwrap().is_empty(), "the old tree until the rename");
    dir.apply(&plan[1]);
    assert_eq!(open(dir.read(&live_file())).unwrap().get(b"a"), Some(b"1".to_vec()));
    assert!(dir.read(&temp_file()).is_none());
}

fn frame(body: Vec<u8>) -> Vec<u8> {
    let mut out = 0x4254_5252u32.to_le_bytes().to_vec();
    let sum = keystory::crc::crc32(&body);
    out.extend_from_slice(&body);
    out.extend_from_slice(&sum.to_le_bytes());
    out
}

fn blob(out: &mut Vec<u8>, b: &[u8]) {
    out.extend_from_slice(&(b.len() as u32).to_le_bytes());
    out.extend_from_slice(b);
}

fn leaf_page(keys: &[u8]) -> Vec<u8> {
    let mut body = vec![0u8];
    body.extend_from_slice(&(keys.len() as u32).to_le_bytes());
    for k in keys {
        blob(&mut body, &[*k]);
        blob(&mut body, b"v");
    }
    frame(body)
}

fn inner_page(keys: &[u8], children: &[Vec<u8>]) -> Vec<u8> {
    let mut body = vec![1u8];
    body.extend_from_slice(&(keys.len() as u32).to_le_bytes());
    for k in keys {
        blob(&mut body, &[*k]);
    }
    body.extend_from_slice(&(children.len() as u32).to_le_bytes());
    for c in children {
        body.extend_from_slice(&(c.len() as u64).to_le_bytes());
        body.extend_from_slice(c);
    }
    frame(body)
}

/// The exact document of a leaf, of a root that has just split, and of one after a delete that
/// leaves a leaf underfull.
#[test]
fn shapes_and_documents() {
    let mut t = BTree::new();
    for k in 0..4u8 {
        t.insert(vec![k], b"v".to_vec());
    }
    assert_eq!(tree_document(&t), frame(leaf_page(&[0, 1, 2, 3])));
    t.insert(vec![4], b"v".to_vec());
    assert_eq!(
        tree_document(&t),
        frame(inner_page(&[2], &[leaf_page(&[0, 1]), leaf_page(&[2, 3, 4])]))
    );
    t.insert(vec![5], b"v".to_vec());
    t.insert(vec![6], b"v".to_vec());
    let three = [leaf_page(&[0, 1]), leaf_page(&[2, 3]), leaf_page(&[4, 5, 6])];
    assert_eq!(tree_document(&t), frame(inner_page(&[2, 4], &three)));
    assert!(t.delete(&[3]));
    let three = [leaf_page(&[0, 1]), leaf_page(&[2]), leaf_page(&[4, 5, 6])];
    assert_eq!(tree_document(&t), frame(inner_page(&[2, 4], &three)));
    assert!(!t.assert_balanced());
}

/// A document holds whatever nodes it holds: nothing asks for their order when it is loaded.
#[test]
fn nodes_out_of_order_load() {
    let doc = frame(leaf_page(&[3, 1, 2]));
    let t = parse_document(&doc).expect("a checksummed page");
    assert!(!t.is_search_tree());
    assert!(!t.assert_balanced());
    assert_eq!(t.len(), 3);
    let walk: Vec<u8> = t.scan(|_| true).iter().map(|e| e.0[0]).collect();
    assert_eq!(walk, vec![3, 1, 2], "left to right");
    let part: Vec<u8> = t.range(&[2], &[9]).iter().map(|e| e.0[0]).collect();
    assert_eq!(part, vec![3, 2]);
    assert_eq!(t.get(&[1]), Some(b"v".to_vec()), "a leaf is searched from the front");
    let sorted: Vec<u8> = t.to_sorted_map().iter().map(|e| e.0[0]).collect();
    assert_eq!(sorted, vec![1, 2, 3]);
    assert_eq!(tree_document(&t), doc, "and it is written back as it was");

    // Separators that route away from where the entries are.
    let doc = frame(inner_page(&[5], &[leaf_page(&[7]), leaf_page(&[1])]));
    let mut t = open(Some(&doc)).expect("a checksummed page");
    assert!(!t.is_search_tree());
    assert_eq!(t.len(), 2);
    assert_eq!(t.get(&[7]), None, "routed to the right child");
    assert!(!t.delete(&[1]), "routed to the left child");
    t.insert(vec![6], b"v".to_vec());
    let doc = frame(inner_page(&[5], &[leaf_page(&[7]), leaf_page(&[1, 6])]));
    assert_eq!(tree_document(&t), doc);
    assert!(BTree::new().is_search_tree());
}

/// A tree that grew from an empty one stays a search tree, and loads back as it was.
#[test]
fn grown_trees_are_search_trees() {
    let mut t = BTree::new();
    for i in 0..80 {
        t.insert(ordered((i * 37) % 80), vec![i as u8]);
        assert!(t.is_search_tree());
    }
    for i in 0..30 {
        assert!(t.delete(&ordered(i)));
        assert!(t.is_search_tree());
    }
    let back = open(Some(&tree_document(&t))).unwrap();
    assert_eq!(back.scan(|_| true), t.scan(|_| true));
    assert_eq!(tree_document(&back), tree_document(&t));
}
