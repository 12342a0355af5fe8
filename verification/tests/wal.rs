use keystory::crc::crc32;
use keystory::dir::{DirImage, FileAction};
use keystory::wal::{
    decode_payload, encode_payload, list_segments, parse_segment, remove_segments_before, replay,
    segment_file, PayloadError, Record, Wal,
};
use keystory::wal_record::{encode_records, scan_segment};
use keystory::Op;

fn recs_clean(dir: &DirImage) -> Vec<Record> {
    let (r, tail) = replay(dir).expect("replay");
    assert!(tail.is_none(), "clean log must not report a torn tail");
    r
}

fn open(dir: &mut DirImage, max: u64) -> Wal {
    let (w, plan) = Wal::open(dir, max);
    dir.apply_all(&plan);
    w
}

fn append(w: &mut Wal, dir: &mut DirImage, r: &Record) {
    for a in &w.append(r) {
        assert!(w.fits(a));
        dir.apply(a);
        w.performed(a);
    }
}

fn put(index: u64, key: &[u8], value: &[u8]) -> Record {
    Record {
        term: 1,
        index,
        ops: vec![Op::Put {
            key: key.to_vec(),
            value: value.to_vec(),
        }],
    }
}

fn delete(index: u64, key: &[u8]) -> Record {
    Record {
        term: 1,
        index,
        ops: vec![Op::Delete { key: key.to_vec() }],
    }
}

fn append_junk(dir: &mut DirImage, seg: &[u8]) {
    let mut raw = dir.read(seg).unwrap().clone();
    // A plausible length header (0xFF) followed by far fewer bytes than it claims.
    raw.extend_from_slice(&[0xFF, 0x00, 0x00, 0x00, 0x01, 0x00]);
    dir.write(seg.to_vec(), raw);
}

fn only_segment(d: &DirImage) -> Vec<u8> {
    let segs = list_segments(d);
    assert_eq!(segs.len(), 1, "expected exactly one segment, got {segs:?}");
    segs[0].clone()
}

#[test]
fn roundtrip_put_and_delete() {
    let mut d = DirImage::new();
    let mut w = open(&mut d, 4096);
    append(&mut w, &mut d, &put(1, b"a", b"1"));
    append(&mut w, &mut d, &delete(2, b"a"));
    append(&mut w, &mut d, &put(3, b"z", b"\x00\x01\xff"));
    let got = recs_clean(&d);
    assert_eq!(got.len(), 3);
    assert_eq!(got[0], put(1, b"a", b"1"));
    assert_eq!(got[1], delete(2, b"a"));
    assert_eq!(got[2], put(3, b"z", b"\x00\x01\xff"));
}

#[test]
fn torn_tail_is_dropped_cleanly() {
    let mut d = DirImage::new();
    let mut w = open(&mut d, 1024);
    append(&mut w, &mut d, &put(1, b"k", b"v"));
    let seg = only_segment(&d);
    let clean_len = d.read(&seg).unwrap().len() as u64;
    append_junk(&mut d, &seg);
    let (got, dropped) = replay(&d).unwrap();
    assert_eq!(got.len(), 1, "only the durable record survives");
    let torn = dropped.expect("a torn tail must be detected");
    assert_eq!(torn.segment, seg);
    assert_eq!(
        torn.offset, clean_len,
        "the tail starts where the intact records end"
    );
}

#[test]
fn open_repairs_torn_tail_and_resumes_the_segment() {
    let mut d = DirImage::new();
    {
        let mut w = open(&mut d, 4096);
        append(&mut w, &mut d, &put(1, b"a", b"1"));
    }
    let seg = only_segment(&d);
    let clean_len = d.read(&seg).unwrap().len();
    append_junk(&mut d, &seg);
    {
        let mut w = open(&mut d, 4096);
        assert_eq!(
            d.read(&seg).unwrap().len(),
            clean_len,
            "open truncates the torn tail"
        );
        append(&mut w, &mut d, &put(2, b"b", b"2"));
    }
    assert_eq!(
        only_segment(&d),
        seg,
        "the same segment was resumed, not a new one"
    );
    let got = recs_clean(&d);
    assert_eq!(got, vec![put(1, b"a", b"1"), put(2, b"b", b"2")]);
}

#[test]
fn corruption_before_a_later_segment_is_an_error() {
    let mut d = DirImage::new();
    let mut w = open(&mut d, 64); // tiny threshold forces rotation
    for i in 0..10u64 {
        append(&mut w, &mut d, &put(i + 1, format!("k{i}").as_bytes(), b"v"));
    }
    let segs = list_segments(&d);
    assert!(segs.len() >= 2, "expected rotation");
    let mut bytes = d.read(&segs[0]).unwrap().clone();
    bytes[10] ^= 0xFF; // flip a byte inside the first record's payload
    d.write(segs[0].clone(), bytes);
    let err = replay(&d).expect_err("corruption followed by later segments is an error");
    assert_eq!(err.segment, segs[0]);
    assert_eq!(err.offset, 0);
    assert_eq!(err.later, segs.len() - 1);
}

#[test]
fn rotation_and_replay_order() {
    let mut d = DirImage::new();
    let mut w = open(&mut d, 64); // tiny threshold forces rotation
    for i in 0..50u64 {
        append(&mut w, &mut d, &put(i + 1, format!("k{i}").as_bytes(), &i.to_le_bytes()));
    }
    let got = recs_clean(&d);
    assert_eq!(got.len(), 50);
    for (i, r) in got.iter().enumerate() {
        assert_eq!(r.index, (i + 1) as u64);
    }
    assert!(list_segments(&d).len() >= 2, "expected rotation");
}

#[test]
fn crc_detects_bit_flip() {
    // A flipped byte in a committed record's body must fail its crc guard.
    let good = put(42, b"key", b"value");
    let payload = encode_payload(&good);
    assert_eq!(crc32(&payload), crc32(&payload));
    let mut bad = payload.clone();
    bad[4] ^= 0xFF; // flip a term byte
    assert_ne!(crc32(&payload), crc32(&bad));
}

/// The exact bytes of a put, a delete and a batch.
#[test]
fn payload_layout() {
    let mut want = vec![1u8];
    want.extend_from_slice(&1u64.to_le_bytes());
    want.extend_from_slice(&7u64.to_le_bytes());
    want.extend_from_slice(&[1, 0, 0, 0, b'k', 2, 0, 0, 0, b'v', b'w']);
    assert_eq!(encode_payload(&put(7, b"k", b"vw")), want);
    for r in [
        put(7, b"k", b"vw"),
        delete(8, b"gone"),
        Record {
            term: 3,
            index: 9,
            ops: vec![
                Op::Put {
                    key: vec![],
                    value: vec![],
                },
                Op::Delete { key: b"x".to_vec() },
            ],
        },
    ] {
        assert_eq!(decode_payload(&encode_payload(&r)).unwrap(), r);
    }
}

/// Every way a payload can end early, and a tag that no record has.
#[test]
fn payload_errors() {
    let p = encode_payload(&put(7, b"key", b"value"));
    assert_eq!(decode_payload(&[]).unwrap_err(), PayloadError::Empty);
    assert_eq!(decode_payload(&p[..5]).unwrap_err(), PayloadError::Term);
    assert_eq!(decode_payload(&p[..12]).unwrap_err(), PayloadError::Index);
    assert_eq!(decode_payload(&p[..19]).unwrap_err(), PayloadError::KeyLen);
    assert_eq!(decode_payload(&p[..22]).unwrap_err(), PayloadError::KeyBody);
    assert_eq!(decode_payload(&p[..26]).unwrap_err(), PayloadError::ValueLen);
    assert_eq!(decode_payload(&p[..30]).unwrap_err(), PayloadError::ValueBody);
    let mut odd = p.clone();
    odd[0] = 9;
    assert_eq!(decode_payload(&odd).unwrap_err(), PayloadError::BadTag);
    let mut batch = p[..17].to_vec();
    batch[0] = 3;
    assert_eq!(decode_payload(&batch).unwrap_err(), PayloadError::Count);
}

/// A segment of records scans back, and stops at the first byte that is not a record.
#[test]
fn segments_scan_back() {
    let recs = vec![put(1, b"a", b"1"), delete(2, b"a")];
    let mut data = encode_records(&recs);
    let clean = data.len() as u64;
    let (got, tail) = scan_segment(&data);
    assert_eq!(got, recs);
    assert_eq!(tail, None);
    data.push(1);
    let (got, tail) = scan_segment(&data);
    assert_eq!(got, recs);
    assert_eq!(tail, Some(clean));
}

#[test]
fn segment_names() {
    assert_eq!(parse_segment(&segment_file(7)), Some(7));
    assert_eq!(parse_segment(&segment_file(u32::MAX)), Some(u32::MAX));
    assert_eq!(parse_segment(b"snapshot"), None);
    assert!(segment_file(9) < segment_file(10));
    assert!(segment_file(99) < segment_file(100));
}

/// Rotation keeps the log, and removing segments drops only what lies below the boundary.
#[test]
fn rotation_and_removal() {
    let mut d = DirImage::new();
    let mut w = open(&mut d, 4096);
    append(&mut w, &mut d, &put(1, b"a", b"1"));
    let (start, boundary) = w.rotate_segment();
    assert_eq!(start.len(), 1);
    d.apply(&start[0]);
    w.performed(&start[0]);
    assert_eq!(boundary, 2);
    assert_eq!(w.current(), 2);
    append(&mut w, &mut d, &put(2, b"b", b"2"));
    assert_eq!(recs_clean(&d).len(), 2);
    d.apply_all(&remove_segments_before(&list_segments(&d), boundary));
    assert_eq!(recs_clean(&d), vec![put(2, b"b", b"2")]);
}

/// Emptying the log leaves one new segment.
#[test]
fn truncating_everything() {
    let mut d = DirImage::new();
    let mut w = open(&mut d, 64);
    for i in 0..10 {
        append(&mut w, &mut d, &put(i + 1, b"k", b"v"));
    }
    let names = list_segments(&d);
    let plan = w.truncate_all(&names);
    for a in &plan {
        d.apply(a);
        w.performed(a);
    }
    assert!(recs_clean(&d).is_empty());
    assert_eq!(list_segments(&d).len(), 1);
    append(&mut w, &mut d, &put(11, b"k", b"v"));
    assert_eq!(recs_clean(&d).len(), 1);
}

/// Several records are one write.
#[test]
fn appending_many_is_one_write() {
    let mut d = DirImage::new();
    let mut w = open(&mut d, 4096);
    let recs = vec![put(1, b"a", b"1"), put(2, b"b", b"2"), delete(3, b"a")];
    let plan = w.append_many(&recs);
    assert_eq!(plan.len(), 1);
    assert!(matches!(plan[0], FileAction::Append { .. }));
    d.apply_all(&plan);
    w.performed(&plan[0]);
    assert_eq!(recs_clean(&d), recs);
}

/// Every prefix of a log reads as a prefix of its records.
#[test]
fn a_torn_append_keeps_the_records_before_it() {
    let recs = vec![put(1, b"a", b"1"), put(2, b"b", b"22"), delete(3, b"a")];
    let data = encode_records(&recs);
    for cut in 0..=data.len() {
        let (got, _tail) = scan_segment(&data[..cut]);
        assert!(got.len() <= recs.len());
        assert_eq!(got[..], recs[..got.len()]);
        assert_eq!(got.len() == recs.len(), cut == data.len());
    }
}

/// A payload that is cut short anywhere is rejected.
#[test]
fn a_cut_payload_is_rejected() {
    let batch = Record {
        term: 3,
        index: 9,
        ops: vec![
            Op::Put { key: b"k".to_vec(), value: b"vv".to_vec() },
            Op::Delete { key: b"gone".to_vec() },
        ],
    };
    let empty = Record { term: 3, index: 9, ops: vec![] };
    for r in [put(7, b"key", b"value"), delete(8, b"key"), batch, empty] {
        let p = encode_payload(&r);
        for n in 0..p.len() {
            assert!(decode_payload(&p[..n]).is_err(), "cut to {n} bytes");
        }
        assert_eq!(decode_payload(&p), Ok(r));
    }
}

/// After an append that failed, the next one cuts off what was left behind and goes into a new
/// segment.
#[test]
fn an_append_after_a_failed_one() {
    let mut d = DirImage::new();
    let mut w = open(&mut d, 4096);
    append(&mut w, &mut d, &put(1, b"a", b"1"));
    let seg = segment_file(1);
    let clean = d.read(&seg).unwrap().clone();
    append_junk(&mut d, &seg);
    w.failed();
    let plan = w.append(&put(2, b"b", b"2"));
    assert_eq!(plan.len(), 3);
    assert!(matches!(&plan[0], FileAction::Truncate { len, .. } if *len == clean.len() as u64));
    append(&mut w, &mut d, &put(2, b"b", b"2"));
    assert_eq!(w.current(), 2);
    assert_eq!(d.read(&seg), Some(&clean));
    assert_eq!(recs_clean(&d), vec![put(1, b"a", b"1"), put(2, b"b", b"2")]);
    assert_eq!(w.append(&put(3, b"c", b"3")).len(), 1, "nothing is left to clear");
}

/// The last segment number takes records as long as they fit.
#[test]
fn the_last_segment_number() {
    let mut d = DirImage::new();
    d.write(segment_file(u32::MAX), vec![]);
    let mut w = open(&mut d, 64);
    let small = put(1, b"a", b"1");
    assert!(w.can_append(&vec![small.clone()]));
    append(&mut w, &mut d, &small);
    assert_eq!(recs_clean(&d), vec![small]);
    assert!(!w.can_append(&vec![put(2, b"b", &[0; 100])]));
}

/// Opening changes nothing that replay sees, whatever the latest segment is called.
#[test]
fn opening_keeps_the_records() {
    let odd = b"wal-3.log".to_vec();
    assert_eq!(parse_segment(&odd), Some(3));
    let mut d = DirImage::new();
    d.write(odd.clone(), encode_records(&vec![put(1, b"a", b"1"), put(2, b"b", b"2")]));
    append_junk(&mut d, &odd);
    let (before, tail) = replay(&d).unwrap();
    let tail = tail.expect("a torn tail");
    assert_eq!(tail.clone(), tail);
    open(&mut d, 4096);
    assert_eq!(recs_clean(&d), before);
}
