use keystory::dir::DirImage;
use keystory::snapshot::{
    decode, encode, encode_file, latest_file, latest_usable, load, previous_file, purge,
    snapshot_path, temp_file, write_streaming, SnapshotError,
};
use keystory::{Op, Snapshot};

fn fill(snap: &mut Snapshot, n: usize) {
    for i in 0..n {
        Op::Put {
            key: format!("k{i:04}").into_bytes(),
            value: format!("v{i:04}").into_bytes(),
        }
        .apply(&mut snap.data, i as u64 + 1);
    }
}

fn save(d: &mut DirImage, s: &Snapshot) {
    let plan = keystory::snapshot::write(latest_usable(d), s);
    d.apply_all(&plan);
}

fn corrupt(d: &mut DirImage, name: &[u8]) {
    let mut bytes = d.read(name).unwrap().clone();
    let mid = bytes.len() / 2;
    bytes[mid] ^= 0xFF;
    d.write(name.to_vec(), bytes);
}

#[test]
fn roundtrip_empty() {
    let mut d = DirImage::new();
    save(&mut d, &Snapshot::empty());
    let got = load(&d).unwrap().expect("snapshot present");
    assert_eq!(got.index, 0);
    assert!(got.data.is_empty());
}

#[test]
fn roundtrip_nonempty() {
    let mut d = DirImage::new();
    let mut s = Snapshot::empty();
    fill(&mut s, 50);
    s.index = 42;
    save(&mut d, &s);
    let got = load(&d).unwrap().unwrap();
    assert_eq!(got, s, "round-trip must be exact");
    assert_eq!(got.index, 42);
    assert!(got.get(b"k0010").is_some());
}

#[test]
fn load_missing_is_none() {
    let d = DirImage::new();
    assert!(load(&d).unwrap().is_none());
}

#[test]
fn corrupt_crc_rejected() {
    let mut d = DirImage::new();
    let mut s = Snapshot::empty();
    fill(&mut s, 10);
    s.index = 9;
    save(&mut d, &s);
    corrupt(&mut d, &latest_file());
    let err = load(&d).expect_err("corrupt checkpoint must be rejected");
    assert_eq!(err, SnapshotError::CrcMismatch);
}

#[test]
fn atomicity_no_tmp_left_behind() {
    let mut d = DirImage::new();
    let mut s = Snapshot::empty();
    fill(&mut s, 7);
    save(&mut d, &s);
    assert!(d.read(&latest_file()).is_some());
    assert!(d.read(&temp_file()).is_none());
}

#[test]
fn previous_generation_is_kept_and_used_as_fallback() {
    let mut d = DirImage::new();
    let mut first = Snapshot::empty();
    fill(&mut first, 5);
    first.index = 5;
    save(&mut d, &first);
    assert!(d.read(&previous_file()).is_none(), "nothing to retain yet");

    let mut second = first.clone();
    fill(&mut second, 8);
    second.index = 8;
    save(&mut d, &second);
    assert!(
        d.read(&previous_file()).is_some(),
        "the first checkpoint was retained"
    );
    assert_eq!(
        load(&d).unwrap().unwrap().index,
        8,
        "latest wins when intact"
    );

    corrupt(&mut d, &latest_file());
    let got = load(&d)
        .unwrap()
        .expect("fell back to the previous generation");
    assert_eq!(got, first);

    d.remove(&latest_file());
    assert_eq!(
        load(&d).unwrap().unwrap(),
        first,
        "a missing latest (crash between renames) also falls back"
    );

    corrupt(&mut d, &previous_file());
    assert!(
        load(&d).is_err(),
        "no usable generation left: an error, not an empty store"
    );
}

#[test]
fn streaming_roundtrip_large() {
    let mut d = DirImage::new();
    let mut s = Snapshot::empty();
    fill(&mut s, 50_000);
    s.index = 50_000;
    d.apply_all(&write_streaming(false, &s));
    let got = load(&d).expect("load");
    assert!(got.is_some(), "a streamed snapshot must be present");
    let got = got.unwrap();
    assert_eq!(got.index, 50_000, "index survives a streamed checkpoint");
    assert_eq!(got.data.len(), 50_000, "all entries survive");
    assert_eq!(s.data, got.data, "streamed decode == in-memory state");
}

/// Both ways to write a checkpoint give the same steps.
#[test]
fn streaming_writes_the_same_file() {
    let mut s = Snapshot::empty();
    fill(&mut s, 20);
    s.index = 20;
    for keep_latest in [false, true] {
        assert_eq!(keystory::snapshot::write(keep_latest, &s), write_streaming(keep_latest, &s));
    }
    assert_eq!(keystory::snapshot::write(true, &s).len(), 3, "temporary file and two renames");
    let body = encode(&s);
    let file = encode_file(&s);
    assert_eq!(file[..body.len()], body[..]);
    assert_eq!(file.len(), body.len() + 4);
}

fn sealed(mut body: Vec<u8>) -> Vec<u8> {
    let sum = keystory::crc::crc32(&body);
    body.extend_from_slice(&sum.to_le_bytes());
    body
}

/// Every way a checkpoint can be bad has its own error.
#[test]
fn decode_errors() {
    let mut s = Snapshot::empty();
    fill(&mut s, 1);
    let body = encode(&s);
    let header = 24;
    assert_eq!(decode(&body[..10]).unwrap_err(), SnapshotError::TooShort);
    let mut bad = body.clone();
    bad[0] ^= 1;
    assert_eq!(decode(&sealed(bad)).unwrap_err(), SnapshotError::BadMagic);
    let mut bad = body.clone();
    bad[4] = 9;
    assert_eq!(decode(&sealed(bad)).unwrap_err(), SnapshotError::UnknownVersion(9));
    let mut bad = body.clone();
    bad[16..24].copy_from_slice(&50_000_001u64.to_le_bytes());
    assert_eq!(
        decode(&sealed(bad)).unwrap_err(),
        SnapshotError::ImplausibleCount(50_000_001)
    );
    let cut = |n: usize| decode(&sealed(body[..header + n].to_vec())).unwrap_err();
    assert_eq!(cut(2), SnapshotError::ShortKeyLength);
    assert_eq!(cut(6), SnapshotError::ShortKey);
    assert_eq!(cut(10), SnapshotError::ShortValueLength);
    assert_eq!(cut(15), SnapshotError::ShortValue);
    assert_eq!(cut(20), SnapshotError::ShortVersion);
    assert_eq!(decode(&sealed(body)).unwrap(), s);
}

/// Entries may come in any order, but no key occurs twice.
#[test]
fn a_repeated_key_is_rejected() {
    let entry = |k: &[u8], v: &[u8]| -> Vec<u8> {
        let mut b = (k.len() as u32).to_le_bytes().to_vec();
        b.extend_from_slice(k);
        b.extend_from_slice(&(v.len() as u32).to_le_bytes());
        b.extend_from_slice(v);
        b.extend_from_slice(&7u64.to_le_bytes());
        b
    };
    let file = |entries: &[Vec<u8>]| -> Vec<u8> {
        let mut b = b"KSN1".to_vec();
        b.extend_from_slice(&1u32.to_le_bytes());
        b.extend_from_slice(&9u64.to_le_bytes());
        b.extend_from_slice(&(entries.len() as u64).to_le_bytes());
        for e in entries {
            b.extend_from_slice(e);
        }
        sealed(b)
    };
    let (a, b) = (entry(b"a", b"1"), entry(b"b", b"2"));
    let good = decode(&file(&[a.clone(), b.clone()])).unwrap();
    assert_eq!(good.index, 9);
    assert_eq!(good.len(), 2);
    assert_eq!(good.get(b"b").unwrap().value.as_slice(), b"2");
    let twice = [a.clone(), entry(b"a", b"3")];
    assert_eq!(decode(&file(&twice)).unwrap_err(), SnapshotError::RepeatedKey);
    let apart = [a.clone(), b.clone(), a.clone()];
    assert_eq!(decode(&file(&apart)).unwrap_err(), SnapshotError::RepeatedKey);
    let turned = [b, a];
    assert_eq!(decode(&file(&turned)).unwrap(), good);
}

/// A file that is cut short anywhere is rejected.
#[test]
fn a_cut_file_is_rejected() {
    let mut s = Snapshot::empty();
    fill(&mut s, 6);
    s.index = 6;
    let file = encode_file(&s);
    for n in 0..file.len() {
        assert!(decode(&file[..n]).is_err(), "cut to {n} bytes");
    }
    assert_eq!(decode(&file).unwrap(), s);
}

/// A damaged latest checkpoint does not take the place of the previous one.
#[test]
fn a_damaged_latest_is_not_kept() {
    let mut d = DirImage::new();
    assert!(!latest_usable(&d), "there is none");
    let mut first = Snapshot::empty();
    fill(&mut first, 3);
    first.index = 3;
    save(&mut d, &first);
    let mut second = first.clone();
    fill(&mut second, 4);
    second.index = 4;
    assert!(latest_usable(&d));
    save(&mut d, &second);
    corrupt(&mut d, &latest_file());
    assert!(!latest_usable(&d));
    let mut third = second.clone();
    fill(&mut third, 5);
    third.index = 5;
    let plan = keystory::snapshot::write(latest_usable(&d), &third);
    for step in &plan {
        assert_eq!(load(&d).unwrap().unwrap(), first, "a crash here falls back");
        d.apply(step);
    }
    assert_eq!(load(&d).unwrap().unwrap(), third);
    d.remove(&latest_file());
    assert_eq!(load(&d).unwrap().unwrap(), first, "the previous one is still there");
}

#[test]
fn purging_removes_every_generation() {
    let mut d = DirImage::new();
    save(&mut d, &Snapshot::empty());
    save(&mut d, &Snapshot::empty());
    d.write(b"other".to_vec(), vec![1]);
    let plan = purge(&d);
    assert_eq!(plan.len(), 2);
    d.apply_all(&plan);
    assert!(load(&d).unwrap().is_none());
    assert_eq!(d.len(), 1);
    let mut path = b"/data/".to_vec();
    path.extend_from_slice(&latest_file());
    assert_eq!(snapshot_path(b"/data"), path);
}
