use keystory::dir::DirImage;
use keystory::valuestore::{
    log_file, read_record, temp_file, BlobId, BlobRef, IdsExhausted, ValueStore, REC_HDR,
    REC_TRAIL,
};
use std::collections::BTreeSet;

/// A value store over a directory in memory.
struct Blobs {
    dir: DirImage,
    v: ValueStore,
}

impl Blobs {
    fn open(mut dir: DirImage) -> Blobs {
        let log = match dir.read(&log_file()) {
            Some(b) => b.clone(),
            None => vec![],
        };
        let (v, plan) = ValueStore::open(&log).unwrap();
        dir.apply_all(&plan);
        Blobs { dir, v }
    }

    fn new() -> Blobs {
        Blobs::open(DirImage::new())
    }

    fn log(&self) -> &[u8] {
        self.dir.read(&log_file()).map_or(&[], |b| b.as_slice())
    }

    fn put(&mut self, value: &[u8]) -> BlobRef {
        let (r, plan) = self.v.put(value);
        self.dir.apply_all(&plan);
        self.v.stored(&r);
        r
    }

    fn get(&self, r: &BlobRef) -> Option<Vec<u8>> {
        self.v.get(r, self.log())
    }

    fn compact(&mut self, live: &BTreeSet<BlobId>) -> u64 {
        let (c, plan) = self.v.compact(self.log(), live);
        self.dir.apply_all(&plan);
        self.v.compacted(c)
    }

    fn reopen(self) -> Blobs {
        Blobs::open(self.dir)
    }
}

#[test]
fn put_get_round_trip_large_value() {
    let mut v = Blobs::new();
    let big: Vec<u8> = (0..1_000_000).map(|i| i as u8).collect();
    let r = v.put(&big);
    assert_eq!(v.get(&r), Some(big));
}

#[test]
fn random_access_reads_one_record() {
    let mut v = Blobs::new();
    let a: Vec<u8> = vec![1; 50_000];
    let b: Vec<u8> = vec![2; 50_000];
    let ra = v.put(&a);
    let rb = v.put(&b);
    assert_eq!(v.get(&ra), Some(a));
    assert_eq!(v.get(&rb), Some(b));
    assert_eq!(
        v.get(&BlobRef {
            id: 999,
            offset: 10_000_000,
            len: 4
        }),
        None
    );
}

#[test]
fn compact_drops_superseded_blobs() {
    let mut v = Blobs::new();
    let mut refs = Vec::new();
    for i in 0..10 {
        refs.push(v.put(&(i as u64).to_be_bytes()));
    }
    let live: BTreeSet<BlobId> = refs.iter().skip(7).map(|r| r.id).collect();
    let before = v.log().len();
    v.compact(&live);
    let after = v.log().len();
    assert!(after < before, "compact shrinks: {before} -> {after}");
    assert_eq!(v.v.count(), 3);
}

#[test]
fn compact_survives_reopen() {
    let mut v = Blobs::new();
    let r = v.put(&[7, 7, 7, 7]);
    v.compact(&BTreeSet::from([r.id]));
    let v2 = v.reopen();
    assert_eq!(v2.get(&r), Some(vec![7, 7, 7, 7]));
}

#[test]
fn survives_reopen() {
    let mut v = Blobs::new();
    let r = v.put(&[0xde, 0xad, 0xbe, 0xef]);
    let v2 = v.reopen();
    assert_eq!(v2.get(&r), Some(vec![0xde, 0xad, 0xbe, 0xef]));
}

#[test]
fn compaction_keeps_ids_and_handles_valid() {
    let mut v = Blobs::new();
    let a = v.put(b"aaaa");
    let b = v.put(b"bb");
    let c = v.put(b"cccccc");
    v.compact(&BTreeSet::from([a.id, c.id]));
    assert_eq!(v.get(&a), Some(b"aaaa".to_vec()));
    assert_eq!(v.get(&b), None, "dropped by compaction");
    assert_eq!(v.get(&c), Some(b"cccccc".to_vec()));
    let d = v.put(b"d");
    assert_eq!(
        d.id,
        c.id + 1,
        "ids keep counting past the highest ever used"
    );
    let v2 = v.reopen();
    assert_eq!(v2.get(&a), Some(b"aaaa".to_vec()));
    assert_eq!(v2.get(&c), Some(b"cccccc".to_vec()));
    assert_eq!(v2.get(&d), Some(b"d".to_vec()));
    assert_eq!(v2.v.next_id(), d.id + 1);
}

#[test]
fn torn_tail_is_truncated_on_open() {
    let mut v = Blobs::new();
    let a = v.put(b"first");
    let clean = v.log().len();
    let mut dir = v.dir;
    let mut raw = dir.read(&log_file()).unwrap().clone();
    raw.extend_from_slice(&1u64.to_be_bytes());
    raw.extend_from_slice(&500u64.to_be_bytes());
    raw.extend_from_slice(b"only a few bytes of a 500-byte value");
    dir.write(log_file(), raw);
    let mut v = Blobs::open(dir);
    assert_eq!(v.log().len(), clean);
    assert_eq!(v.get(&a), Some(b"first".to_vec()));
    let b = v.put(b"second");
    assert_eq!(b.id, a.id + 1);
    let v2 = v.reopen();
    assert_eq!(v2.get(&b), Some(b"second".to_vec()));
    assert_eq!(v2.v.count(), 2);
}

#[test]
fn damaged_length_header_reads_as_absent() {
    let mut v = Blobs::new();
    let r = v.put(b"payload");
    let mut bytes = v.log().to_vec();
    // Claim an absurd length (the top byte of the 8-byte BE length field).
    bytes[8] = 0x7F;
    let mut guarded = bytes[..REC_HDR].to_vec();
    guarded.extend_from_slice(b"payload");
    let crc = keystory::crc::crc32(&guarded);
    let n = bytes.len();
    bytes[n - REC_TRAIL..].copy_from_slice(&crc.to_be_bytes()); // even with a "valid" CRC
    v.dir.write(log_file(), bytes);
    assert_eq!(v.get(&r), None);
    // And a reopen treats the damaged record as the end of the intact log.
    let v2 = v.reopen();
    assert_eq!(v2.v.count(), 0);
}

/// The exact bytes of a record, and where it lies.
#[test]
fn record_layout() {
    let mut v = Blobs::new();
    let a = v.put(b"ab");
    let b = v.put(b"c");
    assert_eq!(a, BlobRef { id: a.id, offset: 0, len: 2 });
    assert_eq!(b, BlobRef { id: a.id + 1, offset: 22, len: 1 });
    assert_eq!(v.v.end(), 43);
    let log = v.log();
    assert_eq!(log[..8], a.id.to_be_bytes());
    assert_eq!(log[8..16], 2u64.to_be_bytes());
    assert_eq!(log[16..18], *b"ab");
    assert_eq!(log[18..22], keystory::crc::crc32(&log[..18]).to_be_bytes());
    assert_eq!(v.v.locate(&b), Some((22, 1)));
    assert_eq!(read_record(&log[22..], b.id, 1), Some(b"c".to_vec()));
    assert_eq!(read_record(&log[22..], a.id, 1), None);
    assert_eq!(read_record(&log[22..40], b.id, 1), None);
}

/// A handle whose length disagrees with the log reads as absent.
#[test]
fn a_wrong_length_reads_as_absent() {
    let mut v = Blobs::new();
    let a = v.put(b"abc");
    assert_eq!(v.get(&BlobRef { len: 2, ..a }), None);
    assert_eq!(v.get(&BlobRef { id: a.id + 1, ..a }), None);
}

/// A crash in the middle of a compaction leaves the old log.
#[test]
fn compaction_is_atomic() {
    let mut v = Blobs::new();
    let a = v.put(b"aaaa");
    let b = v.put(b"bb");
    let (_c, plan) = v.v.compact(v.log(), &BTreeSet::from([b.id]));
    assert_eq!(plan.len(), 2);
    v.dir.apply(&plan[0]);
    assert!(v.dir.read(&temp_file()).is_some());
    let v = v.reopen();
    assert_eq!(v.get(&a), Some(b"aaaa".to_vec()));
    assert_eq!(v.get(&b), Some(b"bb".to_vec()));
}

/// Ids are not used again, even when the highest one was compacted away and the store reopened.
#[test]
fn ids_outlive_compaction_and_reopen() {
    let mut v = Blobs::new();
    let a = v.put(b"aa");
    let b = v.put(b"bb");
    assert_eq!((a.id, b.id), (0, 1));
    let end = v.compact(&BTreeSet::from([a.id]));
    assert_eq!(end, 22 + 28, "the blob and a mark");
    let log = v.log();
    assert_eq!(log[22..30], u64::MAX.to_be_bytes());
    assert_eq!(log[30..38], 8u64.to_be_bytes());
    assert_eq!(log[38..46], 2u64.to_be_bytes());
    let mut v = v.reopen();
    assert_eq!(v.v.next_id(), 2);
    assert_eq!(v.v.count(), 1);
    assert_eq!(v.get(&a), Some(b"aa".to_vec()));
    assert_eq!(v.get(&b), None);
    let c = v.put(b"cc");
    assert_eq!(c.id, 2);
    assert_eq!(v.get(&b), None);
    assert_eq!(v.get(&c), Some(b"cc".to_vec()));
    v.compact(&BTreeSet::new());
    let v = v.reopen();
    assert_eq!(v.v.next_id(), 3, "also when nothing is left");
    assert_eq!(v.v.count(), 0);
    assert_eq!(v.v.end(), 28);
}

/// Where the highest id is live the rewritten log holds the live blobs and nothing else.
#[test]
fn no_mark_where_the_highest_id_is_live() {
    let mut v = Blobs::new();
    v.put(b"aa");
    let b = v.put(b"bbb");
    let record = v.log()[22..].to_vec();
    assert_eq!(v.compact(&BTreeSet::from([b.id])), 23);
    assert_eq!(v.log(), record.as_slice());
    let mut fresh = Blobs::new();
    assert_eq!(fresh.compact(&BTreeSet::new()), 0);
}

/// What a failed append left behind is cut off by the next one.
#[test]
fn a_failed_append_is_made_good() {
    let mut v = Blobs::new();
    let a = v.put(b"aa");
    let (_lost, plan) = v.v.put(b"never acknowledged");
    assert_eq!(plan.len(), 1);
    let mut raw = v.log().to_vec();
    raw.extend_from_slice(&[1, 2, 3, 4, 5]);
    v.dir.write(log_file(), raw);
    v.v.failed();
    let b = v.put(b"bb");
    assert_eq!(b, BlobRef { id: 1, offset: 22, len: 2 });
    assert_eq!(v.get(&a), Some(b"aa".to_vec()));
    assert_eq!(v.get(&b), Some(b"bb".to_vec()));
    let v = v.reopen();
    assert_eq!(v.get(&b), Some(b"bb".to_vec()));
    assert_eq!(v.v.count(), 2);
}

/// An id at the end of its range leaves none to hand out.
#[test]
fn ids_can_run_out() {
    let mut rec = u64::MAX.to_be_bytes().to_vec();
    rec.extend_from_slice(&0u64.to_be_bytes());
    let sum = keystory::crc::crc32(&rec);
    rec.extend_from_slice(&sum.to_be_bytes());
    assert_eq!(ValueStore::open(&rec).unwrap_err(), IdsExhausted);
    let (v, plan) = ValueStore::open(&[]).unwrap();
    assert_eq!(v.count(), 0);
    assert!(plan.len() <= 1);
    let mut path = b"/data/".to_vec();
    path.extend_from_slice(&log_file());
    assert_eq!(v.path(b"/data"), path);
}
