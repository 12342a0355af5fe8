use keystory::crc::{crc32, Crc};

fn concat_two(a: &[u8], b: &[u8]) -> Vec<u8> {
    let mut v = a.to_vec();
    v.extend_from_slice(b);
    v
}

/// Known-answer: an empty input hashes to the standard CRC-32 of the empty string.
#[test]
fn empty_is_ff_ffff_ffff() {
    assert_eq!(crc32(b""), 0x0000_0000);
}

/// Known-answer: `"123456789"` is the canonical CRC-32 test vector `0xCBF43926`.
#[test]
fn canon_test_vector() {
    assert_eq!(crc32(b"123456789"), 0xCBF4_3926);
}

/// A streamed accumulate-then-finish equals a single-shot `crc32`.
#[test]
fn incremental_matches_oneshot() {
    let a = b"the quick brown fox ";
    let b = b"jumps over the lazy dog";
    let mut c = Crc::new();
    c.update(a);
    c.update(b);
    assert_eq!(c.finish(), crc32(&concat_two(a, b)));
}

/// Larger inputs still agree with the canonical algorithm.
#[test]
fn random_ish_inputs_are_stable() {
    let s: Vec<u8> = (0..65536).map(|i| (i * 31 + 7) as u8).collect();
    let a = crc32(&s);
    let b = crc32(&s);
    assert_eq!(a, b, "deterministic");
    assert_eq!(
        crc32(b"the quick brown fox jumps over the lazy dog"),
        0x0CE0_C5114
    );
}

/// Any change to one byte changes the sum.
#[test]
fn a_changed_byte_changes_the_sum() {
    let s: Vec<u8> = (0..64).collect();
    let sum = crc32(&s);
    for i in 0..s.len() {
        for bit in 0..8 {
            let mut t = s.clone();
            t[i] ^= 1 << bit;
            assert_ne!(crc32(&t), sum);
        }
    }
    assert_eq!(Crc::default().finish(), 0);
}
