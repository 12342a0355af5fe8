use keystory::bytes::{
    bytes_lt, get_u32_be, get_u32_le, get_u64_be, get_u64_le, put_u32_be, put_u32_le, put_u64_be,
    put_u64_le, starts_with,
};
use keystory::codec::{put_blob, Cursor};
use keystory::decimal::{format_padded, parse_decimal};
use keystory::dir::{DirImage, FileAction};

#[test]
fn integers_in_both_byte_orders() {
    let mut v = Vec::new();
    put_u32_le(&mut v, 0x0102_0304);
    put_u64_le(&mut v, 0x0102_0304_0506_0708);
    put_u32_be(&mut v, 0x0102_0304);
    put_u64_be(&mut v, 0x0102_0304_0506_0708);
    assert_eq!(v[..4], 0x0102_0304u32.to_le_bytes());
    assert_eq!(v[12..16], 0x0102_0304u32.to_be_bytes());
    assert_eq!(get_u32_le(&v, 0), 0x0102_0304);
    assert_eq!(get_u64_le(&v, 4), 0x0102_0304_0506_0708);
    assert_eq!(get_u32_be(&v, 12), 0x0102_0304);
    assert_eq!(get_u64_be(&v, 16), 0x0102_0304_0506_0708);
}

#[test]
fn byte_order_of_strings() {
    assert!(bytes_lt(b"", b"a"));
    assert!(bytes_lt(b"a", b"aa"));
    assert!(bytes_lt(b"az", b"b"));
    assert!(!bytes_lt(b"b", b"b"));
    assert!(starts_with(b"abc", b"ab"));
    assert!(!starts_with(b"ab", b"abc"));
}

#[test]
fn cursors_stop_at_the_end() {
    let mut v = vec![9u8];
    put_u32_le(&mut v, 7);
    put_u64_le(&mut v, 8);
    put_blob(&mut v, b"xyz");
    let mut c = Cursor::new(&v);
    assert_eq!(c.u8(), Some(9));
    assert_eq!(c.u32(), Some(7));
    assert_eq!(c.u64(), Some(8));
    assert_eq!(c.blob(), Some(b"xyz".to_vec()));
    assert_eq!(c.remaining(), 0);
    assert_eq!(c.u8(), None);
    let mut short = Cursor::new(&v[..3]);
    assert_eq!(short.slice(2), Some(&v[..2]));
    assert_eq!(short.u32(), None);
}

#[test]
fn decimal_numbers() {
    assert_eq!(format_padded(7, 6), b"000007".to_vec());
    assert_eq!(format_padded(1234567, 6), b"1234567".to_vec());
    assert_eq!(parse_decimal(b"000007", 100), Some(7));
    assert_eq!(parse_decimal(b"101", 100), None);
    assert_eq!(parse_decimal(b"", 100), None);
    assert_eq!(parse_decimal(b"1x", 100), None);
}

#[test]
fn directory_steps() {
    let mut d = DirImage::new();
    d.apply(&FileAction::Create {
        name: b"t".to_vec(),
        data: b"one".to_vec(),
    });
    d.apply(&FileAction::Append {
        name: b"t".to_vec(),
        data: b"two".to_vec(),
    });
    assert_eq!(d.read(b"t").unwrap(), b"onetwo");
    d.apply(&FileAction::Truncate {
        name: b"t".to_vec(),
        len: 3,
    });
    d.apply(&FileAction::Rename {
        from: b"t".to_vec(),
        to: b"live".to_vec(),
    });
    assert!(d.read(b"t").is_none());
    assert_eq!(d.read(b"live").unwrap(), b"one");
    assert_eq!((d.len(), d.name_at(0).as_slice(), d.data_at(0).as_slice()), (1, &b"live"[..], &b"one"[..]));
    d.apply(&FileAction::Remove {
        name: b"live".to_vec(),
    });
    assert_eq!(d.len(), 0);
}
