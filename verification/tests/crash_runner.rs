use keystory::crash_runner::{
    check, key, parse_command, parse_n, value, ArgumentError, Command, Verdict,
};
use keystory::{Op, Snapshot};

fn written(n: u64) -> Snapshot {
    let mut s = Snapshot::empty();
    for i in 0..n {
        Op::Put {
            key: key(i),
            value: value(i),
        }
        .apply(&mut s.data, i + 1);
    }
    s
}

#[test]
fn keys_and_values() {
    assert_eq!(key(0), b"k00000000".to_vec());
    assert_eq!(key(249), b"k00000249".to_vec());
    assert_eq!(value(249), b"v00000249".to_vec());
    assert_eq!(key(1234567890), b"k1234567890".to_vec());
}

#[test]
fn arguments() {
    assert_eq!(parse_command(b"run", None), Ok(Command::Run(1000)));
    assert_eq!(parse_command(b"run", Some(b"500")), Ok(Command::Run(500)));
    assert_eq!(parse_command(b"verify", Some(b"500")), Ok(Command::Verify(500)));
    assert_eq!(parse_command(b"verify", None), Err(ArgumentError::Usage));
    assert_eq!(parse_command(b"run", Some(b"x")), Err(ArgumentError::InvalidCount));
    assert_eq!(parse_command(b"stop", None), Err(ArgumentError::UnknownCommand));
    assert_eq!(parse_n(Some(b""), Some(3)), Err(ArgumentError::InvalidCount));
    assert_eq!(parse_n(Some(b"+7"), None), Ok(7));
    assert_eq!(parse_n(Some(b"-7"), None), Err(ArgumentError::InvalidCount));
    assert_eq!(parse_n(Some(b"18446744073709551615"), None), Ok(u64::MAX));
    assert_eq!(
        parse_n(Some(b"18446744073709551616"), None),
        Err(ArgumentError::InvalidCount)
    );
    assert_eq!(parse_n(None, Some(3)), Ok(3));
}

#[test]
fn verdicts() {
    assert_eq!(check(&written(20), 20), Verdict::Recovered);
    assert_eq!(check(&written(20), 7), Verdict::Recovered);
    assert_eq!(check(&written(20), 21), Verdict::TooFew(20));
    let mut s = written(20);
    Op::Put {
        key: key(4),
        value: b"other".to_vec(),
    }
    .apply(&mut s.data, 21);
    assert_eq!(check(&s, 20), Verdict::Wrong(4));
    let mut s = written(20);
    Op::Delete { key: key(9) }.apply(&mut s.data, 21);
    Op::Put {
        key: b"x".to_vec(),
        value: vec![],
    }
    .apply(&mut s.data, 22);
    assert_eq!(check(&s, 20), Verdict::Wrong(9));
}
