//! The decisions of the crash runner: a command that writes numbered keys until it is killed, and
//! one that checks that all of them were recovered.

use crate::assoc;
use crate::bytes::bytes_eq;
use crate::decimal;
use crate::decimal::{format_padded, parse_decimal};
use crate::types::{Snapshot, State};
use vstd::prelude::*;

verus! {

/// How many keys are written when no count is given.
pub const DEFAULT_COUNT: u64 = 1000;

/// The width that key numbers are padded to.
pub const NUMBER_WIDTH: usize = 8;

/// A sub-command.
#[derive(Clone, Copy, Debug, PartialEq, Eq, Structural)]
pub enum Command {
    /// Durably write this many keys, announce it, and block.
    Run(u64),
    /// Check that this many keys were recovered.
    Verify(u64),
}

/// Why the arguments make no command.
#[derive(Clone, Copy, Debug, PartialEq, Eq, Structural)]
pub enum ArgumentError {
    /// An argument is missing.
    Usage,
    /// There is no such sub-command.
    UnknownCommand,
    /// The count is not a number.
    InvalidCount,
}

/// `run`
pub open spec fn run_word() -> Seq<u8> {
    seq![114u8, 117, 110]
}

/// `verify`
pub open spec fn verify_word() -> Seq<u8> {
    seq![118u8, 101, 114, 105, 102, 121]
}

/// The count that an argument gives, or the default when it is absent. A sub-command without a
/// default requires it.
pub open spec fn count_of(arg: Option<Seq<u8>>, default: Option<u64>) -> Result<u64, ArgumentError> {
    match (arg, default) {
        (Some(s), _) => match decimal::parsed(s, u64::MAX as nat) {
            Some(n) => Ok(n as u64),
            None => Err(ArgumentError::InvalidCount),
        },
        (None, Some(d)) => Ok(d),
        (None, None) => Err(ArgumentError::Usage),
    }
}

/// The command that a sub-command's name and an optional count make.
pub open spec fn command_of(name: Seq<u8>, count: Option<Seq<u8>>) -> Result<
    Command,
    ArgumentError,
> {
    if name == run_word() {
        match count_of(count, Some(DEFAULT_COUNT)) {
            Ok(n) => Ok(Command::Run(n)),
            Err(e) => Err(e),
        }
    } else if name == verify_word() {
        match count_of(count, None) {
            Ok(n) => Ok(Command::Verify(n)),
            Err(e) => Err(e),
        }
    } else {
        Err(ArgumentError::UnknownCommand)
    }
}

/// The bytes of an optional argument.
pub open spec fn arg_bytes(arg: Option<&[u8]>) -> Option<Seq<u8>> {
    match arg {
        Some(s) => Some(s@),
        None => None,
    }
}

/// Parse an optional key count; `default` is used when the argument is absent.
pub fn parse_n(arg: Option<&[u8]>, default: Option<u64>) -> (r: Result<u64, ArgumentError>)
    ensures
        r == count_of(arg_bytes(arg), default),
{
    match arg {
        Some(s) => match parse_decimal(s, u64::MAX) {
            Some(n) => Ok(n),
            None => Err(ArgumentError::InvalidCount),
        },
        None => match default {
            Some(d) => Ok(d),
            None => Err(ArgumentError::Usage),
        },
    }
}

/// Parse a sub-command's name and its optional count.
pub fn parse_command(name: &[u8], count: Option<&[u8]>) -> (r: Result<Command, ArgumentError>)
    ensures
        r == command_of(name@, arg_bytes(count)),
{
    let run: [u8; 3] = [114, 117, 110];
    let verify: [u8; 6] = [118, 101, 114, 105, 102, 121];
    assert(run@ =~= run_word());
    assert(verify@ =~= verify_word());
    if bytes_eq(name, run.as_slice()) {
        match parse_n(count, Some(DEFAULT_COUNT)) {
            Ok(n) => Ok(Command::Run(n)),
            Err(e) => Err(e),
        }
    } else if bytes_eq(name, verify.as_slice()) {
        match parse_n(count, None) {
            Ok(n) => Ok(Command::Verify(n)),
            Err(e) => Err(e),
        }
    } else {
        Err(ArgumentError::UnknownCommand)
    }
}

/// A letter and a padded number.
pub open spec fn numbered(letter: u8, i: u64) -> Seq<u8> {
    seq![letter] + decimal::padded(i as nat, NUMBER_WIDTH as nat)
}

/// The key of write `i`: `k` and the number.
pub open spec fn key_of(i: u64) -> Seq<u8> {
    numbered(107, i)
}

/// The value of write `i`: `v` and the number.
pub open spec fn value_of(i: u64) -> Seq<u8> {
    numbered(118, i)
}

fn name(letter: u8, i: u64) -> (r: Vec<u8>)
    ensures
        r@ == numbered(letter, i),
{
    let mut r: Vec<u8> = vec![letter];
    let mut digits: Vec<u8> = format_padded(i, NUMBER_WIDTH);
    r.append(&mut digits);
    assert(r@ =~= numbered(letter, i));
    r
}

/// The key of write `i`.
pub fn key(i: u64) -> (r: Vec<u8>)
    ensures
        r@ == key_of(i),
{
    name(107, i)
}

/// The value of write `i`.
pub fn value(i: u64) -> (r: Vec<u8>)
    ensures
        r@ == value_of(i),
{
    name(118, i)
}

/// The key and the value of a write are a letter and its number in at least eight digits; different
/// writes have different keys and values, and no key is a value.
pub proof fn law_writes_are_told_apart(i: u64, j: u64)
    ensures
        key_of(i) == seq![107u8] + decimal::padded(i as nat, 8),
        value_of(i) == seq![118u8] + decimal::padded(i as nat, 8),
        key_of(i) == key_of(j) ==> i == j,
        value_of(i) == value_of(j) ==> i == j,
        key_of(i) != value_of(j),
{
    let a = decimal::padded(i as nat, 8);
    let b = decimal::padded(j as nat, 8);
    decimal::law_padded_parses(i as nat, 8, u64::MAX as nat);
    decimal::law_padded_parses(j as nat, 8, u64::MAX as nat);
    assert(key_of(i).skip(1) =~= a);
    assert(key_of(j).skip(1) =~= b);
    assert(value_of(i).skip(1) =~= a);
    assert(value_of(j).skip(1) =~= b);
    assert(key_of(i)[0] == 107);
    assert(value_of(j)[0] == 118);
}

/// Which commands there are: `run` with a count, 1000 where none is given, and `verify` with a
/// count that has to be given. A count that is no number is an error of its own, and so is any
/// other word.
pub proof fn law_which_commands_there_are(name: Seq<u8>, count: Option<Seq<u8>>)
    ensures
        name != seq![114u8, 117, 110] && name != seq![118u8, 101, 114, 105, 102, 121]
            ==> command_of(name, count) == Err::<Command, ArgumentError>(
            ArgumentError::UnknownCommand,
        ),
        name == seq![114u8, 117, 110] && count is None ==> command_of(name, count) == Ok::<
            Command,
            ArgumentError,
        >(Command::Run(1000)),
        name == seq![118u8, 101, 114, 105, 102, 121] && count is None ==> command_of(name, count)
            == Err::<Command, ArgumentError>(ArgumentError::Usage),
        count matches Some(s) ==> match decimal::parsed(s, 0xffff_ffff_ffff_ffff) {
            None => name == seq![114u8, 117, 110] || name == seq![118u8, 101, 114, 105, 102, 121]
                ==> command_of(name, count) == Err::<Command, ArgumentError>(
                ArgumentError::InvalidCount,
            ),
            Some(n) => (name == seq![114u8, 117, 110] ==> command_of(name, count) == Ok::<
                Command,
                ArgumentError,
            >(Command::Run(n as u64))) && (name == seq![118u8, 101, 114, 105, 102, 121]
                ==> command_of(name, count) == Ok::<Command, ArgumentError>(
                Command::Verify(n as u64),
            )),
        },
{
    assert(run_word().len() != verify_word().len());
}

/// An absent count is the default where there is one; a given one never is.
pub proof fn law_a_given_count_overrides_the_default(s: Seq<u8>, d: Option<u64>)
    ensures
        count_of(None, d) == (match d {
            Some(n) => Ok::<u64, ArgumentError>(n),
            None => Err(ArgumentError::Usage),
        }),
        count_of(Some(s), d) == count_of(Some(s), None),
        count_of(Some(s), d) matches Ok(n) ==> decimal::parsed(s, 0xffff_ffff_ffff_ffff) == Some(
            n as nat,
        ),
        count_of(Some(s), d) is Err <==> decimal::parsed(s, 0xffff_ffff_ffff_ffff) is None,
        count_of(Some(s), d) matches Err(e) ==> e == ArgumentError::InvalidCount,
{
}

/// A write is held exactly if its key is found with its value, whatever the version.
pub proof fn law_a_write_is_held_with_its_value(s: State, i: u64, version: u64)
    requires
        assoc::sorted(s),
    ensures
        s.contains((key_of(i), (value_of(i), version))) ==> holds(s, i),
        holds(s, i) ==> exists|j: int|
            0 <= j < s.len() && (#[trigger] s[j]).0 == key_of(i) && s[j].1.0 == value_of(i),
{
    assoc::law_a_lookup_finds_the_entry(s, key_of(i), (value_of(i), version));
    if holds(s, i) {
        let j = assoc::lemma_found(s, key_of(i));
        assert(s[j].0 == key_of(i));
    }
}

/// What a check of the recovered keys found.
#[derive(Clone, Copy, Debug, PartialEq, Eq, Structural)]
pub enum Verdict {
    /// Every key is there with its value.
    Recovered,
    /// There are fewer keys than were written.
    TooFew(usize),
    /// The key of this write is absent or has another value.
    Wrong(u64),
}

/// Whether write `i` is in a state.
pub open spec fn holds(s: State, i: u64) -> bool {
    assoc::find(s, key_of(i)) matches Some(c) && c.0 == value_of(i)
}

/// Check that the first `n` writes are in a snapshot.
pub fn check(snapshot: &Snapshot, n: u64) -> (r: Verdict)
    ensures
        match r {
            Verdict::Recovered => {
                &&& snapshot.state().len() >= n
                &&& forall|i: u64| i < n ==> #[trigger] holds(snapshot.state(), i)
            },
            Verdict::TooFew(len) => len == snapshot.state().len() && len < n,
            Verdict::Wrong(i) => {
                &&& snapshot.state().len() >= n
                &&& i < n
                &&& !holds(snapshot.state(), i)
                &&& forall|j: u64| j < i ==> #[trigger] holds(snapshot.state(), j)
            },
        },
{
    let len: usize = snapshot.len();
    if (len as u64) < n {
        return Verdict::TooFew(len);
    }
    let mut i: u64 = 0;
    while i < n
        invariant
            i <= n,
            snapshot.state().len() >= n,
            forall|j: u64| j < i ==> #[trigger] holds(snapshot.state(), j),
        decreases n - i,
    {
        let right: bool = match snapshot.get(key(i).as_slice()) {
            Some(e) => bytes_eq(e.value.as_slice(), value(i).as_slice()),
            None => false,
        };
        assert(right == holds(snapshot.state(), i));
        if !right {
            return Verdict::Wrong(i);
        }
        i = i + 1;
    }
    Verdict::Recovered
}

} // verus!
