//! Decimal numbers as byte strings.

use crate::bytes;
use vstd::prelude::*;

verus! {

/// The low `w` decimal digits of `v`, most significant first.
pub open spec fn digits(v: nat, w: nat) -> Seq<u8>
    decreases w,
{
    if w == 0 {
        seq![]
    } else {
        digits(v / 10, (w - 1) as nat).push((48 + v % 10) as u8)
    }
}

/// `10^n`.
pub open spec fn pow10(n: nat) -> nat
    decreases n,
{
    if n == 0 {
        1
    } else {
        10 * pow10((n - 1) as nat)
    }
}

/// How many decimal digits `v` has, at least one.
pub open spec fn digit_count(v: nat) -> nat
    decreases v,
{
    if v < 10 {
        1
    } else {
        1 + digit_count(v / 10)
    }
}

/// `v` in decimal, padded with zeros on the left to at least `w` digits.
pub open spec fn padded(v: nat, w: nat) -> Seq<u8> {
    digits(
        v,
        if digit_count(v) > w {
            digit_count(v)
        } else {
            w
        },
    )
}

/// Whether `b` is a decimal digit.
pub open spec fn is_digit(b: u8) -> bool {
    48 <= b <= 57
}

/// Whether every byte of `s` is a decimal digit.
pub open spec fn all_digits(s: Seq<u8>) -> bool {
    forall|i: int| 0 <= i < s.len() ==> is_digit(#[trigger] s[i])
}

/// The number that the digits `s` write.
pub open spec fn value(s: Seq<u8>) -> nat
    decreases s.len(),
{
    if s.len() == 0 {
        0
    } else {
        (value(s.drop_last()) * 10 + (s.last() - 48)) as nat
    }
}

/// `s` without one leading plus sign.
pub open spec fn unsigned_part(s: Seq<u8>) -> Seq<u8> {
    if s.len() > 0 && s[0] == 43 {
        s.skip(1)
    } else {
        s
    }
}

/// The number written by `s`: an optional plus sign and at least one digit, at most `max`.
pub open spec fn parsed(s: Seq<u8>, max: nat) -> Option<nat> {
    let t = unsigned_part(s);
    if t.len() > 0 && all_digits(t) && value(t) <= max {
        Some(value(t))
    } else {
        None
    }
}

pub proof fn lemma_digits(v: nat, w: nat)
    ensures
        digits(v, w).len() == w,
        all_digits(digits(v, w)),
        v < pow10(w) ==> value(digits(v, w)) == v,
    decreases w,
{
    if w > 0 {
        lemma_digits(v / 10, (w - 1) as nat);
        let d = digits(v, w);
        assert(d.drop_last() =~= digits(v / 10, (w - 1) as nat));
        assert forall|i: int| 0 <= i < d.len() implies is_digit(#[trigger] d[i]) by {
            if i < d.len() - 1 {
                assert(d[i] == digits(v / 10, (w - 1) as nat)[i]);
            }
        }
    }
}

/// Longer numbers have more digits, and every number fits its own digit count.
pub proof fn lemma_digit_count(v: nat)
    ensures
        v < pow10(digit_count(v)),
        digit_count(v) >= 1,
    decreases v,
{
    if v < 10 {
        reveal_with_fuel(pow10, 2);
    } else {
        lemma_digit_count(v / 10);
        assert(pow10(digit_count(v)) == 10 * pow10(digit_count(v / 10)));
    }
}

/// A number below `10^w` has at most `w` digits.
pub proof fn lemma_digit_count_max(v: nat, w: nat)
    requires
        v < pow10(w),
        w >= 1,
    ensures
        digit_count(v) <= w,
    decreases w,
{
    if v >= 10 {
        if w == 1 {
            reveal_with_fuel(pow10, 2);
        } else {
            lemma_digit_count_max(v / 10, (w - 1) as nat);
        }
    }
}

/// A number reads back from its padded form.
pub proof fn law_padded_parses(v: nat, w: nat, max: nat)
    requires
        v <= max,
    ensures
        parsed(padded(v, w), max) == Some(v),
{
    lemma_digit_count(v);
    let n = if digit_count(v) > w { digit_count(v) } else { w };
    lemma_pow10_grows(digit_count(v), n);
    lemma_digits(v, n);
    assert(is_digit(padded(v, w)[0]));
}

pub proof fn lemma_pow10_grows(m: nat, n: nat)
    requires
        m <= n,
    ensures
        pow10(m) <= pow10(n),
    decreases n,
{
    if m < n {
        lemma_pow10_grows(m, (n - 1) as nat);
    }
}

pub proof fn lemma_pow10_ten()
    ensures
        pow10(10) == 10_000_000_000,
{
    reveal_with_fuel(pow10, 11);
}

/// Appending to both sides keeps the order of two different strings of one length.
pub proof fn lemma_lex_extend(a: Seq<u8>, b: Seq<u8>, x: Seq<u8>, y: Seq<u8>)
    requires
        a.len() == b.len(),
        bytes::lex_lt(a, b),
    ensures
        bytes::lex_lt(a + x, b + y),
    decreases a.len(),
{
    if a.len() > 0 {
        assert((a + x).skip(1) =~= a.skip(1) + x);
        assert((b + y).skip(1) =~= b.skip(1) + y);
        if a[0] == b[0] {
            lemma_lex_extend(a.skip(1), b.skip(1), x, y);
        }
    }
}

/// A common front does not change the order of what follows.
pub proof fn lemma_lex_front(p: Seq<u8>, a: Seq<u8>, b: Seq<u8>)
    requires
        bytes::lex_lt(a, b),
    ensures
        bytes::lex_lt(p + a, p + b),
    decreases p.len(),
{
    if p.len() == 0 {
        assert(p + a =~= a);
        assert(p + b =~= b);
    } else {
        assert((p + a).skip(1) =~= p.skip(1) + a);
        assert((p + b).skip(1) =~= p.skip(1) + b);
        lemma_lex_front(p.skip(1), a, b);
    }
}

/// Numbers written with the same number of digits sort as they count.
pub proof fn law_digits_sort(v: nat, u: nat, w: nat)
    requires
        v < u < pow10(w),
    ensures
        bytes::lex_lt(digits(v, w), digits(u, w)),
    decreases w,
{
    let n = (w - 1) as nat;
    let a = digits(v / 10, n);
    let b = digits(u / 10, n);
    let x = seq![(48 + v % 10) as u8];
    let y = seq![(48 + u % 10) as u8];
    lemma_digits(v / 10, n);
    lemma_digits(u / 10, n);
    assert(digits(v, w) =~= a + x);
    assert(digits(u, w) =~= b + y);
    if v / 10 < u / 10 {
        law_digits_sort(v / 10, u / 10, n);
        lemma_lex_extend(a, b, x, y);
    } else {
        assert(x[0] < y[0]);
        assert(bytes::lex_lt(x, y));
        lemma_lex_front(a, x, y);
    }
}

/// A number is padded to the width and no further: every byte is a digit, there are at least as
/// many as asked for and at least one, and a number that is wider than that has no leading zero.
pub proof fn law_padding_stops_at_the_width(v: nat, w: nat)
    ensures
        padded(v, w).len() >= w,
        padded(v, w).len() >= 1,
        forall|i: int| 0 <= i < padded(v, w).len() ==> 48 <= #[trigger] padded(v, w)[i] <= 57,
        padded(v, w).len() > w && padded(v, w).len() > 1 ==> padded(v, w)[0] != 48,
        padded(v, w).last() == 48 + v % 10,
{
    lemma_digit_count(v);
    let n = if digit_count(v) > w { digit_count(v) } else { w };
    lemma_digits(v, n);
    assert forall|i: int| 0 <= i < padded(v, w).len() implies 48 <= #[trigger] padded(v, w)[i]
        <= 57 by {
        assert(is_digit(padded(v, w)[i]));
    }
    if digit_count(v) > w {
        lemma_leading(v);
    }
}

proof fn lemma_leading(v: nat)
    ensures
        digits(v, digit_count(v)).len() == digit_count(v),
        v >= 10 ==> digits(v, digit_count(v))[0] != 48,
        v < 10 ==> digits(v, digit_count(v)) == seq![(48 + v) as u8],
    decreases v,
{
    lemma_digits(v, digit_count(v));
    reveal_with_fuel(digits, 2);
    if v >= 10 {
        lemma_leading(v / 10);
        lemma_digits(v / 10, digit_count(v / 10));
    } else {
        assert(digits(v, 1) =~= seq![(48 + v) as u8]);
    }
}

/// What is read as a number: at least one digit, nothing but digits apart from one plus sign in
/// front, and no more than the maximum. One more digit makes ten times the number plus the digit.
pub proof fn law_what_reads_as_a_number(s: Seq<u8>, max: nat, d: nat)
    requires
        d < 10,
    ensures
        parsed(seq![], max) is None,
        parsed(seq![43u8], max) is None,
        parsed(seq![(48 + d) as u8], max) == (if d <= max {
            Some(d)
        } else {
            None
        }),
        (s.len() > 0 && s[0] != 43) ==> parsed(seq![43u8] + s, max) == parsed(s, max),
        (exists|i: int|
            0 <= i < s.len() && !(48 <= #[trigger] s[i] <= 57) && !(i == 0 && s[i] == 43))
            ==> parsed(s, max) is None,
        parsed(s, max) matches Some(v) ==> v <= max && parsed(s.push((48 + d) as u8), max) == (if 10
            * v + d <= max {
            Some(10 * v + d)
        } else {
            None
        }),
{
    reveal_with_fuel(value, 2);
    let one = seq![(48 + d) as u8];
    assert(all_digits(one)) by {
        assert forall|i: int| 0 <= i < one.len() implies is_digit(#[trigger] one[i]) by {}
    }
    assert(one.drop_last() =~= seq![]);
    assert(value(one) == d);
    assert(seq![43u8].skip(1) =~= seq![]);
    assert((seq![43u8] + s).skip(1) =~= s);
    if exists|i: int|
        0 <= i < s.len() && !(48 <= #[trigger] s[i] <= 57) && !(i == 0 && s[i] == 43) {
        let i = choose|i: int|
            0 <= i < s.len() && !(48 <= #[trigger] s[i] <= 57) && !(i == 0 && s[i] == 43);
        let t = unsigned_part(s);
        if s[0] == 43 {
            assert(!is_digit(t[i - 1]));
        } else {
            assert(!is_digit(t[i]));
        }
    }
    if parsed(s, max) is Some {
        let more = s.push((48 + d) as u8);
        let t = unsigned_part(s);
        let u = unsigned_part(more);
        assert(u =~= t.push((48 + d) as u8));
        assert(u.drop_last() =~= t);
        assert forall|i: int| 0 <= i < u.len() implies is_digit(#[trigger] u[i]) by {
            if i < t.len() {
                assert(is_digit(t[i]));
            }
        }
    }
}

/// `v` in decimal, padded with zeros to at least `w` digits.
pub fn format_padded(v: u64, w: usize) -> (r: Vec<u8>)
    ensures
        r@ == padded(v as nat, w as nat),
{
    let mut back: Vec<u8> = Vec::new();
    let mut rest: u64 = v;
    let ghost full = padded(v as nat, w as nat);
    let ghost n = full.len();
    proof {
        lemma_digit_count(v as nat);
        lemma_digits(
            v as nat,
            if digit_count(v as nat) > w {
                digit_count(v as nat)
            } else {
                w as nat
            },
        );
        assert(full =~= digits(rest as nat, n) + back@.reverse());
    }
    while rest >= 10 || (w > 0 && back.len() < w - 1)
        invariant
            n == (if digit_count(v as nat) > w {
                digit_count(v as nat)
            } else {
                w as nat
            }),
            back.len() + digit_count(rest as nat) <= n,
            back.len() + digit_count(rest as nat) == digit_count(v as nat) || (rest == 0
                && back.len() >= digit_count(v as nat)),
            back.len() < n,
            full == digits(rest as nat, (n - back.len()) as nat) + back@.reverse(),
        decreases n - back.len(),
    {
        let ghost before = back@;
        let ghost m = (n - back.len()) as nat;
        back.push(48 + (rest % 10) as u8);
        proof {
            assert(back@.reverse() =~= seq![(48 + rest as nat % 10) as u8] + before.reverse());
            assert(full =~= digits(rest as nat / 10, (m - 1) as nat) + back@.reverse());
        }
        rest = rest / 10;
    }
    let ghost before = back@;
    back.push(48 + (rest % 10) as u8);
    proof {
        assert(n - before.len() == 1);
        reveal_with_fuel(digits, 2);
        assert(back@.reverse() =~= seq![(48 + rest as nat % 10) as u8] + before.reverse());
        assert(full =~= back@.reverse());
    }
    let mut out: Vec<u8> = Vec::new();
    let mut i: usize = back.len();
    while i > 0
        invariant
            i <= back.len(),
            out@ == back@.reverse().take(back.len() - i),
        decreases i,
    {
        i = i - 1;
        out.push(back[i]);
        assert(out@ =~= back@.reverse().take(back.len() - i));
    }
    assert(out@ =~= back@.reverse());
    out
}

/// Read an unsigned decimal number of at most `max`: an optional plus sign and at least one
/// digit.
pub fn parse_decimal(s: &[u8], max: u64) -> (r: Option<u64>)
    ensures
        match r {
            Some(v) => parsed(s@, max as nat) == Some(v as nat),
            None => parsed(s@, max as nat) is None,
        },
{
    let start: usize = if s.len() > 0 && s[0] == 43 {
        1
    } else {
        0
    };
    let ghost t = unsigned_part(s@);
    assert(s@.skip(0) =~= s@);
    assert(t == s@.skip(start as int));
    if start == s.len() {
        return None;
    }
    let mut acc: u64 = 0;
    let mut i: usize = start;
    assert(t.take(0) =~= seq![]);
    while i < s.len()
        invariant
            start <= i <= s.len(),
            t == unsigned_part(s@),
            t == s@.skip(start as int),
            all_digits(t.take(i - start)),
            acc == value(t.take(i - start)),
            acc <= max,
        decreases s.len() - i,
    {
        let b: u8 = s[i];
        assert(t[i - start] == b);
        if b < 48 || b > 57 {
            assert(!is_digit(t[i - start]));
            return None;
        }
        let d: u64 = (b - 48) as u64;
        assert(t.take(i + 1 - start).drop_last() =~= t.take(i - start));
        proof {
            lemma_value_grows(t, i + 1 - start);
        }
        if acc > u64::MAX / 10 || acc * 10 > u64::MAX - d || acc * 10 + d > max {
            return None;
        }
        acc = acc * 10 + d;
        proof {
            assert forall|j: int| 0 <= j < i + 1 - start implies is_digit(
                #[trigger] t.take(i + 1 - start)[j],
            ) by {
                if j < i - start {
                    assert(t.take(i - start)[j] == t[j]);
                }
            }
        }
        i = i + 1;
    }
    assert(t.take(t.len() as int) =~= t);
    Some(acc)
}

/// More digits write a number at least as large.
proof fn lemma_value_grows(t: Seq<u8>, n: int)
    requires
        0 <= n <= t.len(),
    ensures
        all_digits(t) ==> value(t.take(n)) <= value(t),
    decreases t.len(),
{
    if n < t.len() {
        if all_digits(t) {
            assert(all_digits(t.drop_last())) by {
                assert forall|i: int| 0 <= i < t.drop_last().len() implies is_digit(
                    #[trigger] t.drop_last()[i],
                ) by {
                    assert(is_digit(t[i]));
                }
            }
            lemma_value_grows(t.drop_last(), n);
            assert(t.drop_last().take(n) =~= t.take(n));
            assert(is_digit(t[t.len() - 1]));
        }
    } else {
        assert(t.take(n) =~= t);
    }
}

} // verus!
