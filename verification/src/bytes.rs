//! Byte strings: the lexicographic order that sorts keys and file names, prefixes,
//! and the fixed-width integer encodings of the on-disk formats.

use vstd::prelude::*;

verus! {

// ---------------------------------------------------------------------------
// Order
// ---------------------------------------------------------------------------

/// `a` comes strictly before `b` in byte order: at the first difference `a` has the
/// smaller byte, or `a` is a proper prefix of `b`.
pub open spec fn lex_lt(a: Seq<u8>, b: Seq<u8>) -> bool
    decreases b.len(),
{
    if b.len() == 0 {
        false
    } else if a.len() == 0 {
        true
    } else if a[0] != b[0] {
        a[0] < b[0]
    } else {
        lex_lt(a.skip(1), b.skip(1))
    }
}

/// `a` is `b` or comes before it in byte order.
pub open spec fn lex_le(a: Seq<u8>, b: Seq<u8>) -> bool {
    !lex_lt(b, a)
}

/// `s` begins with `prefix`.
pub open spec fn has_prefix(s: Seq<u8>, prefix: Seq<u8>) -> bool {
    prefix.len() <= s.len() && s.take(prefix.len() as int) == prefix
}

/// Byte order is irreflexive.
pub proof fn lemma_lex_irreflexive(a: Seq<u8>)
    ensures
        !lex_lt(a, a),
    decreases a.len(),
{
    if a.len() > 0 {
        lemma_lex_irreflexive(a.skip(1));
    }
}

/// Byte order is transitive.
pub proof fn lemma_lex_transitive(a: Seq<u8>, b: Seq<u8>, c: Seq<u8>)
    requires
        lex_lt(a, b),
        lex_lt(b, c),
    ensures
        lex_lt(a, c),
    decreases c.len(),
{
    if a.len() > 0 && a[0] == b[0] && b[0] == c[0] {
        lemma_lex_transitive(a.skip(1), b.skip(1), c.skip(1));
    }
}

/// Of two byte strings neither of which comes first, both are the same.
pub proof fn lemma_lex_total(a: Seq<u8>, b: Seq<u8>)
    ensures
        lex_lt(a, b) || a == b || lex_lt(b, a),
    decreases b.len(),
{
    if a.len() == 0 {
        if b.len() == 0 {
            assert(a =~= b);
        }
    } else if b.len() > 0 && a[0] == b[0] {
        lemma_lex_total(a.skip(1), b.skip(1));
        if a.skip(1) == b.skip(1) {
            assert(a =~= seq![a[0]] + a.skip(1));
            assert(b =~= seq![b[0]] + b.skip(1));
        }
    }
}

/// At most one of two byte strings comes before the other.
pub proof fn lemma_lex_asymmetric(a: Seq<u8>, b: Seq<u8>)
    requires
        lex_lt(a, b),
    ensures
        !lex_lt(b, a),
        a != b,
{
    lemma_lex_irreflexive(a);
    if lex_lt(b, a) {
        lemma_lex_transitive(a, b, a);
    }
}

/// `a <= b < c` gives `a < c`.
pub proof fn lemma_lex_le_lt(a: Seq<u8>, b: Seq<u8>, c: Seq<u8>)
    requires
        lex_le(a, b),
        lex_lt(b, c),
    ensures
        lex_lt(a, c),
{
    lemma_lex_total(a, b);
    if lex_lt(a, b) {
        lemma_lex_transitive(a, b, c);
    }
}

/// `a < b <= c` gives `a < c`.
pub proof fn lemma_lex_lt_le(a: Seq<u8>, b: Seq<u8>, c: Seq<u8>)
    requires
        lex_lt(a, b),
        lex_le(b, c),
    ensures
        lex_lt(a, c),
{
    lemma_lex_total(b, c);
    if lex_lt(b, c) {
        lemma_lex_transitive(a, b, c);
    }
}

/// A byte string comes at or after each of its prefixes.
pub proof fn lemma_prefix_le(s: Seq<u8>, p: Seq<u8>)
    requires
        has_prefix(s, p),
    ensures
        lex_le(p, s),
    decreases p.len(),
{
    if p.len() > 0 {
        assert(s.take(p.len() as int)[0] == p[0]);
        assert(s.skip(1).take(p.len() - 1) =~= s.take(p.len() as int).skip(1));
        lemma_prefix_le(s.skip(1), p.skip(1));
    }
}

/// The byte strings that begin with `p` are contiguous: one that comes between `p` and a
/// string beginning with `p` begins with `p` too.
pub proof fn lemma_prefix_contiguous(p: Seq<u8>, a: Seq<u8>, b: Seq<u8>)
    requires
        lex_le(p, a),
        lex_lt(a, b),
        has_prefix(b, p),
    ensures
        has_prefix(a, p),
    decreases p.len(),
{
    if p.len() == 0 {
        assert(a.take(0) =~= p);
    } else {
        assert(b.take(p.len() as int)[0] == p[0]);
        assert(a.len() > 0);
        assert(a[0] == p[0]);
        assert(b.skip(1).take(p.len() - 1) =~= b.take(p.len() as int).skip(1));
        lemma_prefix_contiguous(p.skip(1), a.skip(1), b.skip(1));
        assert(a.take(p.len() as int) =~= seq![a[0]] + a.skip(1).take(p.len() - 1));
        assert(p =~= seq![p[0]] + p.skip(1));
    }
}

/// Byte order is decided at the first difference: `a` comes before `b` exactly if they agree up to
/// some position inside `b` where `a` ends or has the smaller byte.
pub proof fn law_the_first_difference_decides(a: Seq<u8>, b: Seq<u8>)
    ensures
        lex_lt(a, b) <==> exists|i: int|
            0 <= i <= a.len() && i < b.len() && #[trigger] a.take(i) == b.take(i) && (i == a.len()
                || a[i] < b[i]),
        lex_le(a, b) <==> a == b || lex_lt(a, b),
    decreases b.len(),
{
    lemma_lex_total(a, b);
    lemma_lex_irreflexive(a);
    if lex_lt(a, b) && lex_lt(b, a) {
        lemma_lex_asymmetric(a, b);
    }
    if b.len() > 0 && a.len() > 0 && a[0] == b[0] {
        let x = a.skip(1);
        let y = b.skip(1);
        law_the_first_difference_decides(x, y);
        if lex_lt(a, b) {
            let i = choose|i: int|
                0 <= i <= x.len() && i < y.len() && #[trigger] x.take(i) == y.take(i) && (i
                    == x.len() || x[i] < y[i]);
            assert forall|j: int| 0 <= j < i + 1 implies a[j] == b[j] by {
                if j > 0 {
                    assert(x.take(i)[j - 1] == y.take(i)[j - 1]);
                }
            }
            assert(a.take(i + 1) =~= b.take(i + 1));
        }
        if exists|i: int|
            0 <= i <= a.len() && i < b.len() && #[trigger] a.take(i) == b.take(i) && (i == a.len()
                || a[i] < b[i]) {
            let i = choose|i: int|
                0 <= i <= a.len() && i < b.len() && #[trigger] a.take(i) == b.take(i) && (i
                    == a.len() || a[i] < b[i]);
            assert forall|j: int| 0 <= j < i - 1 implies x[j] == y[j] by {
                assert(a.take(i)[j + 1] == b.take(i)[j + 1]);
            }
            assert(x.take(i - 1) =~= y.take(i - 1));
        }
    } else if b.len() > 0 {
        assert(a.take(0) =~= b.take(0));
        assert forall|i: int|
            0 <= i <= a.len() && i < b.len() && #[trigger] a.take(i) == b.take(i) && (i == a.len()
                || a[i] < b[i]) && a.len() > 0 implies i == 0 by {
            if i > 0 {
                assert(a.take(i)[0] == b.take(i)[0]);
            }
        }
    }
}

/// A string begins with a prefix exactly if it is the prefix with something behind it.
pub proof fn law_a_prefix_is_a_front(s: Seq<u8>, prefix: Seq<u8>)
    ensures
        has_prefix(s, prefix) <==> exists|t: Seq<u8>| s == #[trigger] (prefix + t),
{
    if has_prefix(s, prefix) {
        assert(s =~= prefix + s.skip(prefix.len() as int));
    }
    assert forall|t: Seq<u8>| s == #[trigger] (prefix + t) implies has_prefix(s, prefix) by {
        assert(s.take(prefix.len() as int) =~= prefix);
    }
}

/// Whether `a` and `b` hold the same bytes.
pub fn bytes_eq(a: &[u8], b: &[u8]) -> (r: bool)
    ensures
        r == (a@ == b@),
{
    if a.len() != b.len() {
        return false;
    }
    let mut i: usize = 0;
    while i < a.len()
        invariant
            i <= a.len(),
            a.len() == b.len(),
            forall|j: int| 0 <= j < i ==> a@[j] == b@[j],
        decreases a.len() - i,
    {
        if a[i] != b[i] {
            return false;
        }
        i = i + 1;
    }
    assert(a@ =~= b@);
    true
}

/// Whether `a` comes strictly before `b` in byte order.
pub fn bytes_lt(a: &[u8], b: &[u8]) -> (r: bool)
    ensures
        r == lex_lt(a@, b@),
{
    let mut i: usize = 0;
    assert(a@.skip(0) =~= a@);
    assert(b@.skip(0) =~= b@);
    while i < a.len() && i < b.len()
        invariant
            i <= a.len(),
            i <= b.len(),
            lex_lt(a@, b@) == lex_lt(a@.skip(i as int), b@.skip(i as int)),
        decreases a.len() - i,
    {
        assert(a@.skip(i as int)[0] == a@[i as int]);
        assert(b@.skip(i as int)[0] == b@[i as int]);
        if a[i] != b[i] {
            return a[i] < b[i];
        }
        assert(a@.skip(i as int).skip(1) =~= a@.skip(i + 1));
        assert(b@.skip(i as int).skip(1) =~= b@.skip(i + 1));
        i = i + 1;
    }
    i < b.len()
}

/// Whether `s` begins with `prefix`.
pub fn starts_with(s: &[u8], prefix: &[u8]) -> (r: bool)
    ensures
        r == has_prefix(s@, prefix@),
{
    if prefix.len() > s.len() {
        return false;
    }
    let head: &[u8] = vstd::slice::slice_subrange(s, 0, prefix.len());
    bytes_eq(head, prefix)
}

/// Append a copy of `src` to `out`.
pub fn push_all(out: &mut Vec<u8>, src: &[u8])
    ensures
        final(out)@ == old(out)@ + src@,
{
    out.extend_from_slice(src);
    assert(out@ =~= old(out)@ + src@);
}

/// A copy of `src`.
pub fn copy_bytes(src: &[u8]) -> (r: Vec<u8>)
    ensures
        r@ == src@,
{
    vstd::slice::slice_to_vec(src)
}

/// A copy of `src[from..to]`.
pub fn copy_range(src: &[u8], from: usize, to: usize) -> (r: Vec<u8>)
    requires
        from <= to <= src@.len(),
    ensures
        r@ == src@.subrange(from as int, to as int),
{
    vstd::slice::slice_to_vec(vstd::slice::slice_subrange(src, from, to))
}

// ---------------------------------------------------------------------------
// Fixed-width integers
// ---------------------------------------------------------------------------

/// `256^n`.
pub open spec fn pow256(n: nat) -> nat
    decreases n,
{
    if n == 0 {
        1
    } else {
        256 * pow256((n - 1) as nat)
    }
}

/// The low `n` base-256 digits of `v`, least significant first.
pub open spec fn le_bytes(v: nat, n: nat) -> Seq<u8>
    decreases n,
{
    if n == 0 {
        Seq::empty()
    } else {
        seq![(v % 256) as u8] + le_bytes(v / 256, (n - 1) as nat)
    }
}

/// The number whose base-256 digits are `s`, least significant first.
pub open spec fn le_value(s: Seq<u8>) -> nat
    decreases s.len(),
{
    if s.len() == 0 {
        0
    } else {
        s[0] as nat + 256 * le_value(s.skip(1))
    }
}

/// The low `n` base-256 digits of `v`, most significant first.
pub open spec fn be_bytes(v: nat, n: nat) -> Seq<u8> {
    le_bytes(v, n).reverse()
}

/// The number whose base-256 digits are `s`, most significant first.
pub open spec fn be_value(s: Seq<u8>) -> nat {
    le_value(s.reverse())
}

pub proof fn lemma_le_bytes_len(v: nat, n: nat)
    ensures
        le_bytes(v, n).len() == n,
        be_bytes(v, n).len() == n,
    decreases n,
{
    if n > 0 {
        lemma_le_bytes_len(v / 256, (n - 1) as nat);
    }
}

/// Decoding an encoded number gives it back, if it fits.
pub proof fn lemma_le_roundtrip(v: nat, n: nat)
    requires
        v < pow256(n),
    ensures
        le_value(le_bytes(v, n)) == v,
    decreases n,
{
    if n > 0 {
        lemma_le_roundtrip(v / 256, (n - 1) as nat);
        assert(le_bytes(v, n).skip(1) =~= le_bytes(v / 256, (n - 1) as nat));
    }
}

/// Encoding a decoded number gives its digits back.
pub proof fn lemma_le_digits(s: Seq<u8>)
    ensures
        le_bytes(le_value(s), s.len()) == s,
    decreases s.len(),
{
    if s.len() > 0 {
        lemma_le_digits(s.skip(1));
        assert(s =~= seq![s[0]] + s.skip(1));
    } else {
        assert(s =~= Seq::empty());
    }
}

/// A number with `n` digits is below `256^n`.
pub proof fn lemma_le_value_bound(s: Seq<u8>)
    ensures
        le_value(s) < pow256(s.len()),
    decreases s.len(),
{
    if s.len() > 0 {
        lemma_le_value_bound(s.skip(1));
    }
}

pub proof fn lemma_be_value_bound(s: Seq<u8>)
    ensures
        be_value(s) < pow256(s.len()),
{
    lemma_le_value_bound(s.reverse());
}

pub proof fn lemma_be_roundtrip(v: nat, n: nat)
    requires
        v < pow256(n),
    ensures
        be_value(be_bytes(v, n)) == v,
{
    lemma_le_roundtrip(v, n);
    assert(le_bytes(v, n).reverse().reverse() =~= le_bytes(v, n));
}

/// Every `u32` survives four bytes and every `u64` eight.
pub proof fn lemma_pow256_bounds()
    ensures
        pow256(4) == 0x1_0000_0000,
        pow256(8) == 0x1_0000_0000_0000_0000,
{
    reveal_with_fuel(pow256, 9);
}

/// What the four little-endian bytes of a `u32` decode to.
pub broadcast proof fn lemma_le_u32(v: u32)
    ensures
        (#[trigger] le_bytes(v as nat, 4)).len() == 4,
        le_value(le_bytes(v as nat, 4)) == v,
{
    lemma_pow256_bounds();
    lemma_le_bytes_len(v as nat, 4);
    lemma_le_roundtrip(v as nat, 4);
}

/// What the eight little-endian bytes of a `u64` decode to.
pub broadcast proof fn lemma_le_u64(v: u64)
    ensures
        (#[trigger] le_bytes(v as nat, 8)).len() == 8,
        le_value(le_bytes(v as nat, 8)) == v,
{
    lemma_pow256_bounds();
    lemma_le_bytes_len(v as nat, 8);
    lemma_le_roundtrip(v as nat, 8);
}

/// What the four big-endian bytes of a `u32` decode to.
pub broadcast proof fn lemma_be_u32(v: u32)
    ensures
        (#[trigger] be_bytes(v as nat, 4)).len() == 4,
        be_value(be_bytes(v as nat, 4)) == v,
{
    lemma_pow256_bounds();
    lemma_le_bytes_len(v as nat, 4);
    lemma_be_roundtrip(v as nat, 4);
}

/// What the eight big-endian bytes of a `u64` decode to.
pub broadcast proof fn lemma_be_u64(v: u64)
    ensures
        (#[trigger] be_bytes(v as nat, 8)).len() == 8,
        be_value(be_bytes(v as nat, 8)) == v,
{
    lemma_pow256_bounds();
    lemma_le_bytes_len(v as nat, 8);
    lemma_be_roundtrip(v as nat, 8);
}

/// The four bytes of a number, least significant first, and the number that four bytes make.
pub proof fn law_four_bytes(v: nat, s: Seq<u8>)
    requires
        s.len() == 4,
    ensures
        le_bytes(v, 4) == seq![
            (v % 256) as u8,
            (v / 256 % 256) as u8,
            (v / 256 / 256 % 256) as u8,
            (v / 256 / 256 / 256 % 256) as u8,
        ],
        be_bytes(v, 4) == seq![
            (v / 256 / 256 / 256 % 256) as u8,
            (v / 256 / 256 % 256) as u8,
            (v / 256 % 256) as u8,
            (v % 256) as u8,
        ],
        le_value(s) == s[0] + 256 * (s[1] + 256 * (s[2] + 256 * s[3])),
        be_value(s) == s[3] + 256 * (s[2] + 256 * (s[1] + 256 * s[0])),
{
    reveal_with_fuel(le_bytes, 5);
    assert(le_bytes(v, 4) =~= seq![
        (v % 256) as u8,
        (v / 256 % 256) as u8,
        (v / 256 / 256 % 256) as u8,
        (v / 256 / 256 / 256 % 256) as u8,
    ]);
    lemma_four(s);
    lemma_four(s.reverse());
}

proof fn lemma_four(s: Seq<u8>)
    requires
        s.len() == 4,
    ensures
        le_value(s) == s[0] + 256 * (s[1] + 256 * (s[2] + 256 * s[3])),
{
    reveal_with_fuel(le_value, 5);
    let a = s.skip(1);
    let b = a.skip(1);
    let c = b.skip(1);
    assert(a[0] == s[1] && b[0] == s[2] && c[0] == s[3]);
    assert(c.skip(1).len() == 0);
}

/// Eight bytes are two times four: the low half of a number first in little-endian order, last in
/// big-endian order.
pub proof fn law_eight_bytes(v: nat, s: Seq<u8>)
    requires
        s.len() == 8,
    ensures
        le_bytes(v, 8) == le_bytes(v, 4) + le_bytes(v / 256 / 256 / 256 / 256, 4),
        be_bytes(v, 8) == be_bytes(v / 256 / 256 / 256 / 256, 4) + be_bytes(v, 4),
        le_value(s) == le_value(s.take(4)) + 0x1_0000_0000 * le_value(s.skip(4)),
        be_value(s) == be_value(s.skip(4)) + 0x1_0000_0000 * be_value(s.take(4)),
{
    reveal_with_fuel(le_bytes, 9);
    assert(le_bytes(v, 8) =~= le_bytes(v, 4) + le_bytes(v / 256 / 256 / 256 / 256, 4));
    assert(be_bytes(v, 8) =~= be_bytes(v / 256 / 256 / 256 / 256, 4) + be_bytes(v, 4));
    lemma_eight(s);
    lemma_eight(s.reverse());
    assert(s.reverse().take(4) =~= s.skip(4).reverse());
    assert(s.reverse().skip(4) =~= s.take(4).reverse());
}

proof fn lemma_eight(s: Seq<u8>)
    requires
        s.len() == 8,
    ensures
        le_value(s) == le_value(s.take(4)) + 0x1_0000_0000 * le_value(s.skip(4)),
{
    reveal_with_fuel(le_value, 5);
    lemma_four(s.take(4));
    let a = s.skip(1);
    let b = a.skip(1);
    let c = b.skip(1);
    assert(a[0] == s[1] && b[0] == s[2] && c[0] == s[3]);
    assert(c.skip(1) =~= s.skip(4));
}

/// Append `v` in little-endian order.
pub fn put_u32_le(out: &mut Vec<u8>, v: u32)
    ensures
        final(out)@ == old(out)@ + le_bytes(v as nat, 4),
{
    let ghost start = out@;
    let mut rest: u32 = v;
    let mut i: usize = 0;
    assert(out@ =~= start + Seq::<u8>::empty());
    while i < 4
        invariant
            i <= 4,
            out@ + le_bytes(rest as nat, (4 - i) as nat) == start + le_bytes(v as nat, 4),
        decreases 4 - i,
    {
        let ghost before = out@;
        out.push((rest % 256) as u8);
        assert(before + le_bytes(rest as nat, (4 - i) as nat) =~= out@ + le_bytes(
            rest as nat / 256,
            (4 - i - 1) as nat,
        ));
        rest = rest / 256;
        i = i + 1;
    }
    assert(out@ + le_bytes(rest as nat, 0) =~= out@);
}

/// Append `v` in little-endian order.
pub fn put_u64_le(out: &mut Vec<u8>, v: u64)
    ensures
        final(out)@ == old(out)@ + le_bytes(v as nat, 8),
{
    let ghost start = out@;
    let mut rest: u64 = v;
    let mut i: usize = 0;
    while i < 8
        invariant
            i <= 8,
            out@ + le_bytes(rest as nat, (8 - i) as nat) == start + le_bytes(v as nat, 8),
        decreases 8 - i,
    {
        let ghost before = out@;
        out.push((rest % 256) as u8);
        assert(before + le_bytes(rest as nat, (8 - i) as nat) =~= out@ + le_bytes(
            rest as nat / 256,
            (8 - i - 1) as nat,
        ));
        rest = rest / 256;
        i = i + 1;
    }
    assert(out@ + le_bytes(rest as nat, 0) =~= out@);
}

/// Read the little-endian `u32` at `b[pos..pos + 4]`.
pub fn get_u32_le(b: &[u8], pos: usize) -> (r: u32)
    requires
        pos + 4 <= b.len(),
    ensures
        r == le_value(b@.subrange(pos as int, pos + 4)),
{
    let mut v: u32 = 0;
    let mut i: usize = 4;
    assert(b@.subrange(pos + 4, pos + 4) =~= Seq::empty());
    while i > 0
        invariant
            i <= 4,
            pos + 4 <= b.len(),
            v == le_value(b@.subrange(pos + i, pos + 4)),
            v < pow256((4 - i) as nat),
        decreases i,
    {
        proof {
            reveal_with_fuel(pow256, 5);
            assert(b@.subrange(pos + i - 1, pos + 4).skip(1) =~= b@.subrange(pos + i, pos + 4));
        }
        v = v * 256 + b[pos + i - 1] as u32;
        i = i - 1;
    }
    v
}

/// Read the little-endian `u64` at `b[pos..pos + 8]`.
pub fn get_u64_le(b: &[u8], pos: usize) -> (r: u64)
    requires
        pos + 8 <= b.len(),
    ensures
        r == le_value(b@.subrange(pos as int, pos + 8)),
{
    let mut v: u64 = 0;
    let mut i: usize = 8;
    assert(b@.subrange(pos + 8, pos + 8) =~= Seq::empty());
    while i > 0
        invariant
            i <= 8,
            pos + 8 <= b.len(),
            v == le_value(b@.subrange(pos + i, pos + 8)),
            v < pow256((8 - i) as nat),
        decreases i,
    {
        proof {
            reveal_with_fuel(pow256, 9);
            assert(b@.subrange(pos + i - 1, pos + 8).skip(1) =~= b@.subrange(pos + i, pos + 8));
        }
        v = v * 256 + b[pos + i - 1] as u64;
        i = i - 1;
    }
    v
}

/// Append `v` in big-endian order.
pub fn put_u32_be(out: &mut Vec<u8>, v: u32)
    ensures
        final(out)@ == old(out)@ + be_bytes(v as nat, 4),
{
    let mut digits: Vec<u8> = Vec::new();
    put_u32_le(&mut digits, v);
    proof {
        lemma_le_bytes_len(v as nat, 4);
        assert(digits@ =~= le_bytes(v as nat, 4));
    }
    push_reversed(out, &digits);
}

/// Append `v` in big-endian order.
pub fn put_u64_be(out: &mut Vec<u8>, v: u64)
    ensures
        final(out)@ == old(out)@ + be_bytes(v as nat, 8),
{
    let mut digits: Vec<u8> = Vec::new();
    put_u64_le(&mut digits, v);
    proof {
        lemma_le_bytes_len(v as nat, 8);
        assert(digits@ =~= le_bytes(v as nat, 8));
    }
    push_reversed(out, &digits);
}

/// Read the big-endian `u32` at `b[pos..pos + 4]`.
pub fn get_u32_be(b: &[u8], pos: usize) -> (r: u32)
    requires
        pos + 4 <= b.len(),
    ensures
        r == be_value(b@.subrange(pos as int, pos + 4)),
{
    let mut digits: Vec<u8> = Vec::new();
    push_reversed(&mut digits, vstd::slice::slice_subrange(b, pos, pos + 4));
    let r: u32 = get_u32_le(&digits, 0);
    assert(digits@.subrange(0, 4) =~= b@.subrange(pos as int, pos + 4).reverse());
    r
}

/// Read the big-endian `u64` at `b[pos..pos + 8]`.
pub fn get_u64_be(b: &[u8], pos: usize) -> (r: u64)
    requires
        pos + 8 <= b.len(),
    ensures
        r == be_value(b@.subrange(pos as int, pos + 8)),
{
    let mut digits: Vec<u8> = Vec::new();
    push_reversed(&mut digits, vstd::slice::slice_subrange(b, pos, pos + 8));
    let r: u64 = get_u64_le(&digits, 0);
    assert(digits@.subrange(0, 8) =~= b@.subrange(pos as int, pos + 8).reverse());
    r
}

/// Append the bytes of `src` in reverse order.
fn push_reversed(out: &mut Vec<u8>, src: &[u8])
    ensures
        final(out)@ == old(out)@ + src@.reverse(),
{
    let ghost start = out@;
    let mut i: usize = src.len();
    while i > 0
        invariant
            i <= src.len(),
            out@ == start + src@.subrange(i as int, src@.len() as int).reverse(),
        decreases i,
    {
        i = i - 1;
        out.push(src[i]);
        assert(out@ =~= start + src@.subrange(i as int, src@.len() as int).reverse());
    }
    assert(src@.subrange(0, src@.len() as int) =~= src@);
}

} // verus!
