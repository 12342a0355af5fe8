//! Decoding: the grammar of length-prefixed, little-endian fields, and a bounded cursor
//! that reads them.
//!
//! A grammar rule takes the bytes still to be read and gives the decoded value with the
//! bytes that remain, or nothing when they are too short.

use crate::bytes;
use crate::bytes::{copy_bytes, get_u32_le, get_u64_le, push_all, put_u32_le};
use vstd::prelude::*;

verus! {

/// One byte.
pub open spec fn take_u8(s: Seq<u8>) -> Option<(u8, Seq<u8>)> {
    if s.len() < 1 {
        None
    } else {
        Some((s[0], s.skip(1)))
    }
}

/// A four-byte little-endian number.
pub open spec fn take_u32(s: Seq<u8>) -> Option<(nat, Seq<u8>)> {
    if s.len() < 4 {
        None
    } else {
        Some((bytes::le_value(s.take(4)), s.skip(4)))
    }
}

/// An eight-byte little-endian number.
pub open spec fn take_u64(s: Seq<u8>) -> Option<(nat, Seq<u8>)> {
    if s.len() < 8 {
        None
    } else {
        Some((bytes::le_value(s.take(8)), s.skip(8)))
    }
}

/// `n` bytes.
pub open spec fn take_n(s: Seq<u8>, n: nat) -> Option<(Seq<u8>, Seq<u8>)> {
    if s.len() < n {
        None
    } else {
        Some((s.take(n as int), s.skip(n as int)))
    }
}

/// A byte string behind its four-byte length.
pub open spec fn take_blob(s: Seq<u8>) -> Option<(Seq<u8>, Seq<u8>)> {
    match take_u32(s) {
        None => None,
        Some((n, rest)) => take_n(rest, n),
    }
}

/// A byte string behind its four-byte length. The length field holds the low 32 bits of
/// the length.
#[verifier::opaque]
pub open spec fn blob(b: Seq<u8>) -> Seq<u8> {
    bytes::le_bytes((b.len() as u32) as nat, 4) + b
}

pub proof fn lemma_take_u8(v: u8, rest: Seq<u8>)
    ensures
        take_u8(seq![v] + rest) == Some((v, rest)),
{
    assert((seq![v] + rest).skip(1) =~= rest);
}

pub proof fn lemma_take_u32(v: u32, rest: Seq<u8>)
    ensures
        take_u32(bytes::le_bytes(v as nat, 4) + rest) == Some((v as nat, rest)),
{
    bytes::lemma_le_u32(v);
    let s = bytes::le_bytes(v as nat, 4) + rest;
    assert(s.take(4) =~= bytes::le_bytes(v as nat, 4));
    assert(s.skip(4) =~= rest);
}

pub proof fn lemma_take_u64(v: u64, rest: Seq<u8>)
    ensures
        take_u64(bytes::le_bytes(v as nat, 8) + rest) == Some((v as nat, rest)),
{
    bytes::lemma_le_u64(v);
    let s = bytes::le_bytes(v as nat, 8) + rest;
    assert(s.take(8) =~= bytes::le_bytes(v as nat, 8));
    assert(s.skip(8) =~= rest);
}

pub proof fn lemma_take_n(b: Seq<u8>, rest: Seq<u8>)
    ensures
        take_n(b + rest, b.len()) == Some((b, rest)),
{
    assert((b + rest).take(b.len() as int) =~= b);
    assert((b + rest).skip(b.len() as int) =~= rest);
}

pub proof fn lemma_take_u32_extends(s: Seq<u8>, t: Seq<u8>)
    ensures
        take_u32(s) matches Some((v, rest)) ==> take_u32(s + t) == Some((v, rest + t)),
{
    if s.len() >= 4 {
        assert((s + t).take(4) =~= s.take(4));
        assert((s + t).skip(4) =~= s.skip(4) + t);
    }
}

pub proof fn lemma_take_u64_extends(s: Seq<u8>, t: Seq<u8>)
    ensures
        take_u64(s) matches Some((v, rest)) ==> take_u64(s + t) == Some((v, rest + t)),
{
    if s.len() >= 8 {
        assert((s + t).take(8) =~= s.take(8));
        assert((s + t).skip(8) =~= s.skip(8) + t);
    }
}

pub proof fn lemma_take_n_extends(s: Seq<u8>, t: Seq<u8>, n: nat)
    ensures
        take_n(s, n) matches Some((b, rest)) ==> take_n(s + t, n) == Some((b, rest + t)),
{
    if s.len() >= n {
        assert((s + t).take(n as int) =~= s.take(n as int));
        assert((s + t).skip(n as int) =~= s.skip(n as int) + t);
    }
}

/// A byte string whose length fits its field is read back whole.
pub proof fn lemma_take_blob(b: Seq<u8>, rest: Seq<u8>)
    requires
        b.len() <= u32::MAX,
    ensures
        take_blob(blob(b) + rest) == Some((b, rest)),
{
    reveal(blob);
    lemma_take_u32(b.len() as u32, b + rest);
    assert(blob(b) + rest =~= bytes::le_bytes((b.len() as u32) as nat, 4) + (b + rest));
    lemma_take_n(b, rest);
}

pub proof fn lemma_blob_len(b: Seq<u8>)
    ensures
        blob(b).len() == b.len() + 4,
{
    reveal(blob);
    bytes::lemma_le_u32(b.len() as u32);
}

/// A field is there exactly if all its bytes are; what remains is what follows them.
pub proof fn law_fields_need_all_their_bytes(s: Seq<u8>, n: nat)
    ensures
        take_u8(s) is None <==> s.len() == 0,
        take_u8(s) matches Some((v, rest)) ==> s == seq![v] + rest,
        take_u32(s) is None <==> s.len() < 4,
        take_u32(s) matches Some((v, rest)) ==> rest == s.skip(4) && v == s[0] + 256 * (s[1] + 256
            * (s[2] + 256 * s[3])),
        take_u64(s) is None <==> s.len() < 8,
        take_u64(s) matches Some((v, rest)) ==> rest == s.skip(8) && v == s[0] + 256 * (s[1] + 256
            * (s[2] + 256 * s[3])) + 0x1_0000_0000 * (s[4] + 256 * (s[5] + 256 * (s[6] + 256
            * s[7]))),
        take_n(s, n) is None <==> s.len() < n,
        take_n(s, n) matches Some((b, rest)) ==> b.len() == n && s == b + rest,
        take_blob(s) is None <==> s.len() < 4 || s.len() < 4 + (s[0] + 256 * (s[1] + 256 * (s[2]
            + 256 * s[3]))),
        take_blob(s) matches Some((b, rest)) ==> s.skip(4) == b + rest && b.len() == s[0] + 256 * (
        s[1] + 256 * (s[2] + 256 * s[3])),
{
    if s.len() >= 1 {
        assert(s =~= seq![s[0]] + s.skip(1));
    }
    if s.len() >= 4 {
        bytes::law_four_bytes(0, s.take(4));
        let m = bytes::le_value(s.take(4));
        if s.len() >= 4 + m {
            let t = s.skip(4);
            assert(t =~= t.take(m as int) + t.skip(m as int));
        }
    }
    if s.len() >= 8 {
        let t = s.take(8);
        bytes::law_eight_bytes(0, t);
        bytes::law_four_bytes(0, t.take(4));
        bytes::law_four_bytes(0, t.skip(4));
    }
    if s.len() >= n {
        assert(s =~= s.take(n as int) + s.skip(n as int));
    }
}

/// A byte string is written as its length, least significant byte first, and then its bytes.
pub proof fn law_a_blob_is_its_length_and_its_bytes(b: Seq<u8>)
    requires
        b.len() <= u32::MAX,
    ensures
        blob(b) == seq![
            (b.len() % 256) as u8,
            (b.len() / 256 % 256) as u8,
            (b.len() / 256 / 256 % 256) as u8,
            (b.len() / 256 / 256 / 256 % 256) as u8,
        ] + b,
{
    reveal(blob);
    bytes::law_four_bytes(b.len(), seq![0u8, 0, 0, 0]);
}

/// Append `b` behind its four-byte length.
pub fn put_blob(out: &mut Vec<u8>, b: &[u8])
    ensures
        final(out)@ == old(out)@ + blob(b@),
{
    #[verifier::truncate]
    let n: u32 = b.len() as u32;
    put_u32_le(out, n);
    push_all(out, b);
    reveal(blob);
    assert(out@ =~= old(out)@ + blob(b@));
}

/// A bounded cursor: every read checks what is left, so damaged input yields `None`
/// rather than a panic.
pub struct Cursor<'a> {
    buf: &'a [u8],
    pos: usize,
}

impl<'a> Cursor<'a> {
    #[verifier::type_invariant]
    spec fn wf(self) -> bool {
        self.pos <= self.buf@.len()
    }

    /// The bytes still to be read.
    pub closed spec fn view(&self) -> Seq<u8> {
        self.buf@.skip(self.pos as int)
    }

    /// A cursor at the start of `buf`.
    pub fn new(buf: &'a [u8]) -> (c: Cursor<'a>)
        ensures
            c@ == buf@,
    {
        let c: Cursor<'a> = Cursor { buf, pos: 0 };
        assert(c@ =~= buf@);
        c
    }

    /// How many bytes are left.
    pub fn remaining(&self) -> (n: usize)
        ensures
            n == self@.len(),
    {
        proof {
            use_type_invariant(self);
        }
        self.buf.len() - self.pos
    }

    /// Read one byte.
    pub fn u8(&mut self) -> (r: Option<u8>)
        ensures
            match take_u8(old(self)@) {
                None => r is None && final(self)@ == old(self)@,
                Some((v, rest)) => r == Some(v) && final(self)@ == rest,
            },
    {
        proof {
            use_type_invariant(&*self);
        }
        if self.remaining() < 1 {
            return None;
        }
        let v: u8 = self.buf[self.pos];
        self.pos = self.pos + 1;
        assert(self@ =~= old(self)@.skip(1));
        Some(v)
    }

    /// Read a four-byte little-endian number.
    pub fn u32(&mut self) -> (r: Option<u32>)
        ensures
            match take_u32(old(self)@) {
                None => r is None && final(self)@ == old(self)@,
                Some((v, rest)) => r is Some && r->0 == v && final(self)@ == rest,
            },
    {
        proof {
            use_type_invariant(&*self);
        }
        if self.remaining() < 4 {
            return None;
        }
        assert(self.pos + 4 <= self.buf.len());
        let v: u32 = get_u32_le(self.buf, self.pos);
        assert(self.buf@.subrange(self.pos as int, self.pos + 4) =~= self@.take(4));
        self.pos = self.pos + 4;
        assert(self@ =~= old(self)@.skip(4));
        Some(v)
    }

    /// Read an eight-byte little-endian number.
    pub fn u64(&mut self) -> (r: Option<u64>)
        ensures
            match take_u64(old(self)@) {
                None => r is None && final(self)@ == old(self)@,
                Some((v, rest)) => r is Some && r->0 == v && final(self)@ == rest,
            },
    {
        proof {
            use_type_invariant(&*self);
        }
        if self.remaining() < 8 {
            return None;
        }
        assert(self.pos + 8 <= self.buf.len());
        let v: u64 = get_u64_le(self.buf, self.pos);
        assert(self.buf@.subrange(self.pos as int, self.pos + 8) =~= self@.take(8));
        self.pos = self.pos + 8;
        assert(self@ =~= old(self)@.skip(8));
        Some(v)
    }

    /// Read `n` bytes.
    pub fn slice(&mut self, n: usize) -> (r: Option<&'a [u8]>)
        ensures
            match take_n(old(self)@, n as nat) {
                None => r is None && final(self)@ == old(self)@,
                Some((b, rest)) => r is Some && r->0@ == b && final(self)@ == rest,
            },
    {
        proof {
            use_type_invariant(&*self);
        }
        if self.remaining() < n {
            return None;
        }
        let from: usize = self.pos;
        assert(from + n <= self.buf.len());
        let b: &'a [u8] = vstd::slice::slice_subrange(self.buf, from, from + n);
        assert(b@ =~= self@.take(n as int));
        self.pos = from + n;
        assert(self@ =~= old(self)@.skip(n as int));
        Some(b)
    }

    /// Read a byte string behind its four-byte length. On `None` the position is
    /// unspecified: the input is damaged and nothing after it is read.
    pub fn blob(&mut self) -> (r: Option<Vec<u8>>)
        ensures
            match take_blob(old(self)@) {
                None => r is None,
                Some((b, rest)) => r is Some && r->0@ == b && final(self)@ == rest,
            },
    {
        match self.u32() {
            None => None,
            Some(n) => match self.slice(n as usize) {
                None => None,
                Some(b) => Some(copy_bytes(b)),
            },
        }
    }
}

} // verus!
