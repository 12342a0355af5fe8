//! IEEE 802.3 CRC-32, the integrity guard of every on-disk format.
//!
//! One definition serves the log, the checkpoint, the blob log and the tree document:
//! [`crc32`] over a whole buffer, or [`Crc`] fed in chunks.

use vstd::prelude::*;

verus! {

/// One step of the reflected division: shift out the lowest bit and, when it was set,
/// subtract the polynomial `0xEDB88320`.
pub open spec fn crc_bit(c: u32) -> u32 {
    if c & 1 != 0 {
        0xEDB8_8320u32 ^ (c >> 1)
    } else {
        c >> 1
    }
}

/// Eight steps: the effect of one byte already folded into the low bits.
pub open spec fn crc_byte(c: u32) -> u32 {
    crc_bit(crc_bit(crc_bit(crc_bit(crc_bit(crc_bit(crc_bit(crc_bit(c))))))))
}

/// `n` steps of the reflected division.
spec fn crc_bits(c: u32, n: nat) -> u32
    decreases n,
{
    if n == 0 {
        c
    } else {
        crc_bit(crc_bits(c, (n - 1) as nat))
    }
}

/// The running remainder after folding `data` into `state`, byte by byte.
pub open spec fn crc_fold(state: u32, data: Seq<u8>) -> u32
    decreases data.len(),
{
    if data.len() == 0 {
        state
    } else {
        crc_byte(crc_fold(state, data.drop_last()) ^ (data.last() as u32))
    }
}

/// The CRC-32 of `data`: all-ones initial remainder, complemented at the end.
pub open spec fn crc_of(data: Seq<u8>) -> u32 {
    !crc_fold(0xFFFF_FFFF, data)
}

/// Folding a concatenation is folding its halves in turn: a checksum can be streamed.
pub proof fn law_crc_streams(state: u32, a: Seq<u8>, b: Seq<u8>)
    ensures
        crc_fold(state, a + b) == crc_fold(crc_fold(state, a), b),
    decreases b.len(),
{
    if b.len() == 0 {
        assert(a + b =~= a);
    } else {
        law_crc_streams(state, a, b.drop_last());
        assert((a + b).drop_last() =~= a + b.drop_last());
        assert((a + b).last() == b.last());
    }
}

/// Distinct remainders stay distinct through eight steps.
proof fn lemma_crc_byte_injective(a: u32, b: u32)
    requires
        a != b,
    ensures
        crc_byte(a) != crc_byte(b),
{
    assert forall|x: u32, y: u32| x != y implies #[trigger] crc_bit(x) != #[trigger] crc_bit(y) by {
        assert(x != y ==> crc_bit(x) != crc_bit(y)) by (bit_vector);
    }
}

/// Distinct remainders stay distinct through any data.
proof fn lemma_crc_fold_injective(s: u32, t: u32, data: Seq<u8>)
    requires
        s != t,
    ensures
        crc_fold(s, data) != crc_fold(t, data),
    decreases data.len(),
{
    if data.len() > 0 {
        lemma_crc_fold_injective(s, t, data.drop_last());
        let x = crc_fold(s, data.drop_last());
        let y = crc_fold(t, data.drop_last());
        let b = data.last() as u32;
        assert(x != y ==> x ^ b != y ^ b) by (bit_vector);
        lemma_crc_byte_injective(x ^ b, y ^ b);
    }
}

/// A change confined to one byte always changes the checksum.
pub proof fn law_crc_detects_a_changed_byte(a: Seq<u8>, i: int, v: u8)
    requires
        0 <= i < a.len(),
        a[i] != v,
    ensures
        crc_of(a) != crc_of(a.update(i, v)),
{
    let init = 0xFFFF_FFFFu32;
    let head = a.take(i);
    let tail = a.skip(i + 1);
    let b = a.update(i, v);
    assert(a =~= head.push(a[i]) + tail);
    assert(b =~= head.push(v) + tail);
    law_crc_streams(init, head.push(a[i]), tail);
    law_crc_streams(init, head.push(v), tail);
    assert(head.push(a[i]).drop_last() =~= head);
    assert(head.push(v).drop_last() =~= head);
    let h = crc_fold(init, head);
    let x = a[i] as u32;
    let y = v as u32;
    assert(x != y ==> h ^ x != h ^ y) by (bit_vector);
    lemma_crc_byte_injective(h ^ x, h ^ y);
    lemma_crc_fold_injective(crc_byte(h ^ x), crc_byte(h ^ y), tail);
    let p = crc_fold(init, a);
    let q = crc_fold(init, b);
    assert(p != q ==> !p != !q) by (bit_vector);
}

/// The checksum is that of the reflected polynomial `0xEDB88320`: data followed by its own
/// checksum, least significant byte first, always has the checksum `0x2144DF1C`.
pub proof fn law_a_checksummed_message_has_the_residue(data: Seq<u8>, sum: Seq<u8>)
    requires
        sum.len() == 4,
        sum[0] == crc_of(data) & 0xFF,
        sum[1] == (crc_of(data) >> 8) & 0xFF,
        sum[2] == (crc_of(data) >> 16) & 0xFF,
        sum[3] == (crc_of(data) >> 24) & 0xFF,
    ensures
        crc_of(data + sum) == 0x2144_DF1C,
{
    let s = crc_fold(0xFFFF_FFFF, data);
    let b0 = sum[0] as u32;
    let b1 = sum[1] as u32;
    let b2 = sum[2] as u32;
    let b3 = sum[3] as u32;
    law_crc_streams(0xFFFF_FFFF, data, sum);
    reveal_with_fuel(crc_fold, 5);
    let s3 = sum.drop_last();
    let s2 = s3.drop_last();
    let s1 = s2.drop_last();
    assert(s3.last() == sum[2] && s2.last() == sum[1] && s1.last() == sum[0]);
    let x1 = crc_byte(s ^ b0);
    let x2 = crc_byte(x1 ^ b1);
    let x3 = crc_byte(x2 ^ b2);
    let x4 = crc_byte(x3 ^ b3);
    assert(crc_fold(s, sum) == x4);
    assert(crc_byte(s ^ b0) == (s >> 8) ^ 0x2D02_EF8D) by (bit_vector)
        requires
            b0 == !s & 0xFF,
    ;
    assert(crc_byte(x1 ^ b1) == (s >> 16) ^ 0xBE26_12FF) by (bit_vector)
        requires
            x1 == (s >> 8) ^ 0x2D02_EF8D,
            b1 == (!s >> 8) & 0xFF,
    ;
    assert(crc_byte(x2 ^ b2) == (s >> 24) ^ 0x00BE_2612) by (bit_vector)
        requires
            x2 == (s >> 16) ^ 0xBE26_12FF,
            b2 == (!s >> 16) & 0xFF,
    ;
    assert(crc_byte(x3 ^ b3) == 0xDEBB_20E3) by (bit_vector)
        requires
            x3 == (s >> 24) ^ 0x00BE_2612,
            b3 == (!s >> 24) & 0xFF,
    ;
    assert(!0xDEBB_20E3u32 == 0x2144_DF1C) by (bit_vector);
}

/// The checksum is affine in the data: changing the same bits of two messages of one length
/// changes their checksums by the same bits.
pub proof fn law_the_checksum_is_affine(a: Seq<u8>, b: Seq<u8>, d: Seq<u8>)
    requires
        a.len() == b.len() == d.len(),
    ensures
        crc_of(a) ^ crc_of(Seq::new(a.len(), |i: int| a[i] ^ d[i])) == crc_of(b) ^ crc_of(
            Seq::new(b.len(), |i: int| b[i] ^ d[i]),
        ),
{
    let init = 0xFFFF_FFFFu32;
    let x = Seq::new(a.len(), |i: int| a[i] ^ d[i]);
    let y = Seq::new(b.len(), |i: int| b[i] ^ d[i]);
    lemma_fold_affine(init, a, b, d);
    let p = crc_fold(init, a);
    let q = crc_fold(init, x);
    let r = crc_fold(init, b);
    let t = crc_fold(init, y);
    assert(p ^ q == r ^ t ==> !p ^ !q == !r ^ !t) by (bit_vector);
}

proof fn lemma_bit_linear(w: u32, x: u32, y: u32, z: u32)
    requires
        w ^ x == y ^ z,
    ensures
        crc_bit(w) ^ crc_bit(x) == crc_bit(y) ^ crc_bit(z),
{
    assert(w ^ x == y ^ z ==> crc_bit(w) ^ crc_bit(x) == crc_bit(y) ^ crc_bit(z)) by (bit_vector);
}

proof fn lemma_bits_linear(w: u32, x: u32, y: u32, z: u32, n: nat)
    requires
        w ^ x == y ^ z,
    ensures
        crc_bits(w, n) ^ crc_bits(x, n) == crc_bits(y, n) ^ crc_bits(z, n),
    decreases n,
{
    if n > 0 {
        let m = (n - 1) as nat;
        lemma_bits_linear(w, x, y, z, m);
        lemma_bit_linear(crc_bits(w, m), crc_bits(x, m), crc_bits(y, m), crc_bits(z, m));
    }
}

proof fn lemma_fold_affine(init: u32, a: Seq<u8>, b: Seq<u8>, d: Seq<u8>)
    requires
        a.len() == b.len() == d.len(),
    ensures
        crc_fold(init, a) ^ crc_fold(init, Seq::new(a.len(), |i: int| a[i] ^ d[i])) == crc_fold(
            init,
            b,
        ) ^ crc_fold(init, Seq::new(b.len(), |i: int| b[i] ^ d[i])),
    decreases a.len(),
{
    let x = Seq::new(a.len(), |i: int| a[i] ^ d[i]);
    let y = Seq::new(b.len(), |i: int| b[i] ^ d[i]);
    if a.len() == 0 {
        assert(init ^ init == init ^ init);
    } else {
        let a1 = a.drop_last();
        let b1 = b.drop_last();
        let d1 = d.drop_last();
        lemma_fold_affine(init, a1, b1, d1);
        assert(x.drop_last() =~= Seq::new(a1.len(), |i: int| a1[i] ^ d1[i]));
        assert(y.drop_last() =~= Seq::new(b1.len(), |i: int| b1[i] ^ d1[i]));
        let p = crc_fold(init, a1);
        let q = crc_fold(init, x.drop_last());
        let r = crc_fold(init, b1);
        let t = crc_fold(init, y.drop_last());
        let u = a.last();
        let v = b.last();
        let w = d.last();
        assert(x.last() == u ^ w && y.last() == v ^ w);
        assert(p ^ q == r ^ t ==> (p ^ (u as u32)) ^ (q ^ ((u ^ w) as u32)) == (r ^ (v as u32)) ^ (t
            ^ ((v ^ w) as u32))) by (bit_vector);
        let p1 = p ^ (u as u32);
        let q1 = q ^ ((u ^ w) as u32);
        let r1 = r ^ (v as u32);
        let t1 = t ^ ((v ^ w) as u32);
        lemma_bits_linear(p1, q1, r1, t1, 8);
        reveal_with_fuel(crc_bits, 9);
    }
}

/// Eight steps act on the low byte alone and shift the rest: the identity behind the
/// lookup table.
proof fn lemma_table_step(c: u32)
    ensures
        crc_byte(c) == (c >> 8) ^ crc_byte(c & 0xFF),
{
    assert(crc_byte(c) == (c >> 8) ^ crc_byte(c & 0xFF)) by (bit_vector);
}

/// `table[i]` is the effect of the byte `i`.
pub open spec fn is_table(table: Seq<u32>) -> bool {
    &&& table.len() == 256
    &&& forall|i: int| 0 <= i < 256 ==> #[trigger] table[i] == crc_byte(i as u32)
}

/// Build the 256-entry lookup table.
pub fn build_table() -> (table: Vec<u32>)
    ensures
        is_table(table@),
{
    let mut table: Vec<u32> = Vec::new();
    let mut i: u32 = 0;
    while i < 256
        invariant
            i <= 256,
            table@.len() == i,
            forall|j: int| 0 <= j < i ==> #[trigger] table@[j] == crc_byte(j as u32),
        decreases 256 - i,
    {
        let mut c: u32 = i;
        let mut j: u32 = 0;
        while j < 8
            invariant
                j <= 8,
                c == crc_bits(i, j as nat),
            decreases 8 - j,
        {
            c = if c & 1 != 0 {
                0xEDB8_8320u32 ^ (c >> 1)
            } else {
                c >> 1
            };
            j = j + 1;
        }
        proof {
            reveal_with_fuel(crc_bits, 9);
        }
        table.push(c);
        i = i + 1;
    }
    table
}

/// The CRC-32 of `data`.
pub fn crc32(data: &[u8]) -> (r: u32)
    ensures
        r == crc_of(data@),
{
    let mut crc: Crc = Crc::new();
    crc.update(data);
    crc.finish()
}

/// An incremental CRC-32 accumulator: feed bytes in chunks, finish once.
pub struct Crc {
    remainder: u32,
    table: Vec<u32>,
}

impl Crc {
    /// The running remainder, not yet complemented.
    pub closed spec fn view(&self) -> u32 {
        self.remainder
    }

    #[verifier::type_invariant]
    spec fn wf(self) -> bool {
        is_table(self.table@)
    }

    /// A fresh accumulator: the all-ones initial remainder.
    pub fn new() -> (r: Crc)
        ensures
            r@ == 0xFFFF_FFFFu32,
    {
        Crc { remainder: 0xFFFF_FFFF, table: build_table() }
    }

    /// Fold `data` into the running checksum.
    pub fn update(&mut self, data: &[u8])
        ensures
            final(self)@ == crc_fold(old(self)@, data@),
    {
        proof {
            use_type_invariant(&*self);
        }
        let ghost start = self.remainder;
        let mut c: u32 = self.remainder;
        let mut i: usize = 0;
        while i < data.len()
            invariant
                i <= data.len(),
                is_table(self.table@),
                c == crc_fold(start, data@.take(i as int)),
            decreases data.len() - i,
        {
            let low: u32 = (c ^ data[i] as u32) & 0xFF;
            proof {
                let b = data@[i as int] as u32;
                assert(low < 256) by (bit_vector)
                    requires
                        low == (c ^ b) & 0xFF,
                ;
                lemma_table_step(c ^ b);
                assert((c ^ b) >> 8 == c >> 8) by (bit_vector)
                    requires
                        b < 256,
                ;
                assert(data@.take(i + 1).drop_last() =~= data@.take(i as int));
                assert(data@.take(i + 1).last() == data@[i as int]);
            }
            c = (c >> 8) ^ self.table[low as usize];
            i = i + 1;
        }
        assert(data@.take(data@.len() as int) =~= data@);
        self.remainder = c;
    }

    /// Finalise: the checksum of everything fed.
    pub fn finish(self) -> (r: u32)
        ensures
            r == !self@,
    {
        !self.remainder
    }
}

impl Default for Crc {
    fn default() -> (r: Crc)
        ensures
            r@ == 0xFFFF_FFFFu32,
    {
        Crc::new()
    }
}

} // verus!
