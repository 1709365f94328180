//! Little-endian bit strings and their packing into bytes.
//!
//! Bit `j` of a byte is `(b >> j) & 1`; bit `i` of a byte string is bit `i % 8`
//! of byte `i / 8`. Packing a bit string into bytes pads the last byte with zeros.
use vstd::prelude::*;

verus! {

/// Bit `j` (0 = least significant) of a byte.
pub open spec fn bit_of(b: u8, j: int) -> bool {
    (b >> (j as u8)) & 1u8 == 1u8
}

/// The bits of a byte string, least significant bit of the first byte first.
pub open spec fn bits_of(s: Seq<u8>) -> Seq<bool> {
    Seq::new(8 * s.len(), |i: int| bit_of(s[i / 8], i % 8))
}

/// Bit `i` of `s`, reading positions past its end as zero.
pub open spec fn bit_or_zero(s: Seq<bool>, i: int) -> bool {
    0 <= i < s.len() && s[i]
}

/// Number of bytes that hold `n` bits.
pub open spec fn byte_count(n: nat) -> nat {
    (n + 7) / 8
}

/// `s` extended with zeros to a whole number of bytes.
pub open spec fn padded(s: Seq<bool>) -> Seq<bool> {
    Seq::new(8 * byte_count(s.len()), |i: int| bit_or_zero(s, i))
}

/// The byte whose bits, from the least significant, are `b0` .. `b7`.
pub open spec fn pack_byte(
    b0: bool,
    b1: bool,
    b2: bool,
    b3: bool,
    b4: bool,
    b5: bool,
    b6: bool,
    b7: bool,
) -> u8 {
    (if b0 { 1u8 } else { 0u8 }) | (if b1 { 2u8 } else { 0u8 }) | (if b2 { 4u8 } else { 0u8 }) | (
    if b3 {
        8u8
    } else {
        0u8
    }) | (if b4 { 16u8 } else { 0u8 }) | (if b5 { 32u8 } else { 0u8 }) | (if b6 {
        64u8
    } else {
        0u8
    }) | (if b7 { 128u8 } else { 0u8 })
}

/// Byte `i` of the packing of `s`.
pub open spec fn packed_byte(s: Seq<bool>, i: int) -> u8 {
    pack_byte(
        bit_or_zero(s, 8 * i),
        bit_or_zero(s, 8 * i + 1),
        bit_or_zero(s, 8 * i + 2),
        bit_or_zero(s, 8 * i + 3),
        bit_or_zero(s, 8 * i + 4),
        bit_or_zero(s, 8 * i + 5),
        bit_or_zero(s, 8 * i + 6),
        bit_or_zero(s, 8 * i + 7),
    )
}

/// A bit string packed into bytes, the last byte padded with zeros.
pub open spec fn bytes_from_bits(s: Seq<bool>) -> Seq<u8> {
    Seq::new(byte_count(s.len()), |i: int| packed_byte(s, i))
}

proof fn lemma_pack_byte_bits(
    b0: bool,
    b1: bool,
    b2: bool,
    b3: bool,
    b4: bool,
    b5: bool,
    b6: bool,
    b7: bool,
)
    ensures
        bit_of(pack_byte(b0, b1, b2, b3, b4, b5, b6, b7), 0) == b0,
        bit_of(pack_byte(b0, b1, b2, b3, b4, b5, b6, b7), 1) == b1,
        bit_of(pack_byte(b0, b1, b2, b3, b4, b5, b6, b7), 2) == b2,
        bit_of(pack_byte(b0, b1, b2, b3, b4, b5, b6, b7), 3) == b3,
        bit_of(pack_byte(b0, b1, b2, b3, b4, b5, b6, b7), 4) == b4,
        bit_of(pack_byte(b0, b1, b2, b3, b4, b5, b6, b7), 5) == b5,
        bit_of(pack_byte(b0, b1, b2, b3, b4, b5, b6, b7), 6) == b6,
        bit_of(pack_byte(b0, b1, b2, b3, b4, b5, b6, b7), 7) == b7,
{
    let x = pack_byte(b0, b1, b2, b3, b4, b5, b6, b7);
    assert(x == pack_byte(b0, b1, b2, b3, b4, b5, b6, b7) ==> (((x >> 0u8) & 1u8 == 1u8) == b0
        && ((x >> 1u8) & 1u8 == 1u8) == b1 && ((x >> 2u8) & 1u8 == 1u8) == b2 && ((x >> 3u8) & 1u8
        == 1u8) == b3 && ((x >> 4u8) & 1u8 == 1u8) == b4 && ((x >> 5u8) & 1u8 == 1u8) == b5 && ((x
        >> 6u8) & 1u8 == 1u8) == b6 && ((x >> 7u8) & 1u8 == 1u8) == b7)) by (bit_vector);
}

proof fn lemma_byte_repack(b: u8)
    ensures
        pack_byte(
            bit_of(b, 0),
            bit_of(b, 1),
            bit_of(b, 2),
            bit_of(b, 3),
            bit_of(b, 4),
            bit_of(b, 5),
            bit_of(b, 6),
            bit_of(b, 7),
        ) == b,
{
    assert(pack_byte(
        (b >> 0u8) & 1u8 == 1u8,
        (b >> 1u8) & 1u8 == 1u8,
        (b >> 2u8) & 1u8 == 1u8,
        (b >> 3u8) & 1u8 == 1u8,
        (b >> 4u8) & 1u8 == 1u8,
        (b >> 5u8) & 1u8 == 1u8,
        (b >> 6u8) & 1u8 == 1u8,
        (b >> 7u8) & 1u8 == 1u8,
    ) == b) by (bit_vector);
}

/// Reading back the bits of a packed string gives the string, padded with zeros.
pub proof fn lemma_bits_of_packed(s: Seq<bool>)
    ensures
        bits_of(bytes_from_bits(s)) == padded(s),
{
    let b = bytes_from_bits(s);
    assert forall|i: int| 0 <= i < 8 * byte_count(s.len()) implies #[trigger] bits_of(b)[i]
        == bit_or_zero(s, i) by {
        let q = i / 8;
        let r = i % 8;
        assert(0 <= q < byte_count(s.len()));
        assert(i == 8 * q + r);
        lemma_pack_byte_bits(
            bit_or_zero(s, 8 * q),
            bit_or_zero(s, 8 * q + 1),
            bit_or_zero(s, 8 * q + 2),
            bit_or_zero(s, 8 * q + 3),
            bit_or_zero(s, 8 * q + 4),
            bit_or_zero(s, 8 * q + 5),
            bit_or_zero(s, 8 * q + 6),
            bit_or_zero(s, 8 * q + 7),
        );
    }
    assert(bits_of(b) =~= padded(s));
}

/// Packing depends only on the bits read with zero padding, over the bytes produced.
pub proof fn lemma_packed_ext(s: Seq<bool>, t: Seq<bool>)
    requires
        byte_count(s.len()) == byte_count(t.len()),
        forall|i: int| 0 <= i < 8 * byte_count(s.len()) ==> bit_or_zero(s, i) == bit_or_zero(t, i),
    ensures
        bytes_from_bits(s) == bytes_from_bits(t),
{
    assert forall|i: int| 0 <= i < byte_count(s.len()) implies #[trigger] packed_byte(s, i)
        == packed_byte(t, i) by {
        assert(bit_or_zero(s, 8 * i) == bit_or_zero(t, 8 * i));
        assert(bit_or_zero(s, 8 * i + 1) == bit_or_zero(t, 8 * i + 1));
        assert(bit_or_zero(s, 8 * i + 2) == bit_or_zero(t, 8 * i + 2));
        assert(bit_or_zero(s, 8 * i + 3) == bit_or_zero(t, 8 * i + 3));
        assert(bit_or_zero(s, 8 * i + 4) == bit_or_zero(t, 8 * i + 4));
        assert(bit_or_zero(s, 8 * i + 5) == bit_or_zero(t, 8 * i + 5));
        assert(bit_or_zero(s, 8 * i + 6) == bit_or_zero(t, 8 * i + 6));
        assert(bit_or_zero(s, 8 * i + 7) == bit_or_zero(t, 8 * i + 7));
    }
    assert(bytes_from_bits(s) =~= bytes_from_bits(t));
}

/// Packing the bits of a byte string gives the byte string back.
pub proof fn lemma_packed_bits_of(b: Seq<u8>)
    ensures
        bytes_from_bits(bits_of(b)) == b,
{
    let s = bits_of(b);
    assert(byte_count(s.len()) == b.len());
    assert forall|i: int| 0 <= i < b.len() implies #[trigger] packed_byte(s, i) == b[i] by {
        assert((8 * i) / 8 == i && (8 * i) % 8 == 0);
        assert((8 * i + 1) / 8 == i && (8 * i + 1) % 8 == 1);
        assert((8 * i + 2) / 8 == i && (8 * i + 2) % 8 == 2);
        assert((8 * i + 3) / 8 == i && (8 * i + 3) % 8 == 3);
        assert((8 * i + 4) / 8 == i && (8 * i + 4) % 8 == 4);
        assert((8 * i + 5) / 8 == i && (8 * i + 5) % 8 == 5);
        assert((8 * i + 6) / 8 == i && (8 * i + 6) % 8 == 6);
        assert((8 * i + 7) / 8 == i && (8 * i + 7) % 8 == 7);
        lemma_byte_repack(b[i]);
    }
    assert(bytes_from_bits(s) =~= b);
}

/// The bits of a byte string.
pub fn bytes_to_bits(b: &Vec<u8>) -> (r: Vec<bool>)
    requires
        8 * b@.len() <= usize::MAX,
    ensures
        r@ == bits_of(b@),
{
    let mut r: Vec<bool> = Vec::new();
    let mut i: usize = 0;
    while i < b.len()
        invariant
            i <= b@.len(),
            8 * b@.len() <= usize::MAX,
            r@.len() == 8 * i,
            forall|k: int| 0 <= k < 8 * i ==> #[trigger] r@[k] == bit_of(b@[k / 8], k % 8),
        decreases b@.len() - i,
    {
        let byte = b[i];
        let mut j: u8 = 0;
        while j < 8
            invariant
                i < b@.len(),
                j <= 8,
                byte == b@[i as int],
                r@.len() == 8 * i + j,
                forall|k: int| 0 <= k < 8 * i + j ==> #[trigger] r@[k] == bit_of(b@[k / 8], k % 8),
            decreases 8 - j,
        {
            assert((8 * i + j) / 8 == i && (8 * i + j) % 8 == j);
            r.push((byte >> j) & 1u8 == 1u8);
            j = j + 1;
        }
        i = i + 1;
    }
    assert(r@ =~= bits_of(b@));
    r
}

fn bit_at(s: &Vec<bool>, base: usize, j: usize) -> (r: bool)
    requires
        base < s@.len(),
    ensures
        r == bit_or_zero(s@, base + j),
{
    if j < s.len() - base {
        s[base + j]
    } else {
        false
    }
}

/// A bit string packed into bytes, the last byte padded with zeros.
pub fn bits_to_bytes(s: &Vec<bool>) -> (r: Vec<u8>)
    ensures
        r@ == bytes_from_bits(s@),
{
    let len = s.len();
    let n = len / 8 + if len % 8 != 0 {
        1
    } else {
        0
    };
    assert(n == byte_count(s@.len()));
    let mut r: Vec<u8> = Vec::new();
    let mut i: usize = 0;
    while i < n
        invariant
            n == byte_count(s@.len()),
            len == s@.len(),
            i <= n,
            r@.len() == i,
            forall|k: int| 0 <= k < i ==> #[trigger] r@[k] == packed_byte(s@, k),
        decreases n - i,
    {
        assert(8 * i < s@.len()) by (nonlinear_arith)
            requires
                i < n,
                n == (s@.len() + 7) / 8,
        ;
        let base = 8 * i;
        let byte = (if bit_at(s, base, 0) {
            1u8
        } else {
            0u8
        }) | (if bit_at(s, base, 1) {
            2u8
        } else {
            0u8
        }) | (if bit_at(s, base, 2) {
            4u8
        } else {
            0u8
        }) | (if bit_at(s, base, 3) {
            8u8
        } else {
            0u8
        }) | (if bit_at(s, base, 4) {
            16u8
        } else {
            0u8
        }) | (if bit_at(s, base, 5) {
            32u8
        } else {
            0u8
        }) | (if bit_at(s, base, 6) {
            64u8
        } else {
            0u8
        }) | (if bit_at(s, base, 7) {
            128u8
        } else {
            0u8
        });
        r.push(byte);
        i = i + 1;
    }
    assert(r@ =~= bytes_from_bits(s@));
    r
}

/// The bits `lo .. hi` of `s`.
pub fn bit_range(s: &Vec<bool>, lo: usize, hi: usize) -> (r: Vec<bool>)
    requires
        lo <= hi <= s@.len(),
    ensures
        r@ == s@.subrange(lo as int, hi as int),
{
    let mut r: Vec<bool> = Vec::new();
    let mut i: usize = lo;
    while i < hi
        invariant
            lo <= i <= hi <= s@.len(),
            r@ == s@.subrange(lo as int, i as int),
        decreases hi - i,
    {
        r.push(s[i]);
        i = i + 1;
        assert(r@ =~= s@.subrange(lo as int, i as int));
    }
    r
}

/// Appends the bits of `src` to `dst`.
pub fn append_bits(dst: &mut Vec<bool>, src: &Vec<bool>)
    ensures
        final(dst)@ == old(dst)@ + src@,
{
    let mut i: usize = 0;
    while i < src.len()
        invariant
            i <= src@.len(),
            dst@ == old(dst)@ + src@.take(i as int),
        decreases src@.len() - i,
    {
        dst.push(src[i]);
        i = i + 1;
        assert(dst@ =~= old(dst)@ + src@.take(i as int));
    }
    assert(src@.take(src@.len() as int) =~= src@);
}

/// The first `n` bits of a byte string, or all of them where it holds fewer.
pub fn bits_prefix(b: &Vec<u8>, n: usize) -> (r: Vec<bool>)
    ensures
        r@ == (if n <= bits_of(b@).len() {
            bits_of(b@).take(n as int)
        } else {
            bits_of(b@)
        }),
{
    let mut r: Vec<bool> = Vec::new();
    let mut i: usize = 0;
    while i < n && i / 8 < b.len()
        invariant
            i <= n,
            i <= 8 * b@.len(),
            r@ == bits_of(b@).take(i as int),
        decreases n - i,
    {
        let byte = b[i / 8];
        let j = (i % 8) as u8;
        r.push((byte >> j) & 1u8 == 1u8);
        i = i + 1;
        assert(r@ =~= bits_of(b@).take(i as int));
    }
    proof {
        if n > bits_of(b@).len() {
            assert(i == 8 * b@.len());
            assert(r@ =~= bits_of(b@));
        }
    }
    r
}

/// Whether every bit of `s` from position `from` on is zero.
pub fn zero_from_exec(s: &Vec<bool>, from: usize) -> (r: bool)
    ensures
        r == (forall|i: int| from <= i < s@.len() ==> !#[trigger] s@[i]),
{
    let mut i: usize = from;
    while i < s.len()
        invariant
            from <= i,
            forall|k: int| from <= k < i && k < s@.len() ==> !#[trigger] s@[k],
        decreases s@.len() - i,
    {
        if s[i] {
            return false;
        }
        i = i + 1;
    }
    true
}

} // verus!
