//! Packed bit arrays: bit `k` of a byte slice lives in byte `k / 8`, at bit
//! position `k % 8` (least significant bit first).
use vstd::prelude::*;
use crate::gf2::is_binary;

verus! {

/// The bit stored at position `bit` of `bytes` (0 past the end of the slice).
pub open spec fn spec_get_bit(bytes: Seq<u8>, bit: int) -> u8 {
    if 0 <= bit && bit / 8 < bytes.len() {
        (bytes[bit / 8] >> ((bit % 8) as u8)) & 1u8
    } else {
        0
    }
}

/// The unpacked view of a byte slice: one entry (0 or 1) per stored bit.
pub open spec fn bit_view(bytes: Seq<u8>) -> Seq<u8> {
    Seq::new(8 * bytes.len(), |k: int| spec_get_bit(bytes, k))
}

/// `b` with bit `offset` set to `value`.
pub open spec fn byte_with_bit(b: u8, offset: u8, value: bool) -> u8 {
    if value {
        b | (1u8 << offset)
    } else {
        b & !(1u8 << offset)
    }
}

/// The other binary value.
pub open spec fn flip(b: u8) -> u8 {
    if b == 0 { 1 } else { 0 }
}

/// `b` with bit `offset` inverted.
pub open spec fn byte_with_flip(b: u8, offset: u8) -> u8 {
    b ^ (1u8 << offset)
}

/// `bytes` after `set_bit(bytes, bit, value)`.
pub open spec fn spec_set_bit(bytes: Seq<u8>, bit: int, value: bool) -> Seq<u8> {
    if 0 <= bit && bit / 8 < bytes.len() {
        bytes.update(bit / 8, byte_with_bit(bytes[bit / 8], (bit % 8) as u8, value))
    } else {
        bytes
    }
}

/// `bytes` after `xor_bit(bytes, bit)`.
pub open spec fn spec_xor_bit(bytes: Seq<u8>, bit: int) -> Seq<u8> {
    if 0 <= bit && bit / 8 < bytes.len() {
        bytes.update(bit / 8, byte_with_flip(bytes[bit / 8], (bit % 8) as u8))
    } else {
        bytes
    }
}

/// `dst` after `xor_bytes(dst, src)`: the common prefix is XORed, the rest kept.
pub open spec fn spec_xor_bytes(dst: Seq<u8>, src: Seq<u8>) -> Seq<u8> {
    Seq::new(dst.len(), |i: int| if i < src.len() { dst[i] ^ src[i] } else { dst[i] })
}

proof fn lemma_split_index(bit: usize)
    by (bit_vector)
    ensures
        bit >> 3usize == bit / 8,
        bit & 7usize == bit % 8,
        (bit & 7usize) < 8,
{
}

proof fn lemma_bit_of_set(b: u8, o: u8, p: u8)
    by (bit_vector)
    requires
        o < 8,
        p < 8,
    ensures
        ((b | (1u8 << o)) >> p) & 1u8 == if p == o { 1u8 } else { (b >> p) & 1u8 },
        ((b & !(1u8 << o)) >> p) & 1u8 == if p == o { 0u8 } else { (b >> p) & 1u8 },
        ((b ^ (1u8 << o)) >> p) & 1u8 == if p == o { (if (b >> p) & 1u8 == 0u8 { 1u8 } else { 0u8 }) } else { (b >> p) & 1u8 },
        (b >> p) & 1u8 <= 1u8,
{
}

proof fn lemma_bit_is_binary(b: u8, p: u8)
    by (bit_vector)
    requires
        p < 8,
    ensures
        (b >> p) & 1u8 == 0u8 || (b >> p) & 1u8 == 1u8,
{
}

/// Every entry of the unpacked view is 0 or 1.
pub proof fn lemma_bit_view_binary(bytes: Seq<u8>)
    ensures
        is_binary(bit_view(bytes)),
{
    assert forall|k: int| 0 <= k < bit_view(bytes).len() implies #[trigger] bit_view(bytes)[k] <= 1 by {
        lemma_bit_is_binary(bytes[k / 8], (k % 8) as u8);
    }
}

/// Writing one bit changes that bit of the view and nothing else.
pub proof fn lemma_set_bit_view(bytes: Seq<u8>, bit: int, value: bool)
    ensures
        bit_view(spec_set_bit(bytes, bit, value)) == if 0 <= bit < 8 * bytes.len() {
            bit_view(bytes).update(bit, if value { 1u8 } else { 0u8 })
        } else {
            bit_view(bytes)
        },
{
    let after = spec_set_bit(bytes, bit, value);
    let expect = if 0 <= bit < 8 * bytes.len() {
        bit_view(bytes).update(bit, if value { 1u8 } else { 0u8 })
    } else {
        bit_view(bytes)
    };
    assert forall|k: int| 0 <= k < 8 * bytes.len() implies #[trigger] bit_view(after)[k] == expect[k] by {
        if 0 <= bit < 8 * bytes.len() && k / 8 == bit / 8 {
            lemma_bit_of_set(bytes[bit / 8], (bit % 8) as u8, (k % 8) as u8);
        }
    }
    assert(bit_view(after) =~= expect);
}

/// Flipping one bit changes that bit of the view and nothing else.
pub proof fn lemma_xor_bit_view(bytes: Seq<u8>, bit: int)
    ensures
        bit_view(spec_xor_bit(bytes, bit)) == if 0 <= bit < 8 * bytes.len() {
            bit_view(bytes).update(bit, flip(bit_view(bytes)[bit]))
        } else {
            bit_view(bytes)
        },
{
    let after = spec_xor_bit(bytes, bit);
    let expect = if 0 <= bit < 8 * bytes.len() {
        bit_view(bytes).update(bit, flip(bit_view(bytes)[bit]))
    } else {
        bit_view(bytes)
    };
    assert forall|k: int| 0 <= k < 8 * bytes.len() implies #[trigger] bit_view(after)[k] == expect[k] by {
        if 0 <= bit < 8 * bytes.len() && k / 8 == bit / 8 {
            lemma_bit_of_set(bytes[bit / 8], (bit % 8) as u8, (k % 8) as u8);
        }
    }
    assert(bit_view(after) =~= expect);
}

proof fn lemma_byte_from_bits(b1: u8, b2: u8)
    by (bit_vector)
    requires
        (b1 >> 0u8) & 1u8 == (b2 >> 0u8) & 1u8,
        (b1 >> 1u8) & 1u8 == (b2 >> 1u8) & 1u8,
        (b1 >> 2u8) & 1u8 == (b2 >> 2u8) & 1u8,
        (b1 >> 3u8) & 1u8 == (b2 >> 3u8) & 1u8,
        (b1 >> 4u8) & 1u8 == (b2 >> 4u8) & 1u8,
        (b1 >> 5u8) & 1u8 == (b2 >> 5u8) & 1u8,
        (b1 >> 6u8) & 1u8 == (b2 >> 6u8) & 1u8,
        (b1 >> 7u8) & 1u8 == (b2 >> 7u8) & 1u8,
    ensures
        b1 == b2,
{
}

/// Byte slices of equal length with the same bits are equal.
pub proof fn lemma_bit_view_injective(a: Seq<u8>, b: Seq<u8>)
    requires
        a.len() == b.len(),
        bit_view(a) == bit_view(b),
    ensures
        a == b,
{
    assert forall|i: int| 0 <= i < a.len() implies a[i] == b[i] by {
        assert((8 * i + 0) / 8 == i && (8 * i + 0) % 8 == 0);
        assert(bit_view(a)[8 * i + 0] == (a[i] >> 0u8) & 1u8);
        assert(bit_view(b)[8 * i + 0] == (b[i] >> 0u8) & 1u8);
        assert((8 * i + 1) / 8 == i && (8 * i + 1) % 8 == 1);
        assert(bit_view(a)[8 * i + 1] == (a[i] >> 1u8) & 1u8);
        assert(bit_view(b)[8 * i + 1] == (b[i] >> 1u8) & 1u8);
        assert((8 * i + 2) / 8 == i && (8 * i + 2) % 8 == 2);
        assert(bit_view(a)[8 * i + 2] == (a[i] >> 2u8) & 1u8);
        assert(bit_view(b)[8 * i + 2] == (b[i] >> 2u8) & 1u8);
        assert((8 * i + 3) / 8 == i && (8 * i + 3) % 8 == 3);
        assert(bit_view(a)[8 * i + 3] == (a[i] >> 3u8) & 1u8);
        assert(bit_view(b)[8 * i + 3] == (b[i] >> 3u8) & 1u8);
        assert((8 * i + 4) / 8 == i && (8 * i + 4) % 8 == 4);
        assert(bit_view(a)[8 * i + 4] == (a[i] >> 4u8) & 1u8);
        assert(bit_view(b)[8 * i + 4] == (b[i] >> 4u8) & 1u8);
        assert((8 * i + 5) / 8 == i && (8 * i + 5) % 8 == 5);
        assert(bit_view(a)[8 * i + 5] == (a[i] >> 5u8) & 1u8);
        assert(bit_view(b)[8 * i + 5] == (b[i] >> 5u8) & 1u8);
        assert((8 * i + 6) / 8 == i && (8 * i + 6) % 8 == 6);
        assert(bit_view(a)[8 * i + 6] == (a[i] >> 6u8) & 1u8);
        assert(bit_view(b)[8 * i + 6] == (b[i] >> 6u8) & 1u8);
        assert((8 * i + 7) / 8 == i && (8 * i + 7) % 8 == 7);
        assert(bit_view(a)[8 * i + 7] == (a[i] >> 7u8) & 1u8);
        assert(bit_view(b)[8 * i + 7] == (b[i] >> 7u8) & 1u8);
        lemma_byte_from_bits(a[i], b[i]);
    }
    assert(a =~= b);
}

/// Reading a bit just written gives the written value; every other bit,
/// and the length, are unchanged.
pub proof fn lemma_get_after_set(bytes: Seq<u8>, bit: int, value: bool, other: int)
    requires
        0 <= bit < 8 * bytes.len(),
        other != bit,
    ensures
        spec_get_bit(spec_set_bit(bytes, bit, value), bit) == if value { 1u8 } else { 0u8 },
        spec_get_bit(spec_set_bit(bytes, bit, value), other) == spec_get_bit(bytes, other),
        spec_set_bit(bytes, bit, value).len() == bytes.len(),
{
    lemma_set_bit_view(bytes, bit, value);
    assert(bit_view(spec_set_bit(bytes, bit, value))[bit] == spec_get_bit(
        spec_set_bit(bytes, bit, value),
        bit,
    ));
    if 0 <= other < 8 * bytes.len() {
        assert(bit_view(spec_set_bit(bytes, bit, value))[other] == spec_get_bit(
            spec_set_bit(bytes, bit, value),
            other,
        ));
    }
}

proof fn lemma_flip_twice(b: u8, o: u8)
    by (bit_vector)
    ensures
        (b ^ (1u8 << o)) ^ (1u8 << o) == b,
{
}

proof fn lemma_xor_twice(a: u8, b: u8)
    by (bit_vector)
    ensures
        (a ^ b) ^ b == a,
{
}

/// Flipping the same bit twice restores the bytes.
pub proof fn lemma_xor_bit_involution(bytes: Seq<u8>, bit: int)
    ensures
        spec_xor_bit(spec_xor_bit(bytes, bit), bit) == bytes,
{
    if 0 <= bit && bit / 8 < bytes.len() {
        lemma_flip_twice(bytes[bit / 8], (bit % 8) as u8);
        assert(spec_xor_bit(spec_xor_bit(bytes, bit), bit) =~= bytes);
    }
}

/// XORing the same source in twice restores the destination.
pub proof fn lemma_xor_bytes_self_inverse(dst: Seq<u8>, src: Seq<u8>)
    ensures
        spec_xor_bytes(spec_xor_bytes(dst, src), src) == dst,
{
    assert forall|i: int| 0 <= i < dst.len() implies #[trigger] spec_xor_bytes(
        spec_xor_bytes(dst, src),
        src,
    )[i] == dst[i] by {
        if i < src.len() {
            lemma_xor_twice(dst[i], src[i]);
        }
    }
    assert(spec_xor_bytes(spec_xor_bytes(dst, src), src) =~= dst);
}

/// Namespace of the bit-array operations.
pub struct BitArray;

impl BitArray {
    /// Reads bit `bit` of `bytes` (0 or 1); a bit past the end reads as 0.
    pub fn get_bit(bytes: &[u8], bit: usize) -> (r: u8)
        ensures
            r == spec_get_bit(bytes@, bit as int),
            r <= 1,
            (bit as int) < 8 * bytes@.len() ==> r == bit_view(bytes@)[bit as int],
    {
        proof {
            lemma_split_index(bit);
        }
        let byte = bit >> 3;
        let offset = (bit & 7) as u8;
        if byte >= bytes.len() {
            return 0;
        }
        proof {
            lemma_bit_is_binary(bytes@[byte as int], offset);
        }
        (bytes[byte] >> offset) & 1
    }

    /// Sets bit `bit` of `bytes` to `value`; a bit past the end is ignored.
    pub fn set_bit(bytes: &mut [u8], bit: usize, value: bool)
        ensures
            final(bytes)@ == spec_set_bit(old(bytes)@, bit as int, value),
            final(bytes)@.len() == old(bytes)@.len(),
    {
        proof {
            lemma_split_index(bit);
        }
        let byte = bit >> 3;
        let offset = (bit & 7) as u8;
        if byte >= bytes.len() {
            return;
        }
        if value {
            bytes[byte] = bytes[byte] | (1u8 << offset);
        } else {
            bytes[byte] = bytes[byte] & !(1u8 << offset);
        }
    }

    /// Flips bit `bit` of `bytes`; a bit past the end is ignored.
    pub fn xor_bit(bytes: &mut [u8], bit: usize)
        ensures
            final(bytes)@ == spec_xor_bit(old(bytes)@, bit as int),
            final(bytes)@.len() == old(bytes)@.len(),
    {
        proof {
            lemma_split_index(bit);
        }
        let byte = bit >> 3;
        let offset = (bit & 7) as u8;
        if byte >= bytes.len() {
            return;
        }
        bytes[byte] = bytes[byte] ^ (1u8 << offset);
    }

    /// XORs `src` into `dst` over their common length; the rest of `dst` is kept.
    pub fn xor_bytes(dst: &mut [u8], src: &[u8])
        ensures
            final(dst)@ == spec_xor_bytes(old(dst)@, src@),
    {
        let len = if dst.len() < src.len() {
            dst.len()
        } else {
            src.len()
        };
        let mut i: usize = 0;
        while i < len
            invariant
                len <= dst@.len(),
                len <= src@.len(),
                len == dst@.len() || len == src@.len(),
                i <= len,
                dst@.len() == old(dst)@.len(),
                forall|k: int| 0 <= k < i ==> #[trigger] dst@[k] == old(dst)@[k] ^ src@[k],
                forall|k: int| i <= k < dst@.len() ==> #[trigger] dst@[k] == old(dst)@[k],
            decreases len - i,
        {
            dst[i] = dst[i] ^ src[i];
            i = i + 1;
        }
        assert(dst@ =~= spec_xor_bytes(old(dst)@, src@));
    }
}

} // verus!
