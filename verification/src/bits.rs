//! Bit-level vocabulary shared by the queue, the channel coder and the envelope.
//!
//! A bit string is a `Seq<bool>`. Bytes are read most significant bit first:
//! position 0 of a byte is its bit of weight 128, position 7 its bit of weight 1.
use vstd::prelude::*;

verus! {

/// Bit `k` of `b`, counted from the most significant bit.
pub open spec fn bit8(b: u8, k: u8) -> bool {
    b & (0x80u8 >> k) != 0
}

/// Bit `p` of `v`, counted from the least significant bit.
pub open spec fn bit64(v: u64, p: u64) -> bool {
    (v >> p) & 1 == 1
}

/// Bit `k` of `b`, counted from the most significant bit; `false` outside `0..8`.
pub open spec fn byte_bit(b: u8, k: int) -> bool {
    0 <= k < 8 && bit8(b, k as u8)
}

/// The eight bits of `b`, most significant first.
pub open spec fn byte_bits(b: u8) -> Seq<bool> {
    Seq::new(8, |k: int| byte_bit(b, k))
}

/// The byte whose bits, most significant first, are the eight flags.
pub open spec fn flags_byte(
    b0: bool,
    b1: bool,
    b2: bool,
    b3: bool,
    b4: bool,
    b5: bool,
    b6: bool,
    b7: bool,
) -> u8 {
    (if b0 { 0x80u8 } else { 0u8 }) | (if b1 { 0x40u8 } else { 0u8 }) | (if b2 { 0x20u8 } else { 0u8 })
        | (if b3 { 0x10u8 } else { 0u8 }) | (if b4 { 0x08u8 } else { 0u8 }) | (if b5 { 0x04u8 } else { 0u8 })
        | (if b6 { 0x02u8 } else { 0u8 }) | (if b7 { 0x01u8 } else { 0u8 })
}

/// The byte whose bits, most significant first, are `s[0]` to `s[7]`.
pub open spec fn byte_from_bits(s: Seq<bool>) -> u8 {
    flags_byte(s[0], s[1], s[2], s[3], s[4], s[5], s[6], s[7])
}

/// Bit `j` of `bits`, and `false` past either end.
pub open spec fn bit_or_zero(bits: Seq<bool>, j: int) -> bool {
    0 <= j < bits.len() && bits[j]
}

/// The eight bits of `bits` that start at position `8 * m`, padded with zeros
/// where `bits` ends early.
pub open spec fn window8(bits: Seq<bool>, m: int) -> Seq<bool> {
    Seq::new(8, |k: int| bit_or_zero(bits, 8 * m + k))
}

/// Byte `m` of `bits` read as a byte stream, zero-padded past the end.
pub open spec fn byte_at(bits: Seq<bool>, m: int) -> u8 {
    byte_from_bits(window8(bits, m))
}

/// The whole bytes that `bits` holds; a trailing partial byte is left out.
pub open spec fn pack_whole(bits: Seq<bool>) -> Seq<u8> {
    Seq::new((bits.len() / 8) as nat, |m: int| byte_at(bits, m))
}

/// `bits` as bytes, the last one padded with zero bits.
pub open spec fn pack_padded(bits: Seq<bool>) -> Seq<u8> {
    Seq::new(((bits.len() + 7) / 8) as nat, |m: int| byte_at(bits, m))
}

/// The bits of a byte sequence, byte after byte, each most significant bit first.
pub open spec fn bytes_bits(bytes: Seq<u8>) -> Seq<bool> {
    Seq::new(8 * bytes.len(), |j: int| byte_bit(bytes[j / 8], j % 8))
}

/// The low `width` bits of `v`, most significant of them first.
pub open spec fn low_bits(v: u64, width: nat) -> Seq<bool> {
    Seq::new(width, |j: int| bit64(v, (width - 1 - j) as u64))
}

/// The byte that holds `group` (at most eight bits) in its low bits, zeros above.
pub open spec fn right_aligned(group: Seq<bool>) -> u8 {
    byte_from_bits(Seq::new(8, |k: int| bit_or_zero(group, k - (8 - group.len()))))
}

proof fn lemma_flags(b0: bool, b1: bool, b2: bool, b3: bool, b4: bool, b5: bool, b6: bool, b7: bool)
    by (bit_vector)
    ensures
        bit8(flags_byte(b0, b1, b2, b3, b4, b5, b6, b7), 0) == b0,
        bit8(flags_byte(b0, b1, b2, b3, b4, b5, b6, b7), 1) == b1,
        bit8(flags_byte(b0, b1, b2, b3, b4, b5, b6, b7), 2) == b2,
        bit8(flags_byte(b0, b1, b2, b3, b4, b5, b6, b7), 3) == b3,
        bit8(flags_byte(b0, b1, b2, b3, b4, b5, b6, b7), 4) == b4,
        bit8(flags_byte(b0, b1, b2, b3, b4, b5, b6, b7), 5) == b5,
        bit8(flags_byte(b0, b1, b2, b3, b4, b5, b6, b7), 6) == b6,
        bit8(flags_byte(b0, b1, b2, b3, b4, b5, b6, b7), 7) == b7,
{
}

proof fn lemma_bit8_ext(a: u8, b: u8)
    by (bit_vector)
    requires
        bit8(a, 0) == bit8(b, 0),
        bit8(a, 1) == bit8(b, 1),
        bit8(a, 2) == bit8(b, 2),
        bit8(a, 3) == bit8(b, 3),
        bit8(a, 4) == bit8(b, 4),
        bit8(a, 5) == bit8(b, 5),
        bit8(a, 6) == bit8(b, 6),
        bit8(a, 7) == bit8(b, 7),
    ensures
        a == b,
{
}

/// `byte_from_bits` puts `s[k]` at position `k`.
pub proof fn lemma_byte_from_bits(s: Seq<bool>)
    ensures
        forall|k: int| 0 <= k < 8 ==> byte_bit(byte_from_bits(s), k) == s[k],
{
    lemma_flags(s[0], s[1], s[2], s[3], s[4], s[5], s[6], s[7]);
}

/// Two bytes with the same bits are the same byte.
pub proof fn lemma_byte_ext(a: u8, b: u8)
    requires
        forall|k: int| 0 <= k < 8 ==> byte_bit(a, k) == byte_bit(b, k),
    ensures
        a == b,
{
    assert(byte_bit(a, 0) == byte_bit(b, 0));
    assert(byte_bit(a, 1) == byte_bit(b, 1));
    assert(byte_bit(a, 2) == byte_bit(b, 2));
    assert(byte_bit(a, 3) == byte_bit(b, 3));
    assert(byte_bit(a, 4) == byte_bit(b, 4));
    assert(byte_bit(a, 5) == byte_bit(b, 5));
    assert(byte_bit(a, 6) == byte_bit(b, 6));
    assert(byte_bit(a, 7) == byte_bit(b, 7));
    lemma_bit8_ext(a, b);
}

/// A byte is rebuilt from its own bits.
pub proof fn lemma_byte_roundtrip(b: u8)
    ensures
        byte_from_bits(byte_bits(b)) == b,
{
    lemma_byte_from_bits(byte_bits(b));
    lemma_byte_ext(byte_from_bits(byte_bits(b)), b);
}

/// Byte `m` of a bit string depends only on the eight bits of its window.
pub proof fn lemma_byte_at_agrees(a: Seq<bool>, b: Seq<bool>, m: int)
    requires
        forall|j: int| 8 * m <= j < 8 * m + 8 ==> bit_or_zero(a, j) == bit_or_zero(b, j),
    ensures
        byte_at(a, m) == byte_at(b, m),
{
    assert(window8(a, m) =~= window8(b, m));
}

/// Byte `m` of the bits of `bytes` is `bytes[m]`.
pub proof fn lemma_byte_at_bytes_bits(bytes: Seq<u8>, m: int)
    requires
        0 <= m < bytes.len(),
    ensures
        byte_at(bytes_bits(bytes), m) == bytes[m],
{
    let bits = bytes_bits(bytes);
    assert(window8(bits, m) =~= byte_bits(bytes[m])) by {
        assert forall|k: int| 0 <= k < 8 implies window8(bits, m)[k] == byte_bits(bytes[m])[k] by {
            assert((8 * m + k) / 8 == m);
            assert((8 * m + k) % 8 == k);
        }
    }
    lemma_byte_roundtrip(bytes[m]);
}

/// Packing the bits of a byte sequence gives the sequence back.
pub proof fn lemma_pack_bytes_bits(bytes: Seq<u8>)
    ensures
        pack_whole(bytes_bits(bytes)) == bytes,
        pack_padded(bytes_bits(bytes)) == bytes,
{
    assert forall|m: int| 0 <= m < bytes.len() implies byte_at(bytes_bits(bytes), m) == bytes[m] by {
        lemma_byte_at_bytes_bits(bytes, m);
    }
    assert(pack_whole(bytes_bits(bytes)) =~= bytes);
    assert(pack_padded(bytes_bits(bytes)) =~= bytes);
}

} // verus!
