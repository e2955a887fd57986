//! The bit queue that regroups bytes into channel-sized groups and back, and
//! the coder that lays those groups into the low bits of an image's channels.
use vstd::prelude::*;
use vstd::arithmetic::div_mod::{
    lemma_fundamental_div_mod, lemma_fundamental_div_mod_converse_div,
    lemma_fundamental_div_mod_converse_mod, lemma_mod_bound,
};
use crate::error::SecretError;
use crate::image::{
    channel, lemma_channel_of_pack, lemma_pack_of_channels, pack_pixel, Image, ImageView,
};
use crate::bits::{
    bit8, bit64, bit_or_zero, byte_at, byte_bit, byte_bits, byte_from_bits, bytes_bits,
    lemma_byte_ext, lemma_byte_from_bits,
    lemma_byte_at_agrees, lemma_byte_at_bytes_bits, lemma_byte_roundtrip, low_bits, pack_padded, pack_whole, right_aligned,
    window8,
};

verus! {

/// A first-in, first-out queue of bits, kept packed in bytes.
///
/// Its view is the queued bits, oldest first. The bytes hold them most
/// significant bit first, and the unused tail of the last byte is zero.
pub struct BitQueue {
    i: usize,
    bytes: Vec<u8>,
}

impl View for BitQueue {
    type V = Seq<bool>;

    closed spec fn view(&self) -> Seq<bool> {
        Seq::new(self.i as nat, |j: int| buf_bit(self.bytes@, j))
    }
}

/// Bit `j` of a packed buffer, and `false` past its end.
spec fn buf_bit(bytes: Seq<u8>, j: int) -> bool {
    0 <= j < 8 * bytes.len() && byte_bit(bytes[j / 8], j % 8)
}

proof fn lemma_zero_byte(k: u8)
    by (bit_vector)
    requires
        k < 8,
    ensures
        !bit8(0u8, k),
{
}

proof fn lemma_or_shr(a: u8, c: u8, o: u8, k: u8)
    by (bit_vector)
    requires
        o < 8,
        k < 8,
    ensures
        k < o ==> bit8(a | (c >> o), k) == bit8(a, k),
        k >= o ==> bit8(a | (c >> o), k) == (bit8(a, k) || bit8(c, (k - o) as u8)),
{
}

proof fn lemma_shl_trunc(c: u8, added: u8, k: u8)
    by (bit_vector)
    requires
        added <= 8,
        k < 8,
    ensures
        k + added < 8 ==> bit8((((c as u32) << added) & 0xFF) as u8, k) == bit8(c, (k + added) as u8),
        k + added >= 8 ==> !bit8((((c as u32) << added) & 0xFF) as u8, k),
{
}

proof fn lemma_chunk(bits: u64, left: u64, n: u64, k: u8)
    by (bit_vector)
    requires
        1 <= n <= 8,
        n <= left <= 64,
        k < 8,
    ensures
        k < n ==> bit8((((bits >> ((left - n) as u64)) & !(0xFFu64 << n)) as u8) << ((8 - n) as u8), k)
            == bit64(bits, (left - 1 - k) as u64),
        k >= n ==> !bit8((((bits >> ((left - n) as u64)) & !(0xFFu64 << n)) as u8) << ((8 - n) as u8), k),
{
}

proof fn lemma_pop_step(x: u8, ov: u8, n: u8, k: u8)
    by (bit_vector)
    requires
        n <= 8,
        k < 8,
        (ov as u16) >> n == 0,
    ensures
        k + n < 8 ==> bit8(((ov as u16) | ((x as u16) << n)) as u8, k) == bit8(x, (k + n) as u8),
        k + n >= 8 ==> bit8(((ov as u16) | ((x as u16) << n)) as u8, k) == bit8(ov, k),
        k + n >= 8 ==> bit8((((x as u16) << n) >> 8) as u8, k) == bit8(x, (k + n - 8) as u8),
        k + n < 8 ==> !bit8((((x as u16) << n) >> 8) as u8, k),
        (((((x as u16) << n) >> 8) as u8) as u16) >> n == 0,
{
}

/// A zero byte appended to a packed buffer adds no set bit.
proof fn lemma_grow(bytes: Seq<u8>)
    ensures
        forall|j: int| #[trigger] buf_bit(bytes.push(0u8), j) == buf_bit(bytes, j),
{
    assert forall|j: int| #[trigger] buf_bit(bytes.push(0u8), j) == buf_bit(bytes, j) by {
        if 0 <= j < 8 * bytes.len() + 8 {
            if j / 8 == bytes.len() {
                lemma_zero_byte((j % 8) as u8);
            }
        }
    }
}

/// Or-ing the pending bits, shifted right by `o`, into a byte whose bits from
/// `o` on are zero puts them right behind the bits that the byte holds.
proof fn lemma_merge(old_byte: u8, cur: u8, o: u8, pending: Seq<bool>)
    requires
        o < 8,
        forall|k: int| o <= k < 8 ==> !#[trigger] byte_bit(old_byte, k),
        forall|k: int| 0 <= k < 8 ==> #[trigger] byte_bit(cur, k) == bit_or_zero(pending, k),
    ensures
        forall|k: int|
            0 <= k < 8 ==> #[trigger] byte_bit(old_byte | (cur >> o), k) == (if k < o {
                byte_bit(old_byte, k)
            } else {
                bit_or_zero(pending, k - o)
            }),
{
    assert forall|k: int| 0 <= k < 8 implies #[trigger] byte_bit(old_byte | (cur >> o), k) == (if k < o {
        byte_bit(old_byte, k)
    } else {
        bit_or_zero(pending, k - o)
    }) by {
        lemma_or_shr(old_byte, cur, o, k as u8);
        if k >= o {
            assert(!byte_bit(old_byte, k));
            assert(byte_bit(cur, k - o) == bit_or_zero(pending, k - o));
        }
    }
}

/// Shifting the pending bits left by `step` within a byte drops the first `step` of them.
proof fn lemma_advance(cur: u8, step: u8, pending: Seq<bool>)
    requires
        step <= 8,
        pending.len() <= 8,
        step <= pending.len(),
        forall|k: int| 0 <= k < 8 ==> #[trigger] byte_bit(cur, k) == bit_or_zero(pending, k),
    ensures
        forall|k: int|
            0 <= k < 8 ==> #[trigger] byte_bit((((cur as u32) << step) & 0xFF) as u8, k) == bit_or_zero(
                pending.skip(step as int),
                k,
            ),
{
    assert forall|k: int| 0 <= k < 8 implies #[trigger] byte_bit((((cur as u32) << step) & 0xFF) as u8, k)
        == bit_or_zero(pending.skip(step as int), k) by {
        lemma_shl_trunc(cur, step, k as u8);
        if k + step < 8 {
            assert(byte_bit(cur, k + step) == bit_or_zero(pending, k + step));
        }
    }
}

/// Replacing the byte that holds bit `i` by one that keeps the bits before `i`
/// and continues with `pending` appends the first `added` bits of `pending`.
proof fn lemma_append_in_byte(bytes: Seq<u8>, i: int, new_byte: u8, added: int, pending: Seq<bool>)
    requires
        0 <= i,
        bytes.len() == i / 8 + 1,
        forall|j: int| i <= j ==> !#[trigger] buf_bit(bytes, j),
        1 <= added <= 8 - i % 8,
        added == pending.len() || added == 8 - i % 8,
        added <= pending.len(),
        forall|k: int|
            0 <= k < 8 ==> #[trigger] byte_bit(new_byte, k) == (if k < i % 8 {
                byte_bit(bytes[i / 8], k)
            } else {
                bit_or_zero(pending, k - i % 8)
            }),
    ensures
        forall|j: int| 0 <= j < i ==> buf_bit(bytes.update(i / 8, new_byte), j) == buf_bit(bytes, j),
        forall|j: int|
            i <= j < i + added ==> #[trigger] buf_bit(bytes.update(i / 8, new_byte), j) == pending[j - i],
        forall|j: int| i + added <= j ==> !#[trigger] buf_bit(bytes.update(i / 8, new_byte), j),
{
    let nb = bytes.update(i / 8, new_byte);
    assert forall|j: int| 0 <= j < i implies buf_bit(nb, j) == buf_bit(bytes, j) by {
        if j / 8 == i / 8 {
            assert(byte_bit(new_byte, j % 8) == byte_bit(bytes[i / 8], j % 8));
        }
    }
    assert forall|j: int| i <= j < i + added implies #[trigger] buf_bit(nb, j) == pending[j - i] by {
        assert(j / 8 == i / 8);
        assert(byte_bit(new_byte, j % 8) == bit_or_zero(pending, j % 8 - i % 8));
    }
    assert forall|j: int| i + added <= j implies !#[trigger] buf_bit(nb, j) by {
        if 0 <= j < 8 * nb.len() {
            assert(j / 8 == i / 8);
            assert(byte_bit(new_byte, j % 8) == bit_or_zero(pending, j % 8 - i % 8));
        }
    }
}

/// One step of shifting a packed buffer left by `n` bits, from its last byte
/// to its first: byte `m` takes the bits that stood `n` places later, and
/// hands the bits that it loses on to byte `m - 1`.
proof fn lemma_shift_byte(orig: Seq<u8>, m: int, ov: u8, n: u8)
    requires
        0 <= m < orig.len(),
        n <= 8,
        (ov as u16) >> n == 0,
        forall|k: int|
            0 <= k < 8 ==> #[trigger] byte_bit(ov, k) == (k + n >= 8 && buf_bit(
                orig,
                8 * (m + 1) + k + n - 8,
            )),
    ensures
        forall|k: int|
            0 <= k < 8 ==> #[trigger] byte_bit(((ov as u16) | ((orig[m] as u16) << n)) as u8, k) == buf_bit(
                orig,
                8 * m + k + n,
            ),
        forall|k: int|
            0 <= k < 8 ==> #[trigger] byte_bit((((orig[m] as u16) << n) >> 8) as u8, k) == (k + n >= 8
                && buf_bit(orig, 8 * m + k + n - 8)),
        (((((orig[m] as u16) << n) >> 8) as u8) as u16) >> n == 0,
{
    let x = orig[m];
    assert forall|k: int| 0 <= k < 8 implies #[trigger] byte_bit(
        ((ov as u16) | ((x as u16) << n)) as u8,
        k,
    ) == buf_bit(orig, 8 * m + k + n) by {
        lemma_pop_step(x, ov, n, k as u8);
        if k + n < 8 {
            assert((8 * m + k + n) / 8 == m && (8 * m + k + n) % 8 == k + n);
        } else {
            assert(byte_bit(ov, k) == buf_bit(orig, 8 * (m + 1) + k + n - 8));
        }
    }
    assert forall|k: int| 0 <= k < 8 implies #[trigger] byte_bit((((x as u16) << n) >> 8) as u8, k) == (k
        + n >= 8 && buf_bit(orig, 8 * m + k + n - 8)) by {
        lemma_pop_step(x, ov, n, k as u8);
        if k + n >= 8 {
            assert((8 * m + k + n - 8) / 8 == m && (8 * m + k + n - 8) % 8 == k + n - 8);
        }
    }
    lemma_pop_step(x, ov, n, 0);
}

impl BitQueue {
    /// The representation invariant: exactly as many bytes as the bits need,
    /// and zeros in the unused tail of the last byte.
    pub closed spec fn wf(&self) -> bool {
        &&& self.bytes@.len() == (self.i + 7) / 8
        &&& forall|j: int| self.i <= j ==> !#[trigger] buf_bit(self.bytes@, j)
    }

    /// An empty queue.
    pub fn new() -> (q: BitQueue)
        ensures
            q.wf(),
            q@ == Seq::<bool>::empty(),
    {
        let q = BitQueue { i: 0, bytes: Vec::new() };
        assert(q@ =~= Seq::<bool>::empty());
        q
    }

    /// Appends the low `count` bits of `bits`, the most significant of them first.
    pub fn push_bits(&mut self, bits: u64, count: usize)
        requires
            old(self).wf(),
            count <= 64,
            old(self)@.len() + count <= usize::MAX,
        ensures
            final(self).wf(),
            final(self)@ == old(self)@ + low_bits(bits, count as nat),
    {
        let mut bits_left: usize = count;
        while bits_left > 0
            invariant
                self.wf(),
                bits_left <= count <= 64,
                self.i + bits_left <= usize::MAX,
                self@ + low_bits(bits, bits_left as nat) == old(self)@ + low_bits(bits, count as nat),
            decreases bits_left,
        {
            let bits_to_add: usize = if bits_left < 8 { bits_left } else { 8 };
            let shifted: u64 = (bits >> (bits_left - bits_to_add)) & !(0xFFu64 << bits_to_add);
            let mut current_bits: u8 = (#[verifier::truncate] (shifted as u8)) << (8 - bits_to_add);
            let mut bits_not_added: usize = bits_to_add;
            let ghost start = self@;
            let ghost chunk = low_bits(bits, bits_left as nat).take(bits_to_add as int);
            let ghost pending = chunk;
            proof {
                assert forall|k: int| 0 <= k < 8 implies #[trigger] byte_bit(current_bits, k)
                    == bit_or_zero(pending, k) by {
                    lemma_chunk(bits, bits_left as u64, bits_to_add as u64, k as u8);
                }
            }
            while bits_not_added > 0
                invariant
                    self.wf(),
                    bits_not_added <= 8,
                    self.i + bits_not_added <= usize::MAX,
                    pending.len() == bits_not_added,
                    forall|k: int| 0 <= k < 8 ==> #[trigger] byte_bit(current_bits, k) == bit_or_zero(pending, k),
                    self@ + pending == start + chunk,
                decreases bits_not_added,
            {
                let current_byte_index: usize = self.i / 8;
                let bit_in_byte: usize = self.i % 8;
                let ghost before = self@;
                if self.bytes.len() == current_byte_index {
                    proof {
                        lemma_grow(self.bytes@);
                    }
                    self.bytes.push(0);
                }
                let ghost grown = self.bytes@;
                let bits_added: usize = if 8 - bit_in_byte < bits_not_added {
                    8 - bit_in_byte
                } else {
                    bits_not_added
                };
                let offset: u8 = bit_in_byte as u8;
                let step: u8 = bits_added as u8;
                let old_byte: u8 = self.bytes[current_byte_index];
                let new_byte: u8 = old_byte | (current_bits >> offset);
                self.bytes[current_byte_index] = new_byte;
                let next_bits: u8 = #[verifier::truncate] ((((current_bits as u32) << step) & 0xFF) as u8);
                proof {
                    assert forall|k: int| offset <= k < 8 implies !#[trigger] byte_bit(old_byte, k) by {
                        let j = 8 * current_byte_index + k;
                        assert(!buf_bit(grown, j));
                        assert(j / 8 == current_byte_index && j % 8 == k);
                    }
                    lemma_merge(old_byte, current_bits, offset, pending);
                    lemma_advance(current_bits, step, pending);
                    lemma_append_in_byte(grown, self.i as int, new_byte, bits_added as int, pending);
                }
                current_bits = next_bits;
                bits_not_added -= bits_added;
                self.i += bits_added;
                proof {
                    assert(self@ =~= before + pending.take(bits_added as int));
                    assert(before + pending.take(bits_added as int) + pending.skip(bits_added as int)
                        =~= before + pending);
                    pending = pending.skip(bits_added as int);
                }
            }
            proof {
                assert(pending =~= Seq::<bool>::empty());
                assert(self@ =~= start + chunk);
                let rest = low_bits(bits, bits_left as nat);
                assert(rest.skip(bits_to_add as int) =~= low_bits(bits, (bits_left - bits_to_add) as nat));
                assert(start + chunk + rest.skip(bits_to_add as int) =~= start + rest);
            }
            bits_left -= bits_to_add;
        }
        assert(low_bits(bits, 0) =~= Seq::<bool>::empty());
        assert(self@ + low_bits(bits, 0) =~= self@);
    }

    /// Appends the eight bits of `byte`, most significant first.
    pub fn push_byte(&mut self, byte: u8)
        requires
            old(self).wf(),
            old(self)@.len() + 8 <= usize::MAX,
        ensures
            final(self).wf(),
            final(self)@ == old(self)@ + byte_bits(byte),
    {
        self.push_bits(byte as u64, 8);
        proof {
            lemma_low_bits_of_byte(byte);
        }
    }

    /// Removes the first `num_bits` bits and returns them in the low bits of a byte.
    pub fn pop_bits(&mut self, num_bits: usize) -> (out: u8)
        requires
            old(self).wf(),
            num_bits <= 8,
            num_bits <= old(self)@.len(),
        ensures
            final(self).wf(),
            out == right_aligned(old(self)@.take(num_bits as int)),
            final(self)@ == old(self)@.skip(num_bits as int),
    {
        let n: u8 = num_bits as u8;
        let used: usize = self.bytes.len();
        let ghost orig = self.bytes@;
        let mut overflow: u8 = 0;
        let mut idx: usize = used;
        proof {
            assert((0u8 as u16) >> n == 0) by (bit_vector);
            assert forall|k: int| 0 <= k < 8 implies #[trigger] byte_bit(overflow, k) == (k + n >= 8
                && buf_bit(orig, 8 * idx + k + n - 8)) by {
                lemma_zero_byte(k as u8);
            }
        }
        while idx > 0
            invariant
                idx <= used,
                n <= 8,
                orig.len() == used,
                self.bytes@.len() == used,
                self.i == old(self).i,
                (overflow as u16) >> n == 0,
                forall|j: int| 8 * idx <= j < 8 * used ==> #[trigger] buf_bit(self.bytes@, j) == buf_bit(orig, j + n),
                forall|m: int| 0 <= m < idx ==> self.bytes@[m] == orig[m],
                forall|k: int|
                    0 <= k < 8 ==> #[trigger] byte_bit(overflow, k) == (k + n >= 8 && buf_bit(
                        orig,
                        8 * idx + k + n - 8,
                    )),
            decreases idx,
        {
            idx -= 1;
            let ghost prev = self.bytes@;
            let shift: u16 = (self.bytes[idx] as u16) << n;
            let new_byte: u8 = #[verifier::truncate] ((overflow as u16 | shift) as u8);
            self.bytes[idx] = new_byte;
            proof {
                lemma_shift_byte(orig, idx as int, overflow, n);
                assert forall|j: int| 8 * idx <= j < 8 * used implies #[trigger] buf_bit(self.bytes@, j)
                    == buf_bit(orig, j + n) by {
                    if j / 8 == idx {
                        assert(byte_bit(new_byte, j % 8) == buf_bit(orig, 8 * idx + j % 8 + n));
                    } else {
                        assert(buf_bit(prev, j) == buf_bit(orig, j + n));
                    }
                }
            }
            overflow = #[verifier::truncate] ((shift >> 8) as u8);
        }
        self.i -= num_bits;
        let keep: usize = self.i / 8 + (if self.i % 8 != 0 { 1 } else { 0 });
        let ghost shifted = self.bytes@;
        self.bytes.truncate(keep);
        proof {
            let now = self.bytes@;
            assert forall|j: int| 0 <= j implies #[trigger] buf_bit(now, j) == (j < 8 * keep && buf_bit(
                orig,
                j + n,
            )) by {
                if 0 <= j < 8 * keep {
                    assert(buf_bit(shifted, j) == buf_bit(orig, j + n));
                }
            }
            assert forall|j: int| self.i <= j implies !#[trigger] buf_bit(now, j) by {
                assert(!buf_bit(orig, j + n));
            }
            assert(self@ =~= old(self)@.skip(num_bits as int));
            let group = old(self)@.take(num_bits as int);
            let spread = Seq::new(8, |k: int| bit_or_zero(group, k - (8 - group.len())));
            lemma_byte_from_bits(spread);
            assert forall|k: int| 0 <= k < 8 implies byte_bit(overflow, k) == byte_bit(
                right_aligned(group),
                k,
            ) by {
                assert(byte_bit(overflow, k) == (k + n >= 8 && buf_bit(orig, k + n - 8)));
            }
            lemma_byte_ext(overflow, right_aligned(group));
        }
        overflow
    }

    /// The queued bits as bytes, the last one padded with zero bits.
    pub fn get_bytes(&self) -> (out: &[u8])
        requires
            self.wf(),
        ensures
            out@ == pack_padded(self@),
    {
        proof {
            assert forall|m: int| 0 <= m < self.bytes@.len() implies self.bytes@[m] == byte_at(self@, m) by {
                assert(window8(self@, m) =~= byte_bits(self.bytes@[m])) by {
                    assert forall|k: int| 0 <= k < 8 implies window8(self@, m)[k] == byte_bits(
                        self.bytes@[m],
                    )[k] by {
                        let j = 8 * m + k;
                        assert(j / 8 == m && j % 8 == k);
                        if j >= self.i {
                            assert(!buf_bit(self.bytes@, j));
                        }
                    }
                }
                lemma_byte_roundtrip(self.bytes@[m]);
            }
            assert(self.bytes@ =~= pack_padded(self@));
        }
        self.bytes.as_slice()
    }

    /// The number of bits in the queue.
    pub fn total_bits(&self) -> (n: usize)
        ensures
            n == self@.len(),
    {
        self.i
    }

    /// The number of whole bytes that the queued bits fill.
    pub fn total_filled_bytes(&self) -> (n: usize)
        ensures
            n == self@.len() / 8,
    {
        self.i / 8
    }
}

proof fn lemma_byte_in_u64(b: u8, k: u8)
    by (bit_vector)
    requires
        k < 8,
    ensures
        bit64(b as u64, (7 - k) as u64) == bit8(b, k),
{
}

/// The low eight bits of a byte widened to 64 bits are the byte's own bits.
pub proof fn lemma_low_bits_of_byte(b: u8)
    ensures
        low_bits(b as u64, 8) == byte_bits(b),
{
    assert forall|k: int| 0 <= k < 8 implies low_bits(b as u64, 8)[k] == byte_bits(b)[k] by {
        lemma_byte_in_u64(b, k as u8);
    }
    assert(low_bits(b as u64, 8) =~= byte_bits(b));
}

/// A group that `pop_bits` hands out and `push_bits` takes back is the same
/// group: regrouping a stream at any widths keeps its bits and their order.
pub proof fn lemma_group_round_trip(group: Seq<bool>)
    requires
        group.len() <= 8,
    ensures
        low_bits(right_aligned(group) as u64, group.len()) == group,
{
    let n = group.len();
    let spread = Seq::new(8, |k: int| bit_or_zero(group, k - (8 - group.len())));
    lemma_byte_from_bits(spread);
    let byte = right_aligned(group);
    assert forall|j: int| 0 <= j < n implies low_bits(byte as u64, n)[j] == group[j] by {
        lemma_byte_in_u64(byte, (8 - n + j) as u8);
        assert(byte_bit(byte, 8 - n + j) == spread[8 - n + j]);
    }
    assert(low_bits(byte as u64, n) =~= group);
}

/// How many channels of a pixel carry bits: red, green and blue, and alpha where it is used.
pub open spec fn channels_per_pixel(use_alpha: bool) -> int {
    if use_alpha {
        4
    } else {
        3
    }
}

/// The number of channel slots of an image.
pub open spec fn slot_count(pixels: Seq<u32>, use_alpha: bool) -> int {
    if use_alpha {
        4 * (pixels.len() as int)
    } else {
        3 * (pixels.len() as int)
    }
}

/// The pixel that holds slot `k`.
pub open spec fn slot_pixel(use_alpha: bool, k: int) -> int {
    if use_alpha {
        k / 4
    } else {
        k / 3
    }
}

/// The channel of its pixel that is slot `k`.
pub open spec fn slot_channel(use_alpha: bool, k: int) -> int {
    if use_alpha {
        k % 4
    } else {
        k % 3
    }
}

/// The channel byte in slot `k`: slots run through the pixels in order, and
/// within a pixel through red, green, blue and, where it is used, alpha.
pub open spec fn slot_value(pixels: Seq<u32>, use_alpha: bool, k: int) -> u8 {
    channel(pixels[slot_pixel(use_alpha, k)], slot_channel(use_alpha, k))
}

/// How many bytes an image of `pixel_count` pixels carries at a bit depth.
pub open spec fn capacity(pixel_count: nat, depth: nat, use_alpha: bool) -> nat {
    ((pixel_count * channels_per_pixel(use_alpha) * depth) / 8) as nat
}

/// The bits that an image carries: the low `depth` bits of each slot in
/// turn, the most significant of them first.
pub open spec fn carried_bits(pixels: Seq<u32>, depth: nat, use_alpha: bool) -> Seq<bool> {
    Seq::new(
        (slot_count(pixels, use_alpha) * depth) as nat,
        |j: int| byte_bit(slot_value(pixels, use_alpha, j / (depth as int)), 8 - depth + j % (depth as int)),
    )
}

/// The bytes that an image carries.
pub open spec fn carried_bytes(pixels: Seq<u32>, depth: nat, use_alpha: bool) -> Seq<u8> {
    pack_whole(carried_bits(pixels, depth, use_alpha))
}

/// The low `depth` bits of a channel byte, the most significant of them first.
pub open spec fn low_group(ch: u8, depth: nat) -> Seq<bool> {
    Seq::new(depth, |t: int| byte_bit(ch, 8 - depth + t))
}

proof fn lemma_mul_step(s: int, d: int)
    by (nonlinear_arith)
    ensures
        (s + 1) * d == s * d + d,
{
}

proof fn lemma_mul_le(a: int, b: int, d: int)
    by (nonlinear_arith)
    requires
        a <= b,
        0 <= d,
    ensures
        a * d <= b * d,
{
}

proof fn lemma_mul_bound(n: int, c: int, d: int)
    by (nonlinear_arith)
    requires
        0 <= n,
        0 <= c <= 4,
        0 <= d <= 4,
    ensures
        0 <= n * c * d <= 16 * n,
        n * c * d == (n * c) * d,
{
}

/// Bit `t` of group `k` stands at position `k * d + t` of the stream.
proof fn lemma_group_index(d: int, k: int, t: int)
    requires
        0 < d,
        0 <= t < d,
    ensures
        (k * d + t) / d == k,
        (k * d + t) % d == t,
{
    lemma_fundamental_div_mod_converse_div(k * d + t, d, k, t);
    lemma_fundamental_div_mod_converse_mod(k * d + t, d, k, t);
}

/// Position `j` of the stream is a bit of group `j / d`.
proof fn lemma_index_group(d: int, j: int)
    requires
        0 < d,
        0 <= j,
    ensures
        0 <= j / d,
        0 <= j % d < d,
        j == (j / d) * d + j % d,
{
    lemma_fundamental_div_mod(j, d);
    lemma_mod_bound(j, d);
    assert(d * (j / d) == (j / d) * d) by (nonlinear_arith);
    assert(0 <= j / d) by (nonlinear_arith)
        requires
            0 < d,
            0 <= j,
    ;
}

/// A position of the stream below `s` whole groups lies in a group below `s`.
proof fn lemma_index_below(d: int, j: int, s: int)
    requires
        0 < d,
        0 <= j < s * d,
    ensures
        j / d < s,
{
    lemma_index_group(d, j);
    if j / d >= s {
        lemma_mul_le(s, j / d, d);
    }
}

proof fn lemma_masked_group(ch: u8, d: u8, t: u8)
    by (bit_vector)
    requires
        1 <= d <= 4,
        t < d,
    ensures
        bit64((ch & !(0xFFu8 << d)) as u64, (d - 1 - t) as u64) == bit8(ch, (8 - d + t) as u8),
{
}

/// The low `depth` bits of a masked channel, as the queue takes them, are the channel's group.
proof fn lemma_low_bits_group(ch: u8, depth: u8)
    requires
        1 <= depth <= 4,
    ensures
        low_bits((ch & !(0xFFu8 << depth)) as u64, depth as nat) == low_group(ch, depth as nat),
{
    assert forall|t: int| 0 <= t < depth implies low_bits((ch & !(0xFFu8 << depth)) as u64, depth as nat)[t]
        == low_group(ch, depth as nat)[t] by {
        lemma_masked_group(ch, depth, t as u8);
    }
    assert(low_bits((ch & !(0xFFu8 << depth)) as u64, depth as nat) =~= low_group(ch, depth as nat));
}

/// The stream up to slot `s`, followed by the group of slot `s`, is the stream up to slot `s + 1`.
proof fn lemma_carried_step(pixels: Seq<u32>, depth: nat, use_alpha: bool, s: int)
    requires
        1 <= depth <= 4,
        0 <= s < slot_count(pixels, use_alpha),
    ensures
        s * depth + depth <= carried_bits(pixels, depth, use_alpha).len(),
        carried_bits(pixels, depth, use_alpha).take(s * depth) + low_group(
            slot_value(pixels, use_alpha, s),
            depth,
        ) == carried_bits(pixels, depth, use_alpha).take(s * depth + depth),
{
    let d = depth as int;
    let all = carried_bits(pixels, depth, use_alpha);
    lemma_mul_step(s, d);
    lemma_mul_le(s + 1, slot_count(pixels, use_alpha), d);
    lemma_mul_le(0, s, d);
    let left = all.take(s * d) + low_group(slot_value(pixels, use_alpha, s), depth);
    let right = all.take(s * d + d);
    assert forall|j: int| 0 <= j < right.len() implies left[j] == right[j] by {
        if j >= s * d {
            lemma_group_index(d, s, j - s * d);
        }
    }
    assert(left =~= right);
}

/// Group `k` of a bit string cut into groups of `depth` bits; the last group
/// is padded with zeros.
pub open spec fn group_of(bits: Seq<bool>, depth: nat, k: int) -> Seq<bool> {
    Seq::new(depth, |t: int| bit_or_zero(bits, k * depth + t))
}

/// The channel byte `ch` with its low bits replaced by `group`.
pub open spec fn embed(ch: u8, group: Seq<bool>) -> u8 {
    byte_from_bits(
        Seq::new(
            8,
            |k: int|
                if k < 8 - group.len() {
                    byte_bit(ch, k)
                } else {
                    group[k - (8 - group.len())]
                },
        ),
    )
}

/// The number of slots that `bit_count` bits take at a bit depth.
pub open spec fn slots_needed(bit_count: nat, depth: nat) -> int {
    (bit_count + depth - 1) / (depth as int)
}

/// The slot that channel `c` of pixel `p` is.
pub open spec fn slot_of(use_alpha: bool, p: int, c: int) -> int {
    if use_alpha {
        4 * p + c
    } else {
        3 * p + c
    }
}

/// Channel `c` of pixel `p` once the first `count` slots hold the groups of `bits`.
pub open spec fn written_channel(
    pixels: Seq<u32>,
    depth: nat,
    use_alpha: bool,
    bits: Seq<bool>,
    count: int,
    p: int,
    c: int,
) -> u8 {
    if c < channels_per_pixel(use_alpha) && slot_of(use_alpha, p, c) < count {
        embed(channel(pixels[p], c), group_of(bits, depth, slot_of(use_alpha, p, c)))
    } else {
        channel(pixels[p], c)
    }
}

/// The pixels once the first `count` slots hold the groups of `bits`.
pub open spec fn written_upto(
    pixels: Seq<u32>,
    depth: nat,
    use_alpha: bool,
    bits: Seq<bool>,
    count: int,
) -> Seq<u32> {
    Seq::new(
        pixels.len(),
        |p: int|
            pack_pixel(
                written_channel(pixels, depth, use_alpha, bits, count, p, 0),
                written_channel(pixels, depth, use_alpha, bits, count, p, 1),
                written_channel(pixels, depth, use_alpha, bits, count, p, 2),
                written_channel(pixels, depth, use_alpha, bits, count, p, 3),
            ),
    )
}

/// The pixels once `bits` is written into them: the slots that the bits need
/// hold their groups, every other bit of the image is as before.
pub open spec fn written_pixels(pixels: Seq<u32>, depth: nat, use_alpha: bool, bits: Seq<bool>) -> Seq<
    u32,
> {
    written_upto(pixels, depth, use_alpha, bits, slots_needed(bits.len(), depth))
}

proof fn lemma_mask_or(ch: u8, data: u8, d: u8, k: u8)
    by (bit_vector)
    requires
        1 <= d <= 4,
        k < 8,
    ensures
        k < 8 - d ==> bit8((ch & (0xFFu8 << d)) | data, k) == (bit8(ch, k) || bit8(data, k)),
        k >= 8 - d ==> bit8((ch & (0xFFu8 << d)) | data, k) == bit8(data, k),
{
}

proof fn lemma_zero_bits(p: u64)
    by (bit_vector)
    requires
        p < 64,
    ensures
        !bit64(0u64, p),
{
}

/// Masking a channel's low bits away and or-ing in a right-aligned group embeds the group.
proof fn lemma_embed(ch: u8, data: u8, depth: u8, group: Seq<bool>)
    requires
        1 <= depth <= 4,
        group.len() == depth,
        data == right_aligned(group),
    ensures
        (ch & (0xFFu8 << depth)) | data == embed(ch, group),
{
    let spread = Seq::new(8, |k: int| bit_or_zero(group, k - (8 - group.len())));
    let mixed = Seq::new(
        8,
        |k: int|
            if k < 8 - group.len() {
                byte_bit(ch, k)
            } else {
                group[k - (8 - group.len())]
            },
    );
    lemma_byte_from_bits(spread);
    lemma_byte_from_bits(mixed);
    let got = (ch & (0xFFu8 << depth)) | data;
    assert forall|k: int| 0 <= k < 8 implies byte_bit(got, k) == byte_bit(embed(ch, group), k) by {
        lemma_mask_or(ch, data, depth, k as u8);
        assert(byte_bit(data, k) == spread[k]);
        assert(byte_bit(embed(ch, group), k) == mixed[k]);
    }
    lemma_byte_ext(got, embed(ch, group));
}

/// With no slot written the pixels are as they were.
proof fn lemma_written_none(pixels: Seq<u32>, depth: nat, use_alpha: bool, bits: Seq<bool>)
    ensures
        written_upto(pixels, depth, use_alpha, bits, 0) == pixels,
{
    assert forall|p: int| 0 <= p < pixels.len() implies written_upto(pixels, depth, use_alpha, bits, 0)[p]
        == pixels[p] by {
        lemma_pack_of_channels(pixels[p]);
    }
    assert(written_upto(pixels, depth, use_alpha, bits, 0) =~= pixels);
}

/// The pixel `cur` with channel `c` replaced by `value`.
spec fn with_channel(cur: u32, c: int, value: u8) -> u32 {
    pack_pixel(
        if c == 0 {
            value
        } else {
            channel(cur, 0)
        },
        if c == 1 {
            value
        } else {
            channel(cur, 1)
        },
        if c == 2 {
            value
        } else {
            channel(cur, 2)
        },
        if c == 3 {
            value
        } else {
            channel(cur, 3)
        },
    )
}

/// Writing the group of slot `s` into the pixels that hold the first `s`
/// groups gives the pixels that hold the first `s + 1`.
proof fn lemma_written_step(pixels: Seq<u32>, depth: nat, use_alpha: bool, bits: Seq<bool>, s: int)
    requires
        0 <= s < slot_count(pixels, use_alpha),
    ensures
        written_upto(pixels, depth, use_alpha, bits, s + 1) == written_upto(
            pixels,
            depth,
            use_alpha,
            bits,
            s,
        ).update(
            slot_pixel(use_alpha, s),
            with_channel(
                written_upto(pixels, depth, use_alpha, bits, s)[slot_pixel(use_alpha, s)],
                slot_channel(use_alpha, s),
                embed(
                    channel(
                        written_upto(pixels, depth, use_alpha, bits, s)[slot_pixel(use_alpha, s)],
                        slot_channel(use_alpha, s),
                    ),
                    group_of(bits, depth, s),
                ),
            ),
        ),
{
    let cur = written_upto(pixels, depth, use_alpha, bits, s);
    let next = written_upto(pixels, depth, use_alpha, bits, s + 1);
    let p = slot_pixel(use_alpha, s);
    let c = slot_channel(use_alpha, s);
    let value = embed(channel(cur[p], c), group_of(bits, depth, s));
    let target = cur.update(p, with_channel(cur[p], c, value));
    assert(slot_of(use_alpha, p, c) == s);
    lemma_channel_of_pack(
        written_channel(pixels, depth, use_alpha, bits, s, p, 0),
        written_channel(pixels, depth, use_alpha, bits, s, p, 1),
        written_channel(pixels, depth, use_alpha, bits, s, p, 2),
        written_channel(pixels, depth, use_alpha, bits, s, p, 3),
    );
    assert forall|q: int| 0 <= q < pixels.len() implies next[q] == target[q] by {
        assert(forall|x: int|
            0 <= x < channels_per_pixel(use_alpha) ==> (#[trigger] slot_of(use_alpha, q, x) == s <==> (q == p
                && x == c)));
    }
    assert(next =~= target);
}

/// The bits that an image carries fill its capacity in bytes, and are few
/// enough to be counted.
pub proof fn lemma_capacity_bits(pixels: Seq<u32>, depth: nat, use_alpha: bool)
    requires
        1 <= depth <= 4,
    ensures
        carried_bits(pixels, depth, use_alpha).len() == slot_count(pixels, use_alpha) * depth,
        capacity(pixels.len(), depth, use_alpha) == carried_bits(pixels, depth, use_alpha).len() / 8,
        carried_bytes(pixels, depth, use_alpha).len() == capacity(pixels.len(), depth, use_alpha),
        slot_count(pixels, use_alpha) * depth <= 16 * pixels.len(),
        0 <= slot_count(pixels, use_alpha) <= 4 * pixels.len(),
{
    if use_alpha {
        lemma_mul_bound(pixels.len() as int, 4, depth as int);
    } else {
        lemma_mul_bound(pixels.len() as int, 3, depth as int);
    }
}

/// The configuration of the channel coder: how many low bits of each channel
/// are used, and whether the alpha channel is used.
pub struct ImageCoder {
    num_bits: usize,
    use_alpha_channel: bool,
}

impl ImageCoder {
    /// The number of low bits of each channel that carry data.
    pub closed spec fn bit_depth(&self) -> nat {
        self.num_bits as nat
    }

    /// Whether the alpha channel carries data.
    pub closed spec fn uses_alpha(&self) -> bool {
        self.use_alpha_channel
    }

    /// The bit depth is between 1 and 4.
    pub open spec fn wf(&self) -> bool {
        1 <= self.bit_depth() <= 4
    }

    /// A coder at bit depth 1 that leaves the alpha channel alone.
    pub fn create() -> (coder: ImageCoder)
        ensures
            coder.wf(),
            coder.bit_depth() == 1,
            !coder.uses_alpha(),
    {
        ImageCoder { num_bits: 1, use_alpha_channel: false }
    }

    /// Sets the bit depth. A depth outside 1 to 4 is refused and changes nothing.
    pub fn num_bits(&mut self, num_bits: usize) -> (out: Result<(), SecretError>)
        ensures
            1 <= num_bits <= 4 ==> out is Ok && final(self).bit_depth() == num_bits,
            !(1 <= num_bits <= 4) ==> out == Err::<(), SecretError>(SecretError::InvalidBitDepth) && final(self).bit_depth() == old(self).bit_depth(),
            final(self).uses_alpha() == old(self).uses_alpha(),
    {
        if num_bits < 1 || num_bits > 4 {
            return Err(SecretError::InvalidBitDepth);
        }
        self.num_bits = num_bits;
        Ok(())
    }

    /// Says whether the alpha channel carries data.
    pub fn use_alpha_channel(&mut self, use_alpha_channel: bool)
        ensures
            final(self).uses_alpha() == use_alpha_channel,
            final(self).bit_depth() == old(self).bit_depth(),
    {
        self.use_alpha_channel = use_alpha_channel;
    }

    /// The number of bytes that the image carries with this configuration.
    pub fn get_capacity(&self, img: &Image) -> (bytes: usize)
        requires
            self.wf(),
            img.wf(),
        ensures
            bytes == capacity(img@.pixels.len(), self.bit_depth(), self.uses_alpha()),
    {
        let count: usize = img.get_raw_data().len();
        let per_pixel: usize = if self.use_alpha_channel { 4 } else { 3 };
        proof {
            lemma_mul_bound(count as int, per_pixel as int, self.num_bits as int);
        }
        let total_bits: usize = count * per_pixel * self.num_bits;
        total_bits / 8
    }

    /// Fills the front of `buf` with the bytes that the image carries, as
    /// many as the buffer takes and the image has, and returns their number.
    /// The rest of `buf` and the image stay as they are.
    pub fn read(&self, img: &mut Image, buf: &mut [u8]) -> (filled: usize)
        requires
            self.wf(),
            old(img).wf(),
        ensures
            *final(img) == *old(img),
            filled <= old(buf)@.len(),
            filled == old(buf)@.len() || filled == capacity(
                old(img)@.pixels.len(),
                self.bit_depth(),
                self.uses_alpha(),
            ),
            filled <= capacity(old(img)@.pixels.len(), self.bit_depth(), self.uses_alpha()),
            final(buf)@ == carried_bytes(old(img)@.pixels, self.bit_depth(), self.uses_alpha()).take(
                filled as int,
            ) + old(buf)@.skip(filled as int),
    {
        let cap: usize = self.get_capacity(img);
        let data_size: usize = if buf.len() < cap { buf.len() } else { cap };
        let depth: u8 = self.num_bits as u8;
        let bitmask: u8 = !(0xFFu8 << depth);
        let ghost pixels = img@.pixels;
        let ghost all = carried_bits(pixels, self.bit_depth(), self.uses_alpha());
        let data: &[u32] = img.get_raw_data();
        let mut q = BitQueue::new();
        let mut i: usize = 0;
        let ghost mut s: int = 0;
        proof {
            lemma_mul_bound(pixels.len() as int, channels_per_pixel(self.uses_alpha()), depth as int);
            assert(all.take(0) =~= q@);
        }
        while q.total_filled_bytes() < data_size && i < data.len()
            invariant
                self.wf(),
                depth == self.bit_depth(),
                bitmask == !(0xFFu8 << depth),
                data@ == pixels,
                pixels.len() <= crate::image::max_pixels(),
                all == carried_bits(pixels, self.bit_depth(), self.uses_alpha()),
                q.wf(),
                i <= pixels.len(),
                s == slot_count(pixels.take(i as int), self.uses_alpha()),
                all.len() <= 16 * pixels.len(),
                s * depth <= all.len(),
                q@ == all.take(s * depth),
            decreases pixels.len() - i,
        {
            let pixel: u32 = data[i];
            let a: u8 = (pixel >> 24) as u8;
            let b: u8 = ((pixel >> 16) & 0xFF) as u8;
            let g: u8 = ((pixel >> 8) & 0xFF) as u8;
            let r: u8 = (pixel & 0xFF) as u8;
            proof {
                lemma_low_bits_group(r, depth);
                lemma_low_bits_group(g, depth);
                lemma_low_bits_group(b, depth);
                lemma_low_bits_group(a, depth);
                lemma_carried_step(pixels, self.bit_depth(), self.uses_alpha(), s);
                lemma_carried_step(pixels, self.bit_depth(), self.uses_alpha(), s + 1);
                lemma_carried_step(pixels, self.bit_depth(), self.uses_alpha(), s + 2);
                lemma_mul_step(s, depth as int);
                lemma_mul_step(s + 1, depth as int);
                lemma_mul_step(s + 2, depth as int);
                lemma_mul_step(s + 3, depth as int);
            }
            q.push_bits((r & bitmask) as u64, self.num_bits);
            q.push_bits((g & bitmask) as u64, self.num_bits);
            q.push_bits((b & bitmask) as u64, self.num_bits);
            if self.use_alpha_channel {
                proof {
                    lemma_carried_step(pixels, self.bit_depth(), self.uses_alpha(), s + 3);
                }
                q.push_bits((a & bitmask) as u64, self.num_bits);
            }
            i += 1;
            proof {
                s = s + channels_per_pixel(self.uses_alpha());
            }
        }
        let bytes: &[u8] = q.get_bytes();
        let mut m: usize = 0;
        proof {
            assert(buf@ =~= carried_bytes(pixels, self.bit_depth(), self.uses_alpha()).take(0) + old(buf)@.skip(0));
            if i == pixels.len() {
                assert(pixels.take(i as int) =~= pixels);
                assert(q@ =~= all);
            }
        }
        while m < data_size
            invariant
                m <= data_size <= old(buf)@.len(),
                data_size <= all.len() / 8,
                data_size <= q@.len() / 8,
                buf@.len() == old(buf)@.len(),
                bytes@ == pack_padded(q@),
                all == carried_bits(pixels, self.bit_depth(), self.uses_alpha()),
                exists|n: int| 0 <= n <= all.len() && q@ == all.take(n),
                buf@ == carried_bytes(pixels, self.bit_depth(), self.uses_alpha()).take(m as int) + old(buf)@.skip(m as int),
            decreases data_size - m,
        {
            buf[m] = bytes[m];
            proof {
                lemma_byte_at_agrees(q@, all, m as int);
                assert(buf@ =~= carried_bytes(pixels, self.bit_depth(), self.uses_alpha()).take(m + 1)
                    + old(buf)@.skip(m + 1));
            }
            m += 1;
        }
        data_size
    }

    /// Puts `data`, a group of this coder's bit depth, into the low bits of
    /// slot `slot`. The higher bits of that channel and the rest of the
    /// image stay as they are.
    fn store_group(&self, img: &mut Image, slot: usize, data: u8, Ghost(group): Ghost<Seq<bool>>)
        requires
            self.wf(),
            old(img).wf(),
            slot < slot_count(old(img)@.pixels, self.uses_alpha()),
            group.len() == self.bit_depth(),
            data == right_aligned(group),
        ensures
            final(img).wf(),
            final(img)@ == (ImageView {
                pixels: old(img)@.pixels.update(
                    slot_pixel(self.uses_alpha(), slot as int),
                    with_channel(
                        old(img)@.pixels[slot_pixel(self.uses_alpha(), slot as int)],
                        slot_channel(self.uses_alpha(), slot as int),
                        embed(
                            channel(
                                old(img)@.pixels[slot_pixel(self.uses_alpha(), slot as int)],
                                slot_channel(self.uses_alpha(), slot as int),
                            ),
                            group,
                        ),
                    ),
                ),
                ..old(img)@
            }),
    {
        let pixel: usize = if self.use_alpha_channel { slot / 4 } else { slot / 3 };
        let subpixel: usize = if self.use_alpha_channel { slot % 4 } else { slot % 3 };
        let depth: u8 = self.num_bits as u8;
        let bitmask: u8 = 0xFFu8 << depth;
        let raw = img.get_raw_data_mut();
        let pixel_data: u32 = raw[pixel];
        let mut a: u8 = (pixel_data >> 24) as u8;
        let mut b: u8 = ((pixel_data >> 16) & 0xFF) as u8;
        let mut g: u8 = ((pixel_data >> 8) & 0xFF) as u8;
        let mut r: u8 = (pixel_data & 0xFF) as u8;
        proof {
            lemma_embed(r, data, depth, group);
            lemma_embed(g, data, depth, group);
            lemma_embed(b, data, depth, group);
            lemma_embed(a, data, depth, group);
        }
        if subpixel == 0 {
            r = (r & bitmask) | data;
        } else if subpixel == 1 {
            g = (g & bitmask) | data;
        } else if subpixel == 2 {
            b = (b & bitmask) | data;
        } else {
            a = (a & bitmask) | data;
        }
        raw[pixel] = ((a as u32) << 24) | ((b as u32) << 16) | ((g as u32) << 8) | (r as u32);
    }

    /// Writes `buf` into the image from its first slot on: the bytes are cut
    /// into groups of the bit depth, the last group padded with zeros, and
    /// each group replaces the low bits of the next slot. A payload larger
    /// than the capacity is refused and the image is left as it is.
    pub fn write(&self, img: &mut Image, buf: &[u8]) -> (out: Result<usize, SecretError>)
        requires
            self.wf(),
            old(img).wf(),
        ensures
            final(img).wf(),
            buf@.len() > capacity(old(img)@.pixels.len(), self.bit_depth(), self.uses_alpha()) ==> out
                == Err::<usize, SecretError>(SecretError::InsufficientCapacity) && *final(img) == *old(img),
            buf@.len() <= capacity(old(img)@.pixels.len(), self.bit_depth(), self.uses_alpha()) ==> out
                == Ok::<usize, SecretError>(buf@.len() as usize) && final(img)@ == (ImageView {
                pixels: written_pixels(
                    old(img)@.pixels,
                    self.bit_depth(),
                    self.uses_alpha(),
                    bytes_bits(buf@),
                ),
                ..old(img)@
            }),
    {
        if buf.len() > self.get_capacity(img) {
            return Err(SecretError::InsufficientCapacity);
        }
        let len: usize = buf.len();
        let ghost all = bytes_bits(buf@);
        let ghost orig = img@;
        let ghost d = self.num_bits as int;
        let ghost slots = slot_count(orig.pixels, self.uses_alpha());
        let mut bits = BitQueue::new();
        let mut i: usize = 0;
        let mut t: usize = 0;
        proof {
            lemma_written_none(orig.pixels, self.bit_depth(), self.uses_alpha(), all);
            lemma_capacity_bits(orig.pixels, self.bit_depth(), self.uses_alpha());
            assert(bits@ =~= all.subrange(0, 0));
            assert(0 * d == 0) by (nonlinear_arith);
        }
        while t < len
            invariant
                self.wf(),
                d == self.bit_depth(),
                bits.wf(),
                t <= len == buf@.len(),
                all == bytes_bits(buf@),
                slots == slot_count(orig.pixels, self.uses_alpha()),
                slots <= 4 * crate::image::max_pixels(),
                8 * len <= slots * d,
                0 <= i * d <= 8 * t,
                8 * t - i * d < d,
                bits@ == all.subrange(i * d, 8 * t),
                img.wf(),
                img@ == (ImageView {
                    pixels: written_upto(orig.pixels, self.bit_depth(), self.uses_alpha(), all, i as int),
                    ..orig
                }),
            decreases len - t,
        {
            bits.push_byte(buf[t]);
            t += 1;
            proof {
                assert(bits@ =~= all.subrange(i * d, 8 * t)) by {
                    assert forall|k: int| 0 <= k < 8 implies all[8 * (t - 1) + k] == #[trigger] byte_bits(
                        buf@[t - 1],
                    )[k] by {
                        assert((8 * (t - 1) + k) / 8 == t - 1 && (8 * (t - 1) + k) % 8 == k);
                    }
                }
            }
            while bits.total_bits() >= self.num_bits
                invariant
                    self.wf(),
                    d == self.bit_depth(),
                    bits.wf(),
                    t <= len == buf@.len(),
                    all == bytes_bits(buf@),
                    slots == slot_count(orig.pixels, self.uses_alpha()),
                    slots <= 4 * crate::image::max_pixels(),
                    8 * len <= slots * d,
                    0 <= i * d <= 8 * t,
                    bits@ == all.subrange(i * d, 8 * t),
                    img.wf(),
                    img@ == (ImageView {
                        pixels: written_upto(orig.pixels, self.bit_depth(), self.uses_alpha(), all, i as int),
                        ..orig
                    }),
                decreases bits@.len(),
            {
                let ghost group = bits@.take(d);
                proof {
                    lemma_mul_step(i as int, d);
                    if i >= slots {
                        lemma_mul_le(slots, i as int, d);
                    }
                    assert(group =~= group_of(all, self.bit_depth(), i as int));
                    lemma_written_step(orig.pixels, self.bit_depth(), self.uses_alpha(), all, i as int);
                }
                let data: u8 = bits.pop_bits(self.num_bits);
                self.store_group(img, i, data, Ghost(group));
                proof {
                    assert(bits@ =~= all.subrange((i + 1) * d, 8 * t));
                }
                i += 1;
            }
        }
        let rest: usize = bits.total_bits();
        if rest > 0 {
            bits.push_bits(0, self.num_bits - rest);
            let ghost group = bits@;
            proof {
                lemma_mul_step(i as int, d);
                if i >= slots {
                    lemma_mul_le(slots, i as int, d);
                }
                assert forall|k: int| 0 <= k < d implies group[k] == group_of(all, self.bit_depth(), i as int)[k] by {
                    if k >= rest {
                        lemma_zero_bits((d - rest - 1 - (k - rest)) as u64);
                    }
                }
                assert(group =~= group_of(all, self.bit_depth(), i as int));
                assert(group.take(d) =~= group);
                lemma_written_step(orig.pixels, self.bit_depth(), self.uses_alpha(), all, i as int);
                lemma_group_index(d, i + 1, rest - 1);
            }
            let data: u8 = bits.pop_bits(self.num_bits);
            self.store_group(img, i, data, Ghost(group));
        } else {
            proof {
                lemma_group_index(d, i as int, d - 1);
            }
        }
        Ok(len)
    }
}

proof fn lemma_high_bits(a: u8, b: u8, d: u8)
    by (bit_vector)
    requires
        1 <= d <= 4,
        bit8(a, 0) == bit8(b, 0),
        bit8(a, 1) == bit8(b, 1),
        bit8(a, 2) == bit8(b, 2),
        bit8(a, 3) == bit8(b, 3),
        d < 4 ==> bit8(a, 4) == bit8(b, 4),
        d < 3 ==> bit8(a, 5) == bit8(b, 5),
        d < 2 ==> bit8(a, 6) == bit8(b, 6),
    ensures
        a >> d == b >> d,
{
}

/// An embedded group leaves the bits above it as they were, and is found
/// again in the low bits.
pub proof fn lemma_embed_bits(ch: u8, group: Seq<bool>)
    requires
        1 <= group.len() <= 4,
    ensures
        embed(ch, group) >> (group.len() as u8) == ch >> (group.len() as u8),
        low_group(embed(ch, group), group.len()) == group,
{
    let mixed = Seq::new(
        8,
        |k: int|
            if k < 8 - group.len() {
                byte_bit(ch, k)
            } else {
                group[k - (8 - group.len())]
            },
    );
    lemma_byte_from_bits(mixed);
    let e = embed(ch, group);
    assert(byte_bit(e, 0) == mixed[0]);
    assert(byte_bit(e, 1) == mixed[1]);
    assert(byte_bit(e, 2) == mixed[2]);
    assert(byte_bit(e, 3) == mixed[3]);
    assert(byte_bit(e, 4) == mixed[4]);
    assert(byte_bit(e, 5) == mixed[5]);
    assert(byte_bit(e, 6) == mixed[6]);
    lemma_high_bits(e, ch, group.len() as u8);
    assert forall|t: int| 0 <= t < group.len() implies low_group(e, group.len())[t] == group[t] by {
        assert(byte_bit(e, 8 - group.len() + t) == mixed[8 - group.len() + t]);
    }
    assert(low_group(e, group.len()) =~= group);
}

/// Capacity does not shrink as the bit depth grows.
pub proof fn lemma_capacity_monotonic(pixel_count: nat, depth: nat, use_alpha: bool)
    ensures
        capacity(pixel_count, depth, use_alpha) <= capacity(pixel_count, depth + 1, use_alpha),
{
    let c = channels_per_pixel(use_alpha);
    assert(pixel_count * c * depth <= pixel_count * c * (depth + 1)) by (nonlinear_arith)
        requires
            0 <= c,
    ;
}

/// A write changes no bit above the low `depth` bits of any channel, and no
/// bit at all of a channel that lies behind the slots it needs or that the
/// coder does not use.
pub proof fn lemma_write_keeps_high_bits(
    pixels: Seq<u32>,
    depth: nat,
    use_alpha: bool,
    bits: Seq<bool>,
    p: int,
    c: int,
)
    requires
        1 <= depth <= 4,
        0 <= p < pixels.len(),
        0 <= c < 4,
    ensures
        channel(written_pixels(pixels, depth, use_alpha, bits)[p], c) >> (depth as u8) == channel(
            pixels[p],
            c,
        ) >> (depth as u8),
        c >= channels_per_pixel(use_alpha) || slot_of(use_alpha, p, c) >= slots_needed(bits.len(), depth)
            ==> channel(written_pixels(pixels, depth, use_alpha, bits)[p], c) == channel(pixels[p], c),
{
    let count = slots_needed(bits.len(), depth);
    lemma_channel_of_pack(
        written_channel(pixels, depth, use_alpha, bits, count, p, 0),
        written_channel(pixels, depth, use_alpha, bits, count, p, 1),
        written_channel(pixels, depth, use_alpha, bits, count, p, 2),
        written_channel(pixels, depth, use_alpha, bits, count, p, 3),
    );
    lemma_embed_bits(channel(pixels[p], c), group_of(bits, depth, slot_of(use_alpha, p, c)));
}

/// The bytes that an image carries after a write begin with the payload:
/// `write` followed by `read` at the same bit depth gives the payload back.
pub proof fn lemma_write_then_read(pixels: Seq<u32>, depth: nat, use_alpha: bool, payload: Seq<u8>)
    requires
        1 <= depth <= 4,
        payload.len() <= capacity(pixels.len(), depth, use_alpha),
    ensures
        carried_bytes(
            written_pixels(pixels, depth, use_alpha, bytes_bits(payload)),
            depth,
            use_alpha,
        ).take(payload.len() as int) == payload,
{
    let bits = bytes_bits(payload);
    let after = written_pixels(pixels, depth, use_alpha, bits);
    lemma_written_prefix(pixels, depth, use_alpha, bits);
    let stream = carried_bits(after, depth, use_alpha);
    lemma_capacity_bits(after, depth, use_alpha);
    lemma_capacity_bits(pixels, depth, use_alpha);
    assert forall|m: int| 0 <= m < payload.len() implies carried_bytes(after, depth, use_alpha)[m]
        == payload[m] by {
        lemma_byte_at_agrees(stream, bits, m);
        lemma_byte_at_bytes_bits(payload, m);
    }
    assert(carried_bytes(after, depth, use_alpha).take(payload.len() as int) =~= payload);
}

/// The bits that an image carries after a write begin with the bits written.
pub proof fn lemma_written_prefix(pixels: Seq<u32>, depth: nat, use_alpha: bool, bits: Seq<bool>)
    requires
        1 <= depth <= 4,
        bits.len() <= slot_count(pixels, use_alpha) * depth,
    ensures
        carried_bits(written_pixels(pixels, depth, use_alpha, bits), depth, use_alpha).len() == slot_count(
            pixels,
            use_alpha,
        ) * depth,
        forall|j: int|
            0 <= j < bits.len() ==> #[trigger] carried_bits(
                written_pixels(pixels, depth, use_alpha, bits),
                depth,
                use_alpha,
            )[j] == bits[j],
{
    let d = depth as int;
    let count = slots_needed(bits.len(), depth);
    let after = written_pixels(pixels, depth, use_alpha, bits);
    let stream = carried_bits(after, depth, use_alpha);
    assert forall|j: int| 0 <= j < bits.len() implies #[trigger] stream[j] == bits[j] by {
        let k = j / d;
        let t = j % d;
        lemma_index_group(d, j);
        lemma_index_below(d, j, slot_count(pixels, use_alpha));
        let p = slot_pixel(use_alpha, k);
        let c = slot_channel(use_alpha, k);
        assert(slot_of(use_alpha, p, c) == k);
        // slot k is one of the slots that the bits need
        assert(k < count) by {
            lemma_index_group(d, bits.len() + d - 1);
            if count <= k {
                lemma_mul_le(count, k, d);
            }
        }
        lemma_channel_of_pack(
            written_channel(pixels, depth, use_alpha, bits, count, p, 0),
            written_channel(pixels, depth, use_alpha, bits, count, p, 1),
            written_channel(pixels, depth, use_alpha, bits, count, p, 2),
            written_channel(pixels, depth, use_alpha, bits, count, p, 3),
        );
        let group = group_of(bits, depth, k);
        lemma_embed_bits(channel(pixels[p], c), group);
        assert(low_group(embed(channel(pixels[p], c), group), depth)[t] == group[t]);
    }
}

/// In an image written at bit depth `depth`, the low `low` bits of a slot
/// that lies wholly within the bits written are the last `low` bits of that
/// slot's group.
pub proof fn lemma_written_low_bits(
    pixels: Seq<u32>,
    depth: nat,
    use_alpha: bool,
    bits: Seq<bool>,
    k: int,
    low: nat,
    t: int,
)
    requires
        1 <= low <= depth <= 4,
        0 <= k < slot_count(pixels, use_alpha),
        k * depth + depth <= bits.len(),
        0 <= t < low,
    ensures
        byte_bit(
            slot_value(written_pixels(pixels, depth, use_alpha, bits), use_alpha, k),
            8 - low + t,
        ) == bits[k * depth + (depth - low) + t],
{
    let d = depth as int;
    let count = slots_needed(bits.len(), depth);
    let p = slot_pixel(use_alpha, k);
    let c = slot_channel(use_alpha, k);
    assert(slot_of(use_alpha, p, c) == k);
    assert(k < count) by {
        lemma_index_group(d, bits.len() + d - 1);
        if count <= k {
            lemma_mul_le(count, k, d);
        }
    }
    lemma_channel_of_pack(
        written_channel(pixels, depth, use_alpha, bits, count, p, 0),
        written_channel(pixels, depth, use_alpha, bits, count, p, 1),
        written_channel(pixels, depth, use_alpha, bits, count, p, 2),
        written_channel(pixels, depth, use_alpha, bits, count, p, 3),
    );
    let group = group_of(bits, depth, k);
    lemma_embed_bits(channel(pixels[p], c), group);
    assert(low_group(embed(channel(pixels[p], c), group), depth)[depth - low + t] == group[depth - low + t]);
}

} // verus!
