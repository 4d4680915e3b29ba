//! The mathematical model of a packed buffer: bit `i` of a byte sequence is
//! bit `7 - i % 8` of byte `i / 8`, so bits run most-significant first.
use vstd::arithmetic::div_mod::lemma_mod_breakdown;
use vstd::arithmetic::power2::{lemma_pow2_pos, lemma_pow2_unfold, pow2};
use vstd::prelude::*;

verus! {

/// Bit `k` of a byte, counted from the most significant one (`k < 8`).
pub open spec fn byte_bit(b: u8, k: int) -> bool {
    (b >> ((7 - k) as u8)) & 1u8 == 1u8
}

/// Absolute bit `i` of a byte sequence.
pub open spec fn bit_at(bytes: Seq<u8>, i: int) -> bool {
    byte_bit(bytes[i / 8], i % 8)
}

/// Bit `k` of an integer, counted from the least significant one (`k < 128`).
pub open spec fn value_bit(v: u128, k: int) -> bool {
    (v >> (k as u128)) & 1u128 == 1u128
}

/// The bits `[start, end)` read as an unsigned number, the bit at `start`
/// being the most significant one.
pub open spec fn range_value(bytes: Seq<u8>, start: int, end: int) -> nat
    decreases end - start,
{
    if end <= start {
        0
    } else {
        2 * range_value(bytes, start, end - 1) + (if bit_at(bytes, end - 1) {
            1nat
        } else {
            0nat
        })
    }
}

/// `new` is `old` with the low `end - start` bits of `v` written into
/// `[start, end)`, the most significant of them at `start`, and every other
/// bit kept.
pub open spec fn writes(old: Seq<u8>, new: Seq<u8>, start: int, end: int, v: u128) -> bool {
    &&& new.len() == old.len()
    &&& forall|i: int| start <= i < end ==> bit_at(new, i) == value_bit(v, end - 1 - i)
    &&& forall|i: int|
        0 <= i < 8 * old.len() && !(start <= i < end) ==> #[trigger] bit_at(new, i) == bit_at(
            old,
            i,
        )
}

/// A range of `n` bits reads as a number below `2^n`.
pub proof fn lemma_range_value_bound(bytes: Seq<u8>, start: int, end: int)
    requires
        start <= end,
    ensures
        range_value(bytes, start, end) < pow2((end - start) as nat),
    decreases end - start,
{
    if end > start {
        lemma_range_value_bound(bytes, start, end - 1);
        lemma_pow2_unfold((end - start) as nat);
    } else {
        assert(pow2(0) == 1) by {
            vstd::arithmetic::power2::lemma2_to64();
        }
    }
}

/// Every power of two up to `2^128` is at most `2^128`.
pub proof fn lemma_pow2_at_most_128(w: nat)
    requires
        w <= 128,
    ensures
        pow2(w) <= 0x1_0000_0000_0000_0000_0000_0000_0000_0000,
{
    vstd::arithmetic::power2::lemma2_to64();
    vstd::arithmetic::power2::lemma_pow2_adds(64, 64);
    if w < 128 {
        vstd::arithmetic::power2::lemma_pow2_strictly_increases(w, 128);
    }
}

/// A range read as a number is its first part shifted past its second part.
pub proof fn lemma_range_value_concat(bytes: Seq<u8>, a: int, b: int, c: int)
    requires
        a <= b <= c,
    ensures
        range_value(bytes, a, c) == range_value(bytes, a, b) * pow2((c - b) as nat) + range_value(
            bytes,
            b,
            c,
        ),
    decreases c - b,
{
    if c == b {
        assert(pow2(0) == 1) by {
            vstd::arithmetic::power2::lemma2_to64();
        }
    } else {
        lemma_range_value_concat(bytes, a, b, c - 1);
        lemma_pow2_unfold((c - b) as nat);
        let x = range_value(bytes, a, b);
        let p = pow2((c - 1 - b) as nat);
        let bit: nat = if bit_at(bytes, c - 1) {
            1
        } else {
            0
        };
        assert(range_value(bytes, a, c) == 2 * range_value(bytes, a, c - 1) + bit);
        assert(range_value(bytes, b, c) == 2 * range_value(bytes, b, c - 1) + bit);
        assert(range_value(bytes, a, c - 1) == x * p + range_value(bytes, b, c - 1));
        assert(pow2((c - b) as nat) == 2 * p);
        assert(2 * (x * p) == x * (2 * p)) by (nonlinear_arith);
    }
}

proof fn lemma_byte_as_bits(b: u8)
    by (bit_vector)
    ensures
        b == ((b >> 7u8) & 1u8) * 128 + ((b >> 6u8) & 1u8) * 64 + ((b >> 5u8) & 1u8) * 32 + ((b
            >> 4u8) & 1u8) * 16 + ((b >> 3u8) & 1u8) * 8 + ((b >> 2u8) & 1u8) * 4 + ((b >> 1u8)
            & 1u8) * 2 + ((b >> 0u8) & 1u8),
        (b >> 7u8) & 1u8 <= 1,
        (b >> 6u8) & 1u8 <= 1,
        (b >> 5u8) & 1u8 <= 1,
        (b >> 4u8) & 1u8 <= 1,
        (b >> 3u8) & 1u8 <= 1,
        (b >> 2u8) & 1u8 <= 1,
        (b >> 1u8) & 1u8 <= 1,
        (b >> 0u8) & 1u8 <= 1,
{
}

/// The eight bits of a whole byte read as that byte.
pub proof fn lemma_byte_range_value(bytes: Seq<u8>, q: int)
    requires
        0 <= q < bytes.len(),
    ensures
        range_value(bytes, 8 * q, 8 * q + 8) == bytes[q],
{
    let b = bytes[q];
    assert forall|k: int| 0 <= k < 8 implies bit_at(bytes, 8 * q + k) == byte_bit(b, k) by {
        assert((8 * q + k) / 8 == q && (8 * q + k) % 8 == k) by (nonlinear_arith)
            requires
                0 <= k < 8,
        ;
    }
    reveal_with_fuel(range_value, 9);
    lemma_byte_as_bits(b);
}

/// Two buffers that agree on the bits of a range read the same value there.
pub proof fn lemma_range_value_same_bits(a: Seq<u8>, b: Seq<u8>, start: int, end: int)
    requires
        forall|i: int| start <= i < end ==> bit_at(a, i) == bit_at(b, i),
    ensures
        range_value(a, start, end) == range_value(b, start, end),
    decreases end - start,
{
    if end > start {
        lemma_range_value_same_bits(a, b, start, end - 1);
    }
}

proof fn lemma_value_bit_shift(v: u128, k: u128)
    requires
        k < 127,
    ensures
        ((v >> (k + 1) as u128) & 1u128 == 1u128) == (((v >> 1u128) >> k) & 1u128 == 1u128),
        v >> 1u128 == v / 2,
        ((v >> 0u128) & 1u128 == 1u128) == (v % 2 == 1),
{
    assert(((v >> (k + 1) as u128) & 1u128 == 1u128) == (((v >> 1u128) >> k) & 1u128 == 1u128))
        by (bit_vector)
        requires
            k < 127,
    ;
    assert(v >> 1u128 == v / 2) by (bit_vector);
    assert(((v >> 0u128) & 1u128 == 1u128) == (v % 2 == 1)) by (bit_vector);
}

/// A range whose bits spell the low bits of `v` reads as `v` modulo `2^n`.
pub proof fn lemma_range_value_of_bits(bytes: Seq<u8>, start: int, end: int, v: u128)
    requires
        start <= end <= start + 128,
        forall|i: int| start <= i < end ==> bit_at(bytes, i) == value_bit(v, end - 1 - i),
    ensures
        range_value(bytes, start, end) == (v as nat) % pow2((end - start) as nat),
    decreases end - start,
{
    let w = (end - start) as nat;
    if end == start {
        assert(pow2(0) == 1) by {
            vstd::arithmetic::power2::lemma2_to64();
        }
    } else {
        let h = v >> 1u128;
        assert forall|i: int| start <= i < end - 1 implies bit_at(bytes, i) == value_bit(
            h,
            end - 1 - 1 - i,
        ) by {
            lemma_value_bit_shift(v, (end - 2 - i) as u128);
            assert((end - 2 - i) as u128 + 1 == (end - 1 - i) as u128);
        }
        lemma_range_value_of_bits(bytes, start, end - 1, h);
        lemma_value_bit_shift(v, 0);
        assert(bit_at(bytes, end - 1) == value_bit(v, 0));
        lemma_pow2_unfold(w);
        lemma_pow2_pos((w - 1) as nat);
        lemma_mod_breakdown(v as int, 2, pow2((w - 1) as nat) as int);
    }
}

/// Writing a range and reading it back gives the written value modulo `2^n`.
pub proof fn lemma_write_then_read(old: Seq<u8>, new: Seq<u8>, start: int, end: int, v: u128)
    requires
        start <= end <= start + 128,
        writes(old, new, start, end, v),
    ensures
        range_value(new, start, end) == (v as nat) % pow2((end - start) as nat),
{
    lemma_range_value_of_bits(new, start, end, v);
}

/// A value that fits in the range is read back unchanged.
pub proof fn lemma_round_trip(old: Seq<u8>, new: Seq<u8>, start: int, end: int, v: u128)
    requires
        start <= end <= start + 128,
        (v as nat) < pow2((end - start) as nat),
        writes(old, new, start, end, v),
    ensures
        range_value(new, start, end) == v,
{
    lemma_write_then_read(old, new, start, end, v);
    vstd::arithmetic::div_mod::lemma_small_mod(v as nat, pow2((end - start) as nat));
}

/// Writing one range leaves the value read from any disjoint range within
/// the buffer unchanged.
pub proof fn lemma_non_interference(
    old: Seq<u8>,
    new: Seq<u8>,
    start: int,
    end: int,
    v: u128,
    other_start: int,
    other_end: int,
)
    requires
        writes(old, new, start, end, v),
        0 <= other_start,
        other_end <= 8 * old.len(),
        other_end <= start || end <= other_start,
    ensures
        range_value(new, other_start, other_end) == range_value(old, other_start, other_end),
{
    assert forall|i: int| other_start <= i < other_end implies bit_at(new, i) == bit_at(old, i) by {
        assert(0 <= i < 8 * old.len() && !(start <= i < end));
    }
    lemma_range_value_same_bits(new, old, other_start, other_end);
}

} // verus!
