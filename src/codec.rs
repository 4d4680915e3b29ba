//! Reading and writing an absolute bit range of a byte buffer.
use crate::bits::{
    bit_at, lemma_byte_range_value, lemma_pow2_at_most_128, lemma_range_value_bound,
    lemma_range_value_concat, range_value, value_bit, writes,
};
use crate::error::BitfieldError;
use vstd::arithmetic::power2::{lemma_pow2_unfold, pow2};
use vstd::prelude::*;

verus! {

proof fn lemma_byte_bit_update(b: u8, o: u8, v: u8, k: u8)
    by (bit_vector)
    requires
        o < 8,
        k < 8,
        v < 2,
    ensures
        ((((b & !(1u8 << o)) | (v << o)) >> k) & 1u8 == 1u8) == (if k == o {
            v == 1u8
        } else {
            (b >> k) & 1u8 == 1u8
        }),
{
}

proof fn lemma_byte_of_value(v: u128, sh: u128, k: u8)
    by (bit_vector)
    requires
        sh <= 120,
        k < 8,
    ensures
        (((((v >> sh) & 0xffu128) as u8) >> ((7 - k) as u8)) & 1u8 == 1u8) == ((v >> ((sh + 7
            - k) as u128)) & 1u128 == 1u128),
{
}

/// The bit at absolute position `bit_index`, as 0 or 1.
fn fetch_bit(bytes: &Vec<u8>, bit_index: usize) -> (r: u128)
    requires
        bit_index < 8 * bytes@.len(),
    ensures
        r == (if bit_at(bytes@, bit_index as int) {
            1u128
        } else {
            0u128
        }),
{
    let byte_index: usize = bit_index / 8;
    let offset: u8 = (7 - bit_index % 8) as u8;
    let b: u8 = bytes[byte_index];
    let bit: u8 = (b >> offset) & 1;
    assert(bit == 0 || bit == 1) by (bit_vector)
        requires
            bit == (b >> offset) & 1u8,
    ;
    bit as u128
}

/// Sets the bit at absolute position `bit_index` and keeps every other bit.
fn set_bit(bytes: &mut Vec<u8>, bit_index: usize, bit: bool)
    requires
        bit_index < 8 * old(bytes)@.len(),
    ensures
        final(bytes)@.len() == old(bytes)@.len(),
        bit_at(final(bytes)@, bit_index as int) == bit,
        forall|i: int|
            0 <= i < 8 * old(bytes)@.len() && i != bit_index ==> #[trigger] bit_at(final(bytes)@, i)
                == bit_at(old(bytes)@, i),
{
    let byte_index: usize = bit_index / 8;
    let offset: u8 = (7 - bit_index % 8) as u8;
    let v: u8 = if bit {
        1
    } else {
        0
    };
    let b: u8 = bytes[byte_index];
    let nb: u8 = (b & !(1u8 << offset)) | (v << offset);
    bytes.set(byte_index, nb);
    proof {
        lemma_byte_bit_update(b, offset, v, offset);
        assert forall|i: int|
            0 <= i < 8 * old(bytes)@.len() && i != bit_index implies #[trigger] bit_at(
                bytes@,
                i,
            ) == bit_at(old(bytes)@, i) by {
            if i / 8 == byte_index as int {
                lemma_byte_bit_update(b, offset, v, (7 - i % 8) as u8);
            }
        }
    }
}

/// Reads the bits `[start, end)` as an unsigned number whose most significant
/// bit is the one at `start`.
pub fn read_bits(buffer: &Vec<u8>, start: usize, end: usize) -> (r: Result<u128, BitfieldError>)
    requires
        end - start <= 128,
    ensures
        start >= end ==> r == Err::<u128, BitfieldError>(BitfieldError::EmptyRange),
        start < end && end > 8 * buffer@.len() ==> r == Err::<u128, BitfieldError>(
            BitfieldError::OutOfBounds,
        ),
        start < end && end <= 8 * buffer@.len() ==> (r matches Ok(v) && v == range_value(
            buffer@,
            start as int,
            end as int,
        )),
{
    if start >= end {
        return Err(BitfieldError::EmptyRange);
    }
    if end / 8 > buffer.len() || (end / 8 == buffer.len() && end % 8 != 0) {
        return Err(BitfieldError::OutOfBounds);
    }
    let mut val: u128 = 0;
    let mut i: usize = start;
    while i < end
        invariant
            start <= i <= end,
            end - start <= 128,
            end <= 8 * buffer@.len(),
            val == range_value(buffer@, start as int, i as int),
        decreases end - i,
    {
        proof {
            lemma_range_value_bound(buffer@, start as int, i as int);
            lemma_pow2_unfold((i + 1 - start) as nat);
            lemma_pow2_at_most_128(128);
            if i + 1 - start < 128 {
                vstd::arithmetic::power2::lemma_pow2_strictly_increases(
                    (i + 1 - start) as nat,
                    128,
                );
            }
        }
        if i % 8 == 0 && end - i >= 8 {
            proof {
                let q = i / 8;
                lemma_range_value_concat(buffer@, start as int, i as int, i + 8);
                lemma_byte_range_value(buffer@, q as int);
                lemma_range_value_bound(buffer@, start as int, i + 8);
                lemma_pow2_at_most_128((i + 8 - start) as nat);
                assert(pow2(8) == 256) by {
                    vstd::arithmetic::power2::lemma2_to64();
                }
            }
            val = val * 256 + buffer[i / 8] as u128;
            i = i + 8;
        } else {
            let bit: u128 = fetch_bit(buffer, i);
            val = val * 2 + bit;
            i = i + 1;
        }
    }
    Ok(val)
}

/// Writes the low `end - start` bits of `value` into `[start, end)`, the most
/// significant of them at `start`; higher bits of `value` are dropped and
/// every bit outside the range is kept.
pub fn write_bits(buffer: &mut Vec<u8>, start: usize, end: usize, value: u128) -> (r: Result<
    (),
    BitfieldError,
>)
    requires
        end - start <= 128,
    ensures
        start >= end ==> r == Err::<(), BitfieldError>(BitfieldError::EmptyRange),
        start < end && end > 8 * old(buffer)@.len() ==> r == Err::<(), BitfieldError>(
            BitfieldError::OutOfBounds,
        ),
        r.is_err() ==> final(buffer)@ == old(buffer)@,
        start < end && end <= 8 * old(buffer)@.len() ==> r == Ok::<(), BitfieldError>(())
            && writes(old(buffer)@, final(buffer)@, start as int, end as int, value),
{
    if start >= end {
        return Err(BitfieldError::EmptyRange);
    }
    if end / 8 > buffer.len() || (end / 8 == buffer.len() && end % 8 != 0) {
        return Err(BitfieldError::OutOfBounds);
    }
    let mut i: usize = start;
    while i < end
        invariant
            start <= i <= end,
            end - start <= 128,
            end <= 8 * old(buffer)@.len(),
            buffer@.len() == old(buffer)@.len(),
            forall|j: int| start <= j < i ==> bit_at(buffer@, j) == value_bit(value, end - 1 - j),
            forall|j: int|
                0 <= j < 8 * old(buffer)@.len() && !(start <= j < i) ==> #[trigger] bit_at(
                    buffer@,
                    j,
                ) == bit_at(old(buffer)@, j),
        decreases end - i,
    {
        if i % 8 == 0 && end - i >= 8 {
            let shift: u128 = (end - i - 8) as u128;
            let masked: u128 = (value >> shift) & 0xff;
            assert(masked <= 0xff) by (bit_vector)
                requires
                    masked == (value >> shift) & 0xffu128,
            ;
            let byte: u8 = masked as u8;
            let ghost before = buffer@;
            assert(masked == (value >> shift) & 0xffu128);
            buffer.set(i / 8, byte);
            proof {
                assert forall|j: int| i <= j < i + 8 implies bit_at(buffer@, j) == value_bit(
                    value,
                    end - 1 - j,
                ) by {
                    let k = (j - i) as u8;
                    assert(j / 8 == i / 8 && j % 8 == j - i) by (nonlinear_arith)
                        requires
                            i % 8 == 0,
                            i <= j < i + 8,
                    ;
                    lemma_byte_of_value(value, shift, k);
                    assert(byte == ((value >> shift) & 0xffu128) as u8);
                    assert((7 - (j % 8)) as u8 == (7 - k) as u8);
                    assert((end - 1 - j) as u128 == (shift + 7 - k) as u128);
                }
                assert forall|j: int| start <= j < i implies bit_at(buffer@, j) == bit_at(before, j)
                    by {
                    assert(j / 8 != i / 8) by (nonlinear_arith)
                        requires
                            i % 8 == 0,
                            j < i,
                    ;
                }
                assert forall|j: int| start <= j < i + 8 implies bit_at(buffer@, j) == value_bit(
                    value,
                    end - 1 - j,
                ) by {
                    if j < i {
                        assert(bit_at(before, j) == value_bit(value, end - 1 - j));
                    }
                }
                assert forall|j: int|
                    0 <= j < 8 * old(buffer)@.len() && !(start <= j < i + 8) implies #[trigger] bit_at(
                    buffer@,
                    j,
                ) == bit_at(old(buffer)@, j) by {
                    assert(j / 8 != i / 8) by (nonlinear_arith)
                        requires
                            i % 8 == 0,
                            j < i || j >= i + 8,
                    ;
                    assert(bit_at(before, j) == bit_at(old(buffer)@, j));
                }
            }
            i = i + 8;
        } else {
            let shift: u128 = (end - 1 - i) as u128;
            let bit: bool = (value >> shift) & 1 == 1;
            set_bit(buffer, i, bit);
            i = i + 1;
        }
    }
    Ok(())
}

} // verus!
