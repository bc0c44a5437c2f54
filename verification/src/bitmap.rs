//! Participation bitmaps.
//!
//! Two distinct bitmap representations coexist in the wire data and are never
//! implicitly converted into one another:
//!
//! * the fixed-width bitmap carried in per-block signature metadata: a
//!   256-bit unsigned integer stored as 32 big-endian bytes, expanded low
//!   bit first into exactly 256 booleans (`unpack_bitmap`), and
//! * the variable-width bitmap stored inside an aggregated seal: an unsigned
//!   integer whose binary digits, most significant first and without leading
//!   zeros, each become one boolean (`seal_bits_of_u64`).

use vstd::arithmetic::power2::{lemma2_to64, lemma2_to64_rest, pow2};
use vstd::prelude::*;

verus! {

/// The number of validator slots in the fixed-width participation bitmap.
pub const BITMAP_SLOTS: usize = 256;

/// The number of bytes that hold the fixed-width bitmap on the wire.
pub const BITMAP_BYTES: usize = 32;

/// Bit `i` of the 256-bit integer stored big-endian in `bytes`: bit 0 is the
/// low-order bit of the last byte.
pub open spec fn spec_bit(bytes: Seq<u8>, i: int) -> bool
    recommends
        bytes.len() == 32,
        0 <= i < 256,
{
    (bytes[31 - i / 8] >> ((i % 8) as u8)) & 1 == 1
}

/// The byte at big-endian position `j` reassembled from entries
/// `8 * (31 - j) .. 8 * (31 - j) + 8` of the boolean vector.
pub open spec fn spec_byte_of_bits(bits: Seq<bool>, j: int) -> u8
    recommends
        bits.len() == 256,
        0 <= j < 32,
{
    let base = 8 * (31 - j);
    ((if bits[base] { 1nat } else { 0nat }) + (if bits[base + 1] { 2nat } else { 0nat })
        + (if bits[base + 2] { 4nat } else { 0nat }) + (if bits[base + 3] { 8nat } else { 0nat })
        + (if bits[base + 4] { 16nat } else { 0nat }) + (if bits[base + 5] { 32nat } else { 0nat })
        + (if bits[base + 6] { 64nat } else { 0nat }) + (if bits[base + 7] {
        128nat
    } else {
        0nat
    })) as u8
}

/// The full 256-entry expansion of a 32-byte bitmap, low bit first.
pub open spec fn spec_unpack(bytes: Seq<u8>) -> Seq<bool> {
    Seq::new(256, |i: int| spec_bit(bytes, i))
}

/// The 32-byte big-endian repacking of a 256-entry boolean vector.
pub open spec fn spec_pack(bits: Seq<bool>) -> Seq<u8> {
    Seq::new(32, |j: int| spec_byte_of_bits(bits, j))
}

/// Expand a 32-byte big-endian bitmap into exactly 256 booleans, low bit
/// first: entry `i` is bit `i` of the 256-bit integer. Total on all inputs of
/// the right length; positions above the highest set bit come out `false`.
pub fn unpack_bitmap(bytes: &Vec<u8>) -> (bits: Vec<bool>)
    requires
        bytes@.len() == 32,
    ensures
        bits@ == spec_unpack(bytes@),
        bits@.len() == 256,
{
    let mut bits: Vec<bool> = Vec::new();
    let mut i: usize = 0;
    while i < 256
        invariant
            bytes@.len() == 32,
            i <= 256,
            bits@.len() == i as int,
            forall|k: int| 0 <= k < i as int ==> bits@[k] == spec_bit(bytes@, k),
        decreases 256 - i,
    {
        let byte = bytes[31 - i / 8];
        let sh = (i % 8) as u8;
        bits.push((byte >> sh) & 1 == 1);
        i += 1;
    }
    proof {
        assert(bits@ =~= spec_unpack(bytes@));
    }
    bits
}

/// Repack a 256-entry boolean vector into the 32-byte big-endian form.
pub fn pack_bitmap(bits: &Vec<bool>) -> (bytes: Vec<u8>)
    requires
        bits@.len() == 256,
    ensures
        bytes@ == spec_pack(bits@),
        bytes@.len() == 32,
{
    let mut bytes: Vec<u8> = Vec::new();
    let mut j: usize = 0;
    while j < 32
        invariant
            bits@.len() == 256,
            j <= 32,
            bytes@.len() == j as int,
            forall|t: int| 0 <= t < j as int ==> bytes@[t] == spec_byte_of_bits(bits@, t),
        decreases 32 - j,
    {
        let base = 8 * (31 - j);
        let mut byte: u8 = 0;
        if bits[base] {
            byte = byte + 1;
        }
        if bits[base + 1] {
            byte = byte + 2;
        }
        if bits[base + 2] {
            byte = byte + 4;
        }
        if bits[base + 3] {
            byte = byte + 8;
        }
        if bits[base + 4] {
            byte = byte + 16;
        }
        if bits[base + 5] {
            byte = byte + 32;
        }
        if bits[base + 6] {
            byte = byte + 64;
        }
        if bits[base + 7] {
            byte = byte + 128;
        }
        bytes.push(byte);
        j += 1;
    }
    proof {
        assert(bytes@ =~= spec_pack(bits@));
    }
    bytes
}

/// Bits 0 through 7 of a byte assembled from eight 0-or-1 summands are those
/// summands.
proof fn lemma_u8_bits(y: u8, x0: u8, x1: u8, x2: u8, x3: u8, x4: u8, x5: u8, x6: u8, x7: u8)
    requires
        x0 <= 1,
        x1 <= 1,
        x2 <= 1,
        x3 <= 1,
        x4 <= 1,
        x5 <= 1,
        x6 <= 1,
        x7 <= 1,
        y == x0 + 2 * x1 + 4 * x2 + 8 * x3 + 16 * x4 + 32 * x5 + 64 * x6 + 128 * x7,
    ensures
        (y >> 0u8) & 1 == x0,
        (y >> 1u8) & 1 == x1,
        (y >> 2u8) & 1 == x2,
        (y >> 3u8) & 1 == x3,
        (y >> 4u8) & 1 == x4,
        (y >> 5u8) & 1 == x5,
        (y >> 6u8) & 1 == x6,
        (y >> 7u8) & 1 == x7,
{
    assert((x0 <= 1 && x1 <= 1 && x2 <= 1 && x3 <= 1 && x4 <= 1 && x5 <= 1 && x6 <= 1 && x7 <= 1
        && y == x0 + 2 * x1 + 4 * x2 + 8 * x3 + 16 * x4 + 32 * x5 + 64 * x6 + 128 * x7) ==> ((y
        >> 0u8) & 1 == x0 && (y >> 1u8) & 1 == x1 && (y >> 2u8) & 1 == x2 && (y >> 3u8) & 1 == x3
        && (y >> 4u8) & 1 == x4 && (y >> 5u8) & 1 == x5 && (y >> 6u8) & 1 == x6 && (y >> 7u8) & 1
        == x7)) by (bit_vector);
}

/// A byte is the weighted sum of its eight bits, and each bit is 0 or 1.
proof fn lemma_u8_sum_of_bits(x: u8)
    ensures
        x == ((x >> 0u8) & 1) + 2 * ((x >> 1u8) & 1) + 4 * ((x >> 2u8) & 1) + 8 * ((x >> 3u8) & 1)
            + 16 * ((x >> 4u8) & 1) + 32 * ((x >> 5u8) & 1) + 64 * ((x >> 6u8) & 1) + 128 * ((x
            >> 7u8) & 1),
        (x >> 0u8) & 1 <= 1,
        (x >> 1u8) & 1 <= 1,
        (x >> 2u8) & 1 <= 1,
        (x >> 3u8) & 1 <= 1,
        (x >> 4u8) & 1 <= 1,
        (x >> 5u8) & 1 <= 1,
        (x >> 6u8) & 1 <= 1,
        (x >> 7u8) & 1 <= 1,
{
    assert(x == ((x >> 0u8) & 1) + 2 * ((x >> 1u8) & 1) + 4 * ((x >> 2u8) & 1) + 8 * ((x >> 3u8)
        & 1) + 16 * ((x >> 4u8) & 1) + 32 * ((x >> 5u8) & 1) + 64 * ((x >> 6u8) & 1) + 128 * ((x
        >> 7u8) & 1) && (x >> 0u8) & 1 <= 1 && (x >> 1u8) & 1 <= 1 && (x >> 2u8) & 1 <= 1 && (x
        >> 3u8) & 1 <= 1 && (x >> 4u8) & 1 <= 1 && (x >> 5u8) & 1 <= 1 && (x >> 6u8) & 1 <= 1 && (x
        >> 7u8) & 1 <= 1) by (bit_vector);
}

/// Law: unpacking a 32-byte bitmap and repacking the 256 booleans recovers
/// the original bytes exactly.
pub proof fn lemma_pack_of_unpack(bytes: Seq<u8>)
    requires
        bytes.len() == 32,
    ensures
        spec_pack(spec_unpack(bytes)) == bytes,
{
    let bits = spec_unpack(bytes);
    assert forall|j: int| 0 <= j < 32 implies spec_pack(bits)[j] == bytes[j] by {
        let x = bytes[j];
        let base = 8 * (31 - j);
        lemma_u8_sum_of_bits(x);
        assert((base + 0) / 8 == 31 - j && (base + 0) % 8 == 0);
        assert((base + 1) / 8 == 31 - j && (base + 1) % 8 == 1);
        assert((base + 2) / 8 == 31 - j && (base + 2) % 8 == 2);
        assert((base + 3) / 8 == 31 - j && (base + 3) % 8 == 3);
        assert((base + 4) / 8 == 31 - j && (base + 4) % 8 == 4);
        assert((base + 5) / 8 == 31 - j && (base + 5) % 8 == 5);
        assert((base + 6) / 8 == 31 - j && (base + 6) % 8 == 6);
        assert((base + 7) / 8 == 31 - j && (base + 7) % 8 == 7);
        assert(bits[base + 0] == ((x >> 0u8) & 1 == 1));
        assert(bits[base + 1] == ((x >> 1u8) & 1 == 1));
        assert(bits[base + 2] == ((x >> 2u8) & 1 == 1));
        assert(bits[base + 3] == ((x >> 3u8) & 1 == 1));
        assert(bits[base + 4] == ((x >> 4u8) & 1 == 1));
        assert(bits[base + 5] == ((x >> 5u8) & 1 == 1));
        assert(bits[base + 6] == ((x >> 6u8) & 1 == 1));
        assert(bits[base + 7] == ((x >> 7u8) & 1 == 1));
    }
    assert(spec_pack(spec_unpack(bytes)) =~= bytes);
}

/// Law: repacking a 256-entry boolean vector and unpacking the 32 bytes
/// recovers the original vector exactly; the unpacked vector always has
/// length exactly 256.
pub proof fn lemma_unpack_of_pack(bits: Seq<bool>)
    requires
        bits.len() == 256,
    ensures
        spec_unpack(spec_pack(bits)) == bits,
        spec_unpack(spec_pack(bits)).len() == 256,
{
    let bytes = spec_pack(bits);
    assert forall|i: int| 0 <= i < 256 implies spec_unpack(bytes)[i] == bits[i] by {
        let j = 31 - i / 8;
        let base = 8 * (31 - j);
        let y = spec_byte_of_bits(bits, j);
        let x0: u8 = if bits[base] { 1 } else { 0 };
        let x1: u8 = if bits[base + 1] { 1 } else { 0 };
        let x2: u8 = if bits[base + 2] { 1 } else { 0 };
        let x3: u8 = if bits[base + 3] { 1 } else { 0 };
        let x4: u8 = if bits[base + 4] { 1 } else { 0 };
        let x5: u8 = if bits[base + 5] { 1 } else { 0 };
        let x6: u8 = if bits[base + 6] { 1 } else { 0 };
        let x7: u8 = if bits[base + 7] { 1 } else { 0 };
        lemma_u8_bits(y, x0, x1, x2, x3, x4, x5, x6, x7);
        assert(base == 8 * (i / 8));
        assert(base + i % 8 == i);
        let k = i % 8;
        if k == 0 {
            assert((y >> 0u8) & 1 == x0);
        } else if k == 1 {
            assert((y >> 1u8) & 1 == x1);
        } else if k == 2 {
            assert((y >> 2u8) & 1 == x2);
        } else if k == 3 {
            assert((y >> 3u8) & 1 == x3);
        } else if k == 4 {
            assert((y >> 4u8) & 1 == x4);
        } else if k == 5 {
            assert((y >> 5u8) & 1 == x5);
        } else if k == 6 {
            assert((y >> 6u8) & 1 == x6);
        } else {
            assert((y >> 7u8) & 1 == x7);
        }
        assert(spec_bit(bytes, i) == bits[i]);
    }
    assert(spec_unpack(spec_pack(bits)) =~= bits);
}

/// The binary digits of `n`, most significant first, with no leading zeros;
/// `0` yields the single digit `[false]`.
pub open spec fn spec_digit_bits(n: nat) -> Seq<bool>
    decreases n,
{
    if n <= 1 {
        seq![n == 1]
    } else {
        spec_digit_bits(n / 2).push(n % 2 == 1)
    }
}

/// The unsigned integer whose binary digits, most significant first, are
/// `bits`.
pub open spec fn spec_bits_value(bits: Seq<bool>) -> nat
    decreases bits.len(),
{
    if bits.len() == 0 {
        0
    } else {
        2 * spec_bits_value(bits.drop_last()) + (if bits.last() {
            1nat
        } else {
            0nat
        })
    }
}

/// A boolean vector is a canonical digit string: nonempty, and with no
/// leading zero unless it is the single digit for zero.
pub open spec fn spec_canonical_digits(bits: Seq<bool>) -> bool {
    bits.len() >= 1 && (bits[0] || bits =~= seq![false])
}

/// Law: the digit expansion of any integer evaluates back to that integer.
pub proof fn lemma_digit_bits_value(n: nat)
    ensures
        spec_bits_value(spec_digit_bits(n)) == n,
        spec_canonical_digits(spec_digit_bits(n)),
        spec_digit_bits(n).len() >= 1,
    decreases n,
{
    if n <= 1 {
        assert(spec_digit_bits(n) == seq![n == 1]);
        assert(spec_bits_value(seq![n == 1]) == 2 * spec_bits_value(
            seq![n == 1].drop_last(),
        ) + (if n == 1 {
            1nat
        } else {
            0nat
        }));
        assert(seq![n == 1].drop_last() =~= Seq::<bool>::empty());
        if n == 0 {
            assert(spec_digit_bits(0nat) =~= seq![false]);
        }
    } else {
        lemma_digit_bits_value(n / 2);
        let prefix = spec_digit_bits(n / 2);
        let whole = prefix.push(n % 2 == 1);
        assert(whole.drop_last() =~= prefix);
        assert(whole.last() == (n % 2 == 1));
        assert(spec_bits_value(whole) == 2 * (n / 2) + n % 2);
        assert(whole[0] == prefix[0]);
        assert(prefix[0] || prefix =~= seq![false]);
        if !prefix[0] {
            assert(prefix =~= seq![false]);
            assert(seq![false].drop_last() =~= Seq::<bool>::empty());
            assert(spec_bits_value(Seq::<bool>::empty()) == 0);
            assert(seq![false].last() == false);
            assert(spec_bits_value(seq![false]) == 2 * spec_bits_value(seq![false].drop_last())
                + 0);
            assert(n / 2 == 0);
        }
    }
}

/// A nonzero leading digit makes the value at least 1.
proof fn lemma_bits_value_positive(bits: Seq<bool>)
    requires
        bits.len() >= 1,
        bits[0],
    ensures
        spec_bits_value(bits) >= 1,
    decreases bits.len(),
{
    if bits.len() == 1 {
    } else {
        assert(bits.drop_last()[0] == bits[0]);
        lemma_bits_value_positive(bits.drop_last());
    }
}

/// The value of a digit string is below two to the power of its length.
pub proof fn lemma_bits_value_bound(bits: Seq<bool>)
    ensures
        spec_bits_value(bits) < pow2(bits.len()),
    decreases bits.len(),
{
    if bits.len() == 0 {
        assert(pow2(0) == 1) by {
            lemma2_to64();
        }
    } else {
        lemma_bits_value_bound(bits.drop_last());
        assert(pow2(bits.len()) == 2 * pow2((bits.len() - 1) as nat)) by {
            vstd::arithmetic::power2::lemma_pow2_unfold(bits.len());
        }
    }
}

/// Law: a canonical digit string is the digit expansion of its own value.
pub proof fn lemma_value_digit_bits(bits: Seq<bool>)
    requires
        spec_canonical_digits(bits),
    ensures
        spec_digit_bits(spec_bits_value(bits)) == bits,
    decreases bits.len(),
{
    let n = spec_bits_value(bits);
    if bits.len() == 1 {
        assert(bits =~= seq![bits[0]]);
        assert(bits.drop_last() =~= Seq::<bool>::empty());
        assert(n == (if bits[0] { 1nat } else { 0nat }));
        assert(spec_digit_bits(n) =~= seq![n == 1]);
        assert(seq![n == 1] =~= bits);
    } else {
        let prefix = bits.drop_last();
        assert(prefix[0] == bits[0]);
        assert(bits[0]) by {
            if !bits[0] {
                assert(bits =~= seq![false]);
            }
        }
        lemma_bits_value_positive(prefix);
        lemma_value_digit_bits(prefix);
        assert(n == 2 * spec_bits_value(prefix) + (if bits.last() { 1nat } else { 0nat }));
        assert(n > 1);
        assert(n / 2 == spec_bits_value(prefix));
        assert(n % 2 == (if bits.last() { 1nat } else { 0nat }));
        assert(spec_digit_bits(n) == spec_digit_bits(n / 2).push(n % 2 == 1));
        assert(spec_digit_bits(n / 2).push(n % 2 == 1) =~= bits);
    }
}

/// An integer below two to the power `k` has at most `k` binary digits.
pub proof fn lemma_digit_bits_len(n: nat, k: nat)
    requires
        n < pow2(k),
        k >= 1,
    ensures
        spec_digit_bits(n).len() <= k,
    decreases k,
{
    if n > 1 {
        lemma2_to64();
        assert(pow2(k) == 2 * pow2((k - 1) as nat)) by {
            vstd::arithmetic::power2::lemma_pow2_unfold(k);
        }
        assert(k >= 2) by {
            if k == 1 {
                assert(pow2(1) == 2);
            }
        }
        lemma_digit_bits_len(n / 2, (k - 1) as nat);
    }
}

/// Expand an unsigned integer into its binary digits, most significant
/// first, exactly as the seal decoder renders a bitmask: `0` becomes the
/// single digit `false`, and no other input has a leading `false`.
pub fn seal_bits_of_u64(x: u64) -> (bits: Vec<bool>)
    ensures
        bits@ == spec_digit_bits(x as nat),
{
    let mut lsb_first: Vec<bool> = Vec::new();
    let mut n: u64 = x;
    if n == 0 {
        let mut bits: Vec<bool> = Vec::new();
        bits.push(false);
        proof {
            assert(bits@ =~= spec_digit_bits(0nat));
        }
        return bits;
    }
    while n > 0
        invariant
            n > 0 ==> spec_digit_bits(x as nat) == spec_digit_bits(n as nat) + lsb_first@.reverse(),
            n == 0 ==> spec_digit_bits(x as nat) == lsb_first@.reverse(),
        decreases n,
    {
        let bit = n % 2 == 1;
        proof {
            let old_rev = lsb_first@.reverse();
            let new_rev = lsb_first@.push(bit).reverse();
            assert(new_rev =~= seq![bit] + old_rev);
            if n > 1 {
                assert(spec_digit_bits(n as nat) == spec_digit_bits((n / 2) as nat).push(
                    n as nat % 2 == 1,
                ));
                assert(spec_digit_bits((n / 2) as nat) + new_rev =~= spec_digit_bits(n as nat)
                    + old_rev);
            } else {
                assert(spec_digit_bits(1nat) =~= seq![true]);
                assert(new_rev =~= spec_digit_bits(n as nat) + old_rev);
            }
        }
        lsb_first.push(bit);
        n = n / 2;
    }
    let mut bits: Vec<bool> = Vec::new();
    let mut i: usize = lsb_first.len();
    while i > 0
        invariant
            i <= lsb_first@.len(),
            bits@ =~= lsb_first@.reverse().take(lsb_first@.len() - i),
        decreases i,
    {
        i = i - 1;
        let b = lsb_first[i];
        proof {
            let rev = lsb_first@.reverse();
            let m = lsb_first@.len();
            assert(rev[m - 1 - i as int] == lsb_first@[i as int]);
            assert(rev.take(m - i as int) =~= rev.take(m - 1 - i as int).push(
                lsb_first@[i as int],
            ));
        }
        bits.push(b);
    }
    proof {
        let rev = lsb_first@.reverse();
        assert(bits@ =~= rev);
    }
    bits
}

/// Evaluate a canonical digit string back into the integer it denotes, the
/// inverse of `seal_bits_of_u64` on canonical inputs.
pub fn seal_bits_to_u64(bits: &Vec<bool>) -> (x: u64)
    requires
        bits@.len() <= 64,
    ensures
        x as nat == spec_bits_value(bits@),
{
    let mut acc: u64 = 0;
    let mut i: usize = 0;
    proof {
        assert(bits@.take(0) =~= Seq::<bool>::empty());
        lemma2_to64();
    }
    while i < bits.len()
        invariant
            bits@.len() <= 64,
            i <= bits@.len(),
            acc as nat == spec_bits_value(bits@.take(i as int)),
            (acc as nat) < pow2(i as nat),
        decreases bits@.len() - i,
    {
        proof {
            let taken = bits@.take(i as int + 1);
            assert(taken.drop_last() =~= bits@.take(i as int));
            assert(taken.last() == bits@[i as int]);
            assert(pow2((i + 1) as nat) == 2 * pow2(i as nat)) by {
                vstd::arithmetic::power2::lemma_pow2_unfold((i + 1) as nat);
            }
            assert(pow2(64) == 0x10000000000000000) by {
                lemma2_to64_rest();
            }
            assert(pow2(i as nat + 1) <= pow2(64)) by {
                if i as nat + 1 < 64 {
                    vstd::arithmetic::power2::lemma_pow2_strictly_increases(i as nat + 1, 64);
                }
            }
        }
        let b: u64 = if bits[i] {
            1
        } else {
            0
        };
        acc = 2 * acc + b;
        i = i + 1;
    }
    proof {
        assert(bits@.take(bits@.len() as int) =~= bits@);
    }
    acc
}

} // verus!
