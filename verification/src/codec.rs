//! Numbers as bytes: the two byte orders, and two's complement.

use vstd::arithmetic::power2::{
    lemma2_to64, lemma_pow2_adds, lemma_pow2_pos, lemma_pow2_strictly_increases, pow2,
};
use vstd::prelude::*;

verus! {

/// The number that `bytes` spell, most significant byte first.
pub open spec fn be_value(bytes: Seq<u8>) -> nat
    decreases bytes.len(),
{
    if bytes.len() == 0 {
        0
    } else {
        be_value(bytes.drop_last()) * 256 + bytes.last() as nat
    }
}

/// The number that `bytes` spell, least significant byte first.
pub open spec fn le_value(bytes: Seq<u8>) -> nat
    decreases bytes.len(),
{
    if bytes.len() == 0 {
        0
    } else {
        bytes[0] as nat + 256 * le_value(bytes.skip(1))
    }
}

/// What the low `bits` bits of a word mean in two's complement: `value` itself below
/// `2^(bits - 1)`, and `value - 2^bits` from there on.
pub open spec fn signed(value: nat, bits: nat) -> int {
    if value < pow2((bits - 1) as nat) {
        value as int
    } else {
        value - pow2(bits)
    }
}

/// One more byte is a factor of 256.
pub proof fn lemma_radix(width: nat)
    ensures
        pow2(8 * (width + 1)) == 256 * pow2(8 * width),
        pow2(8 * width) >= 1,
        width <= 8 ==> pow2(8 * width) <= 0x1_0000_0000_0000_0000,
{
    lemma2_to64();
    lemma_pow2_adds(8, 8 * width);
    lemma_pow2_pos(8 * width);
    if width < 8 {
        lemma_pow2_strictly_increases(8 * width, 64);
    }
}

/// `n` bytes spell a number below `2^(8n)`, in either order.
pub proof fn lemma_value_bound(bytes: Seq<u8>)
    ensures
        be_value(bytes) < pow2(8 * bytes.len()),
        le_value(bytes) < pow2(8 * bytes.len()),
    decreases bytes.len(),
{
    if bytes.len() == 0 {
        lemma2_to64();
    } else {
        lemma_value_bound(bytes.drop_last());
        lemma_value_bound(bytes.skip(1));
        lemma_radix((bytes.len() - 1) as nat);
    }
}

/// Decoding undoes encoding: the `width` big-endian bytes of a number below `2^(8 width)`
/// spell that number.
pub proof fn lemma_be_round_trip(value: nat, width: nat)
    requires
        value < pow2(8 * width),
    ensures
        be_bytes(value, width).len() == width,
        be_value(be_bytes(value, width)) == value,
    decreases width,
{
    if width == 0 {
        lemma2_to64();
    } else {
        lemma_radix((width - 1) as nat);
        lemma_be_round_trip(value / 256, (width - 1) as nat);
        let front = be_bytes(value / 256, (width - 1) as nat);
        assert(be_bytes(value, width).drop_last() =~= front);
    }
}

/// Bytes put behind other bytes: the number that the first spell moves up by the length
/// of the second.
pub proof fn lemma_be_value_append(front: Seq<u8>, back: Seq<u8>)
    ensures
        be_value(front + back) == be_value(front) * pow2(8 * back.len()) + be_value(back),
    decreases back.len(),
{
    if back.len() == 0 {
        lemma2_to64();
        let one = pow2(8 * back.len());
        assert(be_value(front) * one == be_value(front)) by (nonlinear_arith)
            requires
                one == 1,
        ;
    } else {
        let all = front + back;
        assert(all.drop_last() =~= front + back.drop_last());
        lemma_be_value_append(front, back.drop_last());
        lemma_radix((back.len() - 1) as nat);
        let high = be_value(front) as int;
        let unit = pow2((8 * (back.len() - 1)) as nat) as int;
        let low = be_value(back.drop_last()) as int;
        assert((high * unit + low) * 256 == high * (256 * unit) + low * 256) by (nonlinear_arith);
    }
}

/// The first `count` bytes spell the number that all of them spell, without its low
/// bytes.
pub proof fn lemma_be_value_prefix(bytes: Seq<u8>, count: nat)
    requires
        count <= bytes.len(),
    ensures
        be_value(bytes.take(count as int)) == be_value(bytes) / pow2(
            (8 * (bytes.len() - count)) as nat,
        ),
{
    let front = bytes.take(count as int);
    let back = bytes.skip(count as int);
    assert(front + back =~= bytes);
    lemma_be_value_append(front, back);
    lemma_value_bound(back);
    let unit = pow2(8 * back.len()) as int;
    assert(be_value(front) * unit == unit * be_value(front)) by (nonlinear_arith);
    vstd::arithmetic::div_mod::lemma_div_multiples_vanish_fancy(
        be_value(front) as int,
        be_value(back) as int,
        unit,
    );
}

/// Reads the first `n` bytes of `bytes` as a big-endian number.
pub fn be_decode(bytes: &[u8], n: usize) -> (value: u64)
    requires
        n <= 8,
        n <= bytes@.len(),
    ensures
        value == be_value(bytes@.take(n as int)),
{
    let mut value: u64 = 0;
    let mut index: usize = 0;
    proof {
        lemma2_to64();
    }
    while index < n
        invariant
            index <= n <= 8,
            n <= bytes@.len(),
            value == be_value(bytes@.take(index as int)),
            value < pow2(8 * index as nat),
        decreases n - index,
    {
        proof {
            lemma_radix(index as nat);
            lemma_radix((index + 1) as nat);
            assert(bytes@.take(index + 1).drop_last() =~= bytes@.take(index as int));
        }
        value = value * 256 + bytes[index] as u64;
        index = index + 1;
    }
    value
}

/// Reads the first `n` bytes of `bytes` as a little-endian number.
pub fn le_decode(bytes: &[u8], n: usize) -> (value: u64)
    requires
        n <= 8,
        n <= bytes@.len(),
    ensures
        value == le_value(bytes@.take(n as int)),
{
    let mut value: u64 = 0;
    let mut index: usize = n;
    proof {
        lemma2_to64();
    }
    while index > 0
        invariant
            index <= n <= 8,
            n <= bytes@.len(),
            value == le_value(bytes@.take(n as int).skip(index as int)),
            value < pow2(8 * (n - index) as nat),
        decreases index,
    {
        proof {
            lemma_radix((n - index) as nat);
            lemma_radix((n - index + 1) as nat);
            assert(bytes@.take(n as int).skip(index - 1).skip(1) =~= bytes@.take(n as int).skip(
                index as int,
            ));
        }
        index = index - 1;
        value = value * 256 + bytes[index] as u64;
    }
    proof {
        assert(bytes@.take(n as int).skip(0) =~= bytes@.take(n as int));
    }
    value
}

/// Reads the low `n` bits of `value` as a two's complement number, whatever lies above
/// them: the word is shifted left until bit `n - 1` is its top bit, and shifted back with
/// the sign.
pub fn extend_sign_bits(value: u64, n: usize) -> (r: i64)
    requires
        1 <= n <= 64,
    ensures
        r == signed(value as nat % pow2(n as nat), n as nat),
{
    let bits: u64 = n as u64;
    let shift: u64 = 64 - bits;
    let r = (#[verifier::truncate] ((value << shift) as i64)) >> shift;
    proof {
        lemma2_to64();
        if n == 64 {
            assert(value < 0x8000_0000_0000_0000 ==> (r as int) == (value as int)) by (bit_vector)
                requires
                    shift == 0,
                    r == ((value << shift) as i64) >> shift,
            ;
            assert(value >= 0x8000_0000_0000_0000 ==> (r as int) == (value as int)
                - 0x1_0000_0000_0000_0000) by (bit_vector)
                requires
                    shift == 0,
                    r == ((value << shift) as i64) >> shift,
            ;
            vstd::arithmetic::power2::lemma2_to64_rest();
            vstd::arithmetic::div_mod::lemma_small_mod(value as nat, pow2(64));
        } else {
            let below: u64 = (bits - 1) as u64;
            vstd::bits::lemma_u64_pow2_no_overflow(bits as nat);
            vstd::bits::lemma_u64_pow2_no_overflow(below as nat);
            vstd::bits::lemma_u64_shl_is_mul(1, bits);
            vstd::bits::lemma_u64_shl_is_mul(1, below);
            let mask: u64 = ((1u64 << bits) - 1) as u64;
            let low: u64 = value & mask;
            vstd::bits::lemma_u64_low_bits_mask_is_mod(value, bits as nat);
            assert(low < (1u64 << bits) && r == ((low << shift) as i64) >> shift) by (bit_vector)
                requires
                    1 <= bits <= 63,
                    shift == 64 - bits,
                    mask == (1u64 << bits) - 1,
                    low == value & mask,
                    r == ((value << shift) as i64) >> shift,
            ;
            assert(low < (1u64 << below) ==> (r as int) == (low as int)) by (bit_vector)
                requires
                    1 <= bits <= 63,
                    below == bits - 1,
                    shift == 64 - bits,
                    low < (1u64 << bits),
                    r == ((low << shift) as i64) >> shift,
            ;
            assert(low >= (1u64 << below) ==> (r as int) == (low as int) - ((1u64
                << bits) as int)) by (bit_vector)
                requires
                    1 <= bits <= 63,
                    below == bits - 1,
                    shift == 64 - bits,
                    low < (1u64 << bits),
                    r == ((low << shift) as i64) >> shift,
            ;
        }
    }
    r
}

/// Reads the low `n` bytes of `value` as a two's complement number, whatever lies above
/// them.
pub fn extend_sign(value: u64, n: usize) -> (r: i64)
    requires
        1 <= n <= 8,
    ensures
        r == signed(value as nat % pow2(8 * n as nat), 8 * n as nat),
{
    extend_sign_bits(value, n * 8)
}

/// The `width` low bytes of `value`, most significant first.
pub open spec fn be_bytes(value: nat, width: nat) -> Seq<u8>
    decreases width,
{
    if width == 0 {
        Seq::empty()
    } else {
        be_bytes(value / 256, (width - 1) as nat).push((value % 256) as u8)
    }
}

/// Appends the `width` low bytes of `value` to `out`, most significant first.
pub fn push_be(out: &mut Vec<u8>, value: u128, width: usize)
    ensures
        final(out)@ == old(out)@ + be_bytes(value as nat, width as nat),
{
    let base = out.len();
    let mut filled: usize = 0;
    while filled < width
        invariant
            filled <= width,
            out@.len() == base + filled,
            out@.subrange(0, base as int) == old(out)@,
        decreases width - filled,
    {
        out.push(0);
        filled = filled + 1;
    }
    let total = out.len();
    let mut rest = value;
    let mut done: usize = 0;
    while done < width
        invariant
            done <= width,
            total == base + width,
            out@.len() == base + width,
            out@.subrange(0, base as int) == old(out)@,
            be_bytes(value as nat, width as nat) == be_bytes(rest as nat, (width - done) as nat)
                + out@.subrange(base + width - done, base + width),
        decreases width - done,
    {
        let place = base + (width - 1 - done);
        let byte = (rest % 256) as u8;
        out[place] = byte;
        rest = rest / 256;
        done = done + 1;
    }
}

} // verus!
