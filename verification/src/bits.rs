//! Unsigned integers as ordered bit sequences, least significant bit first.

use crate::error::EncodeError;
use vstd::arithmetic::div_mod::{
    lemma_basic_div, lemma_div_denominator, lemma_div_non_zero, lemma_mod_breakdown,
    lemma_small_mod,
};
use vstd::arithmetic::power2::{
    lemma2_to64, lemma_pow2_adds, lemma_pow2_pos, lemma_pow2_strictly_increases, lemma_pow2_unfold,
    pow2,
};
use vstd::prelude::*;

verus! {

/// Bit `index` of `value`, counted from the least significant bit.
pub open spec fn bit_at(value: nat, index: nat) -> bool {
    (value / pow2(index)) % 2 == 1
}

/// The lowest `width` bits of `value`: index `i` holds bit `i`.
pub open spec fn bits_of(value: nat, width: nat) -> Seq<bool> {
    Seq::new(width, |i: int| bit_at(value, i as nat))
}

/// The number that a bit sequence spells when index `i` weighs `2^i`.
pub open spec fn value_of(bits: Seq<bool>) -> nat
    decreases bits.len(),
{
    if bits.len() == 0 {
        0
    } else {
        (if bits[0] { 1nat } else { 0nat }) + 2 * value_of(bits.drop_first())
    }
}

/// Bit `low + index` of a value is bit `index` of the value shifted right by `low`.
pub proof fn lemma_bit_at_shift(value: nat, low: nat, index: nat)
    ensures
        bit_at(value, low + index) == bit_at(value / pow2(low), index),
{
    lemma_pow2_pos(low);
    lemma_pow2_pos(index);
    lemma_pow2_adds(low, index);
    lemma_div_denominator(value as int, pow2(low) as int, pow2(index) as int);
}

/// The bits of a value above its lowest one are the bits of its half.
proof fn lemma_bits_of_tail(value: nat, width: nat)
    requires
        width > 0,
    ensures
        bits_of(value, width).drop_first() =~= bits_of(value / 2, (width - 1) as nat),
        bits_of(value, width)[0] == (value % 2 == 1),
{
    lemma2_to64();
    let tail = bits_of(value, width).drop_first();
    let half = bits_of(value / 2, (width - 1) as nat);
    assert forall|i: int| 0 <= i < width - 1 implies #[trigger] tail[i] == half[i] by {
        lemma_bit_at_shift(value, 1, i as nat);
    }
}

/// Reading the lowest `width` bits back gives the value modulo `2^width`.
pub proof fn lemma_value_of_bits(value: nat, width: nat)
    ensures
        value_of(bits_of(value, width)) == value % pow2(width),
    decreases width,
{
    lemma2_to64();
    if width > 0 {
        let rest: nat = (width - 1) as nat;
        lemma_bits_of_tail(value, width);
        lemma_value_of_bits(value / 2, rest);
        lemma_pow2_unfold(width);
        lemma_pow2_pos(rest);
        lemma_mod_breakdown(value as int, 2, pow2(rest) as int);
    }
}

/// A value that fits in `width` bits is recovered exactly from them.
pub proof fn lemma_value_of_bits_fits(value: nat, width: nat)
    requires
        value < pow2(width),
    ensures
        value_of(bits_of(value, width)) == value,
{
    lemma_value_of_bits(value, width);
    lemma_small_mod(value, pow2(width));
}

/// The value of two sequences laid end to end: the second one weighs
/// `2^n`, where `n` is the length of the first.
pub proof fn lemma_value_of_concat(low: Seq<bool>, high: Seq<bool>)
    ensures
        value_of(low + high) == value_of(low) + pow2(low.len()) * value_of(high),
    decreases low.len(),
{
    lemma2_to64();
    if low.len() == 0 {
        assert(low + high =~= high);
    } else {
        let tail = low.drop_first();
        assert((low + high).drop_first() =~= tail + high);
        lemma_value_of_concat(tail, high);
        lemma_pow2_unfold(low.len());
        let w: nat = pow2(tail.len());
        let h: nat = value_of(high);
        assert(2 * (w * h) == (2 * w) * h) by (nonlinear_arith);
    }
}

/// Splits `value` into its lowest `N` bits and what is left above them.
fn split_bits<const N: usize>(value: u64) -> (out: ([bool; N], u64))
    ensures
        out.0@ == bits_of(value as nat, N as nat),
        out.1 as nat == value as nat / pow2(N as nat),
{
    let mut bits = [false; N];
    let mut rest: u64 = value;
    let mut i: usize = 0;
    proof {
        lemma2_to64();
    }
    while i < N
        invariant
            i <= N,
            bits@.len() == N,
            rest as nat == value as nat / pow2(i as nat),
            forall|j: int| 0 <= j < i ==> bits@[j] == bit_at(value as nat, j as nat),
        decreases N - i,
    {
        proof {
            lemma_pow2_pos(i as nat);
            lemma_pow2_unfold((i + 1) as nat);
            lemma_div_denominator(value as int, pow2(i as nat) as int, 2);
        }
        bits[i] = rest % 2 == 1;
        rest = rest / 2;
        i += 1;
    }
    assert(bits@ =~= bits_of(value as nat, N as nat));
    (bits, rest)
}

/// The `N` lowest bits of `value`, least significant first, provided that
/// `value` has no set bit above them.
pub fn u8_to_bits<const N: usize>(value: u8) -> (bits: Result<[bool; N], EncodeError>)
    ensures
        (value as nat) < pow2(N as nat) ==> (bits matches Ok(b) && b@ == bits_of(
            value as nat,
            N as nat,
        )),
        (value as nat) >= pow2(N as nat) ==> (bits matches Err(e) && e
            == EncodeError::ValueTooWide),
{
    let (low, rest) = split_bits::<N>(value as u64);
    proof {
        lemma_pow2_pos(N as nat);
        if (value as nat) < pow2(N as nat) {
            lemma_basic_div(value as int, pow2(N as nat) as int);
        } else {
            lemma_div_non_zero(value as int, pow2(N as nat) as int);
        }
    }
    if rest == 0 {
        Ok(low)
    } else {
        Err(EncodeError::ValueTooWide)
    }
}

/// The 16 bits of `value`, least significant first.
pub fn u16_to_bits(value: u16) -> (bits: [bool; 16])
    ensures
        bits@ == bits_of(value as nat, 16),
{
    split_bits::<16>(value as u64).0
}

/// The 64 bits of `value`, least significant first.
pub fn u64_to_bits(value: u64) -> (bits: [bool; 64])
    ensures
        bits@ == bits_of(value as nat, 64),
{
    split_bits::<64>(value).0
}

/// Packs an instruction word into the integer whose bit `i` is `word[i]`.
pub fn bits_to_u32(word: &[bool; 32]) -> (value: u32)
    ensures
        value as nat == value_of(word@),
{
    let mut value: u32 = 0;
    let mut i: usize = 32;
    proof {
        lemma2_to64();
        assert(word@.subrange(32, 32) =~= Seq::<bool>::empty());
    }
    while i > 0
        invariant
            i <= 32,
            value as nat == value_of(word@.subrange(i as int, 32)),
            (value as nat) < pow2((32 - i) as nat),
        decreases i,
    {
        proof {
            let upper = word@.subrange(i as int, 32);
            let grown = word@.subrange(i - 1, 32);
            assert(grown.drop_first() =~= upper);
            lemma2_to64();
            if 32 - i < 31 {
                lemma_pow2_strictly_increases((32 - i) as nat, 31);
            }
            lemma_pow2_unfold((32 - i + 1) as nat);
        }
        i -= 1;
        value = 2 * value + if word[i] { 1 } else { 0 };
    }
    assert(word@.subrange(0, 32) =~= word@);
    value
}

} // verus!
