//! Fields of an instruction word: the constant ones, and the routine that
//! lays a field into a word.

use crate::bits::{bit_at, bits_of, lemma_value_of_bits_fits, value_of};
use vstd::arithmetic::power2::lemma2_to64;
use vstd::prelude::*;

verus! {

/// A field of `width` clear bits.
pub open spec fn zeros(width: nat) -> Seq<bool> {
    Seq::new(width, |i: int| false)
}

/// A field of `width` set bits.
pub open spec fn ones(width: nat) -> Seq<bool> {
    Seq::new(width, |i: int| true)
}

/// `word` with `field` written over the positions from `at` on.
pub open spec fn overlay(word: Seq<bool>, at: int, field: Seq<bool>) -> Seq<bool> {
    word.subrange(0, at) + field + word.subrange(at + field.len(), word.len() as int)
}

/// Writes `field` into `word` at index `at`, lowest index first, and
/// returns the index that follows the field.
pub fn put_field<const W: usize>(word: &mut [bool; 32], at: usize, field: &[bool; W]) -> (next:
    usize)
    requires
        at + W <= 32,
    ensures
        next == at + W,
        final(word)@ == overlay(old(word)@, at as int, field@),
{
    let mut i: usize = 0;
    while i < W
        invariant
            i <= W,
            at + W <= 32,
            word@.len() == 32,
            forall|j: int| 0 <= j < 32 ==> word@[j] == (if at <= j < at + i {
                field@[j - at]
            } else {
                old(word)@[j]
            }),
        decreases W - i,
    {
        word[at + i] = field[i];
        i += 1;
    }
    assert(word@ =~= overlay(old(word)@, at as int, field@));
    at + W
}

/// A field of clear bits spells zero.
pub proof fn lemma_value_of_zeros(width: nat)
    ensures
        value_of(zeros(width)) == 0,
    decreases width,
{
    if width > 0 {
        assert(zeros(width).drop_first() =~= zeros((width - 1) as nat));
        lemma_value_of_zeros((width - 1) as nat);
    }
}

/// A field of five set bits spells 31.
pub proof fn lemma_value_of_five_ones()
    ensures
        value_of(ones(5)) == 31,
{
    lemma2_to64();
    assert(bit_at(31, 0) && bit_at(31, 1) && bit_at(31, 2) && bit_at(31, 3) && bit_at(31, 4));
    assert(ones(5) =~= bits_of(31, 5));
    lemma_value_of_bits_fits(31, 5);
}

} // verus!
