//! `RET` and `BR`: the unconditional branches to the address in a register.
//!
//! Both share one layout, lowest index first: five clear bits, the register
//! number, six clear bits, five set bits, a four-bit operation code and the
//! seven-bit class `1101011`. Only the operation code tells them apart.

use crate::bits::{
    bit_at, bits_of, lemma_value_of_bits_fits, lemma_value_of_concat, u8_to_bits, value_of,
};
use crate::fields::{lemma_value_of_five_ones, lemma_value_of_zeros, ones, put_field, zeros};
use vstd::arithmetic::power2::lemma2_to64;
use vstd::prelude::*;

verus! {

/// The class of the branches through a register, at indices 25 to 31.
pub open spec fn branch_class() -> Seq<bool> {
    seq![true, true, false, true, false, true, true]
}

/// The operation code of `RET`, at indices 21 to 24: only index 22 is set.
pub open spec fn ret_opc() -> Seq<bool> {
    seq![false, true, false, false]
}

/// The operation code of `BR`, at indices 21 to 24: all clear.
pub open spec fn br_opc() -> Seq<bool> {
    zeros(4)
}

/// A branch with operation code `opc` through the register whose number
/// has the five bits `register`.
pub open spec fn branch_word(opc: Seq<bool>, register: Seq<bool>) -> Seq<bool> {
    zeros(5) + register + zeros(6) + ones(5) + opc + branch_class()
}

/// The word of `RET` through `register`.
pub open spec fn ret_word(register: Seq<bool>) -> Seq<bool> {
    branch_word(ret_opc(), register)
}

/// The word of `BR` through `register`.
pub open spec fn br_word(register: Seq<bool>) -> Seq<bool> {
    branch_word(br_opc(), register)
}

/// Lays out a branch through a register, field by field.
fn emit_branch(opc: &[bool; 4], register_name: &[bool; 5]) -> (code: [bool; 32])
    ensures
        code@ == branch_word(opc@, register_name@),
{
    let mut code = [false; 32];
    let mut cur: usize = 0;
    cur = put_field(&mut code, cur, &[false; 5]);
    cur = put_field(&mut code, cur, register_name);
    cur = put_field(&mut code, cur, &[false; 6]);
    cur = put_field(&mut code, cur, &[true; 5]);
    cur = put_field(&mut code, cur, opc);
    cur = put_field(&mut code, cur, &[true, true, false, true, false, true, true]);
    assert(cur == 32);
    assert(code@ =~= branch_word(opc@, register_name@));
    code
}

/// Encodes `RET` through the link register, X30.
pub fn emit_ret_x30() -> (code: [bool; 32])
    ensures
        code@ == ret_word(bits_of(30, 5)),
        value_of(code@) == 0xD65F_03C0,
{
    proof {
        lemma2_to64();
        law_ret_value(30);
    }
    emit_ret(&u8_to_bits::<5>(30).unwrap())
}

/// Encodes `RET` through the register whose number has the bits
/// `register_name`, least significant first.
pub fn emit_ret(register_name: &[bool; 5]) -> (code: [bool; 32])
    ensures
        code@ == ret_word(register_name@),
        value_of(code@) == 0xD65F_0000 + 0x20 * value_of(register_name@),
{
    let code = emit_branch(&[false, true, false, false], register_name);
    proof {
        assert(code@ =~= ret_word(register_name@));
        lemma_opc_values();
        lemma_branch_value(ret_opc(), register_name@);
    }
    code
}

/// Encodes `BR` through the register whose number has the bits
/// `register_name`, least significant first.
pub fn emit_br(register_name: [bool; 5]) -> (code: [bool; 32])
    ensures
        code@ == br_word(register_name@),
        value_of(code@) == 0xD61F_0000 + 0x20 * value_of(register_name@),
{
    let code = emit_branch(&[false; 4], &register_name);
    proof {
        assert(code@ =~= br_word(register_name@));
        lemma_opc_values();
        lemma_branch_value(br_opc(), register_name@);
    }
    code
}

/// The number that a branch word spells, field by field.
pub proof fn lemma_branch_value(opc: Seq<bool>, register: Seq<bool>)
    requires
        opc.len() == 4,
        register.len() == 5,
    ensures
        value_of(branch_word(opc, register)) == 0xD61F_0000 + 0x20_0000 * value_of(opc) + 0x20
            * value_of(register),
{
    lemma2_to64();
    let a = zeros(5);
    let b = a + register;
    let c = b + zeros(6);
    let d = c + ones(5);
    let e = d + opc;
    lemma_value_of_zeros(5);
    lemma_value_of_zeros(6);
    lemma_value_of_five_ones();
    assert(bit_at(0x6B, 0) && bit_at(0x6B, 1) && !bit_at(0x6B, 2) && bit_at(0x6B, 3) && !bit_at(
        0x6B,
        4,
    ) && bit_at(0x6B, 5) && bit_at(0x6B, 6));
    assert(branch_class() =~= bits_of(0x6B, 7));
    lemma_value_of_bits_fits(0x6B, 7);
    lemma_value_of_concat(a, register);
    lemma_value_of_concat(b, zeros(6));
    lemma_value_of_concat(c, ones(5));
    lemma_value_of_concat(d, opc);
    lemma_value_of_concat(e, branch_class());
}

/// The operation codes as numbers: 2 for `RET` and 0 for `BR`.
pub proof fn lemma_opc_values()
    ensures
        value_of(ret_opc()) == 2,
        value_of(br_opc()) == 0,
{
    lemma2_to64();
    assert(!bit_at(2, 0) && bit_at(2, 1) && !bit_at(2, 2) && !bit_at(2, 3));
    assert(ret_opc() =~= bits_of(2, 4));
    lemma_value_of_bits_fits(2, 4);
    lemma_value_of_zeros(4);
}

/// `RET` through register `r` is the word `0xD65F0000 + 32 * r`.
pub proof fn law_ret_value(r: u8)
    requires
        r < 32,
    ensures
        value_of(ret_word(bits_of(r as nat, 5))) == 0xD65F_0000 + 0x20 * r,
{
    lemma2_to64();
    lemma_opc_values();
    lemma_value_of_bits_fits(r as nat, 5);
    lemma_branch_value(ret_opc(), bits_of(r as nat, 5));
}

/// `BR` through register `r` is the word `0xD61F0000 + 32 * r`.
pub proof fn law_br_value(r: u8)
    requires
        r < 32,
    ensures
        value_of(br_word(bits_of(r as nat, 5))) == 0xD61F_0000 + 0x20 * r,
{
    lemma2_to64();
    lemma_opc_values();
    lemma_value_of_bits_fits(r as nat, 5);
    lemma_branch_value(br_opc(), bits_of(r as nat, 5));
}

/// `RET` and `BR` through the same register agree at every index but 22,
/// which `RET` sets and `BR` clears, and both hold the register's five bits
/// at indices 5 to 9, where they spell its number.
pub proof fn law_ret_and_br_differ_at_one_index(r: u8)
    requires
        r < 32,
    ensures
        forall|i: int|
            0 <= i < 32 && i != 22 ==> ret_word(bits_of(r as nat, 5))[i] == br_word(
                bits_of(r as nat, 5),
            )[i],
        ret_word(bits_of(r as nat, 5))[22],
        !br_word(bits_of(r as nat, 5))[22],
        ret_word(bits_of(r as nat, 5)).subrange(5, 10) == bits_of(r as nat, 5),
        br_word(bits_of(r as nat, 5)).subrange(5, 10) == bits_of(r as nat, 5),
        value_of(bits_of(r as nat, 5)) == r,
{
    lemma2_to64();
    let register = bits_of(r as nat, 5);
    lemma_value_of_bits_fits(r as nat, 5);
    assert(ret_word(register).subrange(5, 10) =~= register);
    assert(br_word(register).subrange(5, 10) =~= register);
}

} // verus!
