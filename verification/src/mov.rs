//! `MOVZ` and `MOVK`: the moves of a 16-bit immediate into one lane of a
//! register, the first clearing the other lanes and the second keeping them.
//!
//! Both share one layout, lowest index first: the destination register, the
//! immediate, the lane selector `hw`, the six-bit class `100101`, a two-bit
//! operation code and the width flag `sf`. Only the operation code tells
//! them apart: `10` for `MOVZ` and `11` for `MOVK`, so that index 30 is set
//! in both and index 29 in `MOVK` alone.

use crate::bits::{
    bit_at, bits_of, lemma_bit_at_shift, lemma_value_of_bits, lemma_value_of_bits_fits,
    lemma_value_of_concat, u64_to_bits, value_of,
};
use crate::error::EncodeError;
use crate::fields::put_field;
use vstd::arithmetic::power2::{lemma2_to64, lemma2_to64_rest, pow2};
use vstd::prelude::*;

verus! {

/// The class of the moves of a wide immediate, at indices 23 to 28.
pub open spec fn move_class() -> Seq<bool> {
    seq![true, false, true, false, false, true]
}

/// The operation code of `MOVZ`, at indices 29 and 30.
pub open spec fn movz_opc() -> Seq<bool> {
    seq![false, true]
}

/// The operation code of `MOVK`, at indices 29 and 30.
pub open spec fn movk_opc() -> Seq<bool> {
    seq![true, true]
}

/// A move with operation code `opc` of the 16 bits `value` into lane `hw`
/// of `register`, at the width that `sf` selects.
pub open spec fn move_word(
    opc: Seq<bool>,
    value: Seq<bool>,
    sf: bool,
    hw: Seq<bool>,
    register: Seq<bool>,
) -> Seq<bool> {
    register + value + hw + move_class() + opc + seq![sf]
}

/// The word of `MOVZ`.
pub open spec fn movz_word(value: Seq<bool>, sf: bool, hw: Seq<bool>, register: Seq<bool>) -> Seq<
    bool,
> {
    move_word(movz_opc(), value, sf, hw, register)
}

/// The word of `MOVK`.
pub open spec fn movk_word(value: Seq<bool>, sf: bool, hw: Seq<bool>, register: Seq<bool>) -> Seq<
    bool,
> {
    move_word(movk_opc(), value, sf, hw, register)
}

/// The immediate field of a move: indices 5 to 20 of its word.
pub open spec fn immediate_field(word: Seq<bool>) -> Seq<bool> {
    word.subrange(5, 21)
}

/// The 16 bits of `address` from bit `start` on, lowest first.
pub open spec fn chunk_of(address: u64, start: nat) -> Seq<bool> {
    bits_of(address as nat, 64).subrange(start as int, start as int + 16)
}

/// Lays out a move of a wide immediate, field by field.
fn emit_move(
    opc: &[bool; 2],
    value_bits: &[bool; 16],
    sf: bool,
    hw: &[bool; 2],
    register_name: &[bool; 5],
) -> (code: [bool; 32])
    ensures
        code@ == move_word(opc@, value_bits@, sf, hw@, register_name@),
{
    let mut code = [false; 32];
    let mut cur: usize = 0;
    cur = put_field(&mut code, cur, register_name);
    cur = put_field(&mut code, cur, value_bits);
    cur = put_field(&mut code, cur, hw);
    cur = put_field(&mut code, cur, &[true, false, true, false, false, true]);
    cur = put_field(&mut code, cur, opc);
    cur = put_field(&mut code, cur, &[sf]);
    assert(cur == 32);
    assert(code@ =~= move_word(opc@, value_bits@, sf, hw@, register_name@));
    code
}

/// Encodes `MOVZ`: the register becomes `value_bits` in lane `hw` and zero
/// elsewhere.
pub fn emit_movz(value_bits: [bool; 16], sf: bool, hw: [bool; 2], register_name: [bool; 5]) -> (code:
    [bool; 32])
    ensures
        code@ == movz_word(value_bits@, sf, hw@, register_name@),
        value_of(code@) == 0x5280_0000 + sf_value(sf) + 0x20_0000 * value_of(hw@) + 0x20 * value_of(
            value_bits@,
        ) + value_of(register_name@),
{
    let code = emit_move(&[false, true], &value_bits, sf, &hw, &register_name);
    proof {
        assert(code@ =~= movz_word(value_bits@, sf, hw@, register_name@));
        lemma_move_opc_values();
        lemma_move_value(movz_opc(), value_bits@, sf, hw@, register_name@);
    }
    code
}

/// Encodes `MOVK`: lane `hw` of the register becomes `value_bits`, the
/// other lanes stay.
pub fn emit_movk(value_bits: [bool; 16], sf: bool, hw: [bool; 2], register_name: [bool; 5]) -> (code:
    [bool; 32])
    ensures
        code@ == movk_word(value_bits@, sf, hw@, register_name@),
        value_of(code@) == 0x7280_0000 + sf_value(sf) + 0x20_0000 * value_of(hw@) + 0x20 * value_of(
            value_bits@,
        ) + value_of(register_name@),
{
    let code = emit_move(&[true, true], &value_bits, sf, &hw, &register_name);
    proof {
        assert(code@ =~= movk_word(value_bits@, sf, hw@, register_name@));
        lemma_move_opc_values();
        lemma_move_value(movk_opc(), value_bits@, sf, hw@, register_name@);
    }
    code
}

/// Cuts the 16 bits from bit `start` on out of `address`. The window has to
/// end at bit 63 or below: `start` may be at most 48.
pub fn extract_chunk(address: u64, start: usize) -> (chunk: Result<[bool; 16], EncodeError>)
    ensures
        start + 16 <= 64 ==> (chunk matches Ok(c) && c@ == chunk_of(address, start as nat)
            && value_of(c@) == (address as nat / pow2(start as nat)) % 0x1_0000),
        start + 16 > 64 ==> (chunk matches Err(e) && e == EncodeError::OffsetOutOfRange),
{
    if start > 48 {
        return Err(EncodeError::OffsetOutOfRange);
    }
    let address_bits = u64_to_bits(address);
    let mut value_bits = [false; 16];
    let mut i: usize = 0;
    while i < 16
        invariant
            i <= 16,
            start <= 48,
            address_bits@.len() == 64,
            value_bits@.len() == 16,
            forall|j: int| 0 <= j < i ==> value_bits@[j] == address_bits@[start + j],
        decreases 16 - i,
    {
        value_bits[i] = address_bits[start + i];
        i += 1;
    }
    proof {
        assert(value_bits@ =~= chunk_of(address, start as nat));
        lemma_chunk_value(address, start as nat);
    }
    Ok(value_bits)
}

/// Encodes `MOVZ` of the 16 bits of `address` from bit `start` on.
pub fn emit_movz_from_address(
    address: u64,
    start: usize,
    sf: bool,
    hw: [bool; 2],
    register_name: [bool; 5],
) -> (code: Result<[bool; 32], EncodeError>)
    ensures
        start + 16 <= 64 ==> (code matches Ok(c) && c@ == movz_word(
            chunk_of(address, start as nat),
            sf,
            hw@,
            register_name@,
        ) && value_of(immediate_field(c@)) == (address as nat / pow2(start as nat)) % 0x1_0000),
        start + 16 > 64 ==> (code matches Err(e) && e == EncodeError::OffsetOutOfRange),
{
    match extract_chunk(address, start) {
        Ok(value_bits) => {
            proof {
                law_immediate_field(movz_opc(), value_bits@, sf, hw@, register_name@);
            }
            Ok(emit_movz(value_bits, sf, hw, register_name))
        },
        Err(e) => Err(e),
    }
}

/// Encodes `MOVK` of the 16 bits of `address` from bit `start` on.
pub fn emit_movk_from_address(
    address: u64,
    start: usize,
    sf: bool,
    hw: [bool; 2],
    register_name: [bool; 5],
) -> (code: Result<[bool; 32], EncodeError>)
    ensures
        start + 16 <= 64 ==> (code matches Ok(c) && c@ == movk_word(
            chunk_of(address, start as nat),
            sf,
            hw@,
            register_name@,
        ) && value_of(immediate_field(c@)) == (address as nat / pow2(start as nat)) % 0x1_0000),
        start + 16 > 64 ==> (code matches Err(e) && e == EncodeError::OffsetOutOfRange),
{
    match extract_chunk(address, start) {
        Ok(value_bits) => {
            proof {
                law_immediate_field(movk_opc(), value_bits@, sf, hw@, register_name@);
            }
            Ok(emit_movk(value_bits, sf, hw, register_name))
        },
        Err(e) => Err(e),
    }
}

/// The weight of the width flag in a word's value.
pub open spec fn sf_value(sf: bool) -> nat {
    if sf {
        0x8000_0000
    } else {
        0
    }
}

/// The number that a move's word spells, field by field.
pub proof fn lemma_move_value(
    opc: Seq<bool>,
    value: Seq<bool>,
    sf: bool,
    hw: Seq<bool>,
    register: Seq<bool>,
)
    requires
        opc.len() == 2,
        value.len() == 16,
        hw.len() == 2,
        register.len() == 5,
    ensures
        value_of(move_word(opc, value, sf, hw, register)) == sf_value(sf) + 0x2000_0000 * value_of(
            opc,
        ) + 0x1280_0000 + 0x20_0000 * value_of(hw) + 0x20 * value_of(value) + value_of(register),
{
    lemma2_to64();
    let b = register + value;
    let c = b + hw;
    let d = c + move_class();
    let e = d + opc;
    assert(bit_at(0x25, 0) && !bit_at(0x25, 1) && bit_at(0x25, 2) && !bit_at(0x25, 3) && !bit_at(
        0x25,
        4,
    ) && bit_at(0x25, 5));
    assert(move_class() =~= bits_of(0x25, 6));
    lemma_value_of_bits_fits(0x25, 6);
    assert(seq![sf].drop_first() =~= Seq::<bool>::empty());
    assert(value_of(seq![sf]) == if sf { 1nat } else { 0nat }) by {
        assert(value_of(seq![sf].drop_first()) == 0);
    }
    lemma_value_of_concat(register, value);
    lemma_value_of_concat(b, hw);
    lemma_value_of_concat(c, move_class());
    lemma_value_of_concat(d, opc);
    lemma_value_of_concat(e, seq![sf]);
}

/// The operation codes as numbers: 2 for `MOVZ` and 3 for `MOVK`.
pub proof fn lemma_move_opc_values()
    ensures
        value_of(movz_opc()) == 2,
        value_of(movk_opc()) == 3,
{
    lemma2_to64();
    assert(!bit_at(2, 0) && bit_at(2, 1));
    assert(movz_opc() =~= bits_of(2, 2));
    lemma_value_of_bits_fits(2, 2);
    assert(bit_at(3, 0) && bit_at(3, 1));
    assert(movk_opc() =~= bits_of(3, 2));
    lemma_value_of_bits_fits(3, 2);
}

/// `MOVZ` of `v` into lane `hw` of register `r` is the word
/// `0x52800000 + 2^31 * sf + 2^21 * hw + 32 * v + r`.
pub proof fn law_movz_value(v: u16, sf: bool, hw: u8, r: u8)
    requires
        hw < 4,
        r < 32,
    ensures
        value_of(movz_word(bits_of(v as nat, 16), sf, bits_of(hw as nat, 2), bits_of(r as nat, 5)))
            == 0x5280_0000 + sf_value(sf) + 0x20_0000 * hw + 0x20 * v + r,
{
    lemma2_to64();
    lemma_move_opc_values();
    lemma_value_of_bits_fits(v as nat, 16);
    lemma_value_of_bits_fits(hw as nat, 2);
    lemma_value_of_bits_fits(r as nat, 5);
    lemma_move_value(
        movz_opc(),
        bits_of(v as nat, 16),
        sf,
        bits_of(hw as nat, 2),
        bits_of(r as nat, 5),
    );
}

/// `MOVK` of `v` into lane `hw` of register `r` is the word
/// `0x72800000 + 2^31 * sf + 2^21 * hw + 32 * v + r`.
pub proof fn law_movk_value(v: u16, sf: bool, hw: u8, r: u8)
    requires
        hw < 4,
        r < 32,
    ensures
        value_of(movk_word(bits_of(v as nat, 16), sf, bits_of(hw as nat, 2), bits_of(r as nat, 5)))
            == 0x7280_0000 + sf_value(sf) + 0x20_0000 * hw + 0x20 * v + r,
{
    lemma2_to64();
    lemma_move_opc_values();
    lemma_value_of_bits_fits(v as nat, 16);
    lemma_value_of_bits_fits(hw as nat, 2);
    lemma_value_of_bits_fits(r as nat, 5);
    lemma_move_value(
        movk_opc(),
        bits_of(v as nat, 16),
        sf,
        bits_of(hw as nat, 2),
        bits_of(r as nat, 5),
    );
}

/// `MOVZ` and `MOVK` of the same operands agree at every index but 29 and
/// 30, where `MOVZ` holds clear, set and `MOVK` holds set, set.
pub proof fn law_movz_and_movk_differ_in_opc(v: u16, sf: bool, hw: u8, r: u8)
    requires
        hw < 4,
        r < 32,
    ensures
        ({
            let z = movz_word(
                bits_of(v as nat, 16),
                sf,
                bits_of(hw as nat, 2),
                bits_of(r as nat, 5),
            );
            let k = movk_word(
                bits_of(v as nat, 16),
                sf,
                bits_of(hw as nat, 2),
                bits_of(r as nat, 5),
            );
            &&& z.len() == 32 && k.len() == 32
            &&& forall|i: int| 0 <= i < 32 && !(29 <= i < 31) ==> z[i] == k[i]
            &&& z.subrange(29, 31) == seq![false, true]
            &&& k.subrange(29, 31) == seq![true, true]
        }),
{
    let z = movz_word(bits_of(v as nat, 16), sf, bits_of(hw as nat, 2), bits_of(r as nat, 5));
    let k = movk_word(bits_of(v as nat, 16), sf, bits_of(hw as nat, 2), bits_of(r as nat, 5));
    assert(z.subrange(29, 31) =~= seq![false, true]);
    assert(k.subrange(29, 31) =~= seq![true, true]);
}

/// The immediate field of a move holds the immediate that was encoded.
pub proof fn law_immediate_field(
    opc: Seq<bool>,
    value: Seq<bool>,
    sf: bool,
    hw: Seq<bool>,
    register: Seq<bool>,
)
    requires
        value.len() == 16,
        register.len() == 5,
    ensures
        immediate_field(move_word(opc, value, sf, hw, register)) == value,
{
    assert(immediate_field(move_word(opc, value, sf, hw, register)) =~= value);
}

/// The 16 bits of an address from bit `start` on spell the address divided
/// by `2^start`, modulo `2^16`.
pub proof fn lemma_chunk_value(address: u64, start: nat)
    requires
        start + 16 <= 64,
    ensures
        value_of(chunk_of(address, start)) == (address as nat / pow2(start)) % 0x1_0000,
{
    lemma2_to64();
    let shifted: nat = address as nat / pow2(start);
    assert forall|j: int| 0 <= j < 16 implies #[trigger] chunk_of(address, start)[j] == bits_of(
        shifted,
        16,
    )[j] by {
        lemma_bit_at_shift(address as nat, start, j as nat);
    }
    assert(chunk_of(address, start) =~= bits_of(shifted, 16));
    lemma_value_of_bits(shifted, 16);
}

/// The four lanes of an address, taken out of the immediate fields of the
/// `MOVZ` and the three `MOVK` that load it, put the address together
/// again: `c0 | c1 << 16 | c2 << 32 | c3 << 48`.
pub proof fn law_address_chunks_reassemble(
    address: u64,
    sf: bool,
    hw: Seq<bool>,
    register: Seq<bool>,
)
    requires
        hw.len() == 2,
        register.len() == 5,
    ensures
        ({
            let c0 = value_of(
                immediate_field(movz_word(chunk_of(address, 0), sf, hw, register)),
            );
            let c1 = value_of(
                immediate_field(movk_word(chunk_of(address, 16), sf, hw, register)),
            );
            let c2 = value_of(
                immediate_field(movk_word(chunk_of(address, 32), sf, hw, register)),
            );
            let c3 = value_of(
                immediate_field(movk_word(chunk_of(address, 48), sf, hw, register)),
            );
            &&& c0 < 0x1_0000 && c1 < 0x1_0000 && c2 < 0x1_0000 && c3 < 0x1_0000
            &&& c0 + 0x1_0000 * c1 + 0x1_0000_0000 * c2 + 0x1_0000_0000_0000 * c3 == address
            &&& (c0 as u64) | (c1 as u64) << 16 | (c2 as u64) << 32 | (c3 as u64) << 48
                == address
        }),
{
    lemma2_to64();
    lemma2_to64_rest();
    law_immediate_field(movz_opc(), chunk_of(address, 0), sf, hw, register);
    law_immediate_field(movk_opc(), chunk_of(address, 16), sf, hw, register);
    law_immediate_field(movk_opc(), chunk_of(address, 32), sf, hw, register);
    law_immediate_field(movk_opc(), chunk_of(address, 48), sf, hw, register);
    lemma_chunk_value(address, 0);
    lemma_chunk_value(address, 16);
    lemma_chunk_value(address, 32);
    lemma_chunk_value(address, 48);
    let c0: u64 = value_of(chunk_of(address, 0)) as u64;
    let c1: u64 = value_of(chunk_of(address, 16)) as u64;
    let c2: u64 = value_of(chunk_of(address, 32)) as u64;
    let c3: u64 = value_of(chunk_of(address, 48)) as u64;
    assert(c0 == address % 0x1_0000);
    assert(c1 == (address / 0x1_0000) % 0x1_0000);
    assert(c2 == (address / 0x1_0000_0000) % 0x1_0000);
    assert(c3 == (address / 0x1_0000_0000_0000) % 0x1_0000);
    assert(c0 | c1 << 16 | c2 << 32 | c3 << 48 == address && c0 + 0x1_0000 * c1 + 0x1_0000_0000
        * c2 + 0x1_0000_0000_0000 * c3 == address) by (bit_vector)
        requires
            c0 == address % 0x1_0000,
            c1 == (address / 0x1_0000) % 0x1_0000,
            c2 == (address / 0x1_0000_0000) % 0x1_0000,
            c3 == (address / 0x1_0000_0000_0000) % 0x1_0000,
    ;
}

} // verus!
