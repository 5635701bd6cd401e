use aarch64_emit::{bits_to_u32, emit_br, emit_ret, emit_ret_x30, u8_to_bits};

#[test]
fn br_x9_matches_the_architecture() {
    let register = u8_to_bits::<5>(9).unwrap();
    assert_eq!(bits_to_u32(&emit_br(register)), 0xD61F_0120);
}

#[test]
fn br_of_the_first_and_the_last_register() {
    assert_eq!(bits_to_u32(&emit_br([false; 5])), 0xD61F_0000);
    assert_eq!(bits_to_u32(&emit_br([true; 5])), 0xD61F_03E0);
    assert_eq!(bits_to_u32(&emit_br(u8_to_bits::<5>(16).unwrap())), 0xD61F_0200);
}

#[test]
fn ret_x30_matches_the_architecture() {
    assert_eq!(bits_to_u32(&emit_ret_x30()), 0xD65F_03C0);
}

#[test]
fn ret_x30_is_ret_through_register_30() {
    let register = u8_to_bits::<5>(30).unwrap();
    assert_eq!(emit_ret_x30(), emit_ret(&register));
    assert_eq!(emit_ret_x30(), emit_ret_x30());
}

#[test]
fn ret_of_other_registers() {
    assert_eq!(bits_to_u32(&emit_ret(&[false; 5])), 0xD65F_0000);
    assert_eq!(bits_to_u32(&emit_ret(&u8_to_bits::<5>(9).unwrap())), 0xD65F_0120);
    assert_eq!(bits_to_u32(&emit_ret(&[true; 5])), 0xD65F_03E0);
}

#[test]
fn ret_fields_are_laid_out_bit_for_bit() {
    let register = [true, false, true, true, false];
    let code = emit_ret(&register);
    let expected = [
        false, false, false, false, false, true, false, true, true, false, false, false, false,
        false, false, false, true, true, true, true, true, false, true, false, false, true, true,
        false, true, false, true, true,
    ];
    assert_eq!(code, expected);
}

#[test]
fn br_fields_are_laid_out_bit_for_bit() {
    let register = [true, false, true, true, false];
    let code = emit_br(register);
    let expected = [
        false, false, false, false, false, true, false, true, true, false, false, false, false,
        false, false, false, true, true, true, true, true, false, false, false, false, true, true,
        false, true, false, true, true,
    ];
    assert_eq!(code, expected);
}

#[test]
fn ret_and_br_differ_at_index_22_only() {
    let mut r: u8 = 0;
    while r < 32 {
        let register = u8_to_bits::<5>(r).unwrap();
        let ret = emit_ret(&register);
        let br = emit_br(register);
        let mut i: usize = 0;
        while i < 32 {
            if i == 22 {
                assert!(ret[i]);
                assert!(!br[i]);
            } else {
                assert_eq!(ret[i], br[i]);
            }
            i += 1;
        }
        assert_eq!(ret[5..10], register);
        assert_eq!(br[5..10], register);
        assert_eq!((bits_to_u32(&ret) >> 5) & 0x1F, u32::from(r));
        assert_eq!(bits_to_u32(&ret), 0xD65F_0000 + 32 * u32::from(r));
        assert_eq!(bits_to_u32(&br), 0xD61F_0000 + 32 * u32::from(r));
        r += 1;
    }
}
