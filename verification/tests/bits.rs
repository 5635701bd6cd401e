use aarch64_emit::fields::put_field;
use aarch64_emit::{bits_to_u32, u16_to_bits, u64_to_bits, u8_to_bits, EncodeError};

#[test]
fn u8_to_bits_of_zero_is_all_clear() {
    assert_eq!(u8_to_bits::<5>(0), Ok([false; 5]));
    assert_eq!(u8_to_bits::<8>(0), Ok([false; 8]));
}

#[test]
fn u8_to_bits_of_the_largest_value_is_all_set() {
    assert_eq!(u8_to_bits::<5>(31), Ok([true; 5]));
    assert_eq!(u8_to_bits::<2>(3), Ok([true; 2]));
    assert_eq!(u8_to_bits::<8>(255), Ok([true; 8]));
}

#[test]
fn u8_to_bits_puts_the_least_significant_bit_first() {
    assert_eq!(u8_to_bits::<5>(30), Ok([false, true, true, true, true]));
    assert_eq!(u8_to_bits::<5>(9), Ok([true, false, false, true, false]));
    assert_eq!(u8_to_bits::<5>(1), Ok([true, false, false, false, false]));
    assert_eq!(u8_to_bits::<5>(16), Ok([false, false, false, false, true]));
    assert_eq!(u8_to_bits::<2>(2), Ok([false, true]));
}

#[test]
fn u8_to_bits_rejects_a_value_that_does_not_fit() {
    assert_eq!(u8_to_bits::<5>(32), Err(EncodeError::ValueTooWide));
    assert_eq!(u8_to_bits::<5>(255), Err(EncodeError::ValueTooWide));
    assert_eq!(u8_to_bits::<2>(4), Err(EncodeError::ValueTooWide));
    assert_eq!(u8_to_bits::<0>(1), Err(EncodeError::ValueTooWide));
    assert_eq!(u8_to_bits::<7>(128), Err(EncodeError::ValueTooWide));
}

#[test]
fn u8_to_bits_pads_a_wider_field_with_clear_bits() {
    let bits = u8_to_bits::<12>(255).unwrap();
    let mut i: usize = 0;
    while i < 12 {
        assert_eq!(bits[i], i < 8);
        i += 1;
    }
    assert_eq!(u8_to_bits::<0>(0), Ok([]));
}

#[test]
fn u16_to_bits_puts_the_least_significant_bit_first() {
    assert_eq!(u16_to_bits(0), [false; 16]);
    assert_eq!(u16_to_bits(0xFFFF), [true; 16]);
    let bits = u16_to_bits(0x1234);
    let expected = [
        false, false, true, false, true, true, false, false, false, true, false, false, true,
        false, false, false,
    ];
    assert_eq!(bits, expected);
}

#[test]
fn u64_to_bits_of_the_extremes() {
    assert_eq!(u64_to_bits(0), [false; 64]);
    assert_eq!(u64_to_bits(u64::MAX), [true; 64]);
}

#[test]
fn u64_to_bits_holds_bit_i_at_index_i() {
    let value: u64 = 0x8000_5555_0000_1001;
    let bits = u64_to_bits(value);
    let mut i: usize = 0;
    while i < 64 {
        assert_eq!(bits[i], (value >> i) & 1 == 1);
        i += 1;
    }
    let alternating = u64_to_bits(0xAAAA_AAAA_AAAA_AAAA);
    let mut j: usize = 0;
    while j < 64 {
        assert_eq!(alternating[j], j % 2 == 1);
        j += 1;
    }
}

#[test]
fn bits_to_u32_weighs_index_i_with_two_to_the_i() {
    assert_eq!(bits_to_u32(&[false; 32]), 0);
    assert_eq!(bits_to_u32(&[true; 32]), u32::MAX);
    let mut i: usize = 0;
    while i < 32 {
        let mut word = [false; 32];
        word[i] = true;
        assert_eq!(bits_to_u32(&word), 1u32 << i);
        i += 1;
    }
}

#[test]
fn bits_to_u32_reads_back_what_u64_to_bits_wrote() {
    let value: u32 = 0xD61F_0120;
    let bits = u64_to_bits(u64::from(value));
    let mut word = [false; 32];
    word.copy_from_slice(&bits[0..32]);
    assert_eq!(bits_to_u32(&word), value);
}

#[test]
fn put_field_overwrites_the_field_and_nothing_else() {
    let mut word = [false; 32];
    let next = put_field(&mut word, 5, &[true, false, true]);
    assert_eq!(next, 8);
    assert_eq!(bits_to_u32(&word), 0b101 << 5);
    let mut full = [true; 32];
    let end = put_field(&mut full, 28, &[false; 4]);
    assert_eq!(end, 32);
    assert_eq!(bits_to_u32(&full), 0x0FFF_FFFF);
    let same = put_field(&mut full, 32, &[]);
    assert_eq!(same, 32);
    assert_eq!(bits_to_u32(&full), 0x0FFF_FFFF);
}
