//! Bit-exact encoders for the AArch64 instructions that make up an absolute
//! jump: `MOVZ`, `MOVK`, `BR` and `RET`.
//!
//! An instruction word is an array of 32 booleans in which index `i` holds
//! bit `i` of the word, the least significant bit at index 0. Every encoder
//! is specified by the sequence of fields that the architecture prescribes,
//! and the numeric value of each word is proved against the encoding tables.

pub mod bits;
pub mod branch;
pub mod error;
pub mod fields;
pub mod mov;

pub use bits::{bits_to_u32, u16_to_bits, u64_to_bits, u8_to_bits};
pub use branch::{emit_br, emit_ret, emit_ret_x30};
pub use error::EncodeError;
pub use mov::{
    emit_movk, emit_movk_from_address, emit_movz, emit_movz_from_address, extract_chunk,
};
