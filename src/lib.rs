//! Bit-level packing of fixed-width fields into a byte buffer, with no padding
//! and most-significant-bit-first order.

pub mod bitfield;
pub mod bits;
pub mod codec;
pub mod error;
pub mod layout;
pub mod specifier;
pub mod width;

pub use bitfield::{binary_string, Bitfield};
pub use codec::{read_bits, write_bits};
pub use error::BitfieldError;
pub use layout::{plan, FieldDecl, FieldSpec, Layout};
pub use specifier::{enum_specifier, specify_bits, Bits, BoolSpec, EnumSpec, Specifier};
pub use width::{best_fit, NativeWidth};
