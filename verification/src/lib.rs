//! Human-readable sizes: byte counts written as text such as `2.50 MiB`, and
//! such text read back, over the binary and the decimal families of units.
//!
//! A [`Size`] is a magnitude in one of thirteen units. Its magnitude may be
//! any integer of the machine, a [`Double`] or a [`Number`] read from text;
//! [`Size::bytes`] gives what it comes to in bytes. [`render`] writes a byte
//! count by the tiers of a [`Base`] and in a [`Style`]; [`parse`] reads a
//! size from text. Sizes can be compared, added, multiplied and divided.
//!
//! Floating-point numbers stand here as the integers that doubles are made
//! of, and every operation on them is stated and proved over those integers.
//! The module `laws` states what holds of sizes in general.

pub mod binary;
pub mod decimal;
pub mod double;
pub mod laws;
pub mod magnitude;
pub mod ops;
pub mod parse;
pub mod render;
pub mod rounding;
pub mod roundtrip;
pub mod rule;
pub mod size;
pub mod unit;

pub use double::Double;
pub use magnitude::Magnitude;
pub use parse::{parse, Error, Lexer, Number, ScanError};
pub use render::render;
pub use rule::FormatRule;
pub use size::{normalize, Size};
pub use unit::{
    Base, Style, Unit, BYTE, EXABYTE, EXBIBYTE, GIBIBYTE, GIGABYTE, KIBIBYTE, KILOBYTE, MEBIBYTE,
    MEGABYTE, PEBIBYTE, PETABYTE, TEBIBYTE, TERABYTE,
};
pub use unit::{EiB, GiB, KiB, MiB, PiB, TiB, B, EB, GB, KB, MB, PB, TB};
