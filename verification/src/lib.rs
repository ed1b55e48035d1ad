//! A verified codec for the PRS compression format, the LZ-style scheme of
//! Sega's legacy game data archives: literal and back-reference tokens
//! driven by a side stream of control bits, read low bit first from flag
//! bytes fetched as they are needed.
//!
//! `compress` carries the proof that its stream decodes back to exactly the
//! input, `decompress` the proof that it reads streams precisely as the
//! format's state machine prescribes.

pub mod bitmath;
pub mod decode;
pub mod encode;
pub mod encstate;
pub mod laws;
pub mod tokens;

pub use decode::{decompress, spec_decompress};
pub use encode::compress;
pub use laws::{round_trip, truncation_detected};
pub use tokens::{PrsError, Token};
