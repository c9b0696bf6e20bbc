//! Compiles an inclusive range of Unicode scalar values into byte-range
//! sequences that match exactly the UTF-8 encodings of those scalar values.
pub mod encode;
pub mod sequence;
pub mod block;
pub mod laws;
pub mod compile;

pub use compile::utf8_ranges;
pub use encode::encode_utf8;
pub use sequence::{Utf8Range, Utf8Sequence};
