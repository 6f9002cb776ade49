//! An LZSS byte-stream encoder: bytes that already appeared inside a sliding
//! dictionary window are replaced by short back-references, the rest stay
//! literals, and the chosen symbols are packed into a bit stream.
#![verifier::loop_isolation(false)]
use vstd::prelude::*;

pub mod bit_writer;
pub mod comparator;
pub mod encoder;
pub mod encoder_reader;
pub mod source;
pub mod utility;

verus! {

/// Why an encode gave up. The only failure an in-memory run can meet is a
/// source that ends before the one byte every stream must begin with.
#[derive(Debug, Clone, Copy, PartialEq, Eq, Structural)]
pub enum LzssError {
    UnexpectedEndOfInput,
}

} // verus!
