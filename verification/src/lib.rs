//! PPMd compression and decompression.
//!
//! Two variants of the PPMd algorithm by Dmitry Shkarin are provided:
//!
//! - PPMd7 (PPMdH), coded with the range coder of the 7z archive format;
//! - PPMd8 (PPMdI rev.1), coded with the carryless range coder of the zip format.
//!
//! The context model lives in a byte arena of the requested size, in the
//! record layout of the algorithm; every access to it is bounds-checked and every
//! arithmetic step is either proved free of overflow or uses the wrapping
//! operation of 32-bit C arithmetic that the format is defined with.
mod arena;
pub mod laws;
pub mod laws7;
pub mod byte_io;
pub mod range8;
pub mod range7;
pub mod model8;
pub mod model7;
pub mod coder8;
pub mod coder7;
mod prob;
mod restore;
pub mod units;

use vstd::prelude::*;

pub use byte_io::{ByteSink, ByteSource, SliceSource, VecSink};
pub use coder7::{Ppmd7Decoder, Ppmd7Encoder};
pub use coder8::{Ppmd8Decoder, Ppmd8Encoder};
pub use prob::{ppmd_get_mean, ppmd_get_mean_spec, ppmd_update_prob_0, ppmd_update_prob_1, PPMD_BIN_SCALE};
pub use restore::RestoreMethod;

verus! {

/// Smallest model order of PPMd7.
pub const PPMD7_MIN_ORDER: u32 = 2;

/// Largest model order of PPMd7.
pub const PPMD7_MAX_ORDER: u32 = 64;

/// Smallest memory size of PPMd7, in bytes.
pub const PPMD7_MIN_MEM_SIZE: u32 = 2048;

/// Largest memory size of PPMd7, in bytes.
pub const PPMD7_MAX_MEM_SIZE: u32 = 4294967259;

/// Smallest model order of PPMd8.
pub const PPMD8_MIN_ORDER: u32 = 2;

/// Largest model order of PPMd8.
pub const PPMD8_MAX_ORDER: u32 = 16;

/// Smallest memory size of PPMd8, in bytes.
pub const PPMD8_MIN_MEM_SIZE: u32 = 2048;

/// Largest memory size of PPMd8, in bytes.
pub const PPMD8_MAX_MEM_SIZE: u32 = 4294967259;

/// The symbol value that marks the end of the data.
pub const SYM_END: i32 = -1;

/// The symbol value that reports a decoding error.
pub const SYM_ERROR: i32 = -2;

/// Errors of the coders.
#[derive(Debug, Copy, Clone, PartialEq, Eq, Structural)]
pub enum Error {
    /// The range decoder could not be properly initialized.
    RangeDecoderInitialization,
    /// Invalid parameters provided.
    InvalidParameter,
    /// The byte source or the byte sink failed.
    IoError,
    /// The needed memory could not be allocated.
    MemoryAllocation,
    /// The compressed data is corrupt.
    InvalidData,
}

impl Error {
    /// The message that describes the error.
    pub fn message(&self) -> (r: &'static str)
        ensures
            *self == Error::RangeDecoderInitialization ==> r@ == "Could not initialize the range decoder"@,
            *self == Error::InvalidParameter ==> r@ == "Wrong PPMd parameter"@,
            *self == Error::IoError ==> r@ == "Io error"@,
            *self == Error::MemoryAllocation ==> r@ == "Memory allocation error (out of memory?)"@,
            *self == Error::InvalidData ==> r@ == "Error during PPMd decoding"@,
    {
        match self {
            Error::RangeDecoderInitialization => "Could not initialize the range decoder",
            Error::InvalidParameter => "Wrong PPMd parameter",
            Error::IoError => "Io error",
            Error::MemoryAllocation => "Memory allocation error (out of memory?)",
            Error::InvalidData => "Error during PPMd decoding",
        }
    }
}

} // verus!
