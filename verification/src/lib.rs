//! Transparent, extension-driven file content codec.
//!
//! Paths are classified by their final extension into plain, gzip, or zstd
//! content; line-oriented and delimited-record payloads are encoded to and
//! decoded from the corresponding file bytes.

pub mod compress;
pub mod delim;
pub mod delim_file;
pub mod ext;
pub mod gateway;
pub mod lines;
pub mod rows;
pub mod table;

use vstd::prelude::*;

verus! {

/// The error kinds every fallible operation of this crate reports.
#[derive(Clone, Copy, Debug, PartialEq, Eq, Structural)]
pub enum FgError {
    /// A byte-level failure: corrupt or truncated compressed data, or text
    /// that is not valid UTF-8.
    IoError,
    /// A shape failure when converting records to or from delimited rows;
    /// carries the number of the offending row, counting the header as row 0
    /// and the first data row as row 1.
    ConversionError { row: usize },
}

impl FgError {
    /// True exactly when this error is the byte-level kind.
    pub fn is_io_error(&self) -> (r: bool)
        ensures
            r == (*self is IoError),
    {
        match self {
            FgError::IoError => true,
            FgError::ConversionError { .. } => false,
        }
    }
}

} // verus!

