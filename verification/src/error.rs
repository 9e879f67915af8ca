//! The failure conditions of the store.

use vstd::prelude::*;

verus! {

/// Everything that can go wrong while putting, getting or materializing
/// a value.
#[derive(Debug, PartialEq, Eq)]
pub enum Error {
    /// The requested digest is not present in the backend.
    NotFound,
    /// A byte stream does not hold a well-formed encoding: a bad tag
    /// byte, a truncated stream, or trailing bytes after the value.
    InvalidEncoding,
    /// An input/output failure of a concrete backend, carried as its
    /// message and propagated unchanged.
    Io(String),
}

} // verus!
