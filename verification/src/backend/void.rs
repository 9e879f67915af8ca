//! The discard backend: bytes are hashed but never retained.

use vstd::prelude::*;

use crate::backend::Backend;
use crate::error::Error;
use crate::hash::BlakeResultWrap;

verus! {

/// A write-only backend that drops every blob handed to it. It exists
/// so that a value can be serialized purely to learn its digest without
/// persisting anything. Reading from it is a contract violation and
/// aborts.
pub struct VoidBackend;

impl Backend for VoidBackend {
    open spec fn blobs(&self) -> Map<Seq<u8>, Seq<u8>> {
        Map::empty()
    }

    open spec fn keeps(&self) -> bool {
        false
    }

    open spec fn readable(&self) -> bool {
        false
    }

    open spec fn infallible(&self) -> bool {
        true
    }

    fn keeps_stored(&self) -> (r: bool) {
        false
    }

    fn store(&mut self, digest: &BlakeResultWrap, bytes: Vec<u8>) -> (r: Result<(), Error>) {
        Ok(())
    }

    fn request(&self, digest: &BlakeResultWrap) -> (r: Result<Vec<u8>, Error>) {
        vstd::pervasive::unreached()
    }
}

} // verus!
