//! The pluggable blob store that digests are keys into.

pub mod hashmap;
pub mod void;

use vstd::prelude::*;

use crate::error::Error;
use crate::hash::{digest_of, BlakeResultWrap};

verus! {

/// The contents of a backend: a map from digest bytes to blob bytes.
pub type BlobMap = Map<Seq<u8>, Seq<u8>>;

/// `post` keeps every binding of `pre`: a digest, once stored, is a
/// stable, permanent key for the lifetime of the backend.
pub open spec fn blob_map_extends(post: BlobMap, pre: BlobMap) -> bool {
    forall|k: Seq<u8>| #[trigger] pre.dom().contains(k) ==> post.dom().contains(k) && post[k]
        == pre[k]
}

/// Every entry of `want` is present in `post`, and an entry whose key
/// was still free in `pre` carries exactly the bytes `want` gives it.
/// (A key already taken keeps its old blob: storing deduplicates.)
pub open spec fn stored_entries(pre: BlobMap, post: BlobMap, want: BlobMap) -> bool {
    forall|k: Seq<u8>| #[trigger] want.dom().contains(k) ==> post.dom().contains(k) && (
    !pre.dom().contains(k) ==> post[k] == want[k])
}

/// `m` with the entry `k -> v` added if `k` is still free.
pub open spec fn with_entry(m: BlobMap, k: Seq<u8>, v: Seq<u8>) -> BlobMap {
    if m.dom().contains(k) {
        m
    } else {
        m.insert(k, v)
    }
}

/// Keeping bindings is transitive across two steps.
pub proof fn lemma_extends_trans(a: BlobMap, b: BlobMap, c: BlobMap)
    requires
        blob_map_extends(b, a),
        blob_map_extends(c, b),
    ensures
        blob_map_extends(c, a),
{
    assert forall|k: Seq<u8>| #[trigger] a.dom().contains(k) implies c.dom().contains(k) && c[k]
        == a[k] by {
        assert(b.dom().contains(k) && b[k] == a[k]);
    }
}

/// Every blob sits under the digest of its own bytes.
pub open spec fn blobs_wf(m: BlobMap) -> bool {
    forall|d: Seq<u8>| m.dom().contains(d) ==> d == digest_of(#[trigger] m[d])
}

/// A mutable store of opaque blobs keyed by digest.
///
/// A backend is hash-consistent: every blob it serves is stored under
/// the Blake2b-256 digest of its own bytes. `store` persists a blob
/// under its digest; `request` hands back the blob stored under a
/// digest, or fails with `NotFound`.
pub trait Backend: Sized {
    /// The blobs currently held, as a map from digest bytes to blob
    /// bytes. A backend that keeps nothing (the discard variant) has an
    /// empty map.
    spec fn blobs(&self) -> BlobMap;

    /// Whether stored blobs are retained for later requests. A discard
    /// backend hashes without retaining and answers `false`.
    spec fn keeps(&self) -> bool;

    /// Whether this backend may be read from at all. Reading from a
    /// discard backend is a contract violation, so it answers `false`.
    spec fn readable(&self) -> bool;

    /// Whether `store` and `request` are free of failures of their own:
    /// an infallible backend fails a request only with `NotFound`.
    /// Concrete backends doing real input/output answer `false`.
    spec fn infallible(&self) -> bool;

    /// The executable mirror of `keeps`.
    fn keeps_stored(&self) -> (r: bool)
        ensures
            r == self.keeps(),
    ;

    /// Persists `bytes` under `digest`, which must be the digest of
    /// those bytes. Storing deduplicates: a digest already present
    /// keeps the blob it already has, so stored bindings are permanent.
    fn store(&mut self, digest: &BlakeResultWrap, bytes: Vec<u8>) -> (r: Result<(), Error>)
        requires
            digest.wf(),
            digest@ == digest_of(bytes@),
            blobs_wf(old(self).blobs()),
        ensures
            blobs_wf(final(self).blobs()),
            final(self).keeps() == old(self).keeps(),
            final(self).readable() == old(self).readable(),
            final(self).infallible() == old(self).infallible(),
            old(self).infallible() ==> r is Ok,
            match r {
                Ok(_) => final(self).blobs() == if old(self).keeps()
                    && !old(self).blobs().dom().contains(digest@) {
                    old(self).blobs().insert(digest@, bytes@)
                } else {
                    old(self).blobs()
                },
                Err(_) => final(self).blobs() == old(self).blobs(),
            },
    ;

    /// Hands back the blob stored under `digest`, or `NotFound` if the
    /// digest is absent.
    fn request(&self, digest: &BlakeResultWrap) -> (r: Result<Vec<u8>, Error>)
        requires
            digest.wf(),
            self.readable(),
            blobs_wf(self.blobs()),
        ensures
            self.infallible() && self.blobs().dom().contains(digest@) ==> r is Ok,
            match r {
                Ok(bytes) => self.blobs().dom().contains(digest@) && bytes@ == self.blobs().index(
                    digest@,
                ) && digest@ == digest_of(bytes@),
                Err(e) => match e {
                    Error::NotFound => !self.blobs().dom().contains(digest@),
                    Error::Io(_) => !self.infallible(),
                    _ => false,
                },
            },
    ;
}

} // verus!
