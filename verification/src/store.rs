//! Ties a backend to a value type and exposes `put` and `get`.

use vstd::prelude::*;

use core::marker::PhantomData;

use crate::backend::hashmap::MemoryBackend;
use crate::backend::{
    blob_map_extends, blobs_wf, lemma_extends_trans, stored_entries, with_entry, Backend,
};
use crate::content::{
    encodes, is_exact_encoding, is_prefix_encoding, parses, Content, Sink, Source,
};
use crate::error::Error;
use crate::hash::{digest_of, BlakeResultWrap};

verus! {

/// Serializes `value` through a fresh sink and persists the resulting
/// blob in `backend` under the digest of its bytes, returning that
/// digest. Embedded references store their referents through the same
/// backend while the value is being written.
pub fn store_value<T: Content<B>, B: Backend>(value: &mut T, backend: &mut B) -> (r: Result<
    BlakeResultWrap,
    Error,
>)
    requires
        old(value).valid(),
        blobs_wf(old(backend).blobs()),
    ensures
        final(value).valid(),
        final(value).encoding() == old(value).encoding(),
        final(value).same(old(value)),
        blobs_wf(final(backend).blobs()),
        final(backend).keeps() == old(backend).keeps(),
        final(backend).readable() == old(backend).readable(),
        final(backend).infallible() == old(backend).infallible(),
        blob_map_extends(final(backend).blobs(), old(backend).blobs()),
        forall|k: Seq<u8>| #[trigger]
            final(backend).blobs().dom().contains(k) ==> old(backend).blobs().dom().contains(k)
                || with_entry(
                old(value).referents(),
                digest_of(old(value).encoding()),
                old(value).encoding(),
            ).dom().contains(k),
        old(backend).infallible() ==> r is Ok,
        match r {
            Ok(d) => {
                &&& d.wf()
                &&& d@ == digest_of(old(value).encoding())
                &&& old(backend).keeps() ==> final(backend).blobs().dom().contains(d@)
                    && stored_entries(
                    old(backend).blobs(),
                    final(backend).blobs(),
                    with_entry(old(value).referents(), d@, old(value).encoding()),
                )
            },
            Err(_) => true,
        },
{
    let ghost pre = backend.blobs();
    let ghost refs = old(value).referents();
    let ghost enc = old(value).encoding();
    let mut sink = Sink::new();
    let res = value.to_content(&mut sink, backend);
    let ghost mid = backend.blobs();
    let (digest, bytes) = sink.fin();
    match res {
        Ok(_) => {
            proof {
                assert(Seq::<u8>::empty() + old(value).encoding() =~= old(value).encoding());
            }
            match backend.store(&digest, bytes) {
                Ok(_) => {
                    proof {
                        let post = backend.blobs();
                        let want = with_entry(refs, digest@, enc);
                        assert(blob_map_extends(post, mid));
                        lemma_extends_trans(pre, mid, post);
                        if backend.keeps() {
                            assert forall|k: Seq<u8>| #[trigger]
                                want.dom().contains(k) implies post.dom().contains(k) && (
                            !pre.dom().contains(k) ==> post[k] == want[k]) by {
                                if refs.dom().contains(k) {
                                    assert(mid.dom().contains(k));
                                    assert(!pre.dom().contains(k) ==> mid[k] == refs[k]);
                                    assert(post[k] == mid[k]);
                                } else {
                                    assert(k == digest@);
                                    if !pre.dom().contains(k) {
                                        if mid.dom().contains(k) {
                                            assert(refs.dom().contains(k));
                                        } else {
                                            assert(post[k] == bytes@);
                                        }
                                    }
                                }
                            }
                            assert(stored_entries(pre, post, want));
                        }
                    }
                    Ok(digest)
                },
                Err(e) => Err(e),
            }
        },
        Err(e) => Err(e),
    }
}

/// Serializes `value` into a plain sink and persists the blob under a
/// digest already computed for it. The digest is reused, never
/// recomputed: a value hashed before being persisted keeps the digest
/// it was hashed to.
pub fn store_value_under<T: Content<B>, B: Backend>(
    value: &mut T,
    digest: &BlakeResultWrap,
    backend: &mut B,
) -> (r: Result<(), Error>)
    requires
        old(value).valid(),
        blobs_wf(old(backend).blobs()),
        digest.wf(),
        digest@ == digest_of(old(value).encoding()),
    ensures
        final(value).valid(),
        final(value).encoding() == old(value).encoding(),
        final(value).same(old(value)),
        blobs_wf(final(backend).blobs()),
        final(backend).keeps() == old(backend).keeps(),
        final(backend).readable() == old(backend).readable(),
        final(backend).infallible() == old(backend).infallible(),
        blob_map_extends(final(backend).blobs(), old(backend).blobs()),
        forall|k: Seq<u8>| #[trigger]
            final(backend).blobs().dom().contains(k) ==> old(backend).blobs().dom().contains(k)
                || with_entry(old(value).referents(), digest@, old(value).encoding()).dom().contains(
                k,
            ),
        old(backend).infallible() ==> r is Ok,
        r is Ok && old(backend).keeps() ==> final(backend).blobs().dom().contains(digest@)
            && stored_entries(
            old(backend).blobs(),
            final(backend).blobs(),
            with_entry(old(value).referents(), digest@, old(value).encoding()),
        ),
{
    let ghost pre = backend.blobs();
    let ghost refs = old(value).referents();
    let ghost enc = old(value).encoding();
    let mut sink = Sink::new_unhashed();
    match value.to_content(&mut sink, backend) {
        Ok(_) => {
            let ghost mid = backend.blobs();
            let bytes = sink.into_bytes();
            proof {
                assert(Seq::<u8>::empty() + old(value).encoding() =~= old(value).encoding());
            }
            match backend.store(digest, bytes) {
                Ok(_) => {
                    proof {
                        let post = backend.blobs();
                        let want = with_entry(refs, digest@, enc);
                        assert(blob_map_extends(post, mid));
                        lemma_extends_trans(pre, mid, post);
                        if backend.keeps() {
                            assert forall|k: Seq<u8>| #[trigger]
                                want.dom().contains(k) implies post.dom().contains(k) && (
                            !pre.dom().contains(k) ==> post[k] == want[k]) by {
                                if refs.dom().contains(k) {
                                    assert(mid.dom().contains(k));
                                    assert(!pre.dom().contains(k) ==> mid[k] == refs[k]);
                                    assert(post[k] == mid[k]);
                                } else {
                                    assert(k == digest@);
                                    if !pre.dom().contains(k) {
                                        if mid.dom().contains(k) {
                                            assert(refs.dom().contains(k));
                                        }
                                    }
                                }
                            }
                            assert(stored_entries(pre, post, want));
                        }
                    }
                    Ok(())
                },
                Err(e) => Err(e),
            }
        },
        Err(e) => Err(e),
    }
}

/// A store of values of one type, backed by one backend.
///
/// Its view is the backend it owns.
pub struct Store<T, B> {
    backend: B,
    _marker: PhantomData<T>,
}

impl<T, B> View for Store<T, B> {
    type V = B;

    closed spec fn view(&self) -> B {
        self.backend
    }
}

impl<T: Content<B>, B: Backend> Store<T, B> {
    /// A store over the given backend.
    pub fn new_with_backend(backend: B) -> (r: Store<T, B>)
        ensures
            r@ == backend,
    {
        Store { backend, _marker: PhantomData }
    }

    /// The backend this store writes through.
    pub fn backend(&self) -> (r: &B)
        ensures
            *r == self@,
    {
        &self.backend
    }

    /// Serializes `t`, persists the blob under the digest of its bytes,
    /// and returns that digest.
    pub fn put(&mut self, t: &mut T) -> (r: Result<BlakeResultWrap, Error>)
        requires
            old(t).valid(),
            blobs_wf(old(self)@.blobs()),
        ensures
            final(t).valid(),
            final(t).encoding() == old(t).encoding(),
            final(t).same(old(t)),
            blobs_wf(final(self)@.blobs()),
            final(self)@.keeps() == old(self)@.keeps(),
            final(self)@.readable() == old(self)@.readable(),
            final(self)@.infallible() == old(self)@.infallible(),
            blob_map_extends(final(self)@.blobs(), old(self)@.blobs()),
            forall|k: Seq<u8>| #[trigger]
                final(self)@.blobs().dom().contains(k) ==> old(self)@.blobs().dom().contains(k)
                    || with_entry(
                    old(t).referents(),
                    digest_of(old(t).encoding()),
                    old(t).encoding(),
                ).dom().contains(k),
            old(self)@.infallible() ==> r is Ok,
            match r {
                Ok(d) => {
                    &&& d.wf()
                    &&& d@ == digest_of(old(t).encoding())
                    &&& old(self)@.keeps() ==> final(self)@.blobs().dom().contains(d@)
                        && stored_entries(
                        old(self)@.blobs(),
                        final(self)@.blobs(),
                        with_entry(old(t).referents(), d@, old(t).encoding()),
                    )
                },
                Err(_) => true,
            },
    {
        store_value(t, &mut self.backend)
    }

    /// Fetches the blob stored under `digest` and reconstructs a value
    /// from it. Fails with `NotFound` if the digest is absent, and with
    /// `InvalidEncoding` if the blob is not exactly one well-formed
    /// encoding.
    pub fn get(&mut self, digest: &BlakeResultWrap) -> (r: Result<T, Error>)
        requires
            digest.wf(),
            blobs_wf(old(self)@.blobs()),
            old(self)@.readable(),
        ensures
            *final(self) == *old(self),
            match r {
                Ok(v) => {
                    &&& v.valid()
                    &&& v.fresh()
                    &&& old(self)@.blobs().dom().contains(digest@)
                    &&& v.encoding() == old(self)@.blobs()[digest@]
                },
                Err(e) => match e {
                    Error::NotFound => !old(self)@.blobs().dom().contains(digest@),
                    Error::InvalidEncoding => old(self)@.blobs().dom().contains(digest@)
                        && !encodes::<T>(old(self)@.blobs()[digest@]),
                    _ => !old(self)@.infallible(),
                },
            },
            old(self)@.infallible() && old(self)@.blobs().dom().contains(digest@) && encodes::<T>(
                old(self)@.blobs()[digest@],
            ) ==> r is Ok,
    {
        let bytes = match self.backend.request(digest) {
            Ok(b) => b,
            Err(e) => {
                return Err(e);
            },
        };
        let ghost blob: Seq<u8> = bytes@;
        let mut source = Source::new(bytes);
        let v = match <T as Content<B>>::from_content(&mut source) {
            Ok(v) => v,
            Err(e) => {
                proof {
                    assert(source.all_bytes().skip(0) =~= blob);
                    if encodes::<T>(blob) {
                        let w = choose|w: T| is_exact_encoding(w, blob);
                        assert(blob.take(w.encoding().len() as int) =~= blob);
                        assert(is_prefix_encoding(w, blob));
                        assert(parses::<T>(blob));
                    }
                }
                return Err(e);
            },
        };
        if source.remaining() != 0 {
            proof {
                assert(v.encoding() == blob.subrange(0, source.position()));
                if encodes::<T>(blob) {
                    let w = choose|w: T| is_exact_encoding(w, blob);
                    assert(v.encoding() =~= w.encoding().take(v.encoding().len() as int));
                    v.lemma_prefix_free(&w);
                }
            }
            return Err(Error::InvalidEncoding);
        }
        proof {
            assert(v.encoding() =~= blob);
        }
        Ok(v)
    }
}

impl<T: Content<MemoryBackend>> Store<T, MemoryBackend> {
    /// A store over a fresh in-memory backend.
    pub fn new() -> (r: Store<T, MemoryBackend>)
        ensures
            r@.blobs() == Map::<Seq<u8>, Seq<u8>>::empty(),
            blobs_wf(r@.blobs()),
            r@.keeps(),
            r@.readable(),
            r@.infallible(),
    {
        Store::new_with_backend(MemoryBackend::new())
    }
}

} // verus!
