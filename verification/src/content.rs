//! The codec protocol: canonical byte encodings of values.
//!
//! `Wire` states what a type's encoding is; `Content` is the executable
//! side, reading from a [`Source`] and writing through a [`Sink`] that
//! also feeds a streaming hasher, with access to a [`Backend`] so that
//! embedded references can store their referents while being written.

use vstd::prelude::*;

use crate::backend::{blob_map_extends, blobs_wf, stored_entries, Backend, BlobMap};
use crate::error::Error;
use crate::hash::{digest_of, BlakeResultWrap, BlakeWrap};

verus! {

/// A byte sink for serialization. Every byte written is appended both to
/// the output buffer and to a streaming hasher, so that finishing the
/// sink yields the digest of exactly the bytes it emitted.
pub struct Sink {
    hasher: Option<BlakeWrap>,
    bytes: Vec<u8>,
}

impl View for Sink {
    type V = Seq<u8>;

    closed spec fn view(&self) -> Seq<u8> {
        self.bytes@
    }
}

impl Sink {
    /// The hasher, if present, has been fed exactly the bytes written.
    pub closed spec fn wf(&self) -> bool {
        match self.hasher {
            Some(h) => h@ == self.bytes@,
            None => true,
        }
    }

    /// Whether this sink carries a hasher, so that `fin` can yield the
    /// digest of what was written.
    pub closed spec fn hashing(&self) -> bool {
        self.hasher is Some
    }

    /// A fresh hashing sink holding no bytes.
    pub fn new() -> (r: Sink)
        ensures
            r@ == Seq::<u8>::empty(),
            r.wf(),
            r.hashing(),
    {
        Sink { hasher: Some(BlakeWrap::new()), bytes: Vec::new() }
    }

    /// A fresh sink that only collects bytes, for writing a value whose
    /// digest is already known and must not be recomputed.
    pub fn new_unhashed() -> (r: Sink)
        ensures
            r@ == Seq::<u8>::empty(),
            r.wf(),
    {
        Sink { hasher: None, bytes: Vec::new() }
    }

    /// Appends bytes to the sink.
    pub fn write(&mut self, data: &[u8])
        requires
            old(self).wf(),
        ensures
            final(self).wf(),
            final(self).hashing() == old(self).hashing(),
            final(self)@ == old(self)@ + data@,
    {
        match &mut self.hasher {
            Some(h) => h.write(data),
            None => {},
        }
        self.bytes.extend_from_slice(data);
        proof {
            assert(self.bytes@ =~= old(self).bytes@ + data@);
        }
    }

    /// Consumes the sink, yielding the digest of everything written and
    /// the written bytes themselves.
    pub fn fin(self) -> (r: (BlakeResultWrap, Vec<u8>))
        requires
            self.wf(),
            self.hashing(),
        ensures
            r.0@ == digest_of(self@),
            r.0.wf(),
            r.1@ == self@,
    {
        let Sink { hasher, bytes } = self;
        match hasher {
            Some(h) => (h.fin(), bytes),
            None => vstd::pervasive::unreached(),
        }
    }

    /// Consumes the sink, yielding only the bytes written.
    pub fn into_bytes(self) -> (r: Vec<u8>)
        ensures
            r@ == self@,
    {
        let Sink { hasher: _, bytes } = self;
        bytes
    }
}

/// A byte source for deserialization: a buffer and a cursor over it.
pub struct Source {
    data: Vec<u8>,
    pos: usize,
}

impl Source {
    /// All bytes the source was created over.
    pub closed spec fn all_bytes(&self) -> Seq<u8> {
        self.data@
    }

    /// How many bytes have been consumed so far.
    pub closed spec fn position(&self) -> int {
        self.pos as int
    }

    /// The bytes not yet consumed.
    pub open spec fn remaining_bytes(&self) -> Seq<u8> {
        self.all_bytes().skip(self.position())
    }

    /// The cursor never passes the end of the buffer.
    pub open spec fn wf(&self) -> bool {
        0 <= self.position() <= self.all_bytes().len()
    }

    /// A fresh source over `data`, positioned at its start.
    pub fn new(data: Vec<u8>) -> (r: Source)
        ensures
            r.all_bytes() == data@,
            r.position() == 0,
            r.wf(),
    {
        Source { data, pos: 0 }
    }

    /// Consumes the next `n` bytes; fails with `InvalidEncoding` if
    /// fewer remain, leaving the source unchanged.
    pub fn read(&mut self, n: usize) -> (r: Result<Vec<u8>, Error>)
        requires
            old(self).wf(),
        ensures
            final(self).wf(),
            final(self).all_bytes() == old(self).all_bytes(),
            match r {
                Ok(b) => {
                    &&& old(self).position() + n <= old(self).all_bytes().len()
                    &&& b@ == old(self).all_bytes().subrange(
                        old(self).position(),
                        old(self).position() + n,
                    )
                    &&& final(self).position() == old(self).position() + n
                },
                Err(e) => {
                    &&& e == Error::InvalidEncoding
                    &&& old(self).position() + n > old(self).all_bytes().len()
                    &&& *final(self) == *old(self)
                },
            },
    {
        if n > self.data.len() - self.pos {
            return Err(Error::InvalidEncoding);
        }
        let total = self.data.len();
        let mut out: Vec<u8> = Vec::new();
        let mut i: usize = 0;
        while i < n
            invariant
                total == self.data@.len(),
                self.pos + n <= total,
                i <= n,
                out@ == self.data@.subrange(self.pos as int, self.pos + i),
            decreases n - i,
        {
            out.push(self.data[self.pos + i]);
            i += 1;
            proof {
                assert(out@ =~= self.data@.subrange(self.pos as int, self.pos + i));
            }
        }
        self.pos = self.pos + n;
        Ok(out)
    }

    /// How many bytes are left to consume.
    pub fn remaining(&self) -> (r: usize)
        requires
            self.wf(),
        ensures
            r == self.remaining_bytes().len(),
    {
        self.data.len() - self.pos
    }
}

/// `v` is well formed and its encoding is a prefix of `s`.
pub open spec fn is_prefix_encoding<T: Wire>(v: T, s: Seq<u8>) -> bool {
    &&& v.valid()
    &&& v.encoding().len() <= s.len()
    &&& v.encoding() == s.take(v.encoding().len() as int)
}

/// `v` is well formed and its encoding is exactly `s`.
pub open spec fn is_exact_encoding<T: Wire>(v: T, s: Seq<u8>) -> bool {
    &&& v.valid()
    &&& v.encoding() == s
}

/// The wire-format specification of a content type: what bytes a value
/// canonically encodes to, which values are well formed, and when two
/// values carry the same content. The two laws every implementation
/// proves make the format unambiguous: encodings are prefix-free
/// within a type, and they coincide exactly for values of the same
/// content.
pub trait Wire: Sized {
    /// The canonical encoding of this value.
    spec fn encoding(&self) -> Seq<u8>;

    /// Whether this value is well formed.
    spec fn valid(&self) -> bool;

    /// Content equality: plain equality for primitives, digest equality
    /// for content-addressed references.
    spec fn same(&self, other: &Self) -> bool;

    /// Whether this value has the form `from_content` produces: every
    /// embedded content-addressed reference is still unmaterialized,
    /// holding only its digest.
    spec fn fresh(&self) -> bool;

    /// The blob entries that serializing this value promises to put
    /// into the backend: nothing for plain values, the wrapped value's
    /// entry (and recursively its own referents) for a not-yet-stored
    /// content-addressed reference, and the members' entries for
    /// composites.
    spec fn referents(&self) -> BlobMap;

    /// Law: within one type, no well-formed value's encoding is a
    /// proper prefix of another's.
    proof fn lemma_prefix_free(&self, other: &Self)
        requires
            self.valid(),
            other.valid(),
            self.encoding().len() <= other.encoding().len(),
            self.encoding() == other.encoding().take(self.encoding().len() as int),
        ensures
            self.encoding() == other.encoding(),
    ;

    /// Law: two well-formed values carry the same content exactly when
    /// their encodings coincide.
    proof fn lemma_same_iff_encoding(&self, other: &Self)
        requires
            self.valid(),
            other.valid(),
        ensures
            self.same(other) <==> self.encoding() == other.encoding(),
    ;
}

/// The executable codec of a content type, for a given backend kind.
///
/// Serialization may mutate the value: a content-addressed reference
/// caches the digest it was stored under, so that it is hashed and
/// persisted at most once. The cached state never changes the value's
/// encoding or content.
pub trait Content<B: Backend>: Wire {
    /// Writes this value's canonical encoding to `sink`, storing any
    /// embedded referents through `backend`.
    ///
    /// The backend only grows, every binding it already held is kept,
    /// every key it gains comes from this value's referents, and on
    /// success against a keeping backend every referent entry is
    /// present in it.
    fn to_content(&mut self, sink: &mut Sink, backend: &mut B) -> (r: Result<(), Error>)
        requires
            old(self).valid(),
            old(sink).wf(),
            blobs_wf(old(backend).blobs()),
        ensures
            final(self).valid(),
            final(self).encoding() == old(self).encoding(),
            final(self).same(old(self)),
            final(sink).wf(),
            final(sink).hashing() == old(sink).hashing(),
            blobs_wf(final(backend).blobs()),
            final(backend).keeps() == old(backend).keeps(),
            final(backend).readable() == old(backend).readable(),
            final(backend).infallible() == old(backend).infallible(),
            blob_map_extends(final(backend).blobs(), old(backend).blobs()),
            forall|k: Seq<u8>| #[trigger]
                final(backend).blobs().dom().contains(k) ==> old(backend).blobs().dom().contains(k)
                    || old(self).referents().dom().contains(k),
            old(backend).infallible() ==> r is Ok,
            match r {
                Ok(_) => final(sink)@ == old(sink)@ + old(self).encoding() && (old(
                    backend,
                ).keeps() ==> stored_entries(
                    old(backend).blobs(),
                    final(backend).blobs(),
                    old(self).referents(),
                )),
                Err(_) => true,
            },
    ;

    /// Reads one value of this type off the front of `source`,
    /// consuming exactly its encoding; fails with `InvalidEncoding` if
    /// no well-formed value's encoding starts there.
    fn from_content(source: &mut Source) -> (r: Result<Self, Error>)
        requires
            old(source).wf(),
        ensures
            final(source).wf(),
            final(source).all_bytes() == old(source).all_bytes(),
            old(source).position() <= final(source).position(),
            match r {
                Ok(v) => v.fresh() && is_exact_encoding(
                    v,
                    old(source).all_bytes().subrange(
                        old(source).position(),
                        final(source).position(),
                    ),
                ),
                Err(e) => {
                    &&& e == Error::InvalidEncoding
                    &&& !parses::<Self>(old(source).remaining_bytes())
                },
            },
    ;
}

/// Some well-formed value of `T` encodes a prefix of `s`.
pub open spec fn parses<T: Wire>(s: Seq<u8>) -> bool {
    exists|v: T| #[trigger] is_prefix_encoding(v, s)
}

/// Some well-formed value of `T` encodes exactly `s`.
pub open spec fn encodes<T: Wire>(s: Seq<u8>) -> bool {
    exists|v: T| #[trigger] is_exact_encoding(v, s)
}

impl Wire for BlakeResultWrap {
    /// A digest is encoded as its raw 32 bytes, with no framing.
    open spec fn encoding(&self) -> Seq<u8> {
        self@
    }

    open spec fn valid(&self) -> bool {
        self.wf()
    }

    open spec fn same(&self, other: &Self) -> bool {
        self@ == other@
    }

    open spec fn fresh(&self) -> bool {
        true
    }

    /// A digest stands for content already addressed elsewhere; it
    /// promises no blobs of its own.
    open spec fn referents(&self) -> BlobMap {
        Map::empty()
    }

    proof fn lemma_prefix_free(&self, other: &Self) {
        assert(other.encoding().take(32) =~= other.encoding());
    }

    proof fn lemma_same_iff_encoding(&self, other: &Self) {
    }
}

impl<B: Backend> Content<B> for BlakeResultWrap {
    fn to_content(&mut self, sink: &mut Sink, backend: &mut B) -> (r: Result<(), Error>) {
        sink.write(self.as_ref());
        Ok(())
    }

    fn from_content(source: &mut Source) -> (r: Result<Self, Error>) {
        match source.read(32) {
            Ok(b) => {
                let d = BlakeResultWrap::from_bytes(b);
                proof {
                    assert(d.encoding() =~= old(source).all_bytes().subrange(
                        old(source).position(),
                        source.position(),
                    ));
                }
                Ok(d)
            },
            Err(e) => {
                proof {
                    let s = old(source).remaining_bytes();
                    assert forall|v: BlakeResultWrap| !is_prefix_encoding(v, s) by {
                        if v.valid() {
                            assert(v.encoding().len() == 32);
                        }
                    }
                    assert(!parses::<BlakeResultWrap>(s));
                }
                Err(e)
            },
        }
    }
}

/// If a concatenation is a prefix of `s`, its first part is too.
pub proof fn lemma_concat_prefix_head(x: Seq<u8>, y: Seq<u8>, s: Seq<u8>)
    requires
        x.len() + y.len() <= s.len(),
        x + y == s.take((x.len() + y.len()) as int),
    ensures
        x == s.take(x.len() as int),
{
    assert forall|i: int| 0 <= i < x.len() implies x[i] == s.take(x.len() as int)[i] by {
        assert((x + y)[i] == s.take((x.len() + y.len()) as int)[i]);
    }
    assert(x =~= s.take(x.len() as int));
}

/// If a concatenation is a prefix of `s`, its second part is a prefix
/// of what remains after the first.
pub proof fn lemma_concat_prefix_tail(x: Seq<u8>, y: Seq<u8>, s: Seq<u8>)
    requires
        x.len() + y.len() <= s.len(),
        x + y == s.take((x.len() + y.len()) as int),
    ensures
        y == s.skip(x.len() as int).take(y.len() as int),
{
    assert forall|i: int| 0 <= i < y.len() implies y[i] == s.skip(x.len() as int).take(
        y.len() as int,
    )[i] by {
        assert((x + y)[x.len() + i] == s.take((x.len() + y.len()) as int)[x.len() + i]);
        assert(s.take((x.len() + y.len()) as int)[x.len() + i] == s[x.len() + i]);
        assert(s.skip(x.len() as int).take(y.len() as int)[i] == s.skip(x.len() as int)[i]);
        assert(s.skip(x.len() as int)[i] == s[x.len() + i]);
    }
    assert(y =~= s.skip(x.len() as int).take(y.len() as int));
}

/// Two prefixes of one sequence: the shorter is a prefix of the longer.
pub proof fn lemma_common_prefix(p: Seq<u8>, q: Seq<u8>, s: Seq<u8>)
    requires
        p.len() <= q.len() <= s.len(),
        p == s.take(p.len() as int),
        q == s.take(q.len() as int),
    ensures
        p == q.take(p.len() as int),
{
    assert forall|i: int| 0 <= i < p.len() implies p[i] == q.take(p.len() as int)[i] by {
        assert(p[i] == s.take(p.len() as int)[i]);
        assert(q[i] == s.take(q.len() as int)[i]);
    }
    assert(p =~= q.take(p.len() as int));
}

/// Round trip: a well-formed value's encoding is decodable, and every
/// value decoded from it carries the same content.
pub proof fn lemma_round_trip<T: Wire>(v: T)
    requires
        v.valid(),
    ensures
        encodes::<T>(v.encoding()),
        forall|w: T| #[trigger] is_exact_encoding(w, v.encoding()) ==> w.same(&v),
{
    assert(is_exact_encoding(v, v.encoding()));
    assert forall|w: T| #[trigger] is_exact_encoding(w, v.encoding()) implies w.same(&v) by {
        w.lemma_same_iff_encoding(&v);
    }
}

/// Determinism: values that carry the same content serialize to the
/// same bytes and therefore to the same digest.
pub proof fn lemma_deterministic<T: Wire>(v1: T, v2: T)
    requires
        v1.valid(),
        v2.valid(),
        v1.same(&v2),
    ensures
        v1.encoding() == v2.encoding(),
        digest_of(v1.encoding()) == digest_of(v2.encoding()),
{
    v1.lemma_same_iff_encoding(&v2);
}

} // verus!
