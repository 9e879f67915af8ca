//! The lazy, memoizing, content-addressed reference.

use vstd::prelude::*;
use vstd::string::StringExecFns;

use crate::backend::void::VoidBackend;
use crate::backend::{blobs_wf, with_entry, Backend, BlobMap};
use crate::content::{
    encodes, is_exact_encoding, is_prefix_encoding, parses, Content, Sink, Source, Wire,
};
use crate::error::Error;
use crate::hash::{digest_of, hex_of, BlakeResultWrap};
use crate::store::{store_value, store_value_under};

verus! {

/// The lifecycle of a lazy reference.
pub enum State {
    /// Value present, digest unknown, not durably written.
    Bare,
    /// Value present, digest known, not durably written.
    Hashed,
    /// Digest known, value absent: constructed from persisted bytes.
    Lazy,
    /// Value present, digest known, durably written.
    Full,
}

/// A deferred, memoizing, content-addressed handle to a value of `T`.
///
/// A `Lazy` owns its cached value once materialized and never loses
/// previously computed state: once hashed, its digest does not change;
/// once stored, it is not stored again; once a value is materialized,
/// it is cached and never re-fetched. On the wire it encodes as the 32
/// digest bytes of its inner value, so graphs of values can share and
/// reference each other through storage.
pub struct Lazy<T> {
    state: State,
    value: Option<T>,
    digest: Option<BlakeResultWrap>,
}

impl<T: Wire> Lazy<T> {
    /// The lifecycle state.
    pub closed spec fn state_of(&self) -> State {
        self.state
    }

    /// The cached value, if present.
    pub closed spec fn value_of(&self) -> Option<T> {
        self.value
    }

    /// The cached digest, if already computed.
    pub closed spec fn cached_digest(&self) -> Option<BlakeResultWrap> {
        self.digest
    }

    /// Whether the value is present in memory.
    pub open spec fn has_value(&self) -> bool {
        self.value_of() is Some
    }

    /// The digest this reference stands for: the cached one if already
    /// computed, else the digest of the wrapped value's encoding.
    pub open spec fn digest_spec(&self) -> Seq<u8> {
        match self.cached_digest() {
            Some(d) => d@,
            None => match self.value_of() {
                Some(v) => digest_of(v.encoding()),
                None => Seq::<u8>::empty(),
            },
        }
    }

    /// The text rendering of this reference: its lifecycle state, and
    /// its digest in hexadecimal once one is known.
    pub open spec fn describe_spec(&self) -> Seq<char> {
        match self.state_of() {
            State::Bare => "bare"@,
            State::Hashed => "hashed "@ + hex_of(self.digest_spec()),
            State::Lazy => "lazy "@ + hex_of(self.digest_spec()),
            State::Full => "full "@ + hex_of(self.digest_spec()),
        }
    }

    /// Renders the lifecycle state, and the digest in hexadecimal once
    /// one is known.
    pub fn describe(&self) -> (r: String)
        requires
            self.valid(),
        ensures
            r@ == self.describe_spec(),
    {
        match self.state {
            State::Bare => String::from_str("bare"),
            State::Hashed => {
                let mut s = String::from_str("hashed ");
                let d = match &self.digest {
                    Some(d) => d,
                    None => vstd::pervasive::unreached(),
                };
                let h = d.to_hex();
                s.append(h.as_str());
                s
            },
            State::Lazy => {
                let mut s = String::from_str("lazy ");
                let d = match &self.digest {
                    Some(d) => d,
                    None => vstd::pervasive::unreached(),
                };
                let h = d.to_hex();
                s.append(h.as_str());
                s
            },
            State::Full => {
                let mut s = String::from_str("full ");
                let d = match &self.digest {
                    Some(d) => d,
                    None => vstd::pervasive::unreached(),
                };
                let h = d.to_hex();
                s.append(h.as_str());
                s
            },
        }
    }

    /// Wraps a value into a lazy reference in state `Bare`: value
    /// present, nothing hashed, nothing written.
    pub fn new(inner: T) -> (r: Lazy<T>)
        requires
            inner.valid(),
        ensures
            r.valid(),
            r.state_of() is Bare,
            r.value_of() == Some(inner),
            r.digest_spec() == digest_of(inner.encoding()),
    {
        Lazy { state: State::Bare, value: Some(inner), digest: None }
    }
}

/// The value slot is preserved: absent stays absent, present stays a
/// value of the same content and encoding.
pub open spec fn value_preserved<T: Wire>(pre: &Lazy<T>, post: &Lazy<T>) -> bool {
    match (pre.value_of(), post.value_of()) {
        (Some(a), Some(b)) => b.valid() && b.encoding() == a.encoding() && b.same(&a),
        (None, None) => true,
        _ => false,
    }
}

/// A lazy reference left untouched preserves its value slot.
pub proof fn lemma_value_preserved_refl<T: Wire>(l: Lazy<T>)
    requires
        l.valid(),
    ensures
        value_preserved(&l, &l),
{
    match l.value_of() {
        Some(a) => {
            a.lemma_same_iff_encoding(&a);
        },
        None => {},
    }
}

/// Whenever a lazy reference holds its value, its digest is the digest
/// of that value's encoding.
pub proof fn lemma_digest_tracks_value<T: Wire>(l: Lazy<T>)
    requires
        l.valid(),
        l.has_value(),
    ensures
        match l.value_of() {
            Some(v) => l.digest_spec() == digest_of(v.encoding()),
            None => false,
        },
{
}

/// A well-formed lazy reference always encodes to exactly 32 bytes.
pub proof fn lemma_digest_spec_len<T: Wire>(l: Lazy<T>)
    requires
        l.valid(),
    ensures
        l.digest_spec().len() == 32,
{
}

/// Two lazy references wrapping values of the same content compare
/// equal by digest, whether or not either has been hashed or stored.
pub proof fn lemma_lazy_equality<T: Wire>(a: Lazy<T>, b: Lazy<T>)
    requires
        a.valid(),
        b.valid(),
        match (a.value_of(), b.value_of()) {
            (Some(x), Some(y)) => x.same(&y),
            _ => false,
        },
    ensures
        a.same(&b),
{
    match (a.value_of(), b.value_of()) {
        (Some(x), Some(y)) => {
            x.lemma_same_iff_encoding(&y);
            lemma_digest_tracks_value(a);
            lemma_digest_tracks_value(b);
        },
        _ => {},
    }
}

impl<T: Wire> Wire for Lazy<T> {
    /// A lazy reference encodes as its digest's raw 32 bytes.
    open spec fn encoding(&self) -> Seq<u8> {
        self.digest_spec()
    }

    open spec fn valid(&self) -> bool {
        match self.state_of() {
            State::Bare => {
                &&& self.cached_digest() is None
                &&& match self.value_of() {
                    Some(v) => v.valid(),
                    None => false,
                }
            },
            State::Hashed | State::Full => match self.cached_digest() {
                Some(d) => {
                    &&& d.wf()
                    &&& match self.value_of() {
                        Some(v) => v.valid() && d@ == digest_of(v.encoding()),
                        None => false,
                    }
                },
                None => false,
            },
            State::Lazy => {
                &&& self.value_of() is None
                &&& match self.cached_digest() {
                    Some(d) => d.wf(),
                    None => false,
                }
            },
        }
    }

    /// Lazy references are equal when their digests are equal, not when
    /// their in-memory slots look alike.
    open spec fn same(&self, other: &Self) -> bool {
        self.digest_spec() == other.digest_spec()
    }

    /// A freshly decoded reference carries only its digest: state
    /// `Lazy`, no value in memory.
    open spec fn fresh(&self) -> bool {
        self.state_of() is Lazy && self.value_of() is None
    }

    /// A reference not yet persisted promises its wrapped value's blob
    /// and, recursively, that value's own referents. One already
    /// persisted (or never materialized) promises nothing: serializing
    /// it again writes only its digest.
    open spec fn referents(&self) -> BlobMap {
        match self.state_of() {
            State::Bare | State::Hashed => match self.value_of() {
                Some(v) => with_entry(v.referents(), self.digest_spec(), v.encoding()),
                None => Map::empty(),
            },
            State::Lazy | State::Full => Map::empty(),
        }
    }

    proof fn lemma_prefix_free(&self, other: &Self) {
        lemma_digest_spec_len(*self);
        lemma_digest_spec_len(*other);
        assert(other.encoding().take(32) =~= other.encoding());
    }

    proof fn lemma_same_iff_encoding(&self, other: &Self) {
    }
}

impl<T: Content<VoidBackend>> Lazy<T> {
    /// Returns this reference's digest, computing it at most once.
    ///
    /// If the digest is already known it is returned from the cache,
    /// with nothing recomputed. If the state is `Bare`, the value is
    /// serialized through a discard backend purely to learn its digest:
    /// nothing is persisted, and the state moves to `Hashed`. This lets
    /// equality comparison and deduplication work before anything is
    /// ever written.
    pub fn hash(&mut self) -> (r: BlakeResultWrap)
        requires
            old(self).valid(),
        ensures
            final(self).valid(),
            r.wf(),
            r@ == old(self).digest_spec(),
            final(self).digest_spec() == old(self).digest_spec(),
            final(self).cached_digest() matches Some(d) && d@ == r@,
            value_preserved(old(self), final(self)),
            old(self).cached_digest() is Some ==> *final(self) == *old(self),
            old(self).state_of() is Bare ==> final(self).state_of() is Hashed,
            !(old(self).state_of() is Bare) ==> final(self).state_of() == old(self).state_of(),
    {
        match &self.digest {
            Some(d) => {
                proof {
                    lemma_value_preserved_refl(*old(self));
                }
                return d.clone();
            },
            None => {},
        }
        let digest = match &mut self.value {
            Some(v) => {
                let mut vb = VoidBackend;
                match store_value(v, &mut vb) {
                    Ok(d) => d,
                    Err(_) => vstd::pervasive::unreached(),
                }
            },
            None => vstd::pervasive::unreached(),
        };
        let r = digest.clone();
        self.digest = Some(digest);
        self.state = State::Hashed;
        r
    }
}

impl<T> Lazy<T> {
    /// Returns a reference to the wrapped value, fetching and
    /// reconstructing it from the backend at most once.
    ///
    /// If the value is present (states `Bare`, `Hashed`, `Full`) it is
    /// returned from the cache with no input/output at all. Only in
    /// state `Lazy` are the digest's bytes requested from the backend
    /// and decoded; the value is then cached and the state moves to
    /// `Full`. Failures of the backend or of decoding propagate
    /// unchanged.
    pub fn as_ref<B: Backend>(&mut self, backend: &B) -> (r: Result<&T, Error>) where
        T: Content<B>,

        requires
            old(self).valid(),
            old(self).has_value() || (backend.readable() && blobs_wf(backend.blobs())),
        ensures
            final(self).valid(),
            final(self).digest_spec() == old(self).digest_spec(),
            final(self).cached_digest() == old(self).cached_digest(),
            old(self).has_value() ==> *final(self) == *old(self),
            old(self).has_value() ==> r is Ok,
            !old(self).has_value() && backend.infallible() && backend.blobs().dom().contains(
                old(self).digest_spec(),
            ) && encodes::<T>(backend.blobs()[old(self).digest_spec()]) ==> r is Ok,
            match r {
                Ok(v) => {
                    &&& v.valid()
                    &&& final(self).has_value()
                    &&& final(self).value_of() == Some(*v)
                    &&& old(self).has_value() ==> old(self).value_of() == Some(*v)
                    &&& !old(self).has_value() ==> {
                        &&& backend.blobs().dom().contains(old(self).digest_spec())
                        &&& v.encoding() == backend.blobs()[old(self).digest_spec()]
                        &&& final(self).state_of() is Full
                    }
                },
                Err(e) => {
                    &&& !old(self).has_value()
                    &&& *final(self) == *old(self)
                    &&& match e {
                        Error::NotFound => !backend.blobs().dom().contains(
                            old(self).digest_spec(),
                        ),
                        Error::InvalidEncoding => backend.blobs().dom().contains(
                            old(self).digest_spec(),
                        ) && !encodes::<T>(backend.blobs()[old(self).digest_spec()]),
                        _ => !backend.infallible(),
                    }
                },
            },
    {
        if self.value.is_some() {
            return match &self.value {
                Some(v) => Ok(v),
                None => vstd::pervasive::unreached(),
            };
        }
        let bytes = {
            let digest_ref = match &self.digest {
                Some(d) => d,
                None => vstd::pervasive::unreached(),
            };
            match backend.request(digest_ref) {
                Ok(b) => b,
                Err(e) => {
                    return Err(e);
                },
            }
        };
        let ghost blob: Seq<u8> = bytes@;
        let mut source = Source::new(bytes);
        let v = match <T as Content<B>>::from_content(&mut source) {
            Ok(v) => v,
            Err(e) => {
                proof {
                    assert(source.all_bytes().skip(0) =~= blob);
                    if encodes::<T>(blob) {
                        let w = choose|w: T| is_exact_encoding(w, blob);
                        assert(blob.take(w.encoding().len() as int) =~= blob);
                        assert(is_prefix_encoding(w, blob));
                        assert(parses::<T>(blob));
                    }
                }
                return Err(e);
            },
        };
        if source.remaining() != 0 {
            proof {
                assert(v.encoding() == blob.subrange(0, source.position()));
                if encodes::<T>(blob) {
                    let w = choose|w: T| is_exact_encoding(w, blob);
                    assert(v.encoding() =~= w.encoding().take(v.encoding().len() as int));
                    v.lemma_prefix_free(&w);
                }
            }
            return Err(Error::InvalidEncoding);
        }
        proof {
            assert(v.encoding() =~= blob);
            assert(backend.blobs().dom().contains(old(self).digest_spec()));
        }
        self.value = Some(v);
        self.state = State::Full;
        match &self.value {
            Some(v) => Ok(v),
            None => vstd::pervasive::unreached(),
        }
    }
}

impl<T: Wire> Lazy<T> {
    /// A reference to the wrapped value if it is present in memory,
    /// without any input/output and without changing anything.
    pub fn try_value(&self) -> (r: Option<&T>)
        ensures
            match r {
                Some(v) => self.value_of() == Some(*v),
                None => !self.has_value(),
            },
    {
        match &self.value {
            Some(v) => Some(v),
            None => None,
        }
    }

    /// Consumes the reference and yields the wrapped value, fetching
    /// and reconstructing it from the backend if it was never
    /// materialized.
    pub fn into_inner<B: Backend>(self, backend: &B) -> (r: Result<T, Error>) where
        T: Content<B>,

        requires
            self.valid(),
            self.has_value() || (backend.readable() && blobs_wf(backend.blobs())),
        ensures
            self.has_value() ==> r is Ok,
            !self.has_value() && backend.infallible() && backend.blobs().dom().contains(
                self.digest_spec(),
            ) && encodes::<T>(backend.blobs()[self.digest_spec()]) ==> r is Ok,
            match r {
                Ok(v) => {
                    &&& v.valid()
                    &&& self.has_value() ==> self.value_of() == Some(v)
                    &&& !self.has_value() ==> backend.blobs().dom().contains(self.digest_spec())
                        && v.encoding() == backend.blobs()[self.digest_spec()]
                },
                Err(e) => {
                    &&& !self.has_value()
                    &&& match e {
                        Error::NotFound => !backend.blobs().dom().contains(self.digest_spec()),
                        Error::InvalidEncoding => backend.blobs().dom().contains(self.digest_spec())
                            && !encodes::<T>(backend.blobs()[self.digest_spec()]),
                        _ => !backend.infallible(),
                    }
                },
            },
    {
        let mut l = self;
        match l.as_ref(backend) {
            Ok(_) => {},
            Err(e) => {
                return Err(e);
            },
        }
        match l.value {
            Some(v) => Ok(v),
            None => vstd::pervasive::unreached(),
        }
    }
}

impl<B: Backend, T: Content<B>> Content<B> for Lazy<T> {
    /// Writes the digest's 32 bytes, persisting the wrapped value first
    /// if it has not been persisted yet: a write-once materialization.
    ///
    /// In states `Lazy` and `Full` only the cached digest is written,
    /// with no re-serialization and no backend traffic. In state `Bare`
    /// the value is serialized and stored through the real backend; in
    /// state `Hashed` it is stored under the digest already computed,
    /// which is reused, never recomputed.
    fn to_content(&mut self, sink: &mut Sink, backend: &mut B) -> (r: Result<(), Error>)
        ensures
            value_preserved(old(self), final(self)),
            final(self).digest_spec() == old(self).digest_spec(),
            (old(self).state_of() is Lazy || old(self).state_of() is Full)
                ==> final(backend).blobs() == old(backend).blobs() && *final(self) == *old(self),
            r is Ok ==> final(self).cached_digest() is Some,
            r is Ok && old(backend).keeps() && (old(self).state_of() is Bare || old(
                self,
            ).state_of() is Hashed) ==> final(backend).blobs().dom().contains(
                old(self).digest_spec(),
            ) && final(self).state_of() is Full,
    {
        match self.state {
            State::Lazy | State::Full => {
                let d = match &self.digest {
                    Some(d) => d,
                    None => vstd::pervasive::unreached(),
                };
                sink.write(d.as_ref());
                proof {
                    lemma_value_preserved_refl(*old(self));
                }
                Ok(())
            },
            State::Bare => {
                let d = match &mut self.value {
                    Some(v) => match store_value(v, backend) {
                        Ok(d) => d,
                        Err(e) => {
                            return Err(e);
                        },
                    },
                    None => vstd::pervasive::unreached(),
                };
                sink.write(d.as_ref());
                self.state = if backend.keeps_stored() {
                    State::Full
                } else {
                    State::Hashed
                };
                self.digest = Some(d);
                Ok(())
            },
            State::Hashed => {
                let d = match &self.digest {
                    Some(d) => d.clone(),
                    None => vstd::pervasive::unreached(),
                };
                match &mut self.value {
                    Some(v) => match store_value_under(v, &d, backend) {
                        Ok(_) => {},
                        Err(e) => {
                            return Err(e);
                        },
                    },
                    None => vstd::pervasive::unreached(),
                }
                sink.write(d.as_ref());
                self.state = if backend.keeps_stored() {
                    State::Full
                } else {
                    State::Hashed
                };
                Ok(())
            },
        }
    }

    /// Reads the 32 digest bytes off the wire and produces a reference
    /// in state `Lazy`: the inner value is not fetched.
    fn from_content(source: &mut Source) -> (r: Result<Self, Error>)
        ensures
            r matches Ok(l) ==> {
                &&& l.state_of() is Lazy
                &&& l.value_of() is None
                &&& l.cached_digest() matches Some(d) && d@ == old(source).all_bytes().subrange(
                    old(source).position(),
                    final(source).position(),
                )
            },
    {
        match source.read(32) {
            Ok(b) => {
                let d = BlakeResultWrap::from_bytes(b);
                let l = Lazy { state: State::Lazy, value: None, digest: Some(d) };
                proof {
                    assert(l.encoding() =~= old(source).all_bytes().subrange(
                        old(source).position(),
                        source.position(),
                    ));
                }
                Ok(l)
            },
            Err(e) => {
                proof {
                    let s = old(source).remaining_bytes();
                    assert(s.len() < 32);
                    assert forall|v: Lazy<T>| !is_prefix_encoding(v, s) by {
                        if v.valid() {
                            lemma_digest_spec_len(v);
                        }
                    }
                    assert(!parses::<Lazy<T>>(s));
                }
                Err(e)
            },
        }
    }
}

} // verus!
