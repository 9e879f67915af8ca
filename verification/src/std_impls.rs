//! Codec implementations for common standard types.

use vstd::prelude::*;

use crate::backend::{with_entry, Backend, BlobMap};
use crate::content::{
    is_prefix_encoding, lemma_concat_prefix_head, lemma_concat_prefix_tail, lemma_common_prefix,
    parses, Content, Sink, Source, Wire,
};
use crate::error::Error;

verus! {

impl Wire for u8 {
    open spec fn encoding(&self) -> Seq<u8> {
        seq![*self]
    }

    open spec fn valid(&self) -> bool {
        true
    }

    open spec fn same(&self, other: &Self) -> bool {
        *self == *other
    }

    open spec fn fresh(&self) -> bool {
        true
    }

    /// A plain value stores nothing besides its own bytes.
    open spec fn referents(&self) -> BlobMap {
        Map::empty()
    }

    proof fn lemma_prefix_free(&self, other: &Self) {
        assert(other.encoding().take(1) =~= other.encoding());
    }

    proof fn lemma_same_iff_encoding(&self, other: &Self) {
        if self.encoding() == other.encoding() {
            assert(*self == other.encoding()[0]);
        }
        if *self == *other {
            assert(self.encoding() =~= other.encoding());
        }
    }
}

impl<B: Backend> Content<B> for u8 {
    fn to_content(&mut self, sink: &mut Sink, backend: &mut B) -> (r: Result<(), Error>) {
        let mut buf: Vec<u8> = Vec::new();
        buf.push(*self);
        sink.write(buf.as_slice());
        proof {
            assert(old(sink)@ + buf@ =~= old(sink)@ + self.encoding());
        }
        Ok(())
    }

    fn from_content(source: &mut Source) -> (r: Result<Self, Error>) {
        match source.read(1) {
            Ok(b) => {
                proof {
                    assert(b@.len() == 1);
                }
                let x = b[0];
                proof {
                    assert(x.encoding() =~= old(source).all_bytes().subrange(
                        old(source).position(),
                        source.position(),
                    ));
                }
                Ok(x)
            },
            Err(e) => {
                proof {
                    let s = old(source).remaining_bytes();
                    assert(s.len() == 0);
                    assert forall|v: u8| !is_prefix_encoding(v, s) by {
                        assert(v.encoding().len() == 1);
                    }
                    assert(!parses::<u8>(s));
                }
                Err(e)
            },
        }
    }
}

/// The big-endian two-byte encoding of a 16-bit integer.
pub open spec fn be_bytes_u16(v: u16) -> Seq<u8> {
    seq![(v >> 8) as u8, v as u8]
}

/// The big-endian four-byte encoding of a 32-bit integer.
pub open spec fn be_bytes_u32(v: u32) -> Seq<u8> {
    seq![(v >> 24) as u8, (v >> 16) as u8, (v >> 8) as u8, v as u8]
}

/// The big-endian eight-byte encoding of a 64-bit integer.
pub open spec fn be_bytes_u64(v: u64) -> Seq<u8> {
    seq![
        (v >> 56) as u8,
        (v >> 48) as u8,
        (v >> 40) as u8,
        (v >> 32) as u8,
        (v >> 24) as u8,
        (v >> 16) as u8,
        (v >> 8) as u8,
        v as u8,
    ]
}

impl Wire for u16 {
    open spec fn encoding(&self) -> Seq<u8> {
        be_bytes_u16(*self)
    }

    open spec fn valid(&self) -> bool {
        true
    }

    open spec fn same(&self, other: &Self) -> bool {
        *self == *other
    }

    open spec fn fresh(&self) -> bool {
        true
    }

    /// A plain value stores nothing besides its own bytes.
    open spec fn referents(&self) -> BlobMap {
        Map::empty()
    }

    proof fn lemma_prefix_free(&self, other: &Self) {
        assert(other.encoding().take(2) =~= other.encoding());
    }

    proof fn lemma_same_iff_encoding(&self, other: &Self) {
        let a = *self;
        let b = *other;
        if a.encoding() == b.encoding() {
            assert(a.encoding()[0] == b.encoding()[0] && a.encoding()[1] == b.encoding()[1]);
            assert(((a >> 8) as u8 == (b >> 8) as u8 && a as u8 == b as u8) ==> a == b)
                by (bit_vector);
        }
        if a == b {
            assert(a.encoding() =~= b.encoding());
        }
    }
}

impl<B: Backend> Content<B> for u16 {
    fn to_content(&mut self, sink: &mut Sink, backend: &mut B) -> (r: Result<(), Error>) {
        let mut buf: Vec<u8> = Vec::new();
        buf.push((*self >> 8) as u8);
        buf.push(*self as u8);
        sink.write(buf.as_slice());
        proof {
            assert(buf@ =~= self.encoding());
        }
        Ok(())
    }

    fn from_content(source: &mut Source) -> (r: Result<Self, Error>) {
        match source.read(2) {
            Ok(b) => {
                proof {
                    assert(b@.len() == 2);
                }
                let x0 = b[0];
                let x1 = b[1];
                let v = ((x0 as u16) << 8) | (x1 as u16);
                proof {
                    assert((((((x0 as u16) << 8) | (x1 as u16)) >> 8) as u8 == x0) && ((((
                    x0 as u16) << 8) | (x1 as u16)) as u8 == x1)) by (bit_vector);
                    assert(v.encoding() =~= old(source).all_bytes().subrange(
                        old(source).position(),
                        source.position(),
                    ));
                }
                Ok(v)
            },
            Err(e) => {
                proof {
                    let s = old(source).remaining_bytes();
                    assert forall|v: u16| !is_prefix_encoding(v, s) by {
                        assert(v.encoding().len() == 2);
                    }
                    assert(!parses::<u16>(s));
                }
                Err(e)
            },
        }
    }
}

impl Wire for u32 {
    open spec fn encoding(&self) -> Seq<u8> {
        be_bytes_u32(*self)
    }

    open spec fn valid(&self) -> bool {
        true
    }

    open spec fn same(&self, other: &Self) -> bool {
        *self == *other
    }

    open spec fn fresh(&self) -> bool {
        true
    }

    /// A plain value stores nothing besides its own bytes.
    open spec fn referents(&self) -> BlobMap {
        Map::empty()
    }

    proof fn lemma_prefix_free(&self, other: &Self) {
        assert(other.encoding().take(4) =~= other.encoding());
    }

    proof fn lemma_same_iff_encoding(&self, other: &Self) {
        let a = *self;
        let b = *other;
        if a.encoding() == b.encoding() {
            assert(forall|i: int| 0 <= i < 4 ==> a.encoding()[i] == b.encoding()[i]);
            assert(((a >> 24) as u8 == (b >> 24) as u8 && (a >> 16) as u8 == (b >> 16) as u8 && (a
                >> 8) as u8 == (b >> 8) as u8 && a as u8 == b as u8) ==> a == b) by (bit_vector);
        }
        if a == b {
            assert(a.encoding() =~= b.encoding());
        }
    }
}

impl<B: Backend> Content<B> for u32 {
    fn to_content(&mut self, sink: &mut Sink, backend: &mut B) -> (r: Result<(), Error>) {
        let mut buf: Vec<u8> = Vec::new();
        buf.push((*self >> 24) as u8);
        buf.push((*self >> 16) as u8);
        buf.push((*self >> 8) as u8);
        buf.push(*self as u8);
        sink.write(buf.as_slice());
        proof {
            assert(buf@ =~= self.encoding());
        }
        Ok(())
    }

    fn from_content(source: &mut Source) -> (r: Result<Self, Error>) {
        match source.read(4) {
            Ok(b) => {
                proof {
                    assert(b@.len() == 4);
                }
                let x0 = b[0];
                let x1 = b[1];
                let x2 = b[2];
                let x3 = b[3];
                let v = ((x0 as u32) << 24) | ((x1 as u32) << 16) | ((x2 as u32) << 8) | (
                x3 as u32);
                proof {
                    let w = ((x0 as u32) << 24) | ((x1 as u32) << 16) | ((x2 as u32) << 8) | (
                    x3 as u32);
                    assert(((w >> 24) as u8 == x0) && ((w >> 16) as u8 == x1) && ((w >> 8) as u8
                        == x2) && (w as u8 == x3)) by (bit_vector)
                        requires
                            w == ((x0 as u32) << 24) | ((x1 as u32) << 16) | ((x2 as u32) << 8) | (
                            x3 as u32),
                    ;
                    assert(v.encoding() =~= old(source).all_bytes().subrange(
                        old(source).position(),
                        source.position(),
                    ));
                }
                Ok(v)
            },
            Err(e) => {
                proof {
                    let s = old(source).remaining_bytes();
                    assert forall|v: u32| !is_prefix_encoding(v, s) by {
                        assert(v.encoding().len() == 4);
                    }
                    assert(!parses::<u32>(s));
                }
                Err(e)
            },
        }
    }
}

impl Wire for u64 {
    open spec fn encoding(&self) -> Seq<u8> {
        be_bytes_u64(*self)
    }

    open spec fn valid(&self) -> bool {
        true
    }

    open spec fn same(&self, other: &Self) -> bool {
        *self == *other
    }

    open spec fn fresh(&self) -> bool {
        true
    }

    /// A plain value stores nothing besides its own bytes.
    open spec fn referents(&self) -> BlobMap {
        Map::empty()
    }

    proof fn lemma_prefix_free(&self, other: &Self) {
        assert(other.encoding().take(8) =~= other.encoding());
    }

    proof fn lemma_same_iff_encoding(&self, other: &Self) {
        let a = *self;
        let b = *other;
        if a.encoding() == b.encoding() {
            assert(forall|i: int| 0 <= i < 8 ==> a.encoding()[i] == b.encoding()[i]);
            assert(((a >> 56) as u8 == (b >> 56) as u8 && (a >> 48) as u8 == (b >> 48) as u8 && (a
                >> 40) as u8 == (b >> 40) as u8 && (a >> 32) as u8 == (b >> 32) as u8 && (a
                >> 24) as u8 == (b >> 24) as u8 && (a >> 16) as u8 == (b >> 16) as u8 && (a
                >> 8) as u8 == (b >> 8) as u8 && a as u8 == b as u8) ==> a == b) by (bit_vector);
        }
        if a == b {
            assert(a.encoding() =~= b.encoding());
        }
    }
}

impl<B: Backend> Content<B> for u64 {
    fn to_content(&mut self, sink: &mut Sink, backend: &mut B) -> (r: Result<(), Error>) {
        let mut buf: Vec<u8> = Vec::new();
        buf.push((*self >> 56) as u8);
        buf.push((*self >> 48) as u8);
        buf.push((*self >> 40) as u8);
        buf.push((*self >> 32) as u8);
        buf.push((*self >> 24) as u8);
        buf.push((*self >> 16) as u8);
        buf.push((*self >> 8) as u8);
        buf.push(*self as u8);
        sink.write(buf.as_slice());
        proof {
            assert(buf@ =~= self.encoding());
        }
        Ok(())
    }

    fn from_content(source: &mut Source) -> (r: Result<Self, Error>) {
        match source.read(8) {
            Ok(b) => {
                proof {
                    assert(b@.len() == 8);
                }
                let x0 = b[0];
                let x1 = b[1];
                let x2 = b[2];
                let x3 = b[3];
                let x4 = b[4];
                let x5 = b[5];
                let x6 = b[6];
                let x7 = b[7];
                let v = ((x0 as u64) << 56) | ((x1 as u64) << 48) | ((x2 as u64) << 40) | ((
                x3 as u64) << 32) | ((x4 as u64) << 24) | ((x5 as u64) << 16) | ((x6 as u64) << 8)
                    | (x7 as u64);
                proof {
                    let w = ((x0 as u64) << 56) | ((x1 as u64) << 48) | ((x2 as u64) << 40) | ((
                    x3 as u64) << 32) | ((x4 as u64) << 24) | ((x5 as u64) << 16) | ((x6 as u64)
                        << 8) | (x7 as u64);
                    assert(((w >> 56) as u8 == x0) && ((w >> 48) as u8 == x1) && ((w >> 40) as u8
                        == x2) && ((w >> 32) as u8 == x3) && ((w >> 24) as u8 == x4) && ((w
                        >> 16) as u8 == x5) && ((w >> 8) as u8 == x6) && (w as u8 == x7))
                        by (bit_vector)
                        requires
                            w == ((x0 as u64) << 56) | ((x1 as u64) << 48) | ((x2 as u64) << 40)
                                | ((x3 as u64) << 32) | ((x4 as u64) << 24) | ((x5 as u64) << 16)
                                | ((x6 as u64) << 8) | (x7 as u64),
                    ;
                    assert(v.encoding() =~= old(source).all_bytes().subrange(
                        old(source).position(),
                        source.position(),
                    ));
                }
                Ok(v)
            },
            Err(e) => {
                proof {
                    let s = old(source).remaining_bytes();
                    assert forall|v: u64| !is_prefix_encoding(v, s) by {
                        assert(v.encoding().len() == 8);
                    }
                    assert(!parses::<u64>(s));
                }
                Err(e)
            },
        }
    }
}

impl Wire for () {
    /// The unit value encodes to nothing at all.
    open spec fn encoding(&self) -> Seq<u8> {
        Seq::empty()
    }

    open spec fn valid(&self) -> bool {
        true
    }

    open spec fn same(&self, other: &Self) -> bool {
        true
    }

    open spec fn fresh(&self) -> bool {
        true
    }

    /// A plain value stores nothing besides its own bytes.
    open spec fn referents(&self) -> BlobMap {
        Map::empty()
    }

    proof fn lemma_prefix_free(&self, other: &Self) {
        assert(self.encoding() =~= other.encoding());
    }

    proof fn lemma_same_iff_encoding(&self, other: &Self) {
        assert(self.encoding() =~= other.encoding());
    }
}

impl<B: Backend> Content<B> for () {
    fn to_content(&mut self, sink: &mut Sink, backend: &mut B) -> (r: Result<(), Error>) {
        proof {
            assert(old(sink)@ + self.encoding() =~= old(sink)@);
        }
        Ok(())
    }

    fn from_content(source: &mut Source) -> (r: Result<Self, Error>) {
        proof {
            assert(().encoding() =~= old(source).all_bytes().subrange(
                old(source).position(),
                old(source).position(),
            ));
        }
        Ok(())
    }
}

impl Wire for i16 {
    /// A signed integer encodes as the big-endian bytes of its
    /// two's-complement bit pattern.
    open spec fn encoding(&self) -> Seq<u8> {
        be_bytes_u16(*self as u16)
    }

    open spec fn valid(&self) -> bool {
        true
    }

    open spec fn same(&self, other: &Self) -> bool {
        *self == *other
    }

    open spec fn fresh(&self) -> bool {
        true
    }

    /// A plain value stores nothing besides its own bytes.
    open spec fn referents(&self) -> BlobMap {
        Map::empty()
    }

    proof fn lemma_prefix_free(&self, other: &Self) {
        assert(other.encoding().take(2) =~= other.encoding());
    }

    proof fn lemma_same_iff_encoding(&self, other: &Self) {
        let a = *self;
        let b = *other;
        if a.encoding() == b.encoding() {
            assert(a.encoding()[0] == b.encoding()[0] && a.encoding()[1] == b.encoding()[1]);
            assert((((a as u16) >> 8) as u8 == ((b as u16) >> 8) as u8 && (a as u16) as u8 == (
            b as u16) as u8) ==> a == b) by (bit_vector);
        }
        if a == b {
            assert(a.encoding() =~= b.encoding());
        }
    }
}

impl<B: Backend> Content<B> for i16 {
    fn to_content(&mut self, sink: &mut Sink, backend: &mut B) -> (r: Result<(), Error>) {
        let mut u = *self as u16;
        <u16 as Content<B>>::to_content(&mut u, sink, backend)
    }

    fn from_content(source: &mut Source) -> (r: Result<Self, Error>) {
        match <u16 as Content<B>>::from_content(source) {
            Ok(u) => {
                let v = u as i16;
                proof {
                    assert((u as i16) as u16 == u) by (bit_vector);
                    assert(v.encoding() == u.encoding());
                }
                Ok(v)
            },
            Err(e) => {
                proof {
                    let s = old(source).remaining_bytes();
                    assert forall|v: i16| !is_prefix_encoding(v, s) by {
                        if is_prefix_encoding(v, s) {
                            let u = v as u16;
                            assert(u.encoding() == v.encoding());
                            assert(is_prefix_encoding(u, s));
                            assert(parses::<u16>(s));
                        }
                    }
                    assert(!parses::<i16>(s));
                }
                Err(e)
            },
        }
    }
}

impl Wire for i32 {
    /// A signed integer encodes as the big-endian bytes of its
    /// two's-complement bit pattern.
    open spec fn encoding(&self) -> Seq<u8> {
        be_bytes_u32(*self as u32)
    }

    open spec fn valid(&self) -> bool {
        true
    }

    open spec fn same(&self, other: &Self) -> bool {
        *self == *other
    }

    open spec fn fresh(&self) -> bool {
        true
    }

    /// A plain value stores nothing besides its own bytes.
    open spec fn referents(&self) -> BlobMap {
        Map::empty()
    }

    proof fn lemma_prefix_free(&self, other: &Self) {
        assert(other.encoding().take(4) =~= other.encoding());
    }

    proof fn lemma_same_iff_encoding(&self, other: &Self) {
        let a = *self;
        let b = *other;
        if a.encoding() == b.encoding() {
            let au = a as u32;
            let bu = b as u32;
            au.lemma_same_iff_encoding(&bu);
            assert((a as u32) == (b as u32) ==> a == b) by (bit_vector);
        }
        if a == b {
            assert(a.encoding() =~= b.encoding());
        }
    }
}

impl<B: Backend> Content<B> for i32 {
    fn to_content(&mut self, sink: &mut Sink, backend: &mut B) -> (r: Result<(), Error>) {
        let mut u = *self as u32;
        <u32 as Content<B>>::to_content(&mut u, sink, backend)
    }

    fn from_content(source: &mut Source) -> (r: Result<Self, Error>) {
        match <u32 as Content<B>>::from_content(source) {
            Ok(u) => {
                let v = u as i32;
                proof {
                    assert((u as i32) as u32 == u) by (bit_vector);
                    assert(v.encoding() == u.encoding());
                }
                Ok(v)
            },
            Err(e) => {
                proof {
                    let s = old(source).remaining_bytes();
                    assert forall|v: i32| !is_prefix_encoding(v, s) by {
                        if is_prefix_encoding(v, s) {
                            let u = v as u32;
                            assert(u.encoding() == v.encoding());
                            assert(is_prefix_encoding(u, s));
                            assert(parses::<u32>(s));
                        }
                    }
                    assert(!parses::<i32>(s));
                }
                Err(e)
            },
        }
    }
}

impl Wire for i64 {
    /// A signed integer encodes as the big-endian bytes of its
    /// two's-complement bit pattern.
    open spec fn encoding(&self) -> Seq<u8> {
        be_bytes_u64(*self as u64)
    }

    open spec fn valid(&self) -> bool {
        true
    }

    open spec fn same(&self, other: &Self) -> bool {
        *self == *other
    }

    open spec fn fresh(&self) -> bool {
        true
    }

    /// A plain value stores nothing besides its own bytes.
    open spec fn referents(&self) -> BlobMap {
        Map::empty()
    }

    proof fn lemma_prefix_free(&self, other: &Self) {
        assert(other.encoding().take(8) =~= other.encoding());
    }

    proof fn lemma_same_iff_encoding(&self, other: &Self) {
        let a = *self;
        let b = *other;
        if a.encoding() == b.encoding() {
            let au = a as u64;
            let bu = b as u64;
            au.lemma_same_iff_encoding(&bu);
            assert((a as u64) == (b as u64) ==> a == b) by (bit_vector);
        }
        if a == b {
            assert(a.encoding() =~= b.encoding());
        }
    }
}

impl<B: Backend> Content<B> for i64 {
    fn to_content(&mut self, sink: &mut Sink, backend: &mut B) -> (r: Result<(), Error>) {
        let mut u = *self as u64;
        <u64 as Content<B>>::to_content(&mut u, sink, backend)
    }

    fn from_content(source: &mut Source) -> (r: Result<Self, Error>) {
        match <u64 as Content<B>>::from_content(source) {
            Ok(u) => {
                let v = u as i64;
                proof {
                    assert((u as i64) as u64 == u) by (bit_vector);
                    assert(v.encoding() == u.encoding());
                }
                Ok(v)
            },
            Err(e) => {
                proof {
                    let s = old(source).remaining_bytes();
                    assert forall|v: i64| !is_prefix_encoding(v, s) by {
                        if is_prefix_encoding(v, s) {
                            let u = v as u64;
                            assert(u.encoding() == v.encoding());
                            assert(is_prefix_encoding(u, s));
                            assert(parses::<u64>(s));
                        }
                    }
                    assert(!parses::<i64>(s));
                }
                Err(e)
            },
        }
    }
}

impl<T: Wire> Wire for Option<T> {
    /// One presence byte, 0 for absent and 1 for present, followed by
    /// the inner encoding if present.
    open spec fn encoding(&self) -> Seq<u8> {
        match *self {
            None => seq![0u8],
            Some(t) => seq![1u8] + t.encoding(),
        }
    }

    open spec fn valid(&self) -> bool {
        match *self {
            None => true,
            Some(t) => t.valid(),
        }
    }

    open spec fn same(&self, other: &Self) -> bool {
        match (*self, *other) {
            (None, None) => true,
            (Some(a), Some(b)) => a.same(&b),
            _ => false,
        }
    }

    open spec fn fresh(&self) -> bool {
        match *self {
            None => true,
            Some(t) => t.fresh(),
        }
    }

    /// An optional value promises its inner value's entries, if any.
    open spec fn referents(&self) -> BlobMap {
        match *self {
            None => Map::empty(),
            Some(t) => t.referents(),
        }
    }

    proof fn lemma_prefix_free(&self, other: &Self) {
        match (*self, *other) {
            (None, None) => {
                assert(other.encoding().take(1) =~= other.encoding());
            },
            (Some(a), Some(b)) => {
                lemma_concat_prefix_tail(seq![1u8], a.encoding(), other.encoding());
                assert(other.encoding().skip(1) =~= b.encoding());
                a.lemma_prefix_free(&b);
                assert(self.encoding() =~= other.encoding());
            },
            (None, Some(b)) => {
                assert(self.encoding()[0] == 0);
                let oi: u8 = other.encoding()[0];
                assert(other.encoding().take(self.encoding().len() as int)[0] == oi);
                assert(oi == 1);
            },
            (Some(a), None) => {
                assert(self.encoding()[0] == 1);
                let oi: u8 = other.encoding()[0];
                assert(other.encoding().take(self.encoding().len() as int)[0] == oi);
                assert(oi == 0);
            },
        }
    }

    proof fn lemma_same_iff_encoding(&self, other: &Self) {
        match (*self, *other) {
            (None, None) => {
                assert(self.encoding() =~= other.encoding());
            },
            (Some(a), Some(b)) => {
                a.lemma_same_iff_encoding(&b);
                if a.encoding() == b.encoding() {
                    assert(self.encoding() =~= other.encoding());
                }
                if self.encoding() == other.encoding() {
                    assert(self.encoding() == seq![1u8] + a.encoding());
                    assert(other.encoding() == seq![1u8] + b.encoding());
                    assert((seq![1u8] + a.encoding()).len() == 1 + a.encoding().len());
                    assert((seq![1u8] + b.encoding()).len() == 1 + b.encoding().len());
                    assert(a.encoding().len() == b.encoding().len());
                    assert forall|i: int| 0 <= i < a.encoding().len() implies a.encoding()[i]
                        == b.encoding()[i] by {
                        assert((seq![1u8] + a.encoding())[i + 1] == a.encoding()[i]);
                        assert((seq![1u8] + b.encoding())[i + 1] == b.encoding()[i]);
                    }
                    assert(a.encoding() =~= b.encoding());
                }
            },
            (None, Some(b)) => {
                if self.encoding() == other.encoding() {
                    assert(self.encoding()[0] == 0);
                    assert(other.encoding()[0] == 1);
                }
            },
            (Some(a), None) => {
                if self.encoding() == other.encoding() {
                    assert(self.encoding()[0] == 1);
                    assert(other.encoding()[0] == 0);
                }
            },
        }
    }
}

impl<B: Backend, T: Content<B>> Content<B> for Option<T> {
    fn to_content(&mut self, sink: &mut Sink, backend: &mut B) -> (r: Result<(), Error>) {
        match self {
            None => {
                let mut buf: Vec<u8> = Vec::new();
                buf.push(0u8);
                sink.write(buf.as_slice());
                proof {
                    assert(old(sink)@ + buf@ =~= old(sink)@ + self.encoding());
                }
                Ok(())
            },
            Some(t) => {
                let ghost t0 = *t;
                let mut buf: Vec<u8> = Vec::new();
                buf.push(1u8);
                sink.write(buf.as_slice());
                match t.to_content(sink, backend) {
                    Ok(_) => {
                        proof {
                            assert((old(sink)@ + buf@) + t0.encoding() =~= old(sink)@ + (seq![1u8]
                                + t0.encoding()));
                        }
                        Ok(())
                    },
                    Err(e) => Err(e),
                }
            },
        }
    }

    fn from_content(source: &mut Source) -> (r: Result<Self, Error>) {
        let ghost s = old(source).remaining_bytes();
        let tag = match source.read(1) {
            Ok(b) => {
                proof {
                    assert(b@.len() == 1);
                }
                b[0]
            },
            Err(e) => {
                proof {
                    assert(s.len() == 0);
                    assert forall|v: Option<T>| !is_prefix_encoding(v, s) by {
                        assert(v.encoding().len() >= 1);
                    }
                    assert(!parses::<Option<T>>(s));
                }
                return Err(e);
            },
        };
        proof {
            assert(s[0] == tag);
        }
        if tag == 0 {
            let r: Option<T> = None;
            proof {
                assert(r.encoding() =~= old(source).all_bytes().subrange(
                    old(source).position(),
                    source.position(),
                ));
            }
            Ok(r)
        } else if tag == 1 {
            let ghost pos1 = source.position();
            match <T as Content<B>>::from_content(source) {
                Ok(t) => {
                    let r = Some(t);
                    proof {
                        assert(r.encoding() =~= old(source).all_bytes().subrange(
                            old(source).position(),
                            source.position(),
                        ));
                    }
                    Ok(r)
                },
                Err(e) => {
                    proof {
                        let s1 = old(source).all_bytes().skip(pos1);
                        assert(s1 =~= s.skip(1));
                        assert forall|v: Option<T>| !is_prefix_encoding(v, s) by {
                            if is_prefix_encoding(v, s) {
                                match v {
                                    None => {
                                        assert(v.encoding()[0] == 0);
                                        assert(s.take(v.encoding().len() as int)[0] == s[0]);
                                    },
                                    Some(w) => {
                                        lemma_concat_prefix_tail(seq![1u8], w.encoding(), s);
                                        assert(is_prefix_encoding(w, s.skip(1)));
                                        assert(parses::<T>(s.skip(1)));
                                    },
                                }
                            }
                        }
                        assert(!parses::<Option<T>>(s));
                    }
                    Err(e)
                },
            }
        } else {
            proof {
                assert forall|v: Option<T>| !is_prefix_encoding(v, s) by {
                    if is_prefix_encoding(v, s) {
                        match v {
                            None => {
                                assert(v.encoding()[0] == 0);
                                assert(v.encoding()[0] == s.take(v.encoding().len() as int)[0]);
                            },
                            Some(w) => {
                                assert(v.encoding()[0] == 1);
                                assert(v.encoding()[0] == s.take(v.encoding().len() as int)[0]);
                            },
                        }
                    }
                }
                assert(!parses::<Option<T>>(s));
            }
            Err(Error::InvalidEncoding)
        }
    }
}

impl<T: Wire> Wire for Box<T> {
    /// A box is transparent on the wire: it encodes exactly as its
    /// pointee, so a value and a boxed copy of it are indistinguishable
    /// once stored.
    open spec fn encoding(&self) -> Seq<u8> {
        (**self).encoding()
    }

    open spec fn valid(&self) -> bool {
        (**self).valid()
    }

    open spec fn same(&self, other: &Self) -> bool {
        (**self).same(&(**other))
    }

    open spec fn fresh(&self) -> bool {
        (**self).fresh()
    }

    /// A box promises exactly its pointee's entries.
    open spec fn referents(&self) -> BlobMap {
        (**self).referents()
    }

    proof fn lemma_prefix_free(&self, other: &Self) {
        (**self).lemma_prefix_free(&(**other));
    }

    proof fn lemma_same_iff_encoding(&self, other: &Self) {
        (**self).lemma_same_iff_encoding(&(**other));
    }
}

impl<B: Backend, T: Content<B>> Content<B> for Box<T> {
    fn to_content(&mut self, sink: &mut Sink, backend: &mut B) -> (r: Result<(), Error>) {
        (**self).to_content(sink, backend)
    }

    fn from_content(source: &mut Source) -> (r: Result<Self, Error>) {
        match <T as Content<B>>::from_content(source) {
            Ok(t) => {
                let b = Box::new(t);
                proof {
                    assert(b.encoding() == t.encoding());
                }
                Ok(b)
            },
            Err(e) => {
                proof {
                    let s = old(source).remaining_bytes();
                    assert forall|v: Box<T>| !is_prefix_encoding(v, s) by {
                        if is_prefix_encoding(v, s) {
                            assert(is_prefix_encoding(*v, s));
                            assert(parses::<T>(s));
                        }
                    }
                    assert(!parses::<Box<T>>(s));
                }
                Err(e)
            },
        }
    }
}

impl<A: Wire, C: Wire> Wire for (A, C) {
    /// A composite value encodes as the concatenation of its members'
    /// encodings in order, with no separators and no length prefix.
    open spec fn encoding(&self) -> Seq<u8> {
        self.0.encoding() + self.1.encoding()
    }

    open spec fn valid(&self) -> bool {
        self.0.valid() && self.1.valid()
    }

    open spec fn same(&self, other: &Self) -> bool {
        self.0.same(&other.0) && self.1.same(&other.1)
    }

    open spec fn fresh(&self) -> bool {
        self.0.fresh() && self.1.fresh()
    }

    /// A composite promises both members' entries. The first member is
    /// written first, so where both promise the same digest, the first
    /// member's entry is the one that lands.
    open spec fn referents(&self) -> BlobMap {
        self.1.referents().union_prefer_right(self.0.referents())
    }

    proof fn lemma_prefix_free(&self, other: &Self) {
        let s = other.encoding();
        assert(s.take(other.0.encoding().len() as int) =~= other.0.encoding());
        lemma_concat_prefix_head(self.0.encoding(), self.1.encoding(), s);
        if self.0.encoding().len() <= other.0.encoding().len() {
            lemma_common_prefix(self.0.encoding(), other.0.encoding(), s);
            self.0.lemma_prefix_free(&other.0);
        } else {
            lemma_common_prefix(other.0.encoding(), self.0.encoding(), s);
            other.0.lemma_prefix_free(&self.0);
        }
        lemma_concat_prefix_tail(self.0.encoding(), self.1.encoding(), s);
        assert(s.skip(other.0.encoding().len() as int) =~= other.1.encoding());
        self.1.lemma_prefix_free(&other.1);
        assert(self.encoding() =~= other.encoding());
    }

    proof fn lemma_same_iff_encoding(&self, other: &Self) {
        self.0.lemma_same_iff_encoding(&other.0);
        self.1.lemma_same_iff_encoding(&other.1);
        if self.same(other) {
            assert(self.encoding() =~= other.encoding());
        }
        if self.encoding() == other.encoding() {
            let s = other.encoding();
            assert(self.encoding() == s.take(self.encoding().len() as int)) by {
                assert(s.take(self.encoding().len() as int) =~= s);
            }
            assert(s.take(other.0.encoding().len() as int) =~= other.0.encoding());
            lemma_concat_prefix_head(self.0.encoding(), self.1.encoding(), s);
            if self.0.encoding().len() <= other.0.encoding().len() {
                lemma_common_prefix(self.0.encoding(), other.0.encoding(), s);
                self.0.lemma_prefix_free(&other.0);
            } else {
                lemma_common_prefix(other.0.encoding(), self.0.encoding(), s);
                other.0.lemma_prefix_free(&self.0);
            }
            lemma_concat_prefix_tail(self.0.encoding(), self.1.encoding(), s);
            assert(s.skip(other.0.encoding().len() as int) =~= other.1.encoding());
            assert(self.1.encoding().len() == other.1.encoding().len());
            assert(self.1.encoding() =~= other.1.encoding()) by {
                assert(self.1.encoding() == other.1.encoding().take(
                    self.1.encoding().len() as int,
                ));
                assert(other.1.encoding().take(self.1.encoding().len() as int) =~= other.1
                    .encoding());
            }
        }
    }
}

impl<B: Backend, A: Content<B>, C: Content<B>> Content<B> for (A, C) {
    fn to_content(&mut self, sink: &mut Sink, backend: &mut B) -> (r: Result<(), Error>) {
        match self.0.to_content(sink, backend) {
            Ok(_) => {},
            Err(e) => {
                proof {
                    old(self).1.lemma_same_iff_encoding(&old(self).1);
                }
                return Err(e);
            },
        }
        match self.1.to_content(sink, backend) {
            Ok(_) => {},
            Err(e) => {
                return Err(e);
            },
        }
        proof {
            assert((old(sink)@ + old(self).0.encoding()) + old(self).1.encoding() =~= old(sink)@
                + (old(self).0.encoding() + old(self).1.encoding()));
        }
        Ok(())
    }

    fn from_content(source: &mut Source) -> (r: Result<Self, Error>) {
        let ghost s = old(source).remaining_bytes();
        let a = match <A as Content<B>>::from_content(source) {
            Ok(a) => a,
            Err(e) => {
                proof {
                    assert forall|v: (A, C)| !is_prefix_encoding(v, s) by {
                        if is_prefix_encoding(v, s) {
                            lemma_concat_prefix_head(v.0.encoding(), v.1.encoding(), s);
                            assert(is_prefix_encoding(v.0, s));
                            assert(parses::<A>(s));
                        }
                    }
                    assert(!parses::<(A, C)>(s));
                }
                return Err(e);
            },
        };
        let ghost posm = source.position();
        let ghost na = a.encoding().len() as int;
        proof {
            assert(a.encoding() =~= s.take(na));
        }
        match <C as Content<B>>::from_content(source) {
            Ok(c) => {
                let r = (a, c);
                proof {
                    assert(r.encoding() =~= old(source).all_bytes().subrange(
                        old(source).position(),
                        source.position(),
                    ));
                }
                Ok(r)
            },
            Err(e) => {
                proof {
                    assert(old(source).all_bytes().skip(posm) =~= s.skip(na));
                    assert forall|v: (A, C)| !is_prefix_encoding(v, s) by {
                        if is_prefix_encoding(v, s) {
                            lemma_concat_prefix_head(v.0.encoding(), v.1.encoding(), s);
                            if v.0.encoding().len() <= a.encoding().len() {
                                lemma_common_prefix(v.0.encoding(), a.encoding(), s);
                                v.0.lemma_prefix_free(&a);
                            } else {
                                lemma_common_prefix(a.encoding(), v.0.encoding(), s);
                                a.lemma_prefix_free(&v.0);
                            }
                            lemma_concat_prefix_tail(v.0.encoding(), v.1.encoding(), s);
                            assert(is_prefix_encoding(v.1, s.skip(na)));
                            assert(parses::<C>(s.skip(na)));
                        }
                    }
                    assert(!parses::<(A, C)>(s));
                }
                Err(e)
            },
        }
    }
}

} // verus!
