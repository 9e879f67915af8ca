//! The content digest and the streaming hasher that produces it.

use vstd::prelude::*;

verus! {

/// The number of bytes in a digest.
pub const DIGEST_LEN: usize = 32;

/// The Blake2b-256 digest of a byte sequence.
///
/// This is the mathematical function the whole store is keyed by: the
/// same bytes always give the same digest, in every process and on every
/// machine.
pub uninterp spec fn blake2b_256(data: Seq<u8>) -> Seq<u8>;

/// The digest of a byte sequence, shaped to its fixed 32-byte length.
///
/// All contracts speak of this function; it agrees pointwise with
/// [`blake2b_256`], whose 32-byte output length is stated by the one
/// trusted wrapper below.
pub open spec fn digest_of(data: Seq<u8>) -> Seq<u8> {
    Seq::new(32, |i: int| blake2b_256(data)[i])
}

/// Relies on `blake2_rfc::blake2b::blake2b` with a 32-byte output length
/// and an empty key: the digest is a function of the input bytes alone,
/// and `as_bytes` returns exactly the requested 32 bytes.
#[verifier::external_body]
fn blake2b_digest(data: &[u8]) -> (r: Vec<u8>)
    ensures
        r@ == blake2b_256(data@),
        r@.len() == 32,
{
    blake2_rfc::blake2b::blake2b(32, &[], data).as_bytes().to_vec()
}

/// A 32-byte content digest.
///
/// Equality is byte equality, and the derived hash fits it, so a
/// digest can key a map.
#[derive(Hash)]
pub struct BlakeResultWrap {
    bytes: Vec<u8>,
}

impl View for BlakeResultWrap {
    type V = Seq<u8>;

    closed spec fn view(&self) -> Seq<u8> {
        self.bytes@
    }
}

impl BlakeResultWrap {
    /// A digest always holds exactly [`DIGEST_LEN`] bytes.
    pub open spec fn wf(&self) -> bool {
        self@.len() == DIGEST_LEN
    }

    /// Wraps 32 raw bytes as a digest.
    pub fn from_bytes(bytes: Vec<u8>) -> (r: BlakeResultWrap)
        requires
            bytes@.len() == 32,
        ensures
            r@ == bytes@,
            r.wf(),
    {
        BlakeResultWrap { bytes }
    }

    /// The raw digest bytes.
    pub fn as_ref(&self) -> (r: &[u8])
        ensures
            r@ == self@,
    {
        self.bytes.as_slice()
    }

    /// The stable lowercase hexadecimal rendering of this digest.
    pub fn to_hex(&self) -> (r: String)
        ensures
            r@ == hex_of(self@),
    {
        hex_string(self.bytes.as_slice())
    }

    /// The three path components of the sharded on-disk layout: the
    /// hex of the first byte, the hex of the second, and the hex of
    /// the remaining thirty bytes as the file name.
    pub fn shard_components(&self) -> (r: (String, String, String))
        requires
            self.wf(),
        ensures
            r.0@ == hex_of(seq![self@[0]]),
            r.1@ == hex_of(seq![self@[1]]),
            r.2@ == hex_of(self@.skip(2)),
    {
        let mut v0: Vec<u8> = Vec::new();
        v0.push(self.bytes[0]);
        let mut v1: Vec<u8> = Vec::new();
        v1.push(self.bytes[1]);
        let mut rest: Vec<u8> = Vec::new();
        let n = self.bytes.len();
        let mut i: usize = 2;
        while i < n
            invariant
                2 <= i <= n,
                n == self.bytes@.len(),
                rest@ == self.bytes@.subrange(2, i as int),
            decreases n - i,
        {
            rest.push(self.bytes[i]);
            i += 1;
            proof {
                assert(rest@ =~= self.bytes@.subrange(2, i as int));
            }
        }
        proof {
            assert(v0@ =~= seq![self@[0]]);
            assert(v1@ =~= seq![self@[1]]);
            assert(rest@ =~= self@.skip(2));
        }
        (hex_string(v0.as_slice()), hex_string(v1.as_slice()), hex_string(rest.as_slice()))
    }
}

impl Clone for BlakeResultWrap {
    fn clone(&self) -> (r: Self)
        ensures
            r@ == self@,
            r.wf() == self.wf(),
    {
        BlakeResultWrap { bytes: self.bytes.clone() }
    }
}

impl PartialEq for BlakeResultWrap {
    fn eq(&self, other: &Self) -> (r: bool) {
        let n = self.bytes.len();
        if n != other.bytes.len() {
            return false;
        }
        let mut i: usize = 0;
        while i < n
            invariant
                n == self.bytes@.len(),
                n == other.bytes@.len(),
                i <= n,
                forall|j: int| 0 <= j < i ==> self.bytes@[j] == other.bytes@[j],
            decreases n - i,
        {
            if self.bytes[i] != other.bytes[i] {
                return false;
            }
            i += 1;
        }
        proof {
            assert(self.bytes@ =~= other.bytes@);
        }
        true
    }
}

impl Eq for BlakeResultWrap {}

impl vstd::std_specs::cmp::PartialEqSpecImpl for BlakeResultWrap {
    open spec fn obeys_eq_spec() -> bool {
        true
    }

    open spec fn eq_spec(&self, other: &Self) -> bool {
        self@ == other@
    }
}

/// A streaming hasher: bytes are fed in through `write` any number of
/// times, and `fin` consumes the hasher and yields the digest of the
/// whole stream. Because `fin` takes the hasher by value, writing after
/// finalization or finalizing twice is impossible by construction.
pub struct BlakeWrap {
    buf: Vec<u8>,
}

impl View for BlakeWrap {
    type V = Seq<u8>;

    closed spec fn view(&self) -> Seq<u8> {
        self.buf@
    }
}

impl BlakeWrap {
    /// A fresh hasher that has seen no bytes.
    pub fn new() -> (r: BlakeWrap)
        ensures
            r@ == Seq::<u8>::empty(),
    {
        BlakeWrap { buf: Vec::new() }
    }

    /// Feeds more bytes into the hasher.
    pub fn write(&mut self, data: &[u8])
        ensures
            final(self)@ == old(self)@ + data@,
    {
        let mut i: usize = 0;
        let n = data.len();
        while i < n
            invariant
                n == data@.len(),
                i <= n,
                self@ == old(self)@ + data@.take(i as int),
            decreases n - i,
        {
            self.buf.push(data[i]);
            i += 1;
            proof {
                assert(old(self)@ + data@.take(i as int) =~= (old(
                    self,
                )@ + data@.take(i - 1)).push(data@[i - 1]));
            }
        }
        proof {
            assert(data@.take(n as int) =~= data@);
        }
    }

    /// Consumes the hasher and returns the digest of everything written.
    pub fn fin(self) -> (r: BlakeResultWrap)
        ensures
            r@ == digest_of(self@),
            r.wf(),
    {
        let digest = blake2b_digest(self.buf.as_slice());
        proof {
            assert(digest@ =~= digest_of(self.buf@));
        }
        BlakeResultWrap::from_bytes(digest)
    }
}

/// The lowercase hexadecimal digit for a value below 16.
pub open spec fn hex_digit(n: u8) -> char
    recommends
        n < 16,
{
    if n == 0 {
        '0'
    } else if n == 1 {
        '1'
    } else if n == 2 {
        '2'
    } else if n == 3 {
        '3'
    } else if n == 4 {
        '4'
    } else if n == 5 {
        '5'
    } else if n == 6 {
        '6'
    } else if n == 7 {
        '7'
    } else if n == 8 {
        '8'
    } else if n == 9 {
        '9'
    } else if n == 10 {
        'a'
    } else if n == 11 {
        'b'
    } else if n == 12 {
        'c'
    } else if n == 13 {
        'd'
    } else if n == 14 {
        'e'
    } else {
        'f'
    }
}

/// The lowercase hexadecimal rendering of a byte sequence: two digits
/// for each byte, high nibble first.
pub open spec fn hex_of(s: Seq<u8>) -> Seq<char> {
    Seq::new(
        2 * s.len(),
        |i: int|
            if i % 2 == 0 {
                hex_digit(s[i / 2] >> 4)
            } else {
                hex_digit(s[i / 2] & 0x0f)
            },
    )
}

proof fn lemma_nibbles(b: u8)
    ensures
        b >> 4 < 16,
        (b & 0x0f) < 16,
{
    assert(b >> 4 < 16 && (b & 0x0f) < 16) by (bit_vector);
}

fn hex_str(n: u8) -> (r: &'static str)
    requires
        n < 16,
    ensures
        r@ == seq![hex_digit(n)],
{
    if n == 0 {
        proof {
            reveal_strlit("0");
        }
        let r = "0";
        proof {
            assert(r@ =~= seq![hex_digit(n)]);
        }
        r
    } else if n == 1 {
        proof {
            reveal_strlit("1");
        }
        let r = "1";
        proof {
            assert(r@ =~= seq![hex_digit(n)]);
        }
        r
    } else if n == 2 {
        proof {
            reveal_strlit("2");
        }
        let r = "2";
        proof {
            assert(r@ =~= seq![hex_digit(n)]);
        }
        r
    } else if n == 3 {
        proof {
            reveal_strlit("3");
        }
        let r = "3";
        proof {
            assert(r@ =~= seq![hex_digit(n)]);
        }
        r
    } else if n == 4 {
        proof {
            reveal_strlit("4");
        }
        let r = "4";
        proof {
            assert(r@ =~= seq![hex_digit(n)]);
        }
        r
    } else if n == 5 {
        proof {
            reveal_strlit("5");
        }
        let r = "5";
        proof {
            assert(r@ =~= seq![hex_digit(n)]);
        }
        r
    } else if n == 6 {
        proof {
            reveal_strlit("6");
        }
        let r = "6";
        proof {
            assert(r@ =~= seq![hex_digit(n)]);
        }
        r
    } else if n == 7 {
        proof {
            reveal_strlit("7");
        }
        let r = "7";
        proof {
            assert(r@ =~= seq![hex_digit(n)]);
        }
        r
    } else if n == 8 {
        proof {
            reveal_strlit("8");
        }
        let r = "8";
        proof {
            assert(r@ =~= seq![hex_digit(n)]);
        }
        r
    } else if n == 9 {
        proof {
            reveal_strlit("9");
        }
        let r = "9";
        proof {
            assert(r@ =~= seq![hex_digit(n)]);
        }
        r
    } else if n == 10 {
        proof {
            reveal_strlit("a");
        }
        let r = "a";
        proof {
            assert(r@ =~= seq![hex_digit(n)]);
        }
        r
    } else if n == 11 {
        proof {
            reveal_strlit("b");
        }
        let r = "b";
        proof {
            assert(r@ =~= seq![hex_digit(n)]);
        }
        r
    } else if n == 12 {
        proof {
            reveal_strlit("c");
        }
        let r = "c";
        proof {
            assert(r@ =~= seq![hex_digit(n)]);
        }
        r
    } else if n == 13 {
        proof {
            reveal_strlit("d");
        }
        let r = "d";
        proof {
            assert(r@ =~= seq![hex_digit(n)]);
        }
        r
    } else if n == 14 {
        proof {
            reveal_strlit("e");
        }
        let r = "e";
        proof {
            assert(r@ =~= seq![hex_digit(n)]);
        }
        r
    } else {
        proof {
            reveal_strlit("f");
        }
        let r = "f";
        proof {
            assert(r@ =~= seq![hex_digit(n)]);
        }
        r
    }
}

/// Renders bytes as lowercase hexadecimal, two digits per byte.
pub fn hex_string(bytes: &[u8]) -> (r: String)
    ensures
        r@ == hex_of(bytes@),
{
    let mut out = String::new();
    let n = bytes.len();
    let mut i: usize = 0;
    while i < n
        invariant
            n == bytes@.len(),
            i <= n,
            out@ == hex_of(bytes@.take(i as int)),
        decreases n - i,
    {
        let b = bytes[i];
        proof {
            lemma_nibbles(b);
        }
        out.append(hex_str(b >> 4));
        out.append(hex_str(b & 0x0f));
        i += 1;
        proof {
            assert(out@ =~= hex_of(bytes@.take(i as int)));
        }
    }
    proof {
        assert(bytes@.take(n as int) =~= bytes@);
    }
    out
}

} // verus!
