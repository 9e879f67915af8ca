//! The in-memory backend: blobs held in a map in process memory.

use vstd::prelude::*;

use crate::backend::{blobs_wf, Backend};
use crate::error::Error;
use crate::hash::BlakeResultWrap;

verus! {

/// The blob map described by a sequence of digest/blob entries, later
/// entries winning.
pub closed spec fn entries_map(s: Seq<(BlakeResultWrap, Vec<u8>)>) -> Map<Seq<u8>, Seq<u8>>
    decreases s.len(),
{
    if s.len() == 0 {
        Map::empty()
    } else {
        entries_map(s.drop_last()).insert(s.last().0@, s.last().1@)
    }
}

/// An in-memory backend holding every stored blob under its digest.
pub struct MemoryBackend {
    entries: Vec<(BlakeResultWrap, Vec<u8>)>,
}

impl MemoryBackend {
    /// A fresh backend holding nothing.
    pub fn new() -> (r: MemoryBackend)
        ensures
            r.blobs() == Map::<Seq<u8>, Seq<u8>>::empty(),
            blobs_wf(r.blobs()),
            r.keeps(),
            r.readable(),
            r.infallible(),
    {
        let r = MemoryBackend { entries: Vec::new() };
        proof {
            assert(r.entries@.len() == 0);
        }
        r
    }
}

impl MemoryBackend {
    /// Whether a blob is already stored under `digest`.
    pub fn contains_key(&self, digest: &BlakeResultWrap) -> (r: bool)
        ensures
            r == self.blobs().dom().contains(digest@),
    {
        let mut j = self.entries.len();
        proof {
            assert(self.entries@.take(j as int) =~= self.entries@);
        }
        while j > 0
            invariant
                j <= self.entries@.len(),
                entries_map(self.entries@).dom().contains(digest@) == entries_map(
                    self.entries@.take(j as int),
                ).dom().contains(digest@),
            decreases j,
        {
            j -= 1;
            proof {
                assert(self.entries@.take(j + 1).drop_last() =~= self.entries@.take(j as int));
                assert(self.entries@.take(j + 1).last() == self.entries@[j as int]);
            }
            if self.entries[j].0 == *digest {
                return true;
            }
        }
        proof {
            assert(self.entries@.take(0) =~= Seq::<(BlakeResultWrap, Vec<u8>)>::empty());
        }
        false
    }
}

impl Backend for MemoryBackend {
    closed spec fn blobs(&self) -> Map<Seq<u8>, Seq<u8>> {
        entries_map(self.entries@)
    }

    open spec fn keeps(&self) -> bool {
        true
    }

    open spec fn readable(&self) -> bool {
        true
    }

    open spec fn infallible(&self) -> bool {
        true
    }

    fn keeps_stored(&self) -> (r: bool) {
        true
    }

    fn store(&mut self, digest: &BlakeResultWrap, bytes: Vec<u8>) -> (r: Result<(), Error>) {
        if self.contains_key(digest) {
            return Ok(());
        }
        let pair = (digest.clone(), bytes);
        self.entries.push(pair);
        proof {
            assert(self.entries@.drop_last() =~= old(self).entries@);
            assert(self.blobs() == old(self).blobs().insert(digest@, bytes@));
            assert forall|d: Seq<u8>| self.blobs().dom().contains(d) implies d
                == crate::hash::digest_of(#[trigger] self.blobs()[d]) by {
                if d != digest@ {
                    assert(old(self).blobs().dom().contains(d));
                    assert(self.blobs()[d] == old(self).blobs()[d]);
                }
            }
        }
        Ok(())
    }

    fn request(&self, digest: &BlakeResultWrap) -> (r: Result<Vec<u8>, Error>) {
        let mut j = self.entries.len();
        proof {
            assert(self.entries@.take(j as int) =~= self.entries@);
        }
        while j > 0
            invariant
                j <= self.entries@.len(),
                self.blobs() == entries_map(self.entries@),
                blobs_wf(self.blobs()),
                entries_map(self.entries@).dom().contains(digest@) == entries_map(
                    self.entries@.take(j as int),
                ).dom().contains(digest@),
                entries_map(self.entries@).dom().contains(digest@) ==> entries_map(
                    self.entries@.take(j as int),
                )[digest@] == entries_map(self.entries@)[digest@],
            decreases j,
        {
            j -= 1;
            proof {
                assert(self.entries@.take(j + 1).drop_last() =~= self.entries@.take(j as int));
                assert(self.entries@.take(j + 1).last() == self.entries@[j as int]);
            }
            if self.entries[j].0 == *digest {
                proof {
                    assert(self.blobs().dom().contains(digest@));
                    assert(digest@ == crate::hash::digest_of(self.blobs()[digest@]));
                }
                return Ok(self.entries[j].1.clone());
            }
        }
        proof {
            assert(self.entries@.take(0) =~= Seq::<(BlakeResultWrap, Vec<u8>)>::empty());
        }
        Err(Error::NotFound)
    }
}

} // verus!
