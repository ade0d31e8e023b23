//! A bounded store of codebooks, so that a stream whose blocks repeat a
//! codebook builds its fast table once.

use crate::codebook::valid_lengths;
use crate::huff::CanonicalCode;
use vstd::prelude::*;

verus! {

/// The number of codebooks that a cache holds at most.
pub const CACHE_LIMIT: usize = 32;

/// Codebooks by their code lengths, oldest first.
pub struct DecodeCache {
    entries: Vec<CanonicalCode>,
}

/// Where the codebook for `lengths` is among `keys`: the first place from
/// `from` on, or the number of keys if it is not there.
pub open spec fn position_of(keys: Seq<Seq<u8>>, lengths: Seq<u8>, from: int) -> int
    decreases keys.len() - from,
{
    if from >= keys.len() || from < 0 {
        keys.len() as int
    } else if keys[from] == lengths {
        from
    } else {
        position_of(keys, lengths, from + 1)
    }
}

/// The keys of a cache after the codebook for `lengths` was asked for: as
/// before where it was there; else with it at the end, and without the
/// oldest where the cache was full.
pub open spec fn cache_after(keys: Seq<Seq<u8>>, lengths: Seq<u8>) -> Seq<Seq<u8>> {
    if position_of(keys, lengths, 0) < keys.len() {
        keys
    } else if keys.len() >= CACHE_LIMIT {
        keys.skip(1).push(lengths)
    } else {
        keys.push(lengths)
    }
}

impl View for DecodeCache {
    type V = Seq<Seq<u8>>;

    /// The code lengths of the codebooks held, oldest first.
    closed spec fn view(&self) -> Seq<Seq<u8>> {
        Seq::new(self.entries@.len(), |i: int| self.entries@[i]@)
    }
}

impl DecodeCache {
    #[verifier::type_invariant]
    spec fn bounded(&self) -> bool {
        self.entries@.len() <= CACHE_LIMIT
    }

    /// A cache that holds nothing.
    pub fn new() -> (cache: DecodeCache)
        ensures
            cache@.len() == 0,
    {
        DecodeCache { entries: Vec::new() }
    }

    /// The number of codebooks held.
    pub fn len(&self) -> (n: usize)
        ensures
            n == self@.len(),
            n <= CACHE_LIMIT,
    {
        proof {
            use_type_invariant(self);
        }
        self.entries.len()
    }

    /// The codebook at place `at`.
    pub fn book(&self, at: usize) -> (book: &CanonicalCode)
        requires
            at < self@.len(),
        ensures
            book@ == self@[at as int],
    {
        &self.entries[at]
    }

    /// The place of the codebook for `lengths`, if it is held.
    pub fn lookup(&self, lengths: &[u8; 256]) -> (r: Option<usize>)
        ensures
            match r {
                Some(at) => at == position_of(self@, lengths@, 0) && at < self@.len()
                    && self@[at as int] == lengths@,
                None => position_of(self@, lengths@, 0) == self@.len(),
            },
    {
        let mut i: usize = 0;
        while i < self.entries.len()
            invariant
                i <= self@.len(),
                self@.len() == self.entries@.len(),
                position_of(self@, lengths@, 0) == position_of(self@, lengths@, i as int),
            decreases self@.len() - i,
        {
            let same = self.entries[i].has_lengths(lengths);
            assert(self@[i as int] == self.entries@[i as int]@);
            if same {
                return Some(i);
            }
            i = i + 1;
        }
        None
    }

    /// The place of the codebook for `lengths`. Where it is not held it is
    /// built and put at the end; a full cache drops its oldest codebook
    /// first.
    pub fn lookup_or_insert(&mut self, lengths: &[u8; 256]) -> (at: usize)
        requires
            valid_lengths(lengths@),
        ensures
            final(self)@ == cache_after(old(self)@, lengths@),
            at < final(self)@.len(),
            final(self)@[at as int] == lengths@,
            final(self)@.len() <= CACHE_LIMIT,
    {
        proof {
            use_type_invariant(&*self);
        }
        match self.lookup(lengths) {
            Some(at) => at,
            None => {
                let book = CanonicalCode::assemble(lengths);
                let ghost before = self@;
                let mut entries: Vec<CanonicalCode> = Vec::new();
                core::mem::swap(&mut entries, &mut self.entries);
                if entries.len() >= CACHE_LIMIT {
                    let _ = entries.remove(0);
                }
                entries.push(book);
                let at: usize = entries.len() - 1;
                self.entries = entries;
                proof {
                    assert(self@ =~= cache_after(before, lengths@));
                }
                at
            },
        }
    }
}

} // verus!
