//! The approximate membership/weight structure that remote peers hold in
//! place of the exact index: a fixed number of buckets, addressed by a
//! string hash. Collisions can report a weight for an absent word (false
//! positive), but a stored word always reports at least its weight.

use vstd::prelude::*;
use vstd::string::StrSliceExecFns;

verus! {

/// Modulus of the rolling string hash: the hash is kept below 2^32.
pub open spec fn hash_modulus() -> nat {
    0x1_0000_0000
}

/// Rolling hash of a character sequence, always below [`hash_modulus`].
pub open spec fn spec_hash(s: Seq<char>) -> nat
    decreases s.len(),
{
    if s.len() == 0 {
        0
    } else {
        (spec_hash(s.drop_last()) * 31 + (s.last() as u32 as nat)) % hash_modulus()
    }
}

/// Computes [`spec_hash`] over the characters of a string.
pub fn hash_str(s: &str) -> (h: u64)
    ensures
        h == spec_hash(s@),
        h < hash_modulus(),
{
    let n: usize = s.unicode_len();
    let mut h: u64 = 0;
    let mut i: usize = 0;
    assert(s@.subrange(0, 0).len() == 0);
    while i < n
        invariant
            0 <= i <= n,
            n == s@.len(),
            h == spec_hash(s@.subrange(0, i as int)),
            h < hash_modulus(),
        decreases n - i,
    {
        let c: u32 = s.get_char(i) as u32;
        proof {
            assert(s@.subrange(0, i + 1).drop_last() =~= s@.subrange(0, i as int));
            assert(s@.subrange(0, i + 1).last() == s@[i as int]);
            assert(h * 31 + c <= 0xFFFF_FFFFu64 * 31 + 0xFFFF_FFFFu64);
        }
        h = (h * 31 + (c as u64)) % 0x1_0000_0000u64;
        i = i + 1;
    }
    proof {
        assert(s@.subrange(0, n as int) =~= s@);
    }
    h
}

/// An approximate weight table over words: `capacity` buckets of `u32`
/// weights, addressed by [`spec_hash`] modulo the capacity.
pub struct Filter {
    pub buckets: Vec<u32>,
}

impl Filter {
    /// A filter is well formed when it has at least one bucket.
    pub open spec fn wf(self) -> bool {
        self.buckets@.len() > 0
    }

    /// The weights stored in the buckets.
    pub open spec fn spec_buckets(self) -> Seq<u32> {
        self.buckets@
    }

    /// The weight this filter reports for a key.
    pub open spec fn spec_get(self, key: Seq<char>) -> u32 {
        self.buckets@[spec_hash(key) as int % self.buckets@.len() as int]
    }

    /// The filter as a total weight function over keys.
    pub open spec fn weight_fn(self) -> spec_fn(Seq<char>) -> u32 {
        |key: Seq<char>| self.spec_get(key)
    }

    /// Creates an empty filter with the given number of buckets.
    pub fn new(capacity: usize) -> (f: Filter)
        requires
            capacity > 0,
        ensures
            f.wf(),
            f.spec_buckets().len() == capacity,
            forall|key: Seq<char>| f.spec_get(key) == 0,
    {
        let mut buckets: Vec<u32> = Vec::new();
        let mut i: usize = 0;
        while i < capacity
            invariant
                0 <= i <= capacity,
                buckets@.len() == i,
                forall|j: int| 0 <= j < i ==> buckets@[j] == 0,
            decreases capacity - i,
        {
            buckets.push(0);
            i = i + 1;
        }
        Filter { buckets }
    }

    /// The weight recorded for `word`: zero means the word is absent
    /// (never falsely reported for a stored word, see [`Filter::add_word`]).
    pub fn get_word(&self, word: &str) -> (w: u32)
        requires
            self.wf(),
        ensures
            w == self.spec_get(word@),
    {
        let h: u64 = hash_str(word);
        let idx: usize = (h % (self.buckets.len() as u64)) as usize;
        self.buckets[idx]
    }

    /// Records `word` with the given weight: its bucket rises to at least
    /// `weight` and no bucket ever decreases, so a stored word can never be
    /// reported absent afterwards.
    pub fn add_word(&mut self, word: &str, weight: u32)
        requires
            old(self).wf(),
        ensures
            final(self).wf(),
            final(self).spec_buckets().len() == old(self).spec_buckets().len(),
            final(self).spec_get(word@) >= weight,
            forall|key: Seq<char>|
                #[trigger] final(self).spec_get(key) == old(self).spec_get(key)
                || final(self).spec_get(key) == final(self).spec_get(word@),
            forall|key: Seq<char>| #[trigger] final(self).spec_get(key) >= old(self).spec_get(key),
    {
        let h: u64 = hash_str(word);
        let idx: usize = (h % (self.buckets.len() as u64)) as usize;
        let current: u32 = self.buckets[idx];
        if weight > current {
            self.buckets.set(idx, weight);
        }
    }
}

} // verus!
