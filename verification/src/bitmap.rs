//! A set of trigrams as a bitmap.

use vstd::prelude::*;

verus! {

/// How many words the bitmap has: one bit for each of the 2^24 trigrams.
const WORDS: usize = 0x4_0000;

/// A set of numbers below 2^24.
#[derive(Debug)]
pub struct Bitmap {
    words: Vec<u64>,
}

/// Whether bit `b` of `w` is set.
spec fn bit(w: u64, b: u64) -> bool {
    (w >> b) & 1 == 1
}

proof fn lemma_bits(w: u64, a: u64, b: u64)
    by (bit_vector)
    requires
        a < 64,
        b < 64,
    ensures
        (w & (1u64 << a) == 0) <==> (w >> a) & 1 != 1,
        ((w | (1u64 << a)) >> b) & 1 == 1 <==> a == b || (w >> b) & 1 == 1,
        ((w & !(1u64 << a)) >> b) & 1 == 1 <==> a != b && (w >> b) & 1 == 1,
        (0u64 >> b) & 1 != 1,
{
}

proof fn lemma_split(t: u32)
    by (bit_vector)
    ensures
        t >> 6 == t / 64,
        t & 63 == t % 64,
{
}

impl Bitmap {
    /// The members.
    pub closed spec fn view(&self) -> Set<u32> {
        Set::new(|t: u32| t < 0x100_0000 && bit(self.words@[t as int / 64], (t % 64) as u64))
    }

    /// There is a bit for every trigram.
    pub closed spec fn wf(&self) -> bool {
        self.words@.len() == WORDS
    }

    /// The empty set.
    pub fn new() -> (b: Bitmap)
        ensures
            b.wf(),
            b@ == Set::<u32>::empty(),
    {
        let words: Vec<u64> = vec![0; WORDS];
        let b = Bitmap { words };
        proof {
            assert forall|t: u32| !b@.contains(t) by {
                if t < 0x100_0000 {
                    lemma_bits(0, 0, (t % 64) as u64);
                }
            }
            assert(b@ =~= Set::<u32>::empty());
        }
        b
    }

    /// Add a member. Returns whether it is new.
    pub fn insert(&mut self, t: u32) -> (fresh: bool)
        requires
            old(self).wf(),
            t < 0x100_0000,
        ensures
            final(self).wf(),
            fresh == !old(self)@.contains(t),
            final(self)@ == old(self)@.insert(t),
    {
        proof {
            lemma_split(t);
        }
        let i: usize = (t >> 6) as usize;
        let b: u64 = (t & 63) as u64;
        let w: u64 = self.words[i];
        proof {
            lemma_bits(w, b, b);
        }
        let fresh = w & (1u64 << b) == 0;
        self.words.set(i, w | (1u64 << b));
        proof {
            assert forall|u: u32| self@.contains(u) <==> old(self)@.insert(t).contains(u) by {
                lemma_bits(w, b, (u % 64) as u64);
            }
            assert(self@ =~= old(self)@.insert(t));
        }
        fresh
    }

    /// Take a member away.
    pub fn remove(&mut self, t: u32)
        requires
            old(self).wf(),
            t < 0x100_0000,
        ensures
            final(self).wf(),
            final(self)@ == old(self)@.remove(t),
    {
        proof {
            lemma_split(t);
        }
        let i: usize = (t >> 6) as usize;
        let b: u64 = (t & 63) as u64;
        let w: u64 = self.words[i];
        self.words.set(i, w & !(1u64 << b));
        proof {
            assert forall|u: u32| self@.contains(u) <==> old(self)@.remove(t).contains(u) by {
                lemma_bits(w, b, (u % 64) as u64);
            }
            assert(self@ =~= old(self)@.remove(t));
        }
    }
}

} // verus!
