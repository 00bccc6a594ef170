//! A lazily pulled, append-only cache over one source sequence.

use vstd::prelude::*;

verus! {

/// Wraps one source sequence and pulls elements from it one position at a
/// time, caching every element pulled so that generators above it can address
/// the source by integer position without consuming any element twice.
///
/// The source is held as a vector and `taken` marks how far it has been
/// pulled: positions below `taken` are cached and may be read; positions at
/// or above `taken` have not been materialized yet. The cache only grows.
#[derive(Clone)]
pub struct LazyBuffer<T> {
    source: Vec<T>,
    taken: usize,
}

impl<T: Copy> LazyBuffer<T> {
    /// The whole underlying source sequence, cached part first.
    pub closed spec fn src(&self) -> Seq<T> {
        self.source@
    }

    /// How many source elements are cached so far.
    pub closed spec fn n(&self) -> int {
        self.taken as int
    }

    pub open spec fn wf(&self) -> bool {
        0 <= self.n() <= self.src().len()
    }

    pub fn new(source: Vec<T>) -> (r: Self)
        ensures
            r.wf(),
            r.src() == source@,
            r.n() == 0,
    {
        LazyBuffer { source, taken: 0 }
    }

    /// Number of elements cached so far.
    pub fn len(&self) -> (r: usize)
        requires
            self.wf(),
        ensures
            r == self.n(),
    {
        self.taken
    }

    /// Pulls exactly one more element if the source still has one, and
    /// reports whether the cache grew.
    pub fn get_next(&mut self) -> (grew: bool)
        requires
            old(self).wf(),
        ensures
            final(self).wf(),
            final(self).src() == old(self).src(),
            grew == (old(self).n() < old(self).src().len()),
            final(self).n() == if grew {
                old(self).n() + 1
            } else {
                old(self).n()
            },
    {
        if self.taken < self.source.len() {
            self.taken = self.taken + 1;
            true
        } else {
            false
        }
    }

    /// Pulls from the source until at least `k` elements are cached or the
    /// source is exhausted, whichever comes first; callers re-check `len`.
    /// Never pulls past position `k`, and never shrinks the cache.
    pub fn prefill(&mut self, k: usize)
        requires
            old(self).wf(),
        ensures
            final(self).wf(),
            final(self).src() == old(self).src(),
            final(self).n() == if old(self).n() >= k {
                old(self).n()
            } else if k <= old(self).src().len() {
                k as int
            } else {
                old(self).src().len() as int
            },
    {
        if self.taken < k {
            if k <= self.source.len() {
                self.taken = k;
            } else {
                self.taken = self.source.len();
            }
        }
    }

    /// Length of the whole underlying source.
    pub fn src_len(&self) -> (r: usize)
        ensures
            r == self.src().len(),
    {
        self.source.len()
    }

    /// Reads the cached element at position `i`.
    pub fn get(&self, i: usize) -> (r: T)
        requires
            self.wf(),
            i < self.n(),
        ensures
            r == self.src()[i as int],
    {
        self.source[i]
    }
}

} // verus!
