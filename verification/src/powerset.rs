//! Enumeration of every subset of a source, ordered by increasing size and
//! lexicographically within each size.

use vstd::prelude::*;

use crate::combinations::{combinations, combinations_map, CombinationsBase};
use crate::model::{comb_first, comb_succ, is_comb, pow_succ, selected, subset_count};
use crate::size_hint::{sat, sat_pow2, sat_sub};
use crate::vec_items::{CollectToVec, MapSlice, VecItems};

verus! {

/// A generator of all subsets of a source: it sweeps a combinations
/// generator over the same source, starting at size 0 and raising the size
/// by one each time the current size is exhausted, so subsets come out
/// ordered by increasing size and lexicographically within one size.
#[derive(Clone)]
pub struct PowersetBase<T, F> {
    combs: CombinationsBase<T, F>,
    // Count of elements yielded so far (saturating; used for size bounds).
    pos: usize,
}

/// Subsets yielded as owned vectors of elements.
pub type Powerset<T> = PowersetBase<T, CollectToVec>;

/// Subsets handed to a caller-supplied transform.
pub type PowersetMap<T, F> = PowersetBase<T, MapSlice<F, T>>;

impl<T: Copy, F> PowersetBase<T, F> {
    /// The whole underlying source sequence.
    pub closed spec fn src(&self) -> Seq<T> {
        self.combs.src()
    }

    /// Total number of source elements.
    pub open spec fn total(&self) -> int {
        self.src().len() as int
    }

    /// Number of source elements cached so far.
    pub closed spec fn n_spec(&self) -> int {
        self.combs.n_spec()
    }

    /// The size of the subsets currently being produced.
    pub closed spec fn k_spec(&self) -> int {
        self.combs.k_spec()
    }

    /// The current index tuple of the inner combinations generator.
    pub closed spec fn inds(&self) -> Seq<int> {
        self.combs.inds()
    }

    /// Whether a subset of the current size has been produced.
    pub closed spec fn started(&self) -> bool {
        self.combs.started()
    }

    /// The output strategy.
    pub closed spec fn manager_spec(&self) -> F {
        self.combs.manager_spec()
    }

    /// Count of subsets yielded so far (saturating).
    pub closed spec fn pos_spec(&self) -> int {
        self.pos as int
    }

    pub open spec fn wf(&self) -> bool {
        &&& 0 <= self.n_spec() <= self.total()
        &&& if !self.started() {
            &&& self.inds() == comb_first(self.k_spec())
            &&& self.n_spec() >= if self.k_spec() <= self.total() {
                self.k_spec()
            } else {
                self.total()
            }
            &&& self.k_spec() == 0 || self.k_spec() > self.total()
        } else {
            &&& is_comb(self.inds(), self.k_spec(), self.n_spec())
            &&& self.k_spec() <= self.total()
        }
    }

    /// The generator has nothing left to produce: every further call to
    /// `next` reports finished.
    pub open spec fn exhausted(&self) -> bool {
        if !self.started() {
            self.k_spec() > self.total()
        } else {
            pow_succ(self.inds(), self.total()) is None
        }
    }

    /// Returns the size of the subsets currently being produced.
    pub fn k(&self) -> (r: usize)
        ensures
            r == self.k_spec(),
    {
        self.combs.k()
    }

    /// Returns the (current) length of the pool from which subset elements
    /// are selected.
    pub fn n(&self) -> (r: usize)
        requires
            self.wf(),
        ensures
            r == self.n_spec(),
    {
        self.combs.n()
    }

    /// A lower and an upper bound on the count of subsets not yet produced:
    /// 2^total less the subsets already yielded, clamped to the representable
    /// range. With the yield counter saturated the lower bound falls to 0.
    pub fn size_hint(&self) -> (r: (usize, Option<usize>))
        requires
            self.wf(),
        ensures
            r.1 == Some(sat(sat(subset_count(self.total() as nat) as int) - self.pos_spec())
                as usize),
            self.pos_spec() < usize::MAX ==> r.0 == r.1->Some_0,
            self.pos_spec() == usize::MAX ==> r.0 == 0,
    {
        let total = self.combs.src_buffer().src_len();
        let all = sat_pow2(total);
        let rest = sat_sub(all, self.pos);
        if self.pos < usize::MAX {
            (rest, Some(rest))
        } else {
            (0, Some(rest))
        }
    }
}

/// Creates a new powerset generator over `src` that yields each subset as an
/// owned vector of source elements.
pub fn powerset<T: Copy>(src: Vec<T>) -> (r: Powerset<T>)
    ensures
        r.wf(),
        r.src() == src@,
        !r.started(),
        r.k_spec() == 0,
        r.pos_spec() == 0,
        r.manager_spec() == CollectToVec,
{
    PowersetBase { combs: combinations(src, 0), pos: 0 }
}

/// Creates a new powerset generator over `src` that hands each subset to the
/// transform `f` and yields the transform's results.
pub fn powerset_map<T: Copy, F>(src: Vec<T>, f: F) -> (r: PowersetMap<T, F>)
    ensures
        r.wf(),
        r.src() == src@,
        !r.started(),
        r.k_spec() == 0,
        r.pos_spec() == 0,
        r.manager_spec().func_spec() == f,
{
    PowersetBase { combs: combinations_map(src, 0, f), pos: 0 }
}

impl<T: Copy, F: VecItems<T>> PowersetBase<T, F> {
    /// Produces the next subset, or reports that the enumeration is finished
    /// — terminally: once `None` is returned, every later call returns
    /// `None` again.
    ///
    /// The first produced subset is the empty one; each later one is the
    /// successor of the previous index tuple in the powerset order (by
    /// increasing size, then lexicographically) over the whole source.
    pub fn next(&mut self) -> (r: Option<F::Output>)
        requires
            old(self).wf(),
            old(self).manager_spec().inv(),
        ensures
            final(self).wf(),
            final(self).manager_spec().inv(),
            final(self).src() == old(self).src(),
            forall|w: Seq<T>, o: F::Output| #[trigger] final(self).manager_spec().item_spec(w, o)
                <==> old(self).manager_spec().item_spec(w, o),
            r is None <==> old(self).exhausted(),
            old(self).exhausted() ==> final(self).exhausted(),
            r is Some ==> final(self).started(),
            r is Some && !old(self).started() ==> final(self).inds() == comb_first(0),
            r is Some && old(self).started() ==> Some(final(self).inds()) == pow_succ(
                old(self).inds(),
                old(self).total(),
            ),
            r is Some ==> is_comb(final(self).inds(), final(self).k_spec(), final(self).n_spec()),
            match r {
                Some(out) => old(self).manager_spec().item_spec(
                    selected(final(self).inds(), old(self).src()),
                    out,
                ),
                None => true,
            },
            r is Some ==> final(self).pos_spec() == if old(self).pos_spec() < usize::MAX {
                old(self).pos_spec() + 1
            } else {
                old(self).pos_spec()
            },
    {
        let first_try = self.combs.next();
        if first_try.is_some() {
            if self.pos < usize::MAX {
                self.pos = self.pos + 1;
            }
            return first_try;
        }
        let k = self.combs.k();
        let grow = k < self.combs.n() || k == 0;
        if !grow {
            return None;
        }
        self.combs.reset(k + 1);
        let second_try = self.combs.next();
        if second_try.is_some() {
            if self.pos < usize::MAX {
                self.pos = self.pos + 1;
            }
        }
        second_try
    }
}

} // verus!
