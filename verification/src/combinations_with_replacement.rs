//! Enumeration of all combinations of a fixed size with replacement, in
//! lexicographic order of their non-decreasing index tuples.

use vstd::prelude::*;
use vstd::pervasive::VecAdditionalExecFns;

use crate::lazy_buffer::LazyBuffer;
use crate::model::{
    cc, cwr_bump, cwr_first, cwr_rem, cwr_succ, is_cwr, lemma_cwr_rem_skip_le, lemma_cwr_succ_at,
    lemma_cwr_succ_none, selected,
};
use crate::size_hint::{lemma_sat_add_both, sat, sat_add, sat_choose};
use crate::vec_items::{CollectToVec, MapSlice, VecItems};

verus! {

/// A generator of all combinations with replacement of `k` source elements:
/// it walks the non-decreasing index tuples of size `k` over the buffered
/// source in lexicographic order, pulling source elements only as they are
/// first needed.
#[derive(Clone)]
pub struct CombinationsWithReplacementBase<T, F> {
    manager: F,
    indices: Vec<usize>,
    pool: LazyBuffer<T>,
    first: bool,
}

/// Combinations with replacement yielded as owned vectors of elements.
pub type CombinationsWithReplacement<T> = CombinationsWithReplacementBase<T, CollectToVec>;

/// Combinations with replacement handed to a caller-supplied transform.
pub type CombinationsWithReplacementMap<T, F> = CombinationsWithReplacementBase<T, MapSlice<F, T>>;

impl<T: Copy, F> CombinationsWithReplacementBase<T, F> {
    /// The whole underlying source sequence.
    pub closed spec fn src(&self) -> Seq<T> {
        self.pool.src()
    }

    /// Total number of source elements.
    pub open spec fn total(&self) -> int {
        self.src().len() as int
    }

    /// Number of source elements cached so far.
    pub closed spec fn n_spec(&self) -> int {
        self.pool.n()
    }

    /// The size of the combinations produced.
    pub closed spec fn k_spec(&self) -> int {
        self.indices@.len() as int
    }

    /// The current index tuple.
    pub closed spec fn inds(&self) -> Seq<int> {
        self.indices@.map_values(|x: usize| x as int)
    }

    /// Whether a combination has been produced since construction.
    pub closed spec fn started(&self) -> bool {
        !self.first
    }

    /// The output strategy.
    pub closed spec fn manager_spec(&self) -> F {
        self.manager
    }

    pub open spec fn wf(&self) -> bool {
        &&& 0 <= self.n_spec() <= self.total()
        &&& if !self.started() {
            &&& self.inds() == cwr_first(self.k_spec())
            &&& self.n_spec() == 0
        } else {
            &&& is_cwr(self.inds(), self.k_spec(), self.n_spec())
            &&& (self.k_spec() >= 1 ==> self.n_spec() >= 1)
        }
    }

    /// The generator has nothing left to produce: every further call to
    /// `next` reports finished.
    pub open spec fn exhausted(&self) -> bool {
        if !self.started() {
            self.k_spec() >= 1 && self.total() == 0
        } else {
            cwr_succ(self.inds(), self.total()) is None
        }
    }

    /// Returns the length of a combination produced by this generator.
    pub fn k(&self) -> (r: usize)
        ensures
            r == self.k_spec(),
    {
        self.indices.len()
    }

    /// Returns the (current) length of the pool from which combination
    /// elements are selected. This value can grow between calls to `next`.
    pub fn n(&self) -> (r: usize)
        requires
            self.wf(),
        ensures
            r == self.n_spec(),
    {
        self.pool.len()
    }

    /// How many combinations have not been produced yet: all
    /// `cc(total + k - 1, k)` of them before the first call, and the count
    /// of lexicographic successors of the current index tuple afterwards.
    pub open spec fn remaining(&self) -> int {
        if !self.started() {
            if self.k_spec() == 0 {
                1
            } else if self.total() >= 1 {
                cc(self.total() + self.k_spec() - 1, self.k_spec())
            } else {
                0
            }
        } else {
            cwr_rem(self.inds(), self.total())
        }
    }

    /// A lower and an upper bound on the count of combinations not yet
    /// produced; both equal that count, clamped to the representable range.
    /// The sum of the source length and the combination size must be
    /// representable.
    #[verifier::loop_isolation(false)]
    pub fn size_hint(&self) -> (r: (usize, Option<usize>))
        requires
            self.wf(),
            self.total() + self.k_spec() <= usize::MAX,
        ensures
            r.0 == sat(self.remaining()),
            r.1 == Some(r.0),
    {
        let k = self.indices.len();
        let total = self.pool.src_len();
        if self.first {
            if k == 0 {
                return (1, Some(1));
            }
            if total == 0 {
                return (0, Some(0));
            }
            let c = sat_choose(total + k - 1, k);
            (c, Some(c))
        } else {
            let ghost s0 = self.inds();
            let ghost n = self.total();
            let mut acc: usize = 0;
            let mut i: usize = 0;
            proof {
                assert(s0.skip(0) =~= s0);
            }
            while i < k
                invariant
                    0 <= i <= k,
                    acc == sat(cwr_rem(s0, n) - cwr_rem(s0.skip(i as int), n)),
                decreases k - i,
            {
                let v = self.indices[i];
                proof {
                    assert(v as int == s0[i as int]);
                    assert(0 <= s0[i as int] < self.n_spec());
                    assert(s0.skip(i as int).drop_first() =~= s0.skip(i as int + 1));
                    assert(s0.skip(i as int)[0] == s0[i as int]);
                    assert(cwr_rem(s0.skip(i as int), n) == cc(
                        n - s0[i as int] - 2 + (k - i),
                        k - i,
                    ) + cwr_rem(s0.skip(i as int + 1), n));
                    lemma_cwr_rem_skip_le(s0, n, i as int);
                    lemma_cwr_rem_skip_le(s0, n, i as int + 1);
                    lemma_sat_add_both(
                        cwr_rem(s0, n) - cwr_rem(s0.skip(i as int), n),
                        cc(n - s0[i as int] - 2 + (k - i), k - i),
                    );
                }
                let c = sat_choose((total - 1 - v) + (k - i) - 1, k - i);
                acc = sat_add(acc, c);
                i = i + 1;
            }
            proof {
                assert(s0.skip(k as int) =~= Seq::<int>::empty());
            }
            (acc, Some(acc))
        }
    }
}

/// Creates a new combinations-with-replacement generator over `src` that
/// yields each combination as an owned vector of source elements.
#[verifier::loop_isolation(false)]
pub fn combinations_with_replacement<T: Copy>(src: Vec<T>, k: usize) -> (r:
    CombinationsWithReplacement<T>)
    ensures
        r.wf(),
        r.src() == src@,
        r.k_spec() == k,
        !r.started(),
        r.manager_spec() == CollectToVec,
{
    let pool = LazyBuffer::new(src);
    let mut indices: Vec<usize> = Vec::new();
    let mut i: usize = 0;
    while i < k
        invariant
            i <= k,
            i == indices.len(),
            forall|j: int| 0 <= j < i ==> indices@[j] == 0,
        decreases k - i,
    {
        indices.push(0);
        i = i + 1;
    }
    let r = CombinationsWithReplacementBase { manager: CollectToVec, indices, pool, first: true };
    proof {
        assert(r.inds() =~= cwr_first(k as int));
    }
    r
}

/// Creates a new combinations-with-replacement generator over `src` that
/// hands each combination to the transform `f` and yields the transform's
/// results.
#[verifier::loop_isolation(false)]
pub fn combinations_with_replacement_map<T: Copy, F>(src: Vec<T>, k: usize, f: F) -> (r:
    CombinationsWithReplacementMap<T, F>)
    ensures
        r.wf(),
        r.src() == src@,
        r.k_spec() == k,
        !r.started(),
        r.manager_spec().func_spec() == f,
{
    let pool = LazyBuffer::new(src);
    let mut indices: Vec<usize> = Vec::new();
    let mut i: usize = 0;
    while i < k
        invariant
            i <= k,
            i == indices.len(),
            forall|j: int| 0 <= j < i ==> indices@[j] == 0,
        decreases k - i,
    {
        indices.push(0);
        i = i + 1;
    }
    let r = CombinationsWithReplacementBase {
        manager: MapSlice::with_capacity(f, k),
        indices,
        pool,
        first: true,
    };
    proof {
        assert(r.inds() =~= cwr_first(k as int));
    }
    r
}

impl<T: Copy, F: VecItems<T>> CombinationsWithReplacementBase<T, F> {
    /// Produces the next combination with replacement, or reports that the
    /// enumeration is finished — terminally: once `None` is returned, every
    /// later call returns `None` again.
    ///
    /// The first produced combination selects position 0 `k` times (none when
    /// `k >= 1` and the source is empty); each later one is the lexicographic
    /// successor of the previous index tuple over the whole source.
    #[verifier::loop_isolation(false)]
    pub fn next(&mut self) -> (r: Option<F::Output>)
        requires
            old(self).wf(),
            old(self).manager_spec().inv(),
        ensures
            final(self).wf(),
            final(self).manager_spec().inv(),
            final(self).src() == old(self).src(),
            final(self).k_spec() == old(self).k_spec(),
            final(self).n_spec() >= old(self).n_spec(),
            final(self).n_spec() <= old(self).n_spec() + 1,
            forall|w: Seq<T>, o: F::Output| #[trigger] final(self).manager_spec().item_spec(w, o)
                <==> old(self).manager_spec().item_spec(w, o),
            r is None <==> old(self).exhausted(),
            old(self).exhausted() ==> final(self).exhausted(),
            r is Some ==> final(self).started(),
            r is Some && !old(self).started() ==> final(self).inds() == cwr_first(
                old(self).k_spec(),
            ),
            r is Some && old(self).started() ==> Some(final(self).inds()) == cwr_succ(
                old(self).inds(),
                old(self).total(),
            ),
            r is Some ==> is_cwr(final(self).inds(), old(self).k_spec(), final(self).n_spec()),
            match r {
                Some(out) => old(self).manager_spec().item_spec(
                    selected(final(self).inds(), old(self).src()),
                    out,
                ),
                None => {
                    &&& final(self).inds() == old(self).inds()
                    &&& final(self).started() == old(self).started()
                },
            },
    {
        let k = self.indices.len();
        if self.first {
            if k != 0 {
                let grew = self.pool.get_next();
                if !grew {
                    return None;
                }
            }
            self.first = false;
            proof {
                assert(forall|j: int| 0 <= j < k ==> self.inds()[j] == 0);
                assert(is_cwr(self.inds(), k as int, self.n_spec()));
            }
        } else {
            let ghost s0 = self.inds();
            let ghost total = self.total();
            let ghost n0 = self.n_spec();
            // The index space may have just gotten larger: pull one more
            // element opportunistically.
            let grew = self.pool.get_next();
            let n1 = self.pool.len();
            proof {
                assert(grew ==> forall|j: int| 0 <= j < k ==> #[trigger] s0[j] <= n1 - 2);
            }
            // Scan from the right for the rightmost index below the last
            // valid buffer position.
            let mut i: usize = k;
            while i > 0 && self.indices[i - 1] == n1 - 1
                invariant
                    0 <= i <= k,
                    forall|j: int| i <= j < k ==> #[trigger] s0[j] == n1 - 1,
                    i < k ==> n1 == total,
                decreases i,
            {
                proof {
                    if i == k {
                        assert(s0[k - 1] == n1 - 1);
                        assert(!grew);
                    }
                }
                i = i - 1;
            }
            if i == 0 {
                // Every index is at the last position: the enumeration is
                // finished.
                proof {
                    if k > 0 {
                        assert(s0[k - 1] == n1 - 1);
                        assert(n1 == total);
                    }
                    lemma_cwr_succ_none(s0, total);
                }
                return None;
            }
            let p = i - 1;
            let v = self.indices[p];
            proof {
                assert(v as int == s0[p as int]);
                assert(v < n1 - 1);
                assert(s0[p as int] < total - 1);
                lemma_cwr_succ_at(s0, total, p as int);
                lemma_cwr_succ_at(s0, n1 as int, p as int);
            }
            // Raise the found index and every index to its right to the next
            // position.
            let mut j: usize = p;
            while j < k
                invariant
                    p <= j <= k,
                    k == self.indices.len(),
                    v < n1,
                    forall|m: int| 0 <= m < j ==> self.inds()[m] == cwr_bump(s0, p as int)[m],
                    forall|m: int| j <= m < k ==> self.inds()[m] == s0[m],
                    self.pool.wf(),
                    self.pool.n() == n1,
                    self.pool.src() == old(self).src(),
                    self.manager == old(self).manager,
                    self.first == old(self).first,
                decreases k - j,
            {
                self.indices.set(j, v + 1);
                j = j + 1;
            }
            proof {
                assert(self.inds() =~= cwr_bump(s0, p as int));
            }
        }

        // Read the selected window out of the cache and hand it to the
        // output strategy.
        let ghost t = self.inds();
        let mut window: Vec<T> = Vec::new();
        let mut j: usize = 0;
        while j < k
            invariant
                j <= k,
                k == self.indices.len(),
                self.inds() == t,
                is_cwr(t, k as int, self.pool.n()),
                self.pool.wf(),
                self.pool.src() == old(self).src(),
                self.pool.n() >= old(self).n_spec(),
                window@.len() == j,
                forall|m: int| 0 <= m < j ==> window@[m] == selected(t, self.pool.src())[m],
                self.manager == old(self).manager,
                !self.first,
            decreases k - j,
        {
            let idx = self.indices[j];
            proof {
                assert(idx as int == t[j as int]);
            }
            window.push(self.pool.get(idx));
            j = j + 1;
        }
        proof {
            assert(window@ =~= selected(t, self.src()));
        }
        Some(self.manager.new_item(&window))
    }
}

} // verus!
