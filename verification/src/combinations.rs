//! Enumeration of all combinations of a fixed size, in lexicographic order of
//! their index tuples.

use vstd::prelude::*;
use vstd::pervasive::VecAdditionalExecFns;

use crate::lazy_buffer::LazyBuffer;
use crate::model::{
    cc, comb_bump, comb_first, comb_rem, comb_succ, is_comb, lemma_comb_caps,
    lemma_comb_rem_skip_le, lemma_comb_succ_at, lemma_comb_succ_none, selected,
};
use crate::size_hint::{lemma_sat_add_both, sat, sat_add, sat_choose};
use crate::vec_items::{CollectToVec, MapSlice, VecItems};

verus! {

/// A generator of all combinations of `k` source elements: it walks the
/// strictly increasing index tuples of size `k` over the buffered source in
/// lexicographic order, pulling source elements only as they are first
/// addressed.
#[derive(Clone)]
pub struct CombinationsBase<T, F> {
    manager: F,
    indices: Vec<usize>,
    pool: LazyBuffer<T>,
    first: bool,
}

/// Combinations yielded as owned vectors of elements.
pub type Combinations<T> = CombinationsBase<T, CollectToVec>;

/// Combinations handed to a caller-supplied transform.
pub type CombinationsMap<T, F> = CombinationsBase<T, MapSlice<F, T>>;

impl<T: Copy, F> CombinationsBase<T, F> {
    /// The whole underlying source sequence.
    pub closed spec fn src(&self) -> Seq<T> {
        self.pool.src()
    }

    /// Total number of source elements.
    pub open spec fn total(&self) -> int {
        self.src().len() as int
    }

    /// Number of source elements cached so far.
    pub closed spec fn n_spec(&self) -> int {
        self.pool.n()
    }

    /// The size of the combinations produced.
    pub closed spec fn k_spec(&self) -> int {
        self.indices@.len() as int
    }

    /// The current index tuple.
    pub closed spec fn inds(&self) -> Seq<int> {
        self.indices@.map_values(|x: usize| x as int)
    }

    /// Whether a combination has been produced since construction or reset.
    pub closed spec fn started(&self) -> bool {
        !self.first
    }

    /// The output strategy.
    pub closed spec fn manager_spec(&self) -> F {
        self.manager
    }

    pub open spec fn wf(&self) -> bool {
        &&& 0 <= self.n_spec() <= self.total()
        &&& if !self.started() {
            &&& self.inds() == comb_first(self.k_spec())
            &&& self.n_spec() >= if self.k_spec() <= self.total() {
                self.k_spec()
            } else {
                self.total()
            }
        } else {
            is_comb(self.inds(), self.k_spec(), self.n_spec())
        }
    }

    /// The generator has nothing left to produce: every further call to
    /// `next` reports finished.
    pub open spec fn exhausted(&self) -> bool {
        if !self.started() {
            self.k_spec() > self.total()
        } else {
            comb_succ(self.inds(), self.total()) is None
        }
    }

    /// Returns the length of a combination produced by this generator.
    pub fn k(&self) -> (r: usize)
        ensures
            r == self.k_spec(),
    {
        self.indices.len()
    }

    /// Returns the (current) length of the pool from which combination
    /// elements are selected. This value can grow between calls to `next`.
    pub fn n(&self) -> (r: usize)
        requires
            self.wf(),
        ensures
            r == self.n_spec(),
    {
        self.pool.len()
    }

    /// How many combinations have not been produced yet: all `cc(total, k)`
    /// of them before the first call, and the count of lexicographic
    /// successors of the current index tuple afterwards.
    pub open spec fn remaining(&self) -> int {
        if !self.started() {
            if self.k_spec() <= self.total() {
                cc(self.total(), self.k_spec())
            } else {
                0
            }
        } else {
            comb_rem(self.inds(), self.total())
        }
    }

    /// A lower and an upper bound on the count of combinations not yet
    /// produced; both equal that count, clamped to the representable range.
    #[verifier::loop_isolation(false)]
    pub fn size_hint(&self) -> (r: (usize, Option<usize>))
        requires
            self.wf(),
        ensures
            r.0 == sat(self.remaining()),
            r.1 == Some(r.0),
    {
        let k = self.indices.len();
        let total = self.pool.src_len();
        if self.first {
            if k > total {
                return (0, Some(0));
            }
            let c = sat_choose(total, k);
            (c, Some(c))
        } else {
            let ghost s0 = self.inds();
            let ghost n = self.total();
            let mut acc: usize = 0;
            let mut i: usize = 0;
            proof {
                assert(s0.skip(0) =~= s0);
            }
            while i < k
                invariant
                    0 <= i <= k,
                    acc == sat(comb_rem(s0, n) - comb_rem(s0.skip(i as int), n)),
                decreases k - i,
            {
                let v = self.indices[i];
                proof {
                    assert(v as int == s0[i as int]);
                    assert(0 <= s0[i as int] < self.n_spec());
                    assert(s0.skip(i as int).drop_first() =~= s0.skip(i as int + 1));
                    assert(s0.skip(i as int)[0] == s0[i as int]);
                    assert(comb_rem(s0.skip(i as int), n) == cc(n - 1 - s0[i as int], k - i)
                        + comb_rem(s0.skip(i as int + 1), n));
                    lemma_comb_rem_skip_le(s0, n, i as int);
                    lemma_comb_rem_skip_le(s0, n, i as int + 1);
                    lemma_sat_add_both(
                        comb_rem(s0, n) - comb_rem(s0.skip(i as int), n),
                        cc(n - 1 - s0[i as int], k - i),
                    );
                }
                let c = sat_choose(total - 1 - v, k - i);
                acc = sat_add(acc, c);
                i = i + 1;
            }
            proof {
                assert(s0.skip(k as int) =~= Seq::<int>::empty());
            }
            (acc, Some(acc))
        }
    }

    /// The buffer over the source this generator draws from.
    pub(crate) fn src_buffer(&self) -> (r: &LazyBuffer<T>)
        ensures
            r.src() == self.src(),
            r.n() == self.n_spec(),
    {
        &self.pool
    }

    /// Resets this generator back to an initial state for combinations of
    /// length `k` over the same source. If `k` is larger than the current
    /// cache, the cache is prefilled up to `k` elements.
    #[verifier::loop_isolation(false)]
    pub(crate) fn reset(&mut self, k: usize)
        requires
            old(self).wf(),
        ensures
            final(self).wf(),
            final(self).src() == old(self).src(),
            !final(self).started(),
            final(self).k_spec() == k,
            final(self).n_spec() >= old(self).n_spec(),
            final(self).n_spec() <= if old(self).n_spec() >= k {
                old(self).n_spec()
            } else {
                k as int
            },
            final(self).manager_spec() == old(self).manager_spec(),
    {
        proof {
            if !self.first {
                lemma_comb_caps(self.inds(), self.n_spec());
            }
        }
        self.first = true;

        if k < self.indices.len() {
            self.indices.truncate(k);
            let mut i: usize = 0;
            while i < k
                invariant
                    i <= k,
                    k == self.indices.len(),
                    forall|j: int| 0 <= j < i ==> self.indices@[j] == j,
                    self.pool == old(self).pool,
                    self.manager == old(self).manager,
                    self.first,
                decreases k - i,
            {
                self.indices.set(i, i);
                i = i + 1;
            }
        } else {
            let old_len = self.indices.len();
            let mut i: usize = 0;
            while i < old_len
                invariant
                    i <= old_len,
                    old_len == self.indices.len(),
                    forall|j: int| 0 <= j < i ==> self.indices@[j] == j,
                    self.pool == old(self).pool,
                    self.manager == old(self).manager,
                    self.first,
                decreases old_len - i,
            {
                self.indices.set(i, i);
                i = i + 1;
            }
            let mut i: usize = old_len;
            while i < k
                invariant
                    old_len <= i <= k,
                    i == self.indices.len(),
                    forall|j: int| 0 <= j < i ==> self.indices@[j] == j,
                    self.pool == old(self).pool,
                    self.manager == old(self).manager,
                    self.first,
                decreases k - i,
            {
                self.indices.push(i);
                i = i + 1;
            }
            self.pool.prefill(k);
        }
        proof {
            assert(self.inds() =~= comb_first(k as int));
        }
    }
}

/// Creates a new combinations generator over `src` that yields each
/// combination as an owned vector of source elements.
#[verifier::loop_isolation(false)]
pub fn combinations<T: Copy>(src: Vec<T>, k: usize) -> (r: Combinations<T>)
    ensures
        r.wf(),
        r.src() == src@,
        r.k_spec() == k,
        !r.started(),
        r.n_spec() == if k <= src@.len() {
            k as int
        } else {
            src@.len() as int
        },
        r.manager_spec() == CollectToVec,
{
    let mut pool = LazyBuffer::new(src);
    pool.prefill(k);
    let mut indices: Vec<usize> = Vec::new();
    let mut i: usize = 0;
    while i < k
        invariant
            i <= k,
            i == indices.len(),
            forall|j: int| 0 <= j < i ==> indices@[j] == j,
        decreases k - i,
    {
        indices.push(i);
        i = i + 1;
    }
    let r = CombinationsBase { manager: CollectToVec, indices, pool, first: true };
    proof {
        assert(r.inds() =~= comb_first(k as int));
    }
    r
}

/// Creates a new combinations generator over `src` that hands each
/// combination to the transform `f` and yields the transform's results.
#[verifier::loop_isolation(false)]
pub fn combinations_map<T: Copy, F>(src: Vec<T>, k: usize, f: F) -> (r: CombinationsMap<T, F>)
    ensures
        r.wf(),
        r.src() == src@,
        r.k_spec() == k,
        !r.started(),
        r.n_spec() == if k <= src@.len() {
            k as int
        } else {
            src@.len() as int
        },
        r.manager_spec().func_spec() == f,
{
    let mut pool = LazyBuffer::new(src);
    pool.prefill(k);
    let mut indices: Vec<usize> = Vec::new();
    let mut i: usize = 0;
    while i < k
        invariant
            i <= k,
            i == indices.len(),
            forall|j: int| 0 <= j < i ==> indices@[j] == j,
        decreases k - i,
    {
        indices.push(i);
        i = i + 1;
    }
    let r = CombinationsBase {
        manager: MapSlice::with_capacity(f, k),
        indices,
        pool,
        first: true,
    };
    proof {
        assert(r.inds() =~= comb_first(k as int));
    }
    r
}

impl<T: Copy, F: VecItems<T>> CombinationsBase<T, F> {
    /// Produces the next combination, or reports that the enumeration is
    /// finished — terminally: once `None` is returned, every later call
    /// returns `None` again.
    ///
    /// The first produced combination selects positions `0 .. k` (none when
    /// `k` exceeds the source length); each later one is the lexicographic
    /// successor of the previous index tuple over the whole source.
    #[verifier::loop_isolation(false)]
    pub fn next(&mut self) -> (r: Option<F::Output>)
        requires
            old(self).wf(),
            old(self).manager_spec().inv(),
        ensures
            final(self).wf(),
            final(self).manager_spec().inv(),
            final(self).src() == old(self).src(),
            final(self).k_spec() == old(self).k_spec(),
            final(self).n_spec() >= old(self).n_spec(),
            final(self).n_spec() <= old(self).n_spec() + 1,
            forall|w: Seq<T>, o: F::Output| #[trigger] final(self).manager_spec().item_spec(w, o)
                <==> old(self).manager_spec().item_spec(w, o),
            r is None <==> old(self).exhausted(),
            old(self).exhausted() ==> final(self).exhausted(),
            r is Some ==> final(self).started(),
            r is Some && !old(self).started() ==> final(self).inds() == comb_first(
                old(self).k_spec(),
            ),
            r is Some && old(self).started() ==> Some(final(self).inds()) == comb_succ(
                old(self).inds(),
                old(self).total(),
            ),
            r is Some ==> is_comb(final(self).inds(), old(self).k_spec(), final(self).n_spec()),
            match r {
                Some(out) => old(self).manager_spec().item_spec(
                    selected(final(self).inds(), old(self).src()),
                    out,
                ),
                None => {
                    &&& final(self).inds() == old(self).inds()
                    &&& final(self).started() == old(self).started()
                },
            },
            r is None && old(self).k_spec() >= 1 ==> final(self).n_spec() == final(self).total(),
    {
        let k = self.indices.len();
        if self.first {
            if k > self.pool.len() {
                proof {
                    assert(self.exhausted());
                }
                return None;
            }
            self.first = false;
            proof {
                assert forall|a: int, b: int|
                    0 <= a < b < self.inds().len() implies self.inds()[a] < self.inds()[b] by {}
                assert(is_comb(self.inds(), k as int, self.n_spec()));
            }
        } else if k == 0 {
            return None;
        } else {
            let ghost s0 = self.inds();
            let ghost total = self.total();
            proof {
                lemma_comb_caps(s0, self.n_spec());
            }
            // The rightmost index may sit at the edge of the cache: the
            // combination space may have just gotten larger.
            if self.indices[k - 1] == self.pool.len() - 1 {
                self.pool.get_next();
            }
            let n1 = self.pool.len();
            proof {
                assert(self.n_spec() <= total);
                assert(n1 == total || s0[k - 1] < n1 - 1);
                lemma_comb_caps(s0, n1 as int);
            }
            // Scan from the right for an index that can still grow.
            let mut i: usize = k - 1;
            proof {
                assert forall|j: int| 0 <= j < k implies j <= #[trigger] (self.indices@[j] as int)
                    <= n1 - k + j by {
                    assert(s0[j] == self.indices@[j] as int);
                }
            }
            while self.indices[i] - i == n1 - k
                invariant
                    0 <= i < k,
                    k == self.indices.len(),
                    k <= n1,
                    self.inds() == s0,
                    self.pool.wf(),
                    self.pool.n() == n1,
                    self.pool.src() == old(self).src(),
                    self.pool.src().len() == total,
                    is_comb(s0, k as int, n1 as int),
                    self.manager == old(self).manager,
                    self.first == old(self).first,
                    forall|j: int| i < j < k ==> #[trigger] s0[j] == n1 - k + j,
                    i < k - 1 ==> n1 == total,
                    n1 == total || s0[k - 1] < n1 - 1,
                    forall|j: int| 0 <= j < k ==> j <= #[trigger] s0[j] <= n1 - k + j,
                    forall|j: int| 0 <= j < k ==> j <= #[trigger] (self.indices@[j] as int) <= n1
                        - k + j,
                decreases i,
            {
                if i > 0 {
                    proof {
                        if i == k - 1 {
                            assert(s0[k - 1] == n1 - 1);
                            assert(n1 == total);
                        }
                    }
                    i = i - 1;
                } else {
                    // Every index is at its cap: the enumeration is finished.
                    proof {
                        if k > 1 {
                            assert(n1 == total);
                        } else {
                            assert(s0[0] == n1 - 1);
                            assert(n1 == total);
                        }
                        assert(forall|j: int| 0 <= j < k ==> #[trigger] s0[j] == n1 - k + j);
                        lemma_comb_succ_none(s0, total);
                    }
                    return None;
                }
            }
            proof {
                assert(s0[i as int] < n1 - k + i);
                if i == k - 1 {
                    assert(s0[i as int] < n1 - k + i <= total - k + i);
                } else {
                    assert(n1 == total);
                }
                lemma_comb_succ_at(s0, total, i as int);
                lemma_comb_succ_at(s0, n1 as int, i as int);
            }
            // Increment the found index and renumber those to its right.
            let v = self.indices[i];
            self.indices.set(i, v + 1);
            let mut j: usize = i + 1;
            while j < k
                invariant
                    i < j <= k,
                    k == self.indices.len(),
                    forall|m: int| 0 <= m < j ==> self.inds()[m] == comb_bump(s0, i as int)[m],
                    forall|m: int| j <= m < k ==> self.inds()[m] == s0[m],
                    is_comb(comb_bump(s0, i as int), k as int, n1 as int),
                    self.pool.wf(),
                    self.pool.n() == n1,
                    self.pool.src() == old(self).src(),
                    self.pool.src().len() == total,
                    self.manager == old(self).manager,
                    self.first == old(self).first,
                decreases k - j,
            {
                let w = self.indices[j - 1];
                proof {
                    assert(self.inds()[j - 1] == comb_bump(s0, i as int)[j - 1]);
                    assert(comb_bump(s0, i as int)[j - 1] + 1 == comb_bump(s0, i as int)[
                        j as int
                    ]);
                }
                self.indices.set(j, w + 1);
                j = j + 1;
            }
            proof {
                assert(self.inds() =~= comb_bump(s0, i as int));
            }
        }

        // Read the selected window out of the cache and hand it to the
        // output strategy.
        let ghost t = self.inds();
        let mut window: Vec<T> = Vec::new();
        let mut j: usize = 0;
        while j < k
            invariant
                j <= k,
                k == self.indices.len(),
                self.inds() == t,
                is_comb(t, k as int, self.pool.n()),
                self.pool.wf(),
                self.pool.src() == old(self).src(),
                self.pool.n() >= old(self).n_spec(),
                window@.len() == j,
                forall|m: int| 0 <= m < j ==> window@[m] == selected(t, self.pool.src())[m],
                self.manager == old(self).manager,
                !self.first,
            decreases k - j,
        {
            let idx = self.indices[j];
            proof {
                assert(idx as int == t[j as int]);
            }
            window.push(self.pool.get(idx));
            j = j + 1;
        }
        proof {
            assert(window@ =~= selected(t, self.src()));
        }
        Some(self.manager.new_item(&window))
    }
}

} // verus!
