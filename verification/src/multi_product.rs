//! Enumeration of the cartesian product of several independently-advancing
//! sequences, odometer style: the last lane varies fastest.

use vstd::prelude::*;
use vstd::pervasive::VecAdditionalExecFns;

use crate::model::{
    dims_positive, in_dims, lemma_prod_of_nonneg, lemma_prod_remaining_nonneg, lemma_prod_succ_at,
    lemma_prod_succ_none, prod_bump, prod_first, prod_of, prod_remaining, prod_selected, prod_succ,
};
use crate::size_hint::{lemma_sat_add_left, lemma_sat_mul_left, sat, sat_add, sat_mul};
use crate::vec_items::{CollectToVec, MapSlice, VecItems};

verus! {

/// Holds the state of a single lane within a multi-product: the lane's
/// sequence (retained in full so the lane can be replayed), the position of
/// its advancing pass, and the most recently produced item — absent before
/// the lane's first advance and again once the pass is exhausted.
#[derive(Clone)]
pub struct MultiProductIter<T> {
    cur: Option<T>,
    items: Vec<T>,
    pos: usize,
}

impl<T: Copy> MultiProductIter<T> {
    /// The lane's whole sequence.
    pub closed spec fn items_spec(&self) -> Seq<T> {
        self.items@
    }

    /// How far the current pass has advanced.
    pub closed spec fn pos_spec(&self) -> int {
        self.pos as int
    }

    /// The most recently produced item of the current pass, if any.
    pub closed spec fn cur_spec(&self) -> Option<T> {
        self.cur
    }

    pub open spec fn wf(&self) -> bool {
        0 <= self.pos_spec() <= self.items_spec().len()
    }

    pub fn new(items: Vec<T>) -> (r: Self)
        ensures
            r.wf(),
            r.items_spec() == items@,
            r.pos_spec() == 0,
            r.cur_spec() is None,
    {
        MultiProductIter { cur: None, items, pos: 0 }
    }

    /// Advance the lane one step: produce the next item of the pass, or
    /// record that the pass is exhausted.
    pub fn iterate(&mut self)
        requires
            old(self).wf(),
        ensures
            final(self).wf(),
            final(self).items_spec() == old(self).items_spec(),
            old(self).pos_spec() < old(self).items_spec().len() ==> {
                &&& final(self).cur_spec() == Some(old(self).items_spec()[old(self).pos_spec()])
                &&& final(self).pos_spec() == old(self).pos_spec() + 1
            },
            old(self).pos_spec() >= old(self).items_spec().len() ==> {
                &&& final(self).cur_spec() is None
                &&& final(self).pos_spec() == old(self).pos_spec()
            },
    {
        if self.pos < self.items.len() {
            self.cur = Some(self.items[self.pos]);
            self.pos = self.pos + 1;
        } else {
            self.cur = None;
        }
    }

    /// Rewind the pass to the start of the lane's sequence; the produced
    /// item is untouched until the next advance.
    pub fn reset(&mut self)
        ensures
            final(self).wf(),
            final(self).items_spec() == old(self).items_spec(),
            final(self).cur_spec() == old(self).cur_spec(),
            final(self).pos_spec() == 0,
    {
        self.pos = 0;
    }

    /// Whether the current pass has produced an item and is not yet
    /// exhausted.
    pub fn in_progress(&self) -> (r: bool)
        ensures
            r == (self.cur_spec() is Some),
    {
        self.cur.is_some()
    }

    /// How far the current pass has advanced.
    pub fn position(&self) -> (r: usize)
        ensures
            r == self.pos_spec(),
    {
        self.pos
    }

    /// Length of the lane's whole sequence.
    pub fn total_len(&self) -> (r: usize)
        ensures
            r == self.items_spec().len(),
    {
        self.items.len()
    }

    /// The lane's final element.
    pub fn last_item(&self) -> (r: T)
        requires
            self.items_spec().len() >= 1,
        ensures
            r == self.items_spec().last(),
    {
        self.items[self.items.len() - 1]
    }

    /// The most recently produced item.
    pub fn current(&self) -> (r: T)
        requires
            self.cur_spec() is Some,
        ensures
            Some(r) == self.cur_spec(),
    {
        self.cur.unwrap()
    }
}

/// A generator of the cartesian product of several lanes: each produced
/// tuple takes one element from every lane, and tuples come out in odometer
/// order, the last lane varying fastest.
#[derive(Clone)]
pub struct MultiProductBase<T, F> {
    manager: F,
    iters: Vec<MultiProductIter<T>>,
    done: bool,
}

/// Product tuples yielded as owned vectors of elements.
pub type MultiProduct<T> = MultiProductBase<T, CollectToVec>;

/// Product tuples handed to a caller-supplied transform.
pub type MultiProductMap<T, F> = MultiProductBase<T, MapSlice<F, T>>;

impl<T: Copy, F> MultiProductBase<T, F> {
    /// The lanes' whole sequences.
    pub closed spec fn lanes(&self) -> Seq<Seq<T>> {
        self.iters@.map_values(|it: MultiProductIter<T>| it.items_spec())
    }

    /// The length of each lane.
    pub open spec fn dims(&self) -> Seq<int> {
        Seq::new(self.lanes().len(), |j: int| self.lanes()[j].len() as int)
    }

    /// Each lane's pass position.
    pub closed spec fn poss(&self) -> Seq<int> {
        self.iters@.map_values(|it: MultiProductIter<T>| it.pos_spec())
    }

    /// Each lane's most recently produced item.
    pub closed spec fn curs(&self) -> Seq<Option<T>> {
        self.iters@.map_values(|it: MultiProductIter<T>| it.cur_spec())
    }

    /// Whether the product has reported finished.
    pub closed spec fn done_spec(&self) -> bool {
        self.done
    }

    /// The output strategy.
    pub closed spec fn manager_spec(&self) -> F {
        self.manager
    }

    /// The current position tuple, one position per lane.
    pub open spec fn tuple(&self) -> Seq<int> {
        Seq::new(self.poss().len(), |j: int| self.poss()[j] - 1)
    }

    /// No lane has been advanced yet.
    pub open spec fn is_fresh(&self) -> bool {
        forall|j: int| 0 <= j < self.poss().len() ==> #[trigger] self.poss()[j] == 0
            && self.curs()[j] is None
    }

    /// Every lane is mid-pass and holds the item its position selects.
    pub open spec fn is_active(&self) -> bool {
        &&& in_dims(self.tuple(), self.dims())
        &&& forall|j: int| 0 <= j < self.poss().len() ==> #[trigger] self.poss()[j] == self.tuple()[j]
            + 1 && self.curs()[j] == Some(self.lanes()[j][self.tuple()[j]])
    }

    pub open spec fn wf(&self) -> bool {
        &&& self.poss().len() == self.dims().len()
        &&& self.curs().len() == self.dims().len()
        &&& (self.done_spec() || self.is_fresh() || self.is_active())
    }

    /// The generator has nothing left to produce: every further call to
    /// `next` reports finished.
    pub open spec fn exhausted(&self) -> bool {
        ||| self.done_spec()
        ||| self.dims().len() == 0
        ||| (self.is_fresh() && !dims_positive(self.dims()))
        ||| (!self.is_fresh() && prod_succ(self.tuple(), self.dims()) is None)
    }

    /// Number of lanes, which is also the length of every produced tuple.
    pub fn lane_count(&self) -> (r: usize)
        ensures
            r == self.dims().len(),
    {
        self.iters.len()
    }

    /// Whether iteration has started and has not yet finished, read off the
    /// last lane.
    pub fn in_progress(&self) -> (r: bool)
        ensures
            r == (self.dims().len() >= 1 && self.curs().last() is Some),
    {
        let m = self.iters.len();
        if m == 0 {
            false
        } else {
            self.iters[m - 1].in_progress()
        }
    }

    /// How many tuples have not been produced yet: the product of all lane
    /// lengths before the first advance, and the count of position tuples
    /// after the current one while mid-cycle.
    pub open spec fn remaining(&self) -> int {
        if self.done_spec() || self.dims().len() == 0 {
            0
        } else if self.is_fresh() {
            prod_of(self.dims())
        } else {
            prod_remaining(self.tuple(), self.dims())
        }
    }

    /// A lower and an upper bound on the count of tuples not yet produced;
    /// both equal that count, clamped to the representable range.
    #[verifier::loop_isolation(false)]
    pub fn size_hint(&self) -> (r: (usize, Option<usize>))
        requires
            self.wf(),
        ensures
            r.0 == sat(self.remaining()),
            r.1 == Some(r.0),
    {
        let m = self.iters.len();
        if self.done || m == 0 {
            return (0, Some(0));
        }
        let ghost dims0 = self.dims();
        if !self.in_progress() {
            proof {
                assert(self.curs().last() is None);
                if self.is_active() {
                    assert(self.poss()[m - 1] == self.tuple()[m - 1] + 1);
                    assert(false);
                }
                assert(self.is_fresh());
                assert(dims0.take(0) =~= Seq::<int>::empty());
            }
            let mut acc: usize = 1;
            let mut j: usize = 0;
            while j < m
                invariant
                    0 <= j <= m,
                    acc == sat(prod_of(dims0.take(j as int))),
                decreases m - j,
            {
                let n = self.iters[j].total_len();
                proof {
                    assert(self.lanes()[j as int] == self.iters@[j as int].items_spec());
                    assert(dims0[j as int] == n as int);
                    assert(dims0.take(j as int + 1).drop_last() =~= dims0.take(j as int));
                    assert(forall|l: int|
                        0 <= l < dims0.take(j as int).len() ==> #[trigger] dims0.take(j as int)[l]
                            >= 0);
                    lemma_prod_of_nonneg(dims0.take(j as int));
                    lemma_sat_mul_left(prod_of(dims0.take(j as int)), n as int);
                }
                acc = sat_mul(acc, n);
                j = j + 1;
            }
            proof {
                assert(dims0.take(m as int) =~= dims0);
            }
            (acc, Some(acc))
        } else {
            proof {
                assert(self.curs()[m - 1] is Some);
                if self.is_fresh() {
                    assert(self.poss()[m - 1] == 0);
                    assert(false);
                }
                assert(!self.is_fresh());
                assert(self.is_active());
            }
            let ghost c0 = self.tuple();
            proof {
                assert(c0.take(0) =~= Seq::<int>::empty());
                assert(dims0.take(0) =~= Seq::<int>::empty());
            }
            let mut acc: usize = 0;
            let mut j: usize = 0;
            while j < m
                invariant
                    0 <= j <= m,
                    acc == sat(prod_remaining(c0.take(j as int), dims0.take(j as int))),
                decreases m - j,
            {
                let n = self.iters[j].total_len();
                let pos = self.iters[j].position();
                proof {
                    assert(self.lanes()[j as int] == self.iters@[j as int].items_spec());
                    assert(self.poss()[j as int] == self.iters@[j as int].pos_spec());
                    assert(dims0[j as int] == n as int);
                    assert(self.poss()[j as int] == c0[j as int] + 1);
                    assert(0 <= c0[j as int] < dims0[j as int]);
                    assert(c0.take(j as int + 1).drop_last() =~= c0.take(j as int));
                    assert(dims0.take(j as int + 1).drop_last() =~= dims0.take(j as int));
                    assert(in_dims(c0.take(j as int), dims0.take(j as int)));
                    lemma_prod_remaining_nonneg(c0.take(j as int), dims0.take(j as int));
                    lemma_sat_mul_left(
                        prod_remaining(c0.take(j as int), dims0.take(j as int)),
                        n as int,
                    );
                    assert(prod_remaining(c0.take(j as int), dims0.take(j as int)) * n >= 0)
                        by (nonlinear_arith)
                        requires
                            prod_remaining(c0.take(j as int), dims0.take(j as int)) >= 0,
                            n >= 0,
                    ;
                    lemma_sat_add_left(
                        prod_remaining(c0.take(j as int), dims0.take(j as int)) * n,
                        n - pos,
                    );
                }
                acc = sat_add(sat_mul(acc, n), n - pos);
                j = j + 1;
            }
            proof {
                assert(c0.take(m as int) =~= c0);
                assert(dims0.take(m as int) =~= dims0);
            }
            (acc, Some(acc))
        }
    }

    /// Advances the rightmost lane, carrying leftward: a lane that exhausts
    /// its pass asks the lanes to its left to advance, then rewinds and
    /// takes its first item again. Reports whether a full tuple is ready.
    #[verifier::loop_isolation(false)]
    fn iterate_last(&mut self) -> (ok: bool)
        requires
            old(self).wf(),
            !old(self).done_spec(),
            old(self).dims().len() >= 1,
        ensures
            final(self).lanes() == old(self).lanes(),
            final(self).done_spec() == old(self).done_spec(),
            final(self).manager_spec() == old(self).manager_spec(),
            old(self).is_fresh() ==> (ok <==> dims_positive(old(self).dims())),
            old(self).is_fresh() && ok ==> final(self).is_active() && final(self).tuple()
                == prod_first(old(self).dims().len() as int),
            !old(self).is_fresh() ==> (ok <==> prod_succ(old(self).tuple(), old(self).dims())
                is Some),
            !old(self).is_fresh() && ok ==> final(self).is_active() && Some(final(self).tuple())
                == prod_succ(old(self).tuple(), old(self).dims()),
    {
        let m = self.iters.len();
        let ghost dims0 = self.dims();
        let ghost c0 = self.tuple();
        let ghost lanes0 = self.lanes();
        if !self.iters[m - 1].in_progress() {
            // First touch: every lane takes its first item; one empty lane
            // makes the whole product empty.
            proof {
                assert(self.iters@[m - 1].cur_spec() == self.curs()[m - 1]);
                assert(old(self).is_fresh());
                assert forall|l: int| 0 <= l < m implies #[trigger] self.iters@[l].pos_spec()
                    == 0 by {
                    assert(self.poss()[l] == self.iters@[l].pos_spec());
                }
                assert forall|l: int| 0 <= l < m implies #[trigger] self.iters@[l].cur_spec()
                    is None by {
                    assert(self.poss()[l] == self.iters@[l].pos_spec());
                    assert(self.curs()[l] == self.iters@[l].cur_spec());
                }
            }
            let mut j: usize = 0;
            while j < m
                invariant
                    0 <= j <= m,
                    m == self.iters@.len(),
                    self.lanes() == lanes0,
                    self.manager == old(self).manager,
                    self.done == old(self).done,
                    forall|l: int| 0 <= l < j ==> #[trigger] self.iters@[l].pos_spec() == 1,
                    forall|l: int| 0 <= l < j ==> #[trigger] self.iters@[l].cur_spec() == Some(
                        self.iters@[l].items_spec()[0],
                    ),
                    forall|l: int| 0 <= l < j ==> #[trigger] dims0[l] >= 1,
                    forall|l: int| j <= l < m ==> #[trigger] self.iters@[l].pos_spec() == 0,
                    forall|l: int| j <= l < m ==> #[trigger] self.iters@[l].cur_spec() is None,
                decreases m - j,
            {
                let ghost pre = self.iters@;
                self.iters[j].iterate();
                let prog = self.iters[j].in_progress();
                proof {
                    assert(self.iters@ == pre.update(j as int, self.iters@[j as int]));
                    assert(pre[j as int].items_spec() == lanes0[j as int]);
                    assert(pre[j as int].pos_spec() == 0);
                }
                if !prog {
                    proof {
                        assert(dims0[j as int] == 0);
                        assert(!dims_positive(dims0));
                    }
                    return false;
                }
                proof {
                    assert(self.lanes() =~= lanes0);
                    assert forall|l: int| 0 <= l < j + 1 implies #[trigger] self.iters@[
                        l
                    ].pos_spec() == 1 by {
                        if l < j {
                            assert(self.iters@[l] == pre[l]);
                            assert(pre[l].pos_spec() == 1);
                        }
                    }
                    assert forall|l: int| 0 <= l < j + 1 implies #[trigger] self.iters@[
                        l
                    ].cur_spec() == Some(self.iters@[l].items_spec()[0]) by {
                        if l < j {
                            assert(self.iters@[l] == pre[l]);
                            assert(pre[l].cur_spec() == Some(pre[l].items_spec()[0]));
                        }
                    }
                    assert forall|l: int| 0 <= l < j + 1 implies #[trigger] dims0[l] >= 1 by {
                        if l == j {
                            assert(self.iters@[l].items_spec().len() > 0);
                        }
                    }
                    assert forall|l: int| j + 1 <= l < m implies #[trigger] self.iters@[
                        l
                    ].pos_spec() == 0 by {
                        assert(self.iters@[l] == pre[l]);
                        assert(pre[l].pos_spec() == 0);
                    }
                    assert forall|l: int| j + 1 <= l < m implies #[trigger] self.iters@[
                        l
                    ].cur_spec() is None by {
                        assert(self.iters@[l] == pre[l]);
                        assert(pre[l].pos_spec() == 0);
                        assert(pre[l].cur_spec() is None);
                    }
                }
                j = j + 1;
            }
            proof {
                assert forall|l: int| 0 <= l < m implies #[trigger] self.poss()[l] == 1
                    && self.curs()[l] == Some(self.lanes()[l][0]) by {
                    assert(self.poss()[l] == self.iters@[l].pos_spec());
                    assert(self.curs()[l] == self.iters@[l].cur_spec());
                    assert(self.iters@[l].cur_spec() == Some(self.iters@[l].items_spec()[0]));
                }
                assert(self.tuple() =~= prod_first(m as int));
                assert forall|l: int| 0 <= l < m implies #[trigger] dims0[l] >= 1 by {
                    assert(self.iters@[l].pos_spec() == 1);
                }
                assert(dims_positive(dims0));
                assert(self.is_active());
            }
            true
        } else {
            // Mid-cycle: advance from the right, carrying into the first
            // lane that still has an item; reset every lane passed over.
            proof {
                assert(self.iters@[m - 1].cur_spec() == self.curs()[m - 1]);
                assert(!old(self).is_fresh());
                assert(old(self).is_active());
                assert(forall|l: int| 0 <= l < m ==> 0 <= #[trigger] c0[l] < dims0[l]);
                assert forall|l: int| 0 <= l < m implies #[trigger] self.iters@[l].pos_spec() == c0[
                    l
                ] + 1 && self.iters@[l].cur_spec() == Some(self.iters@[l].items_spec()[c0[l]])
                    && self.iters@[l].items_spec().len() == dims0[l] by {
                    assert(self.poss()[l] == self.iters@[l].pos_spec());
                    assert(self.curs()[l] == self.iters@[l].cur_spec());
                    assert(self.lanes()[l] == self.iters@[l].items_spec());
                }
            }
            let mut i: usize = m;
            let mut found = false;
            while i > 0 && !found
                invariant
                    0 <= i <= m,
                    m == self.iters@.len(),
                    self.lanes() == lanes0,
                    self.manager == old(self).manager,
                    self.done == old(self).done,
                    forall|l: int| 0 <= l < m ==> 0 <= #[trigger] c0[l] < dims0[l],
                    forall|l: int|
                        0 <= l < (if found { i - 1 } else { i as int })
                            ==> #[trigger] self.iters@[l].pos_spec() == c0[l] + 1,
                    forall|l: int|
                        0 <= l < (if found { i - 1 } else { i as int })
                            ==> #[trigger] self.iters@[l].cur_spec() == Some(
                            self.iters@[l].items_spec()[c0[l]],
                        ),
                    forall|l: int| 0 <= l < m ==> #[trigger] self.iters@[l].items_spec().len()
                        == dims0[l],
                    forall|l: int| i <= l < m ==> #[trigger] self.iters@[l].pos_spec() == dims0[l],
                    forall|l: int| i <= l < m ==> #[trigger] self.iters@[l].cur_spec() is None,
                    forall|l: int| i <= l < m ==> #[trigger] c0[l] + 1 == dims0[l],
                    found ==> i >= 1 && c0[i - 1] + 1 < dims0[i - 1] && self.iters@[i
                        - 1].pos_spec() == c0[i - 1] + 2 && self.iters@[i - 1].cur_spec() == Some(
                        self.iters@[i - 1].items_spec()[c0[i - 1] + 1],
                    ),
                decreases 2 * i + (if found { 0int } else { 1int }),
            {
                let ghost pre = self.iters@;
                self.iters[i - 1].iterate();
                let prog = self.iters[i - 1].in_progress();
                proof {
                    assert(self.iters@ == pre.update(i - 1, self.iters@[i - 1]));
                    assert(pre[i - 1].pos_spec() == c0[i - 1] + 1);
                    assert(pre[i - 1].items_spec().len() == dims0[i - 1]);
                    if prog {
                        assert(c0[i - 1] + 1 < dims0[i - 1]);
                        assert(self.iters@[i - 1].pos_spec() == c0[i - 1] + 2);
                        assert(self.iters@[i - 1].cur_spec() == Some(
                            self.iters@[i - 1].items_spec()[c0[i - 1] + 1],
                        ));
                    } else {
                        assert(c0[i - 1] + 1 == dims0[i - 1]);
                        assert(self.iters@[i - 1].pos_spec() == dims0[i - 1]);
                        assert(self.iters@[i - 1].cur_spec() is None);
                    }
                    assert(self.lanes() =~= lanes0);
                    assert forall|l: int| 0 <= l < m implies #[trigger] self.iters@[
                        l
                    ].items_spec().len() == dims0[l] by {
                        if l != i - 1 {
                            assert(self.iters@[l] == pre[l]);
                            assert(pre[l].items_spec().len() == dims0[l]);
                        }
                    }
                    assert forall|l: int| 0 <= l < i - 1 implies #[trigger] self.iters@[
                        l
                    ].pos_spec() == c0[l] + 1 by {
                        assert(self.iters@[l] == pre[l]);
                        assert(pre[l].pos_spec() == c0[l] + 1);
                    }
                    assert forall|l: int| 0 <= l < i - 1 implies #[trigger] self.iters@[
                        l
                    ].cur_spec() == Some(self.iters@[l].items_spec()[c0[l]]) by {
                        assert(self.iters@[l] == pre[l]);
                        assert(pre[l].cur_spec() == Some(pre[l].items_spec()[c0[l]]));
                    }
                    assert forall|l: int| i <= l < m implies #[trigger] self.iters@[l].pos_spec()
                        == dims0[l] by {
                        assert(self.iters@[l] == pre[l]);
                        assert(pre[l].pos_spec() == dims0[l]);
                    }
                    assert forall|l: int| i <= l < m implies #[trigger] self.iters@[l].cur_spec()
                        is None by {
                        assert(self.iters@[l] == pre[l]);
                        assert(pre[l].cur_spec() is None);
                    }
                }
                if prog {
                    found = true;
                } else {
                    proof {
                        assert forall|l: int| i - 1 <= l < m implies #[trigger] c0[l] + 1 == dims0[
                            l
                        ] by {}
                    }
                    i = i - 1;
                }
            }
            if !found {
                proof {
                    assert forall|l: int| 0 <= l < m implies #[trigger] c0[l] + 1 == dims0[l] by {
                        assert(self.iters@[l].pos_spec() == dims0[l]);
                    }
                    lemma_prod_succ_none(c0, dims0);
                }
                return false;
            }
            let p = i - 1;
            proof {
                assert forall|l: int| p < l < m implies #[trigger] c0[l] + 1 == dims0[l] by {
                    assert(self.iters@[l].pos_spec() == dims0[l]);
                }
                lemma_prod_succ_at(c0, dims0, p as int);
            }
            // Rewind the lanes to the right of the carry point and take
            // their first items; every such lane is known non-empty.
            let mut j: usize = i;
            while j < m
                invariant
                    1 <= i <= j <= m,
                    p == i - 1,
                    m == self.iters@.len(),
                    self.lanes() == lanes0,
                    self.manager == old(self).manager,
                    self.done == old(self).done,
                    forall|l: int| 0 <= l < m ==> 0 <= #[trigger] c0[l] < dims0[l],
                    forall|l: int| 0 <= l < m ==> #[trigger] self.iters@[l].items_spec().len()
                        == dims0[l],
                    forall|l: int| 0 <= l < p ==> #[trigger] self.iters@[l].pos_spec() == c0[l]
                        + 1,
                    forall|l: int| 0 <= l < p ==> #[trigger] self.iters@[l].cur_spec() == Some(
                        self.iters@[l].items_spec()[c0[l]],
                    ),
                    c0[p as int] + 1 < dims0[p as int],
                    self.iters@[p as int].pos_spec() == c0[p as int] + 2
                        && self.iters@[p as int].cur_spec() == Some(
                        self.iters@[p as int].items_spec()[c0[p as int] + 1],
                    ),
                    forall|l: int| i <= l < j ==> #[trigger] self.iters@[l].pos_spec() == 1,
                    forall|l: int| i <= l < j ==> #[trigger] self.iters@[l].cur_spec() == Some(
                        self.iters@[l].items_spec()[0],
                    ),
                    forall|l: int| j <= l < m ==> #[trigger] self.iters@[l].pos_spec() == dims0[l]
                        && c0[l] + 1 == dims0[l],
                decreases m - j,
            {
                let ghost pre = self.iters@;
                self.iters[j].reset();
                proof {
                    assert(self.iters@ == pre.update(j as int, self.iters@[j as int]));
                }
                let ghost pre2 = self.iters@;
                self.iters[j].iterate();
                proof {
                    assert(self.iters@ == pre2.update(j as int, self.iters@[j as int]));
                    assert(pre2[j as int].pos_spec() == 0);
                    assert(pre2[j as int].items_spec() == pre[j as int].items_spec());
                    assert(pre[j as int].items_spec().len() == dims0[j as int]);
                    assert(0 <= c0[j as int] < dims0[j as int]);
                    assert(self.iters@[j as int].pos_spec() == 1);
                    assert(self.iters@[j as int].cur_spec() == Some(
                        self.iters@[j as int].items_spec()[0],
                    ));
                    assert(self.lanes() =~= lanes0);
                    assert forall|l: int| 0 <= l < m implies #[trigger] self.iters@[
                        l
                    ].items_spec().len() == dims0[l] by {
                        if l != j {
                            assert(self.iters@[l] == pre[l]);
                            assert(pre[l].items_spec().len() == dims0[l]);
                        }
                    }
                    assert forall|l: int| 0 <= l < p implies #[trigger] self.iters@[l].pos_spec()
                        == c0[l] + 1 by {
                        assert(self.iters@[l] == pre[l]);
                        assert(pre[l].pos_spec() == c0[l] + 1);
                    }
                    assert forall|l: int| 0 <= l < p implies #[trigger] self.iters@[l].cur_spec()
                        == Some(self.iters@[l].items_spec()[c0[l]]) by {
                        assert(self.iters@[l] == pre[l]);
                        assert(pre[l].cur_spec() == Some(pre[l].items_spec()[c0[l]]));
                    }
                    assert forall|l: int| i <= l < j + 1 implies #[trigger] self.iters@[
                        l
                    ].pos_spec() == 1 by {
                        if l < j {
                            assert(self.iters@[l] == pre[l]);
                            assert(pre[l].pos_spec() == 1);
                        }
                    }
                    assert forall|l: int| i <= l < j + 1 implies #[trigger] self.iters@[
                        l
                    ].cur_spec() == Some(self.iters@[l].items_spec()[0]) by {
                        if l < j {
                            assert(self.iters@[l] == pre[l]);
                            assert(pre[l].cur_spec() == Some(pre[l].items_spec()[0]));
                        }
                    }
                    assert forall|l: int| j + 1 <= l < m implies #[trigger] self.iters@[
                        l
                    ].pos_spec() == dims0[l] && c0[l] + 1 == dims0[l] by {
                        assert(self.iters@[l] == pre[l]);
                        assert(pre[l].pos_spec() == dims0[l]);
                    }
                }
                j = j + 1;
            }
            proof {
                assert forall|l: int| 0 <= l < m implies #[trigger] self.poss()[l]
                    == self.iters@[l].pos_spec() && self.curs()[l] == self.iters@[l].cur_spec()
                    && self.lanes()[l] == self.iters@[l].items_spec() by {}
                assert(self.tuple() =~= prod_bump(c0, p as int));
                assert(self.is_active());
            }
            true
        }
    }
}

/// Creates a new cartesian product generator over the given lanes that
/// yields each tuple as an owned vector, one element per lane.
#[verifier::loop_isolation(false)]
pub fn multi_cartesian_product<T: Copy>(iters: Vec<Vec<T>>) -> (r: MultiProduct<T>)
    ensures
        r.wf(),
        r.lanes() == iters@.map_values(|v: Vec<T>| v@),
        r.is_fresh(),
        !r.done_spec(),
        r.manager_spec() == CollectToVec,
{
    let mut lanes: Vec<MultiProductIter<T>> = Vec::new();
    let mut j: usize = 0;
    let m = iters.len();
    let mut iters = iters;
    let ghost lanes0 = iters@.map_values(|v: Vec<T>| v@);
    while j < m
        invariant
            0 <= j <= m,
            j == lanes.len(),
            m == iters@.len() + j,
            forall|l: int| 0 <= l < j ==> #[trigger] lanes@[l].items_spec() == lanes0[l]
                && lanes@[l].pos_spec() == 0 && lanes@[l].cur_spec() is None,
            forall|l: int| 0 <= l < iters@.len() ==> #[trigger] iters@[l]@ == lanes0[l + j],
        decreases m - j,
    {
        let ghost lanes_pre = lanes@;
        let ghost iters_pre = iters@;
        let lane_items = iters.remove(0);
        let lane = MultiProductIter::new(lane_items);
        let ghost glane = lane;
        lanes.push(lane);
        proof {
            assert(lane_items@ == iters_pre[0]@);
            assert(iters_pre[0]@ == lanes0[j as int]);
            assert(lanes@ == lanes_pre.push(glane));
            assert forall|l: int| 0 <= l <= j implies #[trigger] lanes@[l].items_spec()
                == lanes0[l] && lanes@[l].pos_spec() == 0 && lanes@[l].cur_spec() is None by {
                if l < j {
                    assert(lanes@[l] == lanes_pre[l]);
                    assert(lanes_pre[l].items_spec() == lanes0[l]);
                } else {
                    assert(lanes@[l] == glane);
                }
            }
            assert forall|l: int| 0 <= l < iters@.len() implies #[trigger] iters@[l]@ == lanes0[
                l + j + 1
            ] by {
                assert(iters@[l] == iters_pre[l + 1]);
                assert(iters_pre[l + 1]@ == lanes0[l + 1 + j]);
            }
        }
        j = j + 1;
    }
    let r = MultiProductBase { manager: CollectToVec, iters: lanes, done: false };
    proof {
        assert(r.lanes() =~= lanes0);
        assert forall|l: int| 0 <= l < r.poss().len() implies #[trigger] r.poss()[l] == 0
            && r.curs()[l] is None by {
            assert(lanes@[l].items_spec() == lanes0[l]);
        }
        assert(r.is_fresh());
    }
    r
}

/// Creates a new cartesian product generator over the given lanes that
/// hands each tuple to the transform `f` and yields the transform's results.
#[verifier::loop_isolation(false)]
pub fn multi_cartesian_product_map<T: Copy, F>(iters: Vec<Vec<T>>, f: F) -> (r: MultiProductMap<
    T,
    F,
>)
    ensures
        r.wf(),
        r.lanes() == iters@.map_values(|v: Vec<T>| v@),
        r.is_fresh(),
        !r.done_spec(),
        r.manager_spec().func_spec() == f,
{
    let m = iters.len();
    let mut lanes: Vec<MultiProductIter<T>> = Vec::new();
    let mut j: usize = 0;
    let mut iters = iters;
    let ghost lanes0 = iters@.map_values(|v: Vec<T>| v@);
    while j < m
        invariant
            0 <= j <= m,
            j == lanes.len(),
            m == iters@.len() + j,
            forall|l: int| 0 <= l < j ==> #[trigger] lanes@[l].items_spec() == lanes0[l]
                && lanes@[l].pos_spec() == 0 && lanes@[l].cur_spec() is None,
            forall|l: int| 0 <= l < iters@.len() ==> #[trigger] iters@[l]@ == lanes0[l + j],
        decreases m - j,
    {
        let ghost lanes_pre = lanes@;
        let ghost iters_pre = iters@;
        let lane_items = iters.remove(0);
        let lane = MultiProductIter::new(lane_items);
        let ghost glane = lane;
        lanes.push(lane);
        proof {
            assert(lane_items@ == iters_pre[0]@);
            assert(iters_pre[0]@ == lanes0[j as int]);
            assert(lanes@ == lanes_pre.push(glane));
            assert forall|l: int| 0 <= l <= j implies #[trigger] lanes@[l].items_spec()
                == lanes0[l] && lanes@[l].pos_spec() == 0 && lanes@[l].cur_spec() is None by {
                if l < j {
                    assert(lanes@[l] == lanes_pre[l]);
                    assert(lanes_pre[l].items_spec() == lanes0[l]);
                } else {
                    assert(lanes@[l] == glane);
                }
            }
            assert forall|l: int| 0 <= l < iters@.len() implies #[trigger] iters@[l]@ == lanes0[
                l + j + 1
            ] by {
                assert(iters@[l] == iters_pre[l + 1]);
                assert(iters_pre[l + 1]@ == lanes0[l + 1 + j]);
            }
        }
        j = j + 1;
    }
    let r = MultiProductBase { manager: MapSlice::with_capacity(f, m), iters: lanes, done: false };
    proof {
        assert(r.lanes() =~= lanes0);
        assert forall|l: int| 0 <= l < r.poss().len() implies #[trigger] r.poss()[l] == 0
            && r.curs()[l] is None by {
            assert(lanes@[l].items_spec() == lanes0[l]);
        }
        assert(r.is_fresh());
    }
    r
}

impl<T: Copy, F: VecItems<T>> MultiProductBase<T, F> {
    /// Produces the next product tuple, or reports that the enumeration is
    /// finished — terminally: once `None` is returned, the generator is
    /// flagged finished and every later call returns `None` again.
    ///
    /// The first produced tuple takes every lane's first element (none when
    /// there are no lanes or some lane is empty); each later one is the
    /// odometer successor of the previous position tuple.
    #[verifier::loop_isolation(false)]
    pub fn next(&mut self) -> (r: Option<F::Output>)
        requires
            old(self).wf(),
            old(self).manager_spec().inv(),
        ensures
            final(self).wf(),
            final(self).manager_spec().inv(),
            final(self).lanes() == old(self).lanes(),
            forall|w: Seq<T>, o: F::Output| #[trigger] final(self).manager_spec().item_spec(w, o)
                <==> old(self).manager_spec().item_spec(w, o),
            r is None <==> old(self).exhausted(),
            r is None ==> final(self).done_spec(),
            old(self).exhausted() ==> final(self).exhausted(),
            r is Some ==> final(self).is_active() && !final(self).done_spec(),
            r is Some && old(self).is_fresh() ==> final(self).tuple() == prod_first(
                old(self).dims().len() as int,
            ),
            r is Some && !old(self).is_fresh() ==> Some(final(self).tuple()) == prod_succ(
                old(self).tuple(),
                old(self).dims(),
            ),
            match r {
                Some(out) => old(self).manager_spec().item_spec(
                    prod_selected(final(self).tuple(), old(self).lanes()),
                    out,
                ),
                None => true,
            },
    {
        if self.done {
            return None;
        }
        let m = self.iters.len();
        if m == 0 {
            self.done = true;
            return None;
        }
        let ok = self.iterate_last();
        if !ok {
            self.done = true;
            return None;
        }
        let ghost c = self.tuple();
        let mut window: Vec<T> = Vec::new();
        let mut j: usize = 0;
        while j < m
            invariant
                0 <= j <= m,
                m == self.iters@.len(),
                window@.len() == j,
                forall|l: int| 0 <= l < j ==> #[trigger] window@[l] == prod_selected(
                    c,
                    self.lanes(),
                )[l],
            decreases m - j,
        {
            proof {
                assert(self.poss()[j as int] == self.iters@[j as int].pos_spec());
                assert(self.curs()[j as int] == self.iters@[j as int].cur_spec());
                assert(self.lanes()[j as int] == self.iters@[j as int].items_spec());
            }
            let x = self.iters[j].current();
            window.push(x);
            j = j + 1;
        }
        proof {
            assert(window@ =~= prod_selected(c, self.lanes()));
        }
        Some(self.manager.new_item(&window))
    }

    /// Consumes the generator and reports how many tuples it would still
    /// produce, clamped to the representable range.
    pub fn count(self) -> (r: usize)
        requires
            self.wf(),
        ensures
            r == sat(self.remaining()),
    {
        let (lo, _) = self.size_hint();
        lo
    }

    /// Consumes the generator and produces the final tuple of the whole
    /// enumeration — every lane's last element — or `None` when some lane's
    /// current pass has already ended or is empty.
    #[verifier::loop_isolation(false)]
    pub fn last(self) -> (r: Option<F::Output>)
        requires
            self.wf(),
            self.manager_spec().inv(),
        ensures
            r is Some <==> (forall|j: int|
                0 <= j < self.dims().len() ==> #[trigger] self.poss()[j] < self.dims()[j]),
            match r {
                Some(out) => self.manager_spec().item_spec(
                    Seq::new(self.dims().len() as nat, |j: int| self.lanes()[j].last()),
                    out,
                ),
                None => true,
            },
    {
        let mut this = self;
        let m = this.iters.len();
        let ghost lasts = Seq::new(this.dims().len() as nat, |j: int| this.lanes()[j].last());
        let mut window: Vec<T> = Vec::new();
        let mut j: usize = 0;
        while j < m
            invariant
                0 <= j <= m,
                this == self,
                m == this.iters@.len(),
                window@.len() == j,
                forall|l: int| 0 <= l < j ==> #[trigger] self.poss()[l] < self.dims()[l],
                forall|l: int| 0 <= l < j ==> #[trigger] window@[l] == lasts[l],
            decreases m - j,
        {
            let pos = this.iters[j].position();
            let n = this.iters[j].total_len();
            proof {
                assert(self.poss()[j as int] == this.iters@[j as int].pos_spec());
                assert(self.lanes()[j as int] == this.iters@[j as int].items_spec());
            }
            if pos >= n {
                return None;
            }
            window.push(this.iters[j].last_item());
            j = j + 1;
        }
        proof {
            assert(window@ =~= lasts);
        }
        Some(this.manager.new_item(&window))
    }
}

} // verus!
