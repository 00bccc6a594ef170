//! Prefix-accumulation adaptors: running folds over a source sequence,
//! yielding one intermediate accumulator value per step.

use vstd::prelude::*;

use crate::size_hint::{sat, sat_add};

verus! {

/// Yields the running fold of a source under a combining function: first the
/// first element, then the combination of the accumulator with each further
/// element in turn. A source of `n` elements gives `n` values.
#[derive(Clone)]
pub struct Accumulate<T, F> {
    items: Vec<T>,
    pos: usize,
    peeked: Option<Option<T>>,
    func: F,
}

impl<T: Copy, F: Fn(&T, T) -> T> Accumulate<T, F> {
    /// The whole source sequence.
    pub closed spec fn items_spec(&self) -> Seq<T> {
        self.items@
    }

    /// How many source elements have been consumed.
    pub closed spec fn pos_spec(&self) -> int {
        self.pos as int
    }

    /// Whether the accumulator has been primed with the first element.
    pub closed spec fn primed(&self) -> bool {
        self.peeked is Some
    }

    /// The pending accumulator value, once primed; `None` marks the end.
    pub closed spec fn acc_spec(&self) -> Option<T> {
        self.peeked->Some_0
    }

    /// The combining function.
    pub closed spec fn func_spec(&self) -> F {
        self.func
    }

    /// The combining function accepts any accumulator and element.
    pub open spec fn inv(&self) -> bool {
        forall|args: (&T, T)| call_requires(self.func_spec(), args)
    }

    pub open spec fn wf(&self) -> bool {
        &&& 0 <= self.pos_spec() <= self.items_spec().len()
        &&& !self.primed() ==> self.pos_spec() == 0
    }

    /// Nothing is left to produce: every further call reports finished.
    pub open spec fn exhausted(&self) -> bool {
        if self.primed() {
            self.acc_spec() is None
        } else {
            self.items_spec().len() == 0
        }
    }

    /// Produces the next running-fold value: the pending accumulator, after
    /// folding the next source element into it for the following call.
    /// Terminal: once `None` is returned, every later call returns `None`.
    pub fn next(&mut self) -> (r: Option<T>)
        requires
            old(self).wf(),
            old(self).inv(),
        ensures
            final(self).wf(),
            final(self).inv(),
            final(self).items_spec() == old(self).items_spec(),
            final(self).func_spec() == old(self).func_spec(),
            final(self).primed(),
            r is None <==> old(self).exhausted(),
            old(self).exhausted() ==> final(self).exhausted(),
            match r {
                Some(y) => {
                    let a = if old(self).primed() {
                        old(self).acc_spec()->Some_0
                    } else {
                        old(self).items_spec()[0]
                    };
                    let p = if old(self).primed() {
                        old(self).pos_spec()
                    } else {
                        1
                    };
                    &&& y == a
                    &&& if p < old(self).items_spec().len() {
                        &&& final(self).pos_spec() == p + 1
                        &&& final(self).acc_spec() matches Some(b) && call_ensures(
                            old(self).func_spec(),
                            (&a, old(self).items_spec()[p]),
                            b,
                        )
                    } else {
                        &&& final(self).pos_spec() == p
                        &&& final(self).acc_spec() is None
                    }
                },
                None => final(self).acc_spec() is None,
            },
    {
        if self.peeked.is_none() {
            if self.pos < self.items.len() {
                self.peeked = Some(Some(self.items[self.pos]));
                self.pos = self.pos + 1;
            } else {
                self.peeked = Some(None);
            }
        }
        let acc = match &self.peeked {
            Some(Some(a)) => *a,
            _ => {
                proof {
                    assert forall|args: (&T, T)| call_requires(self.func_spec(), args) by {
                        assert(call_requires(old(self).func_spec(), args));
                    }
                }
                return None;
            },
        };
        if self.pos < self.items.len() {
            let item = self.items[self.pos];
            self.pos = self.pos + 1;
            proof {
                assert(call_requires(old(self).func_spec(), (&acc, item)));
                assert(self.func == old(self).func);
                assert(call_requires(self.func, (&acc, item)));
            }
            let b = (self.func)(&acc, item);
            self.peeked = Some(Some(b));
        } else {
            self.peeked = Some(None);
        }
        proof {
            assert forall|args: (&T, T)| call_requires(self.func_spec(), args) by {
                assert(call_requires(old(self).func_spec(), args));
            }
        }
        Some(acc)
    }

    /// A lower and an upper bound on the count of values not yet produced;
    /// both are exact.
    pub fn size_hint(&self) -> (r: (usize, Option<usize>))
        requires
            self.wf(),
        ensures
            r.0 == if self.exhausted() {
                0int
            } else if self.primed() {
                sat(self.items_spec().len() - self.pos_spec() + 1)
            } else {
                self.items_spec().len() as int
            },
            r.1 == Some(r.0),
    {
        match &self.peeked {
            None => {
                let rest = self.items.len() - self.pos;
                (rest, Some(rest))
            },
            Some(Some(_)) => {
                let rest = sat_add(self.items.len() - self.pos, 1);
                (rest, Some(rest))
            },
            Some(None) => (0, Some(0)),
        }
    }
}

/// Creates a running-fold adaptor over `items` under `func`.
pub fn accumulate<T: Copy, F: Fn(&T, T) -> T>(items: Vec<T>, func: F) -> (r: Accumulate<T, F>)
    requires
        forall|args: (&T, T)| call_requires(func, args),
    ensures
        r.wf(),
        r.inv(),
        r.items_spec() == items@,
        r.pos_spec() == 0,
        !r.primed(),
        r.func_spec() == func,
{
    Accumulate { items, pos: 0, peeked: None, func }
}

/// Yields the running fold of a source from a caller-supplied starting
/// accumulator: first the start value itself, then each intermediate
/// accumulator in turn. A source of `n` elements gives `n + 1` values.
#[derive(Clone)]
pub struct AccumulateFrom<T, B, F> {
    items: Vec<T>,
    pos: usize,
    accum: Option<B>,
    func: F,
}

impl<T: Copy, B, F: Fn(&B, T) -> B> AccumulateFrom<T, B, F> {
    /// The whole source sequence.
    pub closed spec fn items_spec(&self) -> Seq<T> {
        self.items@
    }

    /// How many source elements have been consumed.
    pub closed spec fn pos_spec(&self) -> int {
        self.pos as int
    }

    /// The pending accumulator value; `None` marks the end.
    pub closed spec fn acc_spec(&self) -> Option<B> {
        self.accum
    }

    /// The combining function.
    pub closed spec fn func_spec(&self) -> F {
        self.func
    }

    /// The combining function accepts any accumulator and element.
    pub open spec fn inv(&self) -> bool {
        forall|args: (&B, T)| call_requires(self.func_spec(), args)
    }

    pub open spec fn wf(&self) -> bool {
        0 <= self.pos_spec() <= self.items_spec().len()
    }

    /// Nothing is left to produce: every further call reports finished.
    pub open spec fn exhausted(&self) -> bool {
        self.acc_spec() is None
    }

    /// Produces the next running-fold value, starting with the supplied
    /// accumulator itself. Terminal: once `None` is returned, every later
    /// call returns `None`.
    pub fn next(&mut self) -> (r: Option<B>)
        requires
            old(self).wf(),
            old(self).inv(),
        ensures
            final(self).wf(),
            final(self).inv(),
            final(self).items_spec() == old(self).items_spec(),
            final(self).func_spec() == old(self).func_spec(),
            r is None <==> old(self).exhausted(),
            old(self).exhausted() ==> final(self).exhausted() && final(self).pos_spec() == old(
                self,
            ).pos_spec(),
            match r {
                Some(y) => {
                    &&& Some(y) == old(self).acc_spec()
                    &&& if old(self).pos_spec() < old(self).items_spec().len() {
                        &&& final(self).pos_spec() == old(self).pos_spec() + 1
                        &&& final(self).acc_spec() matches Some(b) && call_ensures(
                            old(self).func_spec(),
                            (&y, old(self).items_spec()[old(self).pos_spec()]),
                            b,
                        )
                    } else {
                        &&& final(self).pos_spec() == old(self).pos_spec()
                        &&& final(self).acc_spec() is None
                    }
                },
                None => final(self).acc_spec() is None,
            },
    {
        let acc = match self.accum.take() {
            Some(a) => a,
            None => {
                proof {
                    assert forall|args: (&B, T)| call_requires(self.func_spec(), args) by {
                        assert(call_requires(old(self).func_spec(), args));
                    }
                }
                return None;
            },
        };
        if self.pos < self.items.len() {
            let item = self.items[self.pos];
            self.pos = self.pos + 1;
            proof {
                assert(call_requires(old(self).func_spec(), (&acc, item)));
                assert(self.func == old(self).func);
                assert(call_requires(self.func, (&acc, item)));
            }
            let b = (self.func)(&acc, item);
            self.accum = Some(b);
        } else {
            self.accum = None;
        }
        proof {
            assert forall|args: (&B, T)| call_requires(self.func_spec(), args) by {
                assert(call_requires(old(self).func_spec(), args));
            }
        }
        Some(acc)
    }

    /// A lower and an upper bound on the count of values not yet produced;
    /// both are exact.
    pub fn size_hint(&self) -> (r: (usize, Option<usize>))
        requires
            self.wf(),
        ensures
            r.0 == if self.exhausted() {
                0int
            } else {
                sat(self.items_spec().len() - self.pos_spec() + 1)
            },
            r.1 == Some(r.0),
    {
        if self.accum.is_none() {
            return (0, Some(0));
        }
        let rest = sat_add(self.items.len() - self.pos, 1);
        (rest, Some(rest))
    }
}

/// Creates a running-fold adaptor over `items` from the starting accumulator
/// `init` under `func`.
pub fn accumulate_from<T: Copy, B, F: Fn(&B, T) -> B>(items: Vec<T>, init: B, func: F) -> (r:
    AccumulateFrom<T, B, F>)
    requires
        forall|args: (&B, T)| call_requires(func, args),
    ensures
        r.wf(),
        r.inv(),
        r.items_spec() == items@,
        r.pos_spec() == 0,
        r.acc_spec() == Some(init),
        r.func_spec() == func,
{
    AccumulateFrom { items, pos: 0, accum: Some(init), func }
}

} // verus!
