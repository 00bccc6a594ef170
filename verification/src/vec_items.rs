//! Output strategies: how a generator turns the window of elements selected
//! for one step into the value it yields.

use vstd::prelude::*;

verus! {

/// An output strategy. `new_item` is handed the window of elements selected
/// for one step, borrowed for exactly that call, and produces the yielded
/// value; `item_spec` says which outputs may come out of a given window.
pub trait VecItems<T> {
    type Output;

    /// The strategy is ready to take any window.
    spec fn inv(&self) -> bool;

    /// Which outputs this strategy may produce from a given window.
    spec fn item_spec(&self, window: Seq<T>, out: Self::Output) -> bool;

    fn new_item(&mut self, window: &Vec<T>) -> (r: Self::Output)
        requires
            old(self).inv(),
        ensures
            final(self).inv(),
            old(self).item_spec(window@, r),
            forall|w: Seq<T>, o: Self::Output|
                #[trigger] final(self).item_spec(w, o) <==> old(self).item_spec(w, o),
    ;
}

/// Identity strategy: copies the window into a new owned vector.
#[derive(Clone)]
pub struct CollectToVec;

impl<T: Copy> VecItems<T> for CollectToVec {
    type Output = Vec<T>;

    open spec fn inv(&self) -> bool {
        true
    }

    open spec fn item_spec(&self, window: Seq<T>, out: Vec<T>) -> bool {
        out@ == window
    }

    fn new_item(&mut self, window: &Vec<T>) -> (r: Vec<T>) {
        let mut out: Vec<T> = Vec::new();
        let mut i: usize = 0;
        while i < window.len()
            invariant
                i <= window.len(),
                out@ == window@.take(i as int),
            decreases window.len() - i,
        {
            out.push(window[i]);
            i = i + 1;
            proof {
                assert(out@ =~= window@.take(i as int));
            }
        }
        proof {
            assert(out@ =~= window@);
        }
        out
    }
}

/// Mapping strategy: applies a caller-supplied transform to the window,
/// presented as a borrowed vector, and yields the transform's result. One
/// scratch buffer, sized once at construction, is reused across calls; the
/// transform only ever sees it filled with exactly the current window.
#[derive(Clone)]
pub struct MapSlice<F, T> {
    func: F,
    vec: Vec<T>,
}

impl<F, T> MapSlice<F, T> {
    /// The transform this strategy applies.
    pub closed spec fn func_spec(&self) -> F {
        self.func
    }

    pub fn with_capacity(func: F, capacity: usize) -> (r: Self)
        ensures
            r.func_spec() == func,
    {
        MapSlice { func, vec: Vec::with_capacity(capacity) }
    }
}

impl<R, F: Fn(&Vec<T>) -> R, T: Copy> VecItems<T> for MapSlice<F, T> {
    type Output = R;

    /// The transform accepts every window it may be handed.
    open spec fn inv(&self) -> bool {
        forall|args: (&Vec<T>,)| call_requires(self.func_spec(), args)
    }

    /// The output is a possible result of the transform on the window.
    open spec fn item_spec(&self, window: Seq<T>, out: R) -> bool {
        exists|v: Vec<T>| v@ == window && call_ensures(self.func_spec(), (&v,), out)
    }

    fn new_item(&mut self, window: &Vec<T>) -> (r: R) {
        let mut i: usize = 0;
        self.vec.clear();
        while i < window.len()
            invariant
                i <= window.len(),
                self.vec@ == window@.take(i as int),
                self.func == old(self).func,
            decreases window.len() - i,
        {
            self.vec.push(window[i]);
            i = i + 1;
            proof {
                assert(self.vec@ =~= window@.take(i as int));
            }
        }
        proof {
            assert(self.vec@ =~= window@);
        }
        let ghost filled = self.vec;
        proof {
            assert(self.func == old(self).func);
            assert(call_requires(old(self).func_spec(), (&filled,)));
            assert(call_requires(self.func, (&self.vec,)));
        }
        let out = (self.func)(&self.vec);
        self.vec.clear();
        proof {
            assert(filled@ == window@ && call_ensures(old(self).func_spec(), (&filled,), out));
        }
        out
    }
}

} // verus!
