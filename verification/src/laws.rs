//! The order and counting laws of the enumerations, stated over the model:
//! each generator starts at the least valid tuple, every step produces the
//! immediate successor in the generator's order, and a step is refused
//! exactly at the greatest tuple. The run lemmas at the end put the
//! whole-run consequences in one statement each: a full successor chain
//! from the first tuple has exactly the counted length and visits every
//! valid tuple exactly once, in order — which is what the generators'
//! `next` contracts walk, step by step.

use vstd::prelude::*;

use crate::model::{
    cc, cc_sum_from, comb_first, comb_rem, comb_succ, crep, cwr_rem, cwr_succ, dims_positive,
    in_dims, in_range,
    is_comb, is_cwr, lemma_cc_pascal, lemma_cc_small, lemma_comb_caps, lemma_comb_rem_nonneg,
    lemma_cwr_rem_nonneg, lemma_inc_gap, lex_lt,
    pow_rem, pow_succ, prod_first, prod_of, prod_rank, prod_remaining, prod_succ, run_from,
    strictly_inc, subset_count,
};

verus! {

/// Order on subsets as the powerset produces them: first by size, then
/// lexicographically within one size.
pub open spec fn pow_lt(a: Seq<int>, b: Seq<int>) -> bool {
    a.len() < b.len() || (a.len() == b.len() && lex_lt(a, b))
}

/// Two equal-length tuples that agree before position `d` and differ there
/// are lexicographically ordered by that position.
pub proof fn lemma_lex_from_diff(a: Seq<int>, b: Seq<int>, d: int)
    requires
        a.len() == b.len(),
        0 <= d < a.len(),
        forall|j: int| 0 <= j < d ==> a[j] == #[trigger] b[j],
        a[d] < b[d],
    ensures
        lex_lt(a, b),
    decreases d,
{
    if d > 0 {
        lemma_lex_from_diff(a.drop_first(), b.drop_first(), d - 1);
    }
}

/// Two lexicographically ordered equal-length tuples agree up to some
/// position and are ordered by it.
pub proof fn lemma_lex_to_diff(a: Seq<int>, b: Seq<int>) -> (d: int)
    requires
        a.len() == b.len(),
        lex_lt(a, b),
    ensures
        0 <= d < a.len(),
        forall|j: int| 0 <= j < d ==> a[j] == #[trigger] b[j],
        a[d] < b[d],
    decreases a.len(),
{
    if a.first() < b.first() {
        0
    } else {
        let e = lemma_lex_to_diff(a.drop_first(), b.drop_first());
        assert forall|j: int| 0 <= j < e + 1 implies a[j] == #[trigger] b[j] by {
            if j > 0 {
                assert(a.drop_first()[j - 1] == b.drop_first()[j - 1]);
            }
        }
        assert(a[e + 1] == a.drop_first()[e]);
        e + 1
    }
}

/// The first combination is the least: every other combination of the same
/// size follows it in lexicographic order.
#[verifier::rlimit(50)]
pub proof fn lemma_comb_first_least(k: int, n: int, u: Seq<int>)
    requires
        0 <= k <= n,
        is_comb(u, k, n),
        u != comb_first(k),
    ensures
        is_comb(comb_first(k), k, n),
        lex_lt(comb_first(k), u),
{
    let f = comb_first(k);
    lemma_comb_caps(u, n);
    if forall|j: int| 0 <= j < k ==> f[j] == #[trigger] u[j] {
        assert(f =~= u);
        assert(false);
    }
    let d0 = choose|j: int| 0 <= j < k && f[j] != #[trigger] u[j];
    lemma_least_diff(f, u, d0);
    let d = choose|j: int|
        0 <= j < f.len() && f[j] != u[j] && (forall|l: int| 0 <= l < j ==> f[l] == #[trigger] u[l]);
    assert(f[d] == d);
    assert(d <= u[d]);
    lemma_lex_from_diff(f, u, d);
}

/// Among the positions where two equal-length tuples differ there is a
/// least one.
proof fn lemma_least_diff(a: Seq<int>, b: Seq<int>, d0: int)
    requires
        a.len() == b.len(),
        0 <= d0 < a.len(),
        a[d0] != b[d0],
    ensures
        exists|j: int|
            0 <= j < a.len() && a[j] != b[j] && (forall|l: int|
                0 <= l < j ==> a[l] == #[trigger] b[l]),
    decreases d0,
{
    if forall|l: int| 0 <= l < d0 ==> a[l] == #[trigger] b[l] {
        assert(0 <= d0 < a.len() && a[d0] != b[d0] && (forall|l: int|
            0 <= l < d0 ==> a[l] == #[trigger] b[l]));
    } else {
        let e = choose|l: int| 0 <= l < d0 && a[l] != #[trigger] b[l];
        lemma_least_diff(a, b, e);
    }
}

/// One step of the combinations enumeration is exact: the successor is a
/// later combination, no valid combination lies strictly between a
/// combination and its successor, and only the greatest combination has
/// none.
#[verifier::rlimit(100)]
#[verifier::spinoff_prover]
pub proof fn lemma_comb_succ_exact(s: Seq<int>, n: int, u: Seq<int>)
    requires
        is_comb(s, s.len() as int, n),
        is_comb(u, s.len() as int, n),
    ensures
        comb_succ(s, n) matches Some(t) ==> is_comb(t, s.len() as int, n) && lex_lt(s, t) && (
        lex_lt(s, u) ==> u == t || lex_lt(t, u)),
        comb_succ(s, n) is None ==> !lex_lt(s, u),
{
    let k = s.len() as int;
    lemma_comb_caps(s, n);
    lemma_comb_caps(u, n);
    if exists|i: int| 0 <= i < k && #[trigger] s[i] < n - k + i {
        let i = choose|i: int|
            0 <= i < k && #[trigger] s[i] < n - k + i && (forall|j: int|
                i < j < k ==> #[trigger] s[j] == n - k + j);
        assert(exists|i: int|
            0 <= i < k && #[trigger] s[i] < n - k + i && (forall|j: int|
                i < j < k ==> #[trigger] s[j] == n - k + j)) by {
            let i0 = choose|i: int| 0 <= i < k && #[trigger] s[i] < n - k + i;
            lemma_greatest_loose(s, n, i0);
        }
        crate::model::lemma_comb_succ_at(s, n, i);
        let t = crate::model::comb_bump(s, i);
        lemma_lex_from_diff(s, t, i);
        if lex_lt(s, u) && u != t {
            let d = lemma_lex_to_diff(s, u);
            if d > i {
                assert(s[d] == n - k + d);
                assert(u[d] <= n - k + d);
                assert(false);
            } else if d < i {
                lemma_lex_from_diff(t, u, d);
            } else {
                // d == i: u takes at least t's value at i; after i, t is the
                // least strictly increasing continuation.
                assert(t[i] == s[i] + 1 <= u[i]);
                if t[i] < u[i] {
                    lemma_lex_from_diff(t, u, i);
                } else {
                    assert(forall|j: int| i <= j < k ==> #[trigger] t[j] == t[i] + (j - i));
                    assert forall|j: int| i <= j < k implies #[trigger] u[j] >= t[j] by {
                        lemma_inc_gap(u, i, j);
                    }
                    if u != t {
                        assert(exists|j: int| 0 <= j < k && u[j] != t[j]) by {
                            if forall|j: int| 0 <= j < k ==> u[j] == #[trigger] t[j] {
                                assert(u =~= t);
                            }
                        }
                        let d1 = choose|j: int| 0 <= j < k && u[j] != #[trigger] t[j];
                        let d2 = choose|j: int|
                            0 <= j < k && t[j] != u[j] && (forall|l: int|
                                0 <= l < j ==> t[l] == #[trigger] u[l]);
                        assert(exists|j: int|
                            0 <= j < k && t[j] != u[j] && (forall|l: int|
                                0 <= l < j ==> t[l] == #[trigger] u[l])) by {
                            lemma_least_diff(t, u, d1);
                        }
                        assert(d2 >= i);
                        assert(t[d2] < u[d2]);
                        lemma_lex_from_diff(t, u, d2);
                    }
                }
            }
        }
    } else {
        assert(forall|j: int| 0 <= j < k ==> #[trigger] s[j] == n - k + j);
        crate::model::lemma_comb_succ_none(s, n);
        if lex_lt(s, u) {
            let d = lemma_lex_to_diff(s, u);
            assert(u[d] <= n - k + d == s[d]);
            assert(false);
        }
    }
}

/// The all-zero tuple is the least combination with replacement: every
/// other one of the same size follows it in lexicographic order.
#[verifier::rlimit(50)]
pub proof fn lemma_cwr_first_least(k: int, n: int, u: Seq<int>)
    requires
        0 <= k,
        n >= 1,
        is_cwr(u, k, n),
        u != crate::model::cwr_first(k),
    ensures
        is_cwr(crate::model::cwr_first(k), k, n),
        lex_lt(crate::model::cwr_first(k), u),
{
    let f = crate::model::cwr_first(k);
    assert(exists|j: int| 0 <= j < k && u[j] != f[j]) by {
        if forall|j: int| 0 <= j < k ==> u[j] == #[trigger] f[j] {
            assert(u =~= f);
        }
    }
    let d0 = choose|j: int| 0 <= j < k && u[j] != f[j];
    lemma_least_diff(f, u, d0);
    let d = choose|j: int|
        0 <= j < k && f[j] != u[j] && (forall|l: int| 0 <= l < j ==> f[l] == #[trigger] u[l]);
    assert(f[d] == 0 <= u[d]);
    lemma_lex_from_diff(f, u, d);
}

/// One step of the combinations-with-replacement enumeration is exact: the
/// successor is a later tuple, no valid tuple lies strictly between, and
/// only the greatest tuple has none.
#[verifier::rlimit(50)]
pub proof fn lemma_cwr_succ_exact(s: Seq<int>, n: int, u: Seq<int>)
    requires
        is_cwr(s, s.len() as int, n),
        is_cwr(u, s.len() as int, n),
    ensures
        cwr_succ(s, n) matches Some(t) ==> is_cwr(t, s.len() as int, n) && lex_lt(s, t) && (lex_lt(
            s,
            u,
        ) ==> u == t || lex_lt(t, u)),
        cwr_succ(s, n) is None ==> !lex_lt(s, u),
{
    let k = s.len() as int;
    if exists|i: int| 0 <= i < k && #[trigger] s[i] < n - 1 {
        let i0 = choose|i: int| 0 <= i < k && #[trigger] s[i] < n - 1;
        lemma_cwr_greatest_loose(s, n, i0);
        let i = choose|i: int|
            0 <= i < k && #[trigger] s[i] < n - 1 && (forall|j: int|
                i < j < k ==> #[trigger] s[j] == n - 1);
        crate::model::lemma_cwr_succ_at(s, n, i);
        let t = crate::model::cwr_bump(s, i);
        lemma_lex_from_diff(s, t, i);
        if lex_lt(s, u) && u != t {
            let d = lemma_lex_to_diff(s, u);
            if d > i {
                assert(s[d] == n - 1);
                assert(u[d] < n);
                assert(false);
            } else if d < i {
                lemma_lex_from_diff(t, u, d);
            } else {
                assert(t[i] == s[i] + 1 <= u[i]);
                if t[i] < u[i] {
                    lemma_lex_from_diff(t, u, i);
                } else {
                    assert(forall|j: int| i <= j < k ==> #[trigger] t[j] == t[i]);
                    assert forall|j: int| i <= j < k implies #[trigger] u[j] >= t[j] by {
                        assert(u[i] <= u[j]);
                    }
                    assert(exists|j: int| 0 <= j < k && u[j] != t[j]) by {
                        if forall|j: int| 0 <= j < k ==> u[j] == #[trigger] t[j] {
                            assert(u =~= t);
                        }
                    }
                    let d1 = choose|j: int| 0 <= j < k && u[j] != #[trigger] t[j];
                    lemma_least_diff(t, u, d1);
                    let d2 = choose|j: int|
                        0 <= j < k && t[j] != u[j] && (forall|l: int|
                            0 <= l < j ==> t[l] == #[trigger] u[l]);
                    assert(d2 >= i);
                    assert(t[d2] < u[d2]);
                    lemma_lex_from_diff(t, u, d2);
                }
            }
        }
    } else {
        assert(forall|j: int| 0 <= j < k ==> #[trigger] s[j] == n - 1);
        crate::model::lemma_cwr_succ_none(s, n);
        if lex_lt(s, u) {
            let d = lemma_lex_to_diff(s, u);
            assert(u[d] < n);
            assert(false);
        }
    }
}

/// Among the positions of `s` below `n - 1` there is a greatest one.
proof fn lemma_cwr_greatest_loose(s: Seq<int>, n: int, i0: int)
    requires
        in_range(s, n),
        0 <= i0 < s.len(),
        s[i0] < n - 1,
    ensures
        exists|i: int|
            0 <= i < s.len() && #[trigger] s[i] < n - 1 && (forall|j: int|
                i < j < s.len() ==> #[trigger] s[j] == n - 1),
    decreases s.len() - i0,
{
    if forall|j: int| i0 < j < s.len() ==> #[trigger] s[j] == n - 1 {
        assert(0 <= i0 < s.len() && s[i0] < n - 1 && (forall|j: int|
            i0 < j < s.len() ==> #[trigger] s[j] == n - 1));
    } else {
        let e = choose|j: int| i0 < j < s.len() && #[trigger] s[j] != n - 1;
        lemma_cwr_greatest_loose(s, n, e);
    }
}

/// One step of the powerset enumeration is exact in the subset order (by
/// size, then lexicographically): the successor is a later subset, no valid
/// subset of any size lies strictly between, and only the full-source
/// subset has none.
#[verifier::rlimit(50)]
pub proof fn lemma_pow_succ_exact(s: Seq<int>, n: int, u: Seq<int>)
    requires
        is_comb(s, s.len() as int, n),
        is_comb(u, u.len() as int, n),
    ensures
        pow_succ(s, n) matches Some(t) ==> is_comb(t, t.len() as int, n) && pow_lt(s, t) && (
        pow_lt(s, u) ==> u == t || pow_lt(t, u)),
        pow_succ(s, n) is None ==> !pow_lt(s, u),
{
    let k = s.len() as int;
    lemma_comb_caps(s, n);
    lemma_comb_caps(u, n);
    lemma_comb_succ_exact(s, n, s);
    match comb_succ(s, n) {
        Some(t) => {
            if u.len() == k {
                lemma_comb_succ_exact(s, n, u);
            }
        },
        None => {
            if k < n {
                let t = comb_first(k + 1);
                if u.len() == k {
                    lemma_comb_succ_exact(s, n, u);
                } else if u.len() == k + 1 {
                    if u != t {
                        lemma_comb_first_least(k + 1, n, u);
                    } else {
                        lemma_comb_first_least_self(k + 1, n);
                    }
                }
                lemma_comb_first_least_self(k + 1, n);
            } else {
                if u.len() == k {
                    lemma_comb_succ_exact(s, n, u);
                }
            }
        },
    }
}

/// The first combination of a feasible size is itself valid.
proof fn lemma_comb_first_least_self(k: int, n: int)
    requires
        0 <= k <= n,
    ensures
        is_comb(comb_first(k), k, n),
{
}

/// The mixed-radix rank of a valid position tuple counts the tuples before
/// it: it starts at 0, lies below the product of the lane lengths, and what
/// remains after it is the rest of that product.
pub proof fn lemma_prod_rank_bounds(c: Seq<int>, dims: Seq<int>)
    requires
        in_dims(c, dims),
    ensures
        0 <= prod_rank(c, dims) <= prod_of(dims) - 1,
        prod_remaining(c, dims) == prod_of(dims) - 1 - prod_rank(c, dims),
    decreases c.len(),
{
    if c.len() == 0 {
    } else {
        assert(0 <= c[c.len() - 1] < dims[c.len() - 1]);
        assert(in_dims(c.drop_last(), dims.drop_last()));
        lemma_prod_rank_bounds(c.drop_last(), dims.drop_last());
        let rp = prod_rank(c.drop_last(), dims.drop_last());
        let pp = prod_of(dims.drop_last());
        let n = dims.last();
        let cl = c.last();
        assert(0 <= rp * n + cl <= pp * n - 1) by (nonlinear_arith)
            requires
                0 <= rp <= pp - 1,
                0 <= cl < n,
        ;
        assert((pp - 1 - rp) * n + (n - 1 - cl) == pp * n - 1 - (rp * n + cl))
            by (nonlinear_arith);
    }
}

/// The all-zero position tuple is valid and has rank 0 when every lane is
/// non-empty.
pub proof fn lemma_prod_first_rank(dims: Seq<int>)
    requires
        crate::model::dims_positive(dims),
    ensures
        in_dims(prod_first(dims.len() as int), dims),
        prod_rank(prod_first(dims.len() as int), dims) == 0,
    decreases dims.len(),
{
    let c = prod_first(dims.len() as int);
    if dims.len() > 0 {
        assert(c.drop_last() =~= prod_first(dims.len() - 1));
        assert(crate::model::dims_positive(dims.drop_last()));
        lemma_prod_first_rank(dims.drop_last());
        assert(prod_rank(c, dims) == prod_rank(c.drop_last(), dims.drop_last()) * dims.last()
            + 0);
    }
}

/// One step of the product enumeration is exact in rank: the odometer
/// successor has the next rank, and only the tuple of greatest rank has
/// none. With the first tuple at rank 0, the enumeration therefore yields
/// exactly the product of the lane lengths many tuples, the last lane
/// varying fastest.
pub proof fn lemma_prod_succ_rank(c: Seq<int>, dims: Seq<int>)
    requires
        in_dims(c, dims),
    ensures
        prod_succ(c, dims) matches Some(t) ==> in_dims(t, dims) && prod_rank(t, dims) == prod_rank(
            c,
            dims,
        ) + 1,
        prod_succ(c, dims) is None ==> prod_rank(c, dims) == prod_of(dims) - 1,
    decreases c.len(),
{
    if c.len() == 0 {
    } else {
        let n = dims.last();
        let cl = c.last();
        assert(0 <= cl < n);
        assert(in_dims(c.drop_last(), dims.drop_last()));
        lemma_prod_rank_bounds(c.drop_last(), dims.drop_last());
        if cl + 1 < n {
            let t = c.update(c.len() - 1, cl + 1);
            assert(t.drop_last() =~= c.drop_last());
            assert(prod_rank(t, dims) == prod_rank(c, dims) + 1);
            assert(in_dims(t, dims));
        } else {
            lemma_prod_succ_rank(c.drop_last(), dims.drop_last());
            let rp = prod_rank(c.drop_last(), dims.drop_last());
            let pp = prod_of(dims.drop_last());
            match prod_succ(c.drop_last(), dims.drop_last()) {
                Some(p) => {
                    let t = p.push(0);
                    assert(t.drop_last() =~= p);
                    assert(t.last() == 0);
                    assert(prod_rank(t, dims) == prod_rank(p, dims.drop_last()) * n);
                    assert((rp + 1) * n == rp * n + n) by (nonlinear_arith);
                    assert(in_dims(t, dims));
                },
                None => {
                    assert(rp == pp - 1);
                    assert((pp - 1) * n + (n - 1) == pp * n - 1) by (nonlinear_arith);
                },
            }
        }
    }
}

/// A consecutive run of positions is followed by all combinations of the
/// elements after its start but one — the run itself.
proof fn lemma_rem_run(b: int, r: int, n: int)
    requires
        0 <= r,
        b + r <= n,
    ensures
        comb_rem(run_from(b, r), n) == cc(n - b, r) - 1,
    decreases r,
{
    if r == 0 {
    } else {
        assert(run_from(b, r).drop_first() =~= run_from(b + 1, r - 1));
        assert(run_from(b, r)[0] == b);
        lemma_rem_run(b + 1, r - 1, n);
        lemma_cc_pascal(n - b, r);
    }
}

/// A combination with every entry at its cap is followed by nothing.
proof fn lemma_rem_maxed(s: Seq<int>, n: int)
    requires
        forall|j: int| 0 <= j < s.len() ==> #[trigger] s[j] == n - s.len() + j,
    ensures
        comb_rem(s, n) == 0,
    decreases s.len(),
{
    let k = s.len() as int;
    if k > 0 {
        assert(s[0] == n - k);
        lemma_cc_small(k - 1, k);
        assert forall|j: int| 0 <= j < s.drop_first().len() implies #[trigger] s.drop_first()[j]
            == n - s.drop_first().len() + j by {
            assert(s.drop_first()[j] == s[j + 1]);
        }
        lemma_rem_maxed(s.drop_first(), n);
    }
}

/// Tuples that agree up to a position see the same remaining-count change
/// from dropping that prefix.
proof fn lemma_rem_agree(s: Seq<int>, t: Seq<int>, n: int, i: int)
    requires
        s.len() == t.len(),
        0 <= i <= s.len(),
        forall|j: int| 0 <= j < i ==> s[j] == #[trigger] t[j],
    ensures
        comb_rem(s, n) - comb_rem(s.skip(i), n) == comb_rem(t, n) - comb_rem(t.skip(i), n),
    decreases i,
{
    if i == 0 {
        assert(s.skip(0) =~= s);
        assert(t.skip(0) =~= t);
    } else {
        assert(s.drop_first().skip(i - 1) =~= s.skip(i));
        assert(t.drop_first().skip(i - 1) =~= t.skip(i));
        lemma_rem_agree(s.drop_first(), t.drop_first(), n, i - 1);
    }
}

/// The combinations enumeration counts down exactly: the first combination
/// is followed by all `cc(n, k)` combinations but itself, each successor
/// step lowers the count of combinations still to come by exactly one, and
/// the enumeration stops exactly when that count reaches zero. Starting at
/// the first combination, exactly `cc(n, k)` combinations are therefore
/// produced.
#[verifier::rlimit(100)]
#[verifier::spinoff_prover]
pub proof fn lemma_comb_count(s: Seq<int>, n: int)
    requires
        is_comb(s, s.len() as int, n),
    ensures
        s.len() <= n ==> comb_rem(comb_first(s.len() as int), n) == cc(n, s.len() as int) - 1,
        comb_succ(s, n) matches Some(t) ==> comb_rem(t, n) == comb_rem(s, n) - 1 && comb_rem(s, n)
            >= 1,
        comb_succ(s, n) is None ==> comb_rem(s, n) == 0,
{
    let k = s.len() as int;
    lemma_comb_caps(s, n);
    if k <= n {
        assert(comb_first(k) =~= run_from(0, k));
        lemma_rem_run(0, k, n);
    }
    if exists|i: int| 0 <= i < k && #[trigger] s[i] < n - k + i {
        let i0 = choose|i: int| 0 <= i < k && #[trigger] s[i] < n - k + i;
        lemma_greatest_loose(s, n, i0);
        let i = choose|i: int|
            0 <= i < k && #[trigger] s[i] < n - k + i && (forall|j: int|
                i < j < k ==> #[trigger] s[j] == n - k + j);
        crate::model::lemma_comb_succ_at(s, n, i);
        let t = crate::model::comb_bump(s, i);
        lemma_rem_agree(s, t, n, i);
        // The part of `s` from position i on: its entry there, then a
        // maxed-out tail.
        assert(s.skip(i).drop_first() =~= s.skip(i + 1));
        assert(s.skip(i)[0] == s[i]);
        assert forall|d: int| 0 <= d < s.skip(i + 1).len() implies #[trigger] s.skip(i + 1)[d] == n
            - s.skip(i + 1).len() + d by {
            assert(s.skip(i + 1)[d] == s[i + 1 + d]);
        }
        lemma_rem_maxed(s.skip(i + 1), n);
        assert(comb_rem(s.skip(i), n) == cc(n - 1 - s[i], k - i));
        // The part of `t` from position i on is a consecutive run.
        assert(t.skip(i) =~= run_from(s[i] + 1, k - i));
        lemma_rem_run(s[i] + 1, k - i, n);
        assert(comb_rem(t.skip(i), n) == cc(n - 1 - s[i], k - i) - 1);
        lemma_comb_rem_nonneg(t, n);
    } else {
        assert(forall|j: int| 0 <= j < k ==> #[trigger] s[j] == n - k + j);
        crate::model::lemma_comb_succ_none(s, n);
        lemma_rem_maxed(s, n);
    }
}

/// A constant run of one position is followed by all non-decreasing tuples
/// starting no earlier but one — the run itself.
proof fn lemma_cwr_rem_rep(b: int, r: int, n: int)
    requires
        0 <= r,
        0 <= b <= n - 1,
    ensures
        cwr_rem(crep(b, r), n) == cc(n - b + r - 1, r) - 1,
    decreases r,
{
    if r > 0 {
        assert(crep(b, r).drop_first() =~= crep(b, r - 1));
        assert(crep(b, r)[0] == b);
        lemma_cwr_rem_rep(b, r - 1, n);
        lemma_cc_pascal(n - b + r - 1, r);
    }
}

/// A tuple with every entry at the last position is followed by nothing.
proof fn lemma_cwr_rem_maxed(s: Seq<int>, n: int)
    requires
        forall|j: int| 0 <= j < s.len() ==> #[trigger] s[j] == n - 1,
    ensures
        cwr_rem(s, n) == 0,
    decreases s.len(),
{
    let k = s.len() as int;
    if k > 0 {
        assert(s[0] == n - 1);
        lemma_cc_small(k - 1, k);
        assert(forall|j: int| 0 <= j < s.drop_first().len() ==> #[trigger] s.drop_first()[j] == n
            - 1);
        lemma_cwr_rem_maxed(s.drop_first(), n);
    }
}

/// Tuples that agree up to a position see the same remaining-count change
/// from dropping that prefix.
proof fn lemma_cwr_rem_agree(s: Seq<int>, t: Seq<int>, n: int, i: int)
    requires
        s.len() == t.len(),
        0 <= i <= s.len(),
        forall|j: int| 0 <= j < i ==> s[j] == #[trigger] t[j],
    ensures
        cwr_rem(s, n) - cwr_rem(s.skip(i), n) == cwr_rem(t, n) - cwr_rem(t.skip(i), n),
    decreases i,
{
    if i == 0 {
        assert(s.skip(0) =~= s);
        assert(t.skip(0) =~= t);
    } else {
        assert(s.drop_first().skip(i - 1) =~= s.skip(i));
        assert(t.drop_first().skip(i - 1) =~= t.skip(i));
        lemma_cwr_rem_agree(s.drop_first(), t.drop_first(), n, i - 1);
    }
}

/// The combinations-with-replacement enumeration counts down exactly: the
/// all-zero tuple is followed by all `cc(n + k - 1, k)` tuples but itself,
/// each successor step lowers the count of tuples still to come by exactly
/// one, and the enumeration stops exactly when that count reaches zero.
/// Starting at the all-zero tuple, exactly `cc(n + k - 1, k)` tuples are
/// therefore produced.
#[verifier::rlimit(100)]
#[verifier::spinoff_prover]
pub proof fn lemma_cwr_count(s: Seq<int>, n: int)
    requires
        is_cwr(s, s.len() as int, n),
    ensures
        n >= 1 ==> cwr_rem(crate::model::cwr_first(s.len() as int), n) == cc(
            n + s.len() - 1,
            s.len() as int,
        ) - 1,
        cwr_succ(s, n) matches Some(t) ==> cwr_rem(t, n) == cwr_rem(s, n) - 1 && cwr_rem(s, n)
            >= 1,
        cwr_succ(s, n) is None ==> cwr_rem(s, n) == 0,
{
    let k = s.len() as int;
    if n >= 1 {
        assert(crate::model::cwr_first(k) =~= crep(0, k));
        lemma_cwr_rem_rep(0, k, n);
    }
    if exists|i: int| 0 <= i < k && #[trigger] s[i] < n - 1 {
        let i0 = choose|i: int| 0 <= i < k && #[trigger] s[i] < n - 1;
        lemma_cwr_greatest_loose(s, n, i0);
        let i = choose|i: int|
            0 <= i < k && #[trigger] s[i] < n - 1 && (forall|j: int|
                i < j < k ==> #[trigger] s[j] == n - 1);
        crate::model::lemma_cwr_succ_at(s, n, i);
        let t = crate::model::cwr_bump(s, i);
        lemma_cwr_rem_agree(s, t, n, i);
        assert(s.skip(i).drop_first() =~= s.skip(i + 1));
        assert(s.skip(i)[0] == s[i]);
        assert(forall|d: int| 0 <= d < s.skip(i + 1).len() ==> #[trigger] s.skip(i + 1)[d] == n
            - 1);
        lemma_cwr_rem_maxed(s.skip(i + 1), n);
        assert(cwr_rem(s.skip(i), n) == cc(n - s[i] - 2 + (k - i), k - i));
        assert(t.skip(i) =~= crep(s[i] + 1, k - i));
        lemma_cwr_rem_rep(s[i] + 1, k - i, n);
        assert(cwr_rem(t.skip(i), n) == cc(n - s[i] - 2 + (k - i), k - i) - 1);
        lemma_cwr_rem_nonneg(t, n);
    } else {
        if k > 0 {
            assert(forall|j: int| 0 <= j < k ==> #[trigger] s[j] == n - 1);
            crate::model::lemma_cwr_succ_none(s, n);
            lemma_cwr_rem_maxed(s, n);
        }
    }
}

/// A successor has the same size as the combination it follows.
proof fn lemma_comb_succ_len(s: Seq<int>, n: int)
    ensures
        comb_succ(s, n) matches Some(t) ==> t.len() == s.len(),
    decreases s.len(),
{
    if s.len() > 0 {
        lemma_comb_succ_len(s.drop_last(), n - 1);
    }
}

/// A combination count over enough elements is at least one.
proof fn lemma_cc_pos(m: int, r: int)
    requires
        0 <= r <= m,
    ensures
        cc(m, r) >= 1,
    decreases m,
{
    if r >= 1 {
        lemma_cc_pascal(m, r);
        lemma_cc_pos(m - 1, r - 1);
        lemma_cc_nonneg_plain(m - 1, r);
    }
}

/// Combination counts are never negative.
proof fn lemma_cc_nonneg_plain(m: int, r: int)
    ensures
        cc(m, r) >= 0,
{
}

/// Partial binomial sums are never negative.
proof fn lemma_ccsf_nonneg(n: int, k: int)
    ensures
        cc_sum_from(n, k) >= 0,
    decreases n + 1 - k,
{
    if !(n < 0 || k > n || k < 0) {
        lemma_ccsf_nonneg(n, k + 1);
    }
}

/// Pascal's rule carries over to partial binomial sums.
proof fn lemma_ccsf_rec(n: int, k: int)
    requires
        n >= 1,
        k >= 1,
    ensures
        cc_sum_from(n, k) == cc_sum_from(n - 1, k - 1) + cc_sum_from(n - 1, k),
    decreases n + 1 - k,
{
    if k > n {
    } else {
        lemma_ccsf_rec(n, k + 1);
        lemma_cc_pascal(n, k);
        if k > n - 1 {
            lemma_cc_small(n - 1, k);
        }
    }
}

/// Summing the combination counts over every size gives the number of
/// subsets: 2^n.
proof fn lemma_ccsf_total(n: int)
    requires
        n >= 0,
    ensures
        cc_sum_from(n, 0) == subset_count(n as nat),
    decreases n,
{
    if n == 0 {
        assert(cc_sum_from(0, 0) == cc(0, 0) + cc_sum_from(0, 1));
        assert(cc(0, 0) == 1);
    } else {
        lemma_ccsf_total(n - 1);
        lemma_ccsf_rec(n, 1);
        assert(cc(n, 0) == 1);
        assert(cc(n - 1, 0) == 1);
        assert(cc_sum_from(n, 0) == cc(n, 0) + cc_sum_from(n, 1));
        assert(cc_sum_from(n - 1, 0) == cc(n - 1, 0) + cc_sum_from(n - 1, 1));
        assert(subset_count(n as nat) == 2 * subset_count((n - 1) as nat));
    }
}

/// The powerset enumeration counts down exactly: the empty subset is
/// followed by all `2^n` subsets but itself, each successor step lowers the
/// count of subsets still to come by exactly one, and the enumeration stops
/// exactly when that count reaches zero. Starting at the empty subset,
/// exactly `2^n` subsets are therefore produced.
#[verifier::rlimit(100)]
#[verifier::spinoff_prover]
pub proof fn lemma_pow_count(s: Seq<int>, n: int)
    requires
        is_comb(s, s.len() as int, n),
        n >= 0,
    ensures
        pow_rem(comb_first(0), n) == subset_count(n as nat) - 1,
        pow_succ(s, n) matches Some(t) ==> pow_rem(t, n) == pow_rem(s, n) - 1 && pow_rem(s, n)
            >= 1,
        pow_succ(s, n) is None ==> pow_rem(s, n) == 0,
{
    let k = s.len() as int;
    lemma_comb_caps(s, n);
    lemma_comb_count(s, n);
    lemma_ccsf_total(n);
    assert(comb_first(0) =~= Seq::<int>::empty());
    assert(pow_rem(comb_first(0), n) == cc_sum_from(n, 1));
    assert(cc_sum_from(n, 0) == cc(n, 0) + cc_sum_from(n, 1));
    match comb_succ(s, n) {
        Some(t) => {
            lemma_comb_succ_len(s, n);
            lemma_ccsf_nonneg(n, k + 1);
        },
        None => {
            if k < n {
                let t = comb_first(k + 1);
                lemma_comb_first_least_self(k + 1, n);
                lemma_comb_count(t, n);
                assert(comb_rem(t, n) == cc(n, k + 1) - 1);
                assert(cc_sum_from(n, k + 1) == cc(n, k + 1) + cc_sum_from(n, k + 2));
                lemma_cc_pos(n, k + 1);
                lemma_ccsf_nonneg(n, k + 2);
            } else {
                assert(k == n);
                assert(cc_sum_from(n, k + 1) == 0);
            }
        },
    }
}

/// Among the positions of `s` that are still below their cap there is a
/// greatest one.
proof fn lemma_greatest_loose(s: Seq<int>, n: int, i0: int)
    requires
        strictly_inc(s),
        in_range(s, n),
        0 <= i0 < s.len(),
        s[i0] < n - s.len() + i0,
    ensures
        exists|i: int|
            0 <= i < s.len() && #[trigger] s[i] < n - s.len() + i && (forall|j: int|
                i < j < s.len() ==> #[trigger] s[j] == n - s.len() + j),
    decreases s.len() - i0,
{
    lemma_comb_caps(s, n);
    if forall|j: int| i0 < j < s.len() ==> #[trigger] s[j] == n - s.len() + j {
        assert(0 <= i0 < s.len() && s[i0] < n - s.len() + i0 && (forall|j: int|
            i0 < j < s.len() ==> #[trigger] s[j] == n - s.len() + j));
    } else {
        let e = choose|j: int| i0 < j < s.len() && #[trigger] s[j] != n - s.len() + j;
        lemma_greatest_loose(s, n, e);
    }
}


/// Lexicographic order on equal-length tuples is transitive.
pub proof fn lemma_lex_trans(a: Seq<int>, b: Seq<int>, c: Seq<int>)
    requires
        a.len() == b.len() == c.len(),
        lex_lt(a, b),
        lex_lt(b, c),
    ensures
        lex_lt(a, c),
    decreases a.len(),
{
    if a.len() > 0 && a.first() == b.first() && b.first() == c.first() {
        lemma_lex_trans(a.drop_first(), b.drop_first(), c.drop_first());
    }
}

/// No tuple precedes itself lexicographically.
pub proof fn lemma_lex_irrefl(a: Seq<int>)
    ensures
        !lex_lt(a, a),
    decreases a.len(),
{
    if a.len() > 0 {
        lemma_lex_irrefl(a.drop_first());
    }
}

/// A full run of an enumeration: a first tuple, each later tuple the
/// successor of the one before, and no successor after the last.
pub open spec fn is_run(ys: Seq<Seq<int>>, succ: spec_fn(Seq<int>) -> Option<Seq<int>>) -> bool {
    &&& ys.len() >= 1
    &&& forall|i: int| 0 <= i < ys.len() - 1 ==> #[trigger] succ(ys[i]) == Some(ys[i + 1])
    &&& succ(ys.last()) is None
}

/// Every tuple of a run is valid when the successor step preserves
/// validity.
pub proof fn lemma_run_valid(
    ys: Seq<Seq<int>>,
    valid: spec_fn(Seq<int>) -> bool,
    succ: spec_fn(Seq<int>) -> Option<Seq<int>>,
)
    requires
        is_run(ys, succ),
        valid(ys[0]),
        forall|s: Seq<int>|
            #![trigger succ(s)]
            valid(s) && succ(s) is Some ==> valid(succ(s)->Some_0),
    ensures
        forall|i: int| 0 <= i < ys.len() ==> valid(#[trigger] ys[i]),
    decreases ys.len(),
{
    if ys.len() > 1 {
        let tail = ys.drop_first();
        assert(succ(ys[0]) == Some(ys[1]));
        assert forall|i: int| 0 <= i < tail.len() - 1 implies #[trigger] succ(tail[i]) == Some(
            tail[i + 1],
        ) by {
            assert(tail[i] == ys[i + 1]);
            assert(succ(ys[i + 1]) == Some(ys[i + 2]));
        }
        assert(tail.last() == ys.last());
        lemma_run_valid(tail, valid, succ);
        assert forall|i: int| 0 <= i < ys.len() implies valid(#[trigger] ys[i]) by {
            if i > 0 {
                assert(valid(tail[i - 1]));
            }
        }
    }
}

/// The length of a run is one more than the count of tuples still to come
/// at its start, when each step lowers that count by exactly one and a
/// step is refused exactly at zero.
pub proof fn lemma_run_length(
    ys: Seq<Seq<int>>,
    valid: spec_fn(Seq<int>) -> bool,
    succ: spec_fn(Seq<int>) -> Option<Seq<int>>,
    rem: spec_fn(Seq<int>) -> int,
)
    requires
        is_run(ys, succ),
        valid(ys[0]),
        forall|s: Seq<int>|
            #![trigger succ(s)]
            valid(s) && succ(s) is Some ==> valid(succ(s)->Some_0) && rem(succ(s)->Some_0) == rem(
                s,
            ) - 1,
        forall|s: Seq<int>|
            #![trigger succ(s)]
            valid(s) && succ(s) is None ==> rem(s) == 0,
    ensures
        ys.len() == rem(ys[0]) + 1,
    decreases ys.len(),
{
    if ys.len() == 1 {
        assert(succ(ys[0]) is None);
    } else {
        let tail = ys.drop_first();
        assert(succ(ys[0]) == Some(ys[1]));
        assert forall|i: int| 0 <= i < tail.len() - 1 implies #[trigger] succ(tail[i]) == Some(
            tail[i + 1],
        ) by {
            assert(tail[i] == ys[i + 1]);
            assert(succ(ys[i + 1]) == Some(ys[i + 2]));
        }
        assert(tail.last() == ys.last());
        lemma_run_length(tail, valid, succ, rem);
    }
}

/// From any run tuple that a valid tuple does not precede, the run reaches
/// that tuple, when each step is the immediate successor.
proof fn lemma_run_reach(
    ys: Seq<Seq<int>>,
    valid: spec_fn(Seq<int>) -> bool,
    succ: spec_fn(Seq<int>) -> Option<Seq<int>>,
    lt: spec_fn(Seq<int>, Seq<int>) -> bool,
    u: Seq<int>,
    i: int,
)
    requires
        is_run(ys, succ),
        forall|j: int| 0 <= j < ys.len() ==> valid(#[trigger] ys[j]),
        valid(u),
        0 <= i < ys.len(),
        ys[i] == u || lt(ys[i], u),
        forall|s: Seq<int>, w: Seq<int>|
            #![trigger succ(s), lt(s, w)]
            valid(s) && valid(w) && succ(s) is Some && lt(s, w) ==> w == succ(s)->Some_0 || lt(
                succ(s)->Some_0,
                w,
            ),
        forall|s: Seq<int>, w: Seq<int>|
            #![trigger succ(s), lt(s, w)]
            valid(s) && valid(w) && succ(s) is None ==> !lt(s, w),
    ensures
        exists|j: int| i <= j < ys.len() && ys[j] == u,
    decreases ys.len() - i,
{
    if ys[i] == u {
        assert(i <= i < ys.len() && ys[i] == u);
    } else {
        assert(lt(ys[i], u));
        if i == ys.len() - 1 {
            assert(succ(ys[i]) is None);
            assert(!lt(ys[i], u));
            assert(false);
        } else {
            assert(succ(ys[i]) == Some(ys[i + 1]));
            assert(u == ys[i + 1] || lt(ys[i + 1], u));
            lemma_run_reach(ys, valid, succ, lt, u, i + 1);
            let j = choose|j: int| i + 1 <= j < ys.len() && ys[j] == u;
            assert(i <= j < ys.len() && ys[j] == u);
        }
    }
}

/// A run that starts at the least valid tuple and steps to the immediate
/// successor each time is strictly ascending — so no tuple twice — and
/// reaches every valid tuple.
pub proof fn lemma_run_exact(
    ys: Seq<Seq<int>>,
    valid: spec_fn(Seq<int>) -> bool,
    succ: spec_fn(Seq<int>) -> Option<Seq<int>>,
    lt: spec_fn(Seq<int>, Seq<int>) -> bool,
)
    requires
        is_run(ys, succ),
        valid(ys[0]),
        forall|u: Seq<int>| #![trigger valid(u)] valid(u) ==> u == ys[0] || lt(ys[0], u),
        forall|s: Seq<int>|
            #![trigger succ(s)]
            valid(s) && succ(s) is Some ==> valid(succ(s)->Some_0) && lt(s, succ(s)->Some_0),
        forall|s: Seq<int>, w: Seq<int>|
            #![trigger succ(s), lt(s, w)]
            valid(s) && valid(w) && succ(s) is Some && lt(s, w) ==> w == succ(s)->Some_0 || lt(
                succ(s)->Some_0,
                w,
            ),
        forall|s: Seq<int>, w: Seq<int>|
            #![trigger succ(s), lt(s, w)]
            valid(s) && valid(w) && succ(s) is None ==> !lt(s, w),
        forall|a: Seq<int>, b: Seq<int>, c: Seq<int>|
            #![trigger lt(a, b), lt(b, c)]
            lt(a, b) && lt(b, c) ==> lt(a, c),
        forall|a: Seq<int>| #![trigger lt(a, a)] !lt(a, a),
    ensures
        forall|i: int| 0 <= i < ys.len() ==> valid(#[trigger] ys[i]),
        forall|i: int, j: int| 0 <= i < j < ys.len() ==> lt(#[trigger] ys[i], #[trigger] ys[j]),
        forall|i: int, j: int| 0 <= i < j < ys.len() ==> ys[i] != ys[j],
        forall|u: Seq<int>|
            #![trigger valid(u)]
            valid(u) ==> exists|i: int| 0 <= i < ys.len() && ys[i] == u,
{
    lemma_run_valid(ys, valid, succ);
    assert forall|i: int, j: int| 0 <= i < j < ys.len() implies lt(
        #[trigger] ys[i],
        #[trigger] ys[j],
    ) by {
        lemma_run_ascending(ys, valid, succ, lt, i, j);
    }
    assert forall|i: int, j: int| 0 <= i < j < ys.len() implies ys[i] != ys[j] by {
        if ys[i] == ys[j] {
            assert(lt(ys[i], ys[j]));
            assert(!lt(ys[i], ys[i]));
        }
    }
    assert forall|u: Seq<int>| #[trigger] valid(u) implies exists|i: int|
        0 <= i < ys.len() && ys[i] == u by {
        lemma_run_reach(ys, valid, succ, lt, u, 0);
    }
}

/// Later run tuples are greater, by chaining steps.
proof fn lemma_run_ascending(
    ys: Seq<Seq<int>>,
    valid: spec_fn(Seq<int>) -> bool,
    succ: spec_fn(Seq<int>) -> Option<Seq<int>>,
    lt: spec_fn(Seq<int>, Seq<int>) -> bool,
    i: int,
    j: int,
)
    requires
        is_run(ys, succ),
        forall|l: int| 0 <= l < ys.len() ==> valid(#[trigger] ys[l]),
        forall|s: Seq<int>|
            #![trigger succ(s)]
            valid(s) && succ(s) is Some ==> valid(succ(s)->Some_0) && lt(s, succ(s)->Some_0),
        forall|a: Seq<int>, b: Seq<int>, c: Seq<int>|
            #![trigger lt(a, b), lt(b, c)]
            lt(a, b) && lt(b, c) ==> lt(a, c),
        0 <= i < j < ys.len(),
    ensures
        lt(ys[i], ys[j]),
    decreases j - i,
{
    assert(succ(ys[j - 1]) == Some(ys[j]));
    assert(lt(ys[j - 1], ys[j]));
    if i < j - 1 {
        lemma_run_ascending(ys, valid, succ, lt, i, j - 1);
        assert(lt(ys[i], ys[j - 1]) && lt(ys[j - 1], ys[j]));
    }
}


/// P1 as one whole-run statement. A full run of the combinations
/// enumeration — starting at the first combination of size `k` and stepping
/// to the lexicographic successor until none exists — has exactly
/// `cc(n, k)` entries, every entry a valid combination, strictly ascending
/// lexicographically (so none repeats), and every combination of size `k`
/// over `n` elements appears.
pub proof fn lemma_comb_run(ys: Seq<Seq<int>>, k: int, n: int)
    requires
        0 <= k <= n,
        ys.len() >= 1,
        ys[0] == comb_first(k),
        forall|i: int| 0 <= i < ys.len() - 1 ==> comb_succ(#[trigger] ys[i], n) == Some(ys[i + 1]),
        comb_succ(ys.last(), n) is None,
    ensures
        ys.len() == cc(n, k),
        forall|i: int| 0 <= i < ys.len() ==> is_comb(#[trigger] ys[i], k, n),
        forall|i: int, j: int| 0 <= i < j < ys.len() ==> lex_lt(#[trigger] ys[i], #[trigger] ys[j]),
        forall|u: Seq<int>|
            #[trigger] is_comb(u, k, n) ==> exists|i: int| 0 <= i < ys.len() && ys[i] == u,
{
    let valid = |s: Seq<int>| is_comb(s, k, n);
    let succ = |s: Seq<int>| comb_succ(s, n);
    let rem = |s: Seq<int>| comb_rem(s, n);
    let lt = |a: Seq<int>, b: Seq<int>| a.len() == k && b.len() == k && lex_lt(a, b);
    assert forall|i: int| 0 <= i < ys.len() - 1 implies #[trigger] succ(ys[i]) == Some(
        ys[i + 1],
    ) by {}
    assert(is_run(ys, succ));
    lemma_comb_first_least_self(k, n);
    assert(valid(ys[0]));
    assert forall|s: Seq<int>|
        #![trigger succ(s)]
        valid(s) && succ(s) is Some implies valid(succ(s)->Some_0) && rem(succ(s)->Some_0) == rem(
        s,
    ) - 1 && lt(s, succ(s)->Some_0) by {
        if valid(s) && succ(s) is Some {
            lemma_comb_succ_exact(s, n, s);
            lemma_comb_count(s, n);
        }
    }
    assert forall|s: Seq<int>| #![trigger succ(s)] valid(s) && succ(s) is None implies rem(s)
        == 0 by {
        if valid(s) && succ(s) is None {
            lemma_comb_count(s, n);
        }
    }
    assert forall|s: Seq<int>, w: Seq<int>|
        #![trigger succ(s), lt(s, w)]
        valid(s) && valid(w) && succ(s) is Some && lt(s, w) implies w == succ(s)->Some_0 || lt(
        succ(s)->Some_0,
        w,
    ) by {
        if valid(s) && valid(w) && succ(s) is Some && lt(s, w) {
            lemma_comb_succ_exact(s, n, w);
        }
    }
    assert forall|s: Seq<int>, w: Seq<int>|
        #![trigger succ(s), lt(s, w)]
        valid(s) && valid(w) && succ(s) is None implies !lt(s, w) by {
        if valid(s) && valid(w) && succ(s) is None {
            lemma_comb_succ_exact(s, n, w);
        }
    }
    assert forall|a: Seq<int>, b: Seq<int>, c: Seq<int>|
        #![trigger lt(a, b), lt(b, c)]
        lt(a, b) && lt(b, c) implies lt(a, c) by {
        if lt(a, b) && lt(b, c) {
            lemma_lex_trans(a, b, c);
        }
    }
    assert forall|a: Seq<int>| #![trigger lt(a, a)] !lt(a, a) by {
        lemma_lex_irrefl(a);
    }
    assert forall|u: Seq<int>| #![trigger valid(u)] valid(u) implies u == ys[0] || lt(
        ys[0],
        u,
    ) by {
        if valid(u) && u != comb_first(k) {
            lemma_comb_first_least(k, n, u);
        }
    }
    lemma_run_length(ys, valid, succ, rem);
    lemma_comb_count(comb_first(k), n);
    lemma_run_exact(ys, valid, succ, lt);
    assert forall|i: int| 0 <= i < ys.len() implies is_comb(#[trigger] ys[i], k, n) by {
        assert(valid(ys[i]));
    }
    assert forall|i: int, j: int| 0 <= i < j < ys.len() implies lex_lt(
        #[trigger] ys[i],
        #[trigger] ys[j],
    ) by {
        assert(lt(ys[i], ys[j]));
    }
    assert forall|u: Seq<int>| #[trigger] is_comb(u, k, n) implies exists|i: int|
        0 <= i < ys.len() && ys[i] == u by {
        assert(valid(u));
    }
}

/// P2 as one whole-run statement. A full run of the
/// combinations-with-replacement enumeration over a non-empty source has
/// exactly `cc(n + k - 1, k)` entries, every entry valid, strictly
/// ascending lexicographically, and every non-decreasing tuple of size `k`
/// over `n` elements appears.
pub proof fn lemma_cwr_run(ys: Seq<Seq<int>>, k: int, n: int)
    requires
        0 <= k,
        n >= 1,
        ys.len() >= 1,
        ys[0] == crate::model::cwr_first(k),
        forall|i: int| 0 <= i < ys.len() - 1 ==> cwr_succ(#[trigger] ys[i], n) == Some(ys[i + 1]),
        cwr_succ(ys.last(), n) is None,
    ensures
        ys.len() == cc(n + k - 1, k),
        forall|i: int| 0 <= i < ys.len() ==> is_cwr(#[trigger] ys[i], k, n),
        forall|i: int, j: int| 0 <= i < j < ys.len() ==> lex_lt(#[trigger] ys[i], #[trigger] ys[j]),
        forall|u: Seq<int>|
            #[trigger] is_cwr(u, k, n) ==> exists|i: int| 0 <= i < ys.len() && ys[i] == u,
{
    let valid = |s: Seq<int>| is_cwr(s, k, n);
    let succ = |s: Seq<int>| cwr_succ(s, n);
    let rem = |s: Seq<int>| cwr_rem(s, n);
    let lt = |a: Seq<int>, b: Seq<int>| a.len() == k && b.len() == k && lex_lt(a, b);
    assert forall|i: int| 0 <= i < ys.len() - 1 implies #[trigger] succ(ys[i]) == Some(
        ys[i + 1],
    ) by {}
    assert(is_run(ys, succ));
    assert(is_cwr(crate::model::cwr_first(k), k, n));
    assert(valid(ys[0]));
    assert forall|s: Seq<int>|
        #![trigger succ(s)]
        valid(s) && succ(s) is Some implies valid(succ(s)->Some_0) && rem(succ(s)->Some_0) == rem(
        s,
    ) - 1 && lt(s, succ(s)->Some_0) by {
        if valid(s) && succ(s) is Some {
            lemma_cwr_succ_exact(s, n, s);
            lemma_cwr_count(s, n);
        }
    }
    assert forall|s: Seq<int>| #![trigger succ(s)] valid(s) && succ(s) is None implies rem(s)
        == 0 by {
        if valid(s) && succ(s) is None {
            lemma_cwr_count(s, n);
        }
    }
    assert forall|s: Seq<int>, w: Seq<int>|
        #![trigger succ(s), lt(s, w)]
        valid(s) && valid(w) && succ(s) is Some && lt(s, w) implies w == succ(s)->Some_0 || lt(
        succ(s)->Some_0,
        w,
    ) by {
        if valid(s) && valid(w) && succ(s) is Some && lt(s, w) {
            lemma_cwr_succ_exact(s, n, w);
        }
    }
    assert forall|s: Seq<int>, w: Seq<int>|
        #![trigger succ(s), lt(s, w)]
        valid(s) && valid(w) && succ(s) is None implies !lt(s, w) by {
        if valid(s) && valid(w) && succ(s) is None {
            lemma_cwr_succ_exact(s, n, w);
        }
    }
    assert forall|a: Seq<int>, b: Seq<int>, c: Seq<int>|
        #![trigger lt(a, b), lt(b, c)]
        lt(a, b) && lt(b, c) implies lt(a, c) by {
        if lt(a, b) && lt(b, c) {
            lemma_lex_trans(a, b, c);
        }
    }
    assert forall|a: Seq<int>| #![trigger lt(a, a)] !lt(a, a) by {
        lemma_lex_irrefl(a);
    }
    assert forall|u: Seq<int>| #![trigger valid(u)] valid(u) implies u == ys[0] || lt(
        ys[0],
        u,
    ) by {
        if valid(u) && u != crate::model::cwr_first(k) {
            lemma_cwr_first_least(k, n, u);
        }
    }
    lemma_run_length(ys, valid, succ, rem);
    lemma_cwr_count(crate::model::cwr_first(k), n);
    lemma_run_exact(ys, valid, succ, lt);
    assert forall|i: int| 0 <= i < ys.len() implies is_cwr(#[trigger] ys[i], k, n) by {
        assert(valid(ys[i]));
    }
    assert forall|i: int, j: int| 0 <= i < j < ys.len() implies lex_lt(
        #[trigger] ys[i],
        #[trigger] ys[j],
    ) by {
        assert(lt(ys[i], ys[j]));
    }
    assert forall|u: Seq<int>| #[trigger] is_cwr(u, k, n) implies exists|i: int|
        0 <= i < ys.len() && ys[i] == u by {
        assert(valid(u));
    }
}


/// P3 as one whole-run statement. A full run of the powerset enumeration —
/// starting at the empty subset and stepping to the successor in the
/// size-then-lexicographic order until none exists — has exactly `2^n`
/// entries, every entry a valid combination of its own size, strictly
/// ascending in the subset order (so none repeats), and every subset of
/// the `n` source positions appears.
pub proof fn lemma_pow_run(ys: Seq<Seq<int>>, n: int)
    requires
        n >= 0,
        ys.len() >= 1,
        ys[0] == comb_first(0),
        forall|i: int| 0 <= i < ys.len() - 1 ==> pow_succ(#[trigger] ys[i], n) == Some(ys[i + 1]),
        pow_succ(ys.last(), n) is None,
    ensures
        ys.len() == subset_count(n as nat),
        forall|i: int| 0 <= i < ys.len() ==> is_comb(#[trigger] ys[i], ys[i].len() as int, n),
        forall|i: int, j: int| 0 <= i < j < ys.len() ==> pow_lt(#[trigger] ys[i], #[trigger] ys[j]),
        forall|u: Seq<int>|
            #[trigger] is_comb(u, u.len() as int, n) ==> exists|i: int|
                0 <= i < ys.len() && ys[i] == u,
{
    let valid = |s: Seq<int>| is_comb(s, s.len() as int, n);
    let succ = |s: Seq<int>| pow_succ(s, n);
    let rem = |s: Seq<int>| pow_rem(s, n);
    let lt = |a: Seq<int>, b: Seq<int>| pow_lt(a, b);
    assert forall|i: int| 0 <= i < ys.len() - 1 implies #[trigger] succ(ys[i]) == Some(
        ys[i + 1],
    ) by {}
    assert(is_run(ys, succ));
    assert(comb_first(0) =~= Seq::<int>::empty());
    assert(valid(ys[0]));
    assert forall|s: Seq<int>|
        #![trigger succ(s)]
        valid(s) && succ(s) is Some implies valid(succ(s)->Some_0) && rem(succ(s)->Some_0) == rem(
        s,
    ) - 1 && lt(s, succ(s)->Some_0) by {
        if valid(s) && succ(s) is Some {
            lemma_pow_succ_exact(s, n, s);
            lemma_pow_count(s, n);
        }
    }
    assert forall|s: Seq<int>| #![trigger succ(s)] valid(s) && succ(s) is None implies rem(s)
        == 0 by {
        if valid(s) && succ(s) is None {
            lemma_pow_count(s, n);
        }
    }
    assert forall|s: Seq<int>, w: Seq<int>|
        #![trigger succ(s), lt(s, w)]
        valid(s) && valid(w) && succ(s) is Some && lt(s, w) implies w == succ(s)->Some_0 || lt(
        succ(s)->Some_0,
        w,
    ) by {
        if valid(s) && valid(w) && succ(s) is Some && lt(s, w) {
            lemma_pow_succ_exact(s, n, w);
        }
    }
    assert forall|s: Seq<int>, w: Seq<int>|
        #![trigger succ(s), lt(s, w)]
        valid(s) && valid(w) && succ(s) is None implies !lt(s, w) by {
        if valid(s) && valid(w) && succ(s) is None {
            lemma_pow_succ_exact(s, n, w);
        }
    }
    assert forall|a: Seq<int>, b: Seq<int>, c: Seq<int>|
        #![trigger lt(a, b), lt(b, c)]
        lt(a, b) && lt(b, c) implies lt(a, c) by {
        if lt(a, b) && lt(b, c) && a.len() == b.len() && b.len() == c.len() {
            lemma_lex_trans(a, b, c);
        }
    }
    assert forall|a: Seq<int>| #![trigger lt(a, a)] !lt(a, a) by {
        lemma_lex_irrefl(a);
    }
    assert forall|u: Seq<int>| #![trigger valid(u)] valid(u) implies u == ys[0] || lt(
        ys[0],
        u,
    ) by {
        if valid(u) && u.len() == 0 {
            assert(u =~= comb_first(0));
        }
    }
    lemma_run_length(ys, valid, succ, rem);
    lemma_pow_count(comb_first(0), n);
    lemma_run_exact(ys, valid, succ, lt);
    assert forall|i: int| 0 <= i < ys.len() implies is_comb(
        #[trigger] ys[i],
        ys[i].len() as int,
        n,
    ) by {
        assert(valid(ys[i]));
    }
    assert forall|i: int, j: int| 0 <= i < j < ys.len() implies pow_lt(
        #[trigger] ys[i],
        #[trigger] ys[j],
    ) by {
        assert(lt(ys[i], ys[j]));
    }
    assert forall|u: Seq<int>| #[trigger] is_comb(u, u.len() as int, n) implies exists|i: int|
        0 <= i < ys.len() && ys[i] == u by {
        assert(valid(u));
    }
}

/// Equal mixed-radix ranks mean equal position tuples.
proof fn lemma_prod_rank_inj(a: Seq<int>, b: Seq<int>, dims: Seq<int>)
    requires
        in_dims(a, dims),
        in_dims(b, dims),
        prod_rank(a, dims) == prod_rank(b, dims),
    ensures
        a == b,
    decreases a.len(),
{
    if a.len() == 0 {
        assert(a =~= b);
    } else {
        let m = a.len() as int;
        assert(0 <= a[m - 1] < dims[m - 1]);
        assert(0 <= b[m - 1] < dims[m - 1]);
        let ra = prod_rank(a.drop_last(), dims.drop_last());
        let rb = prod_rank(b.drop_last(), dims.drop_last());
        assert(ra == rb && a.last() == b.last()) by (nonlinear_arith)
            requires
                ra * dims.last() + a.last() == rb * dims.last() + b.last(),
                0 <= a.last() < dims.last(),
                0 <= b.last() < dims.last(),
        ;
        assert(in_dims(a.drop_last(), dims.drop_last()));
        assert(in_dims(b.drop_last(), dims.drop_last()));
        lemma_prod_rank_inj(a.drop_last(), b.drop_last(), dims.drop_last());
        assert forall|j: int| 0 <= j < m implies a[j] == b[j] by {
            if j < m - 1 {
                assert(a.drop_last()[j] == b.drop_last()[j]);
            }
        }
        assert(a =~= b);
    }
}

/// P4 as one whole-run statement. A full run of the product enumeration
/// over non-empty lanes — starting with every lane at its first element
/// and stepping the odometer until it cannot advance — has exactly the
/// product of the lane lengths many entries, every entry a valid position
/// tuple, strictly ascending in rank (so none repeats, and the last lane
/// varies fastest), and every position tuple appears.
pub proof fn lemma_prod_run(ys: Seq<Seq<int>>, dims: Seq<int>)
    requires
        dims_positive(dims),
        ys.len() >= 1,
        ys[0] == prod_first(dims.len() as int),
        forall|i: int| 0 <= i < ys.len() - 1 ==> prod_succ(#[trigger] ys[i], dims) == Some(
            ys[i + 1],
        ),
        prod_succ(ys.last(), dims) is None,
    ensures
        ys.len() == prod_of(dims),
        forall|i: int| 0 <= i < ys.len() ==> in_dims(#[trigger] ys[i], dims),
        forall|i: int, j: int|
            0 <= i < j < ys.len() ==> prod_rank(#[trigger] ys[i], dims) < prod_rank(
                #[trigger] ys[j],
                dims,
            ),
        forall|u: Seq<int>|
            #[trigger] in_dims(u, dims) ==> exists|i: int| 0 <= i < ys.len() && ys[i] == u,
{
    let valid = |c: Seq<int>| in_dims(c, dims);
    let succ = |c: Seq<int>| prod_succ(c, dims);
    let rem = |c: Seq<int>| prod_remaining(c, dims);
    let lt = |a: Seq<int>, b: Seq<int>| prod_rank(a, dims) < prod_rank(b, dims);
    assert forall|i: int| 0 <= i < ys.len() - 1 implies #[trigger] succ(ys[i]) == Some(
        ys[i + 1],
    ) by {}
    assert(is_run(ys, succ));
    lemma_prod_first_rank(dims);
    assert(valid(ys[0]));
    assert forall|s: Seq<int>|
        #![trigger succ(s)]
        valid(s) && succ(s) is Some implies valid(succ(s)->Some_0) && rem(succ(s)->Some_0) == rem(
        s,
    ) - 1 && lt(s, succ(s)->Some_0) by {
        if valid(s) && succ(s) is Some {
            lemma_prod_succ_rank(s, dims);
            lemma_prod_rank_bounds(s, dims);
            lemma_prod_rank_bounds(succ(s)->Some_0, dims);
        }
    }
    assert forall|s: Seq<int>| #![trigger succ(s)] valid(s) && succ(s) is None implies rem(s)
        == 0 by {
        if valid(s) && succ(s) is None {
            lemma_prod_succ_rank(s, dims);
            lemma_prod_rank_bounds(s, dims);
        }
    }
    assert forall|s: Seq<int>, w: Seq<int>|
        #![trigger succ(s), lt(s, w)]
        valid(s) && valid(w) && succ(s) is Some && lt(s, w) implies w == succ(s)->Some_0 || lt(
        succ(s)->Some_0,
        w,
    ) by {
        if valid(s) && valid(w) && succ(s) is Some && lt(s, w) {
            lemma_prod_succ_rank(s, dims);
            if prod_rank(w, dims) == prod_rank(succ(s)->Some_0, dims) {
                lemma_prod_rank_inj(w, succ(s)->Some_0, dims);
            }
        }
    }
    assert forall|s: Seq<int>, w: Seq<int>|
        #![trigger succ(s), lt(s, w)]
        valid(s) && valid(w) && succ(s) is None implies !lt(s, w) by {
        if valid(s) && valid(w) && succ(s) is None {
            lemma_prod_succ_rank(s, dims);
            lemma_prod_rank_bounds(w, dims);
        }
    }
    assert forall|u: Seq<int>| #![trigger valid(u)] valid(u) implies u == ys[0] || lt(
        ys[0],
        u,
    ) by {
        if valid(u) {
            lemma_prod_rank_bounds(u, dims);
            if prod_rank(u, dims) == 0 {
                lemma_prod_rank_inj(u, prod_first(dims.len() as int), dims);
            }
        }
    }
    lemma_run_length(ys, valid, succ, rem);
    lemma_prod_rank_bounds(prod_first(dims.len() as int), dims);
    lemma_run_exact(ys, valid, succ, lt);
    assert forall|i: int| 0 <= i < ys.len() implies in_dims(#[trigger] ys[i], dims) by {
        assert(valid(ys[i]));
    }
    assert forall|i: int, j: int| 0 <= i < j < ys.len() implies prod_rank(#[trigger] ys[i], dims)
        < prod_rank(#[trigger] ys[j], dims) by {
        assert(lt(ys[i], ys[j]));
    }
    assert forall|u: Seq<int>| #[trigger] in_dims(u, dims) implies exists|i: int|
        0 <= i < ys.len() && ys[i] == u by {
        assert(valid(u));
    }
}

} // verus!
