//! The mathematical model of the enumerations: which index tuples are valid,
//! in what order they are produced, and how many there are.

use vstd::prelude::*;

verus! {

/// Entries of `s` are strictly increasing.
pub open spec fn strictly_inc(s: Seq<int>) -> bool {
    forall|i: int, j: int| 0 <= i < j < s.len() ==> s[i] < s[j]
}

/// Entries of `s` never decrease.
pub open spec fn nondec(s: Seq<int>) -> bool {
    forall|i: int, j: int| 0 <= i <= j < s.len() ==> s[i] <= s[j]
}

/// Every entry of `s` is a position into a source of `n` elements.
pub open spec fn in_range(s: Seq<int>, n: int) -> bool {
    forall|i: int| 0 <= i < s.len() ==> 0 <= #[trigger] s[i] < n
}

/// `s` is a valid combination index tuple of size `k` over `n` source
/// elements: strictly increasing positions, all below `n`.
pub open spec fn is_comb(s: Seq<int>, k: int, n: int) -> bool {
    s.len() == k && strictly_inc(s) && in_range(s, n)
}

/// `s` is a valid combination-with-replacement index tuple of size `k` over
/// `n` source elements: non-decreasing positions, all below `n`.
pub open spec fn is_cwr(s: Seq<int>, k: int, n: int) -> bool {
    s.len() == k && nondec(s) && in_range(s, n)
}

/// The lexicographically least combination of size `k`: positions 0 .. k.
pub open spec fn comb_first(k: int) -> Seq<int> {
    Seq::new(k as nat, |i: int| i)
}

/// Strict lexicographic order on index tuples (compared left to right; a
/// proper prefix precedes its extensions).
pub open spec fn lex_lt(a: Seq<int>, b: Seq<int>) -> bool
    decreases a.len(),
{
    if b.len() == 0 {
        false
    } else if a.len() == 0 {
        true
    } else {
        a.first() < b.first() || (a.first() == b.first() && lex_lt(a.drop_first(), b.drop_first()))
    }
}

/// Lexicographic successor of the strictly increasing tuple `s` among
/// combinations over `n` source elements; `None` when `s` is the last one.
/// The rightmost entry that can still grow (entry `i` is capped at
/// `n - len + i`) is incremented and every entry to its right is renumbered
/// consecutively after it.
pub open spec fn comb_succ(s: Seq<int>, n: int) -> Option<Seq<int>>
    decreases s.len(),
{
    if s.len() == 0 {
        None
    } else if s.last() < n - 1 {
        Some(s.update(s.len() - 1, s.last() + 1))
    } else {
        match comb_succ(s.drop_last(), n - 1) {
            Some(p) => Some(p.push(p.last() + 1)),
            None => None,
        }
    }
}

/// Lexicographic successor of the non-decreasing tuple `s` among
/// combinations with replacement over `n` source elements: the rightmost
/// entry below `n - 1` is incremented and every entry to its right is set to
/// that same new value.
pub open spec fn cwr_succ(s: Seq<int>, n: int) -> Option<Seq<int>>
    decreases s.len(),
{
    if s.len() == 0 {
        None
    } else if s.last() < n - 1 {
        Some(s.update(s.len() - 1, s.last() + 1))
    } else {
        match cwr_succ(s.drop_last(), n) {
            Some(p) => Some(p.push(p.last())),
            None => None,
        }
    }
}

/// Every lane position in `c` lies below its lane's length in `dims`.
pub open spec fn in_dims(c: Seq<int>, dims: Seq<int>) -> bool {
    c.len() == dims.len() && forall|i: int| 0 <= i < c.len() ==> 0 <= #[trigger] c[i] < dims[i]
}

/// Every lane holds at least one element.
pub open spec fn dims_positive(dims: Seq<int>) -> bool {
    forall|i: int| 0 <= i < dims.len() ==> #[trigger] dims[i] >= 1
}

/// The first tuple of lane positions: every lane at its start.
pub open spec fn prod_first(m: int) -> Seq<int> {
    Seq::new(m as nat, |i: int| 0)
}

/// Odometer successor of the lane-position tuple `c` under lane lengths
/// `dims`: the last lane varies fastest; a lane that overflows resets to 0
/// and carries one step leftward. `None` when every lane is at its end.
pub open spec fn prod_succ(c: Seq<int>, dims: Seq<int>) -> Option<Seq<int>>
    decreases c.len(),
{
    if c.len() == 0 {
        None
    } else if c.last() + 1 < dims.last() {
        Some(c.update(c.len() - 1, c.last() + 1))
    } else {
        match prod_succ(c.drop_last(), dims.drop_last()) {
            Some(p) => Some(p.push(0)),
            None => None,
        }
    }
}

/// Product of all lane lengths: how many tuples the product enumeration holds.
pub open spec fn prod_of(dims: Seq<int>) -> int
    decreases dims.len(),
{
    if dims.len() == 0 {
        1
    } else {
        prod_of(dims.drop_last()) * dims.last()
    }
}

/// Mixed-radix rank of the lane-position tuple `c`: how many tuples precede
/// it in odometer order.
pub open spec fn prod_rank(c: Seq<int>, dims: Seq<int>) -> int
    decreases c.len(),
{
    if c.len() == 0 {
        0
    } else {
        prod_rank(c.drop_last(), dims.drop_last()) * dims.last() + c.last()
    }
}

/// Count of tuples that follow `c` in odometer order under lane lengths
/// `dims`.
pub open spec fn prod_remaining(c: Seq<int>, dims: Seq<int>) -> int
    decreases c.len(),
{
    if c.len() == 0 {
        0
    } else {
        prod_remaining(c.drop_last(), dims.drop_last()) * dims.last() + (dims.last() - 1
            - c.last())
    }
}

/// The tuple reached from `c` by advancing lane `i` one step and resetting
/// every lane to its right to the start.
pub open spec fn prod_bump(c: Seq<int>, i: int) -> Seq<int> {
    Seq::new(
        c.len(),
        |j: int|
            if j < i {
                c[j]
            } else if j == i {
                c[i] + 1
            } else {
                0
            },
    )
}

/// The one element each lane contributes under the position tuple `c`.
pub open spec fn prod_selected<T>(c: Seq<int>, lanes: Seq<Seq<T>>) -> Seq<T> {
    Seq::new(c.len(), |j: int| lanes[j][c[j]])
}

/// When lane `i` can still advance and every lane to its right is at its
/// end, the odometer successor advances lane `i` and resets the lanes after
/// it; the result is again a valid position tuple.
pub proof fn lemma_prod_succ_at(c: Seq<int>, dims: Seq<int>, i: int)
    requires
        in_dims(c, dims),
        0 <= i < c.len(),
        c[i] + 1 < dims[i],
        forall|j: int| i < j < c.len() ==> #[trigger] c[j] + 1 == dims[j],
    ensures
        prod_succ(c, dims) == Some(prod_bump(c, i)),
        in_dims(prod_bump(c, i), dims),
    decreases c.len(),
{
    let m = c.len() as int;
    let t = prod_bump(c, i);
    if i == m - 1 {
        assert(c.update(m - 1, c.last() + 1) =~= t);
    } else {
        assert(c[m - 1] + 1 == dims[m - 1]);
        lemma_prod_succ_at(c.drop_last(), dims.drop_last(), i);
        let q = prod_bump(c.drop_last(), i);
        assert(q.push(0) =~= t);
    }
}

/// When every lane is at its end, the position tuple is the last one.
pub proof fn lemma_prod_succ_none(c: Seq<int>, dims: Seq<int>)
    requires
        in_dims(c, dims),
        forall|j: int| 0 <= j < c.len() ==> #[trigger] c[j] + 1 == dims[j],
    ensures
        prod_succ(c, dims) is None,
    decreases c.len(),
{
    if c.len() > 0 {
        lemma_prod_succ_none(c.drop_last(), dims.drop_last());
    }
}

/// A product of non-negative lane lengths is non-negative.
pub proof fn lemma_prod_of_nonneg(dims: Seq<int>)
    requires
        forall|i: int| 0 <= i < dims.len() ==> #[trigger] dims[i] >= 0,
    ensures
        prod_of(dims) >= 0,
    decreases dims.len(),
{
    if dims.len() > 0 {
        lemma_prod_of_nonneg(dims.drop_last());
        assert(prod_of(dims.drop_last()) * dims.last() >= 0) by (nonlinear_arith)
            requires
                prod_of(dims.drop_last()) >= 0,
                dims.last() >= 0,
        ;
    }
}

/// The count of tuples after a valid position tuple is non-negative.
pub proof fn lemma_prod_remaining_nonneg(c: Seq<int>, dims: Seq<int>)
    requires
        in_dims(c, dims),
    ensures
        prod_remaining(c, dims) >= 0,
    decreases c.len(),
{
    if c.len() > 0 {
        assert(0 <= c[c.len() - 1] < dims[c.len() - 1]);
        assert(in_dims(c.drop_last(), dims.drop_last()));
        lemma_prod_remaining_nonneg(c.drop_last(), dims.drop_last());
        assert(prod_remaining(c.drop_last(), dims.drop_last()) * dims.last() >= 0)
            by (nonlinear_arith)
            requires
                prod_remaining(c.drop_last(), dims.drop_last()) >= 0,
                dims.last() >= 1,
        ;
    }
}

/// Number of combinations of size `k` drawn from `n` elements, by Pascal's
/// rule.
pub open spec fn choose_count(n: nat, k: nat) -> nat
    decreases n, k,
{
    if k == 0 {
        1
    } else if n == 0 {
        0
    } else {
        choose_count((n - 1) as nat, (k - 1) as nat) + choose_count((n - 1) as nat, k)
    }
}

/// `choose_count` carried to integer arguments: zero outside its domain.
pub open spec fn cc(n: int, k: int) -> int {
    if n < 0 || k < 0 {
        0
    } else {
        choose_count(n as nat, k as nat) as int
    }
}

/// The consecutive run of `r` positions starting at `b`.
pub open spec fn run_from(b: int, r: int) -> Seq<int> {
    Seq::new(r as nat, |i: int| b + i)
}

/// Count of combinations over `n` source elements that follow `s` in
/// lexicographic order: each entry `s[i]` contributes the combinations that
/// agree before position `i` and take a larger position there.
pub open spec fn comb_rem(s: Seq<int>, n: int) -> int
    decreases s.len(),
{
    if s.len() == 0 {
        0
    } else {
        cc(n - 1 - s[0], s.len() as int) + comb_rem(s.drop_first(), n)
    }
}

/// The constant run of `r` copies of position `b`.
pub open spec fn crep(b: int, r: int) -> Seq<int> {
    Seq::new(r as nat, |i: int| b)
}

/// Count of combinations with replacement over `n` source elements that
/// follow `s` in lexicographic order: each entry `s[i]` contributes the
/// non-decreasing tuples that agree before position `i` and take a larger
/// position there.
pub open spec fn cwr_rem(s: Seq<int>, n: int) -> int
    decreases s.len(),
{
    if s.len() == 0 {
        0
    } else {
        cc(n - s[0] - 2 + s.len(), s.len() as int) + cwr_rem(s.drop_first(), n)
    }
}

/// Sum of the combination counts `cc(n, j)` over all sizes `j` from `k` up.
pub open spec fn cc_sum_from(n: int, k: int) -> int
    decreases n + 1 - k,
{
    if n < 0 || k > n || k < 0 {
        0
    } else {
        cc(n, k) + cc_sum_from(n, k + 1)
    }
}

/// Count of subsets of an `n`-element source that follow `s` in the
/// powerset order: the same-size combinations after `s`, then every subset
/// of a larger size.
pub open spec fn pow_rem(s: Seq<int>, n: int) -> int {
    comb_rem(s, n) + cc_sum_from(n, s.len() as int + 1)
}

/// Pascal's rule, on the integer form of the combination count.
pub proof fn lemma_cc_pascal(m: int, r: int)
    requires
        m >= 1,
        r >= 1,
    ensures
        cc(m, r) == cc(m - 1, r) + cc(m - 1, r - 1),
{
    assert(choose_count(m as nat, r as nat) == choose_count((m - 1) as nat, (r - 1) as nat)
        + choose_count((m - 1) as nat, r as nat));
}

/// Too few elements leave no combination.
pub proof fn lemma_cc_small(m: int, r: int)
    requires
        0 <= m < r,
    ensures
        cc(m, r) == 0,
    decreases m,
{
    if m > 0 {
        lemma_cc_small(m - 1, r - 1);
        lemma_cc_small(m - 1, r);
        lemma_cc_pascal(m, r);
    }
}

/// Counts of combinations still to come are never negative.
pub proof fn lemma_comb_rem_nonneg(s: Seq<int>, n: int)
    ensures
        comb_rem(s, n) >= 0,
    decreases s.len(),
{
    if s.len() > 0 {
        lemma_comb_rem_nonneg(s.drop_first(), n);
    }
}

/// Dropping a prefix of a tuple never raises the count of combinations
/// still to come.
pub proof fn lemma_comb_rem_skip_le(s: Seq<int>, n: int, i: int)
    requires
        0 <= i <= s.len(),
    ensures
        0 <= comb_rem(s.skip(i), n) <= comb_rem(s, n),
    decreases i,
{
    lemma_comb_rem_nonneg(s.skip(i), n);
    if i == 0 {
        assert(s.skip(0) =~= s);
    } else {
        lemma_comb_rem_skip_le(s.drop_first(), n, i - 1);
        assert(s.drop_first().skip(i - 1) =~= s.skip(i));
    }
}

/// Counts of tuples still to come with replacement are never negative.
pub proof fn lemma_cwr_rem_nonneg(s: Seq<int>, n: int)
    ensures
        cwr_rem(s, n) >= 0,
    decreases s.len(),
{
    if s.len() > 0 {
        lemma_cwr_rem_nonneg(s.drop_first(), n);
    }
}

/// Dropping a prefix of a tuple never raises the count of tuples still to
/// come with replacement.
pub proof fn lemma_cwr_rem_skip_le(s: Seq<int>, n: int, i: int)
    requires
        0 <= i <= s.len(),
    ensures
        0 <= cwr_rem(s.skip(i), n) <= cwr_rem(s, n),
    decreases i,
{
    lemma_cwr_rem_nonneg(s.skip(i), n);
    if i == 0 {
        assert(s.skip(0) =~= s);
    } else {
        lemma_cwr_rem_skip_le(s.drop_first(), n, i - 1);
        assert(s.drop_first().skip(i - 1) =~= s.skip(i));
    }
}

/// The elements that an index tuple selects from a source sequence.
pub open spec fn selected<T>(s: Seq<int>, src: Seq<T>) -> Seq<T> {
    Seq::new(s.len(), |i: int| src[s[i]])
}

/// The combination reached from `s` by incrementing entry `i` and renumbering
/// every entry to its right consecutively after it.
pub open spec fn comb_bump(s: Seq<int>, i: int) -> Seq<int> {
    Seq::new(s.len(), |j: int| if j < i { s[j] } else { s[i] + (j - i) + 1 })
}

/// A strictly increasing sequence grows by at least one per step.
pub proof fn lemma_inc_gap(s: Seq<int>, i: int, j: int)
    requires
        strictly_inc(s),
        0 <= i <= j < s.len(),
    ensures
        s[j] >= s[i] + (j - i),
    decreases j - i,
{
    if i < j {
        lemma_inc_gap(s, i, (j - 1) as int);
    }
}

/// Entry `j` of a combination over `n` elements lies between `j` and
/// `n - len + j`; in particular a combination of size `k` needs `n >= k`.
pub proof fn lemma_comb_caps(s: Seq<int>, n: int)
    requires
        strictly_inc(s),
        in_range(s, n),
    ensures
        forall|j: int| 0 <= j < s.len() ==> j <= #[trigger] s[j] <= n - s.len() + j,
        s.len() > 0 ==> s.len() <= n,
{
    assert forall|j: int| 0 <= j < s.len() implies j <= #[trigger] s[j] <= n - s.len() + j by {
        lemma_inc_gap(s, 0, j);
        lemma_inc_gap(s, j, s.len() - 1);
    }
    if s.len() > 0 {
        assert(0 <= s[0] <= n - s.len());
    }
}

/// When entry `i` of a combination can still grow and every entry to its
/// right is at its cap, the successor increments entry `i` and renumbers the
/// entries after it consecutively; the result is again a valid combination.
pub proof fn lemma_comb_succ_at(s: Seq<int>, n: int, i: int)
    requires
        strictly_inc(s),
        in_range(s, n),
        0 <= i < s.len(),
        s[i] < n - s.len() + i,
        forall|j: int| i < j < s.len() ==> #[trigger] s[j] == n - s.len() + j,
    ensures
        comb_succ(s, n) == Some(comb_bump(s, i)),
        is_comb(comb_bump(s, i), s.len() as int, n),
    decreases s.len(),
{
    let k = s.len() as int;
    let t = comb_bump(s, i);
    assert forall|a: int, b: int| 0 <= a < b < k implies t[a] < t[b] by {
        if b < i {
        } else if a < i {
            lemma_inc_gap(s, a, i);
        }
    }
    assert forall|j: int| 0 <= j < k implies 0 <= #[trigger] t[j] < n by {
        if j >= i {
            assert(t[j] == s[i] + (j - i) + 1 <= n - k + i + (j - i) == n - k + j);
        }
    }
    if i == k - 1 {
        assert(s.last() < n - 1);
        assert(s.update(k - 1, s.last() + 1) =~= t);
    } else {
        assert(s[k - 1] == n - 1);
        let p = s.drop_last();
        assert forall|j: int| 0 <= j < p.len() implies 0 <= #[trigger] p[j] < n - 1 by {
            lemma_inc_gap(s, j, k - 1);
        }
        lemma_comb_succ_at(p, n - 1, i);
        let q = comb_bump(p, i);
        assert(q.last() == s[i] + (k - 2 - i) + 1);
        assert(q.push(q.last() + 1) =~= t);
    }
}

/// Successor in the powerset order (subsets by increasing size, then
/// lexicographically within one size) over `total` source elements: the next
/// combination of the same size when there is one, else the first
/// combination one size larger, else nothing.
pub open spec fn pow_succ(s: Seq<int>, total: int) -> Option<Seq<int>> {
    match comb_succ(s, total) {
        Some(t) => Some(t),
        None => if s.len() < total {
            Some(comb_first(s.len() as int + 1))
        } else {
            None
        },
    }
}

/// Number of subsets of an `n`-element source: 2^n.
pub open spec fn subset_count(n: nat) -> nat
    decreases n,
{
    if n == 0 {
        1
    } else {
        2 * subset_count((n - 1) as nat)
    }
}

/// The first combination with replacement of size `k`: all entries zero.
pub open spec fn cwr_first(k: int) -> Seq<int> {
    Seq::new(k as nat, |i: int| 0)
}

/// The tuple reached from `s` by raising entry `i` and every entry to its
/// right to the value `s[i] + 1`.
pub open spec fn cwr_bump(s: Seq<int>, i: int) -> Seq<int> {
    Seq::new(s.len(), |j: int| if j < i { s[j] } else { s[i] + 1 })
}

/// When entry `i` of a combination with replacement lies below `n - 1` and
/// every entry to its right is at `n - 1`, the successor raises entry `i` and
/// everything to its right to `s[i] + 1`; the result is again valid.
pub proof fn lemma_cwr_succ_at(s: Seq<int>, n: int, i: int)
    requires
        nondec(s),
        in_range(s, n),
        0 <= i < s.len(),
        s[i] < n - 1,
        forall|j: int| i < j < s.len() ==> #[trigger] s[j] == n - 1,
    ensures
        cwr_succ(s, n) == Some(cwr_bump(s, i)),
        is_cwr(cwr_bump(s, i), s.len() as int, n),
    decreases s.len(),
{
    let k = s.len() as int;
    let t = cwr_bump(s, i);
    assert(forall|a: int, b: int| 0 <= a <= b < k ==> t[a] <= t[b]);
    if i == k - 1 {
        assert(s.update(k - 1, s.last() + 1) =~= t);
    } else {
        assert(s[k - 1] == n - 1);
        let p = s.drop_last();
        lemma_cwr_succ_at(p, n, i);
        let q = cwr_bump(p, i);
        assert(q.last() == s[i] + 1);
        assert(q.push(q.last()) =~= t);
    }
}

/// When every entry of a combination with replacement is at `n - 1`, it is
/// the last one.
pub proof fn lemma_cwr_succ_none(s: Seq<int>, n: int)
    requires
        forall|j: int| 0 <= j < s.len() ==> #[trigger] s[j] == n - 1,
    ensures
        cwr_succ(s, n) is None,
    decreases s.len(),
{
    if s.len() > 0 {
        lemma_cwr_succ_none(s.drop_last(), n);
    }
}

/// When every entry of a combination is at its cap, it is the last one.
pub proof fn lemma_comb_succ_none(s: Seq<int>, n: int)
    requires
        strictly_inc(s),
        in_range(s, n),
        forall|j: int| 0 <= j < s.len() ==> #[trigger] s[j] == n - s.len() + j,
    ensures
        comb_succ(s, n) is None,
    decreases s.len(),
{
    if s.len() > 0 {
        assert(s.last() == n - 1);
        let p = s.drop_last();
        assert forall|j: int| 0 <= j < p.len() implies 0 <= #[trigger] p[j] < n - 1 by {
            lemma_inc_gap(s, j, s.len() - 1);
        }
        lemma_comb_succ_none(p, n - 1);
    }
}

} // verus!
