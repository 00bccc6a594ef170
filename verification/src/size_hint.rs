//! Saturating arithmetic for size bounds: counts of not-yet-produced values
//! are combined additively and multiplicatively, and clamp at the largest
//! representable value instead of wrapping.

use vstd::prelude::*;

use vstd::pervasive::VecAdditionalExecFns;

use crate::model::{cc, lemma_cc_pascal, lemma_cc_small, subset_count};

verus! {

/// Clamps a mathematical count into the representable range.
pub open spec fn sat(x: int) -> int {
    if x < 0 {
        0
    } else if x > usize::MAX {
        usize::MAX as int
    } else {
        x
    }
}

/// Saturating addition of two counts.
pub fn sat_add(a: usize, b: usize) -> (r: usize)
    ensures
        r == sat(a + b),
{
    if a <= usize::MAX - b {
        a + b
    } else {
        usize::MAX
    }
}

/// Saturating subtraction of two counts.
pub fn sat_sub(a: usize, b: usize) -> (r: usize)
    ensures
        r == sat(a - b),
{
    if a >= b {
        a - b
    } else {
        0
    }
}

/// Saturating multiplication of two counts.
pub fn sat_mul(a: usize, b: usize) -> (r: usize)
    ensures
        r == sat(a * b),
{
    if b == 0 {
        0
    } else if a <= usize::MAX / b {
        proof {
            assert(a * b <= ((usize::MAX as int) / (b as int)) * b <= usize::MAX) by (nonlinear_arith)
                requires
                    a <= (usize::MAX as int) / (b as int),
                    b >= 1,
            ;
        }
        a * b
    } else {
        proof {
            assert(a * b > usize::MAX) by (nonlinear_arith)
                requires
                    a > (usize::MAX as int) / (b as int),
                    b >= 1,
                    (usize::MAX as int) / (b as int) == usize::MAX as int / b as int,
            ;
        }
        usize::MAX
    }
}

/// Clamping the left operand first does not change a clamped product.
pub proof fn lemma_sat_mul_left(x: int, n: int)
    requires
        x >= 0,
        n >= 0,
    ensures
        sat(sat(x) * n) == sat(x * n),
{
    if x > usize::MAX {
        if n == 0 {
            assert(sat(x) * n == 0) by (nonlinear_arith)
                requires
                    n == 0,
            ;
            assert(x * n == 0) by (nonlinear_arith)
                requires
                    n == 0,
            ;
        } else {
            assert(sat(x) * n >= sat(x)) by (nonlinear_arith)
                requires
                    sat(x) >= 0,
                    n >= 1,
            ;
            assert(x * n >= x) by (nonlinear_arith)
                requires
                    x >= 0,
                    n >= 1,
            ;
        }
    }
}

/// Clamping the left operand first does not change a clamped sum.
pub proof fn lemma_sat_add_left(x: int, d: int)
    requires
        x >= 0,
        d >= 0,
    ensures
        sat(sat(x) + d) == sat(x + d),
{
}

/// Clamping both operands first does not change a clamped sum.
pub proof fn lemma_sat_add_both(a: int, b: int)
    requires
        a >= 0,
        b >= 0,
    ensures
        sat(sat(a) + sat(b)) == sat(a + b),
{
}

/// Saturating binomial count: how many combinations of `k` out of `n`
/// elements there are, as far as that count is representable. Computed by
/// walking Pascal's triangle row by row.
#[verifier::loop_isolation(false)]
pub fn sat_choose(n: usize, k: usize) -> (r: usize)
    ensures
        r == sat(cc(n as int, k as int)),
{
    if k > n {
        proof {
            lemma_cc_small(n as int, k as int);
        }
        return 0;
    }
    // row[j] holds the count of j out of i, clamped.
    let mut row: Vec<usize> = Vec::new();
    row.push(1);
    let mut j: usize = 0;
    while j < k
        invariant
            0 <= j <= k,
            row@.len() == j + 1,
            row@[0] == 1,
            forall|l: int| 1 <= l <= j ==> #[trigger] row@[l] == 0,
        decreases k - j,
    {
        row.push(0);
        j = j + 1;
    }
    proof {
        assert forall|l: int| 0 <= l <= k implies #[trigger] row@[l] == sat(cc(0, l)) by {
            if l >= 1 {
                lemma_cc_small(0, l);
            }
        }
    }
    let mut i: usize = 0;
    while i < n
        invariant
            0 <= i <= n,
            row@.len() == k + 1,
            forall|l: int| 0 <= l <= k ==> #[trigger] row@[l] == sat(cc(i as int, l)),
        decreases n - i,
    {
        let mut j: usize = k;
        while j >= 1
            invariant
                0 <= j <= k,
                row@.len() == k + 1,
                forall|l: int| 0 <= l <= j ==> #[trigger] row@[l] == sat(cc(i as int, l)),
                forall|l: int| j < l <= k ==> #[trigger] row@[l] == sat(cc(i as int + 1, l)),
            decreases j,
        {
            let a = row[j];
            let b = row[j - 1];
            proof {
                lemma_cc_pascal(i as int + 1, j as int);
                lemma_sat_add_both(cc(i as int, j as int), cc(i as int, j as int - 1));
            }
            let c = sat_add(a, b);
            row.set(j, c);
            j = j - 1;
        }
        i = i + 1;
    }
    row[k]
}

/// Saturating power of two: how many subsets an `e`-element source has, as
/// far as that count is representable.
pub fn sat_pow2(e: usize) -> (r: usize)
    ensures
        r == sat(subset_count(e as nat) as int),
{
    let mut r: usize = 1;
    let mut i: usize = 0;
    while i < e
        invariant
            i <= e,
            r == sat(subset_count(i as nat) as int),
            r >= 1,
        decreases e - i,
    {
        if r > usize::MAX / 2 {
            r = usize::MAX;
        } else {
            r = r * 2;
        }
        i = i + 1;
    }
    r
}

} // verus!
