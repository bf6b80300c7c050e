//! Divisibility and primality, as used by the contracts of the sieves.

use vstd::prelude::*;
use vstd::arithmetic::div_mod::{lemma_fundamental_div_mod, lemma_mod_multiples_basic};

verus! {

/// `x` is at least 2 and has no divisor other than 1 and itself.
pub open spec fn is_prime(x: int) -> bool {
    &&& x >= 2
    &&& forall|d: int| 2 <= d < x ==> #[trigger] (x % d) != 0
}

/// If `e` divides `d` and `d` divides `x`, then `e` divides `x`.
pub proof fn lemma_divides_trans(x: int, d: int, e: int)
    requires
        x >= 0,
        d > 0,
        e > 0,
        x % d == 0,
        d % e == 0,
    ensures
        x % e == 0,
{
    lemma_fundamental_div_mod(x, d);
    lemma_fundamental_div_mod(d, e);
    let a = x / d;
    let b = d / e;
    assert(x == (b * a) * e) by (nonlinear_arith)
        requires
            x == d * a,
            d == e * b,
    ;
    lemma_mod_multiples_basic(b * a, e);
}

/// The least `l` in `[d, x]` that divides `x` (`x` itself when none below it does).
pub open spec fn least_divisor_from(x: int, d: int) -> int
    decreases x - d,
{
    if d >= x || (d > 0 && x % d == 0) {
        d
    } else {
        least_divisor_from(x, d + 1)
    }
}

proof fn lemma_least_divisor_from(x: int, d: int)
    requires
        2 <= d <= x,
    ensures
        d <= least_divisor_from(x, d) <= x,
        x % least_divisor_from(x, d) == 0,
        forall|e: int| d <= e < least_divisor_from(x, d) ==> #[trigger] (x % e) != 0,
    decreases x - d,
{
    if d >= x {
        assert(x % x == 0) by {
            lemma_mod_multiples_basic(1, x);
        }
    } else if x % d != 0 {
        lemma_least_divisor_from(x, d + 1);
    }
}

/// Every number of at least 2 that is not prime has a prime divisor whose
/// square does not exceed it.
pub proof fn lemma_prime_divisor(x: int)
    requires
        x >= 2,
        !is_prime(x),
    ensures
        exists|p: int| is_prime(p) && p * p <= x && #[trigger] (x % p) == 0,
{
    let l = least_divisor_from(x, 2);
    lemma_least_divisor_from(x, 2);
    assert forall|e: int| 2 <= e < l implies #[trigger] (l % e) != 0 by {
        if l % e == 0 {
            lemma_divides_trans(x, l, e);
        }
    }
    let e0 = choose|e: int| 2 <= e < x && #[trigger] (x % e) == 0;
    assert(l <= e0);
    lemma_fundamental_div_mod(x, l);
    let m = x / l;
    assert(x == m * l);
    assert(m >= 2) by (nonlinear_arith)
        requires
            x == l * m,
            l < x,
            l >= 2,
    ;
    assert(m < x) by (nonlinear_arith)
        requires
            x == l * m,
            l >= 2,
            m >= 2,
    ;
    lemma_mod_multiples_basic(l, m);
    assert(l * m == m * l) by (nonlinear_arith);
    assert(x % m == 0);
    assert(l <= m);
    assert(l * l <= x) by (nonlinear_arith)
        requires
            x == l * m,
            l <= m,
            l >= 2,
    ;
    assert(is_prime(l) && l * l <= x && x % l == 0);
}

} // verus!
