//! What the sieves emit from the integers 2, 3, 4, ... and from the spin
//! wheel: exactly the primes, in order, whichever the strategy.

use vstd::prelude::*;
use vstd::arithmetic::div_mod::{lemma_fundamental_div_mod, lemma_mod_multiples_basic};
use crate::primality::{is_prime, lemma_divides_trans, lemma_prime_divisor};
use crate::sieve::{Strategy, found, passes};
use crate::{Primes, small_primes};
use crate::source::{
    CandidateSource, IntegerCandidates, OddsWith2, SpinWheel, coprime_2357, lemma_wheel_complete,
    lemma_wheel_coprime, lemma_wheel_increasing, lemma_wheel_no_skips, val, wheel_value,
};

verus! {

/// Over the integers from 2, the candidates that a sieve emits before index
/// `n` are exactly the primes below `n + 2`, and the candidate at index `n`
/// passes its test exactly when it is prime.
pub proof fn lemma_integers_emit_primes(src: IntegerCandidates, s: Strategy, n: nat)
    requires
        src.wf(),
        n + 2 <= u64::MAX,
    ensures
        forall|y: u64|
            #[trigger] found(src, s, 0, n).contains(y) <==> 2 <= y < n + 2 && is_prime(y as int),
        passes(src, s, found(src, s, 0, n), n) <==> is_prime(n + 2int),
    decreases n,
{
    let f = found(src, s, 0, n);
    if n > 0 {
        lemma_integers_emit_primes(src, s, (n - 1) as nat);
        let g = found(src, s, 0, (n - 1) as nat);
        let x: int = n + 1int;
        assert(val(src, (n - 1) as nat) == x);
        if is_prime(x) {
            assert(f == g.push(x as u64));
        } else {
            assert(f == g);
        }
        assert forall|y: u64| #[trigger] f.contains(y) <==> 2 <= y < n + 2 && is_prime(y as int) by {
            if f.contains(y) {
                let i = choose|i: int| 0 <= i < f.len() && f[i] == y;
                if i < g.len() {
                    assert(g[i] == y);
                    assert(g.contains(y));
                } else {
                    assert(y == x);
                    assert(is_prime(x));
                }
            }
            if 2 <= y < n + 1 && is_prime(y as int) {
                assert(g.contains(y));
                let k = choose|k: int| 0 <= k < g.len() && g[k] == y;
                assert(f[k] == y);
            }
            if y == x && is_prime(x) {
                assert(f[g.len() as int] == y);
            }
        }
    } else {
        assert(f == Seq::<u64>::empty());
    }
    lemma_step(src, s, n);
}

/// The candidate at index `n` passes exactly when it is prime, given that what
/// was emitted before it are the primes below it.
proof fn lemma_step(src: IntegerCandidates, s: Strategy, n: nat)
    requires
        src.wf(),
        n + 2 <= u64::MAX,
        forall|y: u64|
            #[trigger] found(src, s, 0, n).contains(y) <==> 2 <= y < n + 2 && is_prime(y as int),
    ensures
        passes(src, s, found(src, s, 0, n), n) <==> is_prime(n + 2int),
{
    let f = found(src, s, 0, n);
    let x: int = n + 2int;
    assert(val(src, n) == x);
    assert(forall|k: int| 0 <= k < f.len() ==> f.contains(#[trigger] f[k]));
    if is_prime(x) {
        match s {
            Strategy::Genuine => {
                assert forall|k: int, j: nat|
                    0 <= k < f.len() && #[trigger] src.value_at(j) is Some && val(src, j) >= f[k]
                        implies #[trigger] (f[k] * val(src, j)) != x by {
                    if f[k] * val(src, j) == x {
                        let y = f[k];
                        assert(f.contains(y));
                        assert(2 <= y < x);
                        assert(f[k] * val(src, j) == x);
                        lemma_mod_multiples_basic(val(src, j), f[k] as int);
                        assert(val(src, j) * f[k] == f[k] * val(src, j)) by (nonlinear_arith);
                        assert(x % (f[k] as int) == 0);
                    }
                }
            },
            _ => {
                assert forall|k: int| 0 <= k < f.len() implies #[trigger] (x % (f[k] as int)) != 0 by {
                    let y = f[k];
                    assert(f.contains(y));
                    assert(2 <= y < x);
                    let d = y as int;
                    assert(x % d != 0);
                }
            },
        }
    } else {
        lemma_prime_divisor(x);
        let p = choose|p: int| is_prime(p) && p * p <= x && #[trigger] (x % p) == 0;
        assert(p < x) by (nonlinear_arith)
            requires
                p >= 2,
                p * p <= x,
        ;
        assert(f.contains(p as u64));
        let k = choose|k: int| 0 <= k < f.len() && f[k] == p;
        assert(x % (f[k] as int) == 0);
        match s {
            Strategy::Genuine => {
                lemma_fundamental_div_mod(x, p);
                let c = x / p;
                assert(x == p * c);
                assert(c >= p) by (nonlinear_arith)
                    requires
                        x == p * c,
                        p * p <= x,
                        p >= 2,
                ;
                assert(c <= x) by (nonlinear_arith)
                    requires
                        x == p * c,
                        p >= 2,
                        c >= 2,
                ;
                let j = (c - 2) as nat;
                assert(src.value_at(j) is Some);
                assert(val(src, j) == c);
                assert(n > 0);
                assert(f[k] * val(src, j) == x);
            },
            _ => {},
        }
    }
}

/// Over the integers from 2, the unfaithful, trial-division and genuine sieves
/// emit the same sequence.
pub proof fn lemma_integers_sieves_agree(src: IntegerCandidates, n: nat)
    requires
        src.wf(),
        n + 1 <= u64::MAX,
    ensures
        found(src, Strategy::Unfaithful, 0, n) == found(src, Strategy::TrialDivision, 0, n),
        found(src, Strategy::Unfaithful, 0, n) == found(src, Strategy::Genuine, 0, n),
    decreases n,
{
    if n > 0 {
        let m = (n - 1) as nat;
        lemma_integers_sieves_agree(src, m);
        lemma_integers_emit_primes(src, Strategy::Unfaithful, m);
        lemma_integers_emit_primes(src, Strategy::TrialDivision, m);
        lemma_integers_emit_primes(src, Strategy::Genuine, m);
    }
}

/// Over the integers from 2, no prime is skipped: every prime up to the last
/// value emitted is among the values emitted.
pub proof fn lemma_integers_no_gaps(src: IntegerCandidates, s: Strategy, n: nat, p: u64)
    requires
        src.wf(),
        n + 2 <= u64::MAX,
        found(src, s, 0, n).len() > 0,
        is_prime(p as int),
        p <= found(src, s, 0, n).last(),
    ensures
        found(src, s, 0, n).contains(p),
{
    let f = found(src, s, 0, n);
    lemma_integers_emit_primes(src, s, n);
    assert(f.contains(f.last()));
}

/// Over the integers from 2, every value emitted is prime.
pub proof fn lemma_integers_sound(src: IntegerCandidates, s: Strategy, n: nat, k: int)
    requires
        src.wf(),
        n + 2 <= u64::MAX,
        0 <= k < found(src, s, 0, n).len(),
    ensures
        is_prime(found(src, s, 0, n)[k] as int),
{
    let f = found(src, s, 0, n);
    lemma_integers_emit_primes(src, s, n);
    assert(f.contains(f[k]));
}

/// A value of the spin wheel that fits in a `u64` is the source's value.
proof fn lemma_wheel_val(src: SpinWheel, i: nat)
    ensures
        src.value_at(i) is Some <==> wheel_value(i) <= u64::MAX,
        src.value_at(i) is Some ==> val(src, i) == wheel_value(i),
        wheel_value(i) >= 11,
{
    if i > 0 {
        lemma_wheel_increasing(0, i);
    }
}

/// A divisor of an integer that 2, 3, 5 and 7 leave undivided is left
/// undivided too.
proof fn lemma_coprime_divisor(x: int, d: int)
    requires
        x >= 0,
        d > 0,
        x % d == 0,
        coprime_2357(x),
    ensures
        coprime_2357(d),
{
    if d % 2 == 0 {
        lemma_divides_trans(x, d, 2);
    }
    if d % 3 == 0 {
        lemma_divides_trans(x, d, 3);
    }
    if d % 5 == 0 {
        lemma_divides_trans(x, d, 5);
    }
    if d % 7 == 0 {
        lemma_divides_trans(x, d, 7);
    }
}

/// A prime from 11 on is left undivided by 2, 3, 5 and 7.
proof fn lemma_prime_coprime(p: int)
    requires
        is_prime(p),
        p >= 11,
    ensures
        coprime_2357(p),
{
    assert(p % 2 != 0 && p % 3 != 0 && p % 5 != 0 && p % 7 != 0);
}

/// Over the values of the spin wheel, the candidates that a sieve emits before
/// index `n` are exactly the primes from 11 up to the value at `n`, and the
/// value at `n` passes the sieve's test exactly when it is prime.
pub proof fn lemma_wheel_emit_primes(src: SpinWheel, s: Strategy, n: nat)
    requires
        wheel_value(n) <= u64::MAX,
    ensures
        forall|y: u64|
            #[trigger] found(src, s, 0, n).contains(y) <==> 11 <= y < wheel_value(n) && is_prime(
                y as int,
            ),
        passes(src, s, found(src, s, 0, n), n) <==> is_prime(wheel_value(n)),
    decreases n,
{
    let f = found(src, s, 0, n);
    if n > 0 {
        let m = (n - 1) as nat;
        lemma_wheel_increasing(m, n);
        lemma_wheel_emit_primes(src, s, m);
        let g = found(src, s, 0, m);
        let x = wheel_value(m);
        lemma_wheel_val(src, m);
        if is_prime(x) {
            assert(f == g.push(x as u64));
        } else {
            assert(f == g);
        }
        assert forall|y: u64|
            #[trigger] f.contains(y) <==> 11 <= y < wheel_value(n) && is_prime(y as int) by {
            if f.contains(y) {
                let i = choose|i: int| 0 <= i < f.len() && f[i] == y;
                if i < g.len() {
                    assert(g[i] == y);
                    assert(g.contains(y));
                } else {
                    assert(y == x);
                }
            }
            if 11 <= y < wheel_value(n) && is_prime(y as int) {
                if y < x {
                    assert(g.contains(y));
                    let k = choose|k: int| 0 <= k < g.len() && g[k] == y;
                    assert(f[k] == y);
                } else if y == x {
                    assert(f[g.len() as int] == y);
                } else {
                    lemma_prime_coprime(y as int);
                    lemma_wheel_no_skips(m, y as int);
                }
            }
        }
    } else {
        assert(f == Seq::<u64>::empty());
    }
    lemma_wheel_step(src, s, n);
}

/// The value at index `n` passes exactly when it is prime, given that what
/// was emitted before it are the primes from 11 below it.
proof fn lemma_wheel_step(src: SpinWheel, s: Strategy, n: nat)
    requires
        wheel_value(n) <= u64::MAX,
        forall|y: u64|
            #[trigger] found(src, s, 0, n).contains(y) <==> 11 <= y < wheel_value(n) && is_prime(
                y as int,
            ),
    ensures
        passes(src, s, found(src, s, 0, n), n) <==> is_prime(wheel_value(n)),
{
    let f = found(src, s, 0, n);
    let x = wheel_value(n);
    lemma_wheel_val(src, n);
    lemma_wheel_coprime(n);
    if n > 0 {
        lemma_wheel_increasing(0, n);
        lemma_wheel_increasing((n - 1) as nat, n);
    }
    if is_prime(x) {
        match s {
            Strategy::Genuine => {
                assert forall|k: int, j: nat|
                    0 <= k < f.len() && #[trigger] src.value_at(j) is Some && val(src, j) >= f[k]
                        implies #[trigger] (f[k] * val(src, j)) != x by {
                    if f[k] * val(src, j) == x {
                        let p = f[k] as int;
                        let c = val(src, j);
                        assert(f.contains(f[k]));
                        assert(11 <= p < x && is_prime(p));
                        assert(p * c == x);
                        lemma_mod_multiples_basic(c, p);
                        assert(c * p == p * c) by (nonlinear_arith);
                        assert(x % p == 0);
                    }
                }
            },
            _ => {
                assert forall|k: int| 0 <= k < f.len() implies #[trigger] (x % (f[k] as int)) != 0 by {
                    let y = f[k];
                    assert(f.contains(y));
                    assert(2 <= y < x);
                    let d = y as int;
                    assert(x % d != 0);
                }
            },
        }
    } else {
        lemma_prime_divisor(x);
        let p = choose|p: int| is_prime(p) && p * p <= x && #[trigger] (x % p) == 0;
        assert(p < x) by (nonlinear_arith)
            requires
                p >= 2,
                p * p <= x,
        ;
        lemma_coprime_divisor(x, p);
        assert(p >= 11);
        let mp = lemma_wheel_complete(p);
        if mp >= n {
            if mp > n {
                lemma_wheel_increasing(n, mp);
            }
        }
        assert(f.contains(p as u64));
        let k = choose|k: int| 0 <= k < f.len() && f[k] == p;
        assert(x % (f[k] as int) == 0);
        match s {
            Strategy::Genuine => {
                lemma_fundamental_div_mod(x, p);
                let c = x / p;
                assert(x == p * c);
                assert(c >= p) by (nonlinear_arith)
                    requires
                        x == p * c,
                        p * p <= x,
                        p >= 2,
                ;
                assert(c <= x) by (nonlinear_arith)
                    requires
                        x == p * c,
                        p >= 2,
                        c >= 2,
                ;
                lemma_mod_multiples_basic(p, c);
                assert(p * c == c * p) by (nonlinear_arith);
                lemma_coprime_divisor(x, c);
                let j = lemma_wheel_complete(c);
                lemma_wheel_val(src, j);
                assert(val(src, j) == c);
                assert(n > 0);
                assert(f[k] * val(src, j) == x);
            },
            _ => {},
        }
    }
}

/// Over the values of the spin wheel, the unfaithful, trial-division and
/// genuine sieves emit the same sequence.
pub proof fn lemma_wheel_sieves_agree(src: SpinWheel, n: nat)
    requires
        src.wf(),
        n == 0 || wheel_value((n - 1) as nat) <= u64::MAX,
    ensures
        found(src, Strategy::Unfaithful, 0, n) == found(src, Strategy::TrialDivision, 0, n),
        found(src, Strategy::Unfaithful, 0, n) == found(src, Strategy::Genuine, 0, n),
    decreases n,
{
    if n > 0 {
        let m = (n - 1) as nat;
        if m > 0 {
            lemma_wheel_increasing((m - 1) as nat, m);
        }
        lemma_wheel_sieves_agree(src, m);
        lemma_wheel_emit_primes(src, Strategy::Unfaithful, m);
        lemma_wheel_emit_primes(src, Strategy::TrialDivision, m);
        lemma_wheel_emit_primes(src, Strategy::Genuine, m);
    }
}

/// 2, 3, 5 and 7 are prime.
pub proof fn lemma_small_primes()
    ensures
        is_prime(2),
        is_prime(3),
        is_prime(5),
        is_prime(7),
{
    assert forall|d: int| 2 <= d < 3 implies #[trigger] (3int % d) != 0 by {
        assert(d == 2);
    }
    assert forall|d: int| 2 <= d < 5 implies #[trigger] (5int % d) != 0 by {
        assert(d == 2 || d == 3 || d == 4);
    }
    assert forall|d: int| 2 <= d < 7 implies #[trigger] (7int % d) != 0 by {
        assert(d == 2 || d == 3 || d == 4 || d == 5 || d == 6);
    }
}

/// Once 2, 3, 5 and 7 are out, what [`crate::primes`] has emitted is exactly
/// the primes below the wheel's next value: none is missing, none is composite.
pub proof fn lemma_primes_emits_primes(p: Primes)
    requires
        p.wf(),
        p.prefix_taken() == 4,
        p.sieve().start() == 0,
        wheel_value(p.sieve().position()) <= u64::MAX,
    ensures
        forall|y: u64|
            #[trigger] p.emitted().contains(y) <==> 2 <= y < wheel_value(p.sieve().position())
                && is_prime(y as int),
{
    let n = p.sieve().position();
    let f = found(p.sieve().origin(), Strategy::Genuine, 0, n);
    lemma_wheel_emit_primes(p.sieve().origin(), Strategy::Genuine, n);
    let e = p.emitted();
    let sp = small_primes();
    assert(sp.take(4) == sp);
    assert(e == sp + f);
    assert(wheel_value(0) == 11);
    if n > 0 {
        lemma_wheel_increasing(0, n);
    }
    lemma_small_primes();
    assert forall|y: u64|
        #[trigger] e.contains(y) <==> 2 <= y < wheel_value(n) && is_prime(y as int) by {
        if e.contains(y) {
            let i = choose|i: int| 0 <= i < e.len() && e[i] == y;
            if i >= 4 {
                assert(f[i - 4] == y);
                assert(f.contains(y));
            }
        }
        if 2 <= y < wheel_value(n) && is_prime(y as int) {
            if y < 11 {
                let yi = y as int;
                assert(yi % 2 != 0 || yi == 2);
                assert(yi % 3 != 0 || yi == 3);
                assert(y == 2 || y == 3 || y == 5 || y == 7);
                if y == 2 {
                    assert(e[0] == y);
                } else if y == 3 {
                    assert(e[1] == y);
                } else if y == 5 {
                    assert(e[2] == y);
                } else {
                    assert(e[3] == y);
                }
            } else {
                assert(f.contains(y));
                let k = choose|k: int| 0 <= k < f.len() && f[k] == y;
                assert(e[k + 4] == y);
            }
        }
    }
}

/// The value of `odds_with_2` at index `i`: 2, then `2 * i + 1`.
pub open spec fn odd_value(i: nat) -> int {
    if i == 0 {
        2
    } else {
        2 * i + 1int
    }
}

/// Over 2 and the odd integers, the candidates that a sieve emits before index
/// `n` are exactly the primes below the value at `n`, and that value passes
/// exactly when it is prime.
pub proof fn lemma_odds_emit_primes(src: OddsWith2, s: Strategy, n: nat)
    requires
        odd_value(n) <= u64::MAX,
    ensures
        forall|y: u64|
            #[trigger] found(src, s, 0, n).contains(y) <==> 2 <= y < odd_value(n) && is_prime(
                y as int,
            ),
        passes(src, s, found(src, s, 0, n), n) <==> is_prime(odd_value(n)),
    decreases n,
{
    let f = found(src, s, 0, n);
    if n > 0 {
        let m = (n - 1) as nat;
        lemma_odds_emit_primes(src, s, m);
        let g = found(src, s, 0, m);
        let x = odd_value(m);
        assert(val(src, m) == x);
        if is_prime(x) {
            assert(f == g.push(x as u64));
        } else {
            assert(f == g);
        }
        assert forall|y: u64|
            #[trigger] f.contains(y) <==> 2 <= y < odd_value(n) && is_prime(y as int) by {
            if f.contains(y) {
                let i = choose|i: int| 0 <= i < f.len() && f[i] == y;
                if i < g.len() {
                    assert(g[i] == y);
                    assert(g.contains(y));
                } else {
                    assert(y == x);
                }
            }
            if 2 <= y < odd_value(n) && is_prime(y as int) {
                if y < x {
                    assert(g.contains(y));
                    let k = choose|k: int| 0 <= k < g.len() && g[k] == y;
                    assert(f[k] == y);
                } else if y == x {
                    assert(f[g.len() as int] == y);
                } else {
                    let yi = y as int;
                    assert(yi == 2 * n);
                    assert(yi % 2 == 0);
                }
            }
        }
    } else {
        assert(f == Seq::<u64>::empty());
    }
    lemma_odds_step(src, s, n);
}

/// The value at index `n` passes exactly when it is prime, given that what was
/// emitted before it are the primes below it.
proof fn lemma_odds_step(src: OddsWith2, s: Strategy, n: nat)
    requires
        odd_value(n) <= u64::MAX,
        forall|y: u64|
            #[trigger] found(src, s, 0, n).contains(y) <==> 2 <= y < odd_value(n) && is_prime(
                y as int,
            ),
    ensures
        passes(src, s, found(src, s, 0, n), n) <==> is_prime(odd_value(n)),
{
    let f = found(src, s, 0, n);
    let x = odd_value(n);
    assert(val(src, n) == x);
    if is_prime(x) {
        match s {
            Strategy::Genuine => {
                assert forall|k: int, j: nat|
                    0 <= k < f.len() && #[trigger] src.value_at(j) is Some && val(src, j) >= f[k]
                        implies #[trigger] (f[k] * val(src, j)) != x by {
                    if f[k] * val(src, j) == x {
                        let y = f[k];
                        assert(f.contains(y));
                        assert(2 <= y < x);
                        lemma_mod_multiples_basic(val(src, j), f[k] as int);
                        assert(val(src, j) * f[k] == f[k] * val(src, j)) by (nonlinear_arith);
                        assert(x % (y as int) == 0);
                    }
                }
            },
            _ => {
                assert forall|k: int| 0 <= k < f.len() implies #[trigger] (x % (f[k] as int)) != 0 by {
                    let y = f[k];
                    assert(f.contains(y));
                    assert(2 <= y < x);
                    let d = y as int;
                    assert(x % d != 0);
                }
            },
        }
    } else {
        lemma_prime_divisor(x);
        let p = choose|p: int| is_prime(p) && p * p <= x && #[trigger] (x % p) == 0;
        assert(p < x) by (nonlinear_arith)
            requires
                p >= 2,
                p * p <= x,
        ;
        assert(f.contains(p as u64));
        let k = choose|k: int| 0 <= k < f.len() && f[k] == p;
        assert(x % (f[k] as int) == 0);
        match s {
            Strategy::Genuine => {
                assert(n > 0);
                assert(x % 2 == 1);
                lemma_fundamental_div_mod(x, p);
                let c = x / p;
                assert(x == p * c);
                assert(c >= p) by (nonlinear_arith)
                    requires
                        x == p * c,
                        p * p <= x,
                        p >= 2,
                ;
                assert(c <= x) by (nonlinear_arith)
                    requires
                        x == p * c,
                        p >= 2,
                        c >= 2,
                ;
                lemma_mod_multiples_basic(p, c);
                assert(p * c == c * p) by (nonlinear_arith);
                if c % 2 == 0 {
                    lemma_divides_trans(x, c, 2);
                }
                let j = ((c - 1) / 2) as nat;
                assert(j >= 1);
                assert(src.value_at(j) is Some);
                assert(val(src, j) == c);
                assert(f[k] * val(src, j) == x);
            },
            _ => {},
        }
    }
}

/// Over 2 and the odd integers, the unfaithful, trial-division and genuine
/// sieves emit the same sequence.
pub proof fn lemma_odds_sieves_agree(src: OddsWith2, n: nat)
    requires
        n == 0 || odd_value((n - 1) as nat) <= u64::MAX,
    ensures
        found(src, Strategy::Unfaithful, 0, n) == found(src, Strategy::TrialDivision, 0, n),
        found(src, Strategy::Unfaithful, 0, n) == found(src, Strategy::Genuine, 0, n),
    decreases n,
{
    if n > 0 {
        let m = (n - 1) as nat;
        lemma_odds_sieves_agree(src, m);
        lemma_odds_emit_primes(src, Strategy::Unfaithful, m);
        lemma_odds_emit_primes(src, Strategy::TrialDivision, m);
        lemma_odds_emit_primes(src, Strategy::Genuine, m);
    }
}

/// The primes below 11 are 2, 3, 5 and 7.
pub proof fn lemma_primes_below_11(y: int)
    requires
        is_prime(y),
        y < 11,
    ensures
        y == 2 || y == 3 || y == 5 || y == 7,
{
    assert(y % 2 != 0 || y == 2);
    assert(y % 3 != 0 || y == 3);
}

/// When the genuine sieve over the spin wheel emits `x`, taken at index
/// `pos - 1`, after `before`: `x` is prime, and every prime from 11 below it was
/// emitted before.
pub proof fn lemma_wheel_next_prime(src: SpinWheel, before: Seq<u64>, pos: nat, x: u64)
    requires
        pos >= 1,
        src.value_at((pos - 1) as nat) == Some(x),
        found(src, Strategy::Genuine, 0, pos) == before.push(x),
    ensures
        is_prime(x as int),
        x >= 11,
        forall|y: u64| 11 <= y < x && is_prime(y as int) ==> #[trigger] before.contains(y),
{
    let m = (pos - 1) as nat;
    lemma_wheel_val(src, m);
    lemma_wheel_emit_primes(src, Strategy::Genuine, m);
    let g = found(src, Strategy::Genuine, 0, m);
    if !passes(src, Strategy::Genuine, g, m) {
        assert(g == before.push(x));
        assert(g[before.len() as int] == x);
        assert(g.contains(x));
    }
    assert(g.push(x) == before.push(x));
    assert(g == before.push(x).drop_last());
    assert(before == before.push(x).drop_last());
}

} // verus!
