//! Lazy, pull-based generation of prime numbers from a stream of candidates.
//!
//! Candidate sources live in [`source`] and the three sieves in [`sieve`].
//! [`primality`] holds the number theory that the proofs use, and
//! [`correctness`] proves that, over the integers from 2 and over the spin
//! wheel, every sieve emits exactly the primes, in order.

use vstd::prelude::*;

pub mod correctness;
pub mod primality;
pub mod sieve;
pub mod source;

use crate::correctness::{lemma_primes_below_11, lemma_small_primes, lemma_wheel_next_prime};
use crate::primality::is_prime;
use crate::sieve::GenuineSieve;
use crate::source::{CandidateSource, SpinWheel};

verus! {

/// The primes that the spin wheel skips over.
pub open spec fn small_primes() -> Seq<u64> {
    seq![2, 3, 5, 7]
}

/// All the primes in order: 2, 3, 5 and 7, then what a genuine sieve finds
/// among the values of a spin wheel.
pub struct Primes {
    prefix_taken: usize,
    sieve: GenuineSieve<SpinWheel>,
}

impl Primes {
    /// The sieve that runs over the spin wheel.
    pub closed spec fn sieve(&self) -> GenuineSieve<SpinWheel> {
        self.sieve
    }

    /// How many of 2, 3, 5 and 7 have been emitted.
    pub closed spec fn prefix_taken(&self) -> nat {
        self.prefix_taken as nat
    }

    /// The primes emitted so far.
    pub open spec fn emitted(&self) -> Seq<u64> {
        small_primes().take(self.prefix_taken() as int) + self.sieve().emitted()
    }

    pub closed spec fn wf(&self) -> bool {
        &&& self.prefix_taken <= 4
        &&& self.sieve.wf()
        &&& self.sieve.start() == 0
        &&& self.prefix_taken < 4 ==> self.sieve.position() == 0
    }

    /// The next prime, or `None` once the wheel's values leave the range of `u64`.
    pub fn next(&mut self) -> (r: Option<u64>)
        requires
            old(self).wf(),
        ensures
            final(self).wf(),
            final(self).sieve().origin() == old(self).sieve().origin(),
            final(self).sieve().start() == old(self).sieve().start(),
            final(self).prefix_taken() <= 4,
            old(self).prefix_taken() < 4 ==> final(self).prefix_taken() == old(self).prefix_taken()
                + 1 && r == Some(small_primes()[old(self).prefix_taken() as int]),
            old(self).prefix_taken() == 4 ==> final(self).prefix_taken() == 4,
            r matches Some(x) ==> is_prime(x as int) && forall|y: u64|
                is_prime(y as int) && y < x ==> #[trigger] old(self).emitted().contains(y),
            match r {
                Some(x) => final(self).emitted() == old(self).emitted().push(x),
                None => final(self).emitted() == old(self).emitted()
                    && final(self).sieve().origin().value_at(final(self).sieve().position()) is None,
            },
    {
        if self.prefix_taken < 4 {
            let small: [u64; 4] = [2, 3, 5, 7];
            assert(small@ == small_primes());
            let x = small[self.prefix_taken];
            let ghost p = self.prefix_taken as int;
            self.prefix_taken = self.prefix_taken + 1;
            assert(small_primes().take(p + 1) == small_primes().take(p).push(x));
            assert(self.sieve.emitted() == Seq::<u64>::empty());
            proof {
                lemma_small_primes();
                let e = small_primes().take(p) + Seq::<u64>::empty();
                assert(e == small_primes().take(p));
                assert forall|y: u64| is_prime(y as int) && y < x implies #[trigger] e.contains(y) by {
                    lemma_primes_below_11(y as int);
                    if y == 2 {
                        assert(e[0] == y);
                    } else if y == 3 {
                        assert(e[1] == y);
                    } else if y == 5 {
                        assert(e[2] == y);
                    }
                }
            }
            Some(x)
        } else {
            let ghost before = self.sieve.emitted();
            let r = self.sieve.next();
            proof {
                if let Some(x) = r {
                    let src = self.sieve.origin();
                    lemma_wheel_next_prime(src, before, self.sieve.position(), x);
                    let e = small_primes() + before;
                    assert(small_primes().take(4) == small_primes());
                    assert forall|y: u64| is_prime(y as int) && y < x implies #[trigger] e.contains(y) by {
                        if y < 11 {
                            lemma_primes_below_11(y as int);
                            if y == 2 {
                                assert(e[0] == y);
                            } else if y == 3 {
                                assert(e[1] == y);
                            } else if y == 5 {
                                assert(e[2] == y);
                            } else {
                                assert(e[3] == y);
                            }
                        } else {
                            assert(before.contains(y));
                            let k = choose|k: int| 0 <= k < before.len() && before[k] == y;
                            assert(e[k + 4] == y);
                        }
                    }
                }
            }
            r
        }
    }
}

/// The sequence of all primes, from 2.
pub fn primes() -> (r: Primes)
    ensures
        r.wf(),
        r.emitted() == Seq::<u64>::empty(),
        r.prefix_taken() == 0,
        r.sieve().start() == 0,
        r.sieve().origin().position() == 0,
{
    let wheel = SpinWheel::default();
    Primes { prefix_taken: 0, sieve: GenuineSieve::with_source(wheel) }
}

} // verus!
