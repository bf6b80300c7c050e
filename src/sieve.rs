//! Sieves that filter a candidate source down to primes.
//!
//! Each sieve decides, candidate by candidate, whether to emit it. What it
//! emits is described by [`found`]: the candidates taken so far that passed the
//! sieve's test, each test made against what was emitted before it.

use vstd::prelude::*;
use crate::source::{CandidateSource, same_values, val};

verus! {

/// The test that a sieve applies to each candidate.
pub enum Strategy {
    /// No prime emitted so far divides the candidate.
    Unfaithful,
    /// No prime emitted so far whose square is at most the candidate divides it.
    TrialDivision,
    /// The candidate is no multiple `p * c` of a prime `p` emitted so far by a
    /// value `c >= p` of the source.
    Genuine,
}

/// The candidate taken before index `n` by a sieve that started at `start`
/// (0 for its first candidate).
pub open spec fn prev_value<I: CandidateSource>(src: I, start: nat, n: nat) -> int {
    if n <= start {
        0
    } else {
        val(src, (n - 1) as nat)
    }
}

/// Whether the candidate at index `n` passes the test of `s`, given the primes
/// `emitted` before it.
pub open spec fn passes<I: CandidateSource>(src: I, s: Strategy, emitted: Seq<u64>, n: nat) -> bool {
    let x = val(src, n);
    match s {
        Strategy::Unfaithful => forall|k: int|
            0 <= k < emitted.len() ==> #[trigger] (x % (emitted[k] as int)) != 0,
        Strategy::TrialDivision => forall|k: int|
            0 <= k < emitted.len() && emitted[k] * emitted[k] <= x ==> #[trigger] (x % (
            emitted[k] as int)) != 0,
        Strategy::Genuine => forall|k: int, j: nat|
            0 <= k < emitted.len() && #[trigger] src.value_at(j) is Some && val(src, j)
                >= emitted[k] ==> #[trigger] (emitted[k] * val(src, j)) != x,
    }
}

/// What a sieve with test `s` emits from the candidates at indices
/// `start .. n` of `src`.
pub open spec fn found<I: CandidateSource>(src: I, s: Strategy, start: nat, n: nat) -> Seq<u64>
    decreases n,
{
    if n <= start {
        seq![]
    } else {
        let f = found(src, s, start, (n - 1) as nat);
        if passes(src, s, f, (n - 1) as nat) {
            f.push(src.value_at((n - 1) as nat)->Some_0)
        } else {
            f
        }
    }
}

/// Every index that `cur` has passed holds a value in `origin` too.
proof fn lemma_taken_defined<I: CandidateSource>(cur: I, origin: I, start: nat, n: nat)
    requires
        cur.wf(),
        forall|i: nat| #[trigger] cur.value_at(i) == origin.value_at(i),
        n <= cur.position(),
    ensures
        forall|i: nat| start <= i < n ==> #[trigger] origin.value_at(i) is Some,
{
    cur.lemma_sequence();
    assert forall|i: nat| start <= i < n implies #[trigger] origin.value_at(i) is Some by {
        assert(cur.value_at(i) is Some);
    }
}

/// A value at index `i` is at least `i + 2`.
pub proof fn lemma_value_bound<I: CandidateSource>(src: I, i: nat)
    requires
        src.wf(),
        src.value_at(i) is Some,
    ensures
        val(src, i) >= i + 2,
    decreases i,
{
    src.lemma_sequence();
    if i > 0 {
        assert(src.value_at((i - 1) as nat) is Some);
        lemma_value_bound(src, (i - 1) as nat);
    }
}

/// A well-formed source has taken fewer than `u64::MAX` values.
pub proof fn lemma_position_bound<I: CandidateSource>(src: I)
    requires
        src.wf(),
    ensures
        src.position() < u64::MAX,
{
    src.lemma_sequence();
    if src.position() > 0 {
        lemma_value_bound(src, (src.position() - 1) as nat);
    }
}

/// What a sieve emits increases strictly, each value at least 2, each below
/// every candidate still to come.
pub proof fn lemma_found_increasing<I: CandidateSource>(src: I, s: Strategy, start: nat, n: nat)
    requires
        src.wf(),
        forall|i: nat| start <= i < n ==> #[trigger] src.value_at(i) is Some,
    ensures
        forall|k: int, l: int|
            0 <= k < l < found(src, s, start, n).len() ==> found(src, s, start, n)[k] < found(
                src,
                s,
                start,
                n,
            )[l],
        forall|k: int|
            0 <= k < found(src, s, start, n).len() ==> #[trigger] found(src, s, start, n)[k] >= 2,
        forall|k: int, m: nat|
            0 <= k < found(src, s, start, n).len() && m >= n && #[trigger] src.value_at(m) is Some
                ==> #[trigger] found(src, s, start, n)[k] < val(src, m),
    decreases n,
{
    src.lemma_sequence();
    if n > start {
        let p = (n - 1) as nat;
        lemma_found_increasing(src, s, start, p);
        let f = found(src, s, start, p);
        let g = found(src, s, start, n);
        assert(src.value_at(p) is Some);
        if passes(src, s, f, p) {
            assert(g == f.push(src.value_at(p)->Some_0));
            assert forall|k: int| 0 <= k < f.len() implies #[trigger] f[k] < val(src, p) by {}
        } else {
            assert(g == f);
        }
    }
}

/// Primes by filtering out the multiples of every prime found so far, the
/// candidate stream in effect nesting one more filter per prime.
pub struct UnfaithfulSieve<I> {
    source: I,
    primes: Vec<u64>,
    origin: Ghost<I>,
    start: Ghost<nat>,
}

impl<I: CandidateSource> UnfaithfulSieve<I> {
    /// The source as it was handed in.
    pub closed spec fn origin(&self) -> I {
        self.origin@
    }

    /// Where the source stood when it was handed in.
    pub closed spec fn start(&self) -> nat {
        self.start@
    }

    /// How many candidates of the source have been taken.
    pub closed spec fn position(&self) -> nat {
        self.source.position()
    }

    /// The primes emitted so far.
    pub open spec fn emitted(&self) -> Seq<u64> {
        found(self.origin(), Strategy::Unfaithful, self.start(), self.position())
    }

    pub closed spec fn wf(&self) -> bool {
        &&& self.source.wf()
        &&& self.origin@.wf()
        &&& forall|i: nat| #[trigger] self.source.value_at(i) == self.origin@.value_at(i)
        &&& self.start@ <= self.source.position()
        &&& self.primes@ == self.emitted()
    }

    /// Wraps `source`; nothing is emitted yet.
    pub fn with_source(source: I) -> (r: Self)
        requires
            source.wf(),
        ensures
            r.wf(),
            r.origin() == source,
            r.start() == source.position(),
            r.position() == source.position(),
            r.emitted() == Seq::<u64>::empty(),
    {
        let ghost g = source;
        UnfaithfulSieve { source, primes: Vec::new(), origin: Ghost(g), start: Ghost(g.position()) }
    }

    /// The next candidate that no prime emitted so far divides, or `None` once
    /// the source runs out first.
    pub fn next(&mut self) -> (r: Option<u64>)
        requires
            old(self).wf(),
        ensures
            final(self).wf(),
            final(self).origin() == old(self).origin(),
            final(self).start() == old(self).start(),
            final(self).position() >= old(self).position(),
            forall|i: nat|
                final(self).start() <= i < final(self).position() ==> #[trigger] final(self).origin().value_at(i) is Some,
            match r {
                Some(x) => final(self).emitted() == old(self).emitted().push(x)
                    && final(self).position() >= 1
                    && final(self).origin().value_at((final(self).position() - 1) as nat) == Some(x),
                None => final(self).emitted() == old(self).emitted()
                    && final(self).origin().value_at(final(self).position()) is None,
            },
    {
        loop
            invariant
                self.wf(),
                self.origin() == old(self).origin(),
                self.start() == old(self).start(),
                self.position() >= old(self).position(),
                self.emitted() == old(self).emitted(),
            decreases u64::MAX - self.source.position(),
        {
            proof {
                lemma_position_bound(self.source);
            }
            let ghost n = self.source.position();
            let c = self.source.next();
            match c {
                None => {
                    proof {
                        lemma_taken_defined(self.source, self.origin@, self.start@, n);
                    }
                    return None;
                },
                Some(x) => {
                    let ghost src = self.origin@;
                    let ghost f = found(src, Strategy::Unfaithful, self.start@, n);
                    proof {
                        lemma_taken_defined(self.source, src, self.start@, n + 1);
                        lemma_found_increasing(src, Strategy::Unfaithful, self.start@, n);
                        assert(val(src, n) == x);
                    }
                    let mut ok = true;
                    let mut i: usize = 0;
                    while i < self.primes.len()
                        invariant
                            self.primes@ == f,
                            i <= f.len(),
                            forall|k: int| 0 <= k < f.len() ==> #[trigger] f[k] >= 2,
                            ok == (forall|k: int| 0 <= k < i ==> #[trigger] (x as int % (f[k] as int)) != 0),
                        decreases f.len() - i,
                    {
                        if x % self.primes[i] == 0 {
                            ok = false;
                        }
                        i = i + 1;
                    }
                    assert(ok == passes(src, Strategy::Unfaithful, f, n));
                    if ok {
                        self.primes.push(x);
                        return Some(x);
                    }
                },
            }
        }
    }
}

/// Primes by trial division against the primes found so far, up to the
/// square root of each candidate.
pub struct TrialDivisionSieve<I> {
    source: I,
    primes: Vec<u64>,
    origin: Ghost<I>,
    start: Ghost<nat>,
}

impl<I: CandidateSource> TrialDivisionSieve<I> {
    /// The source as it was handed in.
    pub closed spec fn origin(&self) -> I {
        self.origin@
    }

    /// Where the source stood when it was handed in.
    pub closed spec fn start(&self) -> nat {
        self.start@
    }

    /// How many candidates of the source have been taken.
    pub closed spec fn position(&self) -> nat {
        self.source.position()
    }

    /// The primes emitted so far.
    pub open spec fn emitted(&self) -> Seq<u64> {
        found(self.origin(), Strategy::TrialDivision, self.start(), self.position())
    }

    pub closed spec fn wf(&self) -> bool {
        &&& self.source.wf()
        &&& self.origin@.wf()
        &&& forall|i: nat| #[trigger] self.source.value_at(i) == self.origin@.value_at(i)
        &&& self.start@ <= self.source.position()
        &&& self.primes@ == self.emitted()
    }

    /// Wraps `source`; nothing is emitted yet.
    pub fn with_source(source: I) -> (r: Self)
        requires
            source.wf(),
        ensures
            r.wf(),
            r.origin() == source,
            r.start() == source.position(),
            r.position() == source.position(),
            r.emitted() == Seq::<u64>::empty(),
    {
        let ghost g = source;
        TrialDivisionSieve {
            source,
            primes: Vec::new(),
            origin: Ghost(g),
            start: Ghost(g.position()),
        }
    }

    /// The next candidate that no prime emitted so far, with its square at most
    /// the candidate, divides; or `None` once the source runs out first.
    pub fn next(&mut self) -> (r: Option<u64>)
        requires
            old(self).wf(),
        ensures
            final(self).wf(),
            final(self).origin() == old(self).origin(),
            final(self).start() == old(self).start(),
            final(self).position() >= old(self).position(),
            forall|i: nat|
                final(self).start() <= i < final(self).position() ==> #[trigger] final(self).origin().value_at(i) is Some,
            match r {
                Some(x) => final(self).emitted() == old(self).emitted().push(x)
                    && final(self).position() >= 1
                    && final(self).origin().value_at((final(self).position() - 1) as nat) == Some(x),
                None => final(self).emitted() == old(self).emitted()
                    && final(self).origin().value_at(final(self).position()) is None,
            },
    {
        loop
            invariant
                self.wf(),
                self.origin() == old(self).origin(),
                self.start() == old(self).start(),
                self.position() >= old(self).position(),
                self.emitted() == old(self).emitted(),
            decreases u64::MAX - self.source.position(),
        {
            proof {
                lemma_position_bound(self.source);
            }
            let ghost n = self.source.position();
            let c = self.source.next();
            match c {
                None => {
                    proof {
                        lemma_taken_defined(self.source, self.origin@, self.start@, n);
                    }
                    return None;
                },
                Some(x) => {
                    let ghost src = self.origin@;
                    let ghost f = found(src, Strategy::TrialDivision, self.start@, n);
                    proof {
                        lemma_taken_defined(self.source, src, self.start@, n + 1);
                        lemma_found_increasing(src, Strategy::TrialDivision, self.start@, n);
                        assert(val(src, n) == x);
                    }
                    let mut ok = true;
                    let mut beyond_root = false;
                    let mut i: usize = 0;
                    while i < self.primes.len() && !beyond_root
                        invariant
                            self.primes@ == f,
                            i <= f.len(),
                            forall|k: int| 0 <= k < f.len() ==> #[trigger] f[k] >= 2,
                            ok == (forall|k: int| 0 <= k < i ==> #[trigger] (x as int % (f[k] as int)) != 0),
                            beyond_root ==> i < f.len() && f[i as int] * f[i as int] > x,
                            forall|k: int| 0 <= k < i ==> #[trigger] f[k] * f[k] <= x,
                        decreases f.len() - i + (if beyond_root { 0int } else { 1int }),
                    {
                        let p = self.primes[i];
                        assert((p as u128) * (p as u128) <= u128::MAX) by (nonlinear_arith)
                            requires
                                p <= u64::MAX,
                        ;
                        if (p as u128) * (p as u128) > x as u128 {
                            beyond_root = true;
                        } else {
                            if x % p == 0 {
                                ok = false;
                            }
                            i = i + 1;
                        }
                    }
                    proof {
                        if beyond_root {
                            assert forall|k: int| i <= k < f.len() implies f[k] * f[k] > x by {
                                if k > i {
                                    assert(f[i as int] < f[k]);
                                }
                                assert(f[k] * f[k] >= f[i as int] * f[i as int]) by (nonlinear_arith)
                                    requires
                                        f[k] >= f[i as int],
                                        f[i as int] >= 2,
                                ;
                            }
                        }
                    }
                    proof {
                        if ok {
                            assert forall|k: int|
                                0 <= k < f.len() && f[k] * f[k] <= x implies #[trigger] (x as int % (
                            f[k] as int)) != 0 by {
                                if k >= i {
                                    assert(beyond_root);
                                }
                            }
                        } else {
                            let k = choose|k: int| 0 <= k < i && #[trigger] (x as int % (f[k] as int)) == 0;
                            assert(f[k] * f[k] <= x);
                        }
                    }
                    assert(ok == passes(src, Strategy::TrialDivision, f, n));
                    if ok {
                        self.primes.push(x);
                        return Some(x);
                    }
                },
            }
        }
    }
}

/// A candidate stream with every value multiplied by a fixed factor.
///
/// Products are returned as `u128`, so that no product of two `u64` values
/// can wrap.
pub enum IterMultiple<I> {
    Identity { source: I },
    Multiple { source: I, factor: u64 },
}

impl<I: CandidateSource> IterMultiple<I> {
    /// The stream that is multiplied.
    pub open spec fn inner(&self) -> I {
        match self {
            IterMultiple::Identity { source } => *source,
            IterMultiple::Multiple { source, .. } => *source,
        }
    }

    /// What each value is multiplied by.
    pub open spec fn factor_of(&self) -> int {
        match self {
            IterMultiple::Identity { .. } => 1,
            IterMultiple::Multiple { factor, .. } => *factor as int,
        }
    }

    /// The same stream with its factor multiplied by `factor`.
    pub fn multiply(self, factor: u64) -> (r: Self)
        requires
            self.factor_of() * factor <= u64::MAX,
        ensures
            r is Multiple,
            r.inner() == self.inner(),
            r.factor_of() == self.factor_of() * factor,
    {
        match self {
            IterMultiple::Identity { source } => IterMultiple::Multiple { source, factor },
            IterMultiple::Multiple { source, factor: f } => IterMultiple::Multiple {
                source,
                factor: f * factor,
            },
        }
    }

    /// An independent copy of the stream at the same position.
    pub fn duplicate(&self) -> (r: Self)
        requires
            self.inner().wf(),
        ensures
            r.inner().wf(),
            r.inner().position() == self.inner().position(),
            same_values(r.inner(), self.inner()),
            r.factor_of() == self.factor_of(),
            r is Multiple <==> self is Multiple,
    {
        match self {
            IterMultiple::Identity { source } => IterMultiple::Identity { source: source.duplicate() },
            IterMultiple::Multiple { source, factor } => IterMultiple::Multiple {
                source: source.duplicate(),
                factor: *factor,
            },
        }
    }

    /// The next value of the inner stream times the factor.
    pub fn next(&mut self) -> (r: Option<u128>)
        requires
            old(self).inner().wf(),
        ensures
            final(self).inner().wf(),
            same_values(final(self).inner(), old(self).inner()),
            final(self).factor_of() == old(self).factor_of(),
            *final(self) is Multiple <==> *old(self) is Multiple,
            final(self).inner().position() == if r is Some {
                old(self).inner().position() + 1
            } else {
                old(self).inner().position()
            },
            r == match old(self).inner().value_at(old(self).inner().position()) {
                Some(v) => Some((v * old(self).factor_of()) as u128),
                None => None,
            },
    {
        match self {
            IterMultiple::Identity { source } => match source.next() {
                Some(x) => Some(x as u128),
                None => None,
            },
            IterMultiple::Multiple { source, factor } => match source.next() {
                Some(x) => {
                    assert((x as u128) * (*factor as u128) <= u128::MAX) by (nonlinear_arith)
                        requires
                            x <= u64::MAX,
                            *factor <= u64::MAX,
                    ;
                    Some((x as u128) * (*factor as u128))
                },
                None => None,
            },
        }
    }
}

/// An entry of the composite table: the next multiple `key` of a prime, and the
/// stream of its later multiples.
pub struct Entry<I> {
    pub key: u128,
    pub composites: IterMultiple<I>,
}

/// `composites` runs over the multiples `p * c` of the prime `p` by the values
/// `c` of `origin`, and `key` is the one that it took last, with `c >= p`.
pub open spec fn marks<I: CandidateSource>(
    key: u128,
    composites: IterMultiple<I>,
    p: u64,
    origin: I,
) -> bool {
    let c = composites.inner();
    let k = (c.position() - 1) as nat;
    &&& composites is Multiple
    &&& composites.factor_of() == p
    &&& p >= 2
    &&& c.wf()
    &&& same_values(c, origin)
    &&& c.position() >= 1
    &&& origin.value_at(k) is Some
    &&& val(origin, k) >= p
    &&& key == p * val(origin, k)
}

/// Every multiple `p * c`, with `c >= p` a value of `origin`, that comes before
/// the key of `composites` is at most `last`.
pub open spec fn passed_below<I: CandidateSource>(
    composites: IterMultiple<I>,
    p: u64,
    origin: I,
    last: int,
) -> bool {
    let k = (composites.inner().position() - 1) as nat;
    forall|j: nat|
        j < k && #[trigger] origin.value_at(j) is Some && val(origin, j) >= p ==> p * val(origin, j)
            <= last
}

/// `e` marks the multiples of the prime `p` by values of `origin`, its key is
/// above `last`, and each smaller multiple is at most `last`.
pub open spec fn entry_ok<I: CandidateSource>(e: Entry<I>, p: u64, origin: I, last: int) -> bool {
    &&& marks(e.key, e.composites, p, origin)
    &&& e.key > last
    &&& passed_below(e.composites, p, origin, last)
}

/// The incremental sieve of Eratosthenes: a table keeps, for each prime found,
/// its next multiple, and a candidate is composite when it equals one.
///
/// Keys at or below a candidate are moved on before it is judged, and only a
/// key equal to it makes it composite. A key that the candidates stepped over
/// (4, for a source of 2 and the odd integers) thus costs nothing; testing
/// `key <= candidate` instead, as a plain min-heap version does, would take 5
/// for composite there. A lower bound on all keys lets most candidates skip
/// the table.
///
/// Keys are `u128`, so that the square of a `u64` candidate cannot wrap, as it
/// would in 64-bit arithmetic once candidates pass 2^32. Each key is stored
/// when its prime is found, so the table holds one entry per prime emitted,
/// and each candidate is checked against all of them.
pub struct GenuineSieve<I> {
    source: I,
    table: Vec<Entry<I>>,
    min_key: u128,
    primes: Ghost<Seq<u64>>,
    origin: Ghost<I>,
    start: Ghost<nat>,
}

impl<I: CandidateSource> GenuineSieve<I> {
    /// The source as it was handed in.
    pub closed spec fn origin(&self) -> I {
        self.origin@
    }

    /// Where the source stood when it was handed in.
    pub closed spec fn start(&self) -> nat {
        self.start@
    }

    /// How many candidates of the source have been taken.
    pub closed spec fn position(&self) -> nat {
        self.source.position()
    }

    /// The primes emitted so far.
    pub open spec fn emitted(&self) -> Seq<u64> {
        found(self.origin(), Strategy::Genuine, self.start(), self.position())
    }

    pub closed spec fn wf(&self) -> bool {
        &&& self.source.wf()
        &&& self.origin@.wf()
        &&& same_values(self.source, self.origin@)
        &&& self.start@ <= self.source.position()
        &&& self.primes@ == self.emitted()
        &&& self.table.len() == self.primes@.len()
        &&& forall|t: int| 0 <= t < self.table.len() ==> #[trigger] self.table@[t].key >= self.min_key
        &&& forall|t: int|
            0 <= t < self.table.len() ==> entry_ok(
                #[trigger] self.table@[t],
                self.primes@[t],
                self.origin@,
                prev_value(self.origin@, self.start@, self.source.position()),
            )
    }

    /// Wraps `source`; nothing is emitted yet.
    pub fn with_source(source: I) -> (r: Self)
        requires
            source.wf(),
        ensures
            r.wf(),
            r.origin() == source,
            r.start() == source.position(),
            r.position() == source.position(),
            r.emitted() == Seq::<u64>::empty(),
    {
        let ghost g = source;
        GenuineSieve {
            source,
            table: Vec::new(),
            min_key: u128::MAX,
            primes: Ghost(Seq::empty()),
            origin: Ghost(g),
            start: Ghost(g.position()),
        }
    }
}

impl<I: CandidateSource> GenuineSieve<I> {
    /// Moves every entry whose key is at most `candidate` on to its next
    /// multiple, until every key is above `candidate`; tells whether some key
    /// was equal to `candidate`, that is, whether `candidate` is `p * c` for a
    /// prime `p` found so far and a value `c >= p` of the source.
    ///
    /// A key below `candidate` that is no candidate itself only moves on: it
    /// does not make `candidate` composite.
    fn adjust_table(&mut self, candidate: u64, last: Ghost<int>) -> (hit: bool)
        requires
            old(self).origin@.wf(),
            old(self).source.wf(),
            same_values(old(self).source, old(self).origin@),
            old(self).source.position() >= 1,
            old(self).origin@.value_at((old(self).source.position() - 1) as nat) == Some(
                candidate,
            ),
            last@ < candidate,
            old(self).table.len() == old(self).primes@.len(),
            forall|t: int|
                0 <= t < old(self).table.len() ==> #[trigger] old(self).table@[t].key >= old(self).min_key,
            forall|t: int|
                0 <= t < old(self).table.len() ==> entry_ok(
                    #[trigger] old(self).table@[t],
                    old(self).primes@[t],
                    old(self).origin@,
                    last@,
                ),
        ensures
            final(self).source == old(self).source,
            final(self).primes == old(self).primes,
            final(self).origin == old(self).origin,
            final(self).start == old(self).start,
            final(self).table.len() == old(self).table.len(),
            forall|t: int|
                0 <= t < final(self).table.len() ==> #[trigger] final(self).table@[t].key >= final(self).min_key,
            forall|t: int|
                0 <= t < final(self).table.len() ==> entry_ok(
                    #[trigger] final(self).table@[t],
                    final(self).primes@[t],
                    final(self).origin@,
                    candidate as int,
                ),
            hit <==> exists|u: int, j: nat|
                0 <= u < final(self).primes@.len() && #[trigger] final(self).origin@.value_at(j)
                    is Some && val(final(self).origin@, j) >= final(self).primes@[u] && #[trigger] (
                final(self).primes@[u] * val(final(self).origin@, j)) == candidate,
    {
        let ghost origin = self.origin@;
        let ghost n = (self.source.position() - 1) as nat;
        proof {
            origin.lemma_sequence();
        }
        let mut hit = false;
        let ghost mut wu: int = 0;
        let ghost mut wj: nat = 0;
        if self.min_key > candidate as u128 {
            proof {
                assert forall|u: int, j: nat|
                    0 <= u < self.primes@.len() && #[trigger] origin.value_at(j) is Some && val(
                        origin,
                        j,
                    ) >= self.primes@[u] implies #[trigger] (self.primes@[u] * val(origin, j))
                    != candidate by {
                    let e = self.table@[u];
                    let p = self.primes@[u];
                    let k = (e.composites.inner().position() - 1) as nat;
                    assert(entry_ok(e, p, origin, last@));
                    if j >= k {
                        if j > k {
                            assert(origin.value_at(k)->Some_0 < origin.value_at(j)->Some_0);
                        }
                        assert(p * val(origin, j) >= p * val(origin, k)) by (nonlinear_arith)
                            requires
                                val(origin, j) >= val(origin, k),
                                p >= 0,
                        ;
                    }
                }
                assert forall|u: int| 0 <= u < self.table.len() implies entry_ok(
                    #[trigger] self.table@[u],
                    self.primes@[u],
                    origin,
                    candidate as int,
                ) by {
                    assert(entry_ok(self.table@[u], self.primes@[u], origin, last@));
                }
            }
            return false;
        }
        let mut new_min: u128 = u128::MAX;
        let mut t: usize = 0;
        while t < self.table.len()
            invariant
                self.source == old(self).source,
                self.primes == old(self).primes,
                self.origin == old(self).origin,
                self.start == old(self).start,
                origin == self.origin@,
                origin.wf(),
                origin.value_at(n) == Some(candidate),
                forall|i: nat, j: nat|
                    i < j && #[trigger] origin.value_at(j) is Some ==> #[trigger] origin.value_at(i) is Some
                        && origin.value_at(i)->Some_0 < origin.value_at(j)->Some_0,
                last@ < candidate,
                t <= self.table.len(),
                self.table.len() == old(self).table.len(),
                forall|u: int| 0 <= u < t ==> #[trigger] self.table@[u].key >= new_min,
                self.primes@.len() == self.table.len(),
                forall|u: int|
                    0 <= u < t ==> entry_ok(
                        #[trigger] self.table@[u],
                        self.primes@[u],
                        origin,
                        candidate as int,
                    ),
                forall|u: int|
                    t <= u < self.table.len() ==> #[trigger] self.table@[u] == old(self).table@[u],
                forall|u: int|
                    0 <= u < old(self).table.len() ==> entry_ok(
                        #[trigger] old(self).table@[u],
                        old(self).primes@[u],
                        origin,
                        last@,
                    ),
                hit ==> 0 <= wu < t && origin.value_at(wj) is Some && val(origin, wj)
                    >= self.primes@[wu] && self.primes@[wu] * val(origin, wj) == candidate,
                !hit ==> forall|u: int, j: nat|
                    0 <= u < t && #[trigger] origin.value_at(j) is Some && val(origin, j)
                        >= self.primes@[u] ==> #[trigger] (self.primes@[u] * val(origin, j))
                        != candidate,
            decreases self.table.len() - t,
        {
            let ghost p = self.primes@[t as int];
            assert(entry_ok(old(self).table@[t as int], p, origin, last@));
            let mut key = self.table[t].key;
            let mut composites = self.table[t].composites.duplicate();
            let mut equal = false;
            let ghost mut ej: nat = 0;
            while key <= candidate as u128
                invariant
                    origin.wf(),
                    origin.value_at(n) == Some(candidate),
                    forall|i: nat, j: nat|
                        i < j && #[trigger] origin.value_at(j) is Some ==> #[trigger] origin.value_at(i) is Some
                            && origin.value_at(i)->Some_0 < origin.value_at(j)->Some_0,
                    marks(key, composites, p, origin),
                    passed_below(composites, p, origin, candidate as int),
                    equal ==> origin.value_at(ej) is Some && val(origin, ej) >= p && p * val(
                        origin,
                        ej,
                    ) == candidate,
                    !equal ==> forall|j: nat|
                        j < composites.inner().position() - 1 && #[trigger] origin.value_at(j) is Some
                            && val(origin, j) >= p ==> p * val(origin, j) != candidate,
                decreases n + 1 - composites.inner().position(),
            {
                let ghost k = (composites.inner().position() - 1) as nat;
                proof {
                    if k >= n {
                        if k > n {
                            assert(origin.value_at(n)->Some_0 < origin.value_at(k)->Some_0);
                        }
                        assert(p * val(origin, k) > val(origin, k)) by (nonlinear_arith)
                            requires
                                p >= 2,
                                val(origin, k) >= 2,
                        ;
                    }
                    assert(k < n);
                    assert(origin.value_at(k + 1) is Some);
                    let v = val(origin, k + 1);
                    assert(v * p <= u64::MAX * u64::MAX) by (nonlinear_arith)
                        requires
                            0 <= v <= u64::MAX,
                            0 <= p <= u64::MAX,
                    ;
                    assert(v * p == p * v) by (nonlinear_arith);
                }
                if key == candidate as u128 {
                    equal = true;
                    proof {
                        ej = k;
                    }
                }
                match composites.next() {
                    Some(m) => {
                        proof {
                            assert(origin.value_at(k)->Some_0 < origin.value_at(k + 1)->Some_0);
                            assert forall|j: nat|
                                j < k + 1 && #[trigger] origin.value_at(j) is Some && val(origin, j)
                                    >= p implies p * val(origin, j) <= candidate by {
                                if j < k {
                                    assert(p * val(origin, j) <= candidate);
                                }
                            }
                        }
                        key = m;
                    },
                    None => {
                        assert(false);
                    },
                }
            }
            proof {
                let k = (composites.inner().position() - 1) as nat;
                if !equal {
                    assert forall|j: nat|
                        #[trigger] origin.value_at(j) is Some && val(origin, j) >= p implies p * val(
                            origin,
                            j,
                        ) != candidate by {
                        if j >= k {
                            if j > k {
                                assert(origin.value_at(k)->Some_0 < origin.value_at(j)->Some_0);
                            }
                            assert(p * val(origin, j) >= p * val(origin, k)) by (nonlinear_arith)
                                requires
                                    val(origin, j) >= val(origin, k),
                                    p >= 0,
                            ;
                        }
                    }
                }
            }
            if equal && !hit {
                hit = true;
                proof {
                    wu = t as int;
                    wj = ej;
                }
            }
            if key < new_min {
                new_min = key;
            }
            self.table.set(t, Entry { key, composites });
            t = t + 1;
        }
        self.min_key = new_min;
        proof {
            if hit {
                assert(origin.value_at(wj) is Some);
                assert(self.primes@[wu] * val(origin, wj) == candidate);
            }
        }
        hit
    }

    /// The next candidate that is no multiple `p * c` of a prime `p` found so
    /// far by a value `c >= p` of the source, or `None` once the source runs
    /// out first.
    pub fn next(&mut self) -> (r: Option<u64>)
        requires
            old(self).wf(),
        ensures
            final(self).wf(),
            final(self).origin() == old(self).origin(),
            final(self).start() == old(self).start(),
            final(self).position() >= old(self).position(),
            forall|i: nat|
                final(self).start() <= i < final(self).position() ==> #[trigger] final(self).origin().value_at(i) is Some,
            match r {
                Some(x) => final(self).emitted() == old(self).emitted().push(x)
                    && final(self).position() >= 1
                    && final(self).origin().value_at((final(self).position() - 1) as nat) == Some(x),
                None => final(self).emitted() == old(self).emitted()
                    && final(self).origin().value_at(final(self).position()) is None,
            },
    {
        loop
            invariant
                self.wf(),
                self.origin() == old(self).origin(),
                self.start() == old(self).start(),
                self.position() >= old(self).position(),
                self.emitted() == old(self).emitted(),
            decreases u64::MAX - self.source.position(),
        {
            proof {
                lemma_position_bound(self.source);
            }
            let ghost n = self.source.position();
            let ghost last = prev_value(self.origin@, self.start@, n);
            let c = self.source.next();
            match c {
                None => {
                    proof {
                        lemma_taken_defined(self.source, self.origin@, self.start@, n);
                    }
                    return None;
                },
                Some(x) => {
                    let ghost src = self.origin@;
                    let ghost f = self.primes@;
                    proof {
                        lemma_taken_defined(self.source, src, self.start@, n + 1);
                        lemma_found_increasing(src, Strategy::Genuine, self.start@, n);
                        src.lemma_sequence();
                        assert(val(src, n) == x);
                        if n > self.start@ {
                            assert(last < x);
                        }
                    }
                    let hit = self.adjust_table(x, Ghost(last));
                    assert(hit != passes(src, Strategy::Genuine, f, n));
                    if !hit {
                        let composites = IterMultiple::Identity { source: self.source.duplicate() }.multiply(x);
                        assert((x as u128) * (x as u128) <= u128::MAX) by (nonlinear_arith)
                            requires
                                x <= u64::MAX,
                        ;
                        let key = (x as u128) * (x as u128);
                        proof {
                            assert(key > x) by (nonlinear_arith)
                                requires
                                    x >= 2,
                                    key == x * x,
                            ;
                            assert forall|j: nat|
                                j < n && #[trigger] src.value_at(j) is Some && val(src, j) >= x implies x * val(src, j)
                                    <= x by {
                                assert(src.value_at(j)->Some_0 < src.value_at(n)->Some_0);
                            }
                            assert(entry_ok(Entry { key, composites }, x, src, x as int));
                        }
                        self.table.push(Entry { key, composites });
                        if key < self.min_key {
                            self.min_key = key;
                        }
                        self.primes = Ghost(f.push(x));
                        return Some(x);
                    }
                },
            }
        }
    }
}

} // verus!
