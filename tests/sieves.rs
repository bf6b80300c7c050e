use prime_sieve::primes;
use prime_sieve::sieve::{Entry, GenuineSieve, IterMultiple, TrialDivisionSieve, UnfaithfulSieve};
use prime_sieve::source::{integer_candidates, odds_with_2, wheel_2357, CandidateSource, SpinWheel};

const PRIMES_100: [u16; 100] = [
    2, 3, 5, 7, 11, 13, 17, 19, 23, 29, 31, 37, 41, 43, 47, 53, 59, 61, 67, 71, 73, 79, 83, 89,
    97, 101, 103, 107, 109, 113, 127, 131, 137, 139, 149, 151, 157, 163, 167, 173, 179, 181,
    191, 193, 197, 199, 211, 223, 227, 229, 233, 239, 241, 251, 257, 263, 269, 271, 277, 281,
    283, 293, 307, 311, 313, 317, 331, 337, 347, 349, 353, 359, 367, 373, 379, 383, 389, 397,
    401, 409, 419, 421, 431, 433, 439, 443, 449, 457, 461, 463, 467, 479, 487, 491, 499, 503,
    509, 521, 523, 541,
];

fn reference() -> Vec<u64> {
    PRIMES_100.iter().map(|&x| x as u64).collect()
}

fn take(mut next: impl FnMut() -> Option<u64>, n: usize) -> Vec<u64> {
    let mut out = Vec::new();
    while out.len() < n {
        match next() {
            Some(x) => out.push(x),
            None => break,
        }
    }
    out
}

fn with_wheel_prefix(mut next: impl FnMut() -> Option<u64>, n: usize) -> Vec<u64> {
    let mut out = vec![2, 3, 5, 7];
    out.extend(take(&mut next, n - 4));
    out
}

fn is_prime(x: u64) -> bool {
    x >= 2 && (2..x).take_while(|d| d * d <= x).all(|d| x % d != 0)
}

#[test]
fn primes_100() {
    let mut p = primes();
    assert_eq!(take(|| p.next(), 100), reference());
}

#[test]
fn test_unfaithful_sieve() {
    let mut s = UnfaithfulSieve::with_source(integer_candidates());
    assert_eq!(take(|| s.next(), 100), reference());
}

#[test]
fn test_trial_division_sieve() {
    let mut s = TrialDivisionSieve::with_source(integer_candidates());
    assert_eq!(take(|| s.next(), 100), reference());
}

#[test]
fn test_genuine_prime_sieve() {
    let mut s = GenuineSieve::with_source(integer_candidates());
    assert_eq!(take(|| s.next(), 100), reference());
}

#[test]
fn test_odds_with_2() {
    let mut s = odds_with_2();
    assert_eq!(take(|| s.next(), 10), vec![2, 3, 5, 7, 9, 11, 13, 15, 17, 19]);
}

#[test]
fn test_with_spin_wheel() {
    let mut s = TrialDivisionSieve::with_source(SpinWheel::default());
    assert_eq!(with_wheel_prefix(|| s.next(), 100), reference());
}

#[test]
fn spin_wheel_with_unfaithful_sieve() {
    let mut s = UnfaithfulSieve::with_source(SpinWheel::default());
    assert_eq!(with_wheel_prefix(|| s.next(), 100), reference());
}

#[test]
fn spin_wheel_with_genuine_sieve() {
    let mut s = GenuineSieve::with_source(SpinWheel::default());
    assert_eq!(with_wheel_prefix(|| s.next(), 100), reference());
}

#[test]
fn odds_with_unfaithful_and_trial_division() {
    let mut u = UnfaithfulSieve::with_source(odds_with_2());
    let mut t = TrialDivisionSieve::with_source(odds_with_2());
    assert_eq!(take(|| u.next(), 100), reference());
    assert_eq!(take(|| t.next(), 100), reference());
}

#[test]
fn genuine_sieve_over_odds_with_2() {
    // 4, the first multiple of 2 in the table, is no candidate of this source.
    let mut g = GenuineSieve::with_source(odds_with_2());
    assert_eq!(take(|| g.next(), 10), vec![2, 3, 5, 7, 11, 13, 17, 19, 23, 29]);
    let mut g = GenuineSieve::with_source(odds_with_2());
    assert_eq!(take(|| g.next(), 100), reference());
}

#[test]
fn sieves_agree_on_integers() {
    let mut u = UnfaithfulSieve::with_source(integer_candidates());
    let mut t = TrialDivisionSieve::with_source(integer_candidates());
    let mut g = GenuineSieve::with_source(integer_candidates());
    let a = take(|| u.next(), 300);
    let mut go = GenuineSieve::with_source(odds_with_2());
    assert_eq!(a, take(|| go.next(), 300));
    assert_eq!(a, take(|| t.next(), 300));
    assert_eq!(a, take(|| g.next(), 300));
}

#[test]
fn output_increasing_sound_and_without_gaps() {
    let mut g = GenuineSieve::with_source(integer_candidates());
    let out = take(|| g.next(), 1000);
    assert!(out.windows(2).all(|w| w[0] < w[1]));
    assert!(out.iter().all(|&x| is_prime(x)));
    let last = *out.last().unwrap();
    let expected: Vec<u64> = (2..=last).filter(|&x| is_prime(x)).collect();
    assert_eq!(out, expected);
}

#[test]
fn primes_beyond_the_wheel_turn() {
    let mut p = primes();
    let out = take(|| p.next(), 1000);
    assert_eq!(out[999], 7919);
    assert!(!out.contains(&121));
    assert!(!out.contains(&143));
}

#[test]
fn integer_candidates_count_up_from_two() {
    let mut s = integer_candidates();
    assert_eq!(take(|| s.next(), 5), vec![2, 3, 4, 5, 6]);
}

#[test]
fn duplicate_is_independent() {
    let mut s = odds_with_2();
    s.next();
    s.next();
    let mut d = s.duplicate();
    assert_eq!(s.next(), Some(5));
    assert_eq!(s.next(), Some(7));
    assert_eq!(d.next(), Some(5));
}

#[test]
fn wheel_gaps_sum_to_210_and_cycle() {
    let mut w = wheel_2357();
    let gaps: Vec<u64> = (0..48).map(|_| w.next()).collect();
    assert_eq!(gaps.iter().sum::<u64>(), 210);
    assert_eq!(gaps[0], 2);
    assert_eq!(gaps[47], 10);
    assert_eq!(w.next(), 2);
    assert_eq!(w.next(), 4);
}

#[test]
fn spin_wheel_skips_multiples_of_2_3_5_7() {
    let mut s = SpinWheel::default();
    let vals = take(|| s.next(), 500);
    assert_eq!(&vals[..8], &[11, 13, 17, 19, 23, 29, 31, 37]);
    assert_eq!(vals[48], 221);
    assert!(vals.contains(&121));
    assert!(vals.iter().all(|v| v % 2 != 0 && v % 3 != 0 && v % 5 != 0 && v % 7 != 0));
    assert!(vals.windows(2).all(|w| w[0] < w[1]));
}

#[test]
fn iter_multiple_scales_values() {
    let mut m = IterMultiple::Identity { source: integer_candidates() }.multiply(3);
    assert_eq!(m.next(), Some(6));
    assert_eq!(m.next(), Some(9));
    let mut m2 = IterMultiple::Identity { source: integer_candidates() }.multiply(3).multiply(5);
    assert_eq!(m2.next(), Some(30));
    let mut id = IterMultiple::Identity { source: odds_with_2() };
    assert_eq!(id.next(), Some(2));
}

#[test]
fn iter_multiple_products_do_not_wrap() {
    let mut m = IterMultiple::Identity { source: integer_candidates() }.multiply(u64::MAX);
    assert_eq!(m.next(), Some(2 * (u64::MAX as u128)));
}

#[test]
fn entry_holds_key_and_stream() {
    let mut e = Entry { key: 9, composites: IterMultiple::Identity { source: odds_with_2() }.multiply(3) };
    assert_eq!(e.key, 9);
    assert_eq!(e.composites.next(), Some(6));
}
