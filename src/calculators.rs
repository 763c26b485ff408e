//! Calculators: a candidate source (every offset, the wheel, or the sieve)
//! paired with the Miller-Rabin test, scanning for the smallest accepted
//! offset of a primorial.
use crate::arith::{is_prime, lemma_primorial_has_factor, primorial_of};
use crate::bignat::BigNat;
use crate::primality::{lemma_factor_rejected, mr_accepts, witness, witness_count, MillerRabin};
use crate::sieve::{increasing, isqrt_spec, marked, primes_up_to, SegmentedSieve};
use crate::wheel::{wheel_candidate, WheelFactorization};
use crate::{FortunateCalculator, FortunateError, Metrics, PrimalityTest};
use rayon::iter::{IndexedParallelIterator, IntoParallelIterator, IntoParallelRefIterator, ParallelIterator};
use std::time::{Duration, Instant};
use vstd::prelude::*;

verus! {

#[verifier::external_type_specification]
#[verifier::external_body]
pub struct ExInstant(Instant);

/// Relies on std's `Instant::now`: the current time, of which nothing is assumed.
#[verifier::external_body]
fn now() -> Instant {
    Instant::now()
}

/// Relies on std's `Instant::elapsed`: the time since `t`, of which nothing is assumed.
#[verifier::external_body]
fn elapsed(t: &Instant) -> Duration {
    t.elapsed()
}

/// The test with `rounds` rounds accepts `base + m`.
pub open spec fn accepted(rounds: nat, base: nat, m: int) -> bool {
    m >= 0 && mr_accepts(rounds, (base + m) as nat)
}

/// `m` is the smallest offset in `[2, max]` kept by `cand` and accepted.
pub open spec fn is_first_hit(
    rounds: nat,
    base: nat,
    max: int,
    cand: spec_fn(int) -> bool,
    m: int,
) -> bool {
    &&& 2 <= m <= max
    &&& cand(m)
    &&& accepted(rounds, base, m)
    &&& forall|k: int| 2 <= k < m && #[trigger] cand(k) ==> !accepted(rounds, base, k)
}

/// No offset in `[2, max]` kept by `cand` is accepted.
pub open spec fn no_hit(rounds: nat, base: nat, max: int, cand: spec_fn(int) -> bool) -> bool {
    forall|k: int| 2 <= k <= max && #[trigger] cand(k) ==> !accepted(rounds, base, k)
}

/// What a calculator owes for index `n`: the index error when `n` exceeds
/// the prime list, else the first accepted candidate of its source, or
/// `NoFortunateFound` exactly when no candidate up to `max` is accepted.
pub open spec fn fortunate_outcome(
    primes: Seq<u32>,
    rounds: nat,
    max: u32,
    cand: spec_fn(int) -> bool,
    n: usize,
    r: Result<u32, FortunateError>,
) -> bool {
    if n > primes.len() {
        r == Err::<u32, FortunateError>(
            FortunateError::InvalidPrimeIndex { index: n, max: primes.len() as usize },
        )
    } else {
        let base = primorial_of(primes, n as nat);
        match r {
            Ok(m) => is_first_hit(rounds, base, max as int, cand, m as int),
            Err(e) => e == FortunateError::NoFortunateFound { n, max_candidate: max } && no_hit(
                rounds,
                base,
                max as int,
                cand,
            ),
        }
    }
}

/// The value part of a result with metrics.
pub open spec fn value_of(r: Result<(u32, Metrics), FortunateError>) -> Result<u32, FortunateError> {
    match r {
        Ok(p) => Ok(p.0),
        Err(e) => Err(e),
    }
}

/// The linear source: every offset.
pub open spec fn every_offset() -> spec_fn(int) -> bool {
    |x: int| true
}

/// The wheel source.
pub open spec fn wheel_offset() -> spec_fn(int) -> bool {
    |x: int| wheel_candidate(x)
}

/// `x` has a prime factor `p <= b` with `p * p <= x`.
pub open spec fn sieved_out(b: int, x: int) -> bool {
    exists|p: int| is_prime(p) && p <= b && #[trigger] (x % p) == 0 && p * p <= x
}

/// The sieve source for ceiling `max`: offsets without a prime factor
/// `p <= isqrt(max) + 1` with `p * p <= x`.
pub open spec fn sieve_offset(max: u32) -> spec_fn(int) -> bool {
    |x: int| !sieved_out(isqrt_spec(max as int) + 1, x)
}

impl MillerRabin {
    /// Whether the test accepts `base + m`.
    pub fn accepts_offset(&self, base: &BigNat, m: u64) -> (r: bool)
        ensures
            r == accepted(self.rounds as nat, base@, m as int),
    {
        let c = base.add_u64(m);
        self.is_prime(&c)
    }
}

/// Relies on rayon's `IndexedParallelIterator::position_first`: the index
/// of the first item, in order, that the predicate holds of.
#[verifier::external_body]
fn par_position_first(items: &Vec<u32>, tester: &MillerRabin, base: &BigNat) -> (r: Option<usize>)
    ensures
        r is Some ==> r->Some_0 < items.len() && accepted(
            tester.rounds as nat,
            base@,
            items@[r->Some_0 as int] as int,
        ),
        r is Some ==> forall|j: int|
            0 <= j < r->Some_0 ==> !accepted(tester.rounds as nat, base@, #[trigger] items@[j] as int),
        r is None ==> forall|j: int|
            0 <= j < items.len() ==> !accepted(tester.rounds as nat, base@, #[trigger] items@[j] as int),
{
    items.par_iter().position_first(|&m| tester.accepts_offset(base, m as u64))
}

/// Relies on rayon's `ParallelIterator::any`: whether the predicate holds of
/// some offset in `[lo, hi)`.
#[verifier::external_body]
fn par_any(lo: u64, hi: u64, tester: &MillerRabin, base: &BigNat) -> (r: bool)
    ensures
        r == (exists|m: int| lo <= m < hi && #[trigger] accepted(tester.rounds as nat, base@, m)),
{
    (lo..hi).into_par_iter().any(|m| tester.accepts_offset(base, m))
}

/// The product of the first `n` entries of `primes`.
fn compute_primorial(primes: &Vec<u32>, n: usize) -> (r: Result<BigNat, FortunateError>)
    ensures
        n <= primes.len() ==> r is Ok && r->Ok_0@ == primorial_of(primes@, n as nat),
        n > primes.len() ==> r == Err::<BigNat, FortunateError>(
            FortunateError::InvalidPrimeIndex { index: n, max: primes.len() },
        ),
{
    if n == 0 {
        return Ok(BigNat::from_u64(1));
    }
    if n > primes.len() {
        return Err(FortunateError::InvalidPrimeIndex { index: n, max: primes.len() });
    }
    let mut result = BigNat::from_u64(primes[0] as u64);
    assert(primorial_of(primes@, 0) == 1);
    assert(primorial_of(primes@, 1) == primorial_of(primes@, 0) * (primes@[0] as nat));
    let mut i: usize = 1;
    while i < n
        invariant
            1 <= i <= n,
            n <= primes.len(),
            result@ == primorial_of(primes@, i as nat),
        decreases n - i,
    {
        result = result.mul(&BigNat::from_u64(primes[i] as u64));
        i = i + 1;
    }
    Ok(result)
}

/// How many offsets in `[2, m]` the source keeps: the tests an in-order
/// scan makes up to and including `m`.
pub open spec fn count_kept(cand: spec_fn(int) -> bool, m: int) -> nat
    decreases m,
{
    if m < 2 {
        0
    } else {
        count_kept(cand, m - 1) + if cand(m) {
            1nat
        } else {
            0nat
        }
    }
}

proof fn lemma_count_gap(cand: spec_fn(int) -> bool, a: int, b: int)
    requires
        a <= b,
        forall|x: int| a < x <= b ==> !#[trigger] cand(x),
    ensures
        count_kept(cand, b) == count_kept(cand, a),
    decreases b - a,
{
    if a < b {
        lemma_count_gap(cand, a, b - 1);
    }
}

proof fn lemma_count_bounded(cand: spec_fn(int) -> bool, m: int)
    requires
        m >= 1,
    ensures
        count_kept(cand, m) <= m - 1,
        cand == every_offset() ==> count_kept(cand, m) == m - 1,
    decreases m,
{
    if m > 1 {
        lemma_count_bounded(cand, m - 1);
    }
}

/// For an increasing list of exactly the kept offsets in `[2, max]`, the
/// count up to the entry at `i` is `i + 1`.
proof fn lemma_count_listed(cand: spec_fn(int) -> bool, s: Seq<u32>, max: int, i: int)
    requires
        increasing(s),
        forall|k: int| 0 <= k < s.len() ==> 2 <= #[trigger] s[k] <= max && cand(s[k] as int),
        forall|x: int| 2 <= x <= max && #[trigger] cand(x) ==> s.contains(x as u32),
        0 <= i < s.len(),
    ensures
        count_kept(cand, s[i] as int) == i + 1,
    decreases i,
{
    let lo: int = if i == 0 {
        1
    } else {
        s[i - 1] as int
    };
    assert forall|x: int| lo < x <= s[i] - 1 implies !#[trigger] cand(x) by {
        if cand(x) {
            assert(s.contains(x as u32));
            let j = choose|j: int| 0 <= j < s.len() && s[j] == x as u32;
            if j < i {
                if j < i - 1 {
                    assert(s[j] < s[i - 1]);
                }
            } else if j > i {
                assert(s[i] < s[j]);
            }
        }
    }
    lemma_count_gap(cand, lo, s[i] - 1);
    if i > 0 {
        lemma_count_listed(cand, s, max, i - 1);
    }
}

/// Tests every offset in `[2, max]` in order; returns the first accepted one
/// and how many tests were made.
fn scan_linear(tester: &MillerRabin, base: &BigNat, max: u32) -> (r: (Option<u32>, usize))
    ensures
        match r.0 {
            Some(m) => is_first_hit(tester.rounds as nat, base@, max as int, every_offset(), m as int)
                && r.1 == m - 1 && r.1 == count_kept(every_offset(), m as int),
            None => no_hit(tester.rounds as nat, base@, max as int, every_offset()),
        },
{
    let mut m: u64 = 2;
    let mut count: usize = 0;
    while m <= max as u64
        invariant
            2 <= m,
            m <= max as int + 1 || m == 2,
            count == m - 2,
            forall|k: int| 2 <= k < m ==> !accepted(tester.rounds as nat, base@, k),
        decreases max as int + 2 - m,
    {
        count = count + 1;
        if tester.accepts_offset(base, m) {
            proof {
                lemma_count_bounded(every_offset(), m as int);
            }
            return (Some(m as u32), count);
        }
        m = m + 1;
    }
    (None, count)
}

/// Tests the wheel's candidates in `[2, max]` in order.
fn scan_wheel(tester: &MillerRabin, base: &BigNat, wheel: &WheelFactorization, max: u32) -> (r: (
    Option<u32>,
    usize,
))
    requires
        wheel.wf(),
    ensures
        match r.0 {
            Some(m) => is_first_hit(tester.rounds as nat, base@, max as int, wheel_offset(), m as int)
                && r.1 == count_kept(wheel_offset(), m as int),
            None => no_hit(tester.rounds as nat, base@, max as int, wheel_offset()),
        },
{
    let mut it = wheel.candidates_up_to(max);
    let mut count: usize = 0;
    loop
        invariant
            it.wf(),
            it.max() == max,
            it.last() >= 1,
            count == count_kept(wheel_offset(), it.last()),
            it.last() <= max || it.last() == 1,
            forall|k: int|
                2 <= k <= it.last() && wheel_candidate(k) ==> !accepted(tester.rounds as nat, base@, k),
        decreases max as int + 1 - it.last(),
    {
        let ghost before = it.last();
        match it.next() {
            None => {
                return (None, count);
            },
            Some(c) => {
                proof {
                    lemma_count_gap(wheel_offset(), before, c - 1);
                    lemma_count_bounded(wheel_offset(), c as int);
                }
                count = count + 1;
                if tester.accepts_offset(base, c as u64) {
                    return (Some(c), count);
                }
                assert forall|k: int|
                    2 <= k <= it.last() && wheel_candidate(k) implies !accepted(
                    tester.rounds as nat,
                    base@,
                    k,
                ) by {
                    if k > before && k < c {
                        assert(!wheel_candidate(k));
                    }
                }
            },
        }
    }
}

/// With `basis` every prime up to `b`, the basis marks exactly what
/// `sieved_out(b, _)` describes.
proof fn lemma_marked_is_sieved_out(basis: Seq<u32>, b: int, x: int)
    requires
        primes_up_to(basis, b),
        b <= u32::MAX,
    ensures
        marked(basis, x) <==> sieved_out(b, x),
{
    if marked(basis, x) {
        let i = choose|i: int|
            0 <= i < basis.len() && #[trigger] (x % (basis[i] as int)) == 0 && (basis[i] as int) * (
            basis[i] as int) <= x;
        let p = basis[i] as int;
        assert(is_prime(p) && p <= b && x % p == 0 && p * p <= x);
    }
    if sieved_out(b, x) {
        let p = choose|p: int| is_prime(p) && p <= b && #[trigger] (x % p) == 0 && p * p <= x;
        assert(basis.contains(p as u32));
        let i = choose|i: int| 0 <= i < basis.len() && basis[i] == p as u32;
        assert((x % (basis[i] as int)) == 0);
    }
}

/// Tests the sieve's survivors in `[2, max]`, in parallel, keeping the first hit.
fn scan_sieved(tester: &MillerRabin, base: &BigNat, max: u32) -> (r: (Option<u32>, usize))
    ensures
        match r.0 {
            Some(m) => is_first_hit(tester.rounds as nat, base@, max as int, sieve_offset(max), m as int)
                && r.1 == count_kept(sieve_offset(max), m as int),
            None => no_hit(tester.rounds as nat, base@, max as int, sieve_offset(max)),
        },
{
    let sieve = SegmentedSieve::new(max);
    let ghost b = isqrt_spec(max as int) + 1;
    let high: u32 = if max < u32::MAX {
        max + 1
    } else {
        max
    };
    let cands = sieve.sieve_range(2, high);
    proof {
        assert forall|x: int| 2 <= x <= max && #[trigger] sieve_offset(max)(x) implies cands@.contains(
            x as u32,
        ) by {
            lemma_marked_is_sieved_out(sieve.basis(), b, x);
            if x == max && max == u32::MAX {
                assert(is_prime(3));
                let q = isqrt_spec(max as int);
                assert(q >= 2) by (nonlinear_arith)
                    requires
                        max < (q + 1) * (q + 1),
                        q >= 0,
                        max == u32::MAX,
                ;
                assert(9 <= x);
                assert(x % 3 == 0);
                assert(sieved_out(b, x));
            }
        }
    }
    match par_position_first(&cands, tester, base) {
        Some(i) => {
            let m = cands[i];
            proof {
                lemma_marked_is_sieved_out(sieve.basis(), b, m as int);
                assert forall|k: int|
                    2 <= k < m && #[trigger] sieve_offset(max)(k) implies !accepted(
                    tester.rounds as nat,
                    base@,
                    k,
                ) by {
                    assert(cands@.contains(k as u32));
                    let j = choose|j: int| 0 <= j < cands.len() && cands@[j] == k as u32;
                    if j >= i {
                        if j > i {
                            assert(cands@[i as int] < cands@[j]);
                        }
                    }
                }
            }
            proof {
                assert forall|k: int| 0 <= k < cands.len() implies 2 <= #[trigger] cands@[k] <= max
                    && sieve_offset(max)(cands@[k] as int) by {
                    lemma_marked_is_sieved_out(sieve.basis(), b, cands@[k] as int);
                }
                lemma_count_listed(sieve_offset(max), cands@, max as int, i as int);
            }
            (Some(m), i + 1)
        },
        None => {
            proof {
                assert forall|k: int|
                    2 <= k <= max && #[trigger] sieve_offset(max)(k) implies !accepted(
                    tester.rounds as nat,
                    base@,
                    k,
                ) by {
                    assert(cands@.contains(k as u32));
                    let j = choose|j: int| 0 <= j < cands.len() && cands@[j] == k as u32;
                }
            }
            (None, cands.len())
        },
    }
}

/// Tests `[2, max]` in batches of 100: each batch is first searched in
/// parallel for any hit, and only a batch with a hit is scanned in order.
fn scan_batched(tester: &MillerRabin, base: &BigNat, max: u32) -> (r: (Option<u32>, usize))
    ensures
        match r.0 {
            Some(m) => is_first_hit(tester.rounds as nat, base@, max as int, every_offset(), m as int)
                && r.1 == count_kept(every_offset(), m as int),
            None => no_hit(tester.rounds as nat, base@, max as int, every_offset()),
        },
{
    let mut batch_start: u64 = 2;
    let mut count: usize = 0;
    while batch_start <= max as u64
        invariant
            2 <= batch_start,
            batch_start <= max as int + 1 || batch_start == 2,
            count == batch_start - 2,
            forall|k: int| 2 <= k < batch_start ==> !accepted(tester.rounds as nat, base@, k),
        decreases max as int + 2 - batch_start,
    {
        let batch_end: u64 = if batch_start + 100 < max as u64 + 1 {
            batch_start + 100
        } else {
            max as u64 + 1
        };
        if par_any(batch_start, batch_end, tester, base) {
            let mut m: u64 = batch_start;
            while m < batch_end
                invariant
                    batch_start <= m <= batch_end,
                    batch_end <= max as int + 1,
                    count == m - 2,
                    forall|k: int| 2 <= k < m ==> !accepted(tester.rounds as nat, base@, k),
                decreases batch_end - m,
            {
                count = count + 1;
                if tester.accepts_offset(base, m) {
                    proof {
                        lemma_count_bounded(every_offset(), m as int);
                    }
                    return (Some(m as u32), count);
                }
                m = m + 1;
            }
        } else {
            count = (batch_end - 2) as usize;
        }
        batch_start = batch_end;
    }
    (None, count)
}

/// Two sources give the same outcome when every offset that only one of
/// them keeps is rejected by the test.
pub proof fn lemma_outcomes_agree(
    primes: Seq<u32>,
    rounds: nat,
    max: u32,
    c1: spec_fn(int) -> bool,
    c2: spec_fn(int) -> bool,
    n: usize,
    r1: Result<u32, FortunateError>,
    r2: Result<u32, FortunateError>,
)
    requires
        fortunate_outcome(primes, rounds, max, c1, n, r1),
        fortunate_outcome(primes, rounds, max, c2, n, r2),
        forall|k: int|
            2 <= k <= max && c1(k) != c2(k) ==> !accepted(rounds, primorial_of(primes, n as nat), k),
    ensures
        r1 == r2,
{
    if n <= primes.len() {
        let base = primorial_of(primes, n as nat);
        match (r1, r2) {
            (Ok(m1), Ok(m2)) => {
                if m1 < m2 {
                    assert(c2(m1 as int) == c1(m1 as int));
                }
                if m2 < m1 {
                    assert(c2(m2 as int) == c1(m2 as int));
                }
            },
            (Ok(m1), Err(_)) => {
                assert(c2(m1 as int) == c1(m1 as int));
            },
            (Err(_), Ok(m2)) => {
                assert(c2(m2 as int) == c1(m2 as int));
            },
            (Err(_), Err(_)) => {},
        }
    }
}

/// A source that skips offsets never finds less than the linear scan: when
/// the linear scan finds nothing, neither does it; when both find an
/// offset, the linear one is not larger; and when it keeps the linear
/// scan's answer, it finds exactly that answer.
pub proof fn lemma_filtered_source_against_linear(
    primes: Seq<u32>,
    rounds: nat,
    max: u32,
    cand: spec_fn(int) -> bool,
    n: usize,
    r_linear: Result<u32, FortunateError>,
    r_other: Result<u32, FortunateError>,
)
    requires
        fortunate_outcome(primes, rounds, max, every_offset(), n, r_linear),
        fortunate_outcome(primes, rounds, max, cand, n, r_other),
    ensures
        r_linear is Err ==> r_other == r_linear,
        r_linear is Ok && r_other is Ok ==> r_linear->Ok_0 <= r_other->Ok_0,
        r_linear is Ok && cand(r_linear->Ok_0 as int) ==> r_other == r_linear,
{
    if n <= primes.len() {
        match (r_linear, r_other) {
            (Err(_), Ok(m2)) => {
                assert(every_offset()(m2 as int));
            },
            (Ok(m1), Ok(m2)) => {
                assert(every_offset()(m2 as int));
                if cand(m1 as int) && m2 < m1 {
                    assert(!accepted(rounds, primorial_of(primes, n as nat), m2 as int));
                }
            },
            (Ok(m1), Err(_)) => {
                if cand(m1 as int) {
                    assert(!accepted(rounds, primorial_of(primes, n as nat), m1 as int));
                }
            },
            (Err(_), Err(_)) => {},
        }
    }
}

/// Calculators over the same source find the same thing: the outcome for an
/// index is unique. So the batched parallel calculator, which keeps every
/// offset, finds exactly what the in-order linear scan finds.
pub proof fn lemma_same_source_same_outcome(
    primes: Seq<u32>,
    rounds: nat,
    max: u32,
    cand: spec_fn(int) -> bool,
    n: usize,
    r1: Result<u32, FortunateError>,
    r2: Result<u32, FortunateError>,
)
    requires
        fortunate_outcome(primes, rounds, max, cand, n, r1),
        fortunate_outcome(primes, rounds, max, cand, n, r2),
    ensures
        r1 == r2,
{
    lemma_outcomes_agree(primes, rounds, max, cand, cand, n, r1, r2);
}

/// Two sources give the same outcome when both keep an accepted offset
/// `m <= max` and every offset below `m` that only one of them keeps is
/// rejected.
pub proof fn lemma_outcomes_agree_below_hit(
    primes: Seq<u32>,
    rounds: nat,
    max: u32,
    c1: spec_fn(int) -> bool,
    c2: spec_fn(int) -> bool,
    n: usize,
    m: int,
    r1: Result<u32, FortunateError>,
    r2: Result<u32, FortunateError>,
)
    requires
        n <= primes.len(),
        2 <= m <= max,
        c1(m),
        c2(m),
        accepted(rounds, primorial_of(primes, n as nat), m),
        fortunate_outcome(primes, rounds, max, c1, n, r1),
        fortunate_outcome(primes, rounds, max, c2, n, r2),
        forall|k: int|
            2 <= k < m && c1(k) != c2(k) ==> !accepted(rounds, primorial_of(primes, n as nat), k),
    ensures
        r1 == r2,
{
    match (r1, r2) {
        (Ok(m1), Ok(m2)) => {
            assert(m1 <= m && m2 <= m);
            if m1 < m2 {
                assert(c2(m1 as int) == c1(m1 as int));
            }
            if m2 < m1 {
                assert(c2(m2 as int) == c1(m2 as int));
            }
        },
        (Ok(m1), Err(_)) => {
            assert(c2(m) && !accepted(rounds, primorial_of(primes, n as nat), m));
        },
        (Err(_), _) => {
            assert(c1(m) && !accepted(rounds, primorial_of(primes, n as nat), m));
        },
    }
}

/// The wheel calculator finds what the linear one finds, for every index of
/// a prime list that starts 2, 3, 5 (as far as the index reaches) and a test
/// of at least three rounds (every preset): for `n >= 3` each offset the
/// wheel skips makes the sum a multiple of 2, 3 or 5, which the witnesses
/// 2, 3, 5 reject; for `n < 3` both find 2, 3 or 5 before the first skip
/// that matters.
pub proof fn lemma_wheel_agrees_with_linear(
    primes: Seq<u32>,
    rounds: nat,
    max: u32,
    n: usize,
    r_linear: Result<u32, FortunateError>,
    r_wheel: Result<u32, FortunateError>,
)
    requires
        n >= 1 && n <= primes.len() ==> primes[0] == 2,
        n >= 2 && n <= primes.len() ==> primes[1] == 3,
        n >= 3 && n <= primes.len() ==> primes[2] == 5,
        rounds >= 3,
        fortunate_outcome(primes, rounds, max, every_offset(), n, r_linear),
        fortunate_outcome(primes, rounds, max, wheel_offset(), n, r_wheel),
    ensures
        r_linear == r_wheel,
{
    if n > primes.len() {
    } else if n < 3 {
        lemma_wheel_agrees_small_index(primes, rounds, max, n, r_linear, r_wheel);
    } else {
        lemma_wheel_agrees_large_index(primes, rounds, max, n, r_linear, r_wheel);
    }
}

proof fn lemma_wheel_agrees_small_index(
    primes: Seq<u32>,
    rounds: nat,
    max: u32,
    n: usize,
    r_linear: Result<u32, FortunateError>,
    r_wheel: Result<u32, FortunateError>,
)
    requires
        n < 3,
        n <= primes.len(),
        n >= 1 ==> primes[0] == 2,
        n >= 2 ==> primes[1] == 3,
        fortunate_outcome(primes, rounds, max, every_offset(), n, r_linear),
        fortunate_outcome(primes, rounds, max, wheel_offset(), n, r_wheel),
    ensures
        r_linear == r_wheel,
{
    let base = primorial_of(primes, n as nat);
    crate::primality::lemma_small_primes_accepted(rounds);
    assert(primorial_of(primes, 0) == 1);
    if n >= 1 {
        assert(primorial_of(primes, 1) == 2);
    }
    if n == 2 {
        assert(primorial_of(primes, 2) == 6);
    }
    let m: int = if n == 0 {
        2
    } else if n == 1 {
        3
    } else {
        5
    };
    assert(base + m == 3 || base + m == 5 || base + m == 11);
    assert(accepted(rounds, base, m));
    assert(wheel_offset()(m));
    if m <= max {
        assert forall|k: int|
            2 <= k < m && every_offset()(k) != wheel_offset()(k) implies !accepted(
            rounds,
            base,
            k,
        ) by {
            assert(k == 4 && base == 6);
        }
        lemma_outcomes_agree_below_hit(
            primes,
            rounds,
            max,
            every_offset(),
            wheel_offset(),
            n,
            m,
            r_linear,
            r_wheel,
        );
    } else {
        assert forall|k: int|
            2 <= k <= max && every_offset()(k) != wheel_offset()(k) implies !accepted(
            rounds,
            base,
            k,
        ) by {
            assert(k == 4 && base == 6);
        }
        lemma_outcomes_agree(primes, rounds, max, every_offset(), wheel_offset(), n, r_linear, r_wheel);
    }
}

proof fn lemma_wheel_agrees_large_index(
    primes: Seq<u32>,
    rounds: nat,
    max: u32,
    n: usize,
    r_linear: Result<u32, FortunateError>,
    r_wheel: Result<u32, FortunateError>,
)
    requires
        3 <= n <= primes.len(),
        primes[0] == 2,
        primes[1] == 3,
        primes[2] == 5,
        rounds >= 3,
        fortunate_outcome(primes, rounds, max, every_offset(), n, r_linear),
        fortunate_outcome(primes, rounds, max, wheel_offset(), n, r_wheel),
    ensures
        r_linear == r_wheel,
{
    let base = primorial_of(primes, n as nat);
    assert forall|k: int|
        2 <= k <= max && every_offset()(k) != wheel_offset()(k) implies !accepted(rounds, base, k) by {
        let x = base + k;
        let i: int = if k % 2 == 0 {
            0
        } else if k % 3 == 0 {
            1
        } else {
            2
        };
        lemma_primorial_has_factor(primes, n as nat, i);
        let q = witness(i) as int;
        assert(q == primes[i] as int);
        assert(k % q == 0);
        assert((base as int) % q == 0);
        vstd::arithmetic::div_mod::lemma_fundamental_div_mod(base as int, q);
        vstd::arithmetic::div_mod::lemma_fundamental_div_mod(k, q);
        vstd::arithmetic::div_mod::lemma_mod_multiples_basic(base as int / q + k / q, q);
        assert(x == q * (base as int / q + k / q)) by (nonlinear_arith)
            requires
                x == base + k,
                base as int == q * (base as int / q) + (base as int) % q,
                k == q * (k / q) + k % q,
                (base as int) % q == 0,
                k % q == 0,
        ;
        assert((base as int / q + k / q) * q == q * (base as int / q + k / q)) by (nonlinear_arith);
        assert(x % q == 0);
        assert(k > q);
        lemma_factor_rejected(rounds, x as nat, i);
    }
    lemma_outcomes_agree(primes, rounds, max, every_offset(), wheel_offset(), n, r_linear, r_wheel);
}

/// The sieve calculator finds what the linear one finds whenever each prime
/// the sieve uses (up to `isqrt(max) + 1`) is both among the first `n`
/// primes of the list and among the witness bases the test tries: then the
/// sum for every offset the sieve drops has that prime as a smaller factor,
/// and that witness rejects it.
pub proof fn lemma_sieve_agrees_with_linear(
    primes: Seq<u32>,
    rounds: nat,
    max: u32,
    n: usize,
    r_linear: Result<u32, FortunateError>,
    r_sieve: Result<u32, FortunateError>,
)
    requires
        n <= primes.len(),
        forall|p: int|
            is_prime(p) && p <= isqrt_spec(max as int) + 1 ==> (exists|i: int|
                0 <= i < n && #[trigger] primes[i] == p) && (exists|w: int|
                0 <= w < witness_count(rounds) && #[trigger] witness(w) == p),
        fortunate_outcome(primes, rounds, max, every_offset(), n, r_linear),
        fortunate_outcome(primes, rounds, max, sieve_offset(max), n, r_sieve),
    ensures
        r_linear == r_sieve,
{
    let base = primorial_of(primes, n as nat);
    let b = isqrt_spec(max as int) + 1;
    assert forall|k: int|
        2 <= k <= max && every_offset()(k) != sieve_offset(max)(k) implies !accepted(rounds, base, k) by {
        let x = base + k;
        let q = choose|p: int| is_prime(p) && p <= b && #[trigger] (k % p) == 0 && p * p <= k;
        let i = choose|i: int| 0 <= i < n && #[trigger] primes[i] == q;
        let w = choose|w: int| 0 <= w < witness_count(rounds) && #[trigger] witness(w) == q;
        lemma_primorial_has_factor(primes, n as nat, i);
        vstd::arithmetic::div_mod::lemma_fundamental_div_mod(base as int, q);
        vstd::arithmetic::div_mod::lemma_fundamental_div_mod(k, q);
        vstd::arithmetic::div_mod::lemma_mod_multiples_basic(base as int / q + k / q, q);
        assert(x == q * (base as int / q + k / q)) by (nonlinear_arith)
            requires
                x == base + k,
                base as int == q * (base as int / q) + (base as int) % q,
                k == q * (k / q) + k % q,
                (base as int) % q == 0,
                k % q == 0,
        ;
        assert((base as int / q + k / q) * q == q * (base as int / q + k / q)) by (nonlinear_arith);
        assert(k > q) by (nonlinear_arith)
            requires
                q * q <= k,
                q >= 2,
        ;
        lemma_factor_rejected(rounds, x as nat, w);
    }
    lemma_outcomes_agree(primes, rounds, max, every_offset(), sieve_offset(max), n, r_linear, r_sieve);
}

/// The wheel and the sieve skip only composite offsets: an offset from 2 on
/// that either of them drops is not prime.
pub proof fn lemma_skipped_offsets_are_composite(max: u32, m: int)
    requires
        m >= 2,
        !wheel_offset()(m) || !sieve_offset(max)(m),
    ensures
        !is_prime(m),
{
    if !wheel_offset()(m) {
        let q: int = if m % 2 == 0 {
            2
        } else if m % 3 == 0 {
            3
        } else {
            5
        };
        assert(2 <= q < m && m % q == 0);
    } else {
        let b = isqrt_spec(max as int) + 1;
        let q = choose|p: int| is_prime(p) && p <= b && #[trigger] (m % p) == 0 && p * p <= m;
        assert(q < m) by (nonlinear_arith)
            requires
                q >= 2,
                q * q <= m,
        ;
        assert(m % q == 0);
    }
}

/// A calculator's answer passes the oracle it was found with: when the
/// outcome for index `n` is `Ok(m)`, the test accepts `primorial(n) + m`.
pub proof fn lemma_answer_passes_oracle(
    primes: Seq<u32>,
    rounds: nat,
    max: u32,
    cand: spec_fn(int) -> bool,
    n: usize,
    m: u32,
)
    requires
        fortunate_outcome(primes, rounds, max, cand, n, Ok(m)),
    ensures
        n <= primes.len(),
        2 <= m <= max,
        mr_accepts(rounds, (primorial_of(primes, n as nat) + m) as nat),
{
}

/// The primorial grows strictly with the index over a strictly increasing
/// list of primes (all at least 2): `primorial(j) < primorial(k)` for `j < k`.
pub proof fn lemma_primorial_increasing(primes: Seq<u32>, j: nat, k: nat)
    requires
        increasing(primes),
        primes.len() > 0 ==> primes[0] >= 2,
        j < k <= primes.len(),
    ensures
        primorial_of(primes, 0) == 1,
        primorial_of(primes, j) < primorial_of(primes, k),
    decreases k - j,
{
    let prev = primorial_of(primes, (k - 1) as nat);
    assert(primes[k - 1] >= 2) by {
        if k - 1 > 0 {
            assert(primes[0] < primes[k - 1]);
        }
    }
    lemma_primorial_positive(primes, (k - 1) as nat);
    assert(prev < prev * (primes[k - 1] as nat)) by (nonlinear_arith)
        requires
            prev >= 1,
            primes[k - 1] >= 2,
    ;
    if j < k - 1 {
        lemma_primorial_increasing(primes, j, (k - 1) as nat);
    }
}

proof fn lemma_primorial_positive(primes: Seq<u32>, n: nat)
    requires
        n <= primes.len(),
        forall|i: int| 0 <= i < n ==> primes[i] >= 1,
    ensures
        primorial_of(primes, n) >= 1,
    decreases n,
{
    if n > 0 {
        lemma_primorial_positive(primes, (n - 1) as nat);
        let a = primorial_of(primes, (n - 1) as nat);
        assert(a * (primes[n - 1] as nat) >= 1) by (nonlinear_arith)
            requires
                a >= 1,
                primes[n - 1] >= 1,
        ;
    }
}

/// A candidate source: which offsets in `[2, max]` a calculator tests, in
/// increasing order, and the scan that finds the first accepted one.
pub trait CandidateSource {
    /// The offsets the source keeps under ceiling `max`.
    spec fn keeps(&self, max: u32) -> spec_fn(int) -> bool;

    /// The first kept offset in `[2, max]` whose sum with `base` the tester
    /// accepts, and how many tests the scan made.
    fn scan(&self, tester: &MillerRabin, base: &BigNat, max: u32) -> (r: (Option<u32>, usize))
        ensures
            r.0 is Some ==> is_first_hit(
                tester.rounds as nat,
                base@,
                max as int,
                self.keeps(max),
                r.0->Some_0 as int,
            ),
            r.0 is None ==> no_hit(tester.rounds as nat, base@, max as int, self.keeps(max)),
            r.0 is Some ==> r.1 == count_kept(self.keeps(max), r.0->Some_0 as int),
    ;
}

/// Every offset, tested one after another.
#[derive(Clone, Copy)]
pub struct EveryOffset;

/// Every offset, a batch of 100 at a time: each batch is searched in parallel
/// for any hit and only a batch with a hit is scanned in order.
#[derive(Clone, Copy)]
pub struct BatchedOffsets;

/// The offsets the 2-3-5 wheel keeps, tested in order.
#[derive(Clone, Copy)]
pub struct WheelOffsets;

/// The offsets that survive a sieve by the primes up to `isqrt(max) + 1`,
/// tested in parallel, keeping the first hit in order.
#[derive(Clone, Copy)]
pub struct SievedOffsets;

impl CandidateSource for EveryOffset {
    open spec fn keeps(&self, max: u32) -> spec_fn(int) -> bool {
        every_offset()
    }

    fn scan(&self, tester: &MillerRabin, base: &BigNat, max: u32) -> (r: (Option<u32>, usize)) {
        scan_linear(tester, base, max)
    }
}

impl CandidateSource for BatchedOffsets {
    open spec fn keeps(&self, max: u32) -> spec_fn(int) -> bool {
        every_offset()
    }

    fn scan(&self, tester: &MillerRabin, base: &BigNat, max: u32) -> (r: (Option<u32>, usize)) {
        scan_batched(tester, base, max)
    }
}

impl CandidateSource for WheelOffsets {
    open spec fn keeps(&self, max: u32) -> spec_fn(int) -> bool {
        wheel_offset()
    }

    fn scan(&self, tester: &MillerRabin, base: &BigNat, max: u32) -> (r: (Option<u32>, usize)) {
        scan_wheel(tester, base, &WheelFactorization::new(), max)
    }
}

impl CandidateSource for SievedOffsets {
    open spec fn keeps(&self, max: u32) -> spec_fn(int) -> bool {
        sieve_offset(max)
    }

    fn scan(&self, tester: &MillerRabin, base: &BigNat, max: u32) -> (r: (Option<u32>, usize)) {
        scan_sieved(tester, base, max)
    }
}

/// A Fortunate-number calculator: a prime list, a Miller-Rabin tester, a
/// ceiling for the offsets, and the source of candidate offsets.
pub struct Calculator<S> {
    primes: Vec<u32>,
    tester: MillerRabin,
    max_candidate: u32,
    source: S,
}

/// Tests every offset `2, 3, ..., max` in order: the baseline.
pub type PrimeBasedCalculator = Calculator<EveryOffset>;

/// Tests every offset in parallel batches; finds what the in-order scan finds.
pub type ParallelFortunateCalculator = Calculator<BatchedOffsets>;

/// Tests only the offsets the 2-3-5 wheel keeps.
pub type WheelFortunateCalculator = Calculator<WheelOffsets>;

/// Tests only the offsets that survive the sieve.
pub type SievedFortunateCalculator = Calculator<SievedOffsets>;

impl<S: CandidateSource> Calculator<S> {
    /// The prime list the primorials are formed from.
    pub closed spec fn prime_list(&self) -> Seq<u32> {
        self.primes@
    }

    /// The rounds of the primality test.
    pub closed spec fn rounds(&self) -> nat {
        self.tester.rounds as nat
    }

    /// The largest offset tried.
    pub closed spec fn ceiling(&self) -> u32 {
        self.max_candidate
    }

    /// The candidate source.
    pub closed spec fn source(&self) -> S {
        self.source
    }

    /// The offsets the calculator tests.
    pub closed spec fn kept(&self) -> spec_fn(int) -> bool {
        self.source.keeps(self.max_candidate)
    }

    /// A calculator over `primes` with the given source and tester, and ceiling 10000.
    pub fn with_source(primes: Vec<u32>, tester: MillerRabin, source: S) -> (r: Calculator<S>)
        ensures
            r.prime_list() == primes@,
            r.rounds() == tester.rounds,
            r.ceiling() == 10000,
            r.kept() == source.keeps(10000),
    {
        Calculator { primes, tester, max_candidate: 10000, source }
    }

    /// Sets the largest offset tried.
    pub fn set_max_candidate(&mut self, max: u32)
        ensures
            final(self).ceiling() == max,
            final(self).prime_list() == old(self).prime_list(),
            final(self).rounds() == old(self).rounds(),
            final(self).source() == old(self).source(),
            final(self).kept() == old(self).source().keeps(max),
    {
        self.max_candidate = max;
    }

    /// How many primes the list holds.
    pub fn prime_count(&self) -> (r: usize)
        ensures
            r == self.prime_list().len(),
    {
        self.primes.len()
    }
}

impl<S: CandidateSource> FortunateCalculator for Calculator<S> {
    fn primorial(&self, n: usize) -> (r: Result<BigNat, FortunateError>)
        ensures
            n <= self.prime_list().len() ==> r is Ok && r->Ok_0@ == primorial_of(
                self.prime_list(),
                n as nat,
            ),
            n > self.prime_list().len() ==> r == Err::<BigNat, FortunateError>(
                FortunateError::InvalidPrimeIndex { index: n, max: self.prime_list().len() as usize },
            ),
    {
        compute_primorial(&self.primes, n)
    }

    fn fortunate_number(&self, n: usize) -> (r: Result<u32, FortunateError>)
        ensures
            fortunate_outcome(self.prime_list(), self.rounds(), self.ceiling(), self.kept(), n, r),
    {
        let p = match compute_primorial(&self.primes, n) {
            Ok(p) => p,
            Err(e) => {
                return Err(e);
            },
        };
        match self.source.scan(&self.tester, &p, self.max_candidate).0 {
            Some(m) => Ok(m),
            None => Err(FortunateError::NoFortunateFound { n, max_candidate: self.max_candidate }),
        }
    }

    fn fortunate_number_with_metrics(&self, n: usize) -> (r: Result<(u32, Metrics), FortunateError>)
        ensures
            fortunate_outcome(
                self.prime_list(),
                self.rounds(),
                self.ceiling(),
                self.kept(),
                n,
                value_of(r),
            ),
            r is Ok ==> r->Ok_0.1.candidate_found == r->Ok_0.0,
            r is Ok ==> r->Ok_0.1.primality_tests_passed == 1,
            r is Ok ==> r->Ok_0.1.primality_test_count == count_kept(self.kept(), r->Ok_0.0 as int),
    {
        let start = now();
        let primorial_start = now();
        let p = match compute_primorial(&self.primes, n) {
            Ok(p) => p,
            Err(e) => {
                return Err(e);
            },
        };
        let primorial_time = elapsed(&primorial_start);
        let (hit, count) = self.source.scan(&self.tester, &p, self.max_candidate);
        match hit {
            Some(m) => {
                let total_time = elapsed(&start);
                Ok(
                    (
                        m,
                        Metrics {
                            primorial_time,
                            primality_test_count: count,
                            primality_tests_passed: 1,
                            total_time,
                            candidate_found: m,
                        },
                    ),
                )
            },
            None => Err(FortunateError::NoFortunateFound { n, max_candidate: self.max_candidate }),
        }
    }
}

impl Calculator<EveryOffset> {
    /// A calculator over `primes` with the standard test (40 rounds) and ceiling 10000.
    pub fn new(primes: Vec<u32>) -> (r: PrimeBasedCalculator)
        ensures
            r.prime_list() == primes@,
            r.rounds() == 40,
            r.ceiling() == 10000,
            r.kept() == EveryOffset.keeps(10000),
    {
        Calculator::with_source(primes, MillerRabin::with_default_rounds(), EveryOffset)
    }

    /// A calculator over `primes` with the given test and ceiling 10000.
    pub fn with_tester(primes: Vec<u32>, tester: MillerRabin) -> (r: PrimeBasedCalculator)
        ensures
            r.prime_list() == primes@,
            r.rounds() == tester.rounds,
            r.ceiling() == 10000,
            r.kept() == EveryOffset.keeps(10000),
    {
        Calculator::with_source(primes, tester, EveryOffset)
    }
}

impl Calculator<BatchedOffsets> {
    /// A calculator over `primes` with the standard test (40 rounds) and ceiling 10000.
    pub fn new(primes: Vec<u32>) -> (r: ParallelFortunateCalculator)
        ensures
            r.prime_list() == primes@,
            r.rounds() == 40,
            r.ceiling() == 10000,
            r.kept() == BatchedOffsets.keeps(10000),
    {
        Calculator::with_source(primes, MillerRabin::with_default_rounds(), BatchedOffsets)
    }

    /// A calculator over `primes` with the given test and ceiling 10000.
    pub fn with_tester(primes: Vec<u32>, tester: MillerRabin) -> (r: ParallelFortunateCalculator)
        ensures
            r.prime_list() == primes@,
            r.rounds() == tester.rounds,
            r.ceiling() == 10000,
            r.kept() == BatchedOffsets.keeps(10000),
    {
        Calculator::with_source(primes, tester, BatchedOffsets)
    }
}

impl Calculator<WheelOffsets> {
    /// A calculator over `primes` with the standard test (40 rounds) and ceiling 10000.
    pub fn new(primes: Vec<u32>) -> (r: WheelFortunateCalculator)
        ensures
            r.prime_list() == primes@,
            r.rounds() == 40,
            r.ceiling() == 10000,
            r.kept() == WheelOffsets.keeps(10000),
    {
        Calculator::with_source(primes, MillerRabin::with_default_rounds(), WheelOffsets)
    }

    /// A calculator over `primes` with the given test and ceiling 10000.
    pub fn with_tester(primes: Vec<u32>, tester: MillerRabin) -> (r: WheelFortunateCalculator)
        ensures
            r.prime_list() == primes@,
            r.rounds() == tester.rounds,
            r.ceiling() == 10000,
            r.kept() == WheelOffsets.keeps(10000),
    {
        Calculator::with_source(primes, tester, WheelOffsets)
    }
}

impl Calculator<SievedOffsets> {
    /// A calculator over `primes` with the standard test (40 rounds) and ceiling 10000.
    pub fn new(primes: Vec<u32>) -> (r: SievedFortunateCalculator)
        ensures
            r.prime_list() == primes@,
            r.rounds() == 40,
            r.ceiling() == 10000,
            r.kept() == SievedOffsets.keeps(10000),
    {
        Calculator::with_source(primes, MillerRabin::with_default_rounds(), SievedOffsets)
    }

    /// A calculator over `primes` with the given test and ceiling 10000.
    pub fn with_tester(primes: Vec<u32>, tester: MillerRabin) -> (r: SievedFortunateCalculator)
        ensures
            r.prime_list() == primes@,
            r.rounds() == tester.rounds,
            r.ceiling() == 10000,
            r.kept() == SievedOffsets.keeps(10000),
    {
        Calculator::with_source(primes, tester, SievedOffsets)
    }
}

} // verus!
