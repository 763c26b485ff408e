//! Sieve of Eratosthenes: the basis primes, and a range sieve that removes
//! the multiples of those primes from a stretch of candidates.
use crate::arith::is_prime;
use vstd::prelude::*;

verus! {

/// `x` is a multiple of some basis prime `p` with `p * p <= x`.
pub open spec fn marked(basis: Seq<u32>, x: int) -> bool {
    exists|i: int|
        0 <= i < basis.len() && #[trigger] (x % (basis[i] as int)) == 0 && (basis[i] as int)
            * (basis[i] as int) <= x
}

/// `x` is a multiple of one of the first `n` basis primes `p`, with `p * p <= x`.
pub open spec fn marked_by(basis: Seq<u32>, n: int, x: int) -> bool {
    exists|i: int|
        0 <= i < n && #[trigger] (x % (basis[i] as int)) == 0 && (basis[i] as int) * (
        basis[i] as int) <= x
}

/// `s` is strictly increasing.
pub open spec fn increasing(s: Seq<u32>) -> bool {
    forall|i: int, j: int| 0 <= i < j < s.len() ==> s[i] < s[j]
}

/// `s` lists, in increasing order, exactly the primes up to `limit`.
pub open spec fn primes_up_to(s: Seq<u32>, limit: int) -> bool {
    &&& increasing(s)
    &&& forall|i: int| 0 <= i < s.len() ==> is_prime(#[trigger] s[i] as int) && s[i] <= limit
    &&& forall|p: int| 2 <= p <= limit && is_prime(p) ==> s.contains(p as u32)
}

/// `x >= 2` without a divisor `d` in `[2, below)` with `d * d <= x`.
pub open spec fn no_small_divisor(x: int, below: int) -> bool {
    x >= 2 && forall|d: int| 2 <= d < below && #[trigger] (d * d) <= x ==> x % d != 0
}

pub proof fn lemma_no_small_divisor_is_prime(x: int, below: int)
    requires
        x >= 2,
        x < below * below,
        below >= 0,
    ensures
        no_small_divisor(x, below) <==> is_prime(x),
{
    if no_small_divisor(x, below) {
        assert forall|d: int| 2 <= d < x implies #[trigger] (x % d) != 0 by {
            if x % d == 0 {
                let e = x / d;
                vstd::arithmetic::div_mod::lemma_fundamental_div_mod(x, d);
                assert(x == d * e);
                assert(e >= 2) by (nonlinear_arith)
                    requires
                        x == d * e,
                        d < x,
                        d >= 2,
                ;
                if d * d <= x {
                    assert(d < below) by (nonlinear_arith)
                        requires
                            d * d <= x,
                            x < below * below,
                            below >= 0,
                            d >= 0,
                    ;
                } else {
                    assert(e < d) by (nonlinear_arith)
                        requires
                            x == d * e,
                            d * d > x,
                            e >= 0,
                            d >= 0,
                    ;
                    assert(e * e <= x) by (nonlinear_arith)
                        requires
                            x == d * e,
                            e < d,
                            e >= 0,
                    ;
                    assert(e < below) by (nonlinear_arith)
                        requires
                            e * e <= x,
                            x < below * below,
                            below >= 0,
                            e >= 0,
                    ;
                    vstd::arithmetic::div_mod::lemma_mod_multiples_basic(d, e);
                    assert(d * e == e * d) by (nonlinear_arith);
                    assert(x % e == 0);
                }
            }
        }
    }
    if is_prime(x) {
        assert forall|d: int| 2 <= d < below && #[trigger] (d * d) <= x implies x % d != 0 by {
            assert(d < x) by (nonlinear_arith)
                requires
                    d >= 2,
                    d * d <= x,
            ;
        }
    }
}

/// The greatest `r` with `r * r <= n`.
pub fn isqrt(n: u32) -> (r: u32)
    ensures
        r as int == isqrt_spec(n as int),
        r < 65536,
        (r as int) * (r as int) <= n < (r as int + 1) * (r as int + 1),
{
    let mut r: u64 = 0;
    loop
        invariant
            r * r <= n,
            r <= 65536,
        ensures
            r * r <= n,
            r <= 65536,
            n < (r + 1) * (r + 1),
        decreases n - r * r,
    {
        assert((r + 1) * (r + 1) <= 65537 * 65537) by (nonlinear_arith)
            requires
                r <= 65536,
        ;
        let next = (r + 1) * (r + 1);
        if next > n as u64 {
            break;
        }
        assert((r + 1) * (r + 1) > r * r) by (nonlinear_arith);
        assert(r + 1 <= 65536) by (nonlinear_arith)
            requires
                (r + 1) * (r + 1) <= n,
                n <= u32::MAX,
        ;
        r = r + 1;
    }
    assert(r < 65536) by (nonlinear_arith)
        requires
            r * r <= n,
            n <= u32::MAX,
            r <= 65536,
    ;
    proof {
        lemma_isqrt_unique(n as int, r as int);
    }
    r as u32
}

/// A sieve holding the primes up to a bound, used to filter ranges.
pub struct SegmentedSieve {
    basis_primes: Vec<u32>,
    segment_size: usize,
}

impl SegmentedSieve {
    /// The basis primes.
    pub closed spec fn basis(&self) -> Seq<u32> {
        self.basis_primes@
    }

    /// Every basis entry is at least 2.
    pub closed spec fn wf(&self) -> bool {
        forall|i: int| 0 <= i < self.basis_primes@.len() ==> self.basis_primes@[i] >= 2
    }

    /// The sieve for candidates up to `limit`: its basis is every prime up
    /// to `isqrt(limit) + 1`.
    pub fn new(limit: u32) -> (r: SegmentedSieve)
        ensures
            r.wf(),
            primes_up_to(r.basis(), isqrt_spec(limit as int) + 1),
            0 <= isqrt_spec(limit as int) < 65536,
            isqrt_spec(limit as int) * isqrt_spec(limit as int) <= limit,
            limit < (isqrt_spec(limit as int) + 1) * (isqrt_spec(limit as int) + 1),
    {
        let root = isqrt(limit);
        proof {
            lemma_isqrt_unique(limit as int, root as int);
        }
        let sqrt_limit = root + 1;
        assert(sqrt_limit < u32::MAX);
        let basis_primes = SegmentedSieve::simple_sieve(sqrt_limit);
        SegmentedSieve { basis_primes, segment_size: 10_000 }
    }

    /// The values of `[low, high)` that no basis prime `p` divides with
    /// `p * p <= x`, in increasing order.
    pub fn sieve_range(&self, low: u32, high: u32) -> (r: Vec<u32>)
        requires
            self.wf(),
        ensures
            increasing(r@),
            forall|k: int|
                0 <= k < r.len() ==> low <= #[trigger] r@[k] < high && !marked(
                    self.basis(),
                    r@[k] as int,
                ),
            forall|x: int| low <= x < high && !marked(self.basis(), x) ==> r@.contains(x as u32),
    {
        let mut out: Vec<u32> = Vec::new();
        if low >= high {
            return out;
        }
        let range_size: usize = (high - low) as usize;
        let mut flags: Vec<bool> = Vec::new();
        while flags.len() < range_size
            invariant
                flags.len() <= range_size,
                forall|k: int| 0 <= k < flags.len() ==> #[trigger] flags@[k],
            decreases range_size - flags.len(),
        {
            flags.push(true);
        }
        let ghost basis = self.basis_primes@;
        let mut bi: usize = 0;
        while bi < self.basis_primes.len()
            invariant
                self.wf(),
                basis == self.basis_primes@,
                low < high,
                range_size == high - low,
                flags.len() == range_size,
                bi <= basis.len(),
                forall|k: int|
                    0 <= k < range_size ==> #[trigger] flags@[k] == !marked_by(
                        basis,
                        bi as int,
                        low + k,
                    ),
            decreases basis.len() - bi,
        {
            let p: u64 = self.basis_primes[bi] as u64;
            assert(p * p <= u32::MAX as int * u32::MAX as int) by (nonlinear_arith)
                requires
                    p <= u32::MAX,
            ;
            let c: u64 = (low as u64 + p - 1) / p;
            let ghost cc = c as int;
            proof {
                vstd::arithmetic::div_mod::lemma_fundamental_div_mod(low + p - 1, p as int);
                assert(p * cc >= low && p * (cc - 1) < low) by (nonlinear_arith)
                    requires
                        low + p - 1 == p * cc + (low + p - 1) % (p as int),
                        0 <= (low + p - 1) % (p as int) < p,
                ;
                assert(p * cc <= low + p) by (nonlinear_arith)
                    requires
                        p * (cc - 1) < low,
                ;
            }
            let mut start: u64 = c * p;
            assert(start == p * cc) by (nonlinear_arith)
                requires
                    start == c * p,
                    cc == c,
            ;
            if start < p * p {
                start = p * p;
            }
            proof {
                assert(start % p == 0) by {
                    vstd::arithmetic::div_mod::lemma_mod_multiples_basic(cc, p as int);
                    vstd::arithmetic::div_mod::lemma_mod_multiples_basic(p as int, p as int);
                }
                assert forall|x: int| low <= x && #[trigger] (x % (p as int)) == 0 && p * p <= x implies start
                    <= x by {
                    vstd::arithmetic::div_mod::lemma_fundamental_div_mod(x, p as int);
                    let t = x / (p as int);
                    if x < p * cc {
                        assert(false) by (nonlinear_arith)
                            requires
                                x == p * t,
                                x < p * cc,
                                x >= low,
                                p * (cc - 1) < low,
                                p > 0,
                        ;
                    }
                }
            }
            let mut j: u64 = start;
            while j < high as u64
                invariant
                    self.wf(),
                    basis == self.basis_primes@,
                    bi < basis.len(),
                    p == basis[bi as int],
                    p >= 2,
                    low < high,
                    range_size == high - low,
                    flags.len() == range_size,
                    start <= j,
                    j == start || j <= high + p,
                    j % p == 0,
                    forall|k: int|
                        0 <= k < range_size ==> #[trigger] flags@[k] == !(marked_by(
                            basis,
                            bi as int,
                            low + k,
                        ) || ((low + k) % (p as int) == 0 && start <= low + k && low + k < j)),
                decreases high + p - j,
            {
                let ghost j0 = j as int;
                if j >= low as u64 {
                    flags.set((j - low as u64) as usize, false);
                }
                proof {
                    vstd::arithmetic::div_mod::lemma_mod_multiples_vanish(1, j0, p as int);
                    assert forall|x: int| j0 < x < j0 + p implies #[trigger] (x % (p as int))
                        != 0 by {
                        vstd::arithmetic::div_mod::lemma_fundamental_div_mod(j0, p as int);
                        vstd::arithmetic::div_mod::lemma_fundamental_div_mod(x, p as int);
                        let a = j0 / (p as int);
                        let b = x / (p as int);
                        if x % (p as int) == 0 {
                            assert(false) by (nonlinear_arith)
                                requires
                                    j0 == p * a,
                                    x == p * b,
                                    j0 < x < j0 + p,
                                    p > 0,
                            ;
                        }
                    }
                }
                j = j + p;
            }
            assert forall|k: int| 0 <= k < range_size implies #[trigger] flags@[k] == !marked_by(
                basis,
                bi + 1,
                low + k,
            ) by {
                let x = low + k;
                if x % (p as int) == 0 && p * p <= x {
                    assert(start <= x);
                    assert(marked_by(basis, bi + 1, x));
                }
                if marked_by(basis, bi + 1, x) && !marked_by(basis, bi as int, x) {
                    let i = choose|i: int|
                        0 <= i < bi + 1 && #[trigger] (x % (basis[i] as int)) == 0 && (
                        basis[i] as int) * (basis[i] as int) <= x;
                    assert(i == bi);
                    assert(start <= x);
                }
            }
            bi = bi + 1;
        }
        let mut k: usize = 0;
        while k < range_size
            invariant
                low < high,
                range_size == high - low,
                flags.len() == range_size,
                k <= range_size,
                forall|m: int|
                    0 <= m < range_size ==> #[trigger] flags@[m] == !marked(basis, low + m),
                basis == self.basis(),
                increasing(out@),
                forall|m: int|
                    0 <= m < out.len() ==> low <= #[trigger] out@[m] < low + k && !marked(
                        basis,
                        out@[m] as int,
                    ),
                forall|x: int| low <= x < low + k && !marked(basis, x) ==> out@.contains(x as u32),
            decreases range_size - k,
        {
            let ghost before = out@;
            if flags[k] {
                out.push(low + k as u32);
                assert(out@[out.len() - 1] == low + k);
                assert forall|x: int| low <= x < low + k && !marked(basis, x) implies out@.contains(
                    x as u32,
                ) by {
                    let m = choose|m: int| 0 <= m < before.len() && before[m] == x as u32;
                    assert(out@[m] == x as u32);
                }
            }
            proof {
                assert forall|x: int| low <= x < low + k + 1 && !marked(basis, x) implies out@.contains(
                    x as u32,
                ) by {
                    if x == low + k {
                        assert(out@[out.len() - 1] == x as u32);
                    }
                }
            }
            k = k + 1;
        }
        out
    }

    /// The primes up to `limit`, in increasing order.
    fn simple_sieve(limit: u32) -> (r: Vec<u32>)
        requires
            limit < u32::MAX,
        ensures
            primes_up_to(r@, limit as int),
    {
        let mut out: Vec<u32> = Vec::new();
        if limit < 2 {
            assert forall|p: int| 2 <= p <= limit && is_prime(p) implies out@.contains(
                p as u32,
            ) by {}
            return out;
        }
        let size: usize = limit as usize + 1;
        let mut flags: Vec<bool> = Vec::new();
        while flags.len() < size
            invariant
                flags.len() <= size,
                size == limit + 1,
                forall|x: int| 0 <= x < flags.len() ==> #[trigger] flags@[x],
            decreases size - flags.len(),
        {
            flags.push(true);
        }
        flags.set(0, false);
        flags.set(1, false);
        let mut i: u64 = 2;
        loop
            invariant_except_break
                2 <= i <= 65536,
                limit < u32::MAX,
                flags.len() == size,
                size == limit + 1,
                forall|x: int|
                    0 <= x < size ==> #[trigger] flags@[x] == no_small_divisor(x, i as int),
            ensures
                2 <= i <= 65536,
                flags.len() == size,
                limit < i * i,
                forall|x: int|
                    0 <= x < size ==> #[trigger] flags@[x] == no_small_divisor(x, i as int),
            decreases limit + 1 - i,
        {
            assert(i * i <= 65536 * 65536) by (nonlinear_arith)
                requires
                    i <= 65536,
            ;
            if i * i > limit as u64 {
                break;
            }
            assert(i <= i * i) by (nonlinear_arith)
                requires
                    i >= 1,
            ;
            if flags[i as usize] {
                let mut j: u64 = i * i;
                proof {
                    vstd::arithmetic::div_mod::lemma_mod_multiples_basic(i as int, i as int);
                }
                while j <= limit as u64
                    invariant
                        2 <= i <= 65536,
                        i * i <= j,
                        j <= limit + i,
                        j % i == 0,
                        flags.len() == size,
                        size == limit + 1,
                        forall|x: int|
                            0 <= x < size ==> #[trigger] flags@[x] == (no_small_divisor(
                                x,
                                i as int,
                            ) && !(x % (i as int) == 0 && i * i <= x && x < j)),
                    decreases limit + i - j,
                {
                    let ghost j0 = j as int;
                    flags.set(j as usize, false);
                    proof {
                        vstd::arithmetic::div_mod::lemma_mod_multiples_vanish(1, j0, i as int);
                        assert forall|x: int| j0 < x < j0 + i implies #[trigger] (x % (i as int))
                            != 0 by {
                            vstd::arithmetic::div_mod::lemma_fundamental_div_mod(j0, i as int);
                            vstd::arithmetic::div_mod::lemma_fundamental_div_mod(x, i as int);
                            let a = j0 / (i as int);
                            let b = x / (i as int);
                            if x % (i as int) == 0 {
                                assert(false) by (nonlinear_arith)
                                    requires
                                        j0 == i * a,
                                        x == i * b,
                                        j0 < x < j0 + i,
                                        i > 0,
                                ;
                            }
                        }
                    }
                    j = j + i;
                }
                assert forall|x: int| 0 <= x < size implies #[trigger] flags@[x]
                    == no_small_divisor(x, i + 1) by {
                    if x % (i as int) == 0 && i * i <= x {
                        assert(!no_small_divisor(x, i + 1));
                    }
                    if no_small_divisor(x, i as int) && !(x % (i as int) == 0 && i * i <= x) {
                        assert forall|d: int| 2 <= d < i + 1 && #[trigger] (d * d) <= x implies x
                            % d != 0 by {
                            if d < i {
                            } else {
                                assert(d == i);
                            }
                        }
                    }
                }
            } else {
                assert forall|x: int| 0 <= x < size implies #[trigger] flags@[x]
                    == no_small_divisor(x, i + 1) by {
                    if no_small_divisor(x, i as int) && x % (i as int) == 0 && i * i <= x {
                        lemma_divisor_of_divisor(x, i as int);
                    }
                    if no_small_divisor(x, i as int) {
                        assert forall|d: int| 2 <= d < i + 1 && #[trigger] (d * d) <= x implies x
                            % d != 0 by {
                            if d == i {
                                if x % d == 0 {
                                    lemma_divisor_of_divisor(x, i as int);
                                }
                            }
                        }
                    }
                }
            }
            assert(i + 1 <= 65536) by (nonlinear_arith)
                requires
                    i * i <= limit,
                    limit < u32::MAX,
            ;
            i = i + 1;
        }
        let mut x: usize = 0;
        while x < size
            invariant
                x <= size,
                flags.len() == size,
                size == limit + 1,
                limit < u32::MAX,
                limit < i * i,
                forall|y: int| 0 <= y < size ==> #[trigger] flags@[y] == no_small_divisor(y, i as int),
                increasing(out@),
                forall|k: int|
                    0 <= k < out.len() ==> is_prime(#[trigger] out@[k] as int) && out@[k] < x,
                forall|p: int| 2 <= p < x && is_prime(p) ==> out@.contains(p as u32),
            decreases size - x,
        {
            let ghost before = out@;
            if flags[x] {
                proof {
                    lemma_no_small_divisor_is_prime(x as int, i as int);
                }
                out.push(x as u32);
                assert(out@[out.len() - 1] == x as u32);
                assert forall|p: int| 2 <= p < x && is_prime(p) implies out@.contains(p as u32) by {
                    let k = choose|k: int| 0 <= k < before.len() && before[k] == p as u32;
                    assert(out@[k] == p as u32);
                }
            } else {
                proof {
                    if x >= 2 {
                        lemma_no_small_divisor_is_prime(x as int, i as int);
                    }
                }
            }
            proof {
                assert forall|p: int| 2 <= p < x + 1 && is_prime(p) implies out@.contains(
                    p as u32,
                ) by {
                    if p == x {
                        assert(out@[out.len() - 1] == x as u32);
                    }
                }
            }
            x = x + 1;
        }
        out
    }
}

/// Within the range a composite `i` adds nothing: its multiples at or above
/// `i * i` already have a smaller divisor `d` with `d * d <= x`.
proof fn lemma_divisor_of_divisor(x: int, i: int)
    requires
        !no_small_divisor(i, i),
        i >= 2,
        x % i == 0,
        i * i <= x,
    ensures
        !no_small_divisor(x, i),
{
    let d = choose|d: int| 2 <= d < i && #[trigger] (d * d) <= i && i % d == 0;
    vstd::arithmetic::div_mod::lemma_fundamental_div_mod(x, i);
    vstd::arithmetic::div_mod::lemma_fundamental_div_mod(i, d);
    let a = x / i;
    let b = i / d;
    assert(x == d * (b * a)) by (nonlinear_arith)
        requires
            x == i * a,
            i == d * b,
    ;
    vstd::arithmetic::div_mod::lemma_mod_multiples_basic(b * a, d);
    assert(d * (b * a) == (b * a) * d) by (nonlinear_arith);
    assert(d * d <= x) by (nonlinear_arith)
        requires
            d * d <= i,
            i * i <= x,
            i >= 2,
    ;
    assert(x % d == 0);
}

/// The greatest `r >= 0` with `r * r <= n`.
pub open spec fn isqrt_spec(n: int) -> int {
    choose|r: int| 0 <= r && #[trigger] (r * r) <= n && n < (r + 1) * (r + 1)
}

pub proof fn lemma_isqrt_unique(n: int, r: int)
    requires
        0 <= r,
        r * r <= n,
        n < (r + 1) * (r + 1),
    ensures
        isqrt_spec(n) == r,
{
    let q = isqrt_spec(n);
    assert(0 <= q && q * q <= n && n < (q + 1) * (q + 1));
    if q < r {
        assert((q + 1) * (q + 1) <= r * r) by (nonlinear_arith)
            requires
                0 <= q < r,
        ;
    }
    if r < q {
        assert((r + 1) * (r + 1) <= q * q) by (nonlinear_arith)
            requires
                0 <= r < q,
        ;
    }
}

} // verus!
