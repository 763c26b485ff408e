//! The batch oracle: the smallest offset in a range whose sum with the
//! primorial of the first `n` primes passes the primality test.
use crate::arith::{is_prime, primorial_of};
use crate::bignat::BigNat;
use crate::calculators::accepted;
use crate::primality::MillerRabin;
use crate::sieve::{lemma_no_small_divisor_is_prime, no_small_divisor, primes_up_to};
use vstd::prelude::*;

verus! {

/// `s` lists the first `n` primes in increasing order.
pub open spec fn lists_first_primes(s: Seq<u32>, n: nat) -> bool {
    &&& s.len() == n
    &&& n > 0 ==> primes_up_to(s, s[n - 1] as int)
}

/// The first `n` primes, where they all fit in 32 bits.
pub open spec fn first_primes_spec(n: nat) -> Seq<u32> {
    choose|s: Seq<u32>| lists_first_primes(s, n)
}

/// Two lists of the first `n` primes are the same list.
pub proof fn lemma_first_primes_unique(s: Seq<u32>, t: Seq<u32>, n: nat)
    requires
        lists_first_primes(s, n),
        lists_first_primes(t, n),
    ensures
        s == t,
{
    if s != t {
        assert(exists|i: int| 0 <= i < n && s[i] != t[i]) by {
            if forall|i: int| 0 <= i < n ==> s[i] == t[i] {
                assert(s =~= t);
            }
        }
        let i0 = choose|i: int| 0 <= i < n && s[i] != t[i];
        let i = lemma_least_difference(s, t, n, i0);
        lemma_no_smaller_missing(s, t, n, i);
        lemma_no_smaller_missing(t, s, n, i);
    }
}

proof fn lemma_least_difference(s: Seq<u32>, t: Seq<u32>, n: nat, k: int) -> (i: int)
    requires
        s.len() == n,
        t.len() == n,
        0 <= k < n,
        s[k] != t[k],
    ensures
        0 <= i <= k,
        s[i] != t[i],
        forall|j: int| 0 <= j < i ==> s[j] == t[j],
    decreases k,
{
    if exists|j: int| 0 <= j < k && s[j] != t[j] {
        let j = choose|j: int| 0 <= j < k && s[j] != t[j];
        lemma_least_difference(s, t, n, j)
    } else {
        k
    }
}

proof fn lemma_no_smaller_missing(s: Seq<u32>, t: Seq<u32>, n: nat, i: int)
    requires
        lists_first_primes(s, n),
        lists_first_primes(t, n),
        0 <= i < n,
        forall|j: int| 0 <= j < i ==> s[j] == t[j],
    ensures
        !(s[i] < t[i]),
{
    if s[i] < t[i] {
        lemma_smaller_entry_is_listed(s, t, n, i);
    }
}

proof fn lemma_smaller_entry_is_listed(s: Seq<u32>, t: Seq<u32>, n: nat, i: int)
    requires
        lists_first_primes(s, n),
        lists_first_primes(t, n),
        0 <= i < n,
        s[i] < t[i],
        forall|j: int| 0 <= j < i ==> s[j] == t[j],
    ensures
        s[i] >= t[i],
{
    let p = s[i] as int;
    assert(is_prime(p));
    assert(t[i] <= t[n - 1]) by {
        if i < n - 1 {
            assert(t[i] < t[n - 1]);
        }
    }
    assert(t.contains(p as u32));
    let j = choose|j: int| 0 <= j < t.len() && t[j] == p as u32;
    if j < i {
        assert(s[j] == t[j]);
        assert(s[j] < s[i]);
    } else if j > i {
        assert(t[i] < t[j]);
    }
}

/// Whether `x` is prime, by trial division.
fn is_prime_u32(x: u32) -> (r: bool)
    ensures
        r == is_prime(x as int),
{
    if x < 2 {
        return false;
    }
    let mut d: u64 = 2;
    loop
        invariant_except_break
            2 <= d <= 65536,
            x >= 2,
            forall|e: int| 2 <= e < d && #[trigger] (e * e) <= x ==> (x as int) % e != 0,
        ensures
            2 <= d <= 65536,
            x >= 2,
            forall|e: int| 2 <= e < d && #[trigger] (e * e) <= x ==> (x as int) % e != 0,
            x < d * d,
        decreases x + 1 - d,
    {
        assert(d * d <= 65536 * 65536) by (nonlinear_arith)
            requires
                d <= 65536,
        ;
        if d * d > x as u64 {
            break;
        }
        if x as u64 % d == 0 {
            proof {
                if is_prime(x as int) {
                    assert(d < x) by (nonlinear_arith)
                        requires
                            d >= 2,
                            d * d <= x,
                    ;
                    assert((x as int) % (d as int) != 0);
                }
            }
            return false;
        }
        assert(d + 1 <= 65536 && d <= x) by (nonlinear_arith)
            requires
                d * d <= x,
                x <= u32::MAX,
                d >= 2,
        ;
        d = d + 1;
    }
    proof {
        assert(no_small_divisor(x as int, d as int));
        lemma_no_small_divisor_is_prime(x as int, d as int);
    }
    true
}

/// The first `n` primes, by trial division; `None` when fewer than `n`
/// primes fit in 32 bits.
pub fn first_primes(n: usize) -> (r: Option<Vec<u32>>)
    ensures
        r is Some ==> lists_first_primes(r->Some_0@, n as nat),
        r is None ==> exists|s: Seq<u32>| primes_up_to(s, u32::MAX as int) && s.len() < n,
{
    let mut out: Vec<u32> = Vec::new();
    let mut x: u64 = 2;
    while out.len() < n
        invariant
            2 <= x <= u32::MAX as int + 1,
            out.len() <= n,
            primes_up_to(out@, x - 1),
            out.len() > 0 ==> out@[out.len() - 1] == x - 1 || out@[out.len() - 1] < x - 1,
        decreases u32::MAX as int + 1 - x, n - out.len(),
    {
        if x > u32::MAX as u64 {
            return None;
        }
        let ghost before = out@;
        if is_prime_u32(x as u32) {
            out.push(x as u32);
            assert(out@[out.len() - 1] == x);
            assert forall|p: int| 2 <= p <= x && is_prime(p) implies out@.contains(p as u32) by {
                if p < x {
                    let k = choose|k: int| 0 <= k < before.len() && before[k] == p as u32;
                    assert(out@[k] == p as u32);
                }
            }
        }
        x = x + 1;
    }
    proof {
        if n > 0 {
            assert forall|p: int| 2 <= p <= out@[n - 1] && is_prime(p) implies out@.contains(
                p as u32,
            ) by {}
        }
    }
    Some(out)
}

/// The batch outcome over `[max(start, 2), end]`: the smallest offset there
/// whose sum with `base` is accepted, or none.
pub open spec fn range_outcome(rounds: nat, base: nat, start: u64, end: u64, r: Option<u64>) -> bool {
    let lo = if start < 2 {
        2
    } else {
        start as int
    };
    match r {
        Some(m) => lo <= m <= end && accepted(rounds, base, m as int) && forall|k: int|
            lo <= k < m ==> !#[trigger] accepted(rounds, base, k),
        None => forall|k: int| lo <= k <= end ==> !#[trigger] accepted(rounds, base, k),
    }
}

/// Searches `[max(start, 2), end]` for the smallest offset `m` such that the
/// product of the first `n` primes plus `m` passes the standard Miller-Rabin
/// test. Fails only when the first `n` primes do not all fit in 32 bits.
pub fn search_range(n: usize, start: u64, end: u64) -> (r: Result<Option<u64>, String>)
    ensures
        r is Ok ==> lists_first_primes(first_primes_spec(n as nat), n as nat) && range_outcome(
            40,
            primorial_of(first_primes_spec(n as nat), n as nat),
            start,
            end,
            r->Ok_0,
        ),
        r is Err ==> exists|s: Seq<u32>| primes_up_to(s, u32::MAX as int) && s.len() < n,
{
    let primes = match first_primes(n) {
        Some(p) => p,
        None => {
            return Err(String::from_str("the first n primes do not all fit in 32 bits"));
        },
    };
    proof {
        assert(lists_first_primes(primes@, n as nat));
        assert(lists_first_primes(first_primes_spec(n as nat), n as nat));
        lemma_first_primes_unique(primes@, first_primes_spec(n as nat), n as nat);
    }
    let mut base = BigNat::from_u64(1);
    let mut i: usize = 0;
    while i < n
        invariant
            i <= n,
            primes@.len() == n,
            base@ == primorial_of(primes@, i as nat),
        decreases n - i,
    {
        base = base.mul(&BigNat::from_u64(primes[i] as u64));
        i = i + 1;
    }
    let tester = MillerRabin::with_default_rounds();
    let lo: u64 = if start < 2 {
        2
    } else {
        start
    };
    if lo > end {
        return Ok(None);
    }
    let mut m: u64 = lo;
    loop
        invariant
            lo <= m <= end,
            lo == (if start < 2 {
                2
            } else {
                start
            }),
            tester.rounds == 40,
            base@ == primorial_of(first_primes_spec(n as nat), n as nat),
            lists_first_primes(first_primes_spec(n as nat), n as nat),
            forall|k: int| lo <= k < m ==> !#[trigger] accepted(40, base@, k),
        decreases end - m,
    {
        if tester.accepts_offset(&base, m) {
            return Ok(Some(m));
        }
        if m == end {
            return Ok(None);
        }
        m = m + 1;
    }
}

/// An ASCII whitespace byte: space, tab, line feed, vertical tab, form feed
/// or carriage return.
pub open spec fn is_space(b: u8) -> bool {
    b == 32 || (9 <= b && b <= 13)
}

/// `s` without its leading whitespace.
pub open spec fn trim_start(s: Seq<u8>) -> Seq<u8>
    decreases s.len(),
{
    if s.len() > 0 && is_space(s[0]) {
        trim_start(s.drop_first())
    } else {
        s
    }
}

/// `s` without its trailing whitespace.
pub open spec fn trim_end(s: Seq<u8>) -> Seq<u8>
    decreases s.len(),
{
    if s.len() > 0 && is_space(s.last()) {
        trim_end(s.drop_last())
    } else {
        s
    }
}

/// Every byte of `s` is an ASCII decimal digit.
pub open spec fn all_digits(s: Seq<u8>) -> bool {
    forall|i: int| 0 <= i < s.len() ==> 48 <= #[trigger] s[i] <= 57
}

/// The number the decimal digits `s` spell.
pub open spec fn digits_value(s: Seq<u8>) -> nat
    decreases s.len(),
{
    if s.len() == 0 {
        0
    } else {
        digits_value(s.drop_last()) * 10 + (s.last() - 48) as nat
    }
}

/// What the oracle's output says, once surrounding whitespace is removed:
/// nothing means no hit (`Some(None)`); one unsigned decimal integer that
/// fits in a `u64`, optionally after a `+`, is the hit; anything else cannot
/// be read (`None`).
pub open spec fn oracle_reading(out: Seq<u8>) -> Option<Option<nat>> {
    let t = trim_end(trim_start(out));
    let d = if t.len() > 0 && t[0] == 43 {
        t.drop_first()
    } else {
        t
    };
    if t.len() == 0 {
        Some(None)
    } else if d.len() > 0 && all_digits(d) && digits_value(d) <= u64::MAX {
        Some(Some(digits_value(d)))
    } else {
        None
    }
}

proof fn lemma_digits_grow(s: Seq<u8>, i: int, j: int)
    requires
        0 <= i <= j <= s.len(),
    ensures
        digits_value(s.subrange(0, i)) <= digits_value(s.subrange(0, j)),
    decreases j - i,
{
    if i < j {
        lemma_digits_grow(s, i, j - 1);
        assert(s.subrange(0, j).drop_last() =~= s.subrange(0, j - 1));
    }
}

/// Reads the oracle's standard output: `Ok(None)` when it holds only
/// whitespace, `Ok(Some(m))` when it holds the one integer `m`, and an error
/// when it holds anything else.
pub fn parse_oracle_output(out: &Vec<u8>) -> (r: Result<Option<u64>, String>)
    ensures
        oracle_reading(out@) == Some(None::<nat>) ==> r == Ok::<Option<u64>, String>(None),
        oracle_reading(out@) matches Some(Some(v)) ==> r == Ok::<Option<u64>, String>(
            Some(v as u64),
        ),
        oracle_reading(out@) is None ==> r is Err,
{
    let len = out.len();
    let ghost s = out@;
    let mut lo: usize = 0;
    assert(s.subrange(0, len as int) =~= s);
    while lo < len && (out[lo] == 32 || (9 <= out[lo] && out[lo] <= 13))
        invariant
            lo <= len,
            len == s.len(),
            s == out@,
            trim_start(s) == trim_start(s.subrange(lo as int, len as int)),
        decreases len - lo,
    {
        assert(s.subrange(lo as int, len as int).drop_first() =~= s.subrange(lo + 1, len as int));
        lo = lo + 1;
    }
    assert(trim_start(s) == s.subrange(lo as int, len as int));
    let mut hi: usize = len;
    while hi > lo && (out[hi - 1] == 32 || (9 <= out[hi - 1] && out[hi - 1] <= 13))
        invariant
            lo <= hi <= len,
            len == s.len(),
            s == out@,
            trim_end(s.subrange(lo as int, len as int)) == trim_end(
                s.subrange(lo as int, hi as int),
            ),
        decreases hi,
    {
        assert(s.subrange(lo as int, hi as int).drop_last() =~= s.subrange(lo as int, hi - 1));
        hi = hi - 1;
    }
    let ghost t = s.subrange(lo as int, hi as int);
    assert(trim_end(trim_start(s)) == t);
    if lo == hi {
        return Ok(None);
    }
    let start: usize = if out[lo] == 43 {
        lo + 1
    } else {
        lo
    };
    let ghost d = s.subrange(start as int, hi as int);
    assert(d =~= (if t.len() > 0 && t[0] == 43 {
        t.drop_first()
    } else {
        t
    }));
    if start == hi {
        assert(t.len() > 0 && d.len() == 0);
        assert(oracle_reading(out@) is None);
        return Err(String::from_str("the oracle's output is not one unsigned integer"));
    }
    assert(oracle_reading(s) == (if all_digits(d) && digits_value(d) <= u64::MAX {
        Some(Some(digits_value(d)))
    } else {
        None::<Option<nat>>
    }));
    let mut v: u64 = 0;
    let mut j: usize = start;
    assert(d.subrange(0, 0) =~= Seq::<u8>::empty());
    while j < hi
        invariant
            oracle_reading(s) == (if all_digits(d) && digits_value(d) <= u64::MAX {
                Some(Some(digits_value(d)))
            } else {
                None::<Option<nat>>
            }),
            start <= j <= hi,
            hi <= len,
            len == s.len(),
            s == out@,
            d == s.subrange(start as int, hi as int),
            all_digits(d.subrange(0, j - start)),
            v == digits_value(d.subrange(0, j - start)),
        decreases hi - j,
    {
        let b = out[j];
        if b < 48 || b > 57 {
            assert(d[j - start] == b);
            return Err(String::from_str("the oracle's output is not one unsigned integer"));
        }
        let w: u128 = v as u128 * 10 + (b - 48) as u128;
        let ghost next = d.subrange(0, j - start + 1);
        assert(next.drop_last() =~= d.subrange(0, j - start));
        assert(next.last() == b);
        assert(digits_value(next) == w);
        if w > u64::MAX as u128 {
            proof {
                if all_digits(d) {
                    lemma_digits_grow(d, j - start + 1, d.len() as int);
                    assert(d.subrange(0, d.len() as int) =~= d);
                }
            }
            return Err(String::from_str("the oracle's output is not one unsigned integer"));
        }
        v = w as u64;
        j = j + 1;
        assert(all_digits(d.subrange(0, j - start))) by {
            assert forall|k: int| 0 <= k < j - start implies 48 <= #[trigger] d.subrange(
                0,
                j - start,
            )[k] <= 57 by {
                if k < j - start - 1 {
                    assert(d.subrange(0, j - start)[k] == d.subrange(0, j - start - 1)[k]);
                }
            }
        }
    }
    assert(d.subrange(0, j - start) =~= d);
    Ok(Some(v))
}

} // verus!
