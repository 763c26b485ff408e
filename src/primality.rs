//! The Miller-Rabin test over a fixed list of witness bases.
use crate::arith::{lemma_mod_keeps_factor, lemma_product_keeps_factor};
use crate::bignat::BigNat;
use crate::PrimalityTest;
use vstd::arithmetic::power::pow;
use vstd::arithmetic::power2::pow2;
use vstd::prelude::*;

verus! {

/// The witness bases, in the order they are tried: the first twelve primes.
pub open spec fn witness(i: int) -> nat {
    if i == 0 {
        2
    } else if i == 1 {
        3
    } else if i == 2 {
        5
    } else if i == 3 {
        7
    } else if i == 4 {
        11
    } else if i == 5 {
        13
    } else if i == 6 {
        17
    } else if i == 7 {
        19
    } else if i == 8 {
        23
    } else if i == 9 {
        29
    } else if i == 10 {
        31
    } else {
        37
    }
}

/// How many witnesses `rounds` asks for: never more than the twelve known.
pub open spec fn witness_count(rounds: nat) -> nat {
    if rounds < 12 {
        rounds
    } else {
        12
    }
}

/// The odd part of `x`: `x` divided by its largest power of two.
pub open spec fn odd_part(x: nat) -> nat
    decreases x,
{
    if x > 0 && x % 2 == 0 {
        odd_part(x / 2)
    } else {
        x
    }
}

/// The exponent of the largest power of two dividing `x` (0 for `x == 0`).
pub open spec fn twos(x: nat) -> nat
    decreases x,
{
    if x > 0 && x % 2 == 0 {
        1 + twos(x / 2)
    } else {
        0
    }
}

/// `y` squared `j` times modulo `n`.
pub open spec fn square_chain(y: nat, n: nat, j: nat) -> nat
    decreases j,
{
    if j == 0 || n == 0 {
        y
    } else {
        let z = square_chain(y, n, (j - 1) as nat);
        ((z * z) % n) as nat
    }
}

/// Base `a` does not prove the odd number `n > 3` composite: `a >= n`, or
/// with `n - 1 = 2^s * d`, `a^d` is 1 or `n - 1` modulo `n`, or one of the
/// next `s - 1` squarings reaches `n - 1`.
pub open spec fn witness_passes(a: nat, n: nat) -> bool {
    a >= n || {
        let y = (pow(a as int, odd_part((n - 1) as nat)) % (n as int)) as nat;
        ||| y == 1
        ||| y == n - 1
        ||| exists|j: nat| 1 <= j < twos((n - 1) as nat) && #[trigger] square_chain(y, n, j) == n - 1
    }
}

/// The verdict of the Miller-Rabin test with `rounds` rounds on `n`.
pub open spec fn mr_accepts(rounds: nat, n: nat) -> bool {
    if n <= 1 {
        false
    } else if n == 2 || n == 3 {
        true
    } else if n % 2 == 0 {
        false
    } else {
        forall|i: int| 0 <= i < witness_count(rounds) ==> witness_passes(#[trigger] witness(i), n)
    }
}

proof fn lemma_split_is_unique(x: nat, s: nat, d: nat)
    requires
        x > 0,
        pow2(s) * d == x,
        d % 2 == 1,
    ensures
        odd_part(x) == d,
        twos(x) == s,
    decreases s,
{
    if s == 0 {
        vstd::arithmetic::power2::lemma_pow2(0);
        vstd::arithmetic::power::lemma_pow0(2);
        assert(x == d);
    } else {
        vstd::arithmetic::power2::lemma_pow2_unfold(s);
        let h = pow2((s - 1) as nat) * d;
        assert(x == 2 * h) by (nonlinear_arith)
            requires
                pow2(s) == 2 * pow2((s - 1) as nat),
                pow2(s) * d == x,
                h == pow2((s - 1) as nat) * d,
        ;
        assert(h > 0);
        lemma_split_is_unique(h, (s - 1) as nat, d);
    }
}

proof fn lemma_chain_keeps_factor(q: nat, y: nat, n: nat, j: nat)
    requires
        q > 0,
        n > 0,
        y % q == 0,
        n % q == 0,
    ensures
        square_chain(y, n, j) % q == 0,
    decreases j,
{
    if j > 0 {
        let z = square_chain(y, n, (j - 1) as nat);
        lemma_chain_keeps_factor(q, y, n, (j - 1) as nat);
        lemma_product_keeps_factor(q as int, z as int, z as int);
        assert(z * z >= 0) by (nonlinear_arith);
        lemma_mod_keeps_factor(q as int, (z * z) as int, n as int);
    }
}

/// A base that divides the odd number `n > 3` (and is smaller) proves it composite.
pub proof fn lemma_factor_fails_witness(q: nat, n: nat)
    requires
        2 <= q < n,
        n % q == 0,
        n % 2 == 1,
    ensures
        !witness_passes(q, n),
{
    let x = (n - 1) as nat;
    let d = odd_part(x);
    assert(d >= 1) by {
        lemma_odd_part_positive(x);
    }
    let p = pow(q as int, d);
    assert(p % (q as int) == 0) by {
        reveal(pow);
        vstd::arithmetic::power::lemma_pow_positive(q as int, (d - 1) as nat);
        vstd::arithmetic::div_mod::lemma_mod_multiples_basic(pow(q as int, (d - 1) as nat), q as int);
        assert(p == (q as int) * pow(q as int, (d - 1) as nat));
        assert(pow(q as int, (d - 1) as nat) * (q as int) == (q as int) * pow(q as int, (d - 1) as nat))
            by (nonlinear_arith);
    }
    vstd::arithmetic::power::lemma_pow_positive(q as int, d);
    lemma_mod_keeps_factor(q as int, p, n as int);
    let y = (p % (n as int)) as nat;
    assert(y % q == 0);
    let k = n / q;
    assert(n == q * k) by {
        vstd::arithmetic::div_mod::lemma_fundamental_div_mod(n as int, q as int);
    }
    assert((n - 1) as int == q * (k - 1) + (q - 1)) by (nonlinear_arith)
        requires
            n == q * k,
    ;
    assert(((q * (k - 1) + (q - 1)) as int) % (q as int) == (q - 1) as int % (q as int)) by {
        vstd::arithmetic::div_mod::lemma_mod_multiples_vanish((k - 1) as int, (q - 1) as int, q as int);
    }
    vstd::arithmetic::div_mod::lemma_small_mod((q - 1) as nat, q);
    vstd::arithmetic::div_mod::lemma_small_mod(1, q);
    assert(((n - 1) as int) % (q as int) == q - 1);
    assert(y != 1);
    assert(y != n - 1);
    assert forall|j: nat| 1 <= j < twos(x) implies #[trigger] square_chain(y, n, j) != n - 1 by {
        lemma_chain_keeps_factor(q, y, n, j);
    }
}

proof fn lemma_odd_part_positive(x: nat)
    requires
        x > 0,
    ensures
        odd_part(x) >= 1,
    decreases x,
{
    if x % 2 == 0 {
        lemma_odd_part_positive(x / 2);
    }
}

/// A number above one of the used witness bases and divisible by it is rejected.
pub proof fn lemma_factor_rejected(rounds: nat, n: nat, i: int)
    requires
        0 <= i < witness_count(rounds),
        n > witness(i),
        n % witness(i) == 0,
    ensures
        !mr_accepts(rounds, n),
{
    let q = witness(i);
    if n % 2 == 1 {
        assert(q != 2);
        lemma_factor_fails_witness(q, n);
    }
}

/// The test accepts 3, 5 and 11 whatever the number of rounds.
pub proof fn lemma_small_primes_accepted(rounds: nat)
    ensures
        mr_accepts(rounds, 3),
        mr_accepts(rounds, 5),
        mr_accepts(rounds, 11),
{
    assert(odd_part(4) == 1 && twos(4) == 2) by {
        reveal_with_fuel(odd_part, 3);
        reveal_with_fuel(twos, 3);
    }
    assert(odd_part(10) == 5 && twos(10) == 1) by {
        reveal_with_fuel(odd_part, 2);
        reveal_with_fuel(twos, 2);
    }
    assert(pow(2, 1) == 2 && pow(3, 1) == 3) by {
        reveal_with_fuel(pow, 2);
    }
    assert(pow(2, 5) == 32 && pow(3, 5) == 243 && pow(5, 5) == 3125 && pow(7, 5) == 16807) by {
        reveal_with_fuel(pow, 6);
    }
    assert(square_chain(2, 5, 1) == 4 && square_chain(3, 5, 1) == 4) by {
        reveal_with_fuel(square_chain, 2);
        assert(square_chain(2, 5, 0) == 2 && square_chain(3, 5, 0) == 3);
        assert((2 * 2) % 5 == 4 && (3 * 3) % 5 == 4) by (nonlinear_arith);
    }
    assert forall|i: int| 0 <= i < witness_count(rounds) implies witness_passes(
        #[trigger] witness(i),
        5,
    ) by {
        if i == 0 {
            assert(square_chain(2, 5, 1) == 5 - 1);
        } else if i == 1 {
            assert(square_chain(3, 5, 1) == 5 - 1);
        }
    }
    assert forall|i: int| 0 <= i < witness_count(rounds) implies witness_passes(
        #[trigger] witness(i),
        11,
    ) by {}
}

/// The Miller-Rabin primality test. `rounds` is how many of the twelve
/// witness bases 2, 3, 5, ..., 37 are tried.
#[derive(Clone, Copy)]
pub struct MillerRabin {
    pub rounds: usize,
}

fn witness_at(i: usize) -> (r: u64)
    ensures
        r == witness(i as int),
{
    match i {
        0 => 2,
        1 => 3,
        2 => 5,
        3 => 7,
        4 => 11,
        5 => 13,
        6 => 17,
        7 => 19,
        8 => 23,
        9 => 29,
        10 => 31,
        _ => 37,
    }
}

impl MillerRabin {
    /// A tester with the given number of rounds.
    pub fn new(rounds: usize) -> (r: MillerRabin)
        ensures
            r.rounds == rounds,
    {
        MillerRabin { rounds }
    }

    /// The standard preset: 40 rounds.
    pub fn with_default_rounds() -> (r: MillerRabin)
        ensures
            r.rounds == 40,
    {
        MillerRabin::new(40)
    }

    /// The fast preset: 20 rounds.
    pub fn fast() -> (r: MillerRabin)
        ensures
            r.rounds == 20,
    {
        MillerRabin::new(20)
    }

    /// The thorough preset: 64 rounds.
    pub fn thorough() -> (r: MillerRabin)
        ensures
            r.rounds == 64,
    {
        MillerRabin::new(64)
    }

    /// Whether the tester with this many rounds accepts `n` as prime.
    pub open spec fn accepts(&self, n: nat) -> bool {
        mr_accepts(self.rounds as nat, n)
    }

    /// Checks one base against odd `n > 3`, where `n - 1 = 2^s * d`.
    fn base_passes(a: u64, n: &BigNat, n_minus_1: &BigNat, s: u128, d: &BigNat) -> (r: bool)
        requires
            n@ > 3,
            n@ % 2 == 1,
            n_minus_1@ == n@ - 1,
            s == twos((n@ - 1) as nat),
            d@ == odd_part((n@ - 1) as nat),
        ensures
            r == witness_passes(a as nat, n@),
    {
        let base = BigNat::from_u64(a);
        if !base.less_than(n) {
            return true;
        }
        let one = BigNat::from_u64(1);
        let mut x = base.pow_mod(d, n);
        let ghost y = x@;
        if x.equals(&one) || x.equals(n_minus_1) {
            return true;
        }
        let mut j: u128 = 1;
        while j < s
            invariant
                1 <= j,
                n@ > 3,
                n_minus_1@ == n@ - 1,
                s == twos((n@ - 1) as nat),
                y == (pow(a as int, odd_part((n@ - 1) as nat)) % (n@ as int)) as nat,
                x@ == square_chain(y, n@, (j - 1) as nat),
                forall|k: nat| 1 <= k < j ==> #[trigger] square_chain(y, n@, k) != n@ - 1,
            decreases s - j,
        {
            let sq = x.mul(&x);
            x = sq.rem(n);
            assert(x@ == square_chain(y, n@, j as nat));
            if x.equals(n_minus_1) {
                return true;
            }
            j = j + 1;
        }
        assert forall|k: nat| 1 <= k < twos((n@ - 1) as nat) implies #[trigger] square_chain(
            y,
            n@,
            k,
        ) != n@ - 1 by {}
        false
    }
}

impl PrimalityTest for MillerRabin {
    /// Runs the test; the verdict is exactly `mr_accepts(rounds, n)`.
    fn is_prime(&self, n: &BigNat) -> (r: bool)
        ensures
            r == mr_accepts(self.rounds as nat, n@),
    {
        match n.to_u64() {
            Some(v) => {
                if v <= 1 {
                    return false;
                }
                if v == 2 || v == 3 {
                    return true;
                }
            },
            None => {},
        }
        if n.is_even() {
            return false;
        }
        let n_minus_1 = n.sub_u64(1);
        let (s, d) = n_minus_1.split_twos();
        proof {
            lemma_split_is_unique((n@ - 1) as nat, s as nat, d@);
        }
        let count: usize = if self.rounds < 12 {
            self.rounds
        } else {
            12
        };
        let mut i: usize = 0;
        while i < count
            invariant
                count == witness_count(self.rounds as nat),
                i <= count,
                n@ > 3,
                n@ % 2 == 1,
                n_minus_1@ == n@ - 1,
                s == twos((n@ - 1) as nat),
                d@ == odd_part((n@ - 1) as nat),
                forall|k: int| 0 <= k < i ==> witness_passes(#[trigger] witness(k), n@),
            decreases count - i,
        {
            let a = witness_at(i);
            if !MillerRabin::base_passes(a, n, &n_minus_1, s, &d) {
                return false;
            }
            i = i + 1;
        }
        true
    }

    fn name(&self) -> (r: &'static str)
        ensures
            r@ == "Miller-Rabin"@,
    {
        "Miller-Rabin"
    }
}

} // verus!
