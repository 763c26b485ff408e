//! Non-negative integers of any size, stored as little-endian 64-bit limbs.
//! Arithmetic is done by GMP through the `rug` crate.
use rug::integer::Order;
use rug::Integer;
use vstd::arithmetic::power::pow;
use vstd::arithmetic::power2::pow2;
use vstd::prelude::*;

verus! {

/// The value of little-endian base-2^64 digits.
pub open spec fn limbs_value(s: Seq<u64>) -> nat
    decreases s.len(),
{
    if s.len() == 0 {
        0
    } else {
        s[0] as nat + 0x1_0000_0000_0000_0000 * limbs_value(s.drop_first())
    }
}

/// A non-negative integer of any size.
#[derive(Debug)]
pub struct BigNat {
    limbs: Vec<u64>,
}

impl View for BigNat {
    type V = nat;

    closed spec fn view(&self) -> nat {
        limbs_value(self.limbs@)
    }
}

proof fn lemma_value_below(s: Seq<u64>)
    ensures
        limbs_value(s) < pow2(64 * s.len()),
    decreases s.len(),
{
    if s.len() == 0 {
        vstd::arithmetic::power2::lemma_pow2(0);
        vstd::arithmetic::power::lemma_pow0(2);
    } else {
        let rest = s.drop_first();
        lemma_value_below(rest);
        vstd::arithmetic::power2::lemma_pow2_adds(64, 64 * rest.len());
        vstd::arithmetic::power2::lemma2_to64();
        assert(64 * s.len() == 64 + 64 * rest.len());
        let a = limbs_value(rest);
        let b = pow2(64 * rest.len());
        assert(s[0] as nat + 0x1_0000_0000_0000_0000 * a < 0x1_0000_0000_0000_0000 * b)
            by (nonlinear_arith)
            requires
                a < b,
                s[0] < 0x1_0000_0000_0000_0000,
        ;
    }
}

proof fn lemma_pow2_monotone(a: nat, b: nat)
    requires
        pow2(a) < pow2(b),
    ensures
        a < b,
{
    if a >= b {
        if a > b {
            vstd::arithmetic::power2::lemma_pow2_strictly_increases(b, a);
        }
    }
}

impl PartialEq for BigNat {
    fn eq(&self, o: &BigNat) -> (r: bool)
        ensures
            r == (self@ == o@),
    {
        self.equals(o)
    }
}

impl vstd::std_specs::cmp::PartialEqSpecImpl for BigNat {
    open spec fn obeys_eq_spec() -> bool {
        true
    }

    open spec fn eq_spec(&self, o: &BigNat) -> bool {
        self@ == o@
    }
}

impl Eq for BigNat {

}

impl Clone for BigNat {
    fn clone(&self) -> (r: Self)
        ensures
            r@ == self@,
    {
        BigNat { limbs: self.limbs.clone() }
    }
}

impl BigNat {
    /// The value `v`.
    pub fn from_u64(v: u64) -> (r: BigNat)
        ensures
            r@ == v as nat,
    {
        let mut limbs: Vec<u64> = Vec::new();
        if v != 0 {
            limbs.push(v);
        }
        proof {
            if v != 0 {
                assert(limbs@.drop_first() =~= Seq::<u64>::empty());
                assert(limbs_value(limbs@.drop_first()) == 0);
                assert(limbs_value(limbs@) == v as nat + 0x1_0000_0000_0000_0000 * 0);
            } else {
                assert(limbs_value(limbs@) == 0);
            }
        }
        BigNat { limbs }
    }

    /// Relies on rug's `Integer::to_u64`: the value when it fits in a `u64`.
    #[verifier::external_body]
    fn gmp_to_u64(&self) -> (r: Option<u64>)
        ensures
            self@ <= u64::MAX ==> r == Some(self@ as u64),
            self@ > u64::MAX ==> r is None,
    {
        Integer::from_digits(&self.limbs, Order::Lsf).to_u64()
    }

    /// The value, when it fits in a `u64`.
    pub fn to_u64(&self) -> (r: Option<u64>)
        ensures
            self@ <= u64::MAX ==> r == Some(self@ as u64),
            self@ > u64::MAX ==> r is None,
    {
        self.gmp_to_u64()
    }

    /// Relies on rug's `Integer::is_even`.
    #[verifier::external_body]
    fn gmp_is_even(&self) -> (r: bool)
        ensures
            r == (self@ % 2 == 0),
    {
        Integer::from_digits(&self.limbs, Order::Lsf).is_even()
    }

    /// Whether the value is even.
    pub fn is_even(&self) -> (r: bool)
        ensures
            r == (self@ % 2 == 0),
    {
        self.gmp_is_even()
    }

    /// Relies on rug's `Integer + u64`.
    #[verifier::external_body]
    fn gmp_add_u64(&self, m: u64) -> (r: BigNat)
        ensures
            r@ == self@ + m,
    {
        let x = Integer::from_digits(&self.limbs, Order::Lsf) + m;
        BigNat { limbs: x.to_digits::<u64>(Order::Lsf) }
    }

    /// The value plus `m`.
    pub fn add_u64(&self, m: u64) -> (r: BigNat)
        ensures
            r@ == self@ + m,
    {
        self.gmp_add_u64(m)
    }

    /// Relies on rug's `Integer - u64`; the result stays non-negative.
    #[verifier::external_body]
    fn gmp_sub_u64(&self, m: u64) -> (r: BigNat)
        requires
            self@ >= m,
        ensures
            r@ == self@ - m,
    {
        let x = Integer::from_digits(&self.limbs, Order::Lsf) - m;
        BigNat { limbs: x.to_digits::<u64>(Order::Lsf) }
    }

    /// The value minus `m`.
    pub fn sub_u64(&self, m: u64) -> (r: BigNat)
        requires
            self@ >= m,
        ensures
            r@ == self@ - m,
    {
        self.gmp_sub_u64(m)
    }

    /// Relies on rug's `Integer * Integer`.
    #[verifier::external_body]
    fn gmp_mul(&self, o: &BigNat) -> (r: BigNat)
        ensures
            r@ == self@ * o@,
    {
        let x = Integer::from_digits(&self.limbs, Order::Lsf) * Integer::from_digits(
            &o.limbs,
            Order::Lsf,
        );
        BigNat { limbs: x.to_digits::<u64>(Order::Lsf) }
    }

    /// The product.
    pub fn mul(&self, o: &BigNat) -> (r: BigNat)
        ensures
            r@ == self@ * o@,
    {
        self.gmp_mul(o)
    }

    /// Relies on rug's `Integer % Integer`, which panics on a zero divisor.
    #[verifier::external_body]
    fn gmp_rem(&self, m: &BigNat) -> (r: BigNat)
        requires
            m@ > 0,
        ensures
            r@ == self@ % m@,
    {
        let x = Integer::from_digits(&self.limbs, Order::Lsf) % Integer::from_digits(
            &m.limbs,
            Order::Lsf,
        );
        BigNat { limbs: x.to_digits::<u64>(Order::Lsf) }
    }

    /// The remainder modulo `m`.
    pub fn rem(&self, m: &BigNat) -> (r: BigNat)
        requires
            m@ > 0,
        ensures
            r@ == self@ % m@,
    {
        self.gmp_rem(m)
    }

    /// Relies on rug's `Integer >> u32`: for a non-negative value, the floor of half.
    #[verifier::external_body]
    fn gmp_half(&self) -> (r: BigNat)
        ensures
            r@ == self@ / 2,
    {
        let x = Integer::from_digits(&self.limbs, Order::Lsf) >> 1u32;
        BigNat { limbs: x.to_digits::<u64>(Order::Lsf) }
    }

    /// Half the value, rounded down.
    pub fn half(&self) -> (r: BigNat)
        ensures
            r@ == self@ / 2,
    {
        self.gmp_half()
    }

    /// Relies on rug's `Integer::pow_mod`, which has an answer for every
    /// non-negative exponent and non-zero modulus.
    #[verifier::external_body]
    fn gmp_pow_mod(&self, e: &BigNat, m: &BigNat) -> (r: BigNat)
        requires
            m@ > 0,
        ensures
            r@ == pow(self@ as int, e@) % (m@ as int),
    {
        let b = Integer::from_digits(&self.limbs, Order::Lsf);
        let x = b.pow_mod(
            &Integer::from_digits(&e.limbs, Order::Lsf),
            &Integer::from_digits(&m.limbs, Order::Lsf),
        ).unwrap();
        BigNat { limbs: x.to_digits::<u64>(Order::Lsf) }
    }

    /// The value raised to `e`, modulo `m`.
    pub fn pow_mod(&self, e: &BigNat, m: &BigNat) -> (r: BigNat)
        requires
            m@ > 0,
        ensures
            r@ == pow(self@ as int, e@) % (m@ as int),
    {
        self.gmp_pow_mod(e, m)
    }

    /// Relies on rug's `Integer == Integer`.
    #[verifier::external_body]
    fn gmp_equals(&self, o: &BigNat) -> (r: bool)
        ensures
            r == (self@ == o@),
    {
        Integer::from_digits(&self.limbs, Order::Lsf) == Integer::from_digits(&o.limbs, Order::Lsf)
    }

    /// Whether the values are equal.
    pub fn equals(&self, o: &BigNat) -> (r: bool)
        ensures
            r == (self@ == o@),
    {
        self.gmp_equals(o)
    }

    /// Relies on rug's `Integer < Integer`.
    #[verifier::external_body]
    fn gmp_less_than(&self, o: &BigNat) -> (r: bool)
        ensures
            r == (self@ < o@),
    {
        Integer::from_digits(&self.limbs, Order::Lsf) < Integer::from_digits(&o.limbs, Order::Lsf)
    }

    /// Whether this value is smaller.
    pub fn less_than(&self, o: &BigNat) -> (r: bool)
        ensures
            r == (self@ < o@),
    {
        self.gmp_less_than(o)
    }

    /// Writes a positive value as `2^s * d` with `d` odd; returns `(s, d)`.
    pub fn split_twos(&self) -> (r: (u128, BigNat))
        requires
            self@ > 0,
        ensures
            pow2(r.0 as nat) * r.1@ == self@,
            r.1@ % 2 == 1,
    {
        let len = self.limbs.len();
        let mut d = self.clone();
        let mut s: u128 = 0;
        proof {
            lemma_value_below(self.limbs@);
            vstd::arithmetic::power2::lemma_pow2(0);
            vstd::arithmetic::power::lemma_pow0(2);
        }
        while d.is_even()
            invariant
                d@ > 0,
                pow2(s as nat) * d@ == self@,
                self@ < pow2(64 * len as nat),
                len == self.limbs@.len(),
                s <= 64 * len,
            decreases d@,
        {
            proof {
                vstd::arithmetic::power2::lemma_pow2_unfold((s + 1) as nat);
                let h = d@ / 2;
                assert(pow2((s + 1) as nat) * h == self@) by (nonlinear_arith)
                    requires
                        pow2((s + 1) as nat) == 2 * pow2(s as nat),
                        pow2(s as nat) * d@ == self@,
                        d@ == 2 * h,
                ;
                assert(pow2((s + 1) as nat) <= self@) by (nonlinear_arith)
                    requires
                        pow2((s + 1) as nat) * h == self@,
                        h >= 1,
                ;
                lemma_pow2_monotone((s + 1) as nat, 64 * len as nat);
            }
            d = d.half();
            s = s + 1;
        }
        (s, d)
    }
}

} // verus!
