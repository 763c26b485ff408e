//! The 2-3-5 wheel: candidates 2, 3, 5 and then every integer coprime to 30.
use vstd::prelude::*;

verus! {

/// `x` is kept by the wheel: one of its base primes 2, 3, 5, or a number
/// of at least 7 that none of them divides.
pub open spec fn wheel_candidate(x: int) -> bool {
    x == 2 || x == 3 || x == 5 || (x >= 7 && x % 2 != 0 && x % 3 != 0 && x % 5 != 0)
}

/// The residues modulo 30 that are coprime to 30.
pub open spec fn wheel_offsets() -> Seq<u32> {
    seq![1, 7, 11, 13, 17, 19, 23, 29]
}

proof fn lemma_residue(x: int)
    requires
        x >= 0,
    ensures
        (x % 2 != 0 && x % 3 != 0 && x % 5 != 0) <==> wheel_offsets().contains((x % 30) as u32),
{
    let r = x % 30;
    let q = x / 30;
    vstd::arithmetic::div_mod::lemma_fundamental_div_mod(x, 30);
    assert(x == 2 * (15 * q) + r && x == 3 * (10 * q) + r && x == 5 * (6 * q) + r);
    vstd::arithmetic::div_mod::lemma_mod_multiples_vanish(15 * q, r, 2);
    vstd::arithmetic::div_mod::lemma_mod_multiples_vanish(10 * q, r, 3);
    vstd::arithmetic::div_mod::lemma_mod_multiples_vanish(6 * q, r, 5);
    assert(0 <= r < 30);
    let offs = wheel_offsets();
    if wheel_offsets().contains(r as u32) {
        let i = choose|i: int| 0 <= i < offs.len() && offs[i] == r as u32;
        assert(r % 2 != 0 && r % 3 != 0 && r % 5 != 0);
    }
    if r % 2 != 0 && r % 3 != 0 && r % 5 != 0 {
        assert(r == 1 || r == 7 || r == 11 || r == 13 || r == 17 || r == 19 || r == 23 || r
            == 29);
        if r == 1 {
            assert(offs[0] == r as u32);
        } else if r == 7 {
            assert(offs[1] == r as u32);
        } else if r == 11 {
            assert(offs[2] == r as u32);
        } else if r == 13 {
            assert(offs[3] == r as u32);
        } else if r == 17 {
            assert(offs[4] == r as u32);
        } else if r == 19 {
            assert(offs[5] == r as u32);
        } else if r == 23 {
            assert(offs[6] == r as u32);
        } else {
            assert(offs[7] == r as u32);
        }
    }
}

/// The 2-3-5 wheel with period 30.
pub struct WheelFactorization {
    wheel_size: u32,
    offsets: Vec<u32>,
}

impl WheelFactorization {
    /// Its offsets are the residues coprime to 30.
    pub closed spec fn wf(&self) -> bool {
        self.wheel_size == 30 && self.offsets@ == wheel_offsets()
    }

    /// The 2-3-5 wheel.
    pub fn new() -> (r: WheelFactorization)
        ensures
            r.wf(),
    {
        let offsets: Vec<u32> = vec![1, 7, 11, 13, 17, 19, 23, 29];
        assert(offsets@ == wheel_offsets());
        WheelFactorization { wheel_size: 30, offsets }
    }

    /// The wheel's candidates in `[2, max]`, from the smallest.
    pub fn candidates_up_to(&self, max: u32) -> (r: WheelIterator)
        requires
            self.wf(),
    ensures
            r.wf(),
            r.max() == max,
            r.last() == 1,
    {
        WheelIterator {
            max,
            wheel_size: self.wheel_size,
            offsets: self.offsets.clone(),
            current_wheel: 0,
            offset_idx: 1,
            base_idx: 0,
            last: Ghost(1),
        }
    }
}

impl Default for WheelFactorization {
    fn default() -> (r: WheelFactorization)
        ensures
            r.wf(),
    {
        WheelFactorization::new()
    }
}

/// Walks the wheel's candidates up to a ceiling in increasing order.
pub struct WheelIterator {
    max: u32,
    wheel_size: u32,
    offsets: Vec<u32>,
    current_wheel: u32,
    offset_idx: usize,
    base_idx: usize,
    last: Ghost<int>,
}

/// The base primes 2, 3, 5 by position.
spec fn base_prime(i: int) -> int {
    if i == 0 {
        2
    } else if i == 1 {
        3
    } else {
        5
    }
}

impl WheelIterator {
    /// The ceiling.
    pub closed spec fn max(&self) -> int {
        self.max as int
    }

    /// The candidate handed out last (1 before the first).
    pub closed spec fn last(&self) -> int {
        self.last@
    }

    /// The candidate the iterator will consider next.
    closed spec fn pending(&self) -> int {
        if self.base_idx < 3 {
            base_prime(self.base_idx as int)
        } else {
            30 * self.current_wheel + self.offsets@[self.offset_idx as int]
        }
    }

    /// The position is consistent: no candidate lies between the last one
    /// handed out and the pending one.
    pub closed spec fn wf(&self) -> bool {
        &&& self.wheel_size == 30
        &&& self.offsets@ == wheel_offsets()
        &&& self.base_idx <= 3
        &&& self.offset_idx < 8
        &&& (self.base_idx < 3 ==> self.current_wheel == 0 && self.offset_idx == 1)
        &&& self.last@ >= 1
        &&& self.last@ < self.pending()
        &&& wheel_candidate(self.pending())
        &&& self.pending() >= 2
        &&& forall|x: int| self.last@ < x < self.pending() ==> !wheel_candidate(x)
    }

    /// The next candidate after `last()` up to the ceiling, if any.
    pub fn next(&mut self) -> (r: Option<u32>)
        requires
            old(self).wf(),
        ensures
            final(self).wf(),
            final(self).max() == old(self).max(),
            match r {
                Some(c) => {
                    &&& old(self).last() < c <= old(self).max()
                    &&& wheel_candidate(c as int)
                    &&& forall|x: int| old(self).last() < x < c ==> !wheel_candidate(x)
                    &&& final(self).last() == c
                },
                None => forall|x: int|
                    old(self).last() < x <= old(self).max() ==> !wheel_candidate(x),
            },
            r is None ==> final(self).last() == old(self).last(),
    {
        if self.base_idx < 3 {
            let c: u32 = if self.base_idx == 0 {
                2
            } else if self.base_idx == 1 {
                3
            } else {
                5
            };
            if c > self.max {
                return None;
            }
            self.base_idx = self.base_idx + 1;
            self.last = Ghost(c as int);
            proof {
                if self.base_idx == 3 {
                    assert(self.offsets@[1] == 7);
                    assert forall|x: int| 5 < x < 7 implies !wheel_candidate(x) by {}
                }
            }
            return Some(c);
        }
        let c64: u64 = self.current_wheel as u64 * 30 + self.offsets[self.offset_idx] as u64;
        if c64 > self.max as u64 {
            return None;
        }
        let c = c64 as u32;
        let ghost old_self = *self;
        proof {
            assert(self.offsets@ == wheel_offsets());
        }
        if self.offset_idx + 1 < 8 {
            self.offset_idx = self.offset_idx + 1;
        } else {
            self.offset_idx = 0;
            self.current_wheel = self.current_wheel + 1;
        }
        self.last = Ghost(c as int);
        proof {
            let k = old_self.current_wheel as int;
            let i = old_self.offset_idx as int;
            let offs = wheel_offsets();
            let nxt = self.pending();
            assert(nxt > c);
            assert forall|x: int| c < x < nxt implies !wheel_candidate(x) by {
                lemma_residue(x);
                assert(x >= 7);
                let r = x % 30;
                vstd::arithmetic::div_mod::lemma_fundamental_div_mod(x, 30);
                if i < 7 {
                    assert(x / 30 == k) by {
                        vstd::arithmetic::div_mod::lemma_fundamental_div_mod(x, 30);
                    }
                    assert(offs[i] < r < offs[i + 1]);
                } else {
                    assert(x == 30 * k + 30);
                    vstd::arithmetic::div_mod::lemma_mod_multiples_basic(k + 1, 30);
                    assert(r == 0);
                }
                if offs.contains(r as u32) {
                    let j = choose|j: int| 0 <= j < offs.len() && offs[j] == r as u32;
                }
            }
            let y = nxt;
            lemma_residue(y);
            vstd::arithmetic::div_mod::lemma_mod_multiples_vanish(
                self.current_wheel as int,
                offs[self.offset_idx as int] as int,
                30,
            );
            assert(y % 30 == offs[self.offset_idx as int] as int);
            assert(offs.contains(offs[self.offset_idx as int]));
        }
        Some(c)
    }
}

} // verus!
