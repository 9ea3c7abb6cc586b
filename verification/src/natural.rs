//! Natural numbers of any size, for arithmetic that must be exact.
//!
//! A number is held as limbs of sixty-four bits, the least significant first.

use vstd::prelude::*;
use vstd::arithmetic::power2::{lemma2_to64, lemma_pow2_unfold, pow2};

verus! {

/// 2^64: a limb holds the numbers below it.
const BASE: u128 = 0x1_0000_0000_0000_0000;

/// What a limb at `place` counts for: 2^64 to the power of `place`.
spec fn weight(place: nat) -> nat
    decreases place,
{
    if place == 0 {
        1
    } else {
        BASE as nat * weight((place - 1) as nat)
    }
}

/// The limb at `place`; zero beyond the last limb.
spec fn limb_at(limbs: Seq<u64>, place: int) -> nat {
    if 0 <= place < limbs.len() {
        limbs[place] as nat
    } else {
        0
    }
}

/// The number that the limbs below `places` make up.
spec fn prefix_value(limbs: Seq<u64>, places: nat) -> nat
    decreases places,
{
    if places == 0 {
        0
    } else {
        prefix_value(limbs, (places - 1) as nat) + limb_at(limbs, places - 1) * weight(
            (places - 1) as nat,
        )
    }
}

/// Limbs that agree below `places` make up the same number there.
proof fn lemma_prefix_agrees(first: Seq<u64>, second: Seq<u64>, places: nat)
    requires
        forall|i: int| 0 <= i < places ==> limb_at(first, i) == limb_at(second, i),
    ensures
        prefix_value(first, places) == prefix_value(second, places),
    decreases places,
{
    if places > 0 {
        lemma_prefix_agrees(first, second, (places - 1) as nat);
    }
}

/// Places beyond the last limb add nothing.
proof fn lemma_prefix_beyond(limbs: Seq<u64>, places: nat)
    requires
        places >= limbs.len(),
    ensures
        prefix_value(limbs, places) == prefix_value(limbs, limbs.len()),
    decreases places,
{
    if places > limbs.len() {
        lemma_prefix_beyond(limbs, (places - 1) as nat);
        assert(limb_at(limbs, places - 1) * weight((places - 1) as nat) == 0) by (nonlinear_arith)
            requires
                limb_at(limbs, places - 1) == 0,
        ;
    }
}

/// The limbs below `places` make up a number below the weight of `places`.
proof fn lemma_prefix_bound(limbs: Seq<u64>, places: nat)
    ensures
        prefix_value(limbs, places) < weight(places),
    decreases places,
{
    if places > 0 {
        lemma_prefix_bound(limbs, (places - 1) as nat);
        let below = weight((places - 1) as nat);
        let limb = limb_at(limbs, places - 1);
        assert(limb * below + below <= BASE as nat * below) by (nonlinear_arith)
            requires
                limb < BASE as nat,
        ;
    }
}

/// A natural number of any size.
pub struct Natural {
    limbs: Vec<u64>,
}

impl View for Natural {
    type V = nat;

    closed spec fn view(&self) -> nat {
        prefix_value(self.limbs@, self.limbs@.len())
    }
}

impl Natural {
    /// The number `value`.
    pub fn from_u64(value: u64) -> (number: Natural)
        ensures
            number@ == value,
    {
        let mut limbs: Vec<u64> = Vec::new();
        limbs.push(value);
        proof {
            assert(prefix_value(limbs@, 0) == 0);
            assert(limb_at(limbs@, 0) * weight(0) == value) by (nonlinear_arith)
                requires
                    limb_at(limbs@, 0) == value,
                    weight(0) == 1,
            ;
        }
        Natural { limbs }
    }

    /// This number times `factor`.
    pub fn times(&self, factor: u64) -> (product: Natural)
        ensures
            product@ == self@ * factor,
    {
        let mut limbs: Vec<u64> = Vec::new();
        let mut carry: u64 = 0;
        let mut i: usize = 0;
        assert(0 * weight(0) == 0 && 0 * factor == 0) by (nonlinear_arith);
        while i < self.limbs.len()
            invariant
                i <= self.limbs.len(),
                limbs@.len() == i,
                prefix_value(limbs@, i as nat) + carry * weight(i as nat) == prefix_value(
                    self.limbs@,
                    i as nat,
                ) * factor,
            decreases self.limbs.len() - i,
        {
            let limb = self.limbs[i];
            assert(limb * factor + carry < BASE * BASE) by (nonlinear_arith)
                requires
                    limb < BASE,
                    factor < BASE,
                    carry < BASE,
            ;
            let wide: u128 = (limb as u128) * (factor as u128) + (carry as u128);
            let low: u64 = (wide % BASE) as u64;
            let high: u64 = (wide / BASE) as u64;
            proof {
                let before = limbs@;
                let after = before.push(low);
                let place = weight(i as nat);
                lemma_prefix_agrees(before, after, i as nat);
                assert(limb_at(after, i as int) == low);
                assert(limb_at(self.limbs@, i as int) == limb);
                assert(weight((i + 1) as nat) == BASE as nat * place);
                assert(prefix_value(after, (i + 1) as nat) + high * (BASE as nat * place) == (
                prefix_value(self.limbs@, i as nat) + limb * place) * factor) by (nonlinear_arith)
                    requires
                        prefix_value(after, (i + 1) as nat) == prefix_value(before, i as nat) + low
                            * place,
                        prefix_value(before, i as nat) + carry * place == prefix_value(
                            self.limbs@,
                            i as nat,
                        ) * factor,
                        limb * factor + carry == low + high * BASE as nat,
                ;
            }
            limbs.push(low);
            carry = high;
            i += 1;
        }
        if carry > 0 {
            proof {
                let before = limbs@;
                let after = before.push(carry);
                lemma_prefix_agrees(before, after, i as nat);
                assert(limb_at(after, i as int) == carry);
            }
            limbs.push(carry);
        } else {
            assert(carry * weight(i as nat) == 0) by (nonlinear_arith)
                requires
                    carry == 0,
            ;
        }
        Natural { limbs }
    }

    /// This number doubled `times` times over.
    pub fn doubled(&self, times: u64) -> (product: Natural)
        ensures
            product@ == self@ * pow2(times as nat),
    {
        let mut product = self.times(1);
        let mut done: u64 = 0;
        proof {
            lemma2_to64();
        }
        while done < times
            invariant
                done <= times,
                product@ == self@ * pow2(done as nat),
            decreases times - done,
        {
            proof {
                lemma_pow2_unfold((done + 1) as nat);
                assert(self@ * pow2(done as nat) * 2 == self@ * (2 * pow2(done as nat)))
                    by (nonlinear_arith);
            }
            product = product.times(2);
            done += 1;
        }
        product
    }

    /// The sum of this number and `other`.
    pub fn plus(&self, other: &Natural) -> (sum: Natural)
        ensures
            sum@ == self@ + other@,
    {
        let places = if self.limbs.len() > other.limbs.len() {
            self.limbs.len()
        } else {
            other.limbs.len()
        };
        let mut limbs: Vec<u64> = Vec::new();
        let mut carry: u64 = 0;
        let mut i: usize = 0;
        assert(0 * weight(0) == 0) by (nonlinear_arith);
        while i < places
            invariant
                i <= places,
                limbs@.len() == i,
                carry <= 1,
                prefix_value(limbs@, i as nat) + carry * weight(i as nat) == prefix_value(
                    self.limbs@,
                    i as nat,
                ) + prefix_value(other.limbs@, i as nat),
            decreases places - i,
        {
            let mine: u64 = if i < self.limbs.len() {
                self.limbs[i]
            } else {
                0
            };
            let theirs: u64 = if i < other.limbs.len() {
                other.limbs[i]
            } else {
                0
            };
            let wide: u128 = (mine as u128) + (theirs as u128) + (carry as u128);
            let low: u64 = (wide % BASE) as u64;
            let high: u64 = (wide / BASE) as u64;
            proof {
                let before = limbs@;
                let after = before.push(low);
                let place = weight(i as nat);
                lemma_prefix_agrees(before, after, i as nat);
                assert(limb_at(after, i as int) == low);
                assert(limb_at(self.limbs@, i as int) == mine);
                assert(limb_at(other.limbs@, i as int) == theirs);
                assert(weight((i + 1) as nat) == BASE as nat * place);
                assert(prefix_value(after, (i + 1) as nat) + high * (BASE as nat * place)
                    == prefix_value(self.limbs@, i as nat) + mine * place + prefix_value(
                    other.limbs@,
                    i as nat,
                ) + theirs * place) by (nonlinear_arith)
                    requires
                        prefix_value(after, (i + 1) as nat) == prefix_value(before, i as nat) + low
                            * place,
                        prefix_value(before, i as nat) + carry * place == prefix_value(
                            self.limbs@,
                            i as nat,
                        ) + prefix_value(other.limbs@, i as nat),
                        mine + theirs + carry == low + high * BASE as nat,
                ;
            }
            limbs.push(low);
            carry = high;
            i += 1;
        }
        proof {
            lemma_prefix_beyond(self.limbs@, places as nat);
            lemma_prefix_beyond(other.limbs@, places as nat);
        }
        if carry > 0 {
            proof {
                let before = limbs@;
                let after = before.push(carry);
                lemma_prefix_agrees(before, after, i as nat);
                assert(limb_at(after, i as int) == carry);
            }
            limbs.push(carry);
        } else {
            assert(carry * weight(i as nat) == 0) by (nonlinear_arith)
                requires
                    carry == 0,
            ;
        }
        Natural { limbs }
    }

    /// Whether this number is less than `other`.
    pub fn is_less(&self, other: &Natural) -> (less: bool)
        ensures
            less == (self@ < other@),
    {
        let places = if self.limbs.len() > other.limbs.len() {
            self.limbs.len()
        } else {
            other.limbs.len()
        };
        proof {
            lemma_prefix_beyond(self.limbs@, places as nat);
            lemma_prefix_beyond(other.limbs@, places as nat);
        }
        let mut i: usize = places;
        while i > 0
            invariant
                i <= places,
                self@ == prefix_value(self.limbs@, places as nat),
                other@ == prefix_value(other.limbs@, places as nat),
                prefix_value(self.limbs@, places as nat) + prefix_value(other.limbs@, i as nat)
                    == prefix_value(other.limbs@, places as nat) + prefix_value(
                    self.limbs@,
                    i as nat,
                ),
            decreases i,
        {
            let mine: u64 = if i - 1 < self.limbs.len() {
                self.limbs[i - 1]
            } else {
                0
            };
            let theirs: u64 = if i - 1 < other.limbs.len() {
                other.limbs[i - 1]
            } else {
                0
            };
            proof {
                let place = weight((i - 1) as nat);
                assert(limb_at(self.limbs@, i - 1) == mine);
                assert(limb_at(other.limbs@, i - 1) == theirs);
                lemma_prefix_bound(self.limbs@, (i - 1) as nat);
                lemma_prefix_bound(other.limbs@, (i - 1) as nat);
                if mine < theirs {
                    assert(mine * place + place <= theirs * place) by (nonlinear_arith)
                        requires
                            mine < theirs,
                    ;
                }
                if theirs < mine {
                    assert(theirs * place + place <= mine * place) by (nonlinear_arith)
                        requires
                            theirs < mine,
                    ;
                }
            }
            if mine < theirs {
                return true;
            }
            if mine > theirs {
                return false;
            }
            i -= 1;
        }
        false
    }
}

} // verus!
