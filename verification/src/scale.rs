//! Scaling factors in writing.
//!
//! A factor is computed as a binary64 number and handed on as a decimal
//! numeral. A [`Scale`] holds both, and is made only where the numeral
//! denotes the number: read as an exact fraction and rounded to nearest, the
//! numeral gives the number back.

use vstd::prelude::*;
use vstd::arithmetic::power2::pow2;
use vstd::string::{StrSliceExecFns, StringExecFns};
use crate::binary64::{
    deviation,
    is_finite,
    is_nearest,
    lemma_magnitude_increases,
    lemma_magnitude_ordered,
    lemma_nearest_unique,
    magnitude,
    FRACTION_SPAN,
    INFINITY_BITS,
};
use crate::natural::Natural;
use crate::numeral::{is_digit, is_numeral, is_numeral_text};

verus! {

/// The number that a decimal digit stands for.
pub open spec fn digit_value(c: char) -> nat
    recommends
        is_digit(c),
{
    (c as nat - '0' as nat) as nat
}

/// The digits of a numeral read as one whole number, the decimal point
/// passed over.
pub open spec fn numerator(text: Seq<char>) -> nat
    decreases text.len(),
{
    if text.len() == 0 {
        0
    } else if is_digit(text.last()) {
        10 * numerator(text.drop_last()) + digit_value(text.last())
    } else {
        numerator(text.drop_last())
    }
}

/// Ten to the number of digits behind the decimal point; one where there is
/// no point.
pub open spec fn denominator(text: Seq<char>) -> nat
    decreases text.len(),
{
    if text.len() == 0 {
        1
    } else if is_digit(text.last()) && text.drop_last().contains('.') {
        10 * denominator(text.drop_last())
    } else {
        denominator(text.drop_last())
    }
}

/// Whether the numeral `text` denotes the number `bits`: the fraction
/// `numerator / denominator` that the numeral writes down, rounded to the
/// nearest finite binary64 number with ties to even, is `bits`.
pub open spec fn denotes(text: Seq<char>, bits: u64) -> bool {
    is_numeral(text) && is_nearest(bits, numerator(text), denominator(text))
}

/// A denominator is never zero.
pub proof fn lemma_denominator_positive(text: Seq<char>)
    ensures
        denominator(text) > 0,
    decreases text.len(),
{
    if text.len() > 0 {
        lemma_denominator_positive(text.drop_last());
    }
}

/// A numeral denotes one number only: read back, it gives the number that it
/// was written for.
pub proof fn lemma_denotes_unique(text: Seq<char>, first: u64, second: u64)
    requires
        denotes(text, first),
        denotes(text, second),
    ensures
        first == second,
{
    lemma_denominator_positive(text);
    lemma_nearest_unique(first, second, numerator(text), denominator(text));
}

/// Whether `bits` is nearer to `num / den` than the number before it and the
/// number after it, or as near as one of them and even.
pub open spec fn is_nearest_of_neighbours(bits: u64, num: nat, den: nat) -> bool {
    let exact = num * pow2(1074);
    let here = magnitude(bits) * den;
    if here == exact {
        true
    } else if here < exact {
        bits + 1 == INFINITY_BITS || {
            let above = magnitude((bits + 1) as u64) * den;
            exact < above && (2 * exact < here + above || (2 * exact == here + above && bits % 2
                == 0))
        }
    } else {
        bits >= 1 && {
            let below = magnitude((bits - 1) as u64) * den;
            below < exact && (here + below < 2 * exact || (here + below == 2 * exact && bits % 2
                == 0))
        }
    }
}

/// To round to nearest, the two neighbours decide: a finite number is the
/// nearest of all to a fraction exactly if it is the nearest of the three.
pub proof fn lemma_neighbours_decide(bits: u64, num: nat, den: nat)
    requires
        den > 0,
        is_finite(bits),
    ensures
        is_nearest(bits, num, den) <==> is_nearest_of_neighbours(bits, num, den),
{
    let exact = num * pow2(1074);
    let here = magnitude(bits) * den;
    if is_nearest_of_neighbours(bits, num, den) {
        assert forall|other: u64| is_finite(other) implies deviation(bits, num, den)
            <= #[trigger] deviation(other, num, den) && (other != bits && deviation(
            other,
            num,
            den,
        ) == deviation(bits, num, den) ==> bits % 2 == 0) by {
            lemma_scaled_order(other, bits, den);
            if other > bits {
                lemma_scaled_order((bits + 1) as u64, other, den);
            }
            if other < bits {
                lemma_scaled_order(other, (bits - 1) as u64, den);
            }
        }
    }
    if is_nearest(bits, num, den) {
        if here < exact && bits + 1 < INFINITY_BITS {
            let next = (bits + 1) as u64;
            lemma_scaled_order(bits, next, den);
            assert(deviation(bits, num, den) <= deviation(next, num, den));
        }
        if here > exact {
            assert(magnitude(0) * den == 0) by (nonlinear_arith)
                requires
                    magnitude(0) == 0,
            ;
            let last = (bits - 1) as u64;
            lemma_scaled_order(last, bits, den);
            assert(deviation(bits, num, den) <= deviation(last, num, den));
        }
    }
}

/// Numbers keep their order when all are scaled by one denominator.
proof fn lemma_scaled_order(x: u64, y: u64, den: nat)
    requires
        den > 0,
    ensures
        x < y ==> magnitude(x) * den < magnitude(y) * den,
        x == y ==> magnitude(x) * den == magnitude(y) * den,
        x > y ==> magnitude(x) * den > magnitude(y) * den,
{
    lemma_magnitude_ordered(x, y);
    if x < y {
        lemma_magnitude_increases(x, y);
        assert(magnitude(x) * den < magnitude(y) * den) by (nonlinear_arith)
            requires
                magnitude(x) < magnitude(y),
                den > 0,
        ;
    }
    if y < x {
        lemma_magnitude_increases(y, x);
        assert(magnitude(y) * den < magnitude(x) * den) by (nonlinear_arith)
            requires
                magnitude(y) < magnitude(x),
                den > 0,
        ;
    }
}

/// Reads a text as a fraction: its digits as one whole number, over ten to
/// the number of digits behind the point.
fn read_fraction(text: &str) -> (fraction: (Natural, Natural))
    ensures
        fraction.0@ == numerator(text@),
        fraction.1@ == denominator(text@),
{
    let length = text.unicode_len();
    let mut num = Natural::from_u64(0);
    let mut den = Natural::from_u64(1);
    let mut behind_point = false;
    let mut i: usize = 0;
    assert(text@.take(0) =~= Seq::<char>::empty());
    while i < length
        invariant
            i <= length,
            length == text@.len(),
            num@ == numerator(text@.take(i as int)),
            den@ == denominator(text@.take(i as int)),
            behind_point == text@.take(i as int).contains('.'),
        decreases length - i,
    {
        let c = text.get_char(i);
        proof {
            let before = text@.take(i as int);
            let after = text@.take(i + 1);
            assert(after.drop_last() == before);
            assert(after.last() == c);
            if before.contains('.') {
                let at = choose|k: int| 0 <= k < before.len() && before[k] == '.';
                assert(after[at] == '.');
            }
            if after.contains('.') && c != '.' {
                let at = choose|k: int| 0 <= k < after.len() && after[k] == '.';
                assert(before[at] == '.');
            }
            if c == '.' {
                assert(after[i as int] == '.');
            }
        }
        if '0' <= c && c <= '9' {
            let value: u64 = (c as u32 - '0' as u32) as u64;
            num = num.times(10).plus(&Natural::from_u64(value));
            if behind_point {
                den = den.times(10);
            }
        } else if c == '.' {
            behind_point = true;
        }
        i += 1;
    }
    assert(text@.take(length as int) =~= text@);
    (num, den)
}

/// The number `bits` times `den`, counted in units of 2^-1074.
fn scaled(bits: u64, den: &Natural) -> (product: Natural)
    ensures
        product@ == magnitude(bits) * den@,
{
    let exponent: u64 = bits / FRACTION_SPAN;
    let fraction: u64 = bits % FRACTION_SPAN;
    if exponent == 0 {
        assert(den@ * fraction == fraction * den@) by (nonlinear_arith);
        den.times(fraction)
    } else {
        let significand: u64 = FRACTION_SPAN + fraction;
        assert(den@ * significand * pow2((exponent - 1) as nat) == (significand * pow2(
            (exponent - 1) as nat,
        )) * den@) by (nonlinear_arith);
        den.times(significand).doubled(exponent - 1)
    }
}

/// Whether the text is a numeral that denotes the number `bits`.
pub fn is_denoted_by(bits: u64, text: &str) -> (yes: bool)
    ensures
        yes == denotes(text@, bits),
{
    if bits >= INFINITY_BITS || !is_numeral_text(text) {
        return false;
    }
    let (num, den) = read_fraction(text);
    proof {
        lemma_denominator_positive(text@);
        lemma_neighbours_decide(bits, num@, den@);
    }
    let exact = num.doubled(1074);
    let here = scaled(bits, &den);
    let twice = exact.times(2);
    if here.is_less(&exact) {
        if bits + 1 == INFINITY_BITS {
            return true;
        }
        let above = scaled(bits + 1, &den);
        if !exact.is_less(&above) {
            return false;
        }
        let span = here.plus(&above);
        if twice.is_less(&span) {
            true
        } else if span.is_less(&twice) {
            false
        } else {
            bits % 2 == 0
        }
    } else if exact.is_less(&here) {
        if bits == 0 {
            return false;
        }
        let below = scaled(bits - 1, &den);
        if !below.is_less(&exact) {
            return false;
        }
        let span = here.plus(&below);
        if span.is_less(&twice) {
            true
        } else if twice.is_less(&span) {
            false
        } else {
            bits % 2 == 0
        }
    } else {
        true
    }
}

/// A scaling factor with the numeral that it is written as.
#[derive(Debug, PartialEq, Eq)]
pub struct Scale {
    bits: u64,
    text: String,
}

impl Scale {
    #[verifier::type_invariant]
    spec fn is_faithful(self) -> bool {
        denotes(self.text@, self.bits)
    }

    /// The factor, as the bit pattern of a binary64 number.
    pub closed spec fn bits(self) -> u64 {
        self.bits
    }

    /// The numeral that the factor is written as.
    pub closed spec fn text(self) -> Seq<char> {
        self.text@
    }

    /// Joins a factor and its numeral, if the numeral denotes the factor.
    pub fn new(bits: u64, text: &str) -> (scale: Option<Scale>)
        ensures
            scale is Some <==> denotes(text@, bits),
            scale matches Some(joined) ==> joined.bits() == bits && joined.text() == text@,
    {
        if is_denoted_by(bits, text) {
            Some(Scale { bits, text: String::from_str(text) })
        } else {
            None
        }
    }

    /// The factor, as the bit pattern of a binary64 number.
    pub fn factor(&self) -> (bits: u64)
        ensures
            bits == self.bits(),
            denotes(self.text(), bits),
    {
        proof {
            use_type_invariant(self);
        }
        self.bits
    }

    /// The numeral that the factor is written as.
    pub fn as_str(&self) -> (text: &str)
        ensures
            text@ == self.text(),
            denotes(text@, self.bits()),
    {
        proof {
            use_type_invariant(self);
        }
        self.text.as_str()
    }
}

/// Why factors and numerals cannot be joined.
#[derive(Debug, Clone, Copy, PartialEq, Eq)]
pub enum ScaleError {
    /// The numerals are not one for each factor.
    CountMismatch { factors: usize, numerals: usize },
    /// The text given for this sample is no numeral, or a numeral that does
    /// not denote the factor of the sample. It is the first such sample.
    Unfaithful { sample: usize },
}

/// Whether every factor has its numeral, which denotes it.
pub open spec fn all_denoted(factors: Seq<u64>, numerals: Seq<String>) -> bool {
    &&& numerals.len() == factors.len()
    &&& forall|i: int| 0 <= i < factors.len() ==> denotes((#[trigger] numerals[i])@, factors[i])
}

/// Whether `error` is the reason why factors and numerals cannot be joined.
/// A wrong number of numerals is reported before a numeral that does not
/// denote its factor.
pub open spec fn is_scale_fault(factors: Seq<u64>, numerals: Seq<String>, error: ScaleError) -> bool {
    match error {
        ScaleError::CountMismatch { factors: wanted, numerals: found } => {
            &&& numerals.len() != factors.len()
            &&& wanted == factors.len()
            &&& found == numerals.len()
        },
        ScaleError::Unfaithful { sample } => {
            &&& numerals.len() == factors.len()
            &&& sample < factors.len()
            &&& !denotes(numerals[sample as int]@, factors[sample as int])
            &&& forall|j: int| 0 <= j < sample ==> denotes((#[trigger] numerals[j])@, factors[j])
        },
    }
}

/// Whether `scales` join the factors and the numerals, position by position.
pub open spec fn are_joined(factors: Seq<u64>, numerals: Seq<String>, scales: Seq<Scale>) -> bool {
    &&& scales.len() == factors.len()
    &&& forall|i: int|
        0 <= i < scales.len() ==> (#[trigger] scales[i]).bits() == factors[i] && scales[i].text()
            == numerals[i]@
}

/// Joins the scaling factors of a batch with the numerals that they were
/// written as, after making sure that each numeral denotes its factor.
pub fn join_scales(factors: &Vec<u64>, numerals: &Vec<String>) -> (result: Result<
    Vec<Scale>,
    ScaleError,
>)
    ensures
        result is Ok <==> all_denoted(factors@, numerals@),
        result matches Ok(scales) ==> are_joined(factors@, numerals@, scales@),
        result matches Err(error) ==> is_scale_fault(factors@, numerals@, error),
{
    if numerals.len() != factors.len() {
        return Err(ScaleError::CountMismatch { factors: factors.len(), numerals: numerals.len() });
    }
    let mut scales: Vec<Scale> = Vec::new();
    let mut i: usize = 0;
    while i < factors.len()
        invariant
            i <= factors.len(),
            numerals.len() == factors.len(),
            scales@.len() == i,
            forall|j: int| 0 <= j < i ==> denotes((#[trigger] numerals@[j])@, factors@[j]),
            forall|j: int|
                0 <= j < i ==> (#[trigger] scales@[j]).bits() == factors@[j] && scales@[j].text()
                    == numerals@[j]@,
        decreases factors.len() - i,
    {
        match Scale::new(factors[i], numerals[i].as_str()) {
            Some(scale) => {
                scales.push(scale);
            },
            None => {
                return Err(ScaleError::Unfaithful { sample: i });
            },
        }
        i += 1;
    }
    Ok(scales)
}

} // verus!
