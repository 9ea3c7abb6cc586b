//! Finite IEEE 754 binary64 numbers that are zero or positive, handled by
//! their bit patterns.
//!
//! A bit pattern below [`INFINITY_BITS`] holds eleven bits of exponent above
//! fifty-two bits of fraction. Every such number is a whole multiple of
//! 2^-1074; [`magnitude`] is that multiple, so that numbers can be compared
//! and divided exactly, with natural numbers alone.

use vstd::prelude::*;
use vstd::arithmetic::power2::*;
use vstd::arithmetic::mul::*;

verus! {

/// The bit pattern of positive infinity. The patterns below it are the finite
/// numbers that are zero or positive, in rising order.
pub const INFINITY_BITS: u64 = 0x7FF0_0000_0000_0000;

/// The bit pattern of the number one.
pub const ONE_BITS: u64 = 0x3FF0_0000_0000_0000;

/// 2^52, the number of fractions that share one exponent.
pub const FRACTION_SPAN: u64 = 0x0010_0000_0000_0000;

/// Whether `bits` is a finite number that is zero or positive.
pub open spec fn is_finite(bits: u64) -> bool {
    bits < INFINITY_BITS
}

/// Whether `bits` is a finite number above zero.
pub open spec fn is_positive_finite(bits: u64) -> bool {
    0 < bits && bits < INFINITY_BITS
}

/// The number that `bits` holds, counted in units of 2^-1074.
///
/// With a zero exponent field the fraction is the count itself (the subnormal
/// numbers); otherwise the fraction gains the hidden leading bit and doubles
/// with every step of the exponent.
pub open spec fn magnitude(bits: u64) -> nat {
    let exponent = (bits / FRACTION_SPAN) as nat;
    let fraction = (bits % FRACTION_SPAN) as nat;
    if exponent == 0 {
        fraction
    } else {
        (FRACTION_SPAN as nat + fraction) * pow2((exponent - 1) as nat)
    }
}

/// A number stays below the least number of the next exponent.
proof fn lemma_magnitude_below_next_exponent(bits: u64)
    ensures
        magnitude(bits) < FRACTION_SPAN as nat * pow2((bits / FRACTION_SPAN) as nat),
{
    let exponent = (bits / FRACTION_SPAN) as nat;
    let fraction = (bits % FRACTION_SPAN) as nat;
    let span = FRACTION_SPAN as nat;
    lemma2_to64();
    if exponent > 0 {
        let below = pow2((exponent - 1) as nat);
        lemma_pow2_unfold(exponent);
        lemma_pow2_pos((exponent - 1) as nat);
        assert((span + fraction) * below < span * (2 * below)) by (nonlinear_arith)
            requires
                fraction < span,
                below > 0,
        ;
    }
}

/// The bit patterns order the numbers: a greater pattern is a greater number.
pub proof fn lemma_magnitude_increases(x: u64, y: u64)
    requires
        x < y,
    ensures
        magnitude(x) < magnitude(y),
{
    let span = FRACTION_SPAN as nat;
    let ex = (x / FRACTION_SPAN) as nat;
    let ey = (y / FRACTION_SPAN) as nat;
    let fx = (x % FRACTION_SPAN) as nat;
    let fy = (y % FRACTION_SPAN) as nat;
    if ex == ey {
        if ex > 0 {
            let scale = pow2((ex - 1) as nat);
            lemma_pow2_pos((ex - 1) as nat);
            assert((span + fx) * scale < (span + fy) * scale) by (nonlinear_arith)
                requires
                    fx < fy,
                    scale > 0,
            ;
        }
    } else {
        lemma_magnitude_below_next_exponent(x);
        let scale = pow2((ey - 1) as nat);
        if ex < ey - 1 {
            lemma_pow2_strictly_increases(ex, (ey - 1) as nat);
        }
        assert(span * pow2(ex) <= (span + fy) * scale) by (nonlinear_arith)
            requires
                pow2(ex) <= scale,
        ;
    }
}

/// The bit patterns order the numbers, equal patterns included.
pub proof fn lemma_magnitude_ordered(x: u64, y: u64)
    ensures
        x <= y <==> magnitude(x) <= magnitude(y),
        x == y <==> magnitude(x) == magnitude(y),
{
    if x < y {
        lemma_magnitude_increases(x, y);
    }
    if y < x {
        lemma_magnitude_increases(y, x);
    }
}

/// The number found `quotient` places into the exponent step `step`.
proof fn lemma_magnitude_of_parts(step: nat, quotient: nat)
    requires
        step <= 2044,
        quotient <= 2 * FRACTION_SPAN,
        step >= 1 ==> quotient >= FRACTION_SPAN,
    ensures
        step * FRACTION_SPAN + quotient < INFINITY_BITS,
        magnitude((step * FRACTION_SPAN + quotient) as u64) == quotient * pow2(step),
{
    let span = FRACTION_SPAN as nat;
    let bits = (step * FRACTION_SPAN + quotient) as u64;
    lemma2_to64();
    if quotient < span {
        assert(step == 0);
        assert(bits / FRACTION_SPAN == 0);
        assert(bits % FRACTION_SPAN == quotient);
        assert(quotient * pow2(0) == quotient) by (nonlinear_arith)
            requires
                pow2(0) == 1,
        ;
    } else if quotient < 2 * span {
        assert(bits / FRACTION_SPAN == step + 1);
        assert(bits % FRACTION_SPAN == quotient - span);
    } else {
        assert(bits / FRACTION_SPAN == step + 2);
        assert(bits % FRACTION_SPAN == 0);
        lemma_pow2_unfold(step + 1);
        assert(span * (2 * pow2(step)) == (2 * span) * pow2(step)) by (nonlinear_arith);
    }
}

/// How far the number `bits` lies from the exact fraction `num / den`, as a
/// multiple of `1 / (den * 2^1074)`.
pub open spec fn deviation(bits: u64, num: nat, den: nat) -> nat {
    let have = magnitude(bits) * den;
    let want = num * pow2(1074);
    if have >= want {
        (have - want) as nat
    } else {
        (want - have) as nat
    }
}

/// Whether `bits` is the fraction `num / den` rounded to the nearest finite
/// number that is zero or positive: no such number lies nearer, and where
/// another lies as near, `bits` is the even one of the two.
///
/// Infinity is not among the numbers that are looked at, so a fraction
/// beyond the greatest finite number has that number as its nearest.
pub open spec fn is_nearest(bits: u64, num: nat, den: nat) -> bool {
    &&& is_finite(bits)
    &&& forall|other: u64|
        is_finite(other) ==> deviation(bits, num, den) <= #[trigger] deviation(other, num, den)
    &&& forall|other: u64|
        is_finite(other) && other != bits && #[trigger] deviation(other, num, den) == deviation(
            bits,
            num,
            den,
        ) ==> bits % 2 == 0
}

/// Whether `bits` is the quotient of the numbers `a` and `b`, rounded to
/// nearest with ties to even.
pub open spec fn is_quotient(bits: u64, a: u64, b: u64) -> bool {
    is_nearest(bits, magnitude(a), magnitude(b))
}

/// Where a fraction lies between two neighbouring numbers, and which of the
/// two is nearer: `exact * div == low * div + rem * gap` places `exact` at
/// `rem / div` of the way from `low` to `low + gap`.
proof fn lemma_between(exact: nat, low: nat, gap: nat, rem: nat, div: nat)
    by (nonlinear_arith)
    requires
        div > 0,
        rem < div,
        gap > 0,
        exact * div == low * div + rem * gap,
    ensures
        low <= exact < low + gap,
        2 * rem < div <==> 2 * (exact - low) < gap,
        2 * rem == div <==> 2 * (exact - low) == gap,
        rem == 0 <==> exact == low,
{
    assert((exact - low) * div == rem * gap);
    if 2 * rem < div {
        assert(2 * ((exact - low) * div) < div * gap);
    }
    if 2 * rem == div {
        assert(2 * ((exact - low) * div) == div * gap);
    }
    if 2 * rem > div {
        assert(2 * ((exact - low) * div) > div * gap);
    }
}

/// Rounding a fraction that is known as a quotient digit string: with
/// `num / den == (quotient + rem / div) * 2^step` in units of 2^-1074, the
/// nearest number is `quotient` or its successor at exponent step `step`.
proof fn lemma_rounding(
    num: nat,
    den: nat,
    quotient: nat,
    rem: nat,
    div: nat,
    step: nat,
    bits: u64,
)
    requires
        den > 0,
        div > 0,
        rem < div,
        step <= 2044,
        quotient < 2 * FRACTION_SPAN,
        step >= 1 ==> quotient >= FRACTION_SPAN,
        num * pow2(1074) * div == (quotient * div + rem) * (pow2(step) * den),
        bits == step * FRACTION_SPAN + quotient + (if 2 * rem > div || (2 * rem == div && quotient
            % 2 == 1) {
            1nat
        } else {
            0nat
        }),
    ensures
        is_nearest(bits, num, den),
{
    let low_bits = (step * FRACTION_SPAN + quotient) as u64;
    let high_bits = (low_bits + 1) as u64;
    lemma_magnitude_of_parts(step, quotient);
    lemma_magnitude_of_parts(step, quotient + 1);
    lemma_pow2_pos(step);
    let exact = num * pow2(1074);
    let gap = pow2(step) * den;
    let low = magnitude(low_bits) * den;
    let high = magnitude(high_bits) * den;
    assert(gap > 0) by (nonlinear_arith)
        requires
            gap == pow2(step) * den,
            pow2(step) > 0,
            den > 0,
    ;
    assert(low == quotient * gap && high == low + gap) by (nonlinear_arith)
        requires
            low == (quotient * pow2(step)) * den,
            high == ((quotient + 1) * pow2(step)) * den,
            gap == pow2(step) * den,
    ;
    assert(exact * div == low * div + rem * gap) by (nonlinear_arith)
        requires
            exact * div == (quotient * div + rem) * gap,
            low == quotient * gap,
    ;
    lemma_between(exact, low, gap, rem, div);
    assert(deviation(low_bits, num, den) == exact - low);
    assert(deviation(high_bits, num, den) == low + gap - exact);
    assert(low_bits % 2 == quotient % 2) by {
        assert(step * FRACTION_SPAN == 2 * (step * 0x0008_0000_0000_0000));
    }
    assert forall|other: u64| is_finite(other) implies deviation(bits, num, den)
        <= #[trigger] deviation(other, num, den) && (other != bits && deviation(other, num, den)
        == deviation(bits, num, den) ==> bits % 2 == 0) by {
        if other <= low_bits {
            lemma_magnitude_ordered(other, low_bits);
            assert(magnitude(other) * den <= low) by (nonlinear_arith)
                requires
                    magnitude(other) <= magnitude(low_bits),
                    low == magnitude(low_bits) * den,
            ;
            if other < low_bits {
                assert(magnitude(other) * den < low) by (nonlinear_arith)
                    requires
                        magnitude(other) < magnitude(low_bits),
                        low == magnitude(low_bits) * den,
                        den > 0,
                ;
            }
        } else {
            lemma_magnitude_ordered(high_bits, other);
            assert(magnitude(other) * den >= high) by (nonlinear_arith)
                requires
                    magnitude(other) >= magnitude(high_bits),
                    high == magnitude(high_bits) * den,
            ;
            if other > high_bits {
                assert(magnitude(other) * den > high) by (nonlinear_arith)
                    requires
                        magnitude(other) > magnitude(high_bits),
                        high == magnitude(high_bits) * den,
                        den > 0,
                ;
            }
        }
    }
}

/// A fraction of at most half a unit rounds to zero.
proof fn lemma_rounds_to_zero(num: nat, den: nat)
    requires
        2 * (num * pow2(1074)) <= den,
    ensures
        is_nearest(0, num, den),
{
    let exact = num * pow2(1074);
    assert(magnitude(0) == 0);
    assert(deviation(0, num, den) == exact);
    assert forall|other: u64| is_finite(other) && other != 0 implies deviation(0, num, den)
        <= #[trigger] deviation(other, num, den) by {
        lemma_magnitude_ordered(1, other);
        assert(magnitude(1) == 1);
        assert(magnitude(other) * den >= den) by (nonlinear_arith)
            requires
                magnitude(other) >= 1,
        ;
    }
}

/// The number one, counted in units of 2^-1074.
pub proof fn lemma_magnitude_of_one()
    ensures
        magnitude(ONE_BITS) == pow2(1074),
{
    lemma2_to64_rest();
    lemma_pow2_adds(52, 1022);
    lemma_magnitude_of_parts(1022, FRACTION_SPAN as nat);
}

/// Rounding decides the result: a fraction has one nearest number only.
pub proof fn lemma_nearest_unique(first: u64, second: u64, num: nat, den: nat)
    requires
        den > 0,
        is_nearest(first, num, den),
        is_nearest(second, num, den),
    ensures
        first == second,
{
    if first != second {
        let low = if first < second {
            first
        } else {
            second
        };
        let high = if first < second {
            second
        } else {
            first
        };
        let between = (low + 1) as u64;
        assert(deviation(high, num, den) == deviation(low, num, den));
        assert(low % 2 == 0 && high % 2 == 0);
        lemma_magnitude_increases(low, between);
        lemma_magnitude_increases(between, high);
        assert(magnitude(low) * den < magnitude(between) * den < magnitude(high) * den)
            by (nonlinear_arith)
            requires
                magnitude(low) < magnitude(between) < magnitude(high),
                den > 0,
        ;
        assert(deviation(between, num, den) < deviation(low, num, den));
    }
}

/// A fraction of at most one rounds to at most one.
pub proof fn lemma_nearest_at_most_one(bits: u64, num: nat, den: nat)
    requires
        den > 0,
        num <= den,
        is_nearest(bits, num, den),
    ensures
        bits <= ONE_BITS,
{
    if bits > ONE_BITS {
        lemma_magnitude_of_one();
        lemma_magnitude_increases(ONE_BITS, bits);
        assert(num * pow2(1074) <= pow2(1074) * den < magnitude(bits) * den) by (nonlinear_arith)
            requires
                num <= den,
                den > 0,
                pow2(1074) < magnitude(bits),
        ;
        assert(deviation(ONE_BITS, num, den) < deviation(bits, num, den));
    }
}

/// A number divided by itself is exactly one.
pub proof fn lemma_nearest_of_equals(bits: u64, num: nat)
    requires
        num > 0,
        is_nearest(bits, num, num),
    ensures
        bits == ONE_BITS,
{
    lemma_magnitude_of_one();
    assert(pow2(1074) * num == num * pow2(1074)) by (nonlinear_arith);
    assert(deviation(ONE_BITS, num, num) == 0);
    assert(magnitude(bits) * num == pow2(1074) * num);
    assert(magnitude(bits) == pow2(1074)) by (nonlinear_arith)
        requires
            magnitude(bits) * num == pow2(1074) * num,
            num > 0,
    ;
    lemma_magnitude_ordered(bits, ONE_BITS);
}

/// Rounding gives zero exactly where the fraction is at most 2^-1075, half of
/// the least positive number.
pub proof fn lemma_nearest_is_zero(bits: u64, num: nat, den: nat)
    requires
        den > 0,
        is_nearest(bits, num, den),
    ensures
        bits == 0 <==> 2 * (num * pow2(1074)) <= den,
{
    if 2 * (num * pow2(1074)) <= den {
        lemma_rounds_to_zero(num, den);
        lemma_nearest_unique(bits, 0, num, den);
    } else if bits == 0 {
        assert(magnitude(0) * den == 0 && magnitude(1) * den == den) by (nonlinear_arith)
            requires
                magnitude(0) == 0,
                magnitude(1) == 1,
        ;
        assert(deviation(1, num, den) < deviation(0, num, den));
    }
}

/// Crossing out the exponents of a quotient: with `a * 2^52 == sa * 2^ga`
/// and `b * 2^52 == sb * 2^gb`, the fraction `a / b` in units of 2^-1074 is
/// `sa / sb` times `2^(shift - carry)`, where `ga + 1074 + carry == gb + shift`.
proof fn lemma_cross(a: nat, b: nat, sa: nat, sb: nat, ga: nat, gb: nat, carry: nat, shift: nat)
    requires
        a * pow2(52) == sa * pow2(ga),
        b * pow2(52) == sb * pow2(gb),
        ga + 1074 + carry == gb + shift,
    ensures
        a * pow2(1074) * (sb * pow2(carry)) == sa * pow2(shift) * b,
{
    let left = a * pow2(1074) * (sb * pow2(carry));
    let right = sa * pow2(shift) * b;
    lemma_pow2_pos(52);
    lemma_pow2_adds(ga, 1074 + carry);
    lemma_pow2_adds(1074, carry);
    lemma_pow2_adds(gb, shift);
    let both = pow2(ga + 1074 + carry);
    assert(left * pow2(52) == (sa * sb) * both) by (nonlinear_arith)
        requires
            left == a * pow2(1074) * (sb * pow2(carry)),
            a * pow2(52) == sa * pow2(ga),
            both == pow2(ga) * (pow2(1074) * pow2(carry)),
    ;
    assert(right * pow2(52) == (sa * sb) * both) by (nonlinear_arith)
        requires
            right == sa * pow2(shift) * b,
            b * pow2(52) == sb * pow2(gb),
            both == pow2(gb) * pow2(shift),
    ;
    lemma_mul_equality_converse(pow2(52) as int, left as int, right as int);
}

/// Splits a positive number into a significand of exactly fifty-three bits
/// and a scale: the number, counted in units of 2^-1126, is the significand
/// times two to the scale.
fn normalise(bits: u64) -> (parts: (u64, u64))
    requires
        is_positive_finite(bits),
    ensures
        FRACTION_SPAN <= parts.0 < 2 * FRACTION_SPAN,
        parts.1 <= 2097,
        magnitude(bits) * pow2(52) == parts.0 * pow2(parts.1 as nat),
{
    let exponent: u64 = bits / FRACTION_SPAN;
    let fraction: u64 = bits % FRACTION_SPAN;
    if exponent > 0 {
        proof {
            lemma_pow2_adds((exponent - 1) as nat, 52);
            assert((FRACTION_SPAN + fraction) * pow2((exponent - 1) as nat) * pow2(52) == (
            FRACTION_SPAN + fraction) * (pow2((exponent - 1) as nat) * pow2(52)))
                by (nonlinear_arith);
        }
        (FRACTION_SPAN + fraction, exponent + 51)
    } else {
        let mut significand: u64 = fraction;
        let mut scale: u64 = 52;
        proof {
            lemma2_to64_rest();
        }
        while significand < FRACTION_SPAN
            invariant
                0 < significand < 2 * FRACTION_SPAN,
                scale <= 52,
                fraction >= 1,
                pow2(52) == FRACTION_SPAN,
                significand * pow2(scale as nat) == fraction * pow2(52),
            decreases scale,
        {
            proof {
                lemma2_to64();
                if scale == 0 {
                    assert(fraction * pow2(52) >= pow2(52)) by (nonlinear_arith)
                        requires
                            fraction >= 1,
                    ;
                    assert(significand * pow2(0) == significand) by (nonlinear_arith)
                        requires
                            pow2(0) == 1,
                    ;
                    assert(false);
                }
                lemma_pow2_unfold(scale as nat);
                assert((significand * 2) * pow2((scale - 1) as nat) == significand * (2 * pow2(
                    (scale - 1) as nat,
                ))) by (nonlinear_arith);
            }
            significand = significand * 2;
            scale = scale - 1;
        }
        (significand, scale)
    }
}

/// The last step of a division: `quotient` at exponent step `step`, moved to
/// its successor where the remainder `rem` of the divisor `div` is more than
/// half, or is exactly half and `quotient` is odd.
fn round_half_even(step: u64, quotient: u64, rem: u128, div: u128) -> (bits: u64)
    requires
        step <= 2044,
        quotient < 2 * FRACTION_SPAN,
        rem < div,
        div <= 0x7FFF_FFFF_FFFF_FFFF_FFFF_FFFF_FFFF_FFFF,
    ensures
        bits == step * FRACTION_SPAN + quotient + (if 2 * rem > div || (2 * rem == div && quotient
            % 2 == 1) {
            1nat
        } else {
            0nat
        }),
{
    let twice: u128 = 2 * rem;
    let low: u64 = step * FRACTION_SPAN + quotient;
    if twice > div || (twice == div && quotient % 2 == 1) {
        low + 1
    } else {
        low
    }
}

/// Divides the positive number `a` by a number `b` that is no smaller, and
/// rounds the quotient to nearest, ties to even, as IEEE 754 division does.
///
/// The quotient is at most one. It is zero where `a / b` is at most 2^-1075,
/// which is nearer to zero than to the least positive number.
pub fn quotient(a: u64, b: u64) -> (bits: u64)
    requires
        is_positive_finite(a),
        is_positive_finite(b),
        a <= b,
    ensures
        is_quotient(bits, a, b),
        bits <= ONE_BITS,
{
    let bits = rounded_ratio(a, b);
    proof {
        lemma_magnitude_ordered(a, b);
        lemma_magnitude_ordered(0, b);
        assert(magnitude(0) == 0);
        lemma_nearest_at_most_one(bits, magnitude(a), magnitude(b));
    }
    bits
}

/// The division itself: the significands are divided to fifty-three binary
/// places, the exponents are crossed out, and the digits are rounded where
/// they are cut off.
fn rounded_ratio(a: u64, b: u64) -> (bits: u64)
    requires
        is_positive_finite(a),
        is_positive_finite(b),
        a <= b,
    ensures
        is_quotient(bits, a, b),
{
    let (sa, ga) = normalise(a);
    let (sb, gb) = normalise(b);
    let ghost num = magnitude(a);
    let ghost den = magnitude(b);
    proof {
        lemma2_to64_rest();
        lemma_magnitude_ordered(a, b);
        lemma_magnitude_ordered(0, b);
        lemma_pow2_pos(ga as nat);
        lemma_pow2_pos(gb as nat);
        // The scale of `a` is no greater than that of `b`.
        if ga > gb {
            lemma_pow2_unfold(ga as nat);
            if ga - 1 > gb {
                lemma_pow2_strictly_increases(gb as nat, (ga - 1) as nat);
            }
            assert(sa * pow2(ga as nat) > sb * pow2(gb as nat)) by (nonlinear_arith)
                requires
                    sa >= FRACTION_SPAN,
                    sb < 2 * FRACTION_SPAN,
                    pow2(ga as nat) == 2 * pow2((ga - 1) as nat),
                    pow2(gb as nat) <= pow2((ga - 1) as nat),
                    pow2(gb as nat) > 0,
            ;
            assert(num * pow2(52) <= den * pow2(52)) by (nonlinear_arith)
                requires
                    num <= den,
            ;
            assert(false);
        }
    }
    let places: u64 = if sa >= sb {
        52
    } else {
        53
    };
    let factor: u128 = if sa >= sb {
        FRACTION_SPAN as u128
    } else {
        2 * (FRACTION_SPAN as u128)
    };
    assert(sa * factor <= 0x0040_0000_0000_0000 * 0x0020_0000_0000_0000) by (nonlinear_arith)
        requires
            sa < 0x0020_0000_0000_0000,
            factor <= 0x0020_0000_0000_0000,
    ;
    let wide: u128 = (sa as u128) * factor;
    let digits: u128 = wide / (sb as u128);
    let rem: u128 = wide % (sb as u128);
    proof {
        lemma2_to64();
        assert(factor == pow2(places as nat));
        vstd::arithmetic::div_mod::lemma_fundamental_div_mod(wide as int, sb as int);
        assert(wide == sb * digits + rem);
        // The quotient of the significands has exactly fifty-three bits.
        assert(FRACTION_SPAN <= digits < 2 * FRACTION_SPAN) by (nonlinear_arith)
            requires
                wide == sb * digits + rem,
                rem < sb,
                wide == sa * factor,
                FRACTION_SPAN <= sa < 2 * FRACTION_SPAN,
                FRACTION_SPAN <= sb < 2 * FRACTION_SPAN,
                sa >= sb ==> factor == FRACTION_SPAN,
                sa < sb ==> factor == 2 * FRACTION_SPAN,
                FRACTION_SPAN == 0x0010_0000_0000_0000,
        ;
    }
    let digits: u64 = digits as u64;
    let raised: u64 = ga + 1074 - places;
    if raised >= gb {
        let step: u64 = raised - gb;
        let bits = round_half_even(step, digits, rem, sb as u128);
        proof {
            lemma_cross(num, den, sa as nat, sb as nat, ga as nat, gb as nat, 0, (places + step) as nat);
            lemma_pow2_adds(places as nat, step as nat);
            assert(num * pow2(1074) * sb == (digits * sb + rem) * (pow2(step as nat) * den))
                by (nonlinear_arith)
                requires
                    num * pow2(1074) * (sb * pow2(0)) == sa * pow2((places + step) as nat) * den,
                    pow2(0) == 1,
                    pow2((places + step) as nat) == pow2(places as nat) * pow2(step as nat),
                    sa * pow2(places as nat) == sb * digits + rem,
            ;
            lemma_rounding(num, den, digits as nat, rem as nat, sb as nat, step as nat, bits);
        }
        bits
    } else {
        let lost: u64 = gb - raised;
        proof {
            lemma_cross(num, den, sa as nat, sb as nat, ga as nat, gb as nat, lost as nat, places as nat);
            lemma_pow2_pos(lost as nat);
        }
        if lost >= 54 {
            proof {
                if lost > 54 {
                    lemma_pow2_strictly_increases(54, lost as nat);
                }
                let exact = num * pow2(1074);
                assert(2 * exact < den) by (nonlinear_arith)
                    requires
                        exact * (sb * pow2(lost as nat)) == (sb * digits + rem) * den,
                        rem < sb,
                        sb > 0,
                        digits < 0x0020_0000_0000_0000,
                        pow2(lost as nat) >= 0x0040_0000_0000_0000,
                        den > 0,
                ;
                lemma_rounds_to_zero(num, den);
            }
            0
        } else {
            let unit: u64 = 1u64 << lost;
            proof {
                lemma2_to64();
                lemma2_to64_rest();
                vstd::bits::lemma_u64_pow2_no_overflow(lost as nat);
                vstd::bits::lemma_u64_shl_is_mul(1, lost);
                assert(unit == pow2(lost as nat));
                if lost < 53 {
                    lemma_pow2_strictly_increases(lost as nat, 53);
                }
                assert(unit <= 0x0020_0000_0000_0000);
            }
            let kept: u64 = digits / unit;
            let low: u64 = digits % unit;
            assert(low * sb + rem < sb * unit <= 0x0020_0000_0000_0000 * 0x0020_0000_0000_0000)
                by (nonlinear_arith)
                requires
                    low < unit,
                    rem < sb,
                    unit <= 0x0020_0000_0000_0000,
                    sb < 0x0020_0000_0000_0000,
            ;
            let rem_wide: u128 = (low as u128) * (sb as u128) + rem;
            let div_wide: u128 = (sb as u128) * (unit as u128);
            let bits = round_half_even(0, kept, rem_wide, div_wide);
            proof {
                vstd::arithmetic::div_mod::lemma_fundamental_div_mod(digits as int, unit as int);
                assert(num * pow2(1074) * div_wide == (kept * div_wide + rem_wide) * (pow2(0) * den))
                    by (nonlinear_arith)
                    requires
                        num * pow2(1074) * (sb * pow2(lost as nat)) == sa * pow2(places as nat)
                            * den,
                        sa * pow2(places as nat) == sb * digits + rem,
                        digits == unit * kept + low,
                        unit == pow2(lost as nat),
                        div_wide == sb * unit,
                        rem_wide == low * sb + rem,
                        pow2(0) == 1,
                ;
                lemma_rounding(num, den, kept as nat, rem_wide as nat, div_wide as nat, 0, bits);
            }
            bits
        }
    }
}

} // verus!
