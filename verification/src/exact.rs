//! What the arithmetic of [`crate::scalar::Scalar`] says of exact values.
//!
//! Rounding never carries a result past a number that single precision has: a sum of at least
//! `r` is rounded to at least `r`. The laws of other modules go by exact values through these.
use vstd::arithmetic::power2::pow2;
use vstd::prelude::*;

verus! {

use crate::rounding::{
    is_nearest, lemma_cell, lemma_magnitude_monotone, lemma_magnitude_step, lemma_nearest,
    magnitude, nearest, INFINITE,
};
use crate::scalar::{fraction, lemma_order_by_value, signed, Scalar, SIGN_BIT};

/// The number one, in the units of [`Scalar::value`].
pub open spec fn one() -> int {
    pow2(149) as int
}

pub(crate) proof fn lemma_magnitude_ordered(j: int, k: int)
    requires
        0 <= j <= k,
    ensures
        0 <= magnitude(j) <= magnitude(k),
{
    lemma_magnitude_step(j);
    if j < k {
        lemma_magnitude_monotone(j, k);
    }
}

/// A quotient of at least a magnitude is rounded to at least it.
pub proof fn lemma_nearest_at_least(num: int, den: int, k: int)
    requires
        den > 0,
        0 <= k <= INFINITE,
        magnitude(k) * den <= num,
    ensures
        k <= nearest(num, den) <= INFINITE,
{
    lemma_nearest(num, den);
    let j = nearest(num, den);
    if j < k {
        lemma_magnitude_ordered(j + 1, k);
        lemma_magnitude_step(j);
        let low = magnitude(j) + magnitude(j + 1);
        let high = magnitude(k);
        assert(low * den < 2 * (high * den)) by (nonlinear_arith)
            requires
                low < 2 * high,
                den > 0,
        ;
    }
}

/// A quotient of at most a magnitude is rounded to at most it.
pub proof fn lemma_nearest_at_most(num: int, den: int, k: int)
    requires
        den > 0,
        0 <= k <= INFINITE,
        num <= magnitude(k) * den,
    ensures
        0 <= nearest(num, den) <= k,
{
    lemma_nearest(num, den);
    let j = nearest(num, den);
    if j > k {
        lemma_magnitude_ordered(k, j - 1);
        lemma_magnitude_step(j - 1);
        let low = magnitude(k);
        let high = magnitude(j - 1) + magnitude(j);
        assert(2 * (low * den) < high * den) by (nonlinear_arith)
            requires
                2 * low < high,
                den > 0,
        ;
    }
}

pub(crate) proof fn lemma_signed(negative: bool, k: int)
    requires
        0 <= k < SIGN_BIT,
    ensures
        signed(negative, k).position() == k,
        signed(negative, k).negative() == negative,
        signed(negative, k).rank() == (if negative {
            -k
        } else {
            k
        }),
{
}

/// Turning the sign over turns the exact value over.
pub proof fn lemma_negated(a: Scalar)
    ensures
        a.negated().value() == -a.value(),
        a.negated().finite() == a.finite(),
        a.negated().nan() == a.nan(),
        a.negated().rank() == -a.rank(),
{
    lemma_signed(!a.negative(), a.position());
}

/// Dropping the sign gives the absolute value.
pub proof fn lemma_absolute(a: Scalar)
    ensures
        a.absolute().finite() == a.finite(),
        a.absolute().value() == (if a.value() < 0 {
            -a.value()
        } else {
            a.value()
        }),
{
    lemma_signed(false, a.position());
    lemma_magnitude_ordered(a.position(), a.position());
}

/// A number without a sign is its own absolute value.
pub proof fn lemma_absolute_positive(a: Scalar)
    requires
        !a.negative(),
    ensures
        a.absolute() == a,
{
}

/// Where the exact sum is at least `r`, so is the rounded one.
pub proof fn lemma_sum_at_least(a: Scalar, b: Scalar, r: Scalar)
    requires
        a.finite() && b.finite() && r.finite(),
        r.value() <= a.value() + b.value(),
    ensures
        r.at_most(a.sum(b)),
{
    reveal(Scalar::sum);
    let exact = a.value() + b.value();
    let k = r.position();
    lemma_magnitude_ordered(0, k);
    lemma_nearest(exact, 1);
    lemma_nearest(-exact, 1);
    lemma_signed(false, nearest(exact, 1));
    lemma_signed(true, nearest(-exact, 1));
    lemma_signed(true, 0);
    lemma_signed(false, 0);
    if k > 0 {
        lemma_magnitude_monotone(0, k);
    }
    if exact > 0 {
        if !r.negative() {
            lemma_nearest_at_least(exact, 1, k);
        }
    } else if exact < 0 {
        lemma_nearest_at_most(-exact, 1, k);
    }
}

/// Where the exact sum is at most `r`, so is the rounded one.
pub proof fn lemma_sum_at_most(a: Scalar, b: Scalar, r: Scalar)
    requires
        a.finite() && b.finite() && r.finite(),
        a.value() + b.value() <= r.value(),
    ensures
        a.sum(b).at_most(r),
{
    reveal(Scalar::sum);
    let exact = a.value() + b.value();
    let k = r.position();
    lemma_magnitude_ordered(0, k);
    lemma_nearest(exact, 1);
    lemma_nearest(-exact, 1);
    lemma_signed(false, nearest(exact, 1));
    lemma_signed(true, nearest(-exact, 1));
    lemma_signed(true, 0);
    lemma_signed(false, 0);
    if k > 0 {
        lemma_magnitude_monotone(0, k);
    }
    if exact < 0 {
        if r.negative() {
            lemma_nearest_at_least(-exact, 1, k);
        }
    } else if exact > 0 {
        lemma_nearest_at_most(exact, 1, k);
    }
}

/// Where the exact difference is at least `r`, so is the rounded one.
pub proof fn lemma_difference_at_least(a: Scalar, b: Scalar, r: Scalar)
    requires
        a.finite() && b.finite() && r.finite(),
        r.value() <= a.value() - b.value(),
    ensures
        r.at_most(a.difference(b)),
{
    lemma_negated(b);
    lemma_sum_at_least(a, b.negated(), r);
}

/// Where the exact difference is at most `r`, so is the rounded one.
pub proof fn lemma_difference_at_most(a: Scalar, b: Scalar, r: Scalar)
    requires
        a.finite() && b.finite() && r.finite(),
        a.value() - b.value() <= r.value(),
    ensures
        a.difference(b).at_most(r),
{
    lemma_negated(b);
    lemma_sum_at_most(a, b.negated(), r);
}

/// A number that single precision has is hit exactly: where the exact difference is the value of
/// `r`, so is the rounded one.
pub proof fn lemma_difference_exact(a: Scalar, b: Scalar, r: Scalar)
    requires
        a.finite() && b.finite() && r.finite(),
        a.value() - b.value() == r.value(),
    ensures
        a.difference(b).finite(),
        a.difference(b).value() == r.value(),
{
    lemma_difference_at_least(a, b, r);
    lemma_difference_at_most(a, b, r);
    let d = a.difference(b);
    assert(d.rank() == r.rank());
    assert(d.position() == r.position());
    lemma_order_by_value(d, r);
    lemma_order_by_value(r, d);
}

/// Where the exact quotient of two numbers that are not negative is at least `r`, so is the rounded
/// one.
pub proof fn lemma_quotient_at_least(a: Scalar, b: Scalar, r: Scalar)
    requires
        a.finite() && b.finite() && r.finite(),
        !a.negative() && !b.negative() && b.value() > 0,
        r.value() * b.value() <= a.value() * one(),
    ensures
        r.at_most(a.quotient(b)),
{
    reveal(Scalar::quotient);
    let (num, den) = (a.value() * one(), b.value());
    lemma_nearest(num, den);
    lemma_signed(false, nearest(num, den));
    lemma_magnitude_ordered(0, r.position());
    if !r.negative() {
        lemma_nearest_at_least(num, den, r.position());
    }
}

/// Where the exact quotient of two numbers that are not negative is at most `r`, so is the rounded
/// one.
pub proof fn lemma_quotient_at_most(a: Scalar, b: Scalar, r: Scalar)
    requires
        a.finite() && b.finite() && r.finite(),
        !a.negative() && !b.negative() && !r.negative() && b.value() > 0,
        a.value() * one() <= r.value() * b.value(),
    ensures
        a.quotient(b).at_most(r),
{
    reveal(Scalar::quotient);
    let (num, den) = (a.value() * one(), b.value());
    lemma_nearest(num, den);
    lemma_signed(false, nearest(num, den));
    lemma_nearest_at_most(num, den, r.position());
}

/// Whether `size` is the number nearest to the exact way from `low` to `high`, negative where
/// `high` lies below `low`.
pub open spec fn measures(size: Scalar, low: Scalar, high: Scalar) -> bool {
    let way = high.value() - low.value();
    &&& way > 0 ==> !size.negative() && is_nearest(way, 1, size.position())
    &&& way < 0 ==> size.negative() && is_nearest(-way, 1, size.position())
    &&& way == 0 ==> size.position() == 0
}

/// The difference of two numbers is the number nearest to the exact one.
pub proof fn lemma_difference_nearest(a: Scalar, b: Scalar)
    requires
        a.finite() && b.finite(),
    ensures
        measures(a.difference(b), b, a),
        !a.difference(b).nan(),
{
    reveal(Scalar::sum);
    lemma_negated(b);
    let exact = a.value() - b.value();
    lemma_nearest(exact, 1);
    lemma_signed(false, nearest(exact, 1));
    lemma_nearest(-exact, 1);
    lemma_signed(true, nearest(-exact, 1));
    lemma_signed(a.negative() && b.negated().negative(), 0);
}

/// Where the exact product of two numbers that are not negative is at most `r`, so is the rounded
/// one.
pub proof fn lemma_product_at_most(a: Scalar, b: Scalar, r: Scalar)
    requires
        a.finite() && b.finite() && r.finite(),
        !a.negative() && !b.negative() && !r.negative(),
        a.value() * b.value() <= r.value() * one(),
    ensures
        a.product(b).at_most(r),
{
    reveal(Scalar::product);
    vstd::arithmetic::power2::lemma_pow2_pos(149);
    let num = a.value() * b.value();
    lemma_nearest(num, one());
    lemma_signed(false, nearest(num, one()));
    lemma_nearest_at_most(num, one(), r.position());
}

/// Where the exact product of two numbers that are not negative is at least `r`, so is the rounded
/// one.
pub proof fn lemma_product_at_least(a: Scalar, b: Scalar, r: Scalar)
    requires
        a.finite() && b.finite() && r.finite(),
        !a.negative() && !b.negative(),
        r.value() * one() <= a.value() * b.value(),
    ensures
        r.at_most(a.product(b)),
{
    reveal(Scalar::product);
    vstd::arithmetic::power2::lemma_pow2_pos(149);
    let num = a.value() * b.value();
    lemma_nearest(num, one());
    lemma_signed(false, nearest(num, one()));
    lemma_magnitude_ordered(0, r.position());
    if !r.negative() {
        lemma_nearest_at_least(num, one(), r.position());
    }
}

proof fn lemma_whole_from(n: int, s: nat, m: int)
    requires
        s <= 149,
        0 < m < 0x100_0000,
        n * pow2((149 - s) as nat) == m,
        s >= 126 || m >= 0x80_0000,
    ensures
        fraction(n, 1).finite(),
        !fraction(n, 1).negative(),
        fraction(n, 1).value() == n * one(),
    decreases s,
{
    if m >= 0x80_0000 {
        assert(n * pow2((149 - s) as nat) == m * 1);
        lemma_fraction_exact(n, 1, s, m);
    } else {
        let q = pow2((149 - s) as nat) as int;
        vstd::arithmetic::power2::lemma_pow2_unfold((150 - s) as nat);
        assert(n * (2 * q) == 2 * m) by (nonlinear_arith)
            requires
                n * q == m,
        ;
        if s == 126 {
            vstd::arithmetic::power2::lemma2_to64();
            assert(n >= 1) by (nonlinear_arith)
                requires
                    n * q == m,
                    m > 0,
                    q > 0,
            ;
            assert(n * q >= q) by (nonlinear_arith)
                requires
                    n >= 1,
                    q > 0,
            ;
        }
        lemma_whole_from(n, (s - 1) as nat, 2 * m);
    }
}

/// A count below two to the power of 24 is exact.
pub proof fn lemma_count_exact(n: int)
    requires
        0 < n < 0x100_0000,
    ensures
        fraction(n, 1).finite(),
        !fraction(n, 1).negative(),
        fraction(n, 1).value() == n * one(),
{
    vstd::arithmetic::power2::lemma2_to64();
    assert(n * pow2(0) == n) by (nonlinear_arith)
        requires
            pow2(0) == 1,
    ;
    lemma_whole_from(n, 149, n);
}

/// The quotient of a number by a count is the number nearest to the exact one.
pub proof fn lemma_shared_among(a: Scalar, n: int)
    requires
        a.finite() && a.value() > 0,
        0 < n < 0x100_0000,
    ensures
        !a.quotient(fraction(n, 1)).negative(),
        is_nearest(a.value(), n, a.quotient(fraction(n, 1)).position()),
{
    reveal(Scalar::quotient);
    lemma_count_exact(n);
    vstd::arithmetic::power2::lemma_pow2_pos(149);
    let u = one();
    let (num, den) = (a.value() * u, n * u);
    assert(den > 0) by (nonlinear_arith)
        requires
            n > 0,
            u > 0,
            den == n * u,
    ;
    assert(!a.negative()) by {
        lemma_magnitude_ordered(0, a.position());
    }
    lemma_nearest(num, den);
    let k = nearest(num, den);
    lemma_signed(false, k);
    let x = a.value();
    if k > 0 {
        lemma_scaled_order(magnitude(k - 1) + magnitude(k), n, x, u);
    }
    if k < INFINITE {
        lemma_scaled_order(magnitude(k) + magnitude(k + 1), n, x, u);
    }
}

proof fn lemma_scaled_order(w: int, n: int, x: int, u: int)
    requires
        u > 0,
    ensures
        w * (n * u) < 2 * (x * u) <==> w * n < 2 * x,
        w * (n * u) == 2 * (x * u) <==> w * n == 2 * x,
        2 * (x * u) < w * (n * u) <==> 2 * x < w * n,
{
    let (a, b) = (w * n, 2 * x);
    assert(w * (n * u) == a * u && 2 * (x * u) == b * u) by (nonlinear_arith)
        requires
            a == w * n,
            b == 2 * x,
    ;
    if a < b {
        assert(a * u < b * u) by (nonlinear_arith)
            requires
                a < b,
                u > 0,
        ;
    }
    if b < a {
        assert(b * u < a * u) by (nonlinear_arith)
            requires
                b < a,
                u > 0,
        ;
    }
}

/// Half of a number that is not small is exact.
pub proof fn lemma_half(a: Scalar)
    requires
        a.finite() && a.value() >= one(),
    ensures
        a.product(fraction(1, 2)).finite(),
        !a.product(fraction(1, 2)).negative(),
        2 * a.product(fraction(1, 2)).value() == a.value(),
{
    lemma_round_numbers();
    lemma_magnitude_ordered(0, a.position());
    let k = a.position();
    vstd::arithmetic::power2::lemma2_to64();
    assert(k >= 0x100_0000) by {
        if k < 0x100_0000 {
            lemma_magnitude_ordered(k, 0x100_0000);
            lemma_cell(1, 0x80_0000);
            vstd::arithmetic::power2::lemma_pow2_strictly_increases(24, 149);
        }
    }
    let s = (k / 0x80_0000 - 1) as nat;
    let m = k % 0x80_0000 + 0x80_0000;
    lemma_cell(s, m);
    lemma_cell((s - 1) as nat, m);
    vstd::arithmetic::power2::lemma_pow2_unfold(s);
    let p = pow2((s - 1) as nat) as int;
    assert(m * (2 * p) == 2 * (m * p)) by (nonlinear_arith);
    let r = signed(false, k - 0x80_0000);
    lemma_signed(false, k - 0x80_0000);
    assert(2 * r.value() == a.value());
    let h = fraction(1, 2);
    assert(!h.negative()) by {
        lemma_magnitude_ordered(0, h.position());
    }
    assert(a.value() * h.value() == r.value() * one()) by (nonlinear_arith)
        requires
            2 * r.value() == a.value(),
            2 * h.value() == one(),
    ;
    lemma_product_at_most(a, h, r);
    lemma_product_at_least(a, h, r);
    let q = a.product(h);
    assert(q.rank() == r.rank());
    reveal(Scalar::product);
    lemma_nearest(a.value() * h.value(), one());
    lemma_signed(false, nearest(a.value() * h.value(), one()));
}

/// The magnitude `m` times two to the power of `s`, as a count of halves, tenths and the like.
proof fn lemma_fraction_exact(num: int, den: int, s: nat, m: int)
    requires
        den > 0,
        s <= 149,
        0x80_0000 <= m < 0x100_0000,
        num * pow2((149 - s) as nat) == m * den,
    ensures
        fraction(num, den).finite(),
        !fraction(num, den).negative(),
        fraction(num, den).value() == m * pow2(s),
        fraction(num, den).value() * den == num * one(),
{
    let k = s * 0x80_0000 + m;
    lemma_cell(s, m);
    let q = pow2((149 - s) as nat) as int;
    let p = pow2(s) as int;
    vstd::arithmetic::power2::lemma_pow2_adds((149 - s) as nat, s);
    assert(num * (q * p) == (m * p) * den) by (nonlinear_arith)
        requires
            num * q == m * den,
    ;
    lemma_nearest_at_least(num * pow2(149), den, k);
    lemma_nearest_at_most(num * pow2(149), den, k);
    lemma_signed(false, k);
}

/// The whole numbers and the half that the layout of a page goes by are exact.
pub proof fn lemma_round_numbers()
    ensures
        fraction(1, 2).finite() && 2 * fraction(1, 2).value() == one(),
        fraction(2, 1).finite() && fraction(2, 1).value() == 2 * one(),
        fraction(4, 1).finite() && fraction(4, 1).value() == 4 * one(),
        fraction(5, 1).finite() && fraction(5, 1).value() == 5 * one(),
        fraction(15, 1).finite() && fraction(15, 1).value() == 15 * one(),
        fraction(20, 1).finite() && fraction(20, 1).value() == 20 * one(),
        one() > 0,
{
    vstd::arithmetic::power2::lemma2_to64();
    vstd::arithmetic::power2::lemma_pow2_pos(149);
    lemma_fraction_exact(1, 2, 125, 0x80_0000);
    lemma_fraction_exact(2, 1, 127, 0x80_0000);
    lemma_fraction_exact(4, 1, 128, 0x80_0000);
    lemma_fraction_exact(5, 1, 128, 0xa0_0000);
    lemma_fraction_exact(15, 1, 129, 0xf0_0000);
    lemma_fraction_exact(20, 1, 130, 0xa0_0000);
}

/// The product of two numbers is the number nearest to the exact one.
pub proof fn lemma_product_nearest(a: Scalar, b: Scalar)
    requires
        a.finite() && b.finite(),
    ensures
        a.product(b).negative() == (a.negative() != b.negative()),
        is_nearest(
            a.absolute().value() * b.absolute().value(),
            one(),
            a.product(b).position(),
        ),
{
    reveal(Scalar::product);
    lemma_signed(false, a.position());
    lemma_signed(false, b.position());
    vstd::arithmetic::power2::lemma_pow2_pos(149);
    let num = magnitude(a.position()) * magnitude(b.position());
    lemma_nearest(num, one());
    lemma_signed(a.negative() != b.negative(), nearest(num, one()));
}

/// The quotient of two numbers is the number nearest to the exact one.
pub proof fn lemma_quotient_nearest(a: Scalar, b: Scalar)
    requires
        a.finite() && b.finite(),
        b.value() != 0,
    ensures
        a.quotient(b).negative() == (a.negative() != b.negative()),
        is_nearest(
            a.absolute().value() * one(),
            b.absolute().value(),
            a.quotient(b).position(),
        ),
{
    reveal(Scalar::quotient);
    lemma_signed(false, a.position());
    lemma_signed(false, b.position());
    lemma_magnitude_ordered(0, b.position());
    let num = magnitude(a.position()) * one();
    let den = magnitude(b.position());
    lemma_nearest(num, den);
    lemma_signed(a.negative() != b.negative(), nearest(num, den));
}

} // verus!
