//! Correct rounding to single precision, on integers.
//!
//! The finite binary32 magnitudes form an ascending list, and the low bits of a bit pattern are
//! a position in it. Rounding picks the nearest position, ties going to the even one.
use vstd::arithmetic::power2::pow2;
use vstd::prelude::*;

verus! {

/// Position of infinity in the list of magnitudes: larger positions are not numbers.
pub const INFINITE: u32 = 0x7f80_0000;

/// The absolute value at position `k` of the ascending list of binary32 magnitudes, in units of
/// the smallest positive one (two to the power of minus 149). At `INFINITE` it is the value
/// that the next larger finite number would have, which is where rounding overflows.
pub open spec fn magnitude(k: int) -> int {
    if k < 0x80_0000 {
        k
    } else {
        (k % 0x80_0000 + 0x80_0000) * pow2((k / 0x80_0000 - 1) as nat)
    }
}

/// Whether the magnitude at position `k` is the one nearest to `num / den`, with ties going to
/// the even position and everything past the largest finite magnitude going to infinity.
pub open spec fn is_nearest(num: int, den: int, k: int) -> bool {
    &&& 0 <= k <= INFINITE
    &&& k > 0 ==> {
        ||| (magnitude(k - 1) + magnitude(k)) * den < 2 * num
        ||| (magnitude(k - 1) + magnitude(k)) * den == 2 * num && k % 2 == 0
    }
    &&& k < INFINITE ==> {
        ||| 2 * num < (magnitude(k) + magnitude(k + 1)) * den
        ||| 2 * num == (magnitude(k) + magnitude(k + 1)) * den && k % 2 == 0
    }
}

/// The position of the magnitude nearest to `num / den`.
pub closed spec fn nearest(num: int, den: int) -> int {
    choose|k: int| is_nearest(num, den, k)
}

pub proof fn lemma_cell(s: nat, m: int)
    requires
        0 <= m <= 0x100_0000,
        s == 0 || m >= 0x80_0000,
    ensures
        magnitude(s * 0x80_0000 + m) == m * pow2(s),
{
    broadcast use vstd::arithmetic::power2::lemma_pow2_unfold;

    let k = s * 0x80_0000 + m;
    assert(pow2(0) == 1) by {
        vstd::arithmetic::power2::lemma2_to64();
    }
    if m < 0x80_0000 {
        assert(m * pow2(s) == m);
    } else if m < 0x100_0000 {
        assert(k / 0x80_0000 == s + 1);
        assert(k % 0x80_0000 == m - 0x80_0000);
    } else {
        assert(k / 0x80_0000 == s + 2);
        assert(k % 0x80_0000 == 0);
        assert(pow2((s + 1) as nat) == 2 * pow2(s));
        assert(0x80_0000 * (2 * pow2(s)) == 0x100_0000 * pow2(s)) by (nonlinear_arith);
    }
}

pub proof fn lemma_magnitude_step(k: int)
    requires
        0 <= k,
    ensures
        0 <= magnitude(k) < magnitude(k + 1),
{
    let (s, m): (nat, int) = if k < 0x80_0000 {
        (0, k)
    } else {
        ((k / 0x80_0000 - 1) as nat, k % 0x80_0000 + 0x80_0000)
    };
    assert(k == s * 0x80_0000 + m);
    lemma_cell(s, m);
    lemma_cell(s, m + 1);
    vstd::arithmetic::power2::lemma_pow2_pos(s);
    assert(0 <= m * pow2(s) < (m + 1) * pow2(s)) by (nonlinear_arith)
        requires
            pow2(s) > 0,
            m >= 0,
    ;
}

pub proof fn lemma_magnitude_monotone(j: int, k: int)
    requires
        0 <= j < k,
    ensures
        0 <= magnitude(j) < magnitude(k),
    decreases k - j,
{
    lemma_magnitude_step(k - 1);
    if j < k - 1 {
        lemma_magnitude_monotone(j, k - 1);
    }
}

proof fn lemma_nearest_below(num: int, den: int, j: int, k: int)
    requires
        den > 0,
        is_nearest(num, den, j),
        is_nearest(num, den, k),
    ensures
        j >= k,
{
    if j < k {
        lemma_magnitude_step(j);
        lemma_magnitude_step(k - 1);
        if j < k - 1 {
            lemma_magnitude_monotone(j, k - 1);
            lemma_magnitude_monotone(j + 1, k);
        }
        let low = magnitude(j) + magnitude(j + 1);
        let high = magnitude(k - 1) + magnitude(k);
        assert(low <= high);
        assert(low * den <= high * den) by (nonlinear_arith)
            requires
                low <= high,
                den > 0,
        ;
        if j < k - 1 {
            assert(low * den < high * den) by (nonlinear_arith)
                requires
                    low < high,
                    den > 0,
            ;
        }
    }
}

proof fn lemma_nearest_from(num: int, den: int, k: int)
    requires
        den > 0,
        0 <= k <= INFINITE,
        k > 0 ==> {
            ||| (magnitude(k - 1) + magnitude(k)) * den < 2 * num
            ||| (magnitude(k - 1) + magnitude(k)) * den == 2 * num && k % 2 == 0
        },
    ensures
        exists|j: int| is_nearest(num, den, j),
    decreases INFINITE - k,
{
    if is_nearest(num, den, k) {
    } else {
        lemma_nearest_from(num, den, k + 1);
    }
}

/// Every quotient has a nearest position.
pub proof fn lemma_nearest(num: int, den: int)
    requires
        den > 0,
    ensures
        is_nearest(num, den, nearest(num, den)),
{
    lemma_nearest_from(num, den, 0);
}

/// Rounding is a function: at most one position is nearest to `num / den`.
pub proof fn lemma_nearest_unique(num: int, den: int, k: int)
    requires
        den > 0,
        is_nearest(num, den, k),
    ensures
        nearest(num, den) == k,
{
    let j = nearest(num, den);
    lemma_nearest_below(num, den, j, k);
    lemma_nearest_below(num, den, k, j);
}

/// Whether `x` is `n` times `unit` or, with `above`, lies strictly between that and the next
/// multiple.
pub open spec fn between(x: int, unit: int, n: int, above: bool) -> bool {
    if above {
        n * unit < x < (n + 1) * unit
    } else {
        x == n * unit
    }
}

/// Two to the power of `t`, or one where `t` is negative.
pub open spec fn power(t: int) -> int {
    if t >= 0 {
        pow2(t as nat) as int
    } else {
        1
    }
}

/// Whether `num / den` is `n` times two to the power of `t` or, with `above`, lies strictly
/// between that and the next multiple.
pub open spec fn scaled(num: int, den: int, n: int, t: int, above: bool) -> bool {
    between(num * power(-t), power(t) * den, n, above)
}

pub proof fn lemma_power(t: int)
    ensures
        power(t) > 0,
        t <= 0 ==> power(t) == 1,
        t >= 0 ==> power(t + 1) == 2 * power(t),
{
    vstd::arithmetic::power2::lemma2_to64();
    if t >= 0 {
        vstd::arithmetic::power2::lemma_pow2_pos(t as nat);
        vstd::arithmetic::power2::lemma_pow2_unfold((t + 1) as nat);
    }
}

proof fn lemma_halve_unit(x: int, unit: int, n: int, above: bool)
    requires
        unit > 0,
        between(x, unit, n, above),
    ensures
        between(x, 2 * unit, n / 2, above || n % 2 == 1),
{
    let h = n / 2;
    assert(h * (2 * unit) == 2 * (h * unit)) by (nonlinear_arith);
    assert((h + 1) * (2 * unit) == 2 * (h * unit) + 2 * unit) by (nonlinear_arith);
    if n % 2 == 0 {
        assert(n * unit == 2 * (h * unit)) by (nonlinear_arith)
            requires
                n == 2 * h,
        ;
        assert((n + 1) * unit == 2 * (h * unit) + unit) by (nonlinear_arith)
            requires
                n == 2 * h,
        ;
    } else {
        assert(n * unit == 2 * (h * unit) + unit) by (nonlinear_arith)
            requires
                n == 2 * h + 1,
        ;
        assert((n + 1) * unit == 2 * (h * unit) + 2 * unit) by (nonlinear_arith)
            requires
                n == 2 * h + 1,
        ;
    }
}

proof fn lemma_between_halved(x: int, unit: int, n: int, above: bool)
    requires
        between(2 * x, 2 * unit, n, above),
    ensures
        between(x, unit, n, above),
{
    assert(n * (2 * unit) == 2 * (n * unit)) by (nonlinear_arith);
    assert((n + 1) * (2 * unit) == 2 * ((n + 1) * unit)) by (nonlinear_arith);
}

/// Halving the multiple keeps the value in place.
proof fn lemma_halve(num: int, den: int, n: int, t: int, above: bool)
    requires
        den > 0,
        scaled(num, den, n, t, above),
    ensures
        scaled(num, den, n / 2, t + 1, above || n % 2 == 1),
{
    let x = num * power(-t);
    let unit = power(t) * den;
    lemma_power(t);
    lemma_power(-t);
    assert(unit > 0) by (nonlinear_arith)
        requires
            den > 0,
            power(t) > 0,
            unit == power(t) * den,
    ;
    lemma_halve_unit(x, unit, n, above);
    if t >= 0 {
        lemma_power(-(t + 1));
        assert(power(t + 1) * den == 2 * unit) by (nonlinear_arith)
            requires
                power(t + 1) == 2 * power(t),
                unit == power(t) * den,
        ;
        assert(num * power(-(t + 1)) == x);
    } else {
        lemma_power(t + 1);
        lemma_power(-(t + 1));
        let x2 = num * power(-(t + 1));
        assert(x == 2 * x2) by (nonlinear_arith)
            requires
                power(-t) == 2 * power(-(t + 1)),
                x == num * power(-t),
                x2 == num * power(-(t + 1)),
        ;
        assert(power(t + 1) * den == unit);
        lemma_between_halved(x2, unit, n / 2, above || n % 2 == 1);
    }
}

/// Doubling an exact multiple keeps the value in place.
proof fn lemma_double(num: int, den: int, n: int, t: int)
    requires
        t >= 0,
        scaled(num, den, n, t, false),
    ensures
        scaled(num, den, 2 * n, t - 1, false),
{
    lemma_power(t - 1);
    lemma_power(t);
    lemma_power(-t);
    lemma_power(1 - t);
    if t == 0 {
        assert(num * power(0) == num && n * (power(0) * den) == n * den) by (nonlinear_arith)
            requires
                power(0) == 1,
        ;
        assert(num * power(1) == 2 * n * (power(-1) * den)) by (nonlinear_arith)
            requires
                num == n * den,
                power(1) == 2,
                power(-1) == 1,
        ;
    } else {
        assert(2 * n * (power(t - 1) * den) == n * (power(t) * den)) by (nonlinear_arith)
            requires
                power(t) == 2 * power(t - 1),
        ;
    }
}

/// The last step of rounding: a 24-bit significand with one bit below it.
proof fn lemma_round_cell(num: int, den: int, n: int, t: int, above: bool, k: int)
    requires
        den > 0,
        -1 <= t <= 252,
        0 <= n < 0x200_0000,
        n >= 0x100_0000 || t == -1,
        scaled(num, den, n, t, above),
        k == (t + 1) * 0x80_0000 + n / 2 + (if n % 2 == 1 && (above || (n / 2) % 2 == 1) {
            1int
        } else {
            0
        }),
    ensures
        is_nearest(num, den, k),
{
    let s = (t + 1) as nat;
    let m = n / 2;
    let low = s * 0x80_0000 + m;
    let up = n % 2 == 1 && (above || m % 2 == 1);
    lemma_cell(s, m);
    lemma_cell(s, m + 1);
    lemma_magnitude_step(low);
    lemma_magnitude_step(low + 1);
    if low > 0 {
        lemma_magnitude_step(low - 1);
    }
    lemma_power(t);
    lemma_power(-t);
    lemma_power(t + 1);
    let p = power(t + 1);
    assert(p == pow2(s));
    // Doubled, the value lies in the cell [2m * p, 2(m + 1) * p) * den.
    let y = 2 * num;
    let unit = p * den;
    assert(between(y, unit, n, above)) by {
        if t >= 0 {
            assert(num * power(-t) == num);
            assert(2 * (power(t) * den) == unit) by (nonlinear_arith)
                requires
                    p == 2 * power(t),
                    unit == p * den,
            ;
            let u = power(t) * den;
            assert(n * unit == 2 * (n * u)) by (nonlinear_arith)
                requires
                    unit == 2 * u,
            ;
            assert((n + 1) * unit == 2 * ((n + 1) * u)) by (nonlinear_arith)
                requires
                    unit == 2 * u,
            ;
        } else {
            lemma_power(0);
            assert(power(1) == 2);
            assert(num * power(1) == y && power(-1) * den == unit) by (nonlinear_arith)
                requires
                    power(1) == 2,
                    power(-1) == 1,
                    p == 1,
                    y == 2 * num,
                    unit == p * den,
            ;
        }
    }
    assert(unit > 0) by (nonlinear_arith)
        requires
            p > 0,
            den > 0,
            unit == p * den,
    ;
    let below = magnitude(low);
    let next = magnitude(low + 1);
    assert((below + next) * den == (2 * m + 1) * unit) by (nonlinear_arith)
        requires
            below == m * p,
            next == (m + 1) * p,
            unit == p * den,
    ;
    assert(2 * (below * den) == (2 * m) * unit) by (nonlinear_arith)
        requires
            below == m * p,
            unit == p * den,
    ;
    assert(2 * (next * den) == (2 * m + 2) * unit) by (nonlinear_arith)
        requires
            next == (m + 1) * p,
            unit == p * den,
    ;
    assert((2 * m + 1) * unit == 2 * m * unit + unit) by (nonlinear_arith);
    assert((2 * m + 2) * unit == 2 * m * unit + 2 * unit) by (nonlinear_arith);
    assert(n == 2 * m || n == 2 * m + 1);
    if up {
        assert(k == low + 1);
        let after = magnitude(low + 2);
        assert(2 * (next * den) < (next + after) * den) by (nonlinear_arith)
            requires
                next < after,
                den > 0,
        ;
        assert(y < 2 * (next * den));
    } else {
        assert(k == low);
        if low > 0 {
            let before = magnitude(low - 1);
            assert((before + below) * den < 2 * (below * den)) by (nonlinear_arith)
                requires
                    before < below,
                    den > 0,
            ;
        }
    }
}

/// A value of at least two to the power of 277 is past the largest magnitude.
proof fn lemma_round_overflow(num: int, den: int, n: int, t: int, above: bool)
    requires
        den > 0,
        t > 252,
        n >= 0x100_0000,
        scaled(num, den, n, t, above),
    ensures
        is_nearest(num, den, INFINITE as int),
{
    lemma_cell(254, 0x80_0000);
    lemma_magnitude_step(INFINITE - 1);
    lemma_power(-t);
    let big = pow2(254) as int;
    assert(power(t) * 2 >= big) by {
        vstd::arithmetic::power2::lemma_pow2_unfold(254);
        if t > 253 {
            vstd::arithmetic::power2::lemma_pow2_strictly_increases(253, t as nat);
        }
    }
    let unit = power(t) * den;
    let last = magnitude(INFINITE - 1);
    assert(num * power(-t) == num);
    assert((n + 1) * unit == n * unit + unit) by (nonlinear_arith);
    assert(num >= n * unit);
    vstd::arithmetic::power2::lemma_pow2_pos(254);
    assert(2 * (n * unit) >= 0x100_0000 * big * den) by (nonlinear_arith)
        requires
            unit == power(t) * den,
            power(t) * 2 >= big,
            n >= 0x100_0000,
            den > 0,
            big > 0,
    ;
    assert((last + magnitude(INFINITE as int)) * den < 0x100_0000 * big * den) by (nonlinear_arith)
        requires
            magnitude(INFINITE as int) == 0x80_0000 * big,
            last < magnitude(INFINITE as int),
            den > 0,
    ;
}

/// Rounds `n` times two to the power of `t`, or a value strictly between that and the next
/// multiple, to the nearest magnitude.
pub(crate) fn round_scaled(
    n: u128,
    t: i32,
    above: bool,
    Ghost(num): Ghost<int>,
    Ghost(den): Ghost<int>,
) -> (k: u32)
    requires
        den > 0,
        -1000 <= t <= 1000,
        scaled(num, den, n as int, t as int, above),
        above ==> n >= 0x200_0000,
    ensures
        k == nearest(num, den),
        k <= INFINITE,
{
    let mut n: u128 = n;
    let mut t: i32 = t;
    let mut above: bool = above;
    while (n >= 0x200_0000 && t <= 252) || t < -1
        invariant
            den > 0,
            -1000 <= t <= 1000,
            scaled(num, den, n as int, t as int, above),
            above ==> n >= 0x100_0000 || t <= -1,
        decreases n + (if t < -1 { -1 - t } else { 0 }),
    {
        proof {
            lemma_halve(num, den, n as int, t as int, above);
        }
        above = above || n % 2 == 1;
        n = n / 2;
        t = t + 1;
    }
    while n < 0x100_0000 && t > -1
        invariant
            den > 0,
            -1 <= t <= 1000,
            n < 0x200_0000 || t > 252,
            scaled(num, den, n as int, t as int, above),
            above ==> n >= 0x100_0000 || t <= -1,
        decreases t + 1,
    {
        proof {
            lemma_double(num, den, n as int, t as int);
        }
        n = n * 2;
        t = t - 1;
    }
    let k: u32 = if t > 252 {
        proof {
            lemma_round_overflow(num, den, n as int, t as int, above);
        }
        INFINITE
    } else {
        let m: u32 = (n / 2) as u32;
        let up: u32 = if n % 2 == 1 && (above || m % 2 == 1) { 1 } else { 0 };
        let k: u32 = (t + 1) as u32 * 0x80_0000 + m + up;
        proof {
            lemma_round_cell(num, den, n as int, t as int, above, k as int);
        }
        k
    };
    proof {
        lemma_nearest_unique(num, den, k as int);
    }
    k
}

} // verus!
