//! Single-precision coordinates.
//!
//! A [`Scalar`] is an IEEE 754 binary32 value carried as its bit pattern. Ordering, the four
//! operations and the conversion from a count are integer computations, and each is proved to
//! return the binary32 value nearest to the exact result, ties going to the even significand.
//! Where IEEE 754 leaves a choice, it is made here: every NaN result is the same one, and the
//! smaller or larger of two zeros is the first.
use crate::rounding::round_scaled;
use crate::rounding::INFINITE;
use vstd::arithmetic::power2::pow2;
use vstd::prelude::*;

verus! {

use crate::rounding::{
    lemma_cell, lemma_magnitude_monotone, lemma_magnitude_step, lemma_nearest_unique, lemma_power,
    magnitude, nearest, power,
};

/// The bit pattern of the one NaN that the operations return.
pub const QUIET_NAN: u32 = 0x7fc0_0000;

/// The sign bit.
pub const SIGN_BIT: u32 = 0x8000_0000;

/// An IEEE 754 binary32 value, held as its bit pattern.
///
/// Two values are `==` when their bit patterns are; the numeric comparisons are [`Scalar::lt`]
/// and [`Scalar::le`].
#[derive(Clone, Copy, Debug, PartialEq, Eq, Structural)]
pub struct Scalar {
    pub bits: u32,
}

/// The value at position `k` of the list of magnitudes, with the given sign.
pub open spec fn signed(negative: bool, k: int) -> Scalar {
    Scalar {
        bits: if negative {
            (k + SIGN_BIT) as u32
        } else {
            k as u32
        },
    }
}

/// The NaN that the operations return.
pub open spec fn nan() -> Scalar {
    Scalar { bits: QUIET_NAN }
}

/// The exact quotient `num / den` of two counts, rounded.
pub open spec fn fraction(num: int, den: int) -> Scalar {
    signed(false, nearest(num * pow2(149), den))
}

impl Scalar {
    /// The position in the ascending list of magnitudes.
    pub open spec fn position(self) -> int {
        (self.bits % SIGN_BIT) as int
    }

    pub open spec fn negative(self) -> bool {
        self.bits >= SIGN_BIT
    }

    pub open spec fn nan(self) -> bool {
        self.position() > INFINITE
    }

    pub open spec fn infinite(self) -> bool {
        self.position() == INFINITE
    }

    pub open spec fn finite(self) -> bool {
        self.position() < INFINITE
    }

    /// The place of a number in the numeric order. The two zeros share one.
    pub open spec fn rank(self) -> int {
        if self.negative() {
            -self.position()
        } else {
            self.position()
        }
    }

    /// The exact value of a finite number, in units of two to the power of minus 149.
    pub open spec fn value(self) -> int {
        if self.negative() {
            -magnitude(self.position())
        } else {
            magnitude(self.position())
        }
    }

    /// Numeric `<`, false where a NaN is involved.
    pub open spec fn less(self, other: Scalar) -> bool {
        !self.nan() && !other.nan() && self.rank() < other.rank()
    }

    /// Numeric `<=`, false where a NaN is involved.
    pub open spec fn at_most(self, other: Scalar) -> bool {
        !self.nan() && !other.nan() && self.rank() <= other.rank()
    }

    /// The smaller of two values. A NaN yields to the other one.
    pub open spec fn smaller(self, other: Scalar) -> Scalar {
        if self.nan() || other.less(self) {
            other
        } else {
            self
        }
    }

    /// The larger of two values. A NaN yields to the other one.
    pub open spec fn larger(self, other: Scalar) -> Scalar {
        if self.nan() || self.less(other) {
            other
        } else {
            self
        }
    }

    /// The value brought into the range from `low` to `high`.
    pub open spec fn clamped(self, low: Scalar, high: Scalar) -> Scalar {
        if self.less(low) {
            low
        } else if high.less(self) {
            high
        } else {
            self
        }
    }

    pub open spec fn negated(self) -> Scalar {
        signed(!self.negative(), self.position())
    }

    pub open spec fn absolute(self) -> Scalar {
        signed(false, self.position())
    }

    /// The exact sum, rounded.
    #[verifier::opaque]
    pub open spec fn sum(self, other: Scalar) -> Scalar {
        let exact = self.value() + other.value();
        if self.nan() || other.nan() {
            nan()
        } else if self.infinite() {
            if other.infinite() && self.negative() != other.negative() {
                nan()
            } else {
                self
            }
        } else if other.infinite() {
            other
        } else if exact == 0 {
            signed(self.negative() && other.negative(), 0)
        } else if exact < 0 {
            signed(true, nearest(-exact, 1))
        } else {
            signed(false, nearest(exact, 1))
        }
    }

    /// The exact difference, rounded.
    pub open spec fn difference(self, other: Scalar) -> Scalar {
        self.sum(other.negated())
    }

    /// The exact product, rounded.
    #[verifier::opaque]
    pub open spec fn product(self, other: Scalar) -> Scalar {
        let negative = self.negative() != other.negative();
        if self.nan() || other.nan() {
            nan()
        } else if self.infinite() || other.infinite() {
            if self.position() == 0 || other.position() == 0 {
                nan()
            } else {
                signed(negative, INFINITE as int)
            }
        } else {
            signed(
                negative,
                nearest(magnitude(self.position()) * magnitude(other.position()), pow2(149) as int),
            )
        }
    }

    /// The exact quotient, rounded.
    #[verifier::opaque]
    pub open spec fn quotient(self, other: Scalar) -> Scalar {
        let negative = self.negative() != other.negative();
        if self.nan() || other.nan() {
            nan()
        } else if self.infinite() {
            if other.infinite() {
                nan()
            } else {
                signed(negative, INFINITE as int)
            }
        } else if other.infinite() {
            signed(negative, 0)
        } else if other.position() == 0 {
            if self.position() == 0 {
                nan()
            } else {
                signed(negative, INFINITE as int)
            }
        } else {
            signed(
                negative,
                nearest(magnitude(self.position()) * pow2(149), magnitude(other.position())),
            )
        }
    }
}

/// A magnitude rounds to itself.
pub proof fn lemma_nearest_exact(k: int)
    requires
        0 <= k < INFINITE,
    ensures
        nearest(magnitude(k), 1) == k,
{
    lemma_magnitude_step(k);
    if k > 0 {
        lemma_magnitude_step(k - 1);
    }
    lemma_nearest_unique(magnitude(k), 1, k);
}

/// The numeric order of finite numbers is the order of their exact values.
pub proof fn lemma_order_by_value(a: Scalar, b: Scalar)
    requires
        a.finite(),
        b.finite(),
    ensures
        a.less(b) <==> a.value() < b.value(),
        a.at_most(b) <==> a.value() <= b.value(),
{
    let (j, k) = (a.position(), b.position());
    if j < k {
        lemma_magnitude_monotone(j, k);
    }
    if k < j {
        lemma_magnitude_monotone(k, j);
    }
    if j > 0 {
        lemma_magnitude_monotone(0, j);
    }
    if k > 0 {
        lemma_magnitude_monotone(0, k);
    }
}

/// `m` times two to the power of `d`.
fn scale_up(m: u128, d: u32) -> (r: u128)
    requires
        m < 0x1000_0000,
        d <= 96,
    ensures
        r == m * pow2(d as nat),
{
    let mut r: u128 = m;
    let mut i: u32 = 0;
    proof {
        vstd::arithmetic::power2::lemma2_to64();
    }
    while i < d
        invariant
            m < 0x1000_0000,
            i <= d <= 96,
            r == m * pow2(i as nat),
        decreases d - i,
    {
        proof {
            vstd::arithmetic::power2::lemma_pow2_unfold((i + 1) as nat);
            vstd::arithmetic::power2::lemma2_to64();
            vstd::arithmetic::power2::lemma2_to64_rest();
            let p = pow2(i as nat) as int;
            assert(p <= 0x1_0000_0000_0000_0000_0000_0000) by {
                vstd::arithmetic::power2::lemma_pow2_adds(48, 48);
                if i < 96 {
                    vstd::arithmetic::power2::lemma_pow2_strictly_increases(i as nat, 96);
                }
            }
            assert(m * p <= 0x1000_0000 * 0x1_0000_0000_0000_0000_0000_0000) by (nonlinear_arith)
                requires
                    0 <= m <= 0x1000_0000,
                    0 <= p <= 0x1_0000_0000_0000_0000_0000_0000,
            ;
            assert(2 * (m * p) == m * (2 * p)) by (nonlinear_arith);
        }
        r = r * 2;
        i = i + 1;
    }
    r
}

/// The significand and the power of two of the magnitude at position `k`.
fn decode(k: u32) -> (r: (u32, u32))
    requires
        k < INFINITE,
    ensures
        magnitude(k as int) == r.0 * pow2(r.1 as nat),
        r.0 < 0x100_0000,
        r.1 <= 253,
        r.1 == (if k < 0x80_0000 { 0 } else { k / 0x80_0000 - 1 }),
        r.1 > 0 ==> r.0 >= 0x80_0000,
        k > 0 ==> r.0 > 0,
{
    let (m, s): (u32, u32) = if k < 0x80_0000 {
        (k, 0)
    } else {
        (k % 0x80_0000 + 0x80_0000, k / 0x80_0000 - 1)
    };
    proof {
        lemma_cell(s as nat, m as int);
    }
    (m, s)
}

/// Two magnitudes added.
fn sum_positions(a: u32, b: u32) -> (k: u32)
    requires
        0 < b <= a < INFINITE,
    ensures
        k == nearest(magnitude(a as int) + magnitude(b as int), 1),
        k <= INFINITE,
{
    let (ma, sa) = decode(a);
    let (mb, sb) = decode(b);
    let d: u32 = sa - sb;
    let ghost exact = magnitude(a as int) + magnitude(b as int);
    if d <= 90 {
        let high: u128 = scale_up(ma as u128, d);
        proof {
            lemma_high_bound(ma as int, d as nat);
        }
        let n: u128 = high + mb as u128;
        proof {
            lemma_aligned(ma as int, sa as nat, mb as int, sb as nat, d as nat);
            lemma_whole(exact, sb as int);
        }
        round_scaled(n, sb as i32, false, Ghost(exact), Ghost(1))
    } else {
        let n: u128 = scale_up(ma as u128, 32);
        proof {
            lemma_far(ma as int, sa as nat, mb as int, sb as nat, n as int);
            let t = sa - 32;
            lemma_whole(exact, t);
            assert((n + 1) * power(t) == n * power(t) + power(t)) by (nonlinear_arith);
        }
        round_scaled(n, sa as i32 - 32, true, Ghost(exact), Ghost(1))
    }
}

/// The smaller of two different magnitudes taken from the larger.
fn difference_positions(a: u32, b: u32) -> (k: u32)
    requires
        0 < b < a < INFINITE,
    ensures
        k == nearest(magnitude(a as int) - magnitude(b as int), 1),
        k <= INFINITE,
{
    let (ma, sa) = decode(a);
    let (mb, sb) = decode(b);
    let d: u32 = sa - sb;
    let ghost exact = magnitude(a as int) - magnitude(b as int);
    if d <= 90 {
        let high: u128 = scale_up(ma as u128, d);
        proof {
            lemma_high_bound(ma as int, d as nat);
            lemma_magnitude_monotone(b as int, a as int);
            lemma_aligned(ma as int, sa as nat, mb as int, sb as nat, d as nat);
            assert(high >= mb) by (nonlinear_arith)
                requires
                    high * pow2(sb as nat) > mb * pow2(sb as nat),
            ;
        }
        let n: u128 = high - mb as u128;
        proof {
            lemma_whole(exact, sb as int);
        }
        round_scaled(n, sb as i32, false, Ghost(exact), Ghost(1))
    } else {
        let m: u128 = scale_up(ma as u128, 32);
        proof {
            lemma_far(ma as int, sa as nat, mb as int, sb as nat, m as int);
        }
        let n: u128 = m - 1;
        proof {
            let t = sa - 32;
            lemma_whole(exact, t);
            assert(m * power(t) == n * power(t) + power(t)) by (nonlinear_arith)
                requires
                    m == n + 1,
            ;
        }
        round_scaled(n, sa as i32 - 32, true, Ghost(exact), Ghost(1))
    }
}

/// A whole number of units, with nothing to divide by.
proof fn lemma_whole(exact: int, t: int)
    requires
        t >= 0,
    ensures
        exact * power(-t) == exact,
        power(t) * 1 == pow2(t as nat),
{
    lemma_power(-t);
    assert(exact * power(-t) == exact) by (nonlinear_arith)
        requires
            power(-t) == 1,
    ;
}

proof fn lemma_high_bound(m: int, d: nat)
    requires
        0 <= m < 0x100_0000,
        d <= 90,
    ensures
        0 <= m * pow2(d) < 0x100_0000_0000_0000_0000_0000_0000_0000,
{
    vstd::arithmetic::power2::lemma2_to64();
    vstd::arithmetic::power2::lemma2_to64_rest();
    vstd::arithmetic::power2::lemma_pow2_adds(48, 48);
    vstd::arithmetic::power2::lemma_pow2_strictly_increases(d, 96);
    let p = pow2(d) as int;
    assert(0 <= m * p < 0x100_0000 * 0x1_0000_0000_0000_0000_0000_0000) by (nonlinear_arith)
        requires
            0 <= m < 0x100_0000,
            0 <= p < 0x1_0000_0000_0000_0000_0000_0000,
    ;
}

/// Two significands written over the smaller of their powers of two.
proof fn lemma_aligned(ma: int, sa: nat, mb: int, sb: nat, d: nat)
    requires
        sa == sb + d,
    ensures
        ma * pow2(sa) == (ma * pow2(d)) * pow2(sb),
        (ma * pow2(d) + mb) * pow2(sb) == ma * pow2(sa) + mb * pow2(sb),
        (ma * pow2(d) - mb) * pow2(sb) == ma * pow2(sa) - mb * pow2(sb),
{
    vstd::arithmetic::power2::lemma_pow2_adds(d, sb);
    let (p, q) = (pow2(d) as int, pow2(sb) as int);
    assert(ma * (p * q) == (ma * p) * q) by (nonlinear_arith);
    assert((ma * p + mb) * q == (ma * p) * q + mb * q) by (nonlinear_arith);
    assert((ma * p - mb) * q == (ma * p) * q - mb * q) by (nonlinear_arith);
}

/// A magnitude far below another is less than one unit in the 32nd place below its last.
proof fn lemma_far(ma: int, sa: nat, mb: int, sb: nat, n: int)
    requires
        0x80_0000 <= ma < 0x100_0000,
        0 < mb < 0x100_0000,
        sa > sb + 90,
        n == ma * pow2(32),
    ensures
        n * power(sa - 32) == ma * pow2(sa),
        0 < mb * pow2(sb) < power(sa - 32),
        n > 0x200_0000,
{
    vstd::arithmetic::power2::lemma2_to64();
    vstd::arithmetic::power2::lemma2_to64_rest();
    let u = (sa - 32) as nat;
    vstd::arithmetic::power2::lemma_pow2_adds(32, u);
    let (p, q) = (pow2(32) as int, pow2(u) as int);
    assert(ma * (p * q) == (ma * p) * q) by (nonlinear_arith);
    vstd::arithmetic::power2::lemma_pow2_adds(24, sb);
    vstd::arithmetic::power2::lemma_pow2_strictly_increases(24 + sb, u);
    vstd::arithmetic::power2::lemma_pow2_pos(sb);
    let r = pow2(sb) as int;
    assert(0 < mb * r < 0x100_0000 * r) by (nonlinear_arith)
        requires
            0 < mb < 0x100_0000,
            r > 0,
    ;
}

/// Two magnitudes multiplied.
fn product_positions(a: u32, b: u32) -> (k: u32)
    requires
        a < INFINITE,
        b < INFINITE,
    ensures
        k == nearest(magnitude(a as int) * magnitude(b as int), pow2(149) as int),
        k <= INFINITE,
{
    let (ma, sa) = decode(a);
    let (mb, sb) = decode(b);
    proof {
        assert(ma * mb < 0x100_0000 * 0x100_0000) by (nonlinear_arith)
            requires
                0 <= ma < 0x100_0000,
                0 <= mb < 0x100_0000,
        ;
    }
    let n: u128 = ma as u128 * mb as u128;
    let t: i32 = sa as i32 + sb as i32 - 149;
    let ghost exact = magnitude(a as int) * magnitude(b as int);
    let ghost unit = pow2(149) as int;
    proof {
        vstd::arithmetic::power2::lemma_pow2_pos(149);
        lemma_power(t as int);
        lemma_power(-(t as int));
        let (p, q) = (pow2(sa as nat) as int, pow2(sb as nat) as int);
        vstd::arithmetic::power2::lemma_pow2_adds(sa as nat, sb as nat);
        assert(exact == n * (p * q)) by (nonlinear_arith)
            requires
                exact == (ma * p) * (mb * q),
                n == ma * mb,
        ;
        if t >= 0 {
            vstd::arithmetic::power2::lemma_pow2_adds(t as nat, 149);
            assert(exact * power(-(t as int)) == n * (power(t as int) * unit)) by (nonlinear_arith)
                requires
                    exact == n * (p * q),
                    power(-(t as int)) == 1,
                    p * q == power(t as int) * unit,
            ;
        } else {
            vstd::arithmetic::power2::lemma_pow2_adds((sa + sb) as nat, (-t) as nat);
            assert(exact * power(-(t as int)) == n * (power(t as int) * unit)) by (nonlinear_arith)
                requires
                    exact == n * (p * q),
                    power(t as int) == 1,
                    (p * q) * power(-(t as int)) == unit,
            ;
        }
    }
    round_scaled(n, t, false, Ghost(exact), Ghost(unit))
}

/// One magnitude divided by another.
fn quotient_positions(a: u32, b: u32) -> (k: u32)
    requires
        0 < a < INFINITE,
        0 < b < INFINITE,
    ensures
        k == nearest(magnitude(a as int) * pow2(149), magnitude(b as int)),
        k <= INFINITE,
{
    let (ma, sa) = decode(a);
    let (mb, sb) = decode(b);
    let high: u128 = scale_up(ma as u128, 60);
    let n: u128 = high / mb as u128;
    let above: bool = high % mb as u128 != 0;
    let t: i32 = sa as i32 - sb as i32 + 89;
    let ghost exact = magnitude(a as int) * pow2(149);
    let ghost den = magnitude(b as int);
    proof {
        lemma_magnitude_monotone(0, b as int);
        lemma_quotient(ma as int, sa as nat, mb as int, sb as nat, n as int);
        assert(n * mb + high % mb as u128 == high) by {
            vstd::arithmetic::div_mod::lemma_fundamental_div_mod(high as int, mb as int);
            assert(n * mb == mb * n) by (nonlinear_arith);
        }
        assert((n + 1) * mb == n * mb + mb) by (nonlinear_arith);
        let scale = power(t as int) * pow2(sb as nat);
        lemma_power(t as int);
        lemma_power(-(t as int));
        vstd::arithmetic::power2::lemma_pow2_pos(sb as nat);
        assert(scale > 0) by (nonlinear_arith)
            requires
                scale == power(t as int) * pow2(sb as nat),
                power(t as int) > 0,
                pow2(sb as nat) > 0,
        ;
        assert(exact * power(-(t as int)) == high * scale);
        assert(n * (power(t as int) * den) == (n * mb) * scale) by (nonlinear_arith)
            requires
                den == mb * pow2(sb as nat),
                scale == power(t as int) * pow2(sb as nat),
        ;
        assert((n + 1) * (power(t as int) * den) == ((n + 1) * mb) * scale) by (nonlinear_arith)
            requires
                den == mb * pow2(sb as nat),
                scale == power(t as int) * pow2(sb as nat),
        ;
        if above {
            assert((n * mb) * scale < high * scale) by (nonlinear_arith)
                requires
                    n * mb < high,
                    scale > 0,
            ;
            assert(high * scale < ((n + 1) * mb) * scale) by (nonlinear_arith)
                requires
                    high < (n + 1) * mb,
                    scale > 0,
            ;
        }
    }
    round_scaled(n, t, above, Ghost(exact), Ghost(den))
}

proof fn lemma_quotient(ma: int, sa: nat, mb: int, sb: nat, n: int)
    requires
        0 < ma < 0x100_0000,
        0 < mb < 0x100_0000,
        sa <= 253,
        sb <= 253,
        n == (ma * pow2(60)) / mb,
    ensures
        n >= 0x200_0000,
        ({
            let t = sa - sb + 89;
            (ma * pow2(sa)) * pow2(149) * power(-t) == (ma * pow2(60)) * (power(t) * pow2(sb))
        }),
{
    vstd::arithmetic::power2::lemma2_to64();
    vstd::arithmetic::power2::lemma2_to64_rest();
    let high = ma * pow2(60);
    assert(high >= 0x200_0000 * mb) by (nonlinear_arith)
        requires
            high == ma * pow2(60),
            ma >= 1,
            pow2(60) >= 0x200_0000 * 0x100_0000,
            0 < mb < 0x100_0000,
    ;
    assert(n >= 0x200_0000) by (nonlinear_arith)
        requires
            n == high / mb,
            high >= 0x200_0000 * mb,
            mb > 0,
    ;
    let t = sa - sb + 89;
    let (pa, pb, p60, p149) = (
        pow2(sa) as int,
        pow2(sb) as int,
        pow2(60) as int,
        pow2(149) as int,
    );
    lemma_power(t);
    lemma_power(-t);
    vstd::arithmetic::power2::lemma_pow2_adds(sa, 149);
    if t >= 0 {
        vstd::arithmetic::power2::lemma_pow2_adds(t as nat, sb);
        vstd::arithmetic::power2::lemma_pow2_adds(60, (t + sb) as nat);
        let u = power(t) * pb;
        assert(pa * p149 == p60 * u);
        assert((ma * pa) * p149 * power(-t) == (ma * p60) * u) by (nonlinear_arith)
            requires
                pa * p149 == p60 * u,
                power(-t) == 1,
        ;
    } else {
        vstd::arithmetic::power2::lemma_pow2_adds((sa + 149) as nat, (-t) as nat);
        vstd::arithmetic::power2::lemma_pow2_adds(60, sb);
        assert((pa * p149) * power(-t) == p60 * pb);
        assert((ma * pa) * p149 * power(-t) == (ma * p60) * (power(t) * pb)) by (nonlinear_arith)
            requires
                (pa * p149) * power(-t) == p60 * pb,
                power(t) == 1,
        ;
    }
}

impl Scalar {
    /// The value with the given bit pattern.
    pub fn from_bits(bits: u32) -> (r: Scalar)
        ensures
            r.bits == bits,
    {
        Scalar { bits }
    }

    /// Positive zero.
    pub fn zero() -> (r: Scalar)
        ensures
            r == signed(false, 0),
    {
        Scalar { bits: 0 }
    }

    /// The largest finite value.
    pub fn largest() -> (r: Scalar)
        ensures
            r == signed(false, INFINITE - 1),
    {
        Scalar { bits: INFINITE - 1 }
    }

    /// The smallest finite value, the largest one negated.
    pub fn lowest() -> (r: Scalar)
        ensures
            r == signed(true, INFINITE - 1),
    {
        Scalar { bits: INFINITE - 1 + SIGN_BIT }
    }

    fn at(negative: bool, k: u32) -> (r: Scalar)
        requires
            k < SIGN_BIT,
        ensures
            r == signed(negative, k as int),
    {
        if negative {
            Scalar { bits: k + SIGN_BIT }
        } else {
            Scalar { bits: k }
        }
    }

    fn place(self) -> (k: u32)
        ensures
            k == self.position(),
            k < SIGN_BIT,
    {
        self.bits % SIGN_BIT
    }

    fn is_negative(self) -> (b: bool)
        ensures
            b == self.negative(),
    {
        self.bits >= SIGN_BIT
    }

    pub fn is_nan(self) -> (b: bool)
        ensures
            b == self.nan(),
    {
        self.place() > INFINITE
    }

    pub fn is_finite(self) -> (b: bool)
        ensures
            b == self.finite(),
    {
        self.place() < INFINITE
    }

    /// Numeric `<`.
    pub fn lt(self, other: Scalar) -> (b: bool)
        ensures
            b == self.less(other),
    {
        let (j, k) = (self.place(), other.place());
        if j > INFINITE || k > INFINITE {
            false
        } else if self.is_negative() {
            if other.is_negative() {
                k < j
            } else {
                j > 0 || k > 0
            }
        } else {
            !other.is_negative() && j < k
        }
    }

    /// Numeric `<=`.
    pub fn le(self, other: Scalar) -> (b: bool)
        ensures
            b == self.at_most(other),
    {
        !self.is_nan() && !other.is_nan() && !other.lt(self)
    }

    /// The smaller of two values.
    pub fn min(self, other: Scalar) -> (r: Scalar)
        ensures
            r == self.smaller(other),
    {
        if self.is_nan() || other.lt(self) {
            other
        } else {
            self
        }
    }

    /// The larger of two values.
    pub fn max(self, other: Scalar) -> (r: Scalar)
        ensures
            r == self.larger(other),
    {
        if self.is_nan() || self.lt(other) {
            other
        } else {
            self
        }
    }

    /// The value brought into the range from `low` to `high`.
    pub fn clamp(self, low: Scalar, high: Scalar) -> (r: Scalar)
        ensures
            r == self.clamped(low, high),
    {
        if self.lt(low) {
            low
        } else if high.lt(self) {
            high
        } else {
            self
        }
    }

    /// The value with its sign turned over.
    pub fn neg(self) -> (r: Scalar)
        ensures
            r == self.negated(),
    {
        Scalar::at(!self.is_negative(), self.place())
    }

    /// The value without its sign.
    pub fn abs(self) -> (r: Scalar)
        ensures
            r == self.absolute(),
    {
        Scalar::at(false, self.place())
    }

    /// `self + other`.
    pub fn plus(self, other: Scalar) -> (r: Scalar)
        ensures
            r == self.sum(other),
    {
        reveal(Scalar::sum);
        let (j, k) = (self.place(), other.place());
        let (a, b) = (self.is_negative(), other.is_negative());
        if j > INFINITE || k > INFINITE {
            return Scalar { bits: QUIET_NAN };
        }
        if j == INFINITE {
            if k == INFINITE && a != b {
                return Scalar { bits: QUIET_NAN };
            }
            return self;
        }
        if k == INFINITE {
            return other;
        }
        proof {
            lemma_magnitude_zero();
            if j > 0 {
                lemma_magnitude_monotone(0, j as int);
            }
            if k > 0 {
                lemma_magnitude_monotone(0, k as int);
            }
            if j < k {
                lemma_magnitude_monotone(j as int, k as int);
            }
            if k < j {
                lemma_magnitude_monotone(k as int, j as int);
            }
            lemma_nearest_exact(j as int);
            lemma_nearest_exact(k as int);
        }
        if k == 0 {
            if j == 0 {
                Scalar::at(a && b, 0)
            } else {
                self
            }
        } else if j == 0 {
            other
        } else if a == b {
            if j >= k {
                Scalar::at(a, sum_positions(j, k))
            } else {
                Scalar::at(a, sum_positions(k, j))
            }
        } else if j == k {
            Scalar::at(false, 0)
        } else if j > k {
            Scalar::at(a, difference_positions(j, k))
        } else {
            Scalar::at(b, difference_positions(k, j))
        }
    }

    /// `self - other`.
    pub fn minus(self, other: Scalar) -> (r: Scalar)
        ensures
            r == self.difference(other),
    {
        self.plus(other.neg())
    }

    /// `self * other`.
    pub fn times(self, other: Scalar) -> (r: Scalar)
        ensures
            r == self.product(other),
    {
        reveal(Scalar::product);
        let (j, k) = (self.place(), other.place());
        let negative: bool = self.is_negative() != other.is_negative();
        if j > INFINITE || k > INFINITE {
            Scalar { bits: QUIET_NAN }
        } else if j == INFINITE || k == INFINITE {
            if j == 0 || k == 0 {
                Scalar { bits: QUIET_NAN }
            } else {
                Scalar::at(negative, INFINITE)
            }
        } else {
            Scalar::at(negative, product_positions(j, k))
        }
    }

    /// `self / other`.
    pub fn over(self, other: Scalar) -> (r: Scalar)
        ensures
            r == self.quotient(other),
    {
        reveal(Scalar::quotient);
        let (j, k) = (self.place(), other.place());
        let negative: bool = self.is_negative() != other.is_negative();
        if j > INFINITE || k > INFINITE || (j == INFINITE && k == INFINITE) {
            Scalar { bits: QUIET_NAN }
        } else if j == INFINITE {
            Scalar::at(negative, INFINITE)
        } else if k == INFINITE {
            Scalar::at(negative, 0)
        } else if k == 0 {
            if j == 0 {
                Scalar { bits: QUIET_NAN }
            } else {
                Scalar::at(negative, INFINITE)
            }
        } else if j == 0 {
            proof {
                lemma_magnitude_zero();
                lemma_magnitude_monotone(0, k as int);
                lemma_nearest_zero(magnitude(k as int));
            }
            Scalar::at(negative, 0)
        } else {
            Scalar::at(negative, quotient_positions(j, k))
        }
    }

    /// A count, rounded to single precision.
    pub fn from_count(n: usize) -> (r: Scalar)
        ensures
            r == fraction(n as int, 1),
    {
        let ghost exact = n * pow2(149);
        proof {
            lemma_power(-149);
            lemma_whole(exact, 149);
        }
        Scalar::at(false, round_scaled(n as u128, 149, false, Ghost(exact), Ghost(1)))
    }

    /// The quotient of two small counts, rounded to single precision.
    pub fn ratio(num: u32, den: u32) -> (r: Scalar)
        requires
            0 < num < 0x100_0000,
            0 < den < 0x100_0000,
        ensures
            r == fraction(num as int, den as int),
    {
        let high: u128 = scale_up(num as u128, 60);
        let n: u128 = high / den as u128;
        let above: bool = high % den as u128 != 0;
        let ghost exact = num * pow2(149);
        proof {
            lemma_quotient(num as int, 0, den as int, 0, n as int);
            vstd::arithmetic::power2::lemma2_to64();
            lemma_power(89);
            lemma_power(-89);
            let unit = power(89);
            assert(n * den + high % den as u128 == high) by {
                vstd::arithmetic::div_mod::lemma_fundamental_div_mod(high as int, den as int);
                assert(n * den == den * n) by (nonlinear_arith);
            }
            assert((n + 1) * den == n * den + den) by (nonlinear_arith);
            assert(exact * power(-89) == high * unit) by (nonlinear_arith)
                requires
                    (num * 1) * pow2(149) * power(-89) == high * (unit * 1),
                    exact == num * pow2(149),
            ;
            assert(n * (unit * den) == (n * den) * unit) by (nonlinear_arith);
            assert((n + 1) * (unit * den) == ((n + 1) * den) * unit) by (nonlinear_arith);
            if above {
                assert((n * den) * unit < high * unit) by (nonlinear_arith)
                    requires
                        n * den < high,
                        unit > 0,
                ;
                assert(high * unit < ((n + 1) * den) * unit) by (nonlinear_arith)
                    requires
                        high < (n + 1) * den,
                        unit > 0,
                ;
            }
        }
        Scalar::at(false, round_scaled(n, 89, above, Ghost(exact), Ghost(den as int)))
    }
}

proof fn lemma_magnitude_zero()
    ensures
        magnitude(0) == 0,
{
}

proof fn lemma_nearest_zero(den: int)
    requires
        den > 0,
    ensures
        nearest(0, den) == 0,
{
    lemma_magnitude_step(0);
    assert((magnitude(0) + magnitude(1)) * den > 0) by (nonlinear_arith)
        requires
            magnitude(0) + magnitude(1) > 0,
            den > 0,
    ;
    lemma_nearest_unique(0, den, 0);
}

} // verus!
