//! Size ratios of a layout split.
//!
//! A [`Ratio`] is a single precision number (IEEE 754 binary32) held by its
//! bit pattern, and the few operations that a layout needs are carried out
//! on that pattern in integer arithmetic. Every finite number is a whole
//! multiple of the smallest positive one, so contracts speak of the integer
//! [`units`] of a pattern and say which pattern is nearest to an exact result.
use vstd::arithmetic::power2;
use vstd::prelude::*;

verus! {

/// A single precision number, by its bit pattern.
#[derive(Clone, Copy, Debug, PartialEq, Eq, Structural)]
pub struct Ratio {
    pub bits: u32,
}

/// The pattern of positive infinity, one past the largest finite magnitude.
pub const INFINITY_BITS: u32 = 0x7f80_0000;

/// The pattern of negative zero: the sign bit alone.
pub const SIGN_BIT: u32 = 0x8000_0000;

/// The pattern of the NaN that an undefined sum gives.
pub const NAN_BITS: u32 = 0x7fc0_0000;

/// The pattern of one half.
pub const HALF_BITS: u32 = 0x3f00_0000;

/// The pattern of 0.05, the least share that a resize leaves to a pane.
pub const MINIMUM_SHARE_BITS: u32 = 0x3d4c_cccd;

/// The number of patterns that share one exponent.
pub const STEP: u32 = 0x80_0000;

/// What the significand of an exact sum stays below.
const SIGNIFICAND_LIMIT: u128 = 0x100_0000_0000_0000_0000_0000_0000_0000;

/// How many times the smallest positive number the magnitude pattern `m`
/// stands for; infinity counts as the number that would follow the largest
/// finite one.
pub open spec fn units(m: int) -> int {
    let exponent = m / (STEP as int);
    let fraction = m % (STEP as int);
    if exponent <= 0 {
        fraction
    } else {
        (STEP + fraction) * power2::pow2((exponent - 1) as nat)
    }
}

pub open spec fn distance(a: int, b: int) -> int {
    if a < b {
        b - a
    } else {
        a - b
    }
}

/// Whether `m` is the magnitude pattern nearest to `s` units, the even
/// pattern winning a tie.
pub open spec fn nearest(m: int, s: int) -> bool {
    &&& 0 <= m <= INFINITY_BITS
    &&& forall|x: int|
        0 <= x <= INFINITY_BITS && x != m ==> {
            ||| distance(units(m), s) < #[trigger] distance(units(x), s)
            ||| distance(units(m), s) == distance(units(x), s) && m % 2 == 0
        }
}

/// The magnitude pattern nearest to `s` units.
pub open spec fn rounded(s: int) -> int {
    choose|m: int| nearest(m, s)
}

proof fn lemma_units_at(exponent: int, fraction: int)
    requires
        0 <= exponent,
        0 <= fraction < STEP,
    ensures
        units(exponent * STEP + fraction) == if exponent == 0 {
            fraction
        } else {
            (STEP + fraction) * power2::pow2((exponent - 1) as nat)
        },
{
    let m = exponent * STEP + fraction;
    assert(m / (STEP as int) == exponent && m % (STEP as int) == fraction) by (nonlinear_arith)
        requires
            m == exponent * STEP + fraction,
            0 <= fraction < STEP,
            STEP == 0x80_0000,
    ;
}

proof fn lemma_units_ordered(x: int, y: int)
    requires
        0 <= x < y,
    ensures
        0 <= units(x) < units(y),
{
    let step = STEP as int;
    let ex = x / step;
    let fx = x % step;
    let ey = y / step;
    let fy = y % step;
    assert(x == ex * step + fx && y == ey * step + fy && 0 <= fx < step && 0 <= fy < step && ex
        <= ey && 0 <= ex) by (nonlinear_arith)
        requires
            0 <= x < y,
            step == 0x80_0000,
            ex == x / step,
            ey == y / step,
            fx == x % step,
            fy == y % step,
    ;
    if ey > 0 {
        let py = power2::pow2((ey - 1) as nat) as int;
        power2::lemma_pow2_pos((ey - 1) as nat);
        if ex == ey {
            assert(fx < fy) by (nonlinear_arith)
                requires
                    ex == ey,
                    x == ex * step + fx,
                    y == ey * step + fy,
                    x < y,
            ;
            assert(0 <= (step + fx) * py < (step + fy) * py) by (nonlinear_arith)
                requires
                    0 <= fx < fy,
                    step == 0x80_0000,
                    py > 0,
            ;
        } else if ex == 0 {
            assert((step + fy) * py >= step) by (nonlinear_arith)
                requires
                    py >= 1,
                    fy >= 0,
                    step == 0x80_0000,
            ;
        } else {
            let px = power2::pow2((ex - 1) as nat) as int;
            power2::lemma_pow2_pos((ex - 1) as nat);
            power2::lemma_pow2_unfold(ex as nat);
            if ex < ey - 1 {
                power2::lemma_pow2_strictly_increases(ex as nat, (ey - 1) as nat);
            }
            assert(2 * px <= py);
            assert(0 <= (step + fx) * px < (step + fy) * py) by (nonlinear_arith)
                requires
                    0 <= fx < step,
                    0 <= fy,
                    step == 0x80_0000,
                    px >= 1,
                    2 * px <= py,
            ;
        }
    } else {
        assert(ex == 0);
    }
}

proof fn lemma_nearest_unique(a: int, b: int, s: int)
    requires
        nearest(a, s),
        nearest(b, s),
    ensures
        a == b,
{
    if a < b {
        lemma_nearest_unique_ordered(a, b, s);
    } else if b < a {
        lemma_nearest_unique_ordered(b, a, s);
    }
}

/// Two distinct patterns at one distance from `s` would both be even, and
/// the pattern that follows the lower one would be nearer than either.
proof fn lemma_nearest_unique_ordered(a: int, b: int, s: int)
    requires
        nearest(a, s),
        nearest(b, s),
        a <= b,
    ensures
        a == b,
{
    if a < b {
        lemma_units_ordered(a, b);
        let da = distance(units(a), s);
        let db = distance(units(b), s);
        assert(da == db && a % 2 == 0 && b % 2 == 0);
        let c = a + 1;
        lemma_units_ordered(a, c);
        lemma_units_ordered(c, b);
        assert(distance(units(c), s) < da);
    }
}

pub proof fn lemma_rounded_is(m: int, s: int)
    requires
        nearest(m, s),
    ensures
        rounded(s) == m,
{
    lemma_nearest_unique(m, rounded(s), s);
}

/// Of two neighbouring patterns around `s` the one that is nearer, or the
/// even one of a tie, is nearest of all.
proof fn lemma_nearest_of_two(low: int, s: int, up: bool)
    requires
        0 <= low < INFINITY_BITS,
        units(low) <= s <= units(low + 1),
        !up ==> s - units(low) < units(low + 1) - s || (s - units(low) == units(low + 1) - s && low
            % 2 == 0),
        up ==> s - units(low) > units(low + 1) - s || (s - units(low) == units(low + 1) - s && low
            % 2 == 1),
    ensures
        nearest(if up { low + 1 } else { low }, s),
{
    let m = if up {
        low + 1
    } else {
        low
    };
    assert forall|x: int| 0 <= x <= INFINITY_BITS && x != m implies {
        ||| distance(units(m), s) < #[trigger] distance(units(x), s)
        ||| distance(units(m), s) == distance(units(x), s) && m % 2 == 0
    } by {
        if x < low {
            lemma_units_ordered(x, low);
        } else if x > low + 1 {
            lemma_units_ordered(low + 1, x);
        }
    }
}

proof fn lemma_nearest_exact(m: int)
    requires
        0 <= m <= INFINITY_BITS,
    ensures
        nearest(m, units(m)),
{
    assert forall|x: int| 0 <= x <= INFINITY_BITS && x != m implies {
        ||| distance(units(m), units(m)) < #[trigger] distance(units(x), units(m))
        ||| distance(units(m), units(m)) == distance(units(x), units(m)) && m % 2 == 0
    } by {
        if x < m {
            lemma_units_ordered(x, m);
        } else {
            lemma_units_ordered(m, x);
        }
    }
}

/// Anything at or beyond the number that would follow the largest finite one
/// rounds to infinity.
proof fn lemma_nearest_overflow(s: int)
    requires
        s >= units(INFINITY_BITS as int),
    ensures
        nearest(INFINITY_BITS as int, s),
{
    assert forall|x: int| 0 <= x <= INFINITY_BITS && x != INFINITY_BITS implies {
        ||| distance(units(INFINITY_BITS as int), s) < #[trigger] distance(units(x), s)
        ||| distance(units(INFINITY_BITS as int), s) == distance(units(x), s) && INFINITY_BITS % 2
            == 0
    } by {
        lemma_units_ordered(x, INFINITY_BITS as int);
    }
}

/// A mantissa of full width with its scale is one pattern.
proof fn lemma_units_normal(scale: int, mantissa: int)
    requires
        0 <= scale,
        STEP <= mantissa <= 2 * STEP,
    ensures
        units(scale * STEP + mantissa) == mantissa * power2::pow2(scale as nat),
{
    let step = STEP as int;
    if mantissa < 2 * step {
        assert(scale * step + mantissa == (scale + 1) * step + (mantissa - step))
            by (nonlinear_arith);
        lemma_units_at(scale + 1, mantissa - step);
    } else {
        assert(scale * step + 2 * step == (scale + 2) * step + 0) by (nonlinear_arith);
        lemma_units_at(scale + 2, 0);
        power2::lemma_pow2_unfold((scale + 1) as nat);
        let p = power2::pow2(scale as nat) as int;
        assert(step * (2 * p) == (2 * step) * p) by (nonlinear_arith);
    }
}

/// The magnitude pattern nearest to `significand` scaled by a power of two.
fn round_scaled(significand: u128, scale: u32) -> (m: u32)
    requires
        significand < SIGNIFICAND_LIMIT,
        scale <= 253,
    ensures
        nearest(m as int, significand * power2::pow2(scale as nat)),
{
    let full: u128 = 0x100_0000;
    let mut power: u128 = 1;
    let mut shift: u32 = 0;
    proof {
        lemma_pow2_zero();
    }
    while significand / power >= full
        invariant
            power == power2::pow2(shift as nat),
            1 <= power,
            shift <= 128,
            full == 0x100_0000,
            significand < SIGNIFICAND_LIMIT,
            shift > 0 ==> significand >= 0x80_0000 * power,
        decreases significand - power,
    {
        proof {
            power2::lemma_pow2_unfold((shift + 1) as nat);
            assert(significand >= full * power) by (nonlinear_arith)
                requires
                    significand / power >= full,
                    power >= 1,
            ;
            assert(shift < 128) by {
                if shift >= 128 {
                    lemma_pow2_128();
                    if shift > 128 {
                        power2::lemma_pow2_strictly_increases(128, shift as nat);
                    }
                }
            }
        }
        power = power * 2;
        shift = shift + 1;
    }
    let mut mantissa: u128 = significand / power;
    let rest: u128 = significand % power;
    proof {
        assert(significand == mantissa * power + rest && 0 <= rest < power) by (nonlinear_arith)
            requires
                power >= 1,
                mantissa == significand / power,
                rest == significand % power,
        ;
        if shift > 0 {
            assert(mantissa >= 0x80_0000) by (nonlinear_arith)
                requires
                    significand >= 0x80_0000 * power,
                    power >= 1,
                    mantissa == significand / power,
            ;
        }
    }
    let ghost exact: int = significand * power2::pow2(scale as nat);
    if shift == 0 {
        let mut exponent: u32 = scale;
        assert(mantissa == significand) by (nonlinear_arith)
            requires
                significand == mantissa * power + rest,
                power == 1,
                0 <= rest < power,
        ;
        while exponent > 0 && mantissa < 0x80_0000
            invariant
                exponent <= scale <= 253,
                mantissa < 0x100_0000,
                exact == mantissa * power2::pow2(exponent as nat),
            decreases exponent,
        {
            proof {
                power2::lemma_pow2_unfold(exponent as nat);
                let p = power2::pow2((exponent - 1) as nat) as int;
                assert(mantissa * (2 * p) == (2 * mantissa) * p) by (nonlinear_arith);
            }
            mantissa = mantissa * 2;
            exponent = exponent - 1;
        }
        let m: u32 = exponent * 0x80_0000 + mantissa as u32;
        proof {
            if mantissa >= 0x80_0000 {
                lemma_units_normal(exponent as int, mantissa as int);
            } else {
                lemma_units_at(0, mantissa as int);
                lemma_pow2_zero();
                assert(mantissa * 1 == mantissa) by (nonlinear_arith);
            }
            lemma_nearest_exact(m as int);
        }
        m
    } else {
        let total: u32 = scale + shift;
        let ghost unit: int = power2::pow2(scale as nat) as int;
        let ghost width: int = power2::pow2(total as nat) as int;
        proof {
            power2::lemma_pow2_adds(shift as nat, scale as nat);
            power2::lemma_pow2_pos(scale as nat);
            assert(width == power * unit);
            assert(exact == mantissa * width + rest * unit) by (nonlinear_arith)
                requires
                    exact == significand * unit,
                    significand == mantissa * power + rest,
                    width == power * unit,
            ;
            assert(0 <= rest * unit < width) by (nonlinear_arith)
                requires
                    0 <= rest < power,
                    unit >= 1,
                    width == power * unit,
            ;
        }
        if total >= 254 {
            proof {
                lemma_units_normal(254, 0x80_0000);
                if total > 254 {
                    power2::lemma_pow2_strictly_increases(254, total as nat);
                }
                let floor = power2::pow2(254) as int;
                assert(mantissa * width >= 0x80_0000 * floor) by (nonlinear_arith)
                    requires
                        mantissa >= 0x80_0000,
                        width >= floor,
                        floor >= 0,
                ;
                lemma_nearest_overflow(exact);
            }
            return INFINITY_BITS;
        }
        let low: u32 = total * 0x80_0000 + mantissa as u32;
        let up: bool = rest > power - rest || (rest == power - rest && mantissa % 2 == 1);
        proof {
            lemma_units_normal(total as int, mantissa as int);
            lemma_units_normal(total as int, mantissa + 1);
            assert((mantissa + 1) * width == mantissa * width + width) by (nonlinear_arith);
            assert((power - rest) * unit == width - rest * unit) by (nonlinear_arith)
                requires
                    width == power * unit,
            ;
            assert(rest > power - rest ==> rest * unit > (power - rest) * unit) by (nonlinear_arith)
                requires
                    unit >= 1,
            ;
            assert(rest < power - rest ==> rest * unit < (power - rest) * unit) by (nonlinear_arith)
                requires
                    unit >= 1,
            ;
            assert(low % 2 == mantissa % 2) by (nonlinear_arith)
                requires
                    low == total * 0x80_0000 + mantissa,
            ;
            lemma_nearest_of_two(low as int, exact, up);
        }
        if up {
            low + 1
        } else {
            low
        }
    }
}

proof fn lemma_pow2_zero()
    ensures
        power2::pow2(0) == 1,
{
    power2::lemma2_to64();
}

proof fn lemma_pow2_128()
    ensures
        power2::pow2(128) == 0x1_0000_0000_0000_0000_0000_0000_0000_0000,
{
    power2::lemma2_to64();
    power2::lemma_pow2_adds(64, 64);
}

/// Mantissa and scale of a finite magnitude pattern.
fn decompose(m: u32) -> (parts: (u32, u32))
    requires
        m < INFINITY_BITS,
    ensures
        units(m as int) == parts.0 * power2::pow2(parts.1 as nat),
        parts.0 < 2 * STEP,
        parts.1 <= 253,
        parts.1 > 0 ==> parts.0 >= STEP,
        parts.0 >= STEP ==> m == parts.1 * STEP + parts.0,
{
    let exponent: u32 = m / 0x80_0000;
    let fraction: u32 = m % 0x80_0000;
    if exponent == 0 {
        proof {
            lemma_pow2_zero();
            assert(fraction * 1 == fraction) by (nonlinear_arith);
        }
        (fraction, 0)
    } else {
        (fraction + 0x80_0000, exponent - 1)
    }
}

fn power_of_two(exponent: u32) -> (power: u128)
    requires
        exponent <= 90,
    ensures
        power == power2::pow2(exponent as nat),
        1 <= power <= 0x400_0000_0000_0000_0000_0000,
{
    let mut power: u128 = 1;
    let mut i: u32 = 0;
    proof {
        lemma_pow2_zero();
        lemma_pow2_90();
    }
    while i < exponent
        invariant
            i <= exponent <= 90,
            power == power2::pow2(i as nat),
            power2::pow2(90) == 0x400_0000_0000_0000_0000_0000,
        decreases exponent - i,
    {
        proof {
            power2::lemma_pow2_unfold((i + 1) as nat);
            if i + 1 < 90 {
                power2::lemma_pow2_strictly_increases((i + 1) as nat, 90);
            }
        }
        power = power * 2;
        i = i + 1;
    }
    proof {
        power2::lemma_pow2_pos(exponent as nat);
        if exponent < 90 {
            power2::lemma_pow2_strictly_increases(exponent as nat, 90);
        }
    }
    power
}

proof fn lemma_pow2_90()
    ensures
        power2::pow2(90) == 0x400_0000_0000_0000_0000_0000,
{
    power2::lemma2_to64();
    power2::lemma_pow2_adds(64, 26);
}

/// A magnitude so much smaller than another that it cannot move it.
proof fn lemma_absorbed(a: int, mantissa: int, scale: int, small: int)
    requires
        0 < a < INFINITY_BITS,
        STEP <= mantissa < 2 * STEP,
        0 < scale,
        a == scale * STEP + mantissa,
        0 <= 4 * small < power2::pow2(scale as nat),
    ensures
        nearest(a, units(a) + small),
        nearest(a, units(a) - small),
{
    let step = STEP as int;
    let width = power2::pow2(scale as nat) as int;
    lemma_units_normal(scale, mantissa);
    lemma_units_normal(scale, mantissa + 1);
    assert((mantissa + 1) * width == mantissa * width + width) by (nonlinear_arith);
    assert(units(a + 1) == units(a) + width);
    lemma_nearest_of_two(a, units(a) + small, false);
    if small > 0 {
        if mantissa > step {
            lemma_units_normal(scale, mantissa - 1);
            assert((mantissa - 1) * width == mantissa * width - width) by (nonlinear_arith);
        } else {
            power2::lemma_pow2_unfold(scale as nat);
            let lower = power2::pow2((scale - 1) as nat) as int;
            assert(scale * step + step - 1 == (scale - 1) * step + (2 * step - 1))
                by (nonlinear_arith);
            lemma_units_normal(scale - 1, 2 * step - 1);
            assert((2 * step - 1) * lower == step * (2 * lower) - lower) by (nonlinear_arith);
        }
        lemma_nearest_of_two(a - 1, units(a) - small, true);
    } else {
        lemma_nearest_exact(a);
    }
}

/// The magnitude pattern nearest to the sum, or to the difference, of two
/// finite magnitudes, the larger one first.
fn combine(larger: u32, smaller: u32, subtract: bool) -> (m: u32)
    requires
        smaller <= larger < INFINITY_BITS,
    ensures
        nearest(
            m as int,
            if subtract {
                units(larger as int) - units(smaller as int)
            } else {
                units(larger as int) + units(smaller as int)
            },
        ),
{
    let (ma, sa) = decompose(larger);
    let (mb, sb) = decompose(smaller);
    let ghost ub = units(smaller as int);
    let ghost unit: int = power2::pow2(sb as nat) as int;
    proof {
        if smaller < larger {
            lemma_units_ordered(smaller as int, larger as int);
        }
        lemma_scales_ordered(larger as int, ma as int, sa as int, smaller as int, mb as int, sb as int);
        power2::lemma_pow2_pos(sb as nat);
    }
    let gap: u32 = sa - sb;
    if gap <= 90 {
        let power: u128 = power_of_two(gap);
        proof {
            power2::lemma_pow2_adds(gap as nat, sb as nat);
            assert(ma * power < 0x200_0000 * 0x400_0000_0000_0000_0000_0000) by (nonlinear_arith)
                requires
                    0 <= ma < 0x100_0000,
                    1 <= power <= 0x400_0000_0000_0000_0000_0000,
            ;
            assert(ma * power2::pow2(sa as nat) == (ma * power) * unit) by (nonlinear_arith)
                requires
                    power2::pow2(sa as nat) == power * unit,
            ;
            assert((ma * power + mb) * unit == (ma * power) * unit + mb * unit)
                by (nonlinear_arith);
            assert((ma * power - mb) * unit == (ma * power) * unit - mb * unit)
                by (nonlinear_arith);
        }
        let head: u128 = ma as u128 * power;
        if subtract {
            proof {
                assert(head >= mb) by (nonlinear_arith)
                    requires
                        head * unit >= mb * unit,
                        unit >= 1,
                ;
            }
            round_scaled(head - mb as u128, sb)
        } else {
            round_scaled(head + mb as u128, sb)
        }
    } else {
        proof {
            power2::lemma_pow2_adds(26, sb as nat);
            power2::lemma2_to64();
            power2::lemma_pow2_strictly_increases((26 + sb) as nat, sa as nat);
            assert(0 <= 4 * (mb * unit) < 0x400_0000 * unit) by (nonlinear_arith)
                requires
                    0 <= mb < 0x100_0000,
                    unit >= 1,
            ;
            lemma_absorbed(larger as int, ma as int, sa as int, ub);
        }
        larger
    }
}

/// The scale grows with the magnitude.
proof fn lemma_scales_ordered(a: int, ma: int, sa: int, b: int, mb: int, sb: int)
    requires
        0 <= b <= a,
        0 <= sa,
        0 <= sb,
        0 <= ma < 2 * STEP,
        0 <= mb < 2 * STEP,
        sa > 0 ==> ma >= STEP,
        sb > 0 ==> mb >= STEP,
        units(a) == ma * power2::pow2(sa as nat),
        units(b) == mb * power2::pow2(sb as nat),
    ensures
        sb <= sa,
{
    if sb > sa {
        if b < a {
            lemma_units_ordered(b, a);
        }
        let pa = power2::pow2(sa as nat) as int;
        let pb = power2::pow2(sb as nat) as int;
        power2::lemma_pow2_pos(sa as nat);
        power2::lemma_pow2_unfold((sa + 1) as nat);
        if sb > sa + 1 {
            power2::lemma_pow2_strictly_increases((sa + 1) as nat, sb as nat);
        }
        assert(ma * pa < mb * pb) by (nonlinear_arith)
            requires
                0 <= ma < 0x100_0000,
                mb >= 0x80_0000,
                pb >= 2 * pa,
                pa >= 1,
        ;
    }
}

impl Ratio {
    /// The magnitude pattern, without the sign.
    pub open spec fn magnitude(self) -> int {
        (self.bits % SIGN_BIT) as int
    }

    pub open spec fn negative(self) -> bool {
        self.bits >= SIGN_BIT
    }

    pub open spec fn finite(self) -> bool {
        self.magnitude() < INFINITY_BITS
    }

    pub open spec fn infinite(self) -> bool {
        self.magnitude() == INFINITY_BITS
    }

    pub open spec fn nan(self) -> bool {
        self.magnitude() > INFINITY_BITS
    }

    /// A number that a split may give to a child: finite and above zero.
    pub open spec fn share(self) -> bool {
        0 < self.bits < INFINITY_BITS
    }

    /// The value of a finite number, in units.
    pub open spec fn value(self) -> int {
        if self.negative() {
            -units(self.magnitude())
        } else {
            units(self.magnitude())
        }
    }

    /// The number nearest to `s` units.
    pub open spec fn of_units(s: int) -> Ratio {
        if s >= 0 {
            Ratio { bits: rounded(s) as u32 }
        } else {
            Ratio { bits: (SIGN_BIT + rounded(-s)) as u32 }
        }
    }

    /// The rounded sum of two numbers.
    pub open spec fn plus(self, other: Ratio) -> Ratio {
        if self.nan() || other.nan() || (self.infinite() && other.infinite() && self.negative()
            != other.negative()) {
            Ratio { bits: NAN_BITS }
        } else if self.infinite() {
            self
        } else if other.infinite() {
            other
        } else if self.value() + other.value() == 0 && self.negative() && other.negative() {
            Ratio { bits: SIGN_BIT }
        } else {
            Ratio::of_units(self.value() + other.value())
        }
    }

    pub open spec fn negated(self) -> Ratio {
        if self.negative() {
            Ratio { bits: (self.bits - SIGN_BIT) as u32 }
        } else {
            Ratio { bits: (self.bits + SIGN_BIT) as u32 }
        }
    }

    /// Whether the number is finite and above zero.
    pub fn is_share(self) -> (yes: bool)
        ensures
            yes == self.share(),
    {
        0 < self.bits && self.bits < INFINITY_BITS
    }

    /// Whether the number is neither infinite nor a NaN.
    pub fn is_finite(self) -> (yes: bool)
        ensures
            yes == self.finite(),
    {
        self.bits % SIGN_BIT < INFINITY_BITS
    }

    /// The sum of two numbers, rounded to nearest with ties to even.
    pub fn add_ratio(self, other: Ratio) -> (sum: Ratio)
        ensures
            sum == self.plus(other),
    {
        let ma: u32 = self.bits % SIGN_BIT;
        let mb: u32 = other.bits % SIGN_BIT;
        let na: bool = self.bits >= SIGN_BIT;
        let nb: bool = other.bits >= SIGN_BIT;
        if ma > INFINITY_BITS || mb > INFINITY_BITS || (ma == INFINITY_BITS && mb == INFINITY_BITS
            && na != nb) {
            return Ratio { bits: NAN_BITS };
        }
        if ma == INFINITY_BITS {
            return self;
        }
        if mb == INFINITY_BITS {
            return other;
        }
        let first: bool = ma >= mb;
        let larger: u32 = if first {
            ma
        } else {
            mb
        };
        let smaller: u32 = if first {
            mb
        } else {
            ma
        };
        let negative: bool = if first {
            na
        } else {
            nb
        };
        let m: u32 = combine(larger, smaller, na != nb);
        let ghost s = self.value() + other.value();
        let ghost size = if s >= 0 {
            s
        } else {
            -s
        };
        proof {
            lemma_units_zero();
            if smaller < larger {
                lemma_units_ordered(smaller as int, larger as int);
            }
            if 0 < larger {
                lemma_units_ordered(0, larger as int);
            }
            if 0 < smaller {
                lemma_units_ordered(0, smaller as int);
            }
            lemma_rounded_is(m as int, size);
            if size == 0 {
                lemma_nearest_exact(0);
                lemma_rounded_is(0, 0);
            }
        }
        if m == 0 {
            proof {
                if size != 0 {
                    lemma_not_rounded_to_zero(size);
                }
            }
            if na && nb {
                Ratio { bits: SIGN_BIT }
            } else {
                Ratio { bits: 0 }
            }
        } else if negative {
            Ratio { bits: SIGN_BIT + m }
        } else {
            Ratio { bits: m }
        }
    }

    /// The number with its sign changed.
    pub fn negate(self) -> (opposite: Ratio)
        ensures
            opposite == self.negated(),
    {
        if self.bits >= SIGN_BIT {
            Ratio { bits: self.bits - SIGN_BIT }
        } else {
            Ratio { bits: self.bits + SIGN_BIT }
        }
    }
}

/// Half of a magnitude: one exponent less, or below that the integer half,
/// where the even pattern wins a tie.
pub open spec fn halved(m: int) -> int {
    if m >= 2 * STEP {
        m - STEP
    } else if m % 2 == 1 && (m / 2) % 2 == 1 {
        m / 2 + 1
    } else {
        m / 2
    }
}

/// The half of a pattern is exact, or off by half a unit and even.
pub proof fn law_halves_are_rounded_to_even(m: int)
    requires
        0 <= m < INFINITY_BITS,
    ensures
        0 <= halved(m) < INFINITY_BITS,
        distance(2 * units(halved(m)), units(m)) <= 1,
        distance(2 * units(halved(m)), units(m)) == 1 ==> halved(m) % 2 == 0,
{
    let step = STEP as int;
    let e = m / step;
    let f = m % step;
    if m >= 2 * step {
        assert(m == e * step + f && m - step == (e - 1) * step + f && e >= 2 && 0 <= f < step)
            by (nonlinear_arith)
            requires
                step == 0x80_0000,
                m >= 2 * step,
                e == m / step,
                f == m % step,
        ;
        lemma_units_at(e - 1, f);
        lemma_units_at(e, f);
        power2::lemma_pow2_unfold((e - 1) as nat);
        let p = power2::pow2((e - 2) as nat) as int;
        assert((step + f) * (2 * p) == 2 * ((step + f) * p)) by (nonlinear_arith);
    } else {
        lemma_pow2_zero();
        assert(forall|x: int| #[trigger] (x * power2::pow2(0)) == x);
        if m >= step {
            lemma_units_at(1, m - step);
        } else {
            lemma_units_at(0, m);
        }
        let h = halved(m);
        if h >= step {
            lemma_units_at(1, h - step);
        } else {
            lemma_units_at(0, h);
        }
        assert(units(m) == m && units(h) == h);
    }
}

/// The sum of a sequence of numbers, added up from its start.
pub open spec fn total_of(ratios: Seq<Ratio>) -> Ratio
    decreases ratios.len(),
{
    if ratios.len() == 0 {
        Ratio { bits: 0 }
    } else {
        total_of(ratios.drop_last()).plus(ratios.last())
    }
}

/// The order of numbers that are no NaN; both zeros rank alike.
pub open spec fn rank(r: Ratio) -> int {
    if r.negative() {
        -r.magnitude()
    } else {
        r.magnitude()
    }
}

/// `x` held between `low` and `high`.
pub open spec fn held(x: Ratio, low: Ratio, high: Ratio) -> Ratio {
    if rank(x) < rank(low) {
        low
    } else if rank(x) > rank(high) {
        high
    } else {
        x
    }
}

/// The least share that a resize leaves to either side of a pair of this
/// total: half of it, but no more than 0.05.
pub open spec fn least_share(total: Ratio) -> Ratio {
    if halved(total.magnitude()) < MINIMUM_SHARE_BITS {
        Ratio { bits: halved(total.magnitude()) as u32 }
    } else {
        Ratio { bits: MINIMUM_SHARE_BITS }
    }
}

/// The most that one side of a pair of this total can get.
pub open spec fn most_share(total: Ratio) -> Ratio {
    total.plus(least_share(total).negated())
}

/// Whether a pair of this total can be shared out at all: for a few totals
/// next to zero half of the total rounds up, and no room is left.
pub open spec fn divisible(total: Ratio) -> bool {
    rank(least_share(total)) <= rank(most_share(total))
}

/// The two shares after `delta` moved from `neighbor` to `own`.
pub open spec fn resized(own: Ratio, neighbor: Ratio, delta: Ratio) -> (Ratio, Ratio) {
    let total = own.plus(neighbor);
    let share = held(own.plus(delta), least_share(total), most_share(total));
    (share, total.plus(share.negated()))
}

/// The sum of a sequence of numbers, added up from its start.
pub fn total_ratio(ratios: &Vec<Ratio>) -> (total: Ratio)
    ensures
        total == total_of(ratios@),
{
    let mut total = Ratio { bits: 0 };
    let mut i: usize = 0;
    while i < ratios.len()
        invariant
            i <= ratios.len(),
            total == total_of(ratios@.take(i as int)),
        decreases ratios.len() - i,
    {
        proof {
            assert(ratios@.take(i + 1).drop_last() =~= ratios@.take(i as int));
        }
        total = total.add_ratio(ratios[i]);
        i = i + 1;
    }
    proof {
        assert(ratios@.take(ratios.len() as int) =~= ratios@);
    }
    total
}

fn rank_below(x: Ratio, y: Ratio) -> (below: bool)
    ensures
        below == (rank(x) < rank(y)),
{
    let mx: u32 = x.bits % SIGN_BIT;
    let my: u32 = y.bits % SIGN_BIT;
    if x.bits >= SIGN_BIT {
        if y.bits >= SIGN_BIT {
            my < mx
        } else {
            mx > 0 || my > 0
        }
    } else {
        y.bits < SIGN_BIT && mx < my
    }
}

/// Whether a number that is no NaN is above zero.
pub fn is_ranked_above_zero(x: Ratio) -> (yes: bool)
    ensures
        yes == (rank(x) > 0),
{
    rank_below(Ratio { bits: 0 }, x)
}

/// Changing the sign turns the order round.
pub proof fn lemma_rank_negated(x: Ratio)
    ensures
        rank(x.negated()) == -rank(x),
{
}

fn least_share_of(total: Ratio) -> (least: Ratio)
    requires
        total.share(),
    ensures
        least == least_share(total),
{
    let m: u32 = total.bits;
    let half: u32 = if m >= 0x100_0000 {
        m - 0x80_0000
    } else if m % 2 == 1 && (m / 2) % 2 == 1 {
        m / 2 + 1
    } else {
        m / 2
    };
    if half < MINIMUM_SHARE_BITS {
        Ratio { bits: half }
    } else {
        Ratio { bits: MINIMUM_SHARE_BITS }
    }
}

/// Whether a pair of shares with this total can be resized.
pub fn is_divisible(total: Ratio) -> (yes: bool)
    requires
        total.share(),
    ensures
        yes == divisible(total),
{
    let least = least_share_of(total);
    let most = total.add_ratio(least.negate());
    !rank_below(most, least)
}

/// The two shares after `delta` moved from `neighbor` to `own`, each side
/// keeping its least share.
pub fn resize_shares(own: Ratio, neighbor: Ratio, delta: Ratio) -> (shares: (Ratio, Ratio))
    requires
        own.plus(neighbor).share(),
        divisible(own.plus(neighbor)),
    ensures
        shares == resized(own, neighbor, delta),
{
    let total = own.add_ratio(neighbor);
    let least = least_share_of(total);
    let most = total.add_ratio(least.negate());
    let moved = own.add_ratio(delta);
    let share = if rank_below(moved, least) {
        least
    } else if rank_below(most, moved) {
        most
    } else {
        moved
    };
    (share, total.add_ratio(share.negate()))
}

proof fn lemma_units_zero()
    ensures
        units(0) == 0,
{
    lemma_units_at(0, 0);
}

proof fn lemma_not_rounded_to_zero(s: int)
    requires
        s > 0,
    ensures
        !nearest(0, s),
{
    lemma_units_at(0, 0);
    lemma_units_at(0, 1);
    assert(distance(units(1), s) < distance(units(0), s));
}

/// The last pattern up to `m` that stands for no more than `s` units.
proof fn lemma_pattern_below(s: int, m: int) -> (low: int)
    requires
        0 <= m < INFINITY_BITS,
        0 <= s < units(m + 1),
    ensures
        0 <= low <= m,
        units(low) <= s < units(low + 1),
    decreases m,
{
    if m == 0 {
        lemma_units_zero();
        0
    } else if units(m) <= s {
        m
    } else {
        lemma_pattern_below(s, m - 1)
    }
}

/// There is a nearest pattern, whatever the number of units.
proof fn lemma_rounded_is_nearest(s: int)
    requires
        0 <= s,
    ensures
        nearest(rounded(s), s),
{
    if s >= units(INFINITY_BITS as int) {
        lemma_nearest_overflow(s);
        lemma_rounded_is(INFINITY_BITS as int, s);
    } else {
        let low = lemma_pattern_below(s, INFINITY_BITS - 1);
        let below = s - units(low);
        let above = units(low + 1) - s;
        let up = below > above || (below == above && low % 2 == 1);
        lemma_nearest_of_two(low, s, up);
        lemma_rounded_is(
            if up {
                low + 1
            } else {
                low
            },
            s,
        );
    }
}

proof fn lemma_rounding_keeps_order(s: int, t: int)
    requires
        0 <= s <= t,
    ensures
        0 <= rounded(s) <= rounded(t) <= INFINITY_BITS,
{
    lemma_rounded_is_nearest(s);
    lemma_rounded_is_nearest(t);
    let a = rounded(s);
    let b = rounded(t);
    if b < a {
        lemma_units_ordered(b, a);
        assert(distance(units(a), s) <= distance(units(b), s));
        assert(distance(units(b), t) <= distance(units(a), t));
        assert(s == t);
    }
}

proof fn lemma_of_units_keeps_order(s: int, t: int)
    requires
        s <= t,
    ensures
        rank(Ratio::of_units(s)) <= rank(Ratio::of_units(t)),
{
    if s >= 0 {
        lemma_rounding_keeps_order(s, t);
    } else if t < 0 {
        lemma_rounding_keeps_order(-t, -s);
    } else {
        lemma_rounding_keeps_order(0, -s);
        lemma_rounding_keeps_order(0, t);
    }
}

/// The order of numbers is that of their values.
pub proof fn law_order_is_that_of_the_values(a: Ratio, b: Ratio)
    requires
        a.finite(),
        b.finite(),
    ensures
        rank(a) <= rank(b) <==> a.value() <= b.value(),
{
    let ma = a.magnitude();
    let mb = b.magnitude();
    lemma_units_zero();
    if 0 < ma {
        lemma_units_ordered(0, ma);
    }
    if 0 < mb {
        lemma_units_ordered(0, mb);
    }
    if ma < mb {
        lemma_units_ordered(ma, mb);
    } else if mb < ma {
        lemma_units_ordered(mb, ma);
    }
}

/// A sum of finite numbers that is a number itself comes out as that number:
/// adding is exact wherever it can be.
pub proof fn law_sums_are_exact_where_they_can_be(a: Ratio, b: Ratio, c: Ratio)
    requires
        a.finite(),
        b.finite(),
        c.finite(),
        c.value() == a.value() + b.value(),
    ensures
        a.plus(b).finite(),
        a.plus(b).value() == c.value(),
{
    let s = c.value();
    let m = c.magnitude();
    lemma_units_zero();
    if 0 < m {
        lemma_units_ordered(0, m);
    }
    lemma_nearest_exact(m);
    lemma_rounded_is(m, units(m));
    lemma_nearest_exact(0);
    lemma_rounded_is(0, 0);
    assert(s == units(m) || s == -units(m));
    if s == 0 && a.negative() && b.negative() {
        assert(a.plus(b) == Ratio { bits: SIGN_BIT });
    } else {
        assert(a.plus(b) == Ratio::of_units(s));
        assert(a.plus(b).magnitude() == m);
    }
}

/// Adding more gives no less.
pub proof fn law_sums_keep_order(a: Ratio, b: Ratio, c: Ratio)
    requires
        a.finite(),
        b.finite(),
        c.finite(),
        b.value() <= c.value(),
    ensures
        rank(a.plus(b)) <= rank(a.plus(c)),
{
    let s = a.value() + b.value();
    let t = a.value() + c.value();
    lemma_of_units_keeps_order(s, t);
    lemma_nearest_exact(0);
    lemma_units_zero();
    lemma_rounded_is(0, 0);
    assert(rank(Ratio::of_units(0)) == 0);
    assert(rank(Ratio { bits: SIGN_BIT }) == 0);
}

/// In whichever order two numbers are added, their sum is the same.
pub proof fn law_sums_do_not_depend_on_order(a: Ratio, b: Ratio)
    requires
        !a.nan(),
        !b.nan(),
        a.infinite() && b.infinite() ==> a == b,
    ensures
        a.plus(b) == b.plus(a),
{
}

/// What a resize gives to the two sides of an edge. The first side gets what it
/// had and `delta`, held between two bounds: neither side is to get less than
/// 0.05 or half of what both have, whichever is less. The second side gets the
/// rest. A side that kept within its bounds does not lose what it was to win,
/// nor win what it was to lose.
pub proof fn law_resizing_moves_the_edge_by_delta(own: Ratio, neighbor: Ratio, delta: Ratio)
    requires
        own.finite(),
        neighbor.finite(),
        delta.finite(),
        own.plus(neighbor).share(),
        divisible(own.plus(neighbor)),
    ensures
        ({
            let total = own.plus(neighbor);
            let (share, rest) = resized(own, neighbor, delta);
            let least = least_share(total);
            let most = total.plus(least.negated());
            &&& least.finite() && 0 <= rank(least)
            &&& rank(least) == 0x3d4c_cccd && 2 * least.value() <= total.value() + 1 || (rank(least)
                < 0x3d4c_cccd && distance(2 * least.value(), total.value()) <= 1)
            &&& rank(least) <= rank(share) <= rank(most)
            &&& rank(least) <= rank(own.plus(delta)) <= rank(most) ==> share == own.plus(delta)
            &&& rank(own.plus(delta)) < rank(least) ==> share == least
            &&& rank(own.plus(delta)) > rank(most) ==> share == most
            &&& rest == total.plus(share.negated())
            &&& delta.value() >= 0 && rank(own) <= rank(most) ==> rank(share) >= rank(own)
            &&& delta.value() <= 0 && rank(own) >= rank(least) ==> rank(share) <= rank(own)
        }),
{
    let total = own.plus(neighbor);
    let m = total.magnitude();
    let zero = Ratio { bits: 0 };
    law_halves_are_rounded_to_even(m);
    let least = least_share(total);
    let half = Ratio { bits: halved(m) as u32 };
    assert(half.magnitude() == halved(m) && !half.negative());
    assert(total.value() == units(m));
    assert(half.value() == units(halved(m)));
    law_order_is_that_of_the_values(least, half);
    lemma_units_zero();
    assert(zero.value() == 0);
    law_sums_are_exact_where_they_can_be(own, zero, own);
    law_order_is_that_of_the_values(own, own.plus(zero));
    law_order_is_that_of_the_values(own.plus(zero), own);
    if delta.value() >= 0 {
        law_sums_keep_order(own, zero, delta);
    }
    if delta.value() <= 0 {
        law_sums_keep_order(own, delta, zero);
    }
}

/// The value and the rank of zero.
pub proof fn lemma_zero()
    ensures
        (Ratio { bits: 0 }).finite(),
        (Ratio { bits: 0 }).value() == 0,
        rank(Ratio { bits: 0 }) == 0,
{
    lemma_units_zero();
}

/// The total of no numbers is zero, and every further number is added to the
/// total of those before it; so a number alone is its own total.
pub proof fn law_totals_add_up(ratios: Seq<Ratio>, last: Ratio)
    ensures
        total_of(Seq::empty()).value() == 0,
        total_of(ratios.push(last)) == total_of(ratios).plus(last),
        last.finite() ==> total_of(seq![last]).value() == last.value(),
{
    lemma_zero();
    assert(ratios.push(last).drop_last() =~= ratios);
    assert(seq![last].drop_last() =~= Seq::<Ratio>::empty());
    assert(total_of(Seq::empty()) == Ratio { bits: 0 });
    assert(total_of(seq![last]) == (Ratio { bits: 0 }).plus(last));
    if last.finite() {
        law_sums_are_exact_where_they_can_be(Ratio { bits: 0 }, last, last);
    }
}

/// What has no bound stays so whatever finite number is added, two such numbers
/// of different signs have no sum, nor has anything with what is no number; and
/// what cancels out is zero, without a sign.
pub proof fn law_sums_beyond_all_numbers(a: Ratio, b: Ratio)
    ensures
        (a.bits == 0x7f80_0000 || a.bits == 0xff80_0000) && b.bits % 0x8000_0000 < 0x7f80_0000
            ==> a.plus(b) == a && b.plus(a) == a,
        a.bits == 0x7f80_0000 && b.bits == 0x7f80_0000 ==> a.plus(b) == a,
        a.bits == 0x7f80_0000 && b.bits == 0xff80_0000 ==> a.plus(b).bits == 0x7fc0_0000
            && b.plus(a).bits == 0x7fc0_0000,
        a.bits % 0x8000_0000 > 0x7f80_0000 ==> a.plus(b).bits == 0x7fc0_0000 && b.plus(a).bits
            == 0x7fc0_0000,
        a.bits < 0x7f80_0000 ==> a.plus(a.negated()).bits == 0 && a.negated().plus(a).bits == 0,
{
    lemma_units_zero();
    lemma_nearest_exact(0);
    lemma_rounded_is(0, 0);
}

/// A pair can be shared out just where the least share is not above the most.
pub proof fn law_pairs_are_shared_out_where_there_is_room(total: Ratio)
    ensures
        divisible(total) <==> !(rank(most_share(total)) < rank(least_share(total))),
{
}

/// A share is a number above zero and below all bounds.
pub proof fn law_shares_are_numbers_above_zero(r: Ratio)
    ensures
        r.share() <==> 0 < r.bits && r.bits < 0x7f80_0000,
        r.share() <==> r.bits % 0x8000_0000 < 0x7f80_0000 && r.value() > 0,
{
    lemma_units_zero();
    if 0 < r.magnitude() {
        lemma_units_ordered(0, r.magnitude());
    }
}

} // verus!
