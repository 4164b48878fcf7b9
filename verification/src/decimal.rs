//! Fixed-scale decimal numbers and truncation to a number of fractional digits.

use rust_decimal::Decimal;
use vstd::prelude::*;

verus! {

/// The largest number of fractional digits a decimal can carry.
pub const MAX_SCALE: u32 = 28;

/// The largest magnitude of a mantissa: 96 bits, all set.
pub const MAX_MANTISSA: i128 = 79228162514264337593543950335;

/// Ten to the power `n`.
pub open spec fn pow10(n: nat) -> int
    decreases n,
{
    if n == 0 {
        1
    } else {
        10 * pow10((n - 1) as nat)
    }
}

/// Why a number or an order was turned away.
#[derive(Clone, Copy, Debug, PartialEq, Eq, Structural)]
pub enum OrderError {
    /// The scale is above `MAX_SCALE` or the mantissa is wider than 96 bits.
    OutOfRange,
    /// The number cannot be written with the wanted scale in 96 bits, or a
    /// level's total would leave the machine's range.
    Overflow,
    /// The volume is below zero.
    NegativeVolume,
}

/// The decimal number `mantissa / 10^scale`.
#[derive(Clone, Copy, Debug, PartialEq, Eq, Structural)]
pub struct Scaled {
    pub mantissa: i128,
    pub scale: u32,
}

/// The mantissa, at `places` fractional digits, of the largest such decimal that
/// is not above `m / 10^scale`.
pub open spec fn floored(m: int, scale: nat, places: nat) -> int {
    if scale <= places {
        m * pow10((places - scale) as nat)
    } else {
        m / pow10((scale - places) as nat)
    }
}

/// Whether a 96-bit mantissa can hold `m`.
pub open spec fn in_range(m: int) -> bool {
    -MAX_MANTISSA <= m <= MAX_MANTISSA
}

/// How one number stands to another.
#[derive(Clone, Copy, Debug, PartialEq, Eq, Structural)]
pub enum Rank {
    Less,
    Same,
    More,
}

/// How the number `a` stands to the number `b`, whatever their scales.
pub open spec fn value_rank(a: Scaled, b: Scaled) -> Rank {
    let x = a.mantissa * pow10(b.scale as nat);
    let y = b.mantissa * pow10(a.scale as nat);
    if x < y {
        Rank::Less
    } else if x == y {
        Rank::Same
    } else {
        Rank::More
    }
}

/// Numbers of one scale stand to each other as their mantissas do.
pub proof fn lemma_value_rank_same_scale(a: Scaled, b: Scaled)
    requires
        a.scale == b.scale,
    ensures
        value_rank(a, b) == (if a.mantissa < b.mantissa {
            Rank::Less
        } else if a.mantissa == b.mantissa {
            Rank::Same
        } else {
            Rank::More
        }),
{
    let p = pow10(a.scale as nat);
    let x = a.mantissa as int;
    let y = b.mantissa as int;
    lemma_pow10_positive(a.scale as nat);
    assert((x < y ==> x * p < y * p) && (x > y ==> x * p > y * p)) by (nonlinear_arith)
        requires
            p >= 1,
    ;
}

/// Powers of ten are positive and grow with the exponent.
pub proof fn lemma_pow10_bounds(n: nat)
    requires
        n <= 28,
    ensures
        1 <= pow10(n) <= 10000000000000000000000000000,
    decreases n,
{
    if n > 0 {
        lemma_pow10_bounds((n - 1) as nat);
        lemma_pow10_bounds_step((n - 1) as nat);
    }
}

proof fn lemma_pow10_bounds_step(n: nat)
    requires
        n < 28,
    ensures
        pow10(n) <= 1000000000000000000000000000,
    decreases 28 - n,
{
    reveal_with_fuel(pow10, 2);
    if n < 27 {
        lemma_pow10_bounds_step(n + 1);
        assert(pow10(n + 1) == 10 * pow10(n));
        lemma_pow10_positive(n);
    } else {
        lemma_pow10_27();
    }
}

proof fn lemma_pow10_positive(n: nat)
    ensures
        pow10(n) >= 1,
    decreases n,
{
    if n > 0 {
        lemma_pow10_positive((n - 1) as nat);
    }
}

proof fn lemma_pow10_27()
    ensures
        pow10(27) == 1000000000000000000000000000,
{
    reveal_with_fuel(pow10, 10);
    assert(pow10(9) == 1000000000);
    assert(pow10(18) == 1000000000000000000);
    assert(pow10(27) == 1000000000000000000000000000);
}

/// Rounds `mantissa / 10^scale` down to a whole number with
/// `rust_decimal::Decimal::floor`, which gives the largest integer that is not
/// above its argument, and reads that integer back as the result's mantissa.
/// A `Decimal`'s mantissa never leaves 96 bits.
#[verifier::external_body]
fn decimal_floor(mantissa: i128, scale: u32) -> (r: i128)
    requires
        scale <= MAX_SCALE,
        in_range(mantissa as int),
    ensures
        r == mantissa as int / pow10(scale as nat),
        in_range(r as int),
{
    Decimal::from_i128_with_scale(mantissa, scale).floor().mantissa()
}

/// Subtracts with `rust_decimal::Decimal`'s `Sub::sub`. Of two numbers of one
/// scale, neither below zero, it gives the difference at that scale: the
/// mantissas are subtracted, and nothing can leave 96 bits.
#[verifier::external_body]
pub(crate) fn decimal_sub(a: Scaled, b: Scaled) -> (r: Scaled)
    requires
        a.valid(),
        b.valid(),
        a.scale == b.scale,
        a.mantissa >= 0,
        b.mantissa >= 0,
    ensures
        r.mantissa == a.mantissa - b.mantissa,
        r.scale == a.scale,
{
    let x = Decimal::from_i128_with_scale(a.mantissa, a.scale);
    let y = Decimal::from_i128_with_scale(b.mantissa, b.scale);
    let d = x - y;
    Scaled { mantissa: d.mantissa(), scale: d.scale() }
}

/// Adds with `rust_decimal::Decimal`'s `Add::add`. Of two numbers of one
/// scale, neither below zero, whose mantissas together stay in 96 bits, it
/// gives the sum at that scale: the mantissas are added.
#[verifier::external_body]
pub(crate) fn decimal_add(a: Scaled, b: Scaled) -> (r: Scaled)
    requires
        a.valid(),
        b.valid(),
        a.scale == b.scale,
        a.mantissa >= 0,
        b.mantissa >= 0,
        a.mantissa + b.mantissa <= MAX_MANTISSA,
    ensures
        r.mantissa == a.mantissa + b.mantissa,
        r.scale == a.scale,
{
    let x = Decimal::from_i128_with_scale(a.mantissa, a.scale);
    let y = Decimal::from_i128_with_scale(b.mantissa, b.scale);
    let d = x + y;
    Scaled { mantissa: d.mantissa(), scale: d.scale() }
}

/// Ten to the power `k`, for a scale that a decimal can have.
pub fn power_of_ten(k: u32) -> (r: i128)
    requires
        k <= MAX_SCALE,
    ensures
        r == pow10(k as nat),
        r >= 1,
{
    let mut r: i128 = 1;
    let mut i: u32 = 0;
    while i < k
        invariant
            i <= k <= 28,
            r == pow10(i as nat),
            r >= 1,
        decreases k - i,
    {
        proof {
            lemma_pow10_bounds_step(i as nat);
            assert(pow10((i + 1) as nat) == 10 * pow10(i as nat));
        }
        r = r * 10;
        i = i + 1;
    }
    r
}

impl Scaled {
    /// Whether a 96-bit decimal can hold the number.
    pub open spec fn valid(&self) -> bool {
        self.scale <= MAX_SCALE && in_range(self.mantissa as int)
    }

    /// The mantissa of the number rounded down to `places` fractional digits.
    pub open spec fn floor_mantissa(&self, places: u32) -> int {
        floored(self.mantissa as int, self.scale as nat, places as nat)
    }

    /// Whether the number can be rounded down to `places` fractional digits.
    pub open spec fn floor_fits(&self, places: u32) -> bool {
        self.valid() && places <= MAX_SCALE && in_range(self.floor_mantissa(places))
    }

    /// Whether a 96-bit decimal can hold the number.
    pub fn is_valid(&self) -> (r: bool)
        ensures
            r == self.valid(),
    {
        self.scale <= MAX_SCALE && -MAX_MANTISSA <= self.mantissa && self.mantissa <= MAX_MANTISSA
    }

    pub fn new(mantissa: i128, scale: u32) -> (r: Scaled)
        ensures
            r.mantissa == mantissa,
            r.scale == scale,
    {
        Scaled { mantissa, scale }
    }

    /// The largest decimal with `places` fractional digits that is not above
    /// `self`. Negative numbers go toward minus infinity.
    pub fn floor_to(&self, places: u32) -> (r: Result<Scaled, OrderError>)
        ensures
            r.is_ok() <==> self.floor_fits(places),
            r matches Ok(v) ==> v.scale == places && v.valid() && v.mantissa
                == self.floor_mantissa(places),
            r matches Ok(v) ==> (self.mantissa >= 0 <==> v.mantissa >= 0),
            r matches Err(e) ==> e == (if self.valid() && places <= MAX_SCALE {
                OrderError::Overflow
            } else {
                OrderError::OutOfRange
            }),
    {
        if self.scale > MAX_SCALE || places > MAX_SCALE || self.mantissa > MAX_MANTISSA
            || self.mantissa < -MAX_MANTISSA {
            return Err(OrderError::OutOfRange);
        }
        if self.scale > places {
            proof {
                lemma_pow10_bounds((self.scale - places) as nat);
                lemma_floor_sign(self.mantissa as int, pow10((self.scale - places) as nat));
            }
            let m = decimal_floor(self.mantissa, self.scale - places);
            Ok(Scaled { mantissa: m, scale: places })
        } else {
            let p = power_of_ten(places - self.scale);
            let bound: i128 = MAX_MANTISSA / p;
            let ghost m = self.mantissa as int;
            proof {
                lemma_pow10_bounds((places - self.scale) as nat);
                lemma_scale_up(m, p as int, bound as int);
                assert(m >= 0 <==> m * p >= 0) by (nonlinear_arith)
                    requires
                        p >= 1,
                ;
            }
            if self.mantissa > bound || self.mantissa < -bound {
                Err(OrderError::Overflow)
            } else {
                Ok(Scaled { mantissa: self.mantissa * p, scale: places })
            }
        }
    }
}

/// Rounding down keeps a number on its side of zero.
proof fn lemma_floor_sign(m: int, p: int)
    requires
        p >= 1,
    ensures
        m >= 0 <==> m / p >= 0,
{
    assert(m >= 0 <==> m / p >= 0) by (nonlinear_arith)
        requires
            p >= 1,
    ;
}

/// With `bound` the whole part of `MAX_MANTISSA / p`, the product `m * p`
/// stays in range exactly when `m` is within `bound` of zero.
proof fn lemma_scale_up(m: int, p: int, bound: int)
    requires
        p >= 1,
        bound == MAX_MANTISSA as int / p,
    ensures
        (-bound <= m <= bound) <==> in_range(m * p),
        bound >= 0,
{
    let max = MAX_MANTISSA as int;
    let low = bound * p;
    let high = (bound + 1) * p;
    assert(bound >= 0 && low <= max < high) by (nonlinear_arith)
        requires
            p >= 1,
            bound == max / p,
            max >= 0,
            low == bound * p,
            high == (bound + 1) * p,
    ;
    if m > bound {
        assert(m * p >= high) by (nonlinear_arith)
            requires
                m >= bound + 1,
                p >= 1,
                high == (bound + 1) * p,
        ;
    }
    if m < -bound {
        assert(m * p <= -high) by (nonlinear_arith)
            requires
                m <= -(bound + 1),
                p >= 1,
                high == (bound + 1) * p,
        ;
    }
    if -bound <= m <= bound {
        assert(-low <= m * p <= low) by (nonlinear_arith)
            requires
                -bound <= m <= bound,
                p >= 1,
                low == bound * p,
        ;
    }
}

} // verus!
