//! Binary floating-point numbers with proved rounding.
//!
//! A [`Binary64`] is a number in the IEEE 754 interchange format of 64 bits,
//! held as its bit pattern. Its view is the mathematical number that the
//! pattern stands for, and every operation is proved to return the exact
//! result rounded to the nearest representable number, ties to even. A few
//! operations round to single precision instead; their results are held in
//! the wide format, which represents every single-precision number exactly.
use crate::number::{
    at_most, ceiling, difference, finite_sum, greater, less, lesser, nearest_integer, negated,
    of_integer, one, positive, product, quotient, rounded, rounded_single, single_of_integer,
    single_product, sum, Number,
};
use crate::rounding::{is_lead, lemma_pow2_monotone, power_of_two, round_scaled};
use vstd::arithmetic::div_mod::{
    lemma_basic_div, lemma_div_nonincreasing, lemma_div_of0, lemma_fundamental_div_mod,
    lemma_fundamental_div_mod_converse, lemma_mod_bound, lemma_small_mod,
};
use vstd::arithmetic::mul::lemma_mul_strictly_positive;
use vstd::arithmetic::power2::{
    lemma2_to64, lemma2_to64_rest, lemma_pow2_adds, lemma_pow2_pos, lemma_pow2_strictly_increases,
    lemma_pow2_unfold, pow2,
};
use vstd::prelude::*;

verus! {

/// Weight of the lowest exponent bit in a bit pattern, and of the leading
/// mantissa bit.
pub const LEADING_BIT: u64 = 0x10_0000_0000_0000;

/// Weight of the sign bit in a bit pattern.
pub const SIGN_BIT: u64 = 0x8000_0000_0000_0000;

/// Bit pattern of positive infinity.
pub const INFINITY_BITS: u64 = 0x7ff0_0000_0000_0000;

/// A floating-point number, as its bit pattern.
///
/// Two values are equal when their patterns are equal; [`Binary64::is_less_than`]
/// and [`Binary64::is_at_most`] compare what the patterns stand for.
#[derive(Clone, Copy, Debug, PartialEq, Eq, Structural)]
pub struct Binary64 {
    pub bits: u64,
}

/// The number that a bit pattern stands for.
pub open spec fn decode(bits: u64) -> Number {
    let negative = bits >= SIGN_BIT;
    let magnitude = bits as int % SIGN_BIT as int;
    let field = magnitude / LEADING_BIT as int;
    let fraction = magnitude % LEADING_BIT as int;
    if field == 2047 {
        if fraction == 0 {
            Number::Infinite { negative }
        } else {
            Number::NotANumber
        }
    } else if field == 0 {
        Number::Finite { negative, quanta: fraction as nat }
    } else {
        Number::Finite {
            negative,
            quanta: (LEADING_BIT + fraction) as nat * pow2((field - 1) as nat),
        }
    }
}

impl View for Binary64 {
    type V = Number;

    open spec fn view(&self) -> Number {
        decode(self.bits)
    }
}

proof fn lemma_constants()
    ensures
        pow2(52) == LEADING_BIT,
        pow2(53) == 0x20_0000_0000_0000,
        pow2(63) == SIGN_BIT,
        pow2(23) == 0x80_0000,
        pow2(24) == 0x100_0000,
        pow2(0) == 1,
        pow2(64) == 0x1_0000_0000_0000_0000,
{
    lemma2_to64();
    lemma2_to64_rest();
}

/// The pattern with exponent weight `place` and mantissa `mantissa`.
proof fn lemma_decode(negative: bool, mantissa: nat, place: nat, bits: u64)
    requires
        mantissa <= pow2(53),
        place > 0 ==> mantissa >= pow2(52),
        place * LEADING_BIT + mantissa < INFINITY_BITS,
        bits == place * LEADING_BIT + mantissa + if negative {
            SIGN_BIT as int
        } else {
            0
        },
    ensures
        decode(bits) == (Number::Finite { negative, quanta: mantissa * pow2(place) }),
{
    lemma_constants();
    let magnitude = place * LEADING_BIT + mantissa;
    assert(bits as int % SIGN_BIT as int == magnitude);
    let lead = LEADING_BIT as int;
    if mantissa < lead {
        lemma_fundamental_div_mod_converse(magnitude, lead, place as int, mantissa as int);
        assert(mantissa * 1 == mantissa);
    } else if mantissa < 2 * lead {
        lemma_fundamental_div_mod_converse(magnitude, lead, place as int + 1, mantissa - lead);
    } else {
        lemma_fundamental_div_mod_converse(magnitude, lead, place as int + 2, 0);
        lemma_pow2_unfold(place + 1);
        assert((lead + 0) * pow2(place + 1) == mantissa * pow2(place)) by (nonlinear_arith)
            requires
                mantissa == 2 * lead,
                pow2(place + 1) == 2 * pow2(place),
        ;
    }
}

/// Where the rounded value no longer fits the format.
proof fn lemma_overflow(mantissa: nat, place: nat)
    requires
        mantissa <= pow2(53),
        place > 0 ==> mantissa >= pow2(52),
    ensures
        place * LEADING_BIT + mantissa >= INFINITY_BITS <==> mantissa * pow2(place) >= pow2(2098),
{
    lemma_constants();
    lemma_pow2_pos(place);
    if place >= 2046 {
        lemma_pow2_adds(52, place);
        lemma_pow2_monotone(2098, 52 + place);
        assert(mantissa * pow2(place) >= pow2(52) * pow2(place)) by (nonlinear_arith)
            requires
                mantissa >= pow2(52),
        ;
        assert(place * LEADING_BIT >= 2046 * LEADING_BIT);
    } else if place == 2045 && mantissa == pow2(53) {
        lemma_pow2_adds(53, place);
    } else {
        lemma_pow2_adds(53, place);
        if place == 2045 {
            assert(mantissa * pow2(place) < pow2(53) * pow2(place)) by (nonlinear_arith)
                requires
                    mantissa < pow2(53),
                    pow2(place) > 0,
            ;
        } else {
            assert(mantissa * pow2(place) <= pow2(53) * pow2(place)) by (nonlinear_arith)
                requires
                    mantissa <= pow2(53),
            ;
            lemma_pow2_strictly_increases(53 + place, 2098);
            assert(place * LEADING_BIT <= 2044 * LEADING_BIT);
        }
    }
}

impl Binary64 {
    /// The number with the given bit pattern.
    pub fn from_bits(bits: u64) -> (r: Binary64)
        ensures
            r.bits == bits,
    {
        Binary64 { bits }
    }

    /// The bit pattern.
    pub fn to_bits(self) -> (bits: u64)
        ensures
            bits == self.bits,
    {
        self.bits
    }

    /// An infinite number.
    pub fn infinite(negative: bool) -> (r: Binary64)
        ensures
            r@ == (Number::Infinite { negative }),
    {
        Binary64 {
            bits: if negative {
                SIGN_BIT + INFINITY_BITS
            } else {
                INFINITY_BITS
            },
        }
    }

    fn not_a_number() -> (r: Binary64)
        ensures
            r@ == Number::NotANumber,
    {
        Binary64 { bits: 0x7ff8_0000_0000_0000 }
    }

    /// A zero.
    pub fn zero(negative: bool) -> (r: Binary64)
        ensures
            r@ == (Number::Finite { negative, quanta: 0 }),
    {
        Binary64 {
            bits: if negative {
                SIGN_BIT
            } else {
                0
            },
        }
    }

    /// The number `mantissa * 2^place` quanta.
    fn encode(negative: bool, mantissa: u64, place: u32) -> (r: Binary64)
        requires
            mantissa <= pow2(53),
            place > 0 ==> mantissa >= pow2(52),
            place <= 0x3000,
        ensures
            r@ == (if mantissa * pow2(place as nat) >= pow2(2098) {
                Number::Infinite { negative }
            } else {
                Number::Finite { negative, quanta: (mantissa * pow2(place as nat)) as nat }
            }),
    {
        proof {
            lemma_constants();
            lemma_overflow(mantissa as nat, place as nat);
        }
        if place > 2046 {
            return Binary64::infinite(negative);
        }
        let magnitude: u64 = place as u64 * LEADING_BIT + mantissa;
        if magnitude >= INFINITY_BITS {
            return Binary64::infinite(negative);
        }
        let bits: u64 = if negative {
            SIGN_BIT + magnitude
        } else {
            magnitude
        };
        proof {
            lemma_decode(negative, mantissa as nat, place as nat, bits);
        }
        Binary64 { bits }
    }

    pub fn is_nan(self) -> (r: bool)
        ensures
            r == (self@ is NotANumber),
    {
        self.bits % SIGN_BIT > INFINITY_BITS
    }

    pub fn is_infinite(self) -> (r: bool)
        ensures
            r == (self@ is Infinite),
    {
        self.bits % SIGN_BIT == INFINITY_BITS
    }

    pub fn is_finite(self) -> (r: bool)
        ensures
            r == (self@ is Finite),
    {
        self.bits % SIGN_BIT < INFINITY_BITS
    }

    fn is_negative(self) -> (r: bool)
        ensures
            self@ !is NotANumber ==> r == self@.is_negative(),
    {
        self.bits >= SIGN_BIT
    }

    /// Mantissa and exponent weight of a finite number.
    fn parts(self) -> (r: (u64, u32))
        requires
            self@ is Finite,
        ensures
            r.0 < pow2(53),
            r.1 <= 2045,
            r.1 > 0 ==> r.0 >= pow2(52),
            self@ == (Number::Finite {
                negative: self@.is_negative(),
                quanta: (r.0 * pow2(r.1 as nat)) as nat,
            }),
            self.bits as int % SIGN_BIT as int == r.1 * LEADING_BIT + r.0,
    {
        proof {
            lemma_constants();
        }
        let magnitude: u64 = self.bits % SIGN_BIT;
        let field: u64 = magnitude / LEADING_BIT;
        let fraction: u64 = magnitude % LEADING_BIT;
        if field == 0 {
            assert(fraction * 1 == fraction);
            (fraction, 0)
        } else {
            (LEADING_BIT + fraction, (field - 1) as u32)
        }
    }

    /// The number nearest to `num / den` quanta, from its leading part.
    fn finish(
        negative: bool,
        lead: u128,
        place: i32,
        rest: bool,
        Ghost(num): Ghost<nat>,
        Ghost(den): Ghost<nat>,
    ) -> (r: Binary64)
        requires
            den > 0,
            -0x1000 < place < 0x1000,
            lead < pow2(120),
            is_lead(num, den, lead as nat, place as int, rest),
            rest ==> lead >= pow2(53),
        ensures
            r@ == rounded(negative, num, den),
    {
        let (mantissa, kept): (u64, u32) = round_scaled(
            lead,
            place,
            rest,
            53,
            0,
            Ghost(num),
            Ghost(den),
        );
        Binary64::encode(negative, mantissa, kept)
    }

    pub fn negate(self) -> (r: Binary64)
        ensures
            r@ == negated(self@),
    {
        if self.bits >= SIGN_BIT {
            Binary64 { bits: self.bits - SIGN_BIT }
        } else {
            Binary64 { bits: self.bits + SIGN_BIT }
        }
    }

    /// The sum of two finite numbers, the first with the greater exponent.
    fn add_aligned(x: bool, m: u64, e: u32, y: bool, n: u64, f: u32) -> (r: Binary64)
        requires
            m < pow2(53),
            n < pow2(53),
            f <= e <= 2045,
            e > 0 ==> m >= pow2(52),
        ensures
            r@ == finite_sum(
                (if x {
                    -(m * pow2(e as nat))
                } else {
                    m * pow2(e as nat)
                }) + (if y {
                    -(n * pow2(f as nat))
                } else {
                    n * pow2(f as nat)
                }),
                x && y,
            ),
    {
        let gap: u32 = e - f;
        let cut: u32 = if gap <= 64 {
            0
        } else {
            gap - 64
        };
        let lift: u32 = gap - cut;
        let place: u32 = f + cut;
        proof {
            lemma_constants();
            lemma_lifted(m as nat, lift as nat);
        }
        let a: u128 = m as u128 * power_of_two(lift);
        let (whole, rest): (u64, bool) = Self::cut_below(n, cut);
        let ghost unit = pow2(place as nat) as int;
        let ghost p = m * pow2(e as nat);
        let ghost q = n * pow2(f as nat);
        let ghost below = q - whole * unit;
        proof {
            lemma_pow2_pos(place as nat);
            lemma_pow2_pos(f as nat);
            lemma_pow2_adds(lift as nat, place as nat);
            assert(p == a * unit) by (nonlinear_arith)
                requires
                    p == m * (pow2(lift as nat) * unit),
                    a == m * pow2(lift as nat),
            ;
            lemma_pow2_adds(f as nat, cut as nat);
            lemma_cut(n as nat, whole as nat, rest, cut as nat, f as nat);
        }
        if x == y {
            proof {
                assert(p + q == (a + whole) * unit + below) by (nonlinear_arith)
                    requires
                        p == a * unit,
                        below == q - whole * unit,
                ;
                lemma_fundamental_div_mod_converse(p + q, unit, a + whole, below);
                lemma_plain_unit(unit);
            }
            let lead: u128 = a + whole as u128;
            if lead == 0 && !rest {
                assert(0 * unit == 0) by (nonlinear_arith);
                return Binary64::zero(x);
            }
            proof {
                lemma_positive_total(lead as int, unit, below);
            }
            return Binary64::finish(
                x,
                lead,
                place as i32,
                rest,
                Ghost((p + q) as nat),
                Ghost(1nat),
            );
        }
        if a >= whole as u128 + if rest {
            1
        } else {
            0
        } {
            let lead: u128 = a - whole as u128 - if rest {
                1
            } else {
                0
            };
            let ghost low = if rest {
                unit - below
            } else {
                0
            };
            proof {
                assert(p - q == lead * unit + low) by (nonlinear_arith)
                    requires
                        p == a * unit,
                        below == q - whole * unit,
                        lead == a - whole - (if rest {
                            1int
                        } else {
                            0
                        }),
                        low == (if rest {
                            unit - below
                        } else {
                            0
                        }),
                        !rest ==> below == 0,
                ;
                assert(lead * unit >= 0) by (nonlinear_arith)
                    requires
                        lead >= 0,
                        unit > 0,
                ;
                lemma_fundamental_div_mod_converse(p - q, unit, lead as int, low);
                lemma_plain_unit(unit);
            }
            if lead == 0 && !rest {
                assert(0 * unit == 0) by (nonlinear_arith);
                return Binary64::zero(false);
            }
            proof {
                lemma_positive_total(lead as int, unit, low);
            }
            return Binary64::finish(
                x,
                lead,
                place as i32,
                rest,
                Ghost((p - q) as nat),
                Ghost(1nat),
            );
        }
        let lead: u128 = whole as u128 - a;
        proof {
            assert(q - p == lead * unit + 0) by (nonlinear_arith)
                requires
                    p == a * unit,
                    q == whole * unit,
                    lead == whole - a,
            ;
            lemma_fundamental_div_mod_converse(q - p, unit, lead as int, 0);
            lemma_plain_unit(unit);
            lemma_positive_total(lead as int, unit, 0);
        }
        Binary64::finish(y, lead, place as i32, false, Ghost((q - p) as nat), Ghost(1nat))
    }

    /// `n` cut off `cut` bits above its lowest one.
    fn cut_below(n: u64, cut: u32) -> (r: (u64, bool))
        requires
            n < pow2(53),
        ensures
            r.0 == n as int / pow2(cut as nat) as int,
            r.1 == (n as int % pow2(cut as nat) as int != 0),
    {
        if cut > 60 {
            proof {
                lemma_pow2_monotone(53, cut as nat);
                lemma_pow2_pos(cut as nat);
                lemma_basic_div(n as int, pow2(cut as nat) as int);
                lemma_small_mod(n as nat, pow2(cut as nat));
            }
            (0, n != 0)
        } else {
            let weight: u128 = power_of_two(cut);
            proof {
                lemma_pow2_pos(cut as nat);
                lemma_fundamental_div_mod(n as int, weight as int);
                lemma_div_nonincreasing(n as int, weight as int);
            }
            ((n as u128 / weight) as u64, n as u128 % weight != 0)
        }
    }

    pub fn plus(self, other: Binary64) -> (r: Binary64)
        ensures
            r@ == sum(self@, other@),
    {
        if self.is_nan() || other.is_nan() {
            return Binary64::not_a_number();
        }
        if self.is_infinite() {
            if other.is_infinite() && self.is_negative() != other.is_negative() {
                return Binary64::not_a_number();
            }
            return self;
        }
        if other.is_infinite() {
            return other;
        }
        let x: bool = self.is_negative();
        let y: bool = other.is_negative();
        let (m, e): (u64, u32) = self.parts();
        let (n, f): (u64, u32) = other.parts();
        if e >= f {
            Binary64::add_aligned(x, m, e, y, n, f)
        } else {
            Binary64::add_aligned(y, n, f, x, m, e)
        }
    }

    pub fn minus(self, other: Binary64) -> (r: Binary64)
        ensures
            r@ == difference(self@, other@),
    {
        self.plus(other.negate())
    }

    pub fn times(self, other: Binary64) -> (r: Binary64)
        ensures
            r@ == product(self@, other@),
    {
        if self.is_nan() || other.is_nan() {
            return Binary64::not_a_number();
        }
        let negative: bool = self.is_negative() != other.is_negative();
        if self.is_infinite() || other.is_infinite() {
            if self.is_zero() || other.is_zero() {
                return Binary64::not_a_number();
            }
            return Binary64::infinite(negative);
        }
        let (m, e): (u64, u32) = self.parts();
        let (n, f): (u64, u32) = other.parts();
        proof {
            lemma_pow2_pos(1074);
            lemma_product_lead(m as nat, e as nat, n as nat, f as nat);
        }
        let lead: u128 = m as u128 * n as u128;
        let place: i32 = e as i32 + f as i32 - 1074;
        Binary64::finish(
            negative,
            lead,
            place,
            false,
            Ghost(((m * pow2(e as nat)) * (n * pow2(f as nat))) as nat),
            Ghost(one()),
        )
    }

    /// The product, rounded to single precision.
    pub fn times_single(self, other: Binary64) -> (r: Binary64)
        ensures
            r@ == single_product(self@, other@),
    {
        if !self.is_finite() || !other.is_finite() {
            return self.times(other);
        }
        let negative: bool = self.is_negative() != other.is_negative();
        let (m, e): (u64, u32) = self.parts();
        let (n, f): (u64, u32) = other.parts();
        proof {
            lemma_pow2_pos(1074);
            lemma_product_lead(m as nat, e as nat, n as nat, f as nat);
        }
        let lead: u128 = m as u128 * n as u128;
        let place: i32 = e as i32 + f as i32 - 1074;
        Binary64::finish_single(
            negative,
            lead,
            place,
            false,
            Ghost(((m * pow2(e as nat)) * (n * pow2(f as nat))) as nat),
            Ghost(one()),
        )
    }

    pub fn divided_by(self, other: Binary64) -> (r: Binary64)
        ensures
            r@ == quotient(self@, other@),
    {
        if self.is_nan() || other.is_nan() {
            return Binary64::not_a_number();
        }
        let negative: bool = self.is_negative() != other.is_negative();
        if self.is_infinite() {
            if other.is_infinite() {
                return Binary64::not_a_number();
            }
            return Binary64::infinite(negative);
        }
        if other.is_infinite() {
            return Binary64::zero(negative);
        }
        if other.is_zero() {
            if self.is_zero() {
                return Binary64::not_a_number();
            }
            return Binary64::infinite(negative);
        }
        let (m, e): (u64, u32) = self.parts();
        let (n, f): (u64, u32) = other.parts();
        let ghost num = ((m * pow2(e as nat)) * one()) as nat;
        let ghost den = (n * pow2(f as nat)) as nat;
        proof {
            lemma_constants();
            lemma_pow2_pos(f as nat);
            assert(n > 0) by {
                if n == 0 {
                    assert(0 * pow2(f as nat) == 0) by (nonlinear_arith);
                }
            }
            lemma_mul_strictly_positive(n as int, pow2(f as nat) as int);
        }
        if m == 0 {
            proof {
                assert(0 * pow2(e as nat) == 0) by (nonlinear_arith);
                assert(0 * one() == 0) by (nonlinear_arith);
                lemma_div_of0(den as int);
                lemma_small_mod(0, den);
                lemma_pow2_pos(120);
                assert(den * 1 == den);
            }
            return Binary64::finish(negative, 0, 0, false, Ghost(num), Ghost(den));
        }
        // Bring the dividend to full length, so that the quotient is long
        // enough to be rounded.
        let mut full: u64 = m;
        let mut back: u32 = 0;
        while full < LEADING_BIT
            invariant
                full == m * pow2(back as nat),
                0 < full < pow2(53),
                pow2(53) == 2 * LEADING_BIT,
                back <= 52,
                pow2(52) == LEADING_BIT,
                m > 0,
            decreases 2 * LEADING_BIT - full,
        {
            proof {
                if back == 52 {
                    assert(m * pow2(52) >= pow2(52)) by (nonlinear_arith)
                        requires
                            m >= 1,
                    ;
                }
                lemma_pow2_unfold((back + 1) as nat);
                assert(m * pow2((back + 1) as nat) == 2 * full) by (nonlinear_arith)
                    requires
                        full == m * pow2(back as nat),
                        pow2((back + 1) as nat) == 2 * pow2(back as nat),
                ;
            }
            full = full * 2;
            back = back + 1;
        }
        let lift: u128 = power_of_two(64);
        proof {
            lemma_lifted(full as nat, 64);
        }
        let raised: u128 = full as u128 * lift;
        let lead: u128 = raised / n as u128;
        let rest: bool = raised % n as u128 != 0;
        let place: i32 = e as i32 + 1010 - back as i32 - f as i32;
        proof {
            lemma_quotient_lead(m as nat, e as nat, n as nat, f as nat, back as nat);
        }
        Binary64::finish(negative, lead, place, rest, Ghost(num), Ghost(den))
    }

    /// The number nearest to `num / den`.
    pub fn ratio(num: u32, den: u32) -> (r: Binary64)
        requires
            den > 0,
        ensures
            r@ == rounded(false, num as nat * one(), den as nat),
    {
        let lift: u128 = power_of_two(87);
        proof {
            lemma_ratio_lead(num as nat, den as nat);
        }
        let lead: u128 = num as u128 * lift / den as u128;
        let rest: bool = num as u128 * lift % den as u128 != 0;
        Binary64::finish(false, lead, 987, rest, Ghost(num as nat * one()), Ghost(den as nat))
    }

    /// The single-precision number nearest to `num / den`.
    pub fn single_ratio(num: u32, den: u32) -> (r: Binary64)
        requires
            den > 0,
        ensures
            r@ == rounded_single(false, num as nat * one(), den as nat),
    {
        let lift: u128 = power_of_two(87);
        proof {
            lemma_constants();
            lemma_ratio_lead(num as nat, den as nat);
        }
        let lead: u128 = num as u128 * lift / den as u128;
        let rest: bool = num as u128 * lift % den as u128 != 0;
        Binary64::finish_single(
            false,
            lead,
            987,
            rest,
            Ghost(num as nat * one()),
            Ghost(den as nat),
        )
    }

    /// Whether the number is a zero of either sign.
    pub fn is_zero(self) -> (r: bool)
        ensures
            r == (self@ matches Number::Finite { quanta, .. } && quanta == 0),
    {
        let r: bool = self.bits % SIGN_BIT == 0;
        proof {
            if self@ is Finite && !r {
                lemma_nonzero_quanta(self);
            }
        }
        r
    }

    /// The number nearest to `mantissa * 2^place` quanta in single precision.
    fn finish_single(
        negative: bool,
        lead: u128,
        place: i32,
        rest: bool,
        Ghost(num): Ghost<nat>,
        Ghost(den): Ghost<nat>,
    ) -> (r: Binary64)
        requires
            den > 0,
            -0x1000 < place < 0x1000,
            lead < pow2(120),
            is_lead(num, den, lead as nat, place as int, rest),
            rest ==> lead >= pow2(24),
        ensures
            r@ == rounded_single(negative, num, den),
    {
        let (mantissa, kept): (u64, u32) = round_scaled(
            lead,
            place,
            rest,
            24,
            925,
            Ghost(num),
            Ghost(den),
        );
        proof {
            lemma_constants();
            lemma_single_overflow(mantissa as nat, kept as nat);
        }
        if kept >= 1179 || (kept == 1178 && mantissa == 0x100_0000) {
            return Binary64::infinite(negative);
        }
        if mantissa == 0 {
            assert(0 * pow2(kept as nat) == 0) by (nonlinear_arith);
            return Binary64::zero(negative);
        }
        let mut full: u64 = mantissa;
        let mut at: u32 = kept;
        while full < LEADING_BIT
            invariant
                0 < full <= pow2(53),
                pow2(53) == 2 * LEADING_BIT,
                at <= kept < 1179,
                kept - at <= 52,
                kept >= 925,
                full * pow2(at as nat) == mantissa * pow2(kept as nat),
                full >= pow2((kept - at) as nat),
                pow2(52) == LEADING_BIT,
            decreases 2 * LEADING_BIT - full,
        {
            proof {
                lemma_pow2_unfold(at as nat);
                lemma_pow2_unfold((kept - at + 1) as nat);
                assert((full * 2) * pow2((at - 1) as nat) == full * pow2(at as nat))
                    by (nonlinear_arith)
                    requires
                        pow2(at as nat) == 2 * pow2((at - 1) as nat),
                ;
                if kept - at == 52 {
                    assert(false);
                }
            }
            full = full * 2;
            at = at - 1;
        }
        proof {
            lemma_pow2_monotone(1202, 2098);
        }
        Binary64::encode(negative, full, at)
    }

    /// The number nearest to `magnitude`, negated where `negative` says so.
    fn from_magnitude(negative: bool, magnitude: u128) -> (r: Binary64)
        requires
            magnitude < pow2(120),
        ensures
            r@ == rounded(negative, magnitude as nat * one(), 1),
    {
        proof {
            lemma_integer_lead(magnitude as nat);
        }
        Binary64::finish(negative, magnitude, 1074, false, Ghost(magnitude as nat * one()), Ghost(1))
    }

    /// The number nearest to `n`.
    pub fn from_i128(n: i128) -> (r: Binary64)
        requires
            -0x4_0000_0000_0000_0000 <= n <= 0x4_0000_0000_0000_0000,
        ensures
            r@ == of_integer(n as int),
    {
        proof {
            lemma_constants();
            lemma2_to64();
            lemma_pow2_adds(64, 3);
            lemma_pow2_strictly_increases(67, 120);
        }
        if n < 0 {
            Binary64::from_magnitude(true, (-n) as u128)
        } else {
            Binary64::from_magnitude(false, n as u128)
        }
    }

    /// The number nearest to `n`.
    pub fn from_i64(n: i64) -> (r: Binary64)
        ensures
            r@ == of_integer(n as int),
    {
        Binary64::from_i128(n as i128)
    }

    /// The number nearest to `n`.
    pub fn from_usize(n: usize) -> (r: Binary64)
        ensures
            r@ == of_integer(n as int),
    {
        Binary64::from_i128(n as i128)
    }

    /// The single-precision number nearest to `n`.
    pub fn single_from_usize(n: usize) -> (r: Binary64)
        ensures
            r@ == single_of_integer(n as nat),
    {
        proof {
            lemma_constants();
            lemma_pow2_strictly_increases(64, 120);
            lemma_integer_lead(n as nat);
        }
        Binary64::finish_single(false, n as u128, 1074, false, Ghost(n as nat * one()), Ghost(1))
    }

    /// Whether this number is less than `other`.
    pub fn is_less_than(self, other: Binary64) -> (r: bool)
        ensures
            r == less(self@, other@),
    {
        if self.is_nan() || other.is_nan() {
            return false;
        }
        let x: bool = self.is_negative();
        let y: bool = other.is_negative();
        let p: u64 = self.bits % SIGN_BIT;
        let q: u64 = other.bits % SIGN_BIT;
        proof {
            if p < q {
                lemma_magnitude_order(self, other);
            } else if q < p {
                lemma_magnitude_order(other, self);
            } else {
                lemma_magnitude_equal(self, other);
            }
            lemma_magnitude_sign(self);
            lemma_magnitude_sign(other);
        }
        if x && y {
            p > q
        } else if x {
            p != 0 || q != 0
        } else if y {
            false
        } else {
            p < q
        }
    }

    /// Whether this number is greater than zero.
    pub fn is_positive(self) -> (r: bool)
        ensures
            r == positive(self@),
    {
        Binary64::zero(false).is_less_than(self)
    }

    /// Whether this number is less than or equal to `other`.
    pub fn is_at_most(self, other: Binary64) -> (r: bool)
        ensures
            r == at_most(self@, other@),
    {
        !self.is_nan() && !other.is_nan() && !other.is_less_than(self)
    }

    /// The lesser of two numbers.
    pub fn min(self, other: Binary64) -> (r: Binary64)
        ensures
            r@ == lesser(self@, other@),
    {
        if other.is_nan() || self.is_at_most(other) {
            self
        } else {
            other
        }
    }

    /// The greater of two numbers.
    pub fn max(self, other: Binary64) -> (r: Binary64)
        ensures
            r@ == greater(self@, other@),
    {
        if other.is_nan() || other.is_at_most(self) {
            self
        } else {
            other
        }
    }

    /// The nearest integer, halves away from zero, within the range of `i64`.
    pub fn round_to_i64(self) -> (r: i64)
        ensures
            r == nearest_integer(self@),
    {
        if self.is_nan() {
            return 0;
        }
        let negative: bool = self.is_negative();
        if self.is_infinite() {
            return if negative {
                i64::MIN
            } else {
                i64::MAX
            };
        }
        let (m, e): (u64, u32) = self.parts();
        let whole: u128 = Self::whole_part(m, e, false);
        proof {
            lemma_constants();
        }
        if negative {
            if whole > 0x8000_0000_0000_0000 {
                i64::MIN
            } else {
                (-(whole as i128)) as i64
            }
        } else if whole > 0x7fff_ffff_ffff_ffff {
            i64::MAX
        } else {
            whole as i64
        }
    }

    /// The least integer that is no less, within the range of `usize`.
    pub fn ceil_to_usize(self) -> (r: usize)
        ensures
            r == ceiling(self@),
    {
        if self.is_nan() {
            return 0;
        }
        if self.is_negative() {
            return 0;
        }
        if self.is_infinite() {
            return usize::MAX;
        }
        let (m, e): (u64, u32) = self.parts();
        let whole: u128 = Self::whole_part(m, e, true);
        if whole > usize::MAX as u128 {
            usize::MAX
        } else {
            whole as usize
        }
    }

    /// `m * 2^e` quanta as a whole number of ones: rounded up, or to the
    /// nearest with halves up. Values past the range of `u64` come out as some
    /// number past it.
    fn whole_part(m: u64, e: u32, up: bool) -> (r: u128)
        requires
            m < pow2(53),
            e <= 2045,
            e > 0 ==> m >= pow2(52),
        ensures
            ({
                let quanta = (m * pow2(e as nat)) as nat;
                let exact = if up {
                    (quanta + one() - 1) as nat / one()
                } else {
                    (2 * quanta + one()) / (2 * one())
                };
                r == exact || (r > u64::MAX && exact > u64::MAX)
            }),
    {
        proof {
            lemma_constants();
            lemma_pow2_pos(1074);
        }
        if e >= 1074 {
            let lift: u32 = e - 1074;
            proof {
                lemma_whole_exact(m as nat, e as nat);
                if lift > 60 {
                    lemma_pow2_monotone(60, lift as nat);
                    lemma2_to64_rest();
                    assert(m * pow2(lift as nat) > u64::MAX) by (nonlinear_arith)
                        requires
                            m >= 0x10_0000_0000_0000,
                            pow2(lift as nat) >= 0x1000_0000_0000_0000,
                    ;
                } else {
                    lemma_lifted(m as nat, lift as nat);
                }
            }
            if lift > 60 {
                return 0x1_0000_0000_0000_0000;
            }
            return m as u128 * power_of_two(lift);
        }
        let drop: u32 = 1074 - e;
        proof {
            lemma_whole_dropped(m as nat, e as nat);
        }
        if drop > 60 {
            proof {
                lemma_pow2_strictly_increases(53, (drop - 1) as nat);
                lemma_pow2_strictly_increases((drop - 1) as nat, drop as nat);
                lemma_basic_div(m as int, pow2(drop as nat) as int);
                lemma_small_mod(m as nat, pow2(drop as nat));
            }
            return if up && m != 0 {
                1
            } else {
                0
            };
        }
        let weight: u128 = power_of_two(drop);
        let half: u128 = power_of_two(drop - 1);
        proof {
            lemma_pow2_pos(drop as nat);
            lemma_div_nonincreasing(m as int, weight as int);
        }
        let whole: u128 = m as u128 / weight;
        let lost: u128 = m as u128 % weight;
        if (up && lost != 0) || (!up && lost >= half) {
            whole + 1
        } else {
            whole
        }
    }
}

/// A finite number is a mantissa of at most 53 bits at some place.
pub proof fn lemma_pattern_parts(a: Binary64)
    ensures
        a@ matches Number::Finite { quanta, .. } ==> quanta < pow2(2098) && exists|
            mantissa: nat,
            place: nat,
        |
            mantissa < pow2(53) && #[trigger] (mantissa * pow2(place)) == quanta,
{
    lemma_constants();
    let magnitude = a.bits as int % SIGN_BIT as int;
    let field = magnitude / LEADING_BIT as int;
    let fraction = magnitude % LEADING_BIT as int;
    if a@ is Finite {
        if field == 0 {
            assert(fraction as nat * pow2(0) == fraction);
            lemma_overflow(fraction as nat, 0);
        } else {
            let mantissa = (LEADING_BIT + fraction) as nat;
            let place = (field - 1) as nat;
            assert(mantissa * pow2(place) == a@->quanta);
            lemma_overflow(mantissa, place);
        }
    }
}

/// The leading part of a lifted mantissa.
proof fn lemma_lifted(m: nat, lift: nat)
    requires
        m < pow2(53),
        lift <= 64,
    ensures
        m * pow2(lift) < pow2(117),
        m >= pow2(52) && lift == 64 ==> m * pow2(lift) >= pow2(116),
        pow2(117) + pow2(53) < pow2(120),
        pow2(53) + pow2(53) + 1 < pow2(116),
        pow2(120) < 0x1_0000_0000_0000_0000_0000_0000_0000_0000,
{
    lemma_constants();
    lemma_pow2_monotone(lift, 64);
    lemma_pow2_pos(lift);
    lemma_pow2_adds(53, 64);
    lemma_pow2_adds(52, 64);
    lemma_pow2_adds(64, 32);
    lemma_pow2_adds(96, 24);
    lemma2_to64();
    assert(m * pow2(lift) < pow2(53) * pow2(64)) by (nonlinear_arith)
        requires
            m < pow2(53),
            0 < pow2(lift) <= pow2(64),
    ;
    if m >= pow2(52) && lift == 64 {
        assert(m * pow2(lift) >= pow2(52) * pow2(64)) by (nonlinear_arith)
            requires
                m >= pow2(52),
                pow2(lift) == pow2(64),
        ;
    }
}

/// What lies below the cut is less than one unit above it.
proof fn lemma_cut(n: nat, whole: nat, rest: bool, cut: nat, f: nat)
    requires
        whole == n as int / pow2(cut) as int,
        rest == (n as int % pow2(cut) as int != 0),
    ensures
        0 <= n * pow2(f) - whole * pow2(f + cut) < pow2(f + cut),
        rest == (n * pow2(f) - whole * pow2(f + cut) != 0),
        whole <= n,
        cut == 0 ==> !rest,
{
    lemma_constants();
    lemma_pow2_pos(cut);
    lemma_pow2_pos(f);
    lemma_pow2_adds(f, cut);
    let w = pow2(cut) as int;
    let g = pow2(f) as int;
    let r = n as int % w;
    lemma_fundamental_div_mod(n as int, w);
    lemma_mod_bound(n as int, w);
    lemma_div_nonincreasing(n as int, w);
    assert(n * g - whole * (g * w) == r * g) by (nonlinear_arith)
        requires
            n as int == w * whole + r,
    ;
    assert(0 <= r * g < g * w) by (nonlinear_arith)
        requires
            0 <= r < w,
            g > 0,
    ;
    assert(r != 0 <==> r * g != 0) by (nonlinear_arith)
        requires
            g > 0,
    ;
}

proof fn lemma_plain_unit(unit: int)
    ensures
        1 * unit == unit,
{
}

proof fn lemma_positive_total(lead: int, unit: int, low: int)
    requires
        lead >= 0,
        unit > 0,
        low >= 0,
        lead > 0 || low > 0,
    ensures
        lead * unit + low > 0,
{
    assert(lead * unit >= lead) by (nonlinear_arith)
        requires
            lead >= 0,
            unit >= 1,
    ;
}

proof fn lemma_product_lead(m: nat, e: nat, n: nat, f: nat)
    requires
        m < pow2(53),
        n < pow2(53),
    ensures
        m * n < pow2(106) < pow2(120),
        m * n <= u128::MAX,
        is_lead((m * pow2(e)) * (n * pow2(f)), one(), m * n, e + f - 1074, false),
{
    lemma_constants();
    lemma_pow2_adds(53, 53);
    lemma_pow2_strictly_increases(106, 120);
    assert(m * n < pow2(53) * pow2(53)) by (nonlinear_arith)
        requires
            m < pow2(53),
            n < pow2(53),
    ;
    assert(pow2(53) * pow2(53) <= u128::MAX) by (nonlinear_arith)
        requires
            pow2(53) == 0x20_0000_0000_0000,
    ;
    lemma_pow2_adds(e, f);
    lemma_pow2_pos(1074);
    let num = (m * pow2(e)) * (n * pow2(f));
    assert(num == (m * n) * pow2(e + f)) by (nonlinear_arith)
        requires
            num == (m * pow2(e)) * (n * pow2(f)),
            pow2(e + f) == pow2(e) * pow2(f),
    ;
    let place = e + f - 1074;
    if place >= 0 {
        lemma_pow2_adds(1074, place as nat);
        lemma_pow2_pos(e + f);
        lemma_fundamental_div_mod_converse(
            num as int,
            pow2(e + f) as int,
            (m * n) as int,
            0,
        );
    } else {
        lemma_pow2_adds(e + f, (-place) as nat);
        let raised = num * pow2((-place) as nat);
        assert(raised == (m * n) * one()) by (nonlinear_arith)
            requires
                raised == num * pow2((-place) as nat),
                num == (m * n) * pow2(e + f),
                one() == pow2(e + f) * pow2((-place) as nat),
        ;
        lemma_fundamental_div_mod_converse(raised as int, one() as int, (m * n) as int, 0);
    }
}

proof fn lemma_integer_lead(n: nat)
    ensures
        is_lead(n * one(), 1, n, 1074, false),
{
    lemma_pow2_pos(1074);
    assert(1 * pow2(1074) == pow2(1074));
    lemma_fundamental_div_mod_converse((n * one()) as int, one() as int, n as int, 0);
}

/// Quotients do not change when dividend and divisor grow by one factor.
proof fn lemma_common_factor(a: nat, b: nat, c: nat)
    requires
        b > 0,
        c > 0,
    ensures
        (a * c) / (b * c) == a / b,
        ((a * c) % (b * c) != 0) == (a % b != 0),
{
    lemma_fundamental_div_mod(a as int, b as int);
    lemma_mod_bound(a as int, b as int);
    let q = a as int / b as int;
    let r = a as int % b as int;
    let cc = c as int;
    assert(a * cc == q * (b * cc) + r * cc) by (nonlinear_arith)
        requires
            a as int == b * q + r,
    ;
    assert(0 <= r * cc < b * cc) by (nonlinear_arith)
        requires
            0 <= r < b,
            cc > 0,
    ;
    lemma_fundamental_div_mod_converse((a * c) as int, (b * c) as int, q, r * cc);
    assert(r != 0 <==> r * cc != 0) by (nonlinear_arith)
        requires
            cc > 0,
    ;
}

proof fn lemma_quotient_lead(m: nat, e: nat, n: nat, f: nat, back: nat)
    requires
        0 < n < pow2(53),
        pow2(52) <= m * pow2(back) < pow2(53),
        back <= 52,
        e <= 2045,
        f <= 2045,
    ensures
        ({
            let raised = (m * pow2(back)) * pow2(64);
            let place = e + 1010 - back - f;
            &&& is_lead((m * pow2(e)) * one(), n * pow2(f), raised / n, place, raised % n != 0)
            &&& raised / n >= pow2(53)
            &&& raised / n < pow2(120)
        }),
{
    lemma_constants();
    let full = m * pow2(back);
    let raised = full * pow2(64);
    let num = (m * pow2(e)) * one();
    let den = n * pow2(f);
    let place = e + 1010 - back - f;
    lemma_lifted(full, 64);
    lemma_div_nonincreasing(raised as int, n as int);
    lemma_pow2_strictly_increases(117, 120);
    assert(raised / n >= pow2(53)) by {
        lemma_pow2_adds(53, 53);
        lemma_pow2_strictly_increases(106, 116);
        assert(pow2(53) * n <= pow2(53) * pow2(53)) by (nonlinear_arith)
            requires
                n < pow2(53),
        ;
        lemma_fundamental_div_mod(raised as int, n as int);
        lemma_mod_bound(raised as int, n as int);
        let q = raised as int / n as int;
        assert(q >= pow2(53)) by (nonlinear_arith)
            requires
                raised as int == n * q + raised as int % n as int,
                raised as int % (n as int) < n,
                raised >= pow2(53) * n,
                n > 0,
        ;
    }
    // Both sides of the cut quotient share a power of two.
    lemma_pow2_adds(e, 1074);
    assert(num == m * pow2(e + 1074)) by (nonlinear_arith)
        requires
            num == (m * pow2(e)) * one(),
            pow2(e + 1074) == pow2(e) * one(),
    ;
    if place >= 0 {
        let common = (e + 1010 - back) as nat;
        let shared = pow2(common);
        lemma_pow2_pos(common);
        lemma_pow2_adds(f, place as nat);
        assert(den * pow2(place as nat) == n * shared) by (nonlinear_arith)
            requires
                den == n * pow2(f),
                shared == pow2(f) * pow2(place as nat),
        ;
        lemma_pow2_adds(back, 64);
        lemma_pow2_adds(back + 64, common);
        assert(num == raised * shared) by (nonlinear_arith)
            requires
                num == m * pow2(e + 1074),
                pow2(e + 1074) == (pow2(back) * pow2(64)) * shared,
                raised == (m * pow2(back)) * pow2(64),
        ;
        lemma_common_factor(raised, n, shared);
    } else {
        let down = (-place) as nat;
        let shared = pow2(f);
        lemma_pow2_pos(f);
        lemma_pow2_adds(e + 1074, down);
        lemma_pow2_adds(back, 64);
        lemma_pow2_adds(back + 64, f);
        let lifted = num * pow2(down);
        assert(lifted == raised * shared) by (nonlinear_arith)
            requires
                lifted == num * pow2(down),
                num == m * pow2(e + 1074),
                pow2(e + 1074) * pow2(down) == (pow2(back) * pow2(64)) * shared,
                raised == (m * pow2(back)) * pow2(64),
        ;
        lemma_common_factor(raised, n, shared);
    }
}

proof fn lemma_nonzero_quanta(a: Binary64)
    requires
        a@ is Finite,
        a.bits as int % SIGN_BIT as int != 0,
    ensures
        a@->quanta > 0,
{
    let magnitude = a.bits as int % SIGN_BIT as int;
    let field = magnitude / LEADING_BIT as int;
    let fraction = magnitude % LEADING_BIT as int;
    if field > 0 {
        lemma_pow2_pos((field - 1) as nat);
        lemma_mul_strictly_positive(
            LEADING_BIT + fraction,
            pow2((field - 1) as nat) as int,
        );
    }
}

proof fn lemma_single_overflow(mantissa: nat, place: nat)
    requires
        mantissa <= pow2(24),
        place > 925 ==> mantissa >= pow2(23),
        place >= 925,
    ensures
        mantissa * pow2(place) >= pow2(1202) <==> (place >= 1179 || (place == 1178 && mantissa
            == 0x100_0000)),
{
    lemma_constants();
    lemma_pow2_pos(place);
    if place >= 1179 {
        lemma_pow2_adds(23, place);
        lemma_pow2_monotone(1202, 23 + place);
        assert(mantissa * pow2(place) >= pow2(23) * pow2(place)) by (nonlinear_arith)
            requires
                mantissa >= pow2(23),
        ;
    } else if place == 1178 {
        lemma_pow2_adds(24, place);
        if mantissa < pow2(24) {
            assert(mantissa * pow2(place) < pow2(24) * pow2(place)) by (nonlinear_arith)
                requires
                    mantissa < pow2(24),
                    pow2(place) > 0,
            ;
        }
    } else {
        lemma_pow2_adds(24, place);
        assert(mantissa * pow2(place) <= pow2(24) * pow2(place)) by (nonlinear_arith)
            requires
                mantissa <= pow2(24),
        ;
        lemma_pow2_strictly_increases(24 + place, 1202);
    }
}

/// Bit patterns of equal sign are ordered as the numbers are.
proof fn lemma_magnitude_order(a: Binary64, b: Binary64)
    requires
        a@ !is NotANumber,
        b@ !is NotANumber,
        a.bits as int % (SIGN_BIT as int) < b.bits as int % SIGN_BIT as int,
    ensures
        a@ is Finite,
        b@ matches Number::Finite { quanta, .. } ==> a@->quanta < quanta,
{
    lemma_constants();
    let p = a.bits as int % SIGN_BIT as int;
    let q = b.bits as int % SIGN_BIT as int;
    let lead = LEADING_BIT as int;
    let e = if p / lead == 0 {
        0
    } else {
        p / lead - 1
    };
    let f = if q / lead == 0 {
        0
    } else {
        q / lead - 1
    };
    let m = p - e * lead;
    let n = q - f * lead;
    assert(0 <= m < 2 * lead && (e > 0 ==> m >= lead));
    assert(0 <= n < 2 * lead && (f > 0 ==> n >= lead));
    lemma_pow2_pos(e as nat);
    lemma_pow2_pos(f as nat);
    assert(m * 1 == m);
    assert(n * 1 == n);
    if b@ is Finite {
        assert(a@->quanta == m * pow2(e as nat));
        assert(b@->quanta == n * pow2(f as nat));
        if e == f {
            assert(m * pow2(e as nat) < n * pow2(f as nat)) by (nonlinear_arith)
                requires
                    m < n,
                    e == f,
                    pow2(e as nat) > 0,
            ;
        } else {
            lemma_pow2_monotone((e + 1) as nat, f as nat);
            lemma_pow2_unfold((e + 1) as nat);
            assert(m * pow2(e as nat) < n * pow2(f as nat)) by (nonlinear_arith)
                requires
                    m < 2 * lead,
                    n >= lead,
                    pow2(f as nat) >= 2 * pow2(e as nat),
                    pow2(e as nat) > 0,
                    lead > 0,
            ;
        }
    }
}

proof fn lemma_magnitude_equal(a: Binary64, b: Binary64)
    requires
        a@ !is NotANumber,
        b@ !is NotANumber,
        a.bits as int % SIGN_BIT as int == b.bits as int % SIGN_BIT as int,
    ensures
        a@ is Finite <==> b@ is Finite,
        a@ is Finite ==> a@->quanta == b@->quanta,
{
}

proof fn lemma_magnitude_sign(a: Binary64)
    requires
        a@ !is NotANumber,
    ensures
        a@ is Finite ==> (a@->quanta == 0 <==> a.bits as int % SIGN_BIT as int == 0),
        a@ is Infinite ==> a.bits as int % SIGN_BIT as int == INFINITY_BITS,
        a@ is Finite ==> a.bits as int % (SIGN_BIT as int) < INFINITY_BITS,
{
    if a@ is Finite && a.bits as int % SIGN_BIT as int != 0 {
        lemma_nonzero_quanta(a);
    }
}

proof fn lemma_whole_exact(m: nat, e: nat)
    requires
        e >= 1074,
    ensures
        ({
            let quanta = m * pow2(e);
            let exact = m * pow2((e - 1074) as nat);
            &&& (quanta + one() - 1) as nat / one() == exact
            &&& (2 * quanta + one()) / (2 * one()) == exact
        }),
{
    lemma_pow2_pos(1074);
    lemma_pow2_adds(1074, (e - 1074) as nat);
    let unit = one() as int;
    let exact = (m * pow2((e - 1074) as nat)) as int;
    let quanta = m * pow2(e);
    assert(quanta == exact * unit) by (nonlinear_arith)
        requires
            quanta == m * (unit * pow2((e - 1074) as nat)),
            exact == m * pow2((e - 1074) as nat),
    ;
    lemma_fundamental_div_mod_converse(quanta + unit - 1, unit, exact, unit - 1);
    assert(2 * quanta == exact * (2 * unit)) by (nonlinear_arith)
        requires
            quanta == exact * unit,
    ;
    lemma_fundamental_div_mod_converse(2 * quanta + unit, 2 * unit, exact, unit);
}

proof fn lemma_whole_dropped(m: nat, e: nat)
    requires
        e < 1074,
    ensures
        ({
            let drop = (1074 - e) as nat;
            let quanta = m * pow2(e);
            let whole = m as int / pow2(drop) as int;
            let lost = m as int % pow2(drop) as int;
            let half = pow2((drop - 1) as nat);
            &&& (quanta + one() - 1) as nat / one() == whole + if lost != 0 {
                1int
            } else {
                0
            }
            &&& (2 * quanta + one()) / (2 * one()) == whole + if lost >= half {
                1int
            } else {
                0
            }
        }),
{
    let drop = (1074 - e) as nat;
    let low = pow2(e) as int;
    let w = pow2(drop) as int;
    let h = pow2((drop - 1) as nat) as int;
    lemma_pow2_pos(e);
    lemma_pow2_pos(drop);
    lemma_pow2_pos((drop - 1) as nat);
    lemma_pow2_unfold(drop);
    lemma_pow2_adds(e, drop);
    let unit = one() as int;
    let whole = m as int / w;
    let lost = m as int % w;
    lemma_fundamental_div_mod(m as int, w);
    lemma_mod_bound(m as int, w);
    let quanta = m * pow2(e);
    assert(unit == low * w);
    assert(quanta == whole * unit + lost * low) by (nonlinear_arith)
        requires
            quanta == m * low,
            m as int == w * whole + lost,
            unit == low * w,
    ;
    assert(0 <= lost * low <= unit - low) by (nonlinear_arith)
        requires
            0 <= lost <= w - 1,
            unit == low * w,
            low > 0,
    ;
    if lost == 0 {
        assert(0 * low == 0) by (nonlinear_arith);
        lemma_fundamental_div_mod_converse(quanta + unit - 1, unit, whole, unit - 1);
    } else {
        assert(lost * low >= 1) by (nonlinear_arith)
            requires
                lost >= 1,
                low >= 1,
        ;
        assert(quanta + unit - 1 == (whole + 1) * unit + (lost * low - 1)) by (nonlinear_arith)
            requires
                quanta == whole * unit + lost * low,
        ;
        lemma_fundamental_div_mod_converse(
            quanta + unit - 1,
            unit,
            whole + 1,
            lost * low - 1,
        );
    }
    assert(2 * (low * h) == unit) by (nonlinear_arith)
        requires
            unit == low * w,
            w == 2 * h,
    ;
    if lost >= h {
        assert(2 * (lost * low) >= unit) by (nonlinear_arith)
            requires
                lost >= h,
                2 * (low * h) == unit,
                low > 0,
        ;
        assert(2 * quanta + unit == (whole + 1) * (2 * unit) + (2 * (lost * low) - unit))
            by (nonlinear_arith)
            requires
                quanta == whole * unit + lost * low,
        ;
        lemma_fundamental_div_mod_converse(
            2 * quanta + unit,
            2 * unit,
            whole + 1,
            2 * (lost * low) - unit,
        );
    } else {
        assert(2 * (lost * low) < unit) by (nonlinear_arith)
            requires
                lost < h,
                2 * (low * h) == unit,
                low > 0,
        ;
        assert(2 * quanta + unit == whole * (2 * unit) + (2 * (lost * low) + unit))
            by (nonlinear_arith)
            requires
                quanta == whole * unit + lost * low,
        ;
        lemma_fundamental_div_mod_converse(
            2 * quanta + unit,
            2 * unit,
            whole,
            2 * (lost * low) + unit,
        );
    }
}

proof fn lemma_ratio_lead(num: nat, den: nat)
    requires
        num < 0x1_0000_0000,
        0 < den < 0x1_0000_0000,
    ensures
        ({
            let raised = num * pow2(87);
            &&& raised < pow2(120) <= u128::MAX
            &&& raised / den < pow2(120)
            &&& raised % den != 0 ==> raised / den >= pow2(53)
            &&& is_lead(num * one(), den, raised / den, 987, raised % den != 0)
        }),
{
    let raised = num * pow2(87);
    lemma_constants();
    lemma2_to64();
    lemma_pow2_adds(32, 87);
    lemma_pow2_strictly_increases(119, 120);
    lemma_pow2_adds(64, 32);
    lemma_pow2_adds(96, 24);
    lemma_pow2_pos(87);
    assert(raised < pow2(32) * pow2(87)) by (nonlinear_arith)
        requires
            raised == num * pow2(87),
            num < pow2(32),
            pow2(87) > 0,
    ;
    lemma_div_nonincreasing(raised as int, den as int);
    if num == 0 {
        assert(0 * pow2(87) == 0) by (nonlinear_arith);
        lemma_small_mod(0, den);
    } else {
        lemma_pow2_adds(55, 32);
        lemma_pow2_monotone(53, 55);
        lemma_fundamental_div_mod(raised as int, den as int);
        lemma_mod_bound(raised as int, den as int);
        let q = raised as int / den as int;
        assert(q >= pow2(55)) by (nonlinear_arith)
            requires
                raised as int == den * q + raised as int % den as int,
                raised as int % (den as int) < den,
                raised == num * (pow2(55) * pow2(32)),
                num >= 1,
                0 < den < pow2(32),
                pow2(55) > 0,
        ;
    }
    lemma_pow2_adds(87, 987);
    lemma_pow2_pos(987);
    assert(num * one() == raised * pow2(987)) by (nonlinear_arith)
        requires
            raised == num * pow2(87),
            one() == pow2(87) * pow2(987),
    ;
    lemma_common_factor(raised, den, pow2(987));
}

} // verus!
