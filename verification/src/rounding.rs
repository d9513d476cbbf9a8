//! Correct rounding of non-negative rationals to a bounded number of
//! significant bits.
//!
//! [`nearest`] says what the rounded value of `num / den` is: the multiple of
//! the last kept binary place that lies closest to it, ties going to the even
//! multiple. [`round_scaled`] computes it from the leading bits of the
//! quotient and one flag for everything below them.
use vstd::arithmetic::div_mod::{
    lemma_basic_div, lemma_div_by_multiple, lemma_div_denominator, lemma_div_of0,
    lemma_fundamental_div_mod, lemma_fundamental_div_mod_converse, lemma_mod_bound,
    lemma_mod_breakdown, lemma_small_mod, lemma_truncate_middle,
};
use vstd::arithmetic::mul::{
    lemma_mul_inequality, lemma_mul_is_associative, lemma_mul_is_commutative,
    lemma_mul_strict_inequality, lemma_mul_strictly_positive,
};
use vstd::arithmetic::power2::{
    lemma2_to64, lemma2_to64_rest, lemma_pow2_adds, lemma_pow2_pos, lemma_pow2_strictly_increases,
    lemma_pow2_unfold, pow2,
};
use vstd::prelude::*;

verus! {

/// How many low bits of `n` lie beyond its `precision` leading ones.
pub open spec fn excess_bits(n: nat, precision: nat) -> nat
    decreases n,
{
    if n == 0 || n < pow2(precision) {
        0
    } else {
        1 + excess_bits(n / 2, precision)
    }
}

/// `num / den` rounded to an integer, halves going to the even neighbour.
pub open spec fn half_even(num: nat, den: nat) -> nat {
    let quotient = num / den;
    let twice_rest = 2 * (num % den);
    if twice_rest > den || (twice_rest == den && quotient % 2 == 1) {
        quotient + 1
    } else {
        quotient
    }
}

/// The binary place (as a power of two) of the last bit that is kept of
/// `num / den`: the value keeps `precision` bits, and no bit below `floor`.
pub open spec fn last_place(num: nat, den: nat, precision: nat, floor: nat) -> nat {
    let excess = excess_bits(num / den, precision);
    if excess > floor {
        excess
    } else {
        floor
    }
}

/// `num / den` rounded to `precision` significant bits, halves to even, with
/// no bit below the place `floor`.
pub open spec fn nearest(num: nat, den: nat, precision: nat, floor: nat) -> nat {
    let place = last_place(num, den, precision, floor);
    half_even(num, den * pow2(place)) * pow2(place)
}

/// The place of the last bit that is kept of a value between two powers of two.
pub proof fn lemma_last_place(num: nat, den: nat, precision: nat, place: nat)
    requires
        den > 0,
        place > 0,
        den * pow2((precision + place - 1) as nat) <= num < den * pow2(precision + place),
    ensures
        last_place(num, den, precision, 0) == place,
{
    let low = pow2((precision + place - 1) as nat);
    let high = pow2(precision + place);
    lemma_fundamental_div_mod(num as int, den as int);
    lemma_mod_bound(num as int, den as int);
    let whole = num as int / den as int;
    assert(low <= whole < high) by (nonlinear_arith)
        requires
            den > 0,
            den * low <= num < den * high,
            num == den * whole + num % den,
            0 <= num % den < den,
    ;
    lemma_excess_bits(num / den, precision, place);
}

/// The leading part of `num / den`, cut off at the binary place `place`:
/// `lead` is the integer number of units above the cut, and `rest` tells
/// whether anything non-zero lies below it.
pub open spec fn is_lead(num: nat, den: nat, lead: nat, place: int, rest: bool) -> bool {
    if place >= 0 {
        &&& lead == num / (den * pow2(place as nat))
        &&& rest == (num % (den * pow2(place as nat)) != 0)
    } else {
        &&& lead == (num * pow2((-place) as nat)) / den
        &&& rest == ((num * pow2((-place) as nat)) % den != 0)
    }
}

pub proof fn lemma_pow2_monotone(a: nat, b: nat)
    requires
        a <= b,
    ensures
        pow2(a) <= pow2(b),
{
    if a < b {
        lemma_pow2_strictly_increases(a, b);
    }
}

proof fn lemma_excess_bits(n: nat, precision: nat, excess: nat)
    requires
        excess == 0 ==> n < pow2(precision),
        excess > 0 ==> pow2((precision + excess - 1) as nat) <= n < pow2(precision + excess),
    ensures
        excess_bits(n, precision) == excess,
    decreases excess,
{
    lemma_pow2_pos(precision);
    if excess > 0 {
        lemma_pow2_monotone(precision, (precision + excess - 1) as nat);
        lemma_pow2_unfold(precision + excess);
        if excess > 1 {
            lemma_pow2_unfold((precision + excess - 1) as nat);
        }
        lemma_excess_bits(n / 2, precision, (excess - 1) as nat);
    }
}

proof fn lemma_half_even_scales(num: nat, den: nat, factor: nat)
    requires
        den > 0,
        factor > 0,
    ensures
        half_even(factor * num, factor * den) == half_even(num, den),
{
    let n = num as int;
    let d = den as int;
    let c = factor as int;
    lemma_truncate_middle(n, c, d);
    lemma_fundamental_div_mod(n, d);
    lemma_mod_bound(n, d);
    let q = n / d;
    let r = n % d;
    assert(c * n == q * (c * d) + c * r) by (nonlinear_arith)
        requires
            n == d * q + r,
    ;
    assert(0 <= c * r < c * d) by (nonlinear_arith)
        requires
            0 <= r < d,
            c > 0,
    ;
    lemma_fundamental_div_mod_converse(c * n, c * d, q, c * r);
    assert(2 * (c * r) > c * d <==> 2 * r > d) by (nonlinear_arith)
        requires
            c > 0,
    ;
    assert(2 * (c * r) == c * d <==> 2 * r == d) by (nonlinear_arith)
        requires
            c > 0,
    ;
}

/// Rounding at a place above the cut only needs the leading part and the flag.
proof fn lemma_half_even_from_lead(num: nat, unit: nat, lead: nat, rest: bool, drop: nat)
    requires
        unit > 0,
        drop > 0,
        lead == num / unit,
        rest == (num % unit != 0),
    ensures
        ({
            let half = pow2((drop - 1) as nat) as int;
            let kept = lead as int / (pow2(drop) as int);
            let lost = lead as int % (pow2(drop) as int);
            half_even(num, unit * pow2(drop)) == if lost > half || (lost == half && (rest || kept % 2
                == 1)) {
                kept + 1
            } else {
                kept
            }
        }),
{
    let n = num as int;
    let u = unit as int;
    let w = pow2(drop) as int;
    let h = pow2((drop - 1) as nat) as int;
    lemma_pow2_pos(drop);
    lemma_pow2_pos((drop - 1) as nat);
    lemma_pow2_unfold(drop);
    lemma_div_denominator(n, u, w);
    lemma_mod_breakdown(n, u, w);
    lemma_mod_bound(n, u);
    let lost = lead as int % w;
    let r = n % u;
    assert(n % (u * w) == u * lost + r);
    assert(u * w == 2 * (u * h)) by (nonlinear_arith)
        requires
            w == 2 * h,
    ;
    if lost > h {
        assert(u * lost >= u * h + u) by (nonlinear_arith)
            requires
                lost >= h + 1,
                u > 0,
        ;
    } else if lost < h {
        assert(u * lost + u <= u * h) by (nonlinear_arith)
            requires
                lost + 1 <= h,
                u > 0,
        ;
    }
}

/// The last kept place follows from the bit length of the leading part.
proof fn lemma_last_place_from_lead(
    num: nat,
    den: nat,
    lead: nat,
    place: int,
    rest: bool,
    length: nat,
    precision: nat,
)
    requires
        den > 0,
        precision > 0,
        is_lead(num, den, lead, place, rest),
        length > 0,
        pow2((length - 1) as nat) <= lead < pow2(length),
    ensures
        excess_bits(num / den, precision) == if length + place > precision {
            (length + place - precision) as nat
        } else {
            0
        },
{
    let n = num as int;
    let d = den as int;
    lemma_pow2_pos(length);
    let whole = n / d;
    if place >= 0 {
        let w = pow2(place as nat) as int;
        lemma_pow2_pos(place as nat);
        lemma_div_denominator(n, d, w);
        // lead == whole / w
        lemma_fundamental_div_mod(whole, w);
        lemma_mod_bound(whole, w);
        assert(whole < (lead + 1) * w) by (nonlinear_arith)
            requires
                whole == w * lead + whole % w,
                whole % w < w,
        ;
        assert((lead + 1) * w <= pow2(length) * w) by (nonlinear_arith)
            requires
                lead + 1 <= pow2(length),
                w > 0,
        ;
        lemma_pow2_adds(length, place as nat);
        assert(whole < pow2((length + place) as nat));
        assert(whole >= pow2((length - 1) as nat) * w) by (nonlinear_arith)
            requires
                whole == w * lead + whole % w,
                whole % w >= 0,
                lead >= pow2((length - 1) as nat),
                w > 0,
        ;
        lemma_pow2_adds((length - 1) as nat, place as nat);
        assert(whole >= pow2((length - 1 + place) as nat));
    } else {
        let back = (-place) as nat;
        let w = pow2(back) as int;
        lemma_pow2_pos(back);
        assert((n * w) / d / w == whole) by {
            lemma_div_denominator(n * w, d, w);
            lemma_div_denominator(n * w, w, d);
            lemma_mul_is_commutative(d, w);
            lemma_div_by_multiple(n, w);
            assert(n * w >= 0) by (nonlinear_arith)
                requires
                    n >= 0,
                    w >= 0,
            ;
        }
        // whole == lead / w
        lemma_fundamental_div_mod(lead as int, w);
        lemma_mod_bound(lead as int, w);
        if length >= back {
            lemma_pow2_adds((length - back) as nat, back);
            let top = pow2((length - back) as nat) as int;
            assert(whole < top) by (nonlinear_arith)
                requires
                    lead == w * whole + lead as int % w,
                    lead as int % w >= 0,
                    (lead as int) < top * w,
                    w > 0,
            ;
            if length > back {
                lemma_pow2_adds((length - 1 - back) as nat, back);
                let low = pow2((length - 1 - back) as nat) as int;
                assert(whole >= low) by (nonlinear_arith)
                    requires
                        lead == w * whole + lead as int % w,
                        lead as int % w < w,
                        lead as int >= low * w,
                        w > 0,
                ;
            }
        } else {
            lemma_pow2_monotone(length, back);
            assert(whole == 0) by (nonlinear_arith)
                requires
                    lead == w * whole + lead as int % w,
                    lead as int % w >= 0,
                    (lead as int) < w,
                    whole >= 0,
                    w > 0,
            ;
        }
    }
    if length + place > precision {
        lemma_excess_bits(whole as nat, precision, (length + place - precision) as nat);
    } else {
        if length + place >= 0 {
            lemma_pow2_monotone((length + place) as nat, precision);
        } else {
            lemma_pow2_pos(precision);
        }
        lemma_excess_bits(whole as nat, precision, 0);
    }
}

proof fn lemma_zero_rounds_to_zero(num: nat, den: nat, place: int, precision: nat, floor: nat)
    requires
        den > 0,
        is_lead(num, den, 0, place, false),
    ensures
        nearest(num, den, precision, floor) == 0,
        last_place(num, den, precision, floor) == floor,
{
    let w = pow2(if place >= 0 {
        place as nat
    } else {
        (-place) as nat
    });
    lemma_pow2_pos(if place >= 0 {
        place as nat
    } else {
        (-place) as nat
    });
    if place >= 0 {
        lemma_mul_strictly_positive(den as int, w as int);
        lemma_fundamental_div_mod(num as int, (den * w) as int);
    } else {
        lemma_fundamental_div_mod((num * w) as int, den as int);
        assert(num == 0) by (nonlinear_arith)
            requires
                num * w == 0,
                w > 0,
        ;
    }
    assert(num == 0);
    lemma_pow2_pos(floor);
    lemma_pow2_pos(precision);
    lemma_mul_strictly_positive(den as int, pow2(floor) as int);
    lemma_div_of0(den as int);
    lemma_div_of0((den * pow2(floor)) as int);
    lemma_small_mod(0, den * pow2(floor));
    assert(half_even(num, den * pow2(floor)) == 0);
    assert(0 * pow2(floor) == 0) by (nonlinear_arith);
}

/// A leading part with bits cut off below it is longer than the precision.
proof fn lemma_pow2_bits(lead: nat, length: nat, precision: nat)
    requires
        lead < pow2(length),
        lead >= pow2(precision),
    ensures
        length > precision,
{
    if length <= precision {
        lemma_pow2_monotone(length, precision);
    }
}

/// Without lost bits, rounding at a lower place multiplies the leading part.
proof fn lemma_exact_lift(num: nat, den: nat, lead: nat, place: int, kept_place: nat)
    requires
        den > 0,
        is_lead(num, den, lead, place, false),
        kept_place <= place,
    ensures
        half_even(num, den * pow2(kept_place)) == lead * pow2((place - kept_place) as nat),
{
    let lift = (place - kept_place) as nat;
    let d = den as int;
    let low = pow2(kept_place) as int;
    let up = pow2(lift) as int;
    lemma_pow2_pos(kept_place);
    lemma_pow2_pos(lift);
    lemma_pow2_adds(kept_place, lift);
    let unit = d * pow2(place as nat);
    assert(unit == d * low * up) by (nonlinear_arith)
        requires
            unit == d * (low * up),
    ;
    lemma_mul_strictly_positive(d, low);
    lemma_mul_strictly_positive(d * low, up);
    lemma_fundamental_div_mod(num as int, unit);
    assert(num as int == (lead * up) * (d * low) + 0) by (nonlinear_arith)
        requires
            num as int == unit * lead + 0,
            unit == d * low * up,
    ;
    lemma_fundamental_div_mod_converse(num as int, d * low, lead * up, 0);
}

/// Rounding at a place above the cut is rounding of the leading part.
proof fn lemma_drop(num: nat, den: nat, lead: nat, place: int, rest: bool, kept_place: nat)
    requires
        den > 0,
        is_lead(num, den, lead, place, rest),
        kept_place > place,
    ensures
        ({
            let drop = (kept_place - place) as nat;
            let half = pow2((drop - 1) as nat) as int;
            let kept = lead as int / (pow2(drop) as int);
            let lost = lead as int % (pow2(drop) as int);
            half_even(num, den * pow2(kept_place)) == if lost > half || (lost == half && (rest
                || kept % 2 == 1)) {
                kept + 1
            } else {
                kept
            }
        }),
{
    let drop = (kept_place - place) as nat;
    if place >= 0 {
        let unit = den * pow2(place as nat);
        lemma_pow2_pos(place as nat);
        lemma_mul_strictly_positive(den as int, pow2(place as nat) as int);
        lemma_half_even_from_lead(num, unit, lead, rest, drop);
        lemma_pow2_adds(place as nat, drop);
        lemma_mul_is_associative(den as int, pow2(place as nat) as int, pow2(drop) as int);
    } else {
        let back = (-place) as nat;
        lemma_pow2_pos(back);
        lemma_pow2_pos(kept_place);
        lemma_mul_strictly_positive(den as int, pow2(kept_place) as int);
        lemma_half_even_scales(num, den * pow2(kept_place), pow2(back));
        lemma_mul_is_commutative(num as int, pow2(back) as int);
        lemma_half_even_from_lead(num * pow2(back), den, lead, rest, drop);
        lemma_pow2_adds(kept_place, back);
        assert(pow2(back) * (den * pow2(kept_place)) == den * (pow2(kept_place) * pow2(back)))
            by (nonlinear_arith);
    }
}

proof fn lemma_lift_bound(lead: nat, length: nat, lift: nat, precision: nat)
    requires
        length > 0,
        length + lift <= precision < 60,
        pow2((length - 1) as nat) <= lead < pow2(length),
    ensures
        lead * pow2(lift) < pow2(precision) < 0x1000_0000_0000_0000,
        lift < 60,
        length + lift == precision ==> lead * pow2(lift) >= pow2((precision - 1) as nat),
{
    lemma2_to64();
    lemma2_to64_rest();
    lemma_pow2_pos(lift);
    lemma_pow2_adds(length, lift);
    lemma_pow2_adds((length - 1) as nat, lift);
    lemma_pow2_monotone(length + lift, precision);
    lemma_pow2_strictly_increases(precision, 60);
    lemma_mul_strict_inequality(
        lead as int,
        pow2(length) as int,
        pow2(lift) as int,
    );
    lemma_mul_inequality(pow2((length - 1) as nat) as int, lead as int, pow2(lift) as int);
}

proof fn lemma_kept_bound(lead: nat, length: nat, drop: nat, precision: nat)
    requires
        length > 0,
        drop > 0,
        0 < precision < 60,
        length <= precision + drop,
        pow2((length - 1) as nat) <= lead < pow2(length),
    ensures
        lead as int / (pow2(drop) as int) < pow2(precision) < 0x1000_0000_0000_0000,
        length == precision + drop ==> lead as int / (pow2(drop) as int) >= pow2(
            (precision - 1) as nat,
        ),
{
    lemma2_to64();
    lemma2_to64_rest();
    let w = pow2(drop) as int;
    let q = lead as int / w;
    lemma_pow2_pos(drop);
    lemma_pow2_strictly_increases(precision, 60);
    lemma_pow2_monotone(length, precision + drop);
    lemma_pow2_adds(precision, drop);
    lemma_pow2_adds((precision - 1) as nat, drop);
    lemma_fundamental_div_mod(lead as int, w);
    lemma_mod_bound(lead as int, w);
    let top = pow2(precision) as int;
    assert(q < top) by (nonlinear_arith)
        requires
            lead as int == w * q + lead as int % w,
            lead as int % w >= 0,
            (lead as int) < top * w,
            w > 0,
    ;
    if length == precision + drop {
        let low = pow2((precision - 1) as nat) as int;
        assert(q >= low) by (nonlinear_arith)
            requires
                lead as int == w * q + lead as int % w,
                lead as int % w < w,
                lead as int >= low * w,
                w > 0,
        ;
    }
}

/// The power of two with exponent `exponent`.
pub fn power_of_two(exponent: u32) -> (r: u128)
    requires
        exponent < 128,
    ensures
        r == pow2(exponent as nat),
{
    let mut r: u128 = 1;
    let mut i: u32 = 0;
    proof {
        lemma2_to64();
        lemma_pow2_of_127();
    }
    while i < exponent
        invariant
            i <= exponent < 128,
            r == pow2(i as nat),
            pow2(127) == 0x8000_0000_0000_0000_0000_0000_0000_0000,
        decreases exponent - i,
    {
        proof {
            lemma_pow2_unfold((i + 1) as nat);
            lemma_pow2_monotone((i + 1) as nat, 127);
        }
        r = r * 2;
        i = i + 1;
    }
    r
}

proof fn lemma_pow2_of_127()
    ensures
        pow2(127) == 0x8000_0000_0000_0000_0000_0000_0000_0000,
{
    lemma2_to64();
    lemma_pow2_adds(64, 31);
    lemma_pow2_adds(95, 32);
}

/// The number of bits of `n`.
pub fn bit_length(n: u128) -> (length: u32)
    ensures
        length <= 128,
        n < pow2(length as nat),
        length > 0 ==> n >= pow2((length - 1) as nat),
{
    let mut left: u128 = n;
    let mut length: u32 = 0;
    let ghost mut w: nat = 1;
    proof {
        lemma2_to64();
        lemma_pow2_of_127();
        lemma_pow2_unfold(128);
    }
    while left > 0
        invariant
            w == pow2(length as nat),
            w > 0,
            left == n as int / w as int,
            length > 0 ==> n >= pow2((length - 1) as nat),
            n < pow2(128),
            length <= 128,
        decreases left,
    {
        proof {
            lemma_fundamental_div_mod(n as int, w as int);
            lemma_mod_bound(n as int, w as int);
            assert(n >= w) by (nonlinear_arith)
                requires
                    n == w * left + n as int % w as int,
                    left >= 1,
                    n as int % w as int >= 0,
            ;
            if length == 128 {
                assert(false);
            }
            lemma_div_denominator(n as int, w as int, 2);
            lemma_pow2_unfold((length + 1) as nat);
            w = w * 2;
        }
        left = left / 2;
        length = length + 1;
    }
    proof {
        lemma_fundamental_div_mod(n as int, w as int);
        lemma_mod_bound(n as int, w as int);
        assert(n < w) by (nonlinear_arith)
            requires
                n == w * left + n as int % w as int,
                left == 0,
                n as int % (w as int) < w,
        ;
    }
    length
}

/// Rounds the number whose leading part is `lead` at the binary place `place`
/// to `precision` bits: the result stands for `mantissa * 2^place`.
///
/// `num` and `den` name the exact value. Where `rest` says that bits were cut
/// off, `lead` must be long enough for the last kept bit to lie above the cut.
pub fn round_scaled(
    lead: u128,
    place: i32,
    rest: bool,
    precision: u32,
    floor: u32,
    Ghost(num): Ghost<nat>,
    Ghost(den): Ghost<nat>,
) -> (r: (u64, u32))
    requires
        den > 0,
        0 < precision < 60,
        floor < 0x1000,
        -0x1000 < place < 0x1000,
        lead < pow2(120),
        is_lead(num, den, lead as nat, place as int, rest),
        rest ==> lead >= pow2(precision as nat),
    ensures
        r.0 * pow2(r.1 as nat) == nearest(num, den, precision as nat, floor as nat),
        r.0 <= pow2(precision as nat),
        r.1 == last_place(num, den, precision as nat, floor as nat),
        r.1 >= floor,
        r.1 <= 0x3000,
        r.1 > floor ==> r.0 >= pow2((precision - 1) as nat),
{
    let length: u32 = bit_length(lead);
    if lead == 0 {
        proof {
            lemma_pow2_pos(precision as nat);
            lemma_zero_rounds_to_zero(num, den, place as int, precision as nat, floor as nat);
            assert(0 * pow2(floor as nat) == 0) by (nonlinear_arith);
        }
        return (0, floor);
    }
    proof {
        if length > 120 {
            lemma_pow2_monotone(120, (length - 1) as nat);
        }
        if length == 0 {
            lemma2_to64();
        }
        lemma_last_place_from_lead(
            num,
            den,
            lead as nat,
            place as int,
            rest,
            length as nat,
            precision as nat,
        );
    }
    let reach: i32 = length as i32 + place - precision as i32;
    let kept_place: i32 = if reach > floor as i32 {
        reach
    } else {
        floor as i32
    };
    let drop: i32 = kept_place - place;
    if drop <= 0 {
        // Nothing is lost: the leading part is the whole value.
        let lift: u32 = (-drop) as u32;
        proof {
            if rest {
                lemma_pow2_bits(lead as nat, length as nat, precision as nat);
            }
            lemma_exact_lift(num, den, lead as nat, place as int, kept_place as nat);
            lemma_lift_bound(lead as nat, length as nat, lift as nat, precision as nat);
        }
        let mantissa: u128 = lead * power_of_two(lift);
        return (mantissa as u64, kept_place as u32);
    }
    proof {
        lemma_drop(num, den, lead as nat, place as int, rest, kept_place as nat);
    }
    if drop > 120 {
        proof {
            lemma_pow2_monotone(120, (drop - 1) as nat);
            lemma_pow2_pos(drop as nat);
            lemma_pow2_monotone((drop - 1) as nat, drop as nat);
            lemma_basic_div(lead as int, pow2(drop as nat) as int);
            lemma_small_mod(lead as nat, pow2(drop as nat));
        }
        return (0, kept_place as u32);
    }
    let weight: u128 = power_of_two(drop as u32);
    let half: u128 = power_of_two((drop - 1) as u32);
    proof {
        lemma_pow2_pos(drop as nat);
        lemma_kept_bound(lead as nat, length as nat, drop as nat, precision as nat);
    }
    let kept: u128 = lead / weight;
    let lost: u128 = lead % weight;
    let up: bool = lost > half || (lost == half && (rest || kept % 2 == 1));
    let mantissa: u128 = if up {
        kept + 1
    } else {
        kept
    };
    (mantissa as u64, kept_place as u32)
}

/// What the number of excess bits says of a number.
proof fn lemma_excess_bounds(n: nat, precision: nat)
    ensures
        n < pow2(precision + excess_bits(n, precision)),
        excess_bits(n, precision) > 0 ==> n >= pow2(
            (precision + excess_bits(n, precision) - 1) as nat,
        ),
    decreases n,
{
    lemma_pow2_pos(precision);
    if n != 0 && n >= pow2(precision) {
        lemma_excess_bounds(n / 2, precision);
        let below = excess_bits(n / 2, precision);
        lemma_pow2_unfold(precision + below + 1);
        if below > 0 {
            lemma_pow2_unfold(precision + below);
        }
    }
}

/// A number of at most `precision` bits rounds to itself.
pub proof fn lemma_representable(
    num: nat,
    den: nat,
    mantissa: nat,
    place: nat,
    precision: nat,
    floor: nat,
)
    requires
        den > 0,
        num == den * (mantissa * pow2(place)),
        mantissa < pow2(precision),
        place >= floor,
    ensures
        nearest(num, den, precision, floor) == mantissa * pow2(place),
{
    let value = mantissa * pow2(place);
    lemma_pow2_pos(place);
    lemma_mul_is_commutative(den as int, value as int);
    lemma_fundamental_div_mod_converse(num as int, den as int, value as int, 0);
    lemma_excess_bounds(value, precision);
    let excess = excess_bits(value, precision);
    lemma_pow2_adds(precision, place);
    lemma_mul_strict_inequality(
        mantissa as int,
        pow2(precision) as int,
        pow2(place) as int,
    );
    if excess > place {
        lemma_pow2_monotone(precision + place, (precision + excess - 1) as nat);
    }
    let at = last_place(num, den, precision, floor);
    let up = (place - at) as nat;
    lemma_pow2_pos(at);
    lemma_pow2_adds(at, up);
    let unit = den * pow2(at);
    lemma_mul_strictly_positive(den as int, pow2(at) as int);
    assert(num == (mantissa * pow2(up)) * unit) by (nonlinear_arith)
        requires
            num == den * (mantissa * (pow2(at) * pow2(up))),
            unit == den * pow2(at),
    ;
    lemma_fundamental_div_mod_converse(num as int, unit as int, (mantissa * pow2(up)) as int, 0);
    assert((mantissa * pow2(up)) * pow2(at) == value) by (nonlinear_arith)
        requires
            value == mantissa * (pow2(at) * pow2(up)),
    ;
}

/// Quotients keep the order of the fractions.
proof fn lemma_quotients_ordered(n1: nat, d1: nat, n2: nat, d2: nat)
    requires
        d1 > 0,
        d2 > 0,
        n1 * d2 <= n2 * d1,
    ensures
        n1 / d1 <= n2 / d2,
{
    lemma_fundamental_div_mod(n1 as int, d1 as int);
    lemma_fundamental_div_mod(n2 as int, d2 as int);
    lemma_mod_bound(n1 as int, d1 as int);
    lemma_mod_bound(n2 as int, d2 as int);
    let q1 = n1 as int / d1 as int;
    let q2 = n2 as int / d2 as int;
    if q1 > q2 {
        assert(q1 * (d1 * d2) <= n1 * d2) by (nonlinear_arith)
            requires
                n1 as int == d1 * q1 + n1 as int % d1 as int,
                n1 as int % d1 as int >= 0,
                d2 > 0,
        ;
        assert(n2 * d1 < (q2 + 1) * (d1 * d2)) by (nonlinear_arith)
            requires
                n2 as int == d2 * q2 + n2 as int % d2 as int,
                n2 as int % (d2 as int) < d2,
                d1 > 0,
        ;
        assert((q2 + 1) * (d1 * d2) <= q1 * (d1 * d2)) by (nonlinear_arith)
            requires
                q2 + 1 <= q1,
                d1 > 0,
                d2 > 0,
        ;
    }
}

proof fn lemma_half_even_ordered(n1: nat, d1: nat, n2: nat, d2: nat)
    requires
        d1 > 0,
        d2 > 0,
        n1 * d2 <= n2 * d1,
    ensures
        half_even(n1, d1) <= half_even(n2, d2),
{
    lemma_quotients_ordered(n1, d1, n2, d2);
    lemma_fundamental_div_mod(n1 as int, d1 as int);
    lemma_fundamental_div_mod(n2 as int, d2 as int);
    let q1 = n1 as int / d1 as int;
    let q2 = n2 as int / d2 as int;
    let r1 = n1 as int % d1 as int;
    let r2 = n2 as int % d2 as int;
    if q1 == q2 {
        assert(r1 * d2 <= r2 * d1) by (nonlinear_arith)
            requires
                n1 * d2 <= n2 * d1,
                n1 as int == d1 * q1 + r1,
                n2 as int == d2 * q2 + r2,
                q1 == q2,
        ;
        if 2 * r1 > d1 {
            assert(2 * r2 > d2) by (nonlinear_arith)
                requires
                    2 * r1 > d1,
                    r1 * d2 <= r2 * d1,
                    d1 > 0,
                    d2 > 0,
            ;
        } else if 2 * r1 == d1 {
            assert(2 * r2 >= d2) by (nonlinear_arith)
                requires
                    2 * r1 == d1,
                    r1 * d2 <= r2 * d1,
                    d1 > 0,
                    d2 > 0,
            ;
        }
    }
}

proof fn lemma_excess_ordered(n1: nat, n2: nat, precision: nat)
    requires
        n1 <= n2,
    ensures
        excess_bits(n1, precision) <= excess_bits(n2, precision),
{
    lemma_excess_bounds(n1, precision);
    lemma_excess_bounds(n2, precision);
    let e1 = excess_bits(n1, precision);
    let e2 = excess_bits(n2, precision);
    if e1 > e2 {
        lemma_pow2_monotone(precision + e2, (precision + e1 - 1) as nat);
    }
}

/// The rounded multiple of the last place fits the precision, and fills it
/// unless the place is the lowest one.
pub proof fn lemma_mantissa_bounds(num: nat, den: nat, precision: nat, floor: nat)
    requires
        den > 0,
        precision > 0,
    ensures
        ({
            let place = last_place(num, den, precision, floor);
            let mantissa = half_even(num, den * pow2(place));
            &&& mantissa <= pow2(precision)
            &&& place > floor ==> mantissa >= pow2((precision - 1) as nat)
        }),
{
    let whole = num / den;
    let excess = excess_bits(whole, precision);
    let place = last_place(num, den, precision, floor);
    let w = pow2(place);
    lemma_excess_bounds(whole, precision);
    lemma_pow2_pos(place);
    lemma_mul_strictly_positive(den as int, w as int);
    lemma_div_denominator(num as int, den as int, w as int);
    let q = whole as int / w as int;
    lemma_fundamental_div_mod(whole as int, w as int);
    lemma_mod_bound(whole as int, w as int);
    lemma_pow2_monotone(precision + excess, precision + place);
    lemma_pow2_adds(precision, place);
    assert(q < pow2(precision)) by (nonlinear_arith)
        requires
            whole as int == w * q + whole as int % w as int,
            whole as int % w as int >= 0,
            whole < pow2(precision) * w,
            w > 0,
    ;
    if place > floor {
        lemma_pow2_adds((precision - 1) as nat, place);
        let low = pow2((precision - 1) as nat);
        assert(q >= low) by (nonlinear_arith)
            requires
                whole as int == w * q + whole as int % w as int,
                whole as int % (w as int) < w,
                whole >= low * w,
                w > 0,
        ;
    }
}

/// Rounding keeps order.
pub proof fn lemma_nearest_ordered(
    n1: nat,
    d1: nat,
    n2: nat,
    d2: nat,
    precision: nat,
    floor: nat,
)
    requires
        d1 > 0,
        d2 > 0,
        precision > 0,
        n1 * d2 <= n2 * d1,
    ensures
        nearest(n1, d1, precision, floor) <= nearest(n2, d2, precision, floor),
{
    let w1 = n1 / d1;
    let w2 = n2 / d2;
    lemma_quotients_ordered(n1, d1, n2, d2);
    lemma_excess_ordered(w1, w2, precision);
    lemma_excess_bounds(w1, precision);
    lemma_excess_bounds(w2, precision);
    let k1 = last_place(n1, d1, precision, floor);
    let k2 = last_place(n2, d2, precision, floor);
    let p1 = pow2(k1);
    let p2 = pow2(k2);
    lemma_pow2_pos(k1);
    lemma_pow2_pos(k2);
    lemma_mul_strictly_positive(d1 as int, p1 as int);
    lemma_mul_strictly_positive(d2 as int, p2 as int);
    let h1 = half_even(n1, d1 * p1);
    let h2 = half_even(n2, d2 * p2);
    if k1 == k2 {
        assert(n1 * (d2 * p2) <= n2 * (d1 * p1)) by (nonlinear_arith)
            requires
                n1 * d2 <= n2 * d1,
                p1 == p2,
        ;
        lemma_half_even_ordered(n1, d1 * p1, n2, d2 * p2);
        lemma_mul_inequality(h1 as int, h2 as int, p1 as int);
    } else {
        // The first value lies below the leading place of the second.
        lemma_mantissa_bounds(n1, d1, precision, floor);
        lemma_mantissa_bounds(n2, d2, precision, floor);
        let low = pow2((precision - 1) as nat);
        lemma_mul_inequality(h1 as int, pow2(precision) as int, p1 as int);
        lemma_mul_inequality(low as int, h2 as int, p2 as int);
        lemma_pow2_adds(precision, k1);
        lemma_pow2_adds((precision - 1) as nat, k2);
        lemma_pow2_monotone(precision + k1, (precision - 1 + k2) as nat);
    }
}

/// Rounding commutes with a shift, as long as no bit falls below the last place.
pub proof fn lemma_nearest_scales(num: nat, den: nat, precision: nat, shift: nat)
    requires
        den > 0,
        precision > 0,
        num >= den * pow2(precision),
    ensures
        nearest(num * pow2(shift), den, precision, 0) == pow2(shift) * nearest(
            num,
            den,
            precision,
            0,
        ),
{
    let whole = num / den;
    let scale = pow2(shift);
    lemma_pow2_pos(shift);
    lemma_fundamental_div_mod(num as int, den as int);
    lemma_mod_bound(num as int, den as int);
    assert(whole >= pow2(precision)) by (nonlinear_arith)
        requires
            den > 0,
            num >= den * pow2(precision),
            num == den * whole + num % den,
            0 <= num % den < den,
    ;
    lemma_excess_bounds(whole, precision);
    let place = excess_bits(whole, precision);
    assert(place > 0);
    let low = pow2((precision + place - 1) as nat);
    let high = pow2(precision + place);
    lemma_pow2_adds((precision + place - 1) as nat, shift);
    lemma_pow2_adds(precision + place, shift);
    assert(den * (low * scale) <= num * scale < den * (high * scale)) by (nonlinear_arith)
        requires
            low <= whole < high,
            num == den * whole + num % den,
            0 <= num % den < den,
            scale > 0,
            den > 0,
    ;
    assert((precision + (place + shift) - 1) as nat == (precision + place - 1) as nat + shift);
    assert(precision + (place + shift) == (precision + place) + shift);
    lemma_last_place(num * scale, den, precision, place + shift);
    // Both numerator and unit grow by the same factor.
    let unit = den * pow2(place);
    lemma_pow2_pos(place);
    lemma_pow2_adds(place, shift);
    lemma_mul_strictly_positive(den as int, pow2(place) as int);
    lemma_fundamental_div_mod(num as int, unit as int);
    lemma_mod_bound(num as int, unit as int);
    let q = num as int / unit as int;
    let r = num as int % unit as int;
    let wide = den * pow2(place + shift);
    assert(wide == unit * scale) by (nonlinear_arith)
        requires
            wide == den * pow2(place + shift),
            pow2(place + shift) == pow2(place) * scale,
            unit == den * pow2(place),
    ;
    assert(num * scale == q * wide + r * scale) by (nonlinear_arith)
        requires
            num == unit * q + r,
            wide == unit * scale,
    ;
    assert(0 <= r * scale < wide) by (nonlinear_arith)
        requires
            0 <= r < unit,
            scale > 0,
            wide == unit * scale,
    ;
    lemma_fundamental_div_mod_converse((num * scale) as int, wide as int, q, r * scale);
    assert((2 * (r * scale) > wide) == (2 * r > unit)) by (nonlinear_arith)
        requires
            scale > 0,
            wide == unit * scale,
    ;
    assert((2 * (r * scale) == wide) == (2 * r == unit)) by (nonlinear_arith)
        requires
            scale > 0,
            wide == unit * scale,
    ;
    let mantissa = half_even(num, unit);
    assert(half_even(num * scale, wide) == mantissa);
    assert(mantissa * pow2(place + shift) == scale * (mantissa * pow2(place))) by (nonlinear_arith)
        requires
            pow2(place + shift) == pow2(place) * scale,
    ;
}

/// How far a rounded value is from the exact one: by at most half a unit of the
/// last place that is kept.
pub proof fn lemma_nearest_error(num: nat, den: nat)
    requires
        den > 0,
    ensures
        ({
            let off = nearest(num, den, 53, 0) * den - num;
            -(num + pow2(52) * den) <= pow2(53) * off <= num + pow2(52) * den
        }),
{
    let whole = num / den;
    let place = last_place(num, den, 53, 0);
    let w = pow2(place);
    let unit = den * w;
    let m = half_even(num, unit);
    let x = nearest(num, den, 53, 0);
    lemma_pow2_pos(place);
    lemma_pow2_pos(52);
    lemma_pow2_unfold(53);
    lemma_mul_strictly_positive(den as int, w as int);
    lemma_fundamental_div_mod(num as int, unit as int);
    lemma_mod_bound(num as int, unit as int);
    let off = x * den - num;
    let q = num as int / unit as int;
    let r = num as int % unit as int;
    assert(x * den == unit * m) by (nonlinear_arith)
        requires
            x == m * w,
            unit == den * w,
    ;
    assert(unit * (q + 1) == unit * q + unit) by (nonlinear_arith);
    assert(-unit <= 2 * off <= unit);
    let half = pow2(52);
    assert(-(half * unit) <= half * (2 * off) <= half * unit) by (nonlinear_arith)
        requires
            -unit <= 2 * off <= unit,
            half > 0,
    ;
    assert(pow2(53) * off == half * (2 * off)) by (nonlinear_arith)
        requires
            pow2(53) == 2 * half,
    ;
    if place == 0 {
        lemma2_to64();
        assert(unit == den);
    } else {
        lemma_excess_bounds(whole, 53);
        lemma_pow2_adds(52, place);
        assert((53 + place - 1) as nat == 52 + place);
        lemma_fundamental_div_mod(num as int, den as int);
        lemma_mod_bound(num as int, den as int);
        assert(half * unit <= num) by (nonlinear_arith)
            requires
                whole >= half * w,
                unit == den * w,
                num >= den * whole,
        ;
        assert(0 <= half * den) by (nonlinear_arith);
    }
}

} // verus!
