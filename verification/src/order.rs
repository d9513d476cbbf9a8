//! Exactness and order of floating-point arithmetic.
use crate::binary64::Binary64;
use crate::number::{
    at_most, difference, finite_sum, lemma_integer_is_exact, lemma_one_is_exact, negated,
    of_integer, one, product, quotient, rounded, sum, Number,
};
use crate::rounding::{
    half_even, last_place, lemma_mantissa_bounds, lemma_nearest_ordered, lemma_pow2_monotone,
    lemma_representable, nearest,
};
use vstd::arithmetic::mul::lemma_mul_is_commutative;
use vstd::arithmetic::power2::{
    lemma2_to64, lemma2_to64_rest, lemma_pow2_adds, lemma_pow2_pos, lemma_pow2_strictly_increases,
    lemma_pow2_unfold, pow2,
};
use vstd::prelude::*;

verus! {

/// Whether `quanta` has at most 53 significant bits.
pub open spec fn representable(quanta: nat) -> bool {
    exists|mantissa: nat, place: nat|
        mantissa < pow2(53) && #[trigger] (mantissa * pow2(place)) == quanta
}

/// Whether a number is one of the format.
pub open spec fn is_double(a: Number) -> bool {
    a matches Number::Finite { quanta, .. } ==> representable(quanta) && quanta < pow2(2098)
}

/// A number of the format rounds to itself.
pub proof fn lemma_rounding_is_idempotent(quanta: nat, den: nat)
    requires
        representable(quanta),
        den > 0,
    ensures
        nearest(den * quanta, den, 53, 0) == quanta,
{
    let (mantissa, place) = choose|mantissa: nat, place: nat|
        mantissa < pow2(53) && #[trigger] (mantissa * pow2(place)) == quanta;
    lemma_representable(den * quanta, den, mantissa, place, 53, 0);
}

/// Rounding gives a number of the format.
pub proof fn lemma_rounded_is_double(negative: bool, num: nat, den: nat)
    requires
        den > 0,
    ensures
        is_double(rounded(negative, num, den)),
{
    let place = last_place(num, den, 53, 0);
    let mantissa = half_even(num, den * pow2(place));
    lemma_mantissa_bounds(num, den, 53, 0);
    let quanta = nearest(num, den, 53, 0);
    if mantissa < pow2(53) {
        assert(mantissa * pow2(place) == quanta);
    } else {
        lemma_pow2_unfold(53);
        lemma_pow2_unfold(place + 1);
        lemma_pow2_pos(52);
        assert(pow2(52) * pow2(place + 1) == quanta) by (nonlinear_arith)
            requires
                quanta == mantissa * pow2(place),
                mantissa == 2 * pow2(52),
                pow2(place + 1) == 2 * pow2(place),
        ;
    }
}

/// Every bit pattern stands for a number of the format.
pub proof fn lemma_pattern_is_double(a: Binary64)
    ensures
        is_double(a@),
{
    crate::binary64::lemma_pattern_parts(a);
    if let Number::Finite { quanta, .. } = a@ {
        let (mantissa, place) = choose|mantissa: nat, place: nat|
            mantissa < pow2(53) && #[trigger] (mantissa * pow2(place)) == quanta;
        assert(mantissa * pow2(place) == quanta);
    }
}

/// The results of the operations are numbers of the format.
pub proof fn lemma_results_are_doubles(a: Number, b: Number)
    requires
        is_double(a),
        is_double(b),
    ensures
        is_double(sum(a, b)),
        is_double(difference(a, b)),
        is_double(product(a, b)),
        is_double(quotient(a, b)),
{
    lemma_pow2_pos(1074);
    lemma_zero_is_double();
    match (a, b) {
        (Number::Finite { negative: x, quanta: p }, Number::Finite { negative: y, quanta: q }) => {
            lemma_finite_sum_is_double(a.signed() + b.signed(), x && y);
            lemma_finite_sum_is_double(a.signed() + negated(b).signed(), x && !y);
            lemma_rounded_is_double(x != y, p * q, one());
            if q > 0 {
                lemma_rounded_is_double(x != y, p * one(), q);
            }
        },
        _ => {},
    }
}

/// Zero is a number of the format.
pub proof fn lemma_zero_is_double()
    ensures
        representable(0),
        pow2(2098) > 0,
{
    lemma_pow2_pos(53);
    lemma_pow2_pos(2098);
    assert(0 * pow2(0) == 0);
}

/// Zero rounds to zero.
pub proof fn lemma_zero_rounds(den: nat)
    requires
        den > 0,
    ensures
        forall|negative: bool| #[trigger] rounded(negative, 0, den) == (Number::Finite {
            negative,
            quanta: 0,
        }),
{
    lemma_zero_is_double();
    assert(den * 0 == 0) by (nonlinear_arith);
    lemma_rounding_is_idempotent(0, den);
}

proof fn lemma_finite_sum_is_double(total: int, negative_zero: bool)
    ensures
        is_double(finite_sum(total, negative_zero)),
{
    lemma_zero_is_double();
    if total < 0 {
        lemma_rounded_is_double(true, (-total) as nat, 1);
    } else if total > 0 {
        lemma_rounded_is_double(false, total as nat, 1);
    }
}

/// Integers convert to numbers of the format.
pub proof fn lemma_integer_is_double(n: int)
    ensures
        is_double(of_integer(n)),
{
    lemma_rounded_is_double(
        n < 0,
        (if n < 0 {
            -n
        } else {
            n
        }) as nat * one(),
        1,
    );
}

/// Rounded fractions keep their order.
pub proof fn lemma_rounded_ordered(n1: nat, d1: nat, n2: nat, d2: nat)
    requires
        d1 > 0,
        d2 > 0,
        n1 * d2 <= n2 * d1,
    ensures
        at_most(rounded(false, n1, d1), rounded(false, n2, d2)),
        at_most(rounded(true, n2, d2), rounded(true, n1, d1)),
{
    lemma_nearest_ordered(n1, d1, n2, d2, 53, 0);
}

/// Rounded totals keep their order.
pub proof fn lemma_totals_ordered(t1: int, z1: bool, t2: int, z2: bool)
    requires
        t1 <= t2,
    ensures
        at_most(finite_sum(t1, z1), finite_sum(t2, z2)),
{
    if 0 < t1 {
        lemma_rounded_ordered(t1 as nat, 1, t2 as nat, 1);
    } else if t2 < 0 {
        lemma_rounded_ordered((-t2) as nat, 1, (-t1) as nat, 1);
    }
}

/// A total that is a number of the format is exact.
pub proof fn lemma_total_is_exact(total: int, negative_zero: bool)
    requires
        representable(
            (if total < 0 {
                -total
            } else {
                total
            }) as nat,
        ),
        -pow2(2098) < total < pow2(2098),
    ensures
        finite_sum(total, negative_zero) is Finite,
        finite_sum(total, negative_zero).signed() == total,
{
    let quanta = (if total < 0 {
        -total
    } else {
        total
    }) as nat;
    lemma_rounding_is_idempotent(quanta, 1);
    assert(1 * quanta == quanta);
}

/// Quotients of non-negative numbers grow with the dividend and shrink with the
/// divisor.
pub proof fn lemma_quotients_ordered(p1: nat, q1: nat, p2: nat, q2: nat)
    requires
        p1 <= p2,
        0 < q2 <= q1,
    ensures
        at_most(
            quotient(
                Number::Finite { negative: false, quanta: p1 },
                Number::Finite { negative: false, quanta: q1 },
            ),
            quotient(
                Number::Finite { negative: false, quanta: p2 },
                Number::Finite { negative: false, quanta: q2 },
            ),
        ),
{
    assert((p1 * one()) * q2 <= (p2 * one()) * q1) by (nonlinear_arith)
        requires
            p1 <= p2,
            q2 <= q1,
            one() >= 0,
    ;
    lemma_rounded_ordered(p1 * one(), q1, p2 * one(), q2);
}

/// Products of non-negative numbers grow with both factors.
pub proof fn lemma_products_ordered(p1: nat, q1: nat, p2: nat, q2: nat)
    requires
        p1 <= p2,
        q1 <= q2,
    ensures
        at_most(
            product(
                Number::Finite { negative: false, quanta: p1 },
                Number::Finite { negative: false, quanta: q1 },
            ),
            product(
                Number::Finite { negative: false, quanta: p2 },
                Number::Finite { negative: false, quanta: q2 },
            ),
        ),
{
    lemma_pow2_pos(1074);
    assert((p1 * q1) * one() <= (p2 * q2) * one()) by (nonlinear_arith)
        requires
            p1 <= p2,
            q1 <= q2,
            one() >= 0,
    ;
    lemma_rounded_ordered(p1 * q1, one(), p2 * q2, one());
}

/// Conversion of integers keeps their order.
pub proof fn lemma_integers_ordered(m: int, n: int)
    requires
        0 <= m <= n,
    ensures
        at_most(of_integer(m), of_integer(n)),
{
    assert((m as nat * one()) * 1 <= (n as nat * one()) * 1) by (nonlinear_arith)
        requires
            0 <= m <= n,
            one() >= 0,
    ;
    lemma_rounded_ordered(m as nat * one(), 1, n as nat * one(), 1);
}

/// Integers of up to 66 bits convert to finite numbers.
pub proof fn lemma_integer_is_finite(n: int)
    requires
        0 <= n <= 0x4_0000_0000_0000_0000,
    ensures
        of_integer(n) is Finite,
        !of_integer(n).is_negative(),
        of_integer(n)->quanta <= pow2(1140),
        n > 0 ==> of_integer(n)->quanta >= one(),
        n == 0 ==> of_integer(n)->quanta == 0,
{
    lemma2_to64();
    lemma2_to64_rest();
    lemma_pow2_adds(64, 2);
    lemma_pow2_adds(66, 1074);
    lemma_pow2_pos(1074);
    lemma_pow2_pos(53);
    let top = pow2(66) * one();
    assert(1 * pow2(1140) == top);
    assert(1 * top == top);
    lemma_representable(top, 1, 1, 1140, 53, 0);
    assert((n as nat * one()) * 1 <= top * 1) by (nonlinear_arith)
        requires
            0 <= n <= pow2(66),
            top == pow2(66) * one(),
    ;
    lemma_nearest_ordered(n as nat * one(), 1, top, 1, 53, 0);
    lemma_pow2_monotone(1140, 2097);
    lemma_pow2_unfold(2098);
    lemma_pow2_pos(2097);
    if n > 0 {
        lemma_one_is_exact();
        assert((1 * one()) * 1 <= (n as nat * one()) * 1) by (nonlinear_arith)
            requires
                n >= 1,
                one() >= 0,
        ;
        lemma_nearest_ordered(1 * one(), 1, n as nat * one(), 1, 53, 0);
    } else {
        lemma_integer_is_exact(0);
        assert(0 * one() == 0) by (nonlinear_arith);
    }
}

/// Rounding does not pass a power of two, upwards or downwards.
pub proof fn lemma_rounded_within(negative: bool, num: nat, den: nat, place: nat)
    requires
        den > 0,
        place < 2098,
    ensures
        num <= den * pow2(place) ==> rounded(negative, num, den) is Finite && rounded(
            negative,
            num,
            den,
        )->quanta <= pow2(place),
        num >= den * pow2(place) ==> nearest(num, den, 53, 0) >= pow2(place),
{
    lemma2_to64();
    lemma2_to64_rest();
    let power = pow2(place);
    assert(1 * pow2(place) == power);
    lemma_rounding_is_idempotent(power, den);
    if num <= den * power {
        assert(num * den <= (den * power) * den) by (nonlinear_arith)
            requires
                num <= den * power,
        ;
        lemma_nearest_ordered(num, den, den * power, den, 53, 0);
        lemma_pow2_strictly_increases(place, 2098);
    }
    if num >= den * power {
        assert((den * power) * den <= num * den) by (nonlinear_arith)
            requires
                num >= den * power,
        ;
        lemma_nearest_ordered(den * power, den, num, den, 53, 0);
    }
}

/// A finite number divided by one that is at least one does not grow.
pub proof fn lemma_quotient_is_finite(p: nat, q: nat)
    requires
        p <= pow2(1140),
        q >= one(),
    ensures
        ({
            let r = quotient(
                Number::Finite { negative: false, quanta: p },
                Number::Finite { negative: false, quanta: q },
            );
            &&& r is Finite
            &&& !r.is_negative()
            &&& r->quanta <= pow2(1140)
            &&& p == 0 ==> r->quanta == 0
        }),
{
    lemma_pow2_pos(1074);
    lemma_pow2_pos(53);
    lemma2_to64();
    lemma2_to64_rest();
    let top = pow2(1140);
    assert(1 * pow2(1140) == top);
    lemma_representable(1 * top, 1, 1, 1140, 53, 0);
    assert((p * one()) * 1 <= top * q) by (nonlinear_arith)
        requires
            p <= top,
            q >= one(),
            one() >= 0,
    ;
    lemma_nearest_ordered(p * one(), q, top, 1, 53, 0);
    lemma_pow2_monotone(1140, 2097);
    lemma_pow2_unfold(2098);
    lemma_pow2_pos(2097);
    if p == 0 {
        assert(0 * one() == 0) by (nonlinear_arith);
        assert(q * 0 == 0) by (nonlinear_arith);
        lemma_zero_is_double();
        lemma_rounding_is_idempotent(0, q);
    }
}

/// A positive finite number divided by itself is one.
pub proof fn lemma_self_quotient(q: nat)
    requires
        q > 0,
    ensures
        quotient(
            Number::Finite { negative: false, quanta: q },
            Number::Finite { negative: false, quanta: q },
        ) == (Number::Finite { negative: false, quanta: one() }),
{
    lemma_pow2_pos(53);
    lemma_pow2_pos(1074);
    lemma2_to64();
    lemma2_to64_rest();
    assert(1 * pow2(1074) == one());
    lemma_rounding_is_idempotent(one(), q);
    lemma_pow2_monotone(1074, 2097);
    lemma_pow2_unfold(2098);
    lemma_pow2_pos(2097);
}

/// A number of the format times one is itself.
pub proof fn lemma_times_one(a: Number)
    requires
        a is Finite,
        is_double(a),
    ensures
        product(a, Number::Finite { negative: false, quanta: one() }) == a,
{
    lemma_pow2_pos(1074);
    let quanta = a->quanta;
    lemma_mul_is_commutative(quanta as int, one() as int);
    lemma_rounding_is_idempotent(quanta, one());
}

/// A number divided by its half is two.
pub proof fn lemma_quotient_by_half(q: nat)
    requires
        q > 0,
    ensures
        quotient(
            Number::Finite { negative: false, quanta: 2 * q },
            Number::Finite { negative: false, quanta: q },
        ) == (Number::Finite { negative: false, quanta: 2 * one() }),
{
    lemma_pow2_pos(1074);
    lemma2_to64();
    lemma2_to64_rest();
    assert(representable(2 * one())) by {
        assert(2 * pow2(1074) == 2 * one());
    }
    lemma_rounding_is_idempotent(2 * one(), q);
    assert((2 * q) * one() == q * (2 * one())) by (nonlinear_arith);
    lemma_pow2_unfold(1075);
    lemma_pow2_monotone(1075, 2097);
    lemma_pow2_unfold(2098);
    lemma_pow2_pos(2097);
}

/// Doubling a number of the format is exact within its range.
pub proof fn lemma_times_two(a: Number)
    requires
        a is Finite,
        is_double(a),
        2 * a->quanta < pow2(2098),
    ensures
        product(a, Number::Finite { negative: false, quanta: 2 * one() }) == (Number::Finite {
            negative: a.is_negative(),
            quanta: 2 * a->quanta,
        }),
{
    lemma_pow2_pos(1074);
    let quanta = a->quanta;
    let (mantissa, place) = choose|mantissa: nat, place: nat|
        mantissa < pow2(53) && #[trigger] (mantissa * pow2(place)) == quanta;
    lemma_pow2_unfold(place + 1);
    assert(mantissa * pow2(place + 1) == 2 * quanta) by (nonlinear_arith)
        requires
            mantissa * pow2(place) == quanta,
            pow2(place + 1) == 2 * pow2(place),
    ;
    assert(representable(2 * quanta));
    assert(quanta * (2 * one()) == one() * (2 * quanta)) by (nonlinear_arith);
    lemma_rounding_is_idempotent(2 * quanta, one());
}

} // verus!
