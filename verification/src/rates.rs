//! The measured rates stay within bounds.
use crate::number::{
    difference, lemma_one_is_exact, of_integer, one, positive, product, quotient, rounded, Number,
};
use crate::order::{
    is_double, lemma_integer_is_double, lemma_integer_is_finite, lemma_results_are_doubles,
    lemma_rounded_is_double, lemma_rounded_within, lemma_rounding_is_idempotent, lemma_zero_rounds,
};
use crate::policy::PrefillLoadReport;
use crate::prefill::{smoothed, smoothing, PrefillModel, MIN_RATE_SAMPLE_US};
use crate::rounding::{lemma_last_place, lemma_nearest_ordered, lemma_pow2_monotone, nearest};
use vstd::arithmetic::div_mod::lemma_fundamental_div_mod_converse;
use vstd::arithmetic::power2::{
    lemma2_to64, lemma2_to64_rest, lemma_pow2_adds, lemma_pow2_pos, lemma_pow2_strictly_increases,
    lemma_pow2_unfold, pow2,
};
use vstd::prelude::*;

verus! {

/// One, and its half and quarter, in units of `2^-54`.
proof fn lemma_units()
    ensures
        one() == 0x40_0000_0000_0000 * pow2(1020),
        pow2(1073) == 0x20_0000_0000_0000 * pow2(1020),
        pow2(1072) == 0x10_0000_0000_0000 * pow2(1020),
        pow2(1021) == 2 * pow2(1020),
        pow2(1020) > 0,
        one() < pow2(2098),
{
    lemma2_to64_rest();
    lemma_pow2_adds(54, 1020);
    lemma_pow2_adds(53, 1020);
    lemma_pow2_adds(52, 1020);
    lemma_pow2_unfold(1021);
    lemma_pow2_pos(1020);
    lemma_pow2_strictly_increases(1074, 2098);
}

/// The number nearest to three tenths.
proof fn lemma_three_tenths()
    ensures
        nearest(3 * one(), 10, 53, 0) == 0x13_3333_3333_3333 * pow2(1020),
{
    lemma_units();
    let unit = pow2(1020) as int;
    lemma_last_place(3 * one(), 10, 53, 1020);
    lemma_fundamental_div_mod_converse(
        (3 * one()) as int,
        10 * unit,
        0x13_3333_3333_3333,
        2 * unit,
    );
}

/// What is left of one is halfway between two numbers, and goes to the lower.
proof fn lemma_seven_tenths(rest: nat)
    requires
        rest == 0x2C_CCCC_CCCC_CCCD * pow2(1020),
    ensures
        nearest(rest, 1, 53, 0) == 0x2C_CCCC_CCCC_CCCC * pow2(1020),
{
    lemma_units();
    let unit = pow2(1020) as int;
    lemma_last_place(rest, 1, 53, 1021);
    lemma_fundamental_div_mod_converse(rest as int, 2 * unit, 0x16_6666_6666_6666, unit);
}

/// The smoothing factor is the number nearest to three tenths. What is left of
/// one is rounded down, so the two weights of the average do not exceed one.
pub(crate) proof fn lemma_weights() -> (w: (nat, nat))
    ensures
        smoothing() == (Number::Finite { negative: false, quanta: w.0 }),
        difference(of_integer(1), smoothing()) == (Number::Finite { negative: false, quanta: w.1 }),
        w.0 + w.1 <= one(),
        w.0 == 0x13_3333_3333_3333 * pow2(1020),
        w.1 == 0x2C_CCCC_CCCC_CCCC * pow2(1020),
        one() == 0x40_0000_0000_0000 * pow2(1020),
        pow2(1073) <= w.1,
        pow2(1072) <= w.0,
        is_double(smoothing()),
        is_double(difference(of_integer(1), smoothing())),
{
    lemma_units();
    lemma_three_tenths();
    let kept: nat = (0x13_3333_3333_3333 * pow2(1020)) as nat;
    let rest: nat = (0x2C_CCCC_CCCC_CCCD * pow2(1020)) as nat;
    let left: nat = (0x2C_CCCC_CCCC_CCCC * pow2(1020)) as nat;
    assert(smoothing() == (Number::Finite { negative: false, quanta: kept }));
    lemma_one_is_exact();
    assert(one() - kept == rest);
    lemma_seven_tenths(rest);
    lemma_rounded_is_double(false, 3 * one(), 10);
    lemma_rounded_is_double(false, rest, 1);
    (kept, left)
}

/// A measured rate, in tokens per microsecond: from `2^-66` to `2^64`.
pub open spec fn is_rate(rate: Number) -> bool {
    rate matches Number::Finite { negative, quanta } && !negative && pow2(1008) <= quanta <= pow2(
        1138,
    ) && is_double(rate)
}

/// Whether a sample of tokens over microseconds is within the range of one.
pub open spec fn is_sample(sample: Number) -> bool {
    sample matches Number::Finite { negative, quanta } && !negative && pow2(1010) <= quanta <= pow2(
        1138,
    ) && is_double(sample)
}

/// A positive sample is within range.
pub(crate) proof fn lemma_sample(tokens: int, busy_us: int)
    requires
        0 <= tokens <= 0x1_0000_0000_0000_0000,
        0 < busy_us <= 0x1_0000_0000_0000_0000,
        positive(quotient(of_integer(tokens), of_integer(busy_us))),
    ensures
        is_sample(quotient(of_integer(tokens), of_integer(busy_us))),
{
    lemma_count(tokens);
    lemma_count(busy_us);
    lemma_integer_is_double(tokens);
    lemma_integer_is_double(busy_us);
    lemma_results_are_doubles(of_integer(tokens), of_integer(busy_us));
    lemma_pow2_pos(1074);
    let p = of_integer(tokens)->quanta;
    let q = of_integer(busy_us)->quanta;
    if tokens == 0 {
        lemma_zero_rounds(q);
        assert(0 * one() == 0) by (nonlinear_arith);
    }
    lemma_rounded_within(false, p * one(), q, 1138);
    assert(p * one() <= q * pow2(1138)) by (nonlinear_arith)
        requires
            p <= pow2(1138),
            one() <= q,
    ;
    lemma_rounded_within(false, p * one(), q, 1010);
    lemma_pow2_adds(1138, 1010);
    lemma_pow2_adds(1074, 1074);
    assert(p * one() >= one() * one()) by (nonlinear_arith)
        requires
            p >= one(),
    ;
    assert(q * pow2(1010) <= pow2(1138) * pow2(1010)) by (nonlinear_arith)
        requires
            q <= pow2(1138),
    ;
}

/// Counters of up to 64 bits convert to at most `2^64`.
proof fn lemma_count(n: int)
    requires
        0 <= n <= 0x1_0000_0000_0000_0000,
    ensures
        of_integer(n) is Finite,
        !of_integer(n).is_negative(),
        n == 0 ==> of_integer(n)->quanta == 0,
        n > 0 ==> of_integer(n)->quanta >= one(),
        of_integer(n)->quanta <= pow2(1138),
{
    lemma_integer_is_finite(n);
    lemma2_to64();
    lemma2_to64_rest();
    lemma_pow2_adds(64, 1074);
    lemma_rounded_within(false, n as nat * one(), 1, 1138);
    assert(n as nat * one() <= 1 * pow2(1138)) by (nonlinear_arith)
        requires
            n <= pow2(64),
            n >= 0,
            pow2(1138) == pow2(64) * one(),
    ;
}

/// The average of a rate and a sample is a rate.
pub(crate) proof fn lemma_smoothed(previous: Option<Number>, sample: Number)
    requires
        previous matches Some(rate) ==> is_rate(rate),
        is_sample(sample),
    ensures
        is_rate(smoothed(previous, sample)),
{
    lemma_pow2_monotone(1008, 1010);
    if let Some(rate) = previous {
        let (alpha, beta) = lemma_weights();
        let kept = difference(of_integer(1), smoothing());
        lemma_results_are_doubles(rate, kept);
        lemma_results_are_doubles(sample, smoothing());
        lemma_results_are_doubles(product(rate, kept), product(sample, smoothing()));
        lemma_share(rate->quanta, beta);
        lemma_share(sample->quanta, alpha);
        let x = product(rate, kept);
        let y = product(sample, smoothing());
        lemma_pow2_pos(1074);
        lemma_pow2_pos(1008);
        lemma_pow2_adds(1010, 1072);
        lemma_pow2_adds(1074, 1008);
        lemma_rounded_within(false, sample->quanta * alpha, one(), 1008);
        assert(sample->quanta * alpha >= pow2(1010) * pow2(1072)) by (nonlinear_arith)
            requires
                sample->quanta >= pow2(1010),
                alpha >= pow2(1072),
        ;
        let total: nat = x->quanta + y->quanta;
        lemma_pow2_adds(64, 1074);
        assert(pow2(64) * beta + pow2(64) * alpha <= pow2(64) * one()) by (nonlinear_arith)
            requires
                alpha + beta <= one(),
        ;
        lemma_rounded_within(false, total, 1, 1138);
        lemma_rounded_within(false, total, 1, 1008);
    }
}

/// A weighted rate is finite, and at most the weighted bound.
pub(crate) proof fn lemma_share(quanta: nat, weight: nat)
    requires
        quanta <= pow2(1138),
        weight <= one(),
        is_double(Number::Finite { negative: false, quanta: weight }),
    ensures
        rounded(false, quanta * weight, one()) is Finite,
        rounded(false, quanta * weight, one())->quanta <= pow2(64) * weight,
{
    lemma_pow2_pos(1074);
    lemma_pow2_adds(64, 1074);
    let (mantissa, place) = choose|mantissa: nat, place: nat|
        mantissa < pow2(53) && #[trigger] (mantissa * pow2(place)) == weight;
    lemma_pow2_adds(64, place);
    let bound = pow2(64) * weight;
    assert(mantissa * pow2(64 + place) == bound) by (nonlinear_arith)
        requires
            mantissa * pow2(place) == weight,
            pow2(64 + place) == pow2(64) * pow2(place),
            bound == pow2(64) * weight,
    ;
    lemma_rounding_is_idempotent(bound, one());
    let top = one() * bound;
    assert(quanta * weight <= top) by (nonlinear_arith)
        requires
            quanta <= pow2(1138),
            pow2(1138) == pow2(64) * one(),
            top == one() * (pow2(64) * weight),
    ;
    assert((quanta * weight) * one() <= top * one()) by (nonlinear_arith)
        requires
            quanta * weight <= top,
    ;
    lemma_nearest_ordered(quanta * weight, one(), top, one(), 53, 0);
    assert(bound <= pow2(1138)) by (nonlinear_arith)
        requires
            weight <= one(),
            pow2(1138) == pow2(64) * one(),
            bound == pow2(64) * weight,
    ;
    lemma_pow2_monotone(1138, 2097);
    lemma_pow2_unfold(2098);
    lemma_pow2_pos(2097);
}

impl PrefillModel {
    /// Whether the rate, where there is one, is within the range of one.
    pub open spec fn is_sound(self) -> bool {
        self.rate matches Some(rate) ==> is_rate(rate)
    }
}

/// Whatever a worker reports, its measured rate stays positive, finite and
/// within range.
pub proof fn law_rates_stay_sound(state: PrefillModel, report: PrefillLoadReport)
    requires
        state.is_sound(),
    ensures
        state.observed(report).is_sound(),
{
    match (
        report.total_prefill_uncached_tokens,
        report.total_prefill_busy_us,
        state.prev_total_tokens,
        state.prev_busy_us,
    ) {
        (Some(tokens), Some(busy_us), Some(prev_tokens), Some(prev_busy)) => {
            let d_tokens = tokens - prev_tokens;
            let d_busy = busy_us - prev_busy;
            let sample = quotient(of_integer(d_tokens), of_integer(d_busy));
            if d_tokens >= 0 && d_busy >= MIN_RATE_SAMPLE_US && positive(sample) {
                lemma_sample(d_tokens, d_busy);
                lemma_smoothed(state.rate, sample);
            }
        },
        _ => {},
    }
}

} // verus!
