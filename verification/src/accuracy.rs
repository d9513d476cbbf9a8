//! How close the floating-point results come to the quantities they stand for.
//!
//! The laws here are inequalities between integers: a result, counted in quanta,
//! is held against the exact value of the quantity, cleared of its denominators.
use crate::chunk_aware::{chunks_of_tokens, tokens_of_chars, CandidateModel, PolicyModel};
use crate::laws::{
    has_finite_weights, lemma_base, lemma_chunk_size, lemma_chunks, lemma_factor,
    lemma_product_within, lemma_sum_within, lemma_tokens,
};
use crate::number::{
    difference, greater, lemma_integer_is_exact, lemma_one_is_exact, negated, of_integer, one,
    product, quotient, rounded, single_of_integer, sum, Number,
};
use crate::order::{
    lemma_integer_is_finite, lemma_quotient_is_finite, lemma_rounded_within,
    lemma_rounding_is_idempotent, lemma_zero_rounds, representable,
};
use crate::policy::{ChunkAwareConfig, PrefillLoadReport, SelectWorkerInfo};
use crate::prefill::{smoothing, PrefillModel};
use crate::rates::{is_rate, lemma_sample, lemma_share, lemma_smoothed, lemma_weights};
use crate::rounding::{
    lemma_nearest_error, lemma_nearest_ordered, lemma_pow2_monotone, lemma_representable, nearest,
};
use vstd::arithmetic::div_mod::{lemma_basic_div, lemma_fundamental_div_mod, lemma_mod_bound};
use vstd::arithmetic::power2::{
    lemma2_to64, lemma2_to64_rest, lemma_pow2_adds, lemma_pow2_pos, lemma_pow2_strictly_increases,
    lemma_pow2_unfold, pow2,
};
use vstd::prelude::*;

verus! {

/// Whether `x` is off `y` by at most `c` parts in `2^50`.
spec fn close(x: int, y: int, c: int) -> bool {
    -(c * y) <= 0x4_0000_0000_0000 * (x - y) <= c * y
}

/// Whether `x` is `y` up to one part in `2^46`.
pub open spec fn nearly(x: int, y: int) -> bool {
    -y <= 0x4000_0000_0000 * (x - y) <= y
}

proof fn lemma_close_is_nearly(x: int, y: int, c: int)
    requires
        close(x, y, c),
        0 <= c <= 16,
        y >= 0,
    ensures
        nearly(x, y),
{
    assert(c * y <= 16 * y) by (nonlinear_arith)
        requires
            c <= 16,
            y >= 0,
    ;
}

proof fn lemma_close_scales(x: int, y: int, c: int, k: int)
    requires
        close(x, y, c),
        k >= 0,
    ensures
        close(x * k, y * k, c),
        close(k * x, k * y, c),
{
    let u: int = 0x4_0000_0000_0000;
    assert(-((c * y) * k) <= (u * (x - y)) * k <= (c * y) * k) by (nonlinear_arith)
        requires
            -(c * y) <= u * (x - y) <= c * y,
            k >= 0,
    ;
    assert((u * (x - y)) * k == u * (x * k - y * k)) by (nonlinear_arith);
    assert((c * y) * k == c * (y * k)) by (nonlinear_arith);
    assert(x * k == k * x && y * k == k * y) by (nonlinear_arith);
}

proof fn lemma_close_cancels(x: int, y: int, c: int, k: int)
    requires
        close(x * k, y * k, c),
        k > 0,
    ensures
        close(x, y, c),
{
    let u: int = 0x4_0000_0000_0000;
    assert((u * (x - y)) * k == u * (x * k - y * k)) by (nonlinear_arith);
    assert((c * y) * k == c * (y * k)) by (nonlinear_arith);
    assert(-(c * y) <= u * (x - y) <= c * y) by (nonlinear_arith)
        requires
            -((c * y) * k) <= (u * (x - y)) * k <= (c * y) * k,
            k > 0,
    ;
}

proof fn lemma_close_chains(x: int, y: int, z: int, c: int, d: int)
    requires
        close(x, y, c),
        close(y, z, d),
        0 <= c <= 64,
        0 <= d <= 64,
        z >= 0,
    ensures
        close(x, z, c + d + 1),
        y >= 0,
{
    let u: int = 0x4_0000_0000_0000;
    assert(0 <= d * z <= 64 * z) by (nonlinear_arith)
        requires
            0 <= d <= 64,
            z >= 0,
    ;
    assert(0 <= y <= 2 * z);
    assert(u * (c * y) <= c * (u * z + d * z)) by (nonlinear_arith)
        requires
            u * (y - z) <= d * z,
            c >= 0,
    ;
    assert(c * (u * z + d * z) == u * (c * z) + (c * d) * z) by (nonlinear_arith);
    assert((c * d) * z <= 4096 * z) by (nonlinear_arith)
        requires
            0 <= c <= 64,
            0 <= d <= 64,
            z >= 0,
    ;
    assert(u * (c * y) <= u * (c * z) + u * z);
    assert(c * y <= c * z + z);
    assert((c + d + 1) * z == c * z + d * z + z) by (nonlinear_arith);
}

proof fn lemma_close_turns(x: int, y: int, c: int)
    requires
        close(x, y, c),
        0 <= c <= 64,
        y >= 0,
    ensures
        close(y, x, c + 1),
{
    let u: int = 0x4_0000_0000_0000;
    assert(0 <= c * y <= 64 * y) by (nonlinear_arith)
        requires
            0 <= c <= 64,
            y >= 0,
    ;
    assert(u * ((c + 1) * x) >= (c + 1) * (u * y - c * y)) by (nonlinear_arith)
        requires
            u * (x - y) >= -(c * y),
            c >= 0,
    ;
    assert((c + 1) * (u * y - c * y) == u * (c * y) + u * y - ((c + 1) * c) * y) by (nonlinear_arith);
    assert(((c + 1) * c) * y <= 4225 * y) by (nonlinear_arith)
        requires
            0 <= c <= 64,
            y >= 0,
    ;
    assert(u * ((c + 1) * x) >= u * (c * y));
    assert((c + 1) * x >= c * y);
}

proof fn lemma_close_adds(x: int, y: int, v: int, w: int, c: int)
    requires
        close(x, y, c),
        close(v, w, c),
    ensures
        close(x + v, y + w, c),
{
    assert(c * (y + w) == c * y + c * w) by (nonlinear_arith);
}

/// A rounded value of normal size is close to the exact one.
proof fn lemma_rounding_is_close(num: nat, den: nat)
    requires
        den > 0,
        num >= pow2(52) * den,
    ensures
        close((nearest(num, den, 53, 0) * den) as int, num as int, 1),
{
    lemma2_to64();
    lemma2_to64_rest();
    lemma_nearest_error(num, den);
}

/// An integer converts to a number close to it.
proof fn lemma_integer_is_close(n: int)
    requires
        0 <= n <= 0x4_0000_0000_0000_0000,
    ensures
        of_integer(n) is Finite,
        !of_integer(n).is_negative(),
        close(of_integer(n)->quanta as int, n * one(), 1),
        n > 0 ==> one() <= of_integer(n)->quanta,
        of_integer(n)->quanta <= pow2(1140),
{
    lemma_integer_is_finite(n);
    if n > 0 {
        lemma_pow2_pos(1022);
        lemma_pow2_adds(52, 1022);
        lemma2_to64();
        lemma2_to64_rest();
        assert(n * one() >= one()) by (nonlinear_arith)
            requires
                n >= 1,
                one() >= 0,
        ;
        lemma_rounding_is_close(n as nat * one(), 1);
    } else {
        assert(0 * one() == 0) by (nonlinear_arith);
    }
}

/// A quotient of normal size is close to the exact one.
proof fn lemma_quotient_is_close(p: nat, q: nat, i: nat, j: nat)
    requires
        pow2(i) <= p,
        0 < q <= pow2(j),
        i + 1074 >= j + 52,
    ensures
        close((nearest(p * one(), q, 53, 0) * q) as int, (p * one()) as int, 1),
{
    lemma_pow2_adds(i, 1074);
    lemma_pow2_adds(52, j);
    lemma_pow2_monotone(52 + j, i + 1074);
    assert(p * one() >= pow2(i) * one()) by (nonlinear_arith)
        requires
            pow2(i) <= p,
    ;
    assert(pow2(52) * q <= pow2(52) * pow2(j)) by (nonlinear_arith)
        requires
            q <= pow2(j),
    ;
    lemma_rounding_is_close(p * one(), q);
}

/// A product of normal size is close to the exact one.
proof fn lemma_product_is_close(p: nat, q: nat, i: nat, j: nat)
    requires
        pow2(i) <= p,
        pow2(j) <= q,
        i + j >= 1126,
    ensures
        close((nearest(p * q, one(), 53, 0) * one()) as int, (p * q) as int, 1),
{
    lemma_pow2_pos(1074);
    lemma_pow2_adds(i, j);
    lemma_pow2_adds(52, 1074);
    lemma_pow2_monotone(1126, i + j);
    assert(p * q >= pow2(i) * pow2(j)) by (nonlinear_arith)
        requires
            pow2(i) <= p,
            pow2(j) <= q,
    ;
    lemma_rounding_is_close(p * q, one());
}

/// The tokens of one chunk: the configured size, and one where that is zero.
pub open spec fn tokens_per_chunk(config: ChunkAwareConfig) -> int {
    if config.chunk_size_tokens == 0 {
        1
    } else {
        config.chunk_size_tokens as int
    }
}

/// A ratio of two integers is close to the exact one.
proof fn lemma_ratio_is_close(n: int, d: int)
    requires
        0 < n <= 0x4_0000_0000_0000_0000,
        0 < d <= 0x4_0000_0000_0000_0000,
    ensures
        ({
            let ratio = quotient(of_integer(n), of_integer(d));
            &&& ratio is Finite
            &&& !ratio.is_negative()
            &&& pow2(1008) <= ratio->quanta
            &&& close(ratio->quanta * d, n * one(), 6)
        }),
{
    let ratio = quotient(of_integer(n), of_integer(d));
    lemma_pow2_pos(1074);
    lemma_integer_is_close(n);
    lemma_integer_is_close(d);
    let t = of_integer(n)->quanta;
    let s = of_integer(d)->quanta;
    lemma_quotient_is_finite(t, s);
    let b = ratio->quanta as int;
    let o = one() as int;
    lemma_quotient_is_close(t, s, 1074, 1140);
    assert(close(b * s, t * o, 1));
    // The integers in place of the numbers that they convert to.
    lemma_close_turns(s as int, d * o, 1);
    lemma_close_scales(d * o, s as int, 2, b);
    lemma_close_scales(t as int, n * o, 1, o);
    assert(0 <= t * o) by (nonlinear_arith)
        requires
            t >= 0,
            o >= 0,
    ;
    assert(0 <= (n * o) * o) by (nonlinear_arith)
        requires
            n >= 0,
            o >= 0,
    ;
    lemma_close_chains(b * s, t * o, (n * o) * o, 1, 1);
    lemma_close_chains(b * (d * o), b * s, (n * o) * o, 2, 3);
    assert(b * (d * o) == (b * d) * o) by (nonlinear_arith);
    lemma_close_cancels(b * d, n * o, 6, o);
    // A lower bound.
    lemma_pow2_adds(1074, 1074);
    lemma_pow2_adds(1140, 1008);
    assert(one() * one() <= t * one()) by (nonlinear_arith)
        requires
            one() <= t,
    ;
    assert(s * pow2(1008) <= pow2(1140) * pow2(1008)) by (nonlinear_arith)
        requires
            s <= pow2(1140),
    ;
    lemma_rounded_within(false, t * one(), s, 1008);
}

/// The proxy charge is close to tokens over chunk size.
proof fn lemma_proxy_is_close(config: ChunkAwareConfig, tokens: int)
    requires
        0 < tokens <= 0x4_0000_0000_0000_0000,
    ensures
        ({
            let base = chunks_of_tokens(config, tokens, None, None);
            &&& base is Finite
            &&& !base.is_negative()
            &&& pow2(1008) <= base->quanta
            &&& close(base->quanta * tokens_per_chunk(config), tokens * one(), 6)
        }),
{
    lemma_ratio_is_close(tokens, tokens_per_chunk(config));
}

/// Without a measured rate a worker is charged its queued tokens over the chunk
/// size: the charge times the size is the token count. Nothing queued is charged
/// nothing.
pub proof fn law_the_proxy_charge_is_tokens_over_chunk_size(config: ChunkAwareConfig, tokens: int)
    requires
        tokens <= 0x4_0000_0000_0000_0000,
    ensures
        ({
            let size = if config.chunk_size_tokens == 0 {
                1
            } else {
                config.chunk_size_tokens as int
            };
            let charge = chunks_of_tokens(config, tokens, None, None);
            &&& charge is Finite
            &&& tokens > 0 ==> nearly(charge.signed() * size, tokens * one())
            &&& tokens <= 0 ==> charge.signed() == 0
        }),
{
    lemma_base(config, tokens);
    lemma_chunk_size(config);
    if tokens > 0 {
        lemma_proxy_is_close(config, tokens);
        lemma_pow2_pos(1074);
        assert(tokens * one() >= 0) by (nonlinear_arith)
            requires
                tokens >= 0,
        ;
        lemma_close_is_nearly(
            chunks_of_tokens(config, tokens, None, None).signed() * tokens_per_chunk(config),
            tokens * one(),
            6,
        );
    } else {
        lemma_integer_is_finite(0);
        lemma_quotient_is_finite(0, of_integer(tokens_per_chunk(config))->quanta);
    }
}

/// With a measured rate the charge is the time that the worker takes to drain its
/// queue, measured against a worker of median rate, on either side of the median:
/// charge times size times rate is tokens times median.
pub proof fn law_the_charge_is_the_time_to_drain(
    config: ChunkAwareConfig,
    tokens: int,
    rate: Number,
    median: Number,
)
    requires
        tokens <= 0x4_0000_0000_0000_0000,
        is_rate(rate),
        is_rate(median),
    ensures
        ({
            let size = if config.chunk_size_tokens == 0 {
                1
            } else {
                config.chunk_size_tokens as int
            };
            let charge = chunks_of_tokens(config, tokens, Some(rate), Some(median));
            &&& charge is Finite
            &&& tokens > 0 ==> nearly(
                charge.signed() * size * rate.signed(),
                tokens * median.signed() * one(),
            )
            &&& tokens <= 0 ==> charge.signed() == 0
        }),
{
    let charge = chunks_of_tokens(config, tokens, Some(rate), Some(median));
    let base = chunks_of_tokens(config, tokens, None, None);
    let factor = quotient(median, rate);
    lemma_chunks(config, tokens, Some(rate), Some(median));
    lemma_factor(rate, median);
    lemma_pow2_pos(1008);
    lemma_pow2_pos(1074);
    assert(charge == product(base, factor));
    if tokens <= 0 {
        law_the_proxy_charge_is_tokens_over_chunk_size(config, tokens);
        assert(0 * factor->quanta == 0) by (nonlinear_arith);
        lemma_zero_rounds(one());
    } else {
        let size = tokens_per_chunk(config);
        let o = one() as int;
        let b = base->quanta as int;
        let f = factor->quanta as int;
        let r = rate->quanta as int;
        let m = median->quanta as int;
        let c = charge->quanta as int;
        lemma_proxy_is_close(config, tokens);
        lemma_quotient_is_close(median->quanta, rate->quanta, 1008, 1138);
        assert(close(f * r, m * o, 1));
        // The factor is at least 2^-130.
        lemma_pow2_adds(1008, 1074);
        lemma_pow2_adds(1138, 944);
        assert(pow2(1008) * one() <= median->quanta * one()) by (nonlinear_arith)
            requires
                pow2(1008) <= median->quanta,
        ;
        assert(rate->quanta * pow2(944) <= pow2(1138) * pow2(944)) by (nonlinear_arith)
            requires
                rate->quanta <= pow2(1138),
        ;
        lemma_rounded_within(false, median->quanta * one(), rate->quanta, 944);
        lemma_product_is_close(base->quanta, factor->quanta, 1008, 944);
        assert(close(c * o, b * f, 1));
        assert(r >= 0 && size >= 1 && b >= 0 && f >= 0 && m >= 0 && o > 0);
        // Charge, size and rate against the parts that they are made of.
        let sr = size * r;
        assert(sr >= 0) by (nonlinear_arith)
            requires
                size >= 1,
                r >= 0,
                sr == size * r,
        ;
        lemma_close_scales(c * o, b * f, 1, sr);
        assert((b * f) * sr == (b * size) * (f * r)) by (nonlinear_arith)
            requires
                sr == size * r,
        ;
        let fr = f * r;
        assert(fr >= 0) by (nonlinear_arith)
            requires
                fr == f * r,
                f >= 0,
                r >= 0,
        ;
        lemma_close_scales(b * size, tokens * o, 6, fr);
        assert(tokens * o >= 0) by (nonlinear_arith)
            requires
                tokens > 0,
                o > 0,
        ;
        lemma_close_scales(fr, m * o, 1, tokens * o);
        let goal = (tokens * o) * (m * o);
        assert(goal >= 0) by (nonlinear_arith)
            requires
                goal == (tokens * o) * (m * o),
                tokens * o >= 0,
                m >= 0,
                o > 0,
        ;
        lemma_close_chains((b * size) * fr, (tokens * o) * fr, goal, 6, 1);
        lemma_close_chains((c * o) * sr, (b * size) * fr, goal, 1, 8);
        assert((c * o) * sr == ((c * size) * r) * o) by (nonlinear_arith)
            requires
                sr == size * r,
        ;
        assert(goal == ((tokens * m) * o) * o) by (nonlinear_arith)
            requires
                goal == (tokens * o) * (m * o),
        ;
        lemma_close_cancels((c * size) * r, (tokens * m) * o, 10, o);
        assert((tokens * m) * o >= 0) by (nonlinear_arith)
            requires
                tokens > 0,
                m >= 0,
                o > 0,
        ;
        lemma_close_is_nearly((c * size) * r, (tokens * m) * o, 10);
    }
}

/// Rounding does not pass a number of the format.
proof fn lemma_rounding_stops(num: nat, den: nat, mantissa: nat, place: nat)
    requires
        den > 0,
        mantissa < pow2(53),
    ensures
        num >= den * (mantissa * pow2(place)) ==> nearest(num, den, 53, 0) >= mantissa * pow2(place),
        num <= den * (mantissa * pow2(place)) ==> nearest(num, den, 53, 0) <= mantissa * pow2(place),
{
    let stop = mantissa * pow2(place);
    assert(representable(stop));
    lemma_rounding_is_idempotent(stop, den);
    let at = den * stop;
    if num >= at {
        assert(at * den <= num * den) by (nonlinear_arith)
            requires
                num >= at,
        ;
        lemma_nearest_ordered(at, den, num, den, 53, 0);
    }
    if num <= at {
        assert(num * den <= at * den) by (nonlinear_arith)
            requires
                num <= at,
        ;
        lemma_nearest_ordered(num, den, at, den, 53, 0);
    }
}

/// The estimate is the number of characters over the characters per token,
/// rounded to the nearest whole: `t - 3/4 < chars / width < t + 1/2`, where the
/// looser lower end leaves room for the rounding of the quotient. A width below
/// one, or one that is no number, counts as one.
pub proof fn law_tokens_are_characters_over_width(config: ChunkAwareConfig, chars: nat)
    requires
        chars < 0x8_0000_0000_0000,
    ensures
        ({
            let tokens = tokens_of_chars(config, chars) as int;
            match config.chars_per_token@ {
                Number::Finite { negative: false, quanta: width } => if width >= one() {
                    &&& 2 * chars * one() < (2 * tokens + 1) * width
                    &&& (4 * tokens - 3) * width < 4 * chars * one()
                } else {
                    tokens == chars
                },
                Number::Infinite { negative: false } => tokens == 0,
                _ => tokens == chars,
            }
        }),
{
    lemma_one_is_exact();
    lemma_tokens(config, chars);
    lemma_integer_is_exact(chars as int);
    let per_token = greater(config.chars_per_token@, of_integer(1));
    let o = one();
    let tokens = tokens_of_chars(config, chars) as int;
    if per_token is Infinite {
        lemma_basic_div(o as int, (2 * o) as int);
    } else {
        let p = per_token->quanta;
        let num = (chars * o) * o;
        let q = quotient(of_integer(chars as int), per_token)->quanta;
        assert(q == nearest(num, p, 53, 0));
        lemma2_to64();
        lemma2_to64_rest();
        lemma_pow2_unfold(1073);
        lemma_pow2_unfold(1074);
        lemma_pow2_pos(1072);
        // No more tokens than characters.
        assert(num <= p * (chars * pow2(1074))) by (nonlinear_arith)
            requires
                num == (chars * o) * o,
                o <= p,
                o == pow2(1074),
        ;
        lemma_rounding_stops(num, p, chars, 1074);
        let whole = (2 * q + o) as int / (2 * o) as int;
        lemma_fundamental_div_mod((2 * q + o) as int, (2 * o) as int);
        lemma_mod_bound((2 * q + o) as int, (2 * o) as int);
        assert((2 * o) * whole <= 2 * q + o < (2 * o) * whole + 2 * o);
        assert(0 <= whole <= chars) by (nonlinear_arith)
            requires
                (2 * o) * whole <= 2 * q + o < (2 * o) * whole + 2 * o,
                q <= chars * o,
                o > 0,
        ;
        assert(tokens == whole);
        let t = tokens as nat;
        // The halves above and the quarters below are numbers of the format.
        lemma_rounding_stops(num, p, 2 * t + 1, 1073);
        assert((2 * o) * whole == 4 * (t * pow2(1073))) by (nonlinear_arith)
            requires
                whole == t,
                o == 2 * pow2(1073),
        ;
        assert((2 * t + 1) * pow2(1073) == 2 * (t * pow2(1073)) + pow2(1073)) by (nonlinear_arith);
        assert(num < p * ((2 * t + 1) * pow2(1073)));
        assert(2 * chars * o < (2 * t + 1) * p) by (nonlinear_arith)
            requires
                num < p * ((2 * t + 1) * pow2(1073)),
                num == (chars * o) * o,
                o == 2 * pow2(1073),
                o > 0,
        ;
        if t > 0 {
            let low: nat = (4 * t - 3) as nat;
            lemma_rounding_stops(num, p, low, 1072);
            assert(low * pow2(1072) == 2 * (t * pow2(1073)) - 3 * pow2(1072)) by (nonlinear_arith)
                requires
                    low == 4 * t - 3,
                    pow2(1073) == 2 * pow2(1072),
            ;
            assert(num > p * (low * pow2(1072)));
            assert(low * p < 4 * chars * o) by (nonlinear_arith)
                requires
                    num > p * (low * pow2(1072)),
                    num == (chars * o) * o,
                    o == 4 * pow2(1072),
                    o > 0,
            ;
        } else {
            assert((4 * t - 3) * p < 4 * chars * o) by (nonlinear_arith)
                requires
                    t == 0,
                    p > 0,
                    o > 0,
            ;
        }
        if p == o {
            assert(tokens == chars) by (nonlinear_arith)
                requires
                    2 * chars * o < (2 * tokens + 1) * o,
                    (4 * tokens - 3) * o < 4 * chars * o,
                    o > 0,
            ;
        }
    }
}

/// From which match on a match counts: where it covers the minimum rate of the
/// request it does, and where one character more would still fall short of it, it
/// does not.
proof fn lemma_minimum_match(policy: PolicyModel, info: SelectWorkerInfo, matched: nat)
    requires
        info.text().len() < 0x100_0000,
        matched + 1 < 0x100_0000,
        policy.config.min_cache_match_rate@ is Finite,
        !policy.config.min_cache_match_rate@.is_negative(),
    ensures
        ({
            let rate = policy.config.min_cache_match_rate@->quanta;
            &&& info.text().len() * rate <= matched * one() ==> matched >= policy.min_match_chars(
                info,
            )
            &&& (matched + 1) * one() <= info.text().len() * rate ==> matched
                < policy.min_match_chars(info)
        }),
{
    let len = info.text().len();
    let rate = policy.config.min_cache_match_rate@->quanta;
    let o = one();
    lemma2_to64();
    lemma_pow2_pos(1074);
    lemma_pow2_strictly_increases(1098, 1202);
    lemma_pow2_adds(24, 1074);
    assert(len * o < pow2(24) * o) by (nonlinear_arith)
        requires
            len < pow2(24),
            o > 0,
    ;
    lemma_representable(len * o, 1, len, 1074, 24, 925);
    assert(single_of_integer(len) == (Number::Finite { negative: false, quanta: len * o }));
    let num = (len * o) * rate;
    let least = nearest(num, o, 24, 925);
    if len * rate <= matched * o {
        let stop = matched * o;
        lemma_representable(o * stop, o, matched, 1074, 24, 925);
        assert(num <= o * stop) by (nonlinear_arith)
            requires
                num == (len * o) * rate,
                len * rate <= stop,
        ;
        assert(num * o <= (o * stop) * o) by (nonlinear_arith)
            requires
                num <= o * stop,
        ;
        lemma_nearest_ordered(num, o, o * stop, o, 24, 925);
        assert(least <= stop);
        assert(stop < pow2(24) * o) by (nonlinear_arith)
            requires
                stop == matched * o,
                matched < pow2(24),
                o > 0,
        ;
        lemma_fundamental_div_mod((least + o - 1) as int, o as int);
        lemma_mod_bound((least + o - 1) as int, o as int);
        let whole = (least + o - 1) as int / o as int;
        assert(whole <= matched) by (nonlinear_arith)
            requires
                o * whole <= least + o - 1,
                least <= matched * o,
                o > 0,
        ;
    }
    if (matched + 1) * o <= len * rate {
        let stop = (matched + 1) * o;
        lemma_representable(o * stop, o, matched + 1, 1074, 24, 925);
        assert(o * stop <= num) by (nonlinear_arith)
            requires
                num == (len * o) * rate,
                stop <= len * rate,
        ;
        assert((o * stop) * o <= num * o) by (nonlinear_arith)
            requires
                o * stop <= num,
        ;
        lemma_nearest_ordered(o * stop, o, num, o, 24, 925);
        assert(least >= stop);
        lemma_fundamental_div_mod((least + o - 1) as int, o as int);
        lemma_mod_bound((least + o - 1) as int, o as int);
        let whole = (least + o - 1) as int / o as int;
        assert(whole >= matched + 1) by (nonlinear_arith)
            requires
                o * whole + o > least + o - 1,
                least >= (matched + 1) * o,
                o > 0,
        ;
    }
}

/// Affinity is a credit of the credit weight times the matched tokens, in chunks:
/// credit times chunk size is weight times tokens. A request earns it from the
/// long-prefill threshold on, for a match that covers the minimum rate of its
/// text; below either, and without a match, it earns nothing.
pub proof fn law_credit_is_weight_times_matched_chunks(
    policy: PolicyModel,
    info: SelectWorkerInfo,
    candidate: CandidateModel,
)
    requires
        info.text().len() < 0x100_0000,
        candidate.matched_chars + 1 < 0x100_0000,
        policy.config.min_cache_match_rate@ is Finite,
        !policy.config.min_cache_match_rate@.is_negative(),
        ({
            let weight = policy.config.prefix_affinity_credit@;
            &&& weight is Finite
            &&& weight->quanta == 0 || pow2(925) <= weight->quanta <= pow2(1202)
        }),
    ensures
        ({
            let config = policy.config;
            let chars = info.text().len();
            let matched = candidate.matched_chars as nat;
            let least = config.min_cache_match_rate@.signed();
            let est_tokens = tokens_of_chars(config, chars);
            let tokens = tokens_of_chars(config, matched);
            let size = if config.chunk_size_tokens == 0 {
                1
            } else {
                config.chunk_size_tokens as int
            };
            let weight = config.prefix_affinity_credit@.signed();
            let credit = policy.credit(info, candidate);
            &&& credit is Finite
            &&& est_tokens >= config.long_prefill_threshold_tokens && matched > 0 && matched
                * one() >= chars * least && weight >= 0 ==> nearly(
                credit.signed() * size,
                weight * tokens,
            )
            &&& est_tokens >= config.long_prefill_threshold_tokens && matched > 0 && matched
                * one() >= chars * least && weight <= 0 ==> nearly(
                -credit.signed() * size,
                -weight * tokens,
            )
            &&& est_tokens < config.long_prefill_threshold_tokens || matched == 0 || (matched + 1)
                * one() <= chars * least ==> credit.signed() == 0
        }),
{
    let config = policy.config;
    let matched = candidate.matched_chars as nat;
    let tokens = tokens_of_chars(config, matched) as int;
    let size = tokens_per_chunk(config);
    let w = config.prefix_affinity_credit@->quanta;
    let o = one() as int;
    lemma_minimum_match(policy, info, matched);
    lemma_tokens(config, matched);
    lemma_pow2_pos(1074);
    lemma_base(config, tokens);
    let base = chunks_of_tokens(config, tokens, None, None);
    let b = base->quanta as int;
    let earned = product(config.prefix_affinity_credit@, base);
    let c = nearest(w * base->quanta, one(), 53, 0) as int;
    lemma_pow2_strictly_increases(925, 1202);
    lemma_product_within(config.prefix_affinity_credit@, base, 1202, 1140);
    assert(earned->quanta == c);
    if w == 0 || tokens == 0 {
        law_the_proxy_charge_is_tokens_over_chunk_size(config, tokens);
        assert(w * base->quanta == 0) by (nonlinear_arith)
            requires
                w == 0 || base->quanta == 0,
        ;
        lemma_zero_rounds(one());
        assert(rounded(false, 0, one()) == (Number::Finite { negative: false, quanta: c as nat }));
        assert(0 * size == 0 && w * tokens == 0) by (nonlinear_arith)
            requires
                w == 0 || tokens == 0,
        ;
    } else {
        lemma_proxy_is_close(config, tokens);
        lemma_product_is_close(w, base->quanta, 925, 1008);
        assert(close(c * o, w * b, 1));
        lemma_close_scales(c * o, w * b, 1, size);
        lemma_close_scales(b * size, tokens * o, 6, w as int);
        assert(w * (tokens * o) >= 0) by (nonlinear_arith)
            requires
                tokens >= 0,
                o >= 0,
        ;
        assert((w * b) * size == w * (b * size)) by (nonlinear_arith);
        lemma_close_chains((c * o) * size, w * (b * size), w * (tokens * o), 1, 6);
        assert((c * o) * size == (c * size) * o) by (nonlinear_arith);
        assert(w * (tokens * o) == (w * tokens) * o) by (nonlinear_arith);
        lemma_close_cancels(c * size, w * tokens, 8, o);
        assert(w * tokens >= 0) by (nonlinear_arith)
            requires
                tokens >= 0,
        ;
        lemma_close_is_nearly(c * size, w * tokens, 8);
    }
}

/// The first measured rate is the tokens over the microseconds between two polls.
pub proof fn law_the_first_rate_is_tokens_over_time(
    state: PrefillModel,
    report: PrefillLoadReport,
    prev_tokens: i64,
    prev_busy: i64,
    tokens: i64,
    busy_us: i64,
)
    requires
        state.rate is None,
        state.prev_total_tokens == Some(prev_tokens),
        state.prev_busy_us == Some(prev_busy),
        report.total_prefill_uncached_tokens == Some(tokens),
        report.total_prefill_busy_us == Some(busy_us),
        tokens > prev_tokens,
        busy_us - prev_busy >= 1000,
    ensures
        state.observed(report).rate matches Some(rate) && rate is Finite && nearly(
            rate.signed() * (busy_us - prev_busy),
            (tokens - prev_tokens) * one(),
        ),
{
    let n = tokens - prev_tokens;
    let d = busy_us - prev_busy;
    lemma_ratio_is_close(n, d);
    lemma_pow2_pos(1008);
    lemma_pow2_pos(1074);
    let sample = quotient(of_integer(n), of_integer(d));
    assert(n * one() >= 0) by (nonlinear_arith)
        requires
            n >= 0,
    ;
    lemma_close_is_nearly(sample->quanta * d, n * one(), 6);
}

/// A later sample moves the rate three tenths of the way: ten times the new rate
/// is seven times the old one and three times the sample.
pub proof fn law_a_sample_moves_the_rate_by_three_tenths(
    state: PrefillModel,
    report: PrefillLoadReport,
    previous: Number,
    prev_tokens: i64,
    prev_busy: i64,
    tokens: i64,
    busy_us: i64,
)
    requires
        state.rate == Some(previous),
        is_rate(previous),
        state.prev_total_tokens == Some(prev_tokens),
        state.prev_busy_us == Some(prev_busy),
        report.total_prefill_uncached_tokens == Some(tokens),
        report.total_prefill_busy_us == Some(busy_us),
        tokens > prev_tokens,
        busy_us - prev_busy >= 1000,
    ensures
        state.observed(report).rate matches Some(rate) && rate is Finite && nearly(
            10 * rate.signed() * (busy_us - prev_busy),
            7 * previous.signed() * (busy_us - prev_busy) + 3 * (tokens - prev_tokens) * one(),
        ),
{
    let n = tokens - prev_tokens;
    let d = busy_us - prev_busy;
    let o = one() as int;
    lemma_ratio_is_close(n, d);
    lemma_pow2_pos(1008);
    lemma_pow2_pos(1020);
    lemma_pow2_pos(1074);
    let sample = quotient(of_integer(n), of_integer(d));
    lemma_sample(n, d);
    lemma_smoothed(state.rate, sample);
    let (alpha, beta) = lemma_weights();
    let a = alpha as int;
    let b = beta as int;
    let p = previous->quanta as int;
    let s = sample->quanta as int;
    let old_part = product(previous, difference(of_integer(1), smoothing()));
    let new_part = product(sample, smoothing());
    lemma_share(previous->quanta, beta);
    lemma_share(sample->quanta, alpha);
    let x = old_part->quanta as int;
    let y = new_part->quanta as int;
    lemma_product_is_close(previous->quanta, beta, 1008, 1073);
    lemma_product_is_close(sample->quanta, alpha, 1010, 1072);
    assert(close(x * o, p * b, 1));
    assert(close(y * o, s * a, 1));
    // The weights are seven and three tenths.
    assert(close(10 * b, 7 * o, 1));
    assert(close(10 * a, 3 * o, 1));
    lemma_weighted(x, p, b, 7, o);
    lemma_weighted(y, s, a, 3, o);
    lemma_close_adds(10 * x, 7 * p, 10 * y, 3 * s, 3);
    // The sum of the parts is rounded once more.
    let total = (x + y) as nat;
    lemma_pow2_adds(1010, 1072);
    lemma_pow2_adds(1074, 1008);
    assert(sample->quanta * alpha >= pow2(1010) * pow2(1072)) by (nonlinear_arith)
        requires
            sample->quanta >= pow2(1010),
            alpha >= pow2(1072),
    ;
    lemma_rounded_within(false, sample->quanta * alpha, one(), 1008);
    lemma_pow2_monotone(52, 1008);
    lemma_rounding_is_close(total, 1);
    let r = nearest(total, 1, 53, 0) as int;
    assert(state.observed(report).rate->0->quanta == r);
    lemma_close_scales(r, x + y, 1, 10);
    let mix = 7 * p + 3 * s;
    lemma_close_chains(r * 10, (x + y) * 10, mix, 1, 3);
    lemma_close_scales(r * 10, mix, 5, d);
    // The sample in terms of the counters.
    lemma_close_scales(s * d, n * o, 6, 3);
    let kept = 7 * p * d;
    assert(kept >= 0) by (nonlinear_arith)
        requires
            kept == 7 * p * d,
            p >= 0,
            d >= 0,
    ;
    assert(n * o >= 0) by (nonlinear_arith)
        requires
            n >= 0,
            o >= 0,
    ;
    lemma_close_adds(kept, kept, 3 * (s * d), 3 * (n * o), 6);
    assert(mix * d == kept + 3 * (s * d)) by (nonlinear_arith)
        requires
            mix == 7 * p + 3 * s,
            kept == 7 * p * d,
    ;
    lemma_close_chains((r * 10) * d, mix * d, kept + 3 * (n * o), 5, 6);
    assert((r * 10) * d == 10 * r * d) by (nonlinear_arith);
    assert(3 * (n * o) == 3 * n * o) by (nonlinear_arith);
    lemma_close_is_nearly(10 * r * d, kept + 3 * (n * o), 12);
}

/// A weighted value, where the weight is close to so many tenths.
proof fn lemma_weighted(x: int, p: int, b: int, tenths: int, o: int)
    requires
        close(x * o, p * b, 1),
        close(10 * b, tenths * o, 1),
        p >= 0,
        tenths >= 0,
        o > 0,
    ensures
        close(10 * x, tenths * p, 3),
{
    lemma_close_scales(x * o, p * b, 1, 10);
    lemma_close_scales(10 * b, tenths * o, 1, p);
    assert((p * b) * 10 == (10 * b) * p) by (nonlinear_arith);
    assert((tenths * o) * p == (tenths * p) * o) by (nonlinear_arith);
    assert((x * o) * 10 == (10 * x) * o) by (nonlinear_arith);
    assert((tenths * p) * o >= 0) by (nonlinear_arith)
        requires
            tenths >= 0,
            p >= 0,
            o > 0,
    ;
    lemma_close_chains((10 * x) * o, (10 * b) * p, (tenths * p) * o, 1, 1);
    lemma_close_cancels(10 * x, tenths * p, 3, o);
}

/// What does not make a sample leaves the rate as it is: the first counters of a
/// worker, less than a millisecond of work, and work without a token. The report
/// and its counters are kept in any case.
pub proof fn law_only_samples_move_the_rate(
    state: PrefillModel,
    report: PrefillLoadReport,
    tokens: i64,
    busy_us: i64,
)
    requires
        report.total_prefill_uncached_tokens == Some(tokens),
        report.total_prefill_busy_us == Some(busy_us),
    ensures
        state.observed(report).report == report,
        state.observed(report).reservation_baseline == state.reservation_baseline,
        state.observed(report).prev_total_tokens == Some(tokens),
        state.observed(report).prev_busy_us == Some(busy_us),
        state.prev_total_tokens is None || state.prev_busy_us is None ==> state.observed(
            report,
        ).rate == state.rate,
        (state.prev_total_tokens matches Some(before) && before <= tokens && (
        state.prev_busy_us matches Some(since) && 0 <= busy_us - since && (busy_us - since < 1000
            || tokens == before))) ==> state.observed(report).rate == state.rate,
{
    if let (Some(before), Some(since)) = (state.prev_total_tokens, state.prev_busy_us) {
        if before == tokens && busy_us - since >= 1000 {
            let d = busy_us - since;
            lemma_integer_is_finite(0);
            lemma_integer_is_finite(d);
            lemma_pow2_pos(1074);
            lemma_quotient_is_finite(0, of_integer(d)->quanta);
        }
    }
}

spec fn magnitude(x: int) -> int {
    if x < 0 {
        -x
    } else {
        x
    }
}

/// Whether `x` is `y` up to one part in `2^46` of `scale`, and four quanta.
pub open spec fn within_rounding(x: int, y: int, scale: int) -> bool {
    let slack = scale + 0x1_0000_0000_0000 * one();
    -slack <= 0x4000_0000_0000 * (x - y) <= slack
}

/// A rounded product is off the exact one by little.
proof fn lemma_product_error(a: Number, b: Number)
    requires
        a is Finite,
        b is Finite,
        !b.is_negative(),
        product(a, b) is Finite,
    ensures
        ({
            let off = product(a, b).signed() * one() - a.signed() * b.signed();
            let slack = a->quanta * b->quanta + 0x10_0000_0000_0000 * one();
            -slack <= 0x20_0000_0000_0000 * off <= slack
        }),
{
    lemma_pow2_pos(1074);
    lemma2_to64();
    lemma2_to64_rest();
    lemma_nearest_error(a->quanta * b->quanta, one());
    let x = nearest(a->quanta * b->quanta, one(), 53, 0) as int;
    let p = a->quanta as int;
    let q = b->quanta as int;
    assert((-x) * one() == -(x * one())) by (nonlinear_arith);
    assert((-p) * q == -(p * q)) by (nonlinear_arith);
}

/// A rounded sum is off the exact one by little. All terms are multiplied by one.
proof fn lemma_sum_error(a: Number, b: Number)
    requires
        a is Finite,
        b is Finite,
        sum(a, b) is Finite,
    ensures
        ({
            let o = one() as int;
            let total = a.signed() * o + b.signed() * o;
            magnitude(0x20_0000_0000_0000 * (sum(a, b).signed() * o - total)) <= magnitude(total)
                + 0x10_0000_0000_0000 * o
        }),
{
    lemma2_to64();
    lemma2_to64_rest();
    lemma_pow2_pos(1074);
    let o = one() as int;
    let total = a.signed() + b.signed();
    lemma_nearest_error(magnitude(total) as nat, 1);
    let off = sum(a, b).signed() - total;
    let big: int = 0x20_0000_0000_0000;
    let half: int = 0x10_0000_0000_0000;
    assert(-(magnitude(total) + half) <= big * off <= magnitude(total) + half);
    lemma_magnitude_scales(big * off, magnitude(total) + half, o);
    assert((big * off) * o == big * (sum(a, b).signed() * o - total * o)) by (nonlinear_arith)
        requires
            off == sum(a, b).signed() - total,
    ;
    assert(total * o == a.signed() * o + b.signed() * o) by (nonlinear_arith)
        requires
            total == a.signed() + b.signed(),
    ;
    lemma_magnitude_of_product(total, o);
    assert((magnitude(total) + half) * o == magnitude(total) * o + half * o) by (nonlinear_arith);
}

/// The weighted running requests, against the count itself.
proof fn lemma_load_error(weight: Number, running: int)
    requires
        weight is Finite,
        0 <= running <= 0x1_0000_0000_0000_0000,
        product(weight, of_integer(running)) is Finite,
    ensures
        ({
            let o = one() as int;
            let exact = weight.signed() * running * o;
            let size = weight->quanta * running * o;
            &&& size >= 0
            &&& -size <= exact <= size
            &&& magnitude(
                0x20_0000_0000_0000 * (product(weight, of_integer(running)).signed() * o - exact),
            ) <= 10 * size + 0x10_0000_0000_0000 * o
        }),
{
    let o = one() as int;
    lemma_pow2_pos(1074);
    lemma_integer_is_close(running);
    lemma_product_error(weight, of_integer(running));
    let w = weight->quanta as int;
    let n = of_integer(running)->quanta as int;
    let size = w * running * o;
    lemma_close_scales(n, running * o, 1, w);
    assert(w * (running * o) == size) by (nonlinear_arith)
        requires
            size == w * running * o,
    ;
    assert(size >= 0) by (nonlinear_arith)
        requires
            size == w * running * o,
            w >= 0,
            running >= 0,
            o >= 0,
    ;
    if weight.is_negative() {
        assert((-w) * running * o == -size) by (nonlinear_arith)
            requires
                size == w * running * o,
        ;
        assert((-w) * n == -(w * n)) by (nonlinear_arith);
    }
}

/// The weighted backlog.
proof fn lemma_work_error(weight: Number, backlog: Number)
    requires
        weight is Finite,
        backlog is Finite,
        !backlog.is_negative(),
        product(weight, backlog) is Finite,
    ensures
        ({
            let o = one() as int;
            let exact = weight.signed() * backlog.signed();
            let size = weight->quanta * backlog.signed();
            &&& size >= 0
            &&& -size <= exact <= size
            &&& magnitude(0x20_0000_0000_0000 * (product(weight, backlog).signed() * o - exact))
                <= size + 0x10_0000_0000_0000 * o
        }),
{
    lemma_product_error(weight, backlog);
    let w = weight->quanta as int;
    let b = backlog->quanta as int;
    assert((-w) * b == -(w * b)) by (nonlinear_arith);
    assert(w * b >= 0) by (nonlinear_arith)
        requires
            w >= 0,
            b >= 0,
    ;
}

/// The errors of the two products, of their sum and of the last difference, added
/// up. All terms are multiplied by one.
proof fn lemma_errors_add_up(
    load: int,
    work: int,
    credit: int,
    p: int,
    q: int,
    s: int,
    r: int,
    load_size: int,
    work_size: int,
    o: int,
)
    requires
        o > 0,
        -load_size <= load <= load_size,
        -work_size <= work <= work_size,
        magnitude(0x20_0000_0000_0000 * (p - load)) <= 10 * load_size + 0x10_0000_0000_0000 * o,
        magnitude(0x20_0000_0000_0000 * (q - work)) <= work_size + 0x10_0000_0000_0000 * o,
        magnitude(0x20_0000_0000_0000 * (s - p - q)) <= magnitude(p + q) + 0x10_0000_0000_0000 * o,
        magnitude(0x20_0000_0000_0000 * (r - s + credit)) <= magnitude(s - credit)
            + 0x10_0000_0000_0000 * o,
    ensures
        magnitude(0x4000_0000_0000 * (r - (load + work - credit))) <= load_size + work_size
            + magnitude(credit) + 0x1_0000_0000_0000 * o,
{
}

/// The terms of a score are finite.
proof fn lemma_score_is_finite(lw: Number, n: Number, ww: Number, backlog: Number, credit: Number)
    requires
        lw is Finite,
        lw->quanta <= pow2(1202),
        ww is Finite,
        ww->quanta <= pow2(1202),
        n is Finite,
        n->quanta <= pow2(1270),
        backlog is Finite,
        backlog->quanta <= pow2(1270),
        credit is Finite,
        credit->quanta <= pow2(1399),
    ensures
        product(lw, n) is Finite,
        product(ww, backlog) is Finite,
        sum(product(lw, n), product(ww, backlog)) is Finite,
        sum(sum(product(lw, n), product(ww, backlog)), negated(credit)) is Finite,
{
    lemma_product_within(lw, n, 1202, 1270);
    lemma_product_within(ww, backlog, 1202, 1270);
    let load = product(lw, n);
    let work = product(ww, backlog);
    lemma_sum_within(load, work, 1398);
    lemma_sum_within(sum(load, work), negated(credit), 1399);
}

/// The error of a score, given those of its terms.
#[verifier::rlimit(60)]
#[verifier::spinoff_prover]
proof fn lemma_score_error(
    load: Number,
    work: Number,
    credit: Number,
    exact_load: int,
    exact_work: int,
    load_size: int,
    work_size: int,
)
    requires
        load is Finite,
        work is Finite,
        credit is Finite,
        sum(load, work) is Finite,
        sum(sum(load, work), negated(credit)) is Finite,
        -load_size <= exact_load <= load_size,
        -work_size <= exact_work <= work_size,
        magnitude(0x20_0000_0000_0000 * (load.signed() * one() - exact_load)) <= 10 * load_size
            + 0x10_0000_0000_0000 * one(),
        magnitude(0x20_0000_0000_0000 * (work.signed() * one() - exact_work)) <= work_size
            + 0x10_0000_0000_0000 * one(),
    ensures
        within_rounding(
            sum(sum(load, work), negated(credit)).signed() * one(),
            exact_load + exact_work - credit.signed() * one(),
            load_size + work_size + credit->quanta * one(),
        ),
{
    let o = one() as int;
    let pressure = sum(load, work);
    let score = sum(pressure, negated(credit));
    lemma_pow2_pos(1074);
    lemma_sum_error(load, work);
    lemma_sum_error(pressure, negated(credit));
    let c = credit.signed();
    assert(negated(credit).signed() == -c);
    assert(magnitude(c) == credit->quanta);
    assert((-c) * o == -(c * o)) by (nonlinear_arith);
    lemma_magnitude_of_product(c, o);
    lemma_errors_add_up(
        exact_load,
        exact_work,
        c * o,
        load.signed() * o,
        work.signed() * o,
        pressure.signed() * o,
        score.signed() * o,
        load_size,
        work_size,
        o,
    );
}

/// The score is the weighted running requests, plus the weighted backlog, less
/// the credit. The terms are compared after multiplication by one, counted in
/// quanta; the error is measured against their sizes.
pub proof fn law_the_score_is_load_plus_work_less_credit(
    policy: PolicyModel,
    info: SelectWorkerInfo,
    candidate: CandidateModel,
    running: int,
)
    requires
        has_finite_weights(policy.config),
        0 <= running <= 0x1_0000_0000_0000_0000,
        candidate.running == of_integer(running),
        candidate.backlog is Finite,
        !candidate.backlog.is_negative(),
        candidate.backlog->quanta <= pow2(1270),
        policy.credit(info, candidate) is Finite,
        policy.credit(info, candidate)->quanta <= pow2(1399),
    ensures
        ({
            let score = policy.score(info, candidate, false);
            let load = policy.config.load_weight@;
            let work = policy.config.prefill_work_weight@;
            let backlog = candidate.backlog.signed();
            let credit = policy.credit(info, candidate);
            &&& score is Finite
            &&& within_rounding(
                score.signed() * one(),
                load.signed() * running * one() + work.signed() * backlog - credit.signed() * one(),
                load->quanta * running * one() + work->quanta * backlog + credit->quanta * one(),
            )
        }),
        policy.score(info, candidate, true) == candidate.backlog,
{
    let credit = policy.credit(info, candidate);
    let lw = policy.config.load_weight@;
    let ww = policy.config.prefill_work_weight@;
    let backlog = candidate.backlog;
    lemma_integer_is_close(running);
    lemma_pow2_monotone(1140, 1270);
    lemma_score_is_finite(lw, candidate.running, ww, backlog, credit);
    lemma_load_error(lw, running);
    lemma_work_error(ww, backlog);
    lemma_score_error(
        product(lw, candidate.running),
        product(ww, backlog),
        credit,
        lw.signed() * running * one(),
        ww.signed() * backlog.signed(),
        lw->quanta * running * one(),
        ww->quanta * backlog.signed(),
    );
}

proof fn lemma_magnitude_scales(x: int, bound: int, o: int)
    requires
        -bound <= x <= bound,
        o > 0,
    ensures
        -(bound * o) <= x * o <= bound * o,
{
    assert(-(bound * o) <= x * o <= bound * o) by (nonlinear_arith)
        requires
            -bound <= x <= bound,
            o > 0,
    ;
}

proof fn lemma_magnitude_of_product(x: int, o: int)
    requires
        o > 0,
    ensures
        magnitude(x * o) == magnitude(x) * o,
{
    assert((x < 0) == (x * o < 0)) by (nonlinear_arith)
        requires
            o > 0,
    ;
    assert((-x) * o == -(x * o)) by (nonlinear_arith);
}

} // verus!
