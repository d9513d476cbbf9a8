//! Rolling per-worker prefill state, derived from successive load polls.
use crate::binary64::Binary64;
use crate::number::{difference, of_integer, one, positive, product, quotient, rounded, sum, Number};
use crate::policy::PrefillLoadReport;
use vstd::prelude::*;

verus! {

/// Minimum busy-time delta before a rate sample is trusted, in microseconds.
/// Below this the ratio is dominated by sampling noise and the previous
/// (or fallback) rate is kept instead.
pub const MIN_RATE_SAMPLE_US: i64 = 1_000;

/// Rolling prefill state of one worker.
#[derive(Debug, Clone, Copy)]
pub struct PrefillState {
    pub report: PrefillLoadReport,
    /// Value of the worker's reservation counter at the moment the report was
    /// taken. Reservations at or below this baseline are already reflected in
    /// `report.waiting_uncached_tokens`, so only the excess is added on top.
    pub reservation_baseline: i64,
    /// Measured prefill throughput in tokens per microsecond, if the worker
    /// reports the cumulative counters and there were two samples to difference.
    pub rate_tokens_per_us: Option<Binary64>,
    pub prev_total_tokens: Option<i64>,
    pub prev_busy_us: Option<i64>,
}

/// The value of a [`PrefillState`].
pub struct PrefillModel {
    pub report: PrefillLoadReport,
    pub reservation_baseline: i64,
    pub rate: Option<Number>,
    pub prev_total_tokens: Option<i64>,
    pub prev_busy_us: Option<i64>,
}

/// The number that an optional floating-point value stands for.
pub open spec fn number_of(value: Option<Binary64>) -> Option<Number> {
    match value {
        Some(value) => Some(value@),
        None => None,
    }
}

impl View for PrefillState {
    type V = PrefillModel;

    open spec fn view(&self) -> PrefillModel {
        PrefillModel {
            report: self.report,
            reservation_baseline: self.reservation_baseline,
            rate: number_of(self.rate_tokens_per_us),
            prev_total_tokens: self.prev_total_tokens,
            prev_busy_us: self.prev_busy_us,
        }
    }
}

/// Smoothing factor of the rate average. Deliberately sluggish: the rate is a
/// hardware property, so a single odd poll should not move it much.
pub open spec fn smoothing() -> Number {
    rounded(false, 3 * one(), 10)
}

/// The smoothed rate after one more sample.
pub open spec fn smoothed(previous: Option<Number>, sample: Number) -> Number {
    match previous {
        Some(previous) => sum(
            product(previous, difference(of_integer(1), smoothing())),
            product(sample, smoothing()),
        ),
        None => sample,
    }
}

impl PrefillModel {
    /// The state of a worker before its first report.
    pub open spec fn fresh() -> PrefillModel {
        PrefillModel {
            report: PrefillLoadReport::nothing(),
            reservation_baseline: 0,
            rate: None,
            prev_total_tokens: None,
            prev_busy_us: None,
        }
    }

    /// The rate once the counters have moved by the given amounts.
    ///
    /// Counters reset on worker restart; one that moved backwards means that
    /// this is a different process, so the stale rate is dropped.
    pub open spec fn rate_after(self, tokens: int, busy_us: int) -> Option<Number> {
        if tokens >= 0 && busy_us >= MIN_RATE_SAMPLE_US {
            let sample = quotient(of_integer(tokens), of_integer(busy_us));
            if sample is Finite && positive(sample) {
                Some(smoothed(self.rate, sample))
            } else {
                self.rate
            }
        } else if tokens < 0 || busy_us < 0 {
            None
        } else {
            self.rate
        }
    }

    /// The state after a fresh report.
    pub open spec fn observed(self, report: PrefillLoadReport) -> PrefillModel {
        match (report.total_prefill_uncached_tokens, report.total_prefill_busy_us) {
            (Some(tokens), Some(busy_us)) => PrefillModel {
                report,
                reservation_baseline: self.reservation_baseline,
                rate: match (self.prev_total_tokens, self.prev_busy_us) {
                    (Some(prev_tokens), Some(prev_busy)) => self.rate_after(
                        tokens - prev_tokens,
                        busy_us - prev_busy,
                    ),
                    _ => self.rate,
                },
                prev_total_tokens: Some(tokens),
                prev_busy_us: Some(busy_us),
            },
            // Without the counters the proxy is used instead of a measured rate.
            _ => PrefillModel { report, rate: None, ..self },
        }
    }

    /// The state after a poll: the report is folded in, and the reservations
    /// that it already reflects become the baseline.
    pub open spec fn polled(self, report: PrefillLoadReport, baseline: i64) -> PrefillModel {
        PrefillModel { reservation_baseline: baseline, ..self.observed(report) }
    }
}

impl Default for PrefillState {
    fn default() -> (r: Self)
        ensures
            r@ == PrefillModel::fresh(),
    {
        PrefillState {
            report: PrefillLoadReport::default(),
            reservation_baseline: 0,
            rate_tokens_per_us: None,
            prev_total_tokens: None,
            prev_busy_us: None,
        }
    }
}

impl PrefillState {
    /// Folds a fresh report in, updating the measured rate from the delta.
    pub fn observe(&mut self, report: PrefillLoadReport)
        ensures
            final(self)@ == old(self)@.observed(report),
    {
        let (tokens, busy_us): (i64, i64) = match (
            report.total_prefill_uncached_tokens,
            report.total_prefill_busy_us,
        ) {
            (Some(tokens), Some(busy_us)) => (tokens, busy_us),
            _ => {
                self.rate_tokens_per_us = None;
                self.report = report;
                return ;
            },
        };
        if let (Some(prev_tokens), Some(prev_busy)) = (self.prev_total_tokens, self.prev_busy_us) {
            let d_tokens: i128 = tokens as i128 - prev_tokens as i128;
            let d_busy: i128 = busy_us as i128 - prev_busy as i128;
            if d_tokens >= 0 && d_busy >= MIN_RATE_SAMPLE_US as i128 {
                let sample: Binary64 = Binary64::from_i128(d_tokens).divided_by(
                    Binary64::from_i128(d_busy),
                );
                if sample.is_finite() && sample.is_positive() {
                    self.rate_tokens_per_us = Some(smooth(self.rate_tokens_per_us, sample));
                }
            } else if d_tokens < 0 || d_busy < 0 {
                self.rate_tokens_per_us = None;
            }
        }
        self.prev_total_tokens = Some(tokens);
        self.prev_busy_us = Some(busy_us);
        self.report = report;
    }
}

/// The smoothed rate after one more sample.
fn smooth(previous: Option<Binary64>, sample: Binary64) -> (r: Binary64)
    ensures
        r@ == smoothed(number_of(previous), sample@),
{
    let alpha: Binary64 = Binary64::ratio(3, 10);
    match previous {
        Some(previous) => previous.times(Binary64::from_i64(1).minus(alpha)).plus(
            sample.times(alpha),
        ),
        None => sample,
    }
}

} // verus!
