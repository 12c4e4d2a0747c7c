//! Network-quality metrics and their exponential smoothing.
//!
//! Metrics are integers: round-trip time in microseconds, bandwidth in
//! kilobits per second, packet loss in hundredths of a percent.  Each is
//! smoothed by an exponentially weighted moving average whose factor is a
//! per-mille numerator; when the smoothing step rounds away to nothing the
//! metric snaps to the sample, so it cannot stall short of it.

use vstd::prelude::*;

verus! {

/// The connection's current quality estimates.
#[derive(Clone, Copy, Debug, PartialEq, Eq, Structural)]
pub struct NetworkInfo {
    /// Smoothed round-trip time, in microseconds.
    pub rtt: u64,
    /// Smoothed outbound bandwidth, in kilobits per second.
    pub sent_bandwidth_kbps: u64,
    /// Smoothed inbound bandwidth, in kilobits per second.
    pub received_bandwidth_kbps: u64,
    /// Smoothed packet loss, in hundredths of a percent.
    pub packet_loss: u64,
}

impl Default for NetworkInfo {
    /// All metrics start at zero; the first meaningful sample of each is
    /// taken as-is.
    fn default() -> (r: NetworkInfo)
        ensures
            r == (NetworkInfo { rtt: 0, sent_bandwidth_kbps: 0, received_bandwidth_kbps: 0, packet_loss: 0 }),
    {
        NetworkInfo { rtt: 0, sent_bandwidth_kbps: 0, received_bandwidth_kbps: 0, packet_loss: 0 }
    }
}

/// One smoothing step of metric `m` toward sample `x` with per-mille
/// factor `alpha_num`: the first meaningful sample is taken as-is, a step
/// that rounds to nothing snaps to the sample, and otherwise the metric
/// moves `alpha_num / 1000` of the distance.
pub open spec fn spec_ewma(m: u64, x: u64, alpha_num: u64) -> u64 {
    if m == 0 {
        x
    } else if x >= m {
        let step = (x - m) * alpha_num / 1000;
        if step == 0 {
            x
        } else {
            (m + step) as u64
        }
    } else {
        let step = (m - x) * alpha_num / 1000;
        if step == 0 {
            x
        } else {
            (m - step) as u64
        }
    }
}

proof fn lemma_scaled_step_bounds(d: u64, alpha_num: u64)
    by (nonlinear_arith)
    requires
        alpha_num <= 1000,
    ensures
        (d as u128) * (alpha_num as u128) <= (u64::MAX as u128) * 1000,
        (d as u128) * (alpha_num as u128) / 1000 <= d,
        (d as u128) * (alpha_num as u128) / 1000 == d * alpha_num / 1000,
{
}

/// Performs one smoothing step.
pub fn ewma(m: u64, x: u64, alpha_num: u64) -> (r: u64)
    requires
        alpha_num <= 1000,
    ensures
        r == spec_ewma(m, x, alpha_num),
{
    if m == 0 {
        x
    } else if x >= m {
        let d = x - m;
        proof {
            lemma_scaled_step_bounds(d, alpha_num);
        }
        let step_wide = (d as u128) * (alpha_num as u128) / 1000;
        let step = step_wide as u64;
        if step == 0 {
            x
        } else {
            m + step
        }
    } else {
        let d = m - x;
        proof {
            lemma_scaled_step_bounds(d, alpha_num);
        }
        let step_wide = (d as u128) * (alpha_num as u128) / 1000;
        let step = step_wide as u64;
        if step == 0 {
            x
        } else {
            m - step
        }
    }
}

/// The bounded-drift law of the smoothing step: the result stays between
/// the old metric and the sample, and unless they already agree it moves
/// strictly closer to the sample.  Feeding a constant sample therefore
/// drives the metric monotonically to it.
pub proof fn lemma_ewma_bounded_drift(m: u64, x: u64, alpha_num: u64)
    requires
        alpha_num <= 1000,
        m != 0,
    ensures
        ({
            let r = spec_ewma(m, x, alpha_num);
            &&& (if m <= x {
                m <= r <= x
            } else {
                x <= r <= m
            })
            &&& m != x ==> (if r >= x {
                r - x
            } else {
                x - r
            }) < (if m >= x {
                m - x
            } else {
                x - m
            })
        }),
{
    if x >= m {
        let d = (x - m) as u64;
        assert(d * alpha_num / 1000 <= d) by (nonlinear_arith)
            requires
                alpha_num <= 1000,
        ;
    } else {
        let d = (m - x) as u64;
        assert(d * alpha_num / 1000 <= d) by (nonlinear_arith)
            requires
                alpha_num <= 1000,
        ;
    }
}

} // verus!
