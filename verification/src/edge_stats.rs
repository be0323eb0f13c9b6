//! Per-directed-edge reliability estimator.
//!
//! Every rate in this module is a fixed-point number in thousandths: 1000
//! stands for 1.0. The estimated drop rate is an exponential moving average
//! of drop indicators; the smoothing factor adapts to runs of failures or
//! successes; the confidence in the estimate follows a logistic curve in the
//! number of observed outcomes, computed here as repeated decay by 905/1000
//! per outcome (the thousandths value of the logistic's per-step factor).

use vstd::arithmetic::div_mod::{lemma_div_is_ordered, lemma_div_is_ordered_by_denominator};
use vstd::prelude::*;

verus! {

/// Weight of an edge with no recorded outcome yet (1.0 in thousandths).
pub const BASE_WEIGHT: u64 = 1000;

/// Smallest admissible smoothing factor (0.2 in thousandths).
pub const ALPHA_MIN: u64 = 200;

/// Largest admissible smoothing factor (0.8 in thousandths).
pub const ALPHA_MAX: u64 = 800;

/// Smoothing factor given to a fresh record (0.2 in thousandths).
pub const ALPHA_DEFAULT: u64 = 200;

/// Reliability statistics for one directed edge of the topology.
#[derive(Clone, Copy, Debug)]
pub struct EdgeStats {
    /// Number of transmission outcomes observed on this edge.
    pub packets_sent: u64,
    /// Estimated packet drop rate, in thousandths, kept as an EMA.
    pub current_pdr: u64,
    /// Confidence in the drop-rate estimate, in thousandths.
    pub confidence: u64,
    /// EMA smoothing factor, in thousandths, clamped to `[ALPHA_MIN, ALPHA_MAX]`.
    pub alpha: u64,
    /// Length of the current run of drops; zero after a success.
    pub consecutive_nacks: u64,
    /// Length of the current run of successes; zero after a drop.
    pub consecutive_acks: u64,
    /// Whether the previous outcome was a drop.
    pub last_was_nack: bool,
}

impl EdgeStats {
    /// Well-formedness: rates bounded, the smoothing factor clamped, run
    /// counters consistent with the last outcome, and at most one run counter
    /// non-zero (exactly one once an outcome has been observed).
    pub open spec fn wf(self) -> bool {
        &&& ALPHA_MIN <= self.alpha <= ALPHA_MAX
        &&& self.current_pdr <= 1000
        &&& self.confidence <= 1000
        &&& self.consecutive_nacks <= self.packets_sent
        &&& self.consecutive_acks <= self.packets_sent
        &&& (self.consecutive_nacks == 0 || self.consecutive_acks == 0)
        &&& (self.packets_sent > 0 ==> (self.last_was_nack <==> self.consecutive_nacks > 0))
        &&& (self.packets_sent > 0 ==> self.consecutive_nacks > 0 || self.consecutive_acks > 0)
        &&& (self.packets_sent == 0 ==> self.consecutive_nacks == 0 && self.consecutive_acks == 0
            && !self.last_was_nack && self.current_pdr == 0 && self.confidence == 0)
    }

    pub fn new(alpha: u64) -> (r: EdgeStats)
        requires
            ALPHA_MIN <= alpha <= ALPHA_MAX,
        ensures
            r.wf(),
            r.packets_sent == 0,
            r.current_pdr == 0,
            r.confidence == 0,
            r.alpha == alpha,
            r.consecutive_nacks == 0,
            r.consecutive_acks == 0,
            !r.last_was_nack,
    {
        EdgeStats {
            packets_sent: 0,
            current_pdr: 0,
            confidence: 0,
            alpha,
            consecutive_nacks: 0,
            consecutive_acks: 0,
            last_was_nack: false,
        }
    }

    /// Records one transmission outcome (`dropped` says whether the packet
    /// was dropped) and refreshes every derived quantity. The outcome
    /// counters saturate at `u64::MAX` instead of wrapping.
    pub fn update(&mut self, dropped: bool)
        requires
            old(self).wf(),
        ensures
            final(self).wf(),
            *final(self) == updated(*old(self), dropped),
            final(self).packets_sent == sat_inc(old(self).packets_sent),
            dropped ==> final(self).consecutive_nacks > 0 && final(self).consecutive_acks == 0,
            !dropped ==> final(self).consecutive_acks > 0 && final(self).consecutive_nacks == 0,
    {
        self.packets_sent = self.packets_sent.saturating_add(1);

        if dropped {
            if self.last_was_nack {
                self.consecutive_nacks = self.consecutive_nacks.saturating_add(1);
            } else {
                self.consecutive_nacks = 1;
                self.consecutive_acks = 0;
            }
            self.last_was_nack = true;
        } else {
            if self.last_was_nack {
                self.consecutive_acks = 1;
                self.consecutive_nacks = 0;
            } else {
                self.consecutive_acks = self.consecutive_acks.saturating_add(1);
            }
            self.last_was_nack = false;
        }

        if self.consecutive_nacks >= 3 {
            // React faster while the edge keeps dropping.
            self.alpha = if self.alpha + 100 > ALPHA_MAX {
                ALPHA_MAX
            } else {
                self.alpha + 100
            };
        } else if self.consecutive_acks >= 5 {
            // Stabilise while the edge keeps delivering.
            self.alpha = if self.alpha < ALPHA_MIN + 50 {
                ALPHA_MIN
            } else {
                self.alpha - 50
            };
        }

        let x: u64 = if dropped {
            1000
        } else {
            0
        };
        proof {
            assert(self.alpha * x + (1000 - self.alpha) * self.current_pdr <= 1000 * 1000)
                by (nonlinear_arith)
                requires
                    self.alpha <= 1000,
                    x <= 1000,
                    self.current_pdr <= 1000,
            ;
            lemma_div_is_ordered(
                (self.alpha * x + (1000 - self.alpha) * self.current_pdr) as int,
                1000000int,
                1000int,
            );
        }
        self.current_pdr = (self.alpha * x + (1000 - self.alpha) * self.current_pdr) / 1000;
        self.confidence = confidence_milli(self.packets_sent);
    }

    /// Weight of this edge for path finding, in thousandths: the base weight,
    /// raised by the confidence-weighted drop rate and by a penalty of 0.5
    /// per consecutive drop beyond the second, saturating at `u64::MAX`.
    pub fn get_edge_weight(&self) -> (r: u64)
        requires
            self.wf(),
        ensures
            r as int == if weight_of(*self) > u64::MAX { u64::MAX as int } else { weight_of(*self) },
            r >= BASE_WEIGHT,
    {
        if self.packets_sent == 0 {
            return BASE_WEIGHT;
        }

        proof {
            assert(self.current_pdr * self.confidence <= 1000 * 1000) by (nonlinear_arith)
                requires
                    self.current_pdr <= 1000,
                    self.confidence <= 1000,
            ;
            lemma_div_is_ordered((self.current_pdr * self.confidence) as int, 1000000int, 1000int);
        }
        let scaled: u64 = self.current_pdr * self.confidence / 1000;
        let base: u64 = BASE_WEIGHT + scaled;
        if self.consecutive_nacks > 2 {
            let extra: u64 = self.consecutive_nacks - 2;
            let penalty: u64 = match extra.checked_mul(500) {
                Some(p) => p,
                None => u64::MAX,
            };
            base.saturating_add(penalty)
        } else {
            base
        }
    }

    pub fn get_estimated_pdr(&self) -> (r: u64)
        ensures
            r == self.current_pdr,
    {
        self.current_pdr
    }

    pub fn get_consecutive_nacks(&self) -> (r: u64)
        ensures
            r == self.consecutive_nacks,
    {
        self.consecutive_nacks
    }
}

/// One more than `x`, staying put at the largest value.
pub open spec fn sat_inc(x: u64) -> u64 {
    if x == u64::MAX {
        x
    } else {
        (x + 1) as u64
    }
}

/// Run counters after one outcome: a drop extends or starts the drop run, a
/// success extends or starts the success run, and the opposite run is reset.
pub open spec fn runs_updated(s: EdgeStats, dropped: bool) -> (u64, u64, bool) {
    if dropped {
        if s.last_was_nack {
            (sat_inc(s.consecutive_nacks), s.consecutive_acks, true)
        } else {
            (1u64, 0u64, true)
        }
    } else {
        if s.last_was_nack {
            (0u64, 1u64, false)
        } else {
            (s.consecutive_nacks, sat_inc(s.consecutive_acks), false)
        }
    }
}

/// Smoothing factor after one outcome: raised by 0.1 (clamped to the maximum)
/// from the third consecutive drop on, lowered by 0.05 (clamped to the
/// minimum) from the fifth consecutive success on.
pub open spec fn alpha_updated(alpha: u64, nacks: u64, acks: u64) -> u64 {
    if nacks >= 3 {
        if alpha + 100 > ALPHA_MAX {
            ALPHA_MAX
        } else {
            (alpha + 100) as u64
        }
    } else if acks >= 5 {
        if alpha < ALPHA_MIN + 50 {
            ALPHA_MIN
        } else {
            (alpha - 50) as u64
        }
    } else {
        alpha
    }
}

/// The record after one observed outcome, in full.
pub open spec fn updated(s: EdgeStats, dropped: bool) -> EdgeStats {
    let (nacks, acks, last) = runs_updated(s, dropped);
    let alpha = alpha_updated(s.alpha, nacks, acks);
    let x: int = if dropped {
        1000
    } else {
        0
    };
    EdgeStats {
        packets_sent: sat_inc(s.packets_sent),
        current_pdr: ((alpha * x + (1000 - alpha) * s.current_pdr) / 1000) as u64,
        confidence: (1000000int / (1000int + decay(sat_inc(s.packets_sent) as nat) as int)) as u64,
        alpha,
        consecutive_nacks: nacks,
        consecutive_acks: acks,
        last_was_nack: last,
    }
}

/// Weight of an edge as a mathematical integer (no saturation).
pub open spec fn weight_of(s: EdgeStats) -> int {
    if s.packets_sent == 0 {
        BASE_WEIGHT as int
    } else {
        let penalty: int = if s.consecutive_nacks > 2 {
            500 * (s.consecutive_nacks - 2)
        } else {
            0
        };
        BASE_WEIGHT + s.current_pdr * s.confidence / 1000 + penalty
    }
}

/// Thousandths value of the logistic's decaying term after `n` outcomes:
/// 1000 at zero, multiplied by 905/1000 (rounding down) per outcome.
pub open spec fn decay(n: nat) -> nat
    decreases n,
{
    if n == 0 {
        1000
    } else {
        decay((n - 1) as nat) * 905 / 1000
    }
}

/// The decaying term never exceeds 1000, and from the first outcome on never
/// exceeds 905.
pub proof fn lemma_decay_bounds(n: nat)
    ensures
        decay(n) <= 1000,
        n >= 1 ==> decay(n) <= 905,
    decreases n,
{
    if n > 0 {
        lemma_decay_bounds((n - 1) as nat);
        assert(decay((n - 1) as nat) * 905 <= 905000) by (nonlinear_arith)
            requires
                decay((n - 1) as nat) <= 1000,
        ;
        lemma_div_is_ordered((decay((n - 1) as nat) * 905) as int, 905000int, 1000int);
    }
}

/// Once the decaying term reaches zero it stays zero.
pub proof fn lemma_decay_zero_stays(i: nat, n: nat)
    requires
        decay(i) == 0,
        i <= n,
    ensures
        decay(n) == 0,
    decreases n - i,
{
    if i < n {
        lemma_decay_zero_stays(i, (n - 1) as nat);
    }
}

/// Confidence after `n` outcomes, in thousandths: the logistic
/// 1 / (1 + decay), always in `[500, 1000]`, and above 500 from the first
/// outcome on.
pub fn confidence_milli(n: u64) -> (r: u64)
    ensures
        r as int == 1000000int / (1000int + decay(n as nat) as int),
        500 <= r <= 1000,
        n >= 1 ==> r > 500,
{
    let mut e: u64 = 1000;
    let mut i: u64 = 0;
    while i < n && e > 0
        invariant
            i <= n,
            e as nat == decay(i as nat),
            e <= 1000,
        decreases n - i,
    {
        e = e * 905 / 1000;
        i = i + 1;
    }
    proof {
        if i < n {
            lemma_decay_zero_stays(i as nat, n as nat);
        }
        lemma_decay_bounds(n as nat);
        lemma_div_is_ordered_by_denominator(1000000int, 1000int + decay(n as nat) as int, 2000int);
        lemma_div_is_ordered_by_denominator(1000000int, 1000int, 1000int + decay(n as nat) as int);
        if n >= 1 {
            lemma_div_is_ordered_by_denominator(
                1000000int,
                1000int + decay(n as nat) as int,
                1905int,
            );
        }
    }
    1000000 / (1000 + e)
}

} // verus!
