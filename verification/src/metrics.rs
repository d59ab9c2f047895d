//! Telemetry: running counters over all evaluations. Averages and rates
//! are kept as exact integer totals; a reader divides. The ghost sample
//! history ties the totals to the individual recorded latencies.
use vstd::prelude::*;

verus! {

pub open spec fn sum_samples(s: Seq<u32>) -> int
    decreases s.len(),
{
    if s.len() == 0 {
        0
    } else {
        sum_samples(s.drop_last()) + s.last()
    }
}

pub open spec fn count_true(s: Seq<bool>) -> int
    decreases s.len(),
{
    if s.len() == 0 {
        0
    } else {
        count_true(s.drop_last()) + (if s.last() {
            1int
        } else {
            0int
        })
    }
}

/// The running counters, with the ghost history of recorded latencies
/// and failure flags behind them.
pub struct Telemetry {
    pub total_evaluations: u64,
    pub evaluated_count: u64,
    pub total_time_ms: u64,
    pub error_count: u64,
    pub cache_hits: u64,
    pub memory_usage_bytes: u64,
    pub samples: Ghost<Seq<u32>>,
    pub failures: Ghost<Seq<bool>>,
}

/// The counters are exactly the aggregates of the history; counting
/// stops at `u32::MAX` evaluations so that no total can overflow.
pub open spec fn tele_wf(t: Telemetry) -> bool {
    &&& t.evaluated_count == t.samples@.len()
    &&& t.samples@.len() == t.failures@.len()
    &&& t.total_time_ms == sum_samples(t.samples@)
    &&& t.error_count == count_true(t.failures@)
    &&& t.total_evaluations == t.cache_hits + t.evaluated_count
    &&& t.total_evaluations <= 0xffff_ffffu64
    &&& t.total_time_ms <= t.evaluated_count * 0xffff_ffff
    &&& t.error_count <= t.evaluated_count
}

/// A metrics snapshot, as integer totals: a reader derives the average
/// latency as `total_execution_time_ms / evaluated_count`, the error
/// rate as `error_count / evaluated_count`, and the cache hit rate as
/// `cache_hits / total_evaluations`.
#[derive(Debug)]
pub struct PerformanceMetrics {
    pub total_evaluations: u64,
    pub evaluated_count: u64,
    pub total_execution_time_ms: u64,
    pub error_count: u64,
    pub cache_hits: u64,
    pub memory_usage_bytes: u64,
}

/// The counters after one cache hit; counting stops at the cap.
pub open spec fn after_hit(t: Telemetry) -> Telemetry {
    if t.total_evaluations < 0xffff_ffffu64 {
        Telemetry {
            total_evaluations: (t.total_evaluations + 1) as u64,
            cache_hits: (t.cache_hits + 1) as u64,
            ..t
        }
    } else {
        t
    }
}

/// The counters after one computed evaluation; counting stops at the cap.
pub open spec fn after_eval(t: Telemetry, ms: u32, failed: bool) -> Telemetry {
    if t.total_evaluations < 0xffff_ffffu64 {
        Telemetry {
            total_evaluations: (t.total_evaluations + 1) as u64,
            evaluated_count: (t.evaluated_count + 1) as u64,
            total_time_ms: (t.total_time_ms + ms) as u64,
            error_count: (t.error_count + (if failed {
                1u64
            } else {
                0u64
            })) as u64,
            samples: Ghost(t.samples@ + seq![ms]),
            failures: Ghost(t.failures@ + seq![failed]),
            ..t
        }
    } else {
        t
    }
}

impl Default for PerformanceMetrics {
    /// A zeroed snapshot.
    fn default() -> (r: PerformanceMetrics)
        ensures
            r.total_evaluations == 0,
            r.evaluated_count == 0,
            r.total_execution_time_ms == 0,
            r.error_count == 0,
            r.cache_hits == 0,
            r.memory_usage_bytes == 0,
    {
        PerformanceMetrics {
            total_evaluations: 0,
            evaluated_count: 0,
            total_execution_time_ms: 0,
            error_count: 0,
            cache_hits: 0,
            memory_usage_bytes: 0,
        }
    }
}

impl Telemetry {
    pub fn zeroed() -> (t: Telemetry)
        ensures
            tele_wf(t),
            t.total_evaluations == 0,
            t.evaluated_count == 0,
            t.total_time_ms == 0,
            t.error_count == 0,
            t.cache_hits == 0,
            t.memory_usage_bytes == 0,
            t.samples@ =~= Seq::<u32>::empty(),
            t.failures@ =~= Seq::<bool>::empty(),
    {
        Telemetry {
            total_evaluations: 0,
            evaluated_count: 0,
            total_time_ms: 0,
            error_count: 0,
            cache_hits: 0,
            memory_usage_bytes: 0,
            samples: Ghost(Seq::empty()),
            failures: Ghost(Seq::empty()),
        }
    }

    /// One cache hit: it counts as an evaluation, with no latency sample.
    pub fn record_hit(&mut self)
        requires
            tele_wf(*old(self)),
        ensures
            tele_wf(*final(self)),
            *final(self) == after_hit(*old(self)),
    {
        if self.total_evaluations < 0xffff_ffff {
            self.total_evaluations = self.total_evaluations + 1;
            self.cache_hits = self.cache_hits + 1;
        }
    }

    /// One computed evaluation: its latency joins the history, and the
    /// totals move by exactly that sample.
    pub fn record_eval(&mut self, ms: u32, failed: bool)
        requires
            tele_wf(*old(self)),
        ensures
            tele_wf(*final(self)),
            *final(self) == after_eval(*old(self), ms, failed),
    {
        if self.total_evaluations < 0xffff_ffff {
            let ghost s_old = self.samples@;
            let ghost f_old = self.failures@;
            proof {
                let n = self.evaluated_count as int;
                assert((n + 1) * 0xffff_ffff == n * 0xffff_ffff + 0xffff_ffff) by (nonlinear_arith);
                assert((s_old + seq![ms]).drop_last() =~= s_old);
                assert((f_old + seq![failed]).drop_last() =~= f_old);
            }
            self.total_evaluations = self.total_evaluations + 1;
            self.evaluated_count = self.evaluated_count + 1;
            self.total_time_ms = self.total_time_ms + ms as u64;
            if failed {
                self.error_count = self.error_count + 1;
            }
            self.samples = Ghost(s_old + seq![ms]);
            self.failures = Ghost(f_old + seq![failed]);
        }
    }

    /// Refreshes the structural memory estimate.
    pub fn set_memory(&mut self, m: u64)
        requires
            tele_wf(*old(self)),
        ensures
            tele_wf(*final(self)),
            *final(self) == (Telemetry { memory_usage_bytes: m, ..*old(self) }),
    {
        self.memory_usage_bytes = m;
    }
}

/// The reported average is the arithmetic mean of the recorded
/// latencies: the time total is exactly their sum, and the evaluation
/// count exactly their number, cache hits contributing to neither. The
/// error total likewise counts exactly the failed samples.
pub proof fn lemma_average_is_mean(t: Telemetry)
    requires
        tele_wf(t),
    ensures
        t.total_time_ms == sum_samples(t.samples@),
        t.evaluated_count == t.samples@.len(),
        t.error_count == count_true(t.failures@),
{
}

} // verus!
