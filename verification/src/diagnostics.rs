//! Latency measurements: running statistics, batches that are merged into them, and mirrors of
//! statistics that a peer reported.

use vstd::prelude::*;

verus! {

/// A summary of the latencies recorded so far, in microseconds.
#[derive(Debug, Clone, Copy, PartialEq, Eq, Structural)]
pub struct LatencySnapshot {
    pub samples: u64,
    pub last_us: u64,
    pub avg_us: u64,
    pub min_us: u64,
    pub max_us: u64,
}

/// The contents of running statistics. A count of zero means that nothing was recorded, a
/// minimum of zero that there is none yet.
pub struct Totals {
    pub samples: u64,
    pub total_us: u64,
    pub last_us: u64,
    pub min_us: u64,
    pub max_us: u64,
}

/// Addition of 64-bit counters, which wrap around.
pub open spec fn wrapping_sum(a: u64, b: u64) -> u64 {
    ((a + b) % 0x1_0000_0000_0000_0000) as u64
}

/// The microseconds that a measurement counts as: at least one, at most what a counter holds.
pub open spec fn measured_us(elapsed_us: u128) -> u64 {
    if elapsed_us == 0 {
        1
    } else if elapsed_us > u64::MAX {
        u64::MAX
    } else {
        elapsed_us as u64
    }
}

/// The smaller of a minimum, which zero stands for the lack of, and a value.
pub open spec fn lowered(current: u64, value: u64) -> u64 {
    if current == 0 || value < current {
        value
    } else {
        current
    }
}

/// The larger of a maximum and a value.
pub open spec fn raised(current: u64, value: u64) -> u64 {
    if value > current {
        value
    } else {
        current
    }
}

impl Totals {
    /// Nothing recorded.
    pub open spec fn zero() -> Totals {
        Totals { samples: 0, total_us: 0, last_us: 0, min_us: 0, max_us: 0 }
    }

    /// One more measurement of `us` microseconds.
    pub open spec fn with(self, us: u64) -> Totals {
        Totals {
            samples: wrapping_sum(self.samples, 1),
            total_us: wrapping_sum(self.total_us, us),
            last_us: us,
            min_us: lowered(self.min_us, us),
            max_us: raised(self.max_us, us),
        }
    }

    /// All of `values` measured, one after the other.
    pub open spec fn with_all(self, values: Seq<u64>) -> Totals
        decreases values.len(),
    {
        if values.len() == 0 {
            self
        } else {
            self.with_all(values.drop_last()).with(values.last())
        }
    }

    /// The measurements of a batch added.
    pub open spec fn merged(self, batch: Totals) -> Totals {
        if batch.samples == 0 {
            self
        } else {
            Totals {
                samples: wrapping_sum(self.samples, batch.samples),
                total_us: wrapping_sum(self.total_us, batch.total_us),
                last_us: batch.last_us,
                min_us: lowered(self.min_us, batch.min_us),
                max_us: raised(self.max_us, batch.max_us),
            }
        }
    }

    /// The summary, once something was recorded.
    pub open spec fn summary(self) -> Option<LatencySnapshot> {
        if self.samples == 0 {
            None
        } else {
            Some(
                LatencySnapshot {
                    samples: self.samples,
                    last_us: self.last_us,
                    avg_us: self.total_us / self.samples,
                    min_us: self.min_us,
                    max_us: self.max_us,
                },
            )
        }
    }
}

/// The sum of measurements.
pub open spec fn sum(values: Seq<u64>) -> nat
    decreases values.len(),
{
    if values.len() == 0 {
        0
    } else {
        sum(values.drop_last()) + values.last() as nat
    }
}

proof fn lemma_batch_counts(values: Seq<u64>)
    requires
        values.len() <= u64::MAX,
    ensures
        Totals::zero().with_all(values).samples == values.len(),
    decreases values.len(),
{
    if values.len() > 0 {
        lemma_batch_counts(values.drop_last());
    }
}

proof fn lemma_wrapping_sum_associative(a: u64, b: u64, c: u64)
    ensures
        wrapping_sum(a, wrapping_sum(b, c)) == wrapping_sum(wrapping_sum(a, b), c),
{
    let m = 0x1_0000_0000_0000_0000int;
    let bc = b as int + c as int;
    let ab = a as int + b as int;
    assert((a + bc % m) % m == (ab % m + c) % m) by {
        if bc >= m {
            assert(bc % m == bc - m);
        } else {
            assert(bc % m == bc);
        }
        if ab >= m {
            assert(ab % m == ab - m);
        } else {
            assert(ab % m == ab);
        }
    }
}

proof fn lemma_merge_step(totals: Totals, batch: Totals, us: u64)
    requires
        us > 0,
        batch == Totals::zero() || (0 < batch.samples < u64::MAX && batch.min_us > 0),
    ensures
        totals.merged(batch.with(us)) == totals.merged(batch).with(us),
{
    lemma_wrapping_sum_associative(totals.samples, batch.samples, 1);
    lemma_wrapping_sum_associative(totals.total_us, batch.total_us, us);
}

/// Merging a batch gives what recording each of its measurements directly would have given.
pub proof fn law_batch_is_exact(totals: Totals, values: Seq<u64>)
    requires
        values.len() <= u64::MAX,
        forall|i: int| 0 <= i < values.len() ==> #[trigger] values[i] > 0,
    ensures
        totals.merged(Totals::zero().with_all(values)) == totals.with_all(values),
    decreases values.len(),
{
    if values.len() > 0 {
        let front = values.drop_last();
        assert forall|i: int| 0 <= i < front.len() implies #[trigger] front[i] > 0 by {
            assert(values[i] > 0);
        }
        law_batch_is_exact(totals, front);
        lemma_batch_counts(front);
        lemma_batch_counts(values);
        assert(values[values.len() - 1] > 0);
        if front.len() > 0 {
            lemma_min_positive(front);
        }
        lemma_merge_step(totals, Totals::zero().with_all(front), values.last());
    }
}

proof fn lemma_min_positive(values: Seq<u64>)
    requires
        values.len() > 0,
        forall|i: int| 0 <= i < values.len() ==> #[trigger] values[i] > 0,
    ensures
        Totals::zero().with_all(values).min_us > 0,
    decreases values.len(),
{
    let front = values.drop_last();
    assert(values[values.len() - 1] > 0);
    if front.len() > 0 {
        assert forall|i: int| 0 <= i < front.len() implies #[trigger] front[i] > 0 by {
            assert(values[i] > 0);
        }
        lemma_min_positive(front);
    } else {
        assert(Totals::zero().with_all(front) == Totals::zero());
    }
}

/// While the counters do not wrap around, the summary of measurements holds their number and
/// their mean, and the mean and the last one lie between the smallest and the largest.
pub proof fn law_summary_consistent(values: Seq<u64>)
    requires
        0 < values.len() <= u64::MAX,
        sum(values) <= u64::MAX,
        forall|i: int| 0 <= i < values.len() ==> #[trigger] values[i] > 0,
    ensures
        Totals::zero().with_all(values).summary() matches Some(s) && {
            &&& s.samples == values.len()
            &&& s.avg_us == sum(values) / values.len()
            &&& s.last_us == values.last()
            &&& 0 < s.min_us <= s.avg_us <= s.max_us
            &&& s.min_us <= s.last_us <= s.max_us
        },
{
    let t = Totals::zero().with_all(values);
    lemma_totals_bounds(values);
    lemma_batch_counts(values);
    lemma_min_positive(values);
    let n = values.len() as int;
    let total = sum(values) as int;
    let lo = t.min_us as int;
    let hi = t.max_us as int;
    assert(lo <= total / n <= hi) by (nonlinear_arith)
        requires
            n > 0,
            lo * n <= total,
            total <= hi * n,
    ;
}

/// The smallest and the largest of a summary are measurements, and every measurement lies between
/// them, whatever the counters do.
pub proof fn law_extremes_measured(values: Seq<u64>)
    requires
        0 < values.len(),
        forall|i: int| 0 <= i < values.len() ==> #[trigger] values[i] > 0,
    ensures
        ({
            let t = Totals::zero().with_all(values);
            &&& values.contains(t.min_us)
            &&& values.contains(t.max_us)
            &&& forall|i: int|
                0 <= i < values.len() ==> t.min_us <= #[trigger] values[i] <= t.max_us
        }),
    decreases values.len(),
{
    let t = Totals::zero().with_all(values);
    let front = values.drop_last();
    let before = Totals::zero().with_all(front);
    let last = values.len() - 1;
    assert(values[last] > 0);
    if front.len() == 0 {
        assert(before == Totals::zero());
    } else {
        assert forall|i: int| 0 <= i < front.len() implies #[trigger] front[i] > 0 by {
            assert(values[i] > 0);
        }
        law_extremes_measured(front);
        let low = choose|i: int| 0 <= i < front.len() && front[i] == before.min_us;
        let high = choose|i: int| 0 <= i < front.len() && front[i] == before.max_us;
        assert(values[low] == before.min_us && values[high] == before.max_us);
        assert forall|i: int| 0 <= i < values.len() implies t.min_us <= #[trigger] values[i]
            <= t.max_us by {
            if i < last {
                assert(front[i] == values[i]);
            }
        }
    }
}

proof fn lemma_totals_bounds(values: Seq<u64>)
    requires
        sum(values) <= u64::MAX,
        forall|i: int| 0 <= i < values.len() ==> #[trigger] values[i] > 0,
    ensures
        ({
            let t = Totals::zero().with_all(values);
            &&& t.total_us == sum(values)
            &&& t.min_us * values.len() <= sum(values) <= t.max_us * values.len()
            &&& values.len() > 0 ==> t.last_us == values.last() && t.min_us <= t.last_us
                <= t.max_us
        }),
    decreases values.len(),
{
    if values.len() > 0 {
        let front = values.drop_last();
        assert(values[values.len() - 1] > 0);
        assert forall|i: int| 0 <= i < front.len() implies #[trigger] front[i] > 0 by {
            assert(values[i] > 0);
        }
        lemma_totals_bounds(front);
        let before = Totals::zero().with_all(front);
        let t = Totals::zero().with_all(values);
        let n = front.len() as int;
        let last = values.last() as int;
        assert(t.min_us <= last && t.max_us >= last);
        if n > 0 {
            lemma_min_positive(front);
            assert(t.min_us <= before.min_us && t.max_us >= before.max_us);
        } else {
            assert(before == Totals::zero());
        }
        let (lo, hi) = (t.min_us as int, t.max_us as int);
        let (lo0, hi0) = (before.min_us as int, before.max_us as int);
        assert(lo * n <= lo0 * n || n == 0) by (nonlinear_arith)
            requires
                n == 0 || lo <= lo0,
                n >= 0,
        ;
        assert(hi0 * n <= hi * n || n == 0) by (nonlinear_arith)
            requires
                n == 0 || hi0 <= hi,
                n >= 0,
        ;
        assert(lo * (n + 1) == lo * n + lo && hi * (n + 1) == hi * n + hi) by (nonlinear_arith);
        if n == 0 {
            assert(lo * 0 == 0 && hi * 0 == 0);
            assert(sum(front) == 0);
        }
    }
}

// ---------------------------------------------------------------------------
// Statistics
// ---------------------------------------------------------------------------

/// The microseconds that a measurement counts as.
pub fn duration_us(elapsed_us: u128) -> (r: u64)
    ensures
        r == measured_us(elapsed_us),
        r > 0,
{
    if elapsed_us > u64::MAX as u128 {
        u64::MAX
    } else if elapsed_us == 0 {
        1
    } else {
        elapsed_us as u64
    }
}

/// Lower a minimum to a value; a minimum of zero stands for none.
pub fn update_min(slot: &mut u64, value: u64)
    ensures
        *final(slot) == lowered(*old(slot), value),
{
    if *slot == 0 || value < *slot {
        *slot = value;
    }
}

/// Raise a maximum to a value.
pub fn update_max(slot: &mut u64, value: u64)
    ensures
        *final(slot) == raised(*old(slot), value),
{
    if value > *slot {
        *slot = value;
    }
}

/// Running latency statistics.
pub struct LatencyStats {
    samples: u64,
    total_us: u64,
    last_us: u64,
    min_us: u64,
    max_us: u64,
}

impl View for LatencyStats {
    type V = Totals;

    closed spec fn view(&self) -> Totals {
        Totals {
            samples: self.samples,
            total_us: self.total_us,
            last_us: self.last_us,
            min_us: self.min_us,
            max_us: self.max_us,
        }
    }
}

impl Default for LatencyStats {
    fn default() -> (r: LatencyStats)
        ensures
            r@ == Totals::zero(),
    {
        LatencyStats { samples: 0, total_us: 0, last_us: 0, min_us: 0, max_us: 0 }
    }
}

impl LatencyStats {
    /// Record a measurement of `elapsed_us` microseconds.
    pub fn record(&mut self, elapsed_us: u128)
        ensures
            final(self)@ == old(self)@.with(measured_us(elapsed_us)),
    {
        let us = duration_us(elapsed_us);
        self.samples = self.samples.wrapping_add(1);
        self.total_us = self.total_us.wrapping_add(us);
        self.last_us = us;
        update_min(&mut self.min_us, us);
        update_max(&mut self.max_us, us);
    }

    /// Add the measurements of a batch, which is empty afterwards.
    pub fn record_batch(&mut self, batch: &mut LatencyBatch)
        ensures
            final(self)@ == old(self)@.merged(old(batch)@),
            final(batch)@ == Totals::zero(),
    {
        if batch.stats.samples != 0 {
            self.samples = self.samples.wrapping_add(batch.stats.samples);
            self.total_us = self.total_us.wrapping_add(batch.stats.total_us);
            self.last_us = batch.stats.last_us;
            update_min(&mut self.min_us, batch.stats.min_us);
            update_max(&mut self.max_us, batch.stats.max_us);
        }
        batch.stats.reset();
    }

    /// The summary of what was recorded, if anything was.
    pub fn snapshot(&self) -> (r: Option<LatencySnapshot>)
        ensures
            r == self@.summary(),
    {
        if self.samples == 0 {
            return None;
        }
        Some(
            LatencySnapshot {
                samples: self.samples,
                last_us: self.last_us,
                avg_us: self.total_us / self.samples,
                min_us: self.min_us,
                max_us: self.max_us,
            },
        )
    }

    pub fn reset(&mut self)
        ensures
            final(self)@ == Totals::zero(),
    {
        self.samples = 0;
        self.total_us = 0;
        self.last_us = 0;
        self.min_us = 0;
        self.max_us = 0;
    }
}

/// Measurements collected on a packet path, to be merged into shared statistics now and then.
pub struct LatencyBatch {
    stats: LatencyStats,
}

impl View for LatencyBatch {
    type V = Totals;

    closed spec fn view(&self) -> Totals {
        self.stats@
    }
}

impl Default for LatencyBatch {
    fn default() -> (r: LatencyBatch)
        ensures
            r@ == Totals::zero(),
    {
        LatencyBatch { stats: LatencyStats::default() }
    }
}

impl LatencyBatch {
    /// Record a measurement of `elapsed_us` microseconds.
    pub fn record(&mut self, elapsed_us: u128)
        ensures
            final(self)@ == old(self)@.with(measured_us(elapsed_us)),
    {
        self.stats.record(elapsed_us);
    }
}

/// The latest summary that a peer reported.
pub struct LatencyMirror {
    samples: u64,
    last_us: u64,
    avg_us: u64,
    min_us: u64,
    max_us: u64,
}

impl View for LatencyMirror {
    type V = LatencySnapshot;

    closed spec fn view(&self) -> LatencySnapshot {
        LatencySnapshot {
            samples: self.samples,
            last_us: self.last_us,
            avg_us: self.avg_us,
            min_us: self.min_us,
            max_us: self.max_us,
        }
    }
}

/// A mirror of nothing.
pub open spec fn no_report() -> LatencySnapshot {
    LatencySnapshot { samples: 0, last_us: 0, avg_us: 0, min_us: 0, max_us: 0 }
}

impl Default for LatencyMirror {
    fn default() -> (r: LatencyMirror)
        ensures
            r@ == no_report(),
    {
        LatencyMirror { samples: 0, last_us: 0, avg_us: 0, min_us: 0, max_us: 0 }
    }
}

impl LatencyMirror {
    /// Keep a summary, or forget the one that was kept.
    pub fn store(&mut self, snapshot: Option<LatencySnapshot>)
        ensures
            final(self)@ == (match snapshot {
                Some(s) => s,
                None => no_report(),
            }),
    {
        match snapshot {
            None => self.reset(),
            Some(snapshot) => {
                self.samples = snapshot.samples;
                self.last_us = snapshot.last_us;
                self.avg_us = snapshot.avg_us;
                self.min_us = snapshot.min_us;
                self.max_us = snapshot.max_us;
            },
        }
    }

    /// The summary that is kept, if it counts any measurement.
    pub fn snapshot(&self) -> (r: Option<LatencySnapshot>)
        ensures
            r == (if self@.samples == 0 {
                None
            } else {
                Some(self@)
            }),
    {
        if self.samples == 0 {
            return None;
        }
        Some(
            LatencySnapshot {
                samples: self.samples,
                last_us: self.last_us,
                avg_us: self.avg_us,
                min_us: self.min_us,
                max_us: self.max_us,
            },
        )
    }

    pub fn reset(&mut self)
        ensures
            final(self)@ == no_report(),
    {
        self.samples = 0;
        self.last_us = 0;
        self.avg_us = 0;
        self.min_us = 0;
        self.max_us = 0;
    }
}

/// What a client knows about the latencies of a plaintext UDP tunnel.
pub struct PlainUdpDiagnostics {
    pub rtt: LatencyStats,
    pub client_server_to_local: LatencyStats,
    pub client_local_to_server: LatencyStats,
    pub server_public_to_client: LatencyMirror,
    pub server_client_to_public: LatencyMirror,
}

/// The contents of a client's diagnostics.
pub struct DiagnosticsView {
    pub rtt: Totals,
    pub client_server_to_local: Totals,
    pub client_local_to_server: Totals,
    pub server_public_to_client: LatencySnapshot,
    pub server_client_to_public: LatencySnapshot,
}

impl DiagnosticsView {
    /// Nothing measured or reported.
    pub open spec fn zero() -> DiagnosticsView {
        DiagnosticsView {
            rtt: Totals::zero(),
            client_server_to_local: Totals::zero(),
            client_local_to_server: Totals::zero(),
            server_public_to_client: no_report(),
            server_client_to_public: no_report(),
        }
    }
}

impl View for PlainUdpDiagnostics {
    type V = DiagnosticsView;

    open spec fn view(&self) -> DiagnosticsView {
        DiagnosticsView {
            rtt: self.rtt@,
            client_server_to_local: self.client_server_to_local@,
            client_local_to_server: self.client_local_to_server@,
            server_public_to_client: self.server_public_to_client@,
            server_client_to_public: self.server_client_to_public@,
        }
    }
}

impl PlainUdpDiagnostics {
    pub fn reset(&mut self)
        ensures
            final(self)@ == DiagnosticsView::zero(),
    {
        self.rtt.reset();
        self.client_server_to_local.reset();
        self.client_local_to_server.reset();
        self.server_public_to_client.reset();
        self.server_client_to_public.reset();
    }
}

impl Default for PlainUdpDiagnostics {
    fn default() -> (r: PlainUdpDiagnostics)
        ensures
            r@ == DiagnosticsView::zero(),
    {
        PlainUdpDiagnostics {
            rtt: LatencyStats::default(),
            client_server_to_local: LatencyStats::default(),
            client_local_to_server: LatencyStats::default(),
            server_public_to_client: LatencyMirror::default(),
            server_client_to_public: LatencyMirror::default(),
        }
    }
}

/// A measurement counts as the microseconds that it took, but never as none: at least one, and at
/// most what a counter holds. Longer ones never count as less.
pub proof fn law_measurement_counts(elapsed_us: u128, longer: u128)
    requires
        elapsed_us <= longer,
    ensures
        1 <= elapsed_us <= u64::MAX ==> measured_us(elapsed_us) == elapsed_us,
        measured_us(elapsed_us) >= 1,
        measured_us(elapsed_us) <= measured_us(longer),
        elapsed_us > u64::MAX ==> measured_us(elapsed_us) == u64::MAX,
        Totals::zero().summary() is None,
        Totals::zero().with(measured_us(elapsed_us)).summary() matches Some(s) && {
            &&& s.samples == 1
            &&& s.last_us == measured_us(elapsed_us)
            &&& s.avg_us == measured_us(elapsed_us)
            &&& s.min_us == measured_us(elapsed_us)
            &&& s.max_us == measured_us(elapsed_us)
        },
{
    let us = measured_us(elapsed_us);
    let t = Totals::zero().with(us);
    assert(t.samples == 1 && t.total_us == us);
    assert(us / 1 == us);
}

}
