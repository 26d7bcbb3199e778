//! The interval aggregator: folds the raw readings of one sampling interval
//! into one summary record.
//!
//! Processor load is counted in hundredths of a percent, so that a record
//! holds whole numbers only; `4250` stands for 42.5 %.

use crate::stats::{highest, lemma_aggregates_ignore_order, lemma_extremes, lemma_mean,
    lemma_readings_of_permutation, lemma_total_bounds, lowest, mean, total};
use vstd::prelude::*;

verus! {

/// One raw reading of the host.
#[derive(Clone, Copy, Debug, PartialEq, Eq, Structural)]
pub struct RawSample {
    /// Processor load, in hundredths of a percent.
    pub cpu: u32,
    /// Memory in use, in bytes.
    pub mem: u64,
    /// Bytes received on all interfaces since the counters began.
    pub net_rx: u64,
    /// Bytes sent on all interfaces since the counters began.
    pub net_tx: u64,
}

/// The summary of one interval, as it is handed to the output sink.
#[derive(Clone, Debug, PartialEq, Eq)]
pub struct SummaryRecord {
    pub host_identity: String,
    pub component_tag: String,
    /// Seconds since the epoch at the start of the interval.
    pub timestamp: u64,
    /// Uptime of the host at the start of the interval, in seconds.
    pub uptime_seconds: u64,
    pub cpu_avg: u32,
    pub cpu_min: u32,
    pub cpu_max: u32,
    pub mem_avg: u64,
    pub mem_min: u64,
    pub mem_max: u64,
    pub net_rx_delta: u64,
    pub net_tx_delta: u64,
    pub sample_count: u64,
}

/// A summary record as a mathematical value.
pub struct SummaryView {
    pub host_identity: Seq<char>,
    pub component_tag: Seq<char>,
    pub timestamp: nat,
    pub uptime_seconds: nat,
    pub cpu_avg: nat,
    pub cpu_min: nat,
    pub cpu_max: nat,
    pub mem_avg: nat,
    pub mem_min: nat,
    pub mem_max: nat,
    pub net_rx_delta: nat,
    pub net_tx_delta: nat,
    pub sample_count: nat,
}

impl View for SummaryRecord {
    type V = SummaryView;

    open spec fn view(&self) -> SummaryView {
        SummaryView {
            host_identity: self.host_identity@,
            component_tag: self.component_tag@,
            timestamp: self.timestamp as nat,
            uptime_seconds: self.uptime_seconds as nat,
            cpu_avg: self.cpu_avg as nat,
            cpu_min: self.cpu_min as nat,
            cpu_max: self.cpu_max as nat,
            mem_avg: self.mem_avg as nat,
            mem_min: self.mem_min as nat,
            mem_max: self.mem_max as nat,
            net_rx_delta: self.net_rx_delta as nat,
            net_tx_delta: self.net_tx_delta as nat,
            sample_count: self.sample_count as nat,
        }
    }
}

/// An open interval as a mathematical value: its header, and the readings
/// folded in since it was last emptied, oldest first.
pub struct IntervalView {
    pub host_identity: Seq<char>,
    pub component_tag: Seq<char>,
    pub timestamp: nat,
    pub uptime_seconds: nat,
    pub samples: Seq<RawSample>,
}

impl IntervalView {
    /// The interval with `timestamp` and `uptime_seconds` as the time and
    /// the uptime of its start.
    pub open spec fn begun(self, timestamp: u64, uptime_seconds: u64) -> IntervalView {
        IntervalView {
            timestamp: timestamp as nat,
            uptime_seconds: uptime_seconds as nat,
            ..self
        }
    }

    /// The interval with one more reading folded in.
    pub open spec fn updated(self, sample: RawSample) -> IntervalView {
        IntervalView { samples: self.samples.push(sample), ..self }
    }

    /// The interval emptied: host and producer stay, everything else is as
    /// in a new record.
    pub open spec fn emptied(self) -> IntervalView {
        IntervalView { timestamp: 0, uptime_seconds: 0, samples: Seq::empty(), ..self }
    }

    /// The interval with each of `samples` folded in, in their order.
    pub open spec fn fed(self, samples: Seq<RawSample>) -> IntervalView
        decreases samples.len(),
    {
        if samples.len() == 0 {
            self
        } else {
            self.fed(samples.drop_last()).updated(samples.last())
        }
    }
}

/// The processor readings of the samples, in their order.
pub open spec fn cpu_readings(samples: Seq<RawSample>) -> Seq<nat> {
    Seq::new(samples.len(), |i: int| samples[i].cpu as nat)
}

/// The memory readings of the samples, in their order.
pub open spec fn mem_readings(samples: Seq<RawSample>) -> Seq<nat> {
    Seq::new(samples.len(), |i: int| samples[i].mem as nat)
}

/// How far a cumulative counter moved from `first` to `last`; zero where it
/// fell back, as it does when the counter starts anew.
pub open spec fn clamped_delta(first: u64, last: u64) -> nat {
    if last >= first {
        (last - first) as nat
    } else {
        0
    }
}

/// The summary of an interval that holds at least one reading.
pub open spec fn summary_of(interval: IntervalView) -> SummaryView {
    let samples = interval.samples;
    SummaryView {
        host_identity: interval.host_identity,
        component_tag: interval.component_tag,
        timestamp: interval.timestamp,
        uptime_seconds: interval.uptime_seconds,
        cpu_avg: mean(cpu_readings(samples)),
        cpu_min: lowest(cpu_readings(samples)),
        cpu_max: highest(cpu_readings(samples)),
        mem_avg: mean(mem_readings(samples)),
        mem_min: lowest(mem_readings(samples)),
        mem_max: highest(mem_readings(samples)),
        net_rx_delta: clamped_delta(samples.first().net_rx, samples.last().net_rx),
        net_tx_delta: clamped_delta(samples.first().net_tx, samples.last().net_tx),
        sample_count: samples.len(),
    }
}

/// How far a cumulative counter moved from `first` to `last`, never
/// negative.
pub fn counter_delta(first: u64, last: u64) -> (delta: u64)
    ensures
        delta == clamped_delta(first, last),
        last < first ==> delta == 0,
        last >= first ==> delta == last - first,
{
    if last >= first {
        last - first
    } else {
        0
    }
}

/// The open record of the current interval. It is owned by the sampling
/// loop alone, which hands it on by exclusive reference.
pub struct Accumulator {
    host_identity: String,
    component_tag: String,
    timestamp: u64,
    uptime_seconds: u64,
    sample_count: u64,
    cpu_sum: u128,
    cpu_min: u32,
    cpu_max: u32,
    mem_sum: u128,
    mem_min: u64,
    mem_max: u64,
    net_rx_first: u64,
    net_rx_last: u64,
    net_tx_first: u64,
    net_tx_last: u64,
    samples: Ghost<Seq<RawSample>>,
}

impl View for Accumulator {
    type V = IntervalView;

    closed spec fn view(&self) -> IntervalView {
        IntervalView {
            host_identity: self.host_identity@,
            component_tag: self.component_tag@,
            timestamp: self.timestamp as nat,
            uptime_seconds: self.uptime_seconds as nat,
            samples: self.samples@,
        }
    }
}

impl Accumulator {
    /// The running sums, extremes and counters are those of the readings
    /// folded in so far.
    pub closed spec fn wf(&self) -> bool {
        let samples = self.samples@;
        &&& self.sample_count == samples.len()
        &&& self.cpu_sum == total(cpu_readings(samples))
        &&& self.cpu_min == lowest(cpu_readings(samples))
        &&& self.cpu_max == highest(cpu_readings(samples))
        &&& self.mem_sum == total(mem_readings(samples))
        &&& self.mem_min == lowest(mem_readings(samples))
        &&& self.mem_max == highest(mem_readings(samples))
        &&& samples.len() > 0 ==> {
            &&& self.net_rx_first == samples.first().net_rx
            &&& self.net_rx_last == samples.last().net_rx
            &&& self.net_tx_first == samples.first().net_tx
            &&& self.net_tx_last == samples.last().net_tx
        }
    }

    /// An empty record for the given host and producer.
    pub fn new(host_identity: String, component_tag: String) -> (acc: Accumulator)
        ensures
            acc.wf(),
            acc@ == (IntervalView {
                host_identity: host_identity@,
                component_tag: component_tag@,
                timestamp: 0,
                uptime_seconds: 0,
                samples: Seq::empty(),
            }),
    {
        Accumulator {
            host_identity,
            component_tag,
            timestamp: 0,
            uptime_seconds: 0,
            sample_count: 0,
            cpu_sum: 0,
            cpu_min: 0,
            cpu_max: 0,
            mem_sum: 0,
            mem_min: 0,
            mem_max: 0,
            net_rx_first: 0,
            net_rx_last: 0,
            net_tx_first: 0,
            net_tx_last: 0,
            samples: Ghost(Seq::empty()),
        }
    }

    /// Sets the wall-clock time and the host's uptime of the interval's
    /// start.
    pub fn begin(&mut self, timestamp: u64, uptime_seconds: u64)
        requires
            old(self).wf(),
        ensures
            final(self).wf(),
            final(self)@ == old(self)@.begun(timestamp, uptime_seconds),
    {
        self.timestamp = timestamp;
        self.uptime_seconds = uptime_seconds;
    }

    /// The number of readings folded in since the record was last emptied.
    pub fn sample_count(&self) -> (count: u64)
        requires
            self.wf(),
        ensures
            count == self@.samples.len(),
    {
        self.sample_count
    }

    /// Folds one reading into the record.
    pub fn update(&mut self, sample: RawSample)
        requires
            old(self).wf(),
            old(self)@.samples.len() < u64::MAX,
        ensures
            final(self).wf(),
            final(self)@ == old(self)@.updated(sample),
    {
        let ghost before = self.samples@;
        let ghost after = before.push(sample);
        proof {
            lemma_total_bounds(cpu_readings(before), 0, u32::MAX as nat);
            lemma_total_bounds(mem_readings(before), 0, u64::MAX as nat);
            assert(before.len() * u32::MAX <= u64::MAX * u32::MAX && before.len() * u64::MAX
                <= u64::MAX * u64::MAX) by (nonlinear_arith)
                requires
                    before.len() <= u64::MAX,
            ;
            assert(cpu_readings(after).drop_last() =~= cpu_readings(before));
            assert(mem_readings(after).drop_last() =~= mem_readings(before));
            assert(cpu_readings(after).last() == sample.cpu);
            assert(mem_readings(after).last() == sample.mem);
        }
        if self.sample_count == 0 {
            self.cpu_min = sample.cpu;
            self.cpu_max = sample.cpu;
            self.mem_min = sample.mem;
            self.mem_max = sample.mem;
            self.net_rx_first = sample.net_rx;
            self.net_tx_first = sample.net_tx;
        } else {
            if sample.cpu < self.cpu_min {
                self.cpu_min = sample.cpu;
            }
            if sample.cpu > self.cpu_max {
                self.cpu_max = sample.cpu;
            }
            if sample.mem < self.mem_min {
                self.mem_min = sample.mem;
            }
            if sample.mem > self.mem_max {
                self.mem_max = sample.mem;
            }
        }
        self.cpu_sum = self.cpu_sum + sample.cpu as u128;
        self.mem_sum = self.mem_sum + sample.mem as u128;
        self.net_rx_last = sample.net_rx;
        self.net_tx_last = sample.net_tx;
        self.sample_count = self.sample_count + 1;
        self.samples = Ghost(after);
        proof {
            assert(after.first() == if before.len() == 0 {
                sample
            } else {
                before.first()
            });
        }
    }

    /// Closes the interval: the summary of the readings folded in, or none
    /// where there was no reading. The record itself stays as it is.
    pub fn finalize(&self) -> (record: Option<SummaryRecord>)
        requires
            self.wf(),
        ensures
            match record {
                Some(r) => self@.samples.len() > 0 && r@ == summary_of(self@),
                None => self@.samples.len() == 0,
            },
    {
        if self.sample_count == 0 {
            return None;
        }
        proof {
            let cpu = cpu_readings(self.samples@);
            let mem = mem_readings(self.samples@);
            lemma_mean(cpu);
            lemma_mean(mem);
            lemma_extremes(cpu);
            lemma_extremes(mem);
        }
        let count = self.sample_count as u128;
        Some(
            SummaryRecord {
                host_identity: self.host_identity.clone(),
                component_tag: self.component_tag.clone(),
                timestamp: self.timestamp,
                uptime_seconds: self.uptime_seconds,
                cpu_avg: (self.cpu_sum / count) as u32,
                cpu_min: self.cpu_min,
                cpu_max: self.cpu_max,
                mem_avg: (self.mem_sum / count) as u64,
                mem_min: self.mem_min,
                mem_max: self.mem_max,
                net_rx_delta: counter_delta(self.net_rx_first, self.net_rx_last),
                net_tx_delta: counter_delta(self.net_tx_first, self.net_tx_last),
                sample_count: self.sample_count,
            },
        )
    }

    /// Empties the record for the next interval: host and producer stay,
    /// everything else is as in a new record.
    pub fn reset(&mut self)
        ensures
            final(self).wf(),
            final(self)@ == old(self)@.emptied(),
    {
        self.timestamp = 0;
        self.uptime_seconds = 0;
        self.sample_count = 0;
        self.cpu_sum = 0;
        self.cpu_min = 0;
        self.cpu_max = 0;
        self.mem_sum = 0;
        self.mem_min = 0;
        self.mem_max = 0;
        self.net_rx_first = 0;
        self.net_rx_last = 0;
        self.net_tx_first = 0;
        self.net_tx_last = 0;
        self.samples = Ghost(Seq::empty());
    }
}

/// The aggregates of processor load and memory do not depend on the order
/// in which the readings came in: two intervals that hold the same samples,
/// each as often as the other, have the same count, means and extremes.
pub proof fn lemma_summary_ignores_order(a: IntervalView, b: IntervalView)
    requires
        a.samples.to_multiset() == b.samples.to_multiset(),
    ensures
        summary_of(a).sample_count == summary_of(b).sample_count,
        summary_of(a).cpu_avg == summary_of(b).cpu_avg,
        summary_of(a).cpu_min == summary_of(b).cpu_min,
        summary_of(a).cpu_max == summary_of(b).cpu_max,
        summary_of(a).mem_avg == summary_of(b).mem_avg,
        summary_of(a).mem_min == summary_of(b).mem_min,
        summary_of(a).mem_max == summary_of(b).mem_max,
{
    let cpu = |r: RawSample| r.cpu as nat;
    let mem = |r: RawSample| r.mem as nat;
    assert(cpu_readings(a.samples) =~= a.samples.map_values(cpu));
    assert(cpu_readings(b.samples) =~= b.samples.map_values(cpu));
    assert(mem_readings(a.samples) =~= a.samples.map_values(mem));
    assert(mem_readings(b.samples) =~= b.samples.map_values(mem));
    lemma_readings_of_permutation(a.samples, b.samples, cpu);
    lemma_readings_of_permutation(a.samples, b.samples, mem);
    lemma_aggregates_ignore_order(cpu_readings(a.samples), cpu_readings(b.samples));
    lemma_aggregates_ignore_order(mem_readings(a.samples), mem_readings(b.samples));
}

/// What a summary says of the processor load of its interval: the mean is
/// the sum of the readings divided by their number, rounded down; the
/// minimum and the maximum are readings, and no reading lies outside them.
pub proof fn lemma_summary_of_load(interval: IntervalView)
    requires
        interval.samples.len() > 0,
    ensures
        ({
            let readings = cpu_readings(interval.samples);
            let summary = summary_of(interval);
            &&& summary.sample_count == readings.len()
            &&& summary.cpu_avg * readings.len() <= total(readings) < (summary.cpu_avg + 1)
                * readings.len()
            &&& summary.cpu_min <= summary.cpu_avg <= summary.cpu_max
            &&& exists|i: int| 0 <= i < readings.len() && readings[i] == summary.cpu_min
            &&& exists|i: int| 0 <= i < readings.len() && readings[i] == summary.cpu_max
            &&& forall|i: int|
                0 <= i < readings.len() ==> summary.cpu_min <= #[trigger] readings[i]
                    <= summary.cpu_max
        }),
{
    lemma_mean(cpu_readings(interval.samples));
    lemma_extremes(cpu_readings(interval.samples));
}

/// What a summary says of the memory in use during its interval: as of
/// the processor load, the mean is the sum of the readings divided by their
/// number, rounded down, and the minimum and the maximum are the least and
/// the greatest reading.
pub proof fn lemma_summary_of_memory(interval: IntervalView)
    requires
        interval.samples.len() > 0,
    ensures
        ({
            let readings = mem_readings(interval.samples);
            let summary = summary_of(interval);
            &&& summary.mem_avg * readings.len() <= total(readings) < (summary.mem_avg + 1)
                * readings.len()
            &&& summary.mem_min <= summary.mem_avg <= summary.mem_max
            &&& exists|i: int| 0 <= i < readings.len() && readings[i] == summary.mem_min
            &&& exists|i: int| 0 <= i < readings.len() && readings[i] == summary.mem_max
            &&& forall|i: int|
                0 <= i < readings.len() ==> summary.mem_min <= #[trigger] readings[i]
                    <= summary.mem_max
        }),
{
    lemma_mean(mem_readings(interval.samples));
    lemma_extremes(mem_readings(interval.samples));
}

/// The summary counts the updates since the record was last emptied: after
/// a reset and one update for each of `samples`, the record holds exactly
/// those readings, and its summary counts and aggregates exactly them.
pub proof fn lemma_summary_counts_updates(interval: IntervalView, samples: Seq<RawSample>)
    ensures
        interval.emptied().fed(samples).samples == samples,
        interval.emptied().fed(samples) == (IntervalView { samples: samples, ..interval.emptied() }),
        summary_of(interval.emptied().fed(samples)).sample_count == samples.len(),
    decreases samples.len(),
{
    if samples.len() == 0 {
        assert(interval.emptied().samples =~= samples);
    } else {
        lemma_summary_counts_updates(interval, samples.drop_last());
        assert(samples.drop_last().push(samples.last()) =~= samples);
    }
}

} // verus!
