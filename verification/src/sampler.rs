//! The sampling loop as a state machine. The loop itself reads clocks,
//! queries the host, sleeps and writes; what it does next is decided here:
//! the caller carries out the pending action and reports the outcome as an
//! event.

use crate::summary::{summary_of, Accumulator, IntervalView, RawSample, SummaryRecord,
    SummaryView};
use vstd::prelude::*;

verus! {

/// Where the loop stands within an interval.
#[derive(Clone, Copy, Debug, PartialEq, Eq, Structural)]
pub enum Phase {
    /// Between intervals: the next interval has not begun.
    Idle,
    /// Within an interval: readings are still owed.
    Sampling,
    /// The interval's readings are complete and its record awaits delivery.
    Emitting,
    /// The record is delivered; the stop marker is to be consulted.
    Watching,
    /// The loop has ended.
    Stopped,
}

/// What the caller reports back.
#[derive(Clone, Copy, Debug, PartialEq, Eq, Structural)]
pub enum Event {
    /// The wall-clock time and the host's uptime, read at an interval's
    /// start.
    Clock { timestamp: u64, uptime_seconds: u64 },
    /// One reading of the refreshed metric source.
    Sample(RawSample),
    /// The output sink took the record.
    Delivered,
    /// Whether the stop marker is there.
    StopMarker { present: bool },
}

/// What the caller is to do next.
#[derive(Clone, Debug, PartialEq, Eq)]
pub enum Action {
    /// Read the clock and the uptime, and report them.
    ReadClock,
    /// Refresh the metric source, report one reading, then wait a second.
    Sample,
    /// Hand this record to the output sink, and report the delivery.
    Emit(SummaryRecord),
    /// Look for the stop marker, and report.
    CheckStop,
    /// Leave the loop.
    Exit,
}

/// An action as a mathematical value.
pub enum ActionView {
    ReadClock,
    Sample,
    Emit(SummaryView),
    CheckStop,
    Exit,
}

impl View for Action {
    type V = ActionView;

    open spec fn view(&self) -> ActionView {
        match self {
            Action::ReadClock => ActionView::ReadClock,
            Action::Sample => ActionView::Sample,
            Action::Emit(record) => ActionView::Emit(record@),
            Action::CheckStop => ActionView::CheckStop,
            Action::Exit => ActionView::Exit,
        }
    }
}

/// Why a configuration is refused before the loop starts.
#[derive(Clone, Copy, Debug, PartialEq, Eq, Structural)]
pub enum ConfigError {
    /// An interval of no seconds: no reading would ever be folded in.
    ZeroInterval,
    /// A log type that is neither `file` nor `udp`.
    UnknownLogType,
}

/// The loop as a mathematical value.
pub struct LoopView {
    /// The number of readings per interval, one per second.
    pub interval: nat,
    pub phase: Phase,
    pub record: IntervalView,
}

impl LoopView {
    /// The open record holds as many readings as the phase allows: all of
    /// them while its record awaits delivery, not yet all while sampling,
    /// none otherwise.
    pub open spec fn valid(self) -> bool {
        &&& 1 <= self.interval <= u64::MAX
        &&& match self.phase {
            Phase::Sampling => self.record.samples.len() < self.interval,
            Phase::Emitting => self.record.samples.len() == self.interval,
            _ => self.record.samples.len() == 0,
        }
    }

    /// What the caller is to do in this state.
    pub open spec fn pending(self) -> ActionView {
        match self.phase {
            Phase::Idle => ActionView::ReadClock,
            Phase::Sampling => ActionView::Sample,
            Phase::Emitting => ActionView::Emit(summary_of(self.record)),
            Phase::Watching => ActionView::CheckStop,
            Phase::Stopped => ActionView::Exit,
        }
    }

    /// The state after `event`. An event that the phase does not await
    /// changes nothing.
    pub open spec fn after(self, event: Event) -> LoopView {
        match (self.phase, event) {
            (Phase::Idle, Event::Clock { timestamp, uptime_seconds }) => LoopView {
                phase: Phase::Sampling,
                record: self.record.begun(timestamp, uptime_seconds),
                ..self
            },
            (Phase::Sampling, Event::Sample(sample)) => LoopView {
                phase: if self.record.samples.len() + 1 == self.interval {
                    Phase::Emitting
                } else {
                    Phase::Sampling
                },
                record: self.record.updated(sample),
                ..self
            },
            (Phase::Emitting, Event::Delivered) => LoopView {
                phase: Phase::Watching,
                record: self.record.emptied(),
                ..self
            },
            (Phase::Watching, Event::StopMarker { present }) => LoopView {
                phase: if present {
                    Phase::Stopped
                } else {
                    Phase::Idle
                },
                ..self
            },
            _ => self,
        }
    }

    /// The state after one reading for each of `samples`, in their order.
    pub open spec fn fed(self, samples: Seq<RawSample>) -> LoopView
        decreases samples.len(),
    {
        if samples.len() == 0 {
            self
        } else {
            self.fed(samples.drop_last()).after(Event::Sample(samples.last()))
        }
    }
}

/// The sampling loop of one agent.
pub struct AgentLoop {
    interval: u64,
    phase: Phase,
    record: Accumulator,
}

impl View for AgentLoop {
    type V = LoopView;

    closed spec fn view(&self) -> LoopView {
        LoopView { interval: self.interval as nat, phase: self.phase, record: self.record@ }
    }
}

impl AgentLoop {
    pub closed spec fn wf(&self) -> bool {
        self.record.wf() && self@.valid()
    }

    /// A loop that has not begun its first interval. An interval of no
    /// seconds is refused.
    pub fn new(host_identity: String, component_tag: String, interval: u64) -> (made: Result<
        AgentLoop,
        ConfigError,
    >)
        ensures
            match made {
                Ok(agent) => interval >= 1 && agent.wf() && agent@ == (LoopView {
                    interval: interval as nat,
                    phase: Phase::Idle,
                    record: IntervalView {
                        host_identity: host_identity@,
                        component_tag: component_tag@,
                        timestamp: 0,
                        uptime_seconds: 0,
                        samples: Seq::empty(),
                    },
                }),
                Err(e) => interval == 0 && e == ConfigError::ZeroInterval,
            },
    {
        if interval == 0 {
            return Err(ConfigError::ZeroInterval);
        }
        Ok(
            AgentLoop {
                interval,
                phase: Phase::Idle,
                record: Accumulator::new(host_identity, component_tag),
            },
        )
    }

    pub fn phase(&self) -> (phase: Phase)
        ensures
            phase == self@.phase,
    {
        self.phase
    }

    /// What the caller is to do now.
    pub fn pending(&self) -> (action: Action)
        requires
            self.wf(),
        ensures
            action@ == self@.pending(),
    {
        match self.phase {
            Phase::Idle => Action::ReadClock,
            Phase::Sampling => Action::Sample,
            Phase::Emitting => match self.record.finalize() {
                Some(record) => Action::Emit(record),
                None => {
                    assert(false);
                    Action::Exit
                },
            },
            Phase::Watching => Action::CheckStop,
            Phase::Stopped => Action::Exit,
        }
    }

    /// Takes in what the caller reports and says what to do next.
    pub fn step(&mut self, event: Event) -> (action: Action)
        requires
            old(self).wf(),
        ensures
            final(self).wf(),
            final(self)@ == old(self)@.after(event),
            action@ == final(self)@.pending(),
    {
        match (self.phase, event) {
            (Phase::Idle, Event::Clock { timestamp, uptime_seconds }) => {
                self.record.begin(timestamp, uptime_seconds);
                self.phase = Phase::Sampling;
            },
            (Phase::Sampling, Event::Sample(sample)) => {
                self.record.update(sample);
                if self.record.sample_count() == self.interval {
                    self.phase = Phase::Emitting;
                }
            },
            (Phase::Emitting, Event::Delivered) => {
                self.record.reset();
                self.phase = Phase::Watching;
            },
            (Phase::Watching, Event::StopMarker { present }) => {
                if present {
                    self.phase = Phase::Stopped;
                } else {
                    self.phase = Phase::Idle;
                }
            },
            _ => {},
        }
        self.pending()
    }
}

/// While fewer readings than the interval asks for have come in, the loop
/// goes on sampling and holds exactly those readings.
pub proof fn lemma_fed_within_interval(start: LoopView, samples: Seq<RawSample>)
    requires
        start.valid(),
        start.phase == Phase::Sampling,
        start.record.samples.len() == 0,
        samples.len() < start.interval,
    ensures
        start.fed(samples) == (LoopView {
            record: IntervalView { samples: samples, ..start.record },
            ..start
        }),
    decreases samples.len(),
{
    if samples.len() == 0 {
        assert(start.record.samples =~= samples);
    } else {
        lemma_fed_within_interval(start, samples.drop_last());
        assert(samples.drop_last().push(samples.last()) =~= samples);
    }
}

/// One record per interval: from the start of an interval, the loop asks
/// for one reading after another, and with the last reading that the
/// interval asks for, and not before, it wants the summary of exactly those
/// readings delivered.
pub proof fn lemma_one_record_per_interval(start: LoopView, samples: Seq<RawSample>)
    requires
        start.valid(),
        start.phase == Phase::Sampling,
        start.record.samples.len() == 0,
        samples.len() == start.interval,
    ensures
        forall|k: int|
            0 <= k < samples.len() ==> (#[trigger] start.fed(samples.take(k))).pending()
                == ActionView::Sample,
        start.fed(samples).pending() == ActionView::Emit(
            summary_of(IntervalView { samples: samples, ..start.record }),
        ),
        start.fed(samples).valid(),
{
    assert forall|k: int| 0 <= k < samples.len() implies (#[trigger] start.fed(
        samples.take(k),
    )).pending() == ActionView::Sample by {
        lemma_fed_within_interval(start, samples.take(k));
    }
    lemma_fed_within_interval(start, samples.drop_last());
    assert(samples.drop_last().push(samples.last()) =~= samples);
}

} // verus!
