//! The event loop as a transition function: from the loop's state and one
//! event to the next state and the action that the caller is to carry out.
//!
//! The caller owns the timer and the connection. It feeds every timer tick,
//! every inbound message and every end of the connection to [`ProbeLoop::step`],
//! one at a time, and does what the returned [`Action`] says.

use crate::pending::{is_stale, lookup, without_stale, PendingTable};
use crate::percentile::{percentile_of, summarize, Summary};
use crate::scheduler::{be_bytes, decode_id, decoded, following, ProbeScheduler};
use crate::window::{pushed, SampleWindow};
use vstd::prelude::*;

verus! {

/// The period between two probes where the caller sets no other: one second.
pub const DEFAULT_INTERVAL_NANOS: u64 = 1_000_000_000;

/// Why the loop ended.
#[derive(Clone, Copy, Debug, PartialEq, Eq, Structural)]
pub enum StopReason {
    /// The transport refused a probe.
    SendError,
    /// The remote side closed the connection in an orderly way.
    RemoteClose,
    /// The inbound stream yielded a transport error.
    TransportError,
    /// The inbound stream ended with no more messages.
    StreamExhausted,
}

/// The loop is running, or it has ended for a reason; once ended it stays so.
#[derive(Clone, Copy, Debug, PartialEq, Eq, Structural)]
pub enum LoopState {
    Running,
    Terminated(StopReason),
}

/// What the caller reports to the loop.
#[derive(Clone, Debug, PartialEq, Eq)]
pub enum Event {
    /// The probe timer fired at `now`.
    Tick { now: u64 },
    /// The transport refused the probe of the last tick.
    SendFailed,
    /// A probe acknowledgement arrived at `now`.
    Pong { payload: Vec<u8>, now: u64 },
    /// A message of any other kind arrived.
    Other,
    /// The remote side closed the connection.
    Close,
    /// The inbound stream yielded an error.
    TransportError,
    /// The inbound stream ended.
    StreamEnd,
    /// It is time to give up on the probes that at `now` are older than `max_age`.
    Sweep { now: u64, max_age: u64 },
}

/// What is reported for a reply that was matched to its probe.
#[derive(Clone, Copy, Debug, PartialEq, Eq)]
pub struct Report {
    /// The identifier that the reply echoed.
    pub id: u64,
    /// The round-trip time, in the clock's unit.
    pub rtt: u64,
    /// How many samples the window holds, this one included.
    pub samples: usize,
    /// The percentiles of the window, this sample included.
    pub summary: Summary,
}

/// What the caller is to do after a step.
#[derive(Clone, Debug, PartialEq, Eq)]
pub enum Action {
    /// Send a probe with this payload; report `SendFailed` if it cannot be sent.
    SendProbe { id: u64, payload: Vec<u8> },
    /// A reply was matched: report the sample and the percentiles.
    Report(Report),
    /// A reply echoed an identifier that is not outstanding: ignore it.
    Unmatched { id: u64 },
    /// A reply's payload, of `len` bytes, is too short for an identifier: ignore it.
    Malformed { len: usize },
    /// Nothing to do.
    Nothing,
    /// These probes timed out and were given up.
    TimedOut { ids: Vec<u64> },
    /// The loop ends now, for this reason.
    Stop(StopReason),
    /// The loop had already ended, for this reason; the event was not processed.
    Halted(StopReason),
}

/// The loop as contracts see it.
pub struct LoopView {
    pub state: LoopState,
    pub last_id: u64,
    pub pending: Map<u64, u64>,
    pub window: Seq<u64>,
    pub capacity: nat,
}

/// The round-trip time of a probe sent at `sent_at` whose reply arrived at
/// `now`; zero where the clock stepped back in between.
pub open spec fn elapsed(sent_at: u64, now: u64) -> u64 {
    if now >= sent_at {
        (now - sent_at) as u64
    } else {
        0
    }
}

/// The reason for which `event` ends a running loop, if it does.
pub open spec fn fatal(event: Event) -> Option<StopReason> {
    match event {
        Event::SendFailed => Some(StopReason::SendError),
        Event::Close => Some(StopReason::RemoteClose),
        Event::TransportError => Some(StopReason::TransportError),
        Event::StreamEnd => Some(StopReason::StreamExhausted),
        _ => None,
    }
}

/// The loop after `event`.
pub open spec fn next(pre: LoopView, event: Event) -> LoopView {
    if pre.state is Terminated {
        pre
    } else {
        match event {
            Event::Tick { now } => LoopView {
                last_id: following(pre.last_id),
                pending: pre.pending.insert(following(pre.last_id), now),
                ..pre
            },
            Event::Pong { payload, now } => match decoded(payload@) {
                Some(id) => match lookup(pre.pending, id) {
                    Some(sent_at) => LoopView {
                        pending: pre.pending.remove(id),
                        window: pushed(pre.window, pre.capacity, elapsed(sent_at, now)),
                        ..pre
                    },
                    None => pre,
                },
                None => pre,
            },
            Event::Sweep { now, max_age } => LoopView {
                pending: without_stale(pre.pending, now, max_age),
                ..pre
            },
            Event::Other => pre,
            _ => LoopView { state: LoopState::Terminated(fatal(event).unwrap()), ..pre },
        }
    }
}

/// `action` is what the loop owes the caller for `event` in state `pre`.
pub open spec fn answers(pre: LoopView, event: Event, action: Action) -> bool {
    match pre.state {
        LoopState::Terminated(reason) => action == Action::Halted(reason),
        LoopState::Running => match event {
            Event::Tick { now } => {
                &&& action matches Action::SendProbe { id, payload }
                &&& id == following(pre.last_id)
                &&& payload@ == be_bytes(id)
            },
            Event::Pong { payload, now } => match decoded(payload@) {
                Some(id) => match lookup(pre.pending, id) {
                    Some(sent_at) => {
                        let window = next(pre, event).window;
                        &&& action matches Action::Report(report)
                        &&& report.id == id
                        &&& report.rtt == elapsed(sent_at, now)
                        &&& report.samples == window.len()
                        &&& report.summary.p50 == percentile_of(window, 50)
                        &&& report.summary.p95 == percentile_of(window, 95)
                        &&& report.summary.p99 == percentile_of(window, 99)
                    },
                    None => action == (Action::Unmatched { id }),
                },
                None => {
                    &&& action matches Action::Malformed { len }
                    &&& len == payload@.len()
                },
            },
            Event::Sweep { now, max_age } => {
                &&& action matches Action::TimedOut { ids }
                &&& ids@.no_duplicates()
                &&& forall|id: u64|
                    ids@.contains(id) <==> pre.pending.contains_key(id) && is_stale(
                        pre.pending[id],
                        now,
                        max_age,
                    )
            },
            Event::Other => action == Action::Nothing,
            _ => action == Action::Stop(fatal(event).unwrap()),
        },
    }
}

/// The loop after `events`, taken in order.
pub open spec fn run(pre: LoopView, events: Seq<Event>) -> LoopView
    decreases events.len(),
{
    if events.len() == 0 {
        pre
    } else {
        next(run(pre, events.drop_last()), events.last())
    }
}

/// A loop that has ended stays as it is, whatever events follow.
pub proof fn lemma_terminated_is_absorbing(pre: LoopView, events: Seq<Event>)
    requires
        pre.state is Terminated,
    ensures
        run(pre, events) == pre,
    decreases events.len(),
{
    if events.len() > 0 {
        lemma_terminated_is_absorbing(pre, events.drop_last());
    }
}

/// A fatal event ends a running loop with its own reason and touches neither
/// the table nor the window, and no later event is processed.
pub proof fn lemma_fatal_ends_the_loop(pre: LoopView, event: Event, later: Seq<Event>)
    requires
        pre.state is Running,
        fatal(event) is Some,
    ensures
        next(pre, event) == (LoopView {
            state: LoopState::Terminated(fatal(event).unwrap()),
            ..pre
        }),
        run(next(pre, event), later) == next(pre, event),
{
    lemma_terminated_is_absorbing(next(pre, event), later);
}

/// No event takes the window over its capacity or changes that capacity.
pub proof fn lemma_step_keeps_bound(pre: LoopView, event: Event)
    requires
        pre.window.len() <= pre.capacity,
    ensures
        next(pre, event).window.len() <= pre.capacity,
        next(pre, event).capacity == pre.capacity,
{
}

/// Whatever the events, the window stays within its capacity.
pub proof fn lemma_run_keeps_bound(pre: LoopView, events: Seq<Event>)
    requires
        pre.window.len() <= pre.capacity,
    ensures
        run(pre, events).window.len() <= pre.capacity,
        run(pre, events).capacity == pre.capacity,
    decreases events.len(),
{
    if events.len() > 0 {
        lemma_run_keeps_bound(pre, events.drop_last());
        lemma_step_keeps_bound(run(pre, events.drop_last()), events.last());
    }
}

/// Only a matched reply changes the window, and it adds exactly one sample;
/// a reply that is malformed or unmatched changes nothing at all.
pub proof fn lemma_only_matched_replies_count(pre: LoopView, event: Event)
    requires
        pre.state is Running,
    ensures
        match event {
            Event::Pong { payload, now } => match decoded(payload@) {
                Some(id) => !pre.pending.contains_key(id) ==> next(pre, event) == pre,
                None => next(pre, event) == pre,
            },
            _ => next(pre, event).window == pre.window,
        },
{
}

/// The round-trip time of a reply that arrived at `now` to a probe sent at
/// `sent_at`.
pub fn round_trip(sent_at: u64, now: u64) -> (rtt: u64)
    ensures
        rtt == elapsed(sent_at, now),
{
    if now >= sent_at {
        now - sent_at
    } else {
        0
    }
}

/// The state that the event loop owns: the scheduler, the table of
/// outstanding probes and the sample window.
pub struct ProbeLoop {
    state: LoopState,
    scheduler: ProbeScheduler,
    pending: PendingTable,
    window: SampleWindow,
}

impl View for ProbeLoop {
    type V = LoopView;

    closed spec fn view(&self) -> LoopView {
        LoopView {
            state: self.state,
            last_id: self.scheduler.last_id(),
            pending: self.pending@,
            window: self.window@,
            capacity: self.window.spec_capacity(),
        }
    }
}

impl ProbeLoop {
    /// The table and the window are well formed.
    pub closed spec fn wf(&self) -> bool {
        &&& self.pending.wf()
        &&& self.window.wf()
    }

    /// What `wf` means for the view: the window is within its capacity.
    pub proof fn lemma_wf_bounds_window(&self)
        requires
            self.wf(),
        ensures
            self@.window.len() <= self@.capacity,
    {
    }

    /// A running loop with nothing outstanding and an empty window of
    /// `capacity` samples; its first probe will carry the identifier 1.
    pub fn new(capacity: usize) -> (probe_loop: ProbeLoop)
        ensures
            probe_loop.wf(),
            probe_loop@ == (LoopView {
                state: LoopState::Running,
                last_id: 0,
                pending: Map::empty(),
                window: Seq::empty(),
                capacity: capacity as nat,
            }),
    {
        ProbeLoop {
            state: LoopState::Running,
            scheduler: ProbeScheduler::new(),
            pending: PendingTable::new(),
            window: SampleWindow::with_capacity(capacity),
        }
    }

    /// Whether the loop is running, or why it ended.
    pub fn state(&self) -> (state: LoopState)
        ensures
            state == self@.state,
    {
        self.state
    }

    /// Whether the loop still processes events.
    pub fn is_running(&self) -> (running: bool)
        ensures
            running == (self@.state is Running),
    {
        match self.state {
            LoopState::Running => true,
            LoopState::Terminated(_) => false,
        }
    }

    /// How many probes are outstanding.
    pub fn pending_len(&self) -> (n: usize)
        ensures
            n == self@.pending.len(),
    {
        self.pending.len()
    }

    /// The samples of the window as they stand, oldest first.
    pub fn samples(&self) -> (copy: Vec<u64>)
        ensures
            copy@ == self@.window,
    {
        self.window.snapshot()
    }

    /// Processes one event to completion and returns what the caller is to
    /// do. A loop that has ended processes nothing.
    pub fn step(&mut self, event: Event) -> (action: Action)
        requires
            old(self).wf(),
        ensures
            final(self).wf(),
            final(self)@ == next(old(self)@, event),
            answers(old(self)@, event, action),
    {
        if let LoopState::Terminated(reason) = self.state {
            return Action::Halted(reason);
        }
        match event {
            Event::Tick { now } => {
                let probe = self.scheduler.tick(&mut self.pending, now);
                Action::SendProbe { id: probe.id, payload: probe.payload }
            },
            Event::Pong { payload, now } => {
                match decode_id(payload.as_slice()) {
                    Some(id) => match self.pending.resolve(id) {
                        Some(sent_at) => {
                            let rtt = round_trip(sent_at, now);
                            self.window.push(rtt);
                            let snapshot = self.window.snapshot();
                            let summary = summarize(&snapshot);
                            Action::Report(Report { id, rtt, samples: snapshot.len(), summary })
                        },
                        None => Action::Unmatched { id },
                    },
                    None => Action::Malformed { len: payload.len() },
                }
            },
            Event::Sweep { now, max_age } => {
                let ids = self.pending.expire(now, max_age);
                Action::TimedOut { ids }
            },
            Event::Other => Action::Nothing,
            Event::SendFailed => self.stop(StopReason::SendError),
            Event::Close => self.stop(StopReason::RemoteClose),
            Event::TransportError => self.stop(StopReason::TransportError),
            Event::StreamEnd => self.stop(StopReason::StreamExhausted),
        }
    }

    /// Ends the loop for `reason`.
    fn stop(&mut self, reason: StopReason) -> (action: Action)
        requires
            old(self).wf(),
        ensures
            final(self).wf(),
            final(self)@ == (LoopView { state: LoopState::Terminated(reason), ..old(self)@ }),
            action == Action::Stop(reason),
    {
        self.state = LoopState::Terminated(reason);
        Action::Stop(reason)
    }
}

} // verus!
