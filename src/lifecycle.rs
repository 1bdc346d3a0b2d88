use vstd::prelude::*;

use crate::config::SocketAddress;

verus! {

/// The operating-system signals that ask the service to stop.
#[derive(Clone, Copy, Debug, PartialEq, Eq, Structural)]
pub enum Signal {
    Interrupt,
    Terminate,
}

/// Turns any number of termination signals into one shutdown event.
/// It fires on the first signal and is spent from then on.
#[derive(Clone, Copy, Debug)]
pub struct SignalCoordinator {
    fired: bool,
}

impl SignalCoordinator {
    pub closed spec fn spent(&self) -> bool {
        self.fired
    }

    pub fn new() -> (r: SignalCoordinator)
        ensures
            !r.spent(),
    {
        SignalCoordinator { fired: false }
    }

    /// Records a signal; true exactly when it is the one that fires the event.
    pub fn notify(&mut self, signal: Signal) -> (first: bool)
        ensures
            first == !old(self).spent(),
            final(self).spent(),
    {
        let first = !self.fired;
        self.fired = true;
        first
    }

    pub fn is_spent(&self) -> (r: bool)
        ensures
            r == self.spent(),
    {
        self.fired
    }
}

#[derive(Clone, Copy, Debug, PartialEq, Eq, Structural)]
pub enum Phase {
    Initializing,
    Listening,
    Draining,
    Stopped,
}

/// What ended the listening phase.
#[derive(Clone, Copy, Debug, PartialEq, Eq, Structural)]
pub enum Trigger {
    /// The shutdown event fired.
    Shutdown,
    /// The serving loop ended on its own.
    ServeExited,
}

/// What the outside world reports to the driver.
#[derive(Clone, Copy, Debug, PartialEq, Eq, Structural)]
pub enum Event {
    /// The listener was bound.
    Bound,
    /// The listener could not be bound.
    BindFailed,
    /// The signal coordinator fired.
    ShutdownRequested,
    /// The serving loop returned.
    ServeExited,
    /// The in-flight requests have all been answered.
    DrainFinished,
}

/// What the driver asks the outside world to do.
#[derive(Clone, Copy, Debug, PartialEq, Eq, Structural)]
pub enum Action {
    /// Start serving on the bound listener.
    StartServing,
    /// Stop accepting connections and let the requests in flight finish.
    BeginDrain,
    /// The listener could not be bound to this address: exit with status 1.
    FailBind { address: SocketAddress },
    /// Exit the process with this status.
    Exit { code: u8 },
    /// Nothing to do.
    Ignore,
}

/// The server lifecycle: `Initializing`, `Listening`, `Draining`, `Stopped`.
#[derive(Clone, Copy, Debug)]
pub struct Driver {
    pub phase: Phase,
    pub trigger: Option<Trigger>,
    pub listen: SocketAddress,
}

/// Exit status after a drain: 0 when the shutdown event caused it, 1 otherwise.
pub open spec fn exit_code_of(trigger: Option<Trigger>) -> u8 {
    match trigger {
        Some(Trigger::Shutdown) => 0,
        _ => 1,
    }
}

/// The driver's transition on one event, and the action it asks for.
pub open spec fn next(d: Driver, e: Event) -> (Driver, Action) {
    match (d.phase, e) {
        (Phase::Initializing, Event::Bound) => (
            Driver { phase: Phase::Listening, ..d },
            Action::StartServing,
        ),
        (Phase::Initializing, Event::BindFailed) => (
            Driver { phase: Phase::Stopped, ..d },
            Action::FailBind { address: d.listen },
        ),
        (Phase::Initializing, Event::ShutdownRequested) => (
            Driver { phase: Phase::Stopped, trigger: Some(Trigger::Shutdown), ..d },
            Action::Exit { code: 0 },
        ),
        (Phase::Listening, Event::ShutdownRequested) => (
            Driver { phase: Phase::Draining, trigger: Some(Trigger::Shutdown), ..d },
            Action::BeginDrain,
        ),
        (Phase::Listening, Event::ServeExited) => (
            Driver { phase: Phase::Draining, trigger: Some(Trigger::ServeExited), ..d },
            Action::BeginDrain,
        ),
        (Phase::Draining, Event::ServeExited) => (
            Driver { phase: Phase::Stopped, ..d },
            Action::Exit { code: exit_code_of(d.trigger) },
        ),
        (Phase::Draining, Event::DrainFinished) => (
            Driver { phase: Phase::Stopped, ..d },
            Action::Exit { code: exit_code_of(d.trigger) },
        ),
        _ => (d, Action::Ignore),
    }
}

impl Driver {
    pub fn new(listen: SocketAddress) -> (r: Driver)
        ensures
            r.phase == Phase::Initializing,
            r.trigger is None,
            r.listen == listen,
    {
        Driver { phase: Phase::Initializing, trigger: None, listen }
    }

    /// Takes one event and says what to do about it.
    pub fn step(&mut self, event: Event) -> (a: Action)
        ensures
            (*final(self), a) == next(*old(self), event),
    {
        match (self.phase, event) {
            (Phase::Initializing, Event::Bound) => {
                self.phase = Phase::Listening;
                Action::StartServing
            },
            (Phase::Initializing, Event::BindFailed) => {
                self.phase = Phase::Stopped;
                Action::FailBind { address: self.listen }
            },
            (Phase::Initializing, Event::ShutdownRequested) => {
                self.phase = Phase::Stopped;
                self.trigger = Some(Trigger::Shutdown);
                Action::Exit { code: 0 }
            },
            (Phase::Listening, Event::ShutdownRequested) => {
                self.phase = Phase::Draining;
                self.trigger = Some(Trigger::Shutdown);
                Action::BeginDrain
            },
            (Phase::Listening, Event::ServeExited) => {
                self.phase = Phase::Draining;
                self.trigger = Some(Trigger::ServeExited);
                Action::BeginDrain
            },
            (Phase::Draining, Event::ServeExited) | (Phase::Draining, Event::DrainFinished) => {
                self.phase = Phase::Stopped;
                let code: u8 = match self.trigger {
                    Some(Trigger::Shutdown) => 0,
                    _ => 1,
                };
                Action::Exit { code }
            },
            _ => Action::Ignore,
        }
    }

    /// True while the driver lets the server take new connections.
    pub fn accepts_connections(&self) -> (r: bool)
        ensures
            r == (self.phase == Phase::Listening),
    {
        match self.phase {
            Phase::Listening => true,
            _ => false,
        }
    }
}

/// The driver after it has taken `events` in order.
pub open spec fn run(d: Driver, events: Seq<Event>) -> Driver
    decreases events.len(),
{
    if events.len() == 0 {
        d
    } else {
        run(next(d, events[0]).0, events.drop_first())
    }
}

/// How many times the driver asks to begin draining while it takes `events`.
pub open spec fn drain_count(d: Driver, events: Seq<Event>) -> nat
    decreases events.len(),
{
    if events.len() == 0 {
        0
    } else {
        (if next(d, events[0]).1 == Action::BeginDrain { 1nat } else { 0nat }) + drain_count(
            next(d, events[0]).0,
            events.drop_first(),
        )
    }
}

/// How many times the driver asks the process to end while it takes `events`.
pub open spec fn exit_count(d: Driver, events: Seq<Event>) -> nat
    decreases events.len(),
{
    if events.len() == 0 {
        0
    } else {
        (if next(d, events[0]).1 is Exit || next(d, events[0]).1 is FailBind {
            1nat
        } else {
            0nat
        }) + exit_count(next(d, events[0]).0, events.drop_first())
    }
}

pub open spec fn past_listening(p: Phase) -> bool {
    p == Phase::Draining || p == Phase::Stopped
}

/// Once the driver has begun to drain, no sequence of events makes it take
/// connections again: it stays draining or stopped.
pub proof fn lemma_no_accept_after_drain(d: Driver, events: Seq<Event>)
    requires
        past_listening(d.phase),
    ensures
        past_listening(run(d, events).phase),
    decreases events.len(),
{
    if events.len() > 0 {
        lemma_no_accept_after_drain(next(d, events[0]).0, events.drop_first());
    }
}

proof fn lemma_no_drain_after_listening(d: Driver, events: Seq<Event>)
    requires
        past_listening(d.phase),
    ensures
        drain_count(d, events) == 0,
    decreases events.len(),
{
    if events.len() > 0 {
        lemma_no_drain_after_listening(next(d, events[0]).0, events.drop_first());
    }
}

/// Whatever events arrive, and however many shutdown requests among them,
/// the driver moves from listening to draining at most once.
pub proof fn lemma_drain_at_most_once(d: Driver, events: Seq<Event>)
    ensures
        drain_count(d, events) <= 1,
    decreases events.len(),
{
    if events.len() > 0 {
        let n = next(d, events[0]);
        if n.1 == Action::BeginDrain {
            lemma_no_drain_after_listening(n.0, events.drop_first());
        } else {
            lemma_drain_at_most_once(n.0, events.drop_first());
        }
    }
}

/// A listening driver that receives a shutdown request, among any other
/// events, begins to drain exactly once.
pub proof fn lemma_shutdown_drains_once(d: Driver, events: Seq<Event>, k: int)
    requires
        d.phase == Phase::Listening,
        0 <= k < events.len(),
        events[k] == Event::ShutdownRequested,
    ensures
        drain_count(d, events) == 1,
    decreases events.len(),
{
    let n = next(d, events[0]);
    if n.1 == Action::BeginDrain {
        lemma_no_drain_after_listening(n.0, events.drop_first());
    } else {
        assert(n.0 == d);
        assert(k > 0);
        lemma_shutdown_drains_once(n.0, events.drop_first(), k - 1);
    }
}

/// The driver asks the process to end at most once, whatever events arrive.
pub proof fn lemma_exit_at_most_once(d: Driver, events: Seq<Event>)
    ensures
        exit_count(d, events) <= 1,
    decreases events.len(),
{
    if events.len() > 0 {
        let n = next(d, events[0]);
        if n.1 is Exit || n.1 is FailBind {
            lemma_stopped_stays_silent(n.0, events.drop_first());
        } else {
            lemma_exit_at_most_once(n.0, events.drop_first());
        }
    }
}

proof fn lemma_stopped_stays_silent(d: Driver, events: Seq<Event>)
    requires
        d.phase == Phase::Stopped,
    ensures
        exit_count(d, events) == 0,
    decreases events.len(),
{
    if events.len() > 0 {
        lemma_stopped_stays_silent(next(d, events[0]).0, events.drop_first());
    }
}

} // verus!
