use service_lifecycle::config::SocketAddress;
use service_lifecycle::lifecycle::{Action, Driver, Event, Phase, Signal, SignalCoordinator, Trigger};

fn local(port: u16) -> SocketAddress {
    SocketAddress::V4 { a: 127, b: 0, c: 0, d: 1, port }
}

#[test]
fn coordinator_fires_once_for_two_signals() {
    let mut c = SignalCoordinator::new();
    assert!(!c.is_spent());
    assert!(c.notify(Signal::Interrupt));
    assert!(!c.notify(Signal::Terminate));
    assert!(!c.notify(Signal::Interrupt));
    assert!(c.is_spent());
}

#[test]
fn start_serve_and_stop_on_signal() {
    let mut d = Driver::new(local(0));
    assert_eq!(d.phase, Phase::Initializing);
    assert!(!d.accepts_connections());
    assert_eq!(d.step(Event::Bound), Action::StartServing);
    assert_eq!(d.phase, Phase::Listening);
    assert!(d.accepts_connections());
    assert_eq!(d.step(Event::ShutdownRequested), Action::BeginDrain);
    assert_eq!(d.phase, Phase::Draining);
    assert_eq!(d.trigger, Some(Trigger::Shutdown));
    assert!(!d.accepts_connections());
    assert_eq!(d.step(Event::DrainFinished), Action::Exit { code: 0 });
    assert_eq!(d.phase, Phase::Stopped);
}

#[test]
fn repeated_shutdown_drains_once() {
    let mut d = Driver::new(local(8080));
    d.step(Event::Bound);
    assert_eq!(d.step(Event::ShutdownRequested), Action::BeginDrain);
    assert_eq!(d.step(Event::ShutdownRequested), Action::Ignore);
    assert_eq!(d.phase, Phase::Draining);
    assert_eq!(d.step(Event::ServeExited), Action::Exit { code: 0 });
    assert_eq!(d.step(Event::ShutdownRequested), Action::Ignore);
    assert_eq!(d.step(Event::DrainFinished), Action::Ignore);
}

#[test]
fn bind_failure_names_address() {
    let mut d = Driver::new(local(80));
    assert_eq!(d.step(Event::BindFailed), Action::FailBind { address: local(80) });
    assert_eq!(d.phase, Phase::Stopped);
    assert_eq!(d.step(Event::Bound), Action::Ignore);
}

#[test]
fn serve_loop_ending_exits_with_error() {
    let mut d = Driver::new(local(3000));
    d.step(Event::Bound);
    assert_eq!(d.step(Event::ServeExited), Action::BeginDrain);
    assert_eq!(d.trigger, Some(Trigger::ServeExited));
    assert_eq!(d.step(Event::DrainFinished), Action::Exit { code: 1 });
}

#[test]
fn shutdown_before_bind_exits_cleanly() {
    let mut d = Driver::new(local(3000));
    assert_eq!(d.step(Event::ShutdownRequested), Action::Exit { code: 0 });
    assert_eq!(d.phase, Phase::Stopped);
}

#[test]
fn events_out_of_place_are_ignored() {
    let mut d = Driver::new(local(3000));
    assert_eq!(d.step(Event::DrainFinished), Action::Ignore);
    assert_eq!(d.step(Event::ServeExited), Action::Ignore);
    assert_eq!(d.phase, Phase::Initializing);
    d.step(Event::Bound);
    assert_eq!(d.step(Event::Bound), Action::Ignore);
    assert_eq!(d.step(Event::BindFailed), Action::Ignore);
    assert_eq!(d.step(Event::DrainFinished), Action::Ignore);
    assert_eq!(d.phase, Phase::Listening);
}
