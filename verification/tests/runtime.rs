use echo_core::ports::PortSet;
use echo_core::runtime::ListenerAction;
use echo_core::runtime::ListenerEvent;
use echo_core::runtime::ListenerState;
use echo_core::runtime::Protocol;
use echo_core::runtime::listener_step;
use echo_core::runtime::must_wait_for_shutdown;
use echo_core::runtime::plan_listeners;
use echo_core::runtime::shutdown_resolved;

#[test]
fn plan_has_one_listener_per_protocol_per_port() {
    let tcp = PortSet::parse_ports("80").unwrap();
    let udp = PortSet::parse_ports("").unwrap();
    let http = PortSet::parse_ports("8080-8081").unwrap();
    let plan = plan_listeners(&tcp, &udp, &http);
    assert_eq!(plan.len(), 3);
    assert_eq!(plan[0].protocol, Protocol::Tcp);
    assert_eq!(plan[0].port, 80);
    assert_eq!(plan[1].protocol, Protocol::Http);
    assert_eq!(plan[1].port, 8080);
    assert_eq!(plan[2].protocol, Protocol::Http);
    assert_eq!(plan[2].port, 8081);
}

#[test]
fn orchestrator_waits_only_with_listeners() {
    let empty = plan_listeners(
        &PortSet::new(),
        &PortSet::new(),
        &PortSet::new(),
    );
    assert!(!must_wait_for_shutdown(&empty));

    let tcp = PortSet::parse_ports("9000").unwrap();
    let some = plan_listeners(&tcp, &PortSet::new(), &PortSet::new());
    assert!(must_wait_for_shutdown(&some));
}

#[test]
fn bind_outcomes() {
    let (next, action) = listener_step(&ListenerState::Binding, &ListenerEvent::BindOk);
    assert_eq!(next, ListenerState::Serving);
    assert_eq!(action, ListenerAction::StartServing);

    let (next, action) = listener_step(&ListenerState::Binding, &ListenerEvent::BindFailed);
    assert_eq!(next, ListenerState::Terminated);
    assert_eq!(action, ListenerAction::ReportAndStop);
}

#[test]
fn accept_spawns_and_returns_to_accepting() {
    let (next, action) = listener_step(&ListenerState::Serving, &ListenerEvent::Accepted);
    assert_eq!(next, ListenerState::Serving);
    assert_eq!(action, ListenerAction::SpawnHandler);
}

#[test]
fn transient_accept_error_keeps_serving() {
    let (next, action) = listener_step(&ListenerState::Serving, &ListenerEvent::AcceptError);
    assert_eq!(next, ListenerState::Serving);
    assert_eq!(action, ListenerAction::LogAndContinue);
}

#[test]
fn handler_failure_is_contained() {
    let (next, action) = listener_step(&ListenerState::Serving, &ListenerEvent::HandlerFailed);
    assert_eq!(next, ListenerState::Serving);
    assert_eq!(action, ListenerAction::Ignore);
}

#[test]
fn shutdown_terminates_any_state() {
    for state in [ListenerState::Binding, ListenerState::Serving, ListenerState::Terminated] {
        let (next, action) = listener_step(&state, &ListenerEvent::Shutdown);
        assert_eq!(next, ListenerState::Terminated);
        assert_eq!(action, ListenerAction::Stop);
    }
}

#[test]
fn shutdown_signal_fires_on_either_interrupt() {
    assert!(!shutdown_resolved(false, false));
    assert!(shutdown_resolved(true, false));
    assert!(shutdown_resolved(false, true));
    assert!(shutdown_resolved(true, true));
}
