use backtor::lifecycle::{
    classify_request, publish_step, run_accept_loop, service_nickname, AcceptLoop, Announcer,
    LifecycleState, PublishOutcome, RequestAction, ServeAction, ServeEvent, SHELL_PORT,
};

#[test]
fn nickname_without_a_key_is_the_stem() {
    assert_eq!(service_nickname(None).as_str(), "backtor-shell");
}

#[test]
fn nickname_with_a_key_carries_the_address() {
    let addr = String::from("abcdef");
    assert_eq!(service_nickname(Some(&addr)).as_str(), "backtor-shell-abcdef");
}

#[test]
fn keyed_publish_success_serves() {
    let s = LifecycleState::Publishing { keyed: true };
    assert_eq!(publish_step(s, PublishOutcome::Launched), LifecycleState::Serving);
}

#[test]
fn keyed_collision_falls_back_then_serves() {
    let s = LifecycleState::Publishing { keyed: true };
    let s = publish_step(s, PublishOutcome::AlreadyRegistered);
    assert_eq!(s, LifecycleState::PublishingFallback);
    assert_eq!(publish_step(s, PublishOutcome::Launched), LifecycleState::Serving);
}

#[test]
fn fallback_collision_is_fatal() {
    let s = LifecycleState::PublishingFallback;
    assert_eq!(
        publish_step(s, PublishOutcome::AlreadyRegistered),
        LifecycleState::Aborted
    );
}

#[test]
fn ephemeral_collision_is_fatal() {
    let s = LifecycleState::Publishing { keyed: false };
    assert_eq!(
        publish_step(s, PublishOutcome::AlreadyRegistered),
        LifecycleState::Aborted
    );
}

#[test]
fn publish_failure_is_fatal() {
    let s = LifecycleState::Publishing { keyed: true };
    assert_eq!(publish_step(s, PublishOutcome::Failed), LifecycleState::Aborted);
}

#[test]
fn announcer_announces_exactly_once() {
    let mut a = Announcer::new();
    assert!(!a.on_status(false));
    assert!(a.on_status(true));
    assert!(!a.on_status(true));
    assert!(!a.on_status(false));
}

#[test]
fn only_the_shell_port_is_accepted() {
    assert!(matches!(classify_request(SHELL_PORT), RequestAction::AcceptShell));
    assert!(matches!(classify_request(22), RequestAction::RejectTeardown));
    assert!(matches!(classify_request(80), RequestAction::RejectTeardown));
    assert!(matches!(classify_request(0), RequestAction::RejectTeardown));
}

#[test]
fn accept_loop_serves_requests_until_cancelled() {
    let events = vec![
        ServeEvent::Request { port: SHELL_PORT },
        ServeEvent::Request { port: 80 },
        ServeEvent::Request { port: SHELL_PORT },
        ServeEvent::Cancelled,
        ServeEvent::Request { port: SHELL_PORT },
    ];
    let actions = run_accept_loop(&events);
    assert_eq!(
        actions,
        vec![
            ServeAction::SpawnShell,
            ServeAction::RejectCircuit,
            ServeAction::SpawnShell,
            ServeAction::Exit,
        ]
    );
}

#[test]
fn accept_loop_without_cancellation_serves_everything() {
    let events = vec![
        ServeEvent::Request { port: 1 },
        ServeEvent::Request { port: SHELL_PORT },
    ];
    let actions = run_accept_loop(&events);
    assert_eq!(actions, vec![ServeAction::RejectCircuit, ServeAction::SpawnShell]);
}

#[test]
fn a_stopped_accept_loop_only_exits() {
    let mut l = AcceptLoop::new();
    assert_eq!(l.on_event(ServeEvent::Cancelled), ServeAction::Exit);
    assert!(l.stopped);
    assert_eq!(
        l.on_event(ServeEvent::Request { port: SHELL_PORT }),
        ServeAction::Exit
    );
    assert!(l.stopped);
}
