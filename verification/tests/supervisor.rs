use mind_flayer::credentials::{CredentialStore, ProviderConfig};
use mind_flayer::supervisor::{
    begin_cleanup, create_sidecar_state, clear_sidecar_port, format_attempt_failure,
    format_port_wait_timeout, format_spawn_failure, generate_sidecar_startup_token,
    is_expected_health_payload, lsof_output_names_pid, parse_health_payload, poll_sidecar_port,
    push_config_to_sidecar, set_sidecar_child, set_sidecar_port, should_force_kill,
    sidecar_health_url, HealthPayload, PortChoice, PortWaitDecision, PushError,
    SidecarAttemptError, SidecarTermination, StartEvent, StartMachine, StartPhase,
};

fn ok_payload(token: &str) -> HealthPayload {
    HealthPayload {
        status: Some("ok".to_string()),
        service: Some("mind-flayer-sidecar".to_string()),
        startup_token: Some(token.to_string()),
    }
}

#[test]
fn health_payload_must_match_service_and_startup_token() {
    let payload = ok_payload("token-1");
    assert!(is_expected_health_payload(&payload, "token-1"));
    assert!(!is_expected_health_payload(&payload, "token-2"));
}

#[test]
fn health_payload_with_wrong_service_is_rejected() {
    let payload = HealthPayload {
        status: Some("ok".to_string()),
        service: Some("other-service".to_string()),
        startup_token: Some("token-1".to_string()),
    };
    assert!(!is_expected_health_payload(&payload, "token-1"));
}

#[test]
fn parsed_health_body_satisfies_the_expected_check() {
    let body = "{\"status\":\"ok\",\"service\":\"mind-flayer-sidecar\",\"startupToken\":\"token-1\"}";
    let payload = parse_health_payload(body).unwrap();
    assert_eq!(payload.status, Some("ok".to_string()));
    assert_eq!(payload.service, Some("mind-flayer-sidecar".to_string()));
    assert_eq!(payload.startup_token, Some("token-1".to_string()));
    assert!(is_expected_health_payload(&payload, "token-1"));
}

#[test]
fn corrupt_health_body_does_not_parse() {
    assert!(parse_health_payload("not json").is_none());
    assert!(parse_health_payload("{\"status\":\"ok\"").is_none());
}

#[test]
fn health_body_with_whitespace_is_tolerated() {
    let body = "{ \"status\": \"ok\",\n  \"service\": \"mind-flayer-sidecar\",\r\n\t\"startupToken\": \"token-1\" }";
    let payload = parse_health_payload(body).unwrap();
    assert!(is_expected_health_payload(&payload, "token-1"));
}

#[test]
fn whitespace_inside_string_values_is_kept() {
    let body = "{\"status\": \"o k\"}";
    let payload = parse_health_payload(body).unwrap();
    assert_eq!(payload.status, Some("o k".to_string()));
}

#[test]
fn distinct_attempts_get_distinct_tokens() {
    let a = generate_sidecar_startup_token(100, 1, 3737, 7);
    let b = generate_sidecar_startup_token(100, 2, 3737, 7);
    let c = generate_sidecar_startup_token(100, 1, 3737, 8);
    assert_ne!(a, b);
    assert_ne!(a, c);
    assert_ne!(b, c);
}

#[test]
fn stale_listener_with_old_token_does_not_satisfy_the_wait() {
    let mut machine = StartMachine::new();
    machine.step(StartEvent::PortSelected {
        port: 3737,
        token: "pid-1-3737-now".to_string(),
    });
    assert_eq!(machine.phase, StartPhase::Probing);

    machine.step(StartEvent::HealthResponse {
        payload: ok_payload("pid-1-3737-stale"),
    });
    assert_eq!(machine.phase, StartPhase::Probing);
    assert_eq!(machine.recorded_port, None);

    machine.step(StartEvent::HealthResponse {
        payload: ok_payload("pid-1-3737-now"),
    });
    assert_eq!(machine.phase, StartPhase::Healthy);
    assert_eq!(machine.recorded_port, Some(3737));
}

#[test]
fn preferred_port_only_on_attempt_one() {
    let mut machine = StartMachine::new();
    assert_eq!(machine.port_choice(), PortChoice::Preferred);
    machine.step(StartEvent::PortSelected {
        port: 3737,
        token: "t1".to_string(),
    });
    machine.step(StartEvent::AttemptFailed {
        error: SidecarAttemptError::HealthCheck("timed out".to_string()),
        stderr_snapshot: "BIND_ERROR code=EADDRINUSE".to_string(),
    });
    assert_eq!(machine.attempt, 2);
    assert_eq!(machine.port_choice(), PortChoice::Ephemeral);
}

#[test]
fn first_attempt_bind_conflict_falls_back_to_ephemeral_port() {
    let mut machine = StartMachine::new();
    machine.step(StartEvent::PortSelected {
        port: 3737,
        token: "t1".to_string(),
    });
    machine.step(StartEvent::AttemptFailed {
        error: SidecarAttemptError::HealthCheck("health check gave up".to_string()),
        stderr_snapshot: "[sidecar] BIND_ERROR code=EADDRINUSE".to_string(),
    });
    assert_eq!(machine.phase, StartPhase::SelectingPort);
    assert_eq!(machine.attempt, 2);
    assert_eq!(machine.port_choice(), PortChoice::Ephemeral);
}

#[test]
fn first_attempt_non_conflict_failure_is_fatal() {
    let mut machine = StartMachine::new();
    machine.step(StartEvent::PortSelected {
        port: 3737,
        token: "t1".to_string(),
    });
    machine.step(StartEvent::AttemptFailed {
        error: SidecarAttemptError::HealthCheck("health check gave up".to_string()),
        stderr_snapshot: "BIND_ERROR code=EPERM".to_string(),
    });
    assert_eq!(machine.phase, StartPhase::Failed);
    assert_eq!(machine.attempt, 1);
}

#[test]
fn spawn_failure_on_first_attempt_is_fatal() {
    let mut machine = StartMachine::new();
    machine.step(StartEvent::PortSelected {
        port: 3737,
        token: "t1".to_string(),
    });
    machine.step(StartEvent::SpawnFailed {
        message: "no such binary".to_string(),
    });
    assert_eq!(machine.phase, StartPhase::Failed);
    assert_eq!(
        machine.last_error,
        "Failed to spawn sidecar on port 3737: no such binary"
    );
}

#[test]
fn attempts_exhaust_after_the_budget() {
    let mut machine = StartMachine::new();
    machine.step(StartEvent::PortSelected {
        port: 3737,
        token: "t1".to_string(),
    });
    machine.step(StartEvent::AttemptFailed {
        error: SidecarAttemptError::HealthCheck("busy".to_string()),
        stderr_snapshot: "BIND_ERROR code=EADDRINUSE".to_string(),
    });
    machine.step(StartEvent::PortSelected {
        port: 49152,
        token: "t2".to_string(),
    });
    machine.step(StartEvent::AttemptFailed {
        error: SidecarAttemptError::HealthCheck("still failing".to_string()),
        stderr_snapshot: String::new(),
    });
    assert_eq!(machine.attempt, 3);
    machine.step(StartEvent::PortSelected {
        port: 49153,
        token: "t3".to_string(),
    });
    machine.step(StartEvent::AttemptFailed {
        error: SidecarAttemptError::HealthCheck("gave up".to_string()),
        stderr_snapshot: String::new(),
    });
    assert_eq!(machine.phase, StartPhase::Failed);
    assert_eq!(machine.last_error, "gave up");
}

#[test]
fn attempt_failure_message_carries_termination_and_stderr() {
    let termination = SidecarTermination::from_payload(Some(1), None);
    let message = format_attempt_failure(
        3737,
        &SidecarAttemptError::Terminated(termination),
        "boom",
    );
    assert_eq!(
        message,
        "Sidecar terminated before becoming healthy on port 3737 (code: Some(1), signal: None, reason: Received process termination event) | stderr: boom"
    );
}

#[test]
fn config_push_without_child_is_an_error_not_a_crash() {
    let state = create_sidecar_state();
    let store = CredentialStore::new();
    let result = push_config_to_sidecar(&state, &store);
    assert_eq!(result, Err(PushError::NoChild));
    assert_eq!(PushError::NoChild.message(), "Sidecar process not running");
}

#[test]
fn config_push_sends_the_full_snapshot_as_one_line() {
    let mut state = create_sidecar_state();
    set_sidecar_child(&mut state, 4242);
    let mut store = CredentialStore::new();
    store.save_config(
        "p1",
        &ProviderConfig {
            api_key: "k1".to_string(),
            base_url: None,
        },
    );
    store.save_config(
        "p2",
        &ProviderConfig {
            api_key: "k2".to_string(),
            base_url: Some("https://api.example.com".to_string()),
        },
    );
    let line = push_config_to_sidecar(&state, &store).unwrap();
    assert_eq!(
        line,
        "{\"type\":\"config_update\",\"configs\":{\"p1\":{\"apiKey\":\"k1\",\"baseUrl\":null},\"p2\":{\"apiKey\":\"k2\",\"baseUrl\":\"https://api.example.com\"}}}\n"
    );
}

#[test]
fn startup_token_joins_its_four_parts() {
    assert_eq!(
        generate_sidecar_startup_token(1234, 2, 3737, 999),
        "1234-2-3737-999"
    );
}

#[test]
fn health_url_names_loopback_and_port() {
    assert_eq!(sidecar_health_url(3737), "http://127.0.0.1:3737/health");
    assert_eq!(sidecar_health_url(80), "http://127.0.0.1:80/health");
}

#[test]
fn port_state_is_set_and_cleared() {
    let mut state = create_sidecar_state();
    set_sidecar_port(&mut state, 3737);
    assert_eq!(state.port, Some(3737));
    clear_sidecar_port(&mut state);
    assert_eq!(state.port, None);
}

#[test]
fn port_wait_decides_ready_timeout_or_keep_waiting() {
    assert_eq!(
        poll_sidecar_port(&Some(3737), 0, 15000),
        PortWaitDecision::Ready(3737)
    );
    assert_eq!(
        poll_sidecar_port(&None, 15000, 15000),
        PortWaitDecision::TimedOut
    );
    assert_eq!(
        poll_sidecar_port(&None, 100, 15000),
        PortWaitDecision::KeepWaiting
    );
    assert_eq!(
        format_port_wait_timeout(15000),
        "Timed out waiting for sidecar port after 15000ms"
    );
}

#[test]
fn cleanup_clears_state_and_hands_back_what_was_owned() {
    let mut state = create_sidecar_state();
    set_sidecar_child(&mut state, 4242);
    set_sidecar_port(&mut state, 3737);
    let (port, pid) = begin_cleanup(&mut state);
    assert_eq!(port, Some(3737));
    assert_eq!(pid, Some(4242));
    assert_eq!(state.port, None);
    assert_eq!(state.child, None);
}

#[test]
fn forced_kill_needs_owned_child_recorded_port_and_listener() {
    assert!(should_force_kill(Some(1), Some(3737), true));
    assert!(!should_force_kill(Some(1), Some(3737), false));
    assert!(!should_force_kill(None, Some(3737), true));
    assert!(!should_force_kill(Some(1), None, true));
}

#[test]
fn listener_output_scan_finds_the_exact_pid() {
    assert!(lsof_output_names_pid("1234\n5678\n", 5678));
    assert!(!lsof_output_names_pid("1234\n5678\n", 9));
    assert!(lsof_output_names_pid(" +42 ", 42));
    assert!(!lsof_output_names_pid("", 42));
    assert!(!lsof_output_names_pid("12a4", 124));
}

#[test]
fn spawn_failure_message_names_port_and_cause() {
    assert_eq!(
        format_spawn_failure(3737, "permission denied"),
        "Failed to spawn sidecar on port 3737: permission denied"
    );
}
