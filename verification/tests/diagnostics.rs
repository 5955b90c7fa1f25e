use mind_flayer::diagnostics::{
    classify_startup_failure, extract_structured_bind_error_code, is_addr_in_use_error,
    should_fallback_to_random_port, SidecarStartupFailureKind,
};

#[test]
fn detects_addr_in_use_from_structured_bind_error() {
    let stderr = "[sidecar] BIND_ERROR code=EADDRINUSE message=listen EADDRINUSE: address already in use 127.0.0.1:3737";
    assert!(is_addr_in_use_error(stderr));
}

#[test]
fn detects_addr_in_use_from_node_error_text() {
    let stderr = "Error: listen EADDRINUSE: address already in use 127.0.0.1:3737";
    assert!(is_addr_in_use_error(stderr));
}

#[test]
fn structured_bind_error_takes_priority_over_text_fallback() {
    let stderr = "[sidecar] BIND_ERROR code=EPERM message=address already in use";
    assert!(!is_addr_in_use_error(stderr));
}

#[test]
fn does_not_detect_addr_in_use_for_non_conflict_error() {
    let stderr = "Error: listen EPERM: operation not permitted 127.0.0.1:3737";
    assert!(!is_addr_in_use_error(stderr));
}

#[test]
fn fallback_policy_only_allows_first_attempt_addr_in_use() {
    assert!(should_fallback_to_random_port(
        1,
        SidecarStartupFailureKind::AddrInUse
    ));
    assert!(!should_fallback_to_random_port(
        1,
        SidecarStartupFailureKind::Other
    ));
    assert!(!should_fallback_to_random_port(
        2,
        SidecarStartupFailureKind::AddrInUse
    ));
}

#[test]
fn extracts_structured_code_and_trims_separators() {
    let stderr = "[sidecar] BIND_ERROR code=EADDRINUSE; message=nope";
    assert_eq!(
        extract_structured_bind_error_code(stderr),
        Some("EADDRINUSE".to_string())
    );
}

#[test]
fn extracts_code_from_latest_bind_error_line() {
    let stderr = "BIND_ERROR code=EPERM\nsome other line\nBIND_ERROR code=EADDRINUSE";
    assert_eq!(
        extract_structured_bind_error_code(stderr),
        Some("EADDRINUSE".to_string())
    );
}

#[test]
fn no_structured_code_without_bind_error_marker() {
    let stderr = "error code=EADDRINUSE but no marker";
    assert_eq!(extract_structured_bind_error_code(stderr), None);
}

#[test]
fn structured_code_key_is_case_insensitive() {
    let stderr = "[sidecar] bind_error CODE=AddrInUse";
    assert_eq!(
        extract_structured_bind_error_code(stderr),
        Some("AddrInUse".to_string())
    );
    assert!(is_addr_in_use_error(stderr));
}

#[test]
fn classification_names_the_two_kinds() {
    assert_eq!(
        classify_startup_failure("listen eaddrinuse"),
        SidecarStartupFailureKind::AddrInUse
    );
    assert_eq!(
        classify_startup_failure("segmentation fault"),
        SidecarStartupFailureKind::Other
    );
}

#[test]
fn plain_text_match_is_case_insensitive() {
    assert!(is_addr_in_use_error("Address Already In Use"));
    assert!(!is_addr_in_use_error(""));
}
