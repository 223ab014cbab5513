use slowclaw::desktop::{
    bluesky_env_pairs, core_workspace_dirs, core_workspace_files, docstore_port,
    extract_pairing_code, http_url, is_effectively_empty, is_usable_token, mobile_gateway_url,
    plan_preparation, start_order, stop_order, validate_secret_locator,
    workspace_skeleton_missing, BlueskyCredentials, BlueskySession, Preparation, Sidecar,
    DEFAULT_DOCSTORE_PORT, GATEWAY_PORT,
};
use slowclaw::dispatch::{events_after, events_before, provider_label, response_status, ObserverEvent};

#[test]
fn pairing_code_from_header_echo() {
    assert_eq!(
        extract_pairing_code("     Send: POST /pair with header X-Pairing-Code: 123456"),
        Some("123456".to_string())
    );
    assert_eq!(extract_pairing_code("X-Pairing-Code:000042 trailing"), Some("000042".to_string()));
    assert_eq!(extract_pairing_code("X-Pairing-Code: 12345"), None);
    assert_eq!(extract_pairing_code("X-Pairing-Code: 1234567"), None);
    assert_eq!(extract_pairing_code("X-Pairing-Code: none"), None);
    assert_eq!(extract_pairing_code("x-pairing-code: 123456"), None);
}

#[test]
fn pairing_code_from_framed_line() {
    assert_eq!(extract_pairing_code("     │  654321  │"), Some("654321".to_string()));
    assert_eq!(extract_pairing_code("│ 12345 │"), None);
    assert_eq!(extract_pairing_code("│ 12 345678 │"), Some("345678".to_string()));
    assert_eq!(extract_pairing_code("│ 1234567 │"), Some("123456".to_string()));
    assert_eq!(extract_pairing_code("  654321  "), None);
    assert_eq!(extract_pairing_code("| 654321 |"), None);
    assert_eq!(extract_pairing_code(""), None);
    // A header echo with the wrong number of digits falls through to the frame.
    assert_eq!(extract_pairing_code("X-Pairing-Code: 1 │ 222333 │"), Some("222333".to_string()));
}

#[test]
fn secret_locators() {
    assert_eq!(validate_secret_locator("svc", "acct"), Ok(()));
    assert_eq!(validate_secret_locator("  ", "acct"), Err("service is required".to_string()));
    assert_eq!(validate_secret_locator("svc", ""), Err("account is required".to_string()));
    assert_eq!(validate_secret_locator("", ""), Err("service is required".to_string()));
    assert!(is_usable_token("abc"));
    assert!(!is_usable_token("  \n"));
}

#[test]
fn workspace_skeleton() {
    assert_eq!(
        core_workspace_files(),
        vec!["AGENTS.md", "BOOTSTRAP.md", "HEARTBEAT.md", "IDENTITY.md", "MEMORY.md", "SOUL.md", "TOOLS.md", "USER.md"]
    );
    assert_eq!(core_workspace_dirs(), vec!["cron", "memory", "sessions", "skills", "state"]);
    assert!(!workspace_skeleton_missing(&vec![true; 8], &vec![true; 5]));
    assert!(workspace_skeleton_missing(&vec![true, false, true], &vec![true; 5]));
    assert!(workspace_skeleton_missing(&vec![true; 8], &vec![true, true, false]));
    assert!(is_effectively_empty(&vec![]));
    assert!(is_effectively_empty(&vec![".DS_Store".into()]));
    assert!(!is_effectively_empty(&vec![".DS_Store".into(), "a".into()]));
}

#[test]
fn preparation_plans() {
    assert_eq!(plan_preparation(false, false, false), Preparation::Onboard { force: false });
    assert_eq!(plan_preparation(true, true, false), Preparation::Onboard { force: true });
    assert_eq!(plan_preparation(false, true, true), Preparation::Onboard { force: false });
    assert_eq!(plan_preparation(true, false, true), Preparation::Repair);
    assert_eq!(plan_preparation(true, false, false), Preparation::Ready);
}

#[test]
fn processes_stop_in_reverse_order() {
    assert_eq!(start_order(), vec![Sidecar::DocStore, Sidecar::Agent]);
    assert_eq!(stop_order(), vec![Sidecar::Agent, Sidecar::DocStore]);
}

#[test]
fn addresses() {
    assert_eq!(GATEWAY_PORT, 42617);
    assert_eq!(DEFAULT_DOCSTORE_PORT, 8090);
    assert_eq!(http_url("127.0.0.1", 8090), "http://127.0.0.1:8090");
    assert_eq!(http_url("h", 0), "http://h:0");
    assert_eq!(mobile_gateway_url(Some("192.168.1.20")), "http://192.168.1.20:42617");
    assert_eq!(mobile_gateway_url(None), "http://127.0.0.1:42617");
    assert_eq!(docstore_port(None), 8090);
    assert_eq!(docstore_port(Some(" 9000 ")), 9000);
    assert_eq!(docstore_port(Some("65535")), 65535);
    assert_eq!(docstore_port(Some("65536")), 8090);
    assert_eq!(docstore_port(Some("x")), 8090);
    assert_eq!(docstore_port(Some("")), 8090);
}

#[test]
fn bluesky_environment() {
    assert!(bluesky_env_pairs(&None, &None).is_empty());
    let session = BlueskySession {
        access_jwt: " a ".into(),
        refresh_jwt: "".into(),
        did: "did:plc:1".into(),
        handle: "me.example".into(),
    };
    // A session alone hands over nothing.
    assert!(bluesky_env_pairs(&None, &Some(session)).is_empty());
    let creds = BlueskyCredentials {
        service_url: "".into(),
        handle: " me ".into(),
        app_password: "pw".into(),
        service_url_legacy: "https://bsky.social".into(),
        app_password_legacy: "old".into(),
    };
    let session = BlueskySession {
        access_jwt: " a ".into(),
        refresh_jwt: "".into(),
        did: "did:plc:1".into(),
        handle: "me.example".into(),
    };
    let pairs = bluesky_env_pairs(&Some(creds), &Some(session));
    let expected: Vec<(String, String)> = [
        ("SLOWCLAW_BLUESKY_SERVICE_URL", "https://bsky.social"),
        ("SLOWCLAW_BLUESKY_HANDLE", "me"),
        ("SLOWCLAW_BLUESKY_APP_PASSWORD", "pw"),
        ("SLOWCLAW_BLUESKY_ACCESS_JWT", "a"),
        ("SLOWCLAW_BLUESKY_DID", "did:plc:1"),
        ("SLOWCLAW_BLUESKY_SESSION_HANDLE", "me.example"),
    ]
    .iter()
    .map(|(k, v)| (k.to_string(), v.to_string()))
    .collect();
    assert_eq!(pairs, expected);
}

#[test]
fn events_around_a_request() {
    assert_eq!(provider_label(None), "unknown");
    assert_eq!(provider_label(Some("openrouter")), "openrouter");
    let before = events_before("p", "m");
    assert!(matches!(&before[0], ObserverEvent::AgentStart { provider, model } if provider == "p" && model == "m"));
    assert!(matches!(&before[1], ObserverEvent::LlmRequest { messages_count: 1, .. }));
    assert_eq!(before.len(), 2);

    let ok = events_after("p", "m", 12, None);
    assert_eq!(ok.len(), 3);
    assert!(matches!(&ok[0], ObserverEvent::LlmResponse { success: true, error_message: None, duration_ms: 12, .. }));
    assert!(matches!(&ok[1], ObserverEvent::RequestLatency { duration_ms: 12 }));
    assert!(matches!(&ok[2], ObserverEvent::AgentEnd { duration_ms: 12, .. }));

    let failed = events_after("p", "m", 7, Some("redacted"));
    assert_eq!(failed.len(), 4);
    assert!(matches!(&failed[0], ObserverEvent::LlmResponse { success: false, error_message: Some(e), .. } if e == "redacted"));
    assert!(matches!(&failed[1], ObserverEvent::RequestLatency { duration_ms: 7 }));
    assert!(matches!(&failed[2], ObserverEvent::Error { component, message } if component == "gateway" && message == "redacted"));
    assert!(matches!(&failed[3], ObserverEvent::AgentEnd { .. }));
    assert_eq!(response_status(false), (200, ""));
    assert_eq!(response_status(true), (500, "LLM request failed"));
}
