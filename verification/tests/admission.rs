use slowclaw::admission::{
    bearer_token, clamp_limit, clean_address_candidate, client_key_from_request, present_value,
    rate_limit_retry_after, refuses_public_bind, status_code, wati_handshake, whatsapp_handshake,
    Admission, ErrorKind, AdmissionControl, Handshake, NewCodeResponse, PairResponse, WatiVerifyQuery, WebhookBody,
    WebhookRequest, WhatsAppVerifyQuery, MAX_BODY_SIZE, MAX_MEDIA_UPLOAD_BODY_SIZE,
    MEDIA_UPLOAD_TIMEOUT_SECS, REQUEST_TIMEOUT_SECS,
};
use slowclaw::idempotency::IdempotencyStore;
use slowclaw::limiter::GatewayRateLimiter;
use slowclaw::pairing::PairingGuard;
use slowclaw::signature::hash_webhook_secret;

fn control(require_pairing: bool, tokens: Vec<String>, secret: Option<&str>) -> AdmissionControl {
    AdmissionControl::new(
        GatewayRateLimiter::new(100, 100, 100),
        PairingGuard::with_seed(require_pairing, &tokens, &vec![0, 0, 0, 1, 226, 64]),
        IdempotencyStore::new(300_000, 1000),
        secret.map(hash_webhook_secret),
    )
}

fn request(key: Option<&str>) -> WebhookRequest {
    WebhookRequest {
        client_key: "127.0.0.1".into(),
        authorization: None,
        webhook_secret: None,
        idempotency_key: key.map(str::to_string),
        body_ok: true,
    }
}

#[test]
fn security_body_limit_is_64kb() {
    assert_eq!(MAX_BODY_SIZE, 65_536);
}

#[test]
fn security_timeout_is_30_seconds() {
    assert_eq!(REQUEST_TIMEOUT_SECS, 30);
}

#[test]
fn media_limits() {
    assert_eq!(MAX_MEDIA_UPLOAD_BODY_SIZE, 1_073_741_824);
    assert_eq!(MEDIA_UPLOAD_TIMEOUT_SECS, 1_800);
    assert_eq!(rate_limit_retry_after(), 60);
}

#[test]
fn whatsapp_query_fields_are_optional() {
    let q = WhatsAppVerifyQuery {
        mode: None,
        verify_token: None,
        challenge: None,
    };
    assert!(q.mode.is_none());
}

fn webhook_body_from_json(text: &str) -> Option<WebhookBody> {
    let value: serde_json::Value = serde_json::from_str(text).ok()?;
    let message = value.get("message")?.as_str()?.to_string();
    Some(WebhookBody { message })
}

#[test]
fn webhook_body_requires_message_field() {
    let valid = r#"{"message": "hello"}"#;
    let parsed = webhook_body_from_json(valid);
    assert!(parsed.is_some());
    assert_eq!(parsed.unwrap().message, "hello");

    let missing = r#"{"other": "field"}"#;
    let parsed = webhook_body_from_json(missing);
    assert!(parsed.is_none());
}

#[test]
fn webhook_idempotency_skips_duplicate_provider_calls() {
    let mut control = control(false, vec![], None);
    let req = request(Some("abc-123"));
    let first = control.admit_webhook(&req);
    assert_eq!(first, Admission::Accepted);
    assert_eq!(status_code(first), 200);
    let second = control.admit_webhook(&req);
    assert_eq!(second, Admission::Duplicate);
    assert_eq!(status_code(second), 200);
}

#[test]
fn webhook_without_idempotency_key_is_never_a_duplicate() {
    let mut control = control(false, vec![], None);
    assert_eq!(control.admit_webhook(&request(None)), Admission::Accepted);
    assert_eq!(control.admit_webhook(&request(None)), Admission::Accepted);
    assert_eq!(control.admit_webhook(&request(Some("   "))), Admission::Accepted);
    assert_eq!(control.admit_webhook(&request(Some("   "))), Admission::Accepted);
    assert_eq!(control.admit_webhook(&request(Some(" k "))), Admission::Accepted);
    assert_eq!(control.admit_webhook(&request(Some("k"))), Admission::Duplicate);
}

#[test]
fn webhook_secret_hash_rejects_missing_header() {
    let mut control = control(false, vec![], Some("s3cret"));
    let verdict = control.admit_webhook(&request(None));
    assert_eq!(verdict, Admission::BadSecret);
    assert_eq!(status_code(verdict), 401);
}

#[test]
fn webhook_secret_hash_rejects_invalid_header() {
    let mut control = control(false, vec![], Some("s3cret"));
    let mut req = request(None);
    req.webhook_secret = Some("wrong".into());
    assert_eq!(control.admit_webhook(&req), Admission::BadSecret);
}

#[test]
fn webhook_secret_hash_accepts_valid_header() {
    let mut control = control(false, vec![], Some("s3cret"));
    let mut req = request(None);
    req.webhook_secret = Some("  s3cret ".into());
    assert_eq!(control.admit_webhook(&req), Admission::Accepted);
}

#[test]
fn webhook_requires_bearer_when_pairing_is_on() {
    let token = "a".repeat(64);
    let mut control = control(true, vec![token.clone()], None);
    let mut req = request(None);
    assert_eq!(control.admit_webhook(&req), Admission::Unauthorized);
    req.authorization = Some(token.clone());
    assert_eq!(control.admit_webhook(&req), Admission::Unauthorized);
    req.authorization = Some(format!("bearer {token}"));
    assert_eq!(control.admit_webhook(&req), Admission::Unauthorized);
    req.authorization = Some(format!("Bearer {token}"));
    assert_eq!(control.admit_webhook(&req), Admission::Accepted);
    assert_eq!(status_code(Admission::Unauthorized), 401);
}

#[test]
fn webhook_checks_run_in_order() {
    let token = "a".repeat(64);
    let mut control = AdmissionControl::new(
        GatewayRateLimiter::new(100, 2, 100),
        PairingGuard::new(true, &vec![token.clone()]),
        IdempotencyStore::new(300_000, 1000),
        Some(hash_webhook_secret("s")),
    );
    // Unauthorized wins over a bad secret and a bad body.
    let bad = WebhookRequest {
        client_key: "c".into(),
        authorization: None,
        webhook_secret: None,
        idempotency_key: Some("k".into()),
        body_ok: false,
    };
    assert_eq!(control.admit_webhook_at(&bad, 0), Admission::Unauthorized);
    // A bad secret wins over a bad body.
    let bad_secret = WebhookRequest {
        client_key: "c".into(),
        authorization: Some(format!("Bearer {token}")),
        webhook_secret: Some("x".into()),
        idempotency_key: Some("k".into()),
        body_ok: false,
    };
    assert_eq!(control.admit_webhook_at(&bad_secret, 1), Admission::BadSecret);
    // Both requests were counted: the limit of two is used up.
    let good = WebhookRequest {
        client_key: "c".into(),
        authorization: Some(format!("Bearer {token}")),
        webhook_secret: Some("s".into()),
        idempotency_key: Some("k".into()),
        body_ok: true,
    };
    let limited = control.admit_webhook_at(&good, 2);
    assert_eq!(limited, Admission::RateLimited);
    assert_eq!(status_code(limited), 429);
    // The refused requests did not record the idempotency key.
    assert_eq!(control.idempotency.len(), 0);
    assert_eq!(control.admit_webhook_at(&good, 60_002), Admission::Accepted);
    assert_eq!(control.idempotency.len(), 1);
}

#[test]
fn bad_body_is_rejected_before_idempotency() {
    let mut control = control(false, vec![], None);
    let mut req = request(Some("k"));
    req.body_ok = false;
    let verdict = control.admit_webhook(&req);
    assert_eq!(verdict, Admission::BadBody);
    assert_eq!(status_code(verdict), 400);
    req.body_ok = true;
    assert_eq!(control.admit_webhook(&req), Admission::Accepted);
}

#[test]
fn pair_endpoint_outcomes() {
    let mut control = AdmissionControl::new(
        GatewayRateLimiter::new(3, 100, 100),
        PairingGuard::with_seed(true, &vec![], &vec![0, 0, 0, 1, 226, 64]),
        IdempotencyStore::new(300_000, 1000),
        None,
    );
    let token = "c".repeat(64);
    let r = control.pair_at("peer", "000000", 0, token.clone());
    assert!(matches!(r, PairResponse::BadCode));
    assert_eq!(r.status_code(), 403);
    let r = control.pair_at("peer", "123456", 1, token.clone());
    assert!(matches!(&r, PairResponse::Paired(t) if *t == token));
    assert_eq!(r.status_code(), 200);
    assert_eq!(control.pairing.tokens(), vec![token.clone()]);
    assert!(matches!(control.pair_at("peer", "123456", 2, token.clone()), PairResponse::BadCode));
    let r = control.pair_at("peer", "123456", 3, token.clone());
    assert!(matches!(r, PairResponse::RateLimited(60)));
    assert_eq!(r.status_code(), 429);
}

#[test]
fn pair_endpoint_reports_lockout() {
    let mut control = AdmissionControl::new(
        GatewayRateLimiter::new(100, 100, 100),
        PairingGuard::with_seed(true, &vec![], &vec![0, 0, 0, 1, 226, 64]),
        IdempotencyStore::new(300_000, 1000),
        None,
    );
    for i in 0..5u64 {
        assert!(matches!(control.pair_at("peer", "999999", i, "d".repeat(64)), PairResponse::BadCode));
    }
    let r = control.pair_at("peer", "123456", 5, "d".repeat(64));
    assert!(matches!(r, PairResponse::LockedOut(300)));
    assert_eq!(r.status_code(), 429);
}

#[test]
fn pair_with_fresh_token() {
    let mut control = control(true, vec![], None);
    match control.pair("peer", "123456") {
        PairResponse::Paired(token) => {
            assert_eq!(token.len(), 64);
            assert!(control.is_authorized(&Some(format!("Bearer {token}"))));
        }
        other => panic!("unexpected {other:?}"),
    }
}

#[test]
fn new_code_requires_bearer_and_pairing() {
    let token = "a".repeat(64);
    let mut on = control(true, vec![token.clone()], None);
    let seed = vec![0, 0, 0, 0, 0, 9];
    let r = on.new_code_from(&None, &seed);
    assert!(matches!(r, NewCodeResponse::Unauthorized));
    assert_eq!(r.status_code(), 401);
    let r = on.new_code_from(&Some(format!("Bearer {token}")), &seed);
    assert!(matches!(&r, NewCodeResponse::Code(c) if c == "000009"));
    assert_eq!(r.status_code(), 200);
    assert_eq!(on.pairing.pairing_code().as_deref(), Some("000009"));

    let mut off = control(false, vec![], None);
    let r = off.new_code_from(&None, &seed);
    assert!(matches!(r, NewCodeResponse::PairingDisabled));
    assert_eq!(r.status_code(), 400);
}

#[test]
fn bearer_token_extraction() {
    assert_eq!(bearer_token("Bearer abc"), "abc");
    assert_eq!(bearer_token("Bearer "), "");
    assert_eq!(bearer_token("bearer abc"), "");
    assert_eq!(bearer_token("abc"), "");
    assert_eq!(bearer_token(""), "");
    assert_eq!(bearer_token("Bearer  two words"), " two words");
}

#[test]
fn present_value_trims_and_drops_empty() {
    assert_eq!(present_value(&Some("  x ".into())), Some("x".to_string()));
    assert_eq!(present_value(&Some("   ".into())), None);
    assert_eq!(present_value(&Some("".into())), None);
    assert_eq!(present_value(&None), None);
}

#[test]
fn client_key_defaults_to_peer_addr_when_untrusted_proxy_mode() {
    let forwarded = vec![Some("198.51.100.10".to_string()), Some("203.0.113.11".to_string())];
    let key = client_key_from_request(Some("10.0.0.5"), &forwarded, None, false);
    assert_eq!(key, "10.0.0.5");
}

#[test]
fn client_key_uses_forwarded_ip_only_in_trusted_proxy_mode() {
    let forwarded = vec![Some("198.51.100.10".to_string()), Some("203.0.113.11".to_string())];
    let key = client_key_from_request(Some("10.0.0.5"), &forwarded, None, true);
    assert_eq!(key, "198.51.100.10");
}

#[test]
fn client_key_falls_back_to_peer_when_forwarded_header_invalid() {
    let forwarded = vec![None];
    let key = client_key_from_request(Some("10.0.0.5"), &forwarded, None, true);
    assert_eq!(key, "10.0.0.5");
}

#[test]
fn client_key_precedence() {
    let forwarded = vec![None, Some("203.0.113.11".to_string())];
    assert_eq!(
        client_key_from_request(Some("10.0.0.5"), &forwarded, Some("192.0.2.1"), true),
        "203.0.113.11"
    );
    assert_eq!(
        client_key_from_request(Some("10.0.0.5"), &vec![None], Some("192.0.2.1"), true),
        "192.0.2.1"
    );
    assert_eq!(
        client_key_from_request(Some("10.0.0.5"), &vec![], Some("192.0.2.1"), false),
        "10.0.0.5"
    );
    assert_eq!(client_key_from_request(None, &vec![], None, true), "unknown");
    assert_eq!(client_key_from_request(None, &vec![], None, false), "unknown");
}

#[test]
fn address_candidates_are_cleaned() {
    assert_eq!(clean_address_candidate(" 198.51.100.10 "), "198.51.100.10");
    assert_eq!(clean_address_candidate(" \"198.51.100.10\" "), "198.51.100.10");
    assert_eq!(clean_address_candidate("\"\" 10.0.0.1 \"\""), "10.0.0.1");
    assert_eq!(clean_address_candidate("  "), "");
    assert_eq!(clean_address_candidate("\"\""), "");
}

#[test]
fn whatsapp_handshake_outcomes() {
    let query = |mode: Option<&str>, token: Option<&str>, challenge: Option<&str>| WhatsAppVerifyQuery {
        mode: mode.map(str::to_string),
        verify_token: token.map(str::to_string),
        challenge: challenge.map(str::to_string),
    };
    let r = whatsapp_handshake(None, query(Some("subscribe"), Some("t"), Some("c")));
    assert!(matches!(r, Handshake::NotConfigured));
    assert_eq!(r.status_code(), 404);
    let r = whatsapp_handshake(Some("t"), query(Some("subscribe"), Some("t"), Some("c")));
    assert!(matches!(&r, Handshake::Echo(c) if c == "c"));
    assert_eq!(r.status_code(), 200);
    let r = whatsapp_handshake(Some("t"), query(Some("subscribe"), Some("t"), None));
    assert!(matches!(r, Handshake::MissingChallenge));
    assert_eq!(r.status_code(), 400);
    let r = whatsapp_handshake(Some("t"), query(Some("subscribe"), Some("x"), Some("c")));
    assert!(matches!(r, Handshake::Forbidden));
    assert_eq!(r.status_code(), 403);
    assert!(matches!(
        whatsapp_handshake(Some("t"), query(Some("other"), Some("t"), Some("c"))),
        Handshake::Forbidden
    ));
    assert!(matches!(
        whatsapp_handshake(Some("t"), query(None, None, None)),
        Handshake::Forbidden
    ));
}

#[test]
fn wati_handshake_outcomes() {
    assert!(matches!(
        wati_handshake(false, WatiVerifyQuery { challenge: Some("c".into()) }),
        Handshake::NotConfigured
    ));
    assert!(matches!(
        wati_handshake(true, WatiVerifyQuery { challenge: Some("c".into()) }),
        Handshake::Echo(c) if c == "c"
    ));
    assert!(matches!(
        wati_handshake(true, WatiVerifyQuery { challenge: None }),
        Handshake::MissingChallenge
    ));
}

#[test]
fn limits_are_clamped() {
    assert_eq!(clamp_limit(None, 200, 500), 200);
    assert_eq!(clamp_limit(Some(0), 200, 500), 1);
    assert_eq!(clamp_limit(Some(1), 200, 500), 1);
    assert_eq!(clamp_limit(Some(500), 200, 500), 500);
    assert_eq!(clamp_limit(Some(501), 200, 500), 500);
    assert_eq!(clamp_limit(Some(5000), 200, 1000), 1000);
}

#[test]
fn public_bind_needs_tunnel_or_opt_in() {
    assert!(refuses_public_bind(true, false, false));
    assert!(!refuses_public_bind(true, true, false));
    assert!(!refuses_public_bind(true, false, true));
    assert!(!refuses_public_bind(false, false, false));
}

#[test]
fn error_kinds_map_to_statuses() {
    assert_eq!(ErrorKind::ClientAuth.http_status(), 401);
    assert_eq!(ErrorKind::ClientRequest.http_status(), 400);
    assert_eq!(ErrorKind::RateLimited.http_status(), 429);
    assert_eq!(ErrorKind::PayloadTooLarge.http_status(), 413);
    assert_eq!(ErrorKind::Timeout.http_status(), 408);
    assert_eq!(ErrorKind::Upstream.http_status(), 502);
    assert_eq!(ErrorKind::Internal.http_status(), 500);
    assert_eq!(Admission::BadSecret.error_kind(), Some(ErrorKind::ClientAuth));
    assert_eq!(Admission::BadBody.error_kind(), Some(ErrorKind::ClientRequest));
    assert_eq!(Admission::RateLimited.error_kind(), Some(ErrorKind::RateLimited));
    assert_eq!(Admission::Duplicate.error_kind(), None);
    assert_eq!(Admission::Accepted.error_kind(), None);
}

#[test]
fn public_hosts() {
    for host in ["127.0.0.1", "localhost", "::1", "[::1]", "0:0:0:0:0:0:0:1"] {
        assert!(!slowclaw::admission::is_public_bind(host), "{host}");
    }
    for host in ["0.0.0.0", "192.168.1.5", "example.com", "", "LOCALHOST", "127.0.0.2"] {
        assert!(slowclaw::admission::is_public_bind(host), "{host}");
    }
}

#[test]
fn brackets_are_stripped() {
    assert_eq!(slowclaw::admission::strip_brackets("[::1]"), "::1");
    assert_eq!(slowclaw::admission::strip_brackets("[[a]b]]"), "a]b");
    assert_eq!(slowclaw::admission::strip_brackets("10.0.0.1"), "10.0.0.1");
    assert_eq!(slowclaw::admission::strip_brackets("[]"), "");
}

#[test]
fn new_code_is_six_digits_and_keeps_the_guard() {
    let token = "a".repeat(64);
    let mut control = control(true, vec![token.clone()], None);
    let r = control.new_code(&Some(format!("Bearer {token}")));
    match r {
        NewCodeResponse::Code(code) => {
            assert_eq!(code.len(), 6);
            assert!(code.chars().all(|c| c.is_ascii_digit()));
            assert_eq!(control.pairing.pairing_code().as_deref(), Some(code.as_str()));
        }
        other => panic!("unexpected {other:?}"),
    }
    assert_eq!(control.pairing.tokens(), vec![token]);
    assert!(control.pairing.require_pairing());
    assert!(matches!(control.new_code(&None), NewCodeResponse::Unauthorized));
}
