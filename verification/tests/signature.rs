use hmac::{Hmac, Mac};
use sha2::Sha256;
use slowclaw::signature::{
    constant_time_eq, constant_time_eq_bytes, hash_webhook_secret, verify_hmac,
    verify_linq_signature, verify_nextcloud_talk_signature, verify_whatsapp_signature,
    webhook_secret_matches,
};

fn generate_test_secret() -> String {
    let bytes: [u8; 32] = rand::random();
    hex::encode(bytes)
}

fn compute_whatsapp_signature_hex(secret: &str, body: &[u8]) -> String {
    let mut mac = Hmac::<Sha256>::new_from_slice(secret.as_bytes()).unwrap();
    mac.update(body);
    hex::encode(mac.finalize().into_bytes())
}

fn compute_whatsapp_signature_header(secret: &str, body: &[u8]) -> String {
    format!("sha256={}", compute_whatsapp_signature_hex(secret, body))
}

fn compute_nextcloud_signature_hex(secret: &str, random: &str, body: &str) -> String {
    let payload = format!("{random}{body}");
    let mut mac = Hmac::<Sha256>::new_from_slice(secret.as_bytes()).unwrap();
    mac.update(payload.as_bytes());
    hex::encode(mac.finalize().into_bytes())
}

#[test]
fn webhook_secret_hash_is_deterministic_and_nonempty() {
    let secret_a = generate_test_secret();
    let secret_b = generate_test_secret();
    let one = hash_webhook_secret(&secret_a);
    let two = hash_webhook_secret(&secret_a);
    let other = hash_webhook_secret(&secret_b);

    assert_eq!(one, two);
    assert_ne!(one, other);
    assert_eq!(one.len(), 64);
}

#[test]
fn webhook_secret_hash_has_known_value() {
    assert_eq!(
        hash_webhook_secret("abc"),
        "ba7816bf8f01cfea414140de5dae2223b00361a396177a9cb410ff61f20015ad"
    );
    assert_eq!(
        hash_webhook_secret(""),
        "e3b0c44298fc1c149afbf4c8996fb92427ae41e4649b934ca495991b7852b855"
    );
}

#[test]
fn webhook_secret_matches_only_the_hashed_secret() {
    let stored = hash_webhook_secret("s3cret");
    assert!(webhook_secret_matches(&stored, "s3cret"));
    assert!(!webhook_secret_matches(&stored, "s3cre"));
    assert!(!webhook_secret_matches(&stored, ""));
    assert!(!webhook_secret_matches("s3cret", "s3cret"));
}

#[test]
fn constant_time_eq_compares_whole_strings() {
    assert!(constant_time_eq("", ""));
    assert!(constant_time_eq("token", "token"));
    assert!(!constant_time_eq("token", "tokem"));
    assert!(!constant_time_eq("token", "toke"));
    assert!(!constant_time_eq("xoken", "token"));
    assert!(constant_time_eq_bytes(&[1, 2, 3], &[1, 2, 3]));
    assert!(!constant_time_eq_bytes(&[1, 2, 3], &[1, 2, 4]));
    assert!(!constant_time_eq_bytes(&[0], &[]));
}

#[test]
fn whatsapp_signature_valid() {
    let app_secret = generate_test_secret();
    let body = b"test body content";

    let signature_header = compute_whatsapp_signature_header(&app_secret, body);

    assert!(verify_whatsapp_signature(
        &app_secret,
        body,
        &signature_header
    ));
}

#[test]
fn whatsapp_signature_known_vector() {
    // RFC 4231, test case 2.
    assert!(verify_whatsapp_signature(
        "Jefe",
        b"what do ya want for nothing?",
        "sha256=5bdcc146bf60754e6a042426089575c75a003f089d2739839dec58b964ec3843"
    ));
    assert!(verify_whatsapp_signature(
        "Jefe",
        b"what do ya want for nothing?",
        "sha256=5BDCC146BF60754E6A042426089575C75A003F089D2739839DEC58B964EC3843"
    ));
    assert!(!verify_whatsapp_signature(
        "Jefe",
        b"what do ya want for nothing?",
        "sha256=5bdcc146bf60754e6a042426089575c75a003f089d2739839dec58b964ec3844"
    ));
}

#[test]
fn whatsapp_signature_invalid_wrong_secret() {
    let app_secret = generate_test_secret();
    let wrong_secret = generate_test_secret();
    let body = b"test body content";

    let signature_header = compute_whatsapp_signature_header(&wrong_secret, body);

    assert!(!verify_whatsapp_signature(
        &app_secret,
        body,
        &signature_header
    ));
}

#[test]
fn whatsapp_signature_invalid_wrong_body() {
    let app_secret = generate_test_secret();
    let original_body = b"original body";
    let tampered_body = b"tampered body";

    let signature_header = compute_whatsapp_signature_header(&app_secret, original_body);

    assert!(!verify_whatsapp_signature(
        &app_secret,
        tampered_body,
        &signature_header
    ));
}

#[test]
fn whatsapp_signature_missing_prefix() {
    let app_secret = generate_test_secret();
    let body = b"test body";

    let signature_header = "abc123def456";

    assert!(!verify_whatsapp_signature(
        &app_secret,
        body,
        signature_header
    ));
}

#[test]
fn whatsapp_signature_empty_header() {
    let app_secret = generate_test_secret();
    let body = b"test body";

    assert!(!verify_whatsapp_signature(&app_secret, body, ""));
}

#[test]
fn whatsapp_signature_invalid_hex() {
    let app_secret = generate_test_secret();
    let body = b"test body";

    let signature_header = "sha256=not_valid_hex_zzz";

    assert!(!verify_whatsapp_signature(
        &app_secret,
        body,
        signature_header
    ));
}

#[test]
fn whatsapp_signature_empty_body() {
    let app_secret = generate_test_secret();
    let body = b"";

    let signature_header = compute_whatsapp_signature_header(&app_secret, body);

    assert!(verify_whatsapp_signature(
        &app_secret,
        body,
        &signature_header
    ));
}

#[test]
fn whatsapp_signature_unicode_body() {
    let app_secret = generate_test_secret();
    let body = "Hello 🦀 World".as_bytes();

    let signature_header = compute_whatsapp_signature_header(&app_secret, body);

    assert!(verify_whatsapp_signature(
        &app_secret,
        body,
        &signature_header
    ));
}

#[test]
fn whatsapp_signature_json_payload() {
    let app_secret = generate_test_secret();
    let body = br#"{"entry":[{"changes":[{"value":{"messages":[{"from":"1234567890","text":{"body":"Hello"}}]}}]}]}"#;

    let signature_header = compute_whatsapp_signature_header(&app_secret, body);

    assert!(verify_whatsapp_signature(
        &app_secret,
        body,
        &signature_header
    ));
}

#[test]
fn whatsapp_signature_case_sensitive_prefix() {
    let app_secret = generate_test_secret();
    let body = b"test body";

    let hex_sig = compute_whatsapp_signature_hex(&app_secret, body);

    let wrong_prefix = format!("SHA256={hex_sig}");
    assert!(!verify_whatsapp_signature(&app_secret, body, &wrong_prefix));

    let correct_prefix = format!("sha256={hex_sig}");
    assert!(verify_whatsapp_signature(
        &app_secret,
        body,
        &correct_prefix
    ));
}

#[test]
fn whatsapp_signature_truncated_hex() {
    let app_secret = generate_test_secret();
    let body = b"test body";

    let hex_sig = compute_whatsapp_signature_hex(&app_secret, body);
    let truncated = &hex_sig[..32];
    let signature_header = format!("sha256={truncated}");

    assert!(!verify_whatsapp_signature(
        &app_secret,
        body,
        &signature_header
    ));
}

#[test]
fn whatsapp_signature_extra_bytes() {
    let app_secret = generate_test_secret();
    let body = b"test body";

    let hex_sig = compute_whatsapp_signature_hex(&app_secret, body);
    let extended = format!("{hex_sig}deadbeef");
    let signature_header = format!("sha256={extended}");

    assert!(!verify_whatsapp_signature(
        &app_secret,
        body,
        &signature_header
    ));
}

#[test]
fn whatsapp_signature_odd_length_and_non_ascii_hex() {
    let app_secret = generate_test_secret();
    let body = b"test body";
    let hex_sig = compute_whatsapp_signature_hex(&app_secret, body);
    assert!(!verify_whatsapp_signature(
        &app_secret,
        body,
        &format!("sha256={}", &hex_sig[..63])
    ));
    assert!(!verify_whatsapp_signature(
        &app_secret,
        body,
        &format!("sha256={}é", &hex_sig[..62])
    ));
}

#[test]
fn nextcloud_talk_signature_matches_salted_body() {
    let body = r#"{"type":"message"}"#;
    let valid = compute_nextcloud_signature_hex("s", "r", body);
    assert!(verify_nextcloud_talk_signature("s", "r", body, &valid));
    assert!(!verify_nextcloud_talk_signature("s", "r", body, "deadbeef"));
    assert!(!verify_nextcloud_talk_signature("s", "x", body, &valid));
    assert!(!verify_nextcloud_talk_signature("t", "r", body, &valid));
    assert!(!verify_nextcloud_talk_signature("s", "r", "{}", &valid));
    assert!(!verify_nextcloud_talk_signature("s", "r", body, ""));
}

#[test]
fn nextcloud_talk_signature_salt_is_prepended() {
    // The salt and the body are joined without a separator.
    let valid = compute_nextcloud_signature_hex("secret", "ab", "cd");
    assert!(verify_nextcloud_talk_signature("secret", "a", "bcd", &valid));
    assert!(!verify_nextcloud_talk_signature("secret", "cd", "ab", &valid));
}

#[test]
fn linq_signature_uses_timestamp_as_salt() {
    let body = r#"{"event":"message"}"#;
    let valid = compute_nextcloud_signature_hex("signing", "1700000000", body);
    assert!(verify_linq_signature("signing", body, "1700000000", &valid));
    assert!(!verify_linq_signature("signing", body, "1700000001", &valid));
    assert!(!verify_linq_signature("other", body, "1700000000", &valid));
    assert!(!verify_linq_signature("signing", "{}", "1700000000", &valid));
}

#[test]
fn linq_signature_rejects_missing_timestamp() {
    let body = "payload";
    let unsalted = compute_nextcloud_signature_hex("signing", "", body);
    assert!(!verify_linq_signature("signing", body, "", &unsalted));
    assert!(verify_nextcloud_talk_signature("signing", "", body, &unsalted));
}

#[test]
fn verify_hmac_with_and_without_prefix() {
    let tag = compute_whatsapp_signature_hex("k", b"m");
    assert!(verify_hmac(b"k", b"m", &tag, None));
    assert!(verify_hmac(b"k", b"m", &format!("v1={tag}"), Some("v1=")));
    assert!(!verify_hmac(b"k", b"m", &tag, Some("v1=")));
    assert!(!verify_hmac(b"k", b"m", &format!("v1={tag}"), None));
}
