use slowclaw::pairing::{
    mint_token, pairing_code_from, PairingGuard, MAX_PAIR_ATTEMPTS, PAIR_LOCKOUT_MS,
};

fn is_hex64(token: &str) -> bool {
    token.len() == 64 && token.chars().all(|c| c.is_ascii_digit() || ('a'..='f').contains(&c))
}

#[test]
fn pairing_happy_path() {
    let mut guard = PairingGuard::new(true, &vec![]);
    let code = guard.pairing_code().unwrap();
    assert_eq!(code.len(), 6);
    assert!(code.chars().all(|c| c.is_ascii_digit()));
    assert!(!guard.is_paired());

    let token = guard.try_pair(&code, "peer").unwrap().unwrap();
    assert!(is_hex64(&token));
    assert!(guard.is_authenticated(&token));
    assert!(guard.is_paired());
    assert_eq!(guard.tokens(), vec![token]);
}

#[test]
fn pairing_code_is_used_up() {
    let mut guard = PairingGuard::new(true, &vec![]);
    let code = guard.pairing_code().unwrap();
    assert!(guard.try_pair(&code, "peer").unwrap().is_some());
    assert!(guard.pairing_code().is_none());
    assert_eq!(guard.try_pair(&code, "peer"), Ok(None));
}

#[test]
fn pairing_disabled_accepts_every_token() {
    let mut guard = PairingGuard::new(false, &vec![]);
    assert!(!guard.require_pairing());
    assert!(guard.pairing_code().is_none());
    assert!(guard.is_authenticated(""));
    assert!(guard.is_authenticated("anything"));
    assert!(guard.regenerate_pairing_code().is_none());
    assert!(guard.pairing_code().is_none());
}

#[test]
fn pairing_with_existing_tokens_has_no_code() {
    let existing = vec!["a".repeat(64)];
    let guard = PairingGuard::new(true, &existing);
    assert!(guard.require_pairing());
    assert!(guard.is_paired());
    assert!(guard.pairing_code().is_none());
    assert!(guard.is_authenticated(&"a".repeat(64)));
    assert!(!guard.is_authenticated(&"b".repeat(64)));
    assert!(!guard.is_authenticated(""));
    assert!(!guard.is_authenticated(&"a".repeat(63)));
    assert_eq!(guard.tokens(), existing);
}

#[test]
fn regenerated_code_mints_a_second_token() {
    let mut guard = PairingGuard::new(true, &vec![]);
    let first_code = guard.pairing_code().unwrap();
    let first = guard.try_pair(&first_code, "desktop").unwrap().unwrap();
    let code = guard.regenerate_pairing_code().unwrap();
    assert_eq!(guard.pairing_code().as_deref(), Some(code.as_str()));
    let second = guard.try_pair(&code, "mobile").unwrap().unwrap();
    assert_ne!(first, second);
    assert!(guard.is_authenticated(&first));
    assert!(guard.is_authenticated(&second));
    assert_eq!(guard.tokens().len(), 2);
}

#[test]
fn pairing_code_from_bytes() {
    assert_eq!(pairing_code_from(&vec![0, 0, 0, 0, 0, 0]), "000000");
    assert_eq!(pairing_code_from(&vec![0, 0, 0, 0, 0, 42, 9, 9]), "000042");
    // 0x0000000F4240 = 1_000_000, 0x0000000F423F = 999_999
    assert_eq!(pairing_code_from(&vec![0, 0, 0, 0x0f, 0x42, 0x40]), "000000");
    assert_eq!(pairing_code_from(&vec![0, 0, 0, 0x0f, 0x42, 0x3f]), "999999");
    // 2^48 - 1 = 281474976710655
    assert_eq!(pairing_code_from(&vec![255, 255, 255, 255, 255, 255]), "710655");
    assert_eq!(pairing_code_from(&vec![0, 0, 0, 0, 1, 0]), "000256");
}

#[test]
fn seeded_guard_has_the_seeded_code() {
    let guard = PairingGuard::with_seed(true, &vec![], &vec![0, 0, 0, 1, 226, 64]);
    assert_eq!(guard.pairing_code().as_deref(), Some("123456"));
}

#[test]
fn wrong_codes_lock_the_client_out() {
    let mut guard = PairingGuard::with_seed(true, &vec![], &vec![0, 0, 0, 1, 226, 64]);
    assert_eq!(MAX_PAIR_ATTEMPTS, 5);
    assert_eq!(PAIR_LOCKOUT_MS, 300_000);
    for i in 0..5u64 {
        assert_eq!(guard.try_pair_at("000000", "attacker", 1_000 + i, "t".repeat(64)), Ok(None));
    }
    // The lockout began with the fifth failure, at 1_004 ms.
    assert_eq!(guard.try_pair_at("123456", "attacker", 1_004, "t".repeat(64)), Err(300));
    assert_eq!(guard.try_pair_at("123456", "attacker", 2_004, "t".repeat(64)), Err(299));
    assert_eq!(guard.try_pair_at("123456", "attacker", 2_005, "t".repeat(64)), Err(299));
    assert_eq!(guard.try_pair_at("123456", "attacker", 301_003, "t".repeat(64)), Err(1));
    // Another client is not affected.
    assert_eq!(guard.try_pair_at("000000", "other", 2_000, "t".repeat(64)), Ok(None));
    // Once the lockout is over the right code pairs.
    assert_eq!(
        guard.try_pair_at("123456", "attacker", 301_004, "t".repeat(64)),
        Ok(Some("t".repeat(64)))
    );
    assert!(guard.is_authenticated(&"t".repeat(64)));
}

#[test]
fn failures_are_forgotten_after_the_window() {
    let mut guard = PairingGuard::with_seed(true, &vec![], &vec![0, 0, 0, 1, 226, 64]);
    for i in 0..4u64 {
        assert_eq!(guard.try_pair_at("000000", "c", i, "t".repeat(64)), Ok(None));
    }
    // The first failure was at 0; at 300_000 the record has expired.
    assert_eq!(guard.try_pair_at("000000", "c", 300_000, "t".repeat(64)), Ok(None));
    for i in 1..4u64 {
        assert_eq!(guard.try_pair_at("000000", "c", 300_000 + i, "t".repeat(64)), Ok(None));
    }
    assert_eq!(guard.try_pair_at("000000", "c", 300_004, "t".repeat(64)), Ok(None));
    assert!(guard.try_pair_at("000000", "c", 300_005, "t".repeat(64)).is_err());
}

#[test]
fn success_clears_the_failures_of_the_client() {
    let mut guard = PairingGuard::with_seed(true, &vec![], &vec![0, 0, 0, 1, 226, 64]);
    for i in 0..4u64 {
        assert_eq!(guard.try_pair_at("000000", "c", i, "x".repeat(64)), Ok(None));
    }
    assert!(guard.try_pair_at("123456", "c", 10, "x".repeat(64)).unwrap().is_some());
    let code = guard.regenerate_pairing_code_from(&vec![0, 0, 0, 0, 0, 7]).unwrap();
    assert_eq!(code, "000007");
    for i in 0..4u64 {
        assert_eq!(guard.try_pair_at("000000", "c", 20 + i, "y".repeat(64)), Ok(None));
    }
    assert_eq!(guard.try_pair_at("000007", "c", 30, "y".repeat(64)), Ok(Some("y".repeat(64))));
}

#[test]
fn minted_tokens_are_hex_and_differ() {
    let a = mint_token();
    let b = mint_token();
    assert!(is_hex64(&a));
    assert!(is_hex64(&b));
    assert_ne!(a, b);
}

#[test]
fn regenerated_codes_are_six_digits() {
    let mut guard = PairingGuard::new(true, &vec!["a".repeat(64)]);
    for _ in 0..20 {
        let code = guard.regenerate_pairing_code().unwrap();
        assert_eq!(code.len(), 6);
        assert!(code.chars().all(|c| c.is_ascii_digit()));
        assert_eq!(guard.pairing_code().as_deref(), Some(code.as_str()));
    }
    assert_eq!(guard.tokens(), vec!["a".repeat(64)]);
}

#[test]
fn minted_tokens_use_every_hex_position() {
    // No position of the token is fixed: over many tokens each one varies.
    let first: Vec<char> = mint_token().chars().collect();
    let mut varies = vec![false; 64];
    for _ in 0..400 {
        for (i, c) in mint_token().chars().enumerate() {
            if c != first[i] {
                varies[i] = true;
            }
        }
    }
    assert!(varies.iter().all(|v| *v));
}
