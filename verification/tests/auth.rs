use ubuntu_drop::auth::{
    constant_eq, issue, lockout_for, lockout_message, now, token_for, verify, verify_at,
    PinCheck, Throttle, MAX_STRIKES, NANOS_PER_SEC,
};

#[test]
fn round_trips_a_token() {
    let secret = "abc123";
    let token = issue(secret, 60);
    assert!(verify(secret, &token));
}

#[test]
fn rejects_wrong_secret_and_tamper() {
    let token = issue("abc123", 60);
    assert!(!verify("different", &token));
    assert!(!verify("abc123", "9999999999.deadbeef"));
    assert!(!verify("abc123", "garbage"));
}

#[test]
fn rejects_expired_token() {
    let secret = "abc123";
    let expiry = now() - 1;
    let token = token_for(secret, expiry);
    assert!(!verify(secret, &token));
}

#[test]
fn locks_out_after_repeated_failures() {
    let mut t = Throttle::default();
    let ip = "10.0.0.9";
    for _ in 0..MAX_STRIKES - 1 {
        t.record_failure(ip);
    }
    assert!(t.locked_for(ip).is_none());
    t.record_failure(ip);
    assert!(t.locked_for(ip).is_some());

    t.record_success(ip);
    assert!(t.locked_for(ip).is_none());
}

#[test]
fn token_has_decimal_expiry_and_hex_signature() {
    let token = token_for("abc123", 1700000000);
    let (exp, sig) = token.split_once('.').unwrap();
    assert_eq!(exp, "1700000000");
    assert_eq!(sig.len(), 64);
    assert!(sig.chars().all(|c| c.is_ascii_hexdigit() && !c.is_ascii_uppercase()));
}

#[test]
fn token_signature_matches_known_hmac() {
    assert_eq!(
        token_for("key", 1),
        "1.6da91fb91517be1f5cdcf3af91d7d40c717dd638a306157606fb2e584f7ae926"
    );
    assert_eq!(
        token_for("abc123", 1700000000),
        "1700000000.1fb0ccda472d8bfebb1d00ba4f9c85dc285983a60f4c337359a690ea51197527"
    );
}

#[test]
fn verify_at_respects_the_expiry_boundary() {
    let token = token_for("s", 1000);
    assert!(verify_at("s", &token, 1000));
    assert!(verify_at("s", &token, 0));
    assert!(!verify_at("s", &token, 1001));
    assert!(!verify_at("t", &token, 999));
}

#[test]
fn verify_at_rejects_malformed_expiry() {
    let token = token_for("s", 1000);
    let sig = &token[5..];
    assert!(verify_at("s", &format!("+1000.{sig}"), 10));
    assert!(verify_at("s", &format!("01000.{sig}"), 10));
    assert!(!verify_at("s", &format!("1000x.{sig}"), 10));
    assert!(!verify_at("s", &format!(".{sig}"), 10));
    assert!(!verify_at("s", &format!("99999999999999999999.{sig}"), 10));
}

#[test]
fn constant_eq_compares_exactly() {
    assert!(constant_eq("481902", "481902"));
    assert!(!constant_eq("481902", "481903"));
    assert!(!constant_eq("48190", "481902"));
    assert!(constant_eq("", ""));
    assert!(!constant_eq("é", "e"));
}

#[test]
fn lockout_doubles_to_a_cap() {
    assert_eq!(lockout_for(5), 30);
    assert_eq!(lockout_for(6), 60);
    assert_eq!(lockout_for(7), 120);
    assert_eq!(lockout_for(9), 480);
    assert_eq!(lockout_for(10), 900);
    assert_eq!(lockout_for(40), 900);
}

#[test]
fn throttle_locks_at_the_fifth_failure_for_thirty_seconds() {
    const S: u64 = NANOS_PER_SEC;
    let mut t = Throttle::new();
    for i in 0..4 {
        assert_eq!(t.check_pin_at("1.2.3.4", "000000", "481902", (100 + i) * S), PinCheck::Wrong);
        assert_eq!(t.locked_for_at("1.2.3.4", 104 * S), None);
    }
    assert_eq!(t.check_pin_at("1.2.3.4", "000000", "481902", 110 * S), PinCheck::Wrong);
    assert_eq!(t.locked_for_at("1.2.3.4", 110 * S), Some(30 * S));
    assert_eq!(t.check_pin_at("1.2.3.4", "481902", "481902", 120 * S), PinCheck::Locked(20));
    // Wait is reported in whole seconds, rounded down, as `Duration::as_secs`.
    assert_eq!(t.check_pin_at("1.2.3.4", "481902", "481902", 120 * S + 1), PinCheck::Locked(19));
    assert_eq!(t.locked_for_at("1.2.3.4", 140 * S), Some(0));
    assert_eq!(t.locked_for_at("1.2.3.4", 140 * S + 1), None);
    assert_eq!(t.check_pin_at("1.2.3.4", "000000", "481902", 141 * S), PinCheck::Wrong);
    assert_eq!(t.locked_for_at("1.2.3.4", 141 * S), Some(60 * S));
    assert_eq!(t.locked_for_at("5.6.7.8", 141 * S), None);
    assert_eq!(t.check_pin_at("1.2.3.4", " 481902\n", "481902", 500 * S), PinCheck::Granted);
    assert_eq!(t.locked_for_at("1.2.3.4", 500 * S), None);
}

#[test]
fn lockout_message_names_the_wait() {
    assert_eq!(lockout_message(27), "Too many attempts. Wait 27s.");
}

#[test]
fn signatures_are_sixty_four_hex_digits() {
    let t = token_for("abc123", 42);
    let (e, sig) = t.split_once('.').unwrap();
    assert_eq!(e, "42");
    assert_eq!(sig.len(), 64);
    assert!(sig.chars().all(|c| c.is_ascii_digit() || ('a'..='f').contains(&c)));
}
