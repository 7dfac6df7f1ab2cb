use keuangan_bot::session::{
    has_access, login, logout_cookie, session_config, session_cookie, session_value_for,
    Credentials, LoginOutcome, SessionConfigError,
};

fn pw(s: &str) -> Option<String> {
    Some(s.to_string())
}

fn creds(password: &str, secret: &str) -> Option<Credentials> {
    Some(Credentials { password: password.to_string(), secret: secret.to_string() })
}

#[test]
fn configs_from_env() {
    let long = "s".repeat(32);
    assert_eq!(session_config(None, None), Ok(None));
    assert_eq!(session_config(Some(String::new()), None), Ok(None));
    assert_eq!(session_config(Some(String::new()), Some("x".to_string())), Ok(None));
    assert_eq!(session_config(pw("rahasia"), None), Err(SessionConfigError::WeakSecret));
    assert_eq!(session_config(pw("rahasia"), Some(String::new())), Err(SessionConfigError::WeakSecret));
    assert_eq!(session_config(pw("rahasia"), Some("s".repeat(31))), Err(SessionConfigError::WeakSecret));
    assert_eq!(session_config(pw("rahasia"), Some(long.clone())), Ok(creds("rahasia", &long)));
    // Chars are counted, not bytes.
    assert_eq!(session_config(pw("p"), Some("é".repeat(31))), Err(SessionConfigError::WeakSecret));
}

#[test]
fn session_value_is_hmac_base64url() {
    // HMAC-SHA256(key = "key", "dashboard-authorized-v1"), base64url without padding.
    let v = session_value_for("key");
    assert_eq!(v.len(), 43);
    assert!(v.chars().all(|c| c.is_ascii_alphanumeric() || c == '-' || c == '_'));
    assert_ne!(v, session_value_for("other key"));
    assert_eq!(v, session_value_for("key"));
    assert_ne!(v, "key");
}

#[test]
fn session_value_known_answer() {
    // base64url(HMAC-SHA256(key = "secret", "dashboard-authorized-v1")), no padding.
    assert_eq!(session_value_for("secret"), "aeBF6P0OjLmrbKSKVtpg6Qdd3oYeiRp9soZ9V9UWhrE");
}

#[test]
fn cookies_read() {
    assert_eq!(session_cookie("dashboard_session=abc"), Some("abc".to_string()));
    assert_eq!(session_cookie("a=1; dashboard_session=xyz; b=2"), Some("xyz".to_string()));
    assert_eq!(session_cookie(" dashboard_session=q ;x=y"), Some("q".to_string()));
    assert_eq!(session_cookie("a=1; b=2"), None);
    assert_eq!(session_cookie("dashboard_sessionx=1"), None);
    assert_eq!(session_cookie(""), None);
    assert_eq!(session_cookie("dashboard_session=1; dashboard_session=2"), Some("1".to_string()));
}

#[test]
fn access_rules() {
    let secret = "s".repeat(40);
    let good = Some(session_value_for(&secret));
    // Open: with or without a cookie.
    assert!(has_access(&None, &None));
    assert!(has_access(&None, &Some("junk".to_string())));
    // With a password: only the signed session.
    assert!(has_access(&creds("pw", &secret), &good));
    assert!(!has_access(&creds("pw", &secret), &None));
    assert!(!has_access(&creds("pw", &secret), &Some("junk".to_string())));
    assert!(!has_access(&creds("pw", &"t".repeat(40)), &good));
}

#[test]
fn logins() {
    let secret = "k".repeat(32);
    assert_eq!(login(&None, "x"), LoginOutcome::Open);
    assert_eq!(login(&creds("pw", &secret), "wrong"), LoginOutcome::Rejected);
    match login(&creds("pw", &secret), "pw") {
        LoginOutcome::Accepted(h) => {
            assert_eq!(
                h,
                format!(
                    "dashboard_session={}; Path=/; HttpOnly; SameSite=Lax; Max-Age=2592000",
                    session_value_for(&secret)
                )
            );
        }
        other => panic!("expected a session, got {:?}", other),
    }
    assert_eq!(logout_cookie(), "dashboard_session=; Path=/; HttpOnly; SameSite=Lax; Max-Age=0");
}

#[test]
fn law_login_cookie_reads_back_example() {
    let secret = "z".repeat(48);
    let value = session_value_for(&secret);
    let back = session_cookie(&format!("dashboard_session={}", value));
    assert_eq!(back, Some(value));
    assert!(has_access(&creds("pw", &secret), &back));
}
