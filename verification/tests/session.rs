use bili_live_core::domain::{AuthData, Cookie, CoreError, LoginState, TokenInfo};
use bili_live_core::login::{
    auth_after_web_login, classify_nav, classify_poll_code, decode_qr_response, poll_step,
    PollOutcome, POLL_EXPIRED, POLL_NOT_SCANNED, POLL_SCANNED_WAITING, POLL_SUCCESS,
};
use bili_live_core::refresh::{
    extract_refresh_token, generate_correspond_path, refresh_plaintext, refresh_step,
    RefreshAction, RefreshEvent, RefreshPhase,
};
use bili_live_core::retry::{
    random_user_agent, user_agent_at, AttemptOutcome, RetryDecision, RetryState, RETRY_CAP,
    USER_AGENT_COUNT,
};

fn stored_auth(refresh_token: &str) -> AuthData {
    AuthData {
        token: TokenInfo {
            access_token: "acc".to_string(),
            refresh_token: refresh_token.to_string(),
            expires_in: 7776000,
        },
        cookies: vec![],
    }
}

#[test]
fn retry_cap_hits_exactly_three_attempts() {
    let mut state = RetryState::new();
    let mut calls = 0u32;
    let outcome = AttemptOutcome::Response { http_status: 412, body_code: 0 };
    loop {
        calls += 1;
        match state.record(&outcome) {
            RetryDecision::RetryNext => continue,
            RetryDecision::GiveUp => break,
            RetryDecision::Accept => panic!("an intercepted attempt must not be accepted"),
        }
    }
    assert_eq!(calls, 3);
    assert_eq!(calls as u64, RETRY_CAP);
}

#[test]
fn retry_treats_body_code_as_interception() {
    let mut state = RetryState::new();
    let intercepted = AttemptOutcome::Response { http_status: 200, body_code: -412 };
    assert_eq!(state.record(&intercepted), RetryDecision::RetryNext);
    let clean = AttemptOutcome::Response { http_status: 200, body_code: 0 };
    assert_eq!(state.record(&clean), RetryDecision::Accept);
}

#[test]
fn retry_counts_transport_failures() {
    let mut state = RetryState::new();
    let failed = AttemptOutcome::Failure { message: "connection reset".to_string() };
    assert_eq!(state.record(&failed), RetryDecision::RetryNext);
    assert_eq!(state.record(&failed), RetryDecision::RetryNext);
    assert_eq!(state.record(&failed), RetryDecision::GiveUp);
}

#[test]
fn user_agent_pool_rotation() {
    let drawn = random_user_agent();
    let mut found = false;
    for i in 0..USER_AGENT_COUNT {
        if user_agent_at(i) == drawn {
            found = true;
        }
    }
    assert!(found, "the drawn User-Agent must come from the fixed pool");
}

#[test]
fn poll_success_logs_in() {
    assert_eq!(classify_poll_code(POLL_SUCCESS), PollOutcome::Success);
    let state = poll_step(POLL_SUCCESS, String::new()).unwrap();
    assert!(matches!(state, LoginState::LoggedIn));
}

#[test]
fn poll_expiry_is_never_an_error_and_never_a_login() {
    assert_eq!(classify_poll_code(POLL_EXPIRED), PollOutcome::Expired);
    let state = poll_step(POLL_EXPIRED, String::new()).unwrap();
    assert!(matches!(state, LoginState::NeedQrCode));
}

#[test]
fn poll_waiting_codes_stay_pending() {
    assert_eq!(classify_poll_code(POLL_NOT_SCANNED), PollOutcome::WaitingScan);
    assert_eq!(classify_poll_code(POLL_SCANNED_WAITING), PollOutcome::WaitingConfirm);
    assert!(matches!(poll_step(POLL_NOT_SCANNED, String::new()), Ok(LoginState::NeedQrCode)));
    assert!(matches!(poll_step(POLL_SCANNED_WAITING, String::new()), Ok(LoginState::NeedQrCode)));
}

#[test]
fn poll_other_codes_carry_the_platform_message() {
    let err = poll_step(-101, "account unknown".to_string()).unwrap_err();
    match err {
        CoreError::Auth { message } => assert_eq!(message, "account unknown"),
        _ => panic!("a poll failure is an authentication error"),
    }
}

#[test]
fn nav_classification_needs_zero_code_and_flag() {
    assert!(matches!(classify_nav(Some(0), Some(true)), LoginState::LoggedIn));
    assert!(matches!(classify_nav(Some(0), Some(false)), LoginState::NeedQrCode));
    assert!(matches!(classify_nav(Some(-1), Some(true)), LoginState::NeedQrCode));
    assert!(matches!(classify_nav(None, None), LoginState::NeedQrCode));
}

#[test]
fn qr_issuance_decodes_or_fails_with_message() {
    let ok = decode_qr_response(
        Some(0),
        None,
        Some("https://example.invalid/qr".to_string()),
        Some("key123".to_string()),
    )
    .unwrap();
    assert_eq!(ok.url, "https://example.invalid/qr");
    assert_eq!(ok.qrcode_key, "key123");
    let err = decode_qr_response(Some(86000), Some("qr refused".to_string()), None, None)
        .unwrap_err();
    match err {
        CoreError::Auth { message } => assert_eq!(message, "qr refused"),
        _ => panic!("a refused issuance is an authentication error"),
    }
}

#[test]
fn web_login_credentials_are_cookie_borne() {
    let cookies = vec![Cookie {
        name: "bili_jct".to_string(),
        value: "csrfvalue".to_string(),
        domain: ".bilibili.com".to_string(),
        expires: 0,
    }];
    let auth = auth_after_web_login(cookies.clone());
    assert_eq!(auth.token.access_token, "");
    assert_eq!(auth.token.refresh_token, "");
    assert_eq!(auth.token.expires_in, 0);
    assert_eq!(auth.cookies, cookies);
}

#[test]
fn refresh_without_csrf_cookie_is_a_no_op() {
    let (phase, action) = refresh_step(
        RefreshPhase::Idle,
        RefreshEvent::Begin { csrf: None, stored: Some(stored_auth("tok")) },
    );
    assert_eq!(phase, RefreshPhase::Finished);
    assert_eq!(action, RefreshAction::Finish);
}

#[test]
fn refresh_not_needed_is_a_no_op() {
    let (phase, action) = refresh_step(
        RefreshPhase::Idle,
        RefreshEvent::Begin { csrf: Some("c".to_string()), stored: Some(stored_auth("tok")) },
    );
    assert_eq!(action, RefreshAction::GetCookieInfo);
    let (phase2, action2) = refresh_step(
        phase,
        RefreshEvent::CookieInfo {
            code: Some(0),
            message: None,
            refresh: Some(false),
            timestamp: None,
            now_ms: 5,
        },
    );
    assert_eq!(phase2, RefreshPhase::Finished);
    assert_eq!(action2, RefreshAction::Finish);
}

#[test]
fn refresh_fails_on_explicit_info_error() {
    let (p1, _) = refresh_step(
        RefreshPhase::Idle,
        RefreshEvent::Begin { csrf: Some("c".to_string()), stored: Some(stored_auth("tok")) },
    );
    let (p2, a2) = refresh_step(
        p1,
        RefreshEvent::CookieInfo {
            code: Some(-101),
            message: Some("account unknown".to_string()),
            refresh: Some(true),
            timestamp: Some(1),
            now_ms: 1,
        },
    );
    assert_eq!(p2, RefreshPhase::Finished);
    match a2 {
        RefreshAction::Fail { error } => match error {
            CoreError::Auth { message } => assert_eq!(message, "account unknown"),
            other => panic!("an explicit info failure is an authentication error, got {:?}", other),
        },
        other => panic!("expected a failure, got {:?}", other),
    }
}

#[test]
fn refresh_reads_a_missing_info_code_leniently() {
    let (p1, _) = refresh_step(
        RefreshPhase::Idle,
        RefreshEvent::Begin { csrf: Some("c".to_string()), stored: Some(stored_auth("tok")) },
    );
    let (p2, a2) = refresh_step(
        p1,
        RefreshEvent::CookieInfo {
            code: None,
            message: None,
            refresh: None,
            timestamp: None,
            now_ms: 1,
        },
    );
    assert_eq!(p2, RefreshPhase::Finished);
    assert_eq!(a2, RefreshAction::Finish);
}

#[test]
fn refresh_protocol_rotates_the_token() {
    let token_hex = "0123456789abcdef0123456789abcdef";
    let (p1, a1) = refresh_step(
        RefreshPhase::Idle,
        RefreshEvent::Begin {
            csrf: Some("csrfv".to_string()),
            stored: Some(stored_auth("oldtok")),
        },
    );
    assert_eq!(a1, RefreshAction::GetCookieInfo);
    let (p2, a2) = refresh_step(
        p1,
        RefreshEvent::CookieInfo {
            code: Some(0),
            message: None,
            refresh: Some(true),
            timestamp: Some(1234),
            now_ms: 999,
        },
    );
    let path = match a2 {
        RefreshAction::GetCorrespondPage { path } => path,
        other => panic!("expected a page fetch, got {:?}", other),
    };
    assert_eq!(path.len() % 2, 0);
    assert!(path.iter().all(|b| b.is_ascii_hexdigit() && !b.is_ascii_uppercase()));
    let html = format!("<header></header><div id=\"1-name\">{}</div><footer>", token_hex);
    let (p3, a3) = refresh_step(p2, RefreshEvent::PageBody { html });
    let form = match a3 {
        RefreshAction::PostRefresh { form } => form,
        other => panic!("expected the refresh exchange, got {:?}", other),
    };
    assert_eq!(form.len(), 4);
    assert_eq!(form[0], ("csrf".to_string(), "csrfv".to_string()));
    assert_eq!(form[1], ("refresh_csrf".to_string(), token_hex.to_string()));
    assert_eq!(form[2], ("refresh_token".to_string(), "oldtok".to_string()));
    assert_eq!(form[3], ("source".to_string(), "main_web".to_string()));
    let (p4, a4) = refresh_step(
        p3,
        RefreshEvent::RefreshAnswer {
            code: Some(0),
            message: None,
            new_token: Some("newtok".to_string()),
            csrf_now: None,
        },
    );
    let confirm = match a4 {
        RefreshAction::PostConfirm { form } => form,
        other => panic!("expected the confirmation, got {:?}", other),
    };
    assert_eq!(confirm[0], ("csrf".to_string(), "csrfv".to_string()));
    assert_eq!(confirm[1], ("refresh_token".to_string(), "oldtok".to_string()));
    let (p5, a5) = refresh_step(p4, RefreshEvent::ConfirmDone);
    assert_eq!(a5, RefreshAction::SnapshotCookies);
    let snapshot = vec![Cookie {
        name: "bili_jct".to_string(),
        value: "fresh".to_string(),
        domain: ".bilibili.com".to_string(),
        expires: 0,
    }];
    let (p6, a6) = refresh_step(p5, RefreshEvent::CookiesSnapshot { cookies: snapshot.clone() });
    assert_eq!(p6, RefreshPhase::Finished);
    match a6 {
        RefreshAction::Persist { auth } => {
            assert_eq!(auth.token.refresh_token, "newtok");
            assert_eq!(auth.token.access_token, "acc");
            assert_eq!(auth.token.expires_in, 7776000);
            assert_eq!(auth.cookies, snapshot);
        },
        other => panic!("expected persistence, got {:?}", other),
    }
}

#[test]
fn refresh_fails_without_stored_token() {
    let (p1, _) = refresh_step(
        RefreshPhase::Idle,
        RefreshEvent::Begin { csrf: Some("c".to_string()), stored: None },
    );
    let (p2, _) = refresh_step(
        p1,
        RefreshEvent::CookieInfo {
            code: Some(0),
            message: None,
            refresh: Some(true),
            timestamp: Some(1),
            now_ms: 1,
        },
    );
    let html = "<div id=\"1-name\">0123456789abcdef0123456789abcdef</div>".to_string();
    let (p3, a3) = refresh_step(p2, RefreshEvent::PageBody { html });
    assert_eq!(p3, RefreshPhase::Finished);
    match a3 {
        RefreshAction::Fail { error } => assert!(matches!(error, CoreError::Auth { .. })),
        other => panic!("expected a failure, got {:?}", other),
    }
}

#[test]
fn refresh_fails_on_missing_page_marker() {
    let (p1, _) = refresh_step(
        RefreshPhase::Idle,
        RefreshEvent::Begin { csrf: Some("c".to_string()), stored: Some(stored_auth("tok")) },
    );
    let (p2, _) = refresh_step(
        p1,
        RefreshEvent::CookieInfo {
            code: Some(0),
            message: None,
            refresh: Some(true),
            timestamp: Some(1),
            now_ms: 1,
        },
    );
    let (p3, a3) = refresh_step(p2, RefreshEvent::PageBody { html: "<html>nothing</html>".to_string() });
    assert_eq!(p3, RefreshPhase::Finished);
    match a3 {
        RefreshAction::Fail { error } => assert!(matches!(error, CoreError::Transport { .. })),
        other => panic!("expected a failure, got {:?}", other),
    }
}

#[test]
fn refresh_out_of_step_fails() {
    let (phase, action) = refresh_step(RefreshPhase::Idle, RefreshEvent::ConfirmDone);
    assert_eq!(phase, RefreshPhase::Finished);
    assert!(matches!(action, RefreshAction::Fail { error: CoreError::Transport { .. } }));
}

#[test]
fn correspond_path_is_fresh_hex() {
    let path = generate_correspond_path(1234).expect("the fixed key must parse");
    // a 1024-bit modulus gives a 128-byte ciphertext, 256 hex digits
    assert_eq!(path.len(), 256);
    assert!(path.iter().all(|b| b.is_ascii_hexdigit() && !b.is_ascii_uppercase()));
    // the plaintext is never echoed: the ciphertext is far longer
    assert_ne!(path, refresh_plaintext(1234));
    // OAEP is randomized: two encryptions of one timestamp differ
    let again = generate_correspond_path(1234).unwrap();
    assert_ne!(path, again);
}

#[test]
fn refresh_plaintext_embeds_the_timestamp() {
    assert_eq!(refresh_plaintext(1234), b"refresh_1234".to_vec());
    assert_eq!(refresh_plaintext(-5), b"refresh_-5".to_vec());
}

#[test]
fn token_extraction_finds_the_first_marker() {
    let tok = "00112233445566778899aabbccddeeff";
    let html = format!("<body><div id=\"1-name\">{}</div></body>", tok);
    assert_eq!(extract_refresh_token(&html), Some(tok.to_string()));
    let single = format!("<div id='1-name'>{}</div>", tok);
    assert_eq!(extract_refresh_token(&single), Some(tok.to_string()));
    assert_eq!(extract_refresh_token("<div id=\"1-name\">short</div>"), None);
    let bad_digits = "<div id=\"1-name\">00112233445566778899AABBCCDDEEFF</div>";
    assert_eq!(extract_refresh_token(bad_digits), None);
    assert_eq!(extract_refresh_token(""), None);
}

#[test]
fn persistence_error_carries_its_message() {
    let e = CoreError::Persistence { message: "disk full".to_string() };
    assert_eq!(e.message(), "disk full");
    assert!(!e.is_auth());
}
