//! The QR login state machine: issuing a login QR payload, polling it,
//! and checking an existing session, each decision a function of the
//! platform's decoded answer. The driver performs the HTTP round trips
//! and hands the decoded fields in; on a successful poll it snapshots
//! the cookie jar and persists the credentials this module builds.

use vstd::prelude::*;
use crate::domain::{spec_cookies_unique, AuthData, Cookie, CoreError, LoginState, TokenInfo, WebQrInfo};
use crate::lenient::{spec_str_or_empty, str_or_empty};

verus! {

/// Poll status code: the QR was scanned and confirmed; the session is
/// established.
pub const POLL_SUCCESS: i64 = 0;

/// Poll status code: the QR expired; the caller should issue a new one.
pub const POLL_EXPIRED: i64 = 86038;

/// Poll status code: the QR was scanned, confirmation is pending.
pub const POLL_SCANNED_WAITING: i64 = 86090;

/// Poll status code: the QR was not scanned yet.
pub const POLL_NOT_SCANNED: i64 = 86101;

/// The fine-grained reading of one poll answer, for callers that render
/// progress feedback.
#[derive(Debug, Clone, Copy, PartialEq, Eq, Structural)]
pub enum PollOutcome {
    /// The login succeeded; credentials are to be persisted.
    Success,
    /// The QR expired; a new one is needed.
    Expired,
    /// Not scanned yet; keep polling.
    WaitingScan,
    /// Scanned, awaiting confirmation; keep polling.
    WaitingConfirm,
    /// Any other non-zero code: an authentication failure.
    Failed,
}

/// How a poll status code reads.
pub open spec fn spec_classify_poll(code: i64) -> PollOutcome {
    if code == POLL_SUCCESS {
        PollOutcome::Success
    } else if code == POLL_EXPIRED {
        PollOutcome::Expired
    } else if code == POLL_NOT_SCANNED {
        PollOutcome::WaitingScan
    } else if code == POLL_SCANNED_WAITING {
        PollOutcome::WaitingConfirm
    } else {
        PollOutcome::Failed
    }
}

/// Classifies one poll status code.
pub fn classify_poll_code(code: i64) -> (r: PollOutcome)
    ensures
        r == spec_classify_poll(code),
{
    if code == POLL_SUCCESS {
        PollOutcome::Success
    } else if code == POLL_EXPIRED {
        PollOutcome::Expired
    } else if code == POLL_NOT_SCANNED {
        PollOutcome::WaitingScan
    } else if code == POLL_SCANNED_WAITING {
        PollOutcome::WaitingConfirm
    } else {
        PollOutcome::Failed
    }
}

/// Decides one poll attempt. Success logs in; the expired and both
/// waiting codes stay at `NeedQrCode`; any other non-zero code fails
/// with the platform's message. An expired QR is never an error and
/// never a login.
pub fn poll_step(code: i64, message: String) -> (r: Result<LoginState, CoreError>)
    ensures
        r is Ok <==> spec_classify_poll(code) != PollOutcome::Failed,
        r matches Ok(s) ==> (s == LoginState::LoggedIn <==> code == POLL_SUCCESS),
        code == POLL_EXPIRED ==> r == Ok::<LoginState, CoreError>(LoginState::NeedQrCode),
        r matches Err(e) ==> e == (CoreError::Auth { message }),
{
    let outcome = classify_poll_code(code);
    match outcome {
        PollOutcome::Success => Ok(LoginState::LoggedIn),
        PollOutcome::Expired => Ok(LoginState::NeedQrCode),
        PollOutcome::WaitingScan => Ok(LoginState::NeedQrCode),
        PollOutcome::WaitingConfirm => Ok(LoginState::NeedQrCode),
        PollOutcome::Failed => Err(CoreError::Auth { message }),
    }
}

/// Reads the authenticated-only navigation answer: logged in exactly
/// when the status code is zero and the flag says so; everything else,
/// a transport failure included, reads as `NeedQrCode`.
pub fn classify_nav(code: Option<i64>, is_login: Option<bool>) -> (r: LoginState)
    ensures
        r == LoginState::LoggedIn <==> (code == Some(0i64) && is_login == Some(true)),
{
    match (code, is_login) {
        (Some(c), Some(flag)) => {
            if c == 0 && flag {
                LoginState::LoggedIn
            } else {
                LoginState::NeedQrCode
            }
        },
        _ => LoginState::NeedQrCode,
    }
}

/// Decodes the QR issuance answer: a zero status code yields the QR
/// session, with absent fields reading as empty; a non-zero code fails
/// with the platform's message.
pub fn decode_qr_response(
    code: Option<i64>,
    message: Option<String>,
    url: Option<String>,
    qrcode_key: Option<String>,
) -> (r: Result<WebQrInfo, CoreError>)
    ensures
        r is Ok <==> code == Some(0i64),
        r matches Ok(q) ==> q.url@ == spec_str_or_empty(url) && q.qrcode_key@ == spec_str_or_empty(
            qrcode_key,
        ),
        r matches Err(e) ==> e is Auth && e.spec_message() == spec_str_or_empty(message),
{
    let ok = match code {
        Some(c) => c == 0,
        None => false,
    };
    if ok {
        Ok(WebQrInfo { url: str_or_empty(url), qrcode_key: str_or_empty(qrcode_key) })
    } else {
        Err(CoreError::Auth { message: str_or_empty(message) })
    }
}

/// The credentials persisted after a web-flavour QR login: an empty
/// token record (the web flow is cookie-borne) and the jar snapshot.
///
/// The poll answer's own token payload is deliberately not captured:
/// the web flow authenticates through cookies alone. Until a refresh
/// exchange has stored a refresh token, the refresh protocol therefore
/// stops with "cannot refresh without a stored refresh token"; the
/// TV-flavour flow, which the app-secret signature scheme serves, is
/// the one that carries tokens.
pub fn auth_after_web_login(cookies: Vec<Cookie>) -> (r: AuthData)
    ensures
        r.token.access_token@ == Seq::<char>::empty(),
        r.token.refresh_token@ == Seq::<char>::empty(),
        r.token.expires_in == 0,
        r.cookies == cookies,
        spec_cookies_unique(cookies@) ==> r.wf(),
{
    AuthData { token: TokenInfo::default(), cookies }
}

} // verus!
