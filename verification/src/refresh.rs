//! The cookie refresh protocol: decide whether the session needs
//! renewal, build the RSA-OAEP "correspond path" challenge, extract the
//! confirmation token from the platform page, exchange the stored
//! refresh token for a fresh one, and rebuild the credentials to
//! persist. The driver performs the HTTP round trips; every decision
//! between them is made here.

use vstd::prelude::*;
use vstd::string::{StrSliceExecFns, StringExecFns};
use crate::domain::{spec_cookies_unique, AuthData, Cookie, CoreError, TokenInfo};
use crate::lenient::{spec_bool_or, spec_i64_or, spec_str_or_empty, i64_or, bool_or, str_or_empty};
use crate::text::{
    str_eq,
    spec_dec_int, spec_hex_lower, spec_is_hex_lower, i64_to_dec, hex_lower, lemma_hex_lower_digits,
};

verus! {

/// The platform's published RSA public key, PEM-encoded.
pub const REFRESH_PUBLIC_KEY_PEM: &'static str = "-----BEGIN PUBLIC KEY-----\nMIGfMA0GCSqGSIb3DQEBAQUAA4GNADCBiQKBgQDLgd2OAkcGVtoE3ThUREbio0Eg\nUc/prcajMKXvkCKFCWhJYJcLkcM2DKKcSeFpD/j6Boy538YXnR6VhcuUJOhH2x71\nnzPjfdTcqMz7djHum0qSZA0AyCBDABUqCrfNgCiJ00Ra7GmRj+YCK1NJEuewlb40\nJNrRuoEUXpabUzGB8QIDAQAB\n-----END PUBLIC KEY-----";

/// The challenge plaintext for a timestamp: `refresh_` then the decimal
/// timestamp.
pub open spec fn spec_refresh_plaintext(ts: int) -> Seq<u8> {
    seq![114u8, 101u8, 102u8, 114u8, 101u8, 115u8, 104u8, 95u8] + spec_dec_int(ts)
}

/// Builds the challenge plaintext.
pub fn refresh_plaintext(ts: i64) -> (r: Vec<u8>)
    ensures
        r@ == spec_refresh_plaintext(ts as int),
{
    let mut v: Vec<u8> = Vec::new();
    v.push(114);
    v.push(101);
    v.push(102);
    v.push(114);
    v.push(101);
    v.push(115);
    v.push(104);
    v.push(95);
    let digits = i64_to_dec(ts);
    let mut j: usize = 0;
    let ghost head = v@;
    while j < digits.len()
        invariant
            j <= digits@.len(),
            v@ == head + digits@.take(j as int),
        decreases digits@.len() - j,
    {
        v.push(digits[j]);
        proof {
            assert(digits@.take(j as int + 1) =~= digits@.take(j as int).push(digits@[j as int]));
            assert(v@ =~= head + digits@.take(j as int + 1));
        }
        j = j + 1;
    }
    proof {
        assert(digits@.take(digits@.len() as int) =~= digits@);
        assert(v@ =~= spec_refresh_plaintext(ts as int));
    }
    v
}

/// The `rsa` crate's public-key type, carried opaquely between the
/// parse and the encryption.
#[verifier::external_type_specification]
#[verifier::external_body]
pub struct ExRsaPublicKey(rsa::RsaPublicKey);

/// Relies on `RsaPublicKey::from_public_key_pem` (the `rsa` crate): it
/// parses a PEM-encoded public key, `None` on malformed input.
#[verifier::external_body]
fn parse_public_key(pem: &str) -> (r: Option<rsa::RsaPublicKey>)
{
    <rsa::RsaPublicKey as rsa::pkcs8::DecodePublicKey>::from_public_key_pem(pem).ok()
}

/// Relies on `RsaPublicKey::encrypt` (the `rsa` crate) under OAEP
/// padding with SHA-256: the ciphertext is randomized, so nothing is
/// promised of its content.
#[verifier::external_body]
fn oaep_encrypt(key: &rsa::RsaPublicKey, msg: &Vec<u8>) -> (r: Option<Vec<u8>>)
{
    let padding = rsa::Oaep::new::<sha2::Sha256>();
    key.encrypt(&mut rand::thread_rng(), padding, msg.as_slice()).ok()
}

/// Builds the correspond path for a timestamp: the hex rendering of the
/// RSA-OAEP encryption of the challenge plaintext. The ciphertext is
/// randomized; what is promised is that the path is lowercase hex of
/// even length, so it embeds into a URL as-is.
pub fn generate_correspond_path(ts: i64) -> (r: Option<Vec<u8>>)
    ensures
        r matches Some(h) ==> h@.len() % 2 == 0 && forall|i: int|
            0 <= i < h@.len() ==> spec_is_hex_lower(#[trigger] h@[i]),
{
    let key = match parse_public_key(REFRESH_PUBLIC_KEY_PEM) {
        Some(k) => k,
        None => {
            return None;
        },
    };
    let plain = refresh_plaintext(ts);
    let cipher = match oaep_encrypt(&key, &plain) {
        Some(c) => c,
        None => {
            return None;
        },
    };
    let h = hex_lower(&cipher);
    proof {
        lemma_hex_lower_digits(cipher@);
    }
    Some(h)
}

// ---------------------------------------------------------------------
// Extracting the refresh-confirmation token from the platform page.
// ---------------------------------------------------------------------

/// The double-quoted marker the token follows.
pub open spec fn spec_marker_dq() -> Seq<char> {
    "<div id=\"1-name\">"@
}

/// The single-quoted marker the token follows.
pub open spec fn spec_marker_sq() -> Seq<char> {
    "<div id='1-name'>"@
}

/// The tag that closes the token.
pub open spec fn spec_marker_close() -> Seq<char> {
    "</div>"@
}

/// A lowercase hex digit, as a character.
pub open spec fn spec_is_hex_lower_char(c: char) -> bool {
    ('0' <= c && c <= '9') || ('a' <= c && c <= 'f')
}

/// Whether the page, read from its start, opens with the marker, then
/// 32 lowercase hex digits, then the closing tag.
pub open spec fn spec_token_head(s: Seq<char>) -> bool {
    &&& s.len() >= 55
    &&& (s.take(17) == spec_marker_dq() || s.take(17) == spec_marker_sq())
    &&& forall|k: int| 17 <= k < 49 ==> spec_is_hex_lower_char(#[trigger] s[k])
    &&& s.subrange(49, 55) == spec_marker_close()
}

/// The first refresh-confirmation token on the page, or `None`.
pub open spec fn spec_refresh_token(s: Seq<char>) -> Option<Seq<char>>
    decreases s.len(),
{
    if s.len() < 55 {
        None
    } else if spec_token_head(s) {
        Some(s.subrange(17, 49))
    } else {
        spec_refresh_token(s.drop_first())
    }
}

/// Whether the character at `i` is a lowercase hex digit.
fn is_hex_lower_char_at(s: &str, i: usize) -> (r: bool)
    requires
        i < s@.len(),
    ensures
        r == spec_is_hex_lower_char(s@[i as int]),
{
    let c = s.get_char(i);
    ('0' <= c && c <= '9') || ('a' <= c && c <= 'f')
}

/// Scans the platform page for the refresh-confirmation token: the
/// first spot where a marker is followed by 32 lowercase hex digits and
/// the closing tag.
pub fn extract_refresh_token(html: &str) -> (r: Option<String>)
    ensures
        match r {
            Some(t) => spec_refresh_token(html@) == Some(t@),
            None => spec_refresh_token(html@) is None,
        },
{
    let n = html.unicode_len();
    let mut i: usize = 0;
    proof {
        assert(html@.skip(0int) =~= html@);
    }
    while n - i >= 55
        invariant
            i <= n,
            n == html@.len(),
            spec_refresh_token(html@) == spec_refresh_token(html@.skip(i as int)),
        decreases n - i,
    {
        let ghost rest = html@.skip(i as int);
        let head = html.substring_char(i, i + 17);
        proof {
            assert(head@ =~= rest.take(17));
        }
        let mut matched = str_eq(head, "<div id=\"1-name\">");
        if !matched {
            matched = str_eq(head, "<div id='1-name'>");
        }
        if matched {
            let mut all_hex = true;
            let mut k: usize = 17;
            while k < 49
                invariant
                    17 <= k <= 49,
                    i + 55 <= n,
                    n == html@.len(),
                    rest == html@.skip(i as int),
                    all_hex == (forall|m: int|
                        17 <= m < k ==> spec_is_hex_lower_char(#[trigger] rest[m])),
                decreases 49 - k,
            {
                let h = is_hex_lower_char_at(html, i + k);
                proof {
                    assert(rest[k as int] == html@[i + k]);
                }
                all_hex = all_hex && h;
                k = k + 1;
            }
            if all_hex {
                let close = html.substring_char(i + 49, i + 55);
                proof {
                    assert(close@ =~= rest.subrange(49, 55));
                }
                if str_eq(close, "</div>") {
                    let token = html.substring_char(i + 17, i + 49);
                    proof {
                        assert(token@ =~= rest.subrange(17, 49));
                        assert(spec_token_head(rest));
                        assert(spec_refresh_token(rest) == Some(token@));
                    }
                    return Some(token.to_owned());
                }
            }
        }
        proof {
            assert(!spec_token_head(rest));
            assert(rest.drop_first() =~= html@.skip(i as int + 1));
        }
        i = i + 1;
    }
    proof {
        assert(html@.skip(i as int).len() < 55);
        assert(spec_refresh_token(html@.skip(i as int)) is None);
    }
    None
}

// ---------------------------------------------------------------------
// The protocol, one decision per round trip.
// ---------------------------------------------------------------------

/// Where the protocol stands between round trips.
#[derive(Debug, Clone, PartialEq)]
pub enum RefreshPhase {
    /// Nothing begun.
    Idle,
    /// The cookie-info query is in flight.
    AwaitingInfo { csrf: String, stored: Option<AuthData> },
    /// The correspond-page fetch is in flight.
    AwaitingPage { csrf: String, stored: Option<AuthData> },
    /// The refresh exchange is in flight.
    AwaitingRefresh { csrf: String, old_token: String, stored: Option<AuthData> },
    /// The best-effort confirmation is in flight.
    AwaitingConfirm { new_token: String, stored: Option<AuthData> },
    /// The live jar snapshot is pending.
    AwaitingCookies { new_token: String, stored: Option<AuthData> },
    /// The protocol ended.
    Finished,
}

/// What the driver hands back between round trips.
#[derive(Debug, Clone, PartialEq)]
pub enum RefreshEvent {
    /// The operation starts: the CSRF cookie as the jar holds it, and
    /// the stored credentials.
    Begin { csrf: Option<String>, stored: Option<AuthData> },
    /// The cookie-info answer, with the driver's clock in milliseconds.
    CookieInfo {
        code: Option<i64>,
        message: Option<String>,
        refresh: Option<bool>,
        timestamp: Option<i64>,
        now_ms: i64,
    },
    /// The correspond-page body.
    PageBody { html: String },
    /// The refresh exchange answer, with the CSRF cookie re-read from
    /// the live jar.
    RefreshAnswer {
        code: Option<i64>,
        message: Option<String>,
        new_token: Option<String>,
        csrf_now: Option<String>,
    },
    /// The confirmation call returned; its outcome is deliberately
    /// discarded, the new token is already valid.
    ConfirmDone,
    /// The live jar snapshot.
    CookiesSnapshot { cookies: Vec<Cookie> },
}

/// What the driver must do next.
#[derive(Debug, Clone, PartialEq)]
pub enum RefreshAction {
    /// Done: the session needed nothing, or everything went through.
    Finish,
    /// Query the cookie-info endpoint.
    GetCookieInfo,
    /// Fetch the page at this hex correspond path.
    GetCorrespondPage { path: Vec<u8> },
    /// Post the refresh exchange form.
    PostRefresh { form: Vec<(String, String)> },
    /// Post the confirmation form; its outcome does not matter.
    PostConfirm { form: Vec<(String, String)> },
    /// Read the live cookie jar.
    SnapshotCookies,
    /// Persist these credentials; then the operation is done.
    Persist { auth: AuthData },
    /// The protocol failed.
    Fail { error: CoreError },
}

/// Whether the event is the one the phase awaits.
pub open spec fn spec_refresh_agrees(phase: RefreshPhase, event: RefreshEvent) -> bool {
    ||| (phase is Idle && event is Begin)
    ||| (phase is AwaitingInfo && event is CookieInfo)
    ||| (phase is AwaitingPage && event is PageBody)
    ||| (phase is AwaitingRefresh && event is RefreshAnswer)
    ||| (phase is AwaitingConfirm && event is ConfirmDone)
    ||| (phase is AwaitingCookies && event is CookiesSnapshot)
}

/// The refresh token the stored credentials hold, empty when nothing
/// is stored.
pub open spec fn spec_stored_refresh_token(stored: Option<AuthData>) -> Seq<char> {
    match stored {
        Some(a) => a.token.refresh_token@,
        None => Seq::<char>::empty(),
    }
}

/// Whether `form` is the refresh exchange form for these values.
pub open spec fn spec_is_refresh_form(
    form: Seq<(String, String)>,
    csrf: Seq<char>,
    refresh_csrf: Seq<char>,
    old_token: Seq<char>,
) -> bool {
    &&& form.len() == 4
    &&& form[0].0@ == "csrf"@ && form[0].1@ == csrf
    &&& form[1].0@ == "refresh_csrf"@ && form[1].1@ == refresh_csrf
    &&& form[2].0@ == "refresh_token"@ && form[2].1@ == old_token
    &&& form[3].0@ == "source"@ && form[3].1@ == "main_web"@
}

/// Whether `form` is the confirmation form for these values.
pub open spec fn spec_is_confirm_form(
    form: Seq<(String, String)>,
    csrf: Seq<char>,
    old_token: Seq<char>,
) -> bool {
    &&& form.len() == 2
    &&& form[0].0@ == "csrf"@ && form[0].1@ == csrf
    &&& form[1].0@ == "refresh_token"@ && form[1].1@ == old_token
}

/// Decides, from the cookie-info answer, whether to proceed, and with
/// which challenge timestamp. An explicit non-zero status code fails
/// the whole operation with the platform's message; a missing code
/// reads leniently as success, and "no refresh needed" stops the
/// operation as a successful no-op.
pub fn refresh_decision(
    code: Option<i64>,
    message: Option<String>,
    refresh: Option<bool>,
    timestamp: Option<i64>,
    now_ms: i64,
) -> (r: Result<Option<i64>, CoreError>)
    ensures
        r is Err <==> (code matches Some(c) && c != 0),
        r matches Err(e) ==> e is Auth && e.spec_message() == spec_str_or_empty(message),
        r matches Ok(o) ==> (o is Some <==> spec_bool_or(refresh, false)),
        r matches Ok(o) ==> (o matches Some(ts) ==> ts == spec_i64_or(timestamp, now_ms)),
{
    match code {
        Some(c) => {
            if c != 0 {
                return Err(CoreError::Auth { message: str_or_empty(message) });
            }
        },
        None => {},
    }
    if !bool_or(refresh, false) {
        return Ok(None);
    }
    Ok(Some(i64_or(timestamp, now_ms)))
}

/// Builds the refresh exchange form, in the order the request writes
/// it.
pub fn build_refresh_form(csrf: &str, refresh_csrf: &str, old_token: &str) -> (r: Vec<
    (String, String),
>)
    ensures
        spec_is_refresh_form(r@, csrf@, refresh_csrf@, old_token@),
{
    let mut form: Vec<(String, String)> = Vec::new();
    form.push((String::from_str("csrf"), csrf.to_owned()));
    form.push((String::from_str("refresh_csrf"), refresh_csrf.to_owned()));
    form.push((String::from_str("refresh_token"), old_token.to_owned()));
    form.push((String::from_str("source"), String::from_str("main_web")));
    form
}

/// Builds the confirmation form.
pub fn build_confirm_form(csrf: &str, old_token: &str) -> (r: Vec<(String, String)>)
    ensures
        spec_is_confirm_form(r@, csrf@, old_token@),
{
    let mut form: Vec<(String, String)> = Vec::new();
    form.push((String::from_str("csrf"), csrf.to_owned()));
    form.push((String::from_str("refresh_token"), old_token.to_owned()));
    form
}

/// The credentials to persist after a successful exchange: the new
/// refresh token, the unchanged access token and lifetime, and the
/// fresh jar snapshot.
pub fn updated_auth(stored: Option<AuthData>, new_token: String, cookies: Vec<Cookie>) -> (r:
    AuthData)
    ensures
        r.token.refresh_token@ == new_token@,
        r.cookies == cookies,
        match stored {
            Some(a) => r.token.access_token@ == a.token.access_token@ && r.token.expires_in
                == a.token.expires_in,
            None => r.token.access_token@ == Seq::<char>::empty() && r.token.expires_in == 0,
        },
        spec_cookies_unique(cookies@) ==> r.wf(),
{
    let (access, expires) = match stored {
        Some(a) => (a.token.access_token, a.token.expires_in),
        None => (String::new(), 0),
    };
    AuthData {
        token: TokenInfo { access_token: access, refresh_token: new_token, expires_in: expires },
        cookies,
    }
}

/// One step of the protocol: the phase and the event it awaited give
/// the next phase and the action the driver performs. With no CSRF
/// cookie the whole operation is a successful no-op and no outbound
/// action is ever issued.
pub fn refresh_step(phase: RefreshPhase, event: RefreshEvent) -> (r: (RefreshPhase, RefreshAction))
    ensures
        // no session: success at once, zero outbound actions
        phase is Idle ==> (event matches RefreshEvent::Begin { csrf: None, .. } ==> r == (
            (RefreshPhase::Finished, RefreshAction::Finish)
        )),
        phase is Idle ==> (event matches RefreshEvent::Begin { csrf: Some(c), stored } ==> {
            &&& r.0 matches RefreshPhase::AwaitingInfo { csrf: c2, stored: s2 } && c2@ == c@ && s2
                == stored
            &&& r.1 is GetCookieInfo
        }),
        phase matches RefreshPhase::AwaitingInfo { csrf, stored } ==> (event
            matches RefreshEvent::CookieInfo { code, message, refresh, timestamp, now_ms } ==> {
            if code matches Some(c) && c != 0 {
                &&& r.0 is Finished
                &&& r.1 matches RefreshAction::Fail { error } && error is Auth
                    && error.spec_message() == spec_str_or_empty(message)
            } else if !spec_bool_or(refresh, false) {
                r == ((RefreshPhase::Finished, RefreshAction::Finish))
            } else {
                ||| {
                    &&& r.0 is Finished
                    &&& r.1 matches RefreshAction::Fail { error } && error is Transport
                }
                ||| {
                    &&& r.0 matches RefreshPhase::AwaitingPage { csrf: c2, stored: s2 } && c2@
                        == csrf@ && s2 == stored
                    &&& r.1 matches RefreshAction::GetCorrespondPage { path } && path@.len() % 2
                        == 0 && (forall|i: int|
                        0 <= i < path@.len() ==> spec_is_hex_lower(#[trigger] path@[i]))
                }
            }
        }),
        phase matches RefreshPhase::AwaitingPage { csrf, stored } ==> (event
            matches RefreshEvent::PageBody { html } ==> match spec_refresh_token(html@) {
            None => {
                &&& r.0 is Finished
                &&& r.1 matches RefreshAction::Fail { error } && error is Transport
            },
            Some(tok) => {
                if spec_stored_refresh_token(stored).len() == 0 {
                    &&& r.0 is Finished
                    &&& r.1 matches RefreshAction::Fail { error } && error is Auth
                } else {
                    &&& r.0 matches RefreshPhase::AwaitingRefresh {
                        csrf: c2,
                        old_token: t2,
                        stored: s2,
                    } && c2@ == csrf@ && t2@ == spec_stored_refresh_token(stored) && s2 == stored
                    &&& r.1 matches RefreshAction::PostRefresh { form } && spec_is_refresh_form(
                        form@,
                        csrf@,
                        tok,
                        spec_stored_refresh_token(stored),
                    )
                }
            },
        }),
        phase matches RefreshPhase::AwaitingRefresh { csrf, old_token, stored } ==> (event
            matches RefreshEvent::RefreshAnswer { code, message, new_token, csrf_now } ==> {
            if spec_i64_or(code, -1i64) != 0 {
                &&& r.0 is Finished
                &&& r.1 matches RefreshAction::Fail { error } && error is Auth
                    && error.spec_message() == spec_str_or_empty(message)
            } else {
                &&& r.0 matches RefreshPhase::AwaitingConfirm { new_token: n2, stored: s2 } && n2@
                    == spec_str_or_empty(new_token) && s2 == stored
                &&& r.1 matches RefreshAction::PostConfirm { form } && spec_is_confirm_form(
                    form@,
                    match csrf_now {
                        Some(c) => c@,
                        None => csrf@,
                    },
                    old_token@,
                )
            }
        }),
        phase matches RefreshPhase::AwaitingConfirm { new_token, stored } ==> (event
            is ConfirmDone ==> {
            &&& r.0 matches RefreshPhase::AwaitingCookies { new_token: n2, stored: s2 } && n2@
                == new_token@ && s2 == stored
            &&& r.1 is SnapshotCookies
        }),
        phase matches RefreshPhase::AwaitingCookies { new_token, stored } ==> (event
            matches RefreshEvent::CookiesSnapshot { cookies } ==> {
            &&& r.0 is Finished
            &&& r.1 matches RefreshAction::Persist { auth } && auth.token.refresh_token@
                == new_token@ && auth.cookies == cookies && (match stored {
                Some(a) => auth.token.access_token@ == a.token.access_token@
                    && auth.token.expires_in == a.token.expires_in,
                None => auth.token.access_token@ == Seq::<char>::empty() && auth.token.expires_in
                    == 0,
            })
        }),
        // an event the phase does not await ends the protocol
        !spec_refresh_agrees(phase, event) ==> {
            &&& r.0 is Finished
            &&& r.1 matches RefreshAction::Fail { error } && error is Transport
        },
{
    match (phase, event) {
        (RefreshPhase::Idle, RefreshEvent::Begin { csrf, stored }) => {
            match csrf {
                None => (RefreshPhase::Finished, RefreshAction::Finish),
                Some(c) => (
                    RefreshPhase::AwaitingInfo { csrf: c, stored },
                    RefreshAction::GetCookieInfo,
                ),
            }
        },
        (
            RefreshPhase::AwaitingInfo { csrf, stored },
            RefreshEvent::CookieInfo { code, message, refresh, timestamp, now_ms },
        ) => {
            match refresh_decision(code, message, refresh, timestamp, now_ms) {
                Err(error) => (RefreshPhase::Finished, RefreshAction::Fail { error }),
                Ok(None) => (RefreshPhase::Finished, RefreshAction::Finish),
                Ok(Some(ts)) => {
                    match generate_correspond_path(ts) {
                        None => (
                            RefreshPhase::Finished,
                            RefreshAction::Fail {
                                error: CoreError::Transport {
                                    message: String::from_str("cannot establish secure session"),
                                },
                            },
                        ),
                        Some(path) => (
                            RefreshPhase::AwaitingPage { csrf, stored },
                            RefreshAction::GetCorrespondPage { path },
                        ),
                    }
                },
            }
        },
        (RefreshPhase::AwaitingPage { csrf, stored }, RefreshEvent::PageBody { html }) => {
            match extract_refresh_token(html.as_str()) {
                None => (
                    RefreshPhase::Finished,
                    RefreshAction::Fail {
                        error: CoreError::Transport {
                            message: String::from_str("cannot establish refresh challenge"),
                        },
                    },
                ),
                Some(tok) => {
                    let old_token = match &stored {
                        Some(a) => a.token.refresh_token.clone(),
                        None => String::new(),
                    };
                    if old_token.as_str().unicode_len() == 0 {
                        (
                            RefreshPhase::Finished,
                            RefreshAction::Fail {
                                error: CoreError::Auth {
                                    message: String::from_str(
                                        "cannot refresh without a stored refresh token",
                                    ),
                                },
                            },
                        )
                    } else {
                        let form = build_refresh_form(
                            csrf.as_str(),
                            tok.as_str(),
                            old_token.as_str(),
                        );
                        (
                            RefreshPhase::AwaitingRefresh { csrf, old_token, stored },
                            RefreshAction::PostRefresh { form },
                        )
                    }
                },
            }
        },
        (
            RefreshPhase::AwaitingRefresh { csrf, old_token, stored },
            RefreshEvent::RefreshAnswer { code, message, new_token, csrf_now },
        ) => {
            if i64_or(code, -1) != 0 {
                (
                    RefreshPhase::Finished,
                    RefreshAction::Fail {
                        error: CoreError::Auth { message: str_or_empty(message) },
                    },
                )
            } else {
                let csrf2 = match csrf_now {
                    Some(c) => c,
                    None => csrf,
                };
                let form = build_confirm_form(csrf2.as_str(), old_token.as_str());
                (
                    RefreshPhase::AwaitingConfirm {
                        new_token: str_or_empty(new_token),
                        stored,
                    },
                    RefreshAction::PostConfirm { form },
                )
            }
        },
        (RefreshPhase::AwaitingConfirm { new_token, stored }, RefreshEvent::ConfirmDone) => (
            RefreshPhase::AwaitingCookies { new_token, stored },
            RefreshAction::SnapshotCookies,
        ),
        (
            RefreshPhase::AwaitingCookies { new_token, stored },
            RefreshEvent::CookiesSnapshot { cookies },
        ) => {
            let auth = updated_auth(stored, new_token, cookies);
            (RefreshPhase::Finished, RefreshAction::Persist { auth })
        },
        _ => (
            RefreshPhase::Finished,
            RefreshAction::Fail {
                error: CoreError::Transport {
                    message: String::from_str("refresh protocol out of step"),
                },
            },
        ),
    }
}

} // verus!
