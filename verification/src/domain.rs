//! Plain data carried between the session core and its callers: login
//! states, QR sessions, persisted credentials, and the room / user /
//! area records returned by the platform's metadata calls.

use vstd::prelude::*;

verus! {

/// The two externally visible states of the login machine.
#[derive(Debug, Clone, Copy, PartialEq, Eq, Structural)]
pub enum LoginState {
    LoggedIn,
    NeedQrCode,
}

/// Payload a caller renders as a QR image.
#[derive(Debug, Clone, PartialEq)]
pub struct QrCodeData {
    pub url: String,
}

/// A web-flavour QR login session: the URL to render and the key each
/// poll call presents.
#[derive(Debug, Clone, PartialEq)]
pub struct WebQrInfo {
    pub url: String,
    pub qrcode_key: String,
}

/// Metadata of a live room.
#[derive(Debug, Clone, PartialEq)]
pub struct RoomInfo {
    pub room_id: u64,
    pub title: String,
    pub cover_url: String,
    pub area_id: u64,
    pub area_name: String,
    pub description: String,
}

/// Access and refresh tokens of an authenticated session.
#[derive(Debug, Clone, PartialEq)]
pub struct TokenInfo {
    pub access_token: String,
    pub refresh_token: String,
    pub expires_in: i64,
}

/// A snapshot of one cookie, as persisted in the credential file.
#[derive(Debug, Clone, PartialEq)]
pub struct Cookie {
    pub name: String,
    pub value: String,
    pub domain: String,
    pub expires: i64,
}

/// Everything the credential store persists: the token pair and the
/// cookie snapshot.
#[derive(Debug, Clone, PartialEq)]
pub struct AuthData {
    pub token: TokenInfo,
    pub cookies: Vec<Cookie>,
}

/// One cookie per `(name, domain)` pair: the jar the snapshots come
/// from keeps them unique.
pub open spec fn spec_cookies_unique(cs: Seq<Cookie>) -> bool {
    forall|i: int, j: int|
        0 <= i < j < cs.len() ==> !((#[trigger] cs[i]).name@ == (#[trigger] cs[j]).name@
            && cs[i].domain@ == cs[j].domain@)
}

impl AuthData {
    /// Well-formed credentials: the cookie snapshot holds at most one
    /// entry per `(name, domain)`.
    pub open spec fn wf(&self) -> bool {
        spec_cookies_unique(self.cookies@)
    }
}

/// Brief live-room record as returned by the user-space lookup.
#[derive(Debug, Clone, PartialEq)]
pub struct LiveRoomBrief {
    pub room_status: i32,
    pub live_status: i32,
    pub title: String,
    pub cover: String,
    pub room_id: i64,
}

/// The logged-in user's public profile plus their live room.
#[derive(Debug, Clone, PartialEq)]
pub struct UserInfo {
    pub mid: u64,
    pub name: String,
    pub face: String,
    pub live_room: LiveRoomBrief,
}

/// A leaf streaming area.
#[derive(Debug, Clone, PartialEq)]
pub struct AreaChild {
    pub id: i64,
    pub name: String,
}

/// A top-level streaming area with its children.
#[derive(Debug, Clone, PartialEq)]
pub struct AreaParent {
    pub id: i64,
    pub name: String,
    pub children: Vec<AreaChild>,
}

/// Title-audit outcome attached to a room update.
#[derive(Debug, Clone, PartialEq)]
pub struct AuditInfo {
    pub audit_title_status: i32,
    pub audit_title_reason: String,
}

impl Default for TokenInfo {
    /// An empty token record: blank tokens, zero lifetime.
    fn default() -> (r: Self)
        ensures
            r.access_token@ == Seq::<char>::empty(),
            r.refresh_token@ == Seq::<char>::empty(),
            r.expires_in == 0,
    {
        TokenInfo { access_token: String::new(), refresh_token: String::new(), expires_in: 0 }
    }
}

impl Default for LiveRoomBrief {
    /// An empty live-room record.
    fn default() -> (r: Self)
        ensures
            r.room_status == 0,
            r.live_status == 0,
            r.title@ == Seq::<char>::empty(),
            r.cover@ == Seq::<char>::empty(),
            r.room_id == 0,
    {
        LiveRoomBrief {
            room_status: 0,
            live_status: 0,
            title: String::new(),
            cover: String::new(),
            room_id: 0,
        }
    }
}

impl Default for RoomInfo {
    /// An empty room record.
    fn default() -> (r: Self)
        ensures
            r.room_id == 0,
            r.title@ == Seq::<char>::empty(),
            r.cover_url@ == Seq::<char>::empty(),
            r.area_id == 0,
            r.area_name@ == Seq::<char>::empty(),
            r.description@ == Seq::<char>::empty(),
    {
        RoomInfo {
            room_id: 0,
            title: String::new(),
            cover_url: String::new(),
            area_id: 0,
            area_name: String::new(),
            description: String::new(),
        }
    }
}

/// The error taxonomy of the session core.
#[derive(Debug, Clone, PartialEq)]
pub enum CoreError {
    /// Network or parse failure that survived the retry policy, carrying
    /// a description of the last failure.
    Transport { message: String },
    /// The platform answered with a non-zero status; carries the
    /// platform's own message for display.
    Auth { message: String },
    /// The credential file could not be written.
    Persistence { message: String },
}

impl CoreError {
    /// The human-readable message carried by any variant.
    pub open spec fn spec_message(&self) -> Seq<char> {
        match self {
            CoreError::Transport { message } => message@,
            CoreError::Auth { message } => message@,
            CoreError::Persistence { message } => message@,
        }
    }

    /// Hands out the carried message for display.
    pub fn message(&self) -> (r: &String)
        ensures
            r@ == self.spec_message(),
    {
        match self {
            CoreError::Transport { message } => message,
            CoreError::Auth { message } => message,
            CoreError::Persistence { message } => message,
        }
    }

    /// Whether this is the authentication variant.
    pub fn is_auth(&self) -> (r: bool)
        ensures
            r == (self is Auth),
    {
        match self {
            CoreError::Auth { .. } => true,
            _ => false,
        }
    }
}

} // verus!
