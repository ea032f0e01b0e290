//! Verified core of a client-side session manager for a live-streaming
//! platform: request signing, anti-bot retry policy, QR login state
//! machine, cookie refresh protocol, and the credential persistence format.

pub mod domain;
pub mod text;
pub mod percent;
pub mod signer;
pub mod retry;
pub mod lenient;
pub mod login;
pub mod cookies;
pub mod refresh;
pub mod credjson;
pub mod rooms;

pub use domain::{
    AreaChild, AreaParent, AuditInfo, AuthData, Cookie, CoreError, LiveRoomBrief, LoginState,
    QrCodeData, RoomInfo, TokenInfo, UserInfo, WebQrInfo,
};
