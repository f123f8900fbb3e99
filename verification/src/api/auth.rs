//! Authentication records exchanged with the remote catalog.

use vstd::prelude::*;

use crate::entities::AuthCookies;

verus! {

/// The signed-in user, as the remote catalog reports them.
pub struct CurrentUser {
    pub id: String,
    pub username: String,
}

/// Outcome of a sign-in attempt.
pub enum VRChatAuthStatus {
    Success(AuthCookies, CurrentUser),
    RequiresEmail2FA,
    Requires2FA,
    InvalidCredentials,
    UnknownError(String),
}

/// Where in the sign-in flow a session stands.
#[derive(Clone, Copy, Debug, PartialEq, Eq, Structural)]
pub enum VRChatAuthPhase {
    NotStarted,
    TwoFactorAuth,
    Email2FA,
    LoggedIn,
}

/// The catalog's demand for a second factor, naming the methods it takes.
pub struct RequiresTwoFactorAuth {
    pub requires_two_factor_auth: Vec<String>,
}

/// The catalog's verdict on a submitted second factor.
pub struct TwoFactorAuthVerified {
    pub is_verified: bool,
}

} // verus!
