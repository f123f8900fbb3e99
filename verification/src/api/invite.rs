//! Notification records around self-invites.

use vstd::prelude::*;

verus! {

/// The kinds of notification the remote catalog sends.
#[derive(Clone, Copy, Debug, PartialEq, Eq, Structural)]
pub enum NotificationType {
    FriendRequest,
    Invite,
    InviteResponse,
    Message,
    RequestInvite,
    RequestInviteResponse,
    VoteToKick,
}

} // verus!
