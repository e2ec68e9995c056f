//! Authorization policy: one shared decision function over
//! (caller, action, owner of the target) that every mutating operation
//! consults before touching the store.

use vstd::prelude::*;

verus! {

/// Role a caller presents; anything beyond `Standard` is an elevated role.
#[derive(Clone, Copy, Debug, PartialEq, Eq, Structural)]
pub enum Role {
    Standard,
    Moderator,
    Administrator,
}

/// Caller identity attached to a request. Its absence (an `Option<Caller>`
/// of `None`) means the request is anonymous.
#[derive(Clone, Copy, Debug, PartialEq, Eq, Structural)]
pub struct Caller {
    pub id: i32,
    pub role: Role,
}

/// The actions the policy distinguishes. All reads fall under `Read`.
#[derive(Clone, Copy, Debug, PartialEq, Eq, Structural)]
pub enum Action {
    Read,
    CreateBookmark,
    DeleteBookmark,
    UpdateTrackTitle,
    CreateAnchor,
    DeleteAnchor,
    CreateUserAnchor,
    DeleteUserAnchor,
}

/// Why a request was denied.
#[derive(Clone, Copy, Debug, PartialEq, Eq, Structural)]
pub enum DenyReason {
    /// A caller was required but the request was anonymous.
    NotAuthenticated,
    /// The caller's role does not reach the role the action requires.
    InsufficientRole,
    /// The caller is neither the owner of the target nor elevated.
    NotOwner,
}

/// Outcome of the policy: allow the operation or refuse it with a reason.
#[derive(Clone, Copy, Debug, PartialEq, Eq, Structural)]
pub enum Decision {
    Allow,
    Deny(DenyReason),
}

/// A moderator or administrator.
pub open spec fn is_elevated(role: Role) -> bool {
    role == Role::Moderator || role == Role::Administrator
}

/// A caller is present.
pub open spec fn is_authenticated(caller: Option<Caller>) -> bool {
    caller is Some
}

/// A caller is present and holds an elevated role.
pub open spec fn caller_elevated(caller: Option<Caller>) -> bool {
    caller matches Some(c) && is_elevated(c.role)
}

/// Actions that require an elevated role regardless of ownership.
pub open spec fn requires_elevated(action: Action) -> bool {
    ||| action == Action::CreateBookmark
    ||| action == Action::DeleteBookmark
    ||| action == Action::UpdateTrackTitle
    ||| action == Action::CreateAnchor
    ||| action == Action::DeleteAnchor
}

/// The full policy as a mathematical function.
///
/// Reads are always allowed. Elevated actions demand a present, elevated
/// caller. Creating a user anchor demands any present caller. Deleting a
/// user anchor demands a present caller that owns the target or is elevated.
pub open spec fn decision_of(caller: Option<Caller>, action: Action, owner: Option<i32>) -> Decision {
    match action {
        Action::Read => Decision::Allow,
        Action::CreateUserAnchor => match caller {
            None => Decision::Deny(DenyReason::NotAuthenticated),
            Some(_) => Decision::Allow,
        },
        Action::DeleteUserAnchor => match caller {
            None => Decision::Deny(DenyReason::NotAuthenticated),
            Some(c) => if owner == Some(c.id) || is_elevated(c.role) {
                Decision::Allow
            } else {
                Decision::Deny(DenyReason::NotOwner)
            },
        },
        _ => match caller {
            None => Decision::Deny(DenyReason::NotAuthenticated),
            Some(c) => if is_elevated(c.role) {
                Decision::Allow
            } else {
                Decision::Deny(DenyReason::InsufficientRole)
            },
        },
    }
}

/// For every action that requires an elevated role, the policy allows
/// exactly the elevated callers, whatever the target's owner: an
/// anonymous caller is denied for want of authentication, a standard-role
/// caller for want of role.
pub proof fn lemma_elevated_actions_policy(
    caller: Option<Caller>,
    action: Action,
    owner: Option<i32>,
)
    requires
        requires_elevated(action),
    ensures
        decision_of(caller, action, owner) == Decision::Allow <==> caller_elevated(caller),
        !is_authenticated(caller) ==> decision_of(caller, action, owner) == Decision::Deny(
            DenyReason::NotAuthenticated,
        ),
        is_authenticated(caller) && !caller_elevated(caller) ==> decision_of(caller, action, owner)
            == Decision::Deny(DenyReason::InsufficientRole),
{
}

/// Deleting a user anchor is allowed exactly for a present caller that
/// owns the target or holds an elevated role.
pub proof fn lemma_delete_user_anchor_policy(caller: Option<Caller>, owner: i32)
    ensures
        decision_of(caller, Action::DeleteUserAnchor, Some(owner)) == Decision::Allow <==> (
        caller matches Some(c) && (c.id == owner || is_elevated(c.role))),
{
}

/// Decide whether `caller` may perform `action` on a target owned by
/// `owner` (`None` where the target has no individual owner).
///
/// A missing caller where one is required is denied exactly like a caller
/// of insufficient role: the operation never partially executes.
pub fn decide(caller: Option<Caller>, action: Action, owner: Option<i32>) -> (d: Decision)
    ensures
        d == decision_of(caller, action, owner),
{
    match action {
        Action::Read => Decision::Allow,
        Action::CreateUserAnchor => match caller {
            None => Decision::Deny(DenyReason::NotAuthenticated),
            Some(_) => Decision::Allow,
        },
        Action::DeleteUserAnchor => match caller {
            None => Decision::Deny(DenyReason::NotAuthenticated),
            Some(c) => {
                let owned = match owner {
                    Some(o) => o == c.id,
                    None => false,
                };
                if owned || c.role == Role::Moderator || c.role == Role::Administrator {
                    Decision::Allow
                } else {
                    Decision::Deny(DenyReason::NotOwner)
                }
            },
        },
        _ => match caller {
            None => Decision::Deny(DenyReason::NotAuthenticated),
            Some(c) => if c.role == Role::Moderator || c.role == Role::Administrator {
                Decision::Allow
            } else {
                Decision::Deny(DenyReason::InsufficientRole)
            },
        },
    }
}

} // verus!
