//! The authorization policy on its own: role and ownership rules for
//! every action kind.

use courses_service::auth::{decide, Action, Caller, Decision, DenyReason, Role};

fn standard(id: i32) -> Option<Caller> {
    Some(Caller { id, role: Role::Standard })
}

fn moderator(id: i32) -> Option<Caller> {
    Some(Caller { id, role: Role::Moderator })
}

fn administrator(id: i32) -> Option<Caller> {
    Some(Caller { id, role: Role::Administrator })
}

const ELEVATED_ACTIONS: [Action; 5] = [
    Action::CreateBookmark,
    Action::DeleteBookmark,
    Action::UpdateTrackTitle,
    Action::CreateAnchor,
    Action::DeleteAnchor,
];

#[test]
fn reads_always_allowed() {
    assert_eq!(decide(None, Action::Read, None), Decision::Allow);
    assert_eq!(decide(standard(3), Action::Read, None), Decision::Allow);
    assert_eq!(decide(administrator(1), Action::Read, Some(9)), Decision::Allow);
}

#[test]
fn elevated_actions_deny_anonymous() {
    for action in ELEVATED_ACTIONS {
        assert_eq!(
            decide(None, action, None),
            Decision::Deny(DenyReason::NotAuthenticated)
        );
    }
}

#[test]
fn elevated_actions_deny_standard_role() {
    for action in ELEVATED_ACTIONS {
        assert_eq!(
            decide(standard(5), action, None),
            Decision::Deny(DenyReason::InsufficientRole)
        );
    }
}

#[test]
fn elevated_actions_allow_moderator_and_administrator() {
    for action in ELEVATED_ACTIONS {
        assert_eq!(decide(moderator(5), action, None), Decision::Allow);
        assert_eq!(decide(administrator(5), action, None), Decision::Allow);
    }
}

#[test]
fn create_user_anchor_needs_any_caller() {
    assert_eq!(
        decide(None, Action::CreateUserAnchor, None),
        Decision::Deny(DenyReason::NotAuthenticated)
    );
    assert_eq!(decide(standard(4), Action::CreateUserAnchor, None), Decision::Allow);
}

#[test]
fn delete_user_anchor_owner_or_elevated() {
    assert_eq!(decide(standard(7), Action::DeleteUserAnchor, Some(7)), Decision::Allow);
    assert_eq!(
        decide(standard(8), Action::DeleteUserAnchor, Some(7)),
        Decision::Deny(DenyReason::NotOwner)
    );
    assert_eq!(decide(moderator(8), Action::DeleteUserAnchor, Some(7)), Decision::Allow);
    assert_eq!(decide(administrator(8), Action::DeleteUserAnchor, Some(7)), Decision::Allow);
    assert_eq!(
        decide(None, Action::DeleteUserAnchor, Some(7)),
        Decision::Deny(DenyReason::NotAuthenticated)
    );
}
