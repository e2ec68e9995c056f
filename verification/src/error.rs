//! Error taxonomy: a policy denial with its reason, or an opaque store
//! failure carrying the underlying detail.

use vstd::prelude::*;
use crate::auth::DenyReason;

verus! {

/// What went wrong inside the store model.
#[derive(Clone, Copy, Debug, PartialEq, Eq, Structural)]
pub enum StoreError {
    /// An operation that expects exactly one row found none.
    RowNotFound,
    /// A referenced parent row does not exist.
    ForeignKeyViolation,
    /// The key sequence is exhausted; no fresh id can be assigned.
    KeysExhausted,
}

/// Failure of a service operation. A denial carries its reason and is never
/// retried; a store failure is surfaced as an internal fault whose detail a
/// caller may inspect.
#[derive(Clone, Copy, Debug, PartialEq, Eq, Structural)]
pub enum ServiceError {
    PermissionDenied(DenyReason),
    StoreFailure(StoreError),
}

impl ServiceError {
    /// Human-readable description of the failure.
    pub fn message(&self) -> (m: &'static str)
        ensures
            m@ == match *self {
                ServiceError::PermissionDenied(DenyReason::NotAuthenticated) => {
                    "you must be logged in to perform this operation"@
                },
                ServiceError::PermissionDenied(DenyReason::InsufficientRole) => {
                    "only moderators or administrators may perform this operation"@
                },
                ServiceError::PermissionDenied(DenyReason::NotOwner) => {
                    "you may not delete other users' anchors"@
                },
                ServiceError::StoreFailure(StoreError::RowNotFound) => "no matching row"@,
                ServiceError::StoreFailure(StoreError::ForeignKeyViolation) => {
                    "a referenced row does not exist"@
                },
                ServiceError::StoreFailure(StoreError::KeysExhausted) => "no fresh key available"@,
            },
    {
        match self {
            ServiceError::PermissionDenied(DenyReason::NotAuthenticated) => {
                "you must be logged in to perform this operation"
            },
            ServiceError::PermissionDenied(DenyReason::InsufficientRole) => {
                "only moderators or administrators may perform this operation"
            },
            ServiceError::PermissionDenied(DenyReason::NotOwner) => {
                "you may not delete other users' anchors"
            },
            ServiceError::StoreFailure(StoreError::RowNotFound) => "no matching row",
            ServiceError::StoreFailure(StoreError::ForeignKeyViolation) => {
                "a referenced row does not exist"
            },
            ServiceError::StoreFailure(StoreError::KeysExhausted) => "no fresh key available",
        }
    }
}

} // verus!
