//! Outcomes and errors of the policy operations.
//!
//! Existence checks are derived from row-count observations, so the
//! classification of an observed count into an outcome (or into a
//! consistency failure) lives here, next to the outcome types themselves.

use vstd::prelude::*;

verus! {

/// Outcome of an upsert: was the site newly created, or did it replace an
/// existing policy? The boundary maps `Created` to a response that names the
/// new resource and `Replaced` to a bare success.
#[derive(Clone, Copy, Debug, PartialEq, Eq, Structural)]
pub enum PutOutcome {
    Created,
    Replaced,
}

/// Outcome of a delete: `NotFound` is a normal no-op outcome, not an error.
#[derive(Clone, Copy, Debug, PartialEq, Eq, Structural)]
pub enum DeleteOutcome {
    Deleted,
    NotFound,
}

/// Failures of the policy logic itself.
///
/// - `Decode`: a stored forbidden-character aggregate is malformed and cannot
///   be parsed back into a character sequence (a data-integrity problem).
/// - `Consistency(n)`: a statement that must affect at most one row reported
///   `n > 1` affected rows; the operation is aborted so that the broken
///   uniqueness invariant is never committed.
///
/// Failures of the store itself (connection, statement) never reach this
/// crate: the storage boundary reports them before any of this logic runs.
#[derive(Clone, Copy, Debug, PartialEq, Eq, Structural)]
pub enum PolicyError {
    Decode,
    Consistency(usize),
}

/// Classify an upsert after its replace statement reported `rows_replaced`
/// affected rows, `existed` telling whether the site had a login row before.
///
/// A replace over a keyed login table affects at most one row; more than one
/// means the uniqueness invariant is broken and the transaction must be
/// rolled back.
pub fn upsert_outcome(existed: bool, rows_replaced: usize) -> (r: Result<PutOutcome, PolicyError>)
    ensures
        rows_replaced <= 1 && existed ==> r == Ok::<PutOutcome, PolicyError>(PutOutcome::Replaced),
        rows_replaced <= 1 && !existed ==> r == Ok::<PutOutcome, PolicyError>(PutOutcome::Created),
        rows_replaced > 1 ==> r == Err::<PutOutcome, PolicyError>(PolicyError::Consistency(rows_replaced)),
{
    if rows_replaced > 1 {
        Err(PolicyError::Consistency(rows_replaced))
    } else if existed {
        Ok(PutOutcome::Replaced)
    } else {
        Ok(PutOutcome::Created)
    }
}

/// Classify a delete after its statement on the login table reported
/// `rows_deleted` affected rows.
///
/// Zero rows means there was nothing to delete: the caller rolls the
/// transaction back (so the character-row deletion leaves no partial state)
/// and reports `NotFound`. Exactly one row is the normal path. More than one
/// row means the uniqueness invariant is broken.
pub fn delete_outcome(rows_deleted: usize) -> (r: Result<DeleteOutcome, PolicyError>)
    ensures
        rows_deleted == 0 ==> r == Ok::<DeleteOutcome, PolicyError>(DeleteOutcome::NotFound),
        rows_deleted == 1 ==> r == Ok::<DeleteOutcome, PolicyError>(DeleteOutcome::Deleted),
        rows_deleted > 1 ==> r == Err::<DeleteOutcome, PolicyError>(PolicyError::Consistency(rows_deleted)),
{
    if rows_deleted == 0 {
        Ok(DeleteOutcome::NotFound)
    } else if rows_deleted == 1 {
        Ok(DeleteOutcome::Deleted)
    } else {
        Err(PolicyError::Consistency(rows_deleted))
    }
}

} // verus!
