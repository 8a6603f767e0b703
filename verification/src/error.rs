//! Error taxonomy of the repository layer: targets that are absent,
//! uniqueness conflicts, and referential-integrity failures.

use vstd::prelude::*;

verus! {

/// The kind of entity an operation was aimed at.
#[derive(Clone, Copy, Debug, PartialEq, Eq, Structural)]
pub enum EntityKind {
    Task,
    List,
    Tag,
}

/// A repository failure. `NotFound` carries the id that was looked up,
/// `Conflict` the id or name that already exists, and `Storage` the id
/// whose referential check failed.
#[derive(Debug)]
pub enum AppError {
    NotFound(EntityKind, String),
    Conflict(EntityKind, String),
    Storage(EntityKind, String),
}

impl AppError {
    /// The entity kind this error is about.
    pub fn kind(&self) -> (k: EntityKind)
        ensures
            k == self.spec_kind(),
    {
        match self {
            AppError::NotFound(k, _) => *k,
            AppError::Conflict(k, _) => *k,
            AppError::Storage(k, _) => *k,
        }
    }

    pub open spec fn spec_kind(self) -> EntityKind {
        match self {
            AppError::NotFound(k, _) => k,
            AppError::Conflict(k, _) => k,
            AppError::Storage(k, _) => k,
        }
    }

    /// The id or name the failure is about.
    pub fn subject(&self) -> (s: &str)
        ensures
            s@ == self.spec_subject(),
    {
        match self {
            AppError::NotFound(_, s) => s.as_str(),
            AppError::Conflict(_, s) => s.as_str(),
            AppError::Storage(_, s) => s.as_str(),
        }
    }

    pub open spec fn spec_subject(self) -> Seq<char> {
        match self {
            AppError::NotFound(_, s) => s@,
            AppError::Conflict(_, s) => s@,
            AppError::Storage(_, s) => s@,
        }
    }
}

/// The operation failed with `NotFound` about this entity.
pub open spec fn fails_not_found<T>(r: Result<T, AppError>, k: EntityKind, subject: Seq<char>) -> bool {
    &&& r matches Err(e)
    &&& e matches AppError::NotFound(ek, s)
    &&& ek == k
    &&& s@ == subject
}

/// The operation failed with `Conflict` about this entity.
pub open spec fn fails_conflict<T>(r: Result<T, AppError>, k: EntityKind, subject: Seq<char>) -> bool {
    &&& r matches Err(e)
    &&& e matches AppError::Conflict(ek, s)
    &&& ek == k
    &&& s@ == subject
}

/// The operation failed with `Storage` (a referential or constraint
/// failure) about this entity.
pub open spec fn fails_storage<T>(r: Result<T, AppError>, k: EntityKind, subject: Seq<char>) -> bool {
    &&& r matches Err(e)
    &&& e matches AppError::Storage(ek, s)
    &&& ek == k
    &&& s@ == subject
}

} // verus!
