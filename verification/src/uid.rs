//! Identifier generation for new entities.

use vstd::prelude::*;

verus! {

/// Relies on uuid::Uuid::new_v4, rendered by its Display form: a fresh
/// random identifier. The result is random, so nothing is promised of it.
#[verifier::external_body]
pub(crate) fn fresh_id() -> String {
    uuid::Uuid::new_v4().to_string()
}

} // verus!
