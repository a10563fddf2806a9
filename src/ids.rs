//! Fresh identifiers.
use vstd::prelude::*;

verus! {

/// Relies on uuid::Uuid::new_v4 and its `Display` impl: a random version-4
/// identifier in hyphenated form, always 36 characters long.
#[verifier::external_body]
pub(crate) fn new_id() -> (r: String)
    ensures
        r@.len() == 36,
{
    uuid::Uuid::new_v4().to_string()
}

} // verus!
