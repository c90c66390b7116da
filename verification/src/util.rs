//! Generation of fresh stable ids for newly seen slugs.

use vstd::prelude::*;

verus! {

/// Relies on `uuid::Uuid::new_v4` and the hyphenated `Display` form its
/// `to_string` uses, which is 36 characters long. The value itself is
/// random; nothing else is assumed of it.
#[verifier::external_body]
pub(crate) fn generate_uuid() -> (r: String)
    ensures
        r@.len() == 36,
{
    uuid::Uuid::new_v4().to_string()
}

} // verus!
