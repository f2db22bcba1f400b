//! The schema language that encoded schema forms belong to.
use vstd::prelude::*;

verus! {

/// The language of encoded types and schemas.
#[derive(Clone, Copy, Debug, PartialEq, Eq, Structural)]
pub struct SchemaLanguage;

} // verus!
