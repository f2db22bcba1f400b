//! The scalar slots every encoded universe registers.
use vstd::prelude::*;

verus! {

/// One registered scalar slot.
#[derive(Clone, Copy, Debug, PartialEq, Eq, Hash, Structural)]
pub enum ScalarSlot {
    Integer,
    Text,
    Boolean,
    Bytes,
}

} // verus!
