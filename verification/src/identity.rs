//! Caller-issued encoded identities, carried as plain values.
use vstd::prelude::*;

verus! {

/// The vocabulary that issued an encoded identity.
#[derive(Clone, Copy, Debug, PartialEq, Eq, Structural)]
pub enum VocabularyRoot {
    /// Shared vocabulary usable by every Ethos file.
    Universal,
    /// A vocabulary local to one schema domain.
    Domain,
    /// The vocabulary of the Rust language's own names.
    Rust,
}

/// One caller-issued encoded identity: the issuing vocabulary and the serial
/// that the naming authority assigned inside it. The library never derives,
/// allocates, or inspects anything else about an identity.
#[derive(Clone, Copy, Debug, PartialEq, Eq, Structural)]
pub struct EncodedName {
    pub root: VocabularyRoot,
    pub serial: u64,
}

impl EncodedName {
    /// An identity issued by the shared Universal vocabulary.
    pub fn universal(serial: u64) -> (r: Self)
        ensures
            r.root == VocabularyRoot::Universal,
            r.serial == serial,
    {
        EncodedName { root: VocabularyRoot::Universal, serial }
    }

    /// Whether the identity belongs to the Universal vocabulary.
    pub fn is_universal(&self) -> (r: bool)
        ensures
            r == (self.root == VocabularyRoot::Universal),
    {
        match self.root {
            VocabularyRoot::Universal => true,
            VocabularyRoot::Domain => false,
            VocabularyRoot::Rust => false,
        }
    }
}

} // verus!
