//! The constructor vocabularies of the flat document grammar, each with a
//! stable index.
use vstd::prelude::*;

verus! {

/// The reference constructors, in index order.
#[derive(Clone, Copy, Debug, PartialEq, Eq, Structural)]
pub enum ReferenceConstructor {
    Name,
    Application,
}

pub open spec fn reference_constructor_index(c: ReferenceConstructor) -> u16 {
    match c {
        ReferenceConstructor::Name => 0,
        ReferenceConstructor::Application => 1,
    }
}

impl ReferenceConstructor {
    pub fn index(self) -> (r: u16)
        ensures
            r == reference_constructor_index(self),
    {
        match self {
            ReferenceConstructor::Name => 0,
            ReferenceConstructor::Application => 1,
        }
    }

    /// The constructor at an index; indices past the last have none.
    pub fn from_index(index: u16) -> (r: Option<ReferenceConstructor>)
        ensures
            match r {
                Some(c) => reference_constructor_index(c) == index,
                None => index >= 2,
            },
    {
        match index {
            0 => Some(ReferenceConstructor::Name),
            1 => Some(ReferenceConstructor::Application),
            _ => None,
        }
    }
}

/// The declaration constructors, in index order.
#[derive(Clone, Copy, Debug, PartialEq, Eq, Structural)]
pub enum DeclarationConstructor {
    Newtype,
    Struct,
    Enumeration,
}

pub open spec fn declaration_constructor_index(c: DeclarationConstructor) -> u16 {
    match c {
        DeclarationConstructor::Newtype => 0,
        DeclarationConstructor::Struct => 1,
        DeclarationConstructor::Enumeration => 2,
    }
}

impl DeclarationConstructor {
    pub fn index(self) -> (r: u16)
        ensures
            r == declaration_constructor_index(self),
    {
        match self {
            DeclarationConstructor::Newtype => 0,
            DeclarationConstructor::Struct => 1,
            DeclarationConstructor::Enumeration => 2,
        }
    }

    /// The constructor at an index; indices past the last have none.
    pub fn from_index(index: u16) -> (r: Option<DeclarationConstructor>)
        ensures
            match r {
                Some(c) => declaration_constructor_index(c) == index,
                None => index >= 3,
            },
    {
        match index {
            0 => Some(DeclarationConstructor::Newtype),
            1 => Some(DeclarationConstructor::Struct),
            2 => Some(DeclarationConstructor::Enumeration),
            _ => None,
        }
    }
}

/// Each constructor's index selects it again.
pub proof fn lemma_constructor_index_round_trip(r: ReferenceConstructor, d: DeclarationConstructor)
    ensures
        reference_constructor_index(r) < 2,
        declaration_constructor_index(d) < 3,
        forall|x: ReferenceConstructor| reference_constructor_index(x) == reference_constructor_index(r) ==> x == r,
        forall|x: DeclarationConstructor| declaration_constructor_index(x) == declaration_constructor_index(d) ==> x == d,
{
}

} // verus!
