//! Declaration roles and visibility of the stringless declaration substrate.
use vstd::prelude::*;

verus! {

/// The hash domain of stringless encoded Ethos values: a context string and
/// a layout version.
#[derive(Clone, Copy, Debug, PartialEq, Eq, Structural)]
pub struct EncodedEthosDomain;

impl EncodedEthosDomain {
    /// The domain-separation context.
    pub fn separation_context() -> (r: &'static str)
        ensures
            r@ == "core-schema 2026 stringless core schema layer"@,
    {
        "core-schema 2026 stringless core schema layer"
    }

    /// The layout version under which values are hashed.
    pub fn layout_version() -> (r: u16)
        ensures
            r == 5,
    {
        5
    }
}

/// Whether a declaration is an ordinary data type or one of the document's
/// two interface roots.
#[derive(Clone, Copy, Debug, PartialEq, Eq, Structural)]
pub enum DeclarationRole {
    /// An ordinary type declaration.
    DataType,
    /// The input protocol line: the mail types a component accepts.
    InterfaceInput,
    /// The output protocol line: the mail types a component emits.
    InterfaceOutput,
}

/// The canonical name an interface root carries.
pub open spec fn interface_root_spelling(role: DeclarationRole) -> Option<Seq<char>> {
    match role {
        DeclarationRole::DataType => None,
        DeclarationRole::InterfaceInput => Some("Input"@),
        DeclarationRole::InterfaceOutput => Some("Output"@),
    }
}

impl DeclarationRole {
    /// `Input` for the input line, `Output` for the output line, and nothing
    /// for an ordinary data type.
    pub fn interface_root_name(self) -> (r: Option<&'static str>)
        ensures
            match (r, interface_root_spelling(self)) {
                (Some(n), Some(m)) => n@ == m,
                (None, None) => true,
                _ => false,
            },
    {
        match self {
            DeclarationRole::DataType => None,
            DeclarationRole::InterfaceInput => Some("Input"),
            DeclarationRole::InterfaceOutput => Some("Output"),
        }
    }
}

/// Whether a declaration is exported.
#[derive(Clone, Copy, Debug, PartialEq, Eq, Structural)]
pub enum Visibility {
    Public,
    Private,
}

} // verus!
