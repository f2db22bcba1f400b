//! Whole-Ethos file vocabulary: file kinds, the typed header, and the closed
//! position enumerations reported by the whole-file boundary.
use vstd::prelude::*;

use crate::bootstrap::catalog::str_equal;

pub mod model;
pub mod priors;
pub mod validation;

pub use self::model::{
    EthosDocument, WholeEthos, WholeEthosBody, WholeEthosEnumeration, WholeEthosInterfaceBody, WholeEthosItem,
    WholeEthosMethod, WholeEthosNewtype, WholeEthosNexusBody, WholeEthosOperatorApplication,
    WholeEthosSemaBody, WholeEthosStruct, WholeEthosTable, WholeEthosTrait, WholeEthosTupleFields,
    WholeEthosTypeApplication, WholeEthosTypeReference, WholeEthosVariant,
    WholeEthosVariantPayload, WholeEthosWrappedField,
};
pub use self::priors::{
    EthosGrammarError, EthosGrammarIdentities, EthosGrammarIds, WholeEthosBuiltinPriorError,
    WholeEthosBuiltinPriors,
};
pub use self::validation::{WholeEthosArchiveError, SUPPORTED_VERSION};

verus! {

/// The three specialized Ethos file kinds.
#[derive(Clone, Copy, Debug, PartialEq, Eq, Structural)]
pub enum WholeEthosFileKind {
    /// Public wire vocabulary and its universal role memberships.
    Interface,
    /// Internal operand types and behavior traits.
    Nexus,
    /// Private record types and tables.
    Sema,
}

/// The canonical header spelling of a file kind.
pub open spec fn file_kind_spelling(kind: WholeEthosFileKind) -> Seq<char> {
    match kind {
        WholeEthosFileKind::Interface => "Interface"@,
        WholeEthosFileKind::Nexus => "Nexus"@,
        WholeEthosFileKind::Sema => "Sema"@,
    }
}

/// The file kind a header spelling selects.
pub open spec fn file_kind_of(spelling: Seq<char>) -> Option<WholeEthosFileKind> {
    if spelling == "Interface"@ {
        Some(WholeEthosFileKind::Interface)
    } else if spelling == "Nexus"@ {
        Some(WholeEthosFileKind::Nexus)
    } else if spelling == "Sema"@ {
        Some(WholeEthosFileKind::Sema)
    } else {
        None
    }
}

impl WholeEthosFileKind {
    /// Canonical textual spelling in the header.
    pub fn spelling(self) -> (r: &'static str)
        ensures
            r@ == file_kind_spelling(self),
    {
        match self {
            WholeEthosFileKind::Interface => "Interface",
            WholeEthosFileKind::Nexus => "Nexus",
            WholeEthosFileKind::Sema => "Sema",
        }
    }

    /// The file kind a header spelling selects, if any.
    pub fn from_spelling(spelling: &str) -> (r: Option<WholeEthosFileKind>)
        ensures
            r == file_kind_of(spelling@),
    {
        if str_equal(spelling, "Interface") {
            Some(WholeEthosFileKind::Interface)
        } else if str_equal(spelling, "Nexus") {
            Some(WholeEthosFileKind::Nexus)
        } else if str_equal(spelling, "Sema") {
            Some(WholeEthosFileKind::Sema)
        } else {
            None
        }
    }
}

/// Every file kind's canonical spelling selects that kind again.
pub proof fn lemma_file_kind_spelling_round_trip(kind: WholeEthosFileKind)
    ensures
        file_kind_of(file_kind_spelling(kind)) == Some(kind),
{
    reveal_strlit("Interface");
    reveal_strlit("Nexus");
    reveal_strlit("Sema");
    assert("Interface"@ != "Nexus"@) by {
        assert("Interface"@.len() != "Nexus"@.len());
    }
    assert("Interface"@ != "Sema"@) by {
        assert("Interface"@.len() != "Sema"@.len());
    }
    assert("Nexus"@ != "Sema"@) by {
        assert("Nexus"@.len() != "Sema"@.len());
    }
}

/// The typed two-position document header.
#[derive(Clone, Copy, Debug, PartialEq, Eq, Structural)]
pub struct WholeEthosHeader {
    kind: WholeEthosFileKind,
    version: u64,
}

impl WholeEthosHeader {
    pub closed spec fn spec_kind(&self) -> WholeEthosFileKind {
        self.kind
    }

    pub closed spec fn spec_version(&self) -> u64 {
        self.version
    }

    /// Construct a header; only the supported compatibility generation is
    /// admitted.
    pub fn new(kind: WholeEthosFileKind, version: u64) -> (r: Result<Self, WholeEthosArchiveError>)
        ensures
            version == SUPPORTED_VERSION ==> (r matches Ok(h) && h.spec_kind() == kind
                && h.spec_version() == version),
            version != SUPPORTED_VERSION ==> r == Err::<Self, WholeEthosArchiveError>(
                WholeEthosArchiveError::UnsupportedVersion {
                    kind,
                    found: version,
                    supported: SUPPORTED_VERSION,
                },
            ),
    {
        if version != SUPPORTED_VERSION {
            return Err(
                WholeEthosArchiveError::UnsupportedVersion {
                    kind,
                    found: version,
                    supported: SUPPORTED_VERSION,
                },
            );
        }
        Ok(WholeEthosHeader { kind, version })
    }

    /// Specialized file kind.
    pub fn kind(&self) -> (r: WholeEthosFileKind)
        ensures
            r == self.spec_kind(),
    {
        self.kind
    }

    /// Compatibility generation accepted by this codec.
    pub fn version(&self) -> (r: u64)
        ensures
            r == self.spec_version(),
    {
        self.version
    }
}

/// A struct construction attempted to encode no positional fields.
#[derive(Clone, Copy, Debug, PartialEq, Eq, Structural)]
pub struct EmptyStructFields;

impl EmptyStructFields {
    /// The refusal's description.
    pub fn message(&self) -> (r: &'static str)
        ensures
            r@ == "struct declaration requires at least one positional field"@,
    {
        "struct declaration requires at least one positional field"
    }
}

/// An enumeration construction attempted to encode no variants.
#[derive(Clone, Copy, Debug, PartialEq, Eq, Structural)]
pub struct EmptyEnumerationVariants;

impl EmptyEnumerationVariants {
    /// The refusal's description.
    pub fn message(&self) -> (r: &'static str)
        ensures
            r@ == "enumeration declaration requires at least one variant"@,
    {
        "enumeration declaration requires at least one variant"
    }
}

/// An object application attempted to encode an empty payload.
#[derive(Clone, Copy, Debug, PartialEq, Eq, Structural)]
pub struct EmptyOperatorPayload;

impl EmptyOperatorPayload {
    /// The refusal's description.
    pub fn message(&self) -> (r: &'static str)
        ensures
            r@ == "operator application requires at least one positional field"@,
    {
        "operator application requires at least one positional field"
    }
}

/// A trait construction attempted to encode no methods.
#[derive(Clone, Copy, Debug, PartialEq, Eq, Structural)]
pub struct EmptyTraitMethods;

impl EmptyTraitMethods {
    /// The refusal's description.
    pub fn message(&self) -> (r: &'static str)
        ensures
            r@ == "trait declaration requires at least one method"@,
    {
        "trait declaration requires at least one method"
    }
}

/// A tuple-payload construction attempted to encode no fields.
#[derive(Clone, Copy, Debug, PartialEq, Eq, Structural)]
pub struct EmptyTupleFields;

impl EmptyTupleFields {
    /// The refusal's description.
    pub fn message(&self) -> (r: &'static str)
        ensures
            r@ == "tuple variant payload requires at least one positional field"@,
    {
        "tuple variant payload requires at least one positional field"
    }
}

/// Visibility vocabulary retained by downstream transformations.
#[derive(Clone, Copy, Debug, PartialEq, Eq, Structural)]
pub enum WholeEthosVisibility {
    /// Exported item.
    Public,
    /// Private wrapped field.
    Private,
}

/// Typed empty attribute sequence admitted by this codec.
#[derive(Clone, Copy, Debug, Default, PartialEq, Eq, Structural)]
pub struct WholeEthosAttributes;

impl WholeEthosAttributes {
    /// Construct the only admitted attribute sequence.
    pub fn empty() -> (r: Self)
        ensures
            r == WholeEthosAttributes,
    {
        WholeEthosAttributes
    }

    /// This sequence currently contains no attributes.
    pub fn is_empty(self) -> (r: bool)
        ensures
            r,
    {
        true
    }
}

/// Encoded-ID position rejected at the archive boundary.
#[derive(Clone, Copy, Debug, PartialEq, Eq, Structural)]
pub enum WholeEthosEncodedIdPosition {
    /// Item declaration.
    ItemName,
    /// Enumeration variant.
    VariantName,
    /// Type reference.
    Reference,
    /// Unary or object application head.
    ApplicationHead,
    /// Authored object application name.
    ApplicationName,
    /// Trait declaration.
    TraitName,
    /// Method declaration.
    MethodName,
    /// Table declaration.
    TableName,
}

/// Structural grammar identity position rejected during construction.
#[derive(Clone, Copy, Debug, PartialEq, Eq, Structural)]
pub enum EthosGrammarIdPosition {
    InterfaceDocument,
    NexusDocument,
    SemaDocument,
    Header,
    Imports,
    ImportEntry,
    InterfaceBody,
    NexusBody,
    SemaBody,
    NewtypeList,
    StructList,
    ItemList,
    TraitList,
    TableList,
    NewtypeDeclaration,
    StructDeclaration,
    Item,
    Variant,
    TypeReference,
    OperatorPayload,
    TraitDeclaration,
    Method,
    Table,
}

/// Builtin-prior role rejected during codec construction.
#[derive(Clone, Copy, Debug, PartialEq, Eq, Structural)]
pub enum WholeEthosBuiltinPriorPosition {
    Integer,
    Vector,
    Identity,
    ApplicationHead,
    ObjectApplicationHead,
}

/// Encoded-ID role rejected after structural evaluation.
#[derive(Clone, Copy, Debug, PartialEq, Eq, Structural)]
pub enum DecodedEncodedIdPosition {
    /// Authored declaration assignment.
    Declaration,
    /// Lookup-only reference resolution.
    Reference,
}

/// Lookup-only prior role rejected while reifying a reference.
#[derive(Clone, Copy, Debug, PartialEq, Eq, Structural)]
pub enum WholeEthosReferencePriorPosition {
    /// Direct type identity.
    Identity,
    /// Unary application head.
    ApplicationHead,
}

} // verus!
