//! Typed bootstrap-reader failures.
use vstd::prelude::*;

use crate::identity::EncodedName;
use super::catalog::{BootstrapPriorSlot, SchemaRole};
use super::model::{EthosKind, EthosVersion};

verus! {

/// Failure to build the shared reader.
#[derive(Clone, Copy, Debug, PartialEq, Eq, Structural)]
pub enum BootstrapBuildError {
    /// The document and syntax grammar identities must be distinct.
    DuplicateGrammarIdentity,
}

/// Failure in catalog construction, discovery, planning, or semantic sealing.
#[allow(inconsistent_fields)]
#[derive(Clone, Debug)]
pub enum BootstrapReadError {
    /// The source text does not follow the bootstrap syntax.
    MalformedSource { expected: &'static str, at: usize },
    /// A syntax node did not have the shape its typed position requires.
    UnexpectedStructure { expected: &'static str, found: &'static str, start: usize },
    UnknownFileKind(String),
    UnsupportedVersion { found: EthosVersion, supported: Vec<EthosVersion> },
    HeaderBodyMismatch { header: EthosKind, body: EthosKind },
    InvalidVersionComponent(String),
    InvalidModulePath(Vec<String>),
    InvalidVisibleName(String),
    EmptyImportSelectors,
    DuplicateMetadataIdentity(EncodedName),
    DuplicateMetadataProjectionAddress {
        module: Vec<String>,
        lexical_owner: Option<EncodedName>,
        name: String,
    },
    InvalidMetadataLexicalOwner { identity: EncodedName, owner: EncodedName },
    MissingMetadataIdentity(EncodedName),
    MetadataProjectionMismatch { identity: EncodedName },
    MetadataTransitionBeforeMismatch,
    NamingAuthorityRejected,
    NamingAuthorityReceiptRejected,
    ExtraMetadataIdentity(EncodedName),
    MissingTextualLookup { module: Vec<String>, name: String },
    AmbiguousReference { name: String, identities: Vec<EncodedName> },
    UnresolvedReference { name: String },
    MissingSchema(EncodedName),
    WrongSchemaRole { identity: EncodedName, required: SchemaRole },
    NonUniversalSchemaIdentity(EncodedName),
    ConflictingSchemaRoles { identity: EncodedName, first: SchemaRole, second: SchemaRole },
    DuplicateSchemaIdentity(EncodedName),
    InvalidPriorRole { position: BootstrapPriorSlot, identity: EncodedName, required: SchemaRole },
    NonUniversalPrior { position: BootstrapPriorSlot },
    DuplicateFileKindProjection,
    DuplicateDeclaration { name: String, scope: String },
    DuplicateAssignment(u32),
    ExtraAssignment,
    MissingAssignment(u32),
    AssignedIdentityCollision { identity: EncodedName },
    ExistingAssignmentMissing { identity: EncodedName },
    NewAssignmentAlreadyExists { identity: EncodedName },
    ExistingAssignmentNotReusable { identity: EncodedName, required: SchemaRole },
    MissingCanonicalIdentity(EncodedName),
    EmptyCanonicalIdentityBytes(EncodedName),
    DuplicateCanonicalIdentity(EncodedName),
    DuplicateCanonicalIdentityBytes { first: EncodedName, second: EncodedName },
    DuplicateGeneratedStreamAssignment(u32),
    MissingGeneratedStreamAssignment(u32),
    ExtraGeneratedStreamAssignment,
    ShapeArity { identity: EncodedName, expected: u16, found: usize },
    NomosArity { identity: EncodedName, expected: u16, found: usize },
    NonPriorShapeIdentity { identity: EncodedName },
    NonPriorNomosIdentity { identity: EncodedName },
    ConflictingNamedParameter { name: String },
    DuplicateTrait(EncodedName),
    DuplicateTraitProjection(String),
    StreamOutsideInterfaceTypes,
    NonPersistentDeclaration,
    InvalidPreparedModel(&'static str),
    InvisibleOrNonRoundTrippingReference { identity: EncodedName, name: String },
}

/// Failure to render a canonical textual projection.
#[derive(Clone, Debug)]
pub enum BootstrapWriteError {
    InvalidModel(BootstrapReadError),
    MissingSpelling(EncodedName),
}

} // verus!
