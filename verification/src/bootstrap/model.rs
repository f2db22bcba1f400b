//! Purpose-built semantic carriers for the bootstrap Ethos file kinds.
use vstd::prelude::*;

use crate::identity::EncodedName;

verus! {

/// One compatibility version written as three canonical decimal components.
#[derive(Clone, Copy, Debug, PartialEq, Eq, Structural, Hash, PartialOrd, Ord)]
pub struct EthosVersion {
    pub major: u64,
    pub minor: u64,
    pub patch: u64,
}

impl EthosVersion {
    /// Construct an exact compatibility version.
    pub fn new(major: u64, minor: u64, patch: u64) -> (r: Self)
        ensures
            r.major == major,
            r.minor == minor,
            r.patch == patch,
    {
        EthosVersion { major, minor, patch }
    }
}

/// The closed set of provisional bootstrap roots.
#[derive(Clone, Copy, Debug, PartialEq, Eq, Structural, Hash, PartialOrd, Ord)]
pub enum EthosKind {
    Interface,
    Nexus,
    Sema,
}

/// Retained compatibility metadata for one decoded file.
#[derive(Clone, Copy, Debug, PartialEq, Eq, Structural)]
pub struct EthosHeader {
    pub kind: EthosKind,
    pub version: EthosVersion,
}

/// A source-only import path and its nonempty selector vector.
#[derive(Debug)]
pub struct ImportEntry {
    pub module: Vec<String>,
    pub imported_names: Vec<String>,
}

/// Source-only information needed to reproduce the authored projection.
#[derive(Debug)]
pub struct BootstrapSourceProjection {
    pub imports: Vec<ImportEntry>,
}

/// A semantically decoded bootstrap document plus source-only projection data.
#[derive(Debug)]
pub struct DecodedBootstrap {
    pub document: BootstrapDocument,
    pub source: BootstrapSourceProjection,
}

/// The common envelope with a typed, kind-selected body.
#[derive(Debug)]
pub struct BootstrapDocument {
    pub header: EthosHeader,
    pub body: BootstrapBody,
}

/// The three provisional root schemas.
#[derive(Debug)]
pub enum BootstrapBody {
    Interface(InterfaceBody),
    Nexus(NexusBody),
    Sema(SemaBody),
}

/// The kind that a body variant belongs to.
pub open spec fn body_kind(body: BootstrapBody) -> EthosKind {
    match body {
        BootstrapBody::Interface(_) => EthosKind::Interface,
        BootstrapBody::Nexus(_) => EthosKind::Nexus,
        BootstrapBody::Sema(_) => EthosKind::Sema,
    }
}

impl BootstrapBody {
    /// The file kind selected by this body.
    pub fn kind(&self) -> (r: EthosKind)
        ensures
            r == body_kind(*self),
    {
        match self {
            BootstrapBody::Interface(_) => EthosKind::Interface,
            BootstrapBody::Nexus(_) => EthosKind::Nexus,
            BootstrapBody::Sema(_) => EthosKind::Sema,
        }
    }
}

/// One Interface-owned universal role.
#[derive(Clone, Copy, Debug, PartialEq, Eq, Structural, Hash, PartialOrd, Ord)]
pub enum InterfaceRole {
    Input,
    Output,
    Refusal,
}

/// A role position either declares its nominal type inline or references one.
#[derive(Debug)]
pub enum RoleEntry {
    Declaration(TypeDeclaration),
    Reference(EncodedName),
}

/// The identity that a role entry designates.
pub open spec fn role_entry_target(entry: RoleEntry) -> EncodedName {
    match entry {
        RoleEntry::Declaration(declaration) => declaration.name,
        RoleEntry::Reference(reference) => reference,
    }
}

impl RoleEntry {
    /// The identity designated by this entry.
    pub fn target(&self) -> (r: EncodedName)
        ensures
            r == role_entry_target(*self),
    {
        match self {
            RoleEntry::Declaration(declaration) => declaration.name,
            RoleEntry::Reference(reference) => *reference,
        }
    }
}

/// A relation owned by the Interface root; it never mutates the target type.
#[derive(Clone, Copy, Debug, PartialEq, Eq, Structural)]
pub struct InterfaceRoleMembership {
    pub role: InterfaceRole,
    pub target: EncodedName,
}

/// Roles first, support declarations last.
#[derive(Debug)]
pub struct InterfaceBody {
    pub inputs: Vec<RoleEntry>,
    pub outputs: Vec<RoleEntry>,
    pub refusals: Vec<RoleEntry>,
    pub types: Vec<Declaration>,
    /// Relations produced only by the three authored role sections.
    pub memberships: Vec<InterfaceRoleMembership>,
}

/// Traits first, signature-supporting declarations last.
#[derive(Debug)]
pub struct NexusBody {
    pub traits: Vec<TraitDeclaration>,
    pub types: Vec<Declaration>,
}

/// Persistent nominal declarations followed by their keyed tables.
#[derive(Debug)]
pub struct SemaBody {
    pub record_types: Vec<TypeDeclaration>,
    pub tables: Vec<TableDeclaration>,
}

/// The deliberately closed bootstrap authored declaration algebra.
#[derive(Debug)]
pub enum Declaration {
    Type(TypeDeclaration),
    Nomos(NomosDeclaration),
}

/// Audited purpose-built Nomos alternatives.
#[derive(Debug)]
pub enum NomosDeclaration {
    StreamInitiation(StreamInitiationDeclaration),
}

/// The identity a declaration names.
pub open spec fn declaration_identity(declaration: Declaration) -> EncodedName {
    match declaration {
        Declaration::Type(declaration) => declaration.name,
        Declaration::Nomos(NomosDeclaration::StreamInitiation(declaration)) => declaration.name,
    }
}

impl Declaration {
    /// The identity this declaration names.
    pub fn identity(&self) -> (r: EncodedName)
        ensures
            r == declaration_identity(*self),
    {
        match self {
            Declaration::Type(declaration) => declaration.name,
            Declaration::Nomos(NomosDeclaration::StreamInitiation(declaration)) => declaration.name,
        }
    }
}

/// The authored meaning of `Name.Stream.(Query Event)`.
#[derive(Debug)]
pub struct StreamInitiationDeclaration {
    /// The authored name designates the eventual direct Stream output identity.
    pub name: EncodedName,
    pub query: TypeExpression,
    pub event: TypeExpression,
}

/// A named plain nominal declaration.
#[derive(Debug)]
pub struct TypeDeclaration {
    pub name: EncodedName,
    pub body: TypeBody,
}

/// Structural alternatives selected by the authored delimiter.
#[derive(Debug)]
pub enum TypeBody {
    Newtype(TypeExpression),
    Struct(Vec<TypeExpression>),
    Enum(Vec<VariantDeclaration>),
}

/// A declaration scoped by its owning enum.
#[derive(Debug)]
pub struct VariantDeclaration {
    pub name: EncodedName,
    pub body: VariantBody,
}

/// The strict unit, unary, and nonempty product variant alternatives.
#[derive(Debug)]
pub enum VariantBody {
    Unit,
    Unary(TypeExpression),
    Product(Vec<TypeExpression>),
}

/// A parameter identity local to one containing type or method declaration.
#[derive(Clone, Copy, Debug, PartialEq, Eq, Structural)]
pub struct LocalParameter {
    pub owner: EncodedName,
    pub ordinal: u32,
}

/// The binder form is semantic and cannot be omitted from named requirements.
#[derive(Debug)]
pub enum ParameterBinder {
    Inferred(LocalParameter),
    Named { parameter: LocalParameter, local_name: String },
}

/// The local parameter a binder introduces or reuses.
pub open spec fn binder_parameter(binder: ParameterBinder) -> LocalParameter {
    match binder {
        ParameterBinder::Inferred(parameter) => parameter,
        ParameterBinder::Named { parameter, .. } => parameter,
    }
}

impl ParameterBinder {
    /// The local parameter bound here.
    pub fn parameter(&self) -> (r: LocalParameter)
        ensures
            r == binder_parameter(*self),
    {
        match self {
            ParameterBinder::Inferred(parameter) => *parameter,
            ParameterBinder::Named { parameter, .. } => *parameter,
        }
    }
}

/// The strict recursive type-expression algebra.
#[derive(Debug)]
pub enum TypeExpression {
    Reference(EncodedName),
    ShapeApplication(ShapeApplication),
    TraitRequirement(TraitRequirement),
}

/// An identity registered as a Shape, applied at its catalog-defined arity.
#[derive(Debug)]
pub struct ShapeApplication {
    pub shape: EncodedName,
    pub arguments: Vec<TypeExpression>,
}

/// One local parameter constrained by a normalized, nonempty Trait vector.
#[derive(Debug)]
pub struct TraitRequirement {
    pub binder: ParameterBinder,
    pub required_traits: Vec<EncodedName>,
}

impl TraitRequirement {
    /// The parameter the requirement binds.
    pub fn binder(&self) -> (r: &ParameterBinder)
        ensures
            *r == self.binder,
    {
        &self.binder
    }

    /// The required Traits, in canonical order.
    pub fn required_traits(&self) -> (r: &[EncodedName])
        ensures
            r@ == self.required_traits@,
    {
        self.required_traits.as_slice()
    }
}

/// The prepared generated declaration whose value is the query value.
#[derive(Debug)]
pub struct StreamInitiationInterfaceDeclaration {
    pub name: EncodedName,
    pub query: TypeExpression,
}

/// The prepared direct `Stream<Event>` Output declaration.
#[derive(Debug)]
pub struct StreamInterfaceDeclaration {
    pub name: EncodedName,
    pub stream_of_event: ShapeApplication,
}

/// The prepared termination Input referencing the direct Stream Output.
#[derive(Debug)]
pub struct StreamTerminationInterfaceDeclaration {
    pub name: EncodedName,
    pub stream_handle: EncodedName,
}

/// Atomic Stream declarations and Interface-owned role relations prepared for
/// an external store to commit or reject as one transaction.
#[derive(Debug)]
pub struct PreparedStreamGeneration {
    pub initiation: StreamInitiationInterfaceDeclaration,
    pub output: StreamInterfaceDeclaration,
    pub termination: StreamTerminationInterfaceDeclaration,
    pub role_relations: [InterfaceRoleMembership; 3],
}

/// One behavioral Trait with zero or more scoped methods.
#[derive(Debug)]
pub struct TraitDeclaration {
    pub name: EncodedName,
    pub methods: Vec<MethodDeclaration>,
}

/// A method signature has zero or more parameters and one mandatory return.
#[derive(Debug)]
pub struct MethodDeclaration {
    pub name: EncodedName,
    pub parameters: Vec<TypeExpression>,
    pub return_type: TypeExpression,
}

/// A keyed persistent table. Both leaves are strict persistent nominal refs.
#[derive(Clone, Copy, Debug, PartialEq, Eq, Structural)]
pub struct TableDeclaration {
    pub name: EncodedName,
    pub record_type: EncodedName,
    pub key_type: EncodedName,
}

/// Runtime Stream value anatomy remains a catalog contract at this stage.
#[derive(Clone, Copy, Debug, PartialEq, Eq, Structural)]
pub struct RuntimeStreamSchemaContract {
    pub stream_shape: EncodedName,
    pub stream_identity_shape: EncodedName,
    pub stream_shape_arity: u16,
    pub stream_identity_shape_arity: u16,
}

/// Archiving is deliberately deferred until the encoded-name substrate is
/// stable enough that an archive layout would not freeze today's carrier.
#[derive(Clone, Copy, Debug, PartialEq, Eq, Structural)]
pub enum BootstrapArchiveStatus {
    NotYetArchived,
}

} // verus!
