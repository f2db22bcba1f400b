//! The one registry seating provisional root/order choices.
use vstd::prelude::*;

use crate::identity::EncodedName;
use super::catalog::{BootstrapPriorIdentities, BootstrapPriorVocabulary, TextualMetadataSnapshot};
use super::model::{EthosKind, InterfaceRole};

verus! {

/// One registered section of a file-kind body.
#[derive(Clone, Copy, Debug, PartialEq, Eq, Structural)]
pub enum BootstrapSectionSchema {
    Role(InterfaceRole),
    /// Supporting declarations; only Interface Types admit authored Streams.
    Declarations { admit_nomos: bool },
    Traits,
    PersistentDeclarations,
    Tables,
}

/// The registered body sections of each file kind, in authored order.
pub open spec fn root_sections(kind: EthosKind) -> Seq<BootstrapSectionSchema> {
    match kind {
        EthosKind::Interface => seq![
            BootstrapSectionSchema::Role(InterfaceRole::Input),
            BootstrapSectionSchema::Role(InterfaceRole::Output),
            BootstrapSectionSchema::Role(InterfaceRole::Refusal),
            BootstrapSectionSchema::Declarations { admit_nomos: true },
        ],
        EthosKind::Nexus => seq![
            BootstrapSectionSchema::Traits,
            BootstrapSectionSchema::Declarations { admit_nomos: false },
        ],
        EthosKind::Sema => seq![
            BootstrapSectionSchema::PersistentDeclarations,
            BootstrapSectionSchema::Tables,
        ],
    }
}

/// The registered body sections of `kind`, in authored order.
pub fn section_order(kind: EthosKind) -> (r: Vec<BootstrapSectionSchema>)
    ensures
        r@ == root_sections(kind),
{
    let r = match kind {
        EthosKind::Interface => vec![
            BootstrapSectionSchema::Role(InterfaceRole::Input),
            BootstrapSectionSchema::Role(InterfaceRole::Output),
            BootstrapSectionSchema::Role(InterfaceRole::Refusal),
            BootstrapSectionSchema::Declarations { admit_nomos: true },
        ],
        EthosKind::Nexus => vec![
            BootstrapSectionSchema::Traits,
            BootstrapSectionSchema::Declarations { admit_nomos: false },
        ],
        EthosKind::Sema => vec![
            BootstrapSectionSchema::PersistentDeclarations,
            BootstrapSectionSchema::Tables,
        ],
    };
    assert(r@ =~= root_sections(kind));
    r
}

/// The file-kind prior that projects a kind's header spelling.
pub open spec fn kind_prior(ids: BootstrapPriorIdentities, kind: EthosKind) -> EncodedName {
    match kind {
        EthosKind::Interface => ids.interface_kind,
        EthosKind::Nexus => ids.nexus_kind,
        EthosKind::Sema => ids.sema_kind,
    }
}

/// The file kind whose prior projects `spelling`, trying Interface, Nexus,
/// then Sema.
pub open spec fn header_kind(ids: BootstrapPriorIdentities, metadata: TextualMetadataSnapshot, spelling: Seq<char>) -> Option<EthosKind> {
    if metadata.spec_spelling(ids.interface_kind) == Some(spelling) {
        Some(EthosKind::Interface)
    } else if metadata.spec_spelling(ids.nexus_kind) == Some(spelling) {
        Some(EthosKind::Nexus)
    } else if metadata.spec_spelling(ids.sema_kind) == Some(spelling) {
        Some(EthosKind::Sema)
    } else {
        None
    }
}

/// The prior identity that projects a kind's header spelling.
pub fn kind_identity(priors: &BootstrapPriorVocabulary, kind: EthosKind) -> (r: EncodedName)
    ensures
        r == kind_prior(priors.spec_identities(), kind),
{
    let ids = priors.identities();
    match kind {
        EthosKind::Interface => ids.interface_kind,
        EthosKind::Nexus => ids.nexus_kind,
        EthosKind::Sema => ids.sema_kind,
    }
}

fn spelled(metadata: &TextualMetadataSnapshot, identity: EncodedName, spelling: &str) -> (r: bool)
    requires
        metadata.wf(),
    ensures
        r == (metadata.spec_spelling(identity) == Some(spelling@)),
{
    match metadata.spelling(identity) {
        Some(s) => super::catalog::str_equal(s.as_str(), spelling),
        None => false,
    }
}

/// Select the registered root whose file-kind prior projects `spelling`.
pub fn resolve_header(priors: &BootstrapPriorVocabulary, metadata: &TextualMetadataSnapshot, spelling: &str) -> (r: Option<EthosKind>)
    requires
        metadata.wf(),
    ensures
        r == header_kind(priors.spec_identities(), *metadata, spelling@),
{
    let ids = priors.identities();
    if spelled(metadata, ids.interface_kind, spelling) {
        Some(EthosKind::Interface)
    } else if spelled(metadata, ids.nexus_kind, spelling) {
        Some(EthosKind::Nexus)
    } else if spelled(metadata, ids.sema_kind, spelling) {
        Some(EthosKind::Sema)
    } else {
        None
    }
}

} // verus!
