use core_ethos::declaration::{DeclarationRole, EncodedEthosDomain};
use core_ethos::document::{DeclarationConstructor, ReferenceConstructor};
use core_ethos::error::{StreamingReferenceForm, StreamingRelationReference};
use core_ethos::rules::{DelimitedItems, DelimitedRoot, SignatureFirst, SignatureSecond, SignatureThird};
use core_ethos::whole::{EmptyTupleFields, WholeEthosAttributes, WholeEthosFileKind, WholeEthosHeader};

#[test]
fn whole_file_kind_spellings_select_their_kind_again() {
    for kind in [WholeEthosFileKind::Interface, WholeEthosFileKind::Nexus, WholeEthosFileKind::Sema] {
        assert_eq!(WholeEthosFileKind::from_spelling(kind.spelling()), Some(kind));
    }
    assert_eq!(WholeEthosFileKind::Interface.spelling(), "Interface");
    assert_eq!(WholeEthosFileKind::Nexus.spelling(), "Nexus");
    assert_eq!(WholeEthosFileKind::Sema.spelling(), "Sema");
    assert_eq!(WholeEthosFileKind::from_spelling("Unknown"), None);
    assert_eq!(WholeEthosFileKind::from_spelling("interface"), None);
    assert_eq!(WholeEthosFileKind::from_spelling(""), None);
}

#[test]
fn whole_header_retains_kind_and_version() {
    let header = WholeEthosHeader::new(WholeEthosFileKind::Nexus, 1).expect("supported header");
    assert_eq!(header.kind(), WholeEthosFileKind::Nexus);
    assert_eq!(header.version(), 1);
    assert!(WholeEthosAttributes::empty().is_empty());
    assert_eq!(
        EmptyTupleFields.message(),
        "tuple variant payload requires at least one positional field"
    );
}

#[test]
fn constructor_indices_select_their_constructor_again() {
    for constructor in [ReferenceConstructor::Name, ReferenceConstructor::Application] {
        assert_eq!(ReferenceConstructor::from_index(constructor.index()), Some(constructor));
    }
    for constructor in [
        DeclarationConstructor::Newtype,
        DeclarationConstructor::Struct,
        DeclarationConstructor::Enumeration,
    ] {
        assert_eq!(DeclarationConstructor::from_index(constructor.index()), Some(constructor));
    }
    assert_eq!(ReferenceConstructor::Application.index(), 1);
    assert_eq!(DeclarationConstructor::Enumeration.index(), 2);
    assert_eq!(ReferenceConstructor::from_index(2), None);
    assert_eq!(DeclarationConstructor::from_index(3), None);
}

#[test]
fn interface_roots_carry_their_canonical_names() {
    assert_eq!(DeclarationRole::DataType.interface_root_name(), None);
    assert_eq!(DeclarationRole::InterfaceInput.interface_root_name(), Some("Input"));
    assert_eq!(DeclarationRole::InterfaceOutput.interface_root_name(), Some("Output"));
    assert_eq!(EncodedEthosDomain::separation_context(), "core-schema 2026 stringless core schema layer");
    assert_eq!(EncodedEthosDomain::layout_version(), 5);
}

#[test]
fn refusal_positions_have_display_spellings() {
    assert_eq!(StreamingRelationReference::Token.as_str(), "token");
    assert_eq!(StreamingRelationReference::Event.as_str(), "event");
    assert_eq!(StreamingRelationReference::CloseToken.as_str(), "close-token");
    assert_eq!(StreamingReferenceForm::Scalar.as_str(), "scalar");
    assert_eq!(StreamingReferenceForm::BytesLength.as_str(), "Bytes length");
    assert_eq!(
        StreamingReferenceForm::SingleTypeApplication.as_str(),
        "single-type generic application"
    );
    assert_eq!(
        StreamingReferenceForm::MultiTypeApplication.as_str(),
        "multi-type generic application"
    );
}

#[test]
fn grammar_rules_have_stable_identifiers() {
    assert_eq!(DelimitedRoot::stable_id(), 1001);
    assert_eq!(DelimitedItems::stable_id(), 1002);
    assert_eq!(SignatureFirst::stable_id(), 1003);
    assert_eq!(SignatureSecond::stable_id(), 1004);
    assert_eq!(SignatureThird::stable_id(), 1005);
}
