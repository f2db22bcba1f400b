use core_ethos::identity::{EncodedName, VocabularyRoot};
use core_ethos::slice_one::{
    NewtypeEncodedIdPosition, SixSlotGrammarError, SixSlotGrammarIdPosition, SixSlotGrammarIds,
    SliceOneBuiltinPriorError, SliceOneBuiltinPriors, WholeEthos, WholeEthosArchiveError,
    WholeEthosAttributes, WholeEthosItem, WholeEthosNewtype, WholeEthosVisibility,
    WholeEthosWrappedField,
};

fn encoded(root: VocabularyRoot, serial: u64) -> EncodedName {
    EncodedName { root, serial }
}

fn newtype(name: EncodedName, wrapped: EncodedName) -> WholeEthosItem {
    WholeEthosItem::Newtype(WholeEthosNewtype::new(
        name,
        WholeEthosVisibility::Public,
        WholeEthosAttributes::empty(),
        WholeEthosWrappedField::new(WholeEthosVisibility::Private, wrapped),
    ))
}

#[test]
fn universal_content_validates_and_keeps_authored_order() {
    let u = |serial| encoded(VocabularyRoot::Universal, serial);
    let content = WholeEthos::new(vec![newtype(u(1), u(2)), newtype(u(3), u(2))]);
    assert_eq!(content.validate(), Ok(()));
    assert_eq!(content.items().len(), 2);
    let WholeEthosItem::Newtype(second) = content.items()[1];
    assert_eq!(*second.name(), u(3));
    assert_eq!(*second.visibility(), WholeEthosVisibility::Public);
    assert_eq!(*second.wrapped_field().visibility(), WholeEthosVisibility::Private);
    assert_eq!(*second.wrapped_field().reference(), u(2));
    let items = content.into_items();
    assert_eq!(items, vec![newtype(u(1), u(2)), newtype(u(3), u(2))]);
}

#[test]
fn first_foreign_identity_is_reported_with_item_index_and_position() {
    let u = |serial| encoded(VocabularyRoot::Universal, serial);
    let foreign_reference = WholeEthos::new(vec![
        newtype(u(1), u(2)),
        newtype(u(3), encoded(VocabularyRoot::Rust, 4)),
        newtype(encoded(VocabularyRoot::Domain, 5), u(2)),
    ]);
    assert_eq!(
        foreign_reference.validate(),
        Err(WholeEthosArchiveError::NonUniversalEncodedId {
            item_index: 1,
            position: NewtypeEncodedIdPosition::Wrapped,
            root: VocabularyRoot::Rust,
        })
    );
    let foreign_name = WholeEthos::new(vec![newtype(encoded(VocabularyRoot::Domain, 5), encoded(VocabularyRoot::Rust, 6))]);
    assert_eq!(
        foreign_name.validate(),
        Err(WholeEthosArchiveError::NonUniversalEncodedId {
            item_index: 0,
            position: NewtypeEncodedIdPosition::Name,
            root: VocabularyRoot::Domain,
        })
    );
}

#[test]
fn six_slot_grammar_identities_are_checked_in_order() {
    let u = |serial| encoded(VocabularyRoot::Universal, serial);
    assert!(SixSlotGrammarIds::new(u(200), u(201), u(202), u(203), u(204)).is_ok());
    assert_eq!(
        SixSlotGrammarIds::new(encoded(VocabularyRoot::Rust, 200), u(201), u(202), u(203), u(204)),
        Err(SixSlotGrammarError::NonUniversal {
            position: SixSlotGrammarIdPosition::Document,
            root: VocabularyRoot::Rust,
        })
    );
    assert_eq!(
        SixSlotGrammarIds::new(u(200), u(201), u(202), encoded(VocabularyRoot::Domain, 203), encoded(VocabularyRoot::Rust, 204)),
        Err(SixSlotGrammarError::NonUniversal {
            position: SixSlotGrammarIdPosition::TypesBlock,
            root: VocabularyRoot::Domain,
        })
    );
}

#[test]
fn slice_one_integer_prior_is_universal() {
    let integer = encoded(VocabularyRoot::Universal, 3);
    let priors = SliceOneBuiltinPriors::new(integer).expect("universal prior");
    assert_eq!(*priors.integer(), integer);
    assert_eq!(
        SliceOneBuiltinPriors::new(encoded(VocabularyRoot::Rust, 3)),
        Err(SliceOneBuiltinPriorError::NonUniversal { root: VocabularyRoot::Rust })
    );
}
