use core_ethos::identity::{EncodedName, VocabularyRoot};
use core_ethos::whole::{
    EmptyEnumerationVariants, EmptyOperatorPayload, EmptyStructFields, EmptyTraitMethods,
    EmptyTupleFields, EthosDocument, EthosGrammarError, EthosGrammarIdPosition, EthosGrammarIdentities,
    EthosGrammarIds, WholeEthos, WholeEthosArchiveError, WholeEthosAttributes, WholeEthosBody,
    WholeEthosBuiltinPriorError, WholeEthosBuiltinPriorPosition, WholeEthosBuiltinPriors,
    WholeEthosEncodedIdPosition, WholeEthosEnumeration, WholeEthosFileKind, WholeEthosHeader,
    WholeEthosInterfaceBody, WholeEthosItem, WholeEthosMethod, WholeEthosNewtype,
    WholeEthosNexusBody, WholeEthosOperatorApplication, WholeEthosSemaBody, WholeEthosStruct,
    WholeEthosTable, WholeEthosTrait, WholeEthosTupleFields, WholeEthosTypeApplication,
    WholeEthosTypeReference, WholeEthosVariant, WholeEthosVariantPayload, WholeEthosVisibility,
    WholeEthosWrappedField, SUPPORTED_VERSION,
};

fn universal(serial: u64) -> EncodedName {
    EncodedName::universal(serial)
}

fn domain(serial: u64) -> EncodedName {
    EncodedName { root: VocabularyRoot::Domain, serial }
}

fn reference(name: EncodedName) -> WholeEthosTypeReference {
    WholeEthosTypeReference::Identity(name)
}

fn interface_document(item: WholeEthosItem) -> WholeEthos {
    WholeEthos::new(
        WholeEthosHeader::new(WholeEthosFileKind::Interface, SUPPORTED_VERSION).unwrap(),
        WholeEthosBody::Interface(WholeEthosInterfaceBody::new(vec![], vec![], vec![], vec![item])),
    ).unwrap()
}

fn non_universal(position: WholeEthosEncodedIdPosition) -> Result<(), WholeEthosArchiveError> {
    Err(WholeEthosArchiveError::NonUniversalEncodedId { position, root: VocabularyRoot::Domain })
}

#[test]
fn universal_interface_document_validates_and_keeps_its_parts() {
    let newtype = WholeEthosNewtype::new(
        universal(1),
        WholeEthosVisibility::Public,
        WholeEthosAttributes::empty(),
        WholeEthosWrappedField::new(WholeEthosVisibility::Private, reference(universal(2))),
    );
    let variant = WholeEthosVariant::new(
        universal(4),
        WholeEthosAttributes::empty(),
        WholeEthosVariantPayload::Tuple(
            WholeEthosTupleFields::new(vec![WholeEthosTypeReference::Application(
                WholeEthosTypeApplication::new(universal(5), reference(universal(6))),
            )])
            .expect("one positional field"),
        ),
    );
    let enumeration = WholeEthosEnumeration::new(
        universal(3),
        WholeEthosVisibility::Public,
        WholeEthosAttributes::empty(),
        vec![variant, WholeEthosVariant::new(universal(7), WholeEthosAttributes::empty(), WholeEthosVariantPayload::Unit)],
    ).unwrap();
    let refusal = WholeEthosStruct::new(universal(8), vec![reference(universal(9))]).unwrap();
    let application =
        WholeEthosOperatorApplication::new(universal(10), universal(11), vec![reference(universal(12))]).unwrap();
    let document = WholeEthos::new(
        WholeEthosHeader::new(WholeEthosFileKind::Interface, 1).unwrap(),
        WholeEthosBody::Interface(WholeEthosInterfaceBody::new(
            vec![newtype],
            vec![],
            vec![refusal],
            vec![WholeEthosItem::Enumeration(enumeration), WholeEthosItem::OperatorApplication(application)],
        )),
    ).unwrap();
    assert_eq!(document.validate(), Ok(()));
    assert_eq!(document.header().kind(), WholeEthosFileKind::Interface);
    assert_eq!(document.body().kind(), WholeEthosFileKind::Interface);
    let WholeEthosBody::Interface(body) = document.body() else {
        panic!("interface body")
    };
    assert_eq!(body.inputs().len(), 1);
    assert_eq!(*body.inputs()[0].name(), universal(1));
    assert_eq!(*body.inputs()[0].wrapped_field().visibility(), WholeEthosVisibility::Private);
    assert_eq!(*body.inputs()[0].wrapped_field().reference(), reference(universal(2)));
    assert_eq!(body.outputs().len(), 0);
    assert_eq!(*body.refusals()[0].name(), universal(8));
    assert_eq!(body.refusals()[0].fields(), &[reference(universal(9))]);
    assert_eq!(body.types().len(), 2);
    let WholeEthosItem::Enumeration(enumeration) = &body.types()[0] else {
        panic!("enumeration first")
    };
    assert_eq!(enumeration.variants().len(), 2);
    assert_eq!(*enumeration.variants()[1].payload(), WholeEthosVariantPayload::Unit);
    let WholeEthosVariantPayload::Tuple(fields) = enumeration.variants()[0].payload() else {
        panic!("tuple payload")
    };
    let WholeEthosTypeReference::Application(applied) = &fields.fields()[0] else {
        panic!("application reference")
    };
    assert_eq!(*applied.head(), universal(5));
    assert_eq!(*applied.payload(), reference(universal(6)));
    let WholeEthosItem::OperatorApplication(application) = &body.types()[1] else {
        panic!("application second")
    };
    assert_eq!(*application.operator(), universal(10));
    assert_eq!(*application.name(), universal(11));
    assert_eq!(application.fields().len(), 1);
}

#[test]
fn empty_tuple_payload_is_refused_at_construction() {
    assert_eq!(WholeEthosTupleFields::new(vec![]), Err(EmptyTupleFields));
    let fields = WholeEthosTupleFields::new(vec![reference(universal(1)), reference(universal(2))])
        .expect("two fields");
    assert_eq!(fields.fields().len(), 2);
}

#[test]
fn each_declaration_position_reports_its_own_role() {
    let product = WholeEthosStruct::new(domain(1), vec![reference(universal(50))]).unwrap();
    assert_eq!(
        interface_document(WholeEthosItem::Struct(product)).validate(),
        non_universal(WholeEthosEncodedIdPosition::ItemName)
    );

    let variant = WholeEthosVariant::new(domain(2), WholeEthosAttributes::empty(), WholeEthosVariantPayload::Unit);
    let enumeration = WholeEthosEnumeration::new(
        universal(3),
        WholeEthosVisibility::Public,
        WholeEthosAttributes::empty(),
        vec![variant],
    ).unwrap();
    assert_eq!(
        interface_document(WholeEthosItem::Enumeration(enumeration)).validate(),
        non_universal(WholeEthosEncodedIdPosition::VariantName)
    );

    let field = WholeEthosStruct::new(universal(4), vec![reference(domain(5))]).unwrap();
    assert_eq!(
        interface_document(WholeEthosItem::Struct(field)).validate(),
        non_universal(WholeEthosEncodedIdPosition::Reference)
    );

    let applied = WholeEthosStruct::new(
        universal(6),
        vec![WholeEthosTypeReference::Application(WholeEthosTypeApplication::new(
            domain(7),
            reference(universal(8)),
        ))],
    ).unwrap();
    assert_eq!(
        interface_document(WholeEthosItem::Struct(applied)).validate(),
        non_universal(WholeEthosEncodedIdPosition::ApplicationHead)
    );

    let named = WholeEthosOperatorApplication::new(universal(9), domain(10), vec![reference(universal(51))]).unwrap();
    assert_eq!(
        interface_document(WholeEthosItem::OperatorApplication(named)).validate(),
        non_universal(WholeEthosEncodedIdPosition::ApplicationName)
    );
}

#[test]
fn the_first_foreign_identity_in_document_order_is_reported() {
    let first = WholeEthosStruct::new(universal(1), vec![reference(domain(2))]).unwrap();
    let second = WholeEthosStruct::new(domain(3), vec![reference(universal(52))]).unwrap();
    let document = WholeEthos::new(
        WholeEthosHeader::new(WholeEthosFileKind::Interface, 1).unwrap(),
        WholeEthosBody::Interface(WholeEthosInterfaceBody::new(
            vec![],
            vec![],
            vec![first],
            vec![WholeEthosItem::Struct(second)],
        )),
    ).unwrap();
    assert_eq!(document.validate(), non_universal(WholeEthosEncodedIdPosition::Reference));
}

#[test]
fn nexus_and_sema_bodies_report_trait_method_and_table_roles() {
    let unit = reference(universal(100));
    let nexus = |name: EncodedName, method: EncodedName| {
        WholeEthos::new(
            WholeEthosHeader::new(WholeEthosFileKind::Nexus, 1).unwrap(),
            WholeEthosBody::Nexus(WholeEthosNexusBody::new(
                vec![],
                vec![WholeEthosTrait::new(
                    name,
                    vec![WholeEthosMethod::new(method, vec![reference(universal(101))], reference(universal(100)))],
                ).unwrap()],
            )),
        ).unwrap()
    };
    assert_eq!(nexus(universal(1), universal(2)).validate(), Ok(()));
    assert_eq!(
        nexus(domain(1), universal(2)).validate(),
        non_universal(WholeEthosEncodedIdPosition::TraitName)
    );
    assert_eq!(
        nexus(universal(1), domain(2)).validate(),
        non_universal(WholeEthosEncodedIdPosition::MethodName)
    );

    let sema = |name: EncodedName| {
        WholeEthos::new(
            WholeEthosHeader::new(WholeEthosFileKind::Sema, 1).unwrap(),
            WholeEthosBody::Sema(WholeEthosSemaBody::new(
                vec![],
                vec![WholeEthosTable::new(name, reference(universal(3)), reference(universal(4)))],
            )),
        ).unwrap()
    };
    assert_eq!(sema(universal(5)).validate(), Ok(()));
    assert_eq!(sema(domain(5)).validate(), non_universal(WholeEthosEncodedIdPosition::TableName));
    let table = WholeEthosTable::new(universal(6), reference(universal(7)), unit);
    assert_eq!(*table.name(), universal(6));
    assert_eq!(*table.record(), reference(universal(7)));
    assert_eq!(*table.key(), reference(universal(100)));
}

fn grammar(serial: u64) -> EthosGrammarIdentities {
    let id = |offset: u64| universal(serial + offset);
    EthosGrammarIdentities {
        interface_document: id(0),
        nexus_document: id(1),
        sema_document: id(2),
        header: id(3),
        imports: id(4),
        import_entry: id(5),
        interface_body: id(6),
        nexus_body: id(7),
        sema_body: id(8),
        newtype_list: id(9),
        struct_list: id(10),
        item_list: id(11),
        trait_list: id(12),
        table_list: id(13),
        newtype_declaration: id(14),
        struct_declaration: id(15),
        item: id(16),
        variant: id(17),
        type_reference: id(18),
        operator_payload: id(19),
        trait_declaration: id(20),
        method: id(21),
        table: id(22),
    }
}

#[test]
fn grammar_identities_must_all_be_universal() {
    assert!(EthosGrammarIds::new(grammar(10)).is_ok());

    let mut one_domain = grammar(10);
    one_domain.method = domain(31);
    assert_eq!(
        EthosGrammarIds::new(one_domain),
        Err(EthosGrammarError::NonUniversal {
            position: EthosGrammarIdPosition::Method,
            root: VocabularyRoot::Domain,
        })
    );

    let mut two_domains = grammar(10);
    two_domains.table = domain(32);
    two_domains.header = domain(13);
    assert_eq!(
        EthosGrammarIds::new(two_domains),
        Err(EthosGrammarError::NonUniversal {
            position: EthosGrammarIdPosition::Header,
            root: VocabularyRoot::Domain,
        })
    );
}

#[test]
fn builtin_priors_are_universal_and_keep_integer_and_vector() {
    let priors = WholeEthosBuiltinPriors::new(universal(1), universal(2)).expect("universal priors");
    assert_eq!(*priors.integer(), universal(1));
    assert_eq!(*priors.vector(), universal(2));

    let priors = priors
        .with_identity(universal(3))
        .and_then(|p| p.with_identity(universal(3)))
        .and_then(|p| p.with_application_head(universal(4)))
        .and_then(|p| p.with_object_application_head(universal(5)))
        .expect("universal additions");
    assert_eq!(*priors.integer(), universal(1));
    assert_eq!(*priors.vector(), universal(2));

    assert_eq!(
        WholeEthosBuiltinPriors::new(domain(1), domain(2)),
        Err(WholeEthosBuiltinPriorError::NonUniversal {
            position: WholeEthosBuiltinPriorPosition::Integer,
            root: VocabularyRoot::Domain,
        })
    );
    assert_eq!(
        WholeEthosBuiltinPriors::new(universal(1), domain(2)),
        Err(WholeEthosBuiltinPriorError::NonUniversal {
            position: WholeEthosBuiltinPriorPosition::Vector,
            root: VocabularyRoot::Domain,
        })
    );
    let base = || WholeEthosBuiltinPriors::new(universal(1), universal(2)).expect("priors");
    assert_eq!(
        base().with_identity(domain(3)),
        Err(WholeEthosBuiltinPriorError::NonUniversal {
            position: WholeEthosBuiltinPriorPosition::Identity,
            root: VocabularyRoot::Domain,
        })
    );
    assert_eq!(
        base().with_application_head(domain(4)),
        Err(WholeEthosBuiltinPriorError::NonUniversal {
            position: WholeEthosBuiltinPriorPosition::ApplicationHead,
            root: VocabularyRoot::Domain,
        })
    );
    assert_eq!(
        base().with_object_application_head(domain(5)),
        Err(WholeEthosBuiltinPriorError::NonUniversal {
            position: WholeEthosBuiltinPriorPosition::ObjectApplicationHead,
            root: VocabularyRoot::Domain,
        })
    );
}

fn encoded(root: VocabularyRoot, serial: u64) -> EncodedName {
    EncodedName { root, serial }
}

#[test]
fn whole_ethos_builtin_prior_is_supplied_and_universal() {
    assert!(matches!(
        WholeEthosBuiltinPriors::new(
            encoded(VocabularyRoot::Rust, 3),
            encoded(VocabularyRoot::Universal, 4),
        ),
        Err(WholeEthosBuiltinPriorError::NonUniversal {
            position: WholeEthosBuiltinPriorPosition::Integer,
            root: VocabularyRoot::Rust,
        })
    ));
}

#[test]
fn the_document_capability_exposes_header_and_body() {
    let document = WholeEthos::new(
        WholeEthosHeader::new(WholeEthosFileKind::Sema, 1).unwrap(),
        WholeEthosBody::Sema(WholeEthosSemaBody::new(vec![], vec![])),
    ).unwrap();
    let capability: &dyn EthosDocument = &document;
    assert_eq!(capability.header().kind(), WholeEthosFileKind::Sema);
    assert_eq!(capability.header().version(), 1);
    assert_eq!(capability.body().kind(), WholeEthosFileKind::Sema);
}

#[test]
fn public_constructors_reject_unsupported_headers_mismatched_bodies_and_empty_grammar_forms() {
    let name = universal(900);
    assert!(matches!(
        WholeEthosHeader::new(WholeEthosFileKind::Interface, 2),
        Err(WholeEthosArchiveError::UnsupportedVersion {
            kind: WholeEthosFileKind::Interface,
            found: 2,
            supported: 1,
        })
    ));

    let header = WholeEthosHeader::new(WholeEthosFileKind::Interface, 1)
        .expect("supported Interface header");
    assert!(matches!(
        WholeEthos::new(
            header,
            WholeEthosBody::Nexus(WholeEthosNexusBody::new(vec![], vec![])),
        ),
        Err(WholeEthosArchiveError::HeaderBodyKindMismatch {
            header: WholeEthosFileKind::Interface,
            body: WholeEthosFileKind::Nexus,
        })
    ));

    assert_eq!(
        WholeEthosStruct::new(name.clone(), vec![]),
        Err(EmptyStructFields)
    );
    assert_eq!(
        WholeEthosEnumeration::new(
            name.clone(),
            WholeEthosVisibility::Public,
            WholeEthosAttributes::empty(),
            vec![],
        ),
        Err(EmptyEnumerationVariants)
    );
    assert_eq!(
        WholeEthosOperatorApplication::new(name.clone(), name.clone(), vec![]),
        Err(EmptyOperatorPayload)
    );
    assert_eq!(WholeEthosTrait::new(name, vec![]), Err(EmptyTraitMethods));
}

#[test]
fn supported_header_and_nonempty_struct_keep_their_parts() {
    let header = WholeEthosHeader::new(WholeEthosFileKind::Interface, 1).expect("supported");
    assert_eq!(header.kind(), WholeEthosFileKind::Interface);
    assert_eq!(header.version(), 1);
    let product = WholeEthosStruct::new(universal(1), vec![reference(universal(2))]).expect("nonempty");
    assert_eq!(*product.name(), universal(1));
    assert_eq!(product.fields(), &[reference(universal(2))][..]);
}
