use core_ethos::bootstrap::catalog::{
    is_safe_bare_name, validate_module_path, validate_visible_name, BootstrapPriorIdentities,
    BootstrapPriorSlot, BootstrapPriorVocabulary, BootstrapVersionPolicy, CanonicalIdentityEntry,
    CanonicalIdentityOrder, IdentitySchema, IdentitySchemaCatalog, NomosSchema, SchemaRole,
    TextualMetadataRecord, TextualMetadataSnapshot, TextualProjectionAddress,
};
use core_ethos::bootstrap::error::BootstrapReadError;
use core_ethos::bootstrap::model::{EthosKind, EthosVersion, InterfaceRole};
use core_ethos::identity::{EncodedName, VocabularyRoot};

fn id(serial: u64) -> EncodedName {
    EncodedName::universal(serial)
}

fn domain(serial: u64) -> EncodedName {
    EncodedName { root: VocabularyRoot::Domain, serial }
}

fn record(module: &[&str], owner: Option<EncodedName>, name: &str, encoded_name: EncodedName) -> TextualMetadataRecord {
    TextualMetadataRecord {
        address: TextualProjectionAddress {
            module: module.iter().map(|s| s.to_string()).collect(),
            lexical_owner: owner,
            visible_name: name.to_string(),
        },
        encoded_name,
    }
}

#[test]
fn bare_names_and_module_paths_are_strict() {
    assert!(is_safe_bare_name("Thing"));
    assert!(is_safe_bare_name("_private2"));
    assert!(!is_safe_bare_name(""));
    assert!(!is_safe_bare_name("2things"));
    assert!(!is_safe_bare_name("two words"));
    assert!(!is_safe_bare_name("a-b"));
    assert!(validate_visible_name("Thing").is_ok());
    assert!(matches!(validate_visible_name("a.b"), Err(BootstrapReadError::InvalidVisibleName(n)) if n == "a.b"));
    assert!(validate_module_path(&["core".to_string(), "runtime".to_string()]).is_ok());
    assert!(matches!(validate_module_path(&[]), Err(BootstrapReadError::InvalidModulePath(p)) if p.is_empty()));
    assert!(validate_module_path(&["core".to_string(), "".to_string()]).is_err());
}

#[test]
fn schema_roles_of_one_family_exclude_each_other() {
    let stream = IdentitySchema::new(
        id(15),
        vec![SchemaRole::Shape { arity: 1 }, SchemaRole::Nomos(NomosSchema::StreamInitiation { arity: 2 })],
    )
    .expect("a Stream identity may be both Shape and Nomos head");
    assert!(stream.admits(SchemaRole::Shape { arity: 1 }));
    assert_eq!(stream.shape_arity(), Some(1));
    assert_eq!(stream.nomos(), Some(NomosSchema::StreamInitiation { arity: 2 }));
    assert!(!stream.is_nominal());

    let repeated = IdentitySchema::new(id(7), vec![SchemaRole::Trait, SchemaRole::Trait]).expect("repeats collapse");
    assert_eq!(repeated.roles().len(), 1);

    match IdentitySchema::new(id(8), vec![SchemaRole::Shape { arity: 1 }, SchemaRole::Shape { arity: 2 }]) {
        Err(BootstrapReadError::ConflictingSchemaRoles { identity, first, second }) => {
            assert_eq!(identity, id(8));
            assert_ne!(first, second);
        }
        other => panic!("expected conflicting roles, got {other:?}"),
    }
    assert!(matches!(
        IdentitySchema::new(domain(8), vec![SchemaRole::Trait]),
        Err(BootstrapReadError::NonUniversalSchemaIdentity(i)) if i == domain(8)
    ));

    let a = IdentitySchema::new(id(1), vec![SchemaRole::Trait]).expect("schema");
    let b = IdentitySchema::new(id(1), vec![SchemaRole::Method]).expect("schema");
    assert!(matches!(
        IdentitySchemaCatalog::new(vec![a.clone(), b]),
        Err(BootstrapReadError::DuplicateSchemaIdentity(i)) if i == id(1)
    ));
    let catalog = IdentitySchemaCatalog::new(vec![a, stream]).expect("catalog");
    assert!(catalog.contains(id(15)));
    assert!(catalog.admits(id(1), SchemaRole::Trait));
    assert!(!catalog.admits(id(1), SchemaRole::Method));
    assert!(catalog.get(id(2)).is_none());
    assert!(IdentitySchemaCatalog::empty().entries().is_empty());
}

#[test]
fn metadata_is_one_record_per_identity_and_per_address() {
    let snapshot = TextualMetadataSnapshot::new(vec![
        record(&["demo"], None, "Status", id(1)),
        record(&["demo"], Some(id(1)), "Ready", id(2)),
        record(&["demo"], Some(id(3)), "Ready", id(4)),
        record(&["demo"], None, "Other", id(3)),
    ])
    .expect("variants under different owners may reuse one spelling");
    assert_eq!(snapshot.spelling(id(2)).map(|s| s.as_str()), Some("Ready"));
    assert_eq!(snapshot.identity_at(&["demo".to_string()], Some(id(3)), "Ready"), Some(id(4)));
    assert_eq!(snapshot.identity_at(&["demo".to_string()], None, "Ready"), None);
    assert!(snapshot.contains(id(3)));
    assert!(!snapshot.contains(id(9)));

    assert!(matches!(
        TextualMetadataSnapshot::new(vec![record(&["demo"], None, "A", id(1)), record(&["demo"], None, "B", id(1))]),
        Err(BootstrapReadError::DuplicateMetadataIdentity(i)) if i == id(1)
    ));
    assert!(matches!(
        TextualMetadataSnapshot::new(vec![record(&["demo"], None, "A", id(1)), record(&["demo"], None, "A", id(2))]),
        Err(BootstrapReadError::DuplicateMetadataProjectionAddress { .. })
    ));
    assert!(matches!(
        TextualMetadataSnapshot::new(vec![record(&["demo"], Some(id(9)), "A", id(1))]),
        Err(BootstrapReadError::InvalidMetadataLexicalOwner { identity, owner }) if identity == id(1) && owner == id(9)
    ));
    assert!(matches!(
        TextualMetadataSnapshot::new(vec![record(&["demo"], None, "not valid", id(1))]),
        Err(BootstrapReadError::InvalidVisibleName(_))
    ));

    let grown = TextualMetadataSnapshot::new(vec![
        record(&["demo"], None, "Status", id(1)),
        record(&["demo"], Some(id(1)), "Ready", id(2)),
        record(&["demo"], Some(id(3)), "Ready", id(4)),
        record(&["demo"], None, "Other", id(3)),
        record(&["demo"], None, "New", id(5)),
    ])
    .expect("grown snapshot");
    assert!(grown.extends(&snapshot).is_ok());
    assert!(snapshot.extends(&grown).is_err());
}

#[test]
fn canonical_order_refuses_empty_repeated_and_shared_bytes() {
    let order = CanonicalIdentityOrder::new(vec![
        CanonicalIdentityEntry { identity: id(1), bytes: vec![1] },
        CanonicalIdentityEntry { identity: id(2), bytes: vec![1, 0] },
    ])
    .expect("order");
    assert_eq!(order.bytes(id(2)), Some(&vec![1, 0]));
    assert!(order.bytes(id(3)).is_none());
    assert!(matches!(
        CanonicalIdentityOrder::new(vec![CanonicalIdentityEntry { identity: id(1), bytes: vec![] }]),
        Err(BootstrapReadError::EmptyCanonicalIdentityBytes(i)) if i == id(1)
    ));
    assert!(matches!(
        order.extended(vec![CanonicalIdentityEntry { identity: id(1), bytes: vec![7] }]),
        Err(BootstrapReadError::DuplicateCanonicalIdentity(i)) if i == id(1)
    ));
    assert!(matches!(
        order.extended(vec![CanonicalIdentityEntry { identity: id(3), bytes: vec![1] }]),
        Err(BootstrapReadError::DuplicateCanonicalIdentityBytes { first, second }) if first == id(1) && second == id(3)
    ));
    let extended = order
        .extended(vec![CanonicalIdentityEntry { identity: id(3), bytes: vec![0] }])
        .expect("extension");
    assert_eq!(extended.entries().len(), 3);
    assert_eq!(extended.entries()[2].identity, id(3));
    assert!(extended.contains(id(1)));
}

#[test]
fn version_policy_is_nonempty_and_exact() {
    let policy = BootstrapVersionPolicy::new(vec![
        EthosVersion::new(2, 0, 0),
        EthosVersion::new(1, 4, 0),
        EthosVersion::new(2, 0, 0),
    ])
    .expect("policy");
    assert_eq!(policy.supported(), vec![EthosVersion::new(1, 4, 0), EthosVersion::new(2, 0, 0)]);
    assert!(policy.supports(EthosVersion::new(1, 4, 0)));
    assert!(!policy.supports(EthosVersion::new(1, 4, 1)));
    assert!(matches!(BootstrapVersionPolicy::new(vec![]), Err(BootstrapReadError::InvalidPreparedModel(_))));
    assert_eq!(BootstrapVersionPolicy::exact(EthosVersion::new(1, 0, 0)).supported(), vec![EthosVersion::new(1, 0, 0)]);
}

fn prior_identities() -> BootstrapPriorIdentities {
    BootstrapPriorIdentities {
        interface_kind: id(1),
        nexus_kind: id(2),
        sema_kind: id(3),
        input_role: id(4),
        output_role: id(5),
        refusal_role: id(6),
        string_type: id(7),
        integer_type: id(8),
        boolean_type: id(9),
        unit_type: id(10),
        vector_shape: id(11),
        option_shape: id(12),
        map_shape: id(13),
        result_shape: id(14),
        stream_nomos: id(15),
        stream_shape: id(16),
        stream_identity_shape: id(17),
    }
}

fn prior_roles() -> Vec<(u64, &'static str, SchemaRole)> {
    vec![
        (1, "Interface", SchemaRole::FileKind(EthosKind::Interface)),
        (2, "Nexus", SchemaRole::FileKind(EthosKind::Nexus)),
        (3, "Sema", SchemaRole::FileKind(EthosKind::Sema)),
        (4, "Input", SchemaRole::InterfaceRole(InterfaceRole::Input)),
        (5, "Output", SchemaRole::InterfaceRole(InterfaceRole::Output)),
        (6, "Refusal", SchemaRole::InterfaceRole(InterfaceRole::Refusal)),
        (7, "String", SchemaRole::Nominal { persistent: true }),
        (8, "Integer", SchemaRole::Nominal { persistent: true }),
        (9, "Boolean", SchemaRole::Nominal { persistent: true }),
        (10, "Unit", SchemaRole::Nominal { persistent: true }),
        (11, "Vector", SchemaRole::Shape { arity: 1 }),
        (12, "Option", SchemaRole::Shape { arity: 1 }),
        (13, "Map", SchemaRole::Shape { arity: 2 }),
        (14, "Result", SchemaRole::Shape { arity: 2 }),
        (15, "Stream", SchemaRole::Nomos(NomosSchema::StreamInitiation { arity: 2 })),
        (16, "StreamOf", SchemaRole::Shape { arity: 1 }),
        (17, "StreamIdentity", SchemaRole::Shape { arity: 1 }),
    ]
}

#[test]
fn priors_are_universal_catalogued_and_projected() {
    let metadata = TextualMetadataSnapshot::new(
        prior_roles().into_iter().map(|(s, name, _)| record(&["core"], None, name, id(s))).collect(),
    )
    .expect("metadata");
    let schemas = IdentitySchemaCatalog::new(
        prior_roles()
            .into_iter()
            .map(|(s, _, role)| IdentitySchema::new(id(s), vec![role]).expect("schema"))
            .collect(),
    )
    .expect("schemas");
    let priors = BootstrapPriorVocabulary::new(prior_identities(), &schemas, &metadata).expect("priors");
    assert_eq!(priors.identities().identity(BootstrapPriorSlot::MapShape), id(13));
    assert_eq!(priors.role_identity(InterfaceRole::Refusal), id(6));
    assert!(priors.is_fixed_identity(id(17)));
    assert!(!priors.is_fixed_identity(id(18)));
    assert_eq!(priors.fixed_identities().len(), 17);
    assert_eq!(priors.body_nominal_identities(), vec![id(7), id(8), id(9), id(10)]);
    let contract = priors.runtime_stream_contract();
    assert_eq!(contract.stream_shape, id(16));
    assert_eq!(contract.stream_identity_shape, id(17));
    assert_eq!(contract.stream_shape_arity, 1);
    assert_eq!(contract.stream_identity_shape_arity, 1);

    let mut foreign = prior_identities();
    foreign.unit_type = domain(10);
    assert!(matches!(
        BootstrapPriorVocabulary::new(foreign, &schemas, &metadata),
        Err(BootstrapReadError::NonUniversalPrior { position: BootstrapPriorSlot::UnitType })
    ));
    let mut misplaced = prior_identities();
    misplaced.vector_shape = id(13);
    assert!(matches!(
        BootstrapPriorVocabulary::new(misplaced, &schemas, &metadata),
        Err(BootstrapReadError::InvalidPriorRole { position: BootstrapPriorSlot::VectorShape, .. })
    ));
}

#[test]
fn conflicting_roles_are_reported_in_role_order() {
    let result = IdentitySchema::new(
        id(5),
        vec![SchemaRole::Shape { arity: 2 }, SchemaRole::Trait, SchemaRole::Shape { arity: 1 }],
    );
    assert!(matches!(
        result,
        Err(BootstrapReadError::ConflictingSchemaRoles {
            identity,
            first: SchemaRole::Shape { arity: 1 },
            second: SchemaRole::Shape { arity: 2 },
        }) if identity == id(5)
    ));
    assert!(matches!(
        IdentitySchema::new(domain(5), vec![SchemaRole::Shape { arity: 2 }, SchemaRole::Shape { arity: 1 }]),
        Err(BootstrapReadError::NonUniversalSchemaIdentity(d)) if d == domain(5)
    ));
    assert!(matches!(
        BootstrapVersionPolicy::new(vec![]),
        Err(BootstrapReadError::InvalidPreparedModel(message)) if message == "supported-version policy is empty"
    ));
}

#[test]
fn metadata_refusals_follow_record_order() {
    let bad_name_then_bad_path = TextualMetadataSnapshot::new(vec![
        record(&["core"], None, "a-b", id(1)),
        record(&[], None, "Fine", id(2)),
    ]);
    assert!(matches!(bad_name_then_bad_path, Err(BootstrapReadError::InvalidVisibleName(n)) if n == "a-b"));
    let repeated = TextualMetadataSnapshot::new(vec![
        record(&["core"], None, "A", id(1)),
        record(&["core"], None, "B", id(1)),
        record(&["core"], None, "bad-name", id(3)),
    ]);
    assert!(matches!(repeated, Err(BootstrapReadError::DuplicateMetadataIdentity(d)) if d == id(1)));
}

#[test]
fn identities_at_lists_every_owner_in_record_order() {
    let snapshot = TextualMetadataSnapshot::new(vec![
        record(&["core"], None, "First", id(1)),
        record(&["core"], None, "Second", id(2)),
        record(&["core"], Some(id(2)), "Same", id(4)),
        record(&["core"], Some(id(1)), "Same", id(3)),
    ])
    .expect("distinct addresses");
    let core = vec!["core".to_string()];
    assert_eq!(snapshot.identities_at(&core, "Same"), vec![id(4), id(3)]);
    assert_eq!(snapshot.identities_at(&core, "First"), vec![id(1)]);
    assert!(snapshot.identities_at(&core, "Missing").is_empty());
}

#[test]
fn schema_roles_are_kept_in_role_order() {
    let schema = IdentitySchema::new(
        id(11),
        vec![SchemaRole::Trait, SchemaRole::Nominal { persistent: true }, SchemaRole::Trait],
    )
    .expect("compatible roles");
    assert_eq!(schema.roles(), &[SchemaRole::Nominal { persistent: true }, SchemaRole::Trait][..]);
    assert!(SchemaRole::Shape { arity: 1 } < SchemaRole::Shape { arity: 2 });
}
