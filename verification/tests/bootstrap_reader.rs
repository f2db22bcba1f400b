use core_ethos::bootstrap::assignment::{
    AssignedIdentity, GeneratedStreamAssignment, GeneratedStreamAssignments, IdentityDisposition,
    NamingAssignment, NamingAssignments,
};
use core_ethos::bootstrap::catalog::{
    BootstrapCatalog, BootstrapPriorIdentities, BootstrapPriorVocabulary, BootstrapVersionPolicy,
    CanonicalIdentityEntry, CanonicalIdentityOrder, IdentitySchema, IdentitySchemaCatalog,
    NomosSchema, SchemaRole, TextualMetadataRecord, TextualMetadataSnapshot,
    TextualMetadataTransition, TextualProjectionAddress,
};
use core_ethos::bootstrap::error::{BootstrapBuildError, BootstrapReadError};
use core_ethos::bootstrap::grammar::BootstrapGrammarIdentities;
use core_ethos::bootstrap::model::{
    BootstrapArchiveStatus, BootstrapBody, Declaration, EthosKind, EthosVersion, InterfaceRole,
    NomosDeclaration, ParameterBinder, RoleEntry, TypeBody, TypeExpression, VariantBody,
};
use core_ethos::bootstrap::planning::DeclarationPurpose;
use core_ethos::bootstrap::reader::{BootstrapReadPlan, BootstrapReader, PlannedScope};
use core_ethos::bootstrap::root::BootstrapSectionSchema;
use core_ethos::bootstrap::seal::{
    BootstrapNamingAuthority, BootstrapNamingAuthorityRequest, PreparedBootstrapDraft,
    PreparedBootstrapTransaction,
};
use core_ethos::identity::{EncodedName, VocabularyRoot};

fn id(serial: u64) -> EncodedName {
    EncodedName::universal(serial)
}

fn bytes_of(serial: u64) -> Vec<u8> {
    serial.to_be_bytes().to_vec()
}

/// The seventeen priors, their spellings, their modules and their roles.
fn prior_table() -> Vec<(u64, &'static str, Vec<&'static str>, SchemaRole)> {
    vec![
        (1, "Interface", vec!["core"], SchemaRole::FileKind(EthosKind::Interface)),
        (2, "Nexus", vec!["core"], SchemaRole::FileKind(EthosKind::Nexus)),
        (3, "Sema", vec!["core"], SchemaRole::FileKind(EthosKind::Sema)),
        (4, "Input", vec!["core"], SchemaRole::InterfaceRole(InterfaceRole::Input)),
        (5, "Output", vec!["core"], SchemaRole::InterfaceRole(InterfaceRole::Output)),
        (6, "Refusal", vec!["core"], SchemaRole::InterfaceRole(InterfaceRole::Refusal)),
        (7, "String", vec!["core"], SchemaRole::Nominal { persistent: true }),
        (8, "Integer", vec!["core"], SchemaRole::Nominal { persistent: true }),
        (9, "Boolean", vec!["core"], SchemaRole::Nominal { persistent: true }),
        (10, "Unit", vec!["core"], SchemaRole::Nominal { persistent: true }),
        (11, "Vector", vec!["core"], SchemaRole::Shape { arity: 1 }),
        (12, "Option", vec!["core"], SchemaRole::Shape { arity: 1 }),
        (13, "Map", vec!["core"], SchemaRole::Shape { arity: 2 }),
        (14, "Result", vec!["core"], SchemaRole::Shape { arity: 2 }),
        (
            15,
            "Stream",
            vec!["core"],
            SchemaRole::Nomos(NomosSchema::StreamInitiation { arity: 2 }),
        ),
        (16, "Stream", vec!["core", "runtime"], SchemaRole::Shape { arity: 1 }),
        (17, "StreamIdentity", vec!["core"], SchemaRole::Shape { arity: 1 }),
    ]
}

fn prior_identities() -> BootstrapPriorIdentities {
    BootstrapPriorIdentities {
        interface_kind: id(1),
        nexus_kind: id(2),
        sema_kind: id(3),
        input_role: id(4),
        output_role: id(5),
        refusal_role: id(6),
        string_type: id(7),
        integer_type: id(8),
        boolean_type: id(9),
        unit_type: id(10),
        vector_shape: id(11),
        option_shape: id(12),
        map_shape: id(13),
        result_shape: id(14),
        stream_nomos: id(15),
        stream_shape: id(16),
        stream_identity_shape: id(17),
    }
}

fn record(
    module: &[&str],
    lexical_owner: Option<EncodedName>,
    name: &str,
    encoded_name: EncodedName,
) -> TextualMetadataRecord {
    TextualMetadataRecord {
        address: TextualProjectionAddress {
            module: module.iter().map(|segment| segment.to_string()).collect(),
            lexical_owner,
            visible_name: name.to_string(),
        },
        encoded_name,
    }
}

/// An identity known to the catalog beyond the priors.
struct Known {
    module: Vec<&'static str>,
    name: &'static str,
    serial: u64,
    role: SchemaRole,
}

fn prior_records() -> Vec<TextualMetadataRecord> {
    prior_table()
        .into_iter()
        .map(|(serial, name, module, _)| record(&module, None, name, id(serial)))
        .collect()
}

fn known_records(known: &[Known]) -> Vec<TextualMetadataRecord> {
    let mut records = prior_records();
    for entry in known {
        records.push(record(&entry.module, None, entry.name, id(entry.serial)));
    }
    records
}

fn catalog(known: &[Known]) -> BootstrapCatalog {
    let metadata = TextualMetadataSnapshot::new(known_records(known)).expect("valid metadata");
    let mut schemas = Vec::new();
    let mut order = Vec::new();
    for (serial, _, _, role) in prior_table() {
        schemas.push(IdentitySchema::new(id(serial), vec![role]).expect("prior schema"));
        order.push(CanonicalIdentityEntry { identity: id(serial), bytes: bytes_of(serial) });
    }
    for entry in known {
        schemas.push(IdentitySchema::new(id(entry.serial), vec![entry.role]).expect("known schema"));
        order.push(CanonicalIdentityEntry { identity: id(entry.serial), bytes: bytes_of(entry.serial) });
    }
    let schemas = IdentitySchemaCatalog::new(schemas).expect("valid schemas");
    let priors =
        BootstrapPriorVocabulary::new(prior_identities(), &schemas, &metadata).expect("Universal priors");
    BootstrapCatalog::new(
        vec!["demo".to_string()],
        metadata,
        schemas,
        priors,
        BootstrapVersionPolicy::exact(EthosVersion::new(1, 0, 0)),
        CanonicalIdentityOrder::new(order).expect("valid canonical order"),
    )
    .expect("catalog")
}

/// A naming authority that issues the number of proposed dispositions as its
/// receipt, or refuses every proposal.
struct CountingAuthority {
    accept: bool,
}

impl BootstrapNamingAuthority for CountingAuthority {
    type Proof = ();
    type Receipt = usize;

    fn accepts(&self, _draft: PreparedBootstrapDraft, _proof: ()) -> bool {
        self.accept
    }

    fn receipt_valid(&self, draft: PreparedBootstrapDraft, receipt: usize) -> bool {
        self.accept && receipt == draft.identity_dispositions.len()
    }

    fn authorize(&self, request: BootstrapNamingAuthorityRequest, _proof: &()) -> Option<usize> {
        if self.accept {
            Some(request.identity_dispositions().len())
        } else {
            None
        }
    }

    fn verify_receipt(&self, request: BootstrapNamingAuthorityRequest, receipt: &usize) -> bool {
        self.accept && *receipt == request.identity_dispositions().len()
    }
}

fn grammar() -> BootstrapGrammarIdentities {
    BootstrapGrammarIdentities { document: id(900), syntax: id(901) }
}

fn reader_with(known: &[Known], accept: bool) -> BootstrapReader<CountingAuthority> {
    BootstrapReader::build(grammar(), catalog(known), CountingAuthority { accept })
        .ok()
        .expect("shared reader")
}

fn reader() -> BootstrapReader<CountingAuthority> {
    reader_with(&[], true)
}

/// Exact New assignments: serial `base + ordinal` for every authored
/// occurrence and `generated_base + 2k`, `+ 2k + 1` for the k-th Stream.
struct Proposal {
    assignments: NamingAssignments,
    generated: GeneratedStreamAssignments,
    transition: TextualMetadataTransition,
}

fn owner_serial(plan: &BootstrapReadPlan, base: u64, scope: PlannedScope) -> Option<EncodedName> {
    match scope {
        PlannedScope::Module => None,
        PlannedScope::Enum(owner) | PlannedScope::Trait(owner) => {
            let _ = plan;
            Some(id(base + owner.ordinal() as u64))
        }
    }
}

fn proposal(
    reader: &BootstrapReader<CountingAuthority>,
    plan: &BootstrapReadPlan,
    base: u64,
    generated_base: u64,
) -> Proposal {
    let before = reader.catalog().metadata().clone();
    let mut after = before.records().to_vec();
    let mut assignments = Vec::new();
    let mut generated = Vec::new();
    let mut stream_index = 0u64;
    for (ordinal, declaration) in plan.declarations().iter().enumerate() {
        let serial = base + ordinal as u64;
        assignments.push(NamingAssignment {
            occurrence: declaration.occurrence(),
            encoded_name: id(serial),
            disposition: IdentityDisposition::New { canonical_bytes: bytes_of(serial) },
        });
        after.push(record(
            &["demo"],
            owner_serial(plan, base, declaration.scope()),
            declaration.spelling(),
            id(serial),
        ));
        if declaration.purpose() == DeclarationPurpose::StreamInitiation {
            let initiation = generated_base + 2 * stream_index;
            let termination = initiation + 1;
            stream_index += 1;
            after.push(record(
                &["demo"],
                None,
                &format!("{}Initiation", declaration.spelling()),
                id(initiation),
            ));
            after.push(record(
                &["demo"],
                None,
                &format!("{}Termination", declaration.spelling()),
                id(termination),
            ));
            generated.push(GeneratedStreamAssignment {
                source: declaration.occurrence(),
                initiation: AssignedIdentity {
                    encoded_name: id(initiation),
                    disposition: IdentityDisposition::New { canonical_bytes: bytes_of(initiation) },
                },
                termination: AssignedIdentity {
                    encoded_name: id(termination),
                    disposition: IdentityDisposition::New { canonical_bytes: bytes_of(termination) },
                },
            });
        }
    }
    let after = TextualMetadataSnapshot::new(after).expect("valid proposed metadata");
    Proposal {
        assignments: NamingAssignments::new(assignments).expect("exact unique assignments"),
        generated: GeneratedStreamAssignments::new(generated).expect("exact generated assignments"),
        transition: TextualMetadataTransition::new(before, after),
    }
}

fn seal_exactly(
    reader: &BootstrapReader<CountingAuthority>,
    plan: &BootstrapReadPlan,
) -> Result<PreparedBootstrapTransaction<CountingAuthority>, BootstrapReadError> {
    let proposal = proposal(reader, plan, 100, 200);
    reader.seal(plan, &proposal.assignments, &proposal.generated, proposal.transition, &())
}

const INTERFACE: &str = "Interface.{1 0 0}\n[]\n{[Query.String] [Reply] [Failure.[Denied Timeout.Integer]] [Reply.{String Integer} Observer.Stream.(Query Reply)]}";

#[test]
fn interface_plan_seal_and_writer_preserve_the_strict_stream_transaction() {
    let mut reader = reader();
    let plan = reader.plan(INTERFACE).expect("structurally and semantically planned");
    assert_eq!(plan.header().kind, EthosKind::Interface);
    assert_eq!(plan.header().version, EthosVersion::new(1, 0, 0));
    let spellings: Vec<&str> = plan.declarations().iter().map(|d| d.spelling()).collect();
    assert_eq!(spellings, vec!["Query", "Failure", "Denied", "Timeout", "Reply", "Observer"]);
    let observer = &plan.declarations()[5];
    assert_eq!(observer.purpose(), DeclarationPurpose::StreamInitiation);
    let bound = observer.bound();
    assert_eq!(&INTERFACE[bound.start()..bound.end()], "Observer");
    assert_eq!(plan.declarations()[2].scope(), PlannedScope::Enum(plan.declarations()[1].occurrence()));
    assert_eq!(plan.declarations()[2].purpose(), DeclarationPurpose::Variant);

    let tx = seal_exactly(&reader, &plan).ok().expect("exact assignment seal");
    assert_eq!(tx.archive_status(), BootstrapArchiveStatus::NotYetArchived);
    let decoded = tx.decoded();
    assert_eq!(decoded.document.header.kind, EthosKind::Interface);
    let BootstrapBody::Interface(body) = &decoded.document.body else {
        panic!("Interface body")
    };
    assert_eq!(body.inputs.len(), 1);
    assert!(matches!(&body.inputs[0], RoleEntry::Declaration(query) if query.name == id(100)));
    assert!(matches!(&body.outputs[0], RoleEntry::Reference(reply) if *reply == id(104)));
    let RoleEntry::Declaration(failure) = &body.refusals[0] else {
        panic!("inline refusal declaration")
    };
    let TypeBody::Enum(variants) = &failure.body else {
        panic!("Failure enumeration")
    };
    assert_eq!(variants.len(), 2);
    assert_eq!(variants[0].name, id(102));
    assert!(matches!(variants[0].body, VariantBody::Unit));
    assert!(matches!(&variants[1].body, VariantBody::Unary(TypeExpression::Reference(r)) if *r == id(8)));

    assert_eq!(body.memberships.len(), 3);
    assert_eq!(body.memberships[0].role, InterfaceRole::Input);
    assert_eq!(body.memberships[0].target, id(100));
    assert_eq!(body.memberships[1].role, InterfaceRole::Output);
    assert_eq!(body.memberships[1].target, id(104));
    assert_eq!(body.memberships[2].role, InterfaceRole::Refusal);
    assert_eq!(body.memberships[2].target, id(101));

    assert_eq!(body.types.len(), 2);
    let Declaration::Type(reply) = &body.types[0] else {
        panic!("Reply product")
    };
    assert_eq!(reply.name, id(104));
    assert!(matches!(&reply.body, TypeBody::Struct(fields) if fields.len() == 2));
    let Declaration::Nomos(NomosDeclaration::StreamInitiation(stream)) = &body.types[1] else {
        panic!("strict Stream arm")
    };
    assert_eq!(stream.name, id(105));
    assert!(matches!(stream.query, TypeExpression::Reference(q) if q == id(100)));
    assert!(matches!(stream.event, TypeExpression::Reference(e) if e == id(104)));

    let streams = tx.generated_streams();
    assert_eq!(streams.len(), 1);
    let generation = &streams[0];
    assert_eq!(generation.initiation.name, id(200));
    assert!(matches!(generation.initiation.query, TypeExpression::Reference(q) if q == id(100)));
    assert_eq!(generation.output.name, id(105));
    assert_eq!(generation.output.stream_of_event.shape, id(16));
    assert!(matches!(
        generation.output.stream_of_event.arguments.as_slice(),
        [TypeExpression::Reference(e)] if *e == id(104)
    ));
    assert_eq!(generation.termination.name, id(201));
    assert_eq!(generation.termination.stream_handle, generation.output.name);
    let relations: Vec<(InterfaceRole, EncodedName)> =
        generation.role_relations.iter().map(|m| (m.role, m.target)).collect();
    assert_eq!(
        relations,
        vec![
            (InterfaceRole::Input, id(200)),
            (InterfaceRole::Output, id(105)),
            (InterfaceRole::Input, id(201)),
        ]
    );

    let dispositions: Vec<EncodedName> = tx.identity_dispositions().iter().map(|d| d.encoded_name).collect();
    assert_eq!(
        dispositions,
        vec![id(100), id(101), id(102), id(103), id(104), id(105), id(200), id(201)]
    );
    let additions = tx.schema_additions();
    assert_eq!(additions.entries().len(), 8);
    assert!(additions.admits(id(105), SchemaRole::Nominal { persistent: false }));
    assert!(additions.admits(id(102), SchemaRole::Variant));
    assert!(additions.admits(id(200), SchemaRole::Nominal { persistent: false }));
    assert_eq!(tx.canonical_order().bytes(id(201)), Some(&bytes_of(201)));
    assert_eq!(tx.canonical_order().bytes(id(7)), Some(&bytes_of(7)));
    assert_eq!(tx.canonical_order().entries().len(), 17 + 8);
    assert_eq!(tx.naming_authority_receipt(), &8);
    assert!(tx.verify_naming_authority(reader.naming_authority()).is_ok());
    assert!(reader.validate_transaction(&tx).is_ok());

    let canonical = reader.write(&tx).ok().expect("canonical text");
    assert_eq!(
        canonical,
        "Interface.{1 0 0}\n[]\n{\n  [Query.String]\n  [Reply]\n  [Failure.[Denied Timeout.Integer]]\n  [Reply.{String Integer} Observer.Stream.(Query Reply)]\n}\n"
    );
    let replanned = reader.plan(&canonical).expect("writer output plans");
    let respelled: Vec<&str> = replanned.declarations().iter().map(|d| d.spelling()).collect();
    assert_eq!(respelled, spellings);

    let second = reader.plan(INTERFACE).expect("the same source plans again");
    assert_eq!(second.declarations().len(), plan.declarations().len());
    assert_ne!(second.declarations()[0].occurrence(), plan.declarations()[0].occurrence());
    assert_eq!(second.declarations()[0].occurrence().ordinal(), 0);
}

#[test]
fn nexus_traits_are_first_and_named_trait_binders_corefer_only_inside_the_type() {
    let source = "Nexus.{1 0 0}\n[]\n{[Sortable.{} Named.{label.{String}}] [Pair.{«Left.Sortable» «Left.Sortable»} Single.«Sortable»]}";
    let mut reader = reader();
    let plan = reader.plan(source).expect("Nexus plan");
    let spellings: Vec<&str> = plan.declarations().iter().map(|d| d.spelling()).collect();
    assert_eq!(spellings, vec!["Sortable", "Named", "label", "Pair", "Single"]);
    assert_eq!(plan.declarations()[2].purpose(), DeclarationPurpose::Method);
    assert_eq!(plan.declarations()[2].scope(), PlannedScope::Trait(plan.declarations()[1].occurrence()));
    let tx = seal_exactly(&reader, &plan).ok().expect("Nexus seal");
    let BootstrapBody::Nexus(body) = &tx.decoded().document.body else {
        panic!("Nexus body")
    };
    assert_eq!(body.traits.len(), 2);
    assert_eq!(body.traits[0].name, id(100));
    assert!(body.traits[0].methods.is_empty());
    assert_eq!(body.traits[1].methods.len(), 1);
    assert_eq!(body.traits[1].methods[0].name, id(102));
    assert!(body.traits[1].methods[0].parameters.is_empty());
    assert!(matches!(body.traits[1].methods[0].return_type, TypeExpression::Reference(r) if r == id(7)));
    assert_eq!(body.types.len(), 2);
    let Declaration::Type(pair) = &body.types[0] else {
        panic!("plain Pair")
    };
    let TypeBody::Struct(fields) = &pair.body else {
        panic!("Pair product")
    };
    let (TypeExpression::TraitRequirement(left), TypeExpression::TraitRequirement(right)) =
        (&fields[0], &fields[1])
    else {
        panic!("Trait requirements")
    };
    assert_eq!(left.binder.parameter(), right.binder.parameter());
    assert_eq!(left.binder.parameter().owner, id(103));
    assert!(matches!(&left.binder, ParameterBinder::Named { local_name, .. } if local_name == "Left"));
    assert_eq!(left.required_traits, vec![id(100)]);
    let Declaration::Type(single) = &body.types[1] else {
        panic!("plain Single")
    };
    let TypeBody::Newtype(TypeExpression::TraitRequirement(inferred)) = &single.body else {
        panic!("inferred requirement")
    };
    assert!(matches!(inferred.binder, ParameterBinder::Inferred(p) if p.owner == id(104)));
    let canonical = reader.write(&tx).ok().expect("canonical Nexus");
    assert!(canonical.contains("Pair.{«Left.Sortable» «Left.Sortable»}"));
    assert_eq!(
        canonical,
        "Nexus.{1 0 0}\n[]\n{\n  [Sortable.{} Named.{label.{String}}]\n  [Pair.{«Left.Sortable» «Left.Sortable»} Single.«Sortable»]\n}\n"
    );
    assert_eq!(reader.plan(&canonical).expect("canonical Nexus plans").declarations().len(), 5);
}

#[test]
fn sema_tables_accept_only_persistent_nominal_leaves() {
    let source = "Sema.{1 0 0}\n[dependency:domain.[External]]\n{[Record.{String Integer} Key.Integer] [records.{Record Key} externals.{External Key}]}";
    let external = Known {
        module: vec!["dependency", "domain"],
        name: "External",
        serial: 80,
        role: SchemaRole::Nominal { persistent: true },
    };
    let mut reader = reader_with(&[external], true);
    let plan = reader.plan(source).expect("Sema plan");
    assert_eq!(plan.imports().len(), 1);
    assert_eq!(plan.imports()[0].module, vec!["dependency".to_string(), "domain".to_string()]);
    assert_eq!(plan.imports()[0].imported_names, vec!["External".to_string()]);
    assert_eq!(plan.declarations()[0].purpose(), DeclarationPurpose::PersistentType);
    let tx = seal_exactly(&reader, &plan).ok().expect("Sema seal");
    let BootstrapBody::Sema(body) = &tx.decoded().document.body else {
        panic!("Sema body")
    };
    assert_eq!(body.record_types.len(), 2);
    assert_eq!(body.tables.len(), 2);
    assert_eq!(body.tables[0].name, id(102));
    assert_eq!(body.tables[0].record_type, id(100));
    assert_eq!(body.tables[0].key_type, id(101));
    assert_eq!(body.tables[1].record_type, id(80));
    assert!(tx.schema_additions().admits(id(100), SchemaRole::Nominal { persistent: true }));
    assert!(tx.schema_additions().admits(id(102), SchemaRole::Table));
    assert_eq!(tx.decoded().source.imports.len(), 1);
    assert_eq!(
        reader.write(&tx).ok().expect("canonical Sema"),
        "Sema.{1 0 0}\n[dependency:domain.[External]]\n{\n  [Record.{String Integer} Key.Integer]\n  [records.{Record Key} externals.{External Key}]\n}\n"
    );

    let transient = "Sema.{1 0 0}\n[]\n{[Record.{String}] [records.{Record Transient}]}";
    let unknown = reader.plan(transient).expect("table leaves are resolved at seal");
    assert!(seal_exactly(&reader, &unknown).is_err());
}

#[test]
fn seal_requires_no_missing_or_extra_assignment() {
    let mut reader = reader();
    let plan = reader.plan("Interface.{1 0 0}\n[]\n{[] [] [] [Thing.String]}").expect("plan");
    let exact = proposal(&reader, &plan, 200, 300);

    let missing = NamingAssignments::new(vec![]).expect("empty set");
    assert!(matches!(
        reader.seal(&plan, &missing, &exact.generated, exact.transition.clone(), &()),
        Err(BootstrapReadError::MissingAssignment(0))
    ));

    let tx = reader
        .seal(&plan, &exact.assignments, &exact.generated, exact.transition.clone(), &())
        .ok()
        .expect("exact set succeeds");
    assert!(matches!(tx.decoded().document.body, BootstrapBody::Interface(_)));

    let other_plan = reader.plan("Interface.{1 0 0}\n[]\n{[] [] [] [Other.String]}").expect("separate plan");
    let with_extra = NamingAssignments::new(vec![
        NamingAssignment {
            occurrence: plan.declarations()[0].occurrence(),
            encoded_name: id(200),
            disposition: IdentityDisposition::New { canonical_bytes: bytes_of(200) },
        },
        NamingAssignment {
            occurrence: other_plan.declarations()[0].occurrence(),
            encoded_name: id(202),
            disposition: IdentityDisposition::New { canonical_bytes: bytes_of(202) },
        },
    ])
    .expect("distinct plan-local handles");
    assert!(matches!(
        reader.seal(&plan, &with_extra, &exact.generated, exact.transition, &()),
        Err(BootstrapReadError::ExtraAssignment)
    ));
}

#[test]
fn canonical_version_rejects_signs_leading_zero_and_wrong_arity() {
    let mut reader = reader();
    for source in [
        "Interface.{01 0 0}\n[]\n{[] [] [] []}",
        "Interface.{1 0}\n[]\n{[] [] [] []}",
        "Interface.{1 -1 0}\n[]\n{[] [] [] []}",
    ] {
        assert!(reader.plan(source).is_err(), "{source}");
    }
    assert!(reader.plan("Interface.{1 0 0}\n[]\n{[] [] [] []}").is_ok());
}

#[test]
fn unsupported_version_and_unknown_kind_are_typed_refusals() {
    let mut reader = reader();
    match reader.plan("Interface.{2 0 0}\n[]\n{[] [] [] []}") {
        Err(BootstrapReadError::UnsupportedVersion { found, supported }) => {
            assert_eq!(found, EthosVersion::new(2, 0, 0));
            assert_eq!(supported, vec![EthosVersion::new(1, 0, 0)]);
        }
        other => panic!("expected an unsupported version, got {other:?}"),
    }
    match reader.plan("Unknown.{1 0 0}\n[]\n{[] [] [] []}") {
        Err(BootstrapReadError::UnknownFileKind(kind)) => assert_eq!(kind, "Unknown"),
        other => panic!("expected an unknown file kind, got {other:?}"),
    }
}

#[test]
fn structural_refusals_name_the_broken_law() {
    let mut reader = reader();
    assert!(matches!(reader.plan("Interface.{1 0 0}\n[]\n{[] [] []"), Err(BootstrapReadError::MalformedSource { .. })));
    assert!(reader.plan("Nexus.{1 0 0}\n[]\n{[] [] [] []}").is_err());
    assert!(reader.plan("Interface.{1 0 0}\n[]\n{[] [] [] [Thing.Vector<String Integer>]}").is_err());
    assert!(reader.plan("Interface.{1 0 0}\n[]\n{[Observer.Stream.(String String)] [] [] []}").is_err());
    assert!(reader.plan("Nexus.{1 0 0}\n[]\n{[] [Observer.Stream.(String String)]}").is_err());
    assert!(reader.plan("Interface.{1 0 0}\n[]\n{[] [] [] [Thing.[]]}").is_err());
    assert!(reader.plan("Interface.{1 0 0}\n[nowhere.[Thing]]\n{[] [] [] []}").is_err());
    assert!(matches!(
        reader.plan("Interface.{1 0 0}\n[]\n{[] [] [] [Thing.String Thing.Integer]}"),
        Err(BootstrapReadError::DuplicateDeclaration { .. })
    ));
    let same_variant_names = reader
        .plan("Interface.{1 0 0}\n[]\n{[] [] [] [Left.[Only] Right.[Only]]}")
        .expect("variant names are scoped by their enum");
    assert_eq!(same_variant_names.declarations().len(), 4);
    assert!(matches!(
        reader.plan("Interface.{1 0 0}\n[]\n{[] [] [] [Thing.String Other.[Same Same]]}"),
        Err(BootstrapReadError::DuplicateDeclaration { name, scope }) if name == "Same" && scope == "Enum(1)"
    ));
    assert!(matches!(
        reader.plan("Interface.{1 0 0}\n[]\n{[] [] [] [Thing.String Thing.Integer]}"),
        Err(BootstrapReadError::DuplicateDeclaration { name, scope }) if name == "Thing" && scope == "Module"
    ));
}

#[test]
fn duplicate_occurrence_assignment_is_refused() {
    let mut reader = reader();
    let plan = reader.plan("Interface.{1 0 0}\n[]\n{[] [] [] [Thing.String]}").expect("plan");
    let occurrence = plan.declarations()[0].occurrence();
    let refused = NamingAssignments::new(vec![
        NamingAssignment { occurrence, encoded_name: id(300), disposition: IdentityDisposition::Existing },
        NamingAssignment { occurrence, encoded_name: id(301), disposition: IdentityDisposition::Existing },
    ]);
    assert!(matches!(refused, Err(BootstrapReadError::DuplicateAssignment(0))));
}

#[test]
fn new_identities_must_be_unknown_and_existing_ones_reusable() {
    let mut reader = reader();
    let plan = reader.plan("Interface.{1 0 0}\n[]\n{[] [] [] [Thing.String]}").expect("plan");
    let before = reader.catalog().metadata().clone();
    let occurrence = plan.declarations()[0].occurrence();

    let mut after = before.records().to_vec();
    after.retain(|r| r.encoded_name != id(9));
    after.push(record(&["demo"], None, "Thing", id(9)));
    let after = TextualMetadataSnapshot::new(after).expect("valid proposal");
    let reminted = NamingAssignments::new(vec![NamingAssignment {
        occurrence,
        encoded_name: id(9),
        disposition: IdentityDisposition::New { canonical_bytes: bytes_of(900) },
    }])
    .expect("one assignment");
    let generated = GeneratedStreamAssignments::new(vec![]).expect("no Streams");
    let result = reader.seal(
        &plan,
        &reminted,
        &generated,
        TextualMetadataTransition::new(before.clone(), after.clone()),
        &(),
    );
    assert!(result.is_err());

    let reused_prior = NamingAssignments::new(vec![NamingAssignment {
        occurrence,
        encoded_name: id(9),
        disposition: IdentityDisposition::Existing,
    }])
    .expect("one assignment");
    let result = reader.seal(&plan, &reused_prior, &generated, TextualMetadataTransition::new(before, after), &());
    assert!(result.is_err());
}

#[test]
fn existing_identity_survives_a_reread() {
    let known = Known { module: vec!["demo"], name: "Thing", serial: 50, role: SchemaRole::Nominal { persistent: false } };
    let mut reader = reader_with(&[known], true);
    let plan = reader.plan("Interface.{1 0 0}\n[]\n{[] [] [] [Thing.String]}").expect("plan");
    let before = reader.catalog().metadata().clone();
    let assignments = NamingAssignments::new(vec![NamingAssignment {
        occurrence: plan.declarations()[0].occurrence(),
        encoded_name: id(50),
        disposition: IdentityDisposition::Existing,
    }])
    .expect("one assignment");
    let generated = GeneratedStreamAssignments::new(vec![]).expect("no Streams");
    let tx = reader
        .seal(&plan, &assignments, &generated, TextualMetadataTransition::new(before.clone(), before), &())
        .ok()
        .expect("unchanged reread seals");
    assert!(tx.schema_additions().entries().is_empty());
    assert_eq!(tx.canonical_order().entries().len(), 18);
    let BootstrapBody::Interface(body) = &tx.decoded().document.body else {
        panic!("Interface body")
    };
    assert_eq!(body.types[0].identity(), id(50));
}

#[test]
fn naming_authority_refusal_prevents_any_transaction() {
    let mut reader = reader_with(&[], false);
    let plan = reader.plan("Interface.{1 0 0}\n[]\n{[] [] [] [Thing.String]}").expect("plan");
    assert!(matches!(seal_exactly(&reader, &plan), Err(BootstrapReadError::NamingAuthorityRejected)));
}

#[test]
fn stale_before_snapshot_is_refused() {
    let mut reader = reader();
    let plan = reader.plan("Interface.{1 0 0}\n[]\n{[] [] [] [Thing.String]}").expect("plan");
    let exact = proposal(&reader, &plan, 100, 200);
    let stale = TextualMetadataTransition::new(
        exact.transition.after().clone(),
        exact.transition.after().clone(),
    );
    assert!(matches!(
        reader.seal(&plan, &exact.assignments, &exact.generated, stale, &()),
        Err(BootstrapReadError::MetadataTransitionBeforeMismatch)
    ));
}

#[test]
fn unordered_collections_follow_canonical_bytes() {
    let mut reader = reader();
    let plan = reader.plan("Interface.{1 0 0}\n[]\n{[] [] [] [Zeta.String Alpha.Integer]}").expect("plan");
    let before = reader.catalog().metadata().clone();
    let mut after = before.records().to_vec();
    after.push(record(&["demo"], None, "Zeta", id(401)));
    after.push(record(&["demo"], None, "Alpha", id(400)));
    let assignments = NamingAssignments::new(vec![
        NamingAssignment {
            occurrence: plan.declarations()[0].occurrence(),
            encoded_name: id(401),
            disposition: IdentityDisposition::New { canonical_bytes: vec![9, 1] },
        },
        NamingAssignment {
            occurrence: plan.declarations()[1].occurrence(),
            encoded_name: id(400),
            disposition: IdentityDisposition::New { canonical_bytes: vec![9, 0] },
        },
    ])
    .expect("assignments");
    let generated = GeneratedStreamAssignments::new(vec![]).expect("no Streams");
    let after = TextualMetadataSnapshot::new(after).expect("proposal");
    let tx = reader
        .seal(&plan, &assignments, &generated, TextualMetadataTransition::new(before, after), &())
        .ok()
        .expect("seal");
    let BootstrapBody::Interface(body) = &tx.decoded().document.body else {
        panic!("Interface body")
    };
    let order: Vec<EncodedName> = body.types.iter().map(|d| d.identity()).collect();
    assert_eq!(order, vec![id(400), id(401)]);
}

#[test]
fn reader_build_refuses_one_identity_for_both_grammar_roles() {
    let refused = BootstrapReader::build(
        BootstrapGrammarIdentities { document: id(900), syntax: id(900) },
        catalog(&[]),
        CountingAuthority { accept: true },
    );
    assert!(matches!(refused, Err(BootstrapBuildError::DuplicateGrammarIdentity)));
    let reader = reader();
    assert_eq!(reader.catalog().current_module(), &["demo".to_string()]);
    assert_eq!(
        reader.section_order(EthosKind::Sema),
        vec![BootstrapSectionSchema::PersistentDeclarations, BootstrapSectionSchema::Tables]
    );
    assert_eq!(reader.section_order(EthosKind::Interface).len(), 4);
    assert_eq!(reader.archive_status(), BootstrapArchiveStatus::NotYetArchived);
    assert_eq!(id(5).root, VocabularyRoot::Universal);
}

#[test]
fn untouched_drafts_revalidate_and_tampered_drafts_are_refused() {
    let mut reader = reader();
    let plan = reader.plan(INTERFACE).expect("plan");
    let draft = seal_exactly(&reader, &plan).ok().expect("seal").to_draft();
    let tx = reader.validate_draft(draft, &()).ok().expect("an untouched draft validates");
    assert!(reader.validate_transaction(&tx).is_ok());

    let mut relations_swapped = tx.to_draft();
    relations_swapped.generated_streams[0].role_relations.swap(0, 2);
    assert!(matches!(
        reader.validate_draft(relations_swapped, &()),
        Err(BootstrapReadError::InvalidPreparedModel(_))
    ));

    let mut wrong_version = seal_exactly(&reader, &plan).ok().expect("seal").to_draft();
    wrong_version.decoded.document.header.version = EthosVersion::new(9, 9, 9);
    assert!(matches!(
        reader.validate_draft(wrong_version, &()),
        Err(BootstrapReadError::UnsupportedVersion { .. })
    ));

    let mut wrong_kind = seal_exactly(&reader, &plan).ok().expect("seal").to_draft();
    wrong_kind.decoded.document.header.kind = EthosKind::Sema;
    assert!(matches!(
        reader.validate_draft(wrong_kind, &()),
        Err(BootstrapReadError::HeaderBodyMismatch { header: EthosKind::Sema, body: EthosKind::Interface })
    ));

    let mut reordered = seal_exactly(&reader, &plan).ok().expect("seal").to_draft();
    if let BootstrapBody::Interface(body) = &mut reordered.decoded.document.body {
        body.types.reverse();
    }
    assert!(matches!(
        reader.validate_draft(reordered, &()),
        Err(BootstrapReadError::InvalidPreparedModel(_))
    ));

    let mut undisposed = seal_exactly(&reader, &plan).ok().expect("seal").to_draft();
    undisposed.identity_dispositions.pop();
    assert!(matches!(
        reader.validate_draft(undisposed, &()),
        Err(BootstrapReadError::InvalidPreparedModel(_))
    ));

    let mut membership_dropped = seal_exactly(&reader, &plan).ok().expect("seal").to_draft();
    if let BootstrapBody::Interface(body) = &mut membership_dropped.decoded.document.body {
        body.memberships.pop();
    }
    assert!(matches!(
        reader.validate_draft(membership_dropped, &()),
        Err(BootstrapReadError::InvalidPreparedModel(_))
    ));
}

#[test]
fn a_reader_with_another_authority_refuses_the_receipt() {
    let mut reader = reader();
    let plan = reader.plan("Interface.{1 0 0}\n[]\n{[] [] [] [Thing.String]}").expect("plan");
    let tx = seal_exactly(&reader, &plan).ok().expect("seal");
    let refusing = CountingAuthority { accept: false };
    assert!(matches!(
        tx.verify_naming_authority(&refusing),
        Err(BootstrapReadError::NamingAuthorityReceiptRejected)
    ));
    assert!(tx.verify_naming_authority(reader.naming_authority()).is_ok());
}

#[test]
fn declaration_bounds_are_byte_ranges_of_their_spellings() {
    let mut reader = reader();
    let source = format!(";; Café — naïve «notes»\n{}", INTERFACE);
    let plan = reader.plan(&source).expect("planned after a non-ASCII comment");
    assert_eq!(plan.declarations().len(), 6);
    for declaration in plan.declarations() {
        let bound = declaration.bound();
        assert!(bound.start() <= bound.end() && bound.end() <= source.len());
        assert_eq!(&source[bound.start()..bound.end()], declaration.spelling());
    }
}
