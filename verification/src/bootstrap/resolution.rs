//! Namespace-first reference resolution over local, imported, and prior
//! candidates.
use vstd::prelude::*;

use crate::identity::EncodedName;
use super::catalog::{
    is_body_nominal_prior, is_shape_prior, str_equal, BootstrapPriorIdentities, BootstrapPriorVocabulary,
    CanonicalIdentityOrder, IdentitySchema, IdentitySchemaCatalog, NomosSchema, SchemaRole, TextualMetadataSnapshot,
};
use super::error::BootstrapReadError;

verus! {

/// The syntactic namespace a reference position selects.
#[derive(Clone, Copy, Debug, PartialEq, Eq, Structural)]
pub enum ReferenceNamespace {
    Nominal,
    Trait,
    Shape,
    Nomos,
}

/// The exact schema class a reference position admits.
#[derive(Clone, Copy, Debug, PartialEq, Eq, Structural)]
pub enum ExpectedSchema {
    Nominal,
    PersistentNominal,
    Trait,
    Shape,
    StreamNomos,
}

/// The namespace searched for an expected schema class.
pub open spec fn expected_namespace(expected: ExpectedSchema) -> ReferenceNamespace {
    match expected {
        ExpectedSchema::Nominal | ExpectedSchema::PersistentNominal => ReferenceNamespace::Nominal,
        ExpectedSchema::Trait => ReferenceNamespace::Trait,
        ExpectedSchema::Shape => ReferenceNamespace::Shape,
        ExpectedSchema::StreamNomos => ReferenceNamespace::Nomos,
    }
}

impl ExpectedSchema {
    /// The namespace searched for this class.
    pub fn namespace(self) -> (r: ReferenceNamespace)
        ensures
            r == expected_namespace(self),
    {
        match self {
            ExpectedSchema::Nominal | ExpectedSchema::PersistentNominal => ReferenceNamespace::Nominal,
            ExpectedSchema::Trait => ReferenceNamespace::Trait,
            ExpectedSchema::Shape => ReferenceNamespace::Shape,
            ExpectedSchema::StreamNomos => ReferenceNamespace::Nomos,
        }
    }
}

/// One imported visible name and the identity it designates.
#[derive(Clone, Debug)]
pub struct ImportBinding {
    pub name: String,
    pub identity: EncodedName,
}

/// The schema of `identity` as seen through prepared additions first, then
/// the existing catalog.
pub open spec fn schema_in_view(
    existing: IdentitySchemaCatalog,
    additions: IdentitySchemaCatalog,
    identity: EncodedName,
) -> Option<IdentitySchema> {
    if additions.spec_contains(identity) {
        additions.spec_get(identity)
    } else {
        existing.spec_get(identity)
    }
}

/// The schema of `identity` through additions first, then the existing catalog.
pub fn schema_view_get<'a>(
    existing: &'a IdentitySchemaCatalog,
    additions: &'a IdentitySchemaCatalog,
    identity: EncodedName,
) -> (r: Option<&'a IdentitySchema>)
    requires
        existing.wf(),
        additions.wf(),
    ensures
        r matches Some(s) ==> schema_in_view(*existing, *additions, identity) == Some(*s),
        r is None ==> schema_in_view(*existing, *additions, identity) is None,
{
    match additions.get(identity) {
        Some(s) => Some(s),
        None => existing.get(identity),
    }
}

/// Whether a schema has a role of the namespace's class.
pub open spec fn schema_in_namespace(schema: IdentitySchema, namespace: ReferenceNamespace) -> bool {
    match namespace {
        ReferenceNamespace::Nominal => schema.spec_admits(SchemaRole::Nominal { persistent: false })
            || schema.spec_admits(SchemaRole::Nominal { persistent: true }),
        ReferenceNamespace::Trait => schema.spec_admits(SchemaRole::Trait),
        ReferenceNamespace::Shape => exists|a: u16| schema.spec_admits(SchemaRole::Shape { arity: a }),
        ReferenceNamespace::Nomos => exists|n: NomosSchema| schema.spec_admits(SchemaRole::Nomos(n)),
    }
}

/// Whether a schema has a role of the namespace's class.
pub fn namespace_admits(schema: &IdentitySchema, namespace: ReferenceNamespace) -> (r: bool)
    requires
        schema.wf(),
    ensures
        r == schema_in_namespace(*schema, namespace),
{
    match namespace {
        ReferenceNamespace::Nominal => schema.is_nominal(),
        ReferenceNamespace::Trait => schema.admits(SchemaRole::Trait),
        ReferenceNamespace::Shape => schema.shape_arity().is_some(),
        ReferenceNamespace::Nomos => schema.nomos().is_some(),
    }
}

/// Whether a schema admits the exact expected class.
pub open spec fn schema_meets(schema: IdentitySchema, expected: ExpectedSchema) -> bool {
    match expected {
        ExpectedSchema::Nominal => schema_in_namespace(schema, ReferenceNamespace::Nominal),
        ExpectedSchema::PersistentNominal => schema.spec_admits(SchemaRole::Nominal { persistent: true }),
        ExpectedSchema::Trait => schema.spec_admits(SchemaRole::Trait),
        ExpectedSchema::Shape => schema_in_namespace(schema, ReferenceNamespace::Shape),
        ExpectedSchema::StreamNomos => schema.spec_admits(SchemaRole::Nomos(NomosSchema::StreamInitiation { arity: 2 })),
    }
}

/// The role reported when an identity misses an expected class.
pub open spec fn expected_role(expected: ExpectedSchema) -> SchemaRole {
    match expected {
        ExpectedSchema::Nominal => SchemaRole::Nominal { persistent: false },
        ExpectedSchema::PersistentNominal => SchemaRole::Nominal { persistent: true },
        ExpectedSchema::Trait => SchemaRole::Trait,
        ExpectedSchema::Shape => SchemaRole::Shape { arity: 0 },
        ExpectedSchema::StreamNomos => SchemaRole::Nomos(NomosSchema::StreamInitiation { arity: 2 }),
    }
}

/// Require that `identity` is catalogued with the expected class.
pub fn require_schema<'a>(
    existing: &'a IdentitySchemaCatalog,
    additions: &'a IdentitySchemaCatalog,
    identity: EncodedName,
    expected: ExpectedSchema,
) -> (r: Result<&'a IdentitySchema, BootstrapReadError>)
    requires
        existing.wf(),
        additions.wf(),
    ensures
        r is Ok <==> (schema_in_view(*existing, *additions, identity) matches Some(s) && schema_meets(s, expected)),
        r matches Ok(s) ==> schema_in_view(*existing, *additions, identity) == Some(*s),
        r matches Err(e) ==> match e {
            BootstrapReadError::MissingSchema(id) => id == identity
                && schema_in_view(*existing, *additions, identity) is None,
            BootstrapReadError::WrongSchemaRole { identity: id, required } => id == identity
                && required == expected_role(expected),
            _ => false,
        },
{
    let schema = match schema_view_get(existing, additions, identity) {
        Some(schema) => schema,
        None => {
            return Err(BootstrapReadError::MissingSchema(identity));
        },
    };
    proof {
        assert(schema.wf()) by {
            if additions.spec_contains(identity) {
                let i = choose|i: int| 0 <= i < additions.spec_entries().len()
                    && (#[trigger] additions.spec_entries()[i]).spec_identity() == identity;
                assert(additions.spec_entries()[i].wf());
            } else {
                let i = choose|i: int| 0 <= i < existing.spec_entries().len()
                    && (#[trigger] existing.spec_entries()[i]).spec_identity() == identity;
                assert(existing.spec_entries()[i].wf());
            }
        }
    }
    let admitted = match expected {
        ExpectedSchema::Nominal => schema.is_nominal(),
        ExpectedSchema::PersistentNominal => schema.admits(SchemaRole::Nominal { persistent: true }),
        ExpectedSchema::Trait => schema.admits(SchemaRole::Trait),
        ExpectedSchema::Shape => schema.shape_arity().is_some(),
        ExpectedSchema::StreamNomos => schema.admits(SchemaRole::Nomos(NomosSchema::StreamInitiation { arity: 2 })),
    };
    if admitted {
        Ok(schema)
    } else {
        let required = match expected {
            ExpectedSchema::Nominal => SchemaRole::Nominal { persistent: false },
            ExpectedSchema::PersistentNominal => SchemaRole::Nominal { persistent: true },
            ExpectedSchema::Trait => SchemaRole::Trait,
            ExpectedSchema::Shape => SchemaRole::Shape { arity: 0 },
            ExpectedSchema::StreamNomos => SchemaRole::Nomos(NomosSchema::StreamInitiation { arity: 2 }),
        };
        Err(BootstrapReadError::WrongSchemaRole { identity, required })
    }
}

/// A schema obtained through a view of well-formed catalogs is well formed.
pub proof fn lemma_view_schema_wf(existing: IdentitySchemaCatalog, additions: IdentitySchemaCatalog, identity: EncodedName)
    requires
        existing.wf(),
        additions.wf(),
        schema_in_view(existing, additions, identity) is Some,
    ensures
        schema_in_view(existing, additions, identity).unwrap().wf(),
{
    if additions.spec_contains(identity) {
        let i = choose|i: int| 0 <= i < additions.spec_entries().len()
            && (#[trigger] additions.spec_entries()[i]).spec_identity() == identity;
        assert(additions.spec_entries()[i].wf());
    } else {
        let i = choose|i: int| 0 <= i < existing.spec_entries().len()
            && (#[trigger] existing.spec_entries()[i]).spec_identity() == identity;
        assert(existing.spec_entries()[i].wf());
    }
}

/// Whether the prior vocabulary offers `identity` in `namespace`.
pub open spec fn namespace_prior(ids: BootstrapPriorIdentities, namespace: ReferenceNamespace, identity: EncodedName) -> bool {
    match namespace {
        ReferenceNamespace::Nominal => is_body_nominal_prior(ids, identity),
        ReferenceNamespace::Shape => is_shape_prior(ids, identity),
        ReferenceNamespace::Nomos => identity == ids.stream_nomos,
        ReferenceNamespace::Trait => false,
    }
}

/// The (spelling, identity) pairs of import bindings.
pub open spec fn bindings_view(imported: Seq<ImportBinding>) -> Seq<(Seq<char>, EncodedName)> {
    imported.map_values(|b: ImportBinding| (b.name@, b.identity))
}

/// Whether some import binds `spelling` to `identity`.
pub open spec fn imported_binds(imported: Seq<(Seq<char>, EncodedName)>, spelling: Seq<char>, identity: EncodedName) -> bool {
    exists|k: int| 0 <= k < imported.len() && (#[trigger] imported[k]).0 == spelling && imported[k].1 == identity
}

/// Where a reference spelling may come from: a local declaration, an
/// import, or a same-spelled prior of the namespace.
pub open spec fn raw_candidate(
    ids: BootstrapPriorIdentities,
    snapshot: TextualMetadataSnapshot,
    local: Seq<EncodedName>,
    imported: Seq<(Seq<char>, EncodedName)>,
    spelling: Seq<char>,
    namespace: ReferenceNamespace,
    identity: EncodedName,
) -> bool {
    ||| local.contains(identity)
    ||| imported_binds(imported, spelling, identity)
    ||| (namespace_prior(ids, namespace, identity) && snapshot.spec_spelling(identity) == Some(spelling))
}

/// A candidate whose schema lies in the searched namespace.
pub open spec fn visible_candidate(
    ids: BootstrapPriorIdentities,
    snapshot: TextualMetadataSnapshot,
    existing: IdentitySchemaCatalog,
    additions: IdentitySchemaCatalog,
    local: Seq<EncodedName>,
    imported: Seq<(Seq<char>, EncodedName)>,
    spelling: Seq<char>,
    namespace: ReferenceNamespace,
    identity: EncodedName,
) -> bool {
    &&& raw_candidate(ids, snapshot, local, imported, spelling, namespace, identity)
    &&& schema_in_view(existing, additions, identity) matches Some(s) && schema_in_namespace(s, namespace)
}

/// Shape and Nomos heads are closed over the prior vocabulary.
pub open spec fn head_closed_over_priors(ids: BootstrapPriorIdentities, namespace: ReferenceNamespace, identity: EncodedName) -> bool {
    match namespace {
        ReferenceNamespace::Shape => is_shape_prior(ids, identity),
        ReferenceNamespace::Nomos => identity == ids.stream_nomos,
        _ => true,
    }
}

/// Every visible candidate has authority-supplied canonical bytes.
pub open spec fn candidates_ordered(
    ids: BootstrapPriorIdentities,
    snapshot: TextualMetadataSnapshot,
    existing: IdentitySchemaCatalog,
    additions: IdentitySchemaCatalog,
    order: CanonicalIdentityOrder,
    local: Seq<EncodedName>,
    imported: Seq<(Seq<char>, EncodedName)>,
    spelling: Seq<char>,
    namespace: ReferenceNamespace,
) -> bool {
    forall|id: EncodedName| #[trigger] visible_candidate(ids, snapshot, existing, additions, local, imported, spelling, namespace, id)
        ==> order.spec_contains(id)
}

/// `x` is the one and only visible candidate.
pub open spec fn sole_candidate(
    ids: BootstrapPriorIdentities,
    snapshot: TextualMetadataSnapshot,
    existing: IdentitySchemaCatalog,
    additions: IdentitySchemaCatalog,
    local: Seq<EncodedName>,
    imported: Seq<(Seq<char>, EncodedName)>,
    spelling: Seq<char>,
    namespace: ReferenceNamespace,
    x: EncodedName,
) -> bool {
    &&& visible_candidate(ids, snapshot, existing, additions, local, imported, spelling, namespace, x)
    &&& forall|y: EncodedName| #[trigger] visible_candidate(ids, snapshot, existing, additions, local, imported, spelling, namespace, y) ==> y == x
}

/// The identity a reference resolves to: the unique visible candidate, when
/// every candidate has canonical bytes and the head is closed over priors.
pub open spec fn resolution(
    ids: BootstrapPriorIdentities,
    snapshot: TextualMetadataSnapshot,
    existing: IdentitySchemaCatalog,
    additions: IdentitySchemaCatalog,
    order: CanonicalIdentityOrder,
    local: Seq<EncodedName>,
    imported: Seq<(Seq<char>, EncodedName)>,
    spelling: Seq<char>,
    namespace: ReferenceNamespace,
) -> Option<EncodedName> {
    if !candidates_ordered(ids, snapshot, existing, additions, order, local, imported, spelling, namespace) {
        None
    } else if exists|x: EncodedName| #[trigger] sole_candidate(ids, snapshot, existing, additions, local, imported, spelling, namespace, x) {
        let x = choose|x: EncodedName| #[trigger] sole_candidate(ids, snapshot, existing, additions, local, imported, spelling, namespace, x);
        if head_closed_over_priors(ids, namespace, x) {
            Some(x)
        } else {
            None
        }
    } else {
        None
    }
}

/// Pushing adds exactly the pushed element to the contained set.
pub proof fn lemma_push_contains<A>(s: Seq<A>, x: A)
    ensures
        forall|y: A| #[trigger] s.push(x).contains(y) <==> (s.contains(y) || y == x),
{
    assert forall|y: A| #[trigger] s.push(x).contains(y) <==> (s.contains(y) || y == x) by {
        if s.push(x).contains(y) {
            let j = choose|j: int| 0 <= j < s.push(x).len() && s.push(x)[j] == y;
            if j < s.len() {
                assert(s[j] == y);
            }
        }
        if s.contains(y) {
            let j = choose|j: int| 0 <= j < s.len() && s[j] == y;
            assert(s.push(x)[j] == y);
        }
        if y == x {
            assert(s.push(x)[s.len() as int] == y);
        }
    }
}

pub(crate) fn contains_identity(ids: &Vec<EncodedName>, id: EncodedName) -> (r: bool)
    ensures
        r == ids@.contains(id),
{
    let mut i: usize = 0;
    while i < ids.len()
        invariant
            i <= ids@.len(),
            forall|j: int| 0 <= j < i ==> ids@[j] != id,
        decreases ids@.len() - i,
    {
        if ids[i] == id {
            return true;
        }
        i = i + 1;
    }
    false
}

fn namespace_priors(priors: &BootstrapPriorVocabulary, namespace: ReferenceNamespace) -> (r: Vec<EncodedName>)
    ensures
        forall|id: EncodedName| r@.contains(id) <==> namespace_prior(priors.spec_identities(), namespace, id),
{
    match namespace {
        ReferenceNamespace::Nominal => priors.body_nominal_identities(),
        ReferenceNamespace::Shape => priors.shape_identities(),
        ReferenceNamespace::Nomos => {
            let r = vec![priors.identities().stream_nomos];
            assert(r@[0] == priors.spec_identities().stream_nomos);
            r
        },
        ReferenceNamespace::Trait => Vec::new(),
    }
}

fn head_closed_exec(priors: &BootstrapPriorVocabulary, namespace: ReferenceNamespace, identity: EncodedName) -> (r: bool)
    ensures
        r == head_closed_over_priors(priors.spec_identities(), namespace, identity),
{
    match namespace {
        ReferenceNamespace::Shape => contains_identity(&priors.shape_identities(), identity),
        ReferenceNamespace::Nomos => identity == priors.identities().stream_nomos,
        _ => true,
    }
}

fn collect_raw_candidates(
    priors: &BootstrapPriorVocabulary,
    snapshot: &TextualMetadataSnapshot,
    local: &Vec<EncodedName>,
    imported: &Vec<ImportBinding>,
    spelling: &str,
    namespace: ReferenceNamespace,
) -> (raws: Vec<EncodedName>)
    requires
        snapshot.wf(),
    ensures
        forall|id: EncodedName| #![trigger raws@.contains(id)] #![trigger raw_candidate(priors.spec_identities(), *snapshot, local@, bindings_view(imported@), spelling@, namespace, id)]
            raws@.contains(id) <==> raw_candidate(priors.spec_identities(), *snapshot, local@, bindings_view(imported@), spelling@, namespace, id),
{
    let ghost ids = priors.spec_identities();
    let mut raws: Vec<EncodedName> = Vec::new();
    let mut i: usize = 0;
    while i < local.len()
        invariant
            i <= local@.len(),
            forall|id: EncodedName| raws@.contains(id) ==> raw_candidate(ids, *snapshot, local@, bindings_view(imported@), spelling@, namespace, id),
            forall|j: int| 0 <= j < i ==> raws@.contains(#[trigger] local@[j]),
        decreases local@.len() - i,
    {
        let ghost before = raws@;
        assert(local@.contains(local@[i as int]));
        raws.push(local[i]);
        proof {
            lemma_push_contains(before, local@[i as int]);
        }
        i = i + 1;
    }
    let mut k: usize = 0;
    while k < imported.len()
        invariant
            k <= imported@.len(),
            forall|id: EncodedName| raws@.contains(id) ==> raw_candidate(ids, *snapshot, local@, bindings_view(imported@), spelling@, namespace, id),
            forall|j: int| 0 <= j < local@.len() ==> raws@.contains(#[trigger] local@[j]),
            forall|j: int| 0 <= j < k && (#[trigger] imported@[j]).name@ == spelling@ ==> raws@.contains(imported@[j].identity),
        decreases imported@.len() - k,
    {
        if str_equal(imported[k].name.as_str(), spelling) {
            let ghost before = raws@;
            assert(bindings_view(imported@)[k as int] == (imported@[k as int].name@, imported@[k as int].identity));
            assert(imported_binds(bindings_view(imported@), spelling@, imported@[k as int].identity));
            raws.push(imported[k].identity);
            proof {
                lemma_push_contains(before, imported@[k as int].identity);
            }
        }
        k = k + 1;
    }
    let prior_list = namespace_priors(priors, namespace);
    let mut p: usize = 0;
    while p < prior_list.len()
        invariant
            p <= prior_list@.len(),
            snapshot.wf(),
            forall|id: EncodedName| prior_list@.contains(id) <==> namespace_prior(ids, namespace, id),
            forall|id: EncodedName| raws@.contains(id) ==> raw_candidate(ids, *snapshot, local@, bindings_view(imported@), spelling@, namespace, id),
            forall|j: int| 0 <= j < local@.len() ==> raws@.contains(#[trigger] local@[j]),
            forall|j: int| 0 <= j < imported@.len() && (#[trigger] imported@[j]).name@ == spelling@ ==> raws@.contains(imported@[j].identity),
            forall|j: int| 0 <= j < p && snapshot.spec_spelling(#[trigger] prior_list@[j]) == Some(spelling@) ==> raws@.contains(prior_list@[j]),
        decreases prior_list@.len() - p,
    {
        let prior = prior_list[p];
        let spelled = match snapshot.spelling(prior) {
            Some(s) => str_equal(s.as_str(), spelling),
            None => false,
        };
        if spelled {
            assert(prior_list@.contains(prior));
            let ghost before = raws@;
            raws.push(prior);
            proof {
                lemma_push_contains(before, prior);
            }
        }
        p = p + 1;
    }
    proof {
        assert forall|id: EncodedName| raw_candidate(ids, *snapshot, local@, bindings_view(imported@), spelling@, namespace, id) implies raws@.contains(id) by {
            if local@.contains(id) {
                let j = choose|j: int| 0 <= j < local@.len() && local@[j] == id;
                assert(raws@.contains(local@[j]));
            } else if imported_binds(bindings_view(imported@), spelling@, id) {
                let j = choose|j: int| 0 <= j < bindings_view(imported@).len() && (#[trigger] bindings_view(imported@)[j]).0 == spelling@ && bindings_view(imported@)[j].1 == id;
                assert(bindings_view(imported@)[j] == (imported@[j].name@, imported@[j].identity));
                assert(raws@.contains(imported@[j].identity));
            } else {
                assert(prior_list@.contains(id));
                let j = choose|j: int| 0 <= j < prior_list@.len() && prior_list@[j] == id;
                assert(raws@.contains(prior_list@[j]));
            }
        }
    }
    raws
}

fn visible_candidates(
    priors: &BootstrapPriorVocabulary,
    snapshot: &TextualMetadataSnapshot,
    existing: &IdentitySchemaCatalog,
    additions: &IdentitySchemaCatalog,
    local: &Vec<EncodedName>,
    imported: &Vec<ImportBinding>,
    spelling: &str,
    namespace: ReferenceNamespace,
) -> (kept: Vec<EncodedName>)
    requires
        snapshot.wf(),
        existing.wf(),
        additions.wf(),
    ensures
        kept@.no_duplicates(),
        forall|id: EncodedName| #![trigger kept@.contains(id)] #![trigger visible_candidate(priors.spec_identities(), *snapshot, *existing, *additions, local@, bindings_view(imported@), spelling@, namespace, id)]
            kept@.contains(id) <==> visible_candidate(priors.spec_identities(), *snapshot, *existing, *additions, local@, bindings_view(imported@), spelling@, namespace, id),
{
    let ghost ids = priors.spec_identities();
    let raws = collect_raw_candidates(priors, snapshot, local, imported, spelling, namespace);
    let mut kept: Vec<EncodedName> = Vec::new();
    let mut c: usize = 0;
    while c < raws.len()
        invariant
            c <= raws@.len(),
            existing.wf(),
            additions.wf(),
            kept@.no_duplicates(),
            forall|id: EncodedName| #![trigger raws@.contains(id)] #![trigger raw_candidate(ids, *snapshot, local@, bindings_view(imported@), spelling@, namespace, id)]
                raws@.contains(id) <==> raw_candidate(ids, *snapshot, local@, bindings_view(imported@), spelling@, namespace, id),
            forall|id: EncodedName| kept@.contains(id) ==> visible_candidate(ids, *snapshot, *existing, *additions, local@, bindings_view(imported@), spelling@, namespace, id),
            forall|j: int| 0 <= j < c && visible_candidate(ids, *snapshot, *existing, *additions, local@, bindings_view(imported@), spelling@, namespace, #[trigger] raws@[j]) ==> kept@.contains(raws@[j]),
        decreases raws@.len() - c,
    {
        let id = raws[c];
        let admitted = match schema_view_get(existing, additions, id) {
            Some(schema) => {
                proof {
                    lemma_view_schema_wf(*existing, *additions, id);
                }
                namespace_admits(schema, namespace)
            },
            None => false,
        };
        if admitted && !contains_identity(&kept, id) {
            assert(raws@.contains(id));
            let ghost before = kept@;
            kept.push(id);
            proof {
                lemma_push_contains(before, id);
            }
        }
        c = c + 1;
    }
    proof {
        assert forall|id: EncodedName| visible_candidate(ids, *snapshot, *existing, *additions, local@, bindings_view(imported@), spelling@, namespace, id) implies kept@.contains(id) by {
            assert(raw_candidate(ids, *snapshot, local@, bindings_view(imported@), spelling@, namespace, id));
            assert(raws@.contains(id));
            let j = choose|j: int| 0 <= j < raws@.len() && raws@[j] == id;
            assert(visible_candidate(ids, *snapshot, *existing, *additions, local@, bindings_view(imported@), spelling@, namespace, raws@[j]));
        }
    }
    kept
}

/// Resolve a visible spelling within its syntactic namespace: gather local,
/// imported, and same-spelled prior candidates, keep those whose schema lies
/// in the namespace, and accept exactly one. Shape and Nomos heads must be
/// priors.
#[verifier::rlimit(40)]
pub fn resolve_visible_identity(
    priors: &BootstrapPriorVocabulary,
    snapshot: &TextualMetadataSnapshot,
    existing: &IdentitySchemaCatalog,
    additions: &IdentitySchemaCatalog,
    order: &CanonicalIdentityOrder,
    local: &Vec<EncodedName>,
    imported: &Vec<ImportBinding>,
    spelling: &str,
    namespace: ReferenceNamespace,
) -> (r: Result<EncodedName, BootstrapReadError>)
    requires
        snapshot.wf(),
        existing.wf(),
        additions.wf(),
        order.wf(),
    ensures
        r is Ok <==> resolution(priors.spec_identities(), *snapshot, *existing, *additions, *order, local@, bindings_view(imported@), spelling@, namespace) is Some,
        r matches Ok(id) ==> resolution(priors.spec_identities(), *snapshot, *existing, *additions, *order, local@, bindings_view(imported@), spelling@, namespace) == Some(id),
{
    let ghost ids = priors.spec_identities();
    let kept = visible_candidates(priors, snapshot, existing, additions, local, imported, spelling, namespace);
    let mut m: usize = 0;
    while m < kept.len()
        invariant
            m <= kept@.len(),
            order.wf(),
            ids == priors.spec_identities(),
            forall|j: int| 0 <= j < m ==> order.spec_contains(#[trigger] kept@[j]),
            forall|id: EncodedName| #![trigger kept@.contains(id)] #![trigger visible_candidate(ids, *snapshot, *existing, *additions, local@, bindings_view(imported@), spelling@, namespace, id)]
                kept@.contains(id) <==> visible_candidate(ids, *snapshot, *existing, *additions, local@, bindings_view(imported@), spelling@, namespace, id),
        decreases kept@.len() - m,
    {
        if !order.contains(kept[m]) {
            proof {
                assert(kept@.contains(kept@[m as int]));
                assert(visible_candidate(ids, *snapshot, *existing, *additions, local@, bindings_view(imported@), spelling@, namespace, kept@[m as int]));
                assert(!order.spec_contains(kept@[m as int]));
                assert(!candidates_ordered(ids, *snapshot, *existing, *additions, *order, local@, bindings_view(imported@), spelling@, namespace));
            }
            return Err(BootstrapReadError::MissingCanonicalIdentity(kept[m]));
        }
        m = m + 1;
    }
    proof {
        assert forall|id: EncodedName| visible_candidate(ids, *snapshot, *existing, *additions, local@, bindings_view(imported@), spelling@, namespace, id) implies order.spec_contains(id) by {
            let j = choose|j: int| 0 <= j < kept@.len() && kept@[j] == id;
            assert(order.spec_contains(kept@[j]));
        }
    }
    if kept.len() == 0 {
        proof {
            assert forall|x: EncodedName| !sole_candidate(ids, *snapshot, *existing, *additions, local@, bindings_view(imported@), spelling@, namespace, x) by {
                if sole_candidate(ids, *snapshot, *existing, *additions, local@, bindings_view(imported@), spelling@, namespace, x) {
                    assert(kept@.contains(x));
                }
            }
        }
        return Err(BootstrapReadError::UnresolvedReference { name: spelling.to_owned() });
    }
    if kept.len() > 1 {
        proof {
            assert(kept@[0] != kept@[1]);
            assert(kept@.contains(kept@[0]));
            assert(kept@.contains(kept@[1]));
            assert forall|x: EncodedName| !sole_candidate(ids, *snapshot, *existing, *additions, local@, bindings_view(imported@), spelling@, namespace, x) by {
                if sole_candidate(ids, *snapshot, *existing, *additions, local@, bindings_view(imported@), spelling@, namespace, x) {
                    assert(visible_candidate(ids, *snapshot, *existing, *additions, local@, bindings_view(imported@), spelling@, namespace, kept@[0]));
                    assert(visible_candidate(ids, *snapshot, *existing, *additions, local@, bindings_view(imported@), spelling@, namespace, kept@[1]));
                }
            }
        }
        return Err(BootstrapReadError::AmbiguousReference { name: spelling.to_owned(), identities: kept });
    }
    let identity = kept[0];
    proof {
        assert(kept@.contains(kept@[0]));
        assert forall|y: EncodedName| visible_candidate(ids, *snapshot, *existing, *additions, local@, bindings_view(imported@), spelling@, namespace, y) implies y == identity by {
            assert(kept@.contains(y));
        }
        assert(sole_candidate(ids, *snapshot, *existing, *additions, local@, bindings_view(imported@), spelling@, namespace, identity));
        let x = choose|x: EncodedName| #[trigger] sole_candidate(ids, *snapshot, *existing, *additions, local@, bindings_view(imported@), spelling@, namespace, x);
        assert(visible_candidate(ids, *snapshot, *existing, *additions, local@, bindings_view(imported@), spelling@, namespace, x));
        assert(x == identity);
    }
    if !head_closed_exec(priors, namespace, identity) {
        return match namespace {
            ReferenceNamespace::Shape => Err(BootstrapReadError::NonPriorShapeIdentity { identity }),
            _ => Err(BootstrapReadError::NonPriorNomosIdentity { identity }),
        };
    }
    Ok(identity)
}

} // verus!
