//! Validation of the exact assignment inputs that sealing consumes: every
//! planned occurrence is assigned once, every authored Stream has its two
//! generated identities, and each identity is a legitimate reuse or mint whose
//! projection in the proposed snapshot is exactly where it was authored.
use vstd::prelude::*;

use crate::identity::EncodedName;
use super::assignment::{
    assignment_for, disposition_view, generated_for, IdentityDisposition, GeneratedStreamAssignments,
    NamingAssignments,
};
use super::catalog::{
    canonical_entries_valid, is_prior_identity, paths_equal, path_view,
    same_address, str_equal, BootstrapCatalog, CanonicalIdentityEntry, CanonicalIdentityOrder, SchemaRole,
    TextualMetadataRecord, TextualMetadataSnapshot, TextualMetadataTransition,
};
use super::error::BootstrapReadError;
use super::planning::DeclarationPurpose;
use super::reader::{BootstrapReadPlan, DeclarationOccurrence, PlannedDeclaration, PlannedScope};

verus! {

/// The schema role an authored occurrence of each purpose must carry.
pub open spec fn role_for_purpose(purpose: DeclarationPurpose) -> SchemaRole {
    match purpose {
        DeclarationPurpose::Type | DeclarationPurpose::StreamInitiation => SchemaRole::Nominal { persistent: false },
        DeclarationPurpose::PersistentType => SchemaRole::Nominal { persistent: true },
        DeclarationPurpose::Variant => SchemaRole::Variant,
        DeclarationPurpose::Trait => SchemaRole::Trait,
        DeclarationPurpose::Method => SchemaRole::Method,
        DeclarationPurpose::Table => SchemaRole::Table,
    }
}

pub fn schema_role_for_purpose(purpose: DeclarationPurpose) -> (r: SchemaRole)
    ensures
        r == role_for_purpose(purpose),
{
    match purpose {
        DeclarationPurpose::Type | DeclarationPurpose::StreamInitiation => SchemaRole::Nominal { persistent: false },
        DeclarationPurpose::PersistentType => SchemaRole::Nominal { persistent: true },
        DeclarationPurpose::Variant => SchemaRole::Variant,
        DeclarationPurpose::Trait => SchemaRole::Trait,
        DeclarationPurpose::Method => SchemaRole::Method,
        DeclarationPurpose::Table => SchemaRole::Table,
    }
}

/// One identity the authority must stand behind, with where it must project.
pub ghost struct AuthorityRequest {
    pub identity: EncodedName,
    pub disposition: Option<Seq<u8>>,
    pub required: SchemaRole,
    pub lexical_owner: Option<EncodedName>,
    pub name: Option<Seq<char>>,
}

/// The identity assigned to an occurrence.
pub open spec fn assigned_identity(a: Seq<super::assignment::NamingAssignment>, occurrence: DeclarationOccurrence) -> EncodedName {
    assignment_for(a, occurrence).unwrap().encoded_name
}

/// The lexical owner an authored occurrence projects under.
pub open spec fn owner_identity(a: Seq<super::assignment::NamingAssignment>, scope: PlannedScope) -> Option<EncodedName> {
    match scope {
        PlannedScope::Module => None,
        PlannedScope::Enum(o) => Some(assigned_identity(a, o)),
        PlannedScope::Trait(o) => Some(assigned_identity(a, o)),
    }
}

pub open spec fn authored_request(a: Seq<super::assignment::NamingAssignment>, d: PlannedDeclaration) -> AuthorityRequest {
    AuthorityRequest {
        identity: assigned_identity(a, d.spec_occurrence()),
        disposition: disposition_view(assignment_for(a, d.spec_occurrence()).unwrap().disposition),
        required: role_for_purpose(d.spec_purpose()),
        lexical_owner: owner_identity(a, d.spec_scope()),
        name: Some(d.spec_spelling()),
    }
}

pub open spec fn generated_request(identity: super::assignment::AssignedIdentity) -> AuthorityRequest {
    AuthorityRequest {
        identity: identity.encoded_name,
        disposition: disposition_view(identity.disposition),
        required: SchemaRole::Nominal { persistent: false },
        lexical_owner: None,
        name: None,
    }
}

/// Authored requests in plan order, then the generated pair of each Stream
/// occurrence in plan order.
pub open spec fn authored_requests(a: Seq<super::assignment::NamingAssignment>, ds: Seq<PlannedDeclaration>) -> Seq<AuthorityRequest> {
    ds.map_values(|d: PlannedDeclaration| authored_request(a, d))
}

pub open spec fn generated_requests(g: Seq<super::assignment::GeneratedStreamAssignment>, ds: Seq<PlannedDeclaration>) -> Seq<AuthorityRequest>
    decreases ds.len(),
{
    if ds.len() == 0 {
        Seq::empty()
    } else {
        let d = ds.last();
        generated_requests(g, ds.drop_last()) + if d.spec_purpose() == DeclarationPurpose::StreamInitiation {
            let ga = generated_for(g, d.spec_occurrence()).unwrap();
            seq![generated_request(ga.initiation), generated_request(ga.termination)]
        } else {
            Seq::empty()
        }
    }
}

/// Every planned occurrence is assigned and nothing else is.
pub open spec fn assignments_exact(ds: Seq<PlannedDeclaration>, a: Seq<super::assignment::NamingAssignment>) -> bool {
    &&& forall|k: int| 0 <= k < ds.len() ==> assignment_for(a, (#[trigger] ds[k]).spec_occurrence()) is Some
    &&& forall|i: int| 0 <= i < a.len() ==> exists|k: int| 0 <= k < ds.len() && (#[trigger] ds[k]).spec_occurrence() == (#[trigger] a[i]).occurrence
}

/// The owner of every nested occurrence is assigned too.
pub open spec fn owners_assigned(ds: Seq<PlannedDeclaration>, a: Seq<super::assignment::NamingAssignment>) -> bool {
    forall|k: int| 0 <= k < ds.len() ==> match (#[trigger] ds[k]).spec_scope() {
        PlannedScope::Module => true,
        PlannedScope::Enum(o) => assignment_for(a, o) is Some,
        PlannedScope::Trait(o) => assignment_for(a, o) is Some,
    }
}

/// Every Stream occurrence has generated identities and nothing else does.
pub open spec fn generated_exact(ds: Seq<PlannedDeclaration>, g: Seq<super::assignment::GeneratedStreamAssignment>) -> bool {
    &&& forall|k: int| 0 <= k < ds.len() && (#[trigger] ds[k]).spec_purpose() == DeclarationPurpose::StreamInitiation
        ==> generated_for(g, ds[k].spec_occurrence()) is Some
    &&& forall|i: int| 0 <= i < g.len() ==> exists|k: int| 0 <= k < ds.len()
        && (#[trigger] ds[k]).spec_purpose() == DeclarationPurpose::StreamInitiation && ds[k].spec_occurrence() == (#[trigger] g[i]).source
}

/// Every planned occurrence before `k` has an authored assignment.
pub open spec fn assigned_before(ds: Seq<PlannedDeclaration>, a: Seq<super::assignment::NamingAssignment>, k: int) -> bool {
    forall|j: int| 0 <= j < k ==> assignment_for(a, (#[trigger] ds[j]).spec_occurrence()) is Some
}

/// The refusals assignment validation reports by name, in the order it checks:
/// a proposal whose before-snapshot is not the catalog metadata; the first
/// planned occurrence without an assignment, by its ordinal; an assignment for
/// an occurrence the plan does not hold.
pub open spec fn assignment_refusal<T>(
    catalog: BootstrapCatalog,
    ds: Seq<PlannedDeclaration>,
    a: Seq<super::assignment::NamingAssignment>,
    transition: TextualMetadataTransition,
    r: Result<T, BootstrapReadError>,
) -> bool {
    if !same_records(transition.spec_before().spec_records(), catalog.spec_metadata().spec_records()) {
        r == Err::<T, BootstrapReadError>(BootstrapReadError::MetadataTransitionBeforeMismatch)
    } else if !assigned_before(ds, a, ds.len() as int) {
        exists|k: int|
            0 <= k < ds.len() && #[trigger] assigned_before(ds, a, k) && assignment_for(a, ds[k].spec_occurrence())
                is None && r == Err::<T, BootstrapReadError>(
                BootstrapReadError::MissingAssignment(ds[k].spec_occurrence().spec_ordinal()),
            )
    } else if !(forall|i: int| 0 <= i < a.len() ==> exists|k: int| 0 <= k < ds.len()
        && (#[trigger] ds[k]).spec_occurrence() == (#[trigger] a[i]).occurrence) {
        r == Err::<T, BootstrapReadError>(BootstrapReadError::ExtraAssignment)
    } else {
        true
    }
}

pub open spec fn requested_identities_distinct(reqs: Seq<AuthorityRequest>) -> bool {
    forall|i: int, j: int| 0 <= i < j < reqs.len() ==> (#[trigger] reqs[i]).identity != (#[trigger] reqs[j]).identity
}

/// A reuse names a catalogued, non-prior, canonically ordered identity of the
/// required role; a mint names an identity unknown to every authority.
pub open spec fn authority_admits(catalog: BootstrapCatalog, req: AuthorityRequest) -> bool {
    match req.disposition {
        None => {
            &&& catalog.spec_schemas().spec_get(req.identity) matches Some(s) && s.spec_admits(req.required)
            &&& !is_prior_identity(catalog.spec_priors(), req.identity)
            &&& catalog.spec_canonical_order().spec_contains(req.identity)
        },
        Some(_) => {
            &&& !catalog.spec_schemas().spec_contains(req.identity)
            &&& !catalog.spec_metadata().spec_has(req.identity)
            &&& !catalog.spec_canonical_order().spec_contains(req.identity)
        },
    }
}

/// The proposed snapshot projects the identity in the current module, under
/// the expected lexical owner, with the authored spelling where there is one.
pub open spec fn projection_matches(catalog: BootstrapCatalog, after: TextualMetadataSnapshot, req: AuthorityRequest) -> bool {
    after.spec_record(req.identity) matches Some(rec) && {
        &&& path_view(rec.address.module@) == path_view(catalog.spec_current_module())
        &&& rec.address.lexical_owner == req.lexical_owner
        &&& (req.name matches Some(n) ==> rec.address.visible_name@ == n)
    }
}

pub open spec fn is_minted(reqs: Seq<AuthorityRequest>, identity: EncodedName) -> bool {
    exists|i: int| 0 <= i < reqs.len() && (#[trigger] reqs[i]).identity == identity && reqs[i].disposition is Some
}

/// Every identity of the proposed snapshot is catalogued or minted here.
pub open spec fn snapshot_covered(catalog: BootstrapCatalog, after: TextualMetadataSnapshot, reqs: Seq<AuthorityRequest>) -> bool {
    forall|i: int| 0 <= i < after.spec_records().len() ==> {
        let id = (#[trigger] after.spec_records()[i]).encoded_name;
        catalog.spec_schemas().spec_contains(id) || is_minted(reqs, id)
    }
}

/// The (identity, bytes) pairs minted by the requests, in order.
pub open spec fn minted_pairs(reqs: Seq<AuthorityRequest>) -> Seq<(EncodedName, Seq<u8>)>
    decreases reqs.len(),
{
    if reqs.len() == 0 {
        Seq::empty()
    } else {
        minted_pairs(reqs.drop_last()) + match reqs.last().disposition {
            Some(bytes) => seq![(reqs.last().identity, bytes)],
            None => Seq::empty(),
        }
    }
}

/// The (identity, bytes) pairs of canonical entries.
pub open spec fn entry_pairs(entries: Seq<CanonicalIdentityEntry>) -> Seq<(EncodedName, Seq<u8>)> {
    entries.map_values(|e: CanonicalIdentityEntry| (e.identity, e.bytes@))
}

/// Canonical pairs: nonempty bytes, no identity twice, no bytes twice.
pub open spec fn canonical_pairs_valid(p: Seq<(EncodedName, Seq<u8>)>) -> bool {
    &&& forall|i: int| 0 <= i < p.len() ==> (#[trigger] p[i]).1.len() > 0
    &&& forall|i: int, j: int| 0 <= i < p.len() && 0 <= j < p.len() && i != j ==> (#[trigger] p[i]).0 != (#[trigger] p[j]).0
    &&& forall|i: int, j: int| 0 <= i < p.len() && 0 <= j < p.len() && i != j ==> (#[trigger] p[i]).1 != (#[trigger] p[j]).1
}

/// Two snapshots hold the same records in the same order.
pub open spec fn same_records(a: Seq<TextualMetadataRecord>, b: Seq<TextualMetadataRecord>) -> bool {
    &&& a.len() == b.len()
    &&& forall|i: int| 0 <= i < a.len() ==> same_address((#[trigger] a[i]).address, b[i].address) && a[i].encoded_name == b[i].encoded_name
}

/// Every assignment-independent and assignment-dependent law that sealing
/// requires of its inputs, except the canonical extension itself.
pub open spec fn assignment_inputs_valid(
    catalog: BootstrapCatalog,
    ds: Seq<PlannedDeclaration>,
    a: Seq<super::assignment::NamingAssignment>,
    g: Seq<super::assignment::GeneratedStreamAssignment>,
    transition: TextualMetadataTransition,
) -> bool {
    let reqs = authored_requests(a, ds) + generated_requests(g, ds);
    &&& same_records(transition.spec_before().spec_records(), catalog.spec_metadata().spec_records())
    &&& assignments_exact(ds, a)
    &&& owners_assigned(ds, a)
    &&& generated_exact(ds, g)
    &&& requested_identities_distinct(reqs)
    &&& forall|i: int| 0 <= i < reqs.len() ==> authority_admits(catalog, #[trigger] reqs[i])
    &&& forall|i: int| 0 <= i < reqs.len() ==> projection_matches(catalog, transition.spec_after(), #[trigger] reqs[i])
    &&& snapshot_covered(catalog, transition.spec_after(), reqs)
}

/// Valid assignment inputs project every authored occurrence of the plan in
/// the proposed snapshot under its assigned identity: in the current module,
/// under the identity assigned to its owner (none at module scope), and with
/// exactly the spelling it was authored with.
pub proof fn lemma_authored_projection(
    catalog: BootstrapCatalog,
    ds: Seq<PlannedDeclaration>,
    a: Seq<super::assignment::NamingAssignment>,
    g: Seq<super::assignment::GeneratedStreamAssignment>,
    transition: TextualMetadataTransition,
    k: int,
)
    requires
        assignment_inputs_valid(catalog, ds, a, g, transition),
        0 <= k < ds.len(),
    ensures
        transition.spec_after().spec_record(assigned_identity(a, ds[k].spec_occurrence())) matches Some(rec)
            && rec.address.visible_name@ == ds[k].spec_spelling()
            && path_view(rec.address.module@) == path_view(catalog.spec_current_module())
            && rec.address.lexical_owner == owner_identity(a, ds[k].spec_scope()),
{
    let reqs = authored_requests(a, ds) + generated_requests(g, ds);
    assert(reqs[k] == authored_request(a, ds[k]));
    assert(projection_matches(catalog, transition.spec_after(), reqs[k]));
}

/// Every authored occurrence is projected in `after` under its assigned
/// identity, in the current module, under its assigned owner, with its
/// authored spelling.
pub open spec fn authored_projected(
    catalog: BootstrapCatalog,
    ds: Seq<PlannedDeclaration>,
    a: Seq<super::assignment::NamingAssignment>,
    after: TextualMetadataSnapshot,
) -> bool {
    forall|k: int| 0 <= k < ds.len() ==> (after.spec_record(assigned_identity(a, (#[trigger] ds[k]).spec_occurrence())) matches Some(rec)
        && rec.address.visible_name@ == ds[k].spec_spelling()
        && path_view(rec.address.module@) == path_view(catalog.spec_current_module())
        && rec.address.lexical_owner == owner_identity(a, ds[k].spec_scope()))
}

pub proof fn lemma_inputs_project_authored(
    catalog: BootstrapCatalog,
    ds: Seq<PlannedDeclaration>,
    a: Seq<super::assignment::NamingAssignment>,
    g: Seq<super::assignment::GeneratedStreamAssignment>,
    transition: TextualMetadataTransition,
)
    requires
        assignment_inputs_valid(catalog, ds, a, g, transition),
    ensures
        authored_projected(catalog, ds, a, transition.spec_after()),
{
    assert forall|k: int| 0 <= k < ds.len() implies (transition.spec_after().spec_record(assigned_identity(a, (#[trigger] ds[k]).spec_occurrence())) matches Some(rec)
        && rec.address.visible_name@ == ds[k].spec_spelling()
        && path_view(rec.address.module@) == path_view(catalog.spec_current_module())
        && rec.address.lexical_owner == owner_identity(a, ds[k].spec_scope())) by {
        lemma_authored_projection(catalog, ds, a, g, transition, k);
    }
}

/// All requests of a seal, in validation order.
pub open spec fn seal_requests(
    ds: Seq<PlannedDeclaration>,
    a: Seq<super::assignment::NamingAssignment>,
    g: Seq<super::assignment::GeneratedStreamAssignment>,
) -> Seq<AuthorityRequest> {
    authored_requests(a, ds) + generated_requests(g, ds)
}


/// Canonical entries are valid exactly when their pairs are.
pub proof fn lemma_entry_pairs_valid(s: Seq<CanonicalIdentityEntry>)
    ensures
        canonical_entries_valid(s) <==> canonical_pairs_valid(entry_pairs(s)),
{
    let p = entry_pairs(s);
    if canonical_entries_valid(s) {
        assert forall|i: int, j: int| 0 <= i < p.len() && 0 <= j < p.len() && i != j implies (#[trigger] p[i]).0 != (#[trigger] p[j]).0 by {
            assert(s[i].identity != s[j].identity);
        }
        assert forall|i: int, j: int| 0 <= i < p.len() && 0 <= j < p.len() && i != j implies (#[trigger] p[i]).1 != (#[trigger] p[j]).1 by {
            assert(s[i].bytes@ != s[j].bytes@);
        }
        assert forall|i: int| 0 <= i < p.len() implies (#[trigger] p[i]).1.len() > 0 by {
            assert(s[i].bytes@.len() > 0);
        }
    }
    if canonical_pairs_valid(p) {
        assert forall|i: int, j: int| 0 <= i < s.len() && 0 <= j < s.len() && i != j implies (#[trigger] s[i]).identity != (#[trigger] s[j]).identity by {
            assert(p[i].0 != p[j].0);
        }
        assert forall|i: int, j: int| 0 <= i < s.len() && 0 <= j < s.len() && i != j implies (#[trigger] s[i]).bytes@ != (#[trigger] s[j]).bytes@ by {
            assert(p[i].1 != p[j].1);
        }
        assert forall|i: int| 0 <= i < s.len() implies (#[trigger] s[i]).bytes@.len() > 0 by {
            assert(p[i].1.len() > 0);
        }
    }
}

/// One identity request, executable form.
struct RequestExec {
    identity: EncodedName,
    disposition: IdentityDisposition,
    required: SchemaRole,
    lexical_owner: Option<EncodedName>,
    name: Option<String>,
}

spec fn request_view(r: RequestExec) -> AuthorityRequest {
    AuthorityRequest {
        identity: r.identity,
        disposition: disposition_view(r.disposition),
        required: r.required,
        lexical_owner: r.lexical_owner,
        name: match r.name {
            Some(n) => Some(n@),
            None => None,
        },
    }
}

spec fn requests_view(rs: Seq<RequestExec>) -> Seq<AuthorityRequest> {
    rs.map_values(|r: RequestExec| request_view(r))
}

fn same_owner(a: Option<EncodedName>, b: Option<EncodedName>) -> (r: bool)
    ensures
        r == (a == b),
{
    match (a, b) {
        (None, None) => true,
        (Some(x), Some(y)) => x == y,
        _ => false,
    }
}

pub(crate) fn same_records_exec(a: &[TextualMetadataRecord], b: &[TextualMetadataRecord]) -> (r: bool)
    ensures
        r == same_records(a@, b@),
{
    if a.len() != b.len() {
        return false;
    }
    let mut i: usize = 0;
    while i < a.len()
        invariant
            a@.len() == b@.len(),
            i <= a@.len(),
            forall|k: int| 0 <= k < i ==> same_address((#[trigger] a@[k]).address, b@[k].address) && a@[k].encoded_name == b@[k].encoded_name,
        decreases a@.len() - i,
    {
        let x = &a[i];
        let y = &b[i];
        if !paths_equal(x.address.module.as_slice(), y.address.module.as_slice())
            || !same_owner(x.address.lexical_owner, y.address.lexical_owner)
            || !str_equal(x.address.visible_name.as_str(), y.address.visible_name.as_str())
            || x.encoded_name != y.encoded_name {
            return false;
        }
        i = i + 1;
    }
    true
}

fn check_authority(catalog: &BootstrapCatalog, req: &RequestExec) -> (r: Result<(), BootstrapReadError>)
    requires
        catalog.wf(),
    ensures
        r is Ok <==> authority_admits(*catalog, request_view(*req)),
{
    let identity = req.identity;
    match &req.disposition {
        IdentityDisposition::Existing => match catalog.schemas().get(identity) {
            None => Err(BootstrapReadError::ExistingAssignmentMissing { identity }),
            Some(schema) => {
                if catalog.priors().is_fixed_identity(identity) || !schema.admits(req.required) {
                    Err(BootstrapReadError::ExistingAssignmentNotReusable { identity, required: req.required })
                } else if !catalog.canonical_order().contains(identity) {
                    Err(BootstrapReadError::MissingCanonicalIdentity(identity))
                } else {
                    Ok(())
                }
            },
        },
        IdentityDisposition::New { .. } => {
            if catalog.schemas().contains(identity) || catalog.metadata().contains(identity)
                || catalog.canonical_order().contains(identity) {
                Err(BootstrapReadError::NewAssignmentAlreadyExists { identity })
            } else {
                Ok(())
            }
        },
    }
}

fn check_projection(catalog: &BootstrapCatalog, after: &TextualMetadataSnapshot, req: &RequestExec) -> (r: Result<(), BootstrapReadError>)
    requires
        catalog.wf(),
        after.wf(),
    ensures
        r is Ok <==> projection_matches(*catalog, *after, request_view(*req)),
{
    let identity = req.identity;
    match after.record(identity) {
        None => Err(BootstrapReadError::MissingMetadataIdentity(identity)),
        Some(record) => {
            let same_module = paths_equal(record.address.module.as_slice(), catalog.current_module());
            proof {
                super::catalog::lemma_same_path_view(record.address.module@, catalog.spec_current_module());
            }
            let same_name = match &req.name {
                Some(n) => str_equal(record.address.visible_name.as_str(), n.as_str()),
                None => true,
            };
            if !same_module || !same_owner(record.address.lexical_owner, req.lexical_owner) || !same_name {
                Err(BootstrapReadError::MetadataProjectionMismatch { identity })
            } else {
                Ok(())
            }
        },
    }
}


/// Collect every authority request of a seal in validation order.
fn collect_requests(
    plan: &BootstrapReadPlan,
    assignments: &NamingAssignments,
    generated: &GeneratedStreamAssignments,
) -> (r: Result<Vec<RequestExec>, BootstrapReadError>)
    requires
        assignments.wf(),
        generated.wf(),
        assignments_exact(plan.spec_declarations(), assignments.spec_assignments()),
        generated_exact(plan.spec_declarations(), generated.spec_assignments()),
    ensures
        r is Ok <==> owners_assigned(plan.spec_declarations(), assignments.spec_assignments()),
        r matches Ok(rs) ==> requests_view(rs@) == seal_requests(plan.spec_declarations(), assignments.spec_assignments(), generated.spec_assignments()),
{
    let ghost ds = plan.spec_declarations();
    let ghost a = assignments.spec_assignments();
    let ghost g = generated.spec_assignments();
    let decls = plan.declarations();
    let mut out: Vec<RequestExec> = Vec::new();
    let mut k: usize = 0;
    proof {
        assert(requests_view(out@) =~= authored_requests(a, ds.subrange(0, 0)));
    }
    while k < decls.len()
        invariant
            decls@ == ds,
            ds == plan.spec_declarations(),
            a == assignments.spec_assignments(),
            g == generated.spec_assignments(),
            assignments.wf(),
            assignments_exact(ds, a),
            k <= ds.len(),
            requests_view(out@) == authored_requests(a, ds.subrange(0, k as int)),
            forall|j: int| 0 <= j < k ==> match (#[trigger] ds[j]).spec_scope() {
                PlannedScope::Module => true,
                PlannedScope::Enum(o) => assignment_for(a, o) is Some,
                PlannedScope::Trait(o) => assignment_for(a, o) is Some,
            },
        decreases ds.len() - k,
    {
        let d = &decls[k];
        let assignment = match assignments.get(d.occurrence()) {
            Some(assignment) => assignment,
            None => {
                return Err(BootstrapReadError::MissingAssignment(d.occurrence().ordinal()));
            },
        };
        let lexical_owner = match d.scope() {
            PlannedScope::Module => None,
            PlannedScope::Enum(o) | PlannedScope::Trait(o) => match assignments.get(o) {
                Some(owner) => Some(owner.encoded_name),
                None => {
                    proof {
                        assert(!owners_assigned(ds, a));
                    }
                    return Err(BootstrapReadError::MissingAssignment(o.ordinal()));
                },
            },
        };
        let req = RequestExec {
            identity: assignment.encoded_name,
            disposition: assignment.disposition.duplicate(),
            required: schema_role_for_purpose(d.purpose()),
            lexical_owner,
            name: Some(d.spelling().to_owned()),
        };
        proof {
            assert(request_view(req) == authored_request(a, ds[k as int]));
            assert(ds.subrange(0, k + 1) =~= ds.subrange(0, k as int).push(ds[k as int]));
            assert(requests_view(out@.push(req)) =~= requests_view(out@).push(request_view(req)));
            assert(authored_requests(a, ds.subrange(0, k + 1)) =~= authored_requests(a, ds.subrange(0, k as int)).push(authored_request(a, ds[k as int])));
        }
        out.push(req);
        k = k + 1;
    }
    let ghost authored = requests_view(out@);
    proof {
        assert(ds.subrange(0, ds.len() as int) =~= ds);
        assert(generated_requests(g, ds.subrange(0, 0)) =~= Seq::<AuthorityRequest>::empty());
        assert(authored + Seq::<AuthorityRequest>::empty() =~= authored);
    }
    let mut k: usize = 0;
    while k < decls.len()
        invariant
            decls@ == ds,
            ds == plan.spec_declarations(),
            a == assignments.spec_assignments(),
            g == generated.spec_assignments(),
            generated.wf(),
            generated_exact(ds, g),
            k <= ds.len(),
            authored == authored_requests(a, ds),
            requests_view(out@) == authored + generated_requests(g, ds.subrange(0, k as int)),
        decreases ds.len() - k,
    {
        let d = &decls[k];
        proof {
            assert(ds.subrange(0, k + 1).drop_last() =~= ds.subrange(0, k as int));
            assert(ds.subrange(0, k + 1).last() == ds[k as int]);
        }
        match d.purpose() {
            DeclarationPurpose::StreamInitiation => {
                let ga = match generated.get(d.occurrence()) {
                    Some(ga) => ga,
                    None => {
                        return Err(BootstrapReadError::MissingGeneratedStreamAssignment(d.occurrence().ordinal()));
                    },
                };
                let init = RequestExec {
                    identity: ga.initiation.encoded_name,
                    disposition: ga.initiation.disposition.duplicate(),
                    required: SchemaRole::Nominal { persistent: false },
                    lexical_owner: None,
                    name: None,
                };
                let term = RequestExec {
                    identity: ga.termination.encoded_name,
                    disposition: ga.termination.disposition.duplicate(),
                    required: SchemaRole::Nominal { persistent: false },
                    lexical_owner: None,
                    name: None,
                };
                proof {
                    let before = requests_view(out@);
                    assert(request_view(init) == generated_request(ga.initiation));
                    assert(request_view(term) == generated_request(ga.termination));
                    assert(requests_view(out@.push(init).push(term)) =~= before.push(request_view(init)).push(request_view(term)));
                    assert(authored + generated_requests(g, ds.subrange(0, k + 1))
                        =~= before.push(request_view(init)).push(request_view(term)));
                }
                out.push(init);
                out.push(term);
            },
            _ => {
                proof {
                    assert(authored + generated_requests(g, ds.subrange(0, k + 1)) =~= requests_view(out@));
                }
            },
        }
        k = k + 1;
    }
    proof {
        assert(ds.subrange(0, ds.len() as int) =~= ds);
    }
    Ok(out)
}


fn occurrence_planned(decls: &[PlannedDeclaration], occurrence: DeclarationOccurrence, streams_only: bool) -> (r: bool)
    ensures
        r == exists|k: int| 0 <= k < decls@.len() && (#[trigger] decls@[k]).spec_occurrence() == occurrence
            && (streams_only ==> decls@[k].spec_purpose() == DeclarationPurpose::StreamInitiation),
{
    let mut k: usize = 0;
    while k < decls.len()
        invariant
            k <= decls@.len(),
            forall|j: int| 0 <= j < k ==> !((#[trigger] decls@[j]).spec_occurrence() == occurrence
                && (streams_only ==> decls@[j].spec_purpose() == DeclarationPurpose::StreamInitiation)),
        decreases decls@.len() - k,
    {
        if decls[k].occurrence() == occurrence {
            if !streams_only {
                return true;
            }
            match decls[k].purpose() {
                DeclarationPurpose::StreamInitiation => {
                    return true;
                },
                _ => {},
            }
        }
        k = k + 1;
    }
    false
}

/// Check the exact assignment inputs of a seal and return the canonical
/// order extended by every minted identity, in request order.
#[verifier::rlimit(40)]
#[verifier::loop_isolation(false)]
pub fn validate_assignment_inputs(
    catalog: &BootstrapCatalog,
    plan: &BootstrapReadPlan,
    assignments: &NamingAssignments,
    generated: &GeneratedStreamAssignments,
    transition: &TextualMetadataTransition,
) -> (r: Result<CanonicalIdentityOrder, BootstrapReadError>)
    requires
        catalog.wf(),
        assignments.wf(),
        generated.wf(),
        transition.wf(),
    ensures
        r is Ok <==> assignment_inputs_valid(*catalog, plan.spec_declarations(), assignments.spec_assignments(), generated.spec_assignments(), *transition)
            && canonical_pairs_valid(entry_pairs(catalog.spec_canonical_order().spec_entries())
                + minted_pairs(seal_requests(plan.spec_declarations(), assignments.spec_assignments(), generated.spec_assignments()))),
        r matches Ok(o) ==> o.wf() && entry_pairs(o.spec_entries()) == entry_pairs(catalog.spec_canonical_order().spec_entries())
            + minted_pairs(seal_requests(plan.spec_declarations(), assignments.spec_assignments(), generated.spec_assignments())),
        assignment_refusal(*catalog, plan.spec_declarations(), assignments.spec_assignments(), *transition, r),
{
    let ghost ds = plan.spec_declarations();
    let ghost a = assignments.spec_assignments();
    let ghost g = generated.spec_assignments();
    if !same_records_exec(transition.before().records(), catalog.metadata().records()) {
        return Err(BootstrapReadError::MetadataTransitionBeforeMismatch);
    }
    let decls = plan.declarations();
    let mut k: usize = 0;
    while k < decls.len()
        invariant
            decls@ == ds,
            a == assignments.spec_assignments(),
            assignments.wf(),
            k <= ds.len(),
            forall|j: int| 0 <= j < k ==> assignment_for(a, (#[trigger] ds[j]).spec_occurrence()) is Some,
        decreases ds.len() - k,
    {
        if assignments.get(decls[k].occurrence()).is_none() {
            proof {
                assert(assigned_before(ds, a, k as int));
                assert(!assigned_before(ds, a, ds.len() as int));
            }
            return Err(BootstrapReadError::MissingAssignment(decls[k].occurrence().ordinal()));
        }
        k = k + 1;
    }
    let all = assignments.assignments();
    let mut i: usize = 0;
    while i < all.len()
        invariant
            decls@ == ds,
            all@ == a,
            i <= a.len(),
            forall|j: int| 0 <= j < i ==> exists|k: int| 0 <= k < ds.len() && (#[trigger] ds[k]).spec_occurrence() == (#[trigger] a[j]).occurrence,
        decreases a.len() - i,
    {
        if !occurrence_planned(decls, all[i].occurrence, false) {
            proof {
                assert(!(exists|k: int| 0 <= k < ds.len() && (#[trigger] ds[k]).spec_occurrence() == a[i as int].occurrence));
            }
            return Err(BootstrapReadError::ExtraAssignment);
        }
        i = i + 1;
    }
    let mut k: usize = 0;
    while k < decls.len()
        invariant
            decls@ == ds,
            g == generated.spec_assignments(),
            generated.wf(),
            k <= ds.len(),
            forall|j: int| 0 <= j < k && (#[trigger] ds[j]).spec_purpose() == DeclarationPurpose::StreamInitiation
                ==> generated_for(g, ds[j].spec_occurrence()) is Some,
        decreases ds.len() - k,
    {
        match decls[k].purpose() {
            DeclarationPurpose::StreamInitiation => {
                if generated.get(decls[k].occurrence()).is_none() {
                    return Err(BootstrapReadError::MissingGeneratedStreamAssignment(decls[k].occurrence().ordinal()));
                }
            },
            _ => {},
        }
        k = k + 1;
    }
    let gall = generated.assignments();
    let mut i: usize = 0;
    while i < gall.len()
        invariant
            decls@ == ds,
            gall@ == g,
            i <= g.len(),
            forall|j: int| 0 <= j < i ==> exists|k: int| 0 <= k < ds.len()
                && (#[trigger] ds[k]).spec_purpose() == DeclarationPurpose::StreamInitiation && ds[k].spec_occurrence() == (#[trigger] g[j]).source,
        decreases g.len() - i,
    {
        if !occurrence_planned(decls, gall[i].source, true) {
            return Err(BootstrapReadError::ExtraGeneratedStreamAssignment);
        }
        i = i + 1;
    }
    let requests = match collect_requests(plan, assignments, generated) {
        Ok(requests) => requests,
        Err(e) => {
            return Err(e);
        },
    };
    let ghost rv = requests_view(requests@);
    let after = transition.after();
    let mut used: Vec<EncodedName> = Vec::new();
    let mut minted: Vec<EncodedName> = Vec::new();
    let mut additions: Vec<CanonicalIdentityEntry> = Vec::new();
    let mut i: usize = 0;
    proof {
        assert(rv.subrange(0, 0) =~= Seq::<AuthorityRequest>::empty());
        assert(entry_pairs(additions@) =~= Seq::<(EncodedName, Seq<u8>)>::empty());
    }
    while i < requests.len()
        invariant
            rv == requests_view(requests@),
            rv.len() == requests@.len(),
            catalog.wf(),
            after.wf(),
            *after == transition.spec_after(),
            i <= rv.len(),
            used@.len() == i,
            forall|j: int| 0 <= j < i ==> used@[j] == (#[trigger] rv[j]).identity,
            requested_identities_distinct(rv.subrange(0, i as int)),
            forall|j: int| 0 <= j < i ==> authority_admits(*catalog, #[trigger] rv[j]),
            forall|j: int| 0 <= j < i ==> projection_matches(*catalog, *after, #[trigger] rv[j]),
            forall|id: EncodedName| minted@.contains(id) <==> is_minted(rv.subrange(0, i as int), id),
            entry_pairs(additions@) == minted_pairs(rv.subrange(0, i as int)),
        decreases rv.len() - i,
    {
        let req = &requests[i];
        let identity = req.identity;
        proof {
            assert(rv[i as int] == request_view(*req));
        }
        if super::resolution::contains_identity(&used, identity) {
            proof {
                let j = choose|j: int| 0 <= j < used@.len() && used@[j] == identity;
                assert(rv.subrange(0, i + 1)[j].identity == rv.subrange(0, i + 1)[i as int].identity);
                assert(!requested_identities_distinct(rv.subrange(0, i + 1)));
                assert(!requested_identities_distinct(rv)) by {
                    assert(rv[j].identity == rv[i as int].identity);
                }
            }
            return Err(BootstrapReadError::AssignedIdentityCollision { identity });
        }
        if let Err(e) = check_authority(catalog, req) {
            return Err(e);
        }
        if let Err(e) = check_projection(catalog, after, req) {
            return Err(e);
        }
        let ghost prefix = rv.subrange(0, i as int);
        let ghost next = rv.subrange(0, i + 1);
        proof {
            assert(next.drop_last() =~= prefix);
            assert(next.last() == rv[i as int]);
            super::resolution::lemma_push_contains(used@, identity);
            assert forall|x: int, y: int| 0 <= x < y < next.len() implies (#[trigger] next[x]).identity != (#[trigger] next[y]).identity by {
                if y < i {
                    assert(next[x] == prefix[x] && next[y] == prefix[y]);
                } else {
                    assert(used@[x] == rv[x].identity);
                    assert(used@.contains(rv[x].identity));
                }
            }
        }
        used.push(identity);
        match &req.disposition {
            IdentityDisposition::New { canonical_bytes } => {
                proof {
                    super::resolution::lemma_push_contains(minted@, identity);
                    assert forall|id: EncodedName| minted@.push(identity).contains(id) <==> is_minted(next, id) by {
                        if is_minted(next, id) {
                            let w = choose|w: int| 0 <= w < next.len() && (#[trigger] next[w]).identity == id && next[w].disposition is Some;
                            if w < i {
                                assert(prefix[w] == next[w]);
                            }
                        }
                        if is_minted(prefix, id) {
                            let w = choose|w: int| 0 <= w < prefix.len() && (#[trigger] prefix[w]).identity == id && prefix[w].disposition is Some;
                            assert(next[w] == prefix[w]);
                        }
                        if id == identity {
                            assert(next[i as int].identity == id);
                        }
                    }
                }
                let entry = CanonicalIdentityEntry { identity, bytes: canonical_bytes.clone() };
                proof {
                    assert(entry_pairs(additions@.push(entry)) =~= entry_pairs(additions@).push((identity, canonical_bytes@)));
                    assert(minted_pairs(next) =~= minted_pairs(prefix) + seq![(identity, canonical_bytes@)]);
                }
                minted.push(identity);
                additions.push(entry);
            },
            IdentityDisposition::Existing => {
                proof {
                    assert forall|id: EncodedName| minted@.contains(id) <==> is_minted(next, id) by {
                        if is_minted(next, id) {
                            let w = choose|w: int| 0 <= w < next.len() && (#[trigger] next[w]).identity == id && next[w].disposition is Some;
                            if w < i {
                                assert(prefix[w] == next[w]);
                            }
                        }
                        if is_minted(prefix, id) {
                            let w = choose|w: int| 0 <= w < prefix.len() && (#[trigger] prefix[w]).identity == id && prefix[w].disposition is Some;
                            assert(next[w] == prefix[w]);
                        }
                    }
                    assert(minted_pairs(next) =~= minted_pairs(prefix) + Seq::<(EncodedName, Seq<u8>)>::empty());
                }
            },
        }
        i = i + 1;
    }
    proof {
        assert(rv.subrange(0, rv.len() as int) =~= rv);
    }
    let records = after.records();
    let mut i: usize = 0;
    while i < records.len()
        invariant
            records@ == after.spec_records(),
            catalog.wf(),
            i <= records@.len(),
            forall|id: EncodedName| minted@.contains(id) <==> is_minted(rv, id),
            forall|j: int| 0 <= j < i ==> {
                let id = (#[trigger] records@[j]).encoded_name;
                catalog.spec_schemas().spec_contains(id) || is_minted(rv, id)
            },
        decreases records@.len() - i,
    {
        let identity = records[i].encoded_name;
        if !catalog.schemas().contains(identity) && !super::resolution::contains_identity(&minted, identity) {
            return Err(BootstrapReadError::ExtraMetadataIdentity(identity));
        }
        i = i + 1;
    }
    let ghost base = catalog.spec_canonical_order().spec_entries();
    let r = catalog.canonical_order().extended(additions);
    proof {
        assert(entry_pairs(base + additions@) =~= entry_pairs(base) + entry_pairs(additions@));
        lemma_entry_pairs_valid(base + additions@);
        if r is Ok {
            let o = r.unwrap();
            assert(entry_pairs(o.spec_entries()) =~= entry_pairs(base + additions@));
            lemma_entry_pairs_valid(o.spec_entries());
        }
    }
    r
}


/// A request that mints its identity.
pub open spec fn mints(req: AuthorityRequest) -> bool {
    req.disposition is Some
}

/// The (identity, role) schemas minted by the requests, in order.
pub open spec fn minted_schemas(reqs: Seq<AuthorityRequest>) -> Seq<(EncodedName, SchemaRole)>
    decreases reqs.len(),
{
    if reqs.len() == 0 {
        Seq::empty()
    } else {
        minted_schemas(reqs.drop_last()) + if mints(reqs.last()) {
            seq![(reqs.last().identity, reqs.last().required)]
        } else {
            Seq::empty()
        }
    }
}

/// Minted schemas come from minting requests, and distinct requests mint
/// distinct identities.
proof fn lemma_minted_schemas_from(reqs: Seq<AuthorityRequest>)
    ensures
        forall|i: int| 0 <= i < minted_schemas(reqs).len() ==> exists|j: int| 0 <= j < reqs.len()
            && (#[trigger] reqs[j]).identity == (#[trigger] minted_schemas(reqs)[i]).0 && mints(reqs[j]),
        requested_identities_distinct(reqs) ==> forall|x: int, y: int| 0 <= x < y < minted_schemas(reqs).len()
            ==> (#[trigger] minted_schemas(reqs)[x]).0 != (#[trigger] minted_schemas(reqs)[y]).0,
    decreases reqs.len(),
{
    if reqs.len() > 0 {
        let prefix = reqs.drop_last();
        lemma_minted_schemas_from(prefix);
        let m = minted_schemas(reqs);
        let mp = minted_schemas(prefix);
        assert forall|i: int| 0 <= i < m.len() implies exists|j: int| 0 <= j < reqs.len()
            && (#[trigger] reqs[j]).identity == (#[trigger] m[i]).0 && mints(reqs[j]) by {
            if i < mp.len() {
                let j = choose|j: int| 0 <= j < prefix.len() && (#[trigger] prefix[j]).identity == mp[i].0 && mints(prefix[j]);
                assert(reqs[j] == prefix[j]);
            } else {
                assert(reqs[reqs.len() - 1].identity == m[i].0);
            }
        }
        if requested_identities_distinct(reqs) {
            assert(requested_identities_distinct(prefix)) by {
                assert forall|x: int, y: int| 0 <= x < y < prefix.len() implies (#[trigger] prefix[x]).identity != (#[trigger] prefix[y]).identity by {
                    assert(prefix[x] == reqs[x] && prefix[y] == reqs[y]);
                }
            }
            assert forall|x: int, y: int| 0 <= x < y < m.len() implies (#[trigger] m[x]).0 != (#[trigger] m[y]).0 by {
                if y >= mp.len() {
                    let j = choose|j: int| 0 <= j < prefix.len() && (#[trigger] prefix[j]).identity == mp[x].0 && mints(prefix[j]);
                    assert(reqs[j] == prefix[j]);
                    assert(m[y].0 == reqs[reqs.len() - 1].identity);
                } else {
                    assert(m[x] == mp[x] && m[y] == mp[y]);
                }
            }
        }
    }
}

/// The schema catalog of every minted identity, in request order, each
/// admitting exactly the role its request requires.
pub fn schema_additions(
    plan: &BootstrapReadPlan,
    assignments: &NamingAssignments,
    generated: &GeneratedStreamAssignments,
) -> (r: Result<super::catalog::IdentitySchemaCatalog, BootstrapReadError>)
    requires
        assignments.wf(),
        generated.wf(),
        assignments_exact(plan.spec_declarations(), assignments.spec_assignments()),
        generated_exact(plan.spec_declarations(), generated.spec_assignments()),
        owners_assigned(plan.spec_declarations(), assignments.spec_assignments()),
        requested_identities_distinct(seal_requests(plan.spec_declarations(), assignments.spec_assignments(), generated.spec_assignments())),
    ensures
        ({
            let reqs = seal_requests(plan.spec_declarations(), assignments.spec_assignments(), generated.spec_assignments());
            let m = minted_schemas(reqs);
            &&& r is Ok <==> forall|i: int| 0 <= i < reqs.len() && mints(#[trigger] reqs[i])
                ==> reqs[i].identity.root == crate::identity::VocabularyRoot::Universal
            &&& r matches Ok(c) ==> c.wf() && c.spec_entries().len() == m.len()
                && forall|k: int| 0 <= k < m.len() ==> (#[trigger] c.spec_entries()[k]).spec_identity() == m[k].0
                    && forall|role: SchemaRole| c.spec_entries()[k].spec_admits(role) <==> role == m[k].1
        }),
{
    let requests = match collect_requests(plan, assignments, generated) {
        Ok(requests) => requests,
        Err(e) => {
            return Err(e);
        },
    };
    let ghost rv = requests_view(requests@);
    if let Err(e) = check_minted_universal(&requests) {
        return Err(e);
    }
    let entries = minted_schema_entries(&requests);
    proof {
        lemma_minted_schemas_from(rv);
        assert(super::catalog::schema_identities_unique(entries@)) by {
            let m = minted_schemas(rv);
            assert forall|x: int, y: int| 0 <= x < entries@.len() && 0 <= y < entries@.len() && x != y
                implies (#[trigger] entries@[x]).spec_identity() != (#[trigger] entries@[y]).spec_identity() by {
                if x < y {
                    assert(m[x].0 != m[y].0);
                } else {
                    assert(m[y].0 != m[x].0);
                }
            }
        }
    }
    super::catalog::IdentitySchemaCatalog::new(entries)
}

fn check_minted_universal(requests: &Vec<RequestExec>) -> (r: Result<(), BootstrapReadError>)
    ensures
        r is Ok <==> forall|j: int| 0 <= j < requests@.len() && mints(#[trigger] requests_view(requests@)[j])
            ==> requests_view(requests@)[j].identity.root == crate::identity::VocabularyRoot::Universal,
{
    let ghost rv = requests_view(requests@);
    let mut i: usize = 0;
    while i < requests.len()
        invariant
            rv == requests_view(requests@),
            rv.len() == requests@.len(),
            i <= rv.len(),
            forall|j: int| 0 <= j < i && mints(#[trigger] rv[j]) ==> rv[j].identity.root == crate::identity::VocabularyRoot::Universal,
        decreases rv.len() - i,
    {
        proof {
            assert(rv[i as int] == request_view(requests@[i as int]));
        }
        match &requests[i].disposition {
            IdentityDisposition::New { .. } => {
                if requests[i].identity.root != crate::identity::VocabularyRoot::Universal {
                    return Err(BootstrapReadError::NonUniversalSchemaIdentity(requests[i].identity));
                }
            },
            IdentityDisposition::Existing => {},
        }
        i = i + 1;
    }
    Ok(())
}

fn minted_schema_entries(requests: &Vec<RequestExec>) -> (entries: Vec<super::catalog::IdentitySchema>)
    requires
        forall|j: int| 0 <= j < requests@.len() && mints(#[trigger] requests_view(requests@)[j])
            ==> requests_view(requests@)[j].identity.root == crate::identity::VocabularyRoot::Universal,
    ensures
        ({
            let m = minted_schemas(requests_view(requests@));
            &&& entries@.len() == m.len()
            &&& forall|k: int| 0 <= k < m.len() ==> (#[trigger] entries@[k]).wf() && entries@[k].spec_identity() == m[k].0
                && forall|role: SchemaRole| entries@[k].spec_admits(role) <==> role == m[k].1
        }),
{
    let ghost rv = requests_view(requests@);
    let mut entries: Vec<super::catalog::IdentitySchema> = Vec::new();
    let mut i: usize = 0;
    proof {
        assert(rv.subrange(0, 0) =~= Seq::<AuthorityRequest>::empty());
    }
    while i < requests.len()
        invariant
            rv == requests_view(requests@),
            rv.len() == requests@.len(),
            i <= rv.len(),
            forall|j: int| 0 <= j < rv.len() && mints(#[trigger] rv[j]) ==> rv[j].identity.root == crate::identity::VocabularyRoot::Universal,
            entries@.len() == minted_schemas(rv.subrange(0, i as int)).len(),
            forall|k: int| 0 <= k < entries@.len() ==> (#[trigger] entries@[k]).wf()
                && entries@[k].spec_identity() == minted_schemas(rv.subrange(0, i as int))[k].0
                && forall|role: SchemaRole| entries@[k].spec_admits(role) <==> role == minted_schemas(rv.subrange(0, i as int))[k].1,
        decreases rv.len() - i,
    {
        let req = &requests[i];
        let ghost prefix = rv.subrange(0, i as int);
        let ghost next = rv.subrange(0, i + 1);
        proof {
            assert(rv[i as int] == request_view(*req));
            assert(next.drop_last() =~= prefix);
            assert(next.last() == rv[i as int]);
        }
        match &req.disposition {
            IdentityDisposition::New { .. } => {
                let roles = vec![req.required];
                proof {
                    assert(roles@.len() == 1);
                    assert(super::catalog::roles_compatible(roles@));
                    assert(mints(rv[i as int]));
                }
                match super::catalog::IdentitySchema::new(req.identity, roles) {
                    Ok(schema) => {
                        proof {
                            assert forall|role: SchemaRole| schema.spec_admits(role) <==> role == req.required by {
                                assert(roles@.to_set().contains(role) <==> roles@.contains(role));
                                if role == req.required {
                                    assert(roles@[0] == role);
                                }
                            }
                            assert(minted_schemas(next) =~= minted_schemas(prefix).push((req.identity, req.required)));
                        }
                        entries.push(schema);
                    },
                    Err(_) => {},
                }
            },
            IdentityDisposition::Existing => {
                proof {
                    assert(minted_schemas(next) =~= minted_schemas(prefix));
                }
            },
        }
        i = i + 1;
    }
    proof {
        assert(rv.subrange(0, rv.len() as int) =~= rv);
    }
    entries
}

} // verus!
