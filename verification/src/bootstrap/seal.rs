//! Sealing a plan: exact assignments in, a prepared transaction out, and the
//! injected naming authority's receipt over exactly that proposal.
use vstd::prelude::*;

use crate::identity::EncodedName;
use super::prepared::{prepared_valid, validate_prepared};
use super::assemble::{assemble_body, assemble_body_spec, body_view, reify_sections_exec};
use super::assignment::{
    disposition_view, AssignedIdentity, GeneratedStreamAssignments, NamingAssignment,
    NamingAssignments,
};
use super::catalog::{BootstrapCatalog, CanonicalIdentityOrder, IdentitySchemaCatalog, TextualMetadataTransition};
use super::declare::{
    all_shaped, arranged_generations, generation_key, gens_view, reify_sections, AssignmentCursor, CursorCtx,
    StreamGenerationView,
};
use super::error::BootstrapReadError;
use super::grammar::{lemma_trees_of, trees_of, Delimiter, SyntaxNode, SyntaxTree};
use super::imports::{canonical_imports, canonicalize_imports, imports_resolvable};
use super::model::{
    body_kind, BootstrapArchiveStatus, BootstrapDocument, BootstrapSourceProjection,
    DecodedBootstrap, PreparedStreamGeneration,
};
use super::ordering::{keys_arrangeable, lemma_arranged_views, sort_by_identity, IdentityKeyed};
use super::planning::import_bindings;
use super::reader::{imports_resolved, imports_view, BootstrapReader, BootstrapReadPlan, PlannedDeclaration, PlannedScope};
use super::reify::{SealEnv, SealEnvironment};
use super::resolution::ImportBinding;
use super::root::{root_sections, section_order};
use super::sealing::{
    assigned_identity, assignment_inputs_valid, authored_projected, canonical_pairs_valid, lemma_inputs_project_authored, entry_pairs, minted_pairs,
    assignment_refusal, minted_schemas, mints, schema_additions, seal_requests, validate_assignment_inputs,
};

verus! {

/// Publicly constructible, explicitly unvalidated transaction parts.
#[derive(Debug)]
pub struct PreparedBootstrapDraft {
    pub decoded: DecodedBootstrap,
    pub generated_streams: Vec<PreparedStreamGeneration>,
    pub schema_additions: IdentitySchemaCatalog,
    pub naming_transition: TextualMetadataTransition,
    pub identity_dispositions: Vec<AssignedIdentity>,
    pub canonical_order: CanonicalIdentityOrder,
}

/// The exact prepared proposal presented to the injected authority.
pub struct BootstrapNamingAuthorityRequest<'a> {
    transaction: &'a PreparedBootstrapDraft,
}

impl<'a> BootstrapNamingAuthorityRequest<'a> {
    pub closed spec fn spec_transaction(&self) -> PreparedBootstrapDraft {
        *self.transaction
    }

    pub fn transaction(&self) -> (r: &PreparedBootstrapDraft)
        ensures
            *r == self.spec_transaction(),
    {
        self.transaction
    }

    pub fn transition(&self) -> (r: &TextualMetadataTransition)
        ensures
            *r == self.spec_transaction().naming_transition,
    {
        &self.transaction.naming_transition
    }

    pub fn identity_dispositions(&self) -> (r: &[AssignedIdentity])
        ensures
            r@ == self.spec_transaction().identity_dispositions@,
    {
        self.transaction.identity_dispositions.as_slice()
    }
}

/// Authenticity boundary for naming proposals: only the injected authority
/// can issue and verify its configuration-specific receipt.
///
/// An implementation decides, by its own configuration, which drafts a proof
/// authorizes (`accepts`) and which receipts it recognizes for a draft
/// (`receipt_valid`); a receipt it issues must be one it recognizes for the
/// same draft.
pub trait BootstrapNamingAuthority {
    type Proof;
    type Receipt;

    /// Whether this authority authorizes `draft` on the strength of `proof`.
    spec fn accepts(&self, draft: PreparedBootstrapDraft, proof: Self::Proof) -> bool;

    /// Whether this authority recognizes `receipt` as issued for `draft`.
    spec fn receipt_valid(&self, draft: PreparedBootstrapDraft, receipt: Self::Receipt) -> bool;

    fn authorize(&self, request: BootstrapNamingAuthorityRequest, proof: &Self::Proof) -> (r: Option<Self::Receipt>)
        ensures
            r is Some <==> self.accepts(request.spec_transaction(), *proof),
            r matches Some(receipt) ==> self.receipt_valid(request.spec_transaction(), receipt),
    ;

    fn verify_receipt(&self, request: BootstrapNamingAuthorityRequest, receipt: &Self::Receipt) -> (b: bool)
        ensures
            b == self.receipt_valid(request.spec_transaction(), *receipt),
    ;
}

/// A prepared transaction whose proposal the authority has receipted.
pub struct PreparedBootstrapTransaction<Authority: BootstrapNamingAuthority> {
    draft: PreparedBootstrapDraft,
    receipt: Authority::Receipt,
}

/// The parts of a draft whose own validity the library relies on.
pub open spec fn draft_parts_wf(draft: PreparedBootstrapDraft) -> bool {
    &&& draft.schema_additions.wf()
    &&& draft.canonical_order.wf()
    &&& draft.naming_transition.wf()
}

impl<Authority: BootstrapNamingAuthority> PreparedBootstrapTransaction<Authority> {
    pub closed spec fn spec_draft(&self) -> PreparedBootstrapDraft {
        self.draft
    }

    pub closed spec fn spec_receipt(&self) -> Authority::Receipt {
        self.receipt
    }

    pub open spec fn wf(&self) -> bool {
        draft_parts_wf(self.spec_draft())
    }

    pub fn archive_status(&self) -> (r: BootstrapArchiveStatus)
        ensures
            r == BootstrapArchiveStatus::NotYetArchived,
    {
        BootstrapArchiveStatus::NotYetArchived
    }

    pub fn draft(&self) -> (r: &PreparedBootstrapDraft)
        ensures
            *r == self.spec_draft(),
    {
        &self.draft
    }

    /// Give up the receipt and return the untrusted transaction parts.
    pub fn to_draft(self) -> (r: PreparedBootstrapDraft)
        ensures
            r == self.spec_draft(),
    {
        self.draft
    }

    pub fn decoded(&self) -> (r: &DecodedBootstrap)
        ensures
            *r == self.spec_draft().decoded,
    {
        &self.draft.decoded
    }

    pub fn generated_streams(&self) -> (r: &[PreparedStreamGeneration])
        ensures
            r@ == self.spec_draft().generated_streams@,
    {
        self.draft.generated_streams.as_slice()
    }

    pub fn schema_additions(&self) -> (r: &IdentitySchemaCatalog)
        ensures
            *r == self.spec_draft().schema_additions,
    {
        &self.draft.schema_additions
    }

    pub fn naming_transition(&self) -> (r: &TextualMetadataTransition)
        ensures
            *r == self.spec_draft().naming_transition,
    {
        &self.draft.naming_transition
    }

    pub fn identity_dispositions(&self) -> (r: &[AssignedIdentity])
        ensures
            r@ == self.spec_draft().identity_dispositions@,
    {
        self.draft.identity_dispositions.as_slice()
    }

    pub fn canonical_order(&self) -> (r: &CanonicalIdentityOrder)
        ensures
            *r == self.spec_draft().canonical_order,
    {
        &self.draft.canonical_order
    }

    /// The authority-issued receipt, read-only.
    pub fn naming_authority_receipt(&self) -> (r: &Authority::Receipt)
        ensures
            *r == self.spec_receipt(),
    {
        &self.receipt
    }

    /// Re-verify this exact proposal with an authority configuration.
    pub fn verify_naming_authority(&self, authority: &Authority) -> (r: Result<(), BootstrapReadError>)
        ensures
            r is Ok <==> authority.receipt_valid(self.spec_draft(), self.spec_receipt()),
            r matches Err(e) ==> e == BootstrapReadError::NamingAuthorityReceiptRejected,
    {
        if authority.verify_receipt(BootstrapNamingAuthorityRequest { transaction: &self.draft }, &self.receipt) {
            Ok(())
        } else {
            Err(BootstrapReadError::NamingAuthorityReceiptRejected)
        }
    }
}

/// The (identity, disposition) of every assignment: authored assignments as
/// given, then each generated pair, initiation before termination.
pub open spec fn dispositions_view(a: Seq<NamingAssignment>, g: Seq<super::assignment::GeneratedStreamAssignment>) -> Seq<(EncodedName, Option<Seq<u8>>)> {
    a.map_values(|x: NamingAssignment| (x.encoded_name, disposition_view(x.disposition)))
        + generated_dispositions(g)
}

pub open spec fn generated_dispositions(g: Seq<super::assignment::GeneratedStreamAssignment>) -> Seq<(EncodedName, Option<Seq<u8>>)>
    decreases g.len(),
{
    if g.len() == 0 {
        Seq::empty()
    } else {
        generated_dispositions(g.drop_last()) + seq![
            (g.last().initiation.encoded_name, disposition_view(g.last().initiation.disposition)),
            (g.last().termination.encoded_name, disposition_view(g.last().termination.disposition)),
        ]
    }
}

pub open spec fn assigned_view(s: Seq<AssignedIdentity>) -> Seq<(EncodedName, Option<Seq<u8>>)> {
    s.map_values(|x: AssignedIdentity| (x.encoded_name, disposition_view(x.disposition)))
}

/// Collect the disposition of every assigned identity.
pub fn identity_dispositions(assignments: &NamingAssignments, generated: &GeneratedStreamAssignments) -> (r: Vec<AssignedIdentity>)
    ensures
        assigned_view(r@) == dispositions_view(assignments.spec_assignments(), generated.spec_assignments()),
{
    let all = assignments.assignments();
    let gall = generated.assignments();
    let mut out: Vec<AssignedIdentity> = Vec::new();
    let mut i: usize = 0;
    while i < all.len()
        invariant
            i <= all@.len(),
            assigned_view(out@) == all@.subrange(0, i as int).map_values(|x: NamingAssignment| (x.encoded_name, disposition_view(x.disposition))),
        decreases all@.len() - i,
    {
        let d = AssignedIdentity { encoded_name: all[i].encoded_name, disposition: all[i].disposition.duplicate() };
        proof {
            assert(assigned_view(out@.push(d)) =~= assigned_view(out@).push((d.encoded_name, disposition_view(d.disposition))));
            assert(all@.subrange(0, i + 1).map_values(|x: NamingAssignment| (x.encoded_name, disposition_view(x.disposition)))
                =~= all@.subrange(0, i as int).map_values(|x: NamingAssignment| (x.encoded_name, disposition_view(x.disposition)))
                    .push((all@[i as int].encoded_name, disposition_view(all@[i as int].disposition))));
        }
        out.push(d);
        i = i + 1;
    }
    let ghost authored = assigned_view(out@);
    proof {
        assert(all@.subrange(0, all@.len() as int) =~= all@);
        assert(gall@.subrange(0, 0) =~= Seq::<super::assignment::GeneratedStreamAssignment>::empty());
        assert(authored + Seq::<(EncodedName, Option<Seq<u8>>)>::empty() =~= authored);
    }
    let mut k: usize = 0;
    while k < gall.len()
        invariant
            k <= gall@.len(),
            assigned_view(out@) == authored + generated_dispositions(gall@.subrange(0, k as int)),
        decreases gall@.len() - k,
    {
        let init = gall[k].initiation.duplicate();
        let term = gall[k].termination.duplicate();
        proof {
            let prefix = gall@.subrange(0, k as int);
            let next = gall@.subrange(0, k + 1);
            assert(next.drop_last() =~= prefix);
            assert(next.last() == gall@[k as int]);
            assert(assigned_view(out@.push(init).push(term)) =~= assigned_view(out@)
                .push((init.encoded_name, disposition_view(init.disposition)))
                .push((term.encoded_name, disposition_view(term.disposition))));
            assert(authored + generated_dispositions(next) =~= assigned_view(out@)
                .push((init.encoded_name, disposition_view(init.disposition)))
                .push((term.encoded_name, disposition_view(term.disposition))));
        }
        out.push(init);
        out.push(term);
        k = k + 1;
    }
    proof {
        assert(gall@.subrange(0, gall@.len() as int) =~= gall@);
    }
    out
}

/// The module-scope declarations with their assigned identities, in plan order.
pub open spec fn module_locals(ds: Seq<PlannedDeclaration>, a: Seq<NamingAssignment>) -> Seq<(Seq<char>, EncodedName)>
    decreases ds.len(),
{
    if ds.len() == 0 {
        Seq::empty()
    } else {
        module_locals(ds.drop_last(), a) + if ds.last().spec_scope() == PlannedScope::Module {
            seq![(ds.last().spec_spelling(), assigned_identity(a, ds.last().spec_occurrence()))]
        } else {
            Seq::empty()
        }
    }
}

fn module_locals_exec(plan: &BootstrapReadPlan, assignments: &NamingAssignments) -> (r: Result<Vec<ImportBinding>, BootstrapReadError>)
    requires
        assignments.wf(),
        super::sealing::assignments_exact(plan.spec_declarations(), assignments.spec_assignments()),
    ensures
        r matches Ok(bs) && super::resolution::bindings_view(bs@) == module_locals(plan.spec_declarations(), assignments.spec_assignments()),
{
    let decls = plan.declarations();
    let ghost ds = plan.spec_declarations();
    let ghost a = assignments.spec_assignments();
    let mut out: Vec<ImportBinding> = Vec::new();
    let mut k: usize = 0;
    proof {
        assert(super::resolution::bindings_view(out@) =~= module_locals(ds.subrange(0, 0), a));
    }
    while k < decls.len()
        invariant
            decls@ == ds,
            a == assignments.spec_assignments(),
            assignments.wf(),
            super::sealing::assignments_exact(ds, a),
            k <= ds.len(),
            super::resolution::bindings_view(out@) == module_locals(ds.subrange(0, k as int), a),
        decreases ds.len() - k,
    {
        let d = &decls[k];
        proof {
            assert(ds.subrange(0, k + 1).drop_last() =~= ds.subrange(0, k as int));
            assert(ds.subrange(0, k + 1).last() == ds[k as int]);
        }
        match d.scope() {
            PlannedScope::Module => {
                let identity = match assignments.get(d.occurrence()) {
                    Some(x) => x.encoded_name,
                    None => {
                        proof {
                            assert(super::assignment::assignment_for(a, ds[k as int].spec_occurrence()) is Some);
                        }
                        return Err(BootstrapReadError::MissingAssignment(d.occurrence().ordinal()));
                    },
                };
                let b = ImportBinding { name: d.spelling().to_owned(), identity };
                proof {
                    assert(super::resolution::bindings_view(out@.push(b)) =~= super::resolution::bindings_view(out@).push((b.name@, identity)));
                    assert(module_locals(ds.subrange(0, k + 1), a) =~= module_locals(ds.subrange(0, k as int), a).push((ds[k as int].spec_spelling(), identity)));
                }
                out.push(b);
            },
            _ => {
                proof {
                    assert(module_locals(ds.subrange(0, k + 1), a) =~= module_locals(ds.subrange(0, k as int), a));
                }
            },
        }
        k = k + 1;
    }
    proof {
        assert(ds.subrange(0, ds.len() as int) =~= ds);
    }
    Ok(out)
}

/// The fields of a plan's brace body.
pub open spec fn plan_body_items(plan: BootstrapReadPlan) -> Seq<SyntaxTree> {
    match plan.spec_roots()[2] {
        SyntaxTree::Delimited { items, .. } => items,
        _ => Seq::empty(),
    }
}

/// The environment references resolve in while sealing.
pub open spec fn seal_env(
    catalog: BootstrapCatalog,
    transition: TextualMetadataTransition,
    additions: IdentitySchemaCatalog,
    order: CanonicalIdentityOrder,
    plan: BootstrapReadPlan,
    a: Seq<NamingAssignment>,
) -> SealEnv {
    SealEnv {
        ids: catalog.spec_priors(),
        snapshot: transition.spec_after(),
        existing: catalog.spec_schemas(),
        additions,
        order,
        locals: module_locals(plan.spec_declarations(), a),
        imported: import_bindings(catalog.spec_metadata(), imports_view(plan.spec_imports())),
    }
}

/// A canonical order that extends the catalog's order by exactly the minted
/// pairs of these requests.
pub open spec fn order_extended(catalog: BootstrapCatalog, order: CanonicalIdentityOrder, reqs: Seq<super::sealing::AuthorityRequest>) -> bool {
    &&& order.wf()
    &&& entry_pairs(order.spec_entries()) == entry_pairs(catalog.spec_canonical_order().spec_entries()) + minted_pairs(reqs)
}

/// Schema additions holding exactly one entry per minted identity, with its role.
pub open spec fn additions_minted(additions: IdentitySchemaCatalog, reqs: Seq<super::sealing::AuthorityRequest>) -> bool {
    let m = minted_schemas(reqs);
    &&& additions.wf()
    &&& additions.spec_entries().len() == m.len()
    &&& forall|k: int| 0 <= k < m.len() ==> (#[trigger] additions.spec_entries()[k]).spec_identity() == m[k].0
        && forall|role: super::catalog::SchemaRole| additions.spec_entries()[k].spec_admits(role) <==> role == m[k].1
}

/// The plan's body, read in an environment with this order and these
/// additions, reifies completely, its generated Streams can be arranged, the
/// body assembles, and the imports resolve.
pub open spec fn reifies(
    catalog: BootstrapCatalog,
    plan: BootstrapReadPlan,
    a: Seq<NamingAssignment>,
    g: Seq<super::assignment::GeneratedStreamAssignment>,
    transition: TextualMetadataTransition,
    order: CanonicalIdentityOrder,
    additions: IdentitySchemaCatalog,
) -> bool {
    let ds = plan.spec_declarations();
    let kind = plan.spec_header().kind;
    let env = seal_env(catalog, transition, additions, order, plan, a);
    match reify_sections(env, CursorCtx { ds, a }, g, catalog.spec_priors(), 0, root_sections(kind), plan_body_items(plan)) {
        Some((secs, ps, n)) => {
            &&& n == ds.len()
            &&& keys_arrangeable(order, ps, |v: StreamGenerationView| generation_key(v))
            &&& assemble_body_spec(kind, secs, order, catalog.spec_priors()) is Some
            &&& imports_resolvable(transition.spec_after(), order, imports_view(plan.spec_imports()))
        },
        None => false,
    }
}

/// Inputs on which every structural step of sealing succeeds, so that the
/// draft reaches the naming authority: exact assignment inputs, Universal
/// minted identities, resolved imports, a header-imports-body plan whose body
/// has one field per registered section, and a body that reifies for every
/// order and additions these inputs determine.
#[verifier::opaque]
pub open spec fn seal_reachable(
    catalog: BootstrapCatalog,
    plan: BootstrapReadPlan,
    a: Seq<NamingAssignment>,
    g: Seq<super::assignment::GeneratedStreamAssignment>,
    transition: TextualMetadataTransition,
) -> bool {
    let ds = plan.spec_declarations();
    let reqs = seal_requests(ds, a, g);
    &&& assignment_inputs_valid(catalog, ds, a, g, transition)
    &&& canonical_pairs_valid(entry_pairs(catalog.spec_canonical_order().spec_entries()) + minted_pairs(reqs))
    &&& forall|i: int| 0 <= i < reqs.len() && mints(#[trigger] reqs[i])
        ==> reqs[i].identity.root == crate::identity::VocabularyRoot::Universal
    &&& imports_resolved(catalog.spec_metadata(), imports_view(plan.spec_imports()))
    &&& plan.spec_roots().len() == 3
    &&& plan.spec_roots()[2] matches SyntaxTree::Delimited { delimiter: Delimiter::Brace, items, .. }
        && items.len() == root_sections(plan.spec_header().kind).len()
    &&& forall|order: CanonicalIdentityOrder, additions: IdentitySchemaCatalog|
        order_extended(catalog, order, reqs) && additions_minted(additions, reqs)
            ==> #[trigger] reifies(catalog, plan, a, g, transition, order, additions)
}

/// The plain conditions of a reachable seal.
proof fn lemma_reachable_parts(
    catalog: BootstrapCatalog,
    plan: BootstrapReadPlan,
    a: Seq<NamingAssignment>,
    g: Seq<super::assignment::GeneratedStreamAssignment>,
    transition: TextualMetadataTransition,
)
    requires
        seal_reachable(catalog, plan, a, g, transition),
    ensures
        assignment_inputs_valid(catalog, plan.spec_declarations(), a, g, transition),
        canonical_pairs_valid(entry_pairs(catalog.spec_canonical_order().spec_entries())
            + minted_pairs(seal_requests(plan.spec_declarations(), a, g))),
        forall|i: int| 0 <= i < seal_requests(plan.spec_declarations(), a, g).len()
            && mints(#[trigger] seal_requests(plan.spec_declarations(), a, g)[i])
            ==> seal_requests(plan.spec_declarations(), a, g)[i].identity.root == crate::identity::VocabularyRoot::Universal,
        imports_resolved(catalog.spec_metadata(), imports_view(plan.spec_imports())),
        plan.spec_roots().len() == 3,
        plan.spec_roots()[2] matches SyntaxTree::Delimited { delimiter: Delimiter::Brace, items, .. }
            && items.len() == root_sections(plan.spec_header().kind).len(),
{
    reveal(seal_reachable);
}

/// A reachable seal reifies in the environment its own order and additions give.
proof fn lemma_reachable_reifies(
    catalog: BootstrapCatalog,
    plan: BootstrapReadPlan,
    a: Seq<NamingAssignment>,
    g: Seq<super::assignment::GeneratedStreamAssignment>,
    transition: TextualMetadataTransition,
    order: CanonicalIdentityOrder,
    additions: IdentitySchemaCatalog,
)
    requires
        seal_reachable(catalog, plan, a, g, transition),
        order_extended(catalog, order, seal_requests(plan.spec_declarations(), a, g)),
        additions_minted(additions, seal_requests(plan.spec_declarations(), a, g)),
    ensures
        reifies(catalog, plan, a, g, transition, order, additions),
{
    reveal(seal_reachable);
}

/// The authority accepts every draft these inputs seal, and each is valid.
#[verifier::opaque]
pub open spec fn sealed_drafts_accepted<A: BootstrapNamingAuthority>(
    catalog: BootstrapCatalog,
    plan: BootstrapReadPlan,
    a: Seq<NamingAssignment>,
    g: Seq<super::assignment::GeneratedStreamAssignment>,
    transition: TextualMetadataTransition,
    authority: A,
    proof: A::Proof,
) -> bool {
    forall|d: PreparedBootstrapDraft| #[trigger] sealed(catalog, plan, a, g, transition, d)
        ==> authority.accepts(d, proof) && prepared_valid(catalog, d)
}

/// The authority accepts no draft these inputs seal.
#[verifier::opaque]
pub open spec fn sealed_drafts_refused<A: BootstrapNamingAuthority>(
    catalog: BootstrapCatalog,
    plan: BootstrapReadPlan,
    a: Seq<NamingAssignment>,
    g: Seq<super::assignment::GeneratedStreamAssignment>,
    transition: TextualMetadataTransition,
    authority: A,
    proof: A::Proof,
) -> bool {
    forall|d: PreparedBootstrapDraft| #[trigger] sealed(catalog, plan, a, g, transition, d)
        ==> !authority.accepts(d, proof)
}

proof fn lemma_sealed_accepted<A: BootstrapNamingAuthority>(
    catalog: BootstrapCatalog,
    plan: BootstrapReadPlan,
    a: Seq<NamingAssignment>,
    g: Seq<super::assignment::GeneratedStreamAssignment>,
    transition: TextualMetadataTransition,
    authority: A,
    proof: A::Proof,
    d: PreparedBootstrapDraft,
)
    requires
        sealed(catalog, plan, a, g, transition, d),
    ensures
        sealed_drafts_accepted(catalog, plan, a, g, transition, authority, proof) ==> authority.accepts(d, proof)
            && prepared_valid(catalog, d),
        sealed_drafts_refused(catalog, plan, a, g, transition, authority, proof) ==> !authority.accepts(d, proof),
{
    reveal(sealed_drafts_accepted);
    reveal(sealed_drafts_refused);
}

/// What a sealed draft holds: the plan's header; the body that the plan's
/// sections mean in the seal environment, having consumed every planned
/// occurrence; the generated Streams in canonical order; the canonical
/// imports; the minted schemas; the exactly extended canonical order; the
/// proposed transition; and every disposition.
pub open spec fn sealed(
    catalog: BootstrapCatalog,
    plan: BootstrapReadPlan,
    a: Seq<NamingAssignment>,
    g: Seq<super::assignment::GeneratedStreamAssignment>,
    transition: TextualMetadataTransition,
    draft: PreparedBootstrapDraft,
) -> bool {
    let ds = plan.spec_declarations();
    let order = draft.canonical_order;
    let env = seal_env(catalog, transition, draft.schema_additions, order, plan, a);
    let kind = plan.spec_header().kind;
    let reqs = seal_requests(ds, a, g);
    &&& draft.decoded.document.header == plan.spec_header()
    &&& body_kind(draft.decoded.document.body) == kind
    &&& match reify_sections(env, CursorCtx { ds, a }, g, catalog.spec_priors(), 0, root_sections(kind), plan_body_items(plan)) {
        Some((secs, ps, n)) => {
            &&& n == ds.len()
            &&& assemble_body_spec(kind, secs, order, catalog.spec_priors()) == Some(body_view(draft.decoded.document.body))
            &&& gens_view(draft.generated_streams@) == arranged_generations(order, ps)
        },
        None => false,
    }
    &&& all_shaped(draft.generated_streams@)
    &&& canonical_imports(transition.spec_after(), order, imports_view(draft.decoded.source.imports@), imports_view(plan.spec_imports()))
    &&& draft.schema_additions.wf()
    &&& draft.schema_additions.spec_entries().len() == minted_schemas(reqs).len()
    &&& forall|k: int| 0 <= k < minted_schemas(reqs).len() ==> (#[trigger] draft.schema_additions.spec_entries()[k]).spec_identity() == minted_schemas(reqs)[k].0
            && forall|role: super::catalog::SchemaRole| draft.schema_additions.spec_entries()[k].spec_admits(role) <==> role == minted_schemas(reqs)[k].1
    &&& order.wf()
    &&& entry_pairs(order.spec_entries()) == entry_pairs(catalog.spec_canonical_order().spec_entries()) + minted_pairs(reqs)
    &&& draft.naming_transition == transition
    &&& assigned_view(draft.identity_dispositions@) == dispositions_view(a, g)
}

} // verus!

verus! {

impl<Authority: BootstrapNamingAuthority> BootstrapReader<Authority> {
    /// Seal a plan with exact authored dispositions, exact generated Stream
    /// dispositions, a before-to-after textual proposal, and the authority's
    /// proof. The result is a prepared transaction: no authority state is
    /// mutated. Sealing fails whenever the assignment inputs are not exact;
    /// when it succeeds the draft holds exactly what the plan means.
    #[verifier::spinoff_prover]
    #[verifier::rlimit(100)]
    pub fn seal(
        &self,
        plan: &BootstrapReadPlan,
        assignments: &NamingAssignments,
        generated: &GeneratedStreamAssignments,
        naming_transition: TextualMetadataTransition,
        authority_proof: &Authority::Proof,
    ) -> (r: Result<PreparedBootstrapTransaction<Authority>, BootstrapReadError>)
        requires
            self.wf(),
            assignments.wf(),
            generated.wf(),
            naming_transition.wf(),
        ensures
            !(assignment_inputs_valid(self.spec_catalog(), plan.spec_declarations(), assignments.spec_assignments(),
                generated.spec_assignments(), naming_transition)
                && canonical_pairs_valid(entry_pairs(self.spec_catalog().spec_canonical_order().spec_entries())
                    + minted_pairs(seal_requests(plan.spec_declarations(), assignments.spec_assignments(), generated.spec_assignments()))))
                ==> r is Err,
            r matches Ok(tx) ==> sealed(self.spec_catalog(), *plan, assignments.spec_assignments(), generated.spec_assignments(),
                naming_transition, tx.spec_draft()),
            r matches Ok(tx) ==> tx.wf() && prepared_valid(self.spec_catalog(), tx.spec_draft()),
            r is Ok ==> authored_projected(self.spec_catalog(), plan.spec_declarations(), assignments.spec_assignments(),
                naming_transition.spec_after()),
            r matches Ok(tx) ==> self.spec_authority().accepts(tx.spec_draft(), *authority_proof)
                && self.spec_authority().receipt_valid(tx.spec_draft(), tx.spec_receipt()),
            assignment_refusal(self.spec_catalog(), plan.spec_declarations(), assignments.spec_assignments(),
                naming_transition, r),
            seal_reachable(self.spec_catalog(), *plan, assignments.spec_assignments(), generated.spec_assignments(),
                naming_transition) && sealed_drafts_accepted(self.spec_catalog(), *plan, assignments.spec_assignments(),
                generated.spec_assignments(), naming_transition, self.spec_authority(), *authority_proof)
                ==> r is Ok,
            seal_reachable(self.spec_catalog(), *plan, assignments.spec_assignments(), generated.spec_assignments(),
                naming_transition) && sealed_drafts_refused(self.spec_catalog(), *plan, assignments.spec_assignments(),
                generated.spec_assignments(), naming_transition, self.spec_authority(), *authority_proof)
                ==> r == Err::<PreparedBootstrapTransaction<Authority>, BootstrapReadError>(
                BootstrapReadError::NamingAuthorityRejected,
            ),
    {
        proof {
            if seal_reachable(self.spec_catalog(), *plan, assignments.spec_assignments(),
                generated.spec_assignments(), naming_transition) {
                lemma_reachable_parts(self.spec_catalog(), *plan, assignments.spec_assignments(),
                    generated.spec_assignments(), naming_transition);
            }
        }
        let catalog = self.catalog();
        let dispositions = identity_dispositions(assignments, generated);
        let order = match validate_assignment_inputs(catalog, plan, assignments, generated, &naming_transition) {
            Ok(order) => {
                proof {
                    lemma_inputs_project_authored(self.spec_catalog(), plan.spec_declarations(),
                        assignments.spec_assignments(), generated.spec_assignments(), naming_transition);
                }
                order
            },
            Err(e) => {
                return Err(e);
            },
        };
        let additions = match schema_additions(plan, assignments, generated) {
            Ok(additions) => additions,
            Err(e) => {
                return Err(e);
            },
        };
        let locals = match module_locals_exec(plan, assignments) {
            Ok(locals) => locals,
            Err(e) => {
                return Err(e);
            },
        };
        let imported = match super::reader::import_bindings_exec(catalog.metadata(), plan.imports()) {
            Ok(imported) => imported,
            Err(e) => {
                return Err(e);
            },
        };
        let roots = plan.roots();
        proof {
            lemma_trees_of(roots@);
        }
        if roots.len() != 3 {
            return Err(BootstrapReadError::UnexpectedStructure {
                expected: "exactly Header, Imports, and Body",
                found: "different top-level arity",
                start: 0,
            });
        }
        let header = plan.header();
        let kind = header.kind;
        let (secs, prepared) = match &roots[2] {
            SyntaxNode::Delimited { delimiter: Delimiter::Brace, items, .. } => {
                let sections = section_order(kind);
                proof {
                    lemma_trees_of(items@);
                    assert(trees_of(roots@)[2] == super::grammar::tree_of(roots@[2]));
                }
                if items.len() != sections.len() {
                    return Err(super::planning::unexpected_node(&roots[2], "the registered body section arity"));
                }
                let env = SealEnvironment {
                    priors: catalog.priors(),
                    snapshot: naming_transition.after(),
                    existing: catalog.schemas(),
                    additions: &additions,
                    order: &order,
                    locals,
                    imported,
                };
                let mut cursor = AssignmentCursor { declarations: plan.declarations(), assignments, next: 0 };
                let mut prepared: Vec<PreparedStreamGeneration> = Vec::new();
                proof {
                    assert(gens_view(prepared@) =~= Seq::<StreamGenerationView>::empty());
                }
                let ghost reqs = seal_requests(plan.spec_declarations(), assignments.spec_assignments(),
                    generated.spec_assignments());
                proof {
                    if seal_reachable(self.spec_catalog(), *plan, assignments.spec_assignments(),
                        generated.spec_assignments(), naming_transition) {
                        assert(order_extended(self.spec_catalog(), order, reqs));
                        assert(additions_minted(additions, reqs));
                        lemma_reachable_reifies(self.spec_catalog(), *plan, assignments.spec_assignments(),
                            generated.spec_assignments(), naming_transition, order, additions);
                        assert(env.view() == seal_env(self.spec_catalog(), naming_transition, additions, order, *plan,
                            assignments.spec_assignments()));
                        assert(trees_of(items@) == plan_body_items(*plan));
                    }
                }
                let secs = match reify_sections_exec(&env, &mut cursor, generated, &sections, items, &mut prepared) {
                    Ok(secs) => secs,
                    Err(e) => {
                        return Err(e);
                    },
                };
                if let Err(e) = cursor.finish() {
                    return Err(e);
                }
                proof {
                    assert(gens_view(prepared@) =~= Seq::<StreamGenerationView>::empty() + gens_view(prepared@));
                }
                (secs, prepared)
            },
            _ => {
                return Err(super::planning::unexpected_node(&roots[2], "kind-selected body"));
            },
        };
        let ghost ps = prepared@;
        proof {
            if seal_reachable(self.spec_catalog(), *plan, assignments.spec_assignments(),
                generated.spec_assignments(), naming_transition) {
                let views = gens_view(ps);
                assert forall|i: int| 0 <= i < ps.len() implies #[trigger] ps[i].key_identity() == generation_key(views[i]) by {}
                assert(keys_arrangeable(order, ps, |x: PreparedStreamGeneration| x.key_identity())) by {
                    assert forall|i: int| 0 <= i < ps.len() implies order.spec_contains(
                        (|x: PreparedStreamGeneration| x.key_identity())(#[trigger] ps[i])) by {
                        assert(ps[i].key_identity() == generation_key(views[i]));
                    }
                    assert forall|i: int, j: int| 0 <= i < j < ps.len() implies (|x: PreparedStreamGeneration|
                        x.key_identity())(#[trigger] ps[i]) != (|x: PreparedStreamGeneration| x.key_identity())(
                        #[trigger] ps[j]) by {
                        assert(ps[i].key_identity() == generation_key(views[i]));
                        assert(ps[j].key_identity() == generation_key(views[j]));
                    }
                }
            }
        }
        let streams = match sort_by_identity(&order, prepared) {
            Ok(streams) => streams,
            Err(e) => {
                return Err(e);
            },
        };
        proof {
            lemma_arranged_views(order, streams@, ps, |p: PreparedStreamGeneration| super::declare::generation_view(p),
                |x: PreparedStreamGeneration| x.key_identity(), |g: StreamGenerationView| super::declare::generation_key(g));
            assert forall|k: int| 0 <= k < streams@.len() implies super::declare::generation_shaped(#[trigger] streams@[k]) by {
                assert(streams@.contains(streams@[k]));
                assert(ps.contains(streams@[k]));
                let w = choose|w: int| 0 <= w < ps.len() && ps[w] == streams@[k];
            }
        }
        let body = match assemble_body(kind, secs, catalog.priors(), &order) {
            Ok(body) => body,
            Err(e) => {
                return Err(e);
            },
        };
        let imports = match canonicalize_imports(plan.imports(), naming_transition.after(), &order) {
            Ok(imports) => imports,
            Err(e) => {
                return Err(e);
            },
        };
        let decoded = DecodedBootstrap {
            document: BootstrapDocument { header, body },
            source: BootstrapSourceProjection { imports },
        };
        let draft = PreparedBootstrapDraft {
            decoded,
            generated_streams: streams,
            schema_additions: additions,
            naming_transition,
            identity_dispositions: dispositions,
            canonical_order: order,
        };
        proof {
            assert(sealed(self.spec_catalog(), *plan, assignments.spec_assignments(), generated.spec_assignments(),
                naming_transition, draft));
            lemma_sealed_accepted(self.spec_catalog(), *plan, assignments.spec_assignments(),
                generated.spec_assignments(), naming_transition, self.spec_authority(), *authority_proof, draft);
        }
        self.authorize_draft(draft, authority_proof)
    }

    /// Present a draft to the authority and keep its receipt, which must then
    /// verify.
    fn authorize_draft(
        &self,
        draft: PreparedBootstrapDraft,
        authority_proof: &Authority::Proof,
    ) -> (r: Result<PreparedBootstrapTransaction<Authority>, BootstrapReadError>)
        requires
            self.wf(),
            draft_parts_wf(draft),
        ensures
            !self.spec_authority().accepts(draft, *authority_proof) ==> r == Err::<
                PreparedBootstrapTransaction<Authority>,
                BootstrapReadError,
            >(BootstrapReadError::NamingAuthorityRejected),
            self.spec_authority().accepts(draft, *authority_proof) ==> (r is Ok <==> prepared_valid(
                self.spec_catalog(),
                draft,
            )),
            r matches Ok(tx) ==> tx.spec_draft() == draft && tx.wf() && prepared_valid(self.spec_catalog(), draft)
                && self.spec_authority().accepts(draft, *authority_proof)
                && self.spec_authority().receipt_valid(draft, tx.spec_receipt()),
    {
        let receipt = match self.naming_authority().authorize(BootstrapNamingAuthorityRequest { transaction: &draft }, authority_proof) {
            Some(receipt) => receipt,
            None => {
                return Err(BootstrapReadError::NamingAuthorityRejected);
            },
        };
        let transaction = PreparedBootstrapTransaction { draft, receipt };
        if let Err(e) = self.validate_transaction(&transaction) {
            return Err(e);
        }
        Ok(transaction)
    }

    /// Accept an externally prepared draft once the authority receipts it
    /// and every prepared-model law holds of it.
    pub fn validate_draft(
        &self,
        draft: PreparedBootstrapDraft,
        authority_proof: &Authority::Proof,
    ) -> (r: Result<PreparedBootstrapTransaction<Authority>, BootstrapReadError>)
        requires
            self.wf(),
            draft_parts_wf(draft),
        ensures
            !self.spec_authority().accepts(draft, *authority_proof) ==> r == Err::<
                PreparedBootstrapTransaction<Authority>,
                BootstrapReadError,
            >(BootstrapReadError::NamingAuthorityRejected),
            self.spec_authority().accepts(draft, *authority_proof) ==> (r is Ok <==> prepared_valid(
                self.spec_catalog(),
                draft,
            )),
            r matches Ok(tx) ==> tx.spec_draft() == draft && prepared_valid(self.spec_catalog(), draft)
                && self.spec_authority().receipt_valid(draft, tx.spec_receipt()),
    {
        self.authorize_draft(draft, authority_proof)
    }

    /// Re-verify a transaction's receipt with this reader's authority, then
    /// every prepared-model law of its draft.
    pub fn validate_transaction(&self, transaction: &PreparedBootstrapTransaction<Authority>) -> (r: Result<(), BootstrapReadError>)
        requires
            self.wf(),
            transaction.wf(),
        ensures
            !self.spec_authority().receipt_valid(transaction.spec_draft(), transaction.spec_receipt())
                ==> r == Err::<(), BootstrapReadError>(BootstrapReadError::NamingAuthorityReceiptRejected),
            self.spec_authority().receipt_valid(transaction.spec_draft(), transaction.spec_receipt())
                ==> (r is Ok <==> prepared_valid(self.spec_catalog(), transaction.spec_draft())),
    {
        if let Err(e) = transaction.verify_naming_authority(self.naming_authority()) {
            return Err(e);
        }
        validate_prepared(self.catalog(), transaction.draft())
    }

    pub fn archive_status(&self) -> (r: BootstrapArchiveStatus)
        ensures
            r == BootstrapArchiveStatus::NotYetArchived,
    {
        BootstrapArchiveStatus::NotYetArchived
    }
}

} // verus!
