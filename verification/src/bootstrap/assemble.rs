//! Assembling reified sections into the kind-selected body.
use vstd::prelude::*;

use crate::identity::EncodedName;
use super::catalog::{BootstrapPriorIdentities, BootstrapPriorVocabulary, CanonicalIdentityOrder};
use super::declare::{
    all_shaped, gens_view, reify_section_exec, reify_sections, section_memberships_ok, section_view,
    role_entry_key, AssignmentCursor, DeclView, ReifiedSection, RoleEntryView, SectionView, StreamGenerationView,
    TraitDeclView, TypeDeclView,
};
use super::model::TableDeclaration;
use super::error::BootstrapReadError;
use super::grammar::{lemma_trees_of, tree_of, trees_of, SyntaxNode, SyntaxTree};
use super::model::{
    BootstrapBody, EthosKind, InterfaceBody, InterfaceRole, InterfaceRoleMembership, NexusBody,
    PreparedStreamGeneration, RoleEntry, SemaBody,
};
use super::ordering::{all_ordered, canonical_arrangement, distinct_ids, sort_identities};
use super::reify::SealEnvironment;
use super::root::BootstrapSectionSchema;

verus! {

/// The meaning of a kind-selected body.
pub ghost enum BodyView {
    Interface {
        inputs: Seq<RoleEntryView>,
        outputs: Seq<RoleEntryView>,
        refusals: Seq<RoleEntryView>,
        types: Seq<DeclView>,
        memberships: Seq<InterfaceRoleMembership>,
    },
    Nexus { traits: Seq<TraitDeclView>, types: Seq<DeclView> },
    Sema { records: Seq<TypeDeclView>, tables: Seq<TableDeclaration> },
}

pub open spec fn body_view(b: BootstrapBody) -> BodyView {
    match b {
        BootstrapBody::Interface(i) => BodyView::Interface {
            inputs: i.inputs@.map_values(|e: RoleEntry| super::declare::role_entry_view(e)),
            outputs: i.outputs@.map_values(|e: RoleEntry| super::declare::role_entry_view(e)),
            refusals: i.refusals@.map_values(|e: RoleEntry| super::declare::role_entry_view(e)),
            types: i.types@.map_values(|d: super::model::Declaration| super::declare::decl_view(d)),
            memberships: i.memberships@,
        },
        BootstrapBody::Nexus(n) => BodyView::Nexus {
            traits: n.traits@.map_values(|t: super::model::TraitDeclaration| super::declare::trait_view(t)),
            types: n.types@.map_values(|d: super::model::Declaration| super::declare::decl_view(d)),
        },
        BootstrapBody::Sema(s) => BodyView::Sema {
            records: s.record_types@.map_values(|d: super::model::TypeDeclaration| super::declare::type_decl_view(d)),
            tables: s.tables@,
        },
    }
}

/// The memberships one role section induces, in entry order.
pub open spec fn role_block(role: InterfaceRole, entries: Seq<RoleEntryView>) -> Seq<InterfaceRoleMembership> {
    entries.map_values(|e: RoleEntryView| InterfaceRoleMembership { role, target: role_entry_key(e) })
}

/// The role whose prior identity is `id`.
pub open spec fn role_of(ids: BootstrapPriorIdentities, id: EncodedName) -> InterfaceRole {
    if id == ids.input_role {
        InterfaceRole::Input
    } else if id == ids.output_role {
        InterfaceRole::Output
    } else {
        InterfaceRole::Refusal
    }
}

/// All Interface memberships ordered by role identity, then target: the
/// three role blocks in canonical order of their role identities.
pub open spec fn interface_memberships(
    order: CanonicalIdentityOrder,
    ids: BootstrapPriorIdentities,
    inputs: Seq<RoleEntryView>,
    outputs: Seq<RoleEntryView>,
    refusals: Seq<RoleEntryView>,
) -> Option<Seq<InterfaceRoleMembership>> {
    let roles = seq![ids.input_role, ids.output_role, ids.refusal_role];
    if !all_ordered(order, roles) || !distinct_ids(roles) {
        None
    } else {
        let arranged = canonical_arrangement(order, roles);
        let block = |id: EncodedName| match role_of(ids, id) {
            InterfaceRole::Input => role_block(InterfaceRole::Input, inputs),
            InterfaceRole::Output => role_block(InterfaceRole::Output, outputs),
            InterfaceRole::Refusal => role_block(InterfaceRole::Refusal, refusals),
        };
        Some(block(arranged[0]) + block(arranged[1]) + block(arranged[2]))
    }
}

/// The body of a kind from its registered sections.
pub open spec fn assemble_body_spec(
    kind: EthosKind,
    sections: Seq<SectionView>,
    order: CanonicalIdentityOrder,
    ids: BootstrapPriorIdentities,
) -> Option<BodyView> {
    match kind {
        EthosKind::Interface => if sections.len() == 4 {
            match (sections[0], sections[1], sections[2], sections[3]) {
                (
                    SectionView::Role { role: InterfaceRole::Input, entries: inputs },
                    SectionView::Role { role: InterfaceRole::Output, entries: outputs },
                    SectionView::Role { role: InterfaceRole::Refusal, entries: refusals },
                    SectionView::Declarations(types),
                ) => match interface_memberships(order, ids, inputs, outputs, refusals) {
                    Some(memberships) => Some(BodyView::Interface { inputs, outputs, refusals, types, memberships }),
                    None => None,
                },
                _ => None,
            }
        } else {
            None
        },
        EthosKind::Nexus => if sections.len() == 2 {
            match (sections[0], sections[1]) {
                (SectionView::Traits(traits), SectionView::Declarations(types)) => Some(BodyView::Nexus { traits, types }),
                _ => None,
            }
        } else {
            None
        },
        EthosKind::Sema => if sections.len() == 2 {
            match (sections[0], sections[1]) {
                (SectionView::PersistentDeclarations(records), SectionView::Tables(tables)) => Some(BodyView::Sema { records, tables }),
                _ => None,
            }
        } else {
            None
        },
    }
}

/// Reify the registered sections of a body in registry order.
#[verifier::loop_isolation(false)]
#[verifier::rlimit(40)]
pub fn reify_sections_exec(
    env: &SealEnvironment,
    cursor: &mut AssignmentCursor,
    generated: &super::assignment::GeneratedStreamAssignments,
    schemas: &Vec<BootstrapSectionSchema>,
    fields: &Vec<SyntaxNode>,
    prepared: &mut Vec<PreparedStreamGeneration>,
) -> (r: Result<Vec<ReifiedSection>, BootstrapReadError>)
    requires
        env.wf(),
        old(cursor).wf(),
        generated.wf(),
        all_shaped(old(prepared)@),
        schemas@.len() == fields@.len(),
    ensures
        final(cursor).wf(),
        final(cursor).same_walk(old(cursor)),
        match reify_sections(env.view(), old(cursor).ctx(), generated.spec_assignments(), env.view().ids,
            old(cursor).next as int, schemas@, trees_of(fields@)) {
            Some((secs, ps, n)) => r matches Ok(x) && x@.map_values(|s: ReifiedSection| section_view(s)) == secs
                && (forall|k: int| 0 <= k < x@.len() ==> section_memberships_ok(#[trigger] x@[k]))
                && gens_view(final(prepared)@) == gens_view(old(prepared)@) + ps && all_shaped(final(prepared)@)
                && final(cursor).next == n,
            None => r is Err,
        },
{
    let ghost trees = trees_of(fields@);
    let ghost c = cursor.ctx();
    let ghost n0 = cursor.next as int;
    let ghost g = generated.spec_assignments();
    let ghost ids = env.view().ids;
    let ghost p0 = prepared@;
    let ghost mut acc: Seq<StreamGenerationView> = Seq::empty();
    proof {
        lemma_trees_of(fields@);
        assert(trees.subrange(0, trees.len() as int) =~= trees);
        assert(schemas@.subrange(0, schemas@.len() as int) =~= schemas@);
        assert(gens_view(prepared@) =~= gens_view(p0) + acc);
    }
    let mut out: Vec<ReifiedSection> = Vec::new();
    let mut i: usize = 0;
    proof {
        let empty = out@.map_values(|s: ReifiedSection| section_view(s));
        assert(empty =~= Seq::<SectionView>::empty());
        assert forall|rest: Seq<SectionView>| #[trigger] (empty + rest) =~= rest by {}
        assert forall|rest: Seq<StreamGenerationView>| #[trigger] (acc + rest) =~= rest by {}
    }
    while i < fields.len()
        invariant
            i <= fields@.len(),
            schemas@.len() == fields@.len(),
            cursor.wf(),
            cursor.same_walk(old(cursor)),
            c == cursor.ctx(),
            trees == trees_of(fields@),
            trees.len() == fields@.len(),
            forall|k: int| 0 <= k < fields@.len() ==> #[trigger] trees[k] == tree_of(fields@[k]),
            gens_view(prepared@) == gens_view(p0) + acc,
            all_shaped(prepared@),
            forall|k: int| 0 <= k < out@.len() ==> section_memberships_ok(#[trigger] out@[k]),
            reify_sections(env.view(), c, g, ids, n0, schemas@, trees) == match reify_sections(env.view(), c, g, ids, cursor.next as int,
                schemas@.subrange(i as int, schemas@.len() as int), trees.subrange(i as int, trees.len() as int)) {
                Some((rest, prest, n2)) => Some((out@.map_values(|s: ReifiedSection| section_view(s)) + rest, acc + prest, n2)),
                None => None,
            },
        decreases fields@.len() - i,
    {
        let ghost rest = trees.subrange(i as int, trees.len() as int);
        let ghost srest = schemas@.subrange(i as int, schemas@.len() as int);
        proof {
            assert(rest[0] == tree_of(fields@[i as int]));
            assert(srest[0] == schemas@[i as int]);
            assert(rest.subrange(1, rest.len() as int) =~= trees.subrange(i + 1, trees.len() as int));
            assert(srest.subrange(1, srest.len() as int) =~= schemas@.subrange(i + 1, schemas@.len() as int));
        }
        let ghost before_prep = prepared@;
        let sec = match reify_section_exec(env, cursor, generated, schemas[i], &fields[i], prepared) {
            Ok(sec) => sec,
            Err(e) => {
                return Err(e);
            },
        };
        proof {
            let before = out@.map_values(|s: ReifiedSection| section_view(s));
            assert(out@.push(sec).map_values(|s: ReifiedSection| section_view(s)) =~= before.push(section_view(sec)));
            assert forall|rest2: Seq<SectionView>| #[trigger] (before.push(section_view(sec)) + rest2) =~= before + (seq![section_view(sec)] + rest2) by {}
            let added = gens_view(prepared@).subrange(before_prep.len() as int, prepared@.len() as int);
            let old_acc = acc;
            assert(gens_view(prepared@).len() == prepared@.len());
            acc = acc + added;
            assert(gens_view(prepared@) =~= gens_view(p0) + acc);
            assert forall|rest2: Seq<StreamGenerationView>| #[trigger] (acc + rest2) =~= old_acc + (added + rest2) by {}
        }
        out.push(sec);
        i = i + 1;
    }
    proof {
        let done = out@.map_values(|s: ReifiedSection| section_view(s));
        assert(trees.subrange(trees.len() as int, trees.len() as int) =~= Seq::<SyntaxTree>::empty());
        assert(done + Seq::<SectionView>::empty() =~= done);
        assert(acc + Seq::<StreamGenerationView>::empty() =~= acc);
    }
    Ok(out)
}

} // verus!

verus! {

fn append_memberships(out: &mut Vec<InterfaceRoleMembership>, block: &Vec<InterfaceRoleMembership>)
    ensures
        final(out)@ == old(out)@ + block@,
{
    let mut i: usize = 0;
    let ghost start = out@;
    while i < block.len()
        invariant
            i <= block@.len(),
            out@ == start + block@.subrange(0, i as int),
        decreases block@.len() - i,
    {
        out.push(block[i]);
        proof {
            assert(out@ =~= start + block@.subrange(0, i + 1));
        }
        i = i + 1;
    }
    proof {
        assert(block@.subrange(0, block@.len() as int) =~= block@);
    }
}

proof fn lemma_role_block(role: InterfaceRole, entries: Seq<RoleEntry>)
    ensures
        entries.map_values(|e: RoleEntry| super::declare::membership_of(role, e))
            == role_block(role, entries.map_values(|e: RoleEntry| super::declare::role_entry_view(e))),
{
    assert(entries.map_values(|e: RoleEntry| super::declare::membership_of(role, e))
        =~= role_block(role, entries.map_values(|e: RoleEntry| super::declare::role_entry_view(e))));
}

/// Order the three role blocks by their role identities.
fn interface_memberships_exec(
    priors: &BootstrapPriorVocabulary,
    order: &CanonicalIdentityOrder,
    inputs: &Vec<InterfaceRoleMembership>,
    outputs: &Vec<InterfaceRoleMembership>,
    refusals: &Vec<InterfaceRoleMembership>,
    Ghost(ins): Ghost<Seq<RoleEntryView>>,
    Ghost(outs): Ghost<Seq<RoleEntryView>>,
    Ghost(refs): Ghost<Seq<RoleEntryView>>,
) -> (r: Result<Vec<InterfaceRoleMembership>, BootstrapReadError>)
    requires
        order.wf(),
        inputs@ == role_block(InterfaceRole::Input, ins),
        outputs@ == role_block(InterfaceRole::Output, outs),
        refusals@ == role_block(InterfaceRole::Refusal, refs),
    ensures
        match interface_memberships(*order, priors.spec_identities(), ins, outs, refs) {
            Some(ms) => r matches Ok(x) && x@ == ms,
            None => r is Err,
        },
{
    let ghost ids = priors.spec_identities();
    let input_role = priors.role_identity(InterfaceRole::Input);
    let output_role = priors.role_identity(InterfaceRole::Output);
    let refusal_role = priors.role_identity(InterfaceRole::Refusal);
    let roles = vec![input_role, output_role, refusal_role];
    proof {
        assert(roles@ =~= seq![ids.input_role, ids.output_role, ids.refusal_role]);
    }
    let arranged = match sort_identities(order, &roles) {
        Ok(arranged) => arranged,
        Err(e) => {
            return Err(e);
        },
    };
    let mut out: Vec<InterfaceRoleMembership> = Vec::new();
    let ghost block = |id: EncodedName| match role_of(ids, id) {
        InterfaceRole::Input => role_block(InterfaceRole::Input, ins),
        InterfaceRole::Output => role_block(InterfaceRole::Output, outs),
        InterfaceRole::Refusal => role_block(InterfaceRole::Refusal, refs),
    };
    let mut k: usize = 0;
    proof {
        assert(out@ =~= Seq::<InterfaceRoleMembership>::empty());
    }
    while k < 3
        invariant
            arranged@.len() == 3,
            k <= 3,
            input_role == ids.input_role,
            output_role == ids.output_role,
            refusal_role == ids.refusal_role,
            inputs@ == role_block(InterfaceRole::Input, ins),
            outputs@ == role_block(InterfaceRole::Output, outs),
            refusals@ == role_block(InterfaceRole::Refusal, refs),
            forall|x: EncodedName| #[trigger] block(x) == match role_of(ids, x) {
                InterfaceRole::Input => role_block(InterfaceRole::Input, ins),
                InterfaceRole::Output => role_block(InterfaceRole::Output, outs),
                InterfaceRole::Refusal => role_block(InterfaceRole::Refusal, refs),
            },
            out@ == (if k == 0 { Seq::empty() } else if k == 1 { block(arranged@[0]) } else if k == 2 {
                block(arranged@[0]) + block(arranged@[1])
            } else {
                block(arranged@[0]) + block(arranged@[1]) + block(arranged@[2])
            }),
        decreases 3 - k,
    {
        let id = arranged[k];
        let ghost before = out@;
        if id == input_role {
            append_memberships(&mut out, inputs);
        } else if id == output_role {
            append_memberships(&mut out, outputs);
        } else {
            append_memberships(&mut out, refusals);
        }
        proof {
            assert(out@ == before + block(arranged@[k as int]));
            if k == 0 {
                assert(out@ =~= block(arranged@[0]));
            }
        }
        k = k + 1;
    }
    Ok(out)
}

/// Assemble the kind-selected body from its registered sections.
pub fn assemble_body(
    kind: EthosKind,
    sections: Vec<ReifiedSection>,
    priors: &BootstrapPriorVocabulary,
    order: &CanonicalIdentityOrder,
) -> (r: Result<BootstrapBody, BootstrapReadError>)
    requires
        order.wf(),
        forall|k: int| 0 <= k < sections@.len() ==> section_memberships_ok(#[trigger] sections@[k]),
    ensures
        match assemble_body_spec(kind, sections@.map_values(|s: ReifiedSection| section_view(s)), *order, priors.spec_identities()) {
            Some(b) => r matches Ok(x) && body_view(x) == b && super::model::body_kind(x) == kind,
            None => r is Err,
        },
{
    let ghost views = sections@.map_values(|s: ReifiedSection| section_view(s));
    let ghost all = sections@;
    let mut sections = sections;
    match kind {
        EthosKind::Interface => {
            if sections.len() != 4 {
                return Err(BootstrapReadError::InvalidPreparedModel("root registry section count"));
            }
            let declarations = sections.pop().unwrap();
            let refusal = sections.pop().unwrap();
            let output = sections.pop().unwrap();
            let input = sections.pop().unwrap();
            proof {
                assert(input == all[0] && output == all[1] && refusal == all[2] && declarations == all[3]);
                assert(views[0] == section_view(all[0]));
                assert(views[1] == section_view(all[1]));
                assert(views[2] == section_view(all[2]));
                assert(views[3] == section_view(all[3]));
                assert(section_memberships_ok(all[0]) && section_memberships_ok(all[1]) && section_memberships_ok(all[2]));
            }
            match (input, output, refusal, declarations) {
                (
                    ReifiedSection::Role { role: InterfaceRole::Input, entries: inputs, memberships: mi },
                    ReifiedSection::Role { role: InterfaceRole::Output, entries: outputs, memberships: mo },
                    ReifiedSection::Role { role: InterfaceRole::Refusal, entries: refusals, memberships: mr },
                    ReifiedSection::Declarations(types),
                ) => {
                    let ghost ins = inputs@.map_values(|e: RoleEntry| super::declare::role_entry_view(e));
                    let ghost outs = outputs@.map_values(|e: RoleEntry| super::declare::role_entry_view(e));
                    let ghost refs = refusals@.map_values(|e: RoleEntry| super::declare::role_entry_view(e));
                    proof {
                        lemma_role_block(InterfaceRole::Input, inputs@);
                        lemma_role_block(InterfaceRole::Output, outputs@);
                        lemma_role_block(InterfaceRole::Refusal, refusals@);
                    }
                    let memberships = match interface_memberships_exec(priors, order, &mi, &mo, &mr, Ghost(ins), Ghost(outs), Ghost(refs)) {
                        Ok(ms) => ms,
                        Err(e) => {
                            return Err(e);
                        },
                    };
                    Ok(BootstrapBody::Interface(InterfaceBody { inputs, outputs, refusals, types, memberships }))
                },
                _ => Err(BootstrapReadError::InvalidPreparedModel("Interface root registry section kind")),
            }
        },
        EthosKind::Nexus => {
            if sections.len() != 2 {
                return Err(BootstrapReadError::InvalidPreparedModel("root registry section count"));
            }
            let declarations = sections.pop().unwrap();
            let traits = sections.pop().unwrap();
            proof {
                assert(traits == all[0] && declarations == all[1]);
                assert(views[0] == section_view(all[0]));
                assert(views[1] == section_view(all[1]));
            }
            match (traits, declarations) {
                (ReifiedSection::Traits(traits), ReifiedSection::Declarations(types)) => Ok(BootstrapBody::Nexus(NexusBody { traits, types })),
                _ => Err(BootstrapReadError::InvalidPreparedModel("Nexus root registry section kind")),
            }
        },
        EthosKind::Sema => {
            if sections.len() != 2 {
                return Err(BootstrapReadError::InvalidPreparedModel("root registry section count"));
            }
            let tables = sections.pop().unwrap();
            let records = sections.pop().unwrap();
            proof {
                assert(records == all[0] && tables == all[1]);
                assert(views[0] == section_view(all[0]));
                assert(views[1] == section_view(all[1]));
            }
            match (records, tables) {
                (ReifiedSection::PersistentDeclarations(record_types), ReifiedSection::Tables(tables)) =>
                    Ok(BootstrapBody::Sema(SemaBody { record_types, tables })),
                _ => Err(BootstrapReadError::InvalidPreparedModel("Sema root registry section kind")),
            }
        },
    }
}

} // verus!
