//! Laws every accepted prepared transaction obeys, and the closure of
//! Shape and Nomos heads over the prior vocabulary.
use vstd::prelude::*;

use crate::identity::EncodedName;
use super::assemble::{body_view, BodyView};
use super::catalog::{
    is_shape_prior, BootstrapCatalog, BootstrapPriorIdentities, CanonicalIdentityOrder,
    IdentitySchemaCatalog, TextualMetadataSnapshot,
};
use super::model::{body_kind, InterfaceRole, InterfaceRoleMembership, PreparedStreamGeneration};
use super::prepared::{
    body_env, check_body, check_decl_section, check_generation, check_generations, check_role_section, check_streams,
    check_table_section, check_trait_section, check_type_section, decl_keys, disposition_ok, dispositions_exact,
    find_stream, fresh_progress, generation_outputs, minted_entries, prepared_valid, priors_projected, role_entry_keys,
    same_pairs, sorted_where_compared, stream_relations, table_keys, trait_keys, type_decl_keys, BodyEnv, Progress,
};
use super::resolution::{resolution, ReferenceNamespace};
use super::sealing::{entry_pairs, same_records};
use super::seal::PreparedBootstrapDraft;
use super::declare::StreamDeclView;
use super::grammar::{SourceBound, SyntaxTree};
use super::planning::{canonical_decimal, decimal_value, is_digit};
use super::writer::{decimal, digit};

verus! {

/// The progress after the body check of an accepted draft.
pub open spec fn body_progress(catalog: BootstrapCatalog, draft: PreparedBootstrapDraft) -> Progress {
    check_body(body_env(catalog, draft), fresh_progress(), body_view(draft.decoded.document.body)).unwrap()
}

/// Every unordered named collection of an accepted body is in canonical
/// order of its identities, wherever two of them are compared.
pub open spec fn collections_ordered(order: CanonicalIdentityOrder, b: BodyView) -> bool {
    match b {
        BodyView::Interface { inputs, outputs, refusals, types, .. } => {
            &&& sorted_where_compared(order, role_entry_keys(inputs))
            &&& sorted_where_compared(order, role_entry_keys(outputs))
            &&& sorted_where_compared(order, role_entry_keys(refusals))
            &&& sorted_where_compared(order, decl_keys(types))
        },
        BodyView::Nexus { traits, types } => {
            &&& sorted_where_compared(order, trait_keys(traits))
            &&& sorted_where_compared(order, decl_keys(types))
        },
        BodyView::Sema { records, tables } => {
            &&& sorted_where_compared(order, type_decl_keys(records))
            &&& sorted_where_compared(order, table_keys(tables))
        },
    }
}

/// An accepted draft keeps its header's kind, a supported version, the
/// reader's exact metadata as the proposal's starting point, and a
/// projection of every prior.
pub proof fn lemma_prepared_envelope(catalog: BootstrapCatalog, draft: PreparedBootstrapDraft)
    requires
        prepared_valid(catalog, draft),
    ensures
        draft.decoded.document.header.kind == body_kind(draft.decoded.document.body),
        catalog.spec_versions().spec_supported().contains(draft.decoded.document.header.version),
        same_records(draft.naming_transition.spec_before().spec_records(), catalog.spec_metadata().spec_records()),
        priors_projected(catalog.spec_priors(), draft.naming_transition.spec_after()),
{
}

/// Unordered named collections of an accepted draft follow the canonical
/// bytes of their identities, and so do its generated Streams.
pub proof fn lemma_prepared_collections_ordered(catalog: BootstrapCatalog, draft: PreparedBootstrapDraft)
    requires
        prepared_valid(catalog, draft),
    ensures
        collections_ordered(draft.canonical_order, body_view(draft.decoded.document.body)),
        sorted_where_compared(draft.canonical_order, generation_outputs(draft.generated_streams@)),
{
    let env = body_env(catalog, draft);
    let p0 = fresh_progress();
    let b = body_view(draft.decoded.document.body);
    assert(check_body(env, p0, b) is Some);
    match b {
        BodyView::Interface { inputs, outputs, refusals, types, memberships } => {
            let p1 = check_role_section(env, p0, inputs);
            assert(p1 is Some);
            let p2 = check_role_section(env, p1.unwrap(), outputs);
            assert(p2 is Some);
            let p3 = check_role_section(env, p2.unwrap(), refusals);
            assert(p3 is Some);
            let p4 = check_decl_section(env, p3.unwrap(), types, true);
            assert(p4 is Some);
        },
        BodyView::Nexus { traits, types } => {
            let p1 = check_trait_section(env, p0, traits);
            assert(p1 is Some);
            assert(check_decl_section(env, p1.unwrap(), types, false) is Some);
        },
        BodyView::Sema { records, tables } => {
            let p1 = check_type_section(env, p0, records, true);
            assert(p1 is Some);
            assert(check_table_section(env, p1.unwrap(), tables) is Some);
        },
    }
    let p = check_body(env, p0, b).unwrap();
    assert(check_streams(env, p, draft.generated_streams@) is Some);
}

/// A generated Stream transaction: one-argument Stream of its event, a
/// termination referencing the direct output, three distinct identities,
/// and exactly the Input, Output, Input relations.
pub open spec fn generation_exact(stream_shape: EncodedName, g: PreparedStreamGeneration) -> bool {
    &&& g.output.stream_of_event.shape == stream_shape
    &&& g.output.stream_of_event.arguments@.len() == 1
    &&& g.termination.stream_handle == g.output.name
    &&& g.initiation.name != g.output.name
    &&& g.initiation.name != g.termination.name
    &&& g.output.name != g.termination.name
    &&& g.role_relations@ == seq![
        InterfaceRoleMembership { role: InterfaceRole::Input, target: g.initiation.name },
        InterfaceRoleMembership { role: InterfaceRole::Output, target: g.output.name },
        InterfaceRoleMembership { role: InterfaceRole::Input, target: g.termination.name },
    ]
}

proof fn lemma_find_stream_name(streams: Seq<StreamDeclView>, name: EncodedName)
    ensures
        find_stream(streams, name) matches Some(s) ==> s.name == name,
    decreases streams.len(),
{
    if streams.len() > 0 && streams[0].name != name {
        lemma_find_stream_name(streams.subrange(1, streams.len() as int), name);
    }
}

proof fn lemma_generations_exact(env: BodyEnv, p: Progress, outputs: Seq<EncodedName>, gs: Seq<PreparedStreamGeneration>)
    requires
        check_generations(env, p, outputs, gs) is Some,
    ensures
        forall|i: int| 0 <= i < gs.len() ==> generation_exact(env.ids.stream_shape, #[trigger] gs[i]),
    decreases gs.len(),
{
    if gs.len() > 0 {
        let g = gs[0];
        assert(check_generation(env, p, outputs, g) is Some);
        lemma_find_stream_name(p.streams, g.output.name);
        assert(g.role_relations@ == stream_relations(g));
        let rest = gs.subrange(1, gs.len() as int);
        let p1 = check_generation(env, p, outputs, g).unwrap();
        lemma_generations_exact(env, p1, outputs.push(g.output.name), rest);
        assert forall|i: int| 0 <= i < gs.len() implies generation_exact(env.ids.stream_shape, #[trigger] gs[i]) by {
            if i > 0 {
                assert(gs[i] == rest[i - 1]);
            }
        }
    }
}

/// Every generated Stream of an accepted draft has the exact audited
/// anatomy over the catalog's Stream Shape.
pub proof fn lemma_prepared_streams_exact(catalog: BootstrapCatalog, draft: PreparedBootstrapDraft)
    requires
        prepared_valid(catalog, draft),
    ensures
        forall|i: int| 0 <= i < draft.generated_streams@.len()
            ==> generation_exact(catalog.spec_priors().stream_shape, #[trigger] draft.generated_streams@[i]),
{
    let env = body_env(catalog, draft);
    let p = check_body(env, fresh_progress(), body_view(draft.decoded.document.body)).unwrap();
    assert(check_streams(env, p, draft.generated_streams@) is Some);
    lemma_generations_exact(env, p, Seq::empty(), draft.generated_streams@);
}

/// Every disposition of an accepted draft is admissible, and its canonical
/// order holds exactly the catalog's pairs and the minted ones.
pub proof fn lemma_prepared_dispositions(catalog: BootstrapCatalog, draft: PreparedBootstrapDraft)
    requires
        prepared_valid(catalog, draft),
    ensures
        forall|i: int| 0 <= i < draft.identity_dispositions@.len()
            ==> disposition_ok(catalog, draft.schema_additions, draft.canonical_order, #[trigger] draft.identity_dispositions@[i]),
        same_pairs(entry_pairs(draft.canonical_order.spec_entries()),
            entry_pairs(catalog.spec_canonical_order().spec_entries()) + minted_entries(draft.identity_dispositions@)),
{
    let env = body_env(catalog, draft);
    let p1 = check_body(env, fresh_progress(), body_view(draft.decoded.document.body)).unwrap();
    let p2 = check_streams(env, p1, draft.generated_streams@).unwrap();
    assert(dispositions_exact(catalog, draft.schema_additions, draft.canonical_order, draft.identity_dispositions@, p2.seen));
}

/// Shape and Nomos references resolve only to prior-vocabulary heads: an
/// imported or local identity never becomes language syntax.
pub proof fn lemma_heads_closed_over_priors(
    ids: BootstrapPriorIdentities,
    snapshot: TextualMetadataSnapshot,
    existing: IdentitySchemaCatalog,
    additions: IdentitySchemaCatalog,
    order: CanonicalIdentityOrder,
    local: Seq<EncodedName>,
    imported: Seq<(Seq<char>, EncodedName)>,
    spelling: Seq<char>,
)
    ensures
        resolution(ids, snapshot, existing, additions, order, local, imported, spelling, ReferenceNamespace::Shape) matches Some(id)
            ==> is_shape_prior(ids, id),
        resolution(ids, snapshot, existing, additions, order, local, imported, spelling, ReferenceNamespace::Nomos) matches Some(id)
            ==> id == ids.stream_nomos,
{
}


proof fn lemma_digit(d: int)
    requires
        0 <= d < 10,
    ensures
        is_digit(digit(d)),
        (digit(d) as nat) - ('0' as nat) == d,
        d > 0 ==> digit(d) != '0',
{
}

proof fn lemma_decimal(n: nat)
    ensures
        decimal(n).len() > 0,
        forall|k: int| 0 <= k < decimal(n).len() ==> is_digit(#[trigger] decimal(n)[k]),
        n > 0 ==> decimal(n)[0] != '0',
        n < 10 ==> decimal(n).len() == 1,
        decimal_value(decimal(n)) == n,
    decreases n,
{
    if n < 10 {
        lemma_digit(n as int);
        assert(decimal(n).drop_last() =~= Seq::<char>::empty());
        assert(decimal_value(decimal(n).drop_last()) == 0);
        assert(decimal(n).last() == digit(n as int));
    } else {
        let high = n / 10;
        let low = (n % 10) as int;
        lemma_decimal(high);
        lemma_digit(low);
        let text = decimal(n);
        assert(text == decimal(high) + seq![digit(low)]);
        assert(text.drop_last() =~= decimal(high));
        assert(text.last() == digit(low));
        assert forall|k: int| 0 <= k < text.len() implies is_digit(#[trigger] text[k]) by {
            if k < decimal(high).len() {
                assert(text[k] == decimal(high)[k]);
            }
        }
        assert(text[0] == decimal(high)[0]);
        assert(decimal_value(text) == decimal_value(decimal(high)) * 10 + low);
        assert(n == high * 10 + low);
    }
}

/// Every version component the writer spells is a canonical decimal atom that
/// the reader reads back as the same number.
pub proof fn lemma_version_component_round_trip(n: u64, bound: SourceBound)
    ensures
        canonical_decimal(SyntaxTree::Atom { text: decimal(n as nat), bound }) == Some(n),
{
    lemma_decimal(n as nat);
}

} // verus!
