//! Allocation-free occurrence planning: the authored declaration occurrences
//! of one source, discovered before any identity authority is used.
use vstd::prelude::*;

use crate::identity::EncodedName;
use super::catalog::{
    is_safe_bare_name, safe_bare_name, BootstrapPriorIdentities, CanonicalIdentityOrder,
    IdentitySchemaCatalog, NomosSchema, SchemaRole, TextualMetadataSnapshot,
};
use super::catalog::{BootstrapCatalog, IdentitySchema};
use super::error::BootstrapReadError;
use super::grammar::{lemma_trees_of, tree_of, trees_of, Delimiter, SourceBound, SyntaxNode, SyntaxTree, tree_bound, tree_kind_name};
use super::resolution::{bindings_view, resolve_visible_identity, ImportBinding};
use super::model::{EthosHeader, EthosVersion};
use super::resolution::{resolution, ReferenceNamespace};
use super::root::{header_kind, root_sections, BootstrapSectionSchema};

verus! {

/// The scope in which a planned name must be unique, by owner ordinal.
#[derive(Clone, Copy, Debug, PartialEq, Eq, Structural)]
pub enum ScopeKey {
    Module,
    Enum(u32),
    Trait(u32),
}

/// Semantic purpose of one authored naming request.
#[derive(Clone, Copy, Debug, PartialEq, Eq, Structural)]
pub enum DeclarationPurpose {
    Type,
    PersistentType,
    Variant,
    Trait,
    Method,
    Table,
    StreamInitiation,
}

/// One planned authored occurrence, mathematically.
pub ghost struct PlannedEntry {
    pub spelling: Seq<char>,
    pub bound: SourceBound,
    pub scope: ScopeKey,
    pub purpose: DeclarationPurpose,
}

/// One source-only import, mathematically.
pub ghost struct ImportView {
    pub module: Seq<Seq<char>>,
    pub names: Seq<Seq<char>>,
}

/// Everything name resolution during planning consults.
pub ghost struct PlanContext {
    pub ids: BootstrapPriorIdentities,
    pub snapshot: TextualMetadataSnapshot,
    pub schemas: IdentitySchemaCatalog,
    pub order: CanonicalIdentityOrder,
    pub imported: Seq<(Seq<char>, EncodedName)>,
}

/// Resolution against existing authority only: no local declarations and no
/// prepared additions exist before sealing.
pub open spec fn resolve_in(ctx: PlanContext, spelling: Seq<char>, namespace: ReferenceNamespace) -> Option<EncodedName> {
    resolution(ctx.ids, ctx.snapshot, ctx.schemas, ctx.schemas, ctx.order, Seq::empty(), ctx.imported, spelling, namespace)
}

/// The Shape arity catalogued for `identity`.
pub open spec fn shape_arity_of(schemas: IdentitySchemaCatalog, identity: EncodedName) -> Option<u16> {
    match schemas.spec_get(identity) {
        Some(s) => if exists|a: u16| s.spec_admits(SchemaRole::Shape { arity: a }) {
            Some(choose|a: u16| s.spec_admits(SchemaRole::Shape { arity: a }))
        } else {
            None
        },
        None => None,
    }
}

/// The audited Nomos schema catalogued for `identity`.
pub open spec fn nomos_of(schemas: IdentitySchemaCatalog, identity: EncodedName) -> Option<NomosSchema> {
    match schemas.spec_get(identity) {
        Some(s) => if exists|n: NomosSchema| s.spec_admits(SchemaRole::Nomos(n)) {
            Some(choose|n: NomosSchema| s.spec_admits(SchemaRole::Nomos(n)))
        } else {
            None
        },
        None => None,
    }
}

/// The Trait spelling of one item of a Trait requirement; only the first
/// item may name its local binder as `Binder.Trait`.
pub open spec fn trait_item_name(item: SyntaxTree, first: bool) -> Option<Seq<char>> {
    match item {
        SyntaxTree::Atom { text, .. } => Some(text),
        SyntaxTree::Application { head, payload, .. } => if first && safe_bare_name(head) {
            match *payload {
                SyntaxTree::Atom { text, .. } => Some(text),
                _ => None,
            }
        } else {
            None
        },
        _ => None,
    }
}

/// A Trait requirement is nonempty, its Trait spellings are safe, and no
/// spelling repeats.
pub open spec fn trait_items_ok(items: Seq<SyntaxTree>) -> bool {
    &&& items.len() > 0
    &&& forall|i: int| 0 <= i < items.len() ==> (trait_item_name(#[trigger] items[i], i == 0) matches Some(n) && safe_bare_name(n))
    &&& forall|i: int, j: int| 0 <= i < j < items.len()
        ==> trait_item_name(#[trigger] items[i], i == 0) != trait_item_name(#[trigger] items[j], j == 0)
}

/// A type expression is a safe nominal spelling, a Shape application at the
/// Shape's catalogued arity, or a Trait requirement.
pub open spec fn plan_expression_ok(ctx: PlanContext, t: SyntaxTree) -> bool
    decreases t,
{
    match t {
        SyntaxTree::Atom { text, .. } => safe_bare_name(text),
        SyntaxTree::AngleApplication { head, arguments, .. } => match resolve_in(ctx, head, ReferenceNamespace::Shape) {
            Some(id) => match shape_arity_of(ctx.schemas, id) {
                Some(a) => arguments.len() == a && forall|i: int| 0 <= i < arguments.len() ==> plan_expression_ok(ctx, #[trigger] arguments[i]),
                None => false,
            },
            None => false,
        },
        SyntaxTree::Delimited { delimiter, items, .. } => delimiter == Delimiter::Guillemets && trait_items_ok(items),
        SyntaxTree::Application { .. } => false,
    }
}

/// Every expression of a sequence is valid.
pub open spec fn plan_expressions_ok(ctx: PlanContext, ts: Seq<SyntaxTree>) -> bool {
    forall|i: int| 0 <= i < ts.len() ==> plan_expression_ok(ctx, #[trigger] ts[i])
}

/// `Head.(…)`: an application whose payload is parenthesized.
pub open spec fn is_nomos_projection(t: SyntaxTree) -> bool {
    t matches SyntaxTree::Application { payload, .. } && *payload matches SyntaxTree::Delimited { delimiter: Delimiter::Parenthesis, .. }
}

/// `Name.Head.(…)`: a declaration whose payload is a Nomos projection.
pub open spec fn is_nomos_declaration(t: SyntaxTree) -> bool {
    t matches SyntaxTree::Application { payload, .. } && is_nomos_projection(*payload)
}

/// The audited Stream projection `Stream.(Query Event)`.
pub open spec fn stream_projection_ok(ctx: PlanContext, t: SyntaxTree) -> bool {
    match t {
        SyntaxTree::Application { head, payload, .. } => match resolve_in(ctx, head, ReferenceNamespace::Nomos) {
            Some(id) => match nomos_of(ctx.schemas, id) {
                Some(NomosSchema::StreamInitiation { arity }) => id == ctx.ids.stream_nomos && match *payload {
                    SyntaxTree::Delimited { delimiter: Delimiter::Parenthesis, items, .. } =>
                        items.len() == arity && plan_expressions_ok(ctx, items),
                    _ => false,
                },
                None => false,
            },
            None => false,
        },
        _ => false,
    }
}

/// Record one authored occurrence; its spelling must be safe and unique in
/// its scope.
pub open spec fn add_entry(
    acc: Seq<PlannedEntry>,
    spelling: Seq<char>,
    bound: SourceBound,
    scope: ScopeKey,
    purpose: DeclarationPurpose,
) -> Option<Seq<PlannedEntry>> {
    if !safe_bare_name(spelling) || acc.len() >= u32::MAX
        || exists|k: int| 0 <= k < acc.len() && (#[trigger] acc[k]).scope == scope && acc[k].spelling == spelling {
        None
    } else {
        Some(acc.push(PlannedEntry { spelling, bound, scope, purpose }))
    }
}

/// Spellings are unique per exact scope only: an occurrence with a safe
/// spelling that no earlier occurrence of the same scope (the module, one
/// Enum owner, or one Trait owner) spells is recorded as the next entry,
/// whatever other scopes already spell.
pub proof fn lemma_scope_local_uniqueness(
    acc: Seq<PlannedEntry>,
    spelling: Seq<char>,
    bound: SourceBound,
    scope: ScopeKey,
    purpose: DeclarationPurpose,
)
    requires
        safe_bare_name(spelling),
        acc.len() < u32::MAX,
        forall|k: int| 0 <= k < acc.len() ==> !((#[trigger] acc[k]).scope == scope && acc[k].spelling == spelling),
    ensures
        add_entry(acc, spelling, bound, scope, purpose) == Some(acc.push(PlannedEntry { spelling, bound, scope, purpose })),
{
}

/// Members of two different owners never conflict: once one Trait (or Enum)
/// records a member spelling, a different owner may record the same spelling,
/// while the same owner may not record it twice.
pub proof fn lemma_owners_share_spellings(
    acc: Seq<PlannedEntry>,
    spelling: Seq<char>,
    first_bound: SourceBound,
    second_bound: SourceBound,
    first: ScopeKey,
    second: ScopeKey,
    purpose: DeclarationPurpose,
)
    requires
        first != second,
        safe_bare_name(spelling),
        acc.len() + 1 < u32::MAX,
        forall|k: int| 0 <= k < acc.len() ==> !((#[trigger] acc[k]).scope == first && acc[k].spelling == spelling),
        forall|k: int| 0 <= k < acc.len() ==> !((#[trigger] acc[k]).scope == second && acc[k].spelling == spelling),
    ensures
        add_entry(acc, spelling, first_bound, first, purpose) matches Some(a1)
            && add_entry(a1, spelling, second_bound, second, purpose) is Some
            && add_entry(a1, spelling, second_bound, first, purpose) is None,
{
    let a1 = acc.push(PlannedEntry { spelling, bound: first_bound, scope: first, purpose });
    lemma_scope_local_uniqueness(acc, spelling, first_bound, first, purpose);
    assert(a1[acc.len() as int].scope == first);
    assert forall|k: int| 0 <= k < a1.len() implies !((#[trigger] a1[k]).scope == second && a1[k].spelling == spelling) by {
        if k < acc.len() {
            assert(a1[k] == acc[k]);
        }
    }
    lemma_scope_local_uniqueness(a1, spelling, second_bound, second, purpose);
}

/// A variant payload: a nonempty brace product or one type expression.
pub open spec fn variant_payload_ok(ctx: PlanContext, p: SyntaxTree) -> bool {
    match p {
        SyntaxTree::Delimited { delimiter: Delimiter::Brace, items, .. } => items.len() > 0 && plan_expressions_ok(ctx, items),
        _ => plan_expression_ok(ctx, p),
    }
}

pub open spec fn plan_variant(ctx: PlanContext, t: SyntaxTree, owner: u32, acc: Seq<PlannedEntry>) -> Option<Seq<PlannedEntry>> {
    match t {
        SyntaxTree::Atom { text, bound } => add_entry(acc, text, bound, ScopeKey::Enum(owner), DeclarationPurpose::Variant),
        SyntaxTree::Application { head, head_bound, payload, .. } => match add_entry(acc, head, head_bound, ScopeKey::Enum(owner), DeclarationPurpose::Variant) {
            Some(a) => if variant_payload_ok(ctx, *payload) { Some(a) } else { None },
            None => None,
        },
        _ => None,
    }
}

pub open spec fn plan_variants(ctx: PlanContext, items: Seq<SyntaxTree>, owner: u32, acc: Seq<PlannedEntry>) -> Option<Seq<PlannedEntry>>
    decreases items.len(),
{
    if items.len() == 0 {
        Some(acc)
    } else {
        match plan_variant(ctx, items[0], owner, acc) {
            Some(a) => plan_variants(ctx, items.subrange(1, items.len() as int), owner, a),
            None => None,
        }
    }
}

/// A named type declaration: `Name.Expression`, `Name.{Fields}`,
/// `Name.[Variants]`, or (where admitted) `Name.Stream.(Query Event)`.
pub open spec fn plan_type(ctx: PlanContext, t: SyntaxTree, purpose: DeclarationPurpose, admit_nomos: bool, acc: Seq<PlannedEntry>) -> Option<Seq<PlannedEntry>> {
    match t {
        SyntaxTree::Application { head, head_bound, payload, .. } => if is_nomos_projection(*payload) {
            if !admit_nomos || !stream_projection_ok(ctx, *payload) {
                None
            } else {
                add_entry(acc, head, head_bound, ScopeKey::Module, DeclarationPurpose::StreamInitiation)
            }
        } else {
            let owner = acc.len() as u32;
            match add_entry(acc, head, head_bound, ScopeKey::Module, purpose) {
                Some(a) => match *payload {
                    SyntaxTree::Delimited { delimiter: Delimiter::Brace, items, .. } =>
                        if plan_expressions_ok(ctx, items) { Some(a) } else { None },
                    SyntaxTree::Delimited { delimiter: Delimiter::Square, items, .. } =>
                        if items.len() == 0 { None } else { plan_variants(ctx, items, owner, a) },
                    p => if plan_expression_ok(ctx, p) { Some(a) } else { None },
                },
                None => None,
            }
        },
        _ => None,
    }
}

pub open spec fn plan_method(ctx: PlanContext, t: SyntaxTree, owner: u32, acc: Seq<PlannedEntry>) -> Option<Seq<PlannedEntry>> {
    match t {
        SyntaxTree::Application { head, head_bound, payload, .. } => match *payload {
            SyntaxTree::Delimited { delimiter: Delimiter::Brace, items, .. } =>
                if items.len() > 0 && plan_expressions_ok(ctx, items) {
                    add_entry(acc, head, head_bound, ScopeKey::Trait(owner), DeclarationPurpose::Method)
                } else {
                    None
                },
            _ => None,
        },
        _ => None,
    }
}

pub open spec fn plan_methods(ctx: PlanContext, items: Seq<SyntaxTree>, owner: u32, acc: Seq<PlannedEntry>) -> Option<Seq<PlannedEntry>>
    decreases items.len(),
{
    if items.len() == 0 {
        Some(acc)
    } else {
        match plan_method(ctx, items[0], owner, acc) {
            Some(a) => plan_methods(ctx, items.subrange(1, items.len() as int), owner, a),
            None => None,
        }
    }
}

/// `TraitName.{method.{Parameters Return} …}`.
pub open spec fn plan_trait(ctx: PlanContext, t: SyntaxTree, acc: Seq<PlannedEntry>) -> Option<Seq<PlannedEntry>> {
    match t {
        SyntaxTree::Application { head, head_bound, payload, .. } => match *payload {
            SyntaxTree::Delimited { delimiter: Delimiter::Brace, items, .. } => {
                let owner = acc.len() as u32;
                match add_entry(acc, head, head_bound, ScopeKey::Module, DeclarationPurpose::Trait) {
                    Some(a) => plan_methods(ctx, items, owner, a),
                    None => None,
                }
            },
            _ => None,
        },
        _ => None,
    }
}

/// `table.{RecordType KeyType}`.
pub open spec fn plan_table(t: SyntaxTree, acc: Seq<PlannedEntry>) -> Option<Seq<PlannedEntry>> {
    match t {
        SyntaxTree::Application { head, head_bound, payload, .. } => match *payload {
            SyntaxTree::Delimited { delimiter: Delimiter::Brace, items, .. } =>
                if items.len() == 2 && items[0] is Atom && items[1] is Atom {
                    add_entry(acc, head, head_bound, ScopeKey::Module, DeclarationPurpose::Table)
                } else {
                    None
                },
            _ => None,
        },
        _ => None,
    }
}

pub open spec fn plan_section_item(ctx: PlanContext, schema: BootstrapSectionSchema, t: SyntaxTree, acc: Seq<PlannedEntry>) -> Option<Seq<PlannedEntry>> {
    match schema {
        BootstrapSectionSchema::Role(_) => match t {
            SyntaxTree::Atom { text, .. } => if safe_bare_name(text) { Some(acc) } else { None },
            _ => if is_nomos_declaration(t) { None } else { plan_type(ctx, t, DeclarationPurpose::Type, false, acc) },
        },
        BootstrapSectionSchema::Declarations { admit_nomos } => plan_type(ctx, t, DeclarationPurpose::Type, admit_nomos, acc),
        BootstrapSectionSchema::PersistentDeclarations => plan_type(ctx, t, DeclarationPurpose::PersistentType, false, acc),
        BootstrapSectionSchema::Traits => plan_trait(ctx, t, acc),
        BootstrapSectionSchema::Tables => plan_table(t, acc),
    }
}

pub open spec fn plan_section_items(ctx: PlanContext, schema: BootstrapSectionSchema, items: Seq<SyntaxTree>, acc: Seq<PlannedEntry>) -> Option<Seq<PlannedEntry>>
    decreases items.len(),
{
    if items.len() == 0 {
        Some(acc)
    } else {
        match plan_section_item(ctx, schema, items[0], acc) {
            Some(a) => plan_section_items(ctx, schema, items.subrange(1, items.len() as int), a),
            None => None,
        }
    }
}

/// One registered section is a square vector of its items.
pub open spec fn plan_section(ctx: PlanContext, schema: BootstrapSectionSchema, t: SyntaxTree, acc: Seq<PlannedEntry>) -> Option<Seq<PlannedEntry>> {
    match t {
        SyntaxTree::Delimited { delimiter: Delimiter::Square, items, .. } => plan_section_items(ctx, schema, items, acc),
        _ => None,
    }
}

pub open spec fn plan_sections(ctx: PlanContext, schemas: Seq<BootstrapSectionSchema>, fields: Seq<SyntaxTree>, acc: Seq<PlannedEntry>) -> Option<Seq<PlannedEntry>>
    decreases schemas.len(),
{
    if schemas.len() == 0 || fields.len() == 0 {
        Some(acc)
    } else {
        match plan_section(ctx, schemas[0], fields[0], acc) {
            Some(a) => plan_sections(ctx, schemas.subrange(1, schemas.len() as int), fields.subrange(1, fields.len() as int), a),
            None => None,
        }
    }
}

// ---------------------------------------------------------------------------
// Header and imports
// ---------------------------------------------------------------------------

pub open spec fn is_digit(c: char) -> bool {
    '0' <= c <= '9'
}

/// The value of a decimal digit string.
pub open spec fn decimal_value(text: Seq<char>) -> nat
    decreases text.len(),
{
    if text.len() == 0 {
        0
    } else {
        decimal_value(text.drop_last()) * 10 + ((text.last() as nat) - ('0' as nat)) as nat
    }
}

/// A canonical nonnegative decimal: digits only, no leading zero, in range.
pub open spec fn canonical_decimal(t: SyntaxTree) -> Option<u64> {
    match t {
        SyntaxTree::Atom { text, .. } => if text.len() > 0 && (forall|i: int| 0 <= i < text.len() ==> is_digit(#[trigger] text[i]))
            && !(text.len() > 1 && text[0] == '0') && decimal_value(text) <= u64::MAX {
            Some(decimal_value(text) as u64)
        } else {
            None
        },
        _ => None,
    }
}

/// `Kind.{Major Minor Patch}` with a metadata-projected kind and a supported
/// canonical version.
pub open spec fn plan_header(ids: BootstrapPriorIdentities, snapshot: TextualMetadataSnapshot, supported: Seq<EthosVersion>, t: SyntaxTree) -> Option<EthosHeader> {
    match t {
        SyntaxTree::Application { head, payload, .. } => match header_kind(ids, snapshot, head) {
            Some(kind) => match *payload {
                SyntaxTree::Delimited { delimiter: Delimiter::Brace, items, .. } => if items.len() == 3 {
                    match (canonical_decimal(items[0]), canonical_decimal(items[1]), canonical_decimal(items[2])) {
                        (Some(major), Some(minor), Some(patch)) => {
                            let version = EthosVersion { major, minor, patch };
                            if supported.contains(version) { Some(EthosHeader { kind, version }) } else { None }
                        },
                        _ => None,
                    }
                } else {
                    None
                },
                _ => None,
            },
            None => None,
        },
        _ => None,
    }
}

/// Split a spelling at every `:`.
pub open spec fn split_colon(t: Seq<char>, current: Seq<char>, acc: Seq<Seq<char>>) -> Seq<Seq<char>>
    decreases t.len(),
{
    if t.len() == 0 {
        acc.push(current)
    } else if t[0] == ':' {
        split_colon(t.drop_first(), Seq::empty(), acc.push(current))
    } else {
        split_colon(t.drop_first(), current.push(t[0]), acc)
    }
}

/// The module path spelled `a:b:c`.
pub open spec fn module_segments(t: Seq<char>) -> Seq<Seq<char>> {
    split_colon(t, Seq::empty(), Seq::empty())
}

/// A nonempty path of safe segments.
pub open spec fn valid_path_view(path: Seq<Seq<char>>) -> bool {
    path.len() > 0 && forall|i: int| 0 <= i < path.len() ==> safe_bare_name(#[trigger] path[i])
}

/// The spelling of an import selector item.
pub open spec fn atom_text(t: SyntaxTree) -> Seq<char> {
    match t {
        SyntaxTree::Atom { text, .. } => text,
        _ => Seq::empty(),
    }
}

/// `module:path.[Name …]`: a valid path and a nonempty vector of safe names,
/// each projected by metadata at that module.
pub open spec fn plan_import(snapshot: TextualMetadataSnapshot, t: SyntaxTree) -> Option<ImportView> {
    match t {
        SyntaxTree::Application { head, payload, .. } => {
            let path = module_segments(head);
            if !valid_path_view(path) {
                None
            } else {
                match *payload {
                    SyntaxTree::Delimited { delimiter: Delimiter::Square, items, .. } =>
                        if items.len() > 0 && forall|i: int| 0 <= i < items.len() ==> (#[trigger] items[i]) is Atom
                            && safe_bare_name(atom_text(items[i]))
                            && snapshot.spec_identity_at(path, None, atom_text(items[i])) is Some {
                            Some(ImportView { module: path, names: items.map_values(|item: SyntaxTree| atom_text(item)) })
                        } else {
                            None
                        },
                    _ => None,
                }
            }
        },
        _ => None,
    }
}

pub open spec fn plan_import_list(snapshot: TextualMetadataSnapshot, entries: Seq<SyntaxTree>) -> Option<Seq<ImportView>>
    decreases entries.len(),
{
    if entries.len() == 0 {
        Some(Seq::empty())
    } else {
        match (plan_import(snapshot, entries[0]), plan_import_list(snapshot, entries.subrange(1, entries.len() as int))) {
            (Some(first), Some(rest)) => Some(seq![first] + rest),
            _ => None,
        }
    }
}

/// The explicit square import vector.
pub open spec fn plan_imports(snapshot: TextualMetadataSnapshot, t: SyntaxTree) -> Option<Seq<ImportView>> {
    match t {
        SyntaxTree::Delimited { delimiter: Delimiter::Square, items, .. } => plan_import_list(snapshot, items),
        _ => None,
    }
}

/// The (name, identity) bindings that one import contributes.
pub open spec fn import_bindings_of(snapshot: TextualMetadataSnapshot, import: ImportView) -> Seq<(Seq<char>, EncodedName)> {
    import.names.map_values(|name: Seq<char>| (name, snapshot.spec_identity_at(import.module, None, name).unwrap()))
}

/// The bindings of all imports, in authored order.
pub open spec fn import_bindings(snapshot: TextualMetadataSnapshot, imports: Seq<ImportView>) -> Seq<(Seq<char>, EncodedName)>
    decreases imports.len(),
{
    if imports.len() == 0 {
        Seq::empty()
    } else {
        import_bindings(snapshot, imports.drop_last()) + import_bindings_of(snapshot, imports.last())
    }
}

} // verus!

verus! {

/// A Shape arity admitted by a well-formed schema is the only one.
pub proof fn lemma_unique_shape_arity(s: super::catalog::IdentitySchema, a: u16, b: u16)
    requires
        s.wf(),
        s.spec_admits(SchemaRole::Shape { arity: a }),
        s.spec_admits(SchemaRole::Shape { arity: b }),
    ensures
        a == b,
{
    if a != b {
        let i = choose|i: int| 0 <= i < s.spec_roles().len() && s.spec_roles()[i] == (SchemaRole::Shape { arity: a });
        let j = choose|j: int| 0 <= j < s.spec_roles().len() && s.spec_roles()[j] == (SchemaRole::Shape { arity: b });
        assert(s.spec_roles()[i] != s.spec_roles()[j]);
        assert(!super::catalog::same_role_family(s.spec_roles()[i], s.spec_roles()[j]));
    }
}

/// A Nomos schema admitted by a well-formed schema is the only one.
pub proof fn lemma_unique_nomos(s: super::catalog::IdentitySchema, a: NomosSchema, b: NomosSchema)
    requires
        s.wf(),
        s.spec_admits(SchemaRole::Nomos(a)),
        s.spec_admits(SchemaRole::Nomos(b)),
    ensures
        a == b,
{
    if a != b {
        let i = choose|i: int| 0 <= i < s.spec_roles().len() && s.spec_roles()[i] == SchemaRole::Nomos(a);
        let j = choose|j: int| 0 <= j < s.spec_roles().len() && s.spec_roles()[j] == SchemaRole::Nomos(b);
        assert(s.spec_roles()[i] != s.spec_roles()[j]);
        assert(!super::catalog::same_role_family(s.spec_roles()[i], s.spec_roles()[j]));
    }
}

} // verus!

verus! {

/// The planning context of a catalog and the (name, identity) pairs that
/// its imports bind.
pub open spec fn plan_context_of(catalog: BootstrapCatalog, imported: Seq<(Seq<char>, EncodedName)>) -> PlanContext {
    PlanContext {
        ids: catalog.spec_priors(),
        snapshot: catalog.spec_metadata(),
        schemas: catalog.spec_schemas(),
        order: catalog.spec_canonical_order(),
        imported,
    }
}

/// The planning context of a catalog and its import bindings.
pub open spec fn plan_context(catalog: BootstrapCatalog, imported: Seq<ImportBinding>) -> PlanContext {
    plan_context_of(catalog, bindings_view(imported))
}

/// The whole planning outcome of a parsed document: exactly a header, an
/// import vector and a brace body whose fields are the kind's registered
/// sections, yielding the header, the imports, and every authored occurrence.
pub open spec fn plan_document(catalog: BootstrapCatalog, roots: Seq<SyntaxTree>) -> Option<(EthosHeader, Seq<ImportView>, Seq<PlannedEntry>)> {
    if roots.len() != 3 {
        None
    } else {
        match plan_header(catalog.spec_priors(), catalog.spec_metadata(), catalog.spec_versions().spec_supported(), roots[0]) {
            None => None,
            Some(header) => match plan_imports(catalog.spec_metadata(), roots[1]) {
                None => None,
                Some(imports) => match roots[2] {
                    SyntaxTree::Delimited { delimiter: Delimiter::Brace, items, .. } => {
                        let sections = root_sections(header.kind);
                        if items.len() != sections.len() {
                            None
                        } else {
                            let ctx = plan_context_of(catalog, import_bindings(catalog.spec_metadata(), imports));
                            match plan_sections(ctx, sections, items, Seq::empty()) {
                                Some(entries) => Some((header, imports, entries)),
                                None => None,
                            }
                        }
                    },
                    _ => None,
                },
            },
        }
    }
}

/// Resolve a spelling against existing authority only.
pub fn resolve_existing(
    catalog: &BootstrapCatalog,
    imported: &Vec<ImportBinding>,
    spelling: &str,
    namespace: ReferenceNamespace,
) -> (r: Result<EncodedName, BootstrapReadError>)
    requires
        catalog.wf(),
    ensures
        r is Ok <==> resolve_in(plan_context(*catalog, imported@), spelling@, namespace) is Some,
        r matches Ok(id) ==> resolve_in(plan_context(*catalog, imported@), spelling@, namespace) == Some(id),
{
    let none: Vec<EncodedName> = Vec::new();
    assert(none@ =~= Seq::<EncodedName>::empty());
    resolve_visible_identity(
        catalog.priors(),
        catalog.metadata(),
        catalog.schemas(),
        catalog.schemas(),
        catalog.canonical_order(),
        &none,
        imported,
        spelling,
        namespace,
    )
}

/// The catalogued schema of a resolved identity.
pub(crate) fn existing_schema<'a>(catalog: &'a BootstrapCatalog, identity: EncodedName) -> (r: Result<&'a IdentitySchema, BootstrapReadError>)
    requires
        catalog.wf(),
    ensures
        r is Ok <==> catalog.spec_schemas().spec_get(identity) is Some,
        r matches Ok(s) ==> catalog.spec_schemas().spec_get(identity) == Some(*s) && s.wf(),
{
    match catalog.schemas().get(identity) {
        Some(schema) => {
            proof {
                let i = choose|i: int| 0 <= i < catalog.spec_schemas().spec_entries().len()
                    && (#[trigger] catalog.spec_schemas().spec_entries()[i]).spec_identity() == identity;
                assert(catalog.spec_schemas().spec_entries()[i].wf());
            }
            Ok(schema)
        },
        None => Err(BootstrapReadError::MissingSchema(identity)),
    }
}

pub(crate) fn shape_arity_exec(catalog: &BootstrapCatalog, identity: EncodedName) -> (r: Option<u16>)
    requires
        catalog.wf(),
    ensures
        r == shape_arity_of(catalog.spec_schemas(), identity),
{
    match existing_schema(catalog, identity) {
        Ok(schema) => {
            let r = schema.shape_arity();
            proof {
                if let Some(a) = r {
                    let b = choose|b: u16| schema.spec_admits(SchemaRole::Shape { arity: b });
                    lemma_unique_shape_arity(*schema, a, b);
                }
            }
            r
        },
        Err(_) => None,
    }
}

pub(crate) fn nomos_exec(catalog: &BootstrapCatalog, identity: EncodedName) -> (r: Option<NomosSchema>)
    requires
        catalog.wf(),
    ensures
        r == nomos_of(catalog.spec_schemas(), identity),
{
    match existing_schema(catalog, identity) {
        Ok(schema) => {
            let r = schema.nomos();
            proof {
                if let Some(a) = r {
                    let b = choose|b: NomosSchema| schema.spec_admits(SchemaRole::Nomos(b));
                    lemma_unique_nomos(*schema, a, b);
                }
            }
            r
        },
        Err(_) => None,
    }
}

pub(crate) fn unexpected_node(node: &SyntaxNode, expected: &'static str) -> (r: BootstrapReadError)
    ensures
        r == (BootstrapReadError::UnexpectedStructure {
            expected,
            found: tree_kind_name(tree_of(*node)),
            start: tree_bound(tree_of(*node)).start,
        }),
{
    BootstrapReadError::UnexpectedStructure { expected, found: node.kind_name(), start: node.bound().start }
}

/// The Trait spelling of one requirement item.
fn trait_item_name_exec(item: &SyntaxNode, first: bool) -> (r: Option<&String>)
    ensures
        match (r, trait_item_name(tree_of(*item), first)) {
            (Some(n), Some(m)) => n@ == m,
            (None, None) => true,
            _ => false,
        },
{
    match item {
        SyntaxNode::Atom { text, .. } => Some(text),
        SyntaxNode::Application { head, payload, .. } => {
            if first && is_safe_bare_name(head.as_str()) {
                match &**payload {
                    SyntaxNode::Atom { text, bound } => {
                        assert(tree_of(**payload) == (SyntaxTree::Atom { text: text@, bound: *bound }));
                        Some(text)
                    },
                    SyntaxNode::Application { .. } => {
                        assert(tree_of(**payload) is Application);
                        None
                    },
                    SyntaxNode::AngleApplication { .. } => {
                        assert(tree_of(**payload) is AngleApplication);
                        None
                    },
                    SyntaxNode::Delimited { .. } => {
                        assert(tree_of(**payload) is Delimited);
                        None
                    },
                }
            } else {
                None
            }
        },
        _ => None,
    }
}

/// Validate a Trait requirement's item spellings.
fn plan_trait_items(items: &Vec<SyntaxNode>) -> (r: Result<(), BootstrapReadError>)
    ensures
        r is Ok <==> trait_items_ok(trees_of(items@)),
{
    proof {
        lemma_trees_of(items@);
    }
    let ghost trees = trees_of(items@);
    if items.len() == 0 {
        return Err(BootstrapReadError::InvalidPreparedModel("Trait requirement is empty"));
    }
    let mut names: Vec<&String> = Vec::new();
    let mut i: usize = 0;
    while i < items.len()
        invariant
            i <= items@.len(),
            trees == trees_of(items@),
            trees.len() == items@.len(),
            forall|k: int| 0 <= k < items@.len() ==> #[trigger] trees[k] == tree_of(items@[k]),
            names@.len() == i,
            forall|k: int| 0 <= k < i ==> trait_item_name(#[trigger] trees[k], k == 0) == Some(names@[k]@),
            forall|k: int| 0 <= k < i ==> safe_bare_name(#[trigger] names@[k]@),
            forall|a: int, b: int| 0 <= a < b < i ==> (#[trigger] names@[a])@ != (#[trigger] names@[b])@,
        decreases items@.len() - i,
    {
        assert(trees[i as int] == tree_of(items@[i as int]));
        let name = match trait_item_name_exec(&items[i], i == 0) {
            Some(name) => name,
            None => {
                assert(!(trait_item_name(trees[i as int], i == 0) matches Some(n) && safe_bare_name(n)));
                return Err(BootstrapReadError::InvalidPreparedModel("Trait requirement item is not a Trait reference"));
            },
        };
        if !is_safe_bare_name(name.as_str()) {
            assert(!(trait_item_name(trees[i as int], i == 0) matches Some(n) && safe_bare_name(n)));
            return Err(BootstrapReadError::InvalidVisibleName(name.clone()));
        }
        let mut k: usize = 0;
        while k < i
            invariant
                k <= i < items@.len(),
                names@.len() == i,
                trees == trees_of(items@),
                trees.len() == items@.len(),
                trait_item_name(trees[i as int], i == 0) == Some(name@),
                forall|x: int| 0 <= x < i ==> trait_item_name(#[trigger] trees[x], x == 0) == Some(names@[x]@),
                forall|x: int| 0 <= x < k ==> (#[trigger] names@[x])@ != name@,
            decreases i - k,
        {
            if *names[k] == *name {
                proof {
                    assert(trait_item_name(trees[k as int], k == 0) == Some(names@[k as int]@));
                    assert(trait_item_name(trees[k as int], k == 0) == trait_item_name(trees[i as int], i == 0));
                    assert(0 <= k < i < trees.len());
                    assert(!trait_items_ok(trees));
                }
                return Err(BootstrapReadError::DuplicateTraitProjection(name.clone()));
            }
            k = k + 1;
        }
        names.push(name);
        i = i + 1;
    }
    proof {
        assert forall|a: int, b: int| 0 <= a < b < trees.len()
            implies trait_item_name(#[trigger] trees[a], a == 0) != trait_item_name(#[trigger] trees[b], b == 0) by {
            assert(names@[a]@ != names@[b]@);
        }
        assert forall|a: int| 0 <= a < trees.len()
            implies (trait_item_name(#[trigger] trees[a], a == 0) matches Some(n) && safe_bare_name(n)) by {
            assert(safe_bare_name(names@[a]@));
        }
    }
    Ok(())
}

/// Validate one type expression during planning.
#[verifier::loop_isolation(false)]
pub fn plan_expression(catalog: &BootstrapCatalog, imported: &Vec<ImportBinding>, node: &SyntaxNode) -> (r: Result<(), BootstrapReadError>)
    requires
        catalog.wf(),
    ensures
        r is Ok <==> plan_expression_ok(plan_context(*catalog, imported@), tree_of(*node)),
    decreases node,
{
    let ghost ctx = plan_context(*catalog, imported@);
    match node {
        SyntaxNode::Atom { text, .. } => validate_name(text),
        SyntaxNode::AngleApplication { head, arguments, .. } => {
            let identity = match resolve_existing(catalog, imported, head.as_str(), ReferenceNamespace::Shape) {
                Ok(identity) => identity,
                Err(e) => {
                    return Err(e);
                },
            };
            let arity = match shape_arity_exec(catalog, identity) {
                Some(arity) => arity,
                None => {
                    return Err(BootstrapReadError::WrongSchemaRole { identity, required: SchemaRole::Shape { arity: 0 } });
                },
            };
            proof {
                lemma_trees_of(arguments@);
            }
            if arguments.len() != arity as usize {
                return Err(BootstrapReadError::ShapeArity { identity, expected: arity, found: arguments.len() });
            }
            let mut i: usize = 0;
            while i < arguments.len()
                invariant
                    i <= arguments@.len(),
                    catalog.wf(),
                    ctx == plan_context(*catalog, imported@),
                    trees_of(arguments@).len() == arguments@.len(),
                    forall|k: int| 0 <= k < arguments@.len() ==> #[trigger] trees_of(arguments@)[k] == tree_of(arguments@[k]),
                    forall|k: int| 0 <= k < i ==> plan_expression_ok(ctx, #[trigger] trees_of(arguments@)[k]),
                decreases arguments@.len() - i,
            {
                proof {
                    assert(tree_of(arguments@[i as int]) == trees_of(arguments@)[i as int]);
                    assert(decreases_to!(*node => *arguments));
                    assert(decreases_to!(*arguments => arguments@));
                    assert(decreases_to!(arguments@ => arguments@[i as int]));
                }
                if let Err(e) = plan_expression(catalog, imported, &arguments[i]) {
                    return Err(e);
                }
                i = i + 1;
            }
            Ok(())
        },
        SyntaxNode::Delimited { delimiter, items, .. } => {
            match delimiter {
                Delimiter::Guillemets => plan_trait_items(items),
                _ => Err(unexpected_node(node, "TypeReference, Shape application, or Trait requirement")),
            }
        },
        SyntaxNode::Application { .. } => Err(unexpected_node(node, "TypeReference, Shape application, or Trait requirement")),
    }
}

fn validate_name(text: &String) -> (r: Result<(), BootstrapReadError>)
    ensures
        r is Ok <==> safe_bare_name(text@),
{
    super::catalog::validate_visible_name(text.as_str())
}

/// Validate a sequence of type expressions during planning.
pub fn plan_expressions(catalog: &BootstrapCatalog, imported: &Vec<ImportBinding>, items: &Vec<SyntaxNode>) -> (r: Result<(), BootstrapReadError>)
    requires
        catalog.wf(),
    ensures
        r is Ok <==> plan_expressions_ok(plan_context(*catalog, imported@), trees_of(items@)),
{
    let ghost ctx = plan_context(*catalog, imported@);
    proof {
        lemma_trees_of(items@);
    }
    let mut i: usize = 0;
    while i < items.len()
        invariant
            i <= items@.len(),
            catalog.wf(),
            ctx == plan_context(*catalog, imported@),
            trees_of(items@).len() == items@.len(),
            forall|k: int| 0 <= k < items@.len() ==> #[trigger] trees_of(items@)[k] == tree_of(items@[k]),
            forall|k: int| 0 <= k < i ==> plan_expression_ok(ctx, #[trigger] trees_of(items@)[k]),
        decreases items@.len() - i,
    {
        assert(trees_of(items@)[i as int] == tree_of(items@[i as int]));
        if let Err(e) = plan_expression(catalog, imported, &items[i]) {
            return Err(e);
        }
        i = i + 1;
    }
    Ok(())
}

} // verus!
