//! Occurrence planning over a parsed source: the public plan handles and the
//! planner that enumerates authored declaration occurrences.
use vstd::prelude::*;

use super::catalog::{
    clone_path, is_safe_bare_name, path_view, safe_bare_name, str_equal, valid_module_path,
    validate_module_path, validate_visible_name, BootstrapCatalog, NomosSchema, SchemaRole,
    TextualMetadataSnapshot,
};
use super::root::{resolve_header, root_sections, section_order};
use super::grammar::{parse_roots, BootstrapGrammar, BootstrapGrammarIdentities};
use super::error::BootstrapBuildError;
use super::model::EthosKind;
use super::model::EthosVersion;
use crate::text::{chars_of, string_of};
use super::writer::{decimal, push_decimal};
use super::root::BootstrapSectionSchema;
use super::error::BootstrapReadError;
use super::grammar::{lemma_trees_of, tree_of, trees_of, Delimiter, SourceBound, SyntaxNode, SyntaxTree, tree_bound, tree_kind_name};
use super::model::{EthosHeader, ImportEntry};
use super::root::header_kind;
use super::catalog::BootstrapPriorIdentities;
use super::planning::{
    add_entry, is_nomos_declaration, is_nomos_projection, nomos_exec, plan_context, plan_expression,
    plan_expressions, plan_method, plan_methods, plan_section, plan_section_item, plan_section_items,
    plan_sections, plan_table, plan_trait, plan_type, plan_variant, plan_variants, resolve_existing,
    stream_projection_ok, atom_text, canonical_decimal, decimal_value, is_digit, module_segments,
    plan_header, plan_import, plan_import_list, plan_imports, split_colon, valid_path_view,
    import_bindings, import_bindings_of, plan_document,
    unexpected_node, DeclarationPurpose, ImportView, PlannedEntry, ScopeKey,
};
use super::resolution::{bindings_view, ImportBinding, ReferenceNamespace};
use crate::identity::EncodedName;

verus! {

/// Ephemeral, plan-local handle for one authored declaration occurrence.
#[derive(Clone, Copy, Debug, PartialEq, Eq, Structural)]
pub struct DeclarationOccurrence {
    plan: u64,
    ordinal: u32,
}

impl DeclarationOccurrence {
    /// The plan that issued this handle.
    pub closed spec fn spec_plan(self) -> u64 {
        self.plan
    }

    /// The position of the occurrence in its plan.
    pub closed spec fn spec_ordinal(self) -> u32 {
        self.ordinal
    }

    /// The occurrence handle of position `ordinal` in plan `plan`.
    pub closed spec fn spec_new(plan: u64, ordinal: u32) -> Self {
        DeclarationOccurrence { plan, ordinal }
    }

    pub proof fn lemma_spec_new(plan: u64, ordinal: u32)
        ensures
            Self::spec_new(plan, ordinal).spec_plan() == plan,
            Self::spec_new(plan, ordinal).spec_ordinal() == ordinal,
            forall|o: Self| o.spec_plan() == plan && o.spec_ordinal() == ordinal ==> o == Self::spec_new(plan, ordinal),
    {
    }

    pub fn ordinal(self) -> (r: u32)
        ensures
            r == self.spec_ordinal(),
    {
        self.ordinal
    }

    fn new(plan: u64, ordinal: u32) -> (r: Self)
        ensures
            r == Self::spec_new(plan, ordinal),
            r.spec_plan() == plan,
            r.spec_ordinal() == ordinal,
    {
        DeclarationOccurrence { plan, ordinal }
    }
}

/// The exact scope in which an authored visible name must be unique.
#[derive(Clone, Copy, Debug, PartialEq, Eq, Structural)]
pub enum PlannedScope {
    Module,
    Enum(DeclarationOccurrence),
    Trait(DeclarationOccurrence),
}

/// The scope of a planned occurrence, by its owner's ordinal.
pub open spec fn scope_key(scope: PlannedScope) -> ScopeKey {
    match scope {
        PlannedScope::Module => ScopeKey::Module,
        PlannedScope::Enum(o) => ScopeKey::Enum(o.spec_ordinal()),
        PlannedScope::Trait(o) => ScopeKey::Trait(o.spec_ordinal()),
    }
}

/// The owner occurrences of a scope belong to plan `plan`.
pub open spec fn scope_in_plan(scope: PlannedScope, plan: u64) -> bool {
    match scope {
        PlannedScope::Module => true,
        PlannedScope::Enum(o) => o.spec_plan() == plan,
        PlannedScope::Trait(o) => o.spec_plan() == plan,
    }
}

/// One exact authored occurrence discovered before identity authority is used.
#[derive(Debug)]
pub struct PlannedDeclaration {
    occurrence: DeclarationOccurrence,
    spelling: String,
    bound: SourceBound,
    scope: PlannedScope,
    purpose: DeclarationPurpose,
}

impl PlannedDeclaration {
    pub closed spec fn spec_occurrence(&self) -> DeclarationOccurrence {
        self.occurrence
    }

    pub closed spec fn spec_spelling(&self) -> Seq<char> {
        self.spelling@
    }

    pub closed spec fn spec_bound(&self) -> SourceBound {
        self.bound
    }

    pub closed spec fn spec_scope(&self) -> PlannedScope {
        self.scope
    }

    pub closed spec fn spec_purpose(&self) -> DeclarationPurpose {
        self.purpose
    }

    /// The planned entry this declaration records.
    pub open spec fn entry(&self) -> PlannedEntry {
        PlannedEntry {
            spelling: self.spec_spelling(),
            bound: self.spec_bound(),
            scope: scope_key(self.spec_scope()),
            purpose: self.spec_purpose(),
        }
    }

    pub fn occurrence(&self) -> (r: DeclarationOccurrence)
        ensures
            r == self.spec_occurrence(),
    {
        self.occurrence
    }

    pub fn spelling(&self) -> (r: &str)
        ensures
            r@ == self.spec_spelling(),
    {
        self.spelling.as_str()
    }

    pub fn bound(&self) -> (r: SourceBound)
        ensures
            r == self.spec_bound(),
    {
        self.bound
    }

    pub fn scope(&self) -> (r: PlannedScope)
        ensures
            r == self.spec_scope(),
    {
        self.scope
    }

    pub fn purpose(&self) -> (r: DeclarationPurpose)
        ensures
            r == self.spec_purpose(),
    {
        self.purpose
    }
}

/// The planned entries of a declaration sequence.
pub open spec fn entries_of(declarations: Seq<PlannedDeclaration>) -> Seq<PlannedEntry> {
    declarations.map_values(|d: PlannedDeclaration| d.entry())
}

/// Every planned spelling is a safe bare name, and no two occurrences share a
/// spelling within one scope (the module, or one owner's enum or trait).
pub open spec fn distinct_in_scope(entries: Seq<PlannedEntry>) -> bool {
    &&& forall|k: int| 0 <= k < entries.len() ==> safe_bare_name((#[trigger] entries[k]).spelling)
    &&& forall|i: int, j: int| 0 <= i < j < entries.len() ==> !((#[trigger] entries[i]).scope == (#[trigger] entries[j]).scope
        && entries[i].spelling == entries[j].spelling)
}

/// Declarations numbered `0..` in plan `plan`, each scoped to an earlier
/// owner of the same plan.
pub open spec fn numbered_in_plan(plan: u64, declarations: Seq<PlannedDeclaration>) -> bool {
    &&& declarations.len() <= u32::MAX
    &&& forall|k: int| 0 <= k < declarations.len() ==> {
        &&& (#[trigger] declarations[k]).spec_occurrence().spec_plan() == plan
        &&& declarations[k].spec_occurrence().spec_ordinal() == k
        &&& scope_in_plan(declarations[k].spec_scope(), plan)
    }
}

/// Enumerates authored occurrences in source order.
struct OccurrencePlanner {
    plan: u64,
    declarations: Vec<PlannedDeclaration>,
}

impl OccurrencePlanner {
    spec fn inv(&self) -> bool {
        &&& numbered_in_plan(self.plan, self.declarations@)
        &&& distinct_in_scope(entries_of(self.declarations@))
    }

    spec fn entries(&self) -> Seq<PlannedEntry> {
        entries_of(self.declarations@)
    }

    fn new(plan: u64) -> (r: Self)
        ensures
            r.inv(),
            r.plan == plan,
            r.entries() == Seq::<PlannedEntry>::empty(),
    {
        let r = OccurrencePlanner { plan, declarations: Vec::new() };
        assert(r.entries() =~= Seq::<PlannedEntry>::empty());
        r
    }

    /// Record one occurrence; returns its ordinal.
    fn add(
        &mut self,
        spelling: &String,
        bound: SourceBound,
        scope: ScopeKey,
        purpose: DeclarationPurpose,
    ) -> (r: Result<u32, BootstrapReadError>)
        requires
            old(self).inv(),
        ensures
            final(self).inv(),
            final(self).plan == old(self).plan,
            match add_entry(old(self).entries(), spelling@, bound, scope, purpose) {
                Some(a) => r == Ok::<u32, BootstrapReadError>(old(self).entries().len() as u32) && final(self).entries() == a,
                None => r is Err,
            },
            r is Err ==> final(self).entries() == old(self).entries(),
            !safe_bare_name(spelling@) ==> (r matches Err(BootstrapReadError::InvalidVisibleName(n))
                && n@ == spelling@),
            safe_bare_name(spelling@) && old(self).entries().len() >= u32::MAX ==> r == Err::<u32, BootstrapReadError>(
                BootstrapReadError::InvalidPreparedModel("too many declaration occurrences"),
            ),
            safe_bare_name(spelling@) && old(self).entries().len() < u32::MAX && (exists|k: int|
                0 <= k < old(self).entries().len() && (#[trigger] old(self).entries()[k]).scope == scope
                    && old(self).entries()[k].spelling == spelling@) ==> (r matches Err(
                BootstrapReadError::DuplicateDeclaration { name, scope: reported },
            ) && name@ == spelling@ && reported@ == scope_text(scope)),
            safe_bare_name(spelling@) && old(self).entries().len() < u32::MAX && (forall|k: int|
                0 <= k < old(self).entries().len() ==> !((#[trigger] old(self).entries()[k]).scope == scope
                    && old(self).entries()[k].spelling == spelling@)) ==> r == Ok::<u32, BootstrapReadError>(
                old(self).entries().len() as u32,
            ) && final(self).entries() == old(self).entries().push(PlannedEntry { spelling: spelling@, bound, scope, purpose }),
    {
        let ghost before = self.entries();
        if !is_safe_bare_name(spelling.as_str()) {
            return Err(BootstrapReadError::InvalidVisibleName(spelling.clone()));
        }
        let n = self.declarations.len();
        if n >= 0xffff_ffffusize {
            return Err(BootstrapReadError::InvalidPreparedModel("too many declaration occurrences"));
        }
        let mut k: usize = 0;
        while k < n
            invariant
                n == self.declarations@.len(),
                k <= n,
                self.inv(),
                self.plan == old(self).plan,
                before == self.entries(),
                safe_bare_name(spelling@),
                n < u32::MAX,
                forall|j: int| 0 <= j < k ==> !((#[trigger] before[j]).scope == scope && before[j].spelling == spelling@),
            decreases n - k,
        {
            let d = &self.declarations[k];
            assert(before[k as int] == d.entry());
            if scope_key_of(d.scope) == scope && str_equal(d.spelling.as_str(), spelling.as_str()) {
                return Err(BootstrapReadError::DuplicateDeclaration { name: spelling.clone(), scope: scope_spelling(scope) });
            }
            k = k + 1;
        }
        let ordinal = n as u32;
        let planned_scope = match scope {
            ScopeKey::Module => PlannedScope::Module,
            ScopeKey::Enum(owner) => PlannedScope::Enum(DeclarationOccurrence::new(self.plan, owner)),
            ScopeKey::Trait(owner) => PlannedScope::Trait(DeclarationOccurrence::new(self.plan, owner)),
        };
        let d = PlannedDeclaration {
            occurrence: DeclarationOccurrence::new(self.plan, ordinal),
            spelling: spelling.clone(),
            bound,
            scope: planned_scope,
            purpose,
        };
        self.declarations.push(d);
        proof {
            let e = PlannedEntry { spelling: spelling@, bound, scope, purpose };
            assert(self.entries() =~= before.push(e));
            assert forall|i: int, j: int| 0 <= i < j < self.entries().len() implies !((#[trigger] self.entries()[i]).scope
                == (#[trigger] self.entries()[j]).scope && self.entries()[i].spelling == self.entries()[j].spelling) by {
                if j == before.len() {
                    assert(self.entries()[i] == before[i]);
                } else {
                    assert(self.entries()[i] == before[i]);
                    assert(self.entries()[j] == before[j]);
                }
            }
            assert forall|k: int| 0 <= k < self.entries().len() implies safe_bare_name((#[trigger] self.entries()[k]).spelling) by {
                if k < before.len() {
                    assert(self.entries()[k] == before[k]);
                }
            }
        }
        Ok(ordinal)
    }
}

fn scope_key_of(scope: PlannedScope) -> (r: ScopeKey)
    ensures
        r == scope_key(scope),
{
    match scope {
        PlannedScope::Module => ScopeKey::Module,
        PlannedScope::Enum(o) => ScopeKey::Enum(o.ordinal()),
        PlannedScope::Trait(o) => ScopeKey::Trait(o.ordinal()),
    }
}

/// The scope named in a duplicate-declaration report: `Module`, or the
/// owner kind with the owner's occurrence ordinal, such as `Enum(0)`.
pub open spec fn scope_text(scope: ScopeKey) -> Seq<char> {
    match scope {
        ScopeKey::Module => seq!['M', 'o', 'd', 'u', 'l', 'e'],
        ScopeKey::Enum(owner) => seq!['E', 'n', 'u', 'm', '('] + decimal(owner as nat) + seq![')'],
        ScopeKey::Trait(owner) => seq!['T', 'r', 'a', 'i', 't', '('] + decimal(owner as nat) + seq![')'],
    }
}

fn scope_spelling(scope: ScopeKey) -> (r: String)
    ensures
        r@ == scope_text(scope),
{
    let mut out: Vec<char> = Vec::new();
    match scope {
        ScopeKey::Module => {
            out.push('M');
            out.push('o');
            out.push('d');
            out.push('u');
            out.push('l');
            out.push('e');
        },
        ScopeKey::Enum(owner) => {
            out.push('E');
            out.push('n');
            out.push('u');
            out.push('m');
            out.push('(');
            push_decimal(&mut out, owner as u64);
            out.push(')');
        },
        ScopeKey::Trait(owner) => {
            out.push('T');
            out.push('r');
            out.push('a');
            out.push('i');
            out.push('t');
            out.push('(');
            push_decimal(&mut out, owner as u64);
            out.push(')');
        },
    }
    assert(out@ =~= scope_text(scope));
    string_of(&out)
}

} // verus!

verus! {

/// A table declaration's shape: `name.{RecordType KeyType}` with two atoms.
pub open spec fn table_shaped(t: SyntaxTree) -> bool {
    match t {
        SyntaxTree::Application { payload, .. } => match *payload {
            SyntaxTree::Delimited { delimiter: Delimiter::Brace, items, .. } => items.len() == 2
                && items[0] is Atom && items[1] is Atom,
            _ => false,
        },
        _ => false,
    }
}

/// The refusals a header reports by name: a kind spelling that no file-kind
/// prior projects is `UnknownFileKind` with that spelling, and a canonical
/// version the catalog does not support is `UnsupportedVersion` with that
/// version and the supported list.
pub open spec fn header_refusal<T>(
    ids: BootstrapPriorIdentities,
    snapshot: TextualMetadataSnapshot,
    supported: Seq<EthosVersion>,
    t: SyntaxTree,
    r: Result<T, BootstrapReadError>,
) -> bool {
    match t {
        SyntaxTree::Application { head, payload, .. } => match header_kind(ids, snapshot, head) {
            None => r matches Err(BootstrapReadError::UnknownFileKind(k)) && k@ == head,
            Some(_) => match *payload {
                SyntaxTree::Delimited { delimiter: Delimiter::Brace, items, .. } => items.len() == 3 ==> match (
                    canonical_decimal(items[0]),
                    canonical_decimal(items[1]),
                    canonical_decimal(items[2]),
                ) {
                    (Some(major), Some(minor), Some(patch)) => {
                        let version = EthosVersion { major, minor, patch };
                        !supported.contains(version) ==> (r matches Err(
                            BootstrapReadError::UnsupportedVersion { found, supported: listed },
                        ) && found == version && listed@ == supported)
                    },
                    _ => true,
                },
                _ => true,
            },
        },
        _ => true,
    }
}

/// The result of one planning step against its specification.
pub open spec fn planned(r: Result<(), BootstrapReadError>, expected: Option<Seq<PlannedEntry>>, after: Seq<PlannedEntry>) -> bool {
    match expected {
        Some(a) => r is Ok && after == a,
        None => r is Err,
    }
}

fn is_nomos_projection_exec(node: &SyntaxNode) -> (r: bool)
    ensures
        r == is_nomos_projection(tree_of(*node)),
{
    proof {
        reveal_with_fuel(tree_of, 3);
    }
    match node {
        SyntaxNode::Application { payload, .. } => match &**payload {
            SyntaxNode::Delimited { delimiter: Delimiter::Parenthesis, .. } => true,
            _ => false,
        },
        _ => false,
    }
}

fn is_nomos_declaration_exec(node: &SyntaxNode) -> (r: bool)
    ensures
        r == is_nomos_declaration(tree_of(*node)),
{
    proof {
        reveal_with_fuel(tree_of, 3);
    }
    match node {
        SyntaxNode::Application { payload, .. } => is_nomos_projection_exec(payload),
        _ => false,
    }
}

/// Validate the audited `Stream.(Query Event)` projection.
fn validate_stream_projection(
    catalog: &BootstrapCatalog,
    imported: &Vec<ImportBinding>,
    node: &SyntaxNode,
) -> (r: Result<(), BootstrapReadError>)
    requires
        catalog.wf(),
    ensures
        r is Ok <==> stream_projection_ok(plan_context(*catalog, imported@), tree_of(*node)),
{
    proof {
        reveal_with_fuel(tree_of, 2);
    }
    match node {
        SyntaxNode::Application { head, payload, .. } => {
            let identity = match resolve_existing(catalog, imported, head.as_str(), ReferenceNamespace::Nomos) {
                Ok(identity) => identity,
                Err(e) => {
                    return Err(e);
                },
            };
            let required = SchemaRole::Nomos(NomosSchema::StreamInitiation { arity: 2 });
            match nomos_exec(catalog, identity) {
                Some(NomosSchema::StreamInitiation { arity }) => {
                    if identity != catalog.priors().identities().stream_nomos {
                        return Err(BootstrapReadError::WrongSchemaRole { identity, required });
                    }
                    match &**payload {
                        SyntaxNode::Delimited { delimiter: Delimiter::Parenthesis, items, .. } => {
                            proof {
                                lemma_trees_of(items@);
                            }
                            if items.len() != arity as usize {
                                return Err(BootstrapReadError::NomosArity { identity, expected: arity, found: items.len() });
                            }
                            proof {
                                lemma_trees_of(items@);
                            }
                            plan_expressions(catalog, imported, items)
                        },
                        _ => Err(unexpected_node(payload, "Nomos arguments")),
                    }
                },
                None => Err(BootstrapReadError::WrongSchemaRole { identity, required }),
            }
        },
        _ => Err(unexpected_node(node, "audited Nomos application")),
    }
}

impl OccurrencePlanner {
    fn discover_variant(
        &mut self,
        catalog: &BootstrapCatalog,
        imported: &Vec<ImportBinding>,
        node: &SyntaxNode,
        owner: u32,
    ) -> (r: Result<(), BootstrapReadError>)
        requires
            old(self).inv(),
            catalog.wf(),
        ensures
            final(self).inv(),
            final(self).plan == old(self).plan,
            planned(r, plan_variant(plan_context(*catalog, imported@), tree_of(*node), owner, old(self).entries()), final(self).entries()),
    {
        proof {
            reveal_with_fuel(tree_of, 2);
        }
        match node {
            SyntaxNode::Atom { text, bound } => {
                match self.add(text, *bound, ScopeKey::Enum(owner), DeclarationPurpose::Variant) {
                    Ok(_) => Ok(()),
                    Err(e) => Err(e),
                }
            },
            SyntaxNode::Application { head, head_bound, payload, .. } => {
                if let Err(e) = self.add(head, *head_bound, ScopeKey::Enum(owner), DeclarationPurpose::Variant) {
                    return Err(e);
                }
                match &**payload {
                    SyntaxNode::Delimited { delimiter: Delimiter::Brace, items, .. } => {
                        proof {
                            lemma_trees_of(items@);
                        }
                        if items.len() == 0 {
                            return Err(unexpected_node(payload, "nonempty product variant"));
                        }
                        plan_expressions(catalog, imported, items)
                    },
                    _ => plan_expression(catalog, imported, payload),
                }
            },
            _ => Err(unexpected_node(node, "enum variant declaration")),
        }
    }

    fn discover_variants(
        &mut self,
        catalog: &BootstrapCatalog,
        imported: &Vec<ImportBinding>,
        items: &Vec<SyntaxNode>,
        owner: u32,
    ) -> (r: Result<(), BootstrapReadError>)
        requires
            old(self).inv(),
            catalog.wf(),
        ensures
            final(self).inv(),
            final(self).plan == old(self).plan,
            planned(r, plan_variants(plan_context(*catalog, imported@), trees_of(items@), owner, old(self).entries()), final(self).entries()),
    {
        let ghost ctx = plan_context(*catalog, imported@);
        let ghost trees = trees_of(items@);
        proof {
            lemma_trees_of(items@);
            assert(trees.subrange(0, trees.len() as int) =~= trees);
        }
        let mut i: usize = 0;
        while i < items.len()
            invariant
                i <= items@.len(),
                catalog.wf(),
                self.inv(),
                self.plan == old(self).plan,
                ctx == plan_context(*catalog, imported@),
                trees == trees_of(items@),
                trees.len() == items@.len(),
                forall|k: int| 0 <= k < items@.len() ==> #[trigger] trees[k] == tree_of(items@[k]),
                plan_variants(ctx, trees, owner, old(self).entries())
                    == plan_variants(ctx, trees.subrange(i as int, trees.len() as int), owner, self.entries()),
            decreases items@.len() - i,
        {
            let ghost rest = trees.subrange(i as int, trees.len() as int);
            proof {
                assert(rest[0] == tree_of(items@[i as int]));
                assert(rest.subrange(1, rest.len() as int) =~= trees.subrange(i + 1, trees.len() as int));
            }
            if let Err(e) = self.discover_variant(catalog, imported, &items[i], owner) {
                return Err(e);
            }
            i = i + 1;
        }
        Ok(())
    }

    fn discover_type(
        &mut self,
        catalog: &BootstrapCatalog,
        imported: &Vec<ImportBinding>,
        node: &SyntaxNode,
        purpose: DeclarationPurpose,
        admit_nomos: bool,
    ) -> (r: Result<(), BootstrapReadError>)
        requires
            old(self).inv(),
            catalog.wf(),
        ensures
            final(self).inv(),
            final(self).plan == old(self).plan,
            planned(r, plan_type(plan_context(*catalog, imported@), tree_of(*node), purpose, admit_nomos, old(self).entries()), final(self).entries()),
    {
        proof {
            reveal_with_fuel(tree_of, 2);
        }
        match node {
            SyntaxNode::Application { head, head_bound, payload, .. } => {
                if is_nomos_projection_exec(payload) {
                    if !admit_nomos {
                        return Err(match purpose {
                            DeclarationPurpose::PersistentType => BootstrapReadError::NonPersistentDeclaration,
                            _ => BootstrapReadError::StreamOutsideInterfaceTypes,
                        });
                    }
                    if let Err(e) = validate_stream_projection(catalog, imported, payload) {
                        return Err(e);
                    }
                    return match self.add(head, *head_bound, ScopeKey::Module, DeclarationPurpose::StreamInitiation) {
                        Ok(_) => Ok(()),
                        Err(e) => Err(e),
                    };
                }
                let owner = match self.add(head, *head_bound, ScopeKey::Module, purpose) {
                    Ok(owner) => owner,
                    Err(e) => {
                        return Err(e);
                    },
                };
                match &**payload {
                    SyntaxNode::Delimited { delimiter: Delimiter::Brace, items, .. } => {
                        proof {
                            lemma_trees_of(items@);
                        }
                        plan_expressions(catalog, imported, items)
                    },
                    SyntaxNode::Delimited { delimiter: Delimiter::Square, items, .. } => {
                        proof {
                            lemma_trees_of(items@);
                        }
                        if items.len() == 0 {
                            return Err(unexpected_node(payload, "nonempty enum variants"));
                        }
                        self.discover_variants(catalog, imported, items, owner)
                    },
                    _ => plan_expression(catalog, imported, payload),
                }
            },
            _ => Err(unexpected_node(node, "named declaration")),
        }
    }
}

} // verus!

verus! {

impl OccurrencePlanner {
    fn discover_method(
        &mut self,
        catalog: &BootstrapCatalog,
        imported: &Vec<ImportBinding>,
        node: &SyntaxNode,
        owner: u32,
    ) -> (r: Result<(), BootstrapReadError>)
        requires
            old(self).inv(),
            catalog.wf(),
        ensures
            final(self).inv(),
            final(self).plan == old(self).plan,
            planned(r, plan_method(plan_context(*catalog, imported@), tree_of(*node), owner, old(self).entries()), final(self).entries()),
    {
        proof {
            reveal_with_fuel(tree_of, 2);
        }
        match node {
            SyntaxNode::Application { head, head_bound, payload, .. } => match &**payload {
                SyntaxNode::Delimited { delimiter: Delimiter::Brace, items, .. } => {
                    proof {
                        lemma_trees_of(items@);
                    }
                    if items.len() == 0 {
                        return Err(unexpected_node(payload, "mandatory method return"));
                    }
                    if let Err(e) = plan_expressions(catalog, imported, items) {
                        return Err(e);
                    }
                    match self.add(head, *head_bound, ScopeKey::Trait(owner), DeclarationPurpose::Method) {
                        Ok(_) => Ok(()),
                        Err(e) => Err(e),
                    }
                },
                _ => Err(unexpected_node(payload, "method signature")),
            },
            _ => Err(unexpected_node(node, "method.{Parameters Return}")),
        }
    }

    fn discover_trait(
        &mut self,
        catalog: &BootstrapCatalog,
        imported: &Vec<ImportBinding>,
        node: &SyntaxNode,
    ) -> (r: Result<(), BootstrapReadError>)
        requires
            old(self).inv(),
            catalog.wf(),
        ensures
            final(self).inv(),
            final(self).plan == old(self).plan,
            planned(r, plan_trait(plan_context(*catalog, imported@), tree_of(*node), old(self).entries()), final(self).entries()),
    {
        proof {
            reveal_with_fuel(tree_of, 2);
        }
        match node {
            SyntaxNode::Application { head, head_bound, payload, .. } => match &**payload {
                SyntaxNode::Delimited { delimiter: Delimiter::Brace, items, .. } => {
                    let owner = match self.add(head, *head_bound, ScopeKey::Module, DeclarationPurpose::Trait) {
                        Ok(owner) => owner,
                        Err(e) => {
                            return Err(e);
                        },
                    };
                    let ghost ctx = plan_context(*catalog, imported@);
                    let ghost trees = trees_of(items@);
                    let ghost start = self.entries();
                    proof {
                        lemma_trees_of(items@);
                        assert(trees.subrange(0, trees.len() as int) =~= trees);
                    }
                    let mut i: usize = 0;
                    while i < items.len()
                        invariant
                            i <= items@.len(),
                            catalog.wf(),
                            self.inv(),
                            self.plan == old(self).plan,
                            ctx == plan_context(*catalog, imported@),
                            trees == trees_of(items@),
                            trees.len() == items@.len(),
                            forall|k: int| 0 <= k < items@.len() ==> #[trigger] trees[k] == tree_of(items@[k]),
                            plan_trait(ctx, tree_of(*node), old(self).entries()) == plan_methods(ctx, trees, owner, start),
                            plan_methods(ctx, trees, owner, start)
                                == plan_methods(ctx, trees.subrange(i as int, trees.len() as int), owner, self.entries()),
                        decreases items@.len() - i,
                    {
                        let ghost rest = trees.subrange(i as int, trees.len() as int);
                        proof {
                            assert(rest[0] == tree_of(items@[i as int]));
                            assert(rest.subrange(1, rest.len() as int) =~= trees.subrange(i + 1, trees.len() as int));
                        }
                        if let Err(e) = self.discover_method(catalog, imported, &items[i], owner) {
                            return Err(e);
                        }
                        i = i + 1;
                    }
                    Ok(())
                },
                _ => Err(unexpected_node(payload, "Trait methods")),
            },
            _ => Err(unexpected_node(node, "TraitName.{Methods}")),
        }
    }

    fn discover_table(&mut self, node: &SyntaxNode) -> (r: Result<(), BootstrapReadError>)
        requires
            old(self).inv(),
        ensures
            final(self).inv(),
            final(self).plan == old(self).plan,
            planned(r, plan_table(tree_of(*node), old(self).entries()), final(self).entries()),
            r is Err ==> final(self).entries() == old(self).entries(),
            !table_shaped(tree_of(*node)) ==> r matches Err(BootstrapReadError::UnexpectedStructure { .. }),
    {
        proof {
            reveal_with_fuel(tree_of, 2);
        }
        match node {
            SyntaxNode::Application { head, head_bound, payload, .. } => match &**payload {
                SyntaxNode::Delimited { delimiter: Delimiter::Brace, items, .. } => {
                    proof {
                        lemma_trees_of(items@);
                    }
                    if items.len() != 2 {
                        return Err(unexpected_node(payload, "exactly RecordType then KeyType"));
                    }
                    proof {
                        reveal_with_fuel(tree_of, 1);
                        assert(trees_of(items@)[0] == tree_of(items@[0]));
                        assert(trees_of(items@)[1] == tree_of(items@[1]));
                    }
                    match &items[0] {
                        SyntaxNode::Atom { .. } => {},
                        _ => {
                            return Err(unexpected_node(&items[0], "persistent nominal RecordType"));
                        },
                    }
                    match &items[1] {
                        SyntaxNode::Atom { .. } => {},
                        _ => {
                            return Err(unexpected_node(&items[1], "persistent nominal KeyType"));
                        },
                    }
                    match self.add(head, *head_bound, ScopeKey::Module, DeclarationPurpose::Table) {
                        Ok(_) => Ok(()),
                        Err(e) => Err(e),
                    }
                },
                _ => Err(unexpected_node(payload, "table fields")),
            },
            _ => Err(unexpected_node(node, "table.{RecordType KeyType}")),
        }
    }

    fn discover_section_item(
        &mut self,
        catalog: &BootstrapCatalog,
        imported: &Vec<ImportBinding>,
        schema: BootstrapSectionSchema,
        node: &SyntaxNode,
    ) -> (r: Result<(), BootstrapReadError>)
        requires
            old(self).inv(),
            catalog.wf(),
        ensures
            final(self).inv(),
            final(self).plan == old(self).plan,
            planned(r, plan_section_item(plan_context(*catalog, imported@), schema, tree_of(*node), old(self).entries()), final(self).entries()),
    {
        match schema {
            BootstrapSectionSchema::Role(_) => match node {
                SyntaxNode::Atom { text, .. } => validate_visible_name(text.as_str()),
                _ => {
                    if is_nomos_declaration_exec(node) {
                        return Err(BootstrapReadError::StreamOutsideInterfaceTypes);
                    }
                    self.discover_type(catalog, imported, node, DeclarationPurpose::Type, false)
                },
            },
            BootstrapSectionSchema::Declarations { admit_nomos } =>
                self.discover_type(catalog, imported, node, DeclarationPurpose::Type, admit_nomos),
            BootstrapSectionSchema::PersistentDeclarations =>
                self.discover_type(catalog, imported, node, DeclarationPurpose::PersistentType, false),
            BootstrapSectionSchema::Traits => self.discover_trait(catalog, imported, node),
            BootstrapSectionSchema::Tables => self.discover_table(node),
        }
    }

    fn discover_section(
        &mut self,
        catalog: &BootstrapCatalog,
        imported: &Vec<ImportBinding>,
        schema: BootstrapSectionSchema,
        node: &SyntaxNode,
    ) -> (r: Result<(), BootstrapReadError>)
        requires
            old(self).inv(),
            catalog.wf(),
        ensures
            final(self).inv(),
            final(self).plan == old(self).plan,
            planned(r, plan_section(plan_context(*catalog, imported@), schema, tree_of(*node), old(self).entries()), final(self).entries()),
    {
        match node {
            SyntaxNode::Delimited { delimiter: Delimiter::Square, items, .. } => {
                let ghost ctx = plan_context(*catalog, imported@);
                let ghost trees = trees_of(items@);
                proof {
                    lemma_trees_of(items@);
                    assert(trees.subrange(0, trees.len() as int) =~= trees);
                }
                let mut i: usize = 0;
                while i < items.len()
                    invariant
                        i <= items@.len(),
                        catalog.wf(),
                        self.inv(),
                        self.plan == old(self).plan,
                        ctx == plan_context(*catalog, imported@),
                        trees == trees_of(items@),
                        trees.len() == items@.len(),
                        forall|k: int| 0 <= k < items@.len() ==> #[trigger] trees[k] == tree_of(items@[k]),
                        plan_section(ctx, schema, tree_of(*node), old(self).entries())
                            == plan_section_items(ctx, schema, trees, old(self).entries()),
                        plan_section_items(ctx, schema, trees, old(self).entries())
                            == plan_section_items(ctx, schema, trees.subrange(i as int, trees.len() as int), self.entries()),
                    decreases items@.len() - i,
                {
                    let ghost rest = trees.subrange(i as int, trees.len() as int);
                    proof {
                        assert(rest[0] == tree_of(items@[i as int]));
                        assert(rest.subrange(1, rest.len() as int) =~= trees.subrange(i + 1, trees.len() as int));
                    }
                    if let Err(e) = self.discover_section_item(catalog, imported, schema, &items[i]) {
                        return Err(e);
                    }
                    i = i + 1;
                }
                Ok(())
            },
            _ => Err(unexpected_node(node, "registered section vector")),
        }
    }

    fn discover_sections(
        &mut self,
        catalog: &BootstrapCatalog,
        imported: &Vec<ImportBinding>,
        schemas: &Vec<BootstrapSectionSchema>,
        fields: &Vec<SyntaxNode>,
    ) -> (r: Result<(), BootstrapReadError>)
        requires
            old(self).inv(),
            catalog.wf(),
            schemas@.len() == fields@.len(),
        ensures
            final(self).inv(),
            final(self).plan == old(self).plan,
            planned(r, plan_sections(plan_context(*catalog, imported@), schemas@, trees_of(fields@), old(self).entries()), final(self).entries()),
    {
        let ghost ctx = plan_context(*catalog, imported@);
        let ghost trees = trees_of(fields@);
        proof {
            lemma_trees_of(fields@);
            assert(trees.subrange(0, trees.len() as int) =~= trees);
            assert(schemas@.subrange(0, schemas@.len() as int) =~= schemas@);
        }
        let mut i: usize = 0;
        while i < fields.len()
            invariant
                i <= fields@.len(),
                schemas@.len() == fields@.len(),
                catalog.wf(),
                self.inv(),
                self.plan == old(self).plan,
                ctx == plan_context(*catalog, imported@),
                trees == trees_of(fields@),
                trees.len() == fields@.len(),
                forall|k: int| 0 <= k < fields@.len() ==> #[trigger] trees[k] == tree_of(fields@[k]),
                plan_sections(ctx, schemas@, trees, old(self).entries())
                    == plan_sections(ctx, schemas@.subrange(i as int, schemas@.len() as int), trees.subrange(i as int, trees.len() as int), self.entries()),
            decreases fields@.len() - i,
        {
            let ghost rest = trees.subrange(i as int, trees.len() as int);
            let ghost srest = schemas@.subrange(i as int, schemas@.len() as int);
            proof {
                assert(rest[0] == tree_of(fields@[i as int]));
                assert(srest[0] == schemas@[i as int]);
                assert(rest.subrange(1, rest.len() as int) =~= trees.subrange(i + 1, trees.len() as int));
                assert(srest.subrange(1, srest.len() as int) =~= schemas@.subrange(i + 1, schemas@.len() as int));
            }
            if let Err(e) = self.discover_section(catalog, imported, schemas[i], &fields[i]) {
                return Err(e);
            }
            i = i + 1;
        }
        Ok(())
    }
}

} // verus!

verus! {

/// The mathematical form of one parsed import.
pub open spec fn import_view(entry: ImportEntry) -> ImportView {
    ImportView { module: path_view(entry.module@), names: entry.imported_names@.map_values(|s: String| s@) }
}

pub open spec fn imports_view(entries: Seq<ImportEntry>) -> Seq<ImportView> {
    entries.map_values(|e: ImportEntry| import_view(e))
}

/// Decimal values never shrink as digits are appended.
proof fn lemma_decimal_prefix_monotone(s: Seq<char>, i: int, j: int)
    requires
        0 <= i <= j <= s.len(),
    ensures
        decimal_value(s.subrange(0, i)) <= decimal_value(s.subrange(0, j)),
    decreases j - i,
{
    if i < j {
        lemma_decimal_prefix_monotone(s, i, j - 1);
        assert(s.subrange(0, j).drop_last() =~= s.subrange(0, j - 1));
    }
}

#[verifier::loop_isolation(false)]
fn canonical_decimal_exec(node: &SyntaxNode) -> (r: Result<u64, BootstrapReadError>)
    ensures
        match canonical_decimal(tree_of(*node)) {
            Some(v) => r == Ok::<u64, BootstrapReadError>(v),
            None => match tree_of(*node) {
                SyntaxTree::Atom { text, .. } => r matches Err(BootstrapReadError::InvalidVersionComponent(t))
                    && t@ == text,
                other => r == Err::<u64, BootstrapReadError>(BootstrapReadError::UnexpectedStructure {
                    expected: "canonical decimal",
                    found: tree_kind_name(other),
                    start: tree_bound(other).start,
                }),
            },
        },
{
    match node {
        SyntaxNode::Atom { text, .. } => {
            let chars = chars_of(text.as_str());
            let n = chars.len();
            if n == 0 || (n > 1 && chars[0] == '0') {
                return Err(BootstrapReadError::InvalidVersionComponent(text.clone()));
            }
            let mut value: u64 = 0;
            let mut i: usize = 0;
            proof {
                assert(chars@.subrange(0, 0).len() == 0);
            }
            while i < n
                invariant
                    chars@ == text@,
                    n == chars@.len(),
                    i <= n,
                    forall|k: int| 0 <= k < i ==> is_digit(#[trigger] chars@[k]),
                    value == decimal_value(chars@.subrange(0, i as int)),
                decreases n - i,
            {
                let c = chars[i];
                if !('0' <= c && c <= '9') {
                    return Err(BootstrapReadError::InvalidVersionComponent(text.clone()));
                }
                let d: u64 = ((c as u32) - ('0' as u32)) as u64;
                proof {
                    assert(chars@.subrange(0, i + 1).drop_last() =~= chars@.subrange(0, i as int));
                    assert(chars@.subrange(0, i + 1).last() == c);
                }
                if value > 1844674407370955161u64 || (value == 1844674407370955161u64 && d > 5) {
                    proof {
                        if forall|k: int| 0 <= k < chars@.len() ==> is_digit(#[trigger] chars@[k]) {
                            lemma_decimal_prefix_monotone(chars@, i + 1, n as int);
                            assert(chars@.subrange(0, n as int) =~= chars@);
                        }
                    }
                    return Err(BootstrapReadError::InvalidVersionComponent(text.clone()));
                }
                value = value * 10 + d;
                i = i + 1;
            }
            proof {
                assert(chars@.subrange(0, n as int) =~= chars@);
            }
            Ok(value)
        },
        _ => Err(unexpected_node(node, "canonical decimal")),
    }
}

/// Parse `Kind.{Major Minor Patch}` against the catalog's priors, metadata
/// and supported versions.
fn parse_header(catalog: &BootstrapCatalog, node: &SyntaxNode) -> (r: Result<EthosHeader, BootstrapReadError>)
    requires
        catalog.wf(),
    ensures
        match plan_header(catalog.spec_priors(), catalog.spec_metadata(), catalog.spec_versions().spec_supported(), tree_of(*node)) {
            Some(h) => r == Ok::<EthosHeader, BootstrapReadError>(h),
            None => r is Err,
        },
        header_refusal(catalog.spec_priors(), catalog.spec_metadata(), catalog.spec_versions().spec_supported(),
            tree_of(*node), r),
{
    proof {
        reveal_with_fuel(tree_of, 2);
    }
    match node {
        SyntaxNode::Application { head, payload, .. } => {
            let kind = match resolve_header(catalog.priors(), catalog.metadata(), head.as_str()) {
                Some(kind) => kind,
                None => {
                    return Err(BootstrapReadError::UnknownFileKind(head.clone()));
                },
            };
            match &**payload {
                SyntaxNode::Delimited { delimiter: Delimiter::Brace, items, .. } => {
                    proof {
                        lemma_trees_of(items@);
                    }
                    if items.len() != 3 {
                        return Err(unexpected_node(payload, "exactly three version components"));
                    }
                    let major = match canonical_decimal_exec(&items[0]) {
                        Ok(v) => v,
                        Err(e) => {
                            return Err(e);
                        },
                    };
                    let minor = match canonical_decimal_exec(&items[1]) {
                        Ok(v) => v,
                        Err(e) => {
                            return Err(e);
                        },
                    };
                    let patch = match canonical_decimal_exec(&items[2]) {
                        Ok(v) => v,
                        Err(e) => {
                            return Err(e);
                        },
                    };
                    let version = EthosVersion::new(major, minor, patch);
                    if !catalog.versions().supports(version) {
                        return Err(BootstrapReadError::UnsupportedVersion { found: version, supported: catalog.versions().supported() });
                    }
                    Ok(EthosHeader { kind, version })
                },
                _ => Err(unexpected_node(payload, "three version components")),
            }
        },
        _ => Err(unexpected_node(node, "Kind.{Major Minor Patch}")),
    }
}

/// Split `a:b:c` into its segments.
fn split_module_path(head: &String) -> (r: Vec<String>)
    ensures
        path_view(r@) == module_segments(head@),
{
    let chars = chars_of(head.as_str());
    let n = chars.len();
    let mut out: Vec<String> = Vec::new();
    let mut current: Vec<char> = Vec::new();
    let mut i: usize = 0;
    proof {
        assert(chars@.subrange(0, n as int) =~= chars@);
        assert(path_view(out@) =~= Seq::<Seq<char>>::empty());
    }
    while i < n
        invariant
            chars@ == head@,
            n == chars@.len(),
            i <= n,
            module_segments(head@) == split_colon(chars@.subrange(i as int, n as int), current@, path_view(out@)),
        decreases n - i,
    {
        let ghost t = chars@.subrange(i as int, n as int);
        proof {
            assert(t[0] == chars@[i as int]);
            assert(t.drop_first() =~= chars@.subrange(i + 1, n as int));
        }
        if chars[i] == ':' {
            let segment = string_of(&current);
            proof {
                assert(path_view(out@.push(segment)) =~= path_view(out@).push(current@));
            }
            out.push(segment);
            current = Vec::new();
            proof {
                assert(current@ =~= Seq::<char>::empty());
            }
        } else {
            current.push(chars[i]);
        }
        i = i + 1;
    }
    let segment = string_of(&current);
    proof {
        assert(chars@.subrange(n as int, n as int) =~= Seq::<char>::empty());
        assert(path_view(out@.push(segment)) =~= path_view(out@).push(current@));
    }
    out.push(segment);
    out
}

/// Parse one `module:path.[Name …]` import.
#[verifier::loop_isolation(false)]
fn parse_import(metadata: &TextualMetadataSnapshot, node: &SyntaxNode) -> (r: Result<ImportEntry, BootstrapReadError>)
    requires
        metadata.wf(),
    ensures
        match plan_import(*metadata, tree_of(*node)) {
            Some(v) => r matches Ok(e) && import_view(e) == v,
            None => r is Err,
        },
{
    proof {
        reveal_with_fuel(tree_of, 2);
    }
    match node {
        SyntaxNode::Application { head, payload, .. } => {
            let module = split_module_path(head);
            let ghost path = module_segments(head@);
            proof {
                assert(valid_module_path(module@) <==> valid_path_view(path)) by {
                    assert forall|k: int| 0 <= k < module@.len() implies path[k] == (#[trigger] module@[k])@ by {}
                    if valid_path_view(path) {
                        assert forall|k: int| 0 <= k < module@.len() implies safe_bare_name((#[trigger] module@[k])@) by {
                            assert(safe_bare_name(path[k]));
                        }
                    }
                }
            }
            if let Err(e) = validate_module_path(module.as_slice()) {
                return Err(e);
            }
            match &**payload {
                SyntaxNode::Delimited { delimiter: Delimiter::Square, items, .. } => {
                    let ghost trees = trees_of(items@);
                    proof {
                        lemma_trees_of(items@);
                    }
                    if items.len() == 0 {
                        return Err(BootstrapReadError::EmptyImportSelectors);
                    }
                    let mut names: Vec<String> = Vec::new();
                    let mut i: usize = 0;
                    while i < items.len()
                        invariant
                            i <= items@.len(),
                            metadata.wf(),
                            path_view(module@) == path,
                            trees == trees_of(items@),
                            trees.len() == items@.len(),
                            forall|k: int| 0 <= k < items@.len() ==> #[trigger] trees[k] == tree_of(items@[k]),
                            names@.len() == i,
                            forall|k: int| 0 <= k < i ==> (#[trigger] names@[k])@ == atom_text(trees[k]),
                            forall|k: int| 0 <= k < i ==> (#[trigger] trees[k]) is Atom
                                && safe_bare_name(atom_text(trees[k]))
                                && metadata.spec_identity_at(path, None, atom_text(trees[k])) is Some,
                        decreases items@.len() - i,
                    {
                        proof {
                            assert(trees[i as int] == tree_of(items@[i as int]));
                        }
                        match &items[i] {
                            SyntaxNode::Atom { text, .. } => {
                                if let Err(e) = validate_visible_name(text.as_str()) {
                                    return Err(e);
                                }
                                if metadata.identity_at(module.as_slice(), None, text.as_str()).is_none() {
                                    return Err(BootstrapReadError::MissingTextualLookup { module: clone_path(module.as_slice()), name: text.clone() });
                                }
                                names.push(text.clone());
                            },
                            _ => {
                                return Err(unexpected_node(&items[i], "imported visible name"));
                            },
                        }
                        i = i + 1;
                    }
                    let entry = ImportEntry { module, imported_names: names };
                    proof {
                        assert(import_view(entry).names =~= trees.map_values(|item: SyntaxTree| atom_text(item)));
                    }
                    Ok(entry)
                },
                _ => Err(unexpected_node(payload, "nonempty import selectors")),
            }
        },
        _ => Err(unexpected_node(node, "module:path.[Imported Names]")),
    }
}

/// Parse the explicit square import vector.
#[verifier::loop_isolation(false)]
fn parse_imports(metadata: &TextualMetadataSnapshot, node: &SyntaxNode) -> (r: Result<Vec<ImportEntry>, BootstrapReadError>)
    requires
        metadata.wf(),
    ensures
        match plan_imports(*metadata, tree_of(*node)) {
            Some(v) => r matches Ok(es) && imports_view(es@) == v,
            None => r is Err,
        },
{
    match node {
        SyntaxNode::Delimited { delimiter: Delimiter::Square, items, .. } => {
            let ghost trees = trees_of(items@);
            let n = items.len();
            proof {
                lemma_trees_of(items@);
                assert(trees.subrange(0, n as int) =~= trees);
                assert(imports_view(Seq::<ImportEntry>::empty()) =~= Seq::<ImportView>::empty());
                assert forall|rest: Seq<ImportView>| Seq::<ImportView>::empty() + rest =~= rest by {}
            }
            let mut out: Vec<ImportEntry> = Vec::new();
            let mut i: usize = 0;
            while i < n
                invariant
                    n == items@.len(),
                    i <= n,
                    metadata.wf(),
                    trees == trees_of(items@),
                    trees.len() == n,
                    forall|k: int| 0 <= k < n ==> #[trigger] trees[k] == tree_of(items@[k]),
                    plan_import_list(*metadata, trees) == match plan_import_list(*metadata, trees.subrange(i as int, n as int)) {
                        Some(rest) => Some(imports_view(out@) + rest),
                        None => None,
                    },
                decreases n - i,
            {
                let ghost t = trees.subrange(i as int, n as int);
                proof {
                    assert(t[0] == tree_of(items@[i as int]));
                    assert(t.subrange(1, t.len() as int) =~= trees.subrange(i + 1, n as int));
                }
                let entry = match parse_import(metadata, &items[i]) {
                    Ok(entry) => entry,
                    Err(e) => {
                        return Err(e);
                    },
                };
                proof {
                    let before = imports_view(out@);
                    assert(imports_view(out@.push(entry)) =~= before.push(import_view(entry)));
                    assert forall|rest: Seq<ImportView>| before.push(import_view(entry)) + rest =~= before + (seq![import_view(entry)] + rest) by {}
                }
                out.push(entry);
                i = i + 1;
            }
            proof {
                assert(trees.subrange(n as int, n as int) =~= Seq::<SyntaxTree>::empty());
                assert(imports_view(out@) + Seq::<ImportView>::empty() =~= imports_view(out@));
            }
            Ok(out)
        },
        _ => Err(unexpected_node(node, "imports square vector")),
    }
}

} // verus!

verus! {

/// Every imported name is recorded at its module.
pub open spec fn imports_resolved(metadata: TextualMetadataSnapshot, imports: Seq<ImportView>) -> bool {
    forall|i: int, j: int| 0 <= i < imports.len() && 0 <= j < imports[i].names.len()
        ==> (#[trigger] metadata.spec_identity_at(imports[i].module, None, imports[i].names[j])) is Some
}

/// A planned import vector names only recorded identities.
proof fn lemma_planned_imports_resolved(metadata: TextualMetadataSnapshot, entries: Seq<SyntaxTree>)
    requires
        plan_import_list(metadata, entries) is Some,
    ensures
        imports_resolved(metadata, plan_import_list(metadata, entries).unwrap()),
    decreases entries.len(),
{
    if entries.len() > 0 {
        let rest = entries.subrange(1, entries.len() as int);
        lemma_planned_imports_resolved(metadata, rest);
        let first = plan_import(metadata, entries[0]).unwrap();
        let all = plan_import_list(metadata, entries).unwrap();
        assert(all == seq![first] + plan_import_list(metadata, rest).unwrap());
        assert forall|i: int, j: int| 0 <= i < all.len() && 0 <= j < all[i].names.len()
            implies (#[trigger] metadata.spec_identity_at(all[i].module, None, all[i].names[j])) is Some by {
            if i == 0 {
                match entries[0] {
                    SyntaxTree::Application { payload, .. } => match *payload {
                        SyntaxTree::Delimited { items, .. } => {
                            assert(items[j] is Atom);
                        },
                        _ => {},
                    },
                    _ => {},
                }
            } else {
                assert(all[i] == plan_import_list(metadata, rest).unwrap()[i - 1]);
            }
        }
    }
}

/// The (name, identity) bindings the parsed imports contribute, in order.
pub(crate) fn import_bindings_exec(metadata: &TextualMetadataSnapshot, imports: &[ImportEntry]) -> (r: Result<Vec<ImportBinding>, BootstrapReadError>)
    requires
        metadata.wf(),
    ensures
        imports_resolved(*metadata, imports_view(imports@)) ==> r is Ok,
        r matches Ok(bs) ==> bindings_view(bs@) == import_bindings(*metadata, imports_view(imports@)),
{
    let ghost views = imports_view(imports@);
    let mut out: Vec<ImportBinding> = Vec::new();
    let mut i: usize = 0;
    proof {
        assert(views.subrange(0, 0) =~= Seq::<ImportView>::empty());
        assert(bindings_view(out@) =~= Seq::<(Seq<char>, EncodedName)>::empty());
    }
    while i < imports.len()
        invariant
            i <= imports@.len(),
            metadata.wf(),
            views == imports_view(imports@),
            views.len() == imports@.len(),
            bindings_view(out@) == import_bindings(*metadata, views.subrange(0, i as int)),
            imports_resolved(*metadata, views) ==> forall|k: int, j: int| 0 <= k < views.len() && 0 <= j < views[k].names.len()
                ==> (#[trigger] metadata.spec_identity_at(views[k].module, None, views[k].names[j])) is Some,
        decreases imports@.len() - i,
    {
        let entry = &imports[i];
        let ghost view = views[i as int];
        let ghost before = bindings_view(out@);
        proof {
            assert(view == import_view(*entry));
            assert(views.subrange(0, i + 1).drop_last() =~= views.subrange(0, i as int));
            assert(views.subrange(0, i + 1).last() == view);
            assert(import_bindings_of(*metadata, view).subrange(0, 0) =~= Seq::<(Seq<char>, EncodedName)>::empty());
            assert(before + Seq::<(Seq<char>, EncodedName)>::empty() =~= before);
        }
        let mut j: usize = 0;
        while j < entry.imported_names.len()
            invariant
                j <= entry.imported_names@.len(),
                metadata.wf(),
                view == import_view(*entry),
                views == imports_view(imports@),
                view.names.len() == entry.imported_names@.len(),
                bindings_view(out@) == before + import_bindings_of(*metadata, view).subrange(0, j as int),
                imports_resolved(*metadata, views) ==> forall|jj: int| 0 <= jj < view.names.len()
                    ==> (#[trigger] metadata.spec_identity_at(view.module, None, view.names[jj])) is Some,
            decreases entry.imported_names@.len() - j,
        {
            let name = &entry.imported_names[j];
            let identity = match metadata.identity_at(entry.module.as_slice(), None, name.as_str()) {
                Some(identity) => identity,
                None => {
                    proof {
                        assert(view.names[j as int] == name@);
                    }
                    return Err(BootstrapReadError::MissingTextualLookup { module: clone_path(entry.module.as_slice()), name: name.clone() });
                },
            };
            let binding = ImportBinding { name: name.clone(), identity };
            proof {
                assert(view.names[j as int] == name@);
                assert(bindings_view(out@.push(binding)) =~= bindings_view(out@).push((name@, identity)));
                assert(import_bindings_of(*metadata, view).subrange(0, j + 1)
                    =~= import_bindings_of(*metadata, view).subrange(0, j as int).push((name@, identity)));
            }
            out.push(binding);
            j = j + 1;
        }
        proof {
            assert(import_bindings_of(*metadata, view).subrange(0, j as int) =~= import_bindings_of(*metadata, view));
        }
        i = i + 1;
    }
    proof {
        assert(views.subrange(0, i as int) =~= views);
    }
    Ok(out)
}

/// Result of structural discovery and all assignment-independent schema and
/// cardinality checks: the parsed roots, the header, the imports, and every
/// authored declaration occurrence.
#[derive(Debug)]
pub struct BootstrapReadPlan {
    roots: Vec<SyntaxNode>,
    header: EthosHeader,
    imports: Vec<ImportEntry>,
    declarations: Vec<PlannedDeclaration>,
    plan: u64,
}

impl BootstrapReadPlan {
    pub closed spec fn spec_id(&self) -> u64 {
        self.plan
    }

    pub closed spec fn spec_roots(&self) -> Seq<SyntaxTree> {
        trees_of(self.roots@)
    }

    pub closed spec fn spec_header(&self) -> EthosHeader {
        self.header
    }

    pub closed spec fn spec_imports(&self) -> Seq<ImportEntry> {
        self.imports@
    }

    pub closed spec fn spec_declarations(&self) -> Seq<PlannedDeclaration> {
        self.declarations@
    }

    /// Occurrences are numbered in source order within this plan; spellings
    /// are safe and unique within their scope.
    pub open spec fn wf(&self) -> bool {
        &&& numbered_in_plan(self.spec_id(), self.spec_declarations())
        &&& distinct_in_scope(entries_of(self.spec_declarations()))
    }

    pub fn header(&self) -> (r: EthosHeader)
        ensures
            r == self.spec_header(),
    {
        self.header
    }

    pub fn imports(&self) -> (r: &[ImportEntry])
        ensures
            r@ == self.spec_imports(),
    {
        self.imports.as_slice()
    }

    pub fn declarations(&self) -> (r: &[PlannedDeclaration])
        ensures
            r@ == self.spec_declarations(),
    {
        self.declarations.as_slice()
    }

    pub(crate) fn roots(&self) -> (r: &Vec<SyntaxNode>)
        ensures
            trees_of(r@) == self.spec_roots(),
    {
        &self.roots
    }
}

} // verus!

verus! {

/// The shared strict reader for Interface, Nexus and Sema Ethos files.
pub struct BootstrapReader<Authority> {
    grammar: BootstrapGrammar,
    catalog: BootstrapCatalog,
    naming_authority: Authority,
    next_plan: u64,
}

impl<Authority> BootstrapReader<Authority> {
    pub closed spec fn spec_catalog(&self) -> BootstrapCatalog {
        self.catalog
    }

    pub closed spec fn spec_grammar(&self) -> BootstrapGrammarIdentities {
        self.grammar.spec_identities()
    }

    pub closed spec fn spec_authority(&self) -> Authority {
        self.naming_authority
    }

    /// The handle the next successful plan of this reader carries.
    pub closed spec fn spec_next_plan(&self) -> u64 {
        self.next_plan
    }

    pub open spec fn wf(&self) -> bool {
        self.spec_catalog().wf()
    }

    /// Build a reader over a well-formed catalog; the grammar's document and
    /// syntax identities must differ.
    pub fn build(
        grammar_identities: BootstrapGrammarIdentities,
        catalog: BootstrapCatalog,
        naming_authority: Authority,
    ) -> (r: Result<Self, BootstrapBuildError>)
        requires
            catalog.wf(),
        ensures
            r is Ok <==> grammar_identities.document != grammar_identities.syntax,
            r matches Ok(reader) ==> reader.wf() && reader.spec_catalog() == catalog
                && reader.spec_grammar() == grammar_identities && reader.spec_authority() == naming_authority,
            r matches Err(e) ==> e == BootstrapBuildError::DuplicateGrammarIdentity,
    {
        let grammar = match BootstrapGrammar::build(grammar_identities) {
            Ok(grammar) => grammar,
            Err(e) => {
                return Err(e);
            },
        };
        Ok(BootstrapReader { grammar, catalog, naming_authority, next_plan: 1 })
    }

    pub fn catalog(&self) -> (r: &BootstrapCatalog)
        ensures
            *r == self.spec_catalog(),
    {
        &self.catalog
    }

    pub fn naming_authority(&self) -> (r: &Authority)
        ensures
            *r == self.spec_authority(),
    {
        &self.naming_authority
    }

    /// The registered body sections of a file kind, in authored order.
    pub fn section_order(&self, kind: EthosKind) -> (r: Vec<BootstrapSectionSchema>)
        ensures
            r@ == root_sections(kind),
    {
        section_order(kind)
    }

    /// Discover structure, select the registered root, validate every
    /// assignment-independent law, and enumerate authored occurrences. Each
    /// plan gets a fresh plan number; the reader's authority is unchanged.
    pub fn plan(&mut self, source: &str) -> (r: Result<BootstrapReadPlan, BootstrapReadError>)
        requires
            old(self).wf(),
        ensures
            final(self).wf(),
            final(self).spec_catalog() == old(self).spec_catalog(),
            final(self).spec_grammar() == old(self).spec_grammar(),
            final(self).spec_authority() == old(self).spec_authority(),
            r is Err ==> final(self).spec_next_plan() == old(self).spec_next_plan(),
            r matches Ok(p) ==> p.spec_id() == old(self).spec_next_plan() && final(self).spec_next_plan()
                == (if old(self).spec_next_plan() == u64::MAX { 0 } else { old(self).spec_next_plan() + 1 }),
            match parse_roots(source@, 0) {
                Ok(trees) => trees.len() == 3 ==> header_refusal(
                    old(self).spec_catalog().spec_priors(),
                    old(self).spec_catalog().spec_metadata(),
                    old(self).spec_catalog().spec_versions().spec_supported(),
                    trees[0],
                    r,
                ),
                Err(_) => true,
            },
            match parse_roots(source@, 0) {
                Err(_) => r is Err,
                Ok(trees) => match plan_document(old(self).spec_catalog(), trees) {
                    None => r is Err,
                    Some((header, imports, entries)) => r matches Ok(p) && p.wf() && p.spec_roots() == trees
                        && super::grammar::all_anchored(source@, trees)
                        && p.spec_header() == header && imports_view(p.spec_imports()) == imports
                        && entries_of(p.spec_declarations()) == entries,
                },
            },
    {
        let roots = match self.grammar.plan(source) {
            Ok(roots) => roots,
            Err(e) => {
                return Err(e);
            },
        };
        let ghost trees = trees_of(roots@);
        proof {
            lemma_trees_of(roots@);
        }
        if roots.len() != 3 {
            return Err(BootstrapReadError::UnexpectedStructure {
                expected: "exactly Header, Imports, and Body",
                found: "different top-level arity",
                start: 0,
            });
        }
        let header = match parse_header(&self.catalog, &roots[0]) {
            Ok(header) => header,
            Err(e) => {
                return Err(e);
            },
        };
        let imports = match parse_imports(self.catalog.metadata(), &roots[1]) {
            Ok(imports) => imports,
            Err(e) => {
                return Err(e);
            },
        };
        proof {
            lemma_planned_imports_resolved(self.catalog.spec_metadata(), match trees[1] {
                SyntaxTree::Delimited { items, .. } => items,
                _ => Seq::empty(),
            });
        }
        let imported = match import_bindings_exec(self.catalog.metadata(), &imports) {
            Ok(imported) => imported,
            Err(e) => {
                return Err(e);
            },
        };
        let plan = self.next_plan;
        let declarations = match &roots[2] {
            SyntaxNode::Delimited { delimiter: Delimiter::Brace, items, .. } => {
                let sections = section_order(header.kind);
                proof {
                    lemma_trees_of(items@);
                }
                if items.len() != sections.len() {
                    return Err(unexpected_node(&roots[2], "the registered body section arity"));
                }
                let mut planner = OccurrencePlanner::new(plan);
                if let Err(e) = planner.discover_sections(&self.catalog, &imported, &sections, items) {
                    return Err(e);
                }
                planner.declarations
            },
            _ => {
                return Err(unexpected_node(&roots[2], "kind-selected body"));
            },
        };
        self.next_plan = self.next_plan.wrapping_add(1);
        Ok(BootstrapReadPlan { roots, header, imports, declarations, plan })
    }
}

} // verus!

verus! {

/// Occurrence handles are local to their plan: within one plan the k-th
/// declaration carries ordinal k, and plans with different handles share no
/// occurrence, even where ordinals coincide.
pub proof fn lemma_occurrences_plan_local(p1: BootstrapReadPlan, p2: BootstrapReadPlan, i: int, j: int)
    requires
        p1.wf(),
        p2.wf(),
        0 <= i < p1.spec_declarations().len(),
        0 <= j < p2.spec_declarations().len(),
    ensures
        p1.spec_declarations()[i].spec_occurrence().spec_ordinal() == i,
        p1.spec_id() != p2.spec_id() ==> p1.spec_declarations()[i].spec_occurrence()
            != p2.spec_declarations()[j].spec_occurrence(),
{
}

} // verus!
