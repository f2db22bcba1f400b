//! The meaning of authored declarations: each planned occurrence takes its
//! assigned identity in plan order, bodies reify through the seal
//! environment, and unordered named collections take canonical order.
use vstd::prelude::*;

use crate::identity::EncodedName;
use super::assignment::{generated_for, GeneratedStreamAssignment, NamingAssignment};
use super::catalog::{BootstrapPriorIdentities, CanonicalIdentityOrder};
use super::grammar::{Delimiter, SyntaxTree};
use super::model::{
    Declaration, InterfaceRole, InterfaceRoleMembership, MethodDeclaration, NomosDeclaration,
    PreparedStreamGeneration, RoleEntry, StreamInitiationDeclaration, TableDeclaration, TraitDeclaration,
    TypeBody, TypeDeclaration, VariantBody, VariantDeclaration,
};
use super::ordering::{arrangement_by, keys_arrangeable, lemma_arranged_views, sort_by_identity, IdentityKeyed};
use super::error::BootstrapReadError;
use super::grammar::{lemma_trees_of, tree_of, trees_of, SyntaxNode};
use super::planning::unexpected_node;
use super::reify::{parse_type_expression, parse_type_expressions, ParameterScope, SealEnvironment};
use super::planning::{is_nomos_declaration, is_nomos_projection, DeclarationPurpose};
use super::reader::PlannedDeclaration;
use super::reify::{
    env_require, expr_view, exprs_view, fresh_scope, reify_expr, reify_exprs, ExprView, ScopeView, SealEnv,
};
use super::resolution::ExpectedSchema;
use super::sealing::assigned_identity;

verus! {

pub ghost enum VariantBodyView {
    Unit,
    Unary(ExprView),
    Product(Seq<ExprView>),
}

pub ghost struct VariantView {
    pub name: EncodedName,
    pub body: VariantBodyView,
}

pub ghost enum TypeBodyView {
    Newtype(ExprView),
    Struct(Seq<ExprView>),
    Enum(Seq<VariantView>),
}

pub ghost struct TypeDeclView {
    pub name: EncodedName,
    pub body: TypeBodyView,
}

pub ghost struct StreamDeclView {
    pub name: EncodedName,
    pub query: ExprView,
    pub event: ExprView,
}

pub ghost enum DeclView {
    Type(TypeDeclView),
    Stream(StreamDeclView),
}

pub ghost struct MethodView {
    pub name: EncodedName,
    pub parameters: Seq<ExprView>,
    pub return_type: ExprView,
}

pub ghost struct TraitDeclView {
    pub name: EncodedName,
    pub methods: Seq<MethodView>,
}

pub ghost enum RoleEntryView {
    Declaration(TypeDeclView),
    Reference(EncodedName),
}

/// The generated declarations of one authored Stream.
pub ghost struct StreamGenerationView {
    pub initiation: EncodedName,
    pub query: ExprView,
    pub output: EncodedName,
    pub stream_shape: EncodedName,
    pub event: ExprView,
    pub termination: EncodedName,
    pub relations: Seq<InterfaceRoleMembership>,
}

pub open spec fn variant_view(v: VariantDeclaration) -> VariantView {
    VariantView {
        name: v.name,
        body: match v.body {
            VariantBody::Unit => VariantBodyView::Unit,
            VariantBody::Unary(e) => VariantBodyView::Unary(expr_view(e)),
            VariantBody::Product(es) => VariantBodyView::Product(exprs_view(es@)),
        },
    }
}

pub open spec fn type_decl_view(d: TypeDeclaration) -> TypeDeclView {
    TypeDeclView {
        name: d.name,
        body: match d.body {
            TypeBody::Newtype(e) => TypeBodyView::Newtype(expr_view(e)),
            TypeBody::Struct(es) => TypeBodyView::Struct(exprs_view(es@)),
            TypeBody::Enum(vs) => TypeBodyView::Enum(vs@.map_values(|v: VariantDeclaration| variant_view(v))),
        },
    }
}

pub open spec fn decl_view(d: Declaration) -> DeclView {
    match d {
        Declaration::Type(t) => DeclView::Type(type_decl_view(t)),
        Declaration::Nomos(NomosDeclaration::StreamInitiation(s)) => DeclView::Stream(StreamDeclView {
            name: s.name,
            query: expr_view(s.query),
            event: expr_view(s.event),
        }),
    }
}

pub open spec fn method_view(m: MethodDeclaration) -> MethodView {
    MethodView { name: m.name, parameters: exprs_view(m.parameters@), return_type: expr_view(m.return_type) }
}

pub open spec fn trait_view(t: TraitDeclaration) -> TraitDeclView {
    TraitDeclView { name: t.name, methods: t.methods@.map_values(|m: MethodDeclaration| method_view(m)) }
}

pub open spec fn role_entry_view(e: RoleEntry) -> RoleEntryView {
    match e {
        RoleEntry::Declaration(d) => RoleEntryView::Declaration(type_decl_view(d)),
        RoleEntry::Reference(id) => RoleEntryView::Reference(id),
    }
}

pub open spec fn generation_view(p: PreparedStreamGeneration) -> StreamGenerationView {
    StreamGenerationView {
        initiation: p.initiation.name,
        query: expr_view(p.initiation.query),
        output: p.output.name,
        stream_shape: p.output.stream_of_event.shape,
        event: if p.output.stream_of_event.arguments@.len() == 1 {
            expr_view(p.output.stream_of_event.arguments@[0])
        } else {
            ExprView::Reference(p.output.name)
        },
        termination: p.termination.name,
        relations: p.role_relations@,
    }
}

/// A generation is well formed: the direct output is a one-argument Stream
/// application and the termination handle is the output.
pub open spec fn generation_shaped(p: PreparedStreamGeneration) -> bool {
    &&& p.output.stream_of_event.arguments@.len() == 1
    &&& p.termination.stream_handle == p.output.name
}

// ---------------------------------------------------------------------------
// Keys of the unordered named collections.
// ---------------------------------------------------------------------------

pub open spec fn variant_key(v: VariantView) -> EncodedName {
    v.name
}

pub open spec fn type_decl_key(d: TypeDeclView) -> EncodedName {
    d.name
}

pub open spec fn decl_key(d: DeclView) -> EncodedName {
    match d {
        DeclView::Type(t) => t.name,
        DeclView::Stream(s) => s.name,
    }
}

pub open spec fn method_key(m: MethodView) -> EncodedName {
    m.name
}

pub open spec fn trait_key(t: TraitDeclView) -> EncodedName {
    t.name
}

pub open spec fn table_key(t: TableDeclaration) -> EncodedName {
    t.name
}

pub open spec fn role_entry_key(e: RoleEntryView) -> EncodedName {
    match e {
        RoleEntryView::Declaration(d) => d.name,
        RoleEntryView::Reference(id) => id,
    }
}

pub open spec fn generation_key(g: StreamGenerationView) -> EncodedName {
    g.output
}

impl IdentityKeyed for VariantDeclaration {
    open spec fn key_identity(&self) -> EncodedName {
        self.name
    }

    fn identity_key(&self) -> (r: EncodedName) {
        self.name
    }
}

impl IdentityKeyed for TypeDeclaration {
    open spec fn key_identity(&self) -> EncodedName {
        self.name
    }

    fn identity_key(&self) -> (r: EncodedName) {
        self.name
    }
}

impl IdentityKeyed for Declaration {
    open spec fn key_identity(&self) -> EncodedName {
        super::model::declaration_identity(*self)
    }

    fn identity_key(&self) -> (r: EncodedName) {
        self.identity()
    }
}

impl IdentityKeyed for MethodDeclaration {
    open spec fn key_identity(&self) -> EncodedName {
        self.name
    }

    fn identity_key(&self) -> (r: EncodedName) {
        self.name
    }
}

impl IdentityKeyed for TraitDeclaration {
    open spec fn key_identity(&self) -> EncodedName {
        self.name
    }

    fn identity_key(&self) -> (r: EncodedName) {
        self.name
    }
}

impl IdentityKeyed for TableDeclaration {
    open spec fn key_identity(&self) -> EncodedName {
        self.name
    }

    fn identity_key(&self) -> (r: EncodedName) {
        self.name
    }
}

impl IdentityKeyed for RoleEntry {
    open spec fn key_identity(&self) -> EncodedName {
        super::model::role_entry_target(*self)
    }

    fn identity_key(&self) -> (r: EncodedName) {
        self.target()
    }
}

impl IdentityKeyed for PreparedStreamGeneration {
    open spec fn key_identity(&self) -> EncodedName {
        self.output.name
    }

    fn identity_key(&self) -> (r: EncodedName) {
        self.output.name
    }
}

// ---------------------------------------------------------------------------
// The assignment cursor and declaration meanings.
// ---------------------------------------------------------------------------

/// The plan and assignments that sealing walks in order.
pub ghost struct CursorCtx {
    pub ds: Seq<PlannedDeclaration>,
    pub a: Seq<NamingAssignment>,
}

/// The next planned occurrence must be this spelling with this purpose; it
/// yields its assigned identity.
pub open spec fn cursor_take(c: CursorCtx, next: int, spelling: Seq<char>, purpose: DeclarationPurpose) -> Option<EncodedName> {
    if 0 <= next < c.ds.len() && c.ds[next].spec_spelling() == spelling && c.ds[next].spec_purpose() == purpose {
        Some(assigned_identity(c.a, c.ds[next].spec_occurrence()))
    } else {
        None
    }
}

pub open spec fn reify_variant(env: SealEnv, c: CursorCtx, next: int, s: ScopeView, t: SyntaxTree) -> Option<(VariantView, int, ScopeView)> {
    match t {
        SyntaxTree::Atom { text, .. } => match cursor_take(c, next, text, DeclarationPurpose::Variant) {
            Some(name) => Some((VariantView { name, body: VariantBodyView::Unit }, next + 1, s)),
            None => None,
        },
        SyntaxTree::Application { head, payload, .. } => match cursor_take(c, next, head, DeclarationPurpose::Variant) {
            Some(name) => match *payload {
                SyntaxTree::Delimited { delimiter: Delimiter::Brace, items, .. } => match reify_exprs(env, s, items) {
                    Some((es, s2)) => Some((VariantView { name, body: VariantBodyView::Product(es) }, next + 1, s2)),
                    None => None,
                },
                p => match reify_expr(env, s, p) {
                    Some((e, s2)) => Some((VariantView { name, body: VariantBodyView::Unary(e) }, next + 1, s2)),
                    None => None,
                },
            },
            None => None,
        },
        _ => None,
    }
}

pub open spec fn reify_variants(env: SealEnv, c: CursorCtx, next: int, s: ScopeView, ts: Seq<SyntaxTree>) -> Option<(Seq<VariantView>, int, ScopeView)>
    decreases ts.len(),
{
    if ts.len() == 0 {
        Some((Seq::empty(), next, s))
    } else {
        match reify_variant(env, c, next, s, ts[0]) {
            Some((v, n1, s1)) => match reify_variants(env, c, n1, s1, ts.subrange(1, ts.len() as int)) {
                Some((vs, n2, s2)) => Some((seq![v] + vs, n2, s2)),
                None => None,
            },
            None => None,
        }
    }
}

/// A named type declaration of the given purpose.
pub open spec fn reify_type_decl(env: SealEnv, c: CursorCtx, next: int, t: SyntaxTree, purpose: DeclarationPurpose) -> Option<(TypeDeclView, int)> {
    match t {
        SyntaxTree::Application { head, payload, .. } => if is_nomos_projection(*payload) {
            None
        } else {
            match cursor_take(c, next, head, purpose) {
                Some(name) => {
                    let s0 = fresh_scope(name);
                    match *payload {
                        SyntaxTree::Delimited { delimiter: Delimiter::Brace, items, .. } => match reify_exprs(env, s0, items) {
                            Some((es, _)) => Some((TypeDeclView { name, body: TypeBodyView::Struct(es) }, next + 1)),
                            None => None,
                        },
                        SyntaxTree::Delimited { delimiter: Delimiter::Square, items, .. } => match reify_variants(env, c, next + 1, s0, items) {
                            Some((vs, n2, _)) => if keys_arrangeable(env.order, vs, |v: VariantView| variant_key(v)) {
                                Some((TypeDeclView { name, body: TypeBodyView::Enum(arrangement_by(env.order, vs, |v: VariantView| variant_key(v))) }, n2))
                            } else {
                                None
                            },
                            None => None,
                        },
                        p => match reify_expr(env, s0, p) {
                            Some((e, _)) => Some((TypeDeclView { name, body: TypeBodyView::Newtype(e) }, next + 1)),
                            None => None,
                        },
                    }
                },
                None => None,
            }
        },
        _ => None,
    }
}

/// `Name.Stream.(Query Event)`: the authored output name and its generated
/// initiation and termination declarations.
pub open spec fn reify_stream(
    env: SealEnv,
    c: CursorCtx,
    g: Seq<GeneratedStreamAssignment>,
    ids: BootstrapPriorIdentities,
    next: int,
    t: SyntaxTree,
) -> Option<(StreamDeclView, StreamGenerationView, int)> {
    match t {
        SyntaxTree::Application { head, payload, .. } => match *payload {
            SyntaxTree::Application { head: nomos, payload: arguments, .. } => match env_require(env, nomos, ExpectedSchema::StreamNomos) {
                Some(nid) => if nid != ids.stream_nomos {
                    None
                } else {
                    match *arguments {
                        SyntaxTree::Delimited { delimiter: Delimiter::Parenthesis, items, .. } => if items.len() != 2 {
                            None
                        } else {
                            match cursor_take(c, next, head, DeclarationPurpose::StreamInitiation) {
                                Some(output) => match generated_for(g, c.ds[next].spec_occurrence()) {
                                    Some(ga) => match reify_expr(env, fresh_scope(output), items[0]) {
                                        Some((query, s1)) => match reify_expr(env, s1, items[1]) {
                                            Some((event, _)) => Some((
                                                StreamDeclView { name: output, query, event },
                                                StreamGenerationView {
                                                    initiation: ga.initiation.encoded_name,
                                                    query,
                                                    output,
                                                    stream_shape: ids.stream_shape,
                                                    event,
                                                    termination: ga.termination.encoded_name,
                                                    relations: seq![
                                                        InterfaceRoleMembership { role: InterfaceRole::Input, target: ga.initiation.encoded_name },
                                                        InterfaceRoleMembership { role: InterfaceRole::Output, target: output },
                                                        InterfaceRoleMembership { role: InterfaceRole::Input, target: ga.termination.encoded_name },
                                                    ],
                                                },
                                                next + 1,
                                            )),
                                            None => None,
                                        },
                                        None => None,
                                    },
                                    None => None,
                                },
                                None => None,
                            }
                        },
                        _ => None,
                    }
                },
                None => None,
            },
            _ => None,
        },
        _ => None,
    }
}

pub open spec fn reify_method(env: SealEnv, c: CursorCtx, next: int, t: SyntaxTree) -> Option<(MethodView, int)> {
    match t {
        SyntaxTree::Application { head, payload, .. } => match cursor_take(c, next, head, DeclarationPurpose::Method) {
            Some(name) => match *payload {
                SyntaxTree::Delimited { delimiter: Delimiter::Brace, items, .. } => if items.len() == 0 {
                    None
                } else {
                    match reify_exprs(env, fresh_scope(name), items.drop_last()) {
                        Some((parameters, s1)) => match reify_expr(env, s1, items.last()) {
                            Some((return_type, _)) => Some((MethodView { name, parameters, return_type }, next + 1)),
                            None => None,
                        },
                        None => None,
                    }
                },
                _ => None,
            },
            None => None,
        },
        _ => None,
    }
}

pub open spec fn reify_methods(env: SealEnv, c: CursorCtx, next: int, ts: Seq<SyntaxTree>) -> Option<(Seq<MethodView>, int)>
    decreases ts.len(),
{
    if ts.len() == 0 {
        Some((Seq::empty(), next))
    } else {
        match reify_method(env, c, next, ts[0]) {
            Some((m, n1)) => match reify_methods(env, c, n1, ts.subrange(1, ts.len() as int)) {
                Some((ms, n2)) => Some((seq![m] + ms, n2)),
                None => None,
            },
            None => None,
        }
    }
}

/// `TraitName.{method.{Parameters Return} …}` with canonically ordered methods.
pub open spec fn reify_trait(env: SealEnv, c: CursorCtx, next: int, t: SyntaxTree) -> Option<(TraitDeclView, int)> {
    match t {
        SyntaxTree::Application { head, payload, .. } => match cursor_take(c, next, head, DeclarationPurpose::Trait) {
            Some(name) => match *payload {
                SyntaxTree::Delimited { delimiter: Delimiter::Brace, items, .. } => match reify_methods(env, c, next + 1, items) {
                    Some((ms, n2)) => if keys_arrangeable(env.order, ms, |m: MethodView| method_key(m)) {
                        Some((TraitDeclView { name, methods: arrangement_by(env.order, ms, |m: MethodView| method_key(m)) }, n2))
                    } else {
                        None
                    },
                    None => None,
                },
                _ => None,
            },
            None => None,
        },
        _ => None,
    }
}

/// `table.{RecordType KeyType}` over persistent nominal types.
pub open spec fn reify_table(env: SealEnv, c: CursorCtx, next: int, t: SyntaxTree) -> Option<(TableDeclaration, int)> {
    match t {
        SyntaxTree::Application { head, payload, .. } => match *payload {
            SyntaxTree::Delimited { delimiter: Delimiter::Brace, items, .. } => if items.len() != 2 {
                None
            } else {
                match (items[0], items[1]) {
                    (SyntaxTree::Atom { text: record, .. }, SyntaxTree::Atom { text: key, .. }) =>
                        match cursor_take(c, next, head, DeclarationPurpose::Table) {
                            Some(name) => match (env_require(env, record, ExpectedSchema::PersistentNominal), env_require(env, key, ExpectedSchema::PersistentNominal)) {
                                (Some(record_type), Some(key_type)) => Some((TableDeclaration { name, record_type, key_type }, next + 1)),
                                _ => None,
                            },
                            None => None,
                        },
                    _ => None,
                }
            },
            _ => None,
        },
        _ => None,
    }
}

/// A declaration of a Declarations section: a Stream where admitted, or a
/// plain type declaration.
pub open spec fn reify_declaration(
    env: SealEnv,
    c: CursorCtx,
    g: Seq<GeneratedStreamAssignment>,
    ids: BootstrapPriorIdentities,
    next: int,
    t: SyntaxTree,
    admit_nomos: bool,
) -> Option<(DeclView, Option<StreamGenerationView>, int)> {
    if is_nomos_declaration(t) {
        if !admit_nomos {
            None
        } else {
            match reify_stream(env, c, g, ids, next, t) {
                Some((d, p, n)) => Some((DeclView::Stream(d), Some(p), n)),
                None => None,
            }
        }
    } else {
        match reify_type_decl(env, c, next, t, DeclarationPurpose::Type) {
            Some((d, n)) => Some((DeclView::Type(d), None, n)),
            None => None,
        }
    }
}

/// One entry of a role section: a nominal reference or an inline declaration.
pub open spec fn reify_role_entry(env: SealEnv, c: CursorCtx, next: int, t: SyntaxTree) -> Option<(RoleEntryView, int)> {
    match t {
        SyntaxTree::Atom { text, .. } => match env_require(env, text, ExpectedSchema::Nominal) {
            Some(id) => Some((RoleEntryView::Reference(id), next)),
            None => None,
        },
        _ => if is_nomos_declaration(t) {
            None
        } else {
            match reify_type_decl(env, c, next, t, DeclarationPurpose::Type) {
                Some((d, n)) => Some((RoleEntryView::Declaration(d), n)),
                None => None,
            }
        },
    }
}

} // verus!

verus! {

/// Walks planned occurrences in plan order, handing out assigned identities.
pub struct AssignmentCursor<'a> {
    pub declarations: &'a [PlannedDeclaration],
    pub assignments: &'a super::assignment::NamingAssignments,
    pub next: usize,
}

impl<'a> AssignmentCursor<'a> {
    pub open spec fn ctx(&self) -> CursorCtx {
        CursorCtx { ds: self.declarations@, a: self.assignments.spec_assignments() }
    }

    pub open spec fn wf(&self) -> bool {
        &&& self.assignments.wf()
        &&& super::sealing::assignments_exact(self.declarations@, self.assignments.spec_assignments())
        &&& self.next <= self.declarations@.len()
    }

    /// The same walk, possibly further along.
    pub open spec fn same_walk(&self, other: &Self) -> bool {
        &&& self.declarations == other.declarations
        &&& self.assignments == other.assignments
    }

    /// Take the next planned occurrence, which must have this spelling and
    /// purpose.
    pub fn take(&mut self, spelling: &str, purpose: DeclarationPurpose) -> (r: Result<(EncodedName, super::reader::DeclarationOccurrence), super::error::BootstrapReadError>)
        requires
            old(self).wf(),
        ensures
            final(self).wf(),
            final(self).same_walk(old(self)),
            match cursor_take(old(self).ctx(), old(self).next as int, spelling@, purpose) {
                Some(id) => r matches Ok((x, o)) && x == id && o == old(self).declarations@[old(self).next as int].spec_occurrence()
                    && final(self).next == old(self).next + 1,
                None => r is Err,
            },
    {
        if self.next >= self.declarations.len() {
            return Err(super::error::BootstrapReadError::MissingAssignment(self.next as u32));
        }
        let planned = &self.declarations[self.next];
        if !super::catalog::str_equal(planned.spelling(), spelling) || planned.purpose() != purpose {
            return Err(super::error::BootstrapReadError::UnexpectedStructure {
                expected: "the declaration order selected during planning",
                found: "different declaration while sealing",
                start: planned.bound().start(),
            });
        }
        let occurrence = planned.occurrence();
        let identity = match self.assignments.get(occurrence) {
            Some(a) => a.encoded_name,
            None => {
                proof {
                    assert(super::assignment::assignment_for(self.assignments.spec_assignments(), self.declarations@[self.next as int].spec_occurrence()) is Some);
                }
                return Err(super::error::BootstrapReadError::MissingAssignment(occurrence.ordinal()));
            },
        };
        self.next = self.next + 1;
        Ok((identity, occurrence))
    }

    /// Every planned occurrence was taken.
    pub fn finish(&self) -> (r: Result<(), super::error::BootstrapReadError>)
        ensures
            r is Ok <==> self.next == self.declarations@.len(),
    {
        if self.next == self.declarations.len() {
            Ok(())
        } else {
            Err(super::error::BootstrapReadError::MissingAssignment(self.next as u32))
        }
    }
}

/// A copy of a type expression with the same meaning.
#[verifier::loop_isolation(false)]
pub fn copy_expression(e: &super::model::TypeExpression) -> (r: super::model::TypeExpression)
    ensures
        expr_view(r) == expr_view(*e),
    decreases e,
{
    match e {
        super::model::TypeExpression::Reference(id) => super::model::TypeExpression::Reference(*id),
        super::model::TypeExpression::ShapeApplication(sa) => {
            let mut out: Vec<super::model::TypeExpression> = Vec::new();
            let mut i: usize = 0;
            while i < sa.arguments.len()
                invariant
                    i <= sa.arguments@.len(),
                    exprs_view(out@) == exprs_view(sa.arguments@.subrange(0, i as int)),
                decreases sa.arguments@.len() - i,
            {
                proof {
                    assert(decreases_to!(*e => *sa));
                    assert(decreases_to!(*sa => sa.arguments));
                    assert(decreases_to!(sa.arguments => sa.arguments@));
                    assert(decreases_to!(sa.arguments@ => sa.arguments@[i as int]));
                }
                let x = copy_expression(&sa.arguments[i]);
                proof {
                    super::reify::lemma_exprs_view(out@);
                    super::reify::lemma_exprs_view(out@.push(x));
                    super::reify::lemma_exprs_view(sa.arguments@.subrange(0, i as int));
                    super::reify::lemma_exprs_view(sa.arguments@.subrange(0, i + 1));
                    let lhs = exprs_view(out@.push(x));
                    let rhs = exprs_view(sa.arguments@.subrange(0, i + 1));
                    assert forall|k: int| 0 <= k < lhs.len() implies lhs[k] == rhs[k] by {
                        if k < i {
                            assert(lhs[k] == expr_view(out@[k]));
                            assert(exprs_view(out@)[k] == expr_view(out@[k]));
                            assert(exprs_view(sa.arguments@.subrange(0, i as int))[k] == expr_view(sa.arguments@[k]));
                            assert(rhs[k] == expr_view(sa.arguments@[k]));
                        } else {
                            assert(lhs[k] == expr_view(x));
                            assert(rhs[k] == expr_view(sa.arguments@[k]));
                        }
                    }
                    assert(lhs =~= rhs);
                }
                out.push(x);
                i = i + 1;
            }
            proof {
                assert(sa.arguments@.subrange(0, sa.arguments@.len() as int) =~= sa.arguments@);
            }
            super::model::TypeExpression::ShapeApplication(super::model::ShapeApplication { shape: sa.shape, arguments: out })
        },
        super::model::TypeExpression::TraitRequirement(tr) => {
            let binder = match &tr.binder {
                super::model::ParameterBinder::Inferred(p) => super::model::ParameterBinder::Inferred(*p),
                super::model::ParameterBinder::Named { parameter, local_name } => super::model::ParameterBinder::Named {
                    parameter: *parameter,
                    local_name: local_name.clone(),
                },
            };
            let mut traits: Vec<EncodedName> = Vec::new();
            let mut i: usize = 0;
            while i < tr.required_traits.len()
                invariant
                    i <= tr.required_traits@.len(),
                    traits@ == tr.required_traits@.subrange(0, i as int),
                decreases tr.required_traits@.len() - i,
            {
                traits.push(tr.required_traits[i]);
                proof {
                    assert(traits@ =~= tr.required_traits@.subrange(0, i + 1));
                }
                i = i + 1;
            }
            proof {
                assert(tr.required_traits@.subrange(0, tr.required_traits@.len() as int) =~= tr.required_traits@);
            }
            super::model::TypeExpression::TraitRequirement(super::model::TraitRequirement { binder, required_traits: traits })
        },
    }
}

} // verus!

verus! {

/// Arrangeable keys are arrangeable through a key-preserving view.
pub proof fn lemma_keys_arrangeable_views<T, V>(
    order: CanonicalIdentityOrder,
    xs: Seq<T>,
    view: spec_fn(T) -> V,
    kt: spec_fn(T) -> EncodedName,
    kv: spec_fn(V) -> EncodedName,
)
    requires
        forall|x: T| #[trigger] kv(view(x)) == kt(x),
    ensures
        keys_arrangeable(order, xs, kt) <==> keys_arrangeable(order, xs.map_values(view), kv),
{
    let vs = xs.map_values(view);
    assert forall|i: int| 0 <= i < xs.len() implies kv(#[trigger] vs[i]) == kt(xs[i]) by {}
    if keys_arrangeable(order, vs, kv) {
        assert forall|i: int| 0 <= i < xs.len() implies order.spec_contains(kt(#[trigger] xs[i])) by {
            assert(order.spec_contains(kv(vs[i])));
        }
        assert forall|i: int, j: int| 0 <= i < j < xs.len() implies kt(#[trigger] xs[i]) != kt(#[trigger] xs[j]) by {
            assert(kv(vs[i]) != kv(vs[j]));
        }
    }
    if keys_arrangeable(order, xs, kt) {
        assert forall|i: int| 0 <= i < vs.len() implies order.spec_contains(kv(#[trigger] vs[i])) by {
            assert(order.spec_contains(kt(xs[i])));
        }
        assert forall|i: int, j: int| 0 <= i < j < vs.len() implies kv(#[trigger] vs[i]) != kv(#[trigger] vs[j]) by {
            assert(kt(xs[i]) != kt(xs[j]));
        }
    }
}

/// The outcome of reifying one cursor-driven step against its specification.
pub open spec fn stepped<T, V>(r: Result<T, BootstrapReadError>, expected: Option<(V, int)>, view: spec_fn(T) -> V, after: int) -> bool {
    match expected {
        Some((v, n)) => r matches Ok(x) && view(x) == v && after == n,
        None => r is Err,
    }
}

fn reify_variant_exec(
    env: &SealEnvironment,
    cursor: &mut AssignmentCursor,
    scope: &mut ParameterScope,
    node: &SyntaxNode,
) -> (r: Result<VariantDeclaration, BootstrapReadError>)
    requires
        env.wf(),
        old(cursor).wf(),
    ensures
        final(cursor).wf(),
        final(cursor).same_walk(old(cursor)),
        match reify_variant(env.view(), old(cursor).ctx(), old(cursor).next as int, old(scope).view(), tree_of(*node)) {
            Some((v, n, s)) => r matches Ok(x) && variant_view(x) == v && final(cursor).next == n && final(scope).view() == s,
            None => r is Err,
        },
{
    proof {
        reveal_with_fuel(tree_of, 2);
    }
    match node {
        SyntaxNode::Atom { text, .. } => {
            let (name, _) = match cursor.take(text.as_str(), DeclarationPurpose::Variant) {
                Ok(taken) => taken,
                Err(e) => {
                    return Err(e);
                },
            };
            Ok(VariantDeclaration { name, body: VariantBody::Unit })
        },
        SyntaxNode::Application { head, payload, .. } => {
            let (name, _) = match cursor.take(head.as_str(), DeclarationPurpose::Variant) {
                Ok(taken) => taken,
                Err(e) => {
                    return Err(e);
                },
            };
            match &**payload {
                SyntaxNode::Delimited { delimiter: Delimiter::Brace, items, .. } => {
                    match parse_type_expressions(env, scope, items.as_slice()) {
                        Ok(es) => Ok(VariantDeclaration { name, body: VariantBody::Product(es) }),
                        Err(e) => Err(e),
                    }
                },
                _ => match parse_type_expression(env, scope, payload) {
                    Ok(e) => Ok(VariantDeclaration { name, body: VariantBody::Unary(e) }),
                    Err(e) => Err(e),
                },
            }
        },
        _ => Err(unexpected_node(node, "enum variant")),
    }
}

#[verifier::loop_isolation(false)]
fn reify_variants_exec(
    env: &SealEnvironment,
    cursor: &mut AssignmentCursor,
    scope: &mut ParameterScope,
    items: &Vec<SyntaxNode>,
) -> (r: Result<Vec<VariantDeclaration>, BootstrapReadError>)
    requires
        env.wf(),
        old(cursor).wf(),
    ensures
        final(cursor).wf(),
        final(cursor).same_walk(old(cursor)),
        match reify_variants(env.view(), old(cursor).ctx(), old(cursor).next as int, old(scope).view(), trees_of(items@)) {
            Some((vs, n, s)) => r matches Ok(x) && x@.map_values(|v: VariantDeclaration| variant_view(v)) == vs
                && final(cursor).next == n && final(scope).view() == s,
            None => r is Err,
        },
{
    let ghost trees = trees_of(items@);
    let ghost c = cursor.ctx();
    let ghost n0 = cursor.next as int;
    let ghost s0 = scope.view();
    proof {
        lemma_trees_of(items@);
        assert(trees.subrange(0, trees.len() as int) =~= trees);
    }
    let mut out: Vec<VariantDeclaration> = Vec::new();
    let mut i: usize = 0;
    proof {
        let empty = out@.map_values(|v: VariantDeclaration| variant_view(v));
        assert(empty =~= Seq::<VariantView>::empty());
        assert forall|rest: Seq<VariantView>| #[trigger] (empty + rest) =~= rest by {}
    }
    while i < items.len()
        invariant
            i <= items@.len(),
            env.wf(),
            cursor.wf(),
            cursor.same_walk(old(cursor)),
            c == cursor.ctx(),
            trees == trees_of(items@),
            trees.len() == items@.len(),
            forall|k: int| 0 <= k < items@.len() ==> #[trigger] trees[k] == tree_of(items@[k]),
            reify_variants(env.view(), c, n0, s0, trees) == match reify_variants(env.view(), c, cursor.next as int, scope.view(), trees.subrange(i as int, trees.len() as int)) {
                Some((rest, n2, s2)) => Some((out@.map_values(|v: VariantDeclaration| variant_view(v)) + rest, n2, s2)),
                None => None,
            },
        decreases items@.len() - i,
    {
        let ghost rest = trees.subrange(i as int, trees.len() as int);
        proof {
            assert(rest[0] == tree_of(items@[i as int]));
            assert(rest.subrange(1, rest.len() as int) =~= trees.subrange(i + 1, trees.len() as int));
        }
        let v = match reify_variant_exec(env, cursor, scope, &items[i]) {
            Ok(v) => v,
            Err(e) => {
                return Err(e);
            },
        };
        proof {
            let before = out@.map_values(|v: VariantDeclaration| variant_view(v));
            assert(out@.push(v).map_values(|v: VariantDeclaration| variant_view(v)) =~= before.push(variant_view(v)));
            assert forall|rest2: Seq<VariantView>| before.push(variant_view(v)) + rest2 =~= before + (seq![variant_view(v)] + rest2) by {}
        }
        out.push(v);
        i = i + 1;
    }
    proof {
        let done = out@.map_values(|v: VariantDeclaration| variant_view(v));
        assert(trees.subrange(trees.len() as int, trees.len() as int) =~= Seq::<SyntaxTree>::empty());
        assert(done + Seq::<VariantView>::empty() =~= done);
    }
    Ok(out)
}

/// Reify one named type declaration of the given purpose.
pub fn reify_type_declaration(
    env: &SealEnvironment,
    cursor: &mut AssignmentCursor,
    node: &SyntaxNode,
    purpose: DeclarationPurpose,
) -> (r: Result<TypeDeclaration, BootstrapReadError>)
    requires
        env.wf(),
        old(cursor).wf(),
    ensures
        final(cursor).wf(),
        final(cursor).same_walk(old(cursor)),
        stepped(r, reify_type_decl(env.view(), old(cursor).ctx(), old(cursor).next as int, tree_of(*node), purpose),
            |x: TypeDeclaration| type_decl_view(x), final(cursor).next as int),
{
    proof {
        reveal_with_fuel(tree_of, 2);
    }
    match node {
        SyntaxNode::Application { head, payload, .. } => {
            if is_nomos_projection_node(payload) {
                return Err(match purpose {
                    DeclarationPurpose::PersistentType => BootstrapReadError::NonPersistentDeclaration,
                    _ => BootstrapReadError::StreamOutsideInterfaceTypes,
                });
            }
            let (name, _) = match cursor.take(head.as_str(), purpose) {
                Ok(taken) => taken,
                Err(e) => {
                    return Err(e);
                },
            };
            let mut scope = ParameterScope::new(name);
            match &**payload {
                SyntaxNode::Delimited { delimiter: Delimiter::Brace, items, .. } => {
                    match parse_type_expressions(env, &mut scope, items.as_slice()) {
                        Ok(es) => Ok(TypeDeclaration { name, body: TypeBody::Struct(es) }),
                        Err(e) => Err(e),
                    }
                },
                SyntaxNode::Delimited { delimiter: Delimiter::Square, items, .. } => {
                    let variants = match reify_variants_exec(env, cursor, &mut scope, items) {
                        Ok(variants) => variants,
                        Err(e) => {
                            return Err(e);
                        },
                    };
                    let ghost vs = variants@;
                    proof {
                        lemma_keys_arrangeable_views(*env.order, vs, |v: VariantDeclaration| variant_view(v),
                            |x: VariantDeclaration| x.key_identity(), |v: VariantView| variant_key(v));
                    }
                    match sort_by_identity(env.order, variants) {
                        Ok(sorted) => {
                            proof {
                                lemma_arranged_views(*env.order, sorted@, vs, |v: VariantDeclaration| variant_view(v),
                                    |x: VariantDeclaration| x.key_identity(), |v: VariantView| variant_key(v));
                            }
                            Ok(TypeDeclaration { name, body: TypeBody::Enum(sorted) })
                        },
                        Err(e) => Err(e),
                    }
                },
                _ => match parse_type_expression(env, &mut scope, payload) {
                    Ok(e) => Ok(TypeDeclaration { name, body: TypeBody::Newtype(e) }),
                    Err(e) => Err(e),
                },
            }
        },
        _ => Err(unexpected_node(node, "named type declaration")),
    }
}

fn is_nomos_projection_node(node: &SyntaxNode) -> (r: bool)
    ensures
        r == is_nomos_projection(tree_of(*node)),
{
    proof {
        reveal_with_fuel(tree_of, 3);
    }
    match node {
        SyntaxNode::Application { payload, .. } => match &**payload {
            SyntaxNode::Delimited { delimiter: Delimiter::Parenthesis, .. } => true,
            _ => false,
        },
        _ => false,
    }
}

fn is_nomos_declaration_node(node: &SyntaxNode) -> (r: bool)
    ensures
        r == is_nomos_declaration(tree_of(*node)),
{
    match node {
        SyntaxNode::Application { payload, .. } => is_nomos_projection_node(payload),
        _ => false,
    }
}

} // verus!

verus! {

pub open spec fn stream_decl_view(s: StreamInitiationDeclaration) -> StreamDeclView {
    StreamDeclView { name: s.name, query: expr_view(s.query), event: expr_view(s.event) }
}

proof fn lemma_trees_of_prefix(nodes: Seq<SyntaxNode>, n: int)
    requires
        0 <= n <= nodes.len(),
    ensures
        trees_of(nodes.subrange(0, n)) == trees_of(nodes).subrange(0, n),
{
    lemma_trees_of(nodes);
    lemma_trees_of(nodes.subrange(0, n));
    assert(trees_of(nodes.subrange(0, n)) =~= trees_of(nodes).subrange(0, n));
}

/// Reify `Name.Stream.(Query Event)` and its generated declarations.
pub fn reify_stream_exec(
    env: &SealEnvironment,
    cursor: &mut AssignmentCursor,
    generated: &super::assignment::GeneratedStreamAssignments,
    node: &SyntaxNode,
) -> (r: Result<(StreamInitiationDeclaration, PreparedStreamGeneration), BootstrapReadError>)
    requires
        env.wf(),
        old(cursor).wf(),
        generated.wf(),
    ensures
        final(cursor).wf(),
        final(cursor).same_walk(old(cursor)),
        match reify_stream(env.view(), old(cursor).ctx(), generated.spec_assignments(), env.view().ids, old(cursor).next as int, tree_of(*node)) {
            Some((d, p, n)) => r matches Ok((x, y)) && stream_decl_view(x) == d && generation_view(y) == p
                && generation_shaped(y) && final(cursor).next == n,
            None => r is Err,
        },
{
    proof {
        reveal_with_fuel(tree_of, 3);
    }
    match node {
        SyntaxNode::Application { head, payload, .. } => match &**payload {
            SyntaxNode::Application { head: nomos, payload: arguments, .. } => {
                let nid = match env.require(nomos.as_str(), ExpectedSchema::StreamNomos) {
                    Ok(nid) => nid,
                    Err(e) => {
                        return Err(e);
                    },
                };
                if nid != env.priors.identities().stream_nomos {
                    return Err(BootstrapReadError::WrongSchemaRole {
                        identity: nid,
                        required: super::catalog::SchemaRole::Nomos(super::catalog::NomosSchema::StreamInitiation { arity: 2 }),
                    });
                }
                match &**arguments {
                    SyntaxNode::Delimited { delimiter: Delimiter::Parenthesis, items, .. } => {
                        proof {
                            lemma_trees_of(items@);
                        }
                        if items.len() != 2 {
                            return Err(unexpected_node(arguments, "exactly Query then Event"));
                        }
                        let (output, occurrence) = match cursor.take(head.as_str(), DeclarationPurpose::StreamInitiation) {
                            Ok(taken) => taken,
                            Err(e) => {
                                return Err(e);
                            },
                        };
                        let ga = match generated.get(occurrence) {
                            Some(ga) => ga,
                            None => {
                                return Err(BootstrapReadError::MissingGeneratedStreamAssignment(occurrence.ordinal()));
                            },
                        };
                        let mut scope = ParameterScope::new(output);
                        let query = match parse_type_expression(env, &mut scope, &items[0]) {
                            Ok(q) => q,
                            Err(e) => {
                                return Err(e);
                            },
                        };
                        let event = match parse_type_expression(env, &mut scope, &items[1]) {
                            Ok(ev) => ev,
                            Err(e) => {
                                return Err(e);
                            },
                        };
                        let declaration = StreamInitiationDeclaration {
                            name: output,
                            query: copy_expression(&query),
                            event: copy_expression(&event),
                        };
                        let initiation = ga.initiation.encoded_name;
                        let termination = ga.termination.encoded_name;
                        let relations = [
                            InterfaceRoleMembership { role: InterfaceRole::Input, target: initiation },
                            InterfaceRoleMembership { role: InterfaceRole::Output, target: output },
                            InterfaceRoleMembership { role: InterfaceRole::Input, target: termination },
                        ];
                        let prepared = PreparedStreamGeneration {
                            initiation: super::model::StreamInitiationInterfaceDeclaration { name: initiation, query },
                            output: super::model::StreamInterfaceDeclaration {
                                name: output,
                                stream_of_event: super::model::ShapeApplication { shape: env.priors.identities().stream_shape, arguments: vec![event] },
                            },
                            termination: super::model::StreamTerminationInterfaceDeclaration { name: termination, stream_handle: output },
                            role_relations: relations,
                        };
                        proof {
                            assert(prepared.role_relations@ =~= seq![
                                InterfaceRoleMembership { role: InterfaceRole::Input, target: initiation },
                                InterfaceRoleMembership { role: InterfaceRole::Output, target: output },
                                InterfaceRoleMembership { role: InterfaceRole::Input, target: termination },
                            ]);
                        }
                        Ok((declaration, prepared))
                    },
                    _ => Err(unexpected_node(arguments, "Query then Event")),
                }
            },
            _ => Err(unexpected_node(payload, "audited Nomos application")),
        },
        _ => Err(unexpected_node(node, "Name.Nomos.(Query Event)")),
    }
}

fn reify_method_exec(
    env: &SealEnvironment,
    cursor: &mut AssignmentCursor,
    node: &SyntaxNode,
) -> (r: Result<MethodDeclaration, BootstrapReadError>)
    requires
        env.wf(),
        old(cursor).wf(),
    ensures
        final(cursor).wf(),
        final(cursor).same_walk(old(cursor)),
        stepped(r, reify_method(env.view(), old(cursor).ctx(), old(cursor).next as int, tree_of(*node)),
            |x: MethodDeclaration| method_view(x), final(cursor).next as int),
{
    proof {
        reveal_with_fuel(tree_of, 2);
    }
    match node {
        SyntaxNode::Application { head, payload, .. } => {
            let (name, _) = match cursor.take(head.as_str(), DeclarationPurpose::Method) {
                Ok(taken) => taken,
                Err(e) => {
                    return Err(e);
                },
            };
            match &**payload {
                SyntaxNode::Delimited { delimiter: Delimiter::Brace, items, .. } => {
                    proof {
                        lemma_trees_of(items@);
                    }
                    if items.len() == 0 {
                        return Err(unexpected_node(payload, "mandatory method return"));
                    }
                    let last = items.len() - 1;
                    let mut scope = ParameterScope::new(name);
                    let parameter_nodes = vstd::slice::slice_subrange(items.as_slice(), 0, last);
                    proof {
                        lemma_trees_of_prefix(items@, last as int);
                        assert(trees_of(items@).drop_last() =~= trees_of(items@).subrange(0, last as int));
                        assert(trees_of(items@).last() == tree_of(items@[last as int]));
                    }
                    let parameters = match parse_type_expressions(env, &mut scope, parameter_nodes) {
                        Ok(ps) => ps,
                        Err(e) => {
                            return Err(e);
                        },
                    };
                    let return_type = match parse_type_expression(env, &mut scope, &items[last]) {
                        Ok(rt) => rt,
                        Err(e) => {
                            return Err(e);
                        },
                    };
                    Ok(MethodDeclaration { name, parameters, return_type })
                },
                _ => Err(unexpected_node(payload, "method signature")),
            }
        },
        _ => Err(unexpected_node(node, "method.{Parameters Return}")),
    }
}

/// Reify `TraitName.{method.{Parameters Return} …}`.
#[verifier::loop_isolation(false)]
pub fn reify_trait_exec(
    env: &SealEnvironment,
    cursor: &mut AssignmentCursor,
    node: &SyntaxNode,
) -> (r: Result<TraitDeclaration, BootstrapReadError>)
    requires
        env.wf(),
        old(cursor).wf(),
    ensures
        final(cursor).wf(),
        final(cursor).same_walk(old(cursor)),
        stepped(r, reify_trait(env.view(), old(cursor).ctx(), old(cursor).next as int, tree_of(*node)),
            |x: TraitDeclaration| trait_view(x), final(cursor).next as int),
{
    proof {
        reveal_with_fuel(tree_of, 2);
    }
    match node {
        SyntaxNode::Application { head, payload, .. } => {
            let (name, _) = match cursor.take(head.as_str(), DeclarationPurpose::Trait) {
                Ok(taken) => taken,
                Err(e) => {
                    return Err(e);
                },
            };
            match &**payload {
                SyntaxNode::Delimited { delimiter: Delimiter::Brace, items, .. } => {
                    let ghost trees = trees_of(items@);
                    let ghost c = cursor.ctx();
                    let ghost n0 = cursor.next as int;
                    proof {
                        lemma_trees_of(items@);
                        assert(trees.subrange(0, trees.len() as int) =~= trees);
                    }
                    let mut out: Vec<MethodDeclaration> = Vec::new();
                    let mut i: usize = 0;
                    proof {
                        let empty = out@.map_values(|m: MethodDeclaration| method_view(m));
                        assert(empty =~= Seq::<MethodView>::empty());
                        assert forall|rest: Seq<MethodView>| #[trigger] (empty + rest) =~= rest by {}
                    }
                    while i < items.len()
                        invariant
                            i <= items@.len(),
                            env.wf(),
                            cursor.wf(),
                            cursor.same_walk(old(cursor)),
                            c == cursor.ctx(),
                            trees == trees_of(items@),
                            trees.len() == items@.len(),
                            forall|k: int| 0 <= k < items@.len() ==> #[trigger] trees[k] == tree_of(items@[k]),
                            reify_methods(env.view(), c, n0, trees) == match reify_methods(env.view(), c, cursor.next as int, trees.subrange(i as int, trees.len() as int)) {
                                Some((rest, n2)) => Some((out@.map_values(|m: MethodDeclaration| method_view(m)) + rest, n2)),
                                None => None,
                            },
                        decreases items@.len() - i,
                    {
                        let ghost rest = trees.subrange(i as int, trees.len() as int);
                        proof {
                            assert(rest[0] == tree_of(items@[i as int]));
                            assert(rest.subrange(1, rest.len() as int) =~= trees.subrange(i + 1, trees.len() as int));
                        }
                        let m = match reify_method_exec(env, cursor, &items[i]) {
                            Ok(m) => m,
                            Err(e) => {
                                return Err(e);
                            },
                        };
                        proof {
                            let before = out@.map_values(|m: MethodDeclaration| method_view(m));
                            assert(out@.push(m).map_values(|m: MethodDeclaration| method_view(m)) =~= before.push(method_view(m)));
                            assert forall|rest2: Seq<MethodView>| #[trigger] (before.push(method_view(m)) + rest2) =~= before + (seq![method_view(m)] + rest2) by {}
                        }
                        out.push(m);
                        i = i + 1;
                    }
                    let ghost ms = out@;
                    proof {
                        let done = out@.map_values(|m: MethodDeclaration| method_view(m));
                        assert(trees.subrange(trees.len() as int, trees.len() as int) =~= Seq::<SyntaxTree>::empty());
                        assert(done + Seq::<MethodView>::empty() =~= done);
                        lemma_keys_arrangeable_views(*env.order, ms, |m: MethodDeclaration| method_view(m),
                            |x: MethodDeclaration| x.key_identity(), |m: MethodView| method_key(m));
                    }
                    match sort_by_identity(env.order, out) {
                        Ok(sorted) => {
                            proof {
                                lemma_arranged_views(*env.order, sorted@, ms, |m: MethodDeclaration| method_view(m),
                                    |x: MethodDeclaration| x.key_identity(), |m: MethodView| method_key(m));
                            }
                            Ok(TraitDeclaration { name, methods: sorted })
                        },
                        Err(e) => Err(e),
                    }
                },
                _ => Err(unexpected_node(payload, "Trait methods")),
            }
        },
        _ => Err(unexpected_node(node, "TraitName.{Methods}")),
    }
}

/// Reify `table.{RecordType KeyType}`.
pub fn reify_table_exec(
    env: &SealEnvironment,
    cursor: &mut AssignmentCursor,
    node: &SyntaxNode,
) -> (r: Result<TableDeclaration, BootstrapReadError>)
    requires
        env.wf(),
        old(cursor).wf(),
    ensures
        final(cursor).wf(),
        final(cursor).same_walk(old(cursor)),
        stepped(r, reify_table(env.view(), old(cursor).ctx(), old(cursor).next as int, tree_of(*node)),
            |x: TableDeclaration| x, final(cursor).next as int),
{
    proof {
        reveal_with_fuel(tree_of, 2);
    }
    match node {
        SyntaxNode::Application { head, payload, .. } => match &**payload {
            SyntaxNode::Delimited { delimiter: Delimiter::Brace, items, .. } => {
                proof {
                    lemma_trees_of(items@);
                }
                if items.len() != 2 {
                    return Err(unexpected_node(payload, "exactly RecordType then KeyType"));
                }
                proof {
                    assert(trees_of(items@)[0] == tree_of(items@[0]));
                    assert(trees_of(items@)[1] == tree_of(items@[1]));
                }
                let record = match &items[0] {
                    SyntaxNode::Atom { text, .. } => text,
                    _ => {
                        return Err(unexpected_node(&items[0], "persistent nominal RecordType"));
                    },
                };
                let key = match &items[1] {
                    SyntaxNode::Atom { text, .. } => text,
                    _ => {
                        return Err(unexpected_node(&items[1], "persistent nominal KeyType"));
                    },
                };
                let (name, _) = match cursor.take(head.as_str(), DeclarationPurpose::Table) {
                    Ok(taken) => taken,
                    Err(e) => {
                        return Err(e);
                    },
                };
                let record_type = match env.require(record.as_str(), ExpectedSchema::PersistentNominal) {
                    Ok(id) => id,
                    Err(e) => {
                        return Err(e);
                    },
                };
                let key_type = match env.require(key.as_str(), ExpectedSchema::PersistentNominal) {
                    Ok(id) => id,
                    Err(e) => {
                        return Err(e);
                    },
                };
                Ok(TableDeclaration { name, record_type, key_type })
            },
            _ => Err(unexpected_node(payload, "table fields")),
        },
        _ => Err(unexpected_node(node, "table.{RecordType KeyType}")),
    }
}

} // verus!

verus! {

// ---------------------------------------------------------------------------
// Sections.
// ---------------------------------------------------------------------------

pub open spec fn role_entries_fold(env: SealEnv, c: CursorCtx, next: int, ts: Seq<SyntaxTree>) -> Option<(Seq<RoleEntryView>, int)>
    decreases ts.len(),
{
    if ts.len() == 0 {
        Some((Seq::empty(), next))
    } else {
        match reify_role_entry(env, c, next, ts[0]) {
            Some((e, n1)) => match role_entries_fold(env, c, n1, ts.subrange(1, ts.len() as int)) {
                Some((es, n2)) => Some((seq![e] + es, n2)),
                None => None,
            },
            None => None,
        }
    }
}

pub open spec fn declarations_fold(
    env: SealEnv,
    c: CursorCtx,
    g: Seq<GeneratedStreamAssignment>,
    ids: BootstrapPriorIdentities,
    next: int,
    ts: Seq<SyntaxTree>,
    admit_nomos: bool,
) -> Option<(Seq<DeclView>, Seq<StreamGenerationView>, int)>
    decreases ts.len(),
{
    if ts.len() == 0 {
        Some((Seq::empty(), Seq::empty(), next))
    } else {
        match reify_declaration(env, c, g, ids, next, ts[0], admit_nomos) {
            Some((d, p, n1)) => match declarations_fold(env, c, g, ids, n1, ts.subrange(1, ts.len() as int), admit_nomos) {
                Some((ds, ps, n2)) => Some((seq![d] + ds, match p {
                    Some(x) => seq![x] + ps,
                    None => ps,
                }, n2)),
                None => None,
            },
            None => None,
        }
    }
}

pub open spec fn traits_fold(env: SealEnv, c: CursorCtx, next: int, ts: Seq<SyntaxTree>) -> Option<(Seq<TraitDeclView>, int)>
    decreases ts.len(),
{
    if ts.len() == 0 {
        Some((Seq::empty(), next))
    } else {
        match reify_trait(env, c, next, ts[0]) {
            Some((t, n1)) => match traits_fold(env, c, n1, ts.subrange(1, ts.len() as int)) {
                Some((rest, n2)) => Some((seq![t] + rest, n2)),
                None => None,
            },
            None => None,
        }
    }
}

pub open spec fn persistent_fold(env: SealEnv, c: CursorCtx, next: int, ts: Seq<SyntaxTree>) -> Option<(Seq<TypeDeclView>, int)>
    decreases ts.len(),
{
    if ts.len() == 0 {
        Some((Seq::empty(), next))
    } else {
        match reify_type_decl(env, c, next, ts[0], DeclarationPurpose::PersistentType) {
            Some((d, n1)) => match persistent_fold(env, c, n1, ts.subrange(1, ts.len() as int)) {
                Some((rest, n2)) => Some((seq![d] + rest, n2)),
                None => None,
            },
            None => None,
        }
    }
}

pub open spec fn tables_fold(env: SealEnv, c: CursorCtx, next: int, ts: Seq<SyntaxTree>) -> Option<(Seq<TableDeclaration>, int)>
    decreases ts.len(),
{
    if ts.len() == 0 {
        Some((Seq::empty(), next))
    } else {
        match reify_table(env, c, next, ts[0]) {
            Some((t, n1)) => match tables_fold(env, c, n1, ts.subrange(1, ts.len() as int)) {
                Some((rest, n2)) => Some((seq![t] + rest, n2)),
                None => None,
            },
            None => None,
        }
    }
}

/// The meaning of one registered section.
pub ghost enum SectionView {
    Role { role: InterfaceRole, entries: Seq<RoleEntryView> },
    Declarations(Seq<DeclView>),
    Traits(Seq<TraitDeclView>),
    PersistentDeclarations(Seq<TypeDeclView>),
    Tables(Seq<TableDeclaration>),
}

/// One registered section: its items reified in plan order, then arranged
/// canonically by identity.
pub open spec fn reify_section(
    env: SealEnv,
    c: CursorCtx,
    g: Seq<GeneratedStreamAssignment>,
    ids: BootstrapPriorIdentities,
    next: int,
    schema: super::root::BootstrapSectionSchema,
    t: SyntaxTree,
) -> Option<(SectionView, Seq<StreamGenerationView>, int)> {
    match t {
        SyntaxTree::Delimited { delimiter: Delimiter::Square, items, .. } => match schema {
            super::root::BootstrapSectionSchema::Role(role) => match role_entries_fold(env, c, next, items) {
                Some((es, n)) => if keys_arrangeable(env.order, es, |e: RoleEntryView| role_entry_key(e)) {
                    Some((SectionView::Role { role, entries: arrangement_by(env.order, es, |e: RoleEntryView| role_entry_key(e)) }, Seq::empty(), n))
                } else {
                    None
                },
                None => None,
            },
            super::root::BootstrapSectionSchema::Declarations { admit_nomos } => match declarations_fold(env, c, g, ids, next, items, admit_nomos) {
                Some((ds, ps, n)) => if keys_arrangeable(env.order, ds, |d: DeclView| decl_key(d)) {
                    Some((SectionView::Declarations(arrangement_by(env.order, ds, |d: DeclView| decl_key(d))), ps, n))
                } else {
                    None
                },
                None => None,
            },
            super::root::BootstrapSectionSchema::Traits => match traits_fold(env, c, next, items) {
                Some((ts, n)) => if keys_arrangeable(env.order, ts, |x: TraitDeclView| trait_key(x)) {
                    Some((SectionView::Traits(arrangement_by(env.order, ts, |x: TraitDeclView| trait_key(x))), Seq::empty(), n))
                } else {
                    None
                },
                None => None,
            },
            super::root::BootstrapSectionSchema::PersistentDeclarations => match persistent_fold(env, c, next, items) {
                Some((ds, n)) => if keys_arrangeable(env.order, ds, |d: TypeDeclView| type_decl_key(d)) {
                    Some((SectionView::PersistentDeclarations(arrangement_by(env.order, ds, |d: TypeDeclView| type_decl_key(d))), Seq::empty(), n))
                } else {
                    None
                },
                None => None,
            },
            super::root::BootstrapSectionSchema::Tables => match tables_fold(env, c, next, items) {
                Some((ts, n)) => if keys_arrangeable(env.order, ts, |x: TableDeclaration| table_key(x)) {
                    Some((SectionView::Tables(arrangement_by(env.order, ts, |x: TableDeclaration| table_key(x))), Seq::empty(), n))
                } else {
                    None
                },
                None => None,
            },
        },
        _ => None,
    }
}

/// The sections of a body in registry order, with the generations of every
/// authored Stream in plan order.
pub open spec fn reify_sections(
    env: SealEnv,
    c: CursorCtx,
    g: Seq<GeneratedStreamAssignment>,
    ids: BootstrapPriorIdentities,
    next: int,
    schemas: Seq<super::root::BootstrapSectionSchema>,
    fields: Seq<SyntaxTree>,
) -> Option<(Seq<SectionView>, Seq<StreamGenerationView>, int)>
    decreases schemas.len(),
{
    if schemas.len() == 0 || fields.len() == 0 {
        Some((Seq::empty(), Seq::empty(), next))
    } else {
        match reify_section(env, c, g, ids, next, schemas[0], fields[0]) {
            Some((sec, ps, n1)) => match reify_sections(env, c, g, ids, n1, schemas.subrange(1, schemas.len() as int), fields.subrange(1, fields.len() as int)) {
                Some((secs, ps2, n2)) => Some((seq![sec] + secs, ps + ps2, n2)),
                None => None,
            },
            None => None,
        }
    }
}

} // verus!

verus! {

pub open spec fn gens_view(ps: Seq<PreparedStreamGeneration>) -> Seq<StreamGenerationView> {
    ps.map_values(|p: PreparedStreamGeneration| generation_view(p))
}

pub open spec fn all_shaped(ps: Seq<PreparedStreamGeneration>) -> bool {
    forall|i: int| 0 <= i < ps.len() ==> generation_shaped(#[trigger] ps[i])
}

/// Reify one declaration of a Declarations section.
pub fn reify_declaration_exec(
    env: &SealEnvironment,
    cursor: &mut AssignmentCursor,
    generated: &super::assignment::GeneratedStreamAssignments,
    node: &SyntaxNode,
    admit_nomos: bool,
) -> (r: Result<(Declaration, Option<PreparedStreamGeneration>), BootstrapReadError>)
    requires
        env.wf(),
        old(cursor).wf(),
        generated.wf(),
    ensures
        final(cursor).wf(),
        final(cursor).same_walk(old(cursor)),
        match reify_declaration(env.view(), old(cursor).ctx(), generated.spec_assignments(), env.view().ids, old(cursor).next as int, tree_of(*node), admit_nomos) {
            Some((d, p, n)) => r matches Ok((x, y)) && decl_view(x) == d && final(cursor).next == n && match (y, p) {
                (Some(a), Some(b)) => generation_view(a) == b && generation_shaped(a),
                (None, None) => true,
                _ => false,
            },
            None => r is Err,
        },
{
    if is_nomos_declaration_node(node) {
        if !admit_nomos {
            return Err(BootstrapReadError::StreamOutsideInterfaceTypes);
        }
        match reify_stream_exec(env, cursor, generated, node) {
            Ok((d, p)) => Ok((Declaration::Nomos(NomosDeclaration::StreamInitiation(d)), Some(p))),
            Err(e) => Err(e),
        }
    } else {
        match reify_type_declaration(env, cursor, node, DeclarationPurpose::Type) {
            Ok(d) => Ok((Declaration::Type(d), None)),
            Err(e) => Err(e),
        }
    }
}

/// Reify one entry of a role section.
pub fn reify_role_entry_exec(
    env: &SealEnvironment,
    cursor: &mut AssignmentCursor,
    node: &SyntaxNode,
) -> (r: Result<RoleEntry, BootstrapReadError>)
    requires
        env.wf(),
        old(cursor).wf(),
    ensures
        final(cursor).wf(),
        final(cursor).same_walk(old(cursor)),
        stepped(r, reify_role_entry(env.view(), old(cursor).ctx(), old(cursor).next as int, tree_of(*node)),
            |x: RoleEntry| role_entry_view(x), final(cursor).next as int),
{
    match node {
        SyntaxNode::Atom { text, .. } => match env.require(text.as_str(), ExpectedSchema::Nominal) {
            Ok(id) => Ok(RoleEntry::Reference(id)),
            Err(e) => Err(e),
        },
        _ => {
            if is_nomos_declaration_node(node) {
                return Err(BootstrapReadError::StreamOutsideInterfaceTypes);
            }
            match reify_type_declaration(env, cursor, node, DeclarationPurpose::Type) {
                Ok(d) => Ok(RoleEntry::Declaration(d)),
                Err(e) => Err(e),
            }
        },
    }
}

/// One reified registered section.
pub enum ReifiedSection {
    Role { role: InterfaceRole, entries: Vec<RoleEntry>, memberships: Vec<InterfaceRoleMembership> },
    Declarations(Vec<Declaration>),
    Traits(Vec<TraitDeclaration>),
    PersistentDeclarations(Vec<TypeDeclaration>),
    Tables(Vec<TableDeclaration>),
}

/// The membership each role entry induces.
pub open spec fn membership_of(role: InterfaceRole, e: RoleEntry) -> InterfaceRoleMembership {
    InterfaceRoleMembership { role, target: super::model::role_entry_target(e) }
}

pub open spec fn section_view(s: ReifiedSection) -> SectionView {
    match s {
        ReifiedSection::Role { role, entries, .. } => SectionView::Role { role, entries: entries@.map_values(|e: RoleEntry| role_entry_view(e)) },
        ReifiedSection::Declarations(ds) => SectionView::Declarations(ds@.map_values(|d: Declaration| decl_view(d))),
        ReifiedSection::Traits(ts) => SectionView::Traits(ts@.map_values(|t: TraitDeclaration| trait_view(t))),
        ReifiedSection::PersistentDeclarations(ds) => SectionView::PersistentDeclarations(ds@.map_values(|d: TypeDeclaration| type_decl_view(d))),
        ReifiedSection::Tables(ts) => SectionView::Tables(ts@),
    }
}

/// A role section's memberships are exactly its entries' targets, in order.
pub open spec fn section_memberships_ok(s: ReifiedSection) -> bool {
    match s {
        ReifiedSection::Role { role, entries, memberships } =>
            memberships@ == entries@.map_values(|e: RoleEntry| membership_of(role, e)),
        _ => true,
    }
}

/// The section's outcome against its specification.
pub open spec fn section_reified(
    r: Result<ReifiedSection, BootstrapReadError>,
    expected: Option<(SectionView, Seq<StreamGenerationView>, int)>,
    before: Seq<PreparedStreamGeneration>,
    after: Seq<PreparedStreamGeneration>,
    next: int,
) -> bool {
    match expected {
        Some((sec, ps, n)) => r matches Ok(x) && section_view(x) == sec && section_memberships_ok(x)
            && gens_view(after) == gens_view(before) + ps && all_shaped(after) && next == n,
        None => r is Err,
    }
}

} // verus!

verus! {

#[verifier::loop_isolation(false)]
fn reify_role_section(
    env: &SealEnvironment,
    cursor: &mut AssignmentCursor,
    generated: &super::assignment::GeneratedStreamAssignments,
    role: InterfaceRole,
    node: &SyntaxNode,
    prepared: &mut Vec<PreparedStreamGeneration>,
) -> (r: Result<ReifiedSection, BootstrapReadError>)
    requires
        env.wf(),
        old(cursor).wf(),
        all_shaped(old(prepared)@),
    ensures
        final(cursor).wf(),
        final(cursor).same_walk(old(cursor)),
        section_reified(r, reify_section(env.view(), old(cursor).ctx(), generated.spec_assignments(), env.view().ids,
            old(cursor).next as int, super::root::BootstrapSectionSchema::Role(role), tree_of(*node)),
            old(prepared)@, final(prepared)@, final(cursor).next as int),
{
    proof {
        assert(gens_view(prepared@) + Seq::<StreamGenerationView>::empty() =~= gens_view(prepared@));
    }
    match node {
        SyntaxNode::Delimited { delimiter: Delimiter::Square, items, .. } => {
            let ghost trees = trees_of(items@);
            let ghost c = cursor.ctx();
            let ghost n0 = cursor.next as int;
            proof {
                lemma_trees_of(items@);
                assert(trees.subrange(0, trees.len() as int) =~= trees);
            }
            let mut out: Vec<RoleEntry> = Vec::new();
            let mut i: usize = 0;
            proof {
                let empty = out@.map_values(|e: RoleEntry| role_entry_view(e));
                assert(empty =~= Seq::<RoleEntryView>::empty());
                assert forall|rest: Seq<RoleEntryView>| #[trigger] (empty + rest) =~= rest by {}
            }
            while i < items.len()
                invariant
                    i <= items@.len(),
                    cursor.wf(),
                    cursor.same_walk(old(cursor)),
                    c == cursor.ctx(),
                    trees == trees_of(items@),
                    trees.len() == items@.len(),
                    forall|k: int| 0 <= k < items@.len() ==> #[trigger] trees[k] == tree_of(items@[k]),
                    role_entries_fold(env.view(), c, n0, trees) == match role_entries_fold(env.view(), c, cursor.next as int, trees.subrange(i as int, trees.len() as int)) {
                        Some((rest, n2)) => Some((out@.map_values(|e: RoleEntry| role_entry_view(e)) + rest, n2)),
                        None => None,
                    },
                decreases items@.len() - i,
            {
                let ghost rest = trees.subrange(i as int, trees.len() as int);
                proof {
                    assert(rest[0] == tree_of(items@[i as int]));
                    assert(rest.subrange(1, rest.len() as int) =~= trees.subrange(i + 1, trees.len() as int));
                }
                let e = match reify_role_entry_exec(env, cursor, &items[i]) {
                    Ok(e) => e,
                    Err(err) => {
                        return Err(err);
                    },
                };
                proof {
                    let before = out@.map_values(|e: RoleEntry| role_entry_view(e));
                    assert(out@.push(e).map_values(|e: RoleEntry| role_entry_view(e)) =~= before.push(role_entry_view(e)));
                    assert forall|rest2: Seq<RoleEntryView>| #[trigger] (before.push(role_entry_view(e)) + rest2) =~= before + (seq![role_entry_view(e)] + rest2) by {}
                }
                out.push(e);
                i = i + 1;
            }
            let ghost es = out@;
            proof {
                let done = out@.map_values(|e: RoleEntry| role_entry_view(e));
                assert(trees.subrange(trees.len() as int, trees.len() as int) =~= Seq::<SyntaxTree>::empty());
                assert(done + Seq::<RoleEntryView>::empty() =~= done);
                lemma_keys_arrangeable_views(*env.order, es, |e: RoleEntry| role_entry_view(e),
                    |x: RoleEntry| x.key_identity(), |e: RoleEntryView| role_entry_key(e));
            }
            let entries = match sort_by_identity(env.order, out) {
                Ok(sorted) => sorted,
                Err(e) => {
                    return Err(e);
                },
            };
            proof {
                lemma_arranged_views(*env.order, entries@, es, |e: RoleEntry| role_entry_view(e),
                    |x: RoleEntry| x.key_identity(), |e: RoleEntryView| role_entry_key(e));
            }
            let mut memberships: Vec<InterfaceRoleMembership> = Vec::new();
            let mut k: usize = 0;
            while k < entries.len()
                invariant
                    k <= entries@.len(),
                    memberships@ == entries@.subrange(0, k as int).map_values(|e: RoleEntry| membership_of(role, e)),
                decreases entries@.len() - k,
            {
                let m = InterfaceRoleMembership { role, target: entries[k].target() };
                proof {
                    assert(entries@.subrange(0, k + 1).map_values(|e: RoleEntry| membership_of(role, e))
                        =~= entries@.subrange(0, k as int).map_values(|e: RoleEntry| membership_of(role, e)).push(m));
                }
                memberships.push(m);
                k = k + 1;
            }
            proof {
                assert(entries@.subrange(0, entries@.len() as int) =~= entries@);
            }
            Ok(ReifiedSection::Role { role, entries, memberships })
        },
        _ => Err(unexpected_node(node, "registered section")),
    }
}

} // verus!

verus! {

/// A table declaration is its own view.
pub open spec fn table_identity(t: TableDeclaration) -> TableDeclaration {
    t
}

#[verifier::loop_isolation(false)]
fn reify_trait_section(
    env: &SealEnvironment,
    cursor: &mut AssignmentCursor,
    generated: &super::assignment::GeneratedStreamAssignments,
    node: &SyntaxNode,
    prepared: &mut Vec<PreparedStreamGeneration>,
) -> (r: Result<ReifiedSection, BootstrapReadError>)
    requires
        env.wf(),
        old(cursor).wf(),
        all_shaped(old(prepared)@),
    ensures
        final(cursor).wf(),
        final(cursor).same_walk(old(cursor)),
        section_reified(r, reify_section(env.view(), old(cursor).ctx(), generated.spec_assignments(), env.view().ids,
            old(cursor).next as int, super::root::BootstrapSectionSchema::Traits, tree_of(*node)),
            old(prepared)@, final(prepared)@, final(cursor).next as int),
{
    proof {
        assert(gens_view(prepared@) + Seq::<StreamGenerationView>::empty() =~= gens_view(prepared@));
    }
    match node {
        SyntaxNode::Delimited { delimiter: Delimiter::Square, items, .. } => {
            let ghost trees = trees_of(items@);
            let ghost c = cursor.ctx();
            let ghost n0 = cursor.next as int;
            proof {
                lemma_trees_of(items@);
                assert(trees.subrange(0, trees.len() as int) =~= trees);
            }
            let mut out: Vec<TraitDeclaration> = Vec::new();
            let mut i: usize = 0;
            proof {
                let empty = out@.map_values(|e: TraitDeclaration| trait_view(e));
                assert(empty =~= Seq::<TraitDeclView>::empty());
                assert forall|rest: Seq<TraitDeclView>| #[trigger] (empty + rest) =~= rest by {}
            }
            while i < items.len()
                invariant
                    i <= items@.len(),
                    cursor.wf(),
                    cursor.same_walk(old(cursor)),
                    c == cursor.ctx(),
                    trees == trees_of(items@),
                    trees.len() == items@.len(),
                    forall|k: int| 0 <= k < items@.len() ==> #[trigger] trees[k] == tree_of(items@[k]),
                    traits_fold(env.view(), c, n0, trees) == match traits_fold(env.view(), c, cursor.next as int, trees.subrange(i as int, trees.len() as int)) {
                        Some((rest, n2)) => Some((out@.map_values(|e: TraitDeclaration| trait_view(e)) + rest, n2)),
                        None => None,
                    },
                decreases items@.len() - i,
            {
                let ghost rest = trees.subrange(i as int, trees.len() as int);
                proof {
                    assert(rest[0] == tree_of(items@[i as int]));
                    assert(rest.subrange(1, rest.len() as int) =~= trees.subrange(i + 1, trees.len() as int));
                }
                let e = match reify_trait_exec(env, cursor, &items[i]) {
                    Ok(e) => e,
                    Err(err) => {
                        return Err(err);
                    },
                };
                proof {
                    let before = out@.map_values(|e: TraitDeclaration| trait_view(e));
                    assert(out@.push(e).map_values(|e: TraitDeclaration| trait_view(e)) =~= before.push(trait_view(e)));
                    assert forall|rest2: Seq<TraitDeclView>| #[trigger] (before.push(trait_view(e)) + rest2) =~= before + (seq![trait_view(e)] + rest2) by {}
                }
                out.push(e);
                i = i + 1;
            }
            let ghost es = out@;
            proof {
                let done = out@.map_values(|e: TraitDeclaration| trait_view(e));
                assert(trees.subrange(trees.len() as int, trees.len() as int) =~= Seq::<SyntaxTree>::empty());
                assert(done + Seq::<TraitDeclView>::empty() =~= done);
                lemma_keys_arrangeable_views(*env.order, es, |e: TraitDeclaration| trait_view(e),
                    |x: TraitDeclaration| x.key_identity(), |e: TraitDeclView| trait_key(e));
            }
            let sorted = match sort_by_identity(env.order, out) {
                Ok(sorted) => sorted,
                Err(e) => {
                    return Err(e);
                },
            };
            proof {
                lemma_arranged_views(*env.order, sorted@, es, |e: TraitDeclaration| trait_view(e),
                    |x: TraitDeclaration| x.key_identity(), |e: TraitDeclView| trait_key(e));
            }
            Ok(ReifiedSection::Traits(sorted))
        },
        _ => Err(unexpected_node(node, "registered section")),
    }
}

#[verifier::loop_isolation(false)]
fn reify_persistent_section(
    env: &SealEnvironment,
    cursor: &mut AssignmentCursor,
    generated: &super::assignment::GeneratedStreamAssignments,
    node: &SyntaxNode,
    prepared: &mut Vec<PreparedStreamGeneration>,
) -> (r: Result<ReifiedSection, BootstrapReadError>)
    requires
        env.wf(),
        old(cursor).wf(),
        all_shaped(old(prepared)@),
    ensures
        final(cursor).wf(),
        final(cursor).same_walk(old(cursor)),
        section_reified(r, reify_section(env.view(), old(cursor).ctx(), generated.spec_assignments(), env.view().ids,
            old(cursor).next as int, super::root::BootstrapSectionSchema::PersistentDeclarations, tree_of(*node)),
            old(prepared)@, final(prepared)@, final(cursor).next as int),
{
    proof {
        assert(gens_view(prepared@) + Seq::<StreamGenerationView>::empty() =~= gens_view(prepared@));
    }
    match node {
        SyntaxNode::Delimited { delimiter: Delimiter::Square, items, .. } => {
            let ghost trees = trees_of(items@);
            let ghost c = cursor.ctx();
            let ghost n0 = cursor.next as int;
            proof {
                lemma_trees_of(items@);
                assert(trees.subrange(0, trees.len() as int) =~= trees);
            }
            let mut out: Vec<TypeDeclaration> = Vec::new();
            let mut i: usize = 0;
            proof {
                let empty = out@.map_values(|e: TypeDeclaration| type_decl_view(e));
                assert(empty =~= Seq::<TypeDeclView>::empty());
                assert forall|rest: Seq<TypeDeclView>| #[trigger] (empty + rest) =~= rest by {}
            }
            while i < items.len()
                invariant
                    i <= items@.len(),
                    cursor.wf(),
                    cursor.same_walk(old(cursor)),
                    c == cursor.ctx(),
                    trees == trees_of(items@),
                    trees.len() == items@.len(),
                    forall|k: int| 0 <= k < items@.len() ==> #[trigger] trees[k] == tree_of(items@[k]),
                    persistent_fold(env.view(), c, n0, trees) == match persistent_fold(env.view(), c, cursor.next as int, trees.subrange(i as int, trees.len() as int)) {
                        Some((rest, n2)) => Some((out@.map_values(|e: TypeDeclaration| type_decl_view(e)) + rest, n2)),
                        None => None,
                    },
                decreases items@.len() - i,
            {
                let ghost rest = trees.subrange(i as int, trees.len() as int);
                proof {
                    assert(rest[0] == tree_of(items@[i as int]));
                    assert(rest.subrange(1, rest.len() as int) =~= trees.subrange(i + 1, trees.len() as int));
                }
                let e = match reify_type_declaration(env, cursor, &items[i], DeclarationPurpose::PersistentType) {
                    Ok(e) => e,
                    Err(err) => {
                        return Err(err);
                    },
                };
                proof {
                    let before = out@.map_values(|e: TypeDeclaration| type_decl_view(e));
                    assert(out@.push(e).map_values(|e: TypeDeclaration| type_decl_view(e)) =~= before.push(type_decl_view(e)));
                    assert forall|rest2: Seq<TypeDeclView>| #[trigger] (before.push(type_decl_view(e)) + rest2) =~= before + (seq![type_decl_view(e)] + rest2) by {}
                }
                out.push(e);
                i = i + 1;
            }
            let ghost es = out@;
            proof {
                let done = out@.map_values(|e: TypeDeclaration| type_decl_view(e));
                assert(trees.subrange(trees.len() as int, trees.len() as int) =~= Seq::<SyntaxTree>::empty());
                assert(done + Seq::<TypeDeclView>::empty() =~= done);
                lemma_keys_arrangeable_views(*env.order, es, |e: TypeDeclaration| type_decl_view(e),
                    |x: TypeDeclaration| x.key_identity(), |e: TypeDeclView| type_decl_key(e));
            }
            let sorted = match sort_by_identity(env.order, out) {
                Ok(sorted) => sorted,
                Err(e) => {
                    return Err(e);
                },
            };
            proof {
                lemma_arranged_views(*env.order, sorted@, es, |e: TypeDeclaration| type_decl_view(e),
                    |x: TypeDeclaration| x.key_identity(), |e: TypeDeclView| type_decl_key(e));
            }
            Ok(ReifiedSection::PersistentDeclarations(sorted))
        },
        _ => Err(unexpected_node(node, "registered section")),
    }
}

#[verifier::loop_isolation(false)]
fn reify_table_section(
    env: &SealEnvironment,
    cursor: &mut AssignmentCursor,
    generated: &super::assignment::GeneratedStreamAssignments,
    node: &SyntaxNode,
    prepared: &mut Vec<PreparedStreamGeneration>,
) -> (r: Result<ReifiedSection, BootstrapReadError>)
    requires
        env.wf(),
        old(cursor).wf(),
        all_shaped(old(prepared)@),
    ensures
        final(cursor).wf(),
        final(cursor).same_walk(old(cursor)),
        section_reified(r, reify_section(env.view(), old(cursor).ctx(), generated.spec_assignments(), env.view().ids,
            old(cursor).next as int, super::root::BootstrapSectionSchema::Tables, tree_of(*node)),
            old(prepared)@, final(prepared)@, final(cursor).next as int),
{
    proof {
        assert(gens_view(prepared@) + Seq::<StreamGenerationView>::empty() =~= gens_view(prepared@));
    }
    match node {
        SyntaxNode::Delimited { delimiter: Delimiter::Square, items, .. } => {
            let ghost trees = trees_of(items@);
            let ghost c = cursor.ctx();
            let ghost n0 = cursor.next as int;
            proof {
                lemma_trees_of(items@);
                assert(trees.subrange(0, trees.len() as int) =~= trees);
            }
            let mut out: Vec<TableDeclaration> = Vec::new();
            let mut i: usize = 0;
            proof {
                let empty = out@.map_values(|e: TableDeclaration| table_identity(e));
                assert(empty =~= Seq::<TableDeclaration>::empty());
                assert forall|rest: Seq<TableDeclaration>| #[trigger] (empty + rest) =~= rest by {}
            }
            while i < items.len()
                invariant
                    i <= items@.len(),
                    cursor.wf(),
                    cursor.same_walk(old(cursor)),
                    c == cursor.ctx(),
                    trees == trees_of(items@),
                    trees.len() == items@.len(),
                    forall|k: int| 0 <= k < items@.len() ==> #[trigger] trees[k] == tree_of(items@[k]),
                    tables_fold(env.view(), c, n0, trees) == match tables_fold(env.view(), c, cursor.next as int, trees.subrange(i as int, trees.len() as int)) {
                        Some((rest, n2)) => Some((out@.map_values(|e: TableDeclaration| table_identity(e)) + rest, n2)),
                        None => None,
                    },
                decreases items@.len() - i,
            {
                let ghost rest = trees.subrange(i as int, trees.len() as int);
                proof {
                    assert(rest[0] == tree_of(items@[i as int]));
                    assert(rest.subrange(1, rest.len() as int) =~= trees.subrange(i + 1, trees.len() as int));
                }
                let e = match reify_table_exec(env, cursor, &items[i]) {
                    Ok(e) => e,
                    Err(err) => {
                        return Err(err);
                    },
                };
                proof {
                    let before = out@.map_values(|e: TableDeclaration| table_identity(e));
                    assert(out@.push(e).map_values(|e: TableDeclaration| table_identity(e)) =~= before.push(table_identity(e)));
                    assert forall|rest2: Seq<TableDeclaration>| #[trigger] (before.push(table_identity(e)) + rest2) =~= before + (seq![table_identity(e)] + rest2) by {}
                }
                out.push(e);
                i = i + 1;
            }
            let ghost es = out@;
            proof {
                let done = out@.map_values(|e: TableDeclaration| table_identity(e));
                assert(trees.subrange(trees.len() as int, trees.len() as int) =~= Seq::<SyntaxTree>::empty());
                assert(done + Seq::<TableDeclaration>::empty() =~= done);
                lemma_keys_arrangeable_views(*env.order, es, |e: TableDeclaration| table_identity(e),
                    |x: TableDeclaration| x.key_identity(), |e: TableDeclaration| table_key(e));
            }
            let sorted = match sort_by_identity(env.order, out) {
                Ok(sorted) => sorted,
                Err(e) => {
                    return Err(e);
                },
            };
            proof {
                lemma_arranged_views(*env.order, sorted@, es, |e: TableDeclaration| table_identity(e),
                    |x: TableDeclaration| x.key_identity(), |e: TableDeclaration| table_key(e));
                assert(sorted@.map_values(|e: TableDeclaration| table_identity(e)) =~= sorted@);
                assert(es.map_values(|e: TableDeclaration| table_identity(e)) =~= es);
            }
            Ok(ReifiedSection::Tables(sorted))
        },
        _ => Err(unexpected_node(node, "registered section")),
    }
}

} // verus!

verus! {

#[verifier::loop_isolation(false)]
#[verifier::rlimit(60)]
fn reify_declarations_section(
    env: &SealEnvironment,
    cursor: &mut AssignmentCursor,
    generated: &super::assignment::GeneratedStreamAssignments,
    admit_nomos: bool,
    node: &SyntaxNode,
    prepared: &mut Vec<PreparedStreamGeneration>,
) -> (r: Result<ReifiedSection, BootstrapReadError>)
    requires
        env.wf(),
        old(cursor).wf(),
        generated.wf(),
        all_shaped(old(prepared)@),
    ensures
        final(cursor).wf(),
        final(cursor).same_walk(old(cursor)),
        section_reified(r, reify_section(env.view(), old(cursor).ctx(), generated.spec_assignments(), env.view().ids,
            old(cursor).next as int, super::root::BootstrapSectionSchema::Declarations { admit_nomos }, tree_of(*node)),
            old(prepared)@, final(prepared)@, final(cursor).next as int),
{
    match node {
        SyntaxNode::Delimited { delimiter: Delimiter::Square, items, .. } => {
            let ghost trees = trees_of(items@);
            let ghost c = cursor.ctx();
            let ghost n0 = cursor.next as int;
            let ghost g = generated.spec_assignments();
            let ghost ids = env.view().ids;
            let ghost p0 = prepared@;
            let ghost mut acc: Seq<StreamGenerationView> = Seq::empty();
            proof {
                lemma_trees_of(items@);
                assert(trees.subrange(0, trees.len() as int) =~= trees);
                assert(gens_view(prepared@) =~= gens_view(p0) + acc);
            }
            let mut out: Vec<Declaration> = Vec::new();
            let mut i: usize = 0;
            proof {
                let empty = out@.map_values(|e: Declaration| decl_view(e));
                assert(empty =~= Seq::<DeclView>::empty());
                assert forall|rest: Seq<DeclView>| #[trigger] (empty + rest) =~= rest by {}
                assert forall|rest: Seq<StreamGenerationView>| #[trigger] (acc + rest) =~= rest by {}
            }
            while i < items.len()
                invariant
                    i <= items@.len(),
                    cursor.wf(),
                    cursor.same_walk(old(cursor)),
                    c == cursor.ctx(),
                    trees == trees_of(items@),
                    trees.len() == items@.len(),
                    forall|k: int| 0 <= k < items@.len() ==> #[trigger] trees[k] == tree_of(items@[k]),
                    gens_view(prepared@) == gens_view(p0) + acc,
                    all_shaped(prepared@),
                    declarations_fold(env.view(), c, g, ids, n0, trees, admit_nomos) == match declarations_fold(env.view(), c, g, ids, cursor.next as int, trees.subrange(i as int, trees.len() as int), admit_nomos) {
                        Some((rest, prest, n2)) => Some((out@.map_values(|e: Declaration| decl_view(e)) + rest, acc + prest, n2)),
                        None => None,
                    },
                decreases items@.len() - i,
            {
                let ghost rest = trees.subrange(i as int, trees.len() as int);
                proof {
                    assert(rest[0] == tree_of(items@[i as int]));
                    assert(rest.subrange(1, rest.len() as int) =~= trees.subrange(i + 1, trees.len() as int));
                }
                let (d, p) = match reify_declaration_exec(env, cursor, generated, &items[i], admit_nomos) {
                    Ok(pair) => pair,
                    Err(err) => {
                        return Err(err);
                    },
                };
                proof {
                    let before = out@.map_values(|e: Declaration| decl_view(e));
                    assert(out@.push(d).map_values(|e: Declaration| decl_view(e)) =~= before.push(decl_view(d)));
                    assert forall|rest2: Seq<DeclView>| #[trigger] (before.push(decl_view(d)) + rest2) =~= before + (seq![decl_view(d)] + rest2) by {}
                }
                match p {
                    Some(g1) => {
                        proof {
                            let old_acc = acc;
                            assert(gens_view(prepared@.push(g1)) =~= gens_view(prepared@).push(generation_view(g1)));
                            acc = acc.push(generation_view(g1));
                            assert(gens_view(p0) + acc =~= (gens_view(p0) + old_acc).push(generation_view(g1)));
                            assert forall|rest2: Seq<StreamGenerationView>| #[trigger] (acc + rest2) =~= old_acc + (seq![generation_view(g1)] + rest2) by {}
                        }
                        let ghost before_prep = prepared@;
                        prepared.push(g1);
                        proof {
                            assert forall|k: int| 0 <= k < prepared@.len() implies generation_shaped(#[trigger] prepared@[k]) by {
                                if k < before_prep.len() {
                                    assert(prepared@[k] == before_prep[k]);
                                }
                            }
                        }
                    },
                    None => {},
                }
                out.push(d);
                i = i + 1;
            }
            let ghost ds = out@;
            proof {
                let done = out@.map_values(|e: Declaration| decl_view(e));
                assert(trees.subrange(trees.len() as int, trees.len() as int) =~= Seq::<SyntaxTree>::empty());
                assert(done + Seq::<DeclView>::empty() =~= done);
                assert(acc + Seq::<StreamGenerationView>::empty() =~= acc);
                lemma_keys_arrangeable_views(*env.order, ds, |e: Declaration| decl_view(e),
                    |x: Declaration| x.key_identity(), |e: DeclView| decl_key(e));
            }
            let sorted = match sort_by_identity(env.order, out) {
                Ok(sorted) => sorted,
                Err(e) => {
                    return Err(e);
                },
            };
            proof {
                lemma_arranged_views(*env.order, sorted@, ds, |e: Declaration| decl_view(e),
                    |x: Declaration| x.key_identity(), |e: DeclView| decl_key(e));
            }
            Ok(ReifiedSection::Declarations(sorted))
        },
        _ => Err(unexpected_node(node, "registered section")),
    }
}

/// Reify one registered section.
pub fn reify_section_exec(
    env: &SealEnvironment,
    cursor: &mut AssignmentCursor,
    generated: &super::assignment::GeneratedStreamAssignments,
    schema: super::root::BootstrapSectionSchema,
    node: &SyntaxNode,
    prepared: &mut Vec<PreparedStreamGeneration>,
) -> (r: Result<ReifiedSection, BootstrapReadError>)
    requires
        env.wf(),
        old(cursor).wf(),
        generated.wf(),
        all_shaped(old(prepared)@),
    ensures
        final(cursor).wf(),
        final(cursor).same_walk(old(cursor)),
        section_reified(r, reify_section(env.view(), old(cursor).ctx(), generated.spec_assignments(), env.view().ids,
            old(cursor).next as int, schema, tree_of(*node)),
            old(prepared)@, final(prepared)@, final(cursor).next as int),
{
    match schema {
        super::root::BootstrapSectionSchema::Role(role) => reify_role_section(env, cursor, generated, role, node, prepared),
        super::root::BootstrapSectionSchema::Declarations { admit_nomos } =>
            reify_declarations_section(env, cursor, generated, admit_nomos, node, prepared),
        super::root::BootstrapSectionSchema::Traits => reify_trait_section(env, cursor, generated, node, prepared),
        super::root::BootstrapSectionSchema::PersistentDeclarations => reify_persistent_section(env, cursor, generated, node, prepared),
        super::root::BootstrapSectionSchema::Tables => reify_table_section(env, cursor, generated, node, prepared),
    }
}

} // verus!

verus! {

/// Stream generations in canonical order of their direct outputs.
pub open spec fn arranged_generations(order: CanonicalIdentityOrder, ps: Seq<StreamGenerationView>) -> Seq<StreamGenerationView> {
    arrangement_by(order, ps, |g: StreamGenerationView| generation_key(g))
}

} // verus!
