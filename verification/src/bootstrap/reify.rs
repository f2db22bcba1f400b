//! Reifying authored type expressions into the semantic model: references
//! resolve through the seal environment, Shape applications are checked
//! against their catalogued arity, and Trait requirements are normalized to
//! canonical order and bound to local parameters.
use vstd::prelude::*;

use crate::identity::EncodedName;
use super::catalog::{
    safe_bare_name, is_safe_bare_name, BootstrapPriorIdentities, BootstrapPriorVocabulary, CanonicalIdentityOrder,
    IdentitySchema, IdentitySchemaCatalog, SchemaRole, TextualMetadataSnapshot,
};
use super::error::BootstrapReadError;
use super::grammar::{lemma_trees_of, tree_of, trees_of, Delimiter, SyntaxNode, SyntaxTree};
use super::model::{LocalParameter, ParameterBinder, ShapeApplication, TraitRequirement, TypeExpression};
use super::ordering::{all_ordered, canonical_arrangement, distinct_ids, sort_identities};
use super::planning::unexpected_node;
use super::resolution::{
    bindings_view, expected_namespace, require_schema, resolution, resolve_visible_identity, schema_in_view,
    schema_meets, ExpectedSchema, ImportBinding,
};

verus! {

/// The mathematical form of a parameter binder.
pub ghost enum BinderView {
    Inferred(LocalParameter),
    Named(LocalParameter, Seq<char>),
}

/// The mathematical form of a type expression.
pub ghost enum ExprView {
    Reference(EncodedName),
    Shape(EncodedName, Seq<ExprView>),
    Requirement(BinderView, Seq<EncodedName>),
}

pub open spec fn binder_view(b: ParameterBinder) -> BinderView {
    match b {
        ParameterBinder::Inferred(p) => BinderView::Inferred(p),
        ParameterBinder::Named { parameter, local_name } => BinderView::Named(parameter, local_name@),
    }
}

pub open spec fn expr_view(e: TypeExpression) -> ExprView
    decreases e,
{
    match e {
        TypeExpression::Reference(id) => ExprView::Reference(id),
        TypeExpression::ShapeApplication(sa) => ExprView::Shape(sa.shape, exprs_view(sa.arguments@)),
        TypeExpression::TraitRequirement(tr) => ExprView::Requirement(binder_view(tr.binder), tr.required_traits@),
    }
}

pub open spec fn exprs_view(es: Seq<TypeExpression>) -> Seq<ExprView>
    decreases es,
{
    if es.len() == 0 {
        Seq::empty()
    } else {
        seq![expr_view(es[0])] + exprs_view(es.subrange(1, es.len() as int))
    }
}

pub proof fn lemma_exprs_view(es: Seq<TypeExpression>)
    ensures
        exprs_view(es).len() == es.len(),
        forall|i: int| 0 <= i < es.len() ==> #[trigger] exprs_view(es)[i] == expr_view(es[i]),
    decreases es.len(),
{
    if es.len() > 0 {
        let rest = es.subrange(1, es.len() as int);
        lemma_exprs_view(rest);
        assert forall|i: int| 0 <= i < es.len() implies #[trigger] exprs_view(es)[i] == expr_view(es[i]) by {
            if i > 0 {
                assert(exprs_view(es)[i] == exprs_view(rest)[i - 1]);
            }
        }
    }
}

pub proof fn lemma_exprs_view_push(es: Seq<TypeExpression>, e: TypeExpression)
    ensures
        exprs_view(es.push(e)) == exprs_view(es).push(expr_view(e)),
{
    lemma_exprs_view(es);
    lemma_exprs_view(es.push(e));
    assert(exprs_view(es.push(e)) =~= exprs_view(es).push(expr_view(e)));
}

/// Everything reference resolution while sealing consults.
pub ghost struct SealEnv {
    pub ids: BootstrapPriorIdentities,
    pub snapshot: TextualMetadataSnapshot,
    pub existing: IdentitySchemaCatalog,
    pub additions: IdentitySchemaCatalog,
    pub order: CanonicalIdentityOrder,
    pub locals: Seq<(Seq<char>, EncodedName)>,
    pub imported: Seq<(Seq<char>, EncodedName)>,
}

/// The module-scope declarations spelled `spelling`, in plan order.
pub open spec fn local_candidates(locals: Seq<(Seq<char>, EncodedName)>, spelling: Seq<char>) -> Seq<EncodedName>
    decreases locals.len(),
{
    if locals.len() == 0 {
        Seq::empty()
    } else {
        local_candidates(locals.drop_last(), spelling) + if locals.last().0 == spelling {
            seq![locals.last().1]
        } else {
            Seq::empty()
        }
    }
}

/// The identity a reference of an expected class designates: the resolved
/// identity, when its schema meets the class.
pub open spec fn env_require(env: SealEnv, spelling: Seq<char>, expected: ExpectedSchema) -> Option<EncodedName> {
    match resolution(env.ids, env.snapshot, env.existing, env.additions, env.order,
        local_candidates(env.locals, spelling), env.imported, spelling, expected_namespace(expected)) {
        Some(id) => match schema_in_view(env.existing, env.additions, id) {
            Some(s) => if schema_meets(s, expected) { Some(id) } else { None },
            None => None,
        },
        None => None,
    }
}

/// The seal environment, executable form.
pub struct SealEnvironment<'a> {
    pub priors: &'a BootstrapPriorVocabulary,
    pub snapshot: &'a TextualMetadataSnapshot,
    pub existing: &'a IdentitySchemaCatalog,
    pub additions: &'a IdentitySchemaCatalog,
    pub order: &'a CanonicalIdentityOrder,
    pub locals: Vec<ImportBinding>,
    pub imported: Vec<ImportBinding>,
}

impl<'a> SealEnvironment<'a> {
    pub open spec fn view(&self) -> SealEnv {
        SealEnv {
            ids: self.priors.spec_identities(),
            snapshot: *self.snapshot,
            existing: *self.existing,
            additions: *self.additions,
            order: *self.order,
            locals: bindings_view(self.locals@),
            imported: bindings_view(self.imported@),
        }
    }

    pub open spec fn wf(&self) -> bool {
        &&& self.snapshot.wf()
        &&& self.existing.wf()
        &&& self.additions.wf()
        &&& self.order.wf()
    }

    /// The module-scope identities spelled `spelling`.
    pub(crate) fn local_candidates(&self, spelling: &str) -> (r: Vec<EncodedName>)
        ensures
            r@ == local_candidates(bindings_view(self.locals@), spelling@),
    {
        let ghost locals = bindings_view(self.locals@);
        let mut out: Vec<EncodedName> = Vec::new();
        let mut i: usize = 0;
        proof {
            assert(locals.subrange(0, 0) =~= Seq::<(Seq<char>, EncodedName)>::empty());
        }
        while i < self.locals.len()
            invariant
                locals == bindings_view(self.locals@),
                locals.len() == self.locals@.len(),
                i <= locals.len(),
                out@ == local_candidates(locals.subrange(0, i as int), spelling@),
            decreases locals.len() - i,
        {
            let ghost next = locals.subrange(0, i + 1);
            proof {
                assert(next.drop_last() =~= locals.subrange(0, i as int));
                assert(next.last() == locals[i as int]);
                assert(locals[i as int] == (self.locals@[i as int].name@, self.locals@[i as int].identity));
            }
            if super::catalog::str_equal(self.locals[i].name.as_str(), spelling) {
                out.push(self.locals[i].identity);
                proof {
                    assert(out@ =~= local_candidates(next, spelling@));
                }
            } else {
                proof {
                    assert(local_candidates(next, spelling@) =~= local_candidates(locals.subrange(0, i as int), spelling@));
                }
            }
            i = i + 1;
        }
        proof {
            assert(locals.subrange(0, locals.len() as int) =~= locals);
        }
        out
    }

    /// Resolve a reference and require its expected schema class.
    pub fn require(&self, spelling: &str, expected: ExpectedSchema) -> (r: Result<EncodedName, BootstrapReadError>)
        requires
            self.wf(),
        ensures
            match env_require(self.view(), spelling@, expected) {
                Some(id) => r == Ok::<EncodedName, BootstrapReadError>(id),
                None => r is Err,
            },
    {
        let local = self.local_candidates(spelling);
        let identity = match resolve_visible_identity(
            self.priors, self.snapshot, self.existing, self.additions, self.order, &local, &self.imported,
            spelling, expected.namespace(),
        ) {
            Ok(identity) => identity,
            Err(e) => {
                return Err(e);
            },
        };
        match require_schema(self.existing, self.additions, identity, expected) {
            Ok(_) => Ok(identity),
            Err(e) => Err(e),
        }
    }
}

/// The arity of a schema's Shape role, when it has one.
pub open spec fn schema_shape_arity(s: IdentitySchema) -> Option<u16> {
    if exists|a: u16| s.spec_admits(SchemaRole::Shape { arity: a }) {
        Some(choose|a: u16| s.spec_admits(SchemaRole::Shape { arity: a }))
    } else {
        None
    }
}

/// The local parameters of one owning declaration, mathematically.
pub ghost struct ScopeView {
    pub owner: EncodedName,
    pub next: u32,
    pub inferred: Seq<(Seq<EncodedName>, LocalParameter)>,
    pub named: Seq<(Seq<char>, Seq<EncodedName>, LocalParameter)>,
}

/// A fresh scope for an owning declaration.
pub open spec fn fresh_scope(owner: EncodedName) -> ScopeView {
    ScopeView { owner, next: 0, inferred: Seq::empty(), named: Seq::empty() }
}

pub open spec fn find_inferred(inferred: Seq<(Seq<EncodedName>, LocalParameter)>, traits: Seq<EncodedName>) -> Option<LocalParameter>
    decreases inferred.len(),
{
    if inferred.len() == 0 {
        None
    } else if inferred[0].0 == traits {
        Some(inferred[0].1)
    } else {
        find_inferred(inferred.subrange(1, inferred.len() as int), traits)
    }
}

pub open spec fn find_named(named: Seq<(Seq<char>, Seq<EncodedName>, LocalParameter)>, name: Seq<char>) -> Option<(Seq<EncodedName>, LocalParameter)>
    decreases named.len(),
{
    if named.len() == 0 {
        None
    } else if named[0].0 == name {
        Some((named[0].1, named[0].2))
    } else {
        find_named(named.subrange(1, named.len() as int), name)
    }
}

/// Bind a requirement's local parameter: a named binder reuses the parameter
/// of the same name, which must carry the same Traits; an inferred binder
/// reuses the parameter of the same Trait vector; otherwise a fresh ordinal
/// is issued.
pub open spec fn bind(s: ScopeView, name: Option<Seq<char>>, traits: Seq<EncodedName>) -> Option<(BinderView, ScopeView)> {
    let fresh = LocalParameter { owner: s.owner, ordinal: s.next };
    match name {
        Some(n) => if !safe_bare_name(n) {
            None
        } else {
            match find_named(s.named, n) {
                Some((key, p)) => if key == traits { Some((BinderView::Named(p, n), s)) } else { None },
                None => if s.next == u32::MAX {
                    None
                } else {
                    Some((BinderView::Named(fresh, n), ScopeView { next: (s.next + 1) as u32, named: s.named.push((n, traits, fresh)), ..s }))
                },
            }
        },
        None => match find_inferred(s.inferred, traits) {
            Some(p) => Some((BinderView::Inferred(p), s)),
            None => if s.next == u32::MAX {
                None
            } else {
                Some((BinderView::Inferred(fresh), ScopeView { next: (s.next + 1) as u32, inferred: s.inferred.push((traits, fresh)), ..s }))
            },
        },
    }
}

/// Local parameters of one owning declaration.
pub struct ParameterScope {
    owner: EncodedName,
    next: u32,
    inferred: Vec<(Vec<EncodedName>, LocalParameter)>,
    named: Vec<(String, Vec<EncodedName>, LocalParameter)>,
}

fn ids_equal(a: &Vec<EncodedName>, b: &Vec<EncodedName>) -> (r: bool)
    ensures
        r == (a@ == b@),
{
    if a.len() != b.len() {
        return false;
    }
    let mut i: usize = 0;
    while i < a.len()
        invariant
            a@.len() == b@.len(),
            i <= a@.len(),
            forall|k: int| 0 <= k < i ==> a@[k] == b@[k],
        decreases a@.len() - i,
    {
        if a[i] != b[i] {
            return false;
        }
        i = i + 1;
    }
    proof {
        assert(a@ =~= b@);
    }
    true
}

fn copy_ids(a: &Vec<EncodedName>) -> (r: Vec<EncodedName>)
    ensures
        r@ == a@,
{
    let mut out: Vec<EncodedName> = Vec::new();
    let mut i: usize = 0;
    while i < a.len()
        invariant
            i <= a@.len(),
            out@ == a@.subrange(0, i as int),
        decreases a@.len() - i,
    {
        out.push(a[i]);
        proof {
            assert(out@ =~= a@.subrange(0, i + 1));
        }
        i = i + 1;
    }
    proof {
        assert(a@.subrange(0, a@.len() as int) =~= a@);
    }
    out
}

impl ParameterScope {
    pub closed spec fn view(&self) -> ScopeView {
        ScopeView {
            owner: self.owner,
            next: self.next,
            inferred: self.inferred@.map_values(|e: (Vec<EncodedName>, LocalParameter)| (e.0@, e.1)),
            named: self.named@.map_values(|e: (String, Vec<EncodedName>, LocalParameter)| (e.0@, e.1@, e.2)),
        }
    }

    pub fn new(owner: EncodedName) -> (r: Self)
        ensures
            r.view() == fresh_scope(owner),
    {
        let r = ParameterScope { owner, next: 0, inferred: Vec::new(), named: Vec::new() };
        assert(r.view().inferred =~= Seq::<(Seq<EncodedName>, LocalParameter)>::empty());
        assert(r.view().named =~= Seq::<(Seq<char>, Seq<EncodedName>, LocalParameter)>::empty());
        r
    }

    fn find_inferred(&self, traits: &Vec<EncodedName>) -> (r: Option<LocalParameter>)
        ensures
            r == find_inferred(self.view().inferred, traits@),
    {
        let ghost v = self.view().inferred;
        let mut i: usize = 0;
        proof {
            assert(v.subrange(0, v.len() as int) =~= v);
        }
        while i < self.inferred.len()
            invariant
                v == self.view().inferred,
                v.len() == self.inferred@.len(),
                i <= v.len(),
                find_inferred(v, traits@) == find_inferred(v.subrange(i as int, v.len() as int), traits@),
            decreases v.len() - i,
        {
            let ghost rest = v.subrange(i as int, v.len() as int);
            proof {
                assert(rest[0] == v[i as int]);
                assert(v[i as int] == (self.inferred@[i as int].0@, self.inferred@[i as int].1));
                assert(rest.subrange(1, rest.len() as int) =~= v.subrange(i + 1, v.len() as int));
            }
            if ids_equal(&self.inferred[i].0, traits) {
                return Some(self.inferred[i].1);
            }
            i = i + 1;
        }
        None
    }

    fn find_named(&self, name: &str) -> (r: Option<(Vec<EncodedName>, LocalParameter)>)
        ensures
            match (r, find_named(self.view().named, name@)) {
                (Some((key, p)), Some((k, q))) => key@ == k && p == q,
                (None, None) => true,
                _ => false,
            },
    {
        let ghost v = self.view().named;
        let mut i: usize = 0;
        proof {
            assert(v.subrange(0, v.len() as int) =~= v);
        }
        while i < self.named.len()
            invariant
                v == self.view().named,
                v.len() == self.named@.len(),
                i <= v.len(),
                find_named(v, name@) == find_named(v.subrange(i as int, v.len() as int), name@),
            decreases v.len() - i,
        {
            let ghost rest = v.subrange(i as int, v.len() as int);
            proof {
                assert(rest[0] == v[i as int]);
                assert(v[i as int] == (self.named@[i as int].0@, self.named@[i as int].1@, self.named@[i as int].2));
                assert(rest.subrange(1, rest.len() as int) =~= v.subrange(i + 1, v.len() as int));
            }
            if super::catalog::str_equal(self.named[i].0.as_str(), name) {
                return Some((copy_ids(&self.named[i].1), self.named[i].2));
            }
            i = i + 1;
        }
        None
    }

    /// Bind one requirement's parameter.
    pub fn binder(&mut self, name: Option<&String>, traits: &Vec<EncodedName>) -> (r: Result<ParameterBinder, BootstrapReadError>)
        ensures
            match bind(old(self).view(), match name { Some(n) => Some(n@), None => None }, traits@) {
                Some((b, s)) => r matches Ok(x) && binder_view(x) == b && final(self).view() == s,
                None => r is Err,
            },
    {
        match name {
            Some(n) => {
                if !is_safe_bare_name(n.as_str()) {
                    return Err(BootstrapReadError::InvalidVisibleName(n.clone()));
                }
                match self.find_named(n.as_str()) {
                    Some((key, parameter)) => {
                        if !ids_equal(&key, traits) {
                            return Err(BootstrapReadError::ConflictingNamedParameter { name: n.clone() });
                        }
                        Ok(ParameterBinder::Named { parameter, local_name: n.clone() })
                    },
                    None => {
                        if self.next == u32::MAX {
                            return Err(BootstrapReadError::InvalidPreparedModel("too many local parameters"));
                        }
                        let parameter = LocalParameter { owner: self.owner, ordinal: self.next };
                        let ghost before = self.view();
                        self.named.push((n.clone(), copy_ids(traits), parameter));
                        self.next = self.next + 1;
                        proof {
                            assert(self.view().named =~= before.named.push((n@, traits@, parameter)));
                            assert(self.view().inferred =~= before.inferred);
                        }
                        Ok(ParameterBinder::Named { parameter, local_name: n.clone() })
                    },
                }
            },
            None => match self.find_inferred(traits) {
                Some(parameter) => Ok(ParameterBinder::Inferred(parameter)),
                None => {
                    if self.next == u32::MAX {
                        return Err(BootstrapReadError::InvalidPreparedModel("too many local parameters"));
                    }
                    let parameter = LocalParameter { owner: self.owner, ordinal: self.next };
                    let ghost before = self.view();
                    self.inferred.push((copy_ids(traits), parameter));
                    self.next = self.next + 1;
                    proof {
                        assert(self.view().inferred =~= before.inferred.push((traits@, parameter)));
                        assert(self.view().named =~= before.named);
                    }
                    Ok(ParameterBinder::Inferred(parameter))
                },
            },
        }
    }
}


/// One item of a Trait requirement: its Trait spelling and, on the first item
/// only, a named local binder.
pub open spec fn requirement_item(item: SyntaxTree, first: bool) -> Option<(Option<Seq<char>>, Seq<char>)> {
    match item {
        SyntaxTree::Atom { text, .. } => Some((None, text)),
        SyntaxTree::Application { head, payload, .. } => if first {
            match *payload {
                SyntaxTree::Atom { text, .. } => Some((Some(head), text)),
                _ => None,
            }
        } else {
            None
        },
        _ => None,
    }
}

/// The Trait identities of `items[i..]`, in authored order.
pub open spec fn requirement_traits(env: SealEnv, items: Seq<SyntaxTree>, i: int) -> Option<Seq<EncodedName>>
    decreases items.len() - i,
{
    if i < 0 || i >= items.len() {
        Some(Seq::empty())
    } else {
        match requirement_item(items[i], i == 0) {
            Some((_, text)) => match env_require(env, text, ExpectedSchema::Trait) {
                Some(id) => match requirement_traits(env, items, i + 1) {
                    Some(rest) => Some(seq![id] + rest),
                    None => None,
                },
                None => None,
            },
            None => None,
        }
    }
}

/// The named binder of a requirement, if its first item names one.
pub open spec fn requirement_binder_name(items: Seq<SyntaxTree>) -> Option<Seq<char>> {
    if items.len() > 0 {
        match requirement_item(items[0], true) {
            Some((name, _)) => name,
            None => None,
        }
    } else {
        None
    }
}

/// A Trait requirement: its Traits resolved, distinct, in canonical order,
/// and its local parameter bound.
pub open spec fn reify_requirement(env: SealEnv, s: ScopeView, items: Seq<SyntaxTree>) -> Option<(ExprView, ScopeView)> {
    match requirement_traits(env, items, 0) {
        Some(ids) => if !all_ordered(env.order, ids) || !distinct_ids(ids) {
            None
        } else {
            let traits = canonical_arrangement(env.order, ids);
            match bind(s, requirement_binder_name(items), traits) {
                Some((b, s2)) => Some((ExprView::Requirement(b, traits), s2)),
                None => None,
            }
        },
        None => None,
    }
}

/// A type expression's meaning: a nominal reference, a Shape applied at its
/// catalogued arity, or a Trait requirement; the scope threads through.
pub open spec fn reify_expr(env: SealEnv, s: ScopeView, t: SyntaxTree) -> Option<(ExprView, ScopeView)>
    decreases t,
{
    match t {
        SyntaxTree::Atom { text, .. } => match env_require(env, text, ExpectedSchema::Nominal) {
            Some(id) => Some((ExprView::Reference(id), s)),
            None => None,
        },
        SyntaxTree::AngleApplication { head, arguments, .. } => match env_require(env, head, ExpectedSchema::Shape) {
            Some(id) => match schema_in_view(env.existing, env.additions, id) {
                Some(schema) => match schema_shape_arity(schema) {
                    Some(a) => if arguments.len() != a {
                        None
                    } else {
                        match reify_exprs(env, s, arguments) {
                            Some((es, s2)) => Some((ExprView::Shape(id, es), s2)),
                            None => None,
                        }
                    },
                    None => None,
                },
                None => None,
            },
            None => None,
        },
        SyntaxTree::Delimited { delimiter: Delimiter::Guillemets, items, .. } => reify_requirement(env, s, items),
        _ => None,
    }
}

pub open spec fn reify_exprs(env: SealEnv, s: ScopeView, ts: Seq<SyntaxTree>) -> Option<(Seq<ExprView>, ScopeView)>
    decreases ts,
{
    if ts.len() == 0 {
        Some((Seq::empty(), s))
    } else {
        match reify_expr(env, s, ts[0]) {
            Some((e, s1)) => match reify_exprs(env, s1, ts.subrange(1, ts.len() as int)) {
                Some((es, s2)) => Some((seq![e] + es, s2)),
                None => None,
            },
            None => None,
        }
    }
}

/// The outcome of reifying with a scope, against its specification.
pub open spec fn reified<T>(r: Result<T, BootstrapReadError>, expected: Option<(ExprView, ScopeView)>, view: spec_fn(T) -> ExprView, after: ScopeView) -> bool {
    match expected {
        Some((e, s)) => r matches Ok(x) && view(x) == e && after == s,
        None => r is Err,
    }
}

fn expect_atom_text<'a>(node: &'a SyntaxNode, expected: &'static str) -> (r: Result<&'a String, BootstrapReadError>)
    ensures
        match tree_of(*node) {
            SyntaxTree::Atom { text, .. } => r matches Ok(t) && t@ == text,
            _ => r is Err,
        },
{
    match node {
        SyntaxNode::Atom { text, .. } => Ok(text),
        _ => Err(unexpected_node(node, expected)),
    }
}

/// Reify a Trait requirement's items.
#[verifier::loop_isolation(false)]
fn parse_requirement(
    env: &SealEnvironment,
    scope: &mut ParameterScope,
    items: &Vec<SyntaxNode>,
) -> (r: Result<TypeExpression, BootstrapReadError>)
    requires
        env.wf(),
    ensures
        reified(r, reify_requirement(env.view(), old(scope).view(), trees_of(items@)), |x: TypeExpression| expr_view(x), final(scope).view()),
{
    let ghost trees = trees_of(items@);
    proof {
        lemma_trees_of(items@);
        reveal_with_fuel(tree_of, 2);
    }
    let name: Option<&String> = if items.len() > 0 {
        match &items[0] {
            SyntaxNode::Application { head, .. } => Some(head),
            _ => None,
        }
    } else {
        None
    };
    let mut ids: Vec<EncodedName> = Vec::new();
    let mut i: usize = 0;
    proof {
        assert(ids@ + Seq::<EncodedName>::empty() =~= ids@);
        assert forall|rest: Seq<EncodedName>| Seq::<EncodedName>::empty() + rest =~= rest by {}
    }
    while i < items.len()
        invariant
            i <= items@.len(),
            trees == trees_of(items@),
            trees.len() == items@.len(),
            forall|k: int| 0 <= k < items@.len() ==> #[trigger] trees[k] == tree_of(items@[k]),
            requirement_traits(env.view(), trees, 0) == match requirement_traits(env.view(), trees, i as int) {
                Some(rest) => Some(ids@ + rest),
                None => None,
            },
            i > 0 ==> requirement_item(trees[0], true) is Some,
        decreases items@.len() - i,
    {
        proof {
            assert(trees[i as int] == tree_of(items@[i as int]));
        }
        let text = match &items[i] {
            SyntaxNode::Atom { text, .. } => {
                proof {
                    assert(requirement_item(trees[i as int], i == 0) == Some((None::<Seq<char>>, text@)));
                }
                text
            },
            SyntaxNode::Application { head, payload, .. } => {
                if i != 0 {
                    return Err(unexpected_node(&items[i], "Trait reference or first named binder"));
                }
                let t = match expect_atom_text(payload, "Trait after named local binder") {
                    Ok(t) => t,
                    Err(e) => {
                        return Err(e);
                    },
                };
                proof {
                    assert(requirement_item(trees[0], true) == Some((Some(head@), t@)));
                }
                t
            },
            _ => {
                return Err(unexpected_node(&items[i], "Trait reference or first named binder"));
            },
        };
        let id = match env.require(text.as_str(), ExpectedSchema::Trait) {
            Ok(id) => id,
            Err(e) => {
                return Err(e);
            },
        };
        proof {
            let before = ids@;
            assert forall|rest: Seq<EncodedName>| before.push(id) + rest =~= before + (seq![id] + rest) by {}
        }
        ids.push(id);
        i = i + 1;
    }
    proof {
        assert(ids@ + Seq::<EncodedName>::empty() =~= ids@);
        if items@.len() == 0 {
            assert(requirement_binder_name(trees) is None);
        } else {
            assert(trees[0] == tree_of(items@[0]));
        }
    }
    let traits = match sort_identities(env.order, &ids) {
        Ok(traits) => traits,
        Err(e) => {
            return Err(e);
        },
    };
    proof {
        assert(requirement_traits(env.view(), trees, 0) == Some(ids@));
        assert(traits@ == canonical_arrangement(env.view().order, ids@));
        assert(match name {
            Some(n) => requirement_binder_name(trees) == Some(n@),
            None => requirement_binder_name(trees) is None,
        });
    }
    let binder = match scope.binder(name, &traits) {
        Ok(binder) => binder,
        Err(e) => {
            return Err(e);
        },
    };
    Ok(TypeExpression::TraitRequirement(TraitRequirement { binder, required_traits: traits }))
}


/// Reify one authored type expression against the seal environment.
#[verifier::loop_isolation(false)]
pub fn parse_type_expression(
    env: &SealEnvironment,
    scope: &mut ParameterScope,
    node: &SyntaxNode,
) -> (r: Result<TypeExpression, BootstrapReadError>)
    requires
        env.wf(),
    ensures
        reified(r, reify_expr(env.view(), old(scope).view(), tree_of(*node)), |x: TypeExpression| expr_view(x), final(scope).view()),
    decreases node,
{
    match node {
        SyntaxNode::Atom { text, .. } => match env.require(text.as_str(), ExpectedSchema::Nominal) {
            Ok(id) => Ok(TypeExpression::Reference(id)),
            Err(e) => Err(e),
        },
        SyntaxNode::AngleApplication { head, arguments, .. } => {
            let identity = match env.require(head.as_str(), ExpectedSchema::Shape) {
                Ok(identity) => identity,
                Err(e) => {
                    return Err(e);
                },
            };
            let schema = match require_schema(env.existing, env.additions, identity, ExpectedSchema::Shape) {
                Ok(schema) => schema,
                Err(e) => {
                    return Err(e);
                },
            };
            proof {
                super::resolution::lemma_view_schema_wf(*env.existing, *env.additions, identity);
            }
            let arity = match schema.shape_arity() {
                Some(arity) => arity,
                None => {
                    return Err(BootstrapReadError::WrongSchemaRole { identity, required: SchemaRole::Shape { arity: 0 } });
                },
            };
            proof {
                let a = choose|a: u16| schema.spec_admits(SchemaRole::Shape { arity: a });
                super::planning::lemma_unique_shape_arity(*schema, arity, a);
                lemma_trees_of(arguments@);
            }
            if arguments.len() != arity as usize {
                return Err(BootstrapReadError::ShapeArity { identity, expected: arity, found: arguments.len() });
            }
            let ghost trees = trees_of(arguments@);
            let ghost start = scope.view();
            let mut out: Vec<TypeExpression> = Vec::new();
            let mut i: usize = 0;
            proof {
                assert(trees.subrange(0, trees.len() as int) =~= trees);
                lemma_exprs_view(out@);
                assert forall|rest: Seq<ExprView>| exprs_view(out@) + rest =~= rest by {}
            }
            while i < arguments.len()
                invariant
                    i <= arguments@.len(),
                    env.wf(),
                    trees == trees_of(arguments@),
                    trees.len() == arguments@.len(),
                    forall|k: int| 0 <= k < arguments@.len() ==> #[trigger] trees[k] == tree_of(arguments@[k]),
                    reify_exprs(env.view(), start, trees) == match reify_exprs(env.view(), scope.view(), trees.subrange(i as int, trees.len() as int)) {
                        Some((rest, s2)) => Some((exprs_view(out@) + rest, s2)),
                        None => None,
                    },
                decreases arguments@.len() - i,
            {
                let ghost rest = trees.subrange(i as int, trees.len() as int);
                proof {
                    assert(rest[0] == tree_of(arguments@[i as int]));
                    assert(rest.subrange(1, rest.len() as int) =~= trees.subrange(i + 1, trees.len() as int));
                    assert(decreases_to!(*node => *arguments));
                    assert(decreases_to!(*arguments => arguments@));
                    assert(decreases_to!(arguments@ => arguments@[i as int]));
                }
                let e = match parse_type_expression(env, scope, &arguments[i]) {
                    Ok(e) => e,
                    Err(err) => {
                        return Err(err);
                    },
                };
                proof {
                    let before = exprs_view(out@);
                    lemma_exprs_view_push(out@, e);
                    assert forall|rest2: Seq<ExprView>| before.push(expr_view(e)) + rest2 =~= before + (seq![expr_view(e)] + rest2) by {}
                }
                out.push(e);
                i = i + 1;
            }
            proof {
                assert(trees.subrange(trees.len() as int, trees.len() as int) =~= Seq::<SyntaxTree>::empty());
                assert(exprs_view(out@) + Seq::<ExprView>::empty() =~= exprs_view(out@));
            }
            Ok(TypeExpression::ShapeApplication(ShapeApplication { shape: identity, arguments: out }))
        },
        SyntaxNode::Delimited { delimiter: Delimiter::Guillemets, items, .. } => parse_requirement(env, scope, items),
        _ => Err(unexpected_node(node, "TypeReference, Shape application, or Trait requirement")),
    }
}


/// Reify a sequence of type expressions, threading the scope.
#[verifier::loop_isolation(false)]
pub fn parse_type_expressions(
    env: &SealEnvironment,
    scope: &mut ParameterScope,
    items: &[SyntaxNode],
) -> (r: Result<Vec<TypeExpression>, BootstrapReadError>)
    requires
        env.wf(),
    ensures
        match reify_exprs(env.view(), old(scope).view(), trees_of(items@)) {
            Some((es, s)) => r matches Ok(x) && exprs_view(x@) == es && final(scope).view() == s,
            None => r is Err,
        },
{
    let ghost trees = trees_of(items@);
    let ghost start = scope.view();
    proof {
        lemma_trees_of(items@);
    }
    let mut out: Vec<TypeExpression> = Vec::new();
    let mut i: usize = 0;
    proof {
        assert(trees.subrange(0, trees.len() as int) =~= trees);
        lemma_exprs_view(out@);
        assert forall|rest: Seq<ExprView>| exprs_view(out@) + rest =~= rest by {}
    }
    while i < items.len()
        invariant
            i <= items@.len(),
            env.wf(),
            trees == trees_of(items@),
            trees.len() == items@.len(),
            forall|k: int| 0 <= k < items@.len() ==> #[trigger] trees[k] == tree_of(items@[k]),
            reify_exprs(env.view(), start, trees) == match reify_exprs(env.view(), scope.view(), trees.subrange(i as int, trees.len() as int)) {
                Some((rest, s2)) => Some((exprs_view(out@) + rest, s2)),
                None => None,
            },
        decreases items@.len() - i,
    {
        let ghost rest = trees.subrange(i as int, trees.len() as int);
        proof {
            assert(rest[0] == tree_of(items@[i as int]));
            assert(rest.subrange(1, rest.len() as int) =~= trees.subrange(i + 1, trees.len() as int));
        }
        let e = match parse_type_expression(env, scope, &items[i]) {
            Ok(e) => e,
            Err(err) => {
                return Err(err);
            },
        };
        proof {
            let before = exprs_view(out@);
            lemma_exprs_view_push(out@, e);
            assert forall|rest2: Seq<ExprView>| before.push(expr_view(e)) + rest2 =~= before + (seq![expr_view(e)] + rest2) by {}
        }
        out.push(e);
        i = i + 1;
    }
    proof {
        assert(trees.subrange(trees.len() as int, trees.len() as int) =~= Seq::<SyntaxTree>::empty());
        assert(exprs_view(out@) + Seq::<ExprView>::empty() =~= exprs_view(out@));
    }
    Ok(out)
}

} // verus!
