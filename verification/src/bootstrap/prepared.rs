//! Defensive re-validation of a prepared transaction draft: every semantic
//! law of a sealed result, checked again on values that may have been
//! assembled by hand.
use vstd::prelude::*;

use crate::identity::EncodedName;
use super::catalog::{
    bytes_less, bytes_less_exec, is_safe_bare_name, lemma_bytes_less_transitive, paths_equal, safe_bare_name,
    same_path, BootstrapPriorIdentities, CanonicalIdentityOrder, IdentitySchemaCatalog, SchemaRole,
    TextualMetadataSnapshot,
};
use super::declare::{
    decl_view, method_view, role_entry_view, stream_decl_view, trait_view, type_decl_view, variant_view, DeclView,
    MethodView, RoleEntryView, StreamDeclView, TraitDeclView, TypeBodyView, TypeDeclView, VariantBodyView, VariantView,
};
use super::assignment::{disposition_view, AssignedIdentity, IdentityDisposition};
use super::catalog::{is_prior_identity, BootstrapCatalog, CanonicalIdentityEntry};
use super::sealing::{canonical_pairs_valid, entry_pairs, lemma_entry_pairs_valid};
use super::seal::PreparedBootstrapDraft;
use super::error::BootstrapReadError;
use super::model::{body_kind, ImportEntry};
use super::reader::{import_bindings_exec, imports_resolved, imports_view};
use super::planning::import_bindings;
use super::catalog::{
    path_view, prior_identity, prior_slot_order, valid_module_path, validate_module_path, validate_visible_name,
    BootstrapPriorVocabulary,
};
use super::sealing::{same_records, same_records_exec};
use super::assemble::{body_view, role_block, role_of, BodyView};
use super::ordering::{canonical_arrangement, distinct_ids, sort_identities};
use super::model::{
    PreparedStreamGeneration, BootstrapBody, InterfaceRole, InterfaceRoleMembership, Declaration, LocalParameter, MethodDeclaration, NomosDeclaration, ParameterBinder, RoleEntry,
    StreamInitiationDeclaration, TableDeclaration, TraitDeclaration, TypeBody, TypeDeclaration, TypeExpression,
    VariantBody, VariantDeclaration,
};
use super::ordering::{all_ordered, key_bytes, strictly_sorted};
use super::reify::{local_candidates, SealEnv, SealEnvironment, binder_view, expr_view, exprs_view, find_inferred, find_named, schema_shape_arity, BinderView, ExprView};
use super::resolution::{contains_identity, resolution, resolve_visible_identity, ReferenceNamespace, ImportBinding, bindings_view, require_schema, schema_in_view, schema_meets, ExpectedSchema};

verus! {

// ---------------------------------------------------------------------------
// Canonical sortedness
// ---------------------------------------------------------------------------

/// A collection is in canonical order where a comparison is made: two or
/// more identities all carry bytes and strictly increase.
pub open spec fn sorted_where_compared(order: CanonicalIdentityOrder, s: Seq<EncodedName>) -> bool {
    s.len() <= 1 || (all_ordered(order, s) && strictly_sorted(order, s))
}

/// Whether the identities are in canonical order where compared.
pub fn check_sorted(order: &CanonicalIdentityOrder, ids: &[EncodedName]) -> (r: bool)
    requires
        order.wf(),
    ensures
        r == sorted_where_compared(*order, ids@),
{
    if ids.len() <= 1 {
        return true;
    }
    check_ordered_and_sorted(order, ids)
}

/// Whether every identity carries bytes and the bytes strictly increase.
pub fn check_ordered_and_sorted(order: &CanonicalIdentityOrder, ids: &[EncodedName]) -> (r: bool)
    requires
        order.wf(),
    ensures
        r == (all_ordered(*order, ids@) && strictly_sorted(*order, ids@)),
{
    if ids.len() == 0 {
        return true;
    }
    let mut i: usize = 0;
    while i < ids.len()
        invariant
            i <= ids@.len(),
            order.wf(),
            forall|k: int| 0 <= k < i ==> order.spec_contains(#[trigger] ids@[k]),
        decreases ids@.len() - i,
    {
        if !order.contains(ids[i]) {
            return false;
        }
        i = i + 1;
    }
    let mut j: usize = 1;
    while j < ids.len()
        invariant
            1 <= j,
            ids@.len() >= 1,
            j <= ids@.len(),
            order.wf(),
            all_ordered(*order, ids@),
            forall|a: int, b: int| 0 <= a < b < j ==> bytes_less(key_bytes(*order, #[trigger] ids@[a]), key_bytes(*order, #[trigger] ids@[b])),
        decreases ids@.len() - j,
    {
        let left = match order.bytes(ids[j - 1]) {
            Some(b) => b,
            None => {
                return false;
            },
        };
        let right = match order.bytes(ids[j]) {
            Some(b) => b,
            None => {
                return false;
            },
        };
        if !bytes_less_exec(left.as_slice(), right.as_slice()) {
            proof {
                assert(!bytes_less(key_bytes(*order, ids@[j - 1]), key_bytes(*order, ids@[j as int])));
            }
            return false;
        }
        proof {
            assert forall|a: int, b: int| 0 <= a < b < j + 1 implies bytes_less(key_bytes(*order, #[trigger] ids@[a]), key_bytes(*order, #[trigger] ids@[b])) by {
                if b == j && a < j - 1 {
                    lemma_bytes_less_transitive(key_bytes(*order, ids@[a]), key_bytes(*order, ids@[j - 1]), key_bytes(*order, ids@[b]));
                }
            }
        }
        j = j + 1;
    }
    true
}

// ---------------------------------------------------------------------------
// Local parameter binders
// ---------------------------------------------------------------------------

/// What has been observed of the local parameters of one owner.
pub ghost struct BinderTrack {
    pub owner: EncodedName,
    pub by_parameter: Seq<(LocalParameter, Option<Seq<char>>, Seq<EncodedName>)>,
    pub inferred: Seq<(Seq<EncodedName>, LocalParameter)>,
    pub named: Seq<(Seq<char>, Seq<EncodedName>, LocalParameter)>,
}

/// Nothing observed yet.
pub open spec fn fresh_track(owner: EncodedName) -> BinderTrack {
    BinderTrack { owner, by_parameter: Seq::empty(), inferred: Seq::empty(), named: Seq::empty() }
}

/// The first observation of a parameter.
pub open spec fn find_parameter(s: Seq<(LocalParameter, Option<Seq<char>>, Seq<EncodedName>)>, p: LocalParameter) -> Option<(Option<Seq<char>>, Seq<EncodedName>)>
    decreases s.len(),
{
    if s.len() == 0 {
        None
    } else if s[0].0 == p {
        Some((s[0].1, s[0].2))
    } else {
        find_parameter(s.subrange(1, s.len() as int), p)
    }
}

/// Some named binder projects onto `p`.
pub open spec fn named_uses(named: Seq<(Seq<char>, Seq<EncodedName>, LocalParameter)>, p: LocalParameter) -> bool {
    exists|i: int| 0 <= i < named.len() && (#[trigger] named[i]).2 == p
}

/// Some inferred binder projects onto `p`.
pub open spec fn inferred_uses(inferred: Seq<(Seq<EncodedName>, LocalParameter)>, p: LocalParameter) -> bool {
    exists|i: int| 0 <= i < inferred.len() && (#[trigger] inferred[i]).1 == p
}

pub open spec fn binder_parameter_view(b: BinderView) -> LocalParameter {
    match b {
        BinderView::Inferred(p) => p,
        BinderView::Named(p, _) => p,
    }
}

pub open spec fn binder_name_view(b: BinderView) -> Option<Seq<char>> {
    match b {
        BinderView::Inferred(_) => None,
        BinderView::Named(_, n) => Some(n),
    }
}

/// Observe one requirement's binder: the parameter belongs to the owner, a
/// parameter keeps one projection, a name keeps one parameter and Trait
/// vector, equal inferred Trait vectors co-refer, and distinct projections
/// never collapse onto one parameter.
pub open spec fn observe(t: BinderTrack, binder: BinderView, traits: Seq<EncodedName>) -> Option<BinderTrack> {
    let p = binder_parameter_view(binder);
    let name = binder_name_view(binder);
    if p.owner != t.owner {
        None
    } else if (name matches Some(n) && !safe_bare_name(n)) {
        None
    } else {
        let t1 = match find_parameter(t.by_parameter, p) {
            Some((pn, pk)) => if pn != name || pk != traits { None } else { Some(t) },
            None => Some(BinderTrack { by_parameter: t.by_parameter.push((p, name, traits)), ..t }),
        };
        match t1 {
            None => None,
            Some(t1) => match name {
                Some(n) => match find_named(t1.named, n) {
                    Some((k, q)) => if k != traits || q != p { None } else { Some(t1) },
                    None => if named_uses(t1.named, p) || inferred_uses(t1.inferred, p) {
                        None
                    } else {
                        Some(BinderTrack { named: t1.named.push((n, traits, p)), ..t1 })
                    },
                },
                None => match find_inferred(t1.inferred, traits) {
                    Some(q) => if q != p { None } else { Some(t1) },
                    None => if named_uses(t1.named, p) {
                        None
                    } else {
                        Some(BinderTrack { inferred: t1.inferred.push((traits, p)), ..t1 })
                    },
                },
            },
        }
    }
}

/// The binders observed so far inside one owning declaration.
pub struct BinderTracker {
    owner: EncodedName,
    by_parameter: Vec<(LocalParameter, Option<String>, Vec<EncodedName>)>,
    inferred: Vec<(Vec<EncodedName>, LocalParameter)>,
    named: Vec<(String, Vec<EncodedName>, LocalParameter)>,
}

pub open spec fn name_view(n: Option<String>) -> Option<Seq<char>> {
    match n {
        Some(s) => Some(s@),
        None => None,
    }
}

fn same_ids(a: &Vec<EncodedName>, b: &Vec<EncodedName>) -> (r: bool)
    ensures
        r == (a@ == b@),
{
    if a.len() != b.len() {
        return false;
    }
    let mut i: usize = 0;
    while i < a.len()
        invariant
            a@.len() == b@.len(),
            i <= a@.len(),
            forall|k: int| 0 <= k < i ==> a@[k] == b@[k],
        decreases a@.len() - i,
    {
        if a[i] != b[i] {
            return false;
        }
        i = i + 1;
    }
    proof {
        assert(a@ =~= b@);
    }
    true
}

fn copy_ids(a: &Vec<EncodedName>) -> (r: Vec<EncodedName>)
    ensures
        r@ == a@,
{
    let mut out: Vec<EncodedName> = Vec::new();
    let mut i: usize = 0;
    while i < a.len()
        invariant
            i <= a@.len(),
            out@ == a@.subrange(0, i as int),
        decreases a@.len() - i,
    {
        out.push(a[i]);
        proof {
            assert(out@ =~= a@.subrange(0, i + 1));
        }
        i = i + 1;
    }
    proof {
        assert(a@.subrange(0, a@.len() as int) =~= a@);
    }
    out
}

fn same_name(a: &Option<String>, b: &Option<String>) -> (r: bool)
    ensures
        r == (name_view(*a) == name_view(*b)),
{
    match (a, b) {
        (Some(x), Some(y)) => super::catalog::str_equal(x.as_str(), y.as_str()),
        (None, None) => true,
        _ => false,
    }
}

impl BinderTracker {
    pub closed spec fn view(&self) -> BinderTrack {
        BinderTrack {
            owner: self.owner,
            by_parameter: self.by_parameter@.map_values(|e: (LocalParameter, Option<String>, Vec<EncodedName>)| (e.0, name_view(e.1), e.2@)),
            inferred: self.inferred@.map_values(|e: (Vec<EncodedName>, LocalParameter)| (e.0@, e.1)),
            named: self.named@.map_values(|e: (String, Vec<EncodedName>, LocalParameter)| (e.0@, e.1@, e.2)),
        }
    }

    pub fn new(owner: EncodedName) -> (r: Self)
        ensures
            r.view() == fresh_track(owner),
    {
        let r = BinderTracker { owner, by_parameter: Vec::new(), inferred: Vec::new(), named: Vec::new() };
        assert(r.view().by_parameter =~= Seq::<(LocalParameter, Option<Seq<char>>, Seq<EncodedName>)>::empty());
        assert(r.view().inferred =~= Seq::<(Seq<EncodedName>, LocalParameter)>::empty());
        assert(r.view().named =~= Seq::<(Seq<char>, Seq<EncodedName>, LocalParameter)>::empty());
        r
    }

    fn find_parameter(&self, p: LocalParameter) -> (r: Option<(Option<String>, Vec<EncodedName>)>)
        ensures
            match (r, find_parameter(self.view().by_parameter, p)) {
                (Some((n, k)), Some((m, q))) => name_view(n) == m && k@ == q,
                (None, None) => true,
                _ => false,
            },
    {
        let ghost v = self.view().by_parameter;
        let mut i: usize = 0;
        proof {
            assert(v.subrange(0, v.len() as int) =~= v);
        }
        while i < self.by_parameter.len()
            invariant
                v == self.view().by_parameter,
                v.len() == self.by_parameter@.len(),
                i <= v.len(),
                find_parameter(v, p) == find_parameter(v.subrange(i as int, v.len() as int), p),
            decreases v.len() - i,
        {
            let ghost rest = v.subrange(i as int, v.len() as int);
            proof {
                assert(rest[0] == v[i as int]);
                assert(rest.subrange(1, rest.len() as int) =~= v.subrange(i + 1, v.len() as int));
            }
            if self.by_parameter[i].0 == p {
                let n = self.by_parameter[i].1.clone();
                proof {
                    assert(name_view(n) == name_view(self.by_parameter@[i as int].1)) by {
                        match n {
                            Some(s) => {},
                            None => {},
                        }
                    }
                }
                return Some((n, copy_ids(&self.by_parameter[i].2)));
            }
            i = i + 1;
        }
        None
    }

    fn find_inferred(&self, traits: &Vec<EncodedName>) -> (r: Option<LocalParameter>)
        ensures
            r == find_inferred(self.view().inferred, traits@),
    {
        let ghost v = self.view().inferred;
        let mut i: usize = 0;
        proof {
            assert(v.subrange(0, v.len() as int) =~= v);
        }
        while i < self.inferred.len()
            invariant
                v == self.view().inferred,
                v.len() == self.inferred@.len(),
                i <= v.len(),
                find_inferred(v, traits@) == find_inferred(v.subrange(i as int, v.len() as int), traits@),
            decreases v.len() - i,
        {
            let ghost rest = v.subrange(i as int, v.len() as int);
            proof {
                assert(rest[0] == v[i as int]);
                assert(rest.subrange(1, rest.len() as int) =~= v.subrange(i + 1, v.len() as int));
            }
            if same_ids(&self.inferred[i].0, traits) {
                return Some(self.inferred[i].1);
            }
            i = i + 1;
        }
        None
    }

    fn find_named(&self, name: &str) -> (r: Option<(Vec<EncodedName>, LocalParameter)>)
        ensures
            match (r, find_named(self.view().named, name@)) {
                (Some((key, p)), Some((k, q))) => key@ == k && p == q,
                (None, None) => true,
                _ => false,
            },
    {
        let ghost v = self.view().named;
        let mut i: usize = 0;
        proof {
            assert(v.subrange(0, v.len() as int) =~= v);
        }
        while i < self.named.len()
            invariant
                v == self.view().named,
                v.len() == self.named@.len(),
                i <= v.len(),
                find_named(v, name@) == find_named(v.subrange(i as int, v.len() as int), name@),
            decreases v.len() - i,
        {
            let ghost rest = v.subrange(i as int, v.len() as int);
            proof {
                assert(rest[0] == v[i as int]);
                assert(rest.subrange(1, rest.len() as int) =~= v.subrange(i + 1, v.len() as int));
            }
            if super::catalog::str_equal(self.named[i].0.as_str(), name) {
                return Some((copy_ids(&self.named[i].1), self.named[i].2));
            }
            i = i + 1;
        }
        None
    }

    fn named_uses(&self, p: LocalParameter) -> (r: bool)
        ensures
            r == named_uses(self.view().named, p),
    {
        let ghost v = self.view().named;
        let mut i: usize = 0;
        while i < self.named.len()
            invariant
                v == self.view().named,
                v.len() == self.named@.len(),
                i <= v.len(),
                forall|k: int| 0 <= k < i ==> (#[trigger] v[k]).2 != p,
            decreases v.len() - i,
        {
            if self.named[i].2 == p {
                assert(v[i as int].2 == p);
                return true;
            }
            i = i + 1;
        }
        false
    }

    fn inferred_uses(&self, p: LocalParameter) -> (r: bool)
        ensures
            r == inferred_uses(self.view().inferred, p),
    {
        let ghost v = self.view().inferred;
        let mut i: usize = 0;
        while i < self.inferred.len()
            invariant
                v == self.view().inferred,
                v.len() == self.inferred@.len(),
                i <= v.len(),
                forall|k: int| 0 <= k < i ==> (#[trigger] v[k]).1 != p,
            decreases v.len() - i,
        {
            if self.inferred[i].1 == p {
                assert(v[i as int].1 == p);
                return true;
            }
            i = i + 1;
        }
        false
    }

    /// Observe one requirement's binder over its Trait vector.
    pub fn observe(&mut self, binder: &ParameterBinder, traits: &Vec<EncodedName>) -> (r: bool)
        ensures
            match observe(old(self).view(), binder_view(*binder), traits@) {
                Some(t) => r && final(self).view() == t,
                None => !r,
            },
    {
        let ghost b = binder_view(*binder);
        let p = binder.parameter();
        let name: Option<String> = match binder {
            ParameterBinder::Inferred(_) => None,
            ParameterBinder::Named { local_name, .. } => Some(local_name.clone()),
        };
        assert(name_view(name) == binder_name_view(b));
        assert(p == binder_parameter_view(b));
        if p.owner != self.owner {
            return false;
        }
        if let Some(n) = &name {
            if !is_safe_bare_name(n.as_str()) {
                return false;
            }
        }
        match self.find_parameter(p) {
            Some((pn, pk)) => {
                if !same_name(&pn, &name) || !same_ids(&pk, traits) {
                    return false;
                }
            },
            None => {
                let ghost before = self.view();
                self.by_parameter.push((p, name.clone(), copy_ids(traits)));
                proof {
                    assert(self.view().by_parameter =~= before.by_parameter.push((p, binder_name_view(b), traits@)));
                    assert(self.view().inferred =~= before.inferred);
                    assert(self.view().named =~= before.named);
                }
            },
        }
        match name {
            Some(n) => match self.find_named(n.as_str()) {
                Some((k, q)) => {
                    if !same_ids(&k, traits) || q != p {
                        return false;
                    }
                    true
                },
                None => {
                    if self.named_uses(p) || self.inferred_uses(p) {
                        return false;
                    }
                    let ghost before = self.view();
                    let ghost nv = n@;
                    self.named.push((n, copy_ids(traits), p));
                    proof {
                        assert(self.view().named =~= before.named.push((nv, traits@, p)));
                        assert(self.view().inferred =~= before.inferred);
                        assert(self.view().by_parameter =~= before.by_parameter);
                    }
                    true
                },
            },
            None => match self.find_inferred(traits) {
                Some(q) => q == p,
                None => {
                    if self.named_uses(p) {
                        return false;
                    }
                    let ghost before = self.view();
                    self.inferred.push((copy_ids(traits), p));
                    proof {
                        assert(self.view().inferred =~= before.inferred.push((traits@, p)));
                        assert(self.view().named =~= before.named);
                        assert(self.view().by_parameter =~= before.by_parameter);
                    }
                    true
                },
            },
        }
    }
}

// ---------------------------------------------------------------------------
// Type expressions
// ---------------------------------------------------------------------------

/// The schema authorities a prepared draft is checked against.
pub ghost struct CheckEnv {
    pub existing: IdentitySchemaCatalog,
    pub additions: IdentitySchemaCatalog,
    pub order: CanonicalIdentityOrder,
}

/// `identity` is catalogued with the expected class.
pub open spec fn meets(env: CheckEnv, identity: EncodedName, expected: ExpectedSchema) -> bool {
    schema_in_view(env.existing, env.additions, identity) matches Some(s) && schema_meets(s, expected)
}

/// A Trait vector is nonempty, names Traits only, and is in canonical order
/// with bytes for every Trait.
pub open spec fn requirement_ok(env: CheckEnv, traits: Seq<EncodedName>) -> bool {
    &&& traits.len() > 0
    &&& forall|i: int| 0 <= i < traits.len() ==> meets(env, #[trigger] traits[i], ExpectedSchema::Trait)
    &&& all_ordered(env.order, traits)
    &&& strictly_sorted(env.order, traits)
}

/// Check one expression, threading the binder observations.
pub open spec fn check_expr(env: CheckEnv, t: BinderTrack, e: ExprView) -> Option<BinderTrack>
    decreases e,
{
    match e {
        ExprView::Reference(id) => if meets(env, id, ExpectedSchema::Nominal) { Some(t) } else { None },
        ExprView::Shape(shape, args) => match schema_in_view(env.existing, env.additions, shape) {
            Some(s) => if !schema_meets(s, ExpectedSchema::Shape) {
                None
            } else {
                match schema_shape_arity(s) {
                    Some(a) => if args.len() == a { check_exprs(env, t, args) } else { None },
                    None => None,
                }
            },
            None => None,
        },
        ExprView::Requirement(binder, traits) => if requirement_ok(env, traits) { observe(t, binder, traits) } else { None },
    }
}

pub open spec fn check_exprs(env: CheckEnv, t: BinderTrack, es: Seq<ExprView>) -> Option<BinderTrack>
    decreases es,
{
    if es.len() == 0 {
        Some(t)
    } else {
        match check_expr(env, t, es[0]) {
            Some(t1) => check_exprs(env, t1, es.subrange(1, es.len() as int)),
            None => None,
        }
    }
}

/// The outcome of a check that threads binder observations.
pub open spec fn tracked_outcome(r: bool, expected: Option<BinderTrack>, after: BinderTrack) -> bool {
    match expected {
        Some(t) => r && after == t,
        None => !r,
    }
}

/// Whether the identity is catalogued with the expected class.
pub fn meets_exec(
    existing: &IdentitySchemaCatalog,
    additions: &IdentitySchemaCatalog,
    identity: EncodedName,
    expected: ExpectedSchema,
) -> (r: bool)
    requires
        existing.wf(),
        additions.wf(),
    ensures
        r == (schema_in_view(*existing, *additions, identity) matches Some(s) && schema_meets(s, expected)),
{
    require_schema(existing, additions, identity, expected).is_ok()
}

fn requirement_ok_exec(
    existing: &IdentitySchemaCatalog,
    additions: &IdentitySchemaCatalog,
    order: &CanonicalIdentityOrder,
    traits: &Vec<EncodedName>,
) -> (r: bool)
    requires
        existing.wf(),
        additions.wf(),
        order.wf(),
    ensures
        r == requirement_ok(CheckEnv { existing: *existing, additions: *additions, order: *order }, traits@),
{
    let ghost env = CheckEnv { existing: *existing, additions: *additions, order: *order };
    if traits.len() == 0 {
        return false;
    }
    let mut i: usize = 0;
    while i < traits.len()
        invariant
            i <= traits@.len(),
            existing.wf(),
            additions.wf(),
            env == (CheckEnv { existing: *existing, additions: *additions, order: *order }),
            forall|k: int| 0 <= k < i ==> meets(env, #[trigger] traits@[k], ExpectedSchema::Trait),
        decreases traits@.len() - i,
    {
        if !meets_exec(existing, additions, traits[i], ExpectedSchema::Trait) {
            return false;
        }
        i = i + 1;
    }
    check_ordered_and_sorted(order, traits.as_slice())
}

/// Check one expression against the schemas, the canonical order, and the
/// binders observed so far.
pub fn check_expression(
    existing: &IdentitySchemaCatalog,
    additions: &IdentitySchemaCatalog,
    order: &CanonicalIdentityOrder,
    track: &mut BinderTracker,
    expression: &TypeExpression,
) -> (r: bool)
    requires
        existing.wf(),
        additions.wf(),
        order.wf(),
    ensures
        tracked_outcome(r, check_expr(CheckEnv { existing: *existing, additions: *additions, order: *order }, old(track).view(), expr_view(*expression)), final(track).view()),
    decreases expression,
{
    match expression {
        TypeExpression::Reference(id) => meets_exec(existing, additions, *id, ExpectedSchema::Nominal),
        TypeExpression::ShapeApplication(application) => {
            let schema = match require_schema(existing, additions, application.shape, ExpectedSchema::Shape) {
                Ok(s) => s,
                Err(_) => {
                    return false;
                },
            };
            proof {
                super::resolution::lemma_view_schema_wf(*existing, *additions, application.shape);
            }
            let arity = match schema.shape_arity() {
                Some(a) => a,
                None => {
                    return false;
                },
            };
            proof {
                let b = choose|b: u16| schema.spec_admits(super::catalog::SchemaRole::Shape { arity: b });
                super::planning::lemma_unique_shape_arity(*schema, arity, b);
            }
            proof {
                super::reify::lemma_exprs_view(application.arguments@);
            }
            if application.arguments.len() != arity as usize {
                return false;
            }
            proof {
                assert(decreases_to!(*expression => application.arguments));
            }
            check_expressions(existing, additions, order, track, &application.arguments)
        },
        TypeExpression::TraitRequirement(requirement) => {
            if !requirement_ok_exec(existing, additions, order, &requirement.required_traits) {
                return false;
            }
            track.observe(&requirement.binder, &requirement.required_traits)
        },
    }
}

/// Check expressions in order.
pub fn check_expressions(
    existing: &IdentitySchemaCatalog,
    additions: &IdentitySchemaCatalog,
    order: &CanonicalIdentityOrder,
    track: &mut BinderTracker,
    expressions: &Vec<TypeExpression>,
) -> (r: bool)
    requires
        existing.wf(),
        additions.wf(),
        order.wf(),
    ensures
        tracked_outcome(r, check_exprs(CheckEnv { existing: *existing, additions: *additions, order: *order }, old(track).view(), exprs_view(expressions@)), final(track).view()),
    decreases expressions,
{
    let ghost env = CheckEnv { existing: *existing, additions: *additions, order: *order };
    let ghost es = exprs_view(expressions@);
    proof {
        super::reify::lemma_exprs_view(expressions@);
    }
    let mut i: usize = 0;
    proof {
        assert(es.subrange(0, es.len() as int) =~= es);
    }
    while i < expressions.len()
        invariant
            i <= expressions@.len(),
            es.len() == expressions@.len(),
            es == exprs_view(expressions@),
            existing.wf(),
            additions.wf(),
            order.wf(),
            env == (CheckEnv { existing: *existing, additions: *additions, order: *order }),
            check_exprs(env, old(track).view(), es) == check_exprs(env, track.view(), es.subrange(i as int, es.len() as int)),
        decreases expressions@.len() - i,
    {
        let ghost rest = es.subrange(i as int, es.len() as int);
        proof {
            super::reify::lemma_exprs_view(expressions@);
            assert(es[i as int] == expr_view(expressions@[i as int]));
            assert(rest[0] == expr_view(expressions@[i as int]));
            assert(rest.subrange(1, rest.len() as int) =~= es.subrange(i + 1, es.len() as int));
            assert(decreases_to!(*expressions => expressions@));
            assert(decreases_to!(expressions@ => expressions@[i as int]));
        }
        if !check_expression(existing, additions, order, track, &expressions[i]) {
            return false;
        }
        i = i + 1;
    }
    true
}

} // verus!

verus! {

// ---------------------------------------------------------------------------
// Declared identities
// ---------------------------------------------------------------------------

/// Everything the body of a prepared draft is checked against.
pub ghost struct BodyEnv {
    pub check: CheckEnv,
    pub snapshot: TextualMetadataSnapshot,
    pub module: Seq<String>,
    pub minted: Seq<EncodedName>,
    pub ids: BootstrapPriorIdentities,
}

/// What the body check has accumulated: every declared identity, those that
/// must be schema additions, and the authored Streams.
pub ghost struct Progress {
    pub seen: Seq<EncodedName>,
    pub expected: Seq<EncodedName>,
    pub streams: Seq<StreamDeclView>,
}

pub open spec fn fresh_progress() -> Progress {
    Progress { seen: Seq::empty(), expected: Seq::empty(), streams: Seq::empty() }
}

/// One declared identity: catalogued with its role, projected in the current
/// module under its lexical owner, declared once, and either a new identity
/// whose addition carries exactly this role or an existing catalogued one.
pub open spec fn expect(env: BodyEnv, p: Progress, id: EncodedName, role: SchemaRole, owner: Option<EncodedName>) -> Option<Progress> {
    match schema_in_view(env.check.existing, env.check.additions, id) {
        None => None,
        Some(s) => if !s.spec_admits(role) {
            None
        } else {
            match env.snapshot.spec_record(id) {
                None => None,
                Some(rec) => if !same_path(rec.address.module@, env.module) || rec.address.lexical_owner != owner {
                    None
                } else if p.seen.contains(id) {
                    None
                } else if env.minted.contains(id) {
                    match env.check.additions.spec_get(id) {
                        Some(a) => if a.spec_roles() == seq![role] {
                            Some(Progress { seen: p.seen.push(id), expected: p.expected.push(id), ..p })
                        } else {
                            None
                        },
                        None => None,
                    }
                } else if !env.check.existing.spec_contains(id) {
                    None
                } else {
                    Some(Progress { seen: p.seen.push(id), ..p })
                },
            }
        },
    }
}

pub open spec fn check_variant_body(env: BodyEnv, t: BinderTrack, b: VariantBodyView) -> Option<BinderTrack> {
    match b {
        VariantBodyView::Unit => Some(t),
        VariantBodyView::Unary(e) => check_expr(env.check, t, e),
        VariantBodyView::Product(fs) => if fs.len() == 0 { None } else { check_exprs(env.check, t, fs) },
    }
}

pub open spec fn check_variants(env: BodyEnv, p: Progress, t: BinderTrack, vs: Seq<VariantView>, owner: EncodedName) -> Option<(Progress, BinderTrack)>
    decreases vs.len(),
{
    if vs.len() == 0 {
        Some((p, t))
    } else {
        match expect(env, p, vs[0].name, SchemaRole::Variant, Some(owner)) {
            None => None,
            Some(p1) => match check_variant_body(env, t, vs[0].body) {
                None => None,
                Some(t1) => check_variants(env, p1, t1, vs.subrange(1, vs.len() as int), owner),
            },
        }
    }
}

pub open spec fn variant_names(vs: Seq<VariantView>) -> Seq<EncodedName> {
    vs.map_values(|v: VariantView| v.name)
}

/// A plain type declaration, persistent where required.
pub open spec fn check_type_decl(env: BodyEnv, p: Progress, d: TypeDeclView, persistent: bool) -> Option<Progress> {
    match expect(env, p, d.name, SchemaRole::Nominal { persistent }, None) {
        None => None,
        Some(p1) => match d.body {
            TypeBodyView::Newtype(e) => if check_expr(env.check, fresh_track(d.name), e) is Some { Some(p1) } else { None },
            TypeBodyView::Struct(fs) => if check_exprs(env.check, fresh_track(d.name), fs) is Some { Some(p1) } else { None },
            TypeBodyView::Enum(vs) => if vs.len() == 0 {
                None
            } else {
                match check_variants(env, p1, fresh_track(d.name), vs, d.name) {
                    Some((p2, _)) => if sorted_where_compared(env.check.order, variant_names(vs)) { Some(p2) } else { None },
                    None => None,
                }
            },
        },
    }
}

/// A declaration of a Declarations section; a Stream only where admitted.
pub open spec fn check_decl(env: BodyEnv, p: Progress, d: DeclView, admit_nomos: bool) -> Option<Progress> {
    match d {
        DeclView::Type(t) => check_type_decl(env, p, t, false),
        DeclView::Stream(s) => if !admit_nomos {
            None
        } else {
            match expect(env, p, s.name, SchemaRole::Nominal { persistent: false }, None) {
                None => None,
                Some(p1) => match check_expr(env.check, fresh_track(s.name), s.query) {
                    None => None,
                    Some(t1) => if check_expr(env.check, t1, s.event) is Some {
                        Some(Progress { streams: p1.streams.push(s), ..p1 })
                    } else {
                        None
                    },
                },
            }
        },
    }
}

pub open spec fn check_method(env: BodyEnv, p: Progress, m: MethodView, owner: EncodedName) -> Option<Progress> {
    match expect(env, p, m.name, SchemaRole::Method, Some(owner)) {
        None => None,
        Some(p1) => match check_exprs(env.check, fresh_track(m.name), m.parameters) {
            None => None,
            Some(t1) => if check_expr(env.check, t1, m.return_type) is Some { Some(p1) } else { None },
        },
    }
}

pub open spec fn check_methods(env: BodyEnv, p: Progress, ms: Seq<MethodView>, owner: EncodedName) -> Option<Progress>
    decreases ms.len(),
{
    if ms.len() == 0 {
        Some(p)
    } else {
        match check_method(env, p, ms[0], owner) {
            None => None,
            Some(p1) => check_methods(env, p1, ms.subrange(1, ms.len() as int), owner),
        }
    }
}

pub open spec fn method_names(ms: Seq<MethodView>) -> Seq<EncodedName> {
    ms.map_values(|m: MethodView| m.name)
}

pub open spec fn check_trait(env: BodyEnv, p: Progress, t: TraitDeclView) -> Option<Progress> {
    match expect(env, p, t.name, SchemaRole::Trait, None) {
        None => None,
        Some(p1) => match check_methods(env, p1, t.methods, t.name) {
            None => None,
            Some(p2) => if sorted_where_compared(env.check.order, method_names(t.methods)) { Some(p2) } else { None },
        },
    }
}

pub open spec fn check_table(env: BodyEnv, p: Progress, t: TableDeclaration) -> Option<Progress> {
    match expect(env, p, t.name, SchemaRole::Table, None) {
        None => None,
        Some(p1) => if meets(env.check, t.record_type, ExpectedSchema::PersistentNominal)
            && meets(env.check, t.key_type, ExpectedSchema::PersistentNominal) {
            Some(p1)
        } else {
            None
        },
    }
}

pub open spec fn check_role_entry(env: BodyEnv, p: Progress, e: RoleEntryView) -> Option<Progress> {
    match e {
        RoleEntryView::Declaration(d) => check_type_decl(env, p, d, false),
        RoleEntryView::Reference(id) => if meets(env.check, id, ExpectedSchema::Nominal) { Some(p) } else { None },
    }
}

} // verus!

verus! {

pub open spec fn check_role_entries(env: BodyEnv, p: Progress, es: Seq<RoleEntryView>) -> Option<Progress>
    decreases es.len(),
{
    if es.len() == 0 {
        Some(p)
    } else {
        match check_role_entry(env, p, es[0]) {
            None => None,
            Some(p1) => check_role_entries(env, p1, es.subrange(1, es.len() as int)),
        }
    }
}

pub open spec fn check_decls(env: BodyEnv, p: Progress, ds: Seq<DeclView>, admit_nomos: bool) -> Option<Progress>
    decreases ds.len(),
{
    if ds.len() == 0 {
        Some(p)
    } else {
        match check_decl(env, p, ds[0], admit_nomos) {
            None => None,
            Some(p1) => check_decls(env, p1, ds.subrange(1, ds.len() as int), admit_nomos),
        }
    }
}

pub open spec fn check_type_decls(env: BodyEnv, p: Progress, ds: Seq<TypeDeclView>, persistent: bool) -> Option<Progress>
    decreases ds.len(),
{
    if ds.len() == 0 {
        Some(p)
    } else {
        match check_type_decl(env, p, ds[0], persistent) {
            None => None,
            Some(p1) => check_type_decls(env, p1, ds.subrange(1, ds.len() as int), persistent),
        }
    }
}

pub open spec fn check_traits(env: BodyEnv, p: Progress, ts: Seq<TraitDeclView>) -> Option<Progress>
    decreases ts.len(),
{
    if ts.len() == 0 {
        Some(p)
    } else {
        match check_trait(env, p, ts[0]) {
            None => None,
            Some(p1) => check_traits(env, p1, ts.subrange(1, ts.len() as int)),
        }
    }
}

pub open spec fn check_tables(env: BodyEnv, p: Progress, ts: Seq<TableDeclaration>) -> Option<Progress>
    decreases ts.len(),
{
    if ts.len() == 0 {
        Some(p)
    } else {
        match check_table(env, p, ts[0]) {
            None => None,
            Some(p1) => check_tables(env, p1, ts.subrange(1, ts.len() as int)),
        }
    }
}

/// The execution-side context of a body check.
pub struct PreparedContext<'a> {
    pub existing: &'a IdentitySchemaCatalog,
    pub additions: &'a IdentitySchemaCatalog,
    pub order: &'a CanonicalIdentityOrder,
    pub snapshot: &'a TextualMetadataSnapshot,
    pub module: &'a [String],
    pub minted: Vec<EncodedName>,
    pub ids: BootstrapPriorIdentities,
}

impl<'a> PreparedContext<'a> {
    pub open spec fn env(&self) -> BodyEnv {
        BodyEnv {
            check: CheckEnv { existing: *self.existing, additions: *self.additions, order: *self.order },
            snapshot: *self.snapshot,
            module: self.module@,
            minted: self.minted@,
            ids: self.ids,
        }
    }

    pub open spec fn wf(&self) -> bool {
        &&& self.existing.wf()
        &&& self.additions.wf()
        &&& self.order.wf()
        &&& self.snapshot.wf()
    }
}

/// The accumulated body check.
pub struct ProgressTracker<'b> {
    seen: Vec<EncodedName>,
    expected: Vec<EncodedName>,
    streams: Vec<&'b StreamInitiationDeclaration>,
}

impl<'b> ProgressTracker<'b> {
    pub closed spec fn view(&self) -> Progress {
        Progress {
            seen: self.seen@,
            expected: self.expected@,
            streams: self.streams@.map_values(|s: &StreamInitiationDeclaration| stream_decl_view(*s)),
        }
    }

    pub fn new() -> (r: Self)
        ensures
            r.view() == fresh_progress(),
    {
        let r = ProgressTracker { seen: Vec::new(), expected: Vec::new(), streams: Vec::new() };
        assert(r.view().streams =~= Seq::<StreamDeclView>::empty());
        r
    }

    pub fn seen(&self) -> (r: &Vec<EncodedName>)
        ensures
            r@ == self.view().seen,
    {
        &self.seen
    }

    pub fn expected(&self) -> (r: &Vec<EncodedName>)
        ensures
            r@ == self.view().expected,
    {
        &self.expected
    }

    pub fn streams(&self) -> (r: &Vec<&'b StreamInitiationDeclaration>)
        ensures
            r@.map_values(|s: &StreamInitiationDeclaration| stream_decl_view(*s)) == self.view().streams,
    {
        &self.streams
    }

    fn push_stream(&mut self, s: &'b StreamInitiationDeclaration)
        ensures
            final(self).view() == (Progress { streams: old(self).view().streams.push(stream_decl_view(*s)), ..old(self).view() }),
    {
        let ghost before = self.view();
        self.streams.push(s);
        assert(self.view().streams =~= before.streams.push(stream_decl_view(*s)));
    }
}

fn same_owner(a: Option<EncodedName>, b: Option<EncodedName>) -> (r: bool)
    ensures
        r == (a == b),
{
    match (a, b) {
        (Some(x), Some(y)) => x == y,
        (None, None) => true,
        _ => false,
    }
}

/// One declared identity; see [`expect`].
pub fn expect_declaration(
    ctx: &PreparedContext,
    progress: &mut ProgressTracker,
    id: EncodedName,
    role: SchemaRole,
    owner: Option<EncodedName>,
) -> (r: bool)
    requires
        ctx.wf(),
    ensures
        match expect(ctx.env(), old(progress).view(), id, role, owner) {
            Some(p) => r && final(progress).view() == p,
            None => !r,
        },
{
    let schema = match super::resolution::schema_view_get(ctx.existing, ctx.additions, id) {
        Some(s) => s,
        None => {
            return false;
        },
    };
    if !schema.admits(role) {
        return false;
    }
    let rec = match ctx.snapshot.record(id) {
        Some(r) => r,
        None => {
            return false;
        },
    };
    if !paths_equal(rec.address.module.as_slice(), ctx.module) || !same_owner(rec.address.lexical_owner, owner) {
        return false;
    }
    if contains_identity(&progress.seen, id) {
        return false;
    }
    let ghost before = progress.view();
    if contains_identity(&ctx.minted, id) {
        let addition = match ctx.additions.get(id) {
            Some(a) => a,
            None => {
                return false;
            },
        };
        let roles = addition.roles();
        if roles.len() != 1 || roles[0] != role {
            return false;
        }
        proof {
            assert(roles@ =~= seq![role]);
        }
        progress.seen.push(id);
        progress.expected.push(id);
    } else {
        if !ctx.existing.contains(id) {
            return false;
        }
        progress.seen.push(id);
    }
    true
}

} // verus!

verus! {

/// The outcome of a check that accumulates progress.
pub open spec fn progress_outcome(r: bool, expected: Option<Progress>, after: Progress) -> bool {
    match expected {
        Some(p) => r && after == p,
        None => !r,
    }
}

/// The mathematical form of a variant payload.
pub open spec fn variant_body_view(b: VariantBody) -> VariantBodyView {
    match b {
        VariantBody::Unit => VariantBodyView::Unit,
        VariantBody::Unary(e) => VariantBodyView::Unary(expr_view(e)),
        VariantBody::Product(es) => VariantBodyView::Product(exprs_view(es@)),
    }
}

fn check_variant_body_exec(ctx: &PreparedContext, track: &mut BinderTracker, body: &VariantBody) -> (r: bool)
    requires
        ctx.wf(),
    ensures
        tracked_outcome(r, check_variant_body(ctx.env(), old(track).view(), variant_body_view(*body)), final(track).view()),
{
    match body {
        VariantBody::Unit => true,
        VariantBody::Unary(e) => check_expression(ctx.existing, ctx.additions, ctx.order, track, e),
        VariantBody::Product(fields) => {
            if fields.len() == 0 {
                proof {
                    super::reify::lemma_exprs_view(fields@);
                }
                return false;
            }
            proof {
                super::reify::lemma_exprs_view(fields@);
            }
            check_expressions(ctx.existing, ctx.additions, ctx.order, track, fields)
        },
    }
}


fn check_variants_exec<'b>(
    ctx: &PreparedContext,
    progress: &mut ProgressTracker<'b>,
    track: &mut BinderTracker,
    variants: &'b Vec<VariantDeclaration>,
    owner: EncodedName,
) -> (r: bool)
    requires
        ctx.wf(),
    ensures
        match check_variants(ctx.env(), old(progress).view(), old(track).view(), variants@.map_values(|v: VariantDeclaration| variant_view(v)), owner) {
            Some((p, t)) => r && final(progress).view() == p && final(track).view() == t,
            None => !r,
        },
{
    let ghost env = ctx.env();
    let ghost vs = variants@.map_values(|v: VariantDeclaration| variant_view(v));
    let ghost p0 = progress.view();
    let ghost t0 = track.view();
    let mut i: usize = 0;
    proof {
        assert(vs.subrange(0, vs.len() as int) =~= vs);
    }
    while i < variants.len()
        invariant
            ctx.wf(),
            env == ctx.env(),
            vs == variants@.map_values(|v: VariantDeclaration| variant_view(v)),
            i <= variants@.len(),
            p0 == old(progress).view(),
            t0 == old(track).view(),
            check_variants(env, p0, t0, vs, owner) == check_variants(env, progress.view(), track.view(), vs.subrange(i as int, vs.len() as int), owner),
        decreases variants@.len() - i,
    {
        let ghost rest = vs.subrange(i as int, vs.len() as int);
        proof {
            assert(rest[0] == variant_view(variants@[i as int]));
            assert(rest.subrange(1, rest.len() as int) =~= vs.subrange(i + 1, vs.len() as int));
        }
        let v = &variants[i];
        proof {
            assert(rest[0].name == v.name);
            assert(rest[0].body == variant_body_view(v.body));
        }
        let ghost pv = progress.view();
        let ghost tv = track.view();
        if !expect_declaration(ctx, progress, v.name, SchemaRole::Variant, Some(owner)) {
            assert(check_variants(env, pv, tv, rest, owner) is None);
            return false;
        }
        if !check_variant_body_exec(ctx, track, &v.body) {
            assert(check_variants(env, pv, tv, rest, owner) is None);
            return false;
        }
        i = i + 1;
    }
    proof {
        assert(vs.subrange(i as int, vs.len() as int) =~= Seq::<VariantView>::empty());
    }
    true
}

fn variant_names_exec(variants: &Vec<VariantDeclaration>) -> (r: Vec<EncodedName>)
    ensures
        r@ == variant_names(variants@.map_values(|v: VariantDeclaration| variant_view(v))),
{
    let ghost vs = variants@.map_values(|v: VariantDeclaration| variant_view(v));
    let mut out: Vec<EncodedName> = Vec::new();
    let mut i: usize = 0;
    while i < variants.len()
        invariant
            i <= variants@.len(),
            vs == variants@.map_values(|v: VariantDeclaration| variant_view(v)),
            out@ == variant_names(vs).subrange(0, i as int),
        decreases variants@.len() - i,
    {
        out.push(variants[i].name);
        proof {
            assert(out@ =~= variant_names(vs).subrange(0, i + 1));
        }
        i = i + 1;
    }
    proof {
        assert(variant_names(vs).subrange(0, i as int) =~= variant_names(vs));
    }
    out
}

/// A plain type declaration; see [`check_type_decl`].
pub fn check_type_declaration<'b>(
    ctx: &PreparedContext,
    progress: &mut ProgressTracker<'b>,
    declaration: &'b TypeDeclaration,
    persistent: bool,
) -> (r: bool)
    requires
        ctx.wf(),
    ensures
        progress_outcome(r, check_type_decl(ctx.env(), old(progress).view(), type_decl_view(*declaration), persistent), final(progress).view()),
{
    if !expect_declaration(ctx, progress, declaration.name, SchemaRole::Nominal { persistent }, None) {
        return false;
    }
    let mut track = BinderTracker::new(declaration.name);
    match &declaration.body {
        TypeBody::Newtype(e) => check_expression(ctx.existing, ctx.additions, ctx.order, &mut track, e),
        TypeBody::Struct(fields) => check_expressions(ctx.existing, ctx.additions, ctx.order, &mut track, fields),
        TypeBody::Enum(variants) => {
            if variants.len() == 0 {
                return false;
            }
            if !check_variants_exec(ctx, progress, &mut track, variants, declaration.name) {
                return false;
            }
            let names = variant_names_exec(variants);
            check_sorted(ctx.order, names.as_slice())
        },
    }
}


/// A declaration of a Declarations section; see [`check_decl`].
pub fn check_declaration<'b>(
    ctx: &PreparedContext,
    progress: &mut ProgressTracker<'b>,
    declaration: &'b Declaration,
    admit_nomos: bool,
) -> (r: bool)
    requires
        ctx.wf(),
    ensures
        progress_outcome(r, check_decl(ctx.env(), old(progress).view(), decl_view(*declaration), admit_nomos), final(progress).view()),
{
    match declaration {
        Declaration::Type(t) => check_type_declaration(ctx, progress, t, false),
        Declaration::Nomos(NomosDeclaration::StreamInitiation(stream)) => {
            if !admit_nomos {
                return false;
            }
            if !expect_declaration(ctx, progress, stream.name, SchemaRole::Nominal { persistent: false }, None) {
                return false;
            }
            let mut track = BinderTracker::new(stream.name);
            if !check_expression(ctx.existing, ctx.additions, ctx.order, &mut track, &stream.query) {
                return false;
            }
            if !check_expression(ctx.existing, ctx.additions, ctx.order, &mut track, &stream.event) {
                return false;
            }
            progress.push_stream(stream);
            true
        },
    }
}

fn check_method_exec<'b>(
    ctx: &PreparedContext,
    progress: &mut ProgressTracker<'b>,
    method: &'b MethodDeclaration,
    owner: EncodedName,
) -> (r: bool)
    requires
        ctx.wf(),
    ensures
        progress_outcome(r, check_method(ctx.env(), old(progress).view(), method_view(*method), owner), final(progress).view()),
{
    if !expect_declaration(ctx, progress, method.name, SchemaRole::Method, Some(owner)) {
        return false;
    }
    let mut track = BinderTracker::new(method.name);
    if !check_expressions(ctx.existing, ctx.additions, ctx.order, &mut track, &method.parameters) {
        return false;
    }
    check_expression(ctx.existing, ctx.additions, ctx.order, &mut track, &method.return_type)
}

fn method_names_exec(methods: &Vec<MethodDeclaration>) -> (r: Vec<EncodedName>)
    ensures
        r@ == method_names(methods@.map_values(|m: MethodDeclaration| method_view(m))),
{
    let ghost ms = methods@.map_values(|m: MethodDeclaration| method_view(m));
    let mut out: Vec<EncodedName> = Vec::new();
    let mut i: usize = 0;
    while i < methods.len()
        invariant
            i <= methods@.len(),
            ms == methods@.map_values(|m: MethodDeclaration| method_view(m)),
            out@ == method_names(ms).subrange(0, i as int),
        decreases methods@.len() - i,
    {
        out.push(methods[i].name);
        proof {
            assert(out@ =~= method_names(ms).subrange(0, i + 1));
        }
        i = i + 1;
    }
    proof {
        assert(method_names(ms).subrange(0, i as int) =~= method_names(ms));
    }
    out
}

/// A Trait and its methods; see [`check_trait`].
pub fn check_trait_declaration<'b>(
    ctx: &PreparedContext,
    progress: &mut ProgressTracker<'b>,
    declaration: &'b TraitDeclaration,
) -> (r: bool)
    requires
        ctx.wf(),
    ensures
        progress_outcome(r, check_trait(ctx.env(), old(progress).view(), trait_view(*declaration)), final(progress).view()),
{
    let ghost env = ctx.env();
    let ghost ms = declaration.methods@.map_values(|m: MethodDeclaration| method_view(m));
    if !expect_declaration(ctx, progress, declaration.name, SchemaRole::Trait, None) {
        return false;
    }
    let ghost p1 = progress.view();
    let mut i: usize = 0;
    proof {
        assert(ms.subrange(0, ms.len() as int) =~= ms);
    }
    while i < declaration.methods.len()
        invariant
            ctx.wf(),
            env == ctx.env(),
            ms == declaration.methods@.map_values(|m: MethodDeclaration| method_view(m)),
            i <= declaration.methods@.len(),
            expect(env, old(progress).view(), declaration.name, SchemaRole::Trait, None) == Some(p1),
            trait_view(*declaration).methods == ms,
            trait_view(*declaration).name == declaration.name,
            check_methods(env, p1, ms, declaration.name) == check_methods(env, progress.view(), ms.subrange(i as int, ms.len() as int), declaration.name),
        decreases declaration.methods@.len() - i,
    {
        let ghost rest = ms.subrange(i as int, ms.len() as int);
        proof {
            assert(rest[0] == method_view(declaration.methods@[i as int]));
            assert(rest.subrange(1, rest.len() as int) =~= ms.subrange(i + 1, ms.len() as int));
        }
        let ghost pv = progress.view();
        if !check_method_exec(ctx, progress, &declaration.methods[i], declaration.name) {
            assert(check_methods(env, pv, rest, declaration.name) is None);
            return false;
        }
        i = i + 1;
    }
    proof {
        assert(ms.subrange(i as int, ms.len() as int) =~= Seq::<MethodView>::empty());
    }
    let names = method_names_exec(&declaration.methods);
    check_sorted(ctx.order, names.as_slice())
}

/// A keyed table; see [`check_table`].
pub fn check_table_declaration(ctx: &PreparedContext, progress: &mut ProgressTracker, table: &TableDeclaration) -> (r: bool)
    requires
        ctx.wf(),
    ensures
        progress_outcome(r, check_table(ctx.env(), old(progress).view(), *table), final(progress).view()),
{
    if !expect_declaration(ctx, progress, table.name, SchemaRole::Table, None) {
        return false;
    }
    meets_exec(ctx.existing, ctx.additions, table.record_type, ExpectedSchema::PersistentNominal)
        && meets_exec(ctx.existing, ctx.additions, table.key_type, ExpectedSchema::PersistentNominal)
}

/// A role entry; see [`check_role_entry`].
pub fn check_role_entry_exec<'b>(ctx: &PreparedContext, progress: &mut ProgressTracker<'b>, entry: &'b RoleEntry) -> (r: bool)
    requires
        ctx.wf(),
    ensures
        progress_outcome(r, check_role_entry(ctx.env(), old(progress).view(), role_entry_view(*entry)), final(progress).view()),
{
    match entry {
        RoleEntry::Declaration(d) => check_type_declaration(ctx, progress, d, false),
        RoleEntry::Reference(id) => meets_exec(ctx.existing, ctx.additions, *id, ExpectedSchema::Nominal),
    }
}


pub open spec fn role_entry_keys(xs: Seq<RoleEntryView>) -> Seq<EncodedName> {
    xs.map_values(|x: RoleEntryView| super::declare::role_entry_key(x))
}

/// The section's items checked in order, then their canonical order.
pub open spec fn check_role_section(env: BodyEnv, p: Progress, xs: Seq<RoleEntryView>) -> Option<Progress> {
    match check_role_entries(env, p, xs) {
        None => None,
        Some(p1) => if sorted_where_compared(env.check.order, role_entry_keys(xs)) { Some(p1) } else { None },
    }
}

pub fn check_role_section_exec<'b>(
    ctx: &PreparedContext,
    progress: &mut ProgressTracker<'b>,
    items: &'b Vec<RoleEntry>,
) -> (r: bool)
    requires
        ctx.wf(),
    ensures
        progress_outcome(r, check_role_section(ctx.env(), old(progress).view(), items@.map_values(|x: RoleEntry| role_entry_view(x))), final(progress).view()),
{
    let ghost env = ctx.env();
    let ghost xs = items@.map_values(|x: RoleEntry| role_entry_view(x));
    let ghost p0 = progress.view();
    let mut i: usize = 0;
    proof {
        assert(xs.subrange(0, xs.len() as int) =~= xs);
    }
    while i < items.len()
        invariant
            ctx.wf(),
            env == ctx.env(),
            xs == items@.map_values(|x: RoleEntry| role_entry_view(x)),
            i <= items@.len(),
            p0 == old(progress).view(),
            check_role_entries(env, p0, xs) == check_role_entries(env, progress.view(), xs.subrange(i as int, xs.len() as int)),
        decreases items@.len() - i,
    {
        let ghost rest = xs.subrange(i as int, xs.len() as int);
        proof {
            assert(rest[0] == role_entry_view(items@[i as int]));
            assert(rest.subrange(1, rest.len() as int) =~= xs.subrange(i + 1, xs.len() as int));
        }
        let ghost pv = progress.view();
        if !check_role_entry_exec(ctx, progress, &items[i]) {
            assert(check_role_entries(env, pv, rest) is None);
            return false;
        }
        i = i + 1;
    }
    proof {
        assert(xs.subrange(i as int, xs.len() as int) =~= Seq::<RoleEntryView>::empty());
    }
    let mut keys: Vec<EncodedName> = Vec::new();
    let mut j: usize = 0;
    while j < items.len()
        invariant
            j <= items@.len(),
            xs == items@.map_values(|x: RoleEntry| role_entry_view(x)),
            keys@ == role_entry_keys(xs).subrange(0, j as int),
        decreases items@.len() - j,
    {
        let k = items[j].target();
        proof {
            assert(k == role_entry_keys(xs)[j as int]);
        }
        keys.push(k);
        proof {
            assert(keys@ =~= role_entry_keys(xs).subrange(0, j + 1));
        }
        j = j + 1;
    }
    proof {
        assert(role_entry_keys(xs).subrange(0, j as int) =~= role_entry_keys(xs));
    }
    check_sorted(ctx.order, keys.as_slice())
}

pub open spec fn decl_keys(xs: Seq<DeclView>) -> Seq<EncodedName> {
    xs.map_values(|x: DeclView| super::declare::decl_key(x))
}

/// The section's items checked in order, then their canonical order.
pub open spec fn check_decl_section(env: BodyEnv, p: Progress, xs: Seq<DeclView>, admit_nomos: bool) -> Option<Progress> {
    match check_decls(env, p, xs, admit_nomos) {
        None => None,
        Some(p1) => if sorted_where_compared(env.check.order, decl_keys(xs)) { Some(p1) } else { None },
    }
}

pub fn check_decl_section_exec<'b>(
    ctx: &PreparedContext,
    progress: &mut ProgressTracker<'b>,
    items: &'b Vec<Declaration>, admit_nomos: bool,
) -> (r: bool)
    requires
        ctx.wf(),
    ensures
        progress_outcome(r, check_decl_section(ctx.env(), old(progress).view(), items@.map_values(|x: Declaration| decl_view(x)), admit_nomos), final(progress).view()),
{
    let ghost env = ctx.env();
    let ghost xs = items@.map_values(|x: Declaration| decl_view(x));
    let ghost p0 = progress.view();
    let mut i: usize = 0;
    proof {
        assert(xs.subrange(0, xs.len() as int) =~= xs);
    }
    while i < items.len()
        invariant
            ctx.wf(),
            env == ctx.env(),
            xs == items@.map_values(|x: Declaration| decl_view(x)),
            i <= items@.len(),
            p0 == old(progress).view(),
            check_decls(env, p0, xs, admit_nomos) == check_decls(env, progress.view(), xs.subrange(i as int, xs.len() as int), admit_nomos),
        decreases items@.len() - i,
    {
        let ghost rest = xs.subrange(i as int, xs.len() as int);
        proof {
            assert(rest[0] == decl_view(items@[i as int]));
            assert(rest.subrange(1, rest.len() as int) =~= xs.subrange(i + 1, xs.len() as int));
        }
        let ghost pv = progress.view();
        if !check_declaration(ctx, progress, &items[i], admit_nomos) {
            assert(check_decls(env, pv, rest, admit_nomos) is None);
            return false;
        }
        i = i + 1;
    }
    proof {
        assert(xs.subrange(i as int, xs.len() as int) =~= Seq::<DeclView>::empty());
    }
    let mut keys: Vec<EncodedName> = Vec::new();
    let mut j: usize = 0;
    while j < items.len()
        invariant
            j <= items@.len(),
            xs == items@.map_values(|x: Declaration| decl_view(x)),
            keys@ == decl_keys(xs).subrange(0, j as int),
        decreases items@.len() - j,
    {
        let k = items[j].identity();
        proof {
            assert(k == decl_keys(xs)[j as int]);
        }
        keys.push(k);
        proof {
            assert(keys@ =~= decl_keys(xs).subrange(0, j + 1));
        }
        j = j + 1;
    }
    proof {
        assert(decl_keys(xs).subrange(0, j as int) =~= decl_keys(xs));
    }
    check_sorted(ctx.order, keys.as_slice())
}

pub open spec fn type_decl_keys(xs: Seq<TypeDeclView>) -> Seq<EncodedName> {
    xs.map_values(|x: TypeDeclView| x.name)
}

/// The section's items checked in order, then their canonical order.
pub open spec fn check_type_section(env: BodyEnv, p: Progress, xs: Seq<TypeDeclView>, persistent: bool) -> Option<Progress> {
    match check_type_decls(env, p, xs, persistent) {
        None => None,
        Some(p1) => if sorted_where_compared(env.check.order, type_decl_keys(xs)) { Some(p1) } else { None },
    }
}

pub fn check_type_section_exec<'b>(
    ctx: &PreparedContext,
    progress: &mut ProgressTracker<'b>,
    items: &'b Vec<TypeDeclaration>, persistent: bool,
) -> (r: bool)
    requires
        ctx.wf(),
    ensures
        progress_outcome(r, check_type_section(ctx.env(), old(progress).view(), items@.map_values(|x: TypeDeclaration| type_decl_view(x)), persistent), final(progress).view()),
{
    let ghost env = ctx.env();
    let ghost xs = items@.map_values(|x: TypeDeclaration| type_decl_view(x));
    let ghost p0 = progress.view();
    let mut i: usize = 0;
    proof {
        assert(xs.subrange(0, xs.len() as int) =~= xs);
    }
    while i < items.len()
        invariant
            ctx.wf(),
            env == ctx.env(),
            xs == items@.map_values(|x: TypeDeclaration| type_decl_view(x)),
            i <= items@.len(),
            p0 == old(progress).view(),
            check_type_decls(env, p0, xs, persistent) == check_type_decls(env, progress.view(), xs.subrange(i as int, xs.len() as int), persistent),
        decreases items@.len() - i,
    {
        let ghost rest = xs.subrange(i as int, xs.len() as int);
        proof {
            assert(rest[0] == type_decl_view(items@[i as int]));
            assert(rest.subrange(1, rest.len() as int) =~= xs.subrange(i + 1, xs.len() as int));
        }
        let ghost pv = progress.view();
        if !check_type_declaration(ctx, progress, &items[i], persistent) {
            assert(check_type_decls(env, pv, rest, persistent) is None);
            return false;
        }
        i = i + 1;
    }
    proof {
        assert(xs.subrange(i as int, xs.len() as int) =~= Seq::<TypeDeclView>::empty());
    }
    let mut keys: Vec<EncodedName> = Vec::new();
    let mut j: usize = 0;
    while j < items.len()
        invariant
            j <= items@.len(),
            xs == items@.map_values(|x: TypeDeclaration| type_decl_view(x)),
            keys@ == type_decl_keys(xs).subrange(0, j as int),
        decreases items@.len() - j,
    {
        let k = items[j].name;
        proof {
            assert(k == type_decl_keys(xs)[j as int]);
        }
        keys.push(k);
        proof {
            assert(keys@ =~= type_decl_keys(xs).subrange(0, j + 1));
        }
        j = j + 1;
    }
    proof {
        assert(type_decl_keys(xs).subrange(0, j as int) =~= type_decl_keys(xs));
    }
    check_sorted(ctx.order, keys.as_slice())
}

pub open spec fn trait_keys(xs: Seq<TraitDeclView>) -> Seq<EncodedName> {
    xs.map_values(|x: TraitDeclView| x.name)
}

/// The section's items checked in order, then their canonical order.
pub open spec fn check_trait_section(env: BodyEnv, p: Progress, xs: Seq<TraitDeclView>) -> Option<Progress> {
    match check_traits(env, p, xs) {
        None => None,
        Some(p1) => if sorted_where_compared(env.check.order, trait_keys(xs)) { Some(p1) } else { None },
    }
}

pub fn check_trait_section_exec<'b>(
    ctx: &PreparedContext,
    progress: &mut ProgressTracker<'b>,
    items: &'b Vec<TraitDeclaration>,
) -> (r: bool)
    requires
        ctx.wf(),
    ensures
        progress_outcome(r, check_trait_section(ctx.env(), old(progress).view(), items@.map_values(|x: TraitDeclaration| trait_view(x))), final(progress).view()),
{
    let ghost env = ctx.env();
    let ghost xs = items@.map_values(|x: TraitDeclaration| trait_view(x));
    let ghost p0 = progress.view();
    let mut i: usize = 0;
    proof {
        assert(xs.subrange(0, xs.len() as int) =~= xs);
    }
    while i < items.len()
        invariant
            ctx.wf(),
            env == ctx.env(),
            xs == items@.map_values(|x: TraitDeclaration| trait_view(x)),
            i <= items@.len(),
            p0 == old(progress).view(),
            check_traits(env, p0, xs) == check_traits(env, progress.view(), xs.subrange(i as int, xs.len() as int)),
        decreases items@.len() - i,
    {
        let ghost rest = xs.subrange(i as int, xs.len() as int);
        proof {
            assert(rest[0] == trait_view(items@[i as int]));
            assert(rest.subrange(1, rest.len() as int) =~= xs.subrange(i + 1, xs.len() as int));
        }
        let ghost pv = progress.view();
        if !check_trait_declaration(ctx, progress, &items[i]) {
            assert(check_traits(env, pv, rest) is None);
            return false;
        }
        i = i + 1;
    }
    proof {
        assert(xs.subrange(i as int, xs.len() as int) =~= Seq::<TraitDeclView>::empty());
    }
    let mut keys: Vec<EncodedName> = Vec::new();
    let mut j: usize = 0;
    while j < items.len()
        invariant
            j <= items@.len(),
            xs == items@.map_values(|x: TraitDeclaration| trait_view(x)),
            keys@ == trait_keys(xs).subrange(0, j as int),
        decreases items@.len() - j,
    {
        let k = items[j].name;
        proof {
            assert(k == trait_keys(xs)[j as int]);
        }
        keys.push(k);
        proof {
            assert(keys@ =~= trait_keys(xs).subrange(0, j + 1));
        }
        j = j + 1;
    }
    proof {
        assert(trait_keys(xs).subrange(0, j as int) =~= trait_keys(xs));
    }
    check_sorted(ctx.order, keys.as_slice())
}

pub open spec fn table_keys(xs: Seq<TableDeclaration>) -> Seq<EncodedName> {
    xs.map_values(|x: TableDeclaration| x.name)
}

/// The section's items checked in order, then their canonical order.
pub open spec fn check_table_section(env: BodyEnv, p: Progress, xs: Seq<TableDeclaration>) -> Option<Progress> {
    match check_tables(env, p, xs) {
        None => None,
        Some(p1) => if sorted_where_compared(env.check.order, table_keys(xs)) { Some(p1) } else { None },
    }
}

pub fn check_table_section_exec<'b>(
    ctx: &PreparedContext,
    progress: &mut ProgressTracker<'b>,
    items: &'b Vec<TableDeclaration>,
) -> (r: bool)
    requires
        ctx.wf(),
    ensures
        progress_outcome(r, check_table_section(ctx.env(), old(progress).view(), items@.map_values(|x: TableDeclaration| table_view(x))), final(progress).view()),
{
    let ghost env = ctx.env();
    let ghost xs = items@.map_values(|x: TableDeclaration| table_view(x));
    let ghost p0 = progress.view();
    let mut i: usize = 0;
    proof {
        assert(xs.subrange(0, xs.len() as int) =~= xs);
    }
    while i < items.len()
        invariant
            ctx.wf(),
            env == ctx.env(),
            xs == items@.map_values(|x: TableDeclaration| table_view(x)),
            i <= items@.len(),
            p0 == old(progress).view(),
            check_tables(env, p0, xs) == check_tables(env, progress.view(), xs.subrange(i as int, xs.len() as int)),
        decreases items@.len() - i,
    {
        let ghost rest = xs.subrange(i as int, xs.len() as int);
        proof {
            assert(rest[0] == table_view(items@[i as int]));
            assert(rest.subrange(1, rest.len() as int) =~= xs.subrange(i + 1, xs.len() as int));
        }
        let ghost pv = progress.view();
        if !check_table_declaration(ctx, progress, &items[i]) {
            assert(check_tables(env, pv, rest) is None);
            return false;
        }
        i = i + 1;
    }
    proof {
        assert(xs.subrange(i as int, xs.len() as int) =~= Seq::<TableDeclaration>::empty());
    }
    let mut keys: Vec<EncodedName> = Vec::new();
    let mut j: usize = 0;
    while j < items.len()
        invariant
            j <= items@.len(),
            xs == items@.map_values(|x: TableDeclaration| table_view(x)),
            keys@ == table_keys(xs).subrange(0, j as int),
        decreases items@.len() - j,
    {
        let k = items[j].name;
        proof {
            assert(k == table_keys(xs)[j as int]);
        }
        keys.push(k);
        proof {
            assert(keys@ =~= table_keys(xs).subrange(0, j + 1));
        }
        j = j + 1;
    }
    proof {
        assert(table_keys(xs).subrange(0, j as int) =~= table_keys(xs));
    }
    check_sorted(ctx.order, keys.as_slice())
}

/// A table is its own mathematical form.
pub open spec fn table_view(t: TableDeclaration) -> TableDeclaration {
    t
}


// ---------------------------------------------------------------------------
// Interface memberships and the whole body
// ---------------------------------------------------------------------------

/// The role identities whose sections have entries, in section order.
pub open spec fn occupied_roles(ids: BootstrapPriorIdentities, inputs: Seq<RoleEntryView>, outputs: Seq<RoleEntryView>, refusals: Seq<RoleEntryView>) -> Seq<EncodedName> {
    (if inputs.len() > 0 { seq![ids.input_role] } else { Seq::empty() })
        + (if outputs.len() > 0 { seq![ids.output_role] } else { Seq::empty() })
        + (if refusals.len() > 0 { seq![ids.refusal_role] } else { Seq::empty() })
}

pub open spec fn block_of(ids: BootstrapPriorIdentities, role: EncodedName, inputs: Seq<RoleEntryView>, outputs: Seq<RoleEntryView>, refusals: Seq<RoleEntryView>) -> Seq<InterfaceRoleMembership> {
    match role_of(ids, role) {
        InterfaceRole::Input => role_block(InterfaceRole::Input, inputs),
        InterfaceRole::Output => role_block(InterfaceRole::Output, outputs),
        InterfaceRole::Refusal => role_block(InterfaceRole::Refusal, refusals),
    }
}

/// The role blocks of `roles`, in that order.
pub open spec fn concat_blocks(ids: BootstrapPriorIdentities, roles: Seq<EncodedName>, inputs: Seq<RoleEntryView>, outputs: Seq<RoleEntryView>, refusals: Seq<RoleEntryView>) -> Seq<InterfaceRoleMembership>
    decreases roles.len(),
{
    if roles.len() == 0 {
        Seq::empty()
    } else {
        concat_blocks(ids, roles.drop_last(), inputs, outputs, refusals) + block_of(ids, roles.last(), inputs, outputs, refusals)
    }
}

/// The memberships of the role entries ordered by role identity, then by
/// target: each occupied role needs canonical bytes.
pub open spec fn expected_memberships(order: CanonicalIdentityOrder, ids: BootstrapPriorIdentities, inputs: Seq<RoleEntryView>, outputs: Seq<RoleEntryView>, refusals: Seq<RoleEntryView>) -> Option<Seq<InterfaceRoleMembership>> {
    let roles = occupied_roles(ids, inputs, outputs, refusals);
    if !all_ordered(order, roles) || !distinct_ids(roles) {
        None
    } else {
        Some(concat_blocks(ids, canonical_arrangement(order, roles), inputs, outputs, refusals))
    }
}

/// Every section of the body, then the Interface memberships.
pub open spec fn check_body(env: BodyEnv, p: Progress, b: BodyView) -> Option<Progress> {
    match b {
        BodyView::Interface { inputs, outputs, refusals, types, memberships } => match check_role_section(env, p, inputs) {
            None => None,
            Some(p1) => match check_role_section(env, p1, outputs) {
                None => None,
                Some(p2) => match check_role_section(env, p2, refusals) {
                    None => None,
                    Some(p3) => match check_decl_section(env, p3, types, true) {
                        None => None,
                        Some(p4) => if expected_memberships(env.check.order, env.ids, inputs, outputs, refusals) == Some(memberships) {
                            Some(p4)
                        } else {
                            None
                        },
                    },
                },
            },
        },
        BodyView::Nexus { traits, types } => match check_trait_section(env, p, traits) {
            None => None,
            Some(p1) => check_decl_section(env, p1, types, false),
        },
        BodyView::Sema { records, tables } => match check_type_section(env, p, records, true) {
            None => None,
            Some(p1) => check_table_section(env, p1, tables),
        },
    }
}

fn role_of_exec(ids: &BootstrapPriorIdentities, id: EncodedName) -> (r: InterfaceRole)
    ensures
        r == role_of(*ids, id),
{
    if id == ids.input_role {
        InterfaceRole::Input
    } else if id == ids.output_role {
        InterfaceRole::Output
    } else {
        InterfaceRole::Refusal
    }
}

fn push_block(out: &mut Vec<InterfaceRoleMembership>, role: InterfaceRole, entries: &Vec<RoleEntry>)
    ensures
        final(out)@ == old(out)@ + role_block(role, entries@.map_values(|e: RoleEntry| role_entry_view(e))),
{
    let ghost block = role_block(role, entries@.map_values(|e: RoleEntry| role_entry_view(e)));
    let ghost start = out@;
    let mut i: usize = 0;
    while i < entries.len()
        invariant
            i <= entries@.len(),
            block == role_block(role, entries@.map_values(|e: RoleEntry| role_entry_view(e))),
            block.len() == entries@.len(),
            out@ == start + block.subrange(0, i as int),
        decreases entries@.len() - i,
    {
        let m = InterfaceRoleMembership { role, target: entries[i].target() };
        proof {
            assert(block[i as int] == m);
        }
        out.push(m);
        proof {
            assert(out@ =~= start + block.subrange(0, i + 1));
        }
        i = i + 1;
    }
    proof {
        assert(block.subrange(0, i as int) =~= block);
    }
}

fn memberships_equal(a: &Vec<InterfaceRoleMembership>, b: &Vec<InterfaceRoleMembership>) -> (r: bool)
    ensures
        r == (a@ == b@),
{
    if a.len() != b.len() {
        return false;
    }
    let mut i: usize = 0;
    while i < a.len()
        invariant
            a@.len() == b@.len(),
            i <= a@.len(),
            forall|k: int| 0 <= k < i ==> a@[k] == b@[k],
        decreases a@.len() - i,
    {
        if a[i] != b[i] {
            return false;
        }
        i = i + 1;
    }
    proof {
        assert(a@ =~= b@);
    }
    true
}

/// Whether the Interface memberships are exactly the ordered role entries.
fn check_memberships(
    ctx: &PreparedContext,
    inputs: &Vec<RoleEntry>,
    outputs: &Vec<RoleEntry>,
    refusals: &Vec<RoleEntry>,
    memberships: &Vec<InterfaceRoleMembership>,
) -> (r: bool)
    requires
        ctx.wf(),
    ensures
        r == (expected_memberships(*ctx.order, ctx.ids,
            inputs@.map_values(|e: RoleEntry| role_entry_view(e)),
            outputs@.map_values(|e: RoleEntry| role_entry_view(e)),
            refusals@.map_values(|e: RoleEntry| role_entry_view(e))) == Some(memberships@)),
{
    let ghost ins = inputs@.map_values(|e: RoleEntry| role_entry_view(e));
    let ghost outs = outputs@.map_values(|e: RoleEntry| role_entry_view(e));
    let ghost refs = refusals@.map_values(|e: RoleEntry| role_entry_view(e));
    let mut roles: Vec<EncodedName> = Vec::new();
    if inputs.len() > 0 {
        roles.push(ctx.ids.input_role);
    }
    if outputs.len() > 0 {
        roles.push(ctx.ids.output_role);
    }
    if refusals.len() > 0 {
        roles.push(ctx.ids.refusal_role);
    }
    proof {
        assert(roles@ =~= occupied_roles(ctx.ids, ins, outs, refs));
    }
    let arranged = match sort_identities(ctx.order, &roles) {
        Ok(a) => a,
        Err(_) => {
            return false;
        },
    };
    let mut expected: Vec<InterfaceRoleMembership> = Vec::new();
    let mut k: usize = 0;
    while k < arranged.len()
        invariant
            k <= arranged@.len(),
            ins == inputs@.map_values(|e: RoleEntry| role_entry_view(e)),
            outs == outputs@.map_values(|e: RoleEntry| role_entry_view(e)),
            refs == refusals@.map_values(|e: RoleEntry| role_entry_view(e)),
            expected@ == concat_blocks(ctx.ids, arranged@.subrange(0, k as int), ins, outs, refs),
        decreases arranged@.len() - k,
    {
        let role = role_of_exec(&ctx.ids, arranged[k]);
        match role {
            InterfaceRole::Input => push_block(&mut expected, InterfaceRole::Input, inputs),
            InterfaceRole::Output => push_block(&mut expected, InterfaceRole::Output, outputs),
            InterfaceRole::Refusal => push_block(&mut expected, InterfaceRole::Refusal, refusals),
        }
        proof {
            let s = arranged@.subrange(0, k + 1);
            assert(s.drop_last() =~= arranged@.subrange(0, k as int));
            assert(s.last() == arranged@[k as int]);
        }
        k = k + 1;
    }
    proof {
        assert(arranged@.subrange(0, k as int) =~= arranged@);
    }
    memberships_equal(&expected, memberships)
}

/// Check a whole body; see [`check_body`].
pub fn check_body_exec<'b>(ctx: &PreparedContext, progress: &mut ProgressTracker<'b>, body: &'b BootstrapBody) -> (r: bool)
    requires
        ctx.wf(),
    ensures
        progress_outcome(r, check_body(ctx.env(), old(progress).view(), body_view(*body)), final(progress).view()),
{
    match body {
        BootstrapBody::Interface(i) => {
            proof {
                assert(i.inputs@.map_values(|e: RoleEntry| super::declare::role_entry_view(e)) =~= i.inputs@.map_values(|x: RoleEntry| role_entry_view(x)));
                assert(i.outputs@.map_values(|e: RoleEntry| super::declare::role_entry_view(e)) =~= i.outputs@.map_values(|x: RoleEntry| role_entry_view(x)));
                assert(i.refusals@.map_values(|e: RoleEntry| super::declare::role_entry_view(e)) =~= i.refusals@.map_values(|x: RoleEntry| role_entry_view(x)));
                assert(i.types@.map_values(|d: Declaration| super::declare::decl_view(d)) =~= i.types@.map_values(|x: Declaration| decl_view(x)));
            }
            if !check_role_section_exec(ctx, progress, &i.inputs) {
                return false;
            }
            if !check_role_section_exec(ctx, progress, &i.outputs) {
                return false;
            }
            if !check_role_section_exec(ctx, progress, &i.refusals) {
                return false;
            }
            if !check_decl_section_exec(ctx, progress, &i.types, true) {
                return false;
            }
            proof {
                assert(i.inputs@.map_values(|e: RoleEntry| role_entry_view(e)) =~= i.inputs@.map_values(|x: RoleEntry| role_entry_view(x)));
                assert(i.outputs@.map_values(|e: RoleEntry| role_entry_view(e)) =~= i.outputs@.map_values(|x: RoleEntry| role_entry_view(x)));
                assert(i.refusals@.map_values(|e: RoleEntry| role_entry_view(e)) =~= i.refusals@.map_values(|x: RoleEntry| role_entry_view(x)));
            }
            check_memberships(ctx, &i.inputs, &i.outputs, &i.refusals, &i.memberships)
        },
        BootstrapBody::Nexus(n) => {
            proof {
                assert(n.traits@.map_values(|t: TraitDeclaration| super::declare::trait_view(t)) =~= n.traits@.map_values(|x: TraitDeclaration| trait_view(x)));
                assert(n.types@.map_values(|d: Declaration| super::declare::decl_view(d)) =~= n.types@.map_values(|x: Declaration| decl_view(x)));
            }
            if !check_trait_section_exec(ctx, progress, &n.traits) {
                return false;
            }
            check_decl_section_exec(ctx, progress, &n.types, false)
        },
        BootstrapBody::Sema(sm) => {
            proof {
                assert(sm.record_types@.map_values(|d: TypeDeclaration| super::declare::type_decl_view(d)) =~= sm.record_types@.map_values(|x: TypeDeclaration| type_decl_view(x)));
                assert(sm.tables@ =~= sm.tables@.map_values(|x: TableDeclaration| table_view(x)));
            }
            if !check_type_section_exec(ctx, progress, &sm.record_types, true) {
                return false;
            }
            check_table_section_exec(ctx, progress, &sm.tables)
        },
    }
}


// ---------------------------------------------------------------------------
// Generated Stream declarations
// ---------------------------------------------------------------------------

/// The first authored Stream named `name`.
pub open spec fn find_stream(streams: Seq<StreamDeclView>, name: EncodedName) -> Option<StreamDeclView>
    decreases streams.len(),
{
    if streams.len() == 0 {
        None
    } else if streams[0].name == name {
        Some(streams[0])
    } else {
        find_stream(streams.subrange(1, streams.len() as int), name)
    }
}

/// The three Interface relations of a generated Stream transaction.
pub open spec fn stream_relations(g: PreparedStreamGeneration) -> Seq<InterfaceRoleMembership> {
    seq![
        InterfaceRoleMembership { role: InterfaceRole::Input, target: g.initiation.name },
        InterfaceRoleMembership { role: InterfaceRole::Output, target: g.output.name },
        InterfaceRoleMembership { role: InterfaceRole::Input, target: g.termination.name },
    ]
}

/// The anatomy of one generated Stream against its authored source.
pub open spec fn generation_anatomy(env: BodyEnv, authored: StreamDeclView, g: PreparedStreamGeneration) -> bool {
    &&& expr_view(g.initiation.query) == authored.query
    &&& g.output.stream_of_event.shape == env.ids.stream_shape
    &&& g.output.stream_of_event.arguments@.len() == 1
    &&& expr_view(g.output.stream_of_event.arguments@[0]) == authored.event
    &&& g.termination.stream_handle == authored.name
    &&& g.initiation.name != g.output.name
    &&& g.initiation.name != g.termination.name
    &&& g.output.name != g.termination.name
}

/// One generated Stream: an authored source, a fresh output, the exact
/// anatomy, declared initiation and termination identities, and the exact
/// relations.
pub open spec fn check_generation(env: BodyEnv, p: Progress, outputs: Seq<EncodedName>, g: PreparedStreamGeneration) -> Option<Progress> {
    match find_stream(p.streams, g.output.name) {
        None => None,
        Some(authored) => if outputs.contains(g.output.name) || !generation_anatomy(env, authored, g) {
            None
        } else {
            match expect(env, p, g.initiation.name, SchemaRole::Nominal { persistent: false }, None) {
                None => None,
                Some(p1) => match expect(env, p1, g.termination.name, SchemaRole::Nominal { persistent: false }, None) {
                    None => None,
                    Some(p2) => if g.role_relations@ == stream_relations(g) { Some(p2) } else { None },
                },
            }
        },
    }
}

pub open spec fn check_generations(env: BodyEnv, p: Progress, outputs: Seq<EncodedName>, gs: Seq<PreparedStreamGeneration>) -> Option<Progress>
    decreases gs.len(),
{
    if gs.len() == 0 {
        Some(p)
    } else {
        match check_generation(env, p, outputs, gs[0]) {
            None => None,
            Some(p1) => check_generations(env, p1, outputs.push(gs[0].output.name), gs.subrange(1, gs.len() as int)),
        }
    }
}

pub open spec fn generation_outputs(gs: Seq<PreparedStreamGeneration>) -> Seq<EncodedName> {
    gs.map_values(|g: PreparedStreamGeneration| g.output.name)
}

/// All generated Streams: one per authored Stream, each checked, in
/// canonical order of their outputs.
pub open spec fn check_streams(env: BodyEnv, p: Progress, gs: Seq<PreparedStreamGeneration>) -> Option<Progress> {
    if gs.len() != p.streams.len() {
        None
    } else {
        match check_generations(env, p, Seq::empty(), gs) {
            None => None,
            Some(p1) => if sorted_where_compared(env.check.order, generation_outputs(gs)) { Some(p1) } else { None },
        }
    }
}

fn same_binder(a: &ParameterBinder, b: &ParameterBinder) -> (r: bool)
    ensures
        r == (binder_view(*a) == binder_view(*b)),
{
    match (a, b) {
        (ParameterBinder::Inferred(p), ParameterBinder::Inferred(q)) => *p == *q,
        (ParameterBinder::Named { parameter: p, local_name: m }, ParameterBinder::Named { parameter: q, local_name: n }) =>
            *p == *q && super::catalog::str_equal(m.as_str(), n.as_str()),
        _ => false,
    }
}

/// Structural equality of two expressions.
pub fn same_expression(a: &TypeExpression, b: &TypeExpression) -> (r: bool)
    ensures
        r == (expr_view(*a) == expr_view(*b)),
    decreases a,
{
    match (a, b) {
        (TypeExpression::Reference(x), TypeExpression::Reference(y)) => *x == *y,
        (TypeExpression::ShapeApplication(x), TypeExpression::ShapeApplication(y)) => {
            if x.shape != y.shape {
                return false;
            }
            proof {
                assert(decreases_to!(*a => x.arguments));
            }
            same_expressions(&x.arguments, &y.arguments)
        },
        (TypeExpression::TraitRequirement(x), TypeExpression::TraitRequirement(y)) =>
            same_binder(&x.binder, &y.binder) && same_ids(&x.required_traits, &y.required_traits),
        _ => false,
    }
}

/// Structural equality of two expression sequences.
pub fn same_expressions(a: &Vec<TypeExpression>, b: &Vec<TypeExpression>) -> (r: bool)
    ensures
        r == (exprs_view(a@) == exprs_view(b@)),
    decreases a,
{
    proof {
        super::reify::lemma_exprs_view(a@);
        super::reify::lemma_exprs_view(b@);
    }
    if a.len() != b.len() {
        return false;
    }
    let mut i: usize = 0;
    while i < a.len()
        invariant
            a@.len() == b@.len(),
            i <= a@.len(),
            exprs_view(a@).len() == a@.len(),
            exprs_view(b@).len() == b@.len(),
            forall|k: int| 0 <= k < a@.len() ==> #[trigger] exprs_view(a@)[k] == expr_view(a@[k]),
            forall|k: int| 0 <= k < b@.len() ==> #[trigger] exprs_view(b@)[k] == expr_view(b@[k]),
            forall|k: int| 0 <= k < i ==> exprs_view(a@)[k] == exprs_view(b@)[k],
        decreases a@.len() - i,
    {
        proof {
            assert(decreases_to!(*a => a@));
            assert(decreases_to!(a@ => a@[i as int]));
        }
        if !same_expression(&a[i], &b[i]) {
            assert(exprs_view(a@)[i as int] != exprs_view(b@)[i as int]);
            return false;
        }
        i = i + 1;
    }
    proof {
        assert(exprs_view(a@) =~= exprs_view(b@));
    }
    true
}

fn find_stream_exec<'b>(streams: &Vec<&'b StreamInitiationDeclaration>, name: EncodedName) -> (r: Option<&'b StreamInitiationDeclaration>)
    ensures
        match (r, find_stream(streams@.map_values(|s: &StreamInitiationDeclaration| stream_decl_view(*s)), name)) {
            (Some(s), Some(v)) => stream_decl_view(*s) == v,
            (None, None) => true,
            _ => false,
        },
{
    let ghost v = streams@.map_values(|s: &StreamInitiationDeclaration| stream_decl_view(*s));
    let mut i: usize = 0;
    proof {
        assert(v.subrange(0, v.len() as int) =~= v);
    }
    while i < streams.len()
        invariant
            v == streams@.map_values(|s: &StreamInitiationDeclaration| stream_decl_view(*s)),
            i <= streams@.len(),
            find_stream(v, name) == find_stream(v.subrange(i as int, v.len() as int), name),
        decreases streams@.len() - i,
    {
        let ghost rest = v.subrange(i as int, v.len() as int);
        proof {
            assert(rest[0] == stream_decl_view(*streams@[i as int]));
            assert(rest.subrange(1, rest.len() as int) =~= v.subrange(i + 1, v.len() as int));
        }
        if streams[i].name == name {
            return Some(streams[i]);
        }
        i = i + 1;
    }
    None
}

fn check_generation_exec(
    ctx: &PreparedContext,
    progress: &mut ProgressTracker,
    outputs: &Vec<EncodedName>,
    g: &PreparedStreamGeneration,
) -> (r: bool)
    requires
        ctx.wf(),
    ensures
        progress_outcome(r, check_generation(ctx.env(), old(progress).view(), outputs@, *g), final(progress).view()),
{
    let authored = match find_stream_exec(progress.streams(), g.output.name) {
        Some(a) => a,
        None => {
            return false;
        },
    };
    if contains_identity(outputs, g.output.name) {
        return false;
    }
    if !same_expression(&g.initiation.query, &authored.query) {
        return false;
    }
    if g.output.stream_of_event.shape != ctx.ids.stream_shape {
        return false;
    }
    if g.output.stream_of_event.arguments.len() != 1 {
        return false;
    }
    if !same_expression(&g.output.stream_of_event.arguments[0], &authored.event) {
        return false;
    }
    if g.termination.stream_handle != authored.name || g.initiation.name == g.output.name
        || g.initiation.name == g.termination.name || g.output.name == g.termination.name {
        return false;
    }
    if !expect_declaration(ctx, progress, g.initiation.name, SchemaRole::Nominal { persistent: false }, None) {
        return false;
    }
    if !expect_declaration(ctx, progress, g.termination.name, SchemaRole::Nominal { persistent: false }, None) {
        return false;
    }
    let relations = &g.role_relations;
    let ok = relations[0] == (InterfaceRoleMembership { role: InterfaceRole::Input, target: g.initiation.name })
        && relations[1] == (InterfaceRoleMembership { role: InterfaceRole::Output, target: g.output.name })
        && relations[2] == (InterfaceRoleMembership { role: InterfaceRole::Input, target: g.termination.name });
    proof {
        if ok {
            assert(g.role_relations@ =~= stream_relations(*g));
        } else {
            assert(g.role_relations@ != stream_relations(*g)) by {
                if g.role_relations@ == stream_relations(*g) {
                    assert(g.role_relations@[0] == stream_relations(*g)[0]);
                    assert(g.role_relations@[1] == stream_relations(*g)[1]);
                    assert(g.role_relations@[2] == stream_relations(*g)[2]);
                }
            }
        }
    }
    ok
}

/// Check the generated Streams; see [`check_streams`].
pub fn check_streams_exec(ctx: &PreparedContext, progress: &mut ProgressTracker, generated: &Vec<PreparedStreamGeneration>) -> (r: bool)
    requires
        ctx.wf(),
    ensures
        progress_outcome(r, check_streams(ctx.env(), old(progress).view(), generated@), final(progress).view()),
{
    let ghost env = ctx.env();
    let ghost gs = generated@;
    let ghost p0 = progress.view();
    if generated.len() != progress.streams().len() {
        return false;
    }
    let mut outputs: Vec<EncodedName> = Vec::new();
    let mut i: usize = 0;
    proof {
        assert(gs.subrange(0, gs.len() as int) =~= gs);
    }
    while i < generated.len()
        invariant
            ctx.wf(),
            env == ctx.env(),
            gs == generated@,
            i <= gs.len(),
            p0 == old(progress).view(),
            outputs@ == generation_outputs(gs).subrange(0, i as int),
            check_generations(env, p0, Seq::empty(), gs) == check_generations(env, progress.view(), outputs@, gs.subrange(i as int, gs.len() as int)),
        decreases gs.len() - i,
    {
        let ghost rest = gs.subrange(i as int, gs.len() as int);
        proof {
            assert(rest[0] == gs[i as int]);
            assert(rest.subrange(1, rest.len() as int) =~= gs.subrange(i + 1, gs.len() as int));
        }
        let ghost pv = progress.view();
        if !check_generation_exec(ctx, progress, &outputs, &generated[i]) {
            assert(check_generations(env, pv, outputs@, rest) is None);
            return false;
        }
        outputs.push(generated[i].output.name);
        proof {
            assert(outputs@ =~= generation_outputs(gs).subrange(0, i + 1));
        }
        i = i + 1;
    }
    proof {
        assert(gs.subrange(i as int, gs.len() as int) =~= Seq::<PreparedStreamGeneration>::empty());
        assert(generation_outputs(gs).subrange(0, i as int) =~= generation_outputs(gs));
    }
    check_sorted(ctx.order, outputs.as_slice())
}


// ---------------------------------------------------------------------------
// Schema additions, dispositions, and the canonical order
// ---------------------------------------------------------------------------

/// The schema additions are exactly the new declared identities.
pub open spec fn additions_exact(additions: IdentitySchemaCatalog, expected: Seq<EncodedName>) -> bool {
    &&& forall|i: int| 0 <= i < additions.spec_entries().len() ==> expected.contains(#[trigger] additions.spec_entries()[i].spec_identity())
    &&& forall|j: int| 0 <= j < expected.len() ==> additions.spec_contains(#[trigger] expected[j])
}

/// Whether the additions are exactly the expected new identities.
pub fn check_additions(additions: &IdentitySchemaCatalog, expected: &Vec<EncodedName>) -> (r: bool)
    requires
        additions.wf(),
    ensures
        r == additions_exact(*additions, expected@),
{
    let entries = additions.entries();
    let mut i: usize = 0;
    while i < entries.len()
        invariant
            entries@ == additions.spec_entries(),
            i <= entries@.len(),
            forall|k: int| 0 <= k < i ==> expected@.contains(#[trigger] additions.spec_entries()[k].spec_identity()),
        decreases entries@.len() - i,
    {
        if !contains_identity(expected, entries[i].identity()) {
            return false;
        }
        i = i + 1;
    }
    let mut j: usize = 0;
    while j < expected.len()
        invariant
            additions.wf(),
            j <= expected@.len(),
            forall|k: int| 0 <= k < i ==> expected@.contains(#[trigger] additions.spec_entries()[k].spec_identity()),
            i == additions.spec_entries().len(),
            forall|k: int| 0 <= k < j ==> additions.spec_contains(#[trigger] expected@[k]),
        decreases expected@.len() - j,
    {
        if !additions.contains(expected[j]) {
            return false;
        }
        j = j + 1;
    }
    true
}

/// One authority disposition against the reader's catalog: a reuse names a
/// catalogued non-prior identity with unchanged bytes and no addition; a
/// mint names an identity unknown to the catalog, added here with exactly
/// its supplied bytes.
pub open spec fn disposition_ok(
    catalog: BootstrapCatalog,
    additions: IdentitySchemaCatalog,
    order: CanonicalIdentityOrder,
    d: AssignedIdentity,
) -> bool {
    let id = d.encoded_name;
    match disposition_view(d.disposition) {
        None => {
            &&& !is_prior_identity(catalog.spec_priors(), id)
            &&& catalog.spec_schemas().spec_contains(id)
            &&& !additions.spec_contains(id)
            &&& order.spec_bytes(id) == catalog.spec_canonical_order().spec_bytes(id)
        },
        Some(bytes) => {
            &&& !catalog.spec_schemas().spec_contains(id)
            &&& !catalog.spec_metadata().spec_has(id)
            &&& !catalog.spec_canonical_order().spec_contains(id)
            &&& additions.spec_contains(id)
            &&& order.spec_bytes(id) == Some(bytes)
        },
    }
}

pub open spec fn disposition_identities(ds: Seq<AssignedIdentity>) -> Seq<EncodedName> {
    ds.map_values(|d: AssignedIdentity| d.encoded_name)
}

/// The (identity, bytes) pairs minted by the dispositions, in order.
pub open spec fn minted_entries(ds: Seq<AssignedIdentity>) -> Seq<(EncodedName, Seq<u8>)>
    decreases ds.len(),
{
    if ds.len() == 0 {
        Seq::empty()
    } else {
        minted_entries(ds.drop_last()) + match disposition_view(ds.last().disposition) {
            Some(bytes) => seq![(ds.last().encoded_name, bytes)],
            None => Seq::empty(),
        }
    }
}

/// Two pair sequences hold the same pairs.
pub open spec fn same_pairs(a: Seq<(EncodedName, Seq<u8>)>, b: Seq<(EncodedName, Seq<u8>)>) -> bool {
    &&& forall|i: int| 0 <= i < a.len() ==> b.contains(#[trigger] a[i])
    &&& forall|j: int| 0 <= j < b.len() ==> a.contains(#[trigger] b[j])
}

/// The dispositions name each declared identity once and nothing else, each
/// is admissible, and the prepared canonical order is exactly the catalog's
/// order extended by the minted bytes.
pub open spec fn dispositions_exact(
    catalog: BootstrapCatalog,
    additions: IdentitySchemaCatalog,
    order: CanonicalIdentityOrder,
    ds: Seq<AssignedIdentity>,
    declared: Seq<EncodedName>,
) -> bool {
    let expected = entry_pairs(catalog.spec_canonical_order().spec_entries()) + minted_entries(ds);
    &&& distinct_ids(disposition_identities(ds))
    &&& forall|i: int| 0 <= i < ds.len() ==> declared.contains(#[trigger] ds[i].encoded_name)
    &&& forall|j: int| 0 <= j < declared.len() ==> disposition_identities(ds).contains(#[trigger] declared[j])
    &&& forall|i: int| 0 <= i < ds.len() ==> disposition_ok(catalog, additions, order, #[trigger] ds[i])
    &&& canonical_pairs_valid(expected)
    &&& same_pairs(entry_pairs(order.spec_entries()), expected)
}

fn pairs_contain(entries: &[CanonicalIdentityEntry], id: EncodedName, bytes: &Vec<u8>) -> (r: bool)
    ensures
        r == entry_pairs(entries@).contains((id, bytes@)),
{
    let ghost p = entry_pairs(entries@);
    let mut i: usize = 0;
    while i < entries.len()
        invariant
            p == entry_pairs(entries@),
            p.len() == entries@.len(),
            i <= entries@.len(),
            forall|k: int| 0 <= k < i ==> p[k] != (id, bytes@),
        decreases entries@.len() - i,
    {
        if entries[i].identity == id && super::catalog::bytes_equal(entries[i].bytes.as_slice(), bytes.as_slice()) {
            assert(p[i as int] == (id, bytes@));
            return true;
        }
        i = i + 1;
    }
    false
}

fn same_pairs_exec(a: &[CanonicalIdentityEntry], b: &[CanonicalIdentityEntry]) -> (r: bool)
    ensures
        r == same_pairs(entry_pairs(a@), entry_pairs(b@)),
{
    let ghost pa = entry_pairs(a@);
    let ghost pb = entry_pairs(b@);
    let mut i: usize = 0;
    while i < a.len()
        invariant
            pa == entry_pairs(a@),
            pb == entry_pairs(b@),
            pa.len() == a@.len(),
            i <= a@.len(),
            forall|k: int| 0 <= k < i ==> pb.contains(#[trigger] pa[k]),
        decreases a@.len() - i,
    {
        if !pairs_contain(b, a[i].identity, &a[i].bytes) {
            assert(pa[i as int] == (a@[i as int].identity, a@[i as int].bytes@));
            return false;
        }
        assert(pa[i as int] == (a@[i as int].identity, a@[i as int].bytes@));
        i = i + 1;
    }
    let mut j: usize = 0;
    while j < b.len()
        invariant
            pa == entry_pairs(a@),
            pb == entry_pairs(b@),
            pb.len() == b@.len(),
            pa.len() == a@.len(),
            i == a@.len(),
            forall|k: int| 0 <= k < i ==> pb.contains(#[trigger] pa[k]),
            j <= b@.len(),
            forall|k: int| 0 <= k < j ==> pa.contains(#[trigger] pb[k]),
        decreases b@.len() - j,
    {
        if !pairs_contain(a, b[j].identity, &b[j].bytes) {
            assert(pb[j as int] == (b@[j as int].identity, b@[j as int].bytes@));
            return false;
        }
        assert(pb[j as int] == (b@[j as int].identity, b@[j as int].bytes@));
        j = j + 1;
    }
    true
}

fn disposition_ok_exec(
    catalog: &BootstrapCatalog,
    additions: &IdentitySchemaCatalog,
    order: &CanonicalIdentityOrder,
    d: &AssignedIdentity,
) -> (r: bool)
    requires
        catalog.wf(),
        additions.wf(),
        order.wf(),
    ensures
        r == disposition_ok(*catalog, *additions, *order, *d),
{
    let id = d.encoded_name;
    match &d.disposition {
        IdentityDisposition::Existing => {
            !catalog.priors().is_fixed_identity(id) && catalog.schemas().contains(id) && !additions.contains(id)
                && same_bytes(order.bytes(id), catalog.canonical_order().bytes(id))
        },
        IdentityDisposition::New { canonical_bytes } => {
            !catalog.schemas().contains(id) && !catalog.metadata().contains(id) && !catalog.canonical_order().contains(id)
                && additions.contains(id) && match order.bytes(id) {
                    Some(b) => super::catalog::bytes_equal(b.as_slice(), canonical_bytes.as_slice()),
                    None => false,
                }
        },
    }
}

fn same_bytes(a: Option<&Vec<u8>>, b: Option<&Vec<u8>>) -> (r: bool)
    ensures
        r == (match (a, b) {
            (Some(x), Some(y)) => x@ == y@,
            (None, None) => true,
            _ => false,
        }),
{
    match (a, b) {
        (Some(x), Some(y)) => super::catalog::bytes_equal(x.as_slice(), y.as_slice()),
        (None, None) => true,
        _ => false,
    }
}


/// Whether no identity repeats.
pub fn check_distinct(ids: &Vec<EncodedName>) -> (r: bool)
    ensures
        r == distinct_ids(ids@),
{
    let mut j: usize = 0;
    while j < ids.len()
        invariant
            j <= ids@.len(),
            forall|a: int, b: int| 0 <= a < b < j ==> ids@[a] != ids@[b],
        decreases ids@.len() - j,
    {
        let mut i: usize = 0;
        while i < j
            invariant
                i <= j,
                j < ids@.len(),
                forall|a: int| 0 <= a < i ==> ids@[a] != ids@[j as int],
            decreases j - i,
        {
            if ids[i] == ids[j] {
                return false;
            }
            i = i + 1;
        }
        j = j + 1;
    }
    true
}

/// Whether the dispositions are exact; see [`dispositions_exact`].
pub fn check_dispositions(
    catalog: &BootstrapCatalog,
    additions: &IdentitySchemaCatalog,
    order: &CanonicalIdentityOrder,
    ds: &Vec<AssignedIdentity>,
    declared: &Vec<EncodedName>,
) -> (r: bool)
    requires
        catalog.wf(),
        additions.wf(),
        order.wf(),
    ensures
        r == dispositions_exact(*catalog, *additions, *order, ds@, declared@),
{
    let ghost dids = disposition_identities(ds@);
    let mut identities: Vec<EncodedName> = Vec::new();
    let mut adds: Vec<CanonicalIdentityEntry> = Vec::new();
    let mut i: usize = 0;
    while i < ds.len()
        invariant
            catalog.wf(),
            additions.wf(),
            order.wf(),
            i <= ds@.len(),
            dids == disposition_identities(ds@),
            identities@ == dids.subrange(0, i as int),
            entry_pairs(adds@) == minted_entries(ds@.subrange(0, i as int)),
            forall|k: int| 0 <= k < i ==> declared@.contains(#[trigger] ds@[k].encoded_name),
            forall|k: int| 0 <= k < i ==> disposition_ok(*catalog, *additions, *order, #[trigger] ds@[k]),
        decreases ds@.len() - i,
    {
        let d = &ds[i];
        if !contains_identity(declared, d.encoded_name) {
            return false;
        }
        if !disposition_ok_exec(catalog, additions, order, d) {
            return false;
        }
        identities.push(d.encoded_name);
        let ghost before = adds@;
        proof {
            assert(ds@.subrange(0, i + 1).drop_last() =~= ds@.subrange(0, i as int));
            assert(ds@.subrange(0, i + 1).last() == ds@[i as int]);
        }
        match &d.disposition {
            IdentityDisposition::New { canonical_bytes } => {
                adds.push(CanonicalIdentityEntry { identity: d.encoded_name, bytes: canonical_bytes.clone() });
                proof {
                    assert(entry_pairs(adds@) =~= entry_pairs(before) + seq![(d.encoded_name, canonical_bytes@)]);
                }
            },
            IdentityDisposition::Existing => {},
        }
        proof {
            assert(identities@ =~= dids.subrange(0, i + 1));
        }
        i = i + 1;
    }
    proof {
        assert(ds@.subrange(0, i as int) =~= ds@);
        assert(dids.subrange(0, i as int) =~= dids);
    }
    if !check_distinct(&identities) {
        return false;
    }
    let mut j: usize = 0;
    while j < declared.len()
        invariant
            j <= declared@.len(),
            identities@ == dids,
            dids == disposition_identities(ds@),
            forall|k: int| 0 <= k < j ==> dids.contains(#[trigger] declared@[k]),
        decreases declared@.len() - j,
    {
        if !contains_identity(&identities, declared[j]) {
            return false;
        }
        j = j + 1;
    }
    let ghost base = catalog.spec_canonical_order().spec_entries();
    let ghost adds_view = adds@;
    let exact = match catalog.canonical_order().extended(adds) {
        Ok(o) => o,
        Err(_) => {
            proof {
                lemma_entry_pairs_valid(base + adds_view);
                assert(entry_pairs(base + adds_view) =~= entry_pairs(base) + entry_pairs(adds_view));
            }
            return false;
        },
    };
    proof {
        lemma_entry_pairs_valid(base + adds_view);
        assert(entry_pairs(base + adds_view) =~= entry_pairs(base) + entry_pairs(adds_view));
        assert(entry_pairs(exact.spec_entries()) =~= entry_pairs(base + adds_view));
    }
    same_pairs_exec(order.entries(), exact.entries())
}


// ---------------------------------------------------------------------------
// Writer visibility: every reference spells back to its own identity
// ---------------------------------------------------------------------------

/// `identity` has a spelling, and resolving that spelling in `namespace`
/// from the current module gives `identity` back.
pub open spec fn visible(env: SealEnv, identity: EncodedName, namespace: ReferenceNamespace) -> bool {
    match env.snapshot.spec_spelling(identity) {
        None => false,
        Some(n) => resolution(env.ids, env.snapshot, env.existing, env.additions, env.order,
            local_candidates(env.locals, n), env.imported, n, namespace) == Some(identity),
    }
}

pub open spec fn expr_visible(env: SealEnv, e: ExprView) -> bool
    decreases e,
{
    match e {
        ExprView::Reference(id) => visible(env, id, ReferenceNamespace::Nominal),
        ExprView::Shape(shape, args) => visible(env, shape, ReferenceNamespace::Shape) && exprs_visible(env, args),
        ExprView::Requirement(_, traits) => forall|i: int| 0 <= i < traits.len() ==> visible(env, #[trigger] traits[i], ReferenceNamespace::Trait),
    }
}

pub open spec fn exprs_visible(env: SealEnv, es: Seq<ExprView>) -> bool
    decreases es,
{
    if es.len() == 0 {
        true
    } else {
        expr_visible(env, es[0]) && exprs_visible(env, es.subrange(1, es.len() as int))
    }
}

pub open spec fn variant_visible(env: SealEnv, v: VariantView) -> bool {
    match v.body {
        VariantBodyView::Unit => true,
        VariantBodyView::Unary(e) => expr_visible(env, e),
        VariantBodyView::Product(fs) => exprs_visible(env, fs),
    }
}

pub open spec fn type_decl_visible(env: SealEnv, d: TypeDeclView) -> bool {
    match d.body {
        TypeBodyView::Newtype(e) => expr_visible(env, e),
        TypeBodyView::Struct(fs) => exprs_visible(env, fs),
        TypeBodyView::Enum(vs) => forall|i: int| 0 <= i < vs.len() ==> variant_visible(env, #[trigger] vs[i]),
    }
}

pub open spec fn decl_visible(env: SealEnv, d: DeclView) -> bool {
    match d {
        DeclView::Type(t) => type_decl_visible(env, t),
        DeclView::Stream(s) => expr_visible(env, s.query) && expr_visible(env, s.event),
    }
}

pub open spec fn role_entry_visible(env: SealEnv, e: RoleEntryView) -> bool {
    match e {
        RoleEntryView::Declaration(d) => type_decl_visible(env, d),
        RoleEntryView::Reference(id) => visible(env, id, ReferenceNamespace::Nominal),
    }
}

pub open spec fn trait_visible(env: SealEnv, t: TraitDeclView) -> bool {
    forall|i: int| 0 <= i < t.methods.len() ==> exprs_visible(env, (#[trigger] t.methods[i]).parameters)
        && expr_visible(env, t.methods[i].return_type)
}

pub open spec fn table_visible(env: SealEnv, t: TableDeclaration) -> bool {
    visible(env, t.record_type, ReferenceNamespace::Nominal) && visible(env, t.key_type, ReferenceNamespace::Nominal)
}

/// Every reference position of a body spells back to its identity.
pub open spec fn body_visible(env: SealEnv, b: BodyView) -> bool {
    match b {
        BodyView::Interface { inputs, outputs, refusals, types, memberships } => {
            &&& forall|i: int| 0 <= i < inputs.len() ==> role_entry_visible(env, #[trigger] inputs[i])
            &&& forall|i: int| 0 <= i < outputs.len() ==> role_entry_visible(env, #[trigger] outputs[i])
            &&& forall|i: int| 0 <= i < refusals.len() ==> role_entry_visible(env, #[trigger] refusals[i])
            &&& forall|i: int| 0 <= i < types.len() ==> decl_visible(env, #[trigger] types[i])
            &&& forall|i: int| 0 <= i < memberships.len() ==> visible(env, (#[trigger] memberships[i]).target, ReferenceNamespace::Nominal)
        },
        BodyView::Nexus { traits, types } => {
            &&& forall|i: int| 0 <= i < traits.len() ==> trait_visible(env, #[trigger] traits[i])
            &&& forall|i: int| 0 <= i < types.len() ==> decl_visible(env, #[trigger] types[i])
        },
        BodyView::Sema { records, tables } => {
            &&& forall|i: int| 0 <= i < records.len() ==> type_decl_visible(env, #[trigger] records[i])
            &&& forall|i: int| 0 <= i < tables.len() ==> table_visible(env, #[trigger] tables[i])
        },
    }
}

/// Every reference of a generated Stream spells back to its identity.
pub open spec fn generation_visible(env: SealEnv, g: PreparedStreamGeneration) -> bool {
    &&& visible(env, g.output.stream_of_event.shape, ReferenceNamespace::Shape)
    &&& exprs_visible(env, exprs_view(g.output.stream_of_event.arguments@))
    &&& visible(env, g.termination.stream_handle, ReferenceNamespace::Nominal)
    &&& forall|i: int| 0 <= i < 3 ==> visible(env, (#[trigger] g.role_relations@[i]).target, ReferenceNamespace::Nominal)
}

/// Whether `identity` spells back to itself.
pub fn visible_exec(env: &SealEnvironment, identity: EncodedName, namespace: ReferenceNamespace) -> (r: bool)
    requires
        env.wf(),
    ensures
        r == visible(env.view(), identity, namespace),
{
    let name = match env.snapshot.spelling(identity) {
        Some(n) => n,
        None => {
            return false;
        },
    };
    let local = env.local_candidates(name.as_str());
    match resolve_visible_identity(env.priors, env.snapshot, env.existing, env.additions, env.order, &local, &env.imported,
        name.as_str(), namespace) {
        Ok(x) => x == identity,
        Err(_) => false,
    }
}

#[verifier::loop_isolation(false)]
pub fn expr_visible_exec(env: &SealEnvironment, e: &TypeExpression) -> (r: bool)
    requires
        env.wf(),
    ensures
        r == expr_visible(env.view(), expr_view(*e)),
    decreases e,
{
    match e {
        TypeExpression::Reference(id) => {
            assert(expr_view(*e) == ExprView::Reference(*id));
            let r = visible_exec(env, *id, ReferenceNamespace::Nominal);
            assert(r == visible(env.view(), *id, ReferenceNamespace::Nominal));
            assert(expr_visible(env.view(), ExprView::Reference(*id)) == visible(env.view(), *id, ReferenceNamespace::Nominal));
            r
        },
        TypeExpression::ShapeApplication(a) => {
            assert(expr_view(*e) == ExprView::Shape(a.shape, exprs_view(a.arguments@)));
            if !visible_exec(env, a.shape, ReferenceNamespace::Shape) {
                return false;
            }
            proof {
                assert(decreases_to!(*e => a.arguments));
            }
            exprs_visible_exec(env, &a.arguments)
        },
        TypeExpression::TraitRequirement(t) => {
            let ghost ev = expr_view(*e);
            assert(ev == ExprView::Requirement(binder_view(t.binder), t.required_traits@));
            let mut i: usize = 0;
            while i < t.required_traits.len()
                invariant
                    env.wf(),
                    i <= t.required_traits@.len(),
                    forall|k: int| 0 <= k < i ==> visible(env.view(), #[trigger] t.required_traits@[k], ReferenceNamespace::Trait),
                decreases t.required_traits@.len() - i,
            {
                if !visible_exec(env, t.required_traits[i], ReferenceNamespace::Trait) {
                    proof {
                        lemma_requirement_visible(env.view(), binder_view(t.binder), t.required_traits@, i as int);
                    }
                    return false;
                }
                i = i + 1;
            }
            assert(expr_visible(env.view(), ev));
            true
        },
    }
}

pub fn exprs_visible_exec(env: &SealEnvironment, es: &Vec<TypeExpression>) -> (r: bool)
    requires
        env.wf(),
    ensures
        r == exprs_visible(env.view(), exprs_view(es@)),
    decreases es,
{
    let ghost v = exprs_view(es@);
    proof {
        super::reify::lemma_exprs_view(es@);
        assert(v.subrange(0, v.len() as int) =~= v);
    }
    let mut i: usize = 0;
    while i < es.len()
        invariant
            env.wf(),
            i <= es@.len(),
            v == exprs_view(es@),
            v.len() == es@.len(),
            forall|k: int| 0 <= k < es@.len() ==> #[trigger] v[k] == expr_view(es@[k]),
            exprs_visible(env.view(), v) == exprs_visible(env.view(), v.subrange(i as int, v.len() as int)),
        decreases es@.len() - i,
    {
        let ghost rest = v.subrange(i as int, v.len() as int);
        proof {
            assert(decreases_to!(*es => es@));
            assert(decreases_to!(es@ => es@[i as int]));
            assert(rest[0] == v[i as int]);
            assert(v[i as int] == expr_view(es@[i as int]));
            assert(rest.subrange(1, rest.len() as int) =~= v.subrange(i + 1, v.len() as int));
        }
        if !expr_visible_exec(env, &es[i]) {
            return false;
        }
        i = i + 1;
    }
    proof {
        assert(v.subrange(i as int, v.len() as int) =~= Seq::<ExprView>::empty());
    }
    true
}

} // verus!
verus! {
proof fn lemma_requirement_visible(env: SealEnv, b: BinderView, traits: Seq<EncodedName>, i: int)
    requires
        0 <= i < traits.len(),
        !visible(env, traits[i], ReferenceNamespace::Trait),
    ensures
        !expr_visible(env, ExprView::Requirement(b, traits)),
{
    let e = ExprView::Requirement(b, traits);
    assert(e matches ExprView::Requirement(_, ts) && ts == traits);
    reveal_with_fuel(expr_visible, 2);
    if expr_visible(env, e) {
        assert(forall|k: int| 0 <= k < traits.len() ==> visible(env, #[trigger] traits[k], ReferenceNamespace::Trait));
        assert(visible(env, traits[i], ReferenceNamespace::Trait));
    }
}

fn variant_visible_exec(env: &SealEnvironment, v: &VariantDeclaration) -> (r: bool)
    requires
        env.wf(),
    ensures
        r == variant_visible(env.view(), variant_view(*v)),
{
    match &v.body {
        VariantBody::Unit => true,
        VariantBody::Unary(e) => expr_visible_exec(env, e),
        VariantBody::Product(fs) => exprs_visible_exec(env, fs),
    }
}

proof fn lemma_enum_invisible(env: SealEnv, td: TypeDeclView, views: Seq<VariantView>, i: int)
    requires
        td.body == TypeBodyView::Enum(views),
        0 <= i < views.len(),
        !variant_visible(env, views[i]),
    ensures
        !type_decl_visible(env, td),
{
    assert(td.body is Enum);
    let vs = td.body->Enum_0;
    assert(vs == views);
    assert(type_decl_visible(env, td) == (forall|k: int| 0 <= k < vs.len() ==> variant_visible(env, #[trigger] vs[k])));
}

#[verifier::loop_isolation(false)]
fn type_decl_visible_exec(env: &SealEnvironment, d: &TypeDeclaration) -> (r: bool)
    requires
        env.wf(),
    ensures
        r == type_decl_visible(env.view(), type_decl_view(*d)),
{
    match &d.body {
        TypeBody::Newtype(e) => expr_visible_exec(env, e),
        TypeBody::Struct(fs) => exprs_visible_exec(env, fs),
        TypeBody::Enum(vs) => {
            let ghost views = vs@.map_values(|v: VariantDeclaration| variant_view(v));
            let mut i: usize = 0;
            while i < vs.len()
                invariant
                    env.wf(),
                    i <= vs@.len(),
                    views == vs@.map_values(|v: VariantDeclaration| variant_view(v)),
                    forall|k: int| 0 <= k < i ==> variant_visible(env.view(), #[trigger] views[k]),
                decreases vs@.len() - i,
            {
                if !variant_visible_exec(env, &vs[i]) {
                    assert(views[i as int] == variant_view(vs@[i as int]));
                    assert(!variant_visible(env.view(), views[i as int]));
                    assert(type_decl_view(*d).body == TypeBodyView::Enum(views));
                    proof {
                        lemma_enum_invisible(env.view(), type_decl_view(*d), views, i as int);
                    }
                    return false;
                }
                i = i + 1;
            }
            true
        },
    }
}

fn decl_visible_exec(env: &SealEnvironment, d: &Declaration) -> (r: bool)
    requires
        env.wf(),
    ensures
        r == decl_visible(env.view(), decl_view(*d)),
{
    match d {
        Declaration::Type(t) => type_decl_visible_exec(env, t),
        Declaration::Nomos(NomosDeclaration::StreamInitiation(s)) => expr_visible_exec(env, &s.query) && expr_visible_exec(env, &s.event),
    }
}

fn role_entry_visible_exec(env: &SealEnvironment, e: &RoleEntry) -> (r: bool)
    requires
        env.wf(),
    ensures
        r == role_entry_visible(env.view(), role_entry_view(*e)),
{
    match e {
        RoleEntry::Declaration(d) => type_decl_visible_exec(env, d),
        RoleEntry::Reference(id) => visible_exec(env, *id, ReferenceNamespace::Nominal),
    }
}

#[verifier::loop_isolation(false)]
fn trait_visible_exec(env: &SealEnvironment, t: &TraitDeclaration) -> (r: bool)
    requires
        env.wf(),
    ensures
        r == trait_visible(env.view(), trait_view(*t)),
{
    let ghost views = t.methods@.map_values(|m: MethodDeclaration| method_view(m));
    let mut i: usize = 0;
    while i < t.methods.len()
        invariant
            env.wf(),
            i <= t.methods@.len(),
            views == t.methods@.map_values(|m: MethodDeclaration| method_view(m)),
            forall|k: int| 0 <= k < i ==> exprs_visible(env.view(), (#[trigger] views[k]).parameters)
                && expr_visible(env.view(), views[k].return_type),
        decreases t.methods@.len() - i,
    {
        let m = &t.methods[i];
        if !exprs_visible_exec(env, &m.parameters) || !expr_visible_exec(env, &m.return_type) {
            assert(views[i as int] == method_view(t.methods@[i as int]));
            return false;
        }
        assert(views[i as int] == method_view(t.methods@[i as int]));
        i = i + 1;
    }
    true
}


/// Every reference of a body spells back; see [`body_visible`].
#[verifier::loop_isolation(false)]
pub fn body_visible_exec(env: &SealEnvironment, body: &BootstrapBody) -> (r: bool)
    requires
        env.wf(),
    ensures
        r == body_visible(env.view(), body_view(*body)),
{
    match body {
        BootstrapBody::Interface(b) => {
            let ghost ins = b.inputs@.map_values(|e: RoleEntry| role_entry_view(e));
            let ghost outs = b.outputs@.map_values(|e: RoleEntry| role_entry_view(e));
            let ghost refs = b.refusals@.map_values(|e: RoleEntry| role_entry_view(e));
            let ghost tys = b.types@.map_values(|d: Declaration| decl_view(d));
            proof {
                assert(b.inputs@.map_values(|e: RoleEntry| super::declare::role_entry_view(e)) =~= ins);
                assert(b.outputs@.map_values(|e: RoleEntry| super::declare::role_entry_view(e)) =~= outs);
                assert(b.refusals@.map_values(|e: RoleEntry| super::declare::role_entry_view(e)) =~= refs);
                assert(b.types@.map_values(|d: Declaration| super::declare::decl_view(d)) =~= tys);
            }
            let mut i: usize = 0;
            while i < b.inputs.len()
                invariant
                    i <= b.inputs@.len(),
                    forall|k: int| 0 <= k < i ==> role_entry_visible(env.view(), #[trigger] ins[k]),
                decreases b.inputs@.len() - i,
            {
                if !role_entry_visible_exec(env, &b.inputs[i]) {
                    assert(ins[i as int] == role_entry_view(b.inputs@[i as int]));
                    assert(!role_entry_visible(env.view(), ins[i as int]));
                    assert(body_view(*body) matches BodyView::Interface { inputs, .. } && inputs == ins);
                    assert(!body_visible(env.view(), body_view(*body)));
                    return false;
                }
                i = i + 1;
            }
            let mut i: usize = 0;
            while i < b.outputs.len()
                invariant
                    i <= b.outputs@.len(),
                    forall|k: int| 0 <= k < i ==> role_entry_visible(env.view(), #[trigger] outs[k]),
                decreases b.outputs@.len() - i,
            {
                if !role_entry_visible_exec(env, &b.outputs[i]) {
                    assert(outs[i as int] == role_entry_view(b.outputs@[i as int]));
                    assert(!role_entry_visible(env.view(), outs[i as int]));
                    assert(body_view(*body) matches BodyView::Interface { outputs, .. } && outputs == outs);
                    return false;
                }
                i = i + 1;
            }
            let mut i: usize = 0;
            while i < b.refusals.len()
                invariant
                    i <= b.refusals@.len(),
                    forall|k: int| 0 <= k < i ==> role_entry_visible(env.view(), #[trigger] refs[k]),
                decreases b.refusals@.len() - i,
            {
                if !role_entry_visible_exec(env, &b.refusals[i]) {
                    assert(refs[i as int] == role_entry_view(b.refusals@[i as int]));
                    assert(!role_entry_visible(env.view(), refs[i as int]));
                    assert(body_view(*body) matches BodyView::Interface { refusals, .. } && refusals == refs);
                    return false;
                }
                i = i + 1;
            }
            let mut i: usize = 0;
            while i < b.types.len()
                invariant
                    i <= b.types@.len(),
                    forall|k: int| 0 <= k < i ==> decl_visible(env.view(), #[trigger] tys[k]),
                decreases b.types@.len() - i,
            {
                if !decl_visible_exec(env, &b.types[i]) {
                    assert(tys[i as int] == decl_view(b.types@[i as int]));
                    assert(!decl_visible(env.view(), tys[i as int]));
                    assert(body_view(*body) matches BodyView::Interface { types, .. } && types == tys);
                    return false;
                }
                i = i + 1;
            }
            let mut i: usize = 0;
            while i < b.memberships.len()
                invariant
                    i <= b.memberships@.len(),
                    forall|k: int| 0 <= k < i ==> visible(env.view(), (#[trigger] b.memberships@[k]).target, ReferenceNamespace::Nominal),
                decreases b.memberships@.len() - i,
            {
                if !visible_exec(env, b.memberships[i].target, ReferenceNamespace::Nominal) {
                    assert(body_view(*body) matches BodyView::Interface { memberships, .. } && memberships == b.memberships@);
                    return false;
                }
                i = i + 1;
            }
            true
        },
        BootstrapBody::Nexus(b) => {
            let ghost trs = b.traits@.map_values(|t: TraitDeclaration| trait_view(t));
            let ghost tys = b.types@.map_values(|d: Declaration| decl_view(d));
            proof {
                assert(b.traits@.map_values(|t: TraitDeclaration| super::declare::trait_view(t)) =~= trs);
                assert(b.types@.map_values(|d: Declaration| super::declare::decl_view(d)) =~= tys);
            }
            let mut i: usize = 0;
            while i < b.traits.len()
                invariant
                    i <= b.traits@.len(),
                    forall|k: int| 0 <= k < i ==> trait_visible(env.view(), #[trigger] trs[k]),
                decreases b.traits@.len() - i,
            {
                if !trait_visible_exec(env, &b.traits[i]) {
                    assert(trs[i as int] == trait_view(b.traits@[i as int]));
                    assert(!trait_visible(env.view(), trs[i as int]));
                    assert(body_view(*body) matches BodyView::Nexus { traits, .. } && traits == trs);
                    return false;
                }
                i = i + 1;
            }
            let mut i: usize = 0;
            while i < b.types.len()
                invariant
                    i <= b.types@.len(),
                    forall|k: int| 0 <= k < i ==> decl_visible(env.view(), #[trigger] tys[k]),
                decreases b.types@.len() - i,
            {
                if !decl_visible_exec(env, &b.types[i]) {
                    assert(tys[i as int] == decl_view(b.types@[i as int]));
                    assert(!decl_visible(env.view(), tys[i as int]));
                    assert(body_view(*body) matches BodyView::Nexus { types, .. } && types == tys);
                    return false;
                }
                i = i + 1;
            }
            true
        },
        BootstrapBody::Sema(b) => {
            let ghost rs = b.record_types@.map_values(|d: TypeDeclaration| type_decl_view(d));
            proof {
                assert(b.record_types@.map_values(|d: TypeDeclaration| super::declare::type_decl_view(d)) =~= rs);
            }
            let mut i: usize = 0;
            while i < b.record_types.len()
                invariant
                    i <= b.record_types@.len(),
                    forall|k: int| 0 <= k < i ==> type_decl_visible(env.view(), #[trigger] rs[k]),
                decreases b.record_types@.len() - i,
            {
                if !type_decl_visible_exec(env, &b.record_types[i]) {
                    assert(rs[i as int] == type_decl_view(b.record_types@[i as int]));
                    assert(!type_decl_visible(env.view(), rs[i as int]));
                    assert(body_view(*body) matches BodyView::Sema { records, .. } && records == rs);
                    return false;
                }
                i = i + 1;
            }
            let mut i: usize = 0;
            while i < b.tables.len()
                invariant
                    i <= b.tables@.len(),
                    forall|k: int| 0 <= k < i ==> table_visible(env.view(), #[trigger] b.tables@[k]),
                decreases b.tables@.len() - i,
            {
                let t = &b.tables[i];
                if !visible_exec(env, t.record_type, ReferenceNamespace::Nominal) || !visible_exec(env, t.key_type, ReferenceNamespace::Nominal) {
                    assert(!table_visible(env.view(), b.tables@[i as int]));
                    assert(body_view(*body) matches BodyView::Sema { tables, .. } && tables == b.tables@);
                    return false;
                }
                i = i + 1;
            }
            true
        },
    }
}

/// Every reference of one generated Stream spells back.
pub fn generation_visible_exec(env: &SealEnvironment, g: &PreparedStreamGeneration) -> (r: bool)
    requires
        env.wf(),
    ensures
        r == generation_visible(env.view(), *g),
{
    if !visible_exec(env, g.output.stream_of_event.shape, ReferenceNamespace::Shape) {
        return false;
    }
    if !exprs_visible_exec(env, &g.output.stream_of_event.arguments) {
        return false;
    }
    if !visible_exec(env, g.termination.stream_handle, ReferenceNamespace::Nominal) {
        return false;
    }
    let a = visible_exec(env, g.role_relations[0].target, ReferenceNamespace::Nominal);
    let b = visible_exec(env, g.role_relations[1].target, ReferenceNamespace::Nominal);
    let c = visible_exec(env, g.role_relations[2].target, ReferenceNamespace::Nominal);
    proof {
        if a && b && c {
            assert forall|i: int| 0 <= i < 3 implies visible(env.view(), (#[trigger] g.role_relations@[i]).target, ReferenceNamespace::Nominal) by {
                if i == 0 {
                } else if i == 1 {
                } else {
                }
            }
        }
    }
    a && b && c
}


/// Seat one declared identity as a module-level local when its projection
/// is in the current module with no lexical owner; it must be projected.
pub open spec fn seat(snapshot: TextualMetadataSnapshot, module: Seq<String>, locals: Seq<(Seq<char>, EncodedName)>, id: EncodedName) -> Option<Seq<(Seq<char>, EncodedName)>> {
    match snapshot.spec_record(id) {
        None => None,
        Some(rec) => if same_path(rec.address.module@, module) && rec.address.lexical_owner is None {
            Some(locals.push((rec.address.visible_name@, id)))
        } else {
            Some(locals)
        },
    }
}

pub open spec fn seat_all(snapshot: TextualMetadataSnapshot, module: Seq<String>, locals: Seq<(Seq<char>, EncodedName)>, ids: Seq<EncodedName>) -> Option<Seq<(Seq<char>, EncodedName)>>
    decreases ids.len(),
{
    if ids.len() == 0 {
        Some(locals)
    } else {
        match seat(snapshot, module, locals, ids[0]) {
            None => None,
            Some(l) => seat_all(snapshot, module, l, ids.subrange(1, ids.len() as int)),
        }
    }
}

/// The names of the declarations among role entries, in order.
pub open spec fn role_declared(es: Seq<RoleEntryView>) -> Seq<EncodedName>
    decreases es.len(),
{
    if es.len() == 0 {
        Seq::empty()
    } else {
        role_declared(es.drop_last()) + match es.last() {
            RoleEntryView::Declaration(d) => seq![d.name],
            RoleEntryView::Reference(_) => Seq::empty(),
        }
    }
}

/// The module-level identities a body declares, in body order.
pub open spec fn authored_identities(b: BodyView) -> Seq<EncodedName> {
    match b {
        BodyView::Interface { inputs, outputs, refusals, types, .. } =>
            role_declared(inputs) + role_declared(outputs) + role_declared(refusals) + decl_keys(types),
        BodyView::Nexus { traits, types } => trait_keys(traits) + decl_keys(types),
        BodyView::Sema { records, .. } => type_decl_keys(records),
    }
}

/// The initiation and termination identities of the generated Streams.
pub open spec fn generated_identities(gs: Seq<PreparedStreamGeneration>) -> Seq<EncodedName>
    decreases gs.len(),
{
    if gs.len() == 0 {
        Seq::empty()
    } else {
        generated_identities(gs.drop_last()) + seq![gs.last().initiation.name, gs.last().termination.name]
    }
}

/// Every reference of the body, with the authored module locals, and every
/// reference of the generated Streams, with the generated locals as well,
/// spells back to its own identity.
pub open spec fn writer_visible(
    ids: BootstrapPriorIdentities,
    snapshot: TextualMetadataSnapshot,
    existing: IdentitySchemaCatalog,
    additions: IdentitySchemaCatalog,
    order: CanonicalIdentityOrder,
    module: Seq<String>,
    imported: Seq<(Seq<char>, EncodedName)>,
    b: BodyView,
    gs: Seq<PreparedStreamGeneration>,
) -> bool {
    match seat_all(snapshot, module, Seq::empty(), authored_identities(b)) {
        None => false,
        Some(authored) => match seat_all(snapshot, module, authored, generated_identities(gs)) {
            None => false,
            Some(all) => {
                &&& body_visible(SealEnv { ids, snapshot, existing, additions, order, locals: authored, imported }, b)
                &&& forall|i: int| 0 <= i < gs.len()
                    ==> generation_visible(SealEnv { ids, snapshot, existing, additions, order, locals: all, imported }, #[trigger] gs[i])
            },
        },
    }
}

fn seat_exec(snapshot: &TextualMetadataSnapshot, module: &[String], locals: &mut Vec<ImportBinding>, id: EncodedName) -> (r: bool)
    requires
        snapshot.wf(),
    ensures
        match seat(*snapshot, module@, bindings_view(old(locals)@), id) {
            Some(l) => r && bindings_view(final(locals)@) == l,
            None => !r,
        },
{
    let rec = match snapshot.record(id) {
        Some(r) => r,
        None => {
            return false;
        },
    };
    if paths_equal(rec.address.module.as_slice(), module) && rec.address.lexical_owner.is_none() {
        let ghost before = bindings_view(locals@);
        let name = rec.address.visible_name.clone();
        locals.push(ImportBinding { name, identity: id });
        proof {
            assert(bindings_view(locals@) =~= before.push((rec.address.visible_name@, id)));
        }
    }
    true
}

fn seat_all_exec(snapshot: &TextualMetadataSnapshot, module: &[String], locals: &mut Vec<ImportBinding>, ids: &Vec<EncodedName>) -> (r: bool)
    requires
        snapshot.wf(),
    ensures
        match seat_all(*snapshot, module@, bindings_view(old(locals)@), ids@) {
            Some(l) => r && bindings_view(final(locals)@) == l,
            None => !r,
        },
{
    let ghost l0 = bindings_view(locals@);
    let mut i: usize = 0;
    proof {
        assert(ids@.subrange(0, ids@.len() as int) =~= ids@);
    }
    while i < ids.len()
        invariant
            snapshot.wf(),
            i <= ids@.len(),
            l0 == bindings_view(old(locals)@),
            seat_all(*snapshot, module@, l0, ids@) == seat_all(*snapshot, module@, bindings_view(locals@), ids@.subrange(i as int, ids@.len() as int)),
        decreases ids@.len() - i,
    {
        let ghost rest = ids@.subrange(i as int, ids@.len() as int);
        proof {
            assert(rest[0] == ids@[i as int]);
            assert(rest.subrange(1, rest.len() as int) =~= ids@.subrange(i + 1, ids@.len() as int));
        }
        let ghost lv = bindings_view(locals@);
        if !seat_exec(snapshot, module, locals, ids[i]) {
            assert(seat_all(*snapshot, module@, lv, rest) is None);
            return false;
        }
        i = i + 1;
    }
    proof {
        assert(ids@.subrange(i as int, ids@.len() as int) =~= Seq::<EncodedName>::empty());
    }
    true
}

fn push_role_declared(out: &mut Vec<EncodedName>, entries: &Vec<RoleEntry>)
    ensures
        final(out)@ == old(out)@ + role_declared(entries@.map_values(|e: RoleEntry| role_entry_view(e))),
{
    let ghost es = entries@.map_values(|e: RoleEntry| role_entry_view(e));
    let ghost start = out@;
    let mut i: usize = 0;
    proof {
        assert(es.subrange(0, 0) =~= Seq::<RoleEntryView>::empty());
        assert(start + role_declared(es.subrange(0, 0)) =~= start);
    }
    while i < entries.len()
        invariant
            i <= entries@.len(),
            es == entries@.map_values(|e: RoleEntry| role_entry_view(e)),
            out@ == start + role_declared(es.subrange(0, i as int)),
        decreases entries@.len() - i,
    {
        let ghost next = es.subrange(0, i + 1);
        proof {
            assert(next.drop_last() =~= es.subrange(0, i as int));
            assert(next.last() == role_entry_view(entries@[i as int]));
        }
        match &entries[i] {
            RoleEntry::Declaration(d) => {
                out.push(d.name);
                proof {
                    assert(out@ =~= start + role_declared(next));
                }
            },
            RoleEntry::Reference(_) => {
                proof {
                    assert(role_declared(next) =~= role_declared(es.subrange(0, i as int)));
                }
            },
        }
        i = i + 1;
    }
    proof {
        assert(es.subrange(0, i as int) =~= es);
    }
}

fn authored_identities_exec(body: &BootstrapBody) -> (r: Vec<EncodedName>)
    ensures
        r@ == authored_identities(body_view(*body)),
{
    let mut out: Vec<EncodedName> = Vec::new();
    match body {
        BootstrapBody::Interface(b) => {
            proof {
                assert(b.inputs@.map_values(|e: RoleEntry| super::declare::role_entry_view(e)) =~= b.inputs@.map_values(|e: RoleEntry| role_entry_view(e)));
                assert(b.outputs@.map_values(|e: RoleEntry| super::declare::role_entry_view(e)) =~= b.outputs@.map_values(|e: RoleEntry| role_entry_view(e)));
                assert(b.refusals@.map_values(|e: RoleEntry| super::declare::role_entry_view(e)) =~= b.refusals@.map_values(|e: RoleEntry| role_entry_view(e)));
            }
            push_role_declared(&mut out, &b.inputs);
            push_role_declared(&mut out, &b.outputs);
            push_role_declared(&mut out, &b.refusals);
            let ghost tys = b.types@.map_values(|d: Declaration| decl_view(d));
            let ghost start = out@;
            let mut i: usize = 0;
            while i < b.types.len()
                invariant
                    i <= b.types@.len(),
                    tys == b.types@.map_values(|d: Declaration| decl_view(d)),
                    out@ == start + decl_keys(tys).subrange(0, i as int),
                decreases b.types@.len() - i,
            {
                let k = b.types[i].identity();
                proof {
                    assert(k == decl_keys(tys)[i as int]);
                }
                out.push(k);
                proof {
                    assert(out@ =~= start + decl_keys(tys).subrange(0, i + 1));
                }
                i = i + 1;
            }
            proof {
                assert(decl_keys(tys).subrange(0, i as int) =~= decl_keys(tys));
                assert(b.types@.map_values(|d: Declaration| super::declare::decl_view(d)) =~= tys);
            }
        },
        BootstrapBody::Nexus(b) => {
            let ghost trs = b.traits@.map_values(|t: TraitDeclaration| trait_view(t));
            let mut i: usize = 0;
            while i < b.traits.len()
                invariant
                    i <= b.traits@.len(),
                    trs == b.traits@.map_values(|t: TraitDeclaration| trait_view(t)),
                    out@ == trait_keys(trs).subrange(0, i as int),
                decreases b.traits@.len() - i,
            {
                out.push(b.traits[i].name);
                proof {
                    assert(out@ =~= trait_keys(trs).subrange(0, i + 1));
                }
                i = i + 1;
            }
            let ghost tys = b.types@.map_values(|d: Declaration| decl_view(d));
            let ghost start = out@;
            let mut i: usize = 0;
            while i < b.types.len()
                invariant
                    i <= b.types@.len(),
                    tys == b.types@.map_values(|d: Declaration| decl_view(d)),
                    out@ == start + decl_keys(tys).subrange(0, i as int),
                decreases b.types@.len() - i,
            {
                let k = b.types[i].identity();
                proof {
                    assert(k == decl_keys(tys)[i as int]);
                }
                out.push(k);
                proof {
                    assert(out@ =~= start + decl_keys(tys).subrange(0, i + 1));
                }
                i = i + 1;
            }
            proof {
                assert(decl_keys(tys).subrange(0, i as int) =~= decl_keys(tys));
                assert(trait_keys(trs).subrange(0, trs.len() as int) =~= trait_keys(trs));
                assert(b.types@.map_values(|d: Declaration| super::declare::decl_view(d)) =~= tys);
                assert(b.traits@.map_values(|t: TraitDeclaration| super::declare::trait_view(t)) =~= trs);
            }
        },
        BootstrapBody::Sema(b) => {
            let ghost rs = b.record_types@.map_values(|d: TypeDeclaration| type_decl_view(d));
            let mut i: usize = 0;
            while i < b.record_types.len()
                invariant
                    i <= b.record_types@.len(),
                    rs == b.record_types@.map_values(|d: TypeDeclaration| type_decl_view(d)),
                    out@ == type_decl_keys(rs).subrange(0, i as int),
                decreases b.record_types@.len() - i,
            {
                out.push(b.record_types[i].name);
                proof {
                    assert(out@ =~= type_decl_keys(rs).subrange(0, i + 1));
                }
                i = i + 1;
            }
            proof {
                assert(type_decl_keys(rs).subrange(0, i as int) =~= type_decl_keys(rs));
                assert(b.record_types@.map_values(|d: TypeDeclaration| super::declare::type_decl_view(d)) =~= rs);
            }
        },
    }
    out
}

fn generated_identities_exec(gs: &Vec<PreparedStreamGeneration>) -> (r: Vec<EncodedName>)
    ensures
        r@ == generated_identities(gs@),
{
    let mut out: Vec<EncodedName> = Vec::new();
    let mut i: usize = 0;
    proof {
        assert(gs@.subrange(0, 0) =~= Seq::<PreparedStreamGeneration>::empty());
    }
    while i < gs.len()
        invariant
            i <= gs@.len(),
            out@ == generated_identities(gs@.subrange(0, i as int)),
        decreases gs@.len() - i,
    {
        let ghost next = gs@.subrange(0, i + 1);
        proof {
            assert(next.drop_last() =~= gs@.subrange(0, i as int));
            assert(next.last() == gs@[i as int]);
        }
        out.push(gs[i].initiation.name);
        out.push(gs[i].termination.name);
        proof {
            assert(out@ =~= generated_identities(next));
        }
        i = i + 1;
    }
    proof {
        assert(gs@.subrange(0, i as int) =~= gs@);
    }
    out
}


/// Check the whole writer visibility; see [`writer_visible`].
#[verifier::loop_isolation(false)]
pub fn check_writer_visibility(
    priors: &BootstrapPriorVocabulary,
    snapshot: &TextualMetadataSnapshot,
    existing: &IdentitySchemaCatalog,
    additions: &IdentitySchemaCatalog,
    order: &CanonicalIdentityOrder,
    module: &[String],
    imported: Vec<ImportBinding>,
    body: &BootstrapBody,
    generated: &Vec<PreparedStreamGeneration>,
) -> (r: bool)
    requires
        snapshot.wf(),
        existing.wf(),
        additions.wf(),
        order.wf(),
    ensures
        r == writer_visible(priors.spec_identities(), *snapshot, *existing, *additions, *order, module@,
            bindings_view(imported@), body_view(*body), generated@),
{
    let authored_ids = authored_identities_exec(body);
    let mut authored: Vec<ImportBinding> = Vec::new();
    proof {
        assert(bindings_view(authored@) =~= Seq::<(Seq<char>, EncodedName)>::empty());
    }
    if !seat_all_exec(snapshot, module, &mut authored, &authored_ids) {
        return false;
    }
    let generated_ids = generated_identities_exec(generated);
    let mut all: Vec<ImportBinding> = Vec::new();
    proof {
        assert(bindings_view(all@) =~= Seq::<(Seq<char>, EncodedName)>::empty());
    }
    let seated_again = seat_all_exec(snapshot, module, &mut all, &authored_ids);
    assert(seated_again);
    if !seat_all_exec(snapshot, module, &mut all, &generated_ids) {
        return false;
    }
    let mut env = SealEnvironment { priors, snapshot, existing, additions, order, locals: authored, imported };
    if !body_visible_exec(&env, body) {
        return false;
    }
    let ghost imported_view = bindings_view(env.imported@);
    env.locals = all;
    let mut i: usize = 0;
    while i < generated.len()
        invariant
            env.wf(),
            i <= generated@.len(),
            forall|k: int| 0 <= k < i ==> generation_visible(env.view(), #[trigger] generated@[k]),
        decreases generated@.len() - i,
    {
        if !generation_visible_exec(&env, &generated[i]) {
            return false;
        }
        i = i + 1;
    }
    true
}

/// Every prior identity keeps a projection.
pub open spec fn priors_projected(ids: BootstrapPriorIdentities, after: TextualMetadataSnapshot) -> bool {
    forall|k: int| 0 <= k < prior_slot_order().len() ==> after.spec_has(prior_identity(ids, #[trigger] prior_slot_order()[k]))
}

/// One source-only import: a valid path, nonempty selectors, and safe
/// names each projected at that module.
pub open spec fn import_valid(after: TextualMetadataSnapshot, e: ImportEntry) -> bool {
    &&& valid_module_path(e.module@)
    &&& e.imported_names@.len() > 0
    &&& forall|j: int| 0 <= j < e.imported_names@.len() ==> safe_bare_name((#[trigger] e.imported_names@[j])@)
        && after.spec_identity_at(path_view(e.module@), None, e.imported_names@[j]@) is Some
}

pub open spec fn imports_valid(after: TextualMetadataSnapshot, imports: Seq<ImportEntry>) -> bool {
    forall|i: int| 0 <= i < imports.len() ==> import_valid(after, #[trigger] imports[i])
}

/// Every projected identity is catalogued and canonically ordered.
pub open spec fn snapshot_in_view(after: TextualMetadataSnapshot, existing: IdentitySchemaCatalog, additions: IdentitySchemaCatalog, order: CanonicalIdentityOrder) -> bool {
    forall|i: int| 0 <= i < after.spec_records().len() ==> {
        let id = (#[trigger] after.spec_records()[i]).encoded_name;
        schema_in_view(existing, additions, id) is Some && order.spec_contains(id)
    }
}

/// The identities with a New disposition, in order.
pub open spec fn minted_identities(ds: Seq<AssignedIdentity>) -> Seq<EncodedName>
    decreases ds.len(),
{
    if ds.len() == 0 {
        Seq::empty()
    } else {
        minted_identities(ds.drop_last()) + match disposition_view(ds.last().disposition) {
            Some(_) => seq![ds.last().encoded_name],
            None => Seq::empty(),
        }
    }
}

/// The body-check environment of a draft against a catalog.
pub open spec fn body_env(catalog: BootstrapCatalog, draft: PreparedBootstrapDraft) -> BodyEnv {
    BodyEnv {
        check: CheckEnv { existing: catalog.spec_schemas(), additions: draft.schema_additions, order: draft.canonical_order },
        snapshot: draft.naming_transition.spec_after(),
        module: catalog.spec_current_module(),
        minted: minted_identities(draft.identity_dispositions@),
        ids: catalog.spec_priors(),
    }
}

/// Every law a sealed draft satisfies: a header matching the body and a
/// supported version, a proposal from exactly the catalog's metadata that
/// keeps every prior projected, valid imports, a projection catalogued and
/// ordered throughout, a body and generated Streams whose every declared
/// identity is exactly disposed, added and ordered, and references that
/// all spell back to their identities.
pub open spec fn prepared_valid(catalog: BootstrapCatalog, draft: PreparedBootstrapDraft) -> bool {
    let after = draft.naming_transition.spec_after();
    let env = body_env(catalog, draft);
    let body = body_view(draft.decoded.document.body);
    &&& draft.decoded.document.header.kind == body_kind(draft.decoded.document.body)
    &&& catalog.spec_versions().spec_supported().contains(draft.decoded.document.header.version)
    &&& same_records(draft.naming_transition.spec_before().spec_records(), catalog.spec_metadata().spec_records())
    &&& priors_projected(catalog.spec_priors(), after)
    &&& imports_valid(after, draft.decoded.source.imports@)
    &&& snapshot_in_view(after, catalog.spec_schemas(), draft.schema_additions, draft.canonical_order)
    &&& match check_body(env, fresh_progress(), body) {
        None => false,
        Some(p1) => match check_streams(env, p1, draft.generated_streams@) {
            None => false,
            Some(p2) => {
                &&& additions_exact(draft.schema_additions, p2.expected)
                &&& dispositions_exact(catalog, draft.schema_additions, draft.canonical_order, draft.identity_dispositions@, p2.seen)
                &&& writer_visible(catalog.spec_priors(), after, catalog.spec_schemas(), draft.schema_additions,
                    draft.canonical_order, catalog.spec_current_module(),
                    import_bindings(after, imports_view(draft.decoded.source.imports@)), body, draft.generated_streams@)
            },
        },
    }
}

#[verifier::loop_isolation(false)]
fn check_imports(after: &TextualMetadataSnapshot, imports: &Vec<ImportEntry>) -> (r: Result<(), BootstrapReadError>)
    requires
        after.wf(),
    ensures
        r is Ok <==> imports_valid(*after, imports@),
{
    let mut i: usize = 0;
    while i < imports.len()
        invariant
            after.wf(),
            i <= imports@.len(),
            forall|k: int| 0 <= k < i ==> import_valid(*after, #[trigger] imports@[k]),
        decreases imports@.len() - i,
    {
        let import = &imports[i];
        if let Err(e) = validate_module_path(import.module.as_slice()) {
            return Err(e);
        }
        if import.imported_names.len() == 0 {
            return Err(BootstrapReadError::EmptyImportSelectors);
        }
        let mut j: usize = 0;
        while j < import.imported_names.len()
            invariant
                after.wf(),
                j <= import.imported_names@.len(),
                forall|k: int| 0 <= k < j ==> safe_bare_name((#[trigger] import.imported_names@[k])@)
                    && after.spec_identity_at(path_view(import.module@), None, import.imported_names@[k]@) is Some,
            decreases import.imported_names@.len() - j,
        {
            let name = &import.imported_names[j];
            if let Err(e) = validate_visible_name(name.as_str()) {
                return Err(e);
            }
            if after.identity_at(import.module.as_slice(), None, name.as_str()).is_none() {
                return Err(BootstrapReadError::MissingTextualLookup {
                    module: super::catalog::clone_path(import.module.as_slice()),
                    name: name.clone(),
                });
            }
            j = j + 1;
        }
        i = i + 1;
    }
    Ok(())
}

proof fn lemma_imports_resolved(after: TextualMetadataSnapshot, imports: Seq<ImportEntry>)
    requires
        imports_valid(after, imports),
    ensures
        imports_resolved(after, imports_view(imports)),
{
    let v = imports_view(imports);
    assert forall|i: int, j: int| 0 <= i < v.len() && 0 <= j < v[i].names.len()
        implies (#[trigger] after.spec_identity_at(v[i].module, None, v[i].names[j])) is Some by {
        assert(import_valid(after, imports[i]));
        assert(v[i].names[j] == imports[i].imported_names@[j]@);
    }
}

fn minted_identities_exec(ds: &Vec<AssignedIdentity>) -> (r: Vec<EncodedName>)
    ensures
        r@ == minted_identities(ds@),
{
    let mut out: Vec<EncodedName> = Vec::new();
    let mut i: usize = 0;
    proof {
        assert(ds@.subrange(0, 0) =~= Seq::<AssignedIdentity>::empty());
    }
    while i < ds.len()
        invariant
            i <= ds@.len(),
            out@ == minted_identities(ds@.subrange(0, i as int)),
        decreases ds@.len() - i,
    {
        let ghost next = ds@.subrange(0, i + 1);
        proof {
            assert(next.drop_last() =~= ds@.subrange(0, i as int));
            assert(next.last() == ds@[i as int]);
        }
        match &ds[i].disposition {
            IdentityDisposition::New { .. } => {
                out.push(ds[i].encoded_name);
                proof {
                    assert(out@ =~= minted_identities(next));
                }
            },
            IdentityDisposition::Existing => {
                proof {
                    assert(minted_identities(next) =~= minted_identities(ds@.subrange(0, i as int)));
                }
            },
        }
        i = i + 1;
    }
    proof {
        assert(ds@.subrange(0, i as int) =~= ds@);
    }
    out
}

fn check_priors_projected(priors: &BootstrapPriorVocabulary, after: &TextualMetadataSnapshot) -> (r: Result<(), BootstrapReadError>)
    requires
        after.wf(),
    ensures
        r is Ok <==> priors_projected(priors.spec_identities(), *after),
{
    let fixed = priors.fixed_identities();
    let mut k: usize = 0;
    while k < fixed.len()
        invariant
            after.wf(),
            k <= fixed@.len(),
            fixed@.len() == prior_slot_order().len(),
            forall|m: int| 0 <= m < fixed@.len() ==> #[trigger] fixed@[m] == prior_identity(priors.spec_identities(), prior_slot_order()[m]),
            forall|m: int| 0 <= m < k ==> after.spec_has(prior_identity(priors.spec_identities(), #[trigger] prior_slot_order()[m])),
        decreases fixed@.len() - k,
    {
        if !after.contains(fixed[k]) {
            assert(fixed@[k as int] == prior_identity(priors.spec_identities(), prior_slot_order()[k as int]));
            return Err(BootstrapReadError::MissingMetadataIdentity(fixed[k]));
        }
        assert(fixed@[k as int] == prior_identity(priors.spec_identities(), prior_slot_order()[k as int]));
        k = k + 1;
    }
    Ok(())
}

fn check_snapshot_in_view(
    after: &TextualMetadataSnapshot,
    existing: &IdentitySchemaCatalog,
    additions: &IdentitySchemaCatalog,
    order: &CanonicalIdentityOrder,
) -> (r: Result<(), BootstrapReadError>)
    requires
        existing.wf(),
        additions.wf(),
        order.wf(),
    ensures
        r is Ok <==> snapshot_in_view(*after, *existing, *additions, *order),
{
    let records = after.records();
    let mut i: usize = 0;
    while i < records.len()
        invariant
            existing.wf(),
            additions.wf(),
            order.wf(),
            records@ == after.spec_records(),
            i <= records@.len(),
            forall|m: int| 0 <= m < i ==> {
                let id = (#[trigger] after.spec_records()[m]).encoded_name;
                schema_in_view(*existing, *additions, id) is Some && order.spec_contains(id)
            },
        decreases records@.len() - i,
    {
        let id = records[i].encoded_name;
        if super::resolution::schema_view_get(existing, additions, id).is_none() {
            return Err(BootstrapReadError::ExtraMetadataIdentity(id));
        }
        if !order.contains(id) {
            return Err(BootstrapReadError::MissingCanonicalIdentity(id));
        }
        i = i + 1;
    }
    Ok(())
}

/// Re-validate an untrusted draft against a catalog: exactly when every law
/// of [`prepared_valid`] holds is it accepted.
pub fn validate_prepared(catalog: &BootstrapCatalog, draft: &PreparedBootstrapDraft) -> (r: Result<(), BootstrapReadError>)
    requires
        catalog.wf(),
        draft.schema_additions.wf(),
        draft.canonical_order.wf(),
        draft.naming_transition.wf(),
    ensures
        r is Ok <==> prepared_valid(*catalog, *draft),
        ({
            let header = draft.decoded.document.header;
            let found_kind = body_kind(draft.decoded.document.body);
            &&& header.kind != found_kind ==> r == Err::<(), BootstrapReadError>(
                BootstrapReadError::HeaderBodyMismatch { header: header.kind, body: found_kind },
            )
            &&& header.kind == found_kind && !catalog.spec_versions().spec_supported().contains(
                header.version,
            ) ==> (r matches Err(BootstrapReadError::UnsupportedVersion { found, supported })
                && found == header.version && supported@ == catalog.spec_versions().spec_supported())
            &&& header.kind == found_kind && catalog.spec_versions().spec_supported().contains(
                header.version,
            ) && !same_records(
                draft.naming_transition.spec_before().spec_records(),
                catalog.spec_metadata().spec_records(),
            ) ==> r == Err::<(), BootstrapReadError>(
                BootstrapReadError::MetadataTransitionBeforeMismatch,
            )
        }),
{
    let document = &draft.decoded.document;
    let body_kind_found = document.body.kind();
    if document.header.kind != body_kind_found {
        return Err(BootstrapReadError::HeaderBodyMismatch { header: document.header.kind, body: body_kind_found });
    }
    if !catalog.versions().supports(document.header.version) {
        return Err(BootstrapReadError::UnsupportedVersion {
            found: document.header.version,
            supported: catalog.versions().supported(),
        });
    }
    let before = draft.naming_transition.before();
    if !same_records_exec(before.records(), catalog.metadata().records()) {
        return Err(BootstrapReadError::MetadataTransitionBeforeMismatch);
    }
    let after = draft.naming_transition.after();
    if let Err(e) = check_priors_projected(catalog.priors(), after) {
        return Err(e);
    }
    if let Err(e) = check_imports(after, &draft.decoded.source.imports) {
        return Err(e);
    }
    if let Err(e) = check_snapshot_in_view(after, catalog.schemas(), &draft.schema_additions, &draft.canonical_order) {
        return Err(e);
    }
    let ctx = PreparedContext {
        existing: catalog.schemas(),
        additions: &draft.schema_additions,
        order: &draft.canonical_order,
        snapshot: after,
        module: catalog.current_module(),
        minted: minted_identities_exec(&draft.identity_dispositions),
        ids: *catalog.priors().identities(),
    };
    assert(ctx.env() == body_env(*catalog, *draft));
    let mut progress = ProgressTracker::new();
    if !check_body_exec(&ctx, &mut progress, &document.body) {
        return Err(BootstrapReadError::InvalidPreparedModel("body does not satisfy the prepared-model laws"));
    }
    if !check_streams_exec(&ctx, &mut progress, &draft.generated_streams) {
        return Err(BootstrapReadError::InvalidPreparedModel("generated Streams do not match their authored sources"));
    }
    if !check_additions(&draft.schema_additions, progress.expected()) {
        return Err(BootstrapReadError::InvalidPreparedModel("schema additions are not exactly the prepared declarations"));
    }
    if !check_dispositions(catalog, &draft.schema_additions, &draft.canonical_order, &draft.identity_dispositions, progress.seen()) {
        return Err(BootstrapReadError::InvalidPreparedModel("authority dispositions do not exactly equal prepared declarations"));
    }
    proof {
        lemma_imports_resolved(*after, draft.decoded.source.imports@);
    }
    let imported = match import_bindings_exec(after, draft.decoded.source.imports.as_slice()) {
        Ok(b) => b,
        Err(e) => {
            return Err(e);
        },
    };
    if !check_writer_visibility(catalog.priors(), after, catalog.schemas(), &draft.schema_additions, &draft.canonical_order,
        catalog.current_module(), imported, &document.body, &draft.generated_streams) {
        return Err(BootstrapReadError::InvalidPreparedModel("a reference does not spell back to its identity"));
    }
    Ok(())
}

} // verus!
