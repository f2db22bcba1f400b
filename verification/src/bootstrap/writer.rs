//! Canonical textual projection of a validated transaction, over the same
//! proposed name snapshot that sealing resolved against.
use vstd::prelude::*;

use crate::identity::EncodedName;
use crate::text::{chars_of, string_of};
use super::catalog::TextualMetadataSnapshot;
use super::planning::{module_segments, split_colon};
use super::declare::{
    decl_view, method_view, role_entry_view, trait_view, type_decl_view, variant_view, DeclView, MethodView,
    RoleEntryView, TraitDeclView, TypeBodyView, TypeDeclView, VariantBodyView, VariantView,
};
use super::model::{
    Declaration, MethodDeclaration, NomosDeclaration, ParameterBinder, RoleEntry, TableDeclaration, TraitDeclaration,
    TypeBody, TypeDeclaration, TypeExpression, VariantBody, VariantDeclaration,
};
use super::assemble::{body_view, BodyView};
use super::catalog::BootstrapPriorIdentities;
use super::error::{BootstrapReadError, BootstrapWriteError};
use super::model::{BootstrapBody, EthosVersion, ImportEntry};
use super::prepared::prepared_valid;
use super::reader::BootstrapReader;
use super::root::{kind_identity, kind_prior};
use super::seal::{BootstrapNamingAuthority, PreparedBootstrapDraft, PreparedBootstrapTransaction};
use super::reify::{binder_view, expr_view, exprs_view, BinderView, ExprView};

verus! {

// ---------------------------------------------------------------------------
// Rendering, mathematically
// ---------------------------------------------------------------------------

/// Both parts rendered, one after the other.
pub open spec fn cat(a: Option<Seq<char>>, b: Option<Seq<char>>) -> Option<Seq<char>> {
    match (a, b) {
        (Some(x), Some(y)) => Some(x + y),
        _ => None,
    }
}

/// The visible spelling of an identity in the snapshot.
pub open spec fn sp(snap: TextualMetadataSnapshot, id: EncodedName) -> Option<Seq<char>> {
    snap.spec_spelling(id)
}

/// `«Binder.First Second …»` without the guillemets.
pub open spec fn render_traits(snap: TextualMetadataSnapshot, b: BinderView, traits: Seq<EncodedName>) -> Option<Seq<char>>
    decreases traits.len(),
{
    if traits.len() == 0 {
        Some(Seq::empty())
    } else if traits.len() == 1 {
        match b {
            BinderView::Named(_, n) => cat(Some(n.push('.')), sp(snap, traits[0])),
            BinderView::Inferred(_) => sp(snap, traits[0]),
        }
    } else {
        cat(cat(render_traits(snap, b, traits.drop_last()), Some(seq![' '])), sp(snap, traits.last()))
    }
}

pub open spec fn render_expr(snap: TextualMetadataSnapshot, e: ExprView) -> Option<Seq<char>>
    decreases e,
{
    match e {
        ExprView::Reference(id) => sp(snap, id),
        ExprView::Shape(shape, args) => cat(cat(cat(sp(snap, shape), Some(seq!['<'])), render_exprs(snap, args)), Some(seq!['>'])),
        ExprView::Requirement(b, traits) => cat(cat(Some(seq!['«']), render_traits(snap, b, traits)), Some(seq!['»'])),
    }
}

/// Expressions separated by single spaces.
pub open spec fn render_exprs(snap: TextualMetadataSnapshot, es: Seq<ExprView>) -> Option<Seq<char>>
    decreases es,
{
    if es.len() == 0 {
        Some(Seq::empty())
    } else if es.len() == 1 {
        render_expr(snap, es[0])
    } else {
        cat(cat(render_exprs(snap, es.drop_last()), Some(seq![' '])), render_expr(snap, es.last()))
    }
}

/// Expressions each followed by one space.
pub open spec fn render_parameters(snap: TextualMetadataSnapshot, es: Seq<ExprView>) -> Option<Seq<char>>
    decreases es.len(),
{
    if es.len() == 0 {
        Some(Seq::empty())
    } else {
        cat(cat(render_parameters(snap, es.drop_last()), render_expr(snap, es.last())), Some(seq![' ']))
    }
}

/// Each parameter's rendering followed by one space, in order.
pub open spec fn spaced_parameters(snap: TextualMetadataSnapshot, es: Seq<ExprView>) -> Seq<char> {
    es.map_values(|e: ExprView| render_expr(snap, e).unwrap() + seq![' ']).flatten()
}

/// Parameters render exactly when every parameter renders, and then as each
/// parameter's rendering followed by a single space, in order.
pub proof fn lemma_parameters_spaced(snap: TextualMetadataSnapshot, es: Seq<ExprView>)
    ensures
        render_parameters(snap, es) == if forall|i: int| 0 <= i < es.len() ==> render_expr(snap, #[trigger] es[i]) is Some {
            Some(spaced_parameters(snap, es))
        } else {
            None
        },
    decreases es.len(),
{
    if es.len() == 0 {
        assert(es.map_values(|e: ExprView| render_expr(snap, e).unwrap() + seq![' ']) =~= Seq::<Seq<char>>::empty());
    } else {
        let init = es.drop_last();
        lemma_parameters_spaced(snap, init);
        let f = |e: ExprView| render_expr(snap, e).unwrap() + seq![' '];
        assert(es.map_values(f) =~= init.map_values(f).push(f(es.last())));
        init.map_values(f).lemma_flatten_push(f(es.last()));
        if forall|i: int| 0 <= i < es.len() ==> render_expr(snap, #[trigger] es[i]) is Some {
            assert forall|i: int| 0 <= i < init.len() implies render_expr(snap, #[trigger] init[i]) is Some by {
                assert(init[i] == es[i]);
            }
            assert(render_expr(snap, es[es.len() - 1]) is Some);
            assert(spaced_parameters(snap, es) =~= spaced_parameters(snap, init) + (render_expr(snap, es.last()).unwrap() + seq![' ']));
        } else {
            let i = choose|i: int| 0 <= i < es.len() && !(render_expr(snap, #[trigger] es[i]) is Some);
            if i < es.len() - 1 {
                assert(init[i] == es[i]);
            }
        }
    }
}

/// Shape arguments are the same renderings separated by single spaces:
/// a nonempty parameter list renders as its argument rendering and one more
/// space.
pub proof fn lemma_parameters_are_spaced_arguments(snap: TextualMetadataSnapshot, es: Seq<ExprView>)
    requires
        es.len() > 0,
    ensures
        render_parameters(snap, es) == cat(render_exprs(snap, es), Some(seq![' '])),
    decreases es.len(),
{
    if es.len() == 1 {
        assert(es.drop_last() =~= Seq::<ExprView>::empty());
        if let Some(x) = render_expr(snap, es[0]) {
            assert(Seq::<char>::empty() + x =~= x);
        }
    } else {
        lemma_parameters_are_spaced_arguments(snap, es.drop_last());
    }
}

/// A method is written as its spelling, `.{`, each parameter's rendering
/// followed by a single space, its return type's rendering, and `}`.
pub proof fn lemma_method_rendering(snap: TextualMetadataSnapshot, m: MethodView)
    ensures
        render_method(snap, m) is Some <==> (sp(snap, m.name) is Some
            && (forall|i: int| 0 <= i < m.parameters.len() ==> render_expr(snap, #[trigger] m.parameters[i]) is Some)
            && render_expr(snap, m.return_type) is Some),
        render_method(snap, m) matches Some(t) ==> t == sp(snap, m.name).unwrap() + seq!['.', '{']
            + spaced_parameters(snap, m.parameters) + render_expr(snap, m.return_type).unwrap() + seq!['}'],
{
    lemma_parameters_spaced(snap, m.parameters);
}

/// A rendering that fails on a prefix fails on the whole.
/// A Trait requirement lists its Traits' spellings joined by single spaces,
/// prefixed by the binder's name and a dot where the binder is named.
pub proof fn lemma_traits_joined(snap: TextualMetadataSnapshot, b: BinderView, traits: Seq<EncodedName>)
    requires
        traits.len() > 0,
    ensures
        render_traits(snap, b, traits) == match b {
            BinderView::Named(_, n) => cat(Some(n + seq!['.']), join(traits, |t: EncodedName| sp(snap, t))),
            BinderView::Inferred(_) => join(traits, |t: EncodedName| sp(snap, t)),
        },
    decreases traits.len(),
{
    let f = |t: EncodedName| sp(snap, t);
    if traits.len() == 1 {
        if let BinderView::Named(_, n) = b {
            assert(n.push('.') =~= n + seq!['.']);
        }
    } else {
        let init = traits.drop_last();
        lemma_traits_joined(snap, b, init);
        if let BinderView::Named(_, n) = b {
            let p = n + seq!['.'];
            match (join(init, f), sp(snap, traits.last())) {
                (Some(j), Some(l)) => {
                    assert(((p + j) + seq![' ']) + l =~= p + ((j + seq![' ']) + l));
                },
                _ => {},
            }
        }
    }
}

proof fn lemma_traits_prefix_fails(snap: TextualMetadataSnapshot, b: BinderView, s: Seq<EncodedName>, j: int)
    requires
        0 <= j <= s.len(),
        render_traits(snap, b, s.subrange(0, j)) is None,
    ensures
        render_traits(snap, b, s) is None,
    decreases s.len() - j,
{
    if j == s.len() {
        assert(s.subrange(0, j) =~= s);
    } else {
        let next = s.subrange(0, j + 1);
        assert(next.drop_last() =~= s.subrange(0, j));
        assert(j >= 1);
        lemma_traits_prefix_fails(snap, b, s, j + 1);
    }
}

proof fn lemma_exprs_prefix_fails(snap: TextualMetadataSnapshot, s: Seq<ExprView>, j: int)
    requires
        0 <= j <= s.len(),
        render_exprs(snap, s.subrange(0, j)) is None,
    ensures
        render_exprs(snap, s) is None,
    decreases s.len() - j,
{
    if j == s.len() {
        assert(s.subrange(0, j) =~= s);
    } else {
        let next = s.subrange(0, j + 1);
        assert(next.drop_last() =~= s.subrange(0, j));
        assert(j >= 1);
        lemma_exprs_prefix_fails(snap, s, j + 1);
    }
}

// ---------------------------------------------------------------------------
// Writing, with the same meaning
// ---------------------------------------------------------------------------

/// The outcome of appending one rendering: the rendering itself, or the
/// identity whose spelling is missing.
pub open spec fn appended(snap: TextualMetadataSnapshot, r: Result<(), EncodedName>, rendered: Option<Seq<char>>, before: Seq<char>, after: Seq<char>) -> bool {
    &&& match rendered {
        Some(t) => r is Ok && after == before + t,
        None => r is Err,
    }
    &&& (r matches Err(id) ==> sp(snap, id) is None)
}

#[verifier::spinoff_prover]
#[verifier::rlimit(40)]
fn push_all(out: &mut Vec<char>, chars: &Vec<char>)
    ensures
        final(out)@ == old(out)@ + chars@,
{
    let ghost start = out@;
    let mut i: usize = 0;
    while i < chars.len()
        invariant
            i <= chars@.len(),
            out@ == start + chars@.subrange(0, i as int),
        decreases chars@.len() - i,
    {
        out.push(chars[i]);
        proof {
            assert(out@ =~= start + chars@.subrange(0, i + 1));
        }
        i = i + 1;
    }
    proof {
        assert(chars@.subrange(0, i as int) =~= chars@);
    }
}

#[verifier::spinoff_prover]
#[verifier::rlimit(40)]
fn push_str(out: &mut Vec<char>, s: &str)
    ensures
        final(out)@ == old(out)@ + s@,
{
    let chars = chars_of(s);
    push_all(out, &chars);
}

/// Append the spelling of an identity.
#[verifier::spinoff_prover]
#[verifier::rlimit(40)]
pub fn write_spelling(out: &mut Vec<char>, snap: &TextualMetadataSnapshot, id: EncodedName) -> (r: Result<(), EncodedName>)
    requires
        snap.wf(),
    ensures
        appended(*snap, r, sp(*snap, id), old(out)@, final(out)@),
{
    match snap.spelling(id) {
        Some(s) => {
            push_str(out, s.as_str());
            Ok(())
        },
        None => Err(id),
    }
}

#[verifier::spinoff_prover]
#[verifier::rlimit(40)]
fn write_traits(out: &mut Vec<char>, snap: &TextualMetadataSnapshot, binder: &ParameterBinder, traits: &Vec<EncodedName>) -> (r: Result<(), EncodedName>)
    requires
        snap.wf(),
    ensures
        appended(*snap, r, render_traits(*snap, binder_view(*binder), traits@), old(out)@, final(out)@),
{
    let ghost b = binder_view(*binder);
    let ghost start = out@;
    let mut i: usize = 0;
    proof {
        assert(start + Seq::<char>::empty() =~= start);
    }
    while i < traits.len()
        invariant
            snap.wf(),
            b == binder_view(*binder),
            i <= traits@.len(),
            render_traits(*snap, b, traits@.subrange(0, i as int)) matches Some(t) && out@ == start + t,
        decreases traits@.len() - i,
    {
        let ghost next = traits@.subrange(0, i + 1);
        let ghost prev = render_traits(*snap, b, traits@.subrange(0, i as int)).unwrap();
        let ghost mid = out@;
        proof {
            assert(next.drop_last() =~= traits@.subrange(0, i as int));
            assert(next.last() == traits@[i as int]);
        }
        if i == 0 {
            if let ParameterBinder::Named { local_name, .. } = binder {
                push_str(out, local_name.as_str());
                out.push('.');
            }
            let ghost pre = out@;
            if let Err(missing) = write_spelling(out, snap, traits[i]) {
                proof {
                    assert(next.len() == 1);
                    assert(next[0] == traits@[0]);
                    lemma_traits_prefix_fails(*snap, b, traits@, 1);
                }
                return Err(missing);
            }
            proof {
                assert(next.len() == 1);
                assert(next[0] == traits@[0]);
                match b {
                    BinderView::Named(_, n) => {
                        assert(pre =~= start + n.push('.'));
                        assert(out@ =~= start + (n.push('.') + sp(*snap, traits@[0]).unwrap()));
                    },
                    BinderView::Inferred(_) => {
                        assert(out@ =~= start + sp(*snap, traits@[0]).unwrap());
                    },
                }
            }
        } else {
            out.push(' ');
            if let Err(missing) = write_spelling(out, snap, traits[i]) {
                proof {
                    lemma_traits_prefix_fails(*snap, b, traits@, i + 1);
                }
                return Err(missing);
            }
            proof {
                assert(out@ =~= start + (prev + seq![' '] + sp(*snap, traits@[i as int]).unwrap()));
            }
        }
        i = i + 1;
    }
    proof {
        assert(traits@.subrange(0, i as int) =~= traits@);
    }
    Ok(())
}

/// Append one type expression.
#[verifier::spinoff_prover]
#[verifier::rlimit(40)]
pub fn write_expression(out: &mut Vec<char>, snap: &TextualMetadataSnapshot, e: &TypeExpression) -> (r: Result<(), EncodedName>)
    requires
        snap.wf(),
    ensures
        appended(*snap, r, render_expr(*snap, expr_view(*e)), old(out)@, final(out)@),
    decreases e,
{
    let ghost start = out@;
    match e {
        TypeExpression::Reference(id) => write_spelling(out, snap, *id),
        TypeExpression::ShapeApplication(a) => {
            if let Err(missing) = write_spelling(out, snap, a.shape) {
                return Err(missing);
            }
            let ghost s1 = out@;
            out.push('<');
            proof {
                assert(decreases_to!(*e => a.arguments));
            }
            let ghost s2 = out@;
            if let Err(missing) = write_expressions(out, snap, &a.arguments) {
                return Err(missing);
            }
            let ghost s3 = out@;
            out.push('>');
            proof {
                let t1 = sp(*snap, a.shape).unwrap();
                let t2 = render_exprs(*snap, exprs_view(a.arguments@)).unwrap();
                assert(out@ =~= start + (((t1 + seq!['<']) + t2) + seq!['>']));
            }
            Ok(())
        },
        TypeExpression::TraitRequirement(t) => {
            out.push('«');
            if let Err(missing) = write_traits(out, snap, &t.binder, &t.required_traits) {
                return Err(missing);
            }
            out.push('»');
            proof {
                let t1 = render_traits(*snap, binder_view(t.binder), t.required_traits@).unwrap();
                assert(out@ =~= start + ((seq!['«'] + t1) + seq!['»']));
            }
            Ok(())
        },
    }
}

/// Append expressions separated by single spaces.
#[verifier::spinoff_prover]
#[verifier::rlimit(40)]
pub fn write_expressions(out: &mut Vec<char>, snap: &TextualMetadataSnapshot, es: &Vec<TypeExpression>) -> (r: Result<(), EncodedName>)
    requires
        snap.wf(),
    ensures
        appended(*snap, r, render_exprs(*snap, exprs_view(es@)), old(out)@, final(out)@),
    decreases es,
{
    let ghost v = exprs_view(es@);
    let ghost start = out@;
    proof {
        super::reify::lemma_exprs_view(es@);
        assert(start + Seq::<char>::empty() =~= start);
        assert(v.subrange(0, 0) =~= Seq::<ExprView>::empty());
    }
    let mut i: usize = 0;
    while i < es.len()
        invariant
            snap.wf(),
            i <= es@.len(),
            v == exprs_view(es@),
            v.len() == es@.len(),
            forall|k: int| 0 <= k < es@.len() ==> #[trigger] v[k] == expr_view(es@[k]),
            render_exprs(*snap, v.subrange(0, i as int)) matches Some(t) && out@ == start + t,
        decreases es@.len() - i,
    {
        let ghost next = v.subrange(0, i + 1);
        let ghost prev = render_exprs(*snap, v.subrange(0, i as int)).unwrap();
        proof {
            assert(next.drop_last() =~= v.subrange(0, i as int));
            assert(next.last() == v[i as int]);
            assert(decreases_to!(*es => es@));
            assert(decreases_to!(es@ => es@[i as int]));
        }
        if i > 0 {
            out.push(' ');
        }
        let ghost mid = out@;
        if let Err(missing) = write_expression(out, snap, &es[i]) {
            proof {
                if i == 0 {
                    assert(next.len() == 1 && next[0] == v[0]);
                }
                lemma_exprs_prefix_fails(*snap, v, i + 1);
            }
            return Err(missing);
        }
        proof {
            let t = render_expr(*snap, v[i as int]).unwrap();
            if i == 0 {
                assert(next.len() == 1 && next[0] == v[0]);
                assert(out@ =~= start + t);
            } else {
                assert(out@ =~= start + ((prev + seq![' ']) + t));
            }
        }
        i = i + 1;
    }
    proof {
        assert(v.subrange(0, i as int) =~= v);
    }
    Ok(())
}


// ---------------------------------------------------------------------------
// Declarations
// ---------------------------------------------------------------------------

/// Items rendered one by one and separated by single spaces.
pub open spec fn join<T>(xs: Seq<T>, f: spec_fn(T) -> Option<Seq<char>>) -> Option<Seq<char>>
    decreases xs.len(),
{
    if xs.len() == 0 {
        Some(Seq::empty())
    } else if xs.len() == 1 {
        f(xs[0])
    } else {
        cat(cat(join(xs.drop_last(), f), Some(seq![' '])), f(xs.last()))
    }
}

/// Joined renderings succeed exactly when every item renders, and then are
/// each item's rendering followed by a single space, the last space dropped.
pub proof fn lemma_join_spaced<T>(xs: Seq<T>, f: spec_fn(T) -> Option<Seq<char>>)
    requires
        xs.len() > 0,
    ensures
        cat(join(xs, f), Some(seq![' '])) == if forall|i: int| 0 <= i < xs.len() ==> f(#[trigger] xs[i]) is Some {
            Some(xs.map_values(|x: T| f(x).unwrap() + seq![' ']).flatten())
        } else {
            None
        },
    decreases xs.len(),
{
    let g = |x: T| f(x).unwrap() + seq![' '];
    if xs.len() == 1 {
        assert(xs.map_values(g) =~= Seq::<Seq<char>>::empty().push(g(xs[0])));
        Seq::<Seq<char>>::empty().lemma_flatten_push(g(xs[0]));
        assert(Seq::<Seq<char>>::empty().flatten() =~= Seq::<char>::empty());
        assert(Seq::<char>::empty() + g(xs[0]) =~= g(xs[0]));
    } else {
        let init = xs.drop_last();
        lemma_join_spaced(init, f);
        assert(xs.map_values(g) =~= init.map_values(g).push(g(xs.last())));
        init.map_values(g).lemma_flatten_push(g(xs.last()));
        if forall|i: int| 0 <= i < xs.len() ==> f(#[trigger] xs[i]) is Some {
            assert forall|i: int| 0 <= i < init.len() implies f(#[trigger] init[i]) is Some by {
                assert(init[i] == xs[i]);
            }
            assert(f(xs[xs.len() - 1]) is Some);
            let head = init.map_values(g).flatten();
            let j = join(init, f).unwrap();
            assert(j + seq![' '] == head);
            assert(((j + seq![' ']) + f(xs.last()).unwrap()) + seq![' '] =~= head + g(xs.last()));
        } else {
            let i = choose|i: int| 0 <= i < xs.len() && !(f(#[trigger] xs[i]) is Some);
            if i < xs.len() - 1 {
                assert(init[i] == xs[i]);
            }
        }
    }
}

proof fn lemma_join_prefix_fails<T>(xs: Seq<T>, f: spec_fn(T) -> Option<Seq<char>>, j: int)
    requires
        0 <= j <= xs.len(),
        join(xs.subrange(0, j), f) is None,
    ensures
        join(xs, f) is None,
    decreases xs.len() - j,
{
    if j == xs.len() {
        assert(xs.subrange(0, j) =~= xs);
    } else {
        let next = xs.subrange(0, j + 1);
        assert(next.drop_last() =~= xs.subrange(0, j));
        assert(j >= 1);
        lemma_join_prefix_fails(xs, f, j + 1);
    }
}

/// The rendering of one more item after a rendered prefix.
proof fn lemma_join_step<T>(xs: Seq<T>, f: spec_fn(T) -> Option<Seq<char>>, i: int)
    requires
        0 <= i < xs.len(),
    ensures
        i == 0 ==> join(xs.subrange(0, 1), f) == f(xs[0]),
        i > 0 ==> join(xs.subrange(0, i + 1), f) == cat(cat(join(xs.subrange(0, i), f), Some(seq![' '])), f(xs[i])),
{
    let next = xs.subrange(0, i + 1);
    assert(next.drop_last() =~= xs.subrange(0, i));
    assert(next.last() == xs[i]);
    if i == 0 {
        assert(next.len() == 1 && next[0] == xs[0]);
    }
}

pub open spec fn render_variant(snap: TextualMetadataSnapshot, v: VariantView) -> Option<Seq<char>> {
    cat(sp(snap, v.name), match v.body {
        VariantBodyView::Unit => Some(Seq::empty()),
        VariantBodyView::Unary(e) => cat(Some(seq!['.']), render_expr(snap, e)),
        VariantBodyView::Product(fs) => cat(cat(Some(seq!['.', '{']), render_exprs(snap, fs)), Some(seq!['}'])),
    })
}

pub open spec fn render_type_decl(snap: TextualMetadataSnapshot, d: TypeDeclView) -> Option<Seq<char>> {
    cat(sp(snap, d.name), match d.body {
        TypeBodyView::Newtype(e) => cat(Some(seq!['.']), render_expr(snap, e)),
        TypeBodyView::Struct(fs) => cat(cat(Some(seq!['.', '{']), render_exprs(snap, fs)), Some(seq!['}'])),
        TypeBodyView::Enum(vs) => cat(cat(Some(seq!['.', '[']), join(vs, |v: VariantView| render_variant(snap, v))), Some(seq![']'])),
    })
}

/// A declaration; an authored Stream is written back as its one authored
/// form `Name.Stream.(Query Event)`.
pub open spec fn render_decl(snap: TextualMetadataSnapshot, nomos: EncodedName, d: DeclView) -> Option<Seq<char>> {
    match d {
        DeclView::Type(t) => render_type_decl(snap, t),
        DeclView::Stream(s) => cat(cat(cat(cat(cat(cat(cat(sp(snap, s.name), Some(seq!['.'])), sp(snap, nomos)),
            Some(seq!['.', '('])), render_expr(snap, s.query)), Some(seq![' '])), render_expr(snap, s.event)), Some(seq![')'])),
    }
}

pub open spec fn render_method(snap: TextualMetadataSnapshot, m: MethodView) -> Option<Seq<char>> {
    cat(cat(cat(cat(sp(snap, m.name), Some(seq!['.', '{'])), render_parameters(snap, m.parameters)), render_expr(snap, m.return_type)), Some(seq!['}']))
}

pub open spec fn render_trait(snap: TextualMetadataSnapshot, t: TraitDeclView) -> Option<Seq<char>> {
    cat(cat(cat(sp(snap, t.name), Some(seq!['.', '{'])), join(t.methods, |m: MethodView| render_method(snap, m))), Some(seq!['}']))
}

pub open spec fn render_table(snap: TextualMetadataSnapshot, t: TableDeclaration) -> Option<Seq<char>> {
    cat(cat(cat(cat(cat(sp(snap, t.name), Some(seq!['.', '{'])), sp(snap, t.record_type)), Some(seq![' '])), sp(snap, t.key_type)), Some(seq!['}']))
}

pub open spec fn render_role_entry(snap: TextualMetadataSnapshot, e: RoleEntryView) -> Option<Seq<char>> {
    match e {
        RoleEntryView::Declaration(d) => render_type_decl(snap, d),
        RoleEntryView::Reference(id) => sp(snap, id),
    }
}

#[verifier::spinoff_prover]
#[verifier::rlimit(40)]
fn write_variant(out: &mut Vec<char>, snap: &TextualMetadataSnapshot, v: &VariantDeclaration) -> (r: Result<(), EncodedName>)
    requires
        snap.wf(),
    ensures
        appended(*snap, r, render_variant(*snap, variant_view(*v)), old(out)@, final(out)@),
{
    let ghost start = out@;
    if let Err(missing) = write_spelling(out, snap, v.name) {
        return Err(missing);
    }
    let ghost s1 = out@;
    match &v.body {
        VariantBody::Unit => {
            proof {
                assert(out@ =~= start + (sp(*snap, v.name).unwrap() + Seq::<char>::empty()));
            }
        },
        VariantBody::Unary(e) => {
            out.push('.');
            if let Err(missing) = write_expression(out, snap, e) {
                return Err(missing);
            }
            proof {
                assert(out@ =~= start + (sp(*snap, v.name).unwrap() + (seq!['.'] + render_expr(*snap, expr_view(*e)).unwrap())));
            }
        },
        VariantBody::Product(fs) => {
            out.push('.');
            out.push('{');
            if let Err(missing) = write_expressions(out, snap, fs) {
                return Err(missing);
            }
            out.push('}');
            proof {
                assert(out@ =~= start + (sp(*snap, v.name).unwrap()
                    + ((seq!['.', '{'] + render_exprs(*snap, exprs_view(fs@)).unwrap()) + seq!['}'])));
            }
        },
    }
    Ok(())
}

/// Append one plain type declaration.
#[verifier::loop_isolation(false)]
#[verifier::spinoff_prover]
#[verifier::rlimit(40)]
pub fn write_type_declaration(out: &mut Vec<char>, snap: &TextualMetadataSnapshot, d: &TypeDeclaration) -> (r: Result<(), EncodedName>)
    requires
        snap.wf(),
    ensures
        appended(*snap, r, render_type_decl(*snap, type_decl_view(*d)), old(out)@, final(out)@),
{
    let ghost start = out@;
    if let Err(missing) = write_spelling(out, snap, d.name) {
        return Err(missing);
    }
    let ghost name = sp(*snap, d.name).unwrap();
    match &d.body {
        TypeBody::Newtype(e) => {
            out.push('.');
            if let Err(missing) = write_expression(out, snap, e) {
                return Err(missing);
            }
            proof {
                assert(out@ =~= start + (name + (seq!['.'] + render_expr(*snap, expr_view(*e)).unwrap())));
            }
        },
        TypeBody::Struct(fs) => {
            out.push('.');
            out.push('{');
            if let Err(missing) = write_expressions(out, snap, fs) {
                return Err(missing);
            }
            out.push('}');
            proof {
                assert(out@ =~= start + (name + ((seq!['.', '{'] + render_exprs(*snap, exprs_view(fs@)).unwrap()) + seq!['}'])));
            }
        },
        TypeBody::Enum(vs) => {
            out.push('.');
            out.push('[');
            let ghost f = |v: VariantView| render_variant(*snap, v);
            let ghost views = vs@.map_values(|v: VariantDeclaration| variant_view(v));
            let ghost s2 = out@;
            let mut i: usize = 0;
            proof {
                assert(s2 + Seq::<char>::empty() =~= s2);
                assert(views.subrange(0, 0) =~= Seq::<VariantView>::empty());
            }
            while i < vs.len()
                invariant
                    snap.wf(),
                    i <= vs@.len(),
                    views == vs@.map_values(|v: VariantDeclaration| variant_view(v)),
                    f == (|v: VariantView| render_variant(*snap, v)),
                    join(views.subrange(0, i as int), f) matches Some(t) && out@ == s2 + t,
                decreases vs@.len() - i,
            {
                let ghost prev = join(views.subrange(0, i as int), f).unwrap();
                proof {
                    lemma_join_step(views, f, i as int);
                    assert(views[i as int] == variant_view(vs@[i as int]));
                }
                if i > 0 {
                    out.push(' ');
                }
                if let Err(missing) = write_variant(out, snap, &vs[i]) {
                    proof {
                        lemma_join_prefix_fails(views, f, i + 1);
                    }
                    return Err(missing);
                }
                proof {
                    let t = render_variant(*snap, views[i as int]).unwrap();
                    if i == 0 {
                        assert(out@ =~= s2 + t);
                    } else {
                        assert(out@ =~= s2 + ((prev + seq![' ']) + t));
                    }
                }
                i = i + 1;
            }
            out.push(']');
            proof {
                assert(views.subrange(0, i as int) =~= views);
                let t = join(views, f).unwrap();
                assert(out@ =~= start + (name + ((seq!['.', '['] + t) + seq![']'])));
            }
        },
    }
    Ok(())
}


/// Append one declaration of a Declarations section.
#[verifier::spinoff_prover]
#[verifier::rlimit(40)]
pub fn write_declaration(out: &mut Vec<char>, snap: &TextualMetadataSnapshot, nomos: EncodedName, d: &Declaration) -> (r: Result<(), EncodedName>)
    requires
        snap.wf(),
    ensures
        appended(*snap, r, render_decl(*snap, nomos, decl_view(*d)), old(out)@, final(out)@),
{
    let ghost start = out@;
    match d {
        Declaration::Type(t) => write_type_declaration(out, snap, t),
        Declaration::Nomos(NomosDeclaration::StreamInitiation(st)) => {
            if let Err(missing) = write_spelling(out, snap, st.name) {
                return Err(missing);
            }
            out.push('.');
            if let Err(missing) = write_spelling(out, snap, nomos) {
                return Err(missing);
            }
            out.push('.');
            out.push('(');
            if let Err(missing) = write_expression(out, snap, &st.query) {
                return Err(missing);
            }
            out.push(' ');
            if let Err(missing) = write_expression(out, snap, &st.event) {
                return Err(missing);
            }
            out.push(')');
            proof {
                let n = sp(*snap, st.name).unwrap();
                let h = sp(*snap, nomos).unwrap();
                let q = render_expr(*snap, expr_view(st.query)).unwrap();
                let e = render_expr(*snap, expr_view(st.event)).unwrap();
                assert(out@ =~= start + (((((((n + seq!['.']) + h) + seq!['.', '(']) + q) + seq![' ']) + e) + seq![')']));
            }
            Ok(())
        },
    }
}

#[verifier::spinoff_prover]
#[verifier::rlimit(40)]
fn write_parameters(out: &mut Vec<char>, snap: &TextualMetadataSnapshot, es: &Vec<TypeExpression>) -> (r: Result<(), EncodedName>)
    requires
        snap.wf(),
    ensures
        appended(*snap, r, render_parameters(*snap, exprs_view(es@)), old(out)@, final(out)@),
{
    let ghost v = exprs_view(es@);
    let ghost start = out@;
    proof {
        super::reify::lemma_exprs_view(es@);
        assert(start + Seq::<char>::empty() =~= start);
        assert(v.subrange(0, 0) =~= Seq::<ExprView>::empty());
    }
    let mut i: usize = 0;
    while i < es.len()
        invariant
            snap.wf(),
            i <= es@.len(),
            v == exprs_view(es@),
            v.len() == es@.len(),
            forall|k: int| 0 <= k < es@.len() ==> #[trigger] v[k] == expr_view(es@[k]),
            render_parameters(*snap, v.subrange(0, i as int)) matches Some(t) && out@ == start + t,
        decreases es@.len() - i,
    {
        let ghost next = v.subrange(0, i + 1);
        let ghost prev = render_parameters(*snap, v.subrange(0, i as int)).unwrap();
        proof {
            assert(next.drop_last() =~= v.subrange(0, i as int));
            assert(next.last() == v[i as int]);
            assert(v[i as int] == expr_view(es@[i as int]));
        }
        if let Err(missing) = write_expression(out, snap, &es[i]) {
            proof {
                lemma_parameters_prefix_fails(*snap, v, i + 1);
            }
            return Err(missing);
        }
        out.push(' ');
        proof {
            let t = render_expr(*snap, v[i as int]).unwrap();
            assert(out@ =~= start + ((prev + t) + seq![' ']));
        }
        i = i + 1;
    }
    proof {
        assert(v.subrange(0, i as int) =~= v);
    }
    Ok(())
}

proof fn lemma_parameters_prefix_fails(snap: TextualMetadataSnapshot, s: Seq<ExprView>, j: int)
    requires
        0 <= j <= s.len(),
        render_parameters(snap, s.subrange(0, j)) is None,
    ensures
        render_parameters(snap, s) is None,
    decreases s.len() - j,
{
    if j == s.len() {
        assert(s.subrange(0, j) =~= s);
    } else {
        let next = s.subrange(0, j + 1);
        assert(next.drop_last() =~= s.subrange(0, j));
        lemma_parameters_prefix_fails(snap, s, j + 1);
    }
}

#[verifier::spinoff_prover]
#[verifier::rlimit(40)]
fn write_method(out: &mut Vec<char>, snap: &TextualMetadataSnapshot, m: &MethodDeclaration) -> (r: Result<(), EncodedName>)
    requires
        snap.wf(),
    ensures
        appended(*snap, r, render_method(*snap, method_view(*m)), old(out)@, final(out)@),
{
    let ghost start = out@;
    if let Err(missing) = write_spelling(out, snap, m.name) {
        return Err(missing);
    }
    out.push('.');
    out.push('{');
    if let Err(missing) = write_parameters(out, snap, &m.parameters) {
        return Err(missing);
    }
    if let Err(missing) = write_expression(out, snap, &m.return_type) {
        return Err(missing);
    }
    out.push('}');
    proof {
        let n = sp(*snap, m.name).unwrap();
        let ps = render_parameters(*snap, exprs_view(m.parameters@)).unwrap();
        let rt = render_expr(*snap, expr_view(m.return_type)).unwrap();
        assert(out@ =~= start + ((((n + seq!['.', '{']) + ps) + rt) + seq!['}']));
    }
    Ok(())
}

#[verifier::spinoff_prover]
#[verifier::rlimit(40)]
fn write_methods(out: &mut Vec<char>, snap: &TextualMetadataSnapshot, methods: &Vec<MethodDeclaration>) -> (r: Result<(), EncodedName>)
    requires
        snap.wf(),
    ensures
        appended(*snap, r, join(methods@.map_values(|m: MethodDeclaration| method_view(m)), |m: MethodView| render_method(*snap, m)), old(out)@, final(out)@),
{
    let ghost f = |m: MethodView| render_method(*snap, m);
    let ghost views = methods@.map_values(|m: MethodDeclaration| method_view(m));
    let ghost s2 = out@;
    let mut i: usize = 0;
    proof {
        assert(s2 + Seq::<char>::empty() =~= s2);
        assert(views.subrange(0, 0) =~= Seq::<MethodView>::empty());
    }
    while i < methods.len()
        invariant
            snap.wf(),
            i <= methods@.len(),
            views == methods@.map_values(|m: MethodDeclaration| method_view(m)),
            f == (|m: MethodView| render_method(*snap, m)),
            join(views.subrange(0, i as int), f) matches Some(x) && out@ == s2 + x,
        decreases methods@.len() - i,
    {
        let ghost prev = join(views.subrange(0, i as int), f).unwrap();
        proof {
            lemma_join_step(views, f, i as int);
            assert(views[i as int] == method_view(methods@[i as int]));
        }
        if i > 0 {
            out.push(' ');
        }
        if let Err(missing) = write_method(out, snap, &methods[i]) {
            proof {
                lemma_join_prefix_fails(views, f, i + 1);
            }
            return Err(missing);
        }
        proof {
            let x = render_method(*snap, views[i as int]).unwrap();
            if i == 0 {
                assert(out@ =~= s2 + x);
            } else {
                assert(out@ =~= s2 + ((prev + seq![' ']) + x));
            }
        }
        i = i + 1;
    }
    proof {
        assert(views.subrange(0, i as int) =~= views);
    }
    Ok(())
}

/// Append one Trait and its methods.
#[verifier::spinoff_prover]
#[verifier::rlimit(40)]
pub fn write_trait(out: &mut Vec<char>, snap: &TextualMetadataSnapshot, t: &TraitDeclaration) -> (r: Result<(), EncodedName>)
    requires
        snap.wf(),
    ensures
        appended(*snap, r, render_trait(*snap, trait_view(*t)), old(out)@, final(out)@),
{
    let ghost start = out@;
    if let Err(missing) = write_spelling(out, snap, t.name) {
        return Err(missing);
    }
    out.push('.');
    out.push('{');
    if let Err(missing) = write_methods(out, snap, &t.methods) {
        return Err(missing);
    }
    out.push('}');
    proof {
        let n = sp(*snap, t.name).unwrap();
        let x = join(t.methods@.map_values(|m: MethodDeclaration| method_view(m)), |m: MethodView| render_method(*snap, m)).unwrap();
        assert(out@ =~= start + (((n + seq!['.', '{']) + x) + seq!['}']));
    }
    Ok(())
}

/// Append one keyed table.
#[verifier::spinoff_prover]
#[verifier::rlimit(40)]
pub fn write_table(out: &mut Vec<char>, snap: &TextualMetadataSnapshot, t: &TableDeclaration) -> (r: Result<(), EncodedName>)
    requires
        snap.wf(),
    ensures
        appended(*snap, r, render_table(*snap, *t), old(out)@, final(out)@),
{
    let ghost start = out@;
    if let Err(missing) = write_spelling(out, snap, t.name) {
        return Err(missing);
    }
    out.push('.');
    out.push('{');
    if let Err(missing) = write_spelling(out, snap, t.record_type) {
        return Err(missing);
    }
    out.push(' ');
    if let Err(missing) = write_spelling(out, snap, t.key_type) {
        return Err(missing);
    }
    out.push('}');
    proof {
        let n = sp(*snap, t.name).unwrap();
        let a = sp(*snap, t.record_type).unwrap();
        let b = sp(*snap, t.key_type).unwrap();
        assert(out@ =~= start + (((((n + seq!['.', '{']) + a) + seq![' ']) + b) + seq!['}']));
    }
    Ok(())
}

/// Append one role entry.
#[verifier::spinoff_prover]
#[verifier::rlimit(40)]
pub fn write_role_entry(out: &mut Vec<char>, snap: &TextualMetadataSnapshot, e: &RoleEntry) -> (r: Result<(), EncodedName>)
    requires
        snap.wf(),
    ensures
        appended(*snap, r, render_role_entry(*snap, role_entry_view(*e)), old(out)@, final(out)@),
{
    match e {
        RoleEntry::Declaration(d) => write_type_declaration(out, snap, d),
        RoleEntry::Reference(id) => write_spelling(out, snap, *id),
    }
}


// ---------------------------------------------------------------------------
// Sections, imports, header, document
// ---------------------------------------------------------------------------

/// One registered section: `  [items]`.
pub open spec fn render_section<T>(xs: Seq<T>, f: spec_fn(T) -> Option<Seq<char>>) -> Option<Seq<char>> {
    cat(cat(Some(seq![' ', ' ', '[']), join(xs, f)), Some(seq![']']))
}

#[verifier::spinoff_prover]
#[verifier::rlimit(40)]
fn write_role_section(out: &mut Vec<char>, snap: &TextualMetadataSnapshot, items: &Vec<RoleEntry>) -> (r: Result<(), EncodedName>)
    requires
        snap.wf(),
    ensures
        appended(*snap, r, render_section(items@.map_values(|x: RoleEntry| role_entry_view(x)), |x: RoleEntryView| render_role_entry(*snap, x)), old(out)@, final(out)@),
{
    let ghost start = out@;
    let ghost f = |x: RoleEntryView| render_role_entry(*snap, x);
    let ghost views = items@.map_values(|x: RoleEntry| role_entry_view(x));
    out.push(' ');
    out.push(' ');
    out.push('[');
    let ghost s2 = out@;
    let mut i: usize = 0;
    proof {
        assert(s2 + Seq::<char>::empty() =~= s2);
        assert(views.subrange(0, 0) =~= Seq::<RoleEntryView>::empty());
    }
    while i < items.len()
        invariant
            snap.wf(),
            i <= items@.len(),
            views == items@.map_values(|x: RoleEntry| role_entry_view(x)),
            f == (|x: RoleEntryView| render_role_entry(*snap, x)),
            join(views.subrange(0, i as int), f) matches Some(t) && out@ == s2 + t,
        decreases items@.len() - i,
    {
        let ghost prev = join(views.subrange(0, i as int), f).unwrap();
        proof {
            lemma_join_step(views, f, i as int);
            assert(views[i as int] == role_entry_view(items@[i as int]));
        }
        if i > 0 {
            out.push(' ');
        }
        if let Err(missing) = write_role_entry(out, snap, &items[i]) {
            proof {
                lemma_join_prefix_fails(views, f, i + 1);
            }
            return Err(missing);
        }
        proof {
            let x = f(views[i as int]);
            if i == 0 {
                assert(out@ =~= s2 + x.unwrap());
            } else {
                assert(out@ =~= s2 + ((prev + seq![' ']) + x.unwrap()));
            }
        }
        i = i + 1;
    }
    out.push(']');
    proof {
        assert(views.subrange(0, i as int) =~= views);
        let x = join(views, f).unwrap();
        assert(out@ =~= start + ((seq![' ', ' ', '['] + x) + seq![']']));
    }
    Ok(())
}

#[verifier::spinoff_prover]
#[verifier::rlimit(40)]
fn write_decl_section(out: &mut Vec<char>, snap: &TextualMetadataSnapshot, nomos: EncodedName, items: &Vec<Declaration>) -> (r: Result<(), EncodedName>)
    requires
        snap.wf(),
    ensures
        appended(*snap, r, render_section(items@.map_values(|x: Declaration| decl_view(x)), |x: DeclView| render_decl(*snap, nomos, x)), old(out)@, final(out)@),
{
    let ghost start = out@;
    let ghost f = |x: DeclView| render_decl(*snap, nomos, x);
    let ghost views = items@.map_values(|x: Declaration| decl_view(x));
    out.push(' ');
    out.push(' ');
    out.push('[');
    let ghost s2 = out@;
    let mut i: usize = 0;
    proof {
        assert(s2 + Seq::<char>::empty() =~= s2);
        assert(views.subrange(0, 0) =~= Seq::<DeclView>::empty());
    }
    while i < items.len()
        invariant
            snap.wf(),
            i <= items@.len(),
            views == items@.map_values(|x: Declaration| decl_view(x)),
            f == (|x: DeclView| render_decl(*snap, nomos, x)),
            join(views.subrange(0, i as int), f) matches Some(t) && out@ == s2 + t,
        decreases items@.len() - i,
    {
        let ghost prev = join(views.subrange(0, i as int), f).unwrap();
        proof {
            lemma_join_step(views, f, i as int);
            assert(views[i as int] == decl_view(items@[i as int]));
        }
        if i > 0 {
            out.push(' ');
        }
        if let Err(missing) = write_declaration(out, snap, nomos, &items[i]) {
            proof {
                lemma_join_prefix_fails(views, f, i + 1);
            }
            return Err(missing);
        }
        proof {
            let x = f(views[i as int]);
            if i == 0 {
                assert(out@ =~= s2 + x.unwrap());
            } else {
                assert(out@ =~= s2 + ((prev + seq![' ']) + x.unwrap()));
            }
        }
        i = i + 1;
    }
    out.push(']');
    proof {
        assert(views.subrange(0, i as int) =~= views);
        let x = join(views, f).unwrap();
        assert(out@ =~= start + ((seq![' ', ' ', '['] + x) + seq![']']));
    }
    Ok(())
}

#[verifier::spinoff_prover]
#[verifier::rlimit(40)]
fn write_trait_section(out: &mut Vec<char>, snap: &TextualMetadataSnapshot, items: &Vec<TraitDeclaration>) -> (r: Result<(), EncodedName>)
    requires
        snap.wf(),
    ensures
        appended(*snap, r, render_section(items@.map_values(|x: TraitDeclaration| trait_view(x)), |x: TraitDeclView| render_trait(*snap, x)), old(out)@, final(out)@),
{
    let ghost start = out@;
    let ghost f = |x: TraitDeclView| render_trait(*snap, x);
    let ghost views = items@.map_values(|x: TraitDeclaration| trait_view(x));
    out.push(' ');
    out.push(' ');
    out.push('[');
    let ghost s2 = out@;
    let mut i: usize = 0;
    proof {
        assert(s2 + Seq::<char>::empty() =~= s2);
        assert(views.subrange(0, 0) =~= Seq::<TraitDeclView>::empty());
    }
    while i < items.len()
        invariant
            snap.wf(),
            i <= items@.len(),
            views == items@.map_values(|x: TraitDeclaration| trait_view(x)),
            f == (|x: TraitDeclView| render_trait(*snap, x)),
            join(views.subrange(0, i as int), f) matches Some(t) && out@ == s2 + t,
        decreases items@.len() - i,
    {
        let ghost prev = join(views.subrange(0, i as int), f).unwrap();
        proof {
            lemma_join_step(views, f, i as int);
            assert(views[i as int] == trait_view(items@[i as int]));
        }
        if i > 0 {
            out.push(' ');
        }
        if let Err(missing) = write_trait(out, snap, &items[i]) {
            proof {
                lemma_join_prefix_fails(views, f, i + 1);
            }
            return Err(missing);
        }
        proof {
            let x = f(views[i as int]);
            if i == 0 {
                assert(out@ =~= s2 + x.unwrap());
            } else {
                assert(out@ =~= s2 + ((prev + seq![' ']) + x.unwrap()));
            }
        }
        i = i + 1;
    }
    out.push(']');
    proof {
        assert(views.subrange(0, i as int) =~= views);
        let x = join(views, f).unwrap();
        assert(out@ =~= start + ((seq![' ', ' ', '['] + x) + seq![']']));
    }
    Ok(())
}

#[verifier::spinoff_prover]
#[verifier::rlimit(40)]
fn write_type_section(out: &mut Vec<char>, snap: &TextualMetadataSnapshot, items: &Vec<TypeDeclaration>) -> (r: Result<(), EncodedName>)
    requires
        snap.wf(),
    ensures
        appended(*snap, r, render_section(items@.map_values(|x: TypeDeclaration| type_decl_view(x)), |x: TypeDeclView| render_type_decl(*snap, x)), old(out)@, final(out)@),
{
    let ghost start = out@;
    let ghost f = |x: TypeDeclView| render_type_decl(*snap, x);
    let ghost views = items@.map_values(|x: TypeDeclaration| type_decl_view(x));
    out.push(' ');
    out.push(' ');
    out.push('[');
    let ghost s2 = out@;
    let mut i: usize = 0;
    proof {
        assert(s2 + Seq::<char>::empty() =~= s2);
        assert(views.subrange(0, 0) =~= Seq::<TypeDeclView>::empty());
    }
    while i < items.len()
        invariant
            snap.wf(),
            i <= items@.len(),
            views == items@.map_values(|x: TypeDeclaration| type_decl_view(x)),
            f == (|x: TypeDeclView| render_type_decl(*snap, x)),
            join(views.subrange(0, i as int), f) matches Some(t) && out@ == s2 + t,
        decreases items@.len() - i,
    {
        let ghost prev = join(views.subrange(0, i as int), f).unwrap();
        proof {
            lemma_join_step(views, f, i as int);
            assert(views[i as int] == type_decl_view(items@[i as int]));
        }
        if i > 0 {
            out.push(' ');
        }
        if let Err(missing) = write_type_declaration(out, snap, &items[i]) {
            proof {
                lemma_join_prefix_fails(views, f, i + 1);
            }
            return Err(missing);
        }
        proof {
            let x = f(views[i as int]);
            if i == 0 {
                assert(out@ =~= s2 + x.unwrap());
            } else {
                assert(out@ =~= s2 + ((prev + seq![' ']) + x.unwrap()));
            }
        }
        i = i + 1;
    }
    out.push(']');
    proof {
        assert(views.subrange(0, i as int) =~= views);
        let x = join(views, f).unwrap();
        assert(out@ =~= start + ((seq![' ', ' ', '['] + x) + seq![']']));
    }
    Ok(())
}

#[verifier::spinoff_prover]
#[verifier::rlimit(40)]
fn write_table_section(out: &mut Vec<char>, snap: &TextualMetadataSnapshot, items: &Vec<TableDeclaration>) -> (r: Result<(), EncodedName>)
    requires
        snap.wf(),
    ensures
        appended(*snap, r, render_section(items@.map_values(|x: TableDeclaration| table_identity_view(x)), |x: TableDeclaration| render_table(*snap, x)), old(out)@, final(out)@),
{
    let ghost start = out@;
    let ghost f = |x: TableDeclaration| render_table(*snap, x);
    let ghost views = items@.map_values(|x: TableDeclaration| table_identity_view(x));
    out.push(' ');
    out.push(' ');
    out.push('[');
    let ghost s2 = out@;
    let mut i: usize = 0;
    proof {
        assert(s2 + Seq::<char>::empty() =~= s2);
        assert(views.subrange(0, 0) =~= Seq::<TableDeclaration>::empty());
    }
    while i < items.len()
        invariant
            snap.wf(),
            i <= items@.len(),
            views == items@.map_values(|x: TableDeclaration| table_identity_view(x)),
            f == (|x: TableDeclaration| render_table(*snap, x)),
            join(views.subrange(0, i as int), f) matches Some(t) && out@ == s2 + t,
        decreases items@.len() - i,
    {
        let ghost prev = join(views.subrange(0, i as int), f).unwrap();
        proof {
            lemma_join_step(views, f, i as int);
            assert(views[i as int] == table_identity_view(items@[i as int]));
        }
        if i > 0 {
            out.push(' ');
        }
        if let Err(missing) = write_table(out, snap, &items[i]) {
            proof {
                lemma_join_prefix_fails(views, f, i + 1);
            }
            return Err(missing);
        }
        proof {
            let x = f(views[i as int]);
            if i == 0 {
                assert(out@ =~= s2 + x.unwrap());
            } else {
                assert(out@ =~= s2 + ((prev + seq![' ']) + x.unwrap()));
            }
        }
        i = i + 1;
    }
    out.push(']');
    proof {
        assert(views.subrange(0, i as int) =~= views);
        let x = join(views, f).unwrap();
        assert(out@ =~= start + ((seq![' ', ' ', '['] + x) + seq![']']));
    }
    Ok(())
}

pub open spec fn table_identity_view(t: TableDeclaration) -> TableDeclaration {
    t
}


pub open spec fn newline() -> Option<Seq<char>> {
    Some(seq!['\n'])
}

/// The registered sections of a body, one per line.
#[verifier::opaque]
pub open spec fn render_body(snap: TextualMetadataSnapshot, nomos: EncodedName, b: BodyView) -> Option<Seq<char>> {
    match b {
        BodyView::Interface { inputs, outputs, refusals, types, .. } => cat(cat(cat(cat(cat(cat(
            render_section(inputs, |x: RoleEntryView| render_role_entry(snap, x)), newline()),
            render_section(outputs, |x: RoleEntryView| render_role_entry(snap, x))), newline()),
            render_section(refusals, |x: RoleEntryView| render_role_entry(snap, x))), newline()),
            render_section(types, |x: DeclView| render_decl(snap, nomos, x))),
        BodyView::Nexus { traits, types } => cat(cat(
            render_section(traits, |x: TraitDeclView| render_trait(snap, x)), newline()),
            render_section(types, |x: DeclView| render_decl(snap, nomos, x))),
        BodyView::Sema { records, tables } => cat(cat(
            render_section(records, |x: TypeDeclView| render_type_decl(snap, x)), newline()),
            render_section(tables, |x: TableDeclaration| render_table(snap, x))),
    }
}

/// Append the sections of a body.
#[verifier::spinoff_prover]
#[verifier::rlimit(80)]
pub fn write_body(out: &mut Vec<char>, snap: &TextualMetadataSnapshot, nomos: EncodedName, body: &BootstrapBody) -> (r: Result<(), EncodedName>)
    requires
        snap.wf(),
    ensures
        appended(*snap, r, render_body(*snap, nomos, body_view(*body)), old(out)@, final(out)@),
{
    reveal(render_body);
    let ghost start = out@;
    match body {
        BootstrapBody::Interface(b) => {
            proof {
                assert(b.inputs@.map_values(|e: RoleEntry| super::declare::role_entry_view(e)) =~= b.inputs@.map_values(|x: RoleEntry| role_entry_view(x)));
                assert(b.outputs@.map_values(|e: RoleEntry| super::declare::role_entry_view(e)) =~= b.outputs@.map_values(|x: RoleEntry| role_entry_view(x)));
                assert(b.refusals@.map_values(|e: RoleEntry| super::declare::role_entry_view(e)) =~= b.refusals@.map_values(|x: RoleEntry| role_entry_view(x)));
                assert(b.types@.map_values(|d: Declaration| super::declare::decl_view(d)) =~= b.types@.map_values(|x: Declaration| decl_view(x)));
            }
            if let Err(missing) = write_role_section(out, snap, &b.inputs) {
                return Err(missing);
            }
            let ghost a1 = out@;
            out.push('\n');
            if let Err(missing) = write_role_section(out, snap, &b.outputs) {
                return Err(missing);
            }
            let ghost a2 = out@;
            out.push('\n');
            if let Err(missing) = write_role_section(out, snap, &b.refusals) {
                return Err(missing);
            }
            let ghost a3 = out@;
            out.push('\n');
            if let Err(missing) = write_decl_section(out, snap, nomos, &b.types) {
                return Err(missing);
            }
            proof {
                let t1 = render_section(b.inputs@.map_values(|x: RoleEntry| role_entry_view(x)), |x: RoleEntryView| render_role_entry(*snap, x)).unwrap();
                let t2 = render_section(b.outputs@.map_values(|x: RoleEntry| role_entry_view(x)), |x: RoleEntryView| render_role_entry(*snap, x)).unwrap();
                let t3 = render_section(b.refusals@.map_values(|x: RoleEntry| role_entry_view(x)), |x: RoleEntryView| render_role_entry(*snap, x)).unwrap();
                let t4 = render_section(b.types@.map_values(|x: Declaration| decl_view(x)), |x: DeclView| render_decl(*snap, nomos, x)).unwrap();
                assert(out@ =~= start + ((((((t1 + seq!['\n']) + t2) + seq!['\n']) + t3) + seq!['\n']) + t4));
            }
            Ok(())
        },
        BootstrapBody::Nexus(b) => {
            proof {
                assert(b.traits@.map_values(|t: TraitDeclaration| super::declare::trait_view(t)) =~= b.traits@.map_values(|x: TraitDeclaration| trait_view(x)));
                assert(b.types@.map_values(|d: Declaration| super::declare::decl_view(d)) =~= b.types@.map_values(|x: Declaration| decl_view(x)));
            }
            if let Err(missing) = write_trait_section(out, snap, &b.traits) {
                return Err(missing);
            }
            let ghost a1 = out@;
            out.push('\n');
            if let Err(missing) = write_decl_section(out, snap, nomos, &b.types) {
                return Err(missing);
            }
            proof {
                let t1 = render_section(b.traits@.map_values(|x: TraitDeclaration| trait_view(x)), |x: TraitDeclView| render_trait(*snap, x)).unwrap();
                let t2 = render_section(b.types@.map_values(|x: Declaration| decl_view(x)), |x: DeclView| render_decl(*snap, nomos, x)).unwrap();
                assert(out@ =~= start + ((t1 + seq!['\n']) + t2));
            }
            Ok(())
        },
        BootstrapBody::Sema(b) => {
            proof {
                assert(b.record_types@.map_values(|d: TypeDeclaration| super::declare::type_decl_view(d)) =~= b.record_types@.map_values(|x: TypeDeclaration| type_decl_view(x)));
                assert(b.tables@ =~= b.tables@.map_values(|x: TableDeclaration| table_identity_view(x)));
            }
            if let Err(missing) = write_type_section(out, snap, &b.record_types) {
                return Err(missing);
            }
            let ghost a1 = out@;
            out.push('\n');
            if let Err(missing) = write_table_section(out, snap, &b.tables) {
                return Err(missing);
            }
            proof {
                let t1 = render_section(b.record_types@.map_values(|x: TypeDeclaration| type_decl_view(x)), |x: TypeDeclView| render_type_decl(*snap, x)).unwrap();
                let t2 = render_section(b.tables@.map_values(|x: TableDeclaration| table_identity_view(x)), |x: TableDeclaration| render_table(*snap, x)).unwrap();
                assert(out@ =~= start + ((t1 + seq!['\n']) + t2));
            }
            Ok(())
        },
    }
}


/// Parts separated by one character.
pub open spec fn sep_join(parts: Seq<Seq<char>>, sep: char) -> Seq<char>
    decreases parts.len(),
{
    if parts.len() == 0 {
        Seq::empty()
    } else if parts.len() == 1 {
        parts[0]
    } else {
        sep_join(parts.drop_last(), sep) + seq![sep] + parts.last()
    }
}

pub open spec fn strings_view(parts: Seq<String>) -> Seq<Seq<char>> {
    parts.map_values(|s: String| s@)
}

/// `module:path.[Name Other]`.
pub open spec fn render_import(e: ImportEntry) -> Seq<char> {
    sep_join(strings_view(e.module@), ':') + seq!['.', '['] + sep_join(strings_view(e.imported_names@), ' ') + seq![']']
}

/// The explicit square import vector and its line break.
pub open spec fn render_imports(imports: Seq<ImportEntry>) -> Seq<char> {
    seq!['['] + sep_join(imports.map_values(|e: ImportEntry| render_import(e)), ' ') + seq![']', '\n']
}

/// Split a text at every `sep`, left to right: `current` is the part read so
/// far, `acc` the finished parts.
pub open spec fn split_at(t: Seq<char>, sep: char, current: Seq<char>, acc: Seq<Seq<char>>) -> Seq<Seq<char>>
    decreases t.len(),
{
    if t.len() == 0 {
        acc.push(current)
    } else if t[0] == sep {
        split_at(t.drop_first(), sep, Seq::empty(), acc.push(current))
    } else {
        split_at(t.drop_first(), sep, current.push(t[0]), acc)
    }
}

/// The planner's module split is the split at `:`.
proof fn lemma_split_colon_is_split_at(t: Seq<char>, current: Seq<char>, acc: Seq<Seq<char>>)
    ensures
        split_colon(t, current, acc) == split_at(t, ':', current, acc),
    decreases t.len(),
{
    if t.len() > 0 {
        if t[0] == ':' {
            lemma_split_colon_is_split_at(t.drop_first(), Seq::empty(), acc.push(current));
        } else {
            lemma_split_colon_is_split_at(t.drop_first(), current.push(t[0]), acc);
        }
    }
}

/// A text without `sep` extends the current part.
proof fn lemma_split_plain(x: Seq<char>, sep: char, current: Seq<char>, acc: Seq<Seq<char>>)
    requires
        !x.contains(sep),
    ensures
        split_at(x, sep, current, acc) == acc.push(current + x),
    decreases x.len(),
{
    if x.len() == 0 {
        assert(current + x =~= current);
    } else {
        assert(x[0] != sep);
        let rest = x.drop_first();
        assert(!rest.contains(sep)) by {
            if rest.contains(sep) {
                let i = choose|i: int| 0 <= i < rest.len() && rest[i] == sep;
                assert(x[i + 1] == sep);
            }
        }
        lemma_split_plain(rest, sep, current.push(x[0]), acc);
        assert(current.push(x[0]) + rest =~= current + x);
    }
}

/// Splitting a concatenation continues from the state the first part leaves.
proof fn lemma_split_concat(a: Seq<char>, b: Seq<char>, sep: char, current: Seq<char>, acc: Seq<Seq<char>>)
    ensures
        split_at(a + b, sep, current, acc) == split_at(b, sep, split_at(a, sep, current, acc).last(),
            split_at(a, sep, current, acc).drop_last()),
    decreases a.len(),
{
    if a.len() == 0 {
        assert(a + b =~= b);
        assert(acc.push(current).drop_last() =~= acc);
    } else {
        assert((a + b)[0] == a[0]);
        assert((a + b).drop_first() =~= a.drop_first() + b);
        if a[0] == sep {
            lemma_split_concat(a.drop_first(), b, sep, Seq::empty(), acc.push(current));
        } else {
            lemma_split_concat(a.drop_first(), b, sep, current.push(a[0]), acc);
        }
    }
}

/// Joining parts that do not hold the separator, then splitting at it, gives
/// the parts back.
pub proof fn lemma_split_sep_join(parts: Seq<Seq<char>>, sep: char)
    requires
        parts.len() > 0,
        forall|i: int| 0 <= i < parts.len() ==> !(#[trigger] parts[i]).contains(sep),
    ensures
        split_at(sep_join(parts, sep), sep, Seq::empty(), Seq::empty()) == parts,
    decreases parts.len(),
{
    if parts.len() == 1 {
        lemma_split_plain(parts[0], sep, Seq::empty(), Seq::empty());
        assert(Seq::<char>::empty() + parts[0] =~= parts[0]);
        assert(Seq::<Seq<char>>::empty().push(parts[0]) =~= parts);
    } else {
        let init = parts.drop_last();
        let last = parts.last();
        assert(!last.contains(sep)) by {
            assert(parts[parts.len() - 1] == last);
        }
        assert forall|i: int| 0 <= i < init.len() implies !(#[trigger] init[i]).contains(sep) by {
            assert(init[i] == parts[i]);
        }
        lemma_split_sep_join(init, sep);
        let a = sep_join(init, sep);
        let b = seq![sep] + last;
        assert(sep_join(parts, sep) =~= a + b);
        lemma_split_concat(a, b, sep, Seq::empty(), Seq::empty());
        assert(b[0] == sep);
        assert(b.drop_first() =~= last);
        assert(init.drop_last().push(init.last()) =~= init);
        lemma_split_plain(last, sep, Seq::empty(), init);
        assert(Seq::<char>::empty() + last =~= last);
        assert(init.push(last) =~= parts);
    }
}

/// Parts joined by a separator, with one more separator at the end, are each
/// part followed by the separator.
pub proof fn lemma_sep_join_terminated(parts: Seq<Seq<char>>, sep: char)
    requires
        parts.len() > 0,
    ensures
        sep_join(parts, sep) + seq![sep] == parts.map_values(|p: Seq<char>| p + seq![sep]).flatten(),
    decreases parts.len(),
{
    let g = |p: Seq<char>| p + seq![sep];
    if parts.len() == 1 {
        assert(parts.map_values(g) =~= Seq::<Seq<char>>::empty().push(g(parts[0])));
        Seq::<Seq<char>>::empty().lemma_flatten_push(g(parts[0]));
        assert(Seq::<Seq<char>>::empty().flatten() =~= Seq::<char>::empty());
        assert(Seq::<char>::empty() + g(parts[0]) =~= g(parts[0]));
    } else {
        let init = parts.drop_last();
        lemma_sep_join_terminated(init, sep);
        assert(parts.map_values(g) =~= init.map_values(g).push(g(parts.last())));
        init.map_values(g).lemma_flatten_push(g(parts.last()));
        assert((sep_join(init, sep) + seq![sep] + parts.last()) + seq![sep]
            =~= (sep_join(init, sep) + seq![sep]) + g(parts.last()));
    }
}

/// The import vector is `[`, each import's rendering followed by a single
/// space with the last space dropped, `]` and a line break; with no imports
/// it is `[]` and a line break.
pub proof fn lemma_imports_rendering(imports: Seq<ImportEntry>)
    ensures
        imports.len() == 0 ==> render_imports(imports) == seq!['[', ']', '\n'],
        imports.len() > 0 ==> render_imports(imports) == seq!['[']
            + imports.map_values(|e: ImportEntry| render_import(e) + seq![' ']).flatten().drop_last() + seq![']', '\n'],
{
    let v = imports.map_values(|e: ImportEntry| render_import(e));
    if imports.len() == 0 {
        assert(v.len() == 0);
        assert(render_imports(imports) =~= seq!['[', ']', '\n']);
    } else {
        lemma_sep_join_terminated(v, ' ');
        assert(v.map_values(|p: Seq<char>| p + seq![' ']) =~= imports.map_values(|e: ImportEntry| render_import(e) + seq![' ']));
        let j = sep_join(v, ' ');
        assert((j + seq![' ']).drop_last() =~= j);
    }
}

/// An import is written as its module path, `.[`, its imported names and
/// `]`: the planner's module split of the text before `.[` gives back the
/// module path, and splitting the text between `.[` and `]` at each single
/// space gives back the imported names, in order.
pub proof fn lemma_import_rendering(e: ImportEntry)
    requires
        e.module@.len() > 0,
        e.imported_names@.len() > 0,
        forall|i: int| 0 <= i < e.module@.len() ==> !(#[trigger] e.module@[i])@.contains(':'),
        forall|i: int| 0 <= i < e.imported_names@.len() ==> !(#[trigger] e.imported_names@[i])@.contains(' '),
    ensures
        exists|m: Seq<char>, n: Seq<char>| #![trigger module_segments(m), split_at(n, ' ', Seq::empty(), Seq::empty())]
            render_import(e) == m + seq!['.', '['] + n + seq![']']
            && module_segments(m) == strings_view(e.module@)
            && split_at(n, ' ', Seq::empty(), Seq::empty()) == strings_view(e.imported_names@),
{
    let module = strings_view(e.module@);
    let names = strings_view(e.imported_names@);
    assert forall|i: int| 0 <= i < module.len() implies !(#[trigger] module[i]).contains(':') by {
        assert(module[i] == e.module@[i]@);
    }
    assert forall|i: int| 0 <= i < names.len() implies !(#[trigger] names[i]).contains(' ') by {
        assert(names[i] == e.imported_names@[i]@);
    }
    let m = sep_join(module, ':');
    let n = sep_join(names, ' ');
    lemma_split_sep_join(module, ':');
    lemma_split_sep_join(names, ' ');
    lemma_split_colon_is_split_at(m, Seq::empty(), Seq::empty());
    assert(render_import(e) == m + seq!['.', '['] + n + seq![']']);
    assert(module_segments(m) == module);
    assert(split_at(n, ' ', Seq::empty(), Seq::empty()) == names);
}

#[verifier::spinoff_prover]
#[verifier::rlimit(40)]
fn push_joined(out: &mut Vec<char>, parts: &Vec<String>, sep: char)
    ensures
        final(out)@ == old(out)@ + sep_join(strings_view(parts@), sep),
{
    let ghost v = strings_view(parts@);
    let ghost start = out@;
    let mut i: usize = 0;
    proof {
        assert(v.subrange(0, 0) =~= Seq::<Seq<char>>::empty());
        assert(start + Seq::<char>::empty() =~= start);
    }
    while i < parts.len()
        invariant
            i <= parts@.len(),
            v == strings_view(parts@),
            out@ == start + sep_join(v.subrange(0, i as int), sep),
        decreases parts@.len() - i,
    {
        let ghost next = v.subrange(0, i + 1);
        let ghost prev = sep_join(v.subrange(0, i as int), sep);
        proof {
            assert(next.drop_last() =~= v.subrange(0, i as int));
            assert(next.last() == parts@[i as int]@);
        }
        if i > 0 {
            out.push(sep);
        }
        push_str(out, parts[i].as_str());
        proof {
            if i == 0 {
                assert(next.len() == 1 && next[0] == parts@[0]@);
                assert(out@ =~= start + parts@[0]@);
            } else {
                assert(out@ =~= start + ((prev + seq![sep]) + parts@[i as int]@));
            }
        }
        i = i + 1;
    }
    proof {
        assert(v.subrange(0, i as int) =~= v);
    }
}

#[verifier::spinoff_prover]
#[verifier::rlimit(40)]
fn write_import(out: &mut Vec<char>, e: &ImportEntry)
    ensures
        final(out)@ == old(out)@ + render_import(*e),
{
    let ghost start = out@;
    push_joined(out, &e.module, ':');
    out.push('.');
    out.push('[');
    push_joined(out, &e.imported_names, ' ');
    out.push(']');
    proof {
        assert(out@ =~= start + render_import(*e));
    }
}

/// Append the import vector.
#[verifier::spinoff_prover]
#[verifier::rlimit(40)]
pub fn write_imports(out: &mut Vec<char>, imports: &Vec<ImportEntry>)
    ensures
        final(out)@ == old(out)@ + render_imports(imports@),
{
    let ghost v = imports@.map_values(|e: ImportEntry| render_import(e));
    let ghost start = out@;
    out.push('[');
    let ghost s1 = out@;
    let mut i: usize = 0;
    proof {
        assert(v.subrange(0, 0) =~= Seq::<Seq<char>>::empty());
        assert(s1 + Seq::<char>::empty() =~= s1);
    }
    while i < imports.len()
        invariant
            i <= imports@.len(),
            v == imports@.map_values(|e: ImportEntry| render_import(e)),
            out@ == s1 + sep_join(v.subrange(0, i as int), ' '),
        decreases imports@.len() - i,
    {
        let ghost next = v.subrange(0, i + 1);
        let ghost prev = sep_join(v.subrange(0, i as int), ' ');
        proof {
            assert(next.drop_last() =~= v.subrange(0, i as int));
            assert(next.last() == render_import(imports@[i as int]));
        }
        if i > 0 {
            out.push(' ');
        }
        write_import(out, &imports[i]);
        proof {
            if i == 0 {
                assert(next.len() == 1 && next[0] == render_import(imports@[0]));
                assert(out@ =~= s1 + render_import(imports@[0]));
            } else {
                assert(out@ =~= s1 + ((prev + seq![' ']) + render_import(imports@[i as int])));
            }
        }
        i = i + 1;
    }
    out.push(']');
    out.push('\n');
    proof {
        assert(v.subrange(0, i as int) =~= v);
        assert(out@ =~= start + render_imports(imports@));
    }
}

/// The canonical decimal digit.
pub open spec fn digit(d: int) -> char {
    if d == 0 { '0' } else if d == 1 { '1' } else if d == 2 { '2' } else if d == 3 { '3' } else if d == 4 { '4' }
    else if d == 5 { '5' } else if d == 6 { '6' } else if d == 7 { '7' } else if d == 8 { '8' } else { '9' }
}

/// The canonical decimal spelling of a number: no sign, no leading zero.
pub open spec fn decimal(n: nat) -> Seq<char>
    decreases n,
{
    if n < 10 {
        seq![digit(n as int)]
    } else {
        decimal(n / 10) + seq![digit((n % 10) as int)]
    }
}

fn digit_exec(d: u64) -> (r: char)
    requires
        d < 10,
    ensures
        r == digit(d as int),
{
    match d {
        0 => '0',
        1 => '1',
        2 => '2',
        3 => '3',
        4 => '4',
        5 => '5',
        6 => '6',
        7 => '7',
        8 => '8',
        _ => '9',
    }
}

/// Append the canonical decimal spelling of a number.
#[verifier::spinoff_prover]
#[verifier::rlimit(40)]
pub fn push_decimal(out: &mut Vec<char>, n: u64)
    ensures
        final(out)@ == old(out)@ + decimal(n as nat),
    decreases n,
{
    if n >= 10 {
        push_decimal(out, n / 10);
    }
    out.push(digit_exec(n % 10));
    proof {
        if n >= 10 {
            assert(old(out)@ + decimal(n as nat) =~= old(out)@ + decimal((n / 10) as nat) + seq![digit((n % 10) as int)]);
        }
    }
}

/// `Kind.{Major Minor Patch}` and its line break.
pub open spec fn render_header(snap: TextualMetadataSnapshot, kind: EncodedName, v: EthosVersion) -> Option<Seq<char>> {
    cat(sp(snap, kind), Some(seq!['.', '{'] + decimal(v.major as nat) + seq![' '] + decimal(v.minor as nat) + seq![' ']
        + decimal(v.patch as nat) + seq!['}', '\n']))
}

/// The whole canonical projection of a draft: header, imports, and the
/// braced body sections.
pub open spec fn render_draft(snap: TextualMetadataSnapshot, ids: BootstrapPriorIdentities, draft: PreparedBootstrapDraft) -> Option<Seq<char>> {
    let header = draft.decoded.document.header;
    cat(cat(cat(cat(render_header(snap, kind_prior(ids, header.kind), header.version),
        Some(render_imports(draft.decoded.source.imports@))), Some(seq!['{', '\n'])),
        render_body(snap, ids.stream_nomos, body_view(draft.decoded.document.body))), Some(seq!['\n', '}', '\n']))
}

#[verifier::spinoff_prover]
#[verifier::rlimit(40)]
fn write_header(out: &mut Vec<char>, snap: &TextualMetadataSnapshot, kind: EncodedName, v: EthosVersion) -> (r: Result<(), EncodedName>)
    requires
        snap.wf(),
    ensures
        appended(*snap, r, render_header(*snap, kind, v), old(out)@, final(out)@),
{
    let ghost start = out@;
    if let Err(missing) = write_spelling(out, snap, kind) {
        return Err(missing);
    }
    out.push('.');
    out.push('{');
    push_decimal(out, v.major);
    out.push(' ');
    push_decimal(out, v.minor);
    out.push(' ');
    push_decimal(out, v.patch);
    out.push('}');
    out.push('\n');
    proof {
        assert(out@ =~= start + (sp(*snap, kind).unwrap() + (seq!['.', '{'] + decimal(v.major as nat) + seq![' '] + decimal(v.minor as nat)
            + seq![' '] + decimal(v.patch as nat) + seq!['}', '\n'])));
    }
    Ok(())
}

/// Append the canonical projection of a draft.
#[verifier::spinoff_prover]
pub fn write_draft(out: &mut Vec<char>, snap: &TextualMetadataSnapshot, priors: &super::catalog::BootstrapPriorVocabulary, draft: &PreparedBootstrapDraft) -> (r: Result<(), EncodedName>)
    requires
        snap.wf(),
    ensures
        appended(*snap, r, render_draft(*snap, priors.spec_identities(), *draft), old(out)@, final(out)@),
{
    let ghost start = out@;
    let header = draft.decoded.document.header;
    let kind = kind_identity(priors, header.kind);
    if let Err(missing) = write_header(out, snap, kind, header.version) {
        return Err(missing);
    }
    write_imports(out, &draft.decoded.source.imports);
    out.push('{');
    out.push('\n');
    let ghost nomos = priors.spec_identities().stream_nomos;
    let ghost bv = body_view(draft.decoded.document.body);
    if let Err(missing) = write_body(out, snap, priors.identities().stream_nomos, &draft.decoded.document.body) {
        return Err(missing);
    }
    out.push('\n');
    out.push('}');
    out.push('\n');
    proof {
        let h = render_header(*snap, kind, header.version).unwrap();
        let im = render_imports(draft.decoded.source.imports@);
        let b = render_body(*snap, nomos, bv).unwrap();
        assert(out@ =~= start + ((((h + im) + seq!['{', '\n']) + b) + seq!['\n', '}', '\n']));
    }
    Ok(())
}

impl<Authority: BootstrapNamingAuthority> BootstrapReader<Authority> {
    /// Validate a transaction, then write its one canonical authored
    /// projection over the proposed name snapshot.
    #[verifier::spinoff_prover]
    #[verifier::rlimit(40)]
    pub fn write(&self, transaction: &PreparedBootstrapTransaction<Authority>) -> (r: Result<String, BootstrapWriteError>)
        requires
            self.wf(),
            transaction.wf(),
        ensures
            !self.spec_authority().receipt_valid(transaction.spec_draft(), transaction.spec_receipt())
                ==> r == Err::<String, BootstrapWriteError>(
                BootstrapWriteError::InvalidModel(BootstrapReadError::NamingAuthorityReceiptRejected),
            ),
            self.spec_authority().receipt_valid(transaction.spec_draft(), transaction.spec_receipt())
                && !prepared_valid(self.spec_catalog(), transaction.spec_draft()) ==> r matches Err(
                BootstrapWriteError::InvalidModel(_),
            ),
            self.spec_authority().receipt_valid(transaction.spec_draft(), transaction.spec_receipt())
                && prepared_valid(self.spec_catalog(), transaction.spec_draft()) ==> match render_draft(
                transaction.spec_draft().naming_transition.spec_after(),
                self.spec_catalog().spec_priors(),
                transaction.spec_draft(),
            ) {
                Some(t) => r matches Ok(s) && s@ == t,
                None => r matches Err(BootstrapWriteError::MissingSpelling(id))
                    && sp(transaction.spec_draft().naming_transition.spec_after(), id) is None,
            },
            r is Ok ==> self.spec_authority().receipt_valid(transaction.spec_draft(), transaction.spec_receipt()),
            !prepared_valid(self.spec_catalog(), transaction.spec_draft()) ==> r is Err,
            r matches Ok(s) ==> prepared_valid(self.spec_catalog(), transaction.spec_draft())
                && render_draft(transaction.spec_draft().naming_transition.spec_after(), self.spec_catalog().spec_priors(),
                    transaction.spec_draft()) == Some(s@),
            r matches Err(BootstrapWriteError::MissingSpelling(id)) ==>
                render_draft(transaction.spec_draft().naming_transition.spec_after(), self.spec_catalog().spec_priors(),
                    transaction.spec_draft()) is None
                && sp(transaction.spec_draft().naming_transition.spec_after(), id) is None,
    {
        if let Err(e) = self.validate_transaction(transaction) {
            return Err(BootstrapWriteError::InvalidModel(e));
        }
        let draft = transaction.draft();
        let snap = draft.naming_transition.after();
        let mut out: Vec<char> = Vec::new();
        match write_draft(&mut out, snap, self.catalog().priors(), draft) {
            Ok(()) => {
                proof {
                    assert(out@ =~= Seq::<char>::empty() + out@);
                }
                Ok(string_of(&out))
            },
            Err(missing) => Err(BootstrapWriteError::MissingSpelling(missing)),
        }
    }
}

} // verus!
