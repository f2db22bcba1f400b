//! The canonical source projection of imports: one entry per module in
//! lexicographic path order, each naming its imported identities once in
//! canonical identity order.
use vstd::prelude::*;

use crate::identity::EncodedName;
use super::catalog::{
    bytes_equal, bytes_less, bytes_less_exec, lemma_bytes_less_total,
    lemma_bytes_less_transitive, path_view, CanonicalIdentityOrder, TextualMetadataSnapshot,
};
use super::error::BootstrapReadError;
use super::model::ImportEntry;
use super::ordering::key_bytes;
use super::planning::ImportView;
use super::reader::{import_view, imports_view};

verus! {

/// Code-point lexicographic order on spellings (the order of their UTF-8
/// bytes).
pub open spec fn text_less(a: Seq<char>, b: Seq<char>) -> bool
    decreases a.len(),
{
    if a.len() == 0 {
        b.len() > 0
    } else if b.len() == 0 {
        false
    } else if a[0] != b[0] {
        a[0] < b[0]
    } else {
        text_less(a.drop_first(), b.drop_first())
    }
}

pub proof fn lemma_text_less_irreflexive(a: Seq<char>)
    ensures
        !text_less(a, a),
    decreases a.len(),
{
    if a.len() > 0 {
        lemma_text_less_irreflexive(a.drop_first());
    }
}

pub proof fn lemma_text_less_transitive(a: Seq<char>, b: Seq<char>, c: Seq<char>)
    requires
        text_less(a, b),
        text_less(b, c),
    ensures
        text_less(a, c),
    decreases a.len(),
{
    if a.len() > 0 && b.len() > 0 && c.len() > 0 {
        if a[0] == b[0] && b[0] == c[0] {
            lemma_text_less_transitive(a.drop_first(), b.drop_first(), c.drop_first());
        } else {
            assert(a[0] <= b[0] && b[0] <= c[0]);
        }
    }
}

pub proof fn lemma_text_less_total(a: Seq<char>, b: Seq<char>)
    requires
        a != b,
    ensures
        text_less(a, b) || text_less(b, a),
    decreases a.len(),
{
    if a.len() > 0 && b.len() > 0 && a[0] == b[0] {
        if a.drop_first() == b.drop_first() {
            assert(a =~= seq![a[0]] + a.drop_first());
            assert(b =~= seq![b[0]] + b.drop_first());
        }
        lemma_text_less_total(a.drop_first(), b.drop_first());
    } else if a.len() == 0 && b.len() == 0 {
        assert(a =~= b);
    }
}

/// Lexicographic order on module paths, segment by segment.
pub open spec fn path_less(a: Seq<Seq<char>>, b: Seq<Seq<char>>) -> bool
    decreases a.len(),
{
    if a.len() == 0 {
        b.len() > 0
    } else if b.len() == 0 {
        false
    } else if a[0] != b[0] {
        text_less(a[0], b[0])
    } else {
        path_less(a.drop_first(), b.drop_first())
    }
}

pub proof fn lemma_path_less_irreflexive(a: Seq<Seq<char>>)
    ensures
        !path_less(a, a),
    decreases a.len(),
{
    if a.len() > 0 {
        lemma_path_less_irreflexive(a.drop_first());
    }
}

pub proof fn lemma_path_less_transitive(a: Seq<Seq<char>>, b: Seq<Seq<char>>, c: Seq<Seq<char>>)
    requires
        path_less(a, b),
        path_less(b, c),
    ensures
        path_less(a, c),
    decreases a.len(),
{
    if a.len() > 0 && b.len() > 0 && c.len() > 0 {
        if a[0] == b[0] && b[0] == c[0] {
            lemma_path_less_transitive(a.drop_first(), b.drop_first(), c.drop_first());
        } else if a[0] == b[0] {
        } else if b[0] == c[0] {
        } else {
            lemma_text_less_transitive(a[0], b[0], c[0]);
            if a[0] == c[0] {
                lemma_text_less_irreflexive(a[0]);
            }
        }
    }
}

pub proof fn lemma_path_less_total(a: Seq<Seq<char>>, b: Seq<Seq<char>>)
    requires
        a != b,
    ensures
        path_less(a, b) || path_less(b, a),
    decreases a.len(),
{
    if a.len() > 0 && b.len() > 0 && a[0] == b[0] {
        if a.drop_first() == b.drop_first() {
            assert(a =~= seq![a[0]] + a.drop_first());
            assert(b =~= seq![b[0]] + b.drop_first());
        }
        lemma_path_less_total(a.drop_first(), b.drop_first());
    } else if a.len() == 0 && b.len() == 0 {
        assert(a =~= b);
    } else if a.len() > 0 && b.len() > 0 {
        lemma_text_less_total(a[0], b[0]);
    }
}

fn text_less_exec(a: &str, b: &str) -> (r: bool)
    ensures
        r == text_less(a@, b@),
{
    let x = crate::text::chars_of(a);
    let y = crate::text::chars_of(b);
    let mut i: usize = 0;
    proof {
        assert(x@.skip(0) =~= x@);
        assert(y@.skip(0) =~= y@);
    }
    while i < x.len() && i < y.len()
        invariant
            x@ == a@,
            y@ == b@,
            i <= x@.len(),
            i <= y@.len(),
            text_less(a@, b@) == text_less(x@.skip(i as int), y@.skip(i as int)),
        decreases x@.len() - i,
    {
        proof {
            assert(x@.skip(i as int)[0] == x@[i as int]);
            assert(y@.skip(i as int)[0] == y@[i as int]);
            assert(x@.skip(i as int).drop_first() =~= x@.skip(i + 1));
            assert(y@.skip(i as int).drop_first() =~= y@.skip(i + 1));
        }
        if x[i] != y[i] {
            return x[i] < y[i];
        }
        i = i + 1;
    }
    i == x.len() && i < y.len()
}

fn path_less_exec(a: &[String], b: &[String]) -> (r: bool)
    ensures
        r == path_less(path_view(a@), path_view(b@)),
{
    let ghost pa = path_view(a@);
    let ghost pb = path_view(b@);
    let mut i: usize = 0;
    proof {
        assert(pa.skip(0) =~= pa);
        assert(pb.skip(0) =~= pb);
    }
    while i < a.len() && i < b.len()
        invariant
            pa == path_view(a@),
            pb == path_view(b@),
            i <= a@.len(),
            i <= b@.len(),
            path_less(pa, pb) == path_less(pa.skip(i as int), pb.skip(i as int)),
        decreases a@.len() - i,
    {
        proof {
            assert(pa.skip(i as int)[0] == a@[i as int]@);
            assert(pb.skip(i as int)[0] == b@[i as int]@);
            assert(pa.skip(i as int).drop_first() =~= pa.skip(i + 1));
            assert(pb.skip(i as int).drop_first() =~= pb.skip(i + 1));
        }
        if !super::catalog::str_equal(a[i].as_str(), b[i].as_str()) {
            return text_less_exec(a[i].as_str(), b[i].as_str());
        }
        i = i + 1;
    }
    i == a.len() && i < b.len()
}

/// The canonical bytes of an imported name's identity.
pub open spec fn import_key(snapshot: TextualMetadataSnapshot, order: CanonicalIdentityOrder, module: Seq<Seq<char>>, name: Seq<char>) -> Seq<u8> {
    key_bytes(order, snapshot.spec_identity_at(module, None, name).unwrap())
}

/// Some import names `name` at `module`.
pub open spec fn imports_pair(imports: Seq<ImportView>, module: Seq<Seq<char>>, name: Seq<char>) -> bool {
    exists|i: int, j: int| 0 <= i < imports.len() && 0 <= j < imports[i].names.len()
        && (#[trigger] imports[i]).module == module && #[trigger] imports[i].names[j] == name
}

/// Every imported name is recorded at its module and canonically ordered.
pub open spec fn imports_resolvable(snapshot: TextualMetadataSnapshot, order: CanonicalIdentityOrder, imports: Seq<ImportView>) -> bool {
    forall|i: int, j: int| 0 <= i < imports.len() && 0 <= j < imports[i].names.len() ==> {
        let id = snapshot.spec_identity_at((#[trigger] imports[i]).module, None, #[trigger] imports[i].names[j]);
        id is Some && order.spec_contains(id.unwrap())
    }
}

/// Modules in strictly increasing path order; each names strictly increasing
/// identities; the (module, name) pairs are exactly those imported.
pub open spec fn canonical_imports(snapshot: TextualMetadataSnapshot, order: CanonicalIdentityOrder, out: Seq<ImportView>, input: Seq<ImportView>) -> bool {
    &&& forall|i: int, j: int| 0 <= i < j < out.len() ==> path_less((#[trigger] out[i]).module, (#[trigger] out[j]).module)
    &&& forall|i: int| 0 <= i < out.len() ==> (#[trigger] out[i]).names.len() > 0
    &&& forall|i: int, a: int, b: int| 0 <= i < out.len() && 0 <= a < b < out[i].names.len()
        ==> bytes_less(import_key(snapshot, order, (#[trigger] out[i]).module, #[trigger] out[i].names[a]),
            import_key(snapshot, order, out[i].module, #[trigger] out[i].names[b]))
    &&& forall|m: Seq<Seq<char>>, n: Seq<char>| imports_pair(out, m, n) <==> imports_pair(input, m, n)
}


/// Some name of the list is spelled `n`.
pub open spec fn names_contain(names: Seq<String>, n: Seq<char>) -> bool {
    exists|a: int| 0 <= a < names.len() && (#[trigger] names[a])@ == n
}

/// Sorted, nonempty, resolvable entries.
pub open spec fn entries_sorted(snapshot: TextualMetadataSnapshot, order: CanonicalIdentityOrder, out: Seq<ImportView>) -> bool {
    &&& forall|i: int, j: int| 0 <= i < j < out.len() ==> path_less((#[trigger] out[i]).module, (#[trigger] out[j]).module)
    &&& forall|i: int| 0 <= i < out.len() ==> (#[trigger] out[i]).names.len() > 0
    &&& forall|i: int, a: int, b: int| 0 <= i < out.len() && 0 <= a < b < out[i].names.len()
        ==> bytes_less(import_key(snapshot, order, (#[trigger] out[i]).module, #[trigger] out[i].names[a]),
            import_key(snapshot, order, out[i].module, #[trigger] out[i].names[b]))
    &&& forall|i: int, a: int| 0 <= i < out.len() && 0 <= a < out[i].names.len() ==> {
        let id = snapshot.spec_identity_at((#[trigger] out[i]).module, None, #[trigger] out[i].names[a]);
        id is Some && order.spec_contains(id.unwrap())
    }
}

/// Names with one identity at one module are one name.
proof fn lemma_identity_at_injective(snapshot: TextualMetadataSnapshot, m: Seq<Seq<char>>, n1: Seq<char>, n2: Seq<char>)
    requires
        snapshot.wf(),
        snapshot.spec_identity_at(m, None, n1) is Some,
        snapshot.spec_identity_at(m, None, n1) == snapshot.spec_identity_at(m, None, n2),
    ensures
        n1 == n2,
{
    let r = snapshot.spec_records();
    let i1 = choose|i: int| #[trigger] snapshot.record_at(i, m, None, n1);
    let i2 = choose|i: int| #[trigger] snapshot.record_at(i, m, None, n2);
    if i1 != i2 {
        assert(r[i1].encoded_name != r[i2].encoded_name);
    }
}

/// Canonical bytes of a recorded, ordered identity differ from those of
/// another.
proof fn lemma_key_distinct(order: CanonicalIdentityOrder, a: EncodedName, b: EncodedName)
    requires
        order.wf(),
        order.spec_contains(a),
        order.spec_contains(b),
        a != b,
    ensures
        key_bytes(order, a) != key_bytes(order, b),
{
    if key_bytes(order, a) == key_bytes(order, b) {
        super::catalog::lemma_bytes_identify(order, a, b);
    }
}

fn insert_name(
    names: &mut Vec<String>,
    snapshot: &TextualMetadataSnapshot,
    order: &CanonicalIdentityOrder,
    module: &Vec<String>,
    name: &String,
    key: &Vec<u8>,
) -> (changed: bool)
    requires
        snapshot.wf(),
        order.wf(),
        snapshot.spec_identity_at(path_view(module@), None, name@) is Some,
        order.spec_contains(snapshot.spec_identity_at(path_view(module@), None, name@).unwrap()),
        key@ == import_key(*snapshot, *order, path_view(module@), name@),
        forall|a: int, b: int| 0 <= a < b < old(names)@.len() ==> bytes_less(
            import_key(*snapshot, *order, path_view(module@), (#[trigger] old(names)@[a])@),
            import_key(*snapshot, *order, path_view(module@), (#[trigger] old(names)@[b])@)),
        forall|a: int| 0 <= a < old(names)@.len() ==> {
            let id = snapshot.spec_identity_at(path_view(module@), None, (#[trigger] old(names)@[a])@);
            id is Some && order.spec_contains(id.unwrap())
        },
    ensures
        forall|a: int, b: int| 0 <= a < b < final(names)@.len() ==> bytes_less(
            import_key(*snapshot, *order, path_view(module@), (#[trigger] final(names)@[a])@),
            import_key(*snapshot, *order, path_view(module@), (#[trigger] final(names)@[b])@)),
        forall|a: int| 0 <= a < final(names)@.len() ==> {
            let id = snapshot.spec_identity_at(path_view(module@), None, (#[trigger] final(names)@[a])@);
            id is Some && order.spec_contains(id.unwrap())
        },
        forall|n: Seq<char>| #[trigger] names_contain(final(names)@, n) <==> (names_contain(old(names)@, n) || n == name@),
        final(names)@.len() >= old(names)@.len(),
{
    let ghost m = path_view(module@);
    let ghost old_names = names@;
    let mut q: usize = 0;
    while q < names.len() && precedes_key(snapshot, order, module, &names[q], key)
        invariant
            snapshot.wf(),
            order.wf(),
            m == path_view(module@),
            q <= names@.len(),
            names@ == old_names,
            forall|a: int| 0 <= a < q ==> bytes_less(import_key(*snapshot, *order, m, (#[trigger] names@[a])@), key@),
        decreases names@.len() - q,
    {
        q = q + 1;
    }
    if q < names.len() {
        let id = snapshot.identity_at(module.as_slice(), None, names[q].as_str());
        let other = match id {
            Some(other) => other,
            None => {
                proof {
                    assert(false);
                }
                return false;
            },
        };
        let ob = match order.bytes(other) {
            Some(ob) => ob,
            None => {
                proof {
                    assert(false);
                }
                return false;
            },
        };
        if bytes_equal(ob.as_slice(), key.as_slice()) {
            proof {
                let nid = snapshot.spec_identity_at(m, None, name@).unwrap();
                if other != nid {
                    lemma_key_distinct(*order, other, nid);
                }
                lemma_identity_at_injective(*snapshot, m, name@, names@[q as int]@);
                assert forall|n: Seq<char>| #[trigger] names_contain(names@, n) <==> (names_contain(old_names, n) || n == name@) by {
                    if n == name@ {
                        assert(names@[q as int]@ == n);
                    }
                }
            }
            return false;
        }
        proof {
            let ok = import_key(*snapshot, *order, m, names@[q as int]@);
            assert(!bytes_less(ok, key@));
            assert(ok != key@);
            lemma_bytes_less_total(ok, key@);
        }
    }
    names.insert(q, name.clone());
    proof {
        let s = names@;
        assert(s =~= old_names.insert(q as int, s[q as int]));
        assert forall|a: int, b: int| 0 <= a < b < s.len() implies bytes_less(
            import_key(*snapshot, *order, m, (#[trigger] s[a])@), import_key(*snapshot, *order, m, (#[trigger] s[b])@)) by {
            let k = |x: String| import_key(*snapshot, *order, m, x@);
            if b < q {
                assert(s[a] == old_names[a] && s[b] == old_names[b]);
            } else if b == q {
                assert(s[a] == old_names[a]);
            } else if a < q {
                assert(s[a] == old_names[a] && s[b] == old_names[b - 1]);
                assert(bytes_less(k(old_names[a]), key@));
                assert(bytes_less(key@, k(old_names[q as int])));
                if b - 1 > q {
                    lemma_bytes_less_transitive(key@, k(old_names[q as int]), k(old_names[b - 1]));
                }
                lemma_bytes_less_transitive(k(old_names[a]), key@, k(old_names[b - 1]));
            } else if a == q {
                assert(s[b] == old_names[b - 1]);
                if b - 1 > q {
                    lemma_bytes_less_transitive(key@, k(old_names[q as int]), k(old_names[b - 1]));
                }
            } else {
                assert(s[a] == old_names[a - 1] && s[b] == old_names[b - 1]);
            }
        }
        assert forall|a: int| 0 <= a < s.len() implies {
            let id = snapshot.spec_identity_at(m, None, (#[trigger] s[a])@);
            id is Some && order.spec_contains(id.unwrap())
        } by {
            if a < q {
                assert(s[a] == old_names[a]);
            } else if a > q {
                assert(s[a] == old_names[a - 1]);
            }
        }
        assert forall|n: Seq<char>| #[trigger] names_contain(s, n) <==> (names_contain(old_names, n) || n == name@) by {
            if names_contain(s, n) {
                let a = choose|a: int| 0 <= a < s.len() && (#[trigger] s[a])@ == n;
                if a < q {
                    assert(old_names[a] == s[a]);
                } else if a > q {
                    assert(old_names[a - 1] == s[a]);
                }
            }
            if names_contain(old_names, n) {
                let a = choose|a: int| 0 <= a < old_names.len() && (#[trigger] old_names[a])@ == n;
                if a < q {
                    assert(s[a] == old_names[a]);
                } else {
                    assert(s[a + 1] == old_names[a]);
                }
            }
            if n == name@ {
                assert(s[q as int]@ == n);
            }
        }
    }
    true
}

fn precedes_key(
    snapshot: &TextualMetadataSnapshot,
    order: &CanonicalIdentityOrder,
    module: &Vec<String>,
    name: &String,
    key: &Vec<u8>,
) -> (r: bool)
    requires
        snapshot.wf(),
        order.wf(),
    ensures
        r ==> bytes_less(import_key(*snapshot, *order, path_view(module@), name@), key@),
        (snapshot.spec_identity_at(path_view(module@), None, name@) is Some
            && order.spec_contains(snapshot.spec_identity_at(path_view(module@), None, name@).unwrap()))
            ==> (r == bytes_less(import_key(*snapshot, *order, path_view(module@), name@), key@)),
{
    match snapshot.identity_at(module.as_slice(), None, name.as_str()) {
        Some(id) => match order.bytes(id) {
            Some(b) => bytes_less_exec(b.as_slice(), key.as_slice()),
            None => false,
        },
        None => false,
    }
}


/// The pairs of an entry list with one more pair.
pub open spec fn pairs_extended(after: Seq<ImportView>, before: Seq<ImportView>, module: Seq<Seq<char>>, name: Seq<char>) -> bool {
    forall|m: Seq<Seq<char>>, n: Seq<char>| #[trigger] imports_pair(after, m, n) <==> (imports_pair(before, m, n) || (m == module && n == name))
}

#[verifier::rlimit(60)]
fn insert_pair(
    out: &mut Vec<ImportEntry>,
    snapshot: &TextualMetadataSnapshot,
    order: &CanonicalIdentityOrder,
    module: &Vec<String>,
    name: &String,
) -> (r: Result<(), BootstrapReadError>)
    requires
        snapshot.wf(),
        order.wf(),
        entries_sorted(*snapshot, *order, imports_view(old(out)@)),
    ensures
        r is Ok <==> (snapshot.spec_identity_at(path_view(module@), None, name@) is Some
            && order.spec_contains(snapshot.spec_identity_at(path_view(module@), None, name@).unwrap())),
        r is Ok ==> entries_sorted(*snapshot, *order, imports_view(final(out)@))
            && pairs_extended(imports_view(final(out)@), imports_view(old(out)@), path_view(module@), name@),
{
    let ghost m = path_view(module@);
    let ghost ov = imports_view(out@);
    let id = match snapshot.identity_at(module.as_slice(), None, name.as_str()) {
        Some(id) => id,
        None => {
            return Err(BootstrapReadError::MissingTextualLookup { module: super::catalog::clone_path(module.as_slice()), name: name.clone() });
        },
    };
    let key = match order.bytes(id) {
        Some(b) => b.clone(),
        None => {
            return Err(BootstrapReadError::MissingCanonicalIdentity(id));
        },
    };
    let mut p: usize = 0;
    while p < out.len() && path_less_exec(out[p].module.as_slice(), module.as_slice())
        invariant
            p <= out@.len(),
            ov == imports_view(out@),
            m == path_view(module@),
            forall|a: int| 0 <= a < p ==> path_less((#[trigger] ov[a]).module, m),
        decreases out@.len() - p,
    {
        proof {
            assert(ov[p as int] == import_view(out@[p as int]));
        }
        p = p + 1;
    }
    proof {
        assert(ov.len() == out@.len());
    }
    if p < out.len() && super::catalog::paths_equal(out[p].module.as_slice(), module.as_slice()) {
        proof {
            super::catalog::lemma_same_path_view(out@[p as int].module@, module@);
            assert(ov[p as int] == import_view(out@[p as int]));
            assert(ov[p as int].module == m);
        }
        let mut entry = out.remove(p);
        let ghost old_names = entry.imported_names@;
        proof {
            assert(ov[p as int].names == old_names.map_values(|s: String| s@));
            assert forall|a: int, b: int| 0 <= a < b < old_names.len() implies bytes_less(
                import_key(*snapshot, *order, path_view(module@), (#[trigger] old_names[a])@),
                import_key(*snapshot, *order, path_view(module@), (#[trigger] old_names[b])@)) by {
                assert(ov[p as int].names[a] == old_names[a]@);
                assert(ov[p as int].names[b] == old_names[b]@);
            }
            assert forall|a: int| 0 <= a < old_names.len() implies {
                let x = snapshot.spec_identity_at(path_view(module@), None, (#[trigger] old_names[a])@);
                x is Some && order.spec_contains(x.unwrap())
            } by {
                assert(ov[p as int].names[a] == old_names[a]@);
            }
        }
        insert_name(&mut entry.imported_names, snapshot, order, module, name, &key);
        let ghost new_names = entry.imported_names@;
        out.insert(p, entry);
        proof {
            let nv = imports_view(out@);
            assert(nv =~= ov.update(p as int, import_view(entry)));
            let ne = nv[p as int];
            assert(ne.module == m);
            assert(ne.names == new_names.map_values(|s: String| s@));
            assert forall|i: int, j: int| 0 <= i < j < nv.len() implies path_less((#[trigger] nv[i]).module, (#[trigger] nv[j]).module) by {
                assert(nv[i].module == ov[i].module);
                assert(nv[j].module == ov[j].module);
            }
            assert forall|i: int| 0 <= i < nv.len() implies (#[trigger] nv[i]).names.len() > 0 by {
                if i != p {
                    assert(nv[i] == ov[i]);
                }
            }
            assert forall|i: int, a: int, b: int| 0 <= i < nv.len() && 0 <= a < b < nv[i].names.len()
                implies bytes_less(import_key(*snapshot, *order, (#[trigger] nv[i]).module, #[trigger] nv[i].names[a]),
                    import_key(*snapshot, *order, nv[i].module, #[trigger] nv[i].names[b])) by {
                if i != p {
                    assert(nv[i] == ov[i]);
                } else {
                    assert(nv[i].names[a] == new_names[a]@);
                    assert(nv[i].names[b] == new_names[b]@);
                }
            }
            assert forall|i: int, a: int| 0 <= i < nv.len() && 0 <= a < nv[i].names.len() implies {
                let x = snapshot.spec_identity_at((#[trigger] nv[i]).module, None, #[trigger] nv[i].names[a]);
                x is Some && order.spec_contains(x.unwrap())
            } by {
                if i != p {
                    assert(nv[i] == ov[i]);
                } else {
                    assert(nv[i].names[a] == new_names[a]@);
                }
            }
            assert forall|mm: Seq<Seq<char>>, n: Seq<char>| #[trigger] imports_pair(nv, mm, n) <==> (imports_pair(ov, mm, n) || (mm == m && n == name@)) by {
                if imports_pair(nv, mm, n) {
                    let (i, j) = choose|i: int, j: int| 0 <= i < nv.len() && 0 <= j < nv[i].names.len()
                        && (#[trigger] nv[i]).module == mm && #[trigger] nv[i].names[j] == n;
                    if i != p {
                        assert(ov[i] == nv[i]);
                    } else {
                        assert(new_names[j]@ == n);
                        assert(names_contain(new_names, n));
                        if names_contain(old_names, n) {
                            let a = choose|a: int| 0 <= a < old_names.len() && (#[trigger] old_names[a])@ == n;
                            assert(ov[p as int].names[a] == n);
                        }
                    }
                }
                if imports_pair(ov, mm, n) {
                    let (i, j) = choose|i: int, j: int| 0 <= i < ov.len() && 0 <= j < ov[i].names.len()
                        && (#[trigger] ov[i]).module == mm && #[trigger] ov[i].names[j] == n;
                    if i != p {
                        assert(nv[i] == ov[i]);
                    } else {
                        assert(old_names[j]@ == n);
                        assert(names_contain(old_names, n));
                        assert(names_contain(new_names, n));
                        let a = choose|a: int| 0 <= a < new_names.len() && (#[trigger] new_names[a])@ == n;
                        assert(nv[p as int].names[a] == n);
                    }
                }
                if mm == m && n == name@ {
                    assert(names_contain(new_names, n));
                    let a = choose|a: int| 0 <= a < new_names.len() && (#[trigger] new_names[a])@ == n;
                    assert(nv[p as int].names[a] == n);
                }
            }
        }
        Ok(())
    } else {
        let entry = ImportEntry { module: super::catalog::clone_path(module.as_slice()), imported_names: vec![name.clone()] };
        proof {
            if p < ov.len() {
                assert(ov[p as int] == import_view(out@[p as int]));
                super::catalog::lemma_same_path_view(out@[p as int].module@, module@);
                assert(ov[p as int].module != m);
                assert(!path_less(ov[p as int].module, m));
                lemma_path_less_total(ov[p as int].module, m);
            }
        }
        out.insert(p, entry);
        proof {
            let nv = imports_view(out@);
            let ne = import_view(entry);
            assert(nv =~= ov.insert(p as int, ne));
            assert(ne.module == m);
            assert(ne.names =~= seq![name@]);
            assert forall|i: int, j: int| 0 <= i < j < nv.len() implies path_less((#[trigger] nv[i]).module, (#[trigger] nv[j]).module) by {
                if j < p {
                    assert(nv[i] == ov[i] && nv[j] == ov[j]);
                } else if j == p {
                    assert(nv[i] == ov[i]);
                } else if i < p {
                    assert(nv[i] == ov[i] && nv[j] == ov[j - 1]);
                    assert(path_less(ov[i].module, m));
                    assert(path_less(m, ov[p as int].module));
                    if j - 1 > p {
                        lemma_path_less_transitive(m, ov[p as int].module, ov[j - 1].module);
                    }
                    lemma_path_less_transitive(ov[i].module, m, ov[j - 1].module);
                } else if i == p {
                    assert(nv[j] == ov[j - 1]);
                    if j - 1 > p {
                        lemma_path_less_transitive(m, ov[p as int].module, ov[j - 1].module);
                    }
                } else {
                    assert(nv[i] == ov[i - 1] && nv[j] == ov[j - 1]);
                }
            }
            assert forall|i: int| 0 <= i < nv.len() implies (#[trigger] nv[i]).names.len() > 0 by {
                if i < p {
                    assert(nv[i] == ov[i]);
                } else if i > p {
                    assert(nv[i] == ov[i - 1]);
                }
            }
            assert forall|i: int, a: int, b: int| 0 <= i < nv.len() && 0 <= a < b < nv[i].names.len()
                implies bytes_less(import_key(*snapshot, *order, (#[trigger] nv[i]).module, #[trigger] nv[i].names[a]),
                    import_key(*snapshot, *order, nv[i].module, #[trigger] nv[i].names[b])) by {
                if i < p {
                    assert(nv[i] == ov[i]);
                } else if i > p {
                    assert(nv[i] == ov[i - 1]);
                }
            }
            assert forall|i: int, a: int| 0 <= i < nv.len() && 0 <= a < nv[i].names.len() implies {
                let x = snapshot.spec_identity_at((#[trigger] nv[i]).module, None, #[trigger] nv[i].names[a]);
                x is Some && order.spec_contains(x.unwrap())
            } by {
                if i < p {
                    assert(nv[i] == ov[i]);
                } else if i > p {
                    assert(nv[i] == ov[i - 1]);
                }
            }
            assert forall|mm: Seq<Seq<char>>, n: Seq<char>| #[trigger] imports_pair(nv, mm, n) <==> (imports_pair(ov, mm, n) || (mm == m && n == name@)) by {
                if imports_pair(nv, mm, n) {
                    let (i, j) = choose|i: int, j: int| 0 <= i < nv.len() && 0 <= j < nv[i].names.len()
                        && (#[trigger] nv[i]).module == mm && #[trigger] nv[i].names[j] == n;
                    if i < p {
                        assert(ov[i] == nv[i]);
                    } else if i > p {
                        assert(ov[i - 1] == nv[i]);
                    }
                }
                if imports_pair(ov, mm, n) {
                    let (i, j) = choose|i: int, j: int| 0 <= i < ov.len() && 0 <= j < ov[i].names.len()
                        && (#[trigger] ov[i]).module == mm && #[trigger] ov[i].names[j] == n;
                    if i < p {
                        assert(nv[i] == ov[i]);
                    } else {
                        assert(nv[i + 1] == ov[i]);
                    }
                }
                if mm == m && n == name@ {
                    assert(nv[p as int].names[0] == n);
                }
            }
        }
        Ok(())
    }
}

/// The canonical projection of parsed imports: grouped by module in path
/// order, each module's names once, in canonical identity order.
pub fn canonicalize_imports(
    imports: &[ImportEntry],
    snapshot: &TextualMetadataSnapshot,
    order: &CanonicalIdentityOrder,
) -> (r: Result<Vec<ImportEntry>, BootstrapReadError>)
    requires
        snapshot.wf(),
        order.wf(),
    ensures
        r is Ok <==> imports_resolvable(*snapshot, *order, imports_view(imports@)),
        r matches Ok(out) ==> canonical_imports(*snapshot, *order, imports_view(out@), imports_view(imports@)),
{
    let ghost input = imports_view(imports@);
    let mut out: Vec<ImportEntry> = Vec::new();
    let mut i: usize = 0;
    proof {
        assert(imports_view(out@) =~= Seq::<ImportView>::empty());
    }
    while i < imports.len()
        invariant
            snapshot.wf(),
            order.wf(),
            input == imports_view(imports@),
            input.len() == imports@.len(),
            i <= imports@.len(),
            entries_sorted(*snapshot, *order, imports_view(out@)),
            forall|k: int, j: int| 0 <= k < i && 0 <= j < input[k].names.len() ==> {
                let x = snapshot.spec_identity_at((#[trigger] input[k]).module, None, #[trigger] input[k].names[j]);
                x is Some && order.spec_contains(x.unwrap())
            },
            forall|mm: Seq<Seq<char>>, n: Seq<char>| #[trigger] imports_pair(imports_view(out@), mm, n)
                <==> exists|k: int, j: int| 0 <= k < i && 0 <= j < input[k].names.len()
                    && (#[trigger] input[k]).module == mm && #[trigger] input[k].names[j] == n,
        decreases imports@.len() - i,
    {
        let entry = &imports[i];
        let ghost iv = input[i as int];
        proof {
            assert(iv == import_view(*entry));
        }
        let mut j: usize = 0;
        while j < entry.imported_names.len()
            invariant
                snapshot.wf(),
                order.wf(),
                input == imports_view(imports@),
                input.len() == imports@.len(),
                i < imports@.len(),
                iv == input[i as int],
                iv == import_view(*entry),
                j <= entry.imported_names@.len(),
                entries_sorted(*snapshot, *order, imports_view(out@)),
                forall|k: int, jj: int| 0 <= k < i && 0 <= jj < input[k].names.len() ==> {
                    let x = snapshot.spec_identity_at((#[trigger] input[k]).module, None, #[trigger] input[k].names[jj]);
                    x is Some && order.spec_contains(x.unwrap())
                },
                forall|jj: int| 0 <= jj < j ==> {
                    let x = snapshot.spec_identity_at(iv.module, None, #[trigger] iv.names[jj]);
                    x is Some && order.spec_contains(x.unwrap())
                },
                forall|mm: Seq<Seq<char>>, n: Seq<char>| #[trigger] imports_pair(imports_view(out@), mm, n)
                    <==> ((exists|k: int, jj: int| 0 <= k < i && 0 <= jj < input[k].names.len()
                        && (#[trigger] input[k]).module == mm && #[trigger] input[k].names[jj] == n)
                        || (mm == iv.module && exists|jj: int| 0 <= jj < j && #[trigger] iv.names[jj] == n)),
            decreases entry.imported_names@.len() - j,
        {
            let ghost before = imports_view(out@);
            proof {
                assert(iv.names[j as int] == entry.imported_names@[j as int]@);
                assert(iv.module == path_view(entry.module@));
            }
            match insert_pair(&mut out, snapshot, order, &entry.module, &entry.imported_names[j]) {
                Ok(()) => {},
                Err(e) => {
                    proof {
                        assert(!imports_resolvable(*snapshot, *order, input)) by {
                            assert(input[i as int].names[j as int] == iv.names[j as int]);
                        }
                    }
                    return Err(e);
                },
            }
            proof {
                assert forall|mm: Seq<Seq<char>>, n: Seq<char>| #[trigger] imports_pair(imports_view(out@), mm, n)
                    <==> ((exists|k: int, jj: int| 0 <= k < i && 0 <= jj < input[k].names.len()
                        && (#[trigger] input[k]).module == mm && #[trigger] input[k].names[jj] == n)
                        || (mm == iv.module && exists|jj: int| 0 <= jj < j + 1 && #[trigger] iv.names[jj] == n)) by {
                    assert(imports_pair(imports_view(out@), mm, n) <==> (imports_pair(before, mm, n) || (mm == iv.module && n == iv.names[j as int])));
                    if mm == iv.module && n == iv.names[j as int] {
                        assert(iv.names[j as int] == n);
                    }
                    if mm == iv.module && exists|jj: int| 0 <= jj < j + 1 && #[trigger] iv.names[jj] == n {
                        let jj = choose|jj: int| 0 <= jj < j + 1 && #[trigger] iv.names[jj] == n;
                        if jj < j {
                            assert(iv.names[jj] == n);
                        }
                    }
                }
            }
            j = j + 1;
        }
        proof {
            assert forall|mm: Seq<Seq<char>>, n: Seq<char>| #[trigger] imports_pair(imports_view(out@), mm, n)
                <==> exists|k: int, jj: int| 0 <= k < i + 1 && 0 <= jj < input[k].names.len()
                    && (#[trigger] input[k]).module == mm && #[trigger] input[k].names[jj] == n by {
                if exists|k: int, jj: int| 0 <= k < i + 1 && 0 <= jj < input[k].names.len()
                    && (#[trigger] input[k]).module == mm && #[trigger] input[k].names[jj] == n {
                    let (k, jj) = choose|k: int, jj: int| 0 <= k < i + 1 && 0 <= jj < input[k].names.len()
                        && (#[trigger] input[k]).module == mm && #[trigger] input[k].names[jj] == n;
                    if k == i {
                        assert(iv.names[jj] == n);
                    }
                }
                if mm == iv.module && exists|jj: int| 0 <= jj < j && #[trigger] iv.names[jj] == n {
                    let jj = choose|jj: int| 0 <= jj < j && #[trigger] iv.names[jj] == n;
                    assert(input[i as int].names[jj] == n);
                }
            }
        }
        i = i + 1;
    }
    proof {
        assert forall|mm: Seq<Seq<char>>, n: Seq<char>| #[trigger] imports_pair(imports_view(out@), mm, n) <==> imports_pair(input, mm, n) by {
            if imports_pair(input, mm, n) {
                let (k, jj) = choose|k: int, jj: int| 0 <= k < input.len() && 0 <= jj < input[k].names.len()
                    && (#[trigger] input[k]).module == mm && #[trigger] input[k].names[jj] == n;
                assert(input[k].names[jj] == n);
            }
        }
    }
    Ok(out)
}

} // verus!
