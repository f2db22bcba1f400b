//! Normalizing unordered collections by authority-supplied canonical bytes.
use vstd::prelude::*;

use crate::identity::EncodedName;
use super::catalog::{
    bytes_equal, bytes_less, bytes_less_exec, lemma_bytes_less_asymmetric, lemma_bytes_less_irreflexive,
    lemma_bytes_less_total, lemma_bytes_less_transitive, CanonicalIdentityOrder,
};
use super::error::BootstrapReadError;

verus! {

/// The canonical bytes of an identity.
pub open spec fn key_bytes(order: CanonicalIdentityOrder, identity: EncodedName) -> Seq<u8> {
    order.spec_bytes(identity).unwrap()
}

/// Every identity has canonical bytes.
pub open spec fn all_ordered(order: CanonicalIdentityOrder, ids: Seq<EncodedName>) -> bool {
    forall|i: int| 0 <= i < ids.len() ==> order.spec_contains(#[trigger] ids[i])
}

/// Strictly increasing canonical bytes.
pub open spec fn strictly_sorted(order: CanonicalIdentityOrder, s: Seq<EncodedName>) -> bool {
    forall|i: int, j: int| 0 <= i < j < s.len() ==> bytes_less(key_bytes(order, #[trigger] s[i]), key_bytes(order, #[trigger] s[j]))
}

/// Same length and the same members.
pub open spec fn same_members<T>(a: Seq<T>, b: Seq<T>) -> bool {
    &&& a.len() == b.len()
    &&& forall|x: T| a.contains(x) <==> b.contains(x)
}

/// No identity occurs twice.
pub open spec fn distinct_ids(s: Seq<EncodedName>) -> bool {
    forall|i: int, j: int| 0 <= i < j < s.len() ==> s[i] != s[j]
}

/// The identities in canonical order: the strictly sorted arrangement of the
/// same members, which exists exactly when no identity repeats.
pub open spec fn canonical_arrangement(order: CanonicalIdentityOrder, ids: Seq<EncodedName>) -> Seq<EncodedName> {
    choose|s: Seq<EncodedName>| strictly_sorted(order, s) && same_members(s, ids)
}

/// Two strictly sorted arrangements of the same members are equal.
pub proof fn lemma_sorted_unique(order: CanonicalIdentityOrder, a: Seq<EncodedName>, b: Seq<EncodedName>)
    requires
        strictly_sorted(order, a),
        strictly_sorted(order, b),
        same_members(a, b),
    ensures
        a == b,
    decreases a.len(),
{
    if a.len() > 0 {
        let x = a[0];
        let y = b[0];
        if x != y {
            assert(a.contains(x));
            assert(b.contains(x));
            assert(b.contains(y));
            assert(a.contains(y));
            let m = choose|m: int| 0 <= m < a.len() && a[m] == y;
            let k = choose|k: int| 0 <= k < b.len() && b[k] == x;
            assert(m > 0);
            assert(k > 0);
            assert(bytes_less(key_bytes(order, a[0]), key_bytes(order, a[m])));
            assert(bytes_less(key_bytes(order, b[0]), key_bytes(order, b[k])));
            lemma_bytes_less_asymmetric(key_bytes(order, x), key_bytes(order, y));
        }
        let ra = a.drop_first();
        let rb = b.drop_first();
        assert forall|z: EncodedName| ra.contains(z) <==> rb.contains(z) by {
            if ra.contains(z) {
                let i = choose|i: int| 0 <= i < ra.len() && ra[i] == z;
                assert(a[i + 1] == z);
                assert(bytes_less(key_bytes(order, a[0]), key_bytes(order, a[i + 1])));
                if z == x {
                    lemma_bytes_less_irreflexive(key_bytes(order, x));
                }
                assert(b.contains(z));
                let j = choose|j: int| 0 <= j < b.len() && b[j] == z;
                assert(j != 0);
                assert(rb[j - 1] == z);
            }
            if rb.contains(z) {
                let i = choose|i: int| 0 <= i < rb.len() && rb[i] == z;
                assert(b[i + 1] == z);
                assert(bytes_less(key_bytes(order, b[0]), key_bytes(order, b[i + 1])));
                if z == y {
                    lemma_bytes_less_irreflexive(key_bytes(order, y));
                }
                assert(a.contains(z));
                let j = choose|j: int| 0 <= j < a.len() && a[j] == z;
                assert(j != 0);
                assert(ra[j - 1] == z);
            }
        }
        assert forall|i: int, j: int| 0 <= i < j < ra.len() implies bytes_less(key_bytes(order, #[trigger] ra[i]), key_bytes(order, #[trigger] ra[j])) by {
            assert(ra[i] == a[i + 1] && ra[j] == a[j + 1]);
        }
        assert forall|i: int, j: int| 0 <= i < j < rb.len() implies bytes_less(key_bytes(order, #[trigger] rb[i]), key_bytes(order, #[trigger] rb[j])) by {
            assert(rb[i] == b[i + 1] && rb[j] == b[j + 1]);
        }
        lemma_sorted_unique(order, ra, rb);
        assert forall|k: int| 0 <= k < a.len() implies a[k] == b[k] by {
            if k > 0 {
                assert(a[k] == ra[k - 1]);
                assert(b[k] == rb[k - 1]);
            }
        }
        assert(a =~= b);
    }
}

/// Whether `x` precedes the given canonical bytes.
fn precedes(order: &CanonicalIdentityOrder, x: EncodedName, bytes: &Vec<u8>) -> (r: bool)
    requires
        order.wf(),
        order.spec_contains(x),
    ensures
        r == bytes_less(key_bytes(*order, x), bytes@),
{
    match order.bytes(x) {
        Some(b) => bytes_less_exec(b.as_slice(), bytes.as_slice()),
        None => false,
    }
}

/// Arrange identities in canonical order; every identity must have canonical
/// bytes, and a repeated identity is refused.
pub fn sort_identities(order: &CanonicalIdentityOrder, ids: &Vec<EncodedName>) -> (r: Result<Vec<EncodedName>, BootstrapReadError>)
    requires
        order.wf(),
    ensures
        r is Ok <==> all_ordered(*order, ids@) && distinct_ids(ids@),
        r matches Ok(s) ==> strictly_sorted(*order, s@) && same_members(s@, ids@) && s@ == canonical_arrangement(*order, ids@),
        r matches Err(e) ==> match e {
            BootstrapReadError::MissingCanonicalIdentity(id) => ids@.contains(id) && !order.spec_contains(id),
            BootstrapReadError::DuplicateTrait(id) => exists|i: int, j: int| 0 <= i < j < ids@.len() && ids@[i] == id && ids@[j] == id,
            _ => false,
        },
{
    let n = ids.len();
    let mut i: usize = 0;
    while i < n
        invariant
            n == ids@.len(),
            i <= n,
            order.wf(),
            forall|k: int| 0 <= k < i ==> order.spec_contains(#[trigger] ids@[k]),
        decreases n - i,
    {
        if !order.contains(ids[i]) {
            proof {
                assert(ids@.contains(ids@[i as int]));
            }
            return Err(BootstrapReadError::MissingCanonicalIdentity(ids[i]));
        }
        i = i + 1;
    }
    let mut out: Vec<EncodedName> = Vec::new();
    let mut i: usize = 0;
    while i < n
        invariant
            n == ids@.len(),
            i <= n,
            order.wf(),
            all_ordered(*order, ids@),
            strictly_sorted(*order, out@),
            same_members(out@, ids@.subrange(0, i as int)),
            distinct_ids(ids@.subrange(0, i as int)),
        decreases n - i,
    {
        let id = ids[i];
        let ghost prefix = ids@.subrange(0, i as int);
        let ghost next = ids@.subrange(0, i + 1);
        proof {
            assert(next =~= prefix.push(id));
            assert(order.spec_contains(ids@[i as int]));
        }
        let id_bytes = match order.bytes(id) {
            Some(b) => b,
            None => {
                return Err(BootstrapReadError::MissingCanonicalIdentity(id));
            },
        };
        proof {
            assert forall|q: int| 0 <= q < out@.len() implies order.spec_contains(#[trigger] out@[q]) by {
                assert(out@.contains(out@[q]));
                assert(prefix.contains(out@[q]));
                let k = choose|k: int| 0 <= k < prefix.len() && prefix[k] == out@[q];
                assert(ids@[k] == out@[q]);
            }
        }
        let mut p: usize = 0;
        while p < out.len() && precedes(order, out[p], id_bytes)
            invariant
                order.wf(),
                p <= out@.len(),
                order.spec_bytes(id) == Some(id_bytes@),
                forall|q: int| 0 <= q < out@.len() ==> order.spec_contains(#[trigger] out@[q]),
                forall|q: int| 0 <= q < p ==> bytes_less(key_bytes(*order, #[trigger] out@[q]), id_bytes@),
            decreases out@.len() - p,
        {
            p = p + 1;
        }
        if p < out.len() {
            let ob = match order.bytes(out[p]) {
                Some(b) => b,
                None => {
                    return Err(BootstrapReadError::MissingCanonicalIdentity(out[p]));
                },
            };
            if bytes_equal(ob.as_slice(), id_bytes.as_slice()) {
                proof {
                    let o = out@[p as int];
                    let oi = order.spec_entries();
                    assert(order.spec_bytes(o) == order.spec_bytes(id));
                    super::catalog::lemma_bytes_identify(*order, o, id);
                    assert(o == id);
                    assert(prefix.contains(o));
                    let k = choose|k: int| 0 <= k < prefix.len() && prefix[k] == o;
                    assert(ids@[k] == id && ids@[i as int] == id);
                }
                return Err(BootstrapReadError::DuplicateTrait(id));
            }
        }
        let ghost old_out = out@;
        proof {
            if p < old_out.len() {
                let ob = key_bytes(*order, old_out[p as int]);
                assert(!bytes_less(ob, id_bytes@));
                assert(ob != id_bytes@);
                lemma_bytes_less_total(ob, id_bytes@);
            }
        }
        out.insert(p, id);
        proof {
            let s = out@;
            assert(s =~= old_out.insert(p as int, id));
            assert forall|a: int, b: int| 0 <= a < b < s.len() implies bytes_less(key_bytes(*order, #[trigger] s[a]), key_bytes(*order, #[trigger] s[b])) by {
                if b < p {
                    assert(s[a] == old_out[a] && s[b] == old_out[b]);
                } else if b == p {
                    assert(s[a] == old_out[a]);
                } else if a < p {
                    assert(s[a] == old_out[a] && s[b] == old_out[b - 1]);
                    assert(bytes_less(key_bytes(*order, old_out[a]), id_bytes@));
                    assert(bytes_less(id_bytes@, key_bytes(*order, old_out[p as int])));
                    if b - 1 > p {
                        assert(bytes_less(key_bytes(*order, old_out[p as int]), key_bytes(*order, old_out[b - 1])));
                        lemma_bytes_less_transitive(id_bytes@, key_bytes(*order, old_out[p as int]), key_bytes(*order, old_out[b - 1]));
                    }
                    lemma_bytes_less_transitive(key_bytes(*order, old_out[a]), id_bytes@, key_bytes(*order, old_out[b - 1]));
                } else if a == p {
                    assert(s[b] == old_out[b - 1]);
                    if b - 1 > p {
                        assert(bytes_less(key_bytes(*order, old_out[p as int]), key_bytes(*order, old_out[b - 1])));
                        lemma_bytes_less_transitive(id_bytes@, key_bytes(*order, old_out[p as int]), key_bytes(*order, old_out[b - 1]));
                    }
                } else {
                    assert(s[a] == old_out[a - 1] && s[b] == old_out[b - 1]);
                }
            }
            assert forall|x: EncodedName| s.contains(x) <==> next.contains(x) by {
                if s.contains(x) {
                    let w = choose|w: int| 0 <= w < s.len() && s[w] == x;
                    if w < p {
                        assert(old_out[w] == x);
                        assert(old_out.contains(x));
                    } else if w > p {
                        assert(old_out[w - 1] == x);
                        assert(old_out.contains(x));
                    }
                    if x != id {
                        assert(prefix.contains(x));
                        let k = choose|k: int| 0 <= k < prefix.len() && prefix[k] == x;
                        assert(next[k] == x);
                    } else {
                        assert(next[i as int] == x);
                    }
                }
                if next.contains(x) {
                    let k = choose|k: int| 0 <= k < next.len() && next[k] == x;
                    if k < i {
                        assert(prefix[k] == x);
                        assert(old_out.contains(x));
                        let w = choose|w: int| 0 <= w < old_out.len() && old_out[w] == x;
                        if w < p {
                            assert(s[w] == x);
                        } else {
                            assert(s[w + 1] == x);
                        }
                    } else {
                        assert(s[p as int] == x);
                    }
                }
            }
            assert forall|a: int, b: int| 0 <= a < b < next.len() implies next[a] != next[b] by {
                if b == i {
                    assert(next[a] == prefix[a]);
                    if next[a] == id {
                        assert(prefix.contains(id));
                        assert(old_out.contains(id));
                        let w = choose|w: int| 0 <= w < old_out.len() && old_out[w] == id;
                        if w < p {
                            assert(bytes_less(key_bytes(*order, old_out[w]), id_bytes@));
                            lemma_bytes_less_irreflexive(id_bytes@);
                        } else {
                            if w > p {
                                assert(bytes_less(key_bytes(*order, old_out[p as int]), key_bytes(*order, old_out[w])));
                                lemma_bytes_less_transitive(id_bytes@, key_bytes(*order, old_out[p as int]), id_bytes@);
                            }
                            lemma_bytes_less_irreflexive(id_bytes@);
                        }
                    }
                } else {
                    assert(next[a] == prefix[a] && next[b] == prefix[b]);
                }
            }
        }
        i = i + 1;
    }
    proof {
        assert(ids@.subrange(0, n as int) =~= ids@);
        let c = canonical_arrangement(*order, ids@);
        assert(strictly_sorted(*order, out@) && same_members(out@, ids@));
        lemma_sorted_unique(*order, c, out@);
    }
    Ok(out)
}


/// Values whose canonical position is given by one identity.
pub trait IdentityKeyed {
    spec fn key_identity(&self) -> EncodedName;

    fn identity_key(&self) -> (r: EncodedName)
        ensures
            r == self.key_identity(),
    ;
}

/// Strictly increasing canonical bytes of the keys.
pub open spec fn strictly_sorted_by<V>(order: CanonicalIdentityOrder, s: Seq<V>, key: spec_fn(V) -> EncodedName) -> bool {
    forall|i: int, j: int| 0 <= i < j < s.len() ==> bytes_less(key_bytes(order, key(#[trigger] s[i])), key_bytes(order, key(#[trigger] s[j])))
}

/// The values in canonical order of their keys.
pub open spec fn arrangement_by<V>(order: CanonicalIdentityOrder, vs: Seq<V>, key: spec_fn(V) -> EncodedName) -> Seq<V> {
    choose|s: Seq<V>| strictly_sorted_by(order, s, key) && same_members(s, vs)
}

/// Every key has canonical bytes and no key repeats.
pub open spec fn keys_arrangeable<V>(order: CanonicalIdentityOrder, vs: Seq<V>, key: spec_fn(V) -> EncodedName) -> bool {
    &&& forall|i: int| 0 <= i < vs.len() ==> order.spec_contains(key(#[trigger] vs[i]))
    &&& forall|i: int, j: int| 0 <= i < j < vs.len() ==> key(#[trigger] vs[i]) != key(#[trigger] vs[j])
}

/// Two strictly key-sorted arrangements of the same members are equal.
pub proof fn lemma_sorted_by_unique<V>(order: CanonicalIdentityOrder, a: Seq<V>, b: Seq<V>, key: spec_fn(V) -> EncodedName)
    requires
        strictly_sorted_by(order, a, key),
        strictly_sorted_by(order, b, key),
        same_members(a, b),
    ensures
        a == b,
    decreases a.len(),
{
    if a.len() > 0 {
        let x = a[0];
        let y = b[0];
        if x != y {
            assert(a.contains(x));
            assert(b.contains(x));
            assert(b.contains(y));
            assert(a.contains(y));
            let m = choose|m: int| 0 <= m < a.len() && a[m] == y;
            let k = choose|k: int| 0 <= k < b.len() && b[k] == x;
            assert(m > 0);
            assert(k > 0);
            assert(bytes_less(key_bytes(order, key(a[0])), key_bytes(order, key(a[m]))));
            assert(bytes_less(key_bytes(order, key(b[0])), key_bytes(order, key(b[k]))));
            lemma_bytes_less_asymmetric(key_bytes(order, key(x)), key_bytes(order, key(y)));
        }
        let ra = a.drop_first();
        let rb = b.drop_first();
        assert forall|z: V| ra.contains(z) <==> rb.contains(z) by {
            if ra.contains(z) {
                let i = choose|i: int| 0 <= i < ra.len() && ra[i] == z;
                assert(a[i + 1] == z);
                assert(bytes_less(key_bytes(order, key(a[0])), key_bytes(order, key(a[i + 1]))));
                if z == x {
                    lemma_bytes_less_irreflexive(key_bytes(order, key(x)));
                }
                assert(b.contains(z));
                let j = choose|j: int| 0 <= j < b.len() && b[j] == z;
                assert(j != 0);
                assert(rb[j - 1] == z);
            }
            if rb.contains(z) {
                let i = choose|i: int| 0 <= i < rb.len() && rb[i] == z;
                assert(b[i + 1] == z);
                assert(bytes_less(key_bytes(order, key(b[0])), key_bytes(order, key(b[i + 1]))));
                if z == y {
                    lemma_bytes_less_irreflexive(key_bytes(order, key(y)));
                }
                assert(a.contains(z));
                let j = choose|j: int| 0 <= j < a.len() && a[j] == z;
                assert(j != 0);
                assert(ra[j - 1] == z);
            }
        }
        assert forall|i: int, j: int| 0 <= i < j < ra.len() implies bytes_less(key_bytes(order, key(#[trigger] ra[i])), key_bytes(order, key(#[trigger] ra[j]))) by {
            assert(ra[i] == a[i + 1] && ra[j] == a[j + 1]);
        }
        assert forall|i: int, j: int| 0 <= i < j < rb.len() implies bytes_less(key_bytes(order, key(#[trigger] rb[i])), key_bytes(order, key(#[trigger] rb[j]))) by {
            assert(rb[i] == b[i + 1] && rb[j] == b[j + 1]);
        }
        lemma_sorted_by_unique(order, ra, rb, key);
        assert forall|k: int| 0 <= k < a.len() implies a[k] == b[k] by {
            if k > 0 {
                assert(a[k] == ra[k - 1]);
                assert(b[k] == rb[k - 1]);
            }
        }
        assert(a =~= b);
    }
}

/// A strictly key-sorted arrangement of executable values, seen through a
/// view that keeps keys, is the arrangement of the views.
pub proof fn lemma_arranged_views<T, V>(
    order: CanonicalIdentityOrder,
    s: Seq<T>,
    xs: Seq<T>,
    view: spec_fn(T) -> V,
    kt: spec_fn(T) -> EncodedName,
    kv: spec_fn(V) -> EncodedName,
)
    requires
        forall|x: T| #[trigger] kv(view(x)) == kt(x),
        strictly_sorted_by(order, s, kt),
        same_members(s, xs),
    ensures
        s.map_values(view) == arrangement_by(order, xs.map_values(view), kv),
        strictly_sorted_by(order, s.map_values(view), kv),
        same_members(s.map_values(view), xs.map_values(view)),
{
    let sv = s.map_values(view);
    let xv = xs.map_values(view);
    assert forall|i: int, j: int| 0 <= i < j < sv.len() implies bytes_less(key_bytes(order, kv(#[trigger] sv[i])), key_bytes(order, kv(#[trigger] sv[j]))) by {
        assert(kv(sv[i]) == kt(s[i]));
        assert(kv(sv[j]) == kt(s[j]));
    }
    assert forall|v: V| sv.contains(v) <==> xv.contains(v) by {
        if sv.contains(v) {
            let i = choose|i: int| 0 <= i < sv.len() && sv[i] == v;
            assert(s.contains(s[i]));
            assert(xs.contains(s[i]));
            let j = choose|j: int| 0 <= j < xs.len() && xs[j] == s[i];
            assert(xv[j] == v);
        }
        if xv.contains(v) {
            let i = choose|i: int| 0 <= i < xv.len() && xv[i] == v;
            assert(xs.contains(xs[i]));
            assert(s.contains(xs[i]));
            let j = choose|j: int| 0 <= j < s.len() && s[j] == xs[i];
            assert(sv[j] == v);
        }
    }
    let c = arrangement_by(order, xv, kv);
    assert(strictly_sorted_by(order, sv, kv) && same_members(sv, xv));
    lemma_sorted_by_unique(order, c, sv, kv);
}

/// Arrange values in canonical order of their identities; every identity
/// must have canonical bytes, and two values with one identity are refused.
#[verifier::loop_isolation(false)]
pub fn sort_by_identity<T: IdentityKeyed>(order: &CanonicalIdentityOrder, values: Vec<T>) -> (r: Result<Vec<T>, BootstrapReadError>)
    requires
        order.wf(),
    ensures
        r is Ok <==> keys_arrangeable(*order, values@, |x: T| x.key_identity()),
        r matches Ok(s) ==> strictly_sorted_by(*order, s@, |x: T| x.key_identity()) && same_members(s@, values@),
{
    let ghost key = |x: T| x.key_identity();
    assert(forall|v: T| #[trigger] key(v) == v.key_identity());
    let ghost unsorted = values@;
    let n = values.len();
    let mut i: usize = 0;
    while i < n
        invariant
            n == values@.len(),
            i <= n,
            order.wf(),
            forall|k: int| 0 <= k < i ==> order.spec_contains(key(#[trigger] values@[k])),
            forall|k: int, j: int| 0 <= k < j < i ==> key(#[trigger] values@[k]) != key(#[trigger] values@[j]),
        decreases n - i,
    {
        let id = values[i].identity_key();
        if !order.contains(id) {
            return Err(BootstrapReadError::MissingCanonicalIdentity(id));
        }
        let mut j: usize = 0;
        while j < i
            invariant
                n == values@.len(),
                j <= i < n,
                id == key(values@[i as int]),
                forall|k: int| 0 <= k < j ==> key(#[trigger] values@[k]) != id,
            decreases i - j,
        {
            if values[j].identity_key() == id {
                return Err(BootstrapReadError::InvalidPreparedModel("unordered named collection is not in canonical identity order"));
            }
            j = j + 1;
        }
        i = i + 1;
    }
    let mut rest = values;
    let mut out: Vec<T> = Vec::new();
    proof {
        assert forall|x: T| (out@ + rest@).contains(x) <==> unsorted.contains(x) by {
            assert(out@ + rest@ =~= unsorted);
        }
    }
    while rest.len() > 0
        invariant
            order.wf(),
            keys_arrangeable(*order, unsorted, key),
            strictly_sorted_by(*order, out@, key),
            out@.len() + rest@.len() == unsorted.len(),
            forall|x: T| (out@ + rest@).contains(x) <==> unsorted.contains(x),
            forall|x: T| out@.contains(x) ==> !rest@.contains(x),
            forall|k: int, j: int| 0 <= k < j < rest@.len() ==> rest@[k] != rest@[j],
        decreases rest@.len(),
    {
        let ghost before_rest = rest@;
        let ghost old_out = out@;
        let x = rest.pop().unwrap();
        proof {
            assert(before_rest =~= rest@.push(x));
            assert((old_out + before_rest).contains(x)) by {
                assert((old_out + before_rest)[old_out.len() + before_rest.len() - 1] == x);
            }
            assert(unsorted.contains(x));
        }
        let id = x.identity_key();
        let mut p: usize = 0;
        proof {
            assert forall|q: int| 0 <= q < out@.len() implies order.spec_contains(key(#[trigger] out@[q])) by {
                assert((old_out + before_rest)[q] == out@[q]);
                assert(unsorted.contains(out@[q]));
                let w = choose|w: int| 0 <= w < unsorted.len() && unsorted[w] == out@[q];
            }
            let w = choose|w: int| 0 <= w < unsorted.len() && unsorted[w] == x;
        }
        let id_bytes = match order.bytes(id) {
            Some(b) => b,
            None => {
                return Err(BootstrapReadError::MissingCanonicalIdentity(id));
            },
        };
        while p < out.len() && precedes(order, out[p].identity_key(), id_bytes)
            invariant
                order.wf(),
                p <= out@.len(),
                order.spec_bytes(id) == Some(id_bytes@),
                forall|q: int| 0 <= q < out@.len() ==> order.spec_contains(key(#[trigger] out@[q])),
                forall|q: int| 0 <= q < p ==> bytes_less(key_bytes(*order, key(#[trigger] out@[q])), id_bytes@),
            decreases out@.len() - p,
        {
            p = p + 1;
        }
        proof {
            if p < old_out.len() {
                let ob = key_bytes(*order, key(old_out[p as int]));
                assert(!bytes_less(ob, id_bytes@));
                let y = old_out[p as int];
                assert((old_out + before_rest).contains(y)) by {
                    assert((old_out + before_rest)[p as int] == y);
                }
                assert(unsorted.contains(y));
                let wy = choose|wy: int| 0 <= wy < unsorted.len() && unsorted[wy] == y;
                let wx = choose|wx: int| 0 <= wx < unsorted.len() && unsorted[wx] == x;
                assert(old_out.contains(y));
                assert(y != x);
                if ob == id_bytes@ {
                    super::catalog::lemma_bytes_identify(*order, key(y), key(x));
                    if wy < wx {
                        assert(key(unsorted[wy]) != key(unsorted[wx]));
                    } else if wx < wy {
                        assert(key(unsorted[wx]) != key(unsorted[wy]));
                    }
                }
                assert(ob != id_bytes@);
                lemma_bytes_less_total(ob, id_bytes@);
            }
        }
        out.insert(p, x);
        proof {
            let s = out@;
            assert(s =~= old_out.insert(p as int, x));
            assert forall|a: int, b: int| 0 <= a < b < s.len() implies bytes_less(key_bytes(*order, key(#[trigger] s[a])), key_bytes(*order, key(#[trigger] s[b]))) by {
                if b < p {
                    assert(s[a] == old_out[a] && s[b] == old_out[b]);
                } else if b == p {
                    assert(s[a] == old_out[a]);
                } else if a < p {
                    assert(s[a] == old_out[a] && s[b] == old_out[b - 1]);
                    assert(bytes_less(key_bytes(*order, key(old_out[a])), id_bytes@));
                    assert(bytes_less(id_bytes@, key_bytes(*order, key(old_out[p as int]))));
                    if b - 1 > p {
                        assert(bytes_less(key_bytes(*order, key(old_out[p as int])), key_bytes(*order, key(old_out[b - 1]))));
                        lemma_bytes_less_transitive(id_bytes@, key_bytes(*order, key(old_out[p as int])), key_bytes(*order, key(old_out[b - 1])));
                    }
                    lemma_bytes_less_transitive(key_bytes(*order, key(old_out[a])), id_bytes@, key_bytes(*order, key(old_out[b - 1])));
                } else if a == p {
                    assert(s[b] == old_out[b - 1]);
                    if b - 1 > p {
                        assert(bytes_less(key_bytes(*order, key(old_out[p as int])), key_bytes(*order, key(old_out[b - 1]))));
                        lemma_bytes_less_transitive(id_bytes@, key_bytes(*order, key(old_out[p as int])), key_bytes(*order, key(old_out[b - 1])));
                    }
                } else {
                    assert(s[a] == old_out[a - 1] && s[b] == old_out[b - 1]);
                }
            }
            assert forall|z: T| s.contains(z) <==> (old_out.contains(z) || z == x) by {
                if s.contains(z) {
                    let w = choose|w: int| 0 <= w < s.len() && s[w] == z;
                    if w < p {
                        assert(old_out[w] == z);
                    } else if w > p {
                        assert(old_out[w - 1] == z);
                    }
                }
                if old_out.contains(z) {
                    let w = choose|w: int| 0 <= w < old_out.len() && old_out[w] == z;
                    if w < p {
                        assert(s[w] == z);
                    } else {
                        assert(s[w + 1] == z);
                    }
                }
                if z == x {
                    assert(s[p as int] == z);
                }
            }
            assert forall|z: T| (s + rest@).contains(z) <==> unsorted.contains(z) by {
                if (s + rest@).contains(z) {
                    let w = choose|w: int| 0 <= w < (s + rest@).len() && (s + rest@)[w] == z;
                    if w < s.len() {
                        assert(s.contains(z));
                        if z != x {
                            let v = choose|v: int| 0 <= v < old_out.len() && old_out[v] == z;
                            assert((old_out + before_rest)[v] == z);
                        } else {
                            assert(unsorted.contains(x));
                        }
                    } else {
                        assert(rest@[w - s.len()] == z);
                        assert(before_rest[w - s.len()] == z);
                        assert((old_out + before_rest)[old_out.len() + w - s.len()] == z);
                    }
                }
                if unsorted.contains(z) {
                    assert((old_out + before_rest).contains(z));
                    let w = choose|w: int| 0 <= w < (old_out + before_rest).len() && (old_out + before_rest)[w] == z;
                    if w < old_out.len() {
                        assert(old_out.contains(z));
                        assert(s.contains(z));
                        let v = choose|v: int| 0 <= v < s.len() && s[v] == z;
                        assert((s + rest@)[v] == z);
                    } else if w - old_out.len() < rest@.len() {
                        assert(rest@[w - old_out.len()] == z);
                        assert((s + rest@)[s.len() + w - old_out.len()] == z);
                    } else {
                        assert(z == x);
                        assert((s + rest@)[p as int] == z);
                    }
                }
            }
            assert forall|z: T| s.contains(z) implies !rest@.contains(z) by {
                if rest@.contains(z) {
                    let w = choose|w: int| 0 <= w < rest@.len() && rest@[w] == z;
                    assert(before_rest[w] == z);
                    if z == x {
                        assert(before_rest[before_rest.len() - 1] == x);
                    } else {
                        assert(old_out.contains(z));
                        assert(before_rest.contains(z));
                    }
                }
            }
        }
        proof {
            assert forall|k: int, j: int| 0 <= k < j < rest@.len() implies rest@[k] != rest@[j] by {
                assert(rest@[k] == before_rest[k] && rest@[j] == before_rest[j]);
            }
        }
    }
    proof {
        assert(rest@ =~= Seq::<T>::empty());
        assert(out@ + rest@ =~= out@);
        assert forall|x: T| out@.contains(x) <==> unsorted.contains(x) by {
            assert((out@ + rest@).contains(x) <==> out@.contains(x));
        }
    }
    Ok(out)
}

} // verus!
