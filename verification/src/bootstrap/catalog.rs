//! Independent textual and semantic authority snapshots.
use vstd::prelude::*;

use crate::identity::EncodedName;
use crate::text::{char_alphabetic, char_alphanumeric, chars_of, is_alphabetic, is_numeric};
use super::error::BootstrapReadError;
use super::model::{EthosKind, EthosVersion, InterfaceRole, RuntimeStreamSchemaContract};

verus! {

// ---------------------------------------------------------------------------
// Safe bare names and module paths
// ---------------------------------------------------------------------------

/// A safe bare projection: a nonempty run whose first character is `_` or
/// alphabetic and whose remaining characters are `_` or alphanumeric.
pub open spec fn safe_bare_name(s: Seq<char>) -> bool {
    &&& s.len() > 0
    &&& (s[0] == '_' || char_alphabetic(s[0]))
    &&& forall|i: int| 1 <= i < s.len() ==> (s[i] == '_' || #[trigger] char_alphanumeric(s[i]))
}

/// A module path is nonempty and every segment is a safe bare name.
pub open spec fn valid_module_path(path: Seq<String>) -> bool {
    &&& path.len() > 0
    &&& forall|i: int| 0 <= i < path.len() ==> safe_bare_name(#[trigger] path[i]@)
}

/// Two module paths spell the same segments.
pub open spec fn same_path(a: Seq<String>, b: Seq<String>) -> bool {
    &&& a.len() == b.len()
    &&& forall|i: int| 0 <= i < a.len() ==> #[trigger] a[i]@ == b[i]@
}

/// The spellings of a module path's segments.
pub open spec fn path_view(path: Seq<String>) -> Seq<Seq<char>> {
    path.map_values(|s: String| s@)
}

/// Same segments exactly when the spelled paths are equal.
pub proof fn lemma_same_path_view(a: Seq<String>, b: Seq<String>)
    ensures
        same_path(a, b) <==> path_view(a) == path_view(b),
{
    if same_path(a, b) {
        assert(path_view(a) =~= path_view(b));
    }
    if path_view(a) == path_view(b) {
        assert(path_view(a).len() == a.len());
        assert(path_view(b).len() == b.len());
        assert forall|i: int| 0 <= i < a.len() implies #[trigger] a[i]@ == b[i]@ by {
            assert(path_view(a)[i] == a[i]@);
            assert(path_view(b)[i] == b[i]@);
        }
    }
}

/// Whether `text` is a safe bare projection.
pub fn is_safe_bare_name(text: &str) -> (r: bool)
    ensures
        r == safe_bare_name(text@),
{
    let chars = chars_of(text);
    let n = chars.len();
    if n == 0 {
        return false;
    }
    let first = chars[0];
    if !(first == '_' || is_alphabetic(first)) {
        return false;
    }
    let mut i: usize = 1;
    while i < n
        invariant
            1 <= i <= n,
            n == chars@.len(),
            chars@ == text@,
            forall|j: int| 1 <= j < i ==> (chars@[j] == '_' || #[trigger] char_alphanumeric(chars@[j])),
        decreases n - i,
    {
        let c = chars[i];
        if !(c == '_' || is_alphabetic(c) || is_numeric(c)) {
            assert(!(chars@[i as int] == '_' || char_alphanumeric(chars@[i as int])));
            return false;
        }
        i = i + 1;
    }
    true
}

/// Accept a visible name only when it is a safe bare projection.
pub fn validate_visible_name(name: &str) -> (r: Result<(), BootstrapReadError>)
    ensures
        r is Ok <==> safe_bare_name(name@),
        r matches Err(e) ==> e matches BootstrapReadError::InvalidVisibleName(n) && n@ == name@,
{
    if is_safe_bare_name(name) {
        Ok(())
    } else {
        Err(BootstrapReadError::InvalidVisibleName(name.to_owned()))
    }
}

/// Copy a module path segment by segment.
pub fn clone_path(path: &[String]) -> (r: Vec<String>)
    ensures
        r@ == path@,
{
    let mut out: Vec<String> = Vec::new();
    let mut i: usize = 0;
    while i < path.len()
        invariant
            i <= path@.len(),
            out@ == path@.subrange(0, i as int),
        decreases path@.len() - i,
    {
        out.push(path[i].clone());
        i = i + 1;
    }
    assert(out@ =~= path@);
    out
}

/// Accept a module path only when it is nonempty and every segment is safe.
pub fn validate_module_path(path: &[String]) -> (r: Result<(), BootstrapReadError>)
    ensures
        r is Ok <==> valid_module_path(path@),
        r matches Err(e) ==> e matches BootstrapReadError::InvalidModulePath(p) && p@ == path@,
{
    let n = path.len();
    let mut valid = n > 0;
    let mut i: usize = 0;
    while i < n
        invariant
            i <= n,
            n == path@.len(),
            valid == (n > 0 && forall|j: int| 0 <= j < i ==> safe_bare_name(#[trigger] path@[j]@)),
        decreases n - i,
    {
        let segment_ok = is_safe_bare_name(path[i].as_str());
        valid = valid && segment_ok;
        i = i + 1;
    }
    if valid {
        Ok(())
    } else {
        Err(BootstrapReadError::InvalidModulePath(clone_path(path)))
    }
}

/// Whether two module paths spell the same segments.
pub fn paths_equal(a: &[String], b: &[String]) -> (r: bool)
    ensures
        r == same_path(a@, b@),
{
    if a.len() != b.len() {
        return false;
    }
    let mut i: usize = 0;
    while i < a.len()
        invariant
            a@.len() == b@.len(),
            i <= a@.len(),
            forall|j: int| 0 <= j < i ==> #[trigger] a@[j]@ == b@[j]@,
        decreases a@.len() - i,
    {
        if a[i] != b[i] {
            return false;
        }
        i = i + 1;
    }
    true
}

} // verus!

verus! {

// ---------------------------------------------------------------------------
// Schema roles
// ---------------------------------------------------------------------------

/// The concrete audited bootstrap Nomos schema selected by an identity role.
#[derive(Clone, Copy, Debug, PartialEq, Eq, Structural, Hash, PartialOrd, Ord)]
pub enum NomosSchema {
    StreamInitiation { arity: u16 },
}

/// One semantic role registered independently of textual projection.
#[derive(Clone, Copy, Debug, PartialEq, Eq, Structural, Hash, PartialOrd, Ord)]
pub enum SchemaRole {
    FileKind(EthosKind),
    InterfaceRole(InterfaceRole),
    Nominal { persistent: bool },
    Shape { arity: u16 },
    Trait,
    Nomos(NomosSchema),
    Variant,
    Method,
    Table,
}

/// Roles of one family exclude each other on a single identity.
pub open spec fn same_role_family(left: SchemaRole, right: SchemaRole) -> bool {
    match (left, right) {
        (SchemaRole::FileKind(_), SchemaRole::FileKind(_)) => true,
        (SchemaRole::InterfaceRole(_), SchemaRole::InterfaceRole(_)) => true,
        (SchemaRole::Nominal { .. }, SchemaRole::Nominal { .. }) => true,
        (SchemaRole::Shape { .. }, SchemaRole::Shape { .. }) => true,
        (SchemaRole::Nomos(_), SchemaRole::Nomos(_)) => true,
        _ => false,
    }
}

/// Whether two roles belong to one mutually exclusive family.
pub fn conflicting_role_family(left: SchemaRole, right: SchemaRole) -> (r: bool)
    ensures
        r == same_role_family(left, right),
{
    match (left, right) {
        (SchemaRole::FileKind(_), SchemaRole::FileKind(_)) => true,
        (SchemaRole::InterfaceRole(_), SchemaRole::InterfaceRole(_)) => true,
        (SchemaRole::Nominal { .. }, SchemaRole::Nominal { .. }) => true,
        (SchemaRole::Shape { .. }, SchemaRole::Shape { .. }) => true,
        (SchemaRole::Nomos(_), SchemaRole::Nomos(_)) => true,
        _ => false,
    }
}

/// The position of a role in the role order: families in declaration order,
/// then the role's own data.
pub open spec fn role_key(role: SchemaRole) -> int {
    match role {
        SchemaRole::FileKind(kind) => match kind {
            EthosKind::Interface => 0,
            EthosKind::Nexus => 1,
            EthosKind::Sema => 2,
        },
        SchemaRole::InterfaceRole(r) => 0x20000 + match r {
            InterfaceRole::Input => 0int,
            InterfaceRole::Output => 1int,
            InterfaceRole::Refusal => 2int,
        },
        SchemaRole::Nominal { persistent } => 0x40000 + if persistent { 1int } else { 0int },
        SchemaRole::Shape { arity } => 0x60000 + arity,
        SchemaRole::Trait => 0x80000,
        SchemaRole::Nomos(NomosSchema::StreamInitiation { arity }) => 0xA0000 + arity,
        SchemaRole::Variant => 0xC0000,
        SchemaRole::Method => 0xE0000,
        SchemaRole::Table => 0x100000,
    }
}

fn role_key_exec(role: SchemaRole) -> (r: u64)
    ensures
        r == role_key(role),
{
    match role {
        SchemaRole::FileKind(kind) => match kind {
            EthosKind::Interface => 0,
            EthosKind::Nexus => 1,
            EthosKind::Sema => 2,
        },
        SchemaRole::InterfaceRole(r) => 0x20000 + match r {
            InterfaceRole::Input => 0u64,
            InterfaceRole::Output => 1u64,
            InterfaceRole::Refusal => 2u64,
        },
        SchemaRole::Nominal { persistent } => 0x40000 + if persistent { 1u64 } else { 0u64 },
        SchemaRole::Shape { arity } => 0x60000 + arity as u64,
        SchemaRole::Trait => 0x80000,
        SchemaRole::Nomos(NomosSchema::StreamInitiation { arity }) => 0xA0000 + arity as u64,
        SchemaRole::Variant => 0xC0000,
        SchemaRole::Method => 0xE0000,
        SchemaRole::Table => 0x100000,
    }
}

/// Distinct roles have distinct positions in the role order.
proof fn lemma_role_key_injective(a: SchemaRole, b: SchemaRole)
    ensures
        role_key(a) == role_key(b) ==> a == b,
{
}

/// Roles strictly increasing in the role order.
pub open spec fn roles_in_order(roles: Seq<SchemaRole>) -> bool {
    forall|a: int, b: int| 0 <= a < b < roles.len() ==> role_key(#[trigger] roles[a]) < role_key(#[trigger] roles[b])
}

proof fn lemma_ordered_roles_distinct(roles: Seq<SchemaRole>)
    requires
        roles_in_order(roles),
    ensures
        roles.no_duplicates(),
{
    assert forall|a: int, b: int| 0 <= a < roles.len() && 0 <= b < roles.len() && a != b implies roles[a]
        != roles[b] by {
        if a < b {
            assert(role_key(roles[a]) < role_key(roles[b]));
        } else {
            assert(role_key(roles[b]) < role_key(roles[a]));
        }
    }
}

/// `first` and `second` are the pair the role order meets first among the
/// conflicting roles: `first` is the least role with a distinct partner of its
/// family, `second` the least such partner above it.
pub open spec fn least_conflict(roles: Seq<SchemaRole>, first: SchemaRole, second: SchemaRole) -> bool {
    &&& roles.contains(first)
    &&& roles.contains(second)
    &&& same_role_family(first, second)
    &&& role_key(first) < role_key(second)
    &&& forall|x: SchemaRole, y: SchemaRole|
        roles.contains(x) && roles.contains(y) && x != y && same_role_family(x, y) ==> role_key(first)
            <= #[trigger] role_key(x) || !#[trigger] roles.contains(y)
    &&& forall|y: SchemaRole|
        roles.contains(y) && same_role_family(first, y) && role_key(first) < role_key(y) ==> role_key(second)
            <= #[trigger] role_key(y)
}

fn has_partner(roles: &Vec<SchemaRole>, role: SchemaRole) -> (r: bool)
    ensures
        r == exists|y: SchemaRole| roles@.contains(y) && y != role && #[trigger] same_role_family(role, y),
{
    let mut i: usize = 0;
    while i < roles.len()
        invariant
            i <= roles@.len(),
            forall|k: int| 0 <= k < i ==> !(roles@[k] != role && #[trigger] same_role_family(role, roles@[k])),
        decreases roles@.len() - i,
    {
        if roles[i] != role && conflicting_role_family(role, roles[i]) {
            assert(roles@.contains(roles@[i as int]));
            return true;
        }
        i = i + 1;
    }
    proof {
        assert forall|y: SchemaRole| roles@.contains(y) && y != role implies !#[trigger] same_role_family(role, y) by {
            let k = choose|k: int| 0 <= k < roles@.len() && roles@[k] == y;
        }
    }
    false
}

/// The least conflicting pair of a role sequence that has one.
fn least_conflict_exec(roles: &Vec<SchemaRole>) -> (r: (SchemaRole, SchemaRole))
    requires
        exists|x: SchemaRole, y: SchemaRole| roles@.contains(x) && roles@.contains(y) && x != y
            && #[trigger] same_role_family(x, y),
    ensures
        least_conflict(roles@, r.0, r.1),
{
    let mut first: Option<SchemaRole> = None;
    let mut i: usize = 0;
    while i < roles.len()
        invariant
            i <= roles@.len(),
            exists|x: SchemaRole, y: SchemaRole| roles@.contains(x) && roles@.contains(y) && x != y
                && #[trigger] same_role_family(x, y),
            first matches Some(f) ==> roles@.contains(f) && exists|y: SchemaRole| roles@.contains(y) && y != f
                && #[trigger] same_role_family(f, y),
            forall|k: int| 0 <= k < i ==> (exists|y: SchemaRole| roles@.contains(y) && y != roles@[k]
                && #[trigger] same_role_family(roles@[k], y)) ==> (first matches Some(f) && role_key(f)
                <= role_key(#[trigger] roles@[k])),
        decreases roles@.len() - i,
    {
        let candidate = roles[i];
        if has_partner(roles, candidate) {
            let better = match first {
                None => true,
                Some(f) => role_key_exec(candidate) < role_key_exec(f),
            };
            if better {
                first = Some(candidate);
            }
            assert(roles@.contains(candidate));
        }
        i = i + 1;
    }
    let ghost wx = choose|x: SchemaRole, y: SchemaRole| roles@.contains(x) && roles@.contains(y) && x != y
        && #[trigger] same_role_family(x, y);
    proof {
        let k = choose|k: int| 0 <= k < roles@.len() && roles@[k] == wx.0;
        assert(roles@.contains(wx.1) && wx.1 != roles@[k] && same_role_family(roles@[k], wx.1));
    }
    let f = match first {
        Some(f) => f,
        None => {
            proof {
                let k = choose|k: int| 0 <= k < roles@.len() && roles@[k] == wx.0;
                assert(roles@.contains(wx.1) && wx.1 != roles@[k] && same_role_family(roles@[k], wx.1));
            }
            roles[0]
        },
    };
    let ghost partner = choose|y: SchemaRole| roles@.contains(y) && y != f && #[trigger] same_role_family(f, y);
    let mut second: Option<SchemaRole> = None;
    let mut j: usize = 0;
    while j < roles.len()
        invariant
            j <= roles@.len(),
            second matches Some(s) ==> roles@.contains(s) && same_role_family(f, s) && role_key(f) < role_key(s),
            forall|k: int| 0 <= k < j ==> same_role_family(f, #[trigger] roles@[k]) && role_key(f) < role_key(roles@[k])
                ==> (second matches Some(s) && role_key(s) <= role_key(roles@[k])),
        decreases roles@.len() - j,
    {
        let candidate = roles[j];
        if conflicting_role_family(f, candidate) && role_key_exec(f) < role_key_exec(candidate) {
            let better = match second {
                None => true,
                Some(s) => role_key_exec(candidate) < role_key_exec(s),
            };
            if better {
                second = Some(candidate);
            }
            assert(roles@.contains(candidate));
        }
        j = j + 1;
    }
    proof {
        // Every conflicting role is at least `f`; `f` is itself conflicting.
        assert forall|x: SchemaRole, y: SchemaRole|
            roles@.contains(x) && roles@.contains(y) && x != y && same_role_family(x, y) implies role_key(f)
                <= #[trigger] role_key(x) || !#[trigger] roles@.contains(y) by {
            let k = choose|k: int| 0 <= k < roles@.len() && roles@[k] == x;
            assert(roles@.contains(y) && y != roles@[k] && same_role_family(roles@[k], y));
        }
        // Some partner of `f` lies above it: otherwise the partner is a
        // conflicting role below `f`.
        lemma_role_key_injective(f, partner);
        if role_key(partner) < role_key(f) {
            let k = choose|k: int| 0 <= k < roles@.len() && roles@[k] == partner;
            assert(roles@.contains(f) && f != roles@[k] && same_role_family(roles@[k], f));
        }
        let k = choose|k: int| 0 <= k < roles@.len() && roles@[k] == partner;
        assert(same_role_family(f, roles@[k]) && role_key(f) < role_key(roles@[k]));
    }
    let s = match second {
        Some(s) => s,
        None => f,
    };
    proof {
        assert forall|y: SchemaRole|
            roles@.contains(y) && same_role_family(f, y) && role_key(f) < role_key(y) implies role_key(s)
                <= #[trigger] role_key(y) by {
            let k = choose|k: int| 0 <= k < roles@.len() && roles@[k] == y;
        }
    }
    (f, s)
}

/// A role sequence in which no two distinct roles share a family.
pub open spec fn roles_compatible(roles: Seq<SchemaRole>) -> bool {
    forall|i: int, j: int|
        0 <= i < roles.len() && 0 <= j < roles.len() && roles[i] != roles[j]
            ==> !same_role_family(#[trigger] roles[i], #[trigger] roles[j])
}

fn contains_role(roles: &Vec<SchemaRole>, role: SchemaRole) -> (r: bool)
    ensures
        r == roles@.contains(role),
{
    let mut i: usize = 0;
    while i < roles.len()
        invariant
            i <= roles@.len(),
            forall|j: int| 0 <= j < i ==> roles@[j] != role,
        decreases roles@.len() - i,
    {
        if roles[i] == role {
            return true;
        }
        i = i + 1;
    }
    false
}

/// All admitted roles for one encoded identity. Multiple distinct roles are
/// intentional; a Stream identity can be both Shape and audited Nomos head.
#[derive(Clone, Debug)]
pub struct IdentitySchema {
    identity: EncodedName,
    roles: Vec<SchemaRole>,
}

impl IdentitySchema {
    pub closed spec fn spec_identity(&self) -> EncodedName {
        self.identity
    }

    pub closed spec fn spec_roles(&self) -> Seq<SchemaRole> {
        self.roles@
    }

    /// The identity is Universal and its roles are distinct and compatible.
    pub open spec fn wf(&self) -> bool {
        &&& self.spec_identity().root == crate::identity::VocabularyRoot::Universal
        &&& self.spec_roles().no_duplicates()
        &&& roles_compatible(self.spec_roles())
    }

    pub open spec fn spec_admits(&self, role: SchemaRole) -> bool {
        self.spec_roles().contains(role)
    }

    /// Register the roles of one Universal identity. Repeated roles collapse;
    /// two distinct roles of one family are refused.
    pub fn new(identity: EncodedName, roles: Vec<SchemaRole>) -> (r: Result<Self, BootstrapReadError>)
        ensures
            r is Ok <==> identity.root == crate::identity::VocabularyRoot::Universal
                && roles_compatible(roles@),
            identity.root != crate::identity::VocabularyRoot::Universal ==> r == Err::<Self, BootstrapReadError>(
                BootstrapReadError::NonUniversalSchemaIdentity(identity),
            ),
            r matches Ok(s) ==> s.wf() && s.spec_identity() == identity
                && s.spec_roles().to_set() == roles@.to_set() && roles_in_order(s.spec_roles()),
            r matches Err(e) ==> match e {
                BootstrapReadError::NonUniversalSchemaIdentity(id) => id == identity
                    && identity.root != crate::identity::VocabularyRoot::Universal,
                BootstrapReadError::ConflictingSchemaRoles { identity: id, first, second } =>
                    id == identity && first != second && same_role_family(first, second)
                    && roles@.contains(first) && roles@.contains(second)
                    && least_conflict(roles@, first, second),
                _ => false,
            },
    {
        if !identity.is_universal() {
            return Err(BootstrapReadError::NonUniversalSchemaIdentity(identity));
        }
        let mut unique: Vec<SchemaRole> = Vec::new();
        let mut i: usize = 0;
        while i < roles.len()
            invariant
                i <= roles@.len(),
                identity.root == crate::identity::VocabularyRoot::Universal,
                roles_in_order(unique@),
                forall|k: int| 0 <= k < unique@.len() ==> roles@.subrange(0, i as int).contains(#[trigger] unique@[k]),
                forall|k: int| 0 <= k < i ==> unique@.contains(#[trigger] roles@[k]),
            decreases roles@.len() - i,
        {
            let role = roles[i];
            let key = role_key_exec(role);
            let ghost before = unique@;
            let mut p: usize = 0;
            while p < unique.len() && role_key_exec(unique[p]) < key
                invariant
                    p <= unique@.len(),
                    unique@ == before,
                    key == role_key(role),
                    forall|k: int| 0 <= k < p ==> role_key(#[trigger] unique@[k]) < key,
                decreases unique@.len() - p,
            {
                p = p + 1;
            }
            if p < unique.len() && role_key_exec(unique[p]) == key {
                proof {
                    lemma_role_key_injective(unique@[p as int], role);
                }
            } else {
                unique.insert(p, role);
                proof {
                    assert forall|a: int, b: int| 0 <= a < b < unique@.len() implies role_key(#[trigger] unique@[a])
                        < role_key(#[trigger] unique@[b]) by {
                        if b < p {
                        } else if a < p && b == p {
                        } else if a < p {
                            assert(unique@[b] == before[b - 1]);
                        } else if a == p {
                            assert(unique@[b] == before[b - 1]);
                            assert(role_key(before[p as int]) >= key);
                        } else {
                            assert(unique@[a] == before[a - 1]);
                            assert(unique@[b] == before[b - 1]);
                        }
                    }
                }
            }
            proof {
                assert(roles@.subrange(0, i + 1)[i as int] == role);
                assert(unique@.contains(role)) by {
                    if unique@.len() > before.len() {
                        assert(unique@[p as int] == role);
                    } else {
                        assert(unique@[p as int] == role);
                    }
                }
                assert forall|k: int| 0 <= k < unique@.len() implies roles@.subrange(0, i + 1).contains(#[trigger] unique@[k]) by {
                    if unique@[k] == role {
                        assert(roles@.subrange(0, i + 1)[i as int] == unique@[k]);
                    } else {
                        let w: int = if unique@.len() > before.len() && k > p { k - 1 } else { k };
                        assert(unique@[k] == before[w]);
                        assert(roles@.subrange(0, i as int).contains(before[w]));
                        let v = choose|v: int| 0 <= v < i && roles@.subrange(0, i as int)[v] == before[w];
                        assert(roles@.subrange(0, i + 1)[v] == unique@[k]);
                    }
                }
                assert forall|k: int| 0 <= k < i + 1 implies unique@.contains(#[trigger] roles@[k]) by {
                    if k < i {
                        assert(before.contains(roles@[k]));
                        let w = choose|w: int| 0 <= w < before.len() && before[w] == roles@[k];
                        if unique@.len() > before.len() && w >= p {
                            assert(unique@[w + 1] == roles@[k]);
                        } else {
                            assert(unique@[w] == roles@[k]);
                        }
                    }
                }
            }
            i = i + 1;
        }
        proof {
            lemma_ordered_roles_distinct(unique@);
        }
        assert(roles@.subrange(0, roles@.len() as int) =~= roles@);
        let n = unique.len();
        let mut a: usize = 0;
        while a < n
            invariant
                identity.root == crate::identity::VocabularyRoot::Universal,
                n == unique@.len(),
                a <= n,
                unique@.no_duplicates(),
                forall|x: int, y: int| 0 <= x < a && 0 <= y < n && unique@[x] != unique@[y]
                    ==> !same_role_family(#[trigger] unique@[x], #[trigger] unique@[y]),
                forall|k: int| 0 <= k < n ==> roles@.contains(#[trigger] unique@[k]),
            decreases n - a,
        {
            let mut b: usize = 0;
            while b < n
                invariant
                    identity.root == crate::identity::VocabularyRoot::Universal,
                    n == unique@.len(),
                    a < n,
                    b <= n,
                    forall|x: int, y: int| 0 <= x < a && 0 <= y < n && unique@[x] != unique@[y]
                        ==> !same_role_family(#[trigger] unique@[x], #[trigger] unique@[y]),
                    forall|y: int| 0 <= y < b && unique@[a as int] != unique@[y]
                        ==> !same_role_family(unique@[a as int], #[trigger] unique@[y]),
                    forall|k: int| 0 <= k < n ==> roles@.contains(#[trigger] unique@[k]),
                decreases n - b,
            {
                let first = unique[a];
                let second = unique[b];
                if first != second && conflicting_role_family(first, second) {
                    assert(roles@.contains(unique@[a as int]));
                    assert(roles@.contains(unique@[b as int]));
                    assert(roles@.contains(first) && roles@.contains(second));
                    let (least, next) = least_conflict_exec(&roles);
                    return Err(BootstrapReadError::ConflictingSchemaRoles {
                        identity,
                        first: least,
                        second: next,
                    });
                }
                b = b + 1;
            }
            a = a + 1;
        }
        proof {
            assert(unique@.to_set() =~= roles@.to_set()) by {
                assert forall|x: SchemaRole| unique@.to_set().contains(x) implies roles@.to_set().contains(x) by {
                    let k = choose|k: int| 0 <= k < unique@.len() && unique@[k] == x;
                    assert(roles@.contains(unique@[k]));
                }
                assert forall|x: SchemaRole| roles@.to_set().contains(x) implies unique@.to_set().contains(x) by {
                    let k = choose|k: int| 0 <= k < roles@.len() && roles@[k] == x;
                    assert(unique@.contains(roles@[k]));
                }
            }
            assert forall|x: int, y: int|
                0 <= x < roles@.len() && 0 <= y < roles@.len() && roles@[x] != roles@[y]
                    implies !same_role_family(#[trigger] roles@[x], #[trigger] roles@[y]) by {
                assert(unique@.contains(roles@[x]));
                assert(unique@.contains(roles@[y]));
                let p = choose|p: int| 0 <= p < unique@.len() && unique@[p] == roles@[x];
                let q = choose|q: int| 0 <= q < unique@.len() && unique@[q] == roles@[y];
                assert(unique@[p] != unique@[q]);
            }
            assert forall|x: int, y: int|
                0 <= x < unique@.len() && 0 <= y < unique@.len() && unique@[x] != unique@[y]
                    implies !same_role_family(#[trigger] unique@[x], #[trigger] unique@[y]) by {
            }
        }
        Ok(IdentitySchema { identity, roles: unique })
    }

    /// The identity whose roles are described.
    pub fn identity(&self) -> (r: EncodedName)
        ensures
            r == self.spec_identity(),
    {
        self.identity
    }

    /// The distinct admitted roles.
    pub fn roles(&self) -> (r: &[SchemaRole])
        ensures
            r@ == self.spec_roles(),
    {
        self.roles.as_slice()
    }

    /// Whether the identity admits exactly this role.
    pub fn admits(&self, role: SchemaRole) -> (r: bool)
        ensures
            r == self.spec_admits(role),
    {
        contains_role(&self.roles, role)
    }

    /// The arity of the identity's Shape role, when it has one.
    pub fn shape_arity(&self) -> (r: Option<u16>)
        requires
            self.wf(),
        ensures
            r matches Some(a) ==> self.spec_admits((SchemaRole::Shape { arity: a })),
            r is None ==> forall|a: u16| !self.spec_admits((SchemaRole::Shape { arity: a })),
    {
        let mut i: usize = 0;
        while i < self.roles.len()
            invariant
                i <= self.roles@.len(),
                forall|j: int, a: u16| 0 <= j < i ==> self.roles@[j] != (SchemaRole::Shape { arity: a }),
            decreases self.roles@.len() - i,
        {
            match self.roles[i] {
                SchemaRole::Shape { arity } => {
                    return Some(arity);
                },
                _ => {},
            }
            i = i + 1;
        }
        None
    }

    /// The audited Nomos schema of the identity, when it has one.
    pub fn nomos(&self) -> (r: Option<NomosSchema>)
        requires
            self.wf(),
        ensures
            r matches Some(n) ==> self.spec_admits(SchemaRole::Nomos(n)),
            r is None ==> forall|n: NomosSchema| !self.spec_admits(SchemaRole::Nomos(n)),
    {
        let mut i: usize = 0;
        while i < self.roles.len()
            invariant
                i <= self.roles@.len(),
                forall|j: int, n: NomosSchema| 0 <= j < i ==> self.roles@[j] != SchemaRole::Nomos(n),
            decreases self.roles@.len() - i,
        {
            match self.roles[i] {
                SchemaRole::Nomos(schema) => {
                    return Some(schema);
                },
                _ => {},
            }
            i = i + 1;
        }
        None
    }

    /// Whether the identity has a nominal role of either persistence.
    pub fn is_nominal(&self) -> (r: bool)
        ensures
            r == (self.spec_admits((SchemaRole::Nominal { persistent: false }))
                || self.spec_admits((SchemaRole::Nominal { persistent: true }))),
    {
        self.admits(SchemaRole::Nominal { persistent: false })
            || self.admits(SchemaRole::Nominal { persistent: true })
    }
}

} // verus!

verus! {

// ---------------------------------------------------------------------------
// Identity-keyed schema authority
// ---------------------------------------------------------------------------

/// No two entries describe the same identity.
pub open spec fn schema_identities_unique(entries: Seq<IdentitySchema>) -> bool {
    forall|i: int, j: int|
        0 <= i < entries.len() && 0 <= j < entries.len() && i != j
            ==> (#[trigger] entries[i]).spec_identity() != (#[trigger] entries[j]).spec_identity()
}

/// Identity-keyed semantic schema authority.
#[derive(Clone, Debug)]
pub struct IdentitySchemaCatalog {
    entries: Vec<IdentitySchema>,
}

impl IdentitySchemaCatalog {
    pub closed spec fn spec_entries(&self) -> Seq<IdentitySchema> {
        self.entries@
    }

    pub open spec fn wf(&self) -> bool {
        &&& schema_identities_unique(self.spec_entries())
        &&& forall|i: int| 0 <= i < self.spec_entries().len() ==> (#[trigger] self.spec_entries()[i]).wf()
    }

    /// Whether some entry describes `identity`.
    pub open spec fn spec_contains(&self, identity: EncodedName) -> bool {
        exists|i: int| 0 <= i < self.spec_entries().len()
            && (#[trigger] self.spec_entries()[i]).spec_identity() == identity
    }

    /// The entry describing `identity`.
    pub open spec fn spec_get(&self, identity: EncodedName) -> Option<IdentitySchema> {
        if self.spec_contains(identity) {
            Some(self.spec_entries()[choose|i: int| 0 <= i < self.spec_entries().len()
                && (#[trigger] self.spec_entries()[i]).spec_identity() == identity])
        } else {
            None
        }
    }

    /// Whether `identity` is described and admits `role`.
    pub open spec fn spec_admits(&self, identity: EncodedName, role: SchemaRole) -> bool {
        self.spec_get(identity) matches Some(s) && s.spec_admits(role)
    }

    /// The empty catalog.
    pub fn empty() -> (r: Self)
        ensures
            r.wf(),
            r.spec_entries() == Seq::<IdentitySchema>::empty(),
    {
        IdentitySchemaCatalog { entries: Vec::new() }
    }

    /// Key the given schemas by identity; each identity may appear once.
    pub fn new(entries: Vec<IdentitySchema>) -> (r: Result<Self, BootstrapReadError>)
        requires
            forall|i: int| 0 <= i < entries@.len() ==> (#[trigger] entries@[i]).wf(),
        ensures
            r is Ok <==> schema_identities_unique(entries@),
            r matches Ok(c) ==> c.wf() && c.spec_entries() == entries@,
            r matches Err(e) ==> e matches BootstrapReadError::DuplicateSchemaIdentity(id)
                && exists|i: int, j: int| 0 <= i < j < entries@.len()
                    && entries@[i].spec_identity() == id && entries@[j].spec_identity() == id,
    {
        let n = entries.len();
        let mut j: usize = 0;
        while j < n
            invariant
                n == entries@.len(),
                j <= n,
                forall|x: int, y: int| 0 <= x < j && 0 <= y < j && x != y
                    ==> (#[trigger] entries@[x]).spec_identity() != (#[trigger] entries@[y]).spec_identity(),
            decreases n - j,
        {
            let mut i: usize = 0;
            while i < j
                invariant
                    n == entries@.len(),
                    i <= j < n,
                    forall|y: int| 0 <= y < i ==> (#[trigger] entries@[y]).spec_identity() != entries@[j as int].spec_identity(),
                decreases j - i,
            {
                if entries[i].identity() == entries[j].identity() {
                    return Err(BootstrapReadError::DuplicateSchemaIdentity(entries[j].identity()));
                }
                i = i + 1;
            }
            j = j + 1;
        }
        Ok(IdentitySchemaCatalog { entries })
    }

    /// The schema of `identity`, when catalogued.
    pub fn get(&self, identity: EncodedName) -> (r: Option<&IdentitySchema>)
        requires
            self.wf(),
        ensures
            r matches Some(s) ==> self.spec_get(identity) == Some(*s),
            r is None ==> self.spec_get(identity) is None,
    {
        let mut i: usize = 0;
        while i < self.entries.len()
            invariant
                i <= self.entries@.len(),
                self.wf(),
                forall|j: int| 0 <= j < i ==> (#[trigger] self.entries@[j]).spec_identity() != identity,
            decreases self.entries@.len() - i,
        {
            if self.entries[i].identity() == identity {
                proof {
                    assert(self.spec_entries()[i as int].spec_identity() == identity);
                    let k = choose|k: int| 0 <= k < self.spec_entries().len()
                        && (#[trigger] self.spec_entries()[k]).spec_identity() == identity;
                    assert(k == i);
                }
                return Some(&self.entries[i]);
            }
            i = i + 1;
        }
        None
    }

    /// Whether `identity` is catalogued.
    pub fn contains(&self, identity: EncodedName) -> (r: bool)
        requires
            self.wf(),
        ensures
            r == self.spec_contains(identity),
    {
        self.get(identity).is_some()
    }

    /// Whether `identity` is catalogued with `role`.
    pub fn admits(&self, identity: EncodedName, role: SchemaRole) -> (r: bool)
        requires
            self.wf(),
        ensures
            r == self.spec_admits(identity, role),
    {
        match self.get(identity) {
            Some(schema) => schema.admits(role),
            None => false,
        }
    }

    /// All catalogued schemas.
    pub fn entries(&self) -> (r: &[IdentitySchema])
        ensures
            r@ == self.spec_entries(),
    {
        self.entries.as_slice()
    }
}

// ---------------------------------------------------------------------------
// Textual metadata
// ---------------------------------------------------------------------------

/// The textual address of one projection: module path, optional lexical owner
/// (an enum for a variant, a Trait for a method), and visible name.
#[derive(Clone, Debug)]
pub struct TextualProjectionAddress {
    pub module: Vec<String>,
    pub lexical_owner: Option<EncodedName>,
    pub visible_name: String,
}

/// One textual projection record. It carries no semantic class information.
#[derive(Clone, Debug)]
pub struct TextualMetadataRecord {
    pub address: TextualProjectionAddress,
    pub encoded_name: EncodedName,
}

/// In a valid canonical order, equal bytes identify one identity.
pub proof fn lemma_bytes_identify(order: CanonicalIdentityOrder, a: EncodedName, b: EncodedName)
    requires
        order.wf(),
        order.spec_contains(a),
        order.spec_contains(b),
        order.spec_bytes(a) == order.spec_bytes(b),
    ensures
        a == b,
{
    let e = order.spec_entries();
    let i = choose|i: int| 0 <= i < e.len() && (#[trigger] e[i]).identity == a;
    let j = choose|j: int| 0 <= j < e.len() && (#[trigger] e[j]).identity == b;
    if i != j {
        assert(e[i].bytes@ != e[j].bytes@);
    }
}

/// Two addresses name the same module path, owner, and spelling.
pub open spec fn same_address(a: TextualProjectionAddress, b: TextualProjectionAddress) -> bool {
    &&& same_path(a.module@, b.module@)
    &&& a.lexical_owner == b.lexical_owner
    &&& a.visible_name@ == b.visible_name@
}

/// Whether some record carries `identity`.
pub open spec fn records_have_identity(records: Seq<TextualMetadataRecord>, identity: EncodedName) -> bool {
    exists|i: int| 0 <= i < records.len() && (#[trigger] records[i]).encoded_name == identity
}

/// The snapshot laws: safe projections, one record per identity, one identity
/// per exact address, and lexical owners that are other recorded identities.
pub open spec fn snapshot_valid(records: Seq<TextualMetadataRecord>) -> bool {
    &&& forall|i: int| 0 <= i < records.len() ==> valid_module_path((#[trigger] records[i]).address.module@)
    &&& forall|i: int| 0 <= i < records.len() ==> safe_bare_name((#[trigger] records[i]).address.visible_name@)
    &&& forall|i: int, j: int| 0 <= i < records.len() && 0 <= j < records.len() && i != j
        ==> (#[trigger] records[i]).encoded_name != (#[trigger] records[j]).encoded_name
    &&& forall|i: int, j: int| 0 <= i < records.len() && 0 <= j < records.len() && i != j
        ==> !same_address((#[trigger] records[i]).address, (#[trigger] records[j]).address)
    &&& forall|i: int| 0 <= i < records.len() ==> match (#[trigger] records[i]).address.lexical_owner {
        Some(owner) => owner != records[i].encoded_name && records_have_identity(records, owner),
        None => true,
    }
}

/// Which refusal a snapshot construction may report for these records.
pub open spec fn snapshot_error_witnessed(records: Seq<TextualMetadataRecord>, e: BootstrapReadError) -> bool {
    match e {
        BootstrapReadError::InvalidModulePath(p) => exists|i: int| 0 <= i < records.len()
            && (#[trigger] records[i]).address.module@ == p@ && !valid_module_path(p@),
        BootstrapReadError::InvalidVisibleName(n) => exists|i: int| 0 <= i < records.len()
            && (#[trigger] records[i]).address.visible_name@ == n@ && !safe_bare_name(n@),
        BootstrapReadError::DuplicateMetadataIdentity(id) => exists|i: int, j: int|
            0 <= i < j < records.len() && (#[trigger] records[i]).encoded_name == id
            && (#[trigger] records[j]).encoded_name == id,
        BootstrapReadError::DuplicateMetadataProjectionAddress { module, lexical_owner, name } =>
            exists|i: int, j: int| 0 <= i < j < records.len()
                && same_address((#[trigger] records[i]).address, (#[trigger] records[j]).address)
                && records[j].address.module@ == module@ && records[j].address.lexical_owner == lexical_owner
                && records[j].address.visible_name@ == name@,
        BootstrapReadError::InvalidMetadataLexicalOwner { identity, owner } =>
            exists|i: int| 0 <= i < records.len() && (#[trigger] records[i]).encoded_name == identity
                && records[i].address.lexical_owner == Some(owner)
                && (owner == identity || !records_have_identity(records, owner)),
        _ => false,
    }
}

/// The records before `j` pass the per-record checks: valid paths and names,
/// and pairwise distinct identities and addresses.
pub open spec fn clean_prefix(records: Seq<TextualMetadataRecord>, j: int) -> bool {
    &&& forall|i: int| 0 <= i < j ==> valid_module_path((#[trigger] records[i]).address.module@)
    &&& forall|i: int| 0 <= i < j ==> safe_bare_name((#[trigger] records[i]).address.visible_name@)
    &&& forall|x: int, y: int| 0 <= x < j && 0 <= y < j && x != y
        ==> (#[trigger] records[x]).encoded_name != (#[trigger] records[y]).encoded_name
    &&& forall|x: int, y: int| 0 <= x < j && 0 <= y < j && x != y
        ==> !same_address((#[trigger] records[x]).address, (#[trigger] records[y]).address)
}

/// Record `j` neither repeats the identity nor the address of any record before `i`.
pub open spec fn unrepeated_before(records: Seq<TextualMetadataRecord>, j: int, i: int) -> bool {
    forall|q: int| 0 <= q < i ==> (#[trigger] records[q]).encoded_name != records[j].encoded_name
        && !same_address(records[q].address, records[j].address)
}

/// The refusal a snapshot construction reports: records are checked in order,
/// each for its module path, then its visible name, then against every
/// earlier record (identity before address); lexical owners are checked once
/// every record has passed.
pub open spec fn first_snapshot_refusal(records: Seq<TextualMetadataRecord>, e: BootstrapReadError) -> bool {
    match e {
        BootstrapReadError::InvalidModulePath(p) => exists|j: int|
            0 <= j < records.len() && #[trigger] clean_prefix(records, j) && records[j].address.module@ == p@
                && !valid_module_path(p@),
        BootstrapReadError::InvalidVisibleName(n) => exists|j: int|
            0 <= j < records.len() && #[trigger] clean_prefix(records, j)
                && valid_module_path(records[j].address.module@) && records[j].address.visible_name@ == n@
                && !safe_bare_name(n@),
        BootstrapReadError::DuplicateMetadataIdentity(id) => exists|i: int, j: int|
            0 <= i < j < records.len() && #[trigger] clean_prefix(records, j) && #[trigger] unrepeated_before(records, j, i)
                && valid_module_path(records[j].address.module@)
                && safe_bare_name(records[j].address.visible_name@) && records[i].encoded_name == id
                && records[j].encoded_name == id,
        BootstrapReadError::DuplicateMetadataProjectionAddress { module, lexical_owner, name } =>
            exists|i: int, j: int|
                0 <= i < j < records.len() && #[trigger] clean_prefix(records, j) && #[trigger] unrepeated_before(records, j, i)
                    && valid_module_path(records[j].address.module@)
                    && safe_bare_name(records[j].address.visible_name@)
                    && records[i].encoded_name != records[j].encoded_name
                    && same_address(records[i].address, records[j].address)
                    && records[j].address.module@ == module@ && records[j].address.lexical_owner == lexical_owner
                    && records[j].address.visible_name@ == name@,
        BootstrapReadError::InvalidMetadataLexicalOwner { identity, owner } => exists|k: int|
            0 <= k < records.len() && clean_prefix(records, records.len() as int) && (#[trigger] records[k]).encoded_name
                == identity && records[k].address.lexical_owner == Some(owner)
                && (owner == identity || !records_have_identity(records, owner))
                && forall|q: int| 0 <= q < k ==> match (#[trigger] records[q]).address.lexical_owner {
                    Some(o) => o != records[q].encoded_name && records_have_identity(records, o),
                    None => true,
                },
        _ => false,
    }
}

/// The identities of the records at a module path and visible name, in order.
pub open spec fn projected_at(records: Seq<TextualMetadataRecord>, module: Seq<Seq<char>>, name: Seq<char>) -> Seq<EncodedName>
    decreases records.len(),
{
    if records.len() == 0 {
        Seq::empty()
    } else {
        let last = records.last();
        projected_at(records.drop_last(), module, name) + if path_view(last.address.module@) == module
            && last.address.visible_name@ == name {
            seq![last.encoded_name]
        } else {
            Seq::empty()
        }
    }
}

/// Looking a record up finds it again: every record of a snapshot is the
/// record of its identity, its identity is listed at its path and name, an
/// identity no record carries has no record, and every identity listed at a
/// path and name has a record there.
pub proof fn lemma_snapshot_lookup(snapshot: TextualMetadataSnapshot, i: int, identity: EncodedName, module: Seq<Seq<char>>, name: Seq<char>)
    requires
        snapshot.wf(),
        0 <= i < snapshot.spec_records().len(),
    ensures
        snapshot.spec_record(snapshot.spec_records()[i].encoded_name) == Some(snapshot.spec_records()[i]),
        snapshot.spec_spelling(snapshot.spec_records()[i].encoded_name)
            == Some(snapshot.spec_records()[i].address.visible_name@),
        projected_at(snapshot.spec_records(), path_view(snapshot.spec_records()[i].address.module@),
            snapshot.spec_records()[i].address.visible_name@).contains(snapshot.spec_records()[i].encoded_name),
        !records_have_identity(snapshot.spec_records(), identity) ==> snapshot.spec_record(identity) is None,
        projected_at(snapshot.spec_records(), module, name).contains(identity) ==> exists|k: int|
            0 <= k < snapshot.spec_records().len() && (#[trigger] snapshot.spec_records()[k]).encoded_name == identity
                && path_view(snapshot.spec_records()[k].address.module@) == module
                && snapshot.spec_records()[k].address.visible_name@ == name,
{
    let records = snapshot.spec_records();
    let r = records[i];
    assert(records_have_identity(records, r.encoded_name));
    let k = choose|k: int| 0 <= k < records.len() && (#[trigger] records[k]).encoded_name == r.encoded_name;
    assert(k == i);
    lemma_projected_at(records, path_view(r.address.module@), r.address.visible_name@, i);
    lemma_projected_at_sound(records, module, name, identity);
}

proof fn lemma_projected_at(records: Seq<TextualMetadataRecord>, module: Seq<Seq<char>>, name: Seq<char>, i: int)
    requires
        0 <= i < records.len(),
        path_view(records[i].address.module@) == module,
        records[i].address.visible_name@ == name,
    ensures
        projected_at(records, module, name).contains(records[i].encoded_name),
    decreases records.len(),
{
    let last = records.len() - 1;
    if i == last {
        let tail = projected_at(records.drop_last(), module, name);
        assert((tail + seq![records[i].encoded_name])[tail.len() as int] == records[i].encoded_name);
    } else {
        lemma_projected_at(records.drop_last(), module, name, i);
        let tail = projected_at(records.drop_last(), module, name);
        let w = choose|w: int| 0 <= w < tail.len() && tail[w] == records[i].encoded_name;
        let extra = if path_view(records.last().address.module@) == module && records.last().address.visible_name@ == name {
            seq![records.last().encoded_name]
        } else {
            Seq::<EncodedName>::empty()
        };
        assert((tail + extra)[w] == records[i].encoded_name);
    }
}

proof fn lemma_projected_at_sound(records: Seq<TextualMetadataRecord>, module: Seq<Seq<char>>, name: Seq<char>, identity: EncodedName)
    ensures
        projected_at(records, module, name).contains(identity) ==> exists|k: int|
            0 <= k < records.len() && (#[trigger] records[k]).encoded_name == identity
                && path_view(records[k].address.module@) == module && records[k].address.visible_name@ == name,
    decreases records.len(),
{
    if records.len() > 0 && projected_at(records, module, name).contains(identity) {
        let init = records.drop_last();
        let tail = projected_at(init, module, name);
        let last = records.last();
        let extra = if path_view(last.address.module@) == module && last.address.visible_name@ == name {
            seq![last.encoded_name]
        } else {
            Seq::<EncodedName>::empty()
        };
        let all = tail + extra;
        let w = choose|w: int| 0 <= w < all.len() && all[w] == identity;
        if w < tail.len() {
            assert(tail[w] == identity);
            lemma_projected_at_sound(init, module, name, identity);
            let k = choose|k: int| 0 <= k < init.len() && (#[trigger] init[k]).encoded_name == identity
                && path_view(init[k].address.module@) == module && init[k].address.visible_name@ == name;
            assert(records[k] == init[k]);
        } else {
            assert(records[records.len() - 1] == last);
        }
    }
}

fn addresses_equal(a: &TextualProjectionAddress, b: &TextualProjectionAddress) -> (r: bool)
    ensures
        r == same_address(*a, *b),
{
    paths_equal(a.module.as_slice(), b.module.as_slice()) && a.lexical_owner == b.lexical_owner
        && a.visible_name == b.visible_name
}

/// An immutable bidirectional one-record-per-object textual snapshot.
#[derive(Clone, Debug)]
pub struct TextualMetadataSnapshot {
    records: Vec<TextualMetadataRecord>,
}

impl TextualMetadataSnapshot {
    pub closed spec fn spec_records(&self) -> Seq<TextualMetadataRecord> {
        self.records@
    }

    pub open spec fn wf(&self) -> bool {
        snapshot_valid(self.spec_records())
    }

    pub open spec fn spec_has(&self, identity: EncodedName) -> bool {
        records_have_identity(self.spec_records(), identity)
    }

    /// The record of `identity`.
    pub open spec fn spec_record(&self, identity: EncodedName) -> Option<TextualMetadataRecord> {
        if self.spec_has(identity) {
            Some(self.spec_records()[choose|i: int| 0 <= i < self.spec_records().len()
                && (#[trigger] self.spec_records()[i]).encoded_name == identity])
        } else {
            None
        }
    }

    /// The visible spelling of `identity`.
    pub open spec fn spec_spelling(&self, identity: EncodedName) -> Option<Seq<char>> {
        match self.spec_record(identity) {
            Some(record) => Some(record.address.visible_name@),
            None => None,
        }
    }

    /// Validate and index the records.
    pub fn new(records: Vec<TextualMetadataRecord>) -> (r: Result<Self, BootstrapReadError>)
        ensures
            r is Ok <==> snapshot_valid(records@),
            r matches Ok(s) ==> s.spec_records() == records@,
            r matches Err(e) ==> snapshot_error_witnessed(records@, e),
            r matches Err(e) ==> first_snapshot_refusal(records@, e),
    {
        let n = records.len();
        let mut j: usize = 0;
        while j < n
            invariant
                n == records@.len(),
                j <= n,
                forall|i: int| 0 <= i < j ==> valid_module_path((#[trigger] records@[i]).address.module@),
                forall|i: int| 0 <= i < j ==> safe_bare_name((#[trigger] records@[i]).address.visible_name@),
                forall|x: int, y: int| 0 <= x < j && 0 <= y < j && x != y
                    ==> (#[trigger] records@[x]).encoded_name != (#[trigger] records@[y]).encoded_name,
                forall|x: int, y: int| 0 <= x < j && 0 <= y < j && x != y
                    ==> !same_address((#[trigger] records@[x]).address, (#[trigger] records@[y]).address),
            decreases n - j,
        {
            let record = &records[j];
            assert(clean_prefix(records@, j as int));
            if let Err(e) = validate_module_path(record.address.module.as_slice()) {
                return Err(e);
            }
            if let Err(e) = validate_visible_name(record.address.visible_name.as_str()) {
                return Err(e);
            }
            let mut i: usize = 0;
            while i < j
                invariant
                    n == records@.len(),
                    i <= j < n,
                    *record == records@[j as int],
                    clean_prefix(records@, j as int),
                    valid_module_path(records@[j as int].address.module@),
                    safe_bare_name(records@[j as int].address.visible_name@),
                    forall|y: int| 0 <= y < i ==> (#[trigger] records@[y]).encoded_name != records@[j as int].encoded_name,
                    forall|y: int| 0 <= y < i ==> !same_address((#[trigger] records@[y]).address, records@[j as int].address),
                decreases j - i,
            {
                assert(unrepeated_before(records@, j as int, i as int));
                if records[i].encoded_name == record.encoded_name {
                    return Err(BootstrapReadError::DuplicateMetadataIdentity(record.encoded_name));
                }
                if addresses_equal(&records[i].address, &record.address) {
                    return Err(BootstrapReadError::DuplicateMetadataProjectionAddress {
                        module: clone_path(record.address.module.as_slice()),
                        lexical_owner: record.address.lexical_owner,
                        name: record.address.visible_name.clone(),
                    });
                }
                i = i + 1;
            }
            proof {
                assert forall|x: int, y: int| 0 <= x < j + 1 && 0 <= y < j + 1 && x != y
                    implies !same_address((#[trigger] records@[x]).address, (#[trigger] records@[y]).address) by {
                    if x == j {
                        assert(!same_address(records@[y].address, records@[x].address));
                    }
                }
            }
            j = j + 1;
        }
        let snapshot = TextualMetadataSnapshot { records };
        let mut k: usize = 0;
        while k < n
            invariant
                n == snapshot.records@.len(),
                snapshot.records@ == records@,
                k <= n,
                forall|i: int| 0 <= i < k ==> match (#[trigger] records@[i]).address.lexical_owner {
                    Some(owner) => owner != records@[i].encoded_name && records_have_identity(records@, owner),
                    None => true,
                },
                clean_prefix(records@, n as int),
            decreases n - k,
        {
            if let Some(owner) = snapshot.records[k].address.lexical_owner {
                let identity = snapshot.records[k].encoded_name;
                if owner == identity || !snapshot.find(owner).is_some() {
                    return Err(BootstrapReadError::InvalidMetadataLexicalOwner { identity, owner });
                }
            }
            k = k + 1;
        }
        Ok(snapshot)
    }

    fn find(&self, identity: EncodedName) -> (r: Option<usize>)
        ensures
            r matches Some(i) ==> i < self.records@.len() && self.records@[i as int].encoded_name == identity,
            r is None ==> !records_have_identity(self.records@, identity),
    {
        let mut i: usize = 0;
        while i < self.records.len()
            invariant
                i <= self.records@.len(),
                forall|j: int| 0 <= j < i ==> (#[trigger] self.records@[j]).encoded_name != identity,
            decreases self.records@.len() - i,
        {
            if self.records[i].encoded_name == identity {
                return Some(i);
            }
            i = i + 1;
        }
        None
    }

    /// All records in authored order.
    pub fn records(&self) -> (r: &[TextualMetadataRecord])
        ensures
            r@ == self.spec_records(),
    {
        self.records.as_slice()
    }

    /// The record of `identity`, when present.
    pub fn record(&self, identity: EncodedName) -> (r: Option<&TextualMetadataRecord>)
        requires
            self.wf(),
        ensures
            r matches Some(rec) ==> self.spec_record(identity) == Some(*rec),
            r is None ==> self.spec_record(identity) is None,
    {
        match self.find(identity) {
            Some(i) => {
                proof {
                    let k = choose|k: int| 0 <= k < self.spec_records().len()
                        && (#[trigger] self.spec_records()[k]).encoded_name == identity;
                    assert(k == i);
                }
                Some(&self.records[i])
            },
            None => None,
        }
    }

    /// Whether `identity` has a record.
    pub fn contains(&self, identity: EncodedName) -> (r: bool)
        requires
            self.wf(),
        ensures
            r == self.spec_has(identity),
    {
        self.find(identity).is_some()
    }

    /// The visible spelling of `identity`, when present.
    pub fn spelling(&self, identity: EncodedName) -> (r: Option<&String>)
        requires
            self.wf(),
        ensures
            r matches Some(s) ==> self.spec_spelling(identity) == Some(s@),
            r is None ==> self.spec_spelling(identity) is None,
    {
        match self.record(identity) {
            Some(record) => Some(&record.address.visible_name),
            None => None,
        }
    }

    /// Whether record `i` sits at the exact address.
    pub open spec fn record_at(&self, i: int, module: Seq<Seq<char>>, lexical_owner: Option<EncodedName>, name: Seq<char>) -> bool {
        &&& 0 <= i < self.spec_records().len()
        &&& path_view(self.spec_records()[i].address.module@) == module
        &&& self.spec_records()[i].address.lexical_owner == lexical_owner
        &&& self.spec_records()[i].address.visible_name@ == name
    }

    /// The identity recorded at an exact address.
    pub open spec fn spec_identity_at(&self, module: Seq<Seq<char>>, lexical_owner: Option<EncodedName>, name: Seq<char>) -> Option<EncodedName> {
        if exists|i: int| #[trigger] self.record_at(i, module, lexical_owner, name) {
            Some(self.spec_records()[choose|i: int| #[trigger] self.record_at(i, module, lexical_owner, name)].encoded_name)
        } else {
            None
        }
    }

    /// Every identity projected at a module path and visible name, whatever
    /// its lexical owner, in record order.
    pub fn identities_at(&self, module: &[String], name: &str) -> (r: Vec<EncodedName>)
        ensures
            r@ == projected_at(self.spec_records(), path_view(module@), name@),
    {
        let mut out: Vec<EncodedName> = Vec::new();
        let mut i: usize = 0;
        while i < self.records.len()
            invariant
                i <= self.records@.len(),
                out@ == projected_at(self.records@.subrange(0, i as int), path_view(module@), name@),
            decreases self.records@.len() - i,
        {
            let record = &self.records[i];
            proof {
                let next = self.records@.subrange(0, i + 1);
                assert(next.drop_last() =~= self.records@.subrange(0, i as int));
                assert(next.last() == self.records@[i as int]);
                lemma_same_path_view(record.address.module@, module@);
            }
            if paths_equal(record.address.module.as_slice(), module) && str_equal(record.address.visible_name.as_str(), name) {
                out.push(record.encoded_name);
            }
            i = i + 1;
        }
        proof {
            assert(self.records@.subrange(0, self.records@.len() as int) =~= self.records@);
        }
        out
    }

    /// The identity recorded at an exact address.
    pub fn identity_at(&self, module: &[String], lexical_owner: Option<EncodedName>, name: &str) -> (r: Option<EncodedName>)
        requires
            self.wf(),
        ensures
            r == self.spec_identity_at(path_view(module@), lexical_owner, name@),
    {
        let ghost m = path_view(module@);
        let mut i: usize = 0;
        while i < self.records.len()
            invariant
                i <= self.records@.len(),
                self.wf(),
                m == path_view(module@),
                forall|j: int| 0 <= j < i ==> !(
                    same_path((#[trigger] self.records@[j]).address.module@, module@)
                    && self.records@[j].address.lexical_owner == lexical_owner
                    && self.records@[j].address.visible_name@ == name@),
            decreases self.records@.len() - i,
        {
            let record = &self.records[i];
            if paths_equal(record.address.module.as_slice(), module) && record.address.lexical_owner == lexical_owner
                && str_equal(record.address.visible_name.as_str(), name) {
                proof {
                    lemma_same_path_view(record.address.module@, module@);
                    assert(self.record_at(i as int, m, lexical_owner, name@));
                    let k = choose|k: int| #[trigger] self.record_at(k, m, lexical_owner, name@);
                    if k != i {
                        lemma_same_path_view(self.records@[k].address.module@, module@);
                        lemma_same_path_view(self.records@[k].address.module@, self.records@[i as int].address.module@);
                        assert(same_address(self.records@[k].address, self.records@[i as int].address));
                    }
                }
                return Some(record.encoded_name);
            }
            i = i + 1;
        }
        proof {
            if exists|k: int| #[trigger] self.record_at(k, m, lexical_owner, name@) {
                let k = choose|k: int| #[trigger] self.record_at(k, m, lexical_owner, name@);
                lemma_same_path_view(self.records@[k].address.module@, module@);
                assert(!(same_path(self.records@[k].address.module@, module@)
                    && self.records@[k].address.lexical_owner == lexical_owner
                    && self.records@[k].address.visible_name@ == name@));
            }
        }
        None
    }

    /// Whether every record of `earlier` is unchanged in this snapshot.
    pub fn extends(&self, earlier: &Self) -> (r: Result<(), BootstrapReadError>)
        requires
            self.wf(),
            earlier.wf(),
        ensures
            r is Ok <==> forall|i: int| 0 <= i < earlier.spec_records().len()
                ==> (self.spec_record((#[trigger] earlier.spec_records()[i]).encoded_name) matches Some(rec)
                    && same_record(rec, earlier.spec_records()[i])),
    {
        let mut i: usize = 0;
        while i < earlier.records.len()
            invariant
                i <= earlier.records@.len(),
                self.wf(),
                forall|j: int| 0 <= j < i ==> (self.spec_record((#[trigger] earlier.spec_records()[j]).encoded_name) matches Some(rec)
                    && same_record(rec, earlier.spec_records()[j])),
            decreases earlier.records@.len() - i,
        {
            let record = &earlier.records[i];
            match self.record(record.encoded_name) {
                Some(mine) => {
                    if !records_equal(mine, record) {
                        return Err(BootstrapReadError::InvalidPreparedModel("metadata snapshot does not extend its predecessor"));
                    }
                },
                None => {
                    return Err(BootstrapReadError::MissingMetadataIdentity(record.encoded_name));
                },
            }
            i = i + 1;
        }
        Ok(())
    }
}

/// Whether two string slices spell the same characters.
pub fn str_equal(a: &str, b: &str) -> (r: bool)
    ensures
        r == (a@ == b@),
{
    let x = chars_of(a);
    let y = chars_of(b);
    if x.len() != y.len() {
        return false;
    }
    let mut i: usize = 0;
    while i < x.len()
        invariant
            x@ == a@,
            y@ == b@,
            x@.len() == y@.len(),
            i <= x@.len(),
            forall|j: int| 0 <= j < i ==> x@[j] == y@[j],
        decreases x@.len() - i,
    {
        if x[i] != y[i] {
            return false;
        }
        i = i + 1;
    }
    assert(x@ =~= y@);
    true
}

/// Record equality: same address and identity, compared by spelling.
pub open spec fn same_record(a: TextualMetadataRecord, b: TextualMetadataRecord) -> bool {
    same_address(a.address, b.address) && a.encoded_name == b.encoded_name
}

fn records_equal(a: &TextualMetadataRecord, b: &TextualMetadataRecord) -> (r: bool)
    ensures
        r == same_record(*a, *b),
{
    addresses_equal(&a.address, &b.address) && a.encoded_name == b.encoded_name
}

} // verus!

verus! {

// ---------------------------------------------------------------------------
// Canonical identity order
// ---------------------------------------------------------------------------

/// Strict lexicographic order on canonical ordering bytes.
pub open spec fn bytes_less(a: Seq<u8>, b: Seq<u8>) -> bool
    decreases a.len(),
{
    if a.len() == 0 {
        b.len() > 0
    } else if b.len() == 0 {
        false
    } else if a[0] != b[0] {
        a[0] < b[0]
    } else {
        bytes_less(a.drop_first(), b.drop_first())
    }
}

pub proof fn lemma_bytes_less_irreflexive(a: Seq<u8>)
    ensures
        !bytes_less(a, a),
    decreases a.len(),
{
    if a.len() > 0 {
        lemma_bytes_less_irreflexive(a.drop_first());
    }
}

pub proof fn lemma_bytes_less_transitive(a: Seq<u8>, b: Seq<u8>, c: Seq<u8>)
    requires
        bytes_less(a, b),
        bytes_less(b, c),
    ensures
        bytes_less(a, c),
    decreases a.len(),
{
    if a.len() > 0 && b.len() > 0 && c.len() > 0 && a[0] == b[0] && b[0] == c[0] {
        lemma_bytes_less_transitive(a.drop_first(), b.drop_first(), c.drop_first());
    }
}

pub proof fn lemma_bytes_less_total(a: Seq<u8>, b: Seq<u8>)
    requires
        a != b,
    ensures
        bytes_less(a, b) || bytes_less(b, a),
    decreases a.len(),
{
    if a.len() > 0 && b.len() > 0 && a[0] == b[0] {
        if a.drop_first() == b.drop_first() {
            assert(a =~= seq![a[0]] + a.drop_first());
            assert(b =~= seq![b[0]] + b.drop_first());
        }
        lemma_bytes_less_total(a.drop_first(), b.drop_first());
    } else if a.len() == 0 && b.len() == 0 {
        assert(a =~= b);
    }
}

pub proof fn lemma_bytes_less_asymmetric(a: Seq<u8>, b: Seq<u8>)
    requires
        bytes_less(a, b),
    ensures
        !bytes_less(b, a),
{
    if bytes_less(b, a) {
        lemma_bytes_less_transitive(a, b, a);
        lemma_bytes_less_irreflexive(a);
    }
}

/// Lexicographic comparison of canonical ordering bytes.
pub fn bytes_less_exec(a: &[u8], b: &[u8]) -> (r: bool)
    ensures
        r == bytes_less(a@, b@),
{
    let mut i: usize = 0;
    assert(a@.skip(0) =~= a@);
    assert(b@.skip(0) =~= b@);
    while i < a.len() && i < b.len()
        invariant
            i <= a@.len(),
            i <= b@.len(),
            bytes_less(a@, b@) == bytes_less(a@.skip(i as int), b@.skip(i as int)),
        decreases a@.len() - i,
    {
        if a[i] != b[i] {
            return a[i] < b[i];
        }
        assert(a@.skip(i as int).drop_first() =~= a@.skip(i + 1));
        assert(b@.skip(i as int).drop_first() =~= b@.skip(i + 1));
        i = i + 1;
    }
    i == a.len() && i < b.len()
}

/// Whether two byte strings are equal.
pub fn bytes_equal(a: &[u8], b: &[u8]) -> (r: bool)
    ensures
        r == (a@ == b@),
{
    if a.len() != b.len() {
        return false;
    }
    let mut i: usize = 0;
    while i < a.len()
        invariant
            a@.len() == b@.len(),
            i <= a@.len(),
            forall|j: int| 0 <= j < i ==> a@[j] == b@[j],
        decreases a@.len() - i,
    {
        if a[i] != b[i] {
            return false;
        }
        i = i + 1;
    }
    assert(a@ =~= b@);
    true
}

/// Authority-supplied canonical ordering bytes of one identity.
#[derive(Clone, Debug)]
pub struct CanonicalIdentityEntry {
    pub identity: EncodedName,
    pub bytes: Vec<u8>,
}

/// Identities are unique, bytes are nonempty, and no two identities share bytes.
pub open spec fn canonical_entries_valid(entries: Seq<CanonicalIdentityEntry>) -> bool {
    &&& forall|i: int| 0 <= i < entries.len() ==> (#[trigger] entries[i]).bytes@.len() > 0
    &&& forall|i: int, j: int| 0 <= i < entries.len() && 0 <= j < entries.len() && i != j
        ==> (#[trigger] entries[i]).identity != (#[trigger] entries[j]).identity
    &&& forall|i: int, j: int| 0 <= i < entries.len() && 0 <= j < entries.len() && i != j
        ==> (#[trigger] entries[i]).bytes@ != (#[trigger] entries[j]).bytes@
}

/// Which refusal building a canonical order may report for these entries.
pub open spec fn canonical_error_witnessed(entries: Seq<CanonicalIdentityEntry>, e: BootstrapReadError) -> bool {
    match e {
        BootstrapReadError::EmptyCanonicalIdentityBytes(id) => exists|i: int| 0 <= i < entries.len()
            && (#[trigger] entries[i]).identity == id && entries[i].bytes@.len() == 0,
        BootstrapReadError::DuplicateCanonicalIdentity(id) => exists|i: int, j: int| 0 <= i < j < entries.len()
            && (#[trigger] entries[i]).identity == id && (#[trigger] entries[j]).identity == id,
        BootstrapReadError::DuplicateCanonicalIdentityBytes { first, second } => exists|i: int, j: int|
            0 <= i < j < entries.len() && (#[trigger] entries[i]).identity == first
            && (#[trigger] entries[j]).identity == second && entries[i].bytes@ == entries[j].bytes@,
        _ => false,
    }
}

/// Authority-supplied canonical bytes for every catalogued identity. Unordered
/// named collections are normalized by these bytes.
#[derive(Clone, Debug)]
pub struct CanonicalIdentityOrder {
    entries: Vec<CanonicalIdentityEntry>,
}

impl CanonicalIdentityOrder {
    pub closed spec fn spec_entries(&self) -> Seq<CanonicalIdentityEntry> {
        self.entries@
    }

    pub open spec fn wf(&self) -> bool {
        canonical_entries_valid(self.spec_entries())
    }

    pub open spec fn spec_contains(&self, identity: EncodedName) -> bool {
        exists|i: int| 0 <= i < self.spec_entries().len() && (#[trigger] self.spec_entries()[i]).identity == identity
    }

    /// The canonical bytes of `identity`.
    pub open spec fn spec_bytes(&self, identity: EncodedName) -> Option<Seq<u8>> {
        if self.spec_contains(identity) {
            Some(self.spec_entries()[choose|i: int| 0 <= i < self.spec_entries().len()
                && (#[trigger] self.spec_entries()[i]).identity == identity].bytes@)
        } else {
            None
        }
    }

    /// Validate authority-supplied canonical bytes.
    pub fn new(entries: Vec<CanonicalIdentityEntry>) -> (r: Result<Self, BootstrapReadError>)
        ensures
            r is Ok <==> canonical_entries_valid(entries@),
            r matches Ok(o) ==> o.spec_entries() == entries@,
            r matches Err(e) ==> canonical_error_witnessed(entries@, e),
    {
        let n = entries.len();
        let mut j: usize = 0;
        while j < n
            invariant
                n == entries@.len(),
                j <= n,
                forall|i: int| 0 <= i < j ==> (#[trigger] entries@[i]).bytes@.len() > 0,
                forall|x: int, y: int| 0 <= x < j && 0 <= y < j && x != y
                    ==> (#[trigger] entries@[x]).identity != (#[trigger] entries@[y]).identity,
                forall|x: int, y: int| 0 <= x < j && 0 <= y < j && x != y
                    ==> (#[trigger] entries@[x]).bytes@ != (#[trigger] entries@[y]).bytes@,
            decreases n - j,
        {
            if entries[j].bytes.len() == 0 {
                return Err(BootstrapReadError::EmptyCanonicalIdentityBytes(entries[j].identity));
            }
            let mut i: usize = 0;
            while i < j
                invariant
                    n == entries@.len(),
                    i <= j < n,
                    forall|y: int| 0 <= y < i ==> (#[trigger] entries@[y]).identity != entries@[j as int].identity,
                    forall|y: int| 0 <= y < i ==> (#[trigger] entries@[y]).bytes@ != entries@[j as int].bytes@,
                decreases j - i,
            {
                if entries[i].identity == entries[j].identity {
                    return Err(BootstrapReadError::DuplicateCanonicalIdentity(entries[j].identity));
                }
                if bytes_equal(entries[i].bytes.as_slice(), entries[j].bytes.as_slice()) {
                    return Err(BootstrapReadError::DuplicateCanonicalIdentityBytes {
                        first: entries[i].identity,
                        second: entries[j].identity,
                    });
                }
                i = i + 1;
            }
            j = j + 1;
        }
        Ok(CanonicalIdentityOrder { entries })
    }

    fn find(&self, identity: EncodedName) -> (r: Option<usize>)
        requires
            self.wf(),
        ensures
            r matches Some(i) ==> i < self.spec_entries().len() && self.spec_entries()[i as int].identity == identity
                && self.spec_bytes(identity) == Some(self.spec_entries()[i as int].bytes@),
            r is None ==> !self.spec_contains(identity) && self.spec_bytes(identity) is None,
    {
        let mut i: usize = 0;
        while i < self.entries.len()
            invariant
                i <= self.entries@.len(),
                self.wf(),
                forall|j: int| 0 <= j < i ==> (#[trigger] self.entries@[j]).identity != identity,
            decreases self.entries@.len() - i,
        {
            if self.entries[i].identity == identity {
                proof {
                    assert(self.spec_entries()[i as int].identity == identity);
                    let k = choose|k: int| 0 <= k < self.spec_entries().len()
                        && (#[trigger] self.spec_entries()[k]).identity == identity;
                    assert(k == i);
                }
                return Some(i);
            }
            i = i + 1;
        }
        None
    }

    /// The canonical bytes of `identity`, when supplied.
    pub fn bytes(&self, identity: EncodedName) -> (r: Option<&Vec<u8>>)
        requires
            self.wf(),
        ensures
            r matches Some(b) ==> self.spec_bytes(identity) == Some(b@),
            r is None ==> self.spec_bytes(identity) is None,
    {
        match self.find(identity) {
            Some(i) => Some(&self.entries[i].bytes),
            None => None,
        }
    }

    /// Whether `identity` has canonical bytes.
    pub fn contains(&self, identity: EncodedName) -> (r: bool)
        requires
            self.wf(),
        ensures
            r == self.spec_contains(identity),
    {
        self.find(identity).is_some()
    }

    /// All entries.
    pub fn entries(&self) -> (r: &[CanonicalIdentityEntry])
        ensures
            r@ == self.spec_entries(),
    {
        self.entries.as_slice()
    }

    /// This order followed by new authority-supplied entries, validated whole.
    pub fn extended(&self, additions: Vec<CanonicalIdentityEntry>) -> (r: Result<Self, BootstrapReadError>)
        ensures
            r is Ok <==> canonical_entries_valid(self.spec_entries() + additions@),
            r matches Ok(o) ==> canonical_entries_match(o.spec_entries(), self.spec_entries() + additions@),
            r matches Err(e) ==> canonical_error_witnessed(self.spec_entries() + additions@, e),
    {
        let mut all: Vec<CanonicalIdentityEntry> = Vec::new();
        let mut i: usize = 0;
        while i < self.entries.len()
            invariant
                i <= self.entries@.len(),
                canonical_entries_match(all@, self.entries@.subrange(0, i as int)),
            decreases self.entries@.len() - i,
        {
            all.push(clone_entry(&self.entries[i]));
            i = i + 1;
        }
        let mut k: usize = 0;
        while k < additions.len()
            invariant
                k <= additions@.len(),
                canonical_entries_match(all@, self.entries@ + additions@.subrange(0, k as int)),
            decreases additions@.len() - k,
        {
            all.push(clone_entry(&additions[k]));
            k = k + 1;
        }
        assert(additions@.subrange(0, additions@.len() as int) =~= additions@);
        assert(self.entries@.subrange(0, self.entries@.len() as int) =~= self.entries@);
        let ghost target = self.spec_entries() + additions@;
        let r = Self::new(all);
        proof {
            lemma_canonical_match_transfers(all@, target);
            if let Err(e) = &r {
                lemma_canonical_witness_transfers(all@, target, *e);
            }
        }
        r
    }
}

/// Entry-wise equal identities and bytes.
pub open spec fn canonical_entries_match(a: Seq<CanonicalIdentityEntry>, b: Seq<CanonicalIdentityEntry>) -> bool {
    &&& a.len() == b.len()
    &&& forall|i: int| 0 <= i < a.len() ==> (#[trigger] a[i]).identity == b[i].identity && a[i].bytes@ == b[i].bytes@
}

proof fn lemma_canonical_match_transfers(a: Seq<CanonicalIdentityEntry>, b: Seq<CanonicalIdentityEntry>)
    requires
        canonical_entries_match(a, b),
    ensures
        canonical_entries_valid(a) == canonical_entries_valid(b),
{
    if canonical_entries_valid(a) {
        assert forall|i: int, j: int| 0 <= i < b.len() && 0 <= j < b.len() && i != j
            implies (#[trigger] b[i]).bytes@ != (#[trigger] b[j]).bytes@ by {
            assert(a[i].bytes@ != a[j].bytes@);
        }
        assert forall|i: int, j: int| 0 <= i < b.len() && 0 <= j < b.len() && i != j
            implies (#[trigger] b[i]).identity != (#[trigger] b[j]).identity by {
            assert(a[i].identity != a[j].identity);
        }
        assert forall|i: int| 0 <= i < b.len() implies (#[trigger] b[i]).bytes@.len() > 0 by {
            assert(a[i].bytes@.len() > 0);
        }
    }
    if canonical_entries_valid(b) {
        assert forall|i: int, j: int| 0 <= i < a.len() && 0 <= j < a.len() && i != j
            implies (#[trigger] a[i]).bytes@ != (#[trigger] a[j]).bytes@ by {
            assert(b[i].bytes@ != b[j].bytes@);
        }
        assert forall|i: int, j: int| 0 <= i < a.len() && 0 <= j < a.len() && i != j
            implies (#[trigger] a[i]).identity != (#[trigger] a[j]).identity by {
            assert(b[i].identity != b[j].identity);
        }
        assert forall|i: int| 0 <= i < a.len() implies (#[trigger] a[i]).bytes@.len() > 0 by {
            assert(b[i].bytes@.len() > 0);
        }
    }
}

proof fn lemma_canonical_witness_transfers(a: Seq<CanonicalIdentityEntry>, b: Seq<CanonicalIdentityEntry>, e: BootstrapReadError)
    requires
        canonical_entries_match(a, b),
        canonical_error_witnessed(a, e),
    ensures
        canonical_error_witnessed(b, e),
{
    match e {
        BootstrapReadError::EmptyCanonicalIdentityBytes(id) => {
            let i = choose|i: int| 0 <= i < a.len() && (#[trigger] a[i]).identity == id && a[i].bytes@.len() == 0;
            assert(b[i].identity == id);
        },
        BootstrapReadError::DuplicateCanonicalIdentity(id) => {
            let (i, j) = choose|i: int, j: int| 0 <= i < j < a.len()
                && (#[trigger] a[i]).identity == id && (#[trigger] a[j]).identity == id;
            assert(b[i].identity == id && b[j].identity == id);
        },
        BootstrapReadError::DuplicateCanonicalIdentityBytes { first, second } => {
            let (i, j) = choose|i: int, j: int| 0 <= i < j < a.len() && (#[trigger] a[i]).identity == first
                && (#[trigger] a[j]).identity == second && a[i].bytes@ == a[j].bytes@;
            assert(b[i].identity == first && b[j].identity == second);
        },
        _ => {},
    }
}

/// Copy one canonical entry.
pub fn clone_entry(entry: &CanonicalIdentityEntry) -> (r: CanonicalIdentityEntry)
    ensures
        r.identity == entry.identity,
        r.bytes@ == entry.bytes@,
{
    let bytes = entry.bytes.clone();
    assert(bytes@ =~= entry.bytes@);
    CanonicalIdentityEntry { identity: entry.identity, bytes }
}

} // verus!

verus! {

// ---------------------------------------------------------------------------
// The closed bootstrap prior vocabulary
// ---------------------------------------------------------------------------

/// One typed seat of the closed bootstrap prior vocabulary.
#[derive(Clone, Copy, Debug, PartialEq, Eq, Structural)]
pub enum BootstrapPriorSlot {
    InterfaceKind,
    NexusKind,
    SemaKind,
    InputRole,
    OutputRole,
    RefusalRole,
    StringType,
    IntegerType,
    BooleanType,
    UnitType,
    VectorShape,
    OptionShape,
    MapShape,
    ResultShape,
    StreamNomos,
    StreamShape,
    StreamIdentityShape,
}

/// The schema role each prior seat requires.
pub open spec fn prior_role(slot: BootstrapPriorSlot) -> SchemaRole {
    match slot {
        BootstrapPriorSlot::InterfaceKind => SchemaRole::FileKind(EthosKind::Interface),
        BootstrapPriorSlot::NexusKind => SchemaRole::FileKind(EthosKind::Nexus),
        BootstrapPriorSlot::SemaKind => SchemaRole::FileKind(EthosKind::Sema),
        BootstrapPriorSlot::InputRole => SchemaRole::InterfaceRole(InterfaceRole::Input),
        BootstrapPriorSlot::OutputRole => SchemaRole::InterfaceRole(InterfaceRole::Output),
        BootstrapPriorSlot::RefusalRole => SchemaRole::InterfaceRole(InterfaceRole::Refusal),
        BootstrapPriorSlot::StringType => SchemaRole::Nominal { persistent: true },
        BootstrapPriorSlot::IntegerType => SchemaRole::Nominal { persistent: true },
        BootstrapPriorSlot::BooleanType => SchemaRole::Nominal { persistent: true },
        BootstrapPriorSlot::UnitType => SchemaRole::Nominal { persistent: true },
        BootstrapPriorSlot::VectorShape => SchemaRole::Shape { arity: 1 },
        BootstrapPriorSlot::OptionShape => SchemaRole::Shape { arity: 1 },
        BootstrapPriorSlot::MapShape => SchemaRole::Shape { arity: 2 },
        BootstrapPriorSlot::ResultShape => SchemaRole::Shape { arity: 2 },
        BootstrapPriorSlot::StreamNomos => SchemaRole::Nomos(NomosSchema::StreamInitiation { arity: 2 }),
        BootstrapPriorSlot::StreamShape => SchemaRole::Shape { arity: 1 },
        BootstrapPriorSlot::StreamIdentityShape => SchemaRole::Shape { arity: 1 },
    }
}

/// One prior seat and its required role.
#[derive(Clone, Copy, Debug, PartialEq, Eq, Structural)]
pub struct BootstrapPriorDefinition {
    pub slot: BootstrapPriorSlot,
    pub role: SchemaRole,
}

/// The seats of the prior vocabulary in their fixed review order.
pub open spec fn prior_slot_order() -> Seq<BootstrapPriorSlot> {
    seq![
        BootstrapPriorSlot::InterfaceKind,
        BootstrapPriorSlot::NexusKind,
        BootstrapPriorSlot::SemaKind,
        BootstrapPriorSlot::InputRole,
        BootstrapPriorSlot::OutputRole,
        BootstrapPriorSlot::RefusalRole,
        BootstrapPriorSlot::StringType,
        BootstrapPriorSlot::IntegerType,
        BootstrapPriorSlot::BooleanType,
        BootstrapPriorSlot::UnitType,
        BootstrapPriorSlot::VectorShape,
        BootstrapPriorSlot::OptionShape,
        BootstrapPriorSlot::MapShape,
        BootstrapPriorSlot::ResultShape,
        BootstrapPriorSlot::StreamNomos,
        BootstrapPriorSlot::StreamShape,
        BootstrapPriorSlot::StreamIdentityShape,
    ]
}

/// Every seat occurs in the fixed order.
pub proof fn lemma_prior_slot_order_complete(slot: BootstrapPriorSlot)
    ensures
        prior_slot_order().contains(slot),
{
    let s = prior_slot_order();
    match slot {
        BootstrapPriorSlot::InterfaceKind => assert(s[0] == slot),
        BootstrapPriorSlot::NexusKind => assert(s[1] == slot),
        BootstrapPriorSlot::SemaKind => assert(s[2] == slot),
        BootstrapPriorSlot::InputRole => assert(s[3] == slot),
        BootstrapPriorSlot::OutputRole => assert(s[4] == slot),
        BootstrapPriorSlot::RefusalRole => assert(s[5] == slot),
        BootstrapPriorSlot::StringType => assert(s[6] == slot),
        BootstrapPriorSlot::IntegerType => assert(s[7] == slot),
        BootstrapPriorSlot::BooleanType => assert(s[8] == slot),
        BootstrapPriorSlot::UnitType => assert(s[9] == slot),
        BootstrapPriorSlot::VectorShape => assert(s[10] == slot),
        BootstrapPriorSlot::OptionShape => assert(s[11] == slot),
        BootstrapPriorSlot::MapShape => assert(s[12] == slot),
        BootstrapPriorSlot::ResultShape => assert(s[13] == slot),
        BootstrapPriorSlot::StreamNomos => assert(s[14] == slot),
        BootstrapPriorSlot::StreamShape => assert(s[15] == slot),
        BootstrapPriorSlot::StreamIdentityShape => assert(s[16] == slot),
    }
}

/// The complete closed prior catalog: every seat with its required role.
pub fn bootstrap_prior_definitions() -> (r: Vec<BootstrapPriorDefinition>)
    ensures
        r@.len() == prior_slot_order().len(),
        forall|i: int| 0 <= i < r@.len() ==> (#[trigger] r@[i]).slot == prior_slot_order()[i]
            && r@[i].role == prior_role(r@[i].slot),
{
    vec![
        BootstrapPriorDefinition { slot: BootstrapPriorSlot::InterfaceKind, role: SchemaRole::FileKind(EthosKind::Interface) },
        BootstrapPriorDefinition { slot: BootstrapPriorSlot::NexusKind, role: SchemaRole::FileKind(EthosKind::Nexus) },
        BootstrapPriorDefinition { slot: BootstrapPriorSlot::SemaKind, role: SchemaRole::FileKind(EthosKind::Sema) },
        BootstrapPriorDefinition { slot: BootstrapPriorSlot::InputRole, role: SchemaRole::InterfaceRole(InterfaceRole::Input) },
        BootstrapPriorDefinition { slot: BootstrapPriorSlot::OutputRole, role: SchemaRole::InterfaceRole(InterfaceRole::Output) },
        BootstrapPriorDefinition { slot: BootstrapPriorSlot::RefusalRole, role: SchemaRole::InterfaceRole(InterfaceRole::Refusal) },
        BootstrapPriorDefinition { slot: BootstrapPriorSlot::StringType, role: SchemaRole::Nominal { persistent: true } },
        BootstrapPriorDefinition { slot: BootstrapPriorSlot::IntegerType, role: SchemaRole::Nominal { persistent: true } },
        BootstrapPriorDefinition { slot: BootstrapPriorSlot::BooleanType, role: SchemaRole::Nominal { persistent: true } },
        BootstrapPriorDefinition { slot: BootstrapPriorSlot::UnitType, role: SchemaRole::Nominal { persistent: true } },
        BootstrapPriorDefinition { slot: BootstrapPriorSlot::VectorShape, role: SchemaRole::Shape { arity: 1 } },
        BootstrapPriorDefinition { slot: BootstrapPriorSlot::OptionShape, role: SchemaRole::Shape { arity: 1 } },
        BootstrapPriorDefinition { slot: BootstrapPriorSlot::MapShape, role: SchemaRole::Shape { arity: 2 } },
        BootstrapPriorDefinition { slot: BootstrapPriorSlot::ResultShape, role: SchemaRole::Shape { arity: 2 } },
        BootstrapPriorDefinition { slot: BootstrapPriorSlot::StreamNomos, role: SchemaRole::Nomos(NomosSchema::StreamInitiation { arity: 2 }) },
        BootstrapPriorDefinition { slot: BootstrapPriorSlot::StreamShape, role: SchemaRole::Shape { arity: 1 } },
        BootstrapPriorDefinition { slot: BootstrapPriorSlot::StreamIdentityShape, role: SchemaRole::Shape { arity: 1 } },
    ]
}

/// Typed identities for the closed bootstrap prior vocabulary.
#[derive(Clone, Copy, Debug, PartialEq, Eq, Structural)]
pub struct BootstrapPriorIdentities {
    pub interface_kind: EncodedName,
    pub nexus_kind: EncodedName,
    pub sema_kind: EncodedName,
    pub input_role: EncodedName,
    pub output_role: EncodedName,
    pub refusal_role: EncodedName,
    pub string_type: EncodedName,
    pub integer_type: EncodedName,
    pub boolean_type: EncodedName,
    pub unit_type: EncodedName,
    pub vector_shape: EncodedName,
    pub option_shape: EncodedName,
    pub map_shape: EncodedName,
    pub result_shape: EncodedName,
    pub stream_nomos: EncodedName,
    pub stream_shape: EncodedName,
    pub stream_identity_shape: EncodedName,
}

/// The identity seated at one prior slot.
pub open spec fn prior_identity(ids: BootstrapPriorIdentities, slot: BootstrapPriorSlot) -> EncodedName {
    match slot {
        BootstrapPriorSlot::InterfaceKind => ids.interface_kind,
        BootstrapPriorSlot::NexusKind => ids.nexus_kind,
        BootstrapPriorSlot::SemaKind => ids.sema_kind,
        BootstrapPriorSlot::InputRole => ids.input_role,
        BootstrapPriorSlot::OutputRole => ids.output_role,
        BootstrapPriorSlot::RefusalRole => ids.refusal_role,
        BootstrapPriorSlot::StringType => ids.string_type,
        BootstrapPriorSlot::IntegerType => ids.integer_type,
        BootstrapPriorSlot::BooleanType => ids.boolean_type,
        BootstrapPriorSlot::UnitType => ids.unit_type,
        BootstrapPriorSlot::VectorShape => ids.vector_shape,
        BootstrapPriorSlot::OptionShape => ids.option_shape,
        BootstrapPriorSlot::MapShape => ids.map_shape,
        BootstrapPriorSlot::ResultShape => ids.result_shape,
        BootstrapPriorSlot::StreamNomos => ids.stream_nomos,
        BootstrapPriorSlot::StreamShape => ids.stream_shape,
        BootstrapPriorSlot::StreamIdentityShape => ids.stream_identity_shape,
    }
}

impl BootstrapPriorIdentities {
    /// The identity seated at `slot`.
    pub fn identity(&self, slot: BootstrapPriorSlot) -> (r: EncodedName)
        ensures
            r == prior_identity(*self, slot),
    {
        match slot {
            BootstrapPriorSlot::InterfaceKind => self.interface_kind,
            BootstrapPriorSlot::NexusKind => self.nexus_kind,
            BootstrapPriorSlot::SemaKind => self.sema_kind,
            BootstrapPriorSlot::InputRole => self.input_role,
            BootstrapPriorSlot::OutputRole => self.output_role,
            BootstrapPriorSlot::RefusalRole => self.refusal_role,
            BootstrapPriorSlot::StringType => self.string_type,
            BootstrapPriorSlot::IntegerType => self.integer_type,
            BootstrapPriorSlot::BooleanType => self.boolean_type,
            BootstrapPriorSlot::UnitType => self.unit_type,
            BootstrapPriorSlot::VectorShape => self.vector_shape,
            BootstrapPriorSlot::OptionShape => self.option_shape,
            BootstrapPriorSlot::MapShape => self.map_shape,
            BootstrapPriorSlot::ResultShape => self.result_shape,
            BootstrapPriorSlot::StreamNomos => self.stream_nomos,
            BootstrapPriorSlot::StreamShape => self.stream_shape,
            BootstrapPriorSlot::StreamIdentityShape => self.stream_identity_shape,
        }
    }
}

/// The refusal the seat at `slot` gets when it is checked: its Universal root
/// first, then its catalogued role, then its metadata projection.
pub open spec fn seat_refusal(
    ids: BootstrapPriorIdentities,
    schemas: IdentitySchemaCatalog,
    metadata: TextualMetadataSnapshot,
    slot: BootstrapPriorSlot,
) -> BootstrapReadError {
    let identity = prior_identity(ids, slot);
    if identity.root != crate::identity::VocabularyRoot::Universal {
        BootstrapReadError::NonUniversalPrior { position: slot }
    } else if !schemas.spec_admits(identity, prior_role(slot)) {
        BootstrapReadError::InvalidPriorRole { position: slot, identity, required: prior_role(slot) }
    } else {
        BootstrapReadError::MissingMetadataIdentity(identity)
    }
}

/// The refusal prior seating reports: seats are checked in slot order and the
/// first invalid one is refused as `seat_refusal` says; when every seat is
/// valid, the file kinds' spellings must differ.
pub open spec fn first_prior_refusal(
    ids: BootstrapPriorIdentities,
    schemas: IdentitySchemaCatalog,
    metadata: TextualMetadataSnapshot,
    e: BootstrapReadError,
) -> bool {
    ||| exists|k: int|
        0 <= k < prior_slot_order().len() && !prior_seat_valid(ids, schemas, metadata, #[trigger] prior_slot_order()[k])
            && (forall|q: int| 0 <= q < k ==> prior_seat_valid(ids, schemas, metadata, #[trigger] prior_slot_order()[q]))
            && e == seat_refusal(ids, schemas, metadata, prior_slot_order()[k])
    ||| (forall|slot: BootstrapPriorSlot| #[trigger] prior_seat_valid(ids, schemas, metadata, slot))
        && e == BootstrapReadError::DuplicateFileKindProjection
}

/// One seat is Universal, catalogued with its required role, and projected.
pub open spec fn prior_seat_valid(
    ids: BootstrapPriorIdentities,
    schemas: IdentitySchemaCatalog,
    metadata: TextualMetadataSnapshot,
    slot: BootstrapPriorSlot,
) -> bool {
    &&& prior_identity(ids, slot).root == crate::identity::VocabularyRoot::Universal
    &&& schemas.spec_admits(prior_identity(ids, slot), prior_role(slot))
    &&& metadata.spec_has(prior_identity(ids, slot))
}

/// The three file-kind priors project distinct spellings.
pub open spec fn file_kind_spellings_distinct(ids: BootstrapPriorIdentities, metadata: TextualMetadataSnapshot) -> bool {
    &&& metadata.spec_spelling(ids.interface_kind) != metadata.spec_spelling(ids.nexus_kind)
    &&& metadata.spec_spelling(ids.interface_kind) != metadata.spec_spelling(ids.sema_kind)
    &&& metadata.spec_spelling(ids.nexus_kind) != metadata.spec_spelling(ids.sema_kind)
}

/// The complete prior seating law.
pub open spec fn priors_valid(
    ids: BootstrapPriorIdentities,
    schemas: IdentitySchemaCatalog,
    metadata: TextualMetadataSnapshot,
) -> bool {
    &&& forall|slot: BootstrapPriorSlot| #[trigger] prior_seat_valid(ids, schemas, metadata, slot)
    &&& file_kind_spellings_distinct(ids, metadata)
}

/// Which refusal seating the priors may report.
pub open spec fn prior_error_witnessed(
    ids: BootstrapPriorIdentities,
    schemas: IdentitySchemaCatalog,
    metadata: TextualMetadataSnapshot,
    e: BootstrapReadError,
) -> bool {
    match e {
        BootstrapReadError::NonUniversalPrior { position } =>
            prior_identity(ids, position).root != crate::identity::VocabularyRoot::Universal,
        BootstrapReadError::InvalidPriorRole { position, identity, required } =>
            identity == prior_identity(ids, position) && required == prior_role(position)
            && !schemas.spec_admits(identity, required),
        BootstrapReadError::MissingMetadataIdentity(identity) => exists|slot: BootstrapPriorSlot|
            #[trigger] prior_identity(ids, slot) == identity && !metadata.spec_has(identity),
        BootstrapReadError::DuplicateFileKindProjection => !file_kind_spellings_distinct(ids, metadata),
        _ => false,
    }
}

fn same_spelling(a: Option<&String>, b: Option<&String>) -> (r: bool)
    ensures
        r == (match (a, b) {
            (Some(x), Some(y)) => x@ == y@,
            (None, None) => true,
            _ => false,
        }),
{
    match (a, b) {
        (Some(x), Some(y)) => *x == *y,
        (None, None) => true,
        _ => false,
    }
}

/// Whether `identity` is seated at some prior slot.
pub open spec fn is_prior_identity(ids: BootstrapPriorIdentities, identity: EncodedName) -> bool {
    exists|slot: BootstrapPriorSlot| #[trigger] prior_identity(ids, slot) == identity
}

/// The nominal priors visible in declaration bodies.
pub open spec fn is_body_nominal_prior(ids: BootstrapPriorIdentities, identity: EncodedName) -> bool {
    identity == ids.string_type || identity == ids.integer_type || identity == ids.boolean_type
        || identity == ids.unit_type
}

/// The Shape priors visible at Shape heads.
pub open spec fn is_shape_prior(ids: BootstrapPriorIdentities, identity: EncodedName) -> bool {
    identity == ids.vector_shape || identity == ids.option_shape || identity == ids.map_shape
        || identity == ids.result_shape || identity == ids.stream_shape || identity == ids.stream_identity_shape
}

/// The prior seated for an Interface role.
pub open spec fn role_prior(ids: BootstrapPriorIdentities, role: InterfaceRole) -> EncodedName {
    match role {
        InterfaceRole::Input => ids.input_role,
        InterfaceRole::Output => ids.output_role,
        InterfaceRole::Refusal => ids.refusal_role,
    }
}

/// Validated typed seating of all bootstrap priors.
#[derive(Clone, Debug)]
pub struct BootstrapPriorVocabulary {
    identities: BootstrapPriorIdentities,
}

impl BootstrapPriorVocabulary {
    pub closed spec fn spec_identities(&self) -> BootstrapPriorIdentities {
        self.identities
    }

    /// Seat the priors: every seat must be Universal, catalogued with its exact
    /// role, and projected by metadata; the three file kinds must project
    /// distinct spellings.
    pub fn new(
        identities: BootstrapPriorIdentities,
        schemas: &IdentitySchemaCatalog,
        metadata: &TextualMetadataSnapshot,
    ) -> (r: Result<Self, BootstrapReadError>)
        requires
            schemas.wf(),
            metadata.wf(),
        ensures
            r is Ok <==> priors_valid(identities, *schemas, *metadata),
            r matches Ok(p) ==> p.spec_identities() == identities,
            r matches Err(e) ==> prior_error_witnessed(identities, *schemas, *metadata, e),
            r matches Err(e) ==> first_prior_refusal(identities, *schemas, *metadata, e),
    {
        let definitions = bootstrap_prior_definitions();
        let mut i: usize = 0;
        while i < definitions.len()
            invariant
                i <= definitions@.len(),
                definitions@.len() == prior_slot_order().len(),
                schemas.wf(),
                metadata.wf(),
                forall|k: int| 0 <= k < definitions@.len() ==> (#[trigger] definitions@[k]).slot == prior_slot_order()[k]
                    && definitions@[k].role == prior_role(definitions@[k].slot),
                forall|k: int| 0 <= k < i ==> prior_seat_valid(identities, *schemas, *metadata, #[trigger] prior_slot_order()[k]),
            decreases definitions@.len() - i,
        {
            let position = definitions[i].slot;
            let required = definitions[i].role;
            let identity = identities.identity(position);
            assert(prior_slot_order()[i as int] == position);
            if !identity.is_universal() {
                assert(!prior_seat_valid(identities, *schemas, *metadata, position));
                return Err(BootstrapReadError::NonUniversalPrior { position });
            }
            if !schemas.admits(identity, required) {
                assert(!prior_seat_valid(identities, *schemas, *metadata, position));
                return Err(BootstrapReadError::InvalidPriorRole { position, identity, required });
            }
            if !metadata.contains(identity) {
                assert(!prior_seat_valid(identities, *schemas, *metadata, position));
                assert(prior_identity(identities, position) == identity);
                return Err(BootstrapReadError::MissingMetadataIdentity(identity));
            }
            i = i + 1;
        }
        assert forall|slot: BootstrapPriorSlot| #[trigger] prior_seat_valid(identities, *schemas, *metadata, slot) by {
            lemma_prior_slot_order_complete(slot);
            let k = choose|k: int| 0 <= k < prior_slot_order().len() && prior_slot_order()[k] == slot;
            assert(prior_seat_valid(identities, *schemas, *metadata, prior_slot_order()[k]));
        }
        let interface = metadata.spelling(identities.interface_kind);
        let nexus = metadata.spelling(identities.nexus_kind);
        let sema = metadata.spelling(identities.sema_kind);
        if same_spelling(interface, nexus) || same_spelling(interface, sema) || same_spelling(nexus, sema) {
            return Err(BootstrapReadError::DuplicateFileKindProjection);
        }
        Ok(BootstrapPriorVocabulary { identities })
    }

    /// The seated identities.
    pub fn identities(&self) -> (r: &BootstrapPriorIdentities)
        ensures
            *r == self.spec_identities(),
    {
        &self.identities
    }

    /// The runtime Stream value contract: one-argument Stream and StreamIdentity.
    pub fn runtime_stream_contract(&self) -> (r: RuntimeStreamSchemaContract)
        ensures
            r.stream_shape == self.spec_identities().stream_shape,
            r.stream_identity_shape == self.spec_identities().stream_identity_shape,
            r.stream_shape_arity == 1,
            r.stream_identity_shape_arity == 1,
    {
        RuntimeStreamSchemaContract {
            stream_shape: self.identities.stream_shape,
            stream_identity_shape: self.identities.stream_identity_shape,
            stream_shape_arity: 1,
            stream_identity_shape_arity: 1,
        }
    }

    /// Every seated identity, in seat order.
    pub fn fixed_identities(&self) -> (r: Vec<EncodedName>)
        ensures
            r@.len() == prior_slot_order().len(),
            forall|k: int| 0 <= k < r@.len() ==> #[trigger] r@[k] == prior_identity(self.spec_identities(), prior_slot_order()[k]),
    {
        let definitions = bootstrap_prior_definitions();
        let mut out: Vec<EncodedName> = Vec::new();
        let mut i: usize = 0;
        while i < definitions.len()
            invariant
                i <= definitions@.len(),
                definitions@.len() == prior_slot_order().len(),
                forall|k: int| 0 <= k < definitions@.len() ==> (#[trigger] definitions@[k]).slot == prior_slot_order()[k],
                out@.len() == i,
                forall|k: int| 0 <= k < i ==> #[trigger] out@[k] == prior_identity(self.identities, prior_slot_order()[k]),
            decreases definitions@.len() - i,
        {
            out.push(self.identities.identity(definitions[i].slot));
            i = i + 1;
        }
        out
    }

    /// Whether `identity` is seated at any prior slot.
    pub fn is_fixed_identity(&self, identity: EncodedName) -> (r: bool)
        ensures
            r == is_prior_identity(self.spec_identities(), identity),
    {
        let all = self.fixed_identities();
        let mut i: usize = 0;
        while i < all.len()
            invariant
                i <= all@.len(),
                all@.len() == prior_slot_order().len(),
                forall|k: int| 0 <= k < all@.len() ==> #[trigger] all@[k] == prior_identity(self.identities, prior_slot_order()[k]),
                forall|k: int| 0 <= k < i ==> all@[k] != identity,
            decreases all@.len() - i,
        {
            if all[i] == identity {
                assert(prior_identity(self.identities, prior_slot_order()[i as int]) == identity);
                return true;
            }
            i = i + 1;
        }
        proof {
            if is_prior_identity(self.identities, identity) {
                let slot = choose|slot: BootstrapPriorSlot| #[trigger] prior_identity(self.identities, slot) == identity;
                lemma_prior_slot_order_complete(slot);
                let k = choose|k: int| 0 <= k < prior_slot_order().len() && prior_slot_order()[k] == slot;
                assert(all@[k] == identity);
            }
        }
        false
    }

    /// The prior seated for an Interface role.
    pub fn role_identity(&self, role: InterfaceRole) -> (r: EncodedName)
        ensures
            r == role_prior(self.spec_identities(), role),
    {
        match role {
            InterfaceRole::Input => self.identities.input_role,
            InterfaceRole::Output => self.identities.output_role,
            InterfaceRole::Refusal => self.identities.refusal_role,
        }
    }

    /// The nominal priors visible in declaration bodies.
    pub fn body_nominal_identities(&self) -> (r: Vec<EncodedName>)
        ensures
            forall|id: EncodedName| r@.contains(id) <==> is_body_nominal_prior(self.spec_identities(), id),
    {
        let ids = &self.identities;
        let r = vec![ids.string_type, ids.integer_type, ids.boolean_type, ids.unit_type];
        assert forall|id: EncodedName| r@.contains(id) <==> is_body_nominal_prior(self.spec_identities(), id) by {
            if is_body_nominal_prior(self.spec_identities(), id) {
                if id == ids.string_type { assert(r@[0] == id); }
                else if id == ids.integer_type { assert(r@[1] == id); }
                else if id == ids.boolean_type { assert(r@[2] == id); }
                else { assert(r@[3] == id); }
            }
        }
        r
    }

    /// The Shape priors visible at Shape heads.
    pub fn shape_identities(&self) -> (r: Vec<EncodedName>)
        ensures
            forall|id: EncodedName| r@.contains(id) <==> is_shape_prior(self.spec_identities(), id),
    {
        let ids = &self.identities;
        let r = vec![ids.vector_shape, ids.option_shape, ids.map_shape, ids.result_shape, ids.stream_shape,
            ids.stream_identity_shape];
        assert forall|id: EncodedName| r@.contains(id) <==> is_shape_prior(self.spec_identities(), id) by {
            if is_shape_prior(self.spec_identities(), id) {
                if id == ids.vector_shape { assert(r@[0] == id); }
                else if id == ids.option_shape { assert(r@[1] == id); }
                else if id == ids.map_shape { assert(r@[2] == id); }
                else if id == ids.result_shape { assert(r@[3] == id); }
                else if id == ids.stream_shape { assert(r@[4] == id); }
                else { assert(r@[5] == id); }
            }
        }
        r
    }
}

// ---------------------------------------------------------------------------
// Supported versions
// ---------------------------------------------------------------------------

/// Lexicographic order on (major, minor, patch).
pub open spec fn version_less(a: EthosVersion, b: EthosVersion) -> bool {
    a.major < b.major || (a.major == b.major && (a.minor < b.minor || (a.minor == b.minor && a.patch < b.patch)))
}

/// Strictly increasing, hence duplicate-free.
pub open spec fn versions_strictly_sorted(s: Seq<EthosVersion>) -> bool {
    forall|i: int, j: int| 0 <= i < j < s.len() ==> version_less(#[trigger] s[i], #[trigger] s[j])
}

/// A well-formed policy lists its versions in increasing order of major,
/// then minor, then patch: of two listed versions, the earlier has the smaller
/// major, or the same major and the smaller minor, or the same major and minor
/// and the smaller patch.
pub proof fn lemma_supported_increasing(policy: BootstrapVersionPolicy, i: int, j: int)
    requires
        policy.wf(),
        0 <= i < j < policy.spec_supported().len(),
    ensures
        ({
            let a = policy.spec_supported()[i];
            let b = policy.spec_supported()[j];
            ||| a.major < b.major
            ||| a.major == b.major && a.minor < b.minor
            ||| a.major == b.major && a.minor == b.minor && a.patch < b.patch
        }),
{
    assert(version_less(policy.spec_supported()[i], policy.spec_supported()[j]));
}

fn version_less_exec(a: EthosVersion, b: EthosVersion) -> (r: bool)
    ensures
        r == version_less(a, b),
{
    a.major < b.major || (a.major == b.major && (a.minor < b.minor || (a.minor == b.minor && a.patch < b.patch)))
}

/// Explicit supported-version policy applied during planning and writing.
#[derive(Clone, Debug)]
pub struct BootstrapVersionPolicy {
    supported: Vec<EthosVersion>,
}

impl BootstrapVersionPolicy {
    pub closed spec fn spec_supported(&self) -> Seq<EthosVersion> {
        self.supported@
    }

    /// Nonempty and stored in strictly increasing order.
    pub open spec fn wf(&self) -> bool {
        &&& self.spec_supported().len() > 0
        &&& versions_strictly_sorted(self.spec_supported())
    }

    /// A policy that supports exactly one version.
    pub fn exact(version: EthosVersion) -> (r: Self)
        ensures
            r.wf(),
            r.spec_supported() == seq![version],
    {
        BootstrapVersionPolicy { supported: vec![version] }
    }

    /// A policy that supports exactly the given versions; it must be nonempty.
    pub fn new(versions: Vec<EthosVersion>) -> (r: Result<Self, BootstrapReadError>)
        ensures
            r is Ok <==> versions@.len() > 0,
            r matches Ok(p) ==> p.wf() && p.spec_supported().to_set() == versions@.to_set(),
            r matches Err(e) ==> e == BootstrapReadError::InvalidPreparedModel("supported-version policy is empty"),
    {
        if versions.len() == 0 {
            return Err(BootstrapReadError::InvalidPreparedModel("supported-version policy is empty"));
        }
        let mut sorted: Vec<EthosVersion> = Vec::new();
        let mut i: usize = 0;
        while i < versions.len()
            invariant
                i <= versions@.len(),
                versions_strictly_sorted(sorted@),
                sorted@.to_set() == versions@.subrange(0, i as int).to_set(),
            decreases versions@.len() - i,
        {
            let v = versions[i];
            let mut p: usize = 0;
            while p < sorted.len() && version_less_exec(sorted[p], v)
                invariant
                    p <= sorted@.len(),
                    forall|k: int| 0 <= k < p ==> version_less(#[trigger] sorted@[k], v),
                decreases sorted@.len() - p,
            {
                p = p + 1;
            }
            let ghost before = sorted@;
            if p < sorted.len() && sorted[p] == v {
            } else {
                sorted.insert(p, v);
                assert forall|a: int, b: int| 0 <= a < b < sorted@.len() implies version_less(#[trigger] sorted@[a], #[trigger] sorted@[b]) by {
                    if b < p {
                    } else if a < p && b == p {
                    } else if a < p {
                        assert(sorted@[b] == before[b - 1]);
                    } else if a == p {
                        assert(sorted@[b] == before[b - 1]);
                        assert(!version_less(before[p as int], v));
                    } else {
                        assert(sorted@[a] == before[a - 1]);
                        assert(sorted@[b] == before[b - 1]);
                    }
                }
            }
            proof {
                let prefix = versions@.subrange(0, i as int);
                let next = versions@.subrange(0, i + 1);
                assert(next =~= prefix.push(v));
                assert(sorted@.to_set() =~= before.to_set().insert(v)) by {
                    assert forall|x: EthosVersion| sorted@.to_set().contains(x) <==> before.to_set().insert(v).contains(x) by {
                        if sorted@.to_set().contains(x) {
                            let k = choose|k: int| 0 <= k < sorted@.len() && sorted@[k] == x;
                            if before != sorted@ {
                                if k < p { assert(before[k] == x); } else if k > p { assert(before[k - 1] == x); }
                            } else {
                                assert(before.contains(x));
                            }
                        }
                        if before.to_set().insert(v).contains(x) {
                            if x == v {
                                if before == sorted@ { assert(sorted@[p as int] == v); } else { assert(sorted@[p as int] == v); }
                            } else {
                                let k = choose|k: int| 0 <= k < before.len() && before[k] == x;
                                if before != sorted@ {
                                    if k < p { assert(sorted@[k] == x); } else { assert(sorted@[k + 1] == x); }
                                } else {
                                    assert(sorted@[k] == x);
                                }
                            }
                        }
                    }
                }
                Seq::lemma_to_set_insert_commutes(prefix, v);
                assert(prefix.push(v) =~= prefix + seq![v]);
            }
            i = i + 1;
        }
        assert(versions@.subrange(0, versions@.len() as int) =~= versions@);
        assert(versions@.to_set().contains(versions@[0]));
        assert(sorted@.to_set().contains(versions@[0]));
        Ok(BootstrapVersionPolicy { supported: sorted })
    }

    /// Whether `version` is supported.
    pub fn supports(&self, version: EthosVersion) -> (r: bool)
        ensures
            r == self.spec_supported().contains(version),
    {
        let mut i: usize = 0;
        while i < self.supported.len()
            invariant
                i <= self.supported@.len(),
                forall|k: int| 0 <= k < i ==> self.supported@[k] != version,
            decreases self.supported@.len() - i,
        {
            if self.supported[i] == version {
                return true;
            }
            i = i + 1;
        }
        false
    }

    /// The supported versions in increasing order.
    pub fn supported(&self) -> (r: Vec<EthosVersion>)
        ensures
            r@ == self.spec_supported(),
            self.wf() ==> forall|i: int, j: int| 0 <= i < j < r@.len() ==> {
                ||| (#[trigger] r@[i]).major < (#[trigger] r@[j]).major
                ||| r@[i].major == r@[j].major && r@[i].minor < r@[j].minor
                ||| r@[i].major == r@[j].major && r@[i].minor == r@[j].minor && r@[i].patch < r@[j].patch
            },
    {
        let mut out: Vec<EthosVersion> = Vec::new();
        let mut i: usize = 0;
        while i < self.supported.len()
            invariant
                i <= self.supported@.len(),
                out@ == self.supported@.subrange(0, i as int),
            decreases self.supported@.len() - i,
        {
            out.push(self.supported[i]);
            i = i + 1;
        }
        assert(out@ =~= self.supported@);
        proof {
            if self.wf() {
                assert forall|i: int, j: int| 0 <= i < j < out@.len() implies {
                    ||| (#[trigger] out@[i]).major < (#[trigger] out@[j]).major
                    ||| out@[i].major == out@[j].major && out@[i].minor < out@[j].minor
                    ||| out@[i].major == out@[j].major && out@[i].minor == out@[j].minor && out@[i].patch < out@[j].patch
                } by {
                    lemma_supported_increasing(*self, i, j);
                }
            }
        }
        out
    }
}

} // verus!

verus! {

// ---------------------------------------------------------------------------
// Proposed textual transitions and the injected catalog
// ---------------------------------------------------------------------------

/// A public before-to-after textual proposal. It is never proof of its own
/// authority: the injected naming authority decides that.
#[derive(Clone, Debug)]
pub struct TextualMetadataTransition {
    before: TextualMetadataSnapshot,
    after: TextualMetadataSnapshot,
}

impl TextualMetadataTransition {
    pub closed spec fn spec_before(&self) -> TextualMetadataSnapshot {
        self.before
    }

    pub closed spec fn spec_after(&self) -> TextualMetadataSnapshot {
        self.after
    }

    pub open spec fn wf(&self) -> bool {
        self.spec_before().wf() && self.spec_after().wf()
    }

    /// Propose replacing `before` with `after`.
    pub fn new(before: TextualMetadataSnapshot, after: TextualMetadataSnapshot) -> (r: Self)
        requires
            before.wf(),
            after.wf(),
        ensures
            r.wf(),
            r.spec_before() == before,
            r.spec_after() == after,
    {
        TextualMetadataTransition { before, after }
    }

    /// The snapshot the proposal starts from.
    pub fn before(&self) -> (r: &TextualMetadataSnapshot)
        ensures
            *r == self.spec_before(),
    {
        &self.before
    }

    /// The proposed snapshot.
    pub fn after(&self) -> (r: &TextualMetadataSnapshot)
        ensures
            *r == self.spec_after(),
    {
        &self.after
    }
}

/// Every catalogued schema is projected and every projection is catalogued.
pub open spec fn metadata_and_schemas_cover(metadata: TextualMetadataSnapshot, schemas: IdentitySchemaCatalog) -> bool {
    &&& forall|i: int| 0 <= i < schemas.spec_entries().len()
        ==> metadata.spec_has((#[trigger] schemas.spec_entries()[i]).spec_identity())
    &&& forall|i: int| 0 <= i < metadata.spec_records().len()
        ==> schemas.spec_contains((#[trigger] metadata.spec_records()[i]).encoded_name)
}

/// The refusal for metadata and schemas that do not cover each other: the
/// first schema entry without a metadata record, else the first metadata
/// record without a schema.
pub open spec fn first_cover_refusal<T>(
    metadata: TextualMetadataSnapshot,
    schemas: IdentitySchemaCatalog,
    r: Result<T, BootstrapReadError>,
) -> bool {
    let entries = schemas.spec_entries();
    let records = metadata.spec_records();
    if exists|i: int| 0 <= i < entries.len() && !metadata.spec_has((#[trigger] entries[i]).spec_identity()) {
        exists|i: int|
            0 <= i < entries.len() && !metadata.spec_has((#[trigger] entries[i]).spec_identity())
                && (forall|q: int| 0 <= q < i ==> metadata.spec_has((#[trigger] entries[q]).spec_identity()))
                && r == Err::<T, BootstrapReadError>(BootstrapReadError::MissingMetadataIdentity(entries[i].spec_identity()))
    } else {
        exists|k: int|
            0 <= k < records.len() && !schemas.spec_contains((#[trigger] records[k]).encoded_name)
                && (forall|q: int| 0 <= q < k ==> schemas.spec_contains((#[trigger] records[q]).encoded_name))
                && r == Err::<T, BootstrapReadError>(BootstrapReadError::MissingSchema(records[k].encoded_name))
    }
}

/// Which refusal catalog construction may report.
pub open spec fn catalog_error_witnessed(
    current: Seq<String>,
    metadata: TextualMetadataSnapshot,
    schemas: IdentitySchemaCatalog,
    ids: BootstrapPriorIdentities,
    e: BootstrapReadError,
) -> bool {
    match e {
        BootstrapReadError::InvalidModulePath(p) => p@ == current && !valid_module_path(current),
        BootstrapReadError::MissingMetadataIdentity(id) => (exists|i: int| 0 <= i < schemas.spec_entries().len()
            && (#[trigger] schemas.spec_entries()[i]).spec_identity() == id && !metadata.spec_has(id))
            || prior_error_witnessed(ids, schemas, metadata, e),
        BootstrapReadError::MissingSchema(id) => metadata.spec_has(id) && !schemas.spec_contains(id),
        _ => prior_error_witnessed(ids, schemas, metadata, e),
    }
}

/// Existing authority state injected into one reader.
#[derive(Clone, Debug)]
pub struct BootstrapCatalog {
    current_module: Vec<String>,
    metadata: TextualMetadataSnapshot,
    schemas: IdentitySchemaCatalog,
    priors: BootstrapPriorVocabulary,
    versions: BootstrapVersionPolicy,
    canonical_order: CanonicalIdentityOrder,
}

impl BootstrapCatalog {
    pub closed spec fn spec_current_module(&self) -> Seq<String> {
        self.current_module@
    }

    pub closed spec fn spec_metadata(&self) -> TextualMetadataSnapshot {
        self.metadata
    }

    pub closed spec fn spec_schemas(&self) -> IdentitySchemaCatalog {
        self.schemas
    }

    pub closed spec fn spec_priors(&self) -> BootstrapPriorIdentities {
        self.priors.spec_identities()
    }

    pub closed spec fn spec_versions(&self) -> BootstrapVersionPolicy {
        self.versions
    }

    pub closed spec fn spec_canonical_order(&self) -> CanonicalIdentityOrder {
        self.canonical_order
    }

    pub open spec fn wf(&self) -> bool {
        &&& self.spec_metadata().wf()
        &&& self.spec_schemas().wf()
        &&& self.spec_versions().wf()
        &&& self.spec_canonical_order().wf()
        &&& valid_module_path(self.spec_current_module())
        &&& metadata_and_schemas_cover(self.spec_metadata(), self.spec_schemas())
        &&& priors_valid(self.spec_priors(), self.spec_schemas(), self.spec_metadata())
    }

    /// Assemble the authority state of one reader: a valid current module,
    /// metadata and schemas that cover each other, and priors re-seated
    /// against exactly this metadata and these schemas.
    pub fn new(
        current_module: Vec<String>,
        metadata: TextualMetadataSnapshot,
        schemas: IdentitySchemaCatalog,
        priors: BootstrapPriorVocabulary,
        versions: BootstrapVersionPolicy,
        canonical_order: CanonicalIdentityOrder,
    ) -> (r: Result<Self, BootstrapReadError>)
        requires
            metadata.wf(),
            schemas.wf(),
            versions.wf(),
            canonical_order.wf(),
        ensures
            r is Ok <==> valid_module_path(current_module@) && metadata_and_schemas_cover(metadata, schemas)
                && priors_valid(priors.spec_identities(), schemas, metadata),
            r matches Ok(c) ==> c.wf() && c.spec_current_module() == current_module@
                && c.spec_metadata() == metadata && c.spec_schemas() == schemas
                && c.spec_priors() == priors.spec_identities() && c.spec_versions() == versions
                && c.spec_canonical_order() == canonical_order,
            r matches Err(e) ==> catalog_error_witnessed(current_module@, metadata, schemas, priors.spec_identities(), e),
            !valid_module_path(current_module@) ==> (r matches Err(BootstrapReadError::InvalidModulePath(p))
                && p@ == current_module@),
            valid_module_path(current_module@) && !metadata_and_schemas_cover(metadata, schemas)
                ==> first_cover_refusal(metadata, schemas, r),
            valid_module_path(current_module@) && metadata_and_schemas_cover(metadata, schemas)
                && !priors_valid(priors.spec_identities(), schemas, metadata) ==> (r matches Err(e)
                && first_prior_refusal(priors.spec_identities(), schemas, metadata, e)),
    {
        if let Err(e) = validate_module_path(current_module.as_slice()) {
            return Err(e);
        }
        let entries = schemas.entries();
        let mut i: usize = 0;
        while i < entries.len()
            invariant
                entries@ == schemas.spec_entries(),
                metadata.wf(),
                i <= entries@.len(),
                forall|k: int| 0 <= k < i ==> metadata.spec_has((#[trigger] schemas.spec_entries()[k]).spec_identity()),
                valid_module_path(current_module@),
            decreases entries@.len() - i,
        {
            let identity = entries[i].identity();
            if !metadata.contains(identity) {
                proof {
                    assert(!metadata.spec_has(schemas.spec_entries()[i as int].spec_identity()));
                }
                return Err(BootstrapReadError::MissingMetadataIdentity(identity));
            }
            i = i + 1;
        }
        let records = metadata.records();
        let mut k: usize = 0;
        while k < records.len()
            invariant
                records@ == metadata.spec_records(),
                schemas.wf(),
                k <= records@.len(),
                forall|j: int| 0 <= j < k ==> schemas.spec_contains((#[trigger] metadata.spec_records()[j]).encoded_name),
                valid_module_path(current_module@),
                forall|i: int| 0 <= i < schemas.spec_entries().len()
                    ==> metadata.spec_has((#[trigger] schemas.spec_entries()[i]).spec_identity()),
            decreases records@.len() - k,
        {
            let identity = records[k].encoded_name;
            if !schemas.contains(identity) {
                proof {
                    assert(!schemas.spec_contains(metadata.spec_records()[k as int].encoded_name));
                }
                return Err(BootstrapReadError::MissingSchema(identity));
            }
            k = k + 1;
        }
        let seated = match BootstrapPriorVocabulary::new(*priors.identities(), &schemas, &metadata) {
            Ok(seated) => seated,
            Err(e) => {
                return Err(e);
            },
        };
        Ok(BootstrapCatalog { current_module, metadata, schemas, priors: seated, versions, canonical_order })
    }

    /// The module path that authored declarations belong to.
    pub fn current_module(&self) -> (r: &[String])
        ensures
            r@ == self.spec_current_module(),
    {
        self.current_module.as_slice()
    }

    /// The textual authority snapshot.
    pub fn metadata(&self) -> (r: &TextualMetadataSnapshot)
        ensures
            *r == self.spec_metadata(),
    {
        &self.metadata
    }

    /// The semantic schema authority.
    pub fn schemas(&self) -> (r: &IdentitySchemaCatalog)
        ensures
            *r == self.spec_schemas(),
    {
        &self.schemas
    }

    /// The seated prior vocabulary.
    pub fn priors(&self) -> (r: &BootstrapPriorVocabulary)
        ensures
            r.spec_identities() == self.spec_priors(),
    {
        &self.priors
    }

    /// The supported-version policy.
    pub fn versions(&self) -> (r: &BootstrapVersionPolicy)
        ensures
            *r == self.spec_versions(),
    {
        &self.versions
    }

    /// The authority-supplied canonical identity order.
    pub fn canonical_order(&self) -> (r: &CanonicalIdentityOrder)
        ensures
            *r == self.spec_canonical_order(),
    {
        &self.canonical_order
    }
}

} // verus!
