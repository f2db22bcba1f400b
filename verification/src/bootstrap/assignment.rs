//! Caller-issued naming assignments for planned occurrences and for the two
//! identities each authored Stream generates.
use vstd::prelude::*;

use crate::identity::EncodedName;
use super::error::BootstrapReadError;
use super::reader::DeclarationOccurrence;

verus! {

/// Whether an assigned identity is reused or minted. New identities carry
/// their authority-supplied canonical bytes.
#[derive(Debug)]
pub enum IdentityDisposition {
    Existing,
    New { canonical_bytes: Vec<u8> },
}

/// The mathematical form of a disposition: `None` for reuse, the canonical
/// bytes for a new identity.
pub open spec fn disposition_view(d: IdentityDisposition) -> Option<Seq<u8>> {
    match d {
        IdentityDisposition::Existing => None,
        IdentityDisposition::New { canonical_bytes } => Some(canonical_bytes@),
    }
}

impl IdentityDisposition {
    /// A copy with the same meaning.
    pub fn duplicate(&self) -> (r: IdentityDisposition)
        ensures
            disposition_view(r) == disposition_view(*self),
    {
        match self {
            IdentityDisposition::Existing => IdentityDisposition::Existing,
            IdentityDisposition::New { canonical_bytes } => IdentityDisposition::New { canonical_bytes: canonical_bytes.clone() },
        }
    }
}

/// One caller-issued identity for one authored occurrence.
#[derive(Debug)]
pub struct NamingAssignment {
    pub occurrence: DeclarationOccurrence,
    pub encoded_name: EncodedName,
    pub disposition: IdentityDisposition,
}

/// One authority disposition for a generated identity.
#[derive(Debug)]
pub struct AssignedIdentity {
    pub encoded_name: EncodedName,
    pub disposition: IdentityDisposition,
}

impl AssignedIdentity {
    pub fn duplicate(&self) -> (r: AssignedIdentity)
        ensures
            r.encoded_name == self.encoded_name,
            disposition_view(r.disposition) == disposition_view(self.disposition),
    {
        AssignedIdentity { encoded_name: self.encoded_name, disposition: self.disposition.duplicate() }
    }
}

/// The two additional identities required by one authored Stream occurrence.
#[derive(Debug)]
pub struct GeneratedStreamAssignment {
    pub source: DeclarationOccurrence,
    pub initiation: AssignedIdentity,
    pub termination: AssignedIdentity,
}

/// No occurrence is assigned twice.
pub open spec fn occurrences_distinct(s: Seq<NamingAssignment>) -> bool {
    forall|i: int, j: int| 0 <= i < j < s.len() ==> (#[trigger] s[i]).occurrence != (#[trigger] s[j]).occurrence
}

/// Position `j` repeats an earlier occurrence and nothing before it repeats.
pub open spec fn first_repeat(s: Seq<NamingAssignment>, j: int) -> bool {
    &&& 0 <= j < s.len()
    &&& exists|i: int| 0 <= i < j && (#[trigger] s[i]).occurrence == s[j].occurrence
    &&& occurrences_distinct(s.subrange(0, j))
}

/// The assignment of `occurrence`, if any.
pub open spec fn assignment_for(s: Seq<NamingAssignment>, occurrence: DeclarationOccurrence) -> Option<NamingAssignment> {
    if exists|i: int| 0 <= i < s.len() && (#[trigger] s[i]).occurrence == occurrence {
        Some(s[choose|i: int| 0 <= i < s.len() && (#[trigger] s[i]).occurrence == occurrence])
    } else {
        None
    }
}

/// Checked assignment set: each occurrence is assigned at most once.
#[derive(Debug)]
pub struct NamingAssignments {
    by_occurrence: Vec<NamingAssignment>,
}

impl NamingAssignments {
    pub closed spec fn spec_assignments(&self) -> Seq<NamingAssignment> {
        self.by_occurrence@
    }

    pub open spec fn wf(&self) -> bool {
        occurrences_distinct(self.spec_assignments())
    }

    /// Accept the assignments when no occurrence repeats; otherwise report
    /// the first repeated occurrence.
    pub fn new(assignments: Vec<NamingAssignment>) -> (r: Result<Self, BootstrapReadError>)
        ensures
            r is Ok <==> occurrences_distinct(assignments@),
            r matches Ok(a) ==> a.wf() && a.spec_assignments() == assignments@,
            r matches Err(e) ==> exists|j: int| first_repeat(assignments@, j)
                && e == BootstrapReadError::DuplicateAssignment(assignments@[j].occurrence.spec_ordinal()),
    {
        let n = assignments.len();
        let mut j: usize = 0;
        while j < n
            invariant
                n == assignments@.len(),
                j <= n,
                occurrences_distinct(assignments@.subrange(0, j as int)),
            decreases n - j,
        {
            let mut i: usize = 0;
            while i < j
                invariant
                    n == assignments@.len(),
                    i <= j < n,
                    occurrences_distinct(assignments@.subrange(0, j as int)),
                    forall|k: int| 0 <= k < i ==> (#[trigger] assignments@[k]).occurrence != assignments@[j as int].occurrence,
                decreases j - i,
            {
                if assignments[i].occurrence == assignments[j].occurrence {
                    let ordinal = assignments[j].occurrence.ordinal();
                    proof {
                        assert(first_repeat(assignments@, j as int));
                        assert(!occurrences_distinct(assignments@));
                    }
                    return Err(BootstrapReadError::DuplicateAssignment(ordinal));
                }
                i = i + 1;
            }
            proof {
                let s = assignments@.subrange(0, j + 1);
                assert forall|a: int, b: int| 0 <= a < b < s.len() implies (#[trigger] s[a]).occurrence != (#[trigger] s[b]).occurrence by {
                    if b < j {
                        assert(s[a] == assignments@.subrange(0, j as int)[a]);
                        assert(s[b] == assignments@.subrange(0, j as int)[b]);
                    }
                }
            }
            j = j + 1;
        }
        proof {
            assert(assignments@.subrange(0, n as int) =~= assignments@);
        }
        Ok(NamingAssignments { by_occurrence: assignments })
    }

    /// The assignment of one occurrence.
    pub fn get(&self, occurrence: DeclarationOccurrence) -> (r: Option<&NamingAssignment>)
        requires
            self.wf(),
        ensures
            match r {
                Some(a) => assignment_for(self.spec_assignments(), occurrence) == Some(*a),
                None => assignment_for(self.spec_assignments(), occurrence) is None,
            },
    {
        let mut i: usize = 0;
        while i < self.by_occurrence.len()
            invariant
                self.wf(),
                i <= self.by_occurrence@.len(),
                forall|k: int| 0 <= k < i ==> (#[trigger] self.by_occurrence@[k]).occurrence != occurrence,
            decreases self.by_occurrence@.len() - i,
        {
            if self.by_occurrence[i].occurrence == occurrence {
                proof {
                    let s = self.spec_assignments();
                    assert(s[i as int].occurrence == occurrence);
                    let c = choose|c: int| 0 <= c < s.len() && (#[trigger] s[c]).occurrence == occurrence;
                    if c != i {
                        assert(s[c].occurrence == s[i as int].occurrence);
                    }
                }
                return Some(&self.by_occurrence[i]);
            }
            i = i + 1;
        }
        None
    }

    /// Every assignment, in the order given.
    pub fn assignments(&self) -> (r: &[NamingAssignment])
        ensures
            r@ == self.spec_assignments(),
    {
        self.by_occurrence.as_slice()
    }
}

/// No source occurrence has two generated assignments.
pub open spec fn sources_distinct(s: Seq<GeneratedStreamAssignment>) -> bool {
    forall|i: int, j: int| 0 <= i < j < s.len() ==> (#[trigger] s[i]).source != (#[trigger] s[j]).source
}

/// Position `j` repeats an earlier source and nothing before it repeats.
pub open spec fn first_repeat_source(s: Seq<GeneratedStreamAssignment>, j: int) -> bool {
    &&& 0 <= j < s.len()
    &&& exists|i: int| 0 <= i < j && (#[trigger] s[i]).source == s[j].source
    &&& sources_distinct(s.subrange(0, j))
}

/// The generated assignment of a Stream source occurrence, if any.
pub open spec fn generated_for(s: Seq<GeneratedStreamAssignment>, source: DeclarationOccurrence) -> Option<GeneratedStreamAssignment> {
    if exists|i: int| 0 <= i < s.len() && (#[trigger] s[i]).source == source {
        Some(s[choose|i: int| 0 <= i < s.len() && (#[trigger] s[i]).source == source])
    } else {
        None
    }
}

/// Exact generated Stream assignments, separate from authored naming requests.
#[derive(Debug)]
pub struct GeneratedStreamAssignments {
    by_source: Vec<GeneratedStreamAssignment>,
}

impl GeneratedStreamAssignments {
    pub closed spec fn spec_assignments(&self) -> Seq<GeneratedStreamAssignment> {
        self.by_source@
    }

    pub open spec fn wf(&self) -> bool {
        sources_distinct(self.spec_assignments())
    }

    /// Accept the assignments when no source repeats; otherwise report the
    /// first repeated source.
    pub fn new(assignments: Vec<GeneratedStreamAssignment>) -> (r: Result<Self, BootstrapReadError>)
        ensures
            r is Ok <==> sources_distinct(assignments@),
            r matches Ok(a) ==> a.wf() && a.spec_assignments() == assignments@,
            r matches Err(e) ==> exists|j: int| first_repeat_source(assignments@, j)
                && e == BootstrapReadError::DuplicateGeneratedStreamAssignment(assignments@[j].source.spec_ordinal()),
    {
        let n = assignments.len();
        let mut j: usize = 0;
        while j < n
            invariant
                n == assignments@.len(),
                j <= n,
                sources_distinct(assignments@.subrange(0, j as int)),
            decreases n - j,
        {
            let mut i: usize = 0;
            while i < j
                invariant
                    n == assignments@.len(),
                    i <= j < n,
                    sources_distinct(assignments@.subrange(0, j as int)),
                    forall|k: int| 0 <= k < i ==> (#[trigger] assignments@[k]).source != assignments@[j as int].source,
                decreases j - i,
            {
                if assignments[i].source == assignments[j].source {
                    let ordinal = assignments[j].source.ordinal();
                    proof {
                        assert(first_repeat_source(assignments@, j as int));
                        assert(!sources_distinct(assignments@));
                    }
                    return Err(BootstrapReadError::DuplicateGeneratedStreamAssignment(ordinal));
                }
                i = i + 1;
            }
            proof {
                let s = assignments@.subrange(0, j + 1);
                assert forall|a: int, b: int| 0 <= a < b < s.len() implies (#[trigger] s[a]).source != (#[trigger] s[b]).source by {
                    if b < j {
                        assert(s[a] == assignments@.subrange(0, j as int)[a]);
                        assert(s[b] == assignments@.subrange(0, j as int)[b]);
                    }
                }
            }
            j = j + 1;
        }
        proof {
            assert(assignments@.subrange(0, n as int) =~= assignments@);
        }
        Ok(GeneratedStreamAssignments { by_source: assignments })
    }

    /// The generated assignment of one Stream source.
    pub fn get(&self, source: DeclarationOccurrence) -> (r: Option<&GeneratedStreamAssignment>)
        requires
            self.wf(),
        ensures
            match r {
                Some(a) => generated_for(self.spec_assignments(), source) == Some(*a),
                None => generated_for(self.spec_assignments(), source) is None,
            },
    {
        let mut i: usize = 0;
        while i < self.by_source.len()
            invariant
                self.wf(),
                i <= self.by_source@.len(),
                forall|k: int| 0 <= k < i ==> (#[trigger] self.by_source@[k]).source != source,
            decreases self.by_source@.len() - i,
        {
            if self.by_source[i].source == source {
                proof {
                    let s = self.spec_assignments();
                    assert(s[i as int].source == source);
                    let c = choose|c: int| 0 <= c < s.len() && (#[trigger] s[c]).source == source;
                    if c != i {
                        assert(s[c].source == s[i as int].source);
                    }
                }
                return Some(&self.by_source[i]);
            }
            i = i + 1;
        }
        None
    }

    /// Every generated assignment, in the order given.
    pub fn assignments(&self) -> (r: &[GeneratedStreamAssignment])
        ensures
            r@ == self.spec_assignments(),
    {
        self.by_source.as_slice()
    }
}

} // verus!
