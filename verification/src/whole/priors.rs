//! Caller-issued identities that configure the whole-file codec: the grammar's
//! structural identities and the lookup-only builtin priors. Every one must
//! belong to the Universal vocabulary.
use vstd::prelude::*;

use crate::bootstrap::resolution::contains_identity;
use crate::identity::{EncodedName, VocabularyRoot};
use crate::whole::validation::{first_foreign, lemma_first_foreign};
use crate::whole::{EthosGrammarIdPosition, WholeEthosBuiltinPriorPosition};

verus! {

/// Named caller-issued identities required to assemble the grammar table.
#[derive(Clone, Copy, Debug, PartialEq, Eq, Structural)]
pub struct EthosGrammarIdentities {
    pub interface_document: EncodedName,
    pub nexus_document: EncodedName,
    pub sema_document: EncodedName,
    pub header: EncodedName,
    pub imports: EncodedName,
    pub import_entry: EncodedName,
    pub interface_body: EncodedName,
    pub nexus_body: EncodedName,
    pub sema_body: EncodedName,
    pub newtype_list: EncodedName,
    pub struct_list: EncodedName,
    pub item_list: EncodedName,
    pub trait_list: EncodedName,
    pub table_list: EncodedName,
    pub newtype_declaration: EncodedName,
    pub struct_declaration: EncodedName,
    pub item: EncodedName,
    pub variant: EncodedName,
    pub type_reference: EncodedName,
    pub operator_payload: EncodedName,
    pub trait_declaration: EncodedName,
    pub method: EncodedName,
    pub table: EncodedName,
}

/// The grammar identities in the order they are checked, each with its role.
pub open spec fn grammar_entries(input: EthosGrammarIdentities) -> Seq<
    (EncodedName, EthosGrammarIdPosition),
> {
    seq![
        (input.interface_document, EthosGrammarIdPosition::InterfaceDocument),
        (input.nexus_document, EthosGrammarIdPosition::NexusDocument),
        (input.sema_document, EthosGrammarIdPosition::SemaDocument),
        (input.header, EthosGrammarIdPosition::Header),
        (input.imports, EthosGrammarIdPosition::Imports),
        (input.import_entry, EthosGrammarIdPosition::ImportEntry),
        (input.interface_body, EthosGrammarIdPosition::InterfaceBody),
        (input.nexus_body, EthosGrammarIdPosition::NexusBody),
        (input.sema_body, EthosGrammarIdPosition::SemaBody),
        (input.newtype_list, EthosGrammarIdPosition::NewtypeList),
        (input.struct_list, EthosGrammarIdPosition::StructList),
        (input.item_list, EthosGrammarIdPosition::ItemList),
        (input.trait_list, EthosGrammarIdPosition::TraitList),
        (input.table_list, EthosGrammarIdPosition::TableList),
        (input.newtype_declaration, EthosGrammarIdPosition::NewtypeDeclaration),
        (input.struct_declaration, EthosGrammarIdPosition::StructDeclaration),
        (input.item, EthosGrammarIdPosition::Item),
        (input.variant, EthosGrammarIdPosition::Variant),
        (input.type_reference, EthosGrammarIdPosition::TypeReference),
        (input.operator_payload, EthosGrammarIdPosition::OperatorPayload),
        (input.trait_declaration, EthosGrammarIdPosition::TraitDeclaration),
        (input.method, EthosGrammarIdPosition::Method),
        (input.table, EthosGrammarIdPosition::Table),
    ]
}

/// Failure before the grammar table can be sealed.
#[derive(Clone, Copy, Debug, PartialEq, Eq, Structural)]
pub enum EthosGrammarError {
    /// Grammar identities belong to the Universal vocabulary.
    NonUniversal { position: EthosGrammarIdPosition, root: VocabularyRoot },
}

/// Validated structural grammar identities.
#[derive(Clone, Copy, Debug, PartialEq, Eq)]
pub struct EthosGrammarIds {
    identities: EthosGrammarIdentities,
}

impl EthosGrammarIds {
    pub closed spec fn spec_identities(&self) -> EthosGrammarIdentities {
        self.identities
    }

    /// Validate every grammar identity as Universal, in declaration order, and
    /// keep them all.
    pub fn new(input: EthosGrammarIdentities) -> (r: Result<Self, EthosGrammarError>)
        ensures
            first_foreign(grammar_entries(input)) is None ==> (r matches Ok(ids)
                && ids.spec_identities() == input),
            r is Ok ==> forall|k: int|
                0 <= k < grammar_entries(input).len() ==> (#[trigger] grammar_entries(input)[k]).0.root
                    == VocabularyRoot::Universal,
            first_foreign(grammar_entries(input)) matches Some(entry) ==> r == Err::<
                Self,
                EthosGrammarError,
            >(EthosGrammarError::NonUniversal { position: entry.1, root: entry.0.root }),
    {
        let entries = vec![
            (input.interface_document, EthosGrammarIdPosition::InterfaceDocument),
            (input.nexus_document, EthosGrammarIdPosition::NexusDocument),
            (input.sema_document, EthosGrammarIdPosition::SemaDocument),
            (input.header, EthosGrammarIdPosition::Header),
            (input.imports, EthosGrammarIdPosition::Imports),
            (input.import_entry, EthosGrammarIdPosition::ImportEntry),
            (input.interface_body, EthosGrammarIdPosition::InterfaceBody),
            (input.nexus_body, EthosGrammarIdPosition::NexusBody),
            (input.sema_body, EthosGrammarIdPosition::SemaBody),
            (input.newtype_list, EthosGrammarIdPosition::NewtypeList),
            (input.struct_list, EthosGrammarIdPosition::StructList),
            (input.item_list, EthosGrammarIdPosition::ItemList),
            (input.trait_list, EthosGrammarIdPosition::TraitList),
            (input.table_list, EthosGrammarIdPosition::TableList),
            (input.newtype_declaration, EthosGrammarIdPosition::NewtypeDeclaration),
            (input.struct_declaration, EthosGrammarIdPosition::StructDeclaration),
            (input.item, EthosGrammarIdPosition::Item),
            (input.variant, EthosGrammarIdPosition::Variant),
            (input.type_reference, EthosGrammarIdPosition::TypeReference),
            (input.operator_payload, EthosGrammarIdPosition::OperatorPayload),
            (input.trait_declaration, EthosGrammarIdPosition::TraitDeclaration),
            (input.method, EthosGrammarIdPosition::Method),
            (input.table, EthosGrammarIdPosition::Table),
        ];
        let ghost all = grammar_entries(input);
        assert(entries@ =~= all);
        assert(all.skip(0) =~= all);
        let mut i: usize = 0;
        while i < entries.len()
            invariant
                i <= entries@.len(),
                entries@ == all,
                all == grammar_entries(input),
                first_foreign(all) == first_foreign(all.skip(i as int)),
            decreases entries.len() - i,
        {
            let (identity, position) = entries[i];
            assert(all.skip(i as int)[0] == all[i as int]);
            if !identity.is_universal() {
                return Err(EthosGrammarError::NonUniversal { position, root: identity.root });
            }
            assert(all.skip(i as int).drop_first() =~= all.skip(i as int + 1));
            i = i + 1;
        }
        assert(all.skip(i as int).len() == 0);
        proof {
            lemma_first_foreign(all);
        }
        Ok(EthosGrammarIds { identities: input })
    }
}

/// Invalid lookup-only prior configuration.
#[derive(Clone, Copy, Debug, PartialEq, Eq, Structural)]
pub enum WholeEthosBuiltinPriorError {
    /// Priors belong to the Universal vocabulary.
    NonUniversal { position: WholeEthosBuiltinPriorPosition, root: VocabularyRoot },
}

/// A lookup list after admitting one identity: unchanged if it is already there,
/// else with the identity appended.
pub open spec fn admitted(names: Seq<EncodedName>, identity: EncodedName) -> Seq<EncodedName> {
    if names.contains(identity) {
        names
    } else {
        names.push(identity)
    }
}

fn check_prior(position: WholeEthosBuiltinPriorPosition, identity: &EncodedName) -> (r: Result<
    (),
    WholeEthosBuiltinPriorError,
>)
    ensures
        identity.root == VocabularyRoot::Universal ==> r is Ok,
        identity.root != VocabularyRoot::Universal ==> r == Err::<(), WholeEthosBuiltinPriorError>(
            WholeEthosBuiltinPriorError::NonUniversal { position, root: identity.root },
        ),
{
    if identity.is_universal() {
        Ok(())
    } else {
        Err(WholeEthosBuiltinPriorError::NonUniversal { position, root: identity.root })
    }
}

/// Lookup-only identities accepted at reference and object-operator positions.
#[derive(Debug, PartialEq, Eq)]
pub struct WholeEthosBuiltinPriors {
    identities: Vec<EncodedName>,
    application_heads: Vec<EncodedName>,
    object_application_heads: Vec<EncodedName>,
}

impl WholeEthosBuiltinPriors {
    #[verifier::type_invariant]
    spec fn keeps_integer_and_vector(self) -> bool {
        self.identities.len() > 0 && self.application_heads.len() > 0
    }

    pub closed spec fn spec_identities(&self) -> Seq<EncodedName> {
        self.identities@
    }

    pub closed spec fn spec_application_heads(&self) -> Seq<EncodedName> {
        self.application_heads@
    }

    pub closed spec fn spec_object_application_heads(&self) -> Seq<EncodedName> {
        self.object_application_heads@
    }

    /// Register the Universal identities already assigned to Integer and Vector.
    pub fn new(integer: EncodedName, vector: EncodedName) -> (r: Result<
        Self,
        WholeEthosBuiltinPriorError,
    >)
        ensures
            integer.root != VocabularyRoot::Universal ==> r == Err::<
                Self,
                WholeEthosBuiltinPriorError,
            >(
                WholeEthosBuiltinPriorError::NonUniversal {
                    position: WholeEthosBuiltinPriorPosition::Integer,
                    root: integer.root,
                },
            ),
            integer.root == VocabularyRoot::Universal && vector.root != VocabularyRoot::Universal
                ==> r == Err::<Self, WholeEthosBuiltinPriorError>(
                WholeEthosBuiltinPriorError::NonUniversal {
                    position: WholeEthosBuiltinPriorPosition::Vector,
                    root: vector.root,
                },
            ),
            integer.root == VocabularyRoot::Universal && vector.root == VocabularyRoot::Universal
                ==> (r matches Ok(priors) && priors.spec_identities() == seq![integer]
                && priors.spec_application_heads() == seq![vector]
                && priors.spec_object_application_heads() == Seq::<EncodedName>::empty()),
    {
        let checked = check_prior(WholeEthosBuiltinPriorPosition::Integer, &integer);
        if let Err(refusal) = checked {
            return Err(refusal);
        }
        let checked = check_prior(WholeEthosBuiltinPriorPosition::Vector, &vector);
        if let Err(refusal) = checked {
            return Err(refusal);
        }
        let priors = WholeEthosBuiltinPriors {
            identities: vec![integer],
            application_heads: vec![vector],
            object_application_heads: Vec::new(),
        };
        assert(priors.spec_identities() =~= seq![integer]);
        assert(priors.spec_application_heads() =~= seq![vector]);
        Ok(priors)
    }

    /// Builtin Integer identity.
    pub fn integer(&self) -> (r: &EncodedName)
        ensures
            self.spec_identities().len() > 0,
            *r == self.spec_identities()[0],
    {
        proof {
            use_type_invariant(self);
        }
        &self.identities[0]
    }

    /// Builtin Vector identity.
    pub fn vector(&self) -> (r: &EncodedName)
        ensures
            self.spec_application_heads().len() > 0,
            *r == self.spec_application_heads()[0],
    {
        proof {
            use_type_invariant(self);
        }
        &self.application_heads[0]
    }

    /// Admit another lookup-only type identity.
    pub fn with_identity(self, identity: EncodedName) -> (r: Result<
        Self,
        WholeEthosBuiltinPriorError,
    >)
        ensures
            identity.root != VocabularyRoot::Universal ==> r == Err::<
                Self,
                WholeEthosBuiltinPriorError,
            >(
                WholeEthosBuiltinPriorError::NonUniversal {
                    position: WholeEthosBuiltinPriorPosition::Identity,
                    root: identity.root,
                },
            ),
            identity.root == VocabularyRoot::Universal ==> (r matches Ok(priors)
                && priors.spec_identities() == admitted(self.spec_identities(), identity)
                && priors.spec_application_heads() == self.spec_application_heads()
                && priors.spec_object_application_heads() == self.spec_object_application_heads()),
    {
        proof {
            use_type_invariant(&self);
        }
        let checked = check_prior(WholeEthosBuiltinPriorPosition::Identity, &identity);
        if let Err(refusal) = checked {
            return Err(refusal);
        }
        let WholeEthosBuiltinPriors { mut identities, application_heads, object_application_heads } =
            self;
        if !contains_identity(&identities, identity) {
            identities.push(identity);
        }
        Ok(WholeEthosBuiltinPriors { identities, application_heads, object_application_heads })
    }

    /// Admit another unary application head.
    pub fn with_application_head(self, head: EncodedName) -> (r: Result<
        Self,
        WholeEthosBuiltinPriorError,
    >)
        ensures
            head.root != VocabularyRoot::Universal ==> r == Err::<Self, WholeEthosBuiltinPriorError>(
                WholeEthosBuiltinPriorError::NonUniversal {
                    position: WholeEthosBuiltinPriorPosition::ApplicationHead,
                    root: head.root,
                },
            ),
            head.root == VocabularyRoot::Universal ==> (r matches Ok(priors)
                && priors.spec_identities() == self.spec_identities()
                && priors.spec_application_heads() == admitted(self.spec_application_heads(), head)
                && priors.spec_object_application_heads() == self.spec_object_application_heads()),
    {
        proof {
            use_type_invariant(&self);
        }
        let checked = check_prior(WholeEthosBuiltinPriorPosition::ApplicationHead, &head);
        if let Err(refusal) = checked {
            return Err(refusal);
        }
        let WholeEthosBuiltinPriors { identities, mut application_heads, object_application_heads } =
            self;
        if !contains_identity(&application_heads, head) {
            application_heads.push(head);
        }
        Ok(WholeEthosBuiltinPriors { identities, application_heads, object_application_heads })
    }

    /// Admit a standalone object-first application head such as Stream.
    pub fn with_object_application_head(self, head: EncodedName) -> (r: Result<
        Self,
        WholeEthosBuiltinPriorError,
    >)
        ensures
            head.root != VocabularyRoot::Universal ==> r == Err::<Self, WholeEthosBuiltinPriorError>(
                WholeEthosBuiltinPriorError::NonUniversal {
                    position: WholeEthosBuiltinPriorPosition::ObjectApplicationHead,
                    root: head.root,
                },
            ),
            head.root == VocabularyRoot::Universal ==> (r matches Ok(priors)
                && priors.spec_identities() == self.spec_identities()
                && priors.spec_application_heads() == self.spec_application_heads()
                && priors.spec_object_application_heads() == admitted(
                self.spec_object_application_heads(),
                head,
            )),
    {
        proof {
            use_type_invariant(&self);
        }
        let checked = check_prior(WholeEthosBuiltinPriorPosition::ObjectApplicationHead, &head);
        if let Err(refusal) = checked {
            return Err(refusal);
        }
        let WholeEthosBuiltinPriors { identities, application_heads, mut object_application_heads } =
            self;
        if !contains_identity(&object_application_heads, head) {
            object_application_heads.push(head);
        }
        Ok(WholeEthosBuiltinPriors { identities, application_heads, object_application_heads })
    }
}


/// Admitting an identity makes it present, keeps every earlier entry, keeps a
/// duplicate-free list duplicate-free, and admitting it again changes nothing.
pub proof fn lemma_admitted(names: Seq<EncodedName>, identity: EncodedName)
    ensures
        admitted(names, identity).contains(identity),
        forall|x: EncodedName| names.contains(x) ==> admitted(names, identity).contains(x),
        names.no_duplicates() ==> admitted(names, identity).no_duplicates(),
        admitted(admitted(names, identity), identity) == admitted(names, identity),
{
    if !names.contains(identity) {
        let pushed = names.push(identity);
        assert(pushed[names.len() as int] == identity);
        assert forall|x: EncodedName| names.contains(x) implies pushed.contains(x) by {
            let j = choose|j: int| 0 <= j < names.len() && names[j] == x;
            assert(pushed[j] == x);
        }
        if names.no_duplicates() {
            assert forall|a: int, b: int|
                0 <= a < pushed.len() && 0 <= b < pushed.len() && a != b implies pushed[a]
                != pushed[b] by {
                if a == names.len() {
                    assert(pushed[b] == names[b]);
                } else if b == names.len() {
                    assert(pushed[a] == names[a]);
                }
            }
        }
    }
}

} // verus!
