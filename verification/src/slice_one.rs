//! The first six-slot slice: its closed visibility and position vocabularies.
use vstd::prelude::*;

use crate::identity::{EncodedName, VocabularyRoot};
use crate::whole::validation::{
    first_foreign, flat, lemma_first_foreign, lemma_first_foreign_append, lemma_flat_append,
    lemma_flat_empty_prefix, lemma_flat_step,
};

verus! {

/// The closed visibility vocabulary needed by the first slice.
#[derive(Clone, Copy, Debug, PartialEq, Eq, Structural)]
pub enum WholeEthosVisibility {
    /// Exported item.
    Public,
    /// Private wrapped field.
    Private,
}

/// The typed empty attribute sequence admitted by the first slice: a
/// position in the newtype payload, not an omitted or inferred field.
#[derive(Clone, Copy, Debug, Default, PartialEq, Eq, Structural)]
pub struct WholeEthosAttributes;

impl WholeEthosAttributes {
    /// Construct the only attribute sequence currently admitted.
    pub fn empty() -> (r: Self)
        ensures
            r == WholeEthosAttributes,
    {
        WholeEthosAttributes
    }

    /// This first-slice sequence contains no attributes.
    pub fn is_empty(self) -> (r: bool)
        ensures
            r,
    {
        true
    }
}

/// Encoded-ID position rejected while restoring a first-slice archive.
#[derive(Clone, Copy, Debug, PartialEq, Eq, Structural)]
pub enum NewtypeEncodedIdPosition {
    /// Declaration identity.
    Name,
    /// Wrapped type reference.
    Wrapped,
}

/// Structural identity position rejected while assembling the grammar.
#[derive(Clone, Copy, Debug, PartialEq, Eq, Structural)]
pub enum SixSlotGrammarIdPosition {
    /// Whole document record.
    Document,
    /// Empty brace slot shape.
    EmptyBraces,
    /// Empty square slot shape.
    EmptySquare,
    /// Types block.
    TypesBlock,
    /// Newtype declaration.
    NewtypeDeclaration,
}

/// Encoded-ID role rejected after typed structural evaluation.
#[derive(Clone, Copy, Debug, PartialEq, Eq, Structural)]
pub enum DecodedEncodedIdPosition {
    /// Declared item.
    Declaration,
    /// Wrapped type reference.
    Reference,
}


/// A positional newtype field: visibility followed by the referenced identity.
#[derive(Clone, Copy, Debug, PartialEq, Eq)]
pub struct WholeEthosWrappedField(WholeEthosVisibility, EncodedName);

impl WholeEthosWrappedField {
    pub closed spec fn spec_visibility(&self) -> WholeEthosVisibility {
        self.0
    }

    pub closed spec fn spec_reference(&self) -> EncodedName {
        self.1
    }

    /// Construct the wrapped field.
    pub fn new(visibility: WholeEthosVisibility, reference: EncodedName) -> (r: Self)
        ensures
            r.spec_visibility() == visibility,
            r.spec_reference() == reference,
    {
        WholeEthosWrappedField(visibility, reference)
    }

    /// Wrapped-field visibility.
    pub fn visibility(&self) -> (r: &WholeEthosVisibility)
        ensures
            *r == self.spec_visibility(),
    {
        &self.0
    }

    /// Complete lookup-resolved type identity.
    pub fn reference(&self) -> (r: &EncodedName)
        ensures
            *r == self.spec_reference(),
    {
        &self.1
    }
}

/// One positional newtype payload: declaration identity, item visibility, the
/// typed empty attribute sequence, and the wrapped field.
#[derive(Clone, Copy, Debug, PartialEq, Eq)]
pub struct WholeEthosNewtype(
    EncodedName,
    WholeEthosVisibility,
    WholeEthosAttributes,
    WholeEthosWrappedField,
);

impl WholeEthosNewtype {
    pub closed spec fn spec_name(&self) -> EncodedName {
        self.0
    }

    pub closed spec fn spec_visibility(&self) -> WholeEthosVisibility {
        self.1
    }

    pub closed spec fn spec_wrapped_field(&self) -> WholeEthosWrappedField {
        self.3
    }

    /// Construct one positional newtype.
    pub fn new(
        name: EncodedName,
        visibility: WholeEthosVisibility,
        attributes: WholeEthosAttributes,
        wrapped_field: WholeEthosWrappedField,
    ) -> (r: Self)
        ensures
            r.spec_name() == name,
            r.spec_visibility() == visibility,
            r.spec_wrapped_field() == wrapped_field,
    {
        WholeEthosNewtype(name, visibility, attributes, wrapped_field)
    }

    /// Complete caller-issued declaration identity.
    pub fn name(&self) -> (r: &EncodedName)
        ensures
            *r == self.spec_name(),
    {
        &self.0
    }

    /// Item visibility.
    pub fn visibility(&self) -> (r: &WholeEthosVisibility)
        ensures
            *r == self.spec_visibility(),
    {
        &self.1
    }

    /// Typed attribute sequence, empty in this slice.
    pub fn attributes(&self) -> (r: &WholeEthosAttributes)
        ensures
            *r == WholeEthosAttributes,
    {
        &self.2
    }

    /// Positional wrapped field.
    pub fn wrapped_field(&self) -> (r: &WholeEthosWrappedField)
        ensures
            *r == self.spec_wrapped_field(),
    {
        &self.3
    }
}

/// Item kinds supported by the first Ethos slice.
#[derive(Clone, Copy, Debug, PartialEq, Eq)]
pub enum WholeEthosItem {
    /// One attribute-free newtype declaration.
    Newtype(WholeEthosNewtype),
}

/// Failure at the first-slice archive boundary.
#[derive(Clone, Copy, Debug, PartialEq, Eq, Structural)]
pub enum WholeEthosArchiveError {
    /// Declarations and references in this slice must use shared vocabulary.
    NonUniversalEncodedId {
        item_index: usize,
        position: NewtypeEncodedIdPosition,
        root: VocabularyRoot,
    },
}

/// The two positioned identities of the item at `index`: its name, then its
/// wrapped reference.
pub closed spec fn item_names(indexed: (int, WholeEthosItem)) -> Seq<
    (EncodedName, (int, NewtypeEncodedIdPosition)),
> {
    match indexed.1 {
        WholeEthosItem::Newtype(newtype) => seq![
            (newtype.spec_name(), (indexed.0, NewtypeEncodedIdPosition::Name)),
            (
                newtype.spec_wrapped_field().spec_reference(),
                (indexed.0, NewtypeEncodedIdPosition::Wrapped),
            ),
        ],
    }
}

pub closed spec fn item_entries() -> spec_fn((int, WholeEthosItem)) -> Seq<
    (EncodedName, (int, NewtypeEncodedIdPosition)),
> {
    |indexed: (int, WholeEthosItem)| item_names(indexed)
}

/// Items paired with their authored positions.
pub open spec fn indexed(items: Seq<WholeEthosItem>) -> Seq<(int, WholeEthosItem)> {
    Seq::new(items.len(), |k: int| (k, items[k]))
}

/// Every positioned identity of the content, item by item in authored order.
pub closed spec fn content_names(items: Seq<WholeEthosItem>) -> Seq<
    (EncodedName, (int, NewtypeEncodedIdPosition)),
> {
    flat(indexed(items), item_entries())
}

/// What validating the content answers: the first non-Universal identity in
/// authored order, with its item index and position.
pub open spec fn content_verdict(items: Seq<WholeEthosItem>) -> Result<(), WholeEthosArchiveError> {
    match first_foreign(content_names(items)) {
        None => Ok(()),
        Some(entry) => Err(
            WholeEthosArchiveError::NonUniversalEncodedId {
                item_index: entry.1.0 as usize,
                position: entry.1.1,
                root: entry.0.root,
            },
        ),
    }
}

/// Ordered content admitted by the first vertical slice.
#[derive(Clone, Debug, PartialEq, Eq)]
pub struct WholeEthos(Vec<WholeEthosItem>);

impl WholeEthos {
    pub closed spec fn spec_items(&self) -> Seq<WholeEthosItem> {
        self.0@
    }

    /// Construct the content in authored item order.
    pub fn new(items: Vec<WholeEthosItem>) -> (r: Self)
        ensures
            r.spec_items() == items@,
    {
        WholeEthos(items)
    }

    /// Items in authored order.
    pub fn items(&self) -> (r: &[WholeEthosItem])
        ensures
            r@ == self.spec_items(),
    {
        self.0.as_slice()
    }

    /// Consume the carrier without changing item order.
    pub fn into_items(self) -> (r: Vec<WholeEthosItem>)
        ensures
            r@ == self.spec_items(),
    {
        self.0
    }

    /// Check that every name and wrapped reference is Universal, reporting the
    /// first that is not with its item index and position.
    pub fn validate(&self) -> (r: Result<(), WholeEthosArchiveError>)
        ensures
            r == content_verdict(self.spec_items()),
            r is Ok ==> forall|k: int|
                0 <= k < content_names(self.spec_items()).len() ==> (#[trigger] content_names(
                    self.spec_items(),
                )[k]).0.root == VocabularyRoot::Universal,
    {
        let items = &self.0;
        let ghost tagged = indexed(items@);
        let ghost entries = item_entries();
        proof {
            lemma_flat_empty_prefix(tagged, entries);
            lemma_first_foreign(content_names(items@));
        }
        let mut i: usize = 0;
        while i < items.len()
            invariant
                i <= items@.len(),
                items@ == self.spec_items(),
                tagged == indexed(items@),
                entries == item_entries(),
                first_foreign(flat(tagged.take(i as int), entries)) is None,
            decreases items.len() - i,
        {
            let WholeEthosItem::Newtype(newtype) = &items[i];
            let name = *newtype.name();
            let wrapped = *newtype.wrapped_field().reference();
            let ghost pair = entries(tagged[i as int]);
            proof {
                assert(tagged[i as int] == (i as int, items@[i as int]));
                lemma_flat_step(tagged, entries, i as int);
                assert(tagged =~= tagged.take(i as int + 1) + tagged.skip(i as int + 1));
                lemma_flat_append(tagged.take(i as int + 1), tagged.skip(i as int + 1), entries);
                lemma_first_foreign_append(flat(tagged.take(i as int), entries), pair);
                lemma_first_foreign_append(
                    flat(tagged.take(i as int + 1), entries),
                    flat(tagged.skip(i as int + 1), entries),
                );
                assert(pair =~= seq![
                    (name, (i as int, NewtypeEncodedIdPosition::Name)),
                    (wrapped, (i as int, NewtypeEncodedIdPosition::Wrapped)),
                ]);
                assert(pair[0] == (name, (i as int, NewtypeEncodedIdPosition::Name)));
                assert(pair.drop_first()[0] == (wrapped, (i as int, NewtypeEncodedIdPosition::Wrapped)));
                assert(pair.drop_first().drop_first().len() == 0);
                assert(first_foreign(pair.drop_first().drop_first()) is None);
            }
            if !name.is_universal() {
                proof {
                    assert(first_foreign(pair) == Some(pair[0]));
                    assert(first_foreign(flat(tagged.take(i as int + 1), entries)) == Some(pair[0]));
                    assert(first_foreign(flat(tagged, entries)) == Some(pair[0]));
                    assert(content_names(items@) == flat(tagged, entries));
                }
                return Err(
                    WholeEthosArchiveError::NonUniversalEncodedId {
                        item_index: i,
                        position: NewtypeEncodedIdPosition::Name,
                        root: name.root,
                    },
                );
            }
            if !wrapped.is_universal() {
                return Err(
                    WholeEthosArchiveError::NonUniversalEncodedId {
                        item_index: i,
                        position: NewtypeEncodedIdPosition::Wrapped,
                        root: wrapped.root,
                    },
                );
            }
            proof {
                assert(first_foreign(pair.drop_first()) is None);
                assert(first_foreign(pair) is None);
            }
            i = i + 1;
        }
        proof {
            assert(tagged.take(i as int) =~= tagged);
        }
        Ok(())
    }
}

/// Failure before a six-slot grammar can be sealed.
#[derive(Clone, Copy, Debug, PartialEq, Eq, Structural)]
pub enum SixSlotGrammarError {
    /// Grammar identities are shared Universal vocabulary.
    NonUniversal { position: SixSlotGrammarIdPosition, root: VocabularyRoot },
}

/// The five grammar identities in the order they are checked.
pub open spec fn six_slot_entries(
    document: EncodedName,
    empty_braces: EncodedName,
    empty_square: EncodedName,
    types_block: EncodedName,
    newtype_declaration: EncodedName,
) -> Seq<(EncodedName, SixSlotGrammarIdPosition)> {
    seq![
        (document, SixSlotGrammarIdPosition::Document),
        (empty_braces, SixSlotGrammarIdPosition::EmptyBraces),
        (empty_square, SixSlotGrammarIdPosition::EmptySquare),
        (types_block, SixSlotGrammarIdPosition::TypesBlock),
        (newtype_declaration, SixSlotGrammarIdPosition::NewtypeDeclaration),
    ]
}

/// Caller-issued structural identities needed by the six-slot grammar.
#[derive(Clone, Copy, Debug, PartialEq, Eq)]
pub struct SixSlotGrammarIds {
    document: EncodedName,
    empty_braces: EncodedName,
    empty_square: EncodedName,
    types_block: EncodedName,
    newtype_declaration: EncodedName,
}

fn check_six_slot_id(position: SixSlotGrammarIdPosition, identity: EncodedName) -> (r: Result<
    (),
    SixSlotGrammarError,
>)
    ensures
        r == (if identity.root == VocabularyRoot::Universal {
            Ok(())
        } else {
            Err(SixSlotGrammarError::NonUniversal { position, root: identity.root })
        }),
{
    if identity.is_universal() {
        Ok(())
    } else {
        Err(SixSlotGrammarError::NonUniversal { position, root: identity.root })
    }
}

impl SixSlotGrammarIds {
    pub closed spec fn spec_entries(&self) -> Seq<(EncodedName, SixSlotGrammarIdPosition)> {
        six_slot_entries(
            self.document,
            self.empty_braces,
            self.empty_square,
            self.types_block,
            self.newtype_declaration,
        )
    }

    /// Bind the grammar to five Universal identities, checked in order.
    pub fn new(
        document: EncodedName,
        empty_braces: EncodedName,
        empty_square: EncodedName,
        types_block: EncodedName,
        newtype_declaration: EncodedName,
    ) -> (r: Result<Self, SixSlotGrammarError>)
        ensures
            ({
                let entries = six_slot_entries(
                    document,
                    empty_braces,
                    empty_square,
                    types_block,
                    newtype_declaration,
                );
                &&& first_foreign(entries) is None ==> (r matches Ok(ids) && ids.spec_entries()
                    == entries)
                &&& first_foreign(entries) matches Some(entry) ==> r == Err::<
                    Self,
                    SixSlotGrammarError,
                >(SixSlotGrammarError::NonUniversal { position: entry.1, root: entry.0.root })
            }),
    {
        let ghost entries = six_slot_entries(
            document,
            empty_braces,
            empty_square,
            types_block,
            newtype_declaration,
        );
        proof {
            reveal_with_fuel(first_foreign, 6);
            assert(entries.drop_first()[0] == entries[1]);
            assert(entries.drop_first().drop_first()[0] == entries[2]);
            assert(entries.drop_first().drop_first().drop_first()[0] == entries[3]);
            assert(entries.drop_first().drop_first().drop_first().drop_first()[0] == entries[4]);
            assert(entries.drop_first().drop_first().drop_first().drop_first().drop_first().len()
                == 0);
        }
        if let Err(refusal) = check_six_slot_id(SixSlotGrammarIdPosition::Document, document) {
            return Err(refusal);
        }
        if let Err(refusal) = check_six_slot_id(SixSlotGrammarIdPosition::EmptyBraces, empty_braces) {
            return Err(refusal);
        }
        if let Err(refusal) = check_six_slot_id(SixSlotGrammarIdPosition::EmptySquare, empty_square) {
            return Err(refusal);
        }
        if let Err(refusal) = check_six_slot_id(SixSlotGrammarIdPosition::TypesBlock, types_block) {
            return Err(refusal);
        }
        if let Err(refusal) = check_six_slot_id(
            SixSlotGrammarIdPosition::NewtypeDeclaration,
            newtype_declaration,
        ) {
            return Err(refusal);
        }
        Ok(SixSlotGrammarIds { document, empty_braces, empty_square, types_block, newtype_declaration })
    }
}

/// Invalid builtin-prior configuration.
#[derive(Clone, Copy, Debug, PartialEq, Eq, Structural)]
pub enum SliceOneBuiltinPriorError {
    /// Builtin Integer is part of the shared Universal vocabulary.
    NonUniversal { root: VocabularyRoot },
}

/// Lookup-only builtin identities required by the first slice.
#[derive(Clone, Copy, Debug, PartialEq, Eq)]
pub struct SliceOneBuiltinPriors(EncodedName);

impl SliceOneBuiltinPriors {
    pub closed spec fn spec_integer(&self) -> EncodedName {
        self.0
    }

    /// Register the Universal identity already assigned to builtin Integer.
    pub fn new(integer: EncodedName) -> (r: Result<Self, SliceOneBuiltinPriorError>)
        ensures
            integer.root == VocabularyRoot::Universal ==> (r matches Ok(priors)
                && priors.spec_integer() == integer),
            integer.root != VocabularyRoot::Universal ==> r == Err::<Self, SliceOneBuiltinPriorError>(
                SliceOneBuiltinPriorError::NonUniversal { root: integer.root },
            ),
    {
        if integer.is_universal() {
            Ok(SliceOneBuiltinPriors(integer))
        } else {
            Err(SliceOneBuiltinPriorError::NonUniversal { root: integer.root })
        }
    }

    /// Builtin Integer's identity.
    pub fn integer(&self) -> (r: &EncodedName)
        ensures
            *r == self.spec_integer(),
    {
        &self.0
    }
}

} // verus!
