//! Identity validation of a typed Whole-Ethos document: every declaration and
//! reference position must carry a Universal identity, the header version must
//! be the supported one, and the header kind must match the body.
use vstd::prelude::*;

use crate::identity::{EncodedName, VocabularyRoot};
use crate::whole::model::{
    reference_names, validate_reference, whole_body_kind, WholeEthos, WholeEthosBody, WholeEthosEnumeration, WholeEthosItem,
    WholeEthosMethod, WholeEthosNewtype, WholeEthosOperatorApplication, WholeEthosStruct,
    WholeEthosTable, WholeEthosTrait, WholeEthosTypeReference, WholeEthosVariant,
    WholeEthosVariantPayload,
};
use crate::whole::{WholeEthosEncodedIdPosition, WholeEthosFileKind};

verus! {

/// The only compatibility generation this codec accepts.
pub const SUPPORTED_VERSION: u64 = 1;

/// Failure at the encoded Whole-Ethos boundary.
#[derive(Clone, Copy, Debug, PartialEq, Eq, Structural)]
pub enum WholeEthosArchiveError {
    /// Stored header and body select different kinds.
    HeaderBodyKindMismatch { header: WholeEthosFileKind, body: WholeEthosFileKind },
    /// Stored version is not accepted by this codec.
    UnsupportedVersion { kind: WholeEthosFileKind, found: u64, supported: u64 },
    /// Whole-Ethos vocabulary positions must carry Universal identities.
    NonUniversalEncodedId { position: WholeEthosEncodedIdPosition, root: VocabularyRoot },
}

/// The first entry, in order, whose identity is not Universal.
pub open spec fn first_foreign<P>(names: Seq<(EncodedName, P)>) -> Option<(EncodedName, P)>
    decreases names.len(),
{
    if names.len() == 0 {
        None
    } else if names[0].0.root != VocabularyRoot::Universal {
        Some(names[0])
    } else {
        first_foreign(names.drop_first())
    }
}

/// The entries of every element of a sequence, concatenated in order.
pub open spec fn flat<T, P>(items: Seq<T>, entries: spec_fn(T) -> Seq<P>) -> Seq<P>
    decreases items.len(),
{
    if items.len() == 0 {
        Seq::empty()
    } else {
        flat(items.drop_last(), entries) + entries(items.last())
    }
}

/// What validation answers for positioned identities visited in this order:
/// the first non-Universal one is refused with its position and root.
pub open spec fn identity_verdict(names: Seq<(EncodedName, WholeEthosEncodedIdPosition)>) -> Result<
    (),
    WholeEthosArchiveError,
> {
    match first_foreign(names) {
        None => Ok(()),
        Some(entry) => Err(
            WholeEthosArchiveError::NonUniversalEncodedId { position: entry.1, root: entry.0.root },
        ),
    }
}

pub closed spec fn reference_entries() -> spec_fn(WholeEthosTypeReference) -> Seq<
    (EncodedName, WholeEthosEncodedIdPosition),
> {
    |reference: WholeEthosTypeReference| reference_names(reference)
}

/// Positioned identities of a newtype: its name, then its wrapped reference.
pub closed spec fn newtype_names(newtype: WholeEthosNewtype) -> Seq<
    (EncodedName, WholeEthosEncodedIdPosition),
> {
    seq![(newtype.spec_name(), WholeEthosEncodedIdPosition::ItemName)] + reference_names(
        newtype.spec_wrapped_field().spec_reference(),
    )
}

pub closed spec fn newtype_entries() -> spec_fn(WholeEthosNewtype) -> Seq<
    (EncodedName, WholeEthosEncodedIdPosition),
> {
    |newtype: WholeEthosNewtype| newtype_names(newtype)
}

/// Positioned identities of a struct: its name, then its fields.
pub closed spec fn struct_names(product: WholeEthosStruct) -> Seq<
    (EncodedName, WholeEthosEncodedIdPosition),
> {
    seq![(product.spec_name(), WholeEthosEncodedIdPosition::ItemName)] + flat(
        product.spec_fields(),
        reference_entries(),
    )
}

pub closed spec fn struct_entries() -> spec_fn(WholeEthosStruct) -> Seq<
    (EncodedName, WholeEthosEncodedIdPosition),
> {
    |product: WholeEthosStruct| struct_names(product)
}

/// Positioned identities of a variant: its name, then any positional fields.
pub closed spec fn variant_names(variant: WholeEthosVariant) -> Seq<
    (EncodedName, WholeEthosEncodedIdPosition),
> {
    seq![(variant.spec_name(), WholeEthosEncodedIdPosition::VariantName)] + match variant.spec_payload() {
        WholeEthosVariantPayload::Unit => Seq::empty(),
        WholeEthosVariantPayload::Tuple(fields) => flat(fields.spec_fields(), reference_entries()),
    }
}

pub closed spec fn variant_entries() -> spec_fn(WholeEthosVariant) -> Seq<
    (EncodedName, WholeEthosEncodedIdPosition),
> {
    |variant: WholeEthosVariant| variant_names(variant)
}

/// Positioned identities of an enumeration: its name, then its variants.
pub closed spec fn enumeration_names(enumeration: WholeEthosEnumeration) -> Seq<
    (EncodedName, WholeEthosEncodedIdPosition),
> {
    seq![(enumeration.spec_name(), WholeEthosEncodedIdPosition::ItemName)] + flat(
        enumeration.spec_variants(),
        variant_entries(),
    )
}

/// Positioned identities of an object application: operator, name, then fields.
pub closed spec fn application_names(application: WholeEthosOperatorApplication) -> Seq<
    (EncodedName, WholeEthosEncodedIdPosition),
> {
    seq![
        (application.spec_operator(), WholeEthosEncodedIdPosition::ApplicationHead),
        (application.spec_name(), WholeEthosEncodedIdPosition::ApplicationName),
    ] + flat(application.spec_fields(), reference_entries())
}

/// Positioned identities of one item of a types position.
pub closed spec fn item_names(item: WholeEthosItem) -> Seq<(EncodedName, WholeEthosEncodedIdPosition)> {
    match item {
        WholeEthosItem::Newtype(newtype) => newtype_names(newtype),
        WholeEthosItem::Enumeration(enumeration) => enumeration_names(enumeration),
        WholeEthosItem::Struct(product) => struct_names(product),
        WholeEthosItem::OperatorApplication(application) => application_names(application),
    }
}

pub closed spec fn item_entries() -> spec_fn(WholeEthosItem) -> Seq<
    (EncodedName, WholeEthosEncodedIdPosition),
> {
    |item: WholeEthosItem| item_names(item)
}

/// Positioned identities of a method: name, parameters, then return type.
pub closed spec fn method_names(method: WholeEthosMethod) -> Seq<
    (EncodedName, WholeEthosEncodedIdPosition),
> {
    seq![(method.spec_name(), WholeEthosEncodedIdPosition::MethodName)] + flat(
        method.spec_parameters(),
        reference_entries(),
    ) + reference_names(method.spec_return_type())
}

pub closed spec fn method_entries() -> spec_fn(WholeEthosMethod) -> Seq<
    (EncodedName, WholeEthosEncodedIdPosition),
> {
    |method: WholeEthosMethod| method_names(method)
}

/// Positioned identities of a trait: its name, then its methods.
pub closed spec fn trait_names(definition: WholeEthosTrait) -> Seq<
    (EncodedName, WholeEthosEncodedIdPosition),
> {
    seq![(definition.spec_name(), WholeEthosEncodedIdPosition::TraitName)] + flat(
        definition.spec_methods(),
        method_entries(),
    )
}

pub closed spec fn trait_entries() -> spec_fn(WholeEthosTrait) -> Seq<
    (EncodedName, WholeEthosEncodedIdPosition),
> {
    |definition: WholeEthosTrait| trait_names(definition)
}

/// Positioned identities of a table: name, record, then key.
pub closed spec fn table_names(table: WholeEthosTable) -> Seq<(EncodedName, WholeEthosEncodedIdPosition)> {
    seq![(table.spec_name(), WholeEthosEncodedIdPosition::TableName)] + reference_names(
        table.spec_record(),
    ) + reference_names(table.spec_key())
}

pub closed spec fn table_entries() -> spec_fn(WholeEthosTable) -> Seq<
    (EncodedName, WholeEthosEncodedIdPosition),
> {
    |table: WholeEthosTable| table_names(table)
}

/// Positioned identities of a body, section by section in authored order.
pub closed spec fn body_names(body: WholeEthosBody) -> Seq<(EncodedName, WholeEthosEncodedIdPosition)> {
    match body {
        WholeEthosBody::Interface(interface) => flat(interface.spec_inputs(), newtype_entries())
            + flat(interface.spec_outputs(), newtype_entries()) + flat(
            interface.spec_refusals(),
            struct_entries(),
        ) + flat(interface.spec_types(), item_entries()),
        WholeEthosBody::Nexus(nexus) => flat(nexus.spec_types(), item_entries()) + flat(
            nexus.spec_traits(),
            trait_entries(),
        ),
        WholeEthosBody::Sema(sema) => flat(sema.spec_record_types(), item_entries()) + flat(
            sema.spec_tables(),
            table_entries(),
        ),
    }
}

/// What validating a document answers: an unsupported version first, then a
/// header that names another kind than the body, then the first non-Universal
/// identity of the body.
pub open spec fn document_verdict(document: WholeEthos) -> Result<(), WholeEthosArchiveError> {
    let header = document.spec_header();
    if header.spec_version() != SUPPORTED_VERSION {
        Err(
            WholeEthosArchiveError::UnsupportedVersion {
                kind: header.spec_kind(),
                found: header.spec_version(),
                supported: SUPPORTED_VERSION,
            },
        )
    } else if header.spec_kind() != whole_body_kind(document.spec_body()) {
        Err(
            WholeEthosArchiveError::HeaderBodyKindMismatch {
                header: header.spec_kind(),
                body: whole_body_kind(document.spec_body()),
            },
        )
    } else {
        identity_verdict(body_names(document.spec_body()))
    }
}

pub(crate) proof fn lemma_first_foreign_append<P>(a: Seq<(EncodedName, P)>, b: Seq<(EncodedName, P)>)
    ensures
        first_foreign(a + b) == (match first_foreign(a) {
            Some(entry) => Some(entry),
            None => first_foreign(b),
        }),
    decreases a.len(),
{
    if a.len() == 0 {
        assert(a + b =~= b);
    } else {
        assert((a + b)[0] == a[0]);
        assert((a + b).drop_first() =~= a.drop_first() + b);
        lemma_first_foreign_append(a.drop_first(), b);
    }
}

/// A verdict over two runs is the first run's refusal, else the second's verdict.
pub(crate) proof fn lemma_verdict_append(
    a: Seq<(EncodedName, WholeEthosEncodedIdPosition)>,
    b: Seq<(EncodedName, WholeEthosEncodedIdPosition)>,
)
    ensures
        identity_verdict(a + b) == (if identity_verdict(a) is Err {
            identity_verdict(a)
        } else {
            identity_verdict(b)
        }),
{
    lemma_first_foreign_append(a, b);
}

pub(crate) proof fn lemma_flat_append<T, P>(a: Seq<T>, b: Seq<T>, entries: spec_fn(T) -> Seq<P>)
    ensures
        flat(a + b, entries) == flat(a, entries) + flat(b, entries),
    decreases b.len(),
{
    if b.len() == 0 {
        assert(a + b =~= a);
        assert(flat(b, entries) =~= Seq::<P>::empty());
        assert(flat(a, entries) + flat(b, entries) =~= flat(a, entries));
    } else {
        assert((a + b).drop_last() =~= a + b.drop_last());
        assert((a + b).last() == b.last());
        lemma_flat_append(a, b.drop_last(), entries);
        assert(flat(a + b, entries) =~= flat(a, entries) + flat(b, entries));
    }
}

/// Taking one more element adds that element's entries at the end.
pub(crate) proof fn lemma_flat_step<T, P>(items: Seq<T>, entries: spec_fn(T) -> Seq<P>, i: int)
    requires
        0 <= i < items.len(),
    ensures
        flat(items.take(i + 1), entries) == flat(items.take(i), entries) + entries(items[i]),
{
    assert(items.take(i + 1).drop_last() =~= items.take(i));
    assert(items.take(i + 1).last() == items[i]);
}

/// Where every element before `i` passes and element `i` is refused, the whole
/// sequence is refused exactly as element `i` is.
proof fn lemma_flat_refusal<T>(
    items: Seq<T>,
    entries: spec_fn(T) -> Seq<(EncodedName, WholeEthosEncodedIdPosition)>,
    i: int,
)
    requires
        0 <= i < items.len(),
        identity_verdict(flat(items.take(i), entries)) is Ok,
        identity_verdict(entries(items[i])) is Err,
    ensures
        identity_verdict(flat(items, entries)) == identity_verdict(entries(items[i])),
{
    lemma_flat_step(items, entries, i);
    assert(items =~= items.take(i + 1) + items.skip(i + 1));
    lemma_flat_append(items.take(i + 1), items.skip(i + 1), entries);
    lemma_verdict_append(flat(items.take(i), entries), entries(items[i]));
    lemma_verdict_append(flat(items.take(i + 1), entries), flat(items.skip(i + 1), entries));
}

/// Where element `i` passes after a passing prefix, the longer prefix passes.
proof fn lemma_flat_pass<T>(
    items: Seq<T>,
    entries: spec_fn(T) -> Seq<(EncodedName, WholeEthosEncodedIdPosition)>,
    i: int,
)
    requires
        0 <= i < items.len(),
        identity_verdict(flat(items.take(i), entries)) is Ok,
        identity_verdict(entries(items[i])) is Ok,
    ensures
        identity_verdict(flat(items.take(i + 1), entries)) is Ok,
{
    lemma_flat_step(items, entries, i);
    lemma_verdict_append(flat(items.take(i), entries), entries(items[i]));
}

pub(crate) proof fn lemma_flat_empty_prefix<T, P>(items: Seq<T>, entries: spec_fn(T) -> Seq<P>)
    ensures
        flat(items.take(0), entries) == Seq::<P>::empty(),
{
    assert(items.take(0).len() == 0);
}

/// Validate one identity at one position.
pub(crate) fn validate_identity(
    identity: &EncodedName,
    position: WholeEthosEncodedIdPosition,
) -> (r: Result<(), WholeEthosArchiveError>)
    ensures
        r == identity_verdict(seq![(*identity, position)]),
{
    let ghost names = seq![(*identity, position)];
    assert(names.drop_first() =~= Seq::<(EncodedName, WholeEthosEncodedIdPosition)>::empty());
    assert(first_foreign(names.drop_first()) is None);
    assert(names[0] == (*identity, position));
    if identity.is_universal() {
        Ok(())
    } else {
        Err(WholeEthosArchiveError::NonUniversalEncodedId { position, root: identity.root })
    }
}


/// Validate every type reference in order.
fn validate_references(elements: &[WholeEthosTypeReference]) -> (r: Result<(), WholeEthosArchiveError>)
    ensures
        r == identity_verdict(flat(elements@, reference_entries())),
{
    let ghost entries = reference_entries();
    proof {
        lemma_flat_empty_prefix(elements@, entries);
    }
    let mut i: usize = 0;
    while i < elements.len()
        invariant
            i <= elements@.len(),
            entries == reference_entries(),
            identity_verdict(flat(elements@.take(i as int), entries)) is Ok,
        decreases elements.len() - i,
    {
        let checked = validate_reference(&elements[i]);
        proof {
            assert(entries(elements@[i as int]) == reference_names(elements@[i as int]));
        }
        match checked {
            Err(refusal) => {
                proof {
                    lemma_flat_refusal(elements@, entries, i as int);
                }
                return Err(refusal);
            },
            Ok(()) => {
                proof {
                    lemma_flat_pass(elements@, entries, i as int);
                }
            },
        }
        i = i + 1;
    }
    proof {
        assert(elements@.take(i as int) =~= elements@);
    }
    Ok(())
}

/// Validate every newtype in order.
fn validate_newtypes(elements: &[WholeEthosNewtype]) -> (r: Result<(), WholeEthosArchiveError>)
    ensures
        r == identity_verdict(flat(elements@, newtype_entries())),
{
    let ghost entries = newtype_entries();
    proof {
        lemma_flat_empty_prefix(elements@, entries);
    }
    let mut i: usize = 0;
    while i < elements.len()
        invariant
            i <= elements@.len(),
            entries == newtype_entries(),
            identity_verdict(flat(elements@.take(i as int), entries)) is Ok,
        decreases elements.len() - i,
    {
        let checked = validate_newtype(&elements[i]);
        proof {
            assert(entries(elements@[i as int]) == newtype_names(elements@[i as int]));
        }
        match checked {
            Err(refusal) => {
                proof {
                    lemma_flat_refusal(elements@, entries, i as int);
                }
                return Err(refusal);
            },
            Ok(()) => {
                proof {
                    lemma_flat_pass(elements@, entries, i as int);
                }
            },
        }
        i = i + 1;
    }
    proof {
        assert(elements@.take(i as int) =~= elements@);
    }
    Ok(())
}

/// Validate every struct in order.
fn validate_structs(elements: &[WholeEthosStruct]) -> (r: Result<(), WholeEthosArchiveError>)
    ensures
        r == identity_verdict(flat(elements@, struct_entries())),
{
    let ghost entries = struct_entries();
    proof {
        lemma_flat_empty_prefix(elements@, entries);
    }
    let mut i: usize = 0;
    while i < elements.len()
        invariant
            i <= elements@.len(),
            entries == struct_entries(),
            identity_verdict(flat(elements@.take(i as int), entries)) is Ok,
        decreases elements.len() - i,
    {
        let checked = validate_struct(&elements[i]);
        proof {
            assert(entries(elements@[i as int]) == struct_names(elements@[i as int]));
        }
        match checked {
            Err(refusal) => {
                proof {
                    lemma_flat_refusal(elements@, entries, i as int);
                }
                return Err(refusal);
            },
            Ok(()) => {
                proof {
                    lemma_flat_pass(elements@, entries, i as int);
                }
            },
        }
        i = i + 1;
    }
    proof {
        assert(elements@.take(i as int) =~= elements@);
    }
    Ok(())
}

/// Validate every variant in order.
fn validate_variants(elements: &[WholeEthosVariant]) -> (r: Result<(), WholeEthosArchiveError>)
    ensures
        r == identity_verdict(flat(elements@, variant_entries())),
{
    let ghost entries = variant_entries();
    proof {
        lemma_flat_empty_prefix(elements@, entries);
    }
    let mut i: usize = 0;
    while i < elements.len()
        invariant
            i <= elements@.len(),
            entries == variant_entries(),
            identity_verdict(flat(elements@.take(i as int), entries)) is Ok,
        decreases elements.len() - i,
    {
        let checked = validate_variant(&elements[i]);
        proof {
            assert(entries(elements@[i as int]) == variant_names(elements@[i as int]));
        }
        match checked {
            Err(refusal) => {
                proof {
                    lemma_flat_refusal(elements@, entries, i as int);
                }
                return Err(refusal);
            },
            Ok(()) => {
                proof {
                    lemma_flat_pass(elements@, entries, i as int);
                }
            },
        }
        i = i + 1;
    }
    proof {
        assert(elements@.take(i as int) =~= elements@);
    }
    Ok(())
}

/// Validate every item in order.
fn validate_items(elements: &[WholeEthosItem]) -> (r: Result<(), WholeEthosArchiveError>)
    ensures
        r == identity_verdict(flat(elements@, item_entries())),
{
    let ghost entries = item_entries();
    proof {
        lemma_flat_empty_prefix(elements@, entries);
    }
    let mut i: usize = 0;
    while i < elements.len()
        invariant
            i <= elements@.len(),
            entries == item_entries(),
            identity_verdict(flat(elements@.take(i as int), entries)) is Ok,
        decreases elements.len() - i,
    {
        let checked = validate_item(&elements[i]);
        proof {
            assert(entries(elements@[i as int]) == item_names(elements@[i as int]));
        }
        match checked {
            Err(refusal) => {
                proof {
                    lemma_flat_refusal(elements@, entries, i as int);
                }
                return Err(refusal);
            },
            Ok(()) => {
                proof {
                    lemma_flat_pass(elements@, entries, i as int);
                }
            },
        }
        i = i + 1;
    }
    proof {
        assert(elements@.take(i as int) =~= elements@);
    }
    Ok(())
}

/// Validate every method in order.
fn validate_methods(elements: &[WholeEthosMethod]) -> (r: Result<(), WholeEthosArchiveError>)
    ensures
        r == identity_verdict(flat(elements@, method_entries())),
{
    let ghost entries = method_entries();
    proof {
        lemma_flat_empty_prefix(elements@, entries);
    }
    let mut i: usize = 0;
    while i < elements.len()
        invariant
            i <= elements@.len(),
            entries == method_entries(),
            identity_verdict(flat(elements@.take(i as int), entries)) is Ok,
        decreases elements.len() - i,
    {
        let checked = validate_method(&elements[i]);
        proof {
            assert(entries(elements@[i as int]) == method_names(elements@[i as int]));
        }
        match checked {
            Err(refusal) => {
                proof {
                    lemma_flat_refusal(elements@, entries, i as int);
                }
                return Err(refusal);
            },
            Ok(()) => {
                proof {
                    lemma_flat_pass(elements@, entries, i as int);
                }
            },
        }
        i = i + 1;
    }
    proof {
        assert(elements@.take(i as int) =~= elements@);
    }
    Ok(())
}

/// Validate every trait in order.
fn validate_traits(elements: &[WholeEthosTrait]) -> (r: Result<(), WholeEthosArchiveError>)
    ensures
        r == identity_verdict(flat(elements@, trait_entries())),
{
    let ghost entries = trait_entries();
    proof {
        lemma_flat_empty_prefix(elements@, entries);
    }
    let mut i: usize = 0;
    while i < elements.len()
        invariant
            i <= elements@.len(),
            entries == trait_entries(),
            identity_verdict(flat(elements@.take(i as int), entries)) is Ok,
        decreases elements.len() - i,
    {
        let checked = validate_trait(&elements[i]);
        proof {
            assert(entries(elements@[i as int]) == trait_names(elements@[i as int]));
        }
        match checked {
            Err(refusal) => {
                proof {
                    lemma_flat_refusal(elements@, entries, i as int);
                }
                return Err(refusal);
            },
            Ok(()) => {
                proof {
                    lemma_flat_pass(elements@, entries, i as int);
                }
            },
        }
        i = i + 1;
    }
    proof {
        assert(elements@.take(i as int) =~= elements@);
    }
    Ok(())
}

/// Validate every table in order.
fn validate_tables(elements: &[WholeEthosTable]) -> (r: Result<(), WholeEthosArchiveError>)
    ensures
        r == identity_verdict(flat(elements@, table_entries())),
{
    let ghost entries = table_entries();
    proof {
        lemma_flat_empty_prefix(elements@, entries);
    }
    let mut i: usize = 0;
    while i < elements.len()
        invariant
            i <= elements@.len(),
            entries == table_entries(),
            identity_verdict(flat(elements@.take(i as int), entries)) is Ok,
        decreases elements.len() - i,
    {
        let checked = validate_table(&elements[i]);
        proof {
            assert(entries(elements@[i as int]) == table_names(elements@[i as int]));
        }
        match checked {
            Err(refusal) => {
                proof {
                    lemma_flat_refusal(elements@, entries, i as int);
                }
                return Err(refusal);
            },
            Ok(()) => {
                proof {
                    lemma_flat_pass(elements@, entries, i as int);
                }
            },
        }
        i = i + 1;
    }
    proof {
        assert(elements@.take(i as int) =~= elements@);
    }
    Ok(())
}

fn validate_newtype(newtype: &WholeEthosNewtype) -> (r: Result<(), WholeEthosArchiveError>)
    ensures
        r == identity_verdict(newtype_names(*newtype)),
{
    let name = validate_identity(newtype.name(), WholeEthosEncodedIdPosition::ItemName);
    proof {
        lemma_verdict_append(
            seq![(newtype.spec_name(), WholeEthosEncodedIdPosition::ItemName)],
            reference_names(newtype.spec_wrapped_field().spec_reference()),
        );
    }
    match name {
        Err(refusal) => Err(refusal),
        Ok(()) => validate_reference(newtype.wrapped_field().reference()),
    }
}

fn validate_struct(product: &WholeEthosStruct) -> (r: Result<(), WholeEthosArchiveError>)
    ensures
        r == identity_verdict(struct_names(*product)),
{
    let name = validate_identity(product.name(), WholeEthosEncodedIdPosition::ItemName);
    proof {
        lemma_verdict_append(
            seq![(product.spec_name(), WholeEthosEncodedIdPosition::ItemName)],
            flat(product.spec_fields(), reference_entries()),
        );
    }
    match name {
        Err(refusal) => Err(refusal),
        Ok(()) => validate_references(product.fields()),
    }
}

fn validate_variant(variant: &WholeEthosVariant) -> (r: Result<(), WholeEthosArchiveError>)
    ensures
        r == identity_verdict(variant_names(*variant)),
{
    let name = validate_identity(variant.name(), WholeEthosEncodedIdPosition::VariantName);
    let ghost payload_names = match variant.spec_payload() {
        WholeEthosVariantPayload::Unit => Seq::empty(),
        WholeEthosVariantPayload::Tuple(fields) => flat(fields.spec_fields(), reference_entries()),
    };
    proof {
        lemma_verdict_append(
            seq![(variant.spec_name(), WholeEthosEncodedIdPosition::VariantName)],
            payload_names,
        );
    }
    match name {
        Err(refusal) => Err(refusal),
        Ok(()) => match variant.payload() {
            WholeEthosVariantPayload::Unit => {
                proof {
                    assert(first_foreign(payload_names) is None);
                }
                Ok(())
            },
            WholeEthosVariantPayload::Tuple(fields) => validate_references(fields.fields()),
        },
    }
}

fn validate_enumeration(enumeration: &WholeEthosEnumeration) -> (r: Result<
    (),
    WholeEthosArchiveError,
>)
    ensures
        r == identity_verdict(enumeration_names(*enumeration)),
{
    let name = validate_identity(enumeration.name(), WholeEthosEncodedIdPosition::ItemName);
    proof {
        lemma_verdict_append(
            seq![(enumeration.spec_name(), WholeEthosEncodedIdPosition::ItemName)],
            flat(enumeration.spec_variants(), variant_entries()),
        );
    }
    match name {
        Err(refusal) => Err(refusal),
        Ok(()) => validate_variants(enumeration.variants()),
    }
}

fn validate_application(application: &WholeEthosOperatorApplication) -> (r: Result<
    (),
    WholeEthosArchiveError,
>)
    ensures
        r == identity_verdict(application_names(*application)),
{
    let ghost head = seq![(application.spec_operator(), WholeEthosEncodedIdPosition::ApplicationHead)];
    let ghost name = seq![(application.spec_name(), WholeEthosEncodedIdPosition::ApplicationName)];
    let ghost fields = flat(application.spec_fields(), reference_entries());
    proof {
        assert(application_names(*application) =~= head + (name + fields));
        lemma_verdict_append(head, name + fields);
        lemma_verdict_append(name, fields);
    }
    let checked = validate_identity(
        application.operator(),
        WholeEthosEncodedIdPosition::ApplicationHead,
    );
    if let Err(refusal) = checked {
        return Err(refusal);
    }
    let checked = validate_identity(application.name(), WholeEthosEncodedIdPosition::ApplicationName);
    if let Err(refusal) = checked {
        return Err(refusal);
    }
    validate_references(application.fields())
}

fn validate_item(item: &WholeEthosItem) -> (r: Result<(), WholeEthosArchiveError>)
    ensures
        r == identity_verdict(item_names(*item)),
{
    match item {
        WholeEthosItem::Newtype(newtype) => validate_newtype(newtype),
        WholeEthosItem::Enumeration(enumeration) => validate_enumeration(enumeration),
        WholeEthosItem::Struct(product) => validate_struct(product),
        WholeEthosItem::OperatorApplication(application) => validate_application(application),
    }
}

fn validate_method(method: &WholeEthosMethod) -> (r: Result<(), WholeEthosArchiveError>)
    ensures
        r == identity_verdict(method_names(*method)),
{
    let ghost name = seq![(method.spec_name(), WholeEthosEncodedIdPosition::MethodName)];
    let ghost parameters = flat(method.spec_parameters(), reference_entries());
    let ghost result = reference_names(method.spec_return_type());
    proof {
        lemma_verdict_append(name + parameters, result);
        lemma_verdict_append(name, parameters);
    }
    let checked = validate_identity(method.name(), WholeEthosEncodedIdPosition::MethodName);
    if let Err(refusal) = checked {
        return Err(refusal);
    }
    let checked = validate_references(method.parameters());
    if let Err(refusal) = checked {
        return Err(refusal);
    }
    validate_reference(method.return_type())
}

fn validate_trait(definition: &WholeEthosTrait) -> (r: Result<(), WholeEthosArchiveError>)
    ensures
        r == identity_verdict(trait_names(*definition)),
{
    let name = validate_identity(definition.name(), WholeEthosEncodedIdPosition::TraitName);
    proof {
        lemma_verdict_append(
            seq![(definition.spec_name(), WholeEthosEncodedIdPosition::TraitName)],
            flat(definition.spec_methods(), method_entries()),
        );
    }
    match name {
        Err(refusal) => Err(refusal),
        Ok(()) => validate_methods(definition.methods()),
    }
}

fn validate_table(table: &WholeEthosTable) -> (r: Result<(), WholeEthosArchiveError>)
    ensures
        r == identity_verdict(table_names(*table)),
{
    let ghost name = seq![(table.spec_name(), WholeEthosEncodedIdPosition::TableName)];
    let ghost record = reference_names(table.spec_record());
    let ghost key = reference_names(table.spec_key());
    proof {
        lemma_verdict_append(name + record, key);
        lemma_verdict_append(name, record);
    }
    let checked = validate_identity(table.name(), WholeEthosEncodedIdPosition::TableName);
    if let Err(refusal) = checked {
        return Err(refusal);
    }
    let checked = validate_reference(table.record());
    if let Err(refusal) = checked {
        return Err(refusal);
    }
    validate_reference(table.key())
}

fn validate_body(body: &WholeEthosBody) -> (r: Result<(), WholeEthosArchiveError>)
    ensures
        r == identity_verdict(body_names(*body)),
{
    match body {
        WholeEthosBody::Interface(interface) => {
            let ghost inputs = flat(interface.spec_inputs(), newtype_entries());
            let ghost outputs = flat(interface.spec_outputs(), newtype_entries());
            let ghost refusals = flat(interface.spec_refusals(), struct_entries());
            let ghost types = flat(interface.spec_types(), item_entries());
            proof {
                lemma_verdict_append(inputs + outputs + refusals, types);
                lemma_verdict_append(inputs + outputs, refusals);
                lemma_verdict_append(inputs, outputs);
            }
            let checked = validate_newtypes(interface.inputs());
            if let Err(refusal) = checked {
                return Err(refusal);
            }
            let checked = validate_newtypes(interface.outputs());
            if let Err(refusal) = checked {
                return Err(refusal);
            }
            let checked = validate_structs(interface.refusals());
            if let Err(refusal) = checked {
                return Err(refusal);
            }
            validate_items(interface.types())
        },
        WholeEthosBody::Nexus(nexus) => {
            proof {
                lemma_verdict_append(
                    flat(nexus.spec_types(), item_entries()),
                    flat(nexus.spec_traits(), trait_entries()),
                );
            }
            let checked = validate_items(nexus.types());
            if let Err(refusal) = checked {
                return Err(refusal);
            }
            validate_traits(nexus.traits())
        },
        WholeEthosBody::Sema(sema) => {
            proof {
                lemma_verdict_append(
                    flat(sema.spec_record_types(), item_entries()),
                    flat(sema.spec_tables(), table_entries()),
                );
            }
            let checked = validate_items(sema.record_types());
            if let Err(refusal) = checked {
                return Err(refusal);
            }
            validate_tables(sema.tables())
        },
    }
}

impl WholeEthos {
    /// Check a restored carrier: the supported version, a header kind equal to
    /// the body's, and Universal identities at every declaration and reference
    /// position, reporting the first failure.
    pub fn validate(&self) -> (r: Result<(), WholeEthosArchiveError>)
        ensures
            r == document_verdict(*self),
    {
        let header = self.header();
        if header.version() != SUPPORTED_VERSION {
            return Err(
                WholeEthosArchiveError::UnsupportedVersion {
                    kind: header.kind(),
                    found: header.version(),
                    supported: SUPPORTED_VERSION,
                },
            );
        }
        let body_kind = self.body().kind();
        if header.kind() != body_kind {
            return Err(
                WholeEthosArchiveError::HeaderBodyKindMismatch { header: header.kind(), body: body_kind },
            );
        }
        validate_body(self.body())
    }
}


/// The first foreign entry is absent exactly when every entry is Universal, and
/// when present it is a non-Universal entry of the sequence.
pub proof fn lemma_first_foreign<P>(names: Seq<(EncodedName, P)>)
    ensures
        first_foreign(names) is None <==> forall|k: int|
            0 <= k < names.len() ==> (#[trigger] names[k]).0.root == VocabularyRoot::Universal,
        first_foreign(names) matches Some(entry) ==> names.contains(entry) && entry.0.root
            != VocabularyRoot::Universal,
    decreases names.len(),
{
    if names.len() > 0 {
        lemma_first_foreign(names.drop_first());
        if names[0].0.root == VocabularyRoot::Universal {
            assert forall|k: int| 1 <= k < names.len() implies #[trigger] names[k] == names.drop_first()[k
                - 1] by {}
            if first_foreign(names.drop_first()) is None {
                assert forall|k: int| 0 <= k < names.len() implies (
                #[trigger] names[k]).0.root == VocabularyRoot::Universal by {
                    if k > 0 {
                        assert(names[k] == names.drop_first()[k - 1]);
                    }
                }
            } else {
                let entry = first_foreign(names.drop_first())->0;
                let j = choose|j: int| 0 <= j < names.drop_first().len() && names.drop_first()[j] == entry;
                assert(names[j + 1] == entry);
            }
        } else {
            assert(names.contains(names[0]));
        }
    }
}

/// A document that validates carries the supported version, a header naming
/// its body's kind, and only Universal identities.
pub proof fn lemma_validated_document(document: WholeEthos)
    requires
        document_verdict(document) is Ok,
    ensures
        document.spec_header().spec_version() == SUPPORTED_VERSION,
        document.spec_header().spec_kind() == whole_body_kind(document.spec_body()),
        forall|k: int|
            0 <= k < body_names(document.spec_body()).len() ==> (#[trigger] body_names(
                document.spec_body(),
            )[k]).0.root == VocabularyRoot::Universal,
{
    lemma_first_foreign(body_names(document.spec_body()));
}

} // verus!
