//! The typed Whole-Ethos document: header plus one kind-selected body whose
//! declarations name their identities by caller-issued encoded names.
use vstd::prelude::*;

use crate::identity::EncodedName;
use crate::whole::validation::{
    identity_verdict, lemma_verdict_append, validate_identity, WholeEthosArchiveError,
};
use crate::whole::{
    EmptyEnumerationVariants, EmptyOperatorPayload, EmptyStructFields, EmptyTraitMethods,
    EmptyTupleFields, WholeEthosEncodedIdPosition, WholeEthosAttributes, WholeEthosFileKind, WholeEthosHeader,
    WholeEthosVisibility,
};

verus! {

/// A positional type reference.
#[derive(Debug, PartialEq, Eq)]
pub enum WholeEthosTypeReference {
    /// One complete lookup-resolved identity.
    Identity(EncodedName),
    /// A unary application such as `Vector.Topic`.
    Application(WholeEthosTypeApplication),
}

/// One unary type application.
#[derive(Debug, PartialEq, Eq)]
pub struct WholeEthosTypeApplication {
    head: EncodedName,
    payload: Box<WholeEthosTypeReference>,
}

impl WholeEthosTypeApplication {
    pub closed spec fn spec_head(&self) -> EncodedName {
        self.head
    }

    pub closed spec fn spec_payload(&self) -> WholeEthosTypeReference {
        *self.payload
    }

    /// Construct one unary application.
    pub fn new(head: EncodedName, payload: WholeEthosTypeReference) -> (r: Self)
        ensures
            r.spec_head() == head,
            r.spec_payload() == payload,
    {
        WholeEthosTypeApplication { head, payload: Box::new(payload) }
    }

    /// Lookup-resolved application head.
    pub fn head(&self) -> (r: &EncodedName)
        ensures
            *r == self.spec_head(),
    {
        &self.head
    }

    /// Application payload.
    pub fn payload(&self) -> (r: &WholeEthosTypeReference)
        ensures
            *r == self.spec_payload(),
    {
        &self.payload
    }
}

/// Positioned identities of one type reference: an application's head, then its payload.
pub closed spec fn reference_names(reference: WholeEthosTypeReference) -> Seq<
    (EncodedName, WholeEthosEncodedIdPosition),
>
    decreases reference,
{
    match reference {
        WholeEthosTypeReference::Identity(identity) => seq![
            (identity, WholeEthosEncodedIdPosition::Reference),
        ],
        WholeEthosTypeReference::Application(application) => seq![
            (application.spec_head(), WholeEthosEncodedIdPosition::ApplicationHead),
        ] + reference_names(*application.payload),
    }
}

/// Validate every identity of a reference in order.
pub(crate) fn validate_reference(reference: &WholeEthosTypeReference) -> (r: Result<
    (),
    WholeEthosArchiveError,
>)
    ensures
        r == identity_verdict(reference_names(*reference)),
    decreases reference,
{
    match reference {
        WholeEthosTypeReference::Identity(identity) => validate_identity(
            identity,
            WholeEthosEncodedIdPosition::Reference,
        ),
        WholeEthosTypeReference::Application(application) => {
            let head = validate_identity(
                &application.head,
                WholeEthosEncodedIdPosition::ApplicationHead,
            );
            proof {
                lemma_verdict_append(
                    seq![(application.head, WholeEthosEncodedIdPosition::ApplicationHead)],
                    reference_names(*application.payload),
                );
            }
            match head {
                Err(refusal) => Err(refusal),
                Ok(()) => validate_reference(&application.payload),
            }
        }
    }
}

/// A newtype field with visibility and referenced type identity.
#[derive(Debug, PartialEq, Eq)]
pub struct WholeEthosWrappedField {
    visibility: WholeEthosVisibility,
    reference: WholeEthosTypeReference,
}

impl WholeEthosWrappedField {
    pub closed spec fn spec_visibility(&self) -> WholeEthosVisibility {
        self.visibility
    }

    pub closed spec fn spec_reference(&self) -> WholeEthosTypeReference {
        self.reference
    }

    /// Construct the wrapped field.
    pub fn new(visibility: WholeEthosVisibility, reference: WholeEthosTypeReference) -> (r: Self)
        ensures
            r.spec_visibility() == visibility,
            r.spec_reference() == reference,
    {
        WholeEthosWrappedField { visibility, reference }
    }

    /// Wrapped-field visibility.
    pub fn visibility(&self) -> (r: &WholeEthosVisibility)
        ensures
            *r == self.spec_visibility(),
    {
        &self.visibility
    }

    /// Complete lookup-resolved type identity.
    pub fn reference(&self) -> (r: &WholeEthosTypeReference)
        ensures
            *r == self.spec_reference(),
    {
        &self.reference
    }
}

/// A newtype declaration.
#[derive(Debug, PartialEq, Eq)]
pub struct WholeEthosNewtype {
    name: EncodedName,
    visibility: WholeEthosVisibility,
    attributes: WholeEthosAttributes,
    wrapped_field: WholeEthosWrappedField,
}

impl WholeEthosNewtype {
    pub closed spec fn spec_name(&self) -> EncodedName {
        self.name
    }

    pub closed spec fn spec_visibility(&self) -> WholeEthosVisibility {
        self.visibility
    }

    pub closed spec fn spec_wrapped_field(&self) -> WholeEthosWrappedField {
        self.wrapped_field
    }

    /// Construct one newtype.
    pub fn new(
        name: EncodedName,
        visibility: WholeEthosVisibility,
        attributes: WholeEthosAttributes,
        wrapped_field: WholeEthosWrappedField,
    ) -> (r: Self)
        ensures
            r.spec_name() == name,
            r.spec_visibility() == visibility,
            r.spec_wrapped_field() == wrapped_field,
    {
        WholeEthosNewtype { name, visibility, attributes, wrapped_field }
    }

    /// Caller-issued declaration identity.
    pub fn name(&self) -> (r: &EncodedName)
        ensures
            *r == self.spec_name(),
    {
        &self.name
    }

    /// Item visibility.
    pub fn visibility(&self) -> (r: &WholeEthosVisibility)
        ensures
            *r == self.spec_visibility(),
    {
        &self.visibility
    }

    /// Typed attribute sequence, currently empty.
    pub fn attributes(&self) -> (r: &WholeEthosAttributes)
        ensures
            *r == WholeEthosAttributes,
    {
        &self.attributes
    }

    /// Wrapped field.
    pub fn wrapped_field(&self) -> (r: &WholeEthosWrappedField)
        ensures
            *r == self.spec_wrapped_field(),
    {
        &self.wrapped_field
    }
}

/// One positional struct declaration.
#[derive(Debug, PartialEq, Eq)]
pub struct WholeEthosStruct {
    name: EncodedName,
    fields: Vec<WholeEthosTypeReference>,
}

impl WholeEthosStruct {
    pub closed spec fn spec_name(&self) -> EncodedName {
        self.name
    }

    pub closed spec fn spec_fields(&self) -> Seq<WholeEthosTypeReference> {
        self.fields@
    }

    /// Construct a positional product; an empty product is refused.
    pub fn new(name: EncodedName, fields: Vec<WholeEthosTypeReference>) -> (r: Result<
        Self,
        EmptyStructFields,
    >)
        ensures
            r is Err <==> fields@.len() == 0,
            r matches Ok(s) ==> s.spec_name() == name && s.spec_fields() == fields@,
    {
        if fields.len() == 0 {
            return Err(EmptyStructFields);
        }
        Ok(WholeEthosStruct { name, fields })
    }

    /// Declaration identity.
    pub fn name(&self) -> (r: &EncodedName)
        ensures
            *r == self.spec_name(),
    {
        &self.name
    }

    /// Positional field types.
    pub fn fields(&self) -> (r: &[WholeEthosTypeReference])
        ensures
            r@ == self.spec_fields(),
    {
        self.fields.as_slice()
    }
}

/// One enumeration declaration.
#[derive(Debug, PartialEq, Eq)]
pub struct WholeEthosEnumeration {
    name: EncodedName,
    visibility: WholeEthosVisibility,
    attributes: WholeEthosAttributes,
    variants: Vec<WholeEthosVariant>,
}

impl WholeEthosEnumeration {
    pub closed spec fn spec_name(&self) -> EncodedName {
        self.name
    }

    pub closed spec fn spec_visibility(&self) -> WholeEthosVisibility {
        self.visibility
    }

    pub closed spec fn spec_variants(&self) -> Seq<WholeEthosVariant> {
        self.variants@
    }

    /// Construct an attribute-free enumeration.
    pub fn new(
        name: EncodedName,
        visibility: WholeEthosVisibility,
        attributes: WholeEthosAttributes,
        variants: Vec<WholeEthosVariant>,
    ) -> (r: Result<Self, EmptyEnumerationVariants>)
        ensures
            r is Err <==> variants@.len() == 0,
            r matches Ok(e) ==> e.spec_name() == name && e.spec_visibility() == visibility
                && e.spec_variants() == variants@,
    {
        if variants.len() == 0 {
            return Err(EmptyEnumerationVariants);
        }
        Ok(WholeEthosEnumeration { name, visibility, attributes, variants })
    }

    /// Declaration identity.
    pub fn name(&self) -> (r: &EncodedName)
        ensures
            *r == self.spec_name(),
    {
        &self.name
    }

    /// Item visibility.
    pub fn visibility(&self) -> (r: &WholeEthosVisibility)
        ensures
            *r == self.spec_visibility(),
    {
        &self.visibility
    }

    /// Typed empty attribute sequence.
    pub fn attributes(&self) -> (r: &WholeEthosAttributes)
        ensures
            *r == WholeEthosAttributes,
    {
        &self.attributes
    }

    /// Variants in authored order.
    pub fn variants(&self) -> (r: &[WholeEthosVariant])
        ensures
            r@ == self.spec_variants(),
    {
        self.variants.as_slice()
    }
}

/// One enumeration variant.
#[derive(Debug, PartialEq, Eq)]
pub struct WholeEthosVariant {
    name: EncodedName,
    attributes: WholeEthosAttributes,
    payload: WholeEthosVariantPayload,
}

impl WholeEthosVariant {
    pub closed spec fn spec_name(&self) -> EncodedName {
        self.name
    }

    pub closed spec fn spec_payload(&self) -> WholeEthosVariantPayload {
        self.payload
    }

    /// Construct one variant.
    pub fn new(
        name: EncodedName,
        attributes: WholeEthosAttributes,
        payload: WholeEthosVariantPayload,
    ) -> (r: Self)
        ensures
            r.spec_name() == name,
            r.spec_payload() == payload,
    {
        WholeEthosVariant { name, attributes, payload }
    }

    /// Variant declaration identity.
    pub fn name(&self) -> (r: &EncodedName)
        ensures
            *r == self.spec_name(),
    {
        &self.name
    }

    /// Typed empty attribute sequence.
    pub fn attributes(&self) -> (r: &WholeEthosAttributes)
        ensures
            *r == WholeEthosAttributes,
    {
        &self.attributes
    }

    /// Unit or positional payload.
    pub fn payload(&self) -> (r: &WholeEthosVariantPayload)
        ensures
            *r == self.spec_payload(),
    {
        &self.payload
    }
}

/// Enumeration payload vocabulary.
#[derive(Debug, PartialEq, Eq)]
pub enum WholeEthosVariantPayload {
    /// Unit variant.
    Unit,
    /// One or more positional fields.
    Tuple(WholeEthosTupleFields),
}

/// Positional variant fields; never empty.
#[derive(Debug, PartialEq, Eq)]
pub struct WholeEthosTupleFields(Vec<WholeEthosTypeReference>);

impl WholeEthosTupleFields {
    #[verifier::type_invariant]
    spec fn holds_a_field(self) -> bool {
        self.0.len() > 0
    }

    pub closed spec fn spec_fields(&self) -> Seq<WholeEthosTypeReference> {
        self.0@
    }

    /// Construct a non-empty positional payload.
    pub fn new(fields: Vec<WholeEthosTypeReference>) -> (r: Result<Self, EmptyTupleFields>)
        ensures
            r is Err <==> fields@.len() == 0,
            r matches Ok(t) ==> t.spec_fields() == fields@,
    {
        if fields.len() == 0 {
            Err(EmptyTupleFields)
        } else {
            Ok(WholeEthosTupleFields(fields))
        }
    }

    /// Positional payload fields.
    pub fn fields(&self) -> (r: &[WholeEthosTypeReference])
        ensures
            r@ == self.spec_fields(),
            r@.len() > 0,
    {
        proof {
            use_type_invariant(self);
        }
        self.0.as_slice()
    }
}

/// Object-first operator application with an authored name and positional payload.
#[derive(Debug, PartialEq, Eq)]
pub struct WholeEthosOperatorApplication {
    operator: EncodedName,
    name: EncodedName,
    fields: Vec<WholeEthosTypeReference>,
}

impl WholeEthosOperatorApplication {
    pub closed spec fn spec_operator(&self) -> EncodedName {
        self.operator
    }

    pub closed spec fn spec_name(&self) -> EncodedName {
        self.name
    }

    pub closed spec fn spec_fields(&self) -> Seq<WholeEthosTypeReference> {
        self.fields@
    }

    /// Construct one syntactic application; it carries no semantics here.
    pub fn new(
        operator: EncodedName,
        name: EncodedName,
        fields: Vec<WholeEthosTypeReference>,
    ) -> (r: Result<Self, EmptyOperatorPayload>)
        ensures
            r is Err <==> fields@.len() == 0,
            r matches Ok(a) ==> a.spec_operator() == operator && a.spec_name() == name
                && a.spec_fields() == fields@,
    {
        if fields.len() == 0 {
            return Err(EmptyOperatorPayload);
        }
        Ok(WholeEthosOperatorApplication { operator, name, fields })
    }

    /// Resolved operator identity, such as Stream.
    pub fn operator(&self) -> (r: &EncodedName)
        ensures
            *r == self.spec_operator(),
    {
        &self.operator
    }

    /// Authored application name.
    pub fn name(&self) -> (r: &EncodedName)
        ensures
            *r == self.spec_name(),
    {
        &self.name
    }

    /// Positional application payload.
    pub fn fields(&self) -> (r: &[WholeEthosTypeReference])
        ensures
            r@ == self.spec_fields(),
    {
        self.fields.as_slice()
    }
}

/// Declaration alternatives admitted in an ordinary types position.
#[derive(Debug, PartialEq, Eq)]
pub enum WholeEthosItem {
    /// One newtype declaration.
    Newtype(WholeEthosNewtype),
    /// One enumeration declaration.
    Enumeration(WholeEthosEnumeration),
    /// One positional struct declaration.
    Struct(WholeEthosStruct),
    /// One object-first application, such as `Stream.Observer.{...}`.
    OperatorApplication(WholeEthosOperatorApplication),
}

/// One method signature; the receiver is implied by trait membership.
#[derive(Debug, PartialEq, Eq)]
pub struct WholeEthosMethod {
    name: EncodedName,
    parameters: Vec<WholeEthosTypeReference>,
    return_type: WholeEthosTypeReference,
}

impl WholeEthosMethod {
    pub closed spec fn spec_name(&self) -> EncodedName {
        self.name
    }

    pub closed spec fn spec_parameters(&self) -> Seq<WholeEthosTypeReference> {
        self.parameters@
    }

    pub closed spec fn spec_return_type(&self) -> WholeEthosTypeReference {
        self.return_type
    }

    /// Construct a signature from positional parameters and an explicit return type.
    pub fn new(
        name: EncodedName,
        parameters: Vec<WholeEthosTypeReference>,
        return_type: WholeEthosTypeReference,
    ) -> (r: Self)
        ensures
            r.spec_name() == name,
            r.spec_parameters() == parameters@,
            r.spec_return_type() == return_type,
    {
        WholeEthosMethod { name, parameters, return_type }
    }

    /// Method declaration identity.
    pub fn name(&self) -> (r: &EncodedName)
        ensures
            *r == self.spec_name(),
    {
        &self.name
    }

    /// Positional parameter types.
    pub fn parameters(&self) -> (r: &[WholeEthosTypeReference])
        ensures
            r@ == self.spec_parameters(),
    {
        self.parameters.as_slice()
    }

    /// Explicit last-position return type, including Unit.
    pub fn return_type(&self) -> (r: &WholeEthosTypeReference)
        ensures
            *r == self.spec_return_type(),
    {
        &self.return_type
    }
}

/// One behavior trait declaration.
#[derive(Debug, PartialEq, Eq)]
pub struct WholeEthosTrait {
    name: EncodedName,
    methods: Vec<WholeEthosMethod>,
}

impl WholeEthosTrait {
    pub closed spec fn spec_name(&self) -> EncodedName {
        self.name
    }

    pub closed spec fn spec_methods(&self) -> Seq<WholeEthosMethod> {
        self.methods@
    }

    /// Construct a trait with its methods.
    pub fn new(name: EncodedName, methods: Vec<WholeEthosMethod>) -> (r: Result<Self, EmptyTraitMethods>)
        ensures
            r is Err <==> methods@.len() == 0,
            r matches Ok(t) ==> t.spec_name() == name && t.spec_methods() == methods@,
    {
        if methods.len() == 0 {
            return Err(EmptyTraitMethods);
        }
        Ok(WholeEthosTrait { name, methods })
    }

    /// Trait declaration identity.
    pub fn name(&self) -> (r: &EncodedName)
        ensures
            *r == self.spec_name(),
    {
        &self.name
    }

    /// Method signatures in authored order.
    pub fn methods(&self) -> (r: &[WholeEthosMethod])
        ensures
            r@ == self.spec_methods(),
    {
        self.methods.as_slice()
    }
}

/// One sema table declaration; the section supplies the table operator.
#[derive(Debug, PartialEq, Eq)]
pub struct WholeEthosTable {
    name: EncodedName,
    record: WholeEthosTypeReference,
    key: WholeEthosTypeReference,
}

impl WholeEthosTable {
    pub closed spec fn spec_name(&self) -> EncodedName {
        self.name
    }

    pub closed spec fn spec_record(&self) -> WholeEthosTypeReference {
        self.record
    }

    pub closed spec fn spec_key(&self) -> WholeEthosTypeReference {
        self.key
    }

    /// Construct `name.{Record Key}`.
    pub fn new(
        name: EncodedName,
        record: WholeEthosTypeReference,
        key: WholeEthosTypeReference,
    ) -> (r: Self)
        ensures
            r.spec_name() == name,
            r.spec_record() == record,
            r.spec_key() == key,
    {
        WholeEthosTable { name, record, key }
    }

    /// Table declaration identity.
    pub fn name(&self) -> (r: &EncodedName)
        ensures
            *r == self.spec_name(),
    {
        &self.name
    }

    /// Stored record type.
    pub fn record(&self) -> (r: &WholeEthosTypeReference)
        ensures
            *r == self.spec_record(),
    {
        &self.record
    }

    /// Key type.
    pub fn key(&self) -> (r: &WholeEthosTypeReference)
        ensures
            *r == self.spec_key(),
    {
        &self.key
    }
}

/// Interface body positions: inputs, outputs, refusals, shared types.
#[derive(Debug, PartialEq, Eq)]
pub struct WholeEthosInterfaceBody {
    inputs: Vec<WholeEthosNewtype>,
    outputs: Vec<WholeEthosNewtype>,
    refusals: Vec<WholeEthosStruct>,
    types: Vec<WholeEthosItem>,
}

impl WholeEthosInterfaceBody {
    pub closed spec fn spec_inputs(&self) -> Seq<WholeEthosNewtype> {
        self.inputs@
    }

    pub closed spec fn spec_outputs(&self) -> Seq<WholeEthosNewtype> {
        self.outputs@
    }

    pub closed spec fn spec_refusals(&self) -> Seq<WholeEthosStruct> {
        self.refusals@
    }

    pub closed spec fn spec_types(&self) -> Seq<WholeEthosItem> {
        self.types@
    }

    /// Construct the four positional interface roles.
    pub fn new(
        inputs: Vec<WholeEthosNewtype>,
        outputs: Vec<WholeEthosNewtype>,
        refusals: Vec<WholeEthosStruct>,
        types: Vec<WholeEthosItem>,
    ) -> (r: Self)
        ensures
            r.spec_inputs() == inputs@,
            r.spec_outputs() == outputs@,
            r.spec_refusals() == refusals@,
            r.spec_types() == types@,
    {
        WholeEthosInterfaceBody { inputs, outputs, refusals, types }
    }

    /// Types falling under the universal Input trait.
    pub fn inputs(&self) -> (r: &[WholeEthosNewtype])
        ensures
            r@ == self.spec_inputs(),
    {
        self.inputs.as_slice()
    }

    /// Types falling under the universal Output trait.
    pub fn outputs(&self) -> (r: &[WholeEthosNewtype])
        ensures
            r@ == self.spec_outputs(),
    {
        self.outputs.as_slice()
    }

    /// Public refusal products.
    pub fn refusals(&self) -> (r: &[WholeEthosStruct])
        ensures
            r@ == self.spec_refusals(),
    {
        self.refusals.as_slice()
    }

    /// Shared wire vocabulary.
    pub fn types(&self) -> (r: &[WholeEthosItem])
        ensures
            r@ == self.spec_types(),
    {
        self.types.as_slice()
    }
}

/// Nexus body positions: operand types and behavior traits.
#[derive(Debug, PartialEq, Eq)]
pub struct WholeEthosNexusBody {
    types: Vec<WholeEthosItem>,
    traits: Vec<WholeEthosTrait>,
}

impl WholeEthosNexusBody {
    pub closed spec fn spec_types(&self) -> Seq<WholeEthosItem> {
        self.types@
    }

    pub closed spec fn spec_traits(&self) -> Seq<WholeEthosTrait> {
        self.traits@
    }

    /// Construct the two positional nexus sections.
    pub fn new(types: Vec<WholeEthosItem>, traits: Vec<WholeEthosTrait>) -> (r: Self)
        ensures
            r.spec_types() == types@,
            r.spec_traits() == traits@,
    {
        WholeEthosNexusBody { types, traits }
    }

    /// Operand and decision vocabulary.
    pub fn types(&self) -> (r: &[WholeEthosItem])
        ensures
            r@ == self.spec_types(),
    {
        self.types.as_slice()
    }

    /// Behavior traits.
    pub fn traits(&self) -> (r: &[WholeEthosTrait])
        ensures
            r@ == self.spec_traits(),
    {
        self.traits.as_slice()
    }
}

/// Sema body positions: record types and tables.
#[derive(Debug, PartialEq, Eq)]
pub struct WholeEthosSemaBody {
    record_types: Vec<WholeEthosItem>,
    tables: Vec<WholeEthosTable>,
}

impl WholeEthosSemaBody {
    pub closed spec fn spec_record_types(&self) -> Seq<WholeEthosItem> {
        self.record_types@
    }

    pub closed spec fn spec_tables(&self) -> Seq<WholeEthosTable> {
        self.tables@
    }

    /// Construct private record types and tables.
    pub fn new(record_types: Vec<WholeEthosItem>, tables: Vec<WholeEthosTable>) -> (r: Self)
        ensures
            r.spec_record_types() == record_types@,
            r.spec_tables() == tables@,
    {
        WholeEthosSemaBody { record_types, tables }
    }

    /// Private record products.
    pub fn record_types(&self) -> (r: &[WholeEthosItem])
        ensures
            r@ == self.spec_record_types(),
    {
        self.record_types.as_slice()
    }

    /// `table.{Record Key}` declarations with the operator supplied by position.
    pub fn tables(&self) -> (r: &[WholeEthosTable])
        ensures
            r@ == self.spec_tables(),
    {
        self.tables.as_slice()
    }
}

/// One of the three specialized body roots.
#[derive(Debug, PartialEq, Eq)]
pub enum WholeEthosBody {
    /// Interface inputs, outputs, refusals, and shared types.
    Interface(WholeEthosInterfaceBody),
    /// Nexus operand types and traits.
    Nexus(WholeEthosNexusBody),
    /// Sema record types and tables.
    Sema(WholeEthosSemaBody),
}

/// The file kind that a body variant belongs to.
pub open spec fn whole_body_kind(body: WholeEthosBody) -> WholeEthosFileKind {
    match body {
        WholeEthosBody::Interface(_) => WholeEthosFileKind::Interface,
        WholeEthosBody::Nexus(_) => WholeEthosFileKind::Nexus,
        WholeEthosBody::Sema(_) => WholeEthosFileKind::Sema,
    }
}

impl WholeEthosBody {
    /// Kind selected by this body variant.
    pub fn kind(&self) -> (r: WholeEthosFileKind)
        ensures
            r == whole_body_kind(*self),
    {
        match self {
            WholeEthosBody::Interface(_) => WholeEthosFileKind::Interface,
            WholeEthosBody::Nexus(_) => WholeEthosFileKind::Nexus,
            WholeEthosBody::Sema(_) => WholeEthosFileKind::Sema,
        }
    }
}

/// Encoded Whole-Ethos document: header plus the selected body. Imports are
/// source-only and do not appear here.
#[derive(Debug, PartialEq, Eq)]
pub struct WholeEthos {
    header: WholeEthosHeader,
    body: WholeEthosBody,
}

impl WholeEthos {
    pub closed spec fn spec_header(&self) -> WholeEthosHeader {
        self.header
    }

    pub closed spec fn spec_body(&self) -> WholeEthosBody {
        self.body
    }

    /// Construct a typed document whose header names its body's kind.
    pub fn new(header: WholeEthosHeader, body: WholeEthosBody) -> (r: Result<
        Self,
        WholeEthosArchiveError,
    >)
        ensures
            header.spec_kind() == whole_body_kind(body) ==> (r matches Ok(d) && d.spec_header()
                == header && d.spec_body() == body),
            header.spec_kind() != whole_body_kind(body) ==> r == Err::<Self, WholeEthosArchiveError>(
                WholeEthosArchiveError::HeaderBodyKindMismatch {
                    header: header.spec_kind(),
                    body: whole_body_kind(body),
                },
            ),
    {
        let body_kind = body.kind();
        if header.kind() != body_kind {
            return Err(
                WholeEthosArchiveError::HeaderBodyKindMismatch { header: header.kind(), body: body_kind },
            );
        }
        Ok(WholeEthos { header, body })
    }

    /// Typed header.
    pub fn header(&self) -> (r: &WholeEthosHeader)
        ensures
            *r == self.spec_header(),
    {
        &self.header
    }

    /// Kind-selected body.
    pub fn body(&self) -> (r: &WholeEthosBody)
        ensures
            *r == self.spec_body(),
    {
        &self.body
    }
}


/// The semantic document capability: a typed header and its kind-selected body.
pub trait EthosDocument {
    /// Typed header.
    fn header(&self) -> &WholeEthosHeader;

    /// Kind-selected body.
    fn body(&self) -> &WholeEthosBody;
}

impl EthosDocument for WholeEthos {
    fn header(&self) -> &WholeEthosHeader {
        &self.header
    }

    fn body(&self) -> &WholeEthosBody {
        &self.body
    }
}

} // verus!
