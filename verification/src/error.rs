//! Positions named by streaming-relation refusals.
use vstd::prelude::*;

verus! {

/// Which encoded reference in a streaming relation failed validation.
#[derive(Clone, Copy, Debug, PartialEq, Eq, Structural)]
pub enum StreamingRelationReference {
    Token,
    Event,
    CloseToken,
}

impl StreamingRelationReference {
    /// The reference's display spelling.
    pub fn as_str(self) -> (r: &'static str)
        ensures
            r@ == match self {
                StreamingRelationReference::Token => "token"@,
                StreamingRelationReference::Event => "event"@,
                StreamingRelationReference::CloseToken => "close-token"@,
            },
    {
        match self {
            StreamingRelationReference::Token => "token",
            StreamingRelationReference::Event => "event",
            StreamingRelationReference::CloseToken => "close-token",
        }
    }
}

/// The non-plain reference form rejected at a streaming value position.
#[derive(Clone, Copy, Debug, PartialEq, Eq, Structural)]
pub enum StreamingReferenceForm {
    Scalar,
    BytesLength,
    SingleTypeApplication,
    MultiTypeApplication,
}

impl StreamingReferenceForm {
    /// The form's display spelling.
    pub fn as_str(self) -> (r: &'static str)
        ensures
            r@ == match self {
                StreamingReferenceForm::Scalar => "scalar"@,
                StreamingReferenceForm::BytesLength => "Bytes length"@,
                StreamingReferenceForm::SingleTypeApplication => "single-type generic application"@,
                StreamingReferenceForm::MultiTypeApplication => "multi-type generic application"@,
            },
    {
        match self {
            StreamingReferenceForm::Scalar => "scalar",
            StreamingReferenceForm::BytesLength => "Bytes length",
            StreamingReferenceForm::SingleTypeApplication => "single-type generic application",
            StreamingReferenceForm::MultiTypeApplication => "multi-type generic application",
        }
    }
}

} // verus!
