//! Field roles of the delimited and signature rules, each with its stable
//! identifier.
use vstd::prelude::*;

verus! {

/// The root of a root-delimited repeated rule.
#[derive(Clone, Copy, Debug, PartialEq, Eq, Structural)]
pub struct DelimitedRoot;

impl DelimitedRoot {
    pub fn stable_id() -> (r: u16)
        ensures
            r == 1001,
    {
        1001
    }
}

/// The repeated items of a root-delimited rule.
#[derive(Clone, Copy, Debug, PartialEq, Eq, Structural)]
pub struct DelimitedItems;

impl DelimitedItems {
    pub fn stable_id() -> (r: u16)
        ensures
            r == 1002,
    {
        1002
    }
}

/// The first signature field of an application-delimited record.
#[derive(Clone, Copy, Debug, PartialEq, Eq, Structural)]
pub struct SignatureFirst;

impl SignatureFirst {
    pub fn stable_id() -> (r: u16)
        ensures
            r == 1003,
    {
        1003
    }
}

/// The second signature field.
#[derive(Clone, Copy, Debug, PartialEq, Eq, Structural)]
pub struct SignatureSecond;

impl SignatureSecond {
    pub fn stable_id() -> (r: u16)
        ensures
            r == 1004,
    {
        1004
    }
}

/// The third signature field.
#[derive(Clone, Copy, Debug, PartialEq, Eq, Structural)]
pub struct SignatureThird;

impl SignatureThird {
    pub fn stable_id() -> (r: u16)
        ensures
            r == 1005,
    {
        1005
    }
}

} // verus!
