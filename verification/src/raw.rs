//! A validated JSON value borrowed directly from the input buffer.
use vstd::prelude::*;

verus! {

/// A validated JSON value borrowed directly from the input buffer.
///
/// `RawJson` is useful for protocol envelopes that need to inspect a few
/// fields while deferring or avoiding deserialization of a large payload.
/// Capturing it performs no allocation and preserves the exact compact or
/// pretty representation from the input.
#[derive(Clone, Copy, Debug, PartialEq, Eq)]
pub struct RawJson<'a> {
    json: &'a str,
}

impl<'a> RawJson<'a> {
    /// The captured text.
    pub closed spec fn spec_json(&self) -> &'a str {
        self.json
    }

    /// Wraps text that the parser has validated as one JSON value.
    pub fn new(json: &'a str) -> (raw: Self)
        ensures
            raw.spec_json() == json,
    {
        RawJson { json }
    }

    /// Returns the original JSON representation of this value.
    pub fn get(self) -> (json: &'a str)
        ensures
            json == self.spec_json(),
    {
        self.json
    }
}

} // verus!
