//! Bench case expectations.

use vstd::prelude::*;

verus! {

/// Criteria by which a provider reply is judged.
pub struct BenchExpectation {
    /// Fields that must be present in the parsed node, with an optional
    /// required value.
    pub required_fields: Vec<(String, Option<String>)>,
    /// Expected node type, such as `ticket`.
    pub expected_type: Option<String>,
    /// The reply must pass `agm validate` under standard enforcement.
    pub must_validate: bool,
    /// The reply must match the type's JSON Schema.
    pub must_match_schema: bool,
}

impl BenchExpectation {
    /// No requirement at all (the default of the on-disk format).
    pub fn new() -> (r: BenchExpectation)
        ensures
            r.required_fields@.len() == 0,
            r.expected_type is None,
            !r.must_validate,
            !r.must_match_schema,
    {
        BenchExpectation {
            required_fields: Vec::new(),
            expected_type: None,
            must_validate: false,
            must_match_schema: false,
        }
    }
}

} // verus!
