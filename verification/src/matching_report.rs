//! Plain records of the matching report.
use vstd::prelude::*;

verus! {

/// A function as the report shows it.
#[derive(Debug, Clone)]
pub struct FunctionInfo {
    pub name: String,
    pub line: usize,
    pub size: usize,
    pub signature: String,
    /// The first line of its code.
    pub first_line: String,
}

/// What only one side of a pair has: strings with their context, constants
/// and API calls, as text.
#[derive(Debug, Clone)]
pub struct UniqueElements {
    pub strings: Vec<(String, String)>,
    pub constants: Vec<String>,
    pub api_calls: Vec<String>,
}

/// A pattern seen across matching decisions.
#[derive(Debug, Clone)]
pub struct Pattern {
    pub pattern_type: String,
    pub description: String,
    pub frequency: usize,
    pub examples: Vec<String>,
}

} // verus!
