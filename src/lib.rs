//! A propositional rule engine: rules compile to truth tables, and queries are
//! answered by backward chaining over those tables against a set of facts.

pub mod input;
pub mod permutation;
pub mod resolver;
pub mod rule_map;
pub mod rule_parser;
pub mod sanitize;
pub mod syntax;
pub mod truth_table;
mod text;

use vstd::prelude::*;

verus! {

/// A propositional variable is one of the letters `A` to `Z`.
pub open spec fn is_variable(c: char) -> bool {
    'A' <= c && c <= 'Z'
}

/// Tells whether `c` names a propositional variable.
pub fn is_identifier(c: char) -> (r: bool)
    ensures
        r == is_variable(c),
{
    'A' <= c && c <= 'Z'
}

} // verus!
