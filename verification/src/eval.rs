//! Evaluation of an input string against a parsed grammar.
//!
//! Evaluation is stubbed: the functions exist so that callers can be
//! written against them, but nothing is computed yet.

use vstd::prelude::*;

use crate::grammar::Grammar;
use crate::grammar::Rule;

verus! {

/// Evaluates an alternation's list of sequences against `val`.
/// Stubbed: does nothing yet.
#[allow(unused_variables)]
pub fn eval_orrule(rule_list: &Vec<Rule>, val: &str, grammar: &Grammar) {
}

/// Evaluates the rule named `rule_name` against `val`.  The name must
/// be bound in the grammar, whose well-formedness guarantees the rule
/// is an alternation.  Stubbed: nothing is computed yet.
pub fn eval_rule(rule_name: &str, val: &str, grammar: &Grammar)
    requires
        grammar.wf(),
        grammar.model().contains_key(rule_name@),
{
    match grammar.get(rule_name) {
        Some(r) => match r {
            Rule::ROr(rule_list) => eval_orrule(rule_list, val, grammar),
            _ => {},
        },
        None => {},
    }
}

} // verus!
