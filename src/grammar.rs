use vstd::prelude::*;
use earley::Grammar;

verus! {

/// earley's grammar, carried opaque: only the name of its start rule is read.
#[verifier::external_type_specification]
#[verifier::external_body]
#[verifier::reject_recursive_types(T)]
pub struct ExGrammar<T>(Grammar<T>);

/// Relies on earley's `Grammar::get_starting_rule_name`, which hands back the
/// name of the grammar's start rule (the left-hand side of its first production).
#[verifier::external_body]
pub(crate) fn starting_rule_name<T>(grammar: &Grammar<T>) -> (name: String) {
    grammar.get_starting_rule_name().to_string()
}

} // verus!
