//! The distance-classifying acceptor, backed by `levenshtein_automata`.
use vstd::prelude::*;
use crate::distance::osa_distance;
use levenshtein_automata::{LevenshteinAutomatonBuilder, DFA};

verus! {

/// The automaton factory of `levenshtein_automata`, carried opaquely.
#[verifier::external_type_specification]
#[verifier::external_body]
pub struct ExLevenshteinAutomatonBuilder(LevenshteinAutomatonBuilder);

/// The automaton of `levenshtein_automata`, carried opaquely.
#[verifier::external_type_specification]
#[verifier::external_body]
pub struct ExDfa(DFA);

/// The largest bound for which building the automaton tables is practical
/// (their size grows exponentially with the bound).
pub const MAX_AUTOMATON_DISTANCE: u8 = 5;

/// A factory of acceptors for one distance bound, with transpositions costing one.
pub struct AutomatonFactory {
    builder: LevenshteinAutomatonBuilder,
    max_distance: u8,
}

impl AutomatonFactory {
    pub closed spec fn bound(&self) -> nat {
        self.max_distance as nat
    }
}

/// Relies on `LevenshteinAutomatonBuilder::new(max_distance, true)`: the tables it
/// precomputes serve every automaton of that bound, with transpositions at cost one.
#[verifier::external_body]
pub fn new_factory(max_distance: u8) -> (r: AutomatonFactory)
    requires
        max_distance <= MAX_AUTOMATON_DISTANCE,
    ensures
        r.bound() == max_distance,
{
    AutomatonFactory { builder: LevenshteinAutomatonBuilder::new(max_distance, true), max_distance }
}

/// An automaton that classifies candidates by their distance from one query.
pub struct Acceptor {
    dfa: DFA,
    query: String,
    max_distance: u8,
}

impl Acceptor {
    pub closed spec fn query(&self) -> Seq<char> {
        self.query@
    }

    pub closed spec fn bound(&self) -> nat {
        self.max_distance as nat
    }
}

/// Relies on `LevenshteinAutomatonBuilder::build_dfa`: the automaton for `query`
/// under the factory's bound.
#[verifier::external_body]
pub fn build_acceptor(factory: &AutomatonFactory, query: String) -> (r: Acceptor)
    ensures
        r.query() == query@,
        r.bound() == factory.bound(),
{
    Acceptor { dfa: factory.builder.build_dfa(&query), query, max_distance: factory.max_distance }
}

/// Relies on `DFA::eval`: `Distance::Exact(d)` when the distance `d` between the
/// query and `word` is within the bound, `Distance::AtLeast(_)` otherwise; with
/// transpositions at cost one the automaton's distance is the optimal string
/// alignment distance.
#[verifier::external_body]
pub fn classify(acceptor: &Acceptor, word: &str) -> (r: Option<u8>)
    ensures
        match r {
            Some(d) => d == osa_distance(acceptor.query(), word@) && d <= acceptor.bound(),
            None => osa_distance(acceptor.query(), word@) > acceptor.bound(),
        },
{
    match acceptor.dfa.eval(word) {
        levenshtein_automata::Distance::Exact(d) => Some(d),
        levenshtein_automata::Distance::AtLeast(_) => None,
    }
}

} // verus!
