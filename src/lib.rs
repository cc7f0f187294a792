//! Fuzzy dictionary matching: a frequency-weighted vocabulary, a bounded
//! Damerau–Levenshtein distance, and spelling correction over both.
use vstd::prelude::*;

pub mod automaton;
pub mod builder;
pub mod distance;
pub mod error;
pub mod frequency;
pub mod source;
pub mod speller;
pub mod text;

pub use crate::builder::SpellerBuilder;
pub use crate::distance::edit_distance;
pub use crate::error::BuildError;
pub use crate::frequency::WordFrequency;
pub use crate::speller::Speller;

verus! {

} // verus!
