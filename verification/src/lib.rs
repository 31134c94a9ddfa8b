//! Bit-parallel approximate Jaro-Winkler scoring of short names.

pub mod alphabet;
pub mod bits;
pub mod dedup;
pub mod index;
pub mod kernel;
pub mod linker;
pub mod mask;
pub mod order;
pub mod output;
pub mod scorecard;

pub use linker::{pseudo_jaro_winkler, InputError, Linker};
pub use output::Match;
pub use scorecard::{CandidateScore, Score};
