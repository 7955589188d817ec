//! Letter-set puzzle solver: a prefix-tree word index, the constraints of one
//! search request, and the backtracking search that enumerates every indexed
//! word meeting them.

pub mod client;
pub mod config;
pub mod constraints;
pub mod dictionary;
pub mod error;
pub mod format;
pub mod match_set;
pub mod search;
pub mod solver;
pub mod standalone;
pub mod text;
pub mod validator;

pub use client::DictionaryClient;
pub use config::{Config, DictionaryConfig};
pub use constraints::ConstraintSet;
pub use dictionary::{Dictionary, TrieNode};
pub use error::SbsError;
pub use match_set::MatchSet;
pub use solver::Solver;
pub use validator::{ValidationSummary, ValidatorKind, WordEntry};
