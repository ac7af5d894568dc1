//! A permutation-parsing engine: applies a fixed collection of parsing rules
//! against an input in whatever order matches the data, either demanding that
//! every rule eventually succeed (strict mode) or tolerating rules that never
//! match (optional mode).

pub mod byte_rules;
pub mod permutation;
pub mod permutation_opt;
pub mod rule;

pub use byte_rules::ByteError;
pub use byte_rules::ByteKind;
pub use byte_rules::ByteRule;
pub use permutation::permutation;
pub use permutation::Permutation;
pub use permutation_opt::permutation_opt;
pub use permutation_opt::PermutationOpt;
pub use rule::Failure;
pub use rule::Outcome;
pub use rule::Rule;
pub use rule::RunError;
