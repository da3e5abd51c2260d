//! A dialogue blackboard: an in-memory store of named scalar values driven by
//! two tiny textual languages.  Mutation *actions* (`set`, `add`, `sub`) are
//! submitted as semicolon-separated commands; boolean *queries* combine binary
//! comparisons with `and`/`or`.  Malformed input never aborts processing: the
//! offending piece is skipped and a diagnostic is recorded.

pub mod board;
pub mod laws;
pub mod literal;
pub mod text;
pub mod value;
