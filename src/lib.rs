//! Regular-expression parsing, subset construction and DFA minimization
//! for table-driven lexical analyzers.

pub mod regex;
pub mod bits;
pub mod fa;
pub mod dfa;
