//! Front end of a calculator: a lexer that turns a whitespace-free
//! arithmetic expression into typed lexemes, and a stack-based transformer
//! that reorders them into postfix (Reverse Polish) notation under a fixed
//! operator-priority table. Both stages are specified by spec functions
//! (`input::lex_spec`, `maths::convert_spec`) that their contracts tie the
//! executable code to, and `laws` proves the structural guarantees of the
//! transformation.

pub mod exceptions;
pub mod input;
pub mod laws;
pub mod maths;
