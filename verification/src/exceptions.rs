use vstd::prelude::*;

verus! {

/// Every way the expression pipeline can fail, as one closed enumeration.
///
/// The lexer reports `InvalidCharacter` and `MalformedNumber`; the postfix
/// transformer reports `UnbalancedParentheses` and `EmptyInput`; `IOError`
/// is reserved for the surrounding program when acquiring the raw input
/// text fails, and is never produced by the library itself.
#[derive(Clone, Copy, Debug, PartialEq, Eq, Structural)]
pub enum Exception {
    InvalidCharacter,
    MalformedNumber,
    UnbalancedParentheses,
    EmptyInput,
    IOError,
}

} // verus!
