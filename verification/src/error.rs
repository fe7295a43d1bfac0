//! Errors reported by the pure functions.
use vstd::prelude::*;

verus! {

/// Why a pure function refused its arguments.
#[derive(PartialEq, Eq, Structural, Clone, Copy, Debug)]
pub enum EvalError {
    /// The argument is not a tuple.
    ExpectsTuple,
    /// The function takes one argument.
    TakesOneArgument,
    /// The function takes two arguments.
    TakesTwoArguments,
    /// The function takes three arguments.
    TakesThreeArguments,
    /// `ifnz` is shaped `(ifnz c then t)` or `(ifnz c then t else f)`.
    IfnzShape,
    /// An argument that must be a symbol is not one.
    ExpectsSymbol,
    /// `ifnz` misses its `then` keyword.
    ExpectedThen,
    /// `ifnz` misses its `else` keyword.
    ExpectedElse,
    /// `ifnz` has a zero condition and no else branch.
    NoElseBranch,
    /// The tuple is empty.
    EmptyTuple,
    /// The tuple has fewer than two elements.
    FewerThanTwoElements,
    /// The index is not a decimal number.
    InvalidIndex,
    /// The index is past the end of the tuple.
    IndexOutOfBounds,
    /// A collapsed symbol would be longer than 63 bytes.
    SymbolTooLong,
    /// The hexadecimal text does not decode.
    InvalidHex,
    /// The base64 text does not decode.
    InvalidBase64,
    /// The base64 text does not fit the output.
    Base64TooLong,
}

} // verus!
