//! Error taxonomy of the compiler: lexical errors carry the byte offset of
//! the offending construct; compile errors name the construct that failed.

use vstd::prelude::*;

verus! {

/// A lexical error. The payload is the byte offset, within the text handed
/// to [`crate::tokenizer::tokenize`], of the construct that failed: the
/// sigil or opening delimiter of a literal, or the unexpected byte itself.
/// For a construct inside a block or array the offset is absolute within
/// the outer text.
#[derive(Debug, Clone, Copy, PartialEq, Eq, Structural)]
pub enum LexError {
    /// A byte that starts no token.
    UnexpectedChar(usize),
    /// An empty or out-of-range hex or decimal numeral, or a byte literal
    /// whose two characters are not hex digits.
    BadNumber(usize),
    /// A variable address above 255.
    VarOutOfRange(usize),
    /// A float numeral with no digit or with more than one dot.
    BadFloat(usize),
    /// A ninth character in a string literal before its closing quote.
    StringOverflow(usize),
    /// A string literal with no closing quote.
    UnterminatedString(usize),
    /// Input ended inside a comment, a block, an array or a byte literal.
    UnexpectedEnd(usize),
    /// A bracket body that does not reduce to exactly eight byte literals.
    BadArray(usize),
}

/// A code-generation error. Name payloads are the identifier bytes.
#[derive(Debug, PartialEq, Eq)]
pub enum CompileError {
    /// An identifier in statement position that is no known mnemonic.
    UnknownMnemonic(Vec<u8>),
    /// A mnemonic whose operands are missing or of the wrong kind.
    BadOperand(Vec<u8>),
    /// A token that cannot stand in statement position.
    StrayToken,
    /// A jump to a label that has not been declared yet.
    UnknownLabel(Vec<u8>),
    /// A `call` to a routine that has not been registered.
    UnknownRoutine(Vec<u8>),
    /// Routine expansion nested deeper than the compiler's limit; in
    /// particular, a routine that invokes itself.
    RoutineRecursion,
    /// A float numeral or constant fold with no entry in the evaluation
    /// table handed to the compiler.
    UnresolvedFloat,
    /// Constant folding divided by zero.
    FoldDivideByZero,
    /// Constant folding overflowed the 64-bit signed range.
    FoldOverflow,
}

/// The mathematical image of a [`CompileError`]: the same shape over `Seq`.
pub ghost enum CErr {
    UnknownMnemonic(Seq<u8>),
    BadOperand(Seq<u8>),
    StrayToken,
    UnknownLabel(Seq<u8>),
    UnknownRoutine(Seq<u8>),
    RoutineRecursion,
    UnresolvedFloat,
    FoldDivideByZero,
    FoldOverflow,
}

impl View for CompileError {
    type V = CErr;

    open spec fn view(&self) -> CErr {
        match self {
            CompileError::UnknownMnemonic(m) => CErr::UnknownMnemonic(m@),
            CompileError::BadOperand(m) => CErr::BadOperand(m@),
            CompileError::StrayToken => CErr::StrayToken,
            CompileError::UnknownLabel(m) => CErr::UnknownLabel(m@),
            CompileError::UnknownRoutine(m) => CErr::UnknownRoutine(m@),
            CompileError::RoutineRecursion => CErr::RoutineRecursion,
            CompileError::UnresolvedFloat => CErr::UnresolvedFloat,
            CompileError::FoldDivideByZero => CErr::FoldDivideByZero,
            CompileError::FoldOverflow => CErr::FoldOverflow,
        }
    }
}

} // verus!
