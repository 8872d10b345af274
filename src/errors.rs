use vstd::prelude::*;

verus! {

/// Why no scope could be located in a program text.
#[derive(Debug, Clone, PartialEq, Eq)]
pub enum FindingScopeError {
    FoundEndingBraceBeforeStartingBrace,
    NoEndingBrace,
    MalformedOrMissingInput(String),
    MalformedOrMissingPattern(String),
    MalformedOrMissingOutput(String),
    ArmsNotSeparatedBySemicolon(String),
}

/// Misuse of the token arena: an index outside it, an empty insertion,
/// or a removal that runs past the end of the list.
#[derive(Debug, Clone, Copy, PartialEq, Eq, Structural)]
pub enum LinkedTokensError {
    InsertionInvalidIndex,
    InsertionEmptyTokens,
    RemovalInvalidIndex,
    RemovalRangeTooBig,
}

/// Why a program text could not be split into tokens.
#[derive(Debug, Clone, Copy, PartialEq, Eq, Structural)]
pub enum ParseError {
    InvalidFunctionNameCharacter(char),
    InvalidRegisterIndexCharacter(char),
    IndexMissingInRegisterCall,
    RegisterIndexTooLarge,
    ExpectedScopeStartAfterFunctionDefinition,
    InputEndedUnexpectedly,
}

} // verus!
