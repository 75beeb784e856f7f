//! Token, error and lexer vocabulary shared by every lexer of the crate.

use vstd::prelude::*;

verus! {

/// A token kind that designates one of its variants as the end-of-input marker.
pub trait TokenType<InputType>: Sized {
    /// The end-of-input variant of this token kind.
    fn get_eoi() -> Self;
}

/// A lexer that reports where it stands in its input.
pub trait Lexer<InputType, TT> {
    /// The position the lexer's tracker holds.
    spec fn position(&self) -> nat;

    /// The current position of the lexer: the start index of the next token.
    fn get_pos(&self) -> (r: usize)
        ensures
            r == self.position(),
    ;
}

/// What a lexer reports for input that no rule accepts.
#[derive(Debug, Clone, PartialEq, Eq)]
pub enum LexingError<InputType> {
    UnexpectedInput { input: InputType, index: usize },
}

/// A token kind with its position.
#[derive(Debug, PartialEq, Eq)]
pub struct Token<TT> {
    /// The starting index and exclusive ending index of this token.
    pub span: (usize, usize),
    /// The kind of this token with its associated data.
    pub token_type: TT,
}

impl<TT: Clone> Clone for Token<TT> {
    fn clone(&self) -> (r: Self)
        ensures
            r.span == self.span,
    {
        Token { span: self.span, token_type: self.token_type.clone() }
    }
}

impl<TT> Token<TT> {
    /// Create a new token.
    pub fn new(span: (usize, usize), token_type: TT) -> (r: Self)
        ensures
            r.span == span,
            r.token_type == token_type,
    {
        Token { span, token_type }
    }

    /// The number of positions that the half-open span covers.
    pub fn get_length(&self) -> (r: usize)
        requires
            self.span.0 <= self.span.1,
        ensures
            r == self.span.1 - self.span.0,
    {
        self.span.1 - self.span.0
    }
}

} // verus!
