use vstd::prelude::*;

use crate::span::Span;

verus! {

/// The punctuation marks the linter tells apart. Everything that is neither
/// bracket is `Other`.
#[derive(Clone, Copy, Debug, PartialEq, Eq, Structural)]
pub enum Punctuation {
    OpenSquare,
    CloseSquare,
    Other,
}

/// What a stretch of the source text is.
#[derive(Clone, Copy, Debug, PartialEq, Eq, Structural)]
pub enum TokenKind {
    Word,
    Punctuation(Punctuation),
    Whitespace,
    Newline,
    /// A region the parser refuses to analyse, such as a link target or a
    /// code span.
    Unlintable,
}

impl TokenKind {
    pub open spec fn spec_is_word(&self) -> bool {
        *self == TokenKind::Word
    }

    pub open spec fn spec_is_unlintable(&self) -> bool {
        *self == TokenKind::Unlintable
    }

    pub open spec fn spec_is_open_square(&self) -> bool {
        *self == TokenKind::Punctuation(Punctuation::OpenSquare)
    }

    pub open spec fn spec_is_close_square(&self) -> bool {
        *self == TokenKind::Punctuation(Punctuation::CloseSquare)
    }

    pub open spec fn spec_is_punctuation(&self) -> bool {
        *self is Punctuation
    }

    #[verifier::when_used_as_spec(spec_is_word)]
    pub fn is_word(&self) -> (b: bool)
        ensures
            b == self.spec_is_word(),
    {
        matches!(self, TokenKind::Word)
    }

    #[verifier::when_used_as_spec(spec_is_unlintable)]
    pub fn is_unlintable(&self) -> (b: bool)
        ensures
            b == self.spec_is_unlintable(),
    {
        matches!(self, TokenKind::Unlintable)
    }

    #[verifier::when_used_as_spec(spec_is_open_square)]
    pub fn is_open_square(&self) -> (b: bool)
        ensures
            b == self.spec_is_open_square(),
    {
        matches!(self, TokenKind::Punctuation(Punctuation::OpenSquare))
    }

    #[verifier::when_used_as_spec(spec_is_close_square)]
    pub fn is_close_square(&self) -> (b: bool)
        ensures
            b == self.spec_is_close_square(),
    {
        matches!(self, TokenKind::Punctuation(Punctuation::CloseSquare))
    }

    #[verifier::when_used_as_spec(spec_is_punctuation)]
    pub fn is_punctuation(&self) -> (b: bool)
        ensures
            b == self.spec_is_punctuation(),
    {
        matches!(self, TokenKind::Punctuation(_))
    }
}

/// A classified stretch of the source text.
#[derive(Clone, Copy, Debug, PartialEq, Eq, Structural)]
pub struct Token {
    pub span: Span,
    pub kind: TokenKind,
}

impl Token {
    pub fn new(span: Span, kind: TokenKind) -> (token: Token)
        ensures
            token.span == span,
            token.kind == kind,
    {
        Token { span, kind }
    }
}

} // verus!
