//! Tokens, their kinds and their positions in the text.

use vstd::prelude::*;

verus! {

/// A place in the text, counted from 1 in both directions.
#[derive(Clone, Copy, PartialEq, Eq, Structural, Debug)]
pub struct Position {
    pub column: u32,
    pub row: u32,
}

/// What a token is.
#[derive(Clone, Copy, PartialEq, Eq, Structural, Debug)]
pub enum TokenKind {
    IntLiteral(i32),
    AddOperator,
    SubOperator,
    MulOperator,
    DivOperator,
    ParenthesisOpen,
    ParenthesisClose,
    Unrecognized,
    EndOfInput,
}

/// A classified piece of the text: `lexem` is exactly what was consumed,
/// `start_position` is where its first character stands and `end_position`
/// is the place just behind its last character.
#[derive(PartialEq, Debug)]
pub struct Token {
    pub start_position: Position,
    pub end_position: Position,
    pub lexem: String,
    pub kind: TokenKind,
}

/// The mathematical value of a [`Token`]: the same fields, with the lexem as
/// a sequence of characters.
pub struct TokenView {
    pub start_position: Position,
    pub end_position: Position,
    pub lexem: Seq<char>,
    pub kind: TokenKind,
}

impl View for Token {
    type V = TokenView;

    open spec fn view(&self) -> TokenView {
        TokenView {
            start_position: self.start_position,
            end_position: self.end_position,
            lexem: self.lexem@,
            kind: self.kind,
        }
    }
}

impl Clone for Token {
    fn clone(&self) -> (copy: Self)
        ensures
            copy == *self,
    {
        Token {
            start_position: self.start_position,
            end_position: self.end_position,
            lexem: self.lexem.clone(),
            kind: self.kind,
        }
    }
}

} // verus!
