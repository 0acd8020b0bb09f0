//! Builds an expression tree from tokens by recursive descent.

pub mod grammar;
pub mod laws;
pub mod message;
pub mod syntax_tree;

use crate::lexer::source::CharactersSource;
use crate::lexer::token::{Token, TokenKind, TokenView};
use crate::lexer::TokenIterator;
use grammar::{
    kind_at, lemma_expression_consumed, lemma_factor_consumed, lemma_term_consumed, parsed,
    parsed_expression, parsed_factor, parsed_term, past, token_at,
};
use syntax_tree::{
    ExpressionNode, FactorNode, InvalidExpressionNode, InvalidExpressionView, TermNode,
};
use vstd::prelude::*;

verus! {

/// A result with its violation, if it holds one, as a mathematical value.
pub open spec fn reported<T>(result: Result<T, InvalidExpressionNode>) -> Result<
    T,
    InvalidExpressionView,
> {
    match result {
        Ok(node) => Ok(node),
        Err(error) => Err(error@),
    }
}

/// Looking `at` tokens ahead is looking at the front of what is left behind
/// them.
proof fn lemma_ahead(tokens: Seq<TokenView>, at: nat)
    requires
        at <= tokens.len(),
    ensures
        token_at(tokens.skip(at as int), 0) == token_at(tokens, at),
        kind_at(tokens.skip(at as int), 0) == kind_at(tokens, at),
        tokens.skip(at as int).skip(past(tokens.skip(at as int), 0) as int) == tokens.skip(
            past(tokens, at) as int,
        ),
        forall|more: nat|
            at + more <= tokens.len() ==> #[trigger] tokens.skip(at as int).skip(more as int)
                == tokens.skip(at as int + more as int),
{
    assert(tokens.skip(at as int).skip(0) == tokens.skip(at as int));
}

/// Reads an expression from a stream of tokens, looking one token ahead.
pub struct Parser<TSource: CharactersSource> {
    tokens: TokenIterator<TSource>,
    lookahead: Option<Token>,
}

impl<TSource: CharactersSource> Parser<TSource> {
    pub closed spec fn wf(&self) -> bool {
        self.tokens.wf()
    }

    /// The tokens that have not been taken yet.
    pub closed spec fn pending(&self) -> Seq<TokenView> {
        match self.lookahead {
            Some(token) => seq![token@] + self.tokens.upcoming(),
            None => self.tokens.upcoming(),
        }
    }

    /// A parser in front of the tokens of `tokens`.
    pub fn from_tokens(tokens: TokenIterator<TSource>) -> (parser: Self)
        requires
            tokens.wf(),
        ensures
            parser.wf(),
            parser.pending() == tokens.upcoming(),
    {
        Parser { tokens, lookahead: None }
    }

    /// Pulls the next token into the lookahead, unless one is there.
    fn fill(&mut self)
        requires
            old(self).wf(),
        ensures
            final(self).wf(),
            final(self).pending() == old(self).pending(),
            match final(self).lookahead {
                Some(token) => token_at(old(self).pending(), 0) == Some(token@),
                None => old(self).pending().len() == 0,
            },
    {
        if self.lookahead.is_none() {
            self.lookahead = self.tokens.next();
            proof {
                let before = old(self).tokens.upcoming();
                if before.len() > 0 {
                    assert(seq![before[0]] + before.skip(1) == before);
                }
            }
        }
    }

    /// The kind of the next token, which stays in place.
    fn peek_kind(&mut self) -> (kind: Option<TokenKind>)
        requires
            old(self).wf(),
        ensures
            final(self).wf(),
            final(self).pending() == old(self).pending(),
            kind == kind_at(old(self).pending(), 0),
    {
        self.fill();
        match &self.lookahead {
            Some(token) => Some(token.kind),
            None => None,
        }
    }

    /// A copy of the next token, which stays in place.
    fn peek_token(&mut self) -> (token: Option<Token>)
        requires
            old(self).wf(),
        ensures
            final(self).wf(),
            final(self).pending() == old(self).pending(),
            match token {
                Some(t) => token_at(old(self).pending(), 0) == Some(t@),
                None => token_at(old(self).pending(), 0) is None,
            },
    {
        self.fill();
        match &self.lookahead {
            Some(token) => Some(token.clone()),
            None => None,
        }
    }

    /// Takes the next token.
    fn advance(&mut self) -> (token: Option<Token>)
        requires
            old(self).wf(),
        ensures
            final(self).wf(),
            final(self).pending() == old(self).pending().skip(
                past(old(self).pending(), 0) as int,
            ),
            match token {
                Some(t) => token_at(old(self).pending(), 0) == Some(t@),
                None => token_at(old(self).pending(), 0) is None,
            },
    {
        self.fill();
        let token = self.lookahead.take();
        proof {
            let before = old(self).pending();
            if before.len() > 0 {
                assert((seq![before[0]] + self.tokens.upcoming()).skip(1)
                    == self.tokens.upcoming());
            } else {
                assert(before.skip(0) == before);
            }
        }
        token
    }

    /// Reads a whole text: an expression with nothing left behind it.
    pub fn parse(&mut self) -> (result: Result<ExpressionNode, InvalidExpressionNode>)
        requires
            old(self).wf(),
        ensures
            final(self).wf(),
            reported(result) == parsed(old(self).pending()).outcome,
            final(self).pending() == old(self).pending().skip(
                parsed(old(self).pending()).consumed as int,
            ),
    {
        let ghost tokens = self.pending();
        proof {
            lemma_expression_consumed(tokens);
            lemma_ahead(tokens, parsed_expression(tokens).consumed);
        }
        let result = self.match_expression()?;
        match self.peek_token() {
            None => Ok(result),
            Some(token) => Err(
                InvalidExpressionNode { expected: TokenKind::EndOfInput, got: Some(token) },
            ),
        }
    }

    /// Reads an expression: a term, and behind `+` or `-` an expression.
    pub fn match_expression(&mut self) -> (result: Result<
        ExpressionNode,
        InvalidExpressionNode,
    >)
        requires
            old(self).wf(),
        ensures
            final(self).wf(),
            reported(result) == parsed_expression(old(self).pending()).outcome,
            final(self).pending() == old(self).pending().skip(
                parsed_expression(old(self).pending()).consumed as int,
            ),
        decreases old(self).pending().len(), 2int,
    {
        let ghost tokens = self.pending();
        let ghost at = parsed_term(tokens).consumed;
        proof {
            lemma_term_consumed(tokens);
            lemma_ahead(tokens, at);
        }
        let left = self.match_term()?;
        match self.peek_kind() {
            Some(TokenKind::ParenthesisClose) | None => Ok(ExpressionNode::SingleTermNode(left)),
            _ => match self.advance() {
                Some(token) => match token.kind {
                    TokenKind::AddOperator => {
                        proof {
                            lemma_expression_consumed(tokens.skip(at as int + 1));
                        }
                        let right = self.match_expression()?;
                        Ok(ExpressionNode::AdditionTermNode { left, right: Box::new(right) })
                    },
                    TokenKind::SubOperator => {
                        proof {
                            lemma_expression_consumed(tokens.skip(at as int + 1));
                        }
                        let right = self.match_expression()?;
                        Ok(ExpressionNode::SubstractionTermNode { left, right: Box::new(right) })
                    },
                    _ => Err(
                        InvalidExpressionNode {
                            expected: TokenKind::AddOperator,
                            got: Some(token),
                        },
                    ),
                },
                None => Ok(ExpressionNode::SingleTermNode(left)),
            },
        }
    }

    /// Reads a term: a factor, and behind `*` or `/` a term.
    pub fn match_term(&mut self) -> (result: Result<TermNode, InvalidExpressionNode>)
        requires
            old(self).wf(),
        ensures
            final(self).wf(),
            reported(result) == parsed_term(old(self).pending()).outcome,
            final(self).pending() == old(self).pending().skip(
                parsed_term(old(self).pending()).consumed as int,
            ),
        decreases old(self).pending().len(), 1int,
    {
        let ghost tokens = self.pending();
        let ghost at = parsed_factor(tokens).consumed;
        proof {
            lemma_factor_consumed(tokens);
            lemma_ahead(tokens, at);
        }
        let left = self.match_factor()?;
        match self.peek_kind() {
            Some(TokenKind::MulOperator) => {
                self.advance();
                proof {
                    lemma_term_consumed(tokens.skip(at as int + 1));
                }
                let right = self.match_term()?;
                Ok(TermNode::MultiplicationFactorNode { left, right: Box::new(right) })
            },
            Some(TokenKind::DivOperator) => {
                self.advance();
                proof {
                    lemma_term_consumed(tokens.skip(at as int + 1));
                }
                let right = self.match_term()?;
                Ok(TermNode::DivisionFactorNode { left, right: Box::new(right) })
            },
            Some(TokenKind::AddOperator)
            | Some(TokenKind::SubOperator)
            | Some(TokenKind::ParenthesisClose)
            | None => Ok(TermNode::SingleFactorNode(left)),
            _ => Err(
                InvalidExpressionNode {
                    expected: TokenKind::MulOperator,
                    got: self.peek_token(),
                },
            ),
        }
    }

    /// Reads a factor: a literal, or an expression in parentheses.
    pub fn match_factor(&mut self) -> (result: Result<FactorNode, InvalidExpressionNode>)
        requires
            old(self).wf(),
        ensures
            final(self).wf(),
            reported(result) == parsed_factor(old(self).pending()).outcome,
            final(self).pending() == old(self).pending().skip(
                parsed_factor(old(self).pending()).consumed as int,
            ),
        decreases old(self).pending().len(), 0int,
    {
        let ghost tokens = self.pending();
        proof {
            lemma_ahead(tokens, 0);
        }
        match self.advance() {
            Some(token) => match token.kind {
                TokenKind::IntLiteral(value) => Ok(FactorNode::LiteralNode(value)),
                TokenKind::ParenthesisOpen => {
                    let ghost at = 1 + parsed_expression(tokens.skip(1)).consumed;
                    proof {
                        lemma_expression_consumed(tokens.skip(1));
                        lemma_ahead(tokens, 1);
                        lemma_ahead(tokens, at);
                    }
                    let exp = self.match_expression()?;
                    match self.advance() {
                        Some(Token { kind: TokenKind::ParenthesisClose, .. }) => Ok(
                            FactorNode::ExpressionNode(Box::new(exp)),
                        ),
                        token => Err(
                            InvalidExpressionNode {
                                expected: TokenKind::ParenthesisClose,
                                got: token,
                            },
                        ),
                    }
                },
                _ => Err(
                    InvalidExpressionNode {
                        expected: TokenKind::IntLiteral(0),
                        got: Some(token),
                    },
                ),
            },
            None => Err(InvalidExpressionNode { expected: TokenKind::IntLiteral(0), got: None }),
        }
    }
}

} // verus!
