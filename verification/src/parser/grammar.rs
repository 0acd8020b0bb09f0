//! The grammar, stated over sequences of tokens:
//!
//! ```text
//! expression := term ( ('+' | '-') expression )?
//! term       := factor ( ('*' | '/') term )?
//! factor     := IntLiteral | '(' expression ')'
//! ```
//!
//! The right-hand side of an operator is the same rule again, so a chain of
//! operators of one level groups from the right.

use super::syntax_tree::{ExpressionNode, FactorNode, InvalidExpressionView, TermNode};
use crate::lexer::token::{TokenKind, TokenView};
use vstd::prelude::*;

verus! {

/// What a rule makes of the tokens in front of it: the node or the
/// violation, and how many tokens it has taken.
pub struct Parsed<T> {
    pub outcome: Result<T, InvalidExpressionView>,
    pub consumed: nat,
}

/// The kind of the token at `at`, if there is one.
pub open spec fn kind_at(tokens: Seq<TokenView>, at: nat) -> Option<TokenKind> {
    if at < tokens.len() {
        Some(tokens[at as int].kind)
    } else {
        None
    }
}

/// The token at `at`, if there is one.
pub open spec fn token_at(tokens: Seq<TokenView>, at: nat) -> Option<TokenView> {
    if at < tokens.len() {
        Some(tokens[at as int])
    } else {
        None
    }
}

/// A violation at `at`: `expected` was due, and the token there, or the
/// end, was found.
pub open spec fn violation(tokens: Seq<TokenView>, at: nat, expected: TokenKind)
    -> InvalidExpressionView {
    InvalidExpressionView { expected, got: token_at(tokens, at) }
}

/// `at`, or the place behind it where a token stands there.
pub open spec fn past(tokens: Seq<TokenView>, at: nat) -> nat {
    if at < tokens.len() {
        at + 1
    } else {
        at
    }
}

/// The factor rule. It takes one token: a literal is a factor; an opening
/// parenthesis is followed by an expression and a closing parenthesis, which
/// is taken too, as is any token found in its place. Anything else, or the
/// end, is a violation where a literal was expected.
pub open spec fn parsed_factor(tokens: Seq<TokenView>) -> Parsed<FactorNode>
    decreases tokens.len(), 0int,
{
    match kind_at(tokens, 0) {
        Some(TokenKind::IntLiteral(value)) => Parsed {
            outcome: Ok(FactorNode::LiteralNode(value)),
            consumed: 1,
        },
        Some(TokenKind::ParenthesisOpen) => {
            let inner = parsed_expression(tokens.skip(1));
            let at = 1 + inner.consumed;
            match inner.outcome {
                Ok(expression) => if kind_at(tokens, at) == Some(TokenKind::ParenthesisClose) {
                    Parsed {
                        outcome: Ok(FactorNode::ExpressionNode(Box::new(expression))),
                        consumed: at + 1,
                    }
                } else {
                    Parsed {
                        outcome: Err(violation(tokens, at, TokenKind::ParenthesisClose)),
                        consumed: past(tokens, at),
                    }
                },
                Err(error) => Parsed { outcome: Err(error), consumed: at },
            }
        },
        _ => Parsed {
            outcome: Err(violation(tokens, 0, TokenKind::IntLiteral(0))),
            consumed: past(tokens, 0),
        },
    }
}

/// The term rule: a factor, and behind `*` or `/`, which is taken, a term.
/// The factor alone is the term where `+`, `-`, a closing parenthesis or the
/// end follows; these are left in place. Any other token is a violation
/// where `*` was expected, and is left in place too.
pub open spec fn parsed_term(tokens: Seq<TokenView>) -> Parsed<TermNode>
    decreases tokens.len(), 1int,
{
    let first = parsed_factor(tokens);
    let at = first.consumed;
    match first.outcome {
        Ok(left) => match kind_at(tokens, at) {
            Some(TokenKind::MulOperator) => {
                let rest = parsed_term(tokens.skip(at as int + 1));
                Parsed {
                    outcome: match rest.outcome {
                        Ok(right) => Ok(
                            TermNode::MultiplicationFactorNode { left, right: Box::new(right) },
                        ),
                        Err(error) => Err(error),
                    },
                    consumed: at + 1 + rest.consumed,
                }
            },
            Some(TokenKind::DivOperator) => {
                let rest = parsed_term(tokens.skip(at as int + 1));
                Parsed {
                    outcome: match rest.outcome {
                        Ok(right) => Ok(
                            TermNode::DivisionFactorNode { left, right: Box::new(right) },
                        ),
                        Err(error) => Err(error),
                    },
                    consumed: at + 1 + rest.consumed,
                }
            },
            Some(TokenKind::AddOperator)
            | Some(TokenKind::SubOperator)
            | Some(TokenKind::ParenthesisClose)
            | None => Parsed { outcome: Ok(TermNode::SingleFactorNode(left)), consumed: at },
            _ => Parsed {
                outcome: Err(violation(tokens, at, TokenKind::MulOperator)),
                consumed: at,
            },
        },
        Err(error) => Parsed { outcome: Err(error), consumed: at },
    }
}

/// The expression rule: a term, and behind `+` or `-`, which is taken, an
/// expression. The term alone is the expression at the end and in front of
/// a closing parenthesis, which is left in place. Any other token is taken
/// and is a violation where `+` was expected.
pub open spec fn parsed_expression(tokens: Seq<TokenView>) -> Parsed<ExpressionNode>
    decreases tokens.len(), 2int,
{
    let first = parsed_term(tokens);
    let at = first.consumed;
    match first.outcome {
        Ok(left) => match kind_at(tokens, at) {
            Some(TokenKind::AddOperator) => {
                let rest = parsed_expression(tokens.skip(at as int + 1));
                Parsed {
                    outcome: match rest.outcome {
                        Ok(right) => Ok(
                            ExpressionNode::AdditionTermNode { left, right: Box::new(right) },
                        ),
                        Err(error) => Err(error),
                    },
                    consumed: at + 1 + rest.consumed,
                }
            },
            Some(TokenKind::SubOperator) => {
                let rest = parsed_expression(tokens.skip(at as int + 1));
                Parsed {
                    outcome: match rest.outcome {
                        Ok(right) => Ok(
                            ExpressionNode::SubstractionTermNode { left, right: Box::new(right) },
                        ),
                        Err(error) => Err(error),
                    },
                    consumed: at + 1 + rest.consumed,
                }
            },
            Some(TokenKind::ParenthesisClose) | None => Parsed {
                outcome: Ok(ExpressionNode::SingleTermNode(left)),
                consumed: at,
            },
            _ => Parsed {
                outcome: Err(violation(tokens, at, TokenKind::AddOperator)),
                consumed: at + 1,
            },
        },
        Err(error) => Parsed { outcome: Err(error), consumed: at },
    }
}

/// A whole text: an expression with nothing behind it. A token that is left
/// over is a violation where the end was expected, and stays in place.
pub open spec fn parsed(tokens: Seq<TokenView>) -> Parsed<ExpressionNode> {
    let whole = parsed_expression(tokens);
    match whole.outcome {
        Ok(expression) => if whole.consumed < tokens.len() {
            Parsed {
                outcome: Err(violation(tokens, whole.consumed, TokenKind::EndOfInput)),
                consumed: whole.consumed,
            }
        } else {
            whole
        },
        Err(_) => whole,
    }
}

/// The factor rule takes tokens that are there, and at least one where it
/// succeeds.
pub proof fn lemma_factor_consumed(tokens: Seq<TokenView>)
    ensures
        parsed_factor(tokens).consumed <= tokens.len(),
        parsed_factor(tokens).outcome is Ok ==> parsed_factor(tokens).consumed >= 1,
    decreases tokens.len(), 0int,
{
    if kind_at(tokens, 0) == Some(TokenKind::ParenthesisOpen) {
        lemma_expression_consumed(tokens.skip(1));
    }
}

/// The term rule takes tokens that are there, and at least one where it
/// succeeds.
pub proof fn lemma_term_consumed(tokens: Seq<TokenView>)
    ensures
        parsed_term(tokens).consumed <= tokens.len(),
        parsed_term(tokens).outcome is Ok ==> parsed_term(tokens).consumed >= 1,
    decreases tokens.len(), 1int,
{
    lemma_factor_consumed(tokens);
    let first = parsed_factor(tokens);
    if first.outcome is Ok {
        let at = first.consumed;
        match kind_at(tokens, at) {
            Some(TokenKind::MulOperator) | Some(TokenKind::DivOperator) => {
                lemma_term_consumed(tokens.skip(at as int + 1));
            },
            _ => {},
        }
    }
}

/// The expression rule takes tokens that are there, and at least one where
/// it succeeds.
pub proof fn lemma_expression_consumed(tokens: Seq<TokenView>)
    ensures
        parsed_expression(tokens).consumed <= tokens.len(),
        parsed_expression(tokens).outcome is Ok ==> parsed_expression(tokens).consumed >= 1,
    decreases tokens.len(), 2int,
{
    lemma_term_consumed(tokens);
    let first = parsed_term(tokens);
    if first.outcome is Ok {
        let at = first.consumed;
        match kind_at(tokens, at) {
            Some(TokenKind::AddOperator) | Some(TokenKind::SubOperator) => {
                lemma_expression_consumed(tokens.skip(at as int + 1));
            },
            _ => {},
        }
    }
}

} // verus!
