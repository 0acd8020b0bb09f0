//! From one line of text to its value.

use crate::lexer::laws::lemma_number_is_one_literal;
use crate::lexer::rules::{decimal, origin, tokens, well_formed_number};
use crate::lexer::token::TokenKind;
use crate::lexer::Lexer;
use crate::parser::grammar::{kind_at, parsed, parsed_expression, parsed_factor, parsed_term};
use crate::parser::syntax_tree::{
    ArithmeticFault, ExpressionNode, FactorNode, InvalidExpressionNode, InvalidExpressionView,
    TermNode,
};
use crate::parser::Parser;
use vstd::prelude::*;

verus! {

/// Why a line has no value.
#[derive(PartialEq, Debug)]
pub enum LineError {
    /// The line is no expression.
    Invalid(InvalidExpressionNode),
    /// The line is an expression, and computing it went wrong.
    Fault(ArithmeticFault),
}

/// The mathematical value of a [`LineError`].
pub enum LineErrorView {
    Invalid(InvalidExpressionView),
    Fault(ArithmeticFault),
}

impl View for LineError {
    type V = LineErrorView;

    open spec fn view(&self) -> LineErrorView {
        match self {
            LineError::Invalid(error) => LineErrorView::Invalid(error@),
            LineError::Fault(fault) => LineErrorView::Fault(*fault),
        }
    }
}

impl LineErrorView {
    /// The error in words.
    pub open spec fn description(self) -> Seq<char> {
        match self {
            LineErrorView::Invalid(error) => error.description(),
            LineErrorView::Fault(fault) => fault.description(),
        }
    }
}

impl LineError {
    /// The error in words.
    pub fn describe(&self) -> (text: String)
        ensures
            text@ == self@.description(),
    {
        match self {
            LineError::Invalid(error) => error.describe(),
            LineError::Fault(fault) => fault.describe(),
        }
    }
}

/// What a line of text comes to: the value of the expression that its
/// tokens form, or the first violation of the grammar, or the first fault
/// of the arithmetic.
pub open spec fn line_value(text: Seq<char>) -> Result<i32, LineErrorView> {
    match parsed(tokens(text, origin())).outcome {
        Ok(expression) => match expression.value() {
            Ok(value) => Ok(value),
            Err(fault) => Err(LineErrorView::Fault(fault)),
        },
        Err(error) => Err(LineErrorView::Invalid(error)),
    }
}

/// Reads `text` as an expression and computes it. Positions are counted in
/// `u32`, so the text has to be shorter than `u32::MAX` characters.
pub fn evaluate_line(text: &str) -> (result: Result<i32, LineError>)
    requires
        text@.len() < u32::MAX,
    ensures
        match result {
            Ok(value) => line_value(text@) == Ok::<i32, LineErrorView>(value),
            Err(error) => line_value(text@) == Err::<i32, LineErrorView>(error@),
        },
{
    let lexer = Lexer::from_str(text);
    let mut parser = Parser::from_tokens(lexer.into_tokens());
    match parser.parse() {
        Ok(expression) => match expression.checked_evaluate() {
            Ok(value) => Ok(value),
            Err(fault) => Err(LineError::Fault(fault)),
        },
        Err(error) => Err(LineError::Invalid(error)),
    }
}

/// A line that is one well-formed number comes to that number.
pub proof fn lemma_number_line(text: Seq<char>)
    requires
        well_formed_number(text),
    ensures
        line_value(text) == Ok::<i32, LineErrorView>(decimal(text) as i32),
{
    lemma_number_is_one_literal(text);
    let found = tokens(text, origin());
    let value = decimal(text) as i32;
    assert(found[0].kind == TokenKind::IntLiteral(value));
    assert(kind_at(found, 0) == Some(TokenKind::IntLiteral(value)));
    assert(parsed_factor(found).outcome == Ok::<FactorNode, InvalidExpressionView>(
        FactorNode::LiteralNode(value),
    ));
    assert(parsed_term(found).consumed == 1);
    assert(parsed_expression(found).consumed == 1);
    let tree = ExpressionNode::SingleTermNode(
        TermNode::SingleFactorNode(FactorNode::LiteralNode(value)),
    );
    assert(parsed(found).outcome == Ok::<ExpressionNode, InvalidExpressionView>(tree));
    let factor = FactorNode::LiteralNode(value);
    assert(factor.value() == Ok::<i32, ArithmeticFault>(value));
    assert(TermNode::SingleFactorNode(factor).value() == factor.value());
    assert(tree.value() == TermNode::SingleFactorNode(factor).value());
}

} // verus!
