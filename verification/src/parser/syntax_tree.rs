//! The expression tree, its value, and the report of a failed parse.

use super::message::{decimal_text, kind_text, push_decimal, push_kind};
use crate::lexer::token::{Token, TokenKind, TokenView};
use vstd::prelude::*;
use vstd::string::StringExecFns;

verus! {

/// The first place where the tokens break the grammar: the kind that was
/// expected there, and the token that stood there, if any did.
#[derive(PartialEq, Debug)]
pub struct InvalidExpressionNode {
    pub expected: TokenKind,
    pub got: Option<Token>,
}

/// The mathematical value of an [`InvalidExpressionNode`].
pub struct InvalidExpressionView {
    pub expected: TokenKind,
    pub got: Option<TokenView>,
}

impl View for InvalidExpressionNode {
    type V = InvalidExpressionView;

    open spec fn view(&self) -> InvalidExpressionView {
        InvalidExpressionView {
            expected: self.expected,
            got: match self.got {
                Some(token) => Some(token@),
                None => None,
            },
        }
    }
}

impl InvalidExpressionView {
    /// The report in words: what was expected, and either the kind and the
    /// place of the token that stood there, or that the tokens ended.
    pub open spec fn description(self) -> Seq<char> {
        match self.got {
            Some(token) => "Expected "@ + kind_text(self.expected) + ", got: "@ + kind_text(
                token.kind,
            ) + " ("@ + decimal_text(token.start_position.row as nat) + ":"@ + decimal_text(
                token.start_position.column as nat,
            ) + ")."@,
            None => "Unexpected end of input \u{2014} expected "@ + kind_text(self.expected)
                + "."@,
        }
    }
}

impl InvalidExpressionNode {
    /// The report in words.
    pub fn describe(&self) -> (text: String)
        ensures
            text@ == self@.description(),
    {
        let mut text = String::new();
        match &self.got {
            Some(token) => {
                text.append("Expected ");
                push_kind(&mut text, self.expected);
                text.append(", got: ");
                push_kind(&mut text, token.kind);
                text.append(" (");
                push_decimal(&mut text, token.start_position.row);
                text.append(":");
                push_decimal(&mut text, token.start_position.column);
                text.append(").");
            },
            None => {
                text.append("Unexpected end of input \u{2014} expected ");
                push_kind(&mut text, self.expected);
                text.append(".");
            },
        }
        text
    }
}

/// Why an expression has no value.
#[derive(Clone, Copy, PartialEq, Eq, Structural, Debug)]
pub enum ArithmeticFault {
    /// A divisor was zero.
    DivisionByZero,
    /// A result did not fit in an `i32`.
    Overflow,
}

impl ArithmeticFault {
    /// The fault in words.
    pub open spec fn description(self) -> Seq<char> {
        match self {
            ArithmeticFault::DivisionByZero => "Division by zero."@,
            ArithmeticFault::Overflow => "Result out of range."@,
        }
    }

    /// The fault in words.
    pub fn describe(&self) -> (text: String)
        ensures
            text@ == self.description(),
    {
        match self {
            ArithmeticFault::DivisionByZero => String::from_str("Division by zero."),
            ArithmeticFault::Overflow => String::from_str("Result out of range."),
        }
    }
}

/// A term alone, or a term added to or subtracted from the expression that
/// follows it.
#[derive(PartialEq, Eq, Debug)]
pub enum ExpressionNode {
    SingleTermNode(TermNode),
    AdditionTermNode { left: TermNode, right: Box<ExpressionNode> },
    SubstractionTermNode { left: TermNode, right: Box<ExpressionNode> },
}

/// A factor alone, or a factor multiplied or divided by the term that
/// follows it.
#[derive(PartialEq, Eq, Debug)]
pub enum TermNode {
    SingleFactorNode(FactorNode),
    MultiplicationFactorNode { left: FactorNode, right: Box<TermNode> },
    DivisionFactorNode { left: FactorNode, right: Box<TermNode> },
}

/// An integer literal, or an expression in parentheses.
#[derive(PartialEq, Eq, Debug)]
pub enum FactorNode {
    LiteralNode(i32),
    ExpressionNode(Box<ExpressionNode>),
}

/// The quotient of `a` by `b`, rounded toward zero, for `b` other than 0.
/// The division of the mathematical integers rounds so that the remainder
/// is never negative; on a dividend below zero the signs are turned first.
pub open spec fn truncated_quotient(a: int, b: int) -> int {
    if a >= 0 {
        a / b
    } else {
        -((-a) / b)
    }
}

/// The quotient is rounded toward zero: what is left of the dividend beside
/// the divisor times the quotient is smaller than the divisor and is not on
/// the other side of zero than the dividend.
pub proof fn lemma_truncated_quotient_remainder(a: int, b: int)
    requires
        b != 0,
    ensures
        ({
            let left = a - truncated_quotient(a, b) * b;
            &&& a >= 0 ==> 0 <= left
            &&& a <= 0 ==> left <= 0
            &&& -b < left < b || b < left < -b
        }),
{
    let x = if a >= 0 {
        a
    } else {
        -a
    };
    let q = x / b;
    assert(0 <= x - q * b && (x - q * b < b || x - q * b < -b)) by (nonlinear_arith)
        requires
            q == x / b,
            b != 0,
    ;
    assert(x == 0 ==> q * b == 0) by (nonlinear_arith)
        requires
            q == x / b,
            b != 0,
    ;
    if a < 0 {
        assert(a - (-q) * b == -(x - q * b)) by (nonlinear_arith)
            requires
                x == -a,
        ;
    }
}

/// A quotient is no further from zero than the dividend; it is the
/// dividend with its sign turned where the divisor is -1, and only there.
pub proof fn lemma_truncated_quotient_bounds(a: int, b: int)
    requires
        b != 0,
    ensures
        a >= 0 ==> -a <= truncated_quotient(a, b) <= a,
        a < 0 ==> a <= truncated_quotient(a, b) <= -a,
        b == -1 ==> truncated_quotient(a, b) == -a,
        b != -1 && a != 0 ==> truncated_quotient(a, b) != -a,
{
    let x = if a >= 0 {
        a
    } else {
        -a
    };
    assert(-x <= x / b <= x) by (nonlinear_arith)
        requires
            x >= 0,
            b != 0,
    ;
    assert(b == -1 ==> x / b == -x) by (nonlinear_arith)
        requires
            x >= 0,
    ;
    assert(b != -1 && x > 0 ==> x / b > -x) by (nonlinear_arith)
        requires
            x >= 0,
            b != 0,
    ;
}

pub open spec fn fits(v: int) -> bool {
    i32::MIN <= v <= i32::MAX
}

/// A number as the result of an operation, where an `i32` holds it.
pub open spec fn settled(v: int) -> Result<i32, ArithmeticFault> {
    if fits(v) {
        Ok(v as i32)
    } else {
        Err(ArithmeticFault::Overflow)
    }
}

pub open spec fn quotient(a: i32, b: i32) -> Result<i32, ArithmeticFault> {
    if b == 0 {
        Err(ArithmeticFault::DivisionByZero)
    } else {
        settled(truncated_quotient(a as int, b as int))
    }
}

/// What two operands give: the fault of the left one, else that of the
/// right one, else what the operation makes of their values.
pub open spec fn combined(
    left: Result<i32, ArithmeticFault>,
    right: Result<i32, ArithmeticFault>,
    operation: spec_fn(i32, i32) -> Result<i32, ArithmeticFault>,
) -> Result<i32, ArithmeticFault> {
    match (left, right) {
        (Err(fault), _) => Err(fault),
        (Ok(_), Err(fault)) => Err(fault),
        (Ok(a), Ok(b)) => operation(a, b),
    }
}

impl ExpressionNode {
    /// The value of the expression, or the first fault met on the way from
    /// left to right.
    pub open spec fn value(&self) -> Result<i32, ArithmeticFault>
        decreases self,
    {
        match self {
            Self::SingleTermNode(term) => term.value(),
            Self::AdditionTermNode { left, right } => combined(
                left.value(),
                right.value(),
                |a: i32, b: i32| settled(a + b),
            ),
            Self::SubstractionTermNode { left, right } => combined(
                left.value(),
                right.value(),
                |a: i32, b: i32| settled(a - b),
            ),
        }
    }

    /// The value of an expression that has one.
    pub fn evaluate(&self) -> (result: i32)
        requires
            self.value() is Ok,
        ensures
            Ok::<i32, ArithmeticFault>(result) == self.value(),
        decreases self,
    {
        match self {
            Self::SingleTermNode(t) => t.evaluate(),
            Self::AdditionTermNode { left, right } => left.evaluate() + right.evaluate(),
            Self::SubstractionTermNode { left, right } => left.evaluate() - right.evaluate(),
        }
    }

    /// The value of the expression, or why it has none.
    pub fn checked_evaluate(&self) -> (result: Result<i32, ArithmeticFault>)
        ensures
            result == self.value(),
        decreases self,
    {
        match self {
            Self::SingleTermNode(t) => t.checked_evaluate(),
            Self::AdditionTermNode { left, right } => {
                let a = left.checked_evaluate()?;
                let b = right.checked_evaluate()?;
                match a.checked_add(b) {
                    Some(v) => Ok(v),
                    None => Err(ArithmeticFault::Overflow),
                }
            },
            Self::SubstractionTermNode { left, right } => {
                let a = left.checked_evaluate()?;
                let b = right.checked_evaluate()?;
                match a.checked_sub(b) {
                    Some(v) => Ok(v),
                    None => Err(ArithmeticFault::Overflow),
                }
            },
        }
    }
}

impl TermNode {
    /// The value of the term, or the first fault met on the way from left
    /// to right.
    pub open spec fn value(&self) -> Result<i32, ArithmeticFault>
        decreases self,
    {
        match self {
            Self::SingleFactorNode(factor) => factor.value(),
            Self::MultiplicationFactorNode { left, right } => combined(
                left.value(),
                right.value(),
                |a: i32, b: i32| settled(a * b),
            ),
            Self::DivisionFactorNode { left, right } => combined(
                left.value(),
                right.value(),
                |a: i32, b: i32| quotient(a, b),
            ),
        }
    }

    /// The value of a term that has one.
    pub fn evaluate(&self) -> (result: i32)
        requires
            self.value() is Ok,
        ensures
            Ok::<i32, ArithmeticFault>(result) == self.value(),
        decreases self,
    {
        match self {
            Self::SingleFactorNode(t) => t.evaluate(),
            Self::MultiplicationFactorNode { left, right } => left.evaluate() * right.evaluate(),
            Self::DivisionFactorNode { left, right } => left.evaluate() / right.evaluate(),
        }
    }

    /// The value of the term, or why it has none.
    pub fn checked_evaluate(&self) -> (result: Result<i32, ArithmeticFault>)
        ensures
            result == self.value(),
        decreases self,
    {
        match self {
            Self::SingleFactorNode(t) => t.checked_evaluate(),
            Self::MultiplicationFactorNode { left, right } => {
                let a = left.checked_evaluate()?;
                let b = right.checked_evaluate()?;
                match a.checked_mul(b) {
                    Some(v) => Ok(v),
                    None => Err(ArithmeticFault::Overflow),
                }
            },
            Self::DivisionFactorNode { left, right } => {
                let a = left.checked_evaluate()?;
                let b = right.checked_evaluate()?;
                if b == 0 {
                    Err(ArithmeticFault::DivisionByZero)
                } else {
                    proof {
                        lemma_truncated_quotient_bounds(a as int, b as int);
                    }
                    if a == i32::MIN && b == -1 {
                        Err(ArithmeticFault::Overflow)
                    } else {
                        Ok(a / b)
                    }
                }
            },
        }
    }
}

impl FactorNode {
    /// The value of the factor: the literal itself, or the value of the
    /// expression in the parentheses.
    pub open spec fn value(&self) -> Result<i32, ArithmeticFault>
        decreases self,
    {
        match self {
            Self::LiteralNode(value) => Ok(*value),
            Self::ExpressionNode(expression) => expression.value(),
        }
    }

    /// The value of a factor that has one.
    pub fn evaluate(&self) -> (result: i32)
        requires
            self.value() is Ok,
        ensures
            Ok::<i32, ArithmeticFault>(result) == self.value(),
        decreases self,
    {
        match self {
            Self::LiteralNode(value) => *value,
            Self::ExpressionNode(exp) => exp.evaluate(),
        }
    }

    /// The value of the factor, or why it has none.
    pub fn checked_evaluate(&self) -> (result: Result<i32, ArithmeticFault>)
        ensures
            result == self.value(),
        decreases self,
    {
        match self {
            Self::LiteralNode(value) => Ok(*value),
            Self::ExpressionNode(exp) => exp.checked_evaluate(),
        }
    }
}

} // verus!
