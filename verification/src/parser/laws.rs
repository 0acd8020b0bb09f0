//! What holds of the grammar for every sequence of tokens.

use super::grammar::{
    kind_at, lemma_expression_consumed, lemma_factor_consumed, lemma_term_consumed, parsed,
    parsed_expression, parsed_factor, parsed_term, Parsed,
};
use super::syntax_tree::{ExpressionNode, FactorNode, InvalidExpressionView, TermNode};
use crate::lexer::token::{TokenKind, TokenView};
use vstd::prelude::*;

verus! {

/// What may stand behind a term: `+`, `-`, a closing parenthesis or the
/// end.
pub open spec fn ends_term(kind: Option<TokenKind>) -> bool {
    ||| kind is None
    ||| kind == Some(TokenKind::AddOperator)
    ||| kind == Some(TokenKind::SubOperator)
    ||| kind == Some(TokenKind::ParenthesisClose)
}

/// What may stand behind an expression: a closing parenthesis or the end.
pub open spec fn ends_expression(kind: Option<TokenKind>) -> bool {
    kind is None || kind == Some(TokenKind::ParenthesisClose)
}

/// Behind a term that was read stands `+`, `-`, a closing parenthesis or
/// the end.
pub proof fn lemma_behind_term(tokens: Seq<TokenView>)
    requires
        parsed_term(tokens).outcome is Ok,
    ensures
        ends_term(kind_at(tokens, parsed_term(tokens).consumed)),
    decreases tokens.len(),
{
    let at = parsed_factor(tokens).consumed;
    lemma_factor_consumed(tokens);
    match kind_at(tokens, at) {
        Some(TokenKind::MulOperator) | Some(TokenKind::DivOperator) => {
            let rest = tokens.skip(at as int + 1);
            lemma_behind_term(rest);
            lemma_term_consumed(rest);
            let more = parsed_term(rest).consumed;
            if more < rest.len() {
                assert(rest[more as int] == tokens[at as int + 1 + more as int]);
            }
        },
        _ => {},
    }
}

/// Behind an expression that was read stands a closing parenthesis or the
/// end.
pub proof fn lemma_behind_expression(tokens: Seq<TokenView>)
    requires
        parsed_expression(tokens).outcome is Ok,
    ensures
        ends_expression(kind_at(tokens, parsed_expression(tokens).consumed)),
    decreases tokens.len(),
{
    let at = parsed_term(tokens).consumed;
    lemma_term_consumed(tokens);
    lemma_behind_term(tokens);
    match kind_at(tokens, at) {
        Some(TokenKind::AddOperator) | Some(TokenKind::SubOperator) => {
            let rest = tokens.skip(at as int + 1);
            lemma_behind_expression(rest);
            lemma_expression_consumed(rest);
            let more = parsed_expression(rest).consumed;
            if more < rest.len() {
                assert(rest[more as int] == tokens[at as int + 1 + more as int]);
            }
        },
        _ => {},
    }
}

/// The violations that the three rules report: a literal was expected, or
/// `*` was, or a closing parenthesis was and the tokens had ended.
pub open spec fn rule_violation(error: InvalidExpressionView) -> bool {
    ||| error.expected == TokenKind::IntLiteral(0)
    ||| error.expected == TokenKind::MulOperator
    ||| error.expected == TokenKind::ParenthesisClose && error.got is None
}

/// The rules report no other violations than these. So none of them ever
/// reports that `+` was expected, and a closing parenthesis is missed only
/// at the end.
pub proof fn lemma_rule_violations(tokens: Seq<TokenView>)
    ensures
        parsed_factor(tokens).outcome matches Err(error) ==> rule_violation(error),
        parsed_term(tokens).outcome matches Err(error) ==> rule_violation(error),
        parsed_expression(tokens).outcome matches Err(error) ==> rule_violation(error),
    decreases tokens.len(),
{
    if kind_at(tokens, 0) == Some(TokenKind::ParenthesisOpen) {
        let inner = tokens.skip(1);
        lemma_rule_violations(inner);
        if parsed_expression(inner).outcome is Ok {
            lemma_behind_expression(inner);
            lemma_expression_consumed(inner);
            let more = parsed_expression(inner).consumed;
            if more < inner.len() {
                assert(inner[more as int] == tokens[1 + more as int]);
            }
        }
    }
    let at = parsed_factor(tokens).consumed;
    lemma_factor_consumed(tokens);
    if parsed_factor(tokens).outcome is Ok && at < tokens.len() {
        lemma_rule_violations(tokens.skip(at as int + 1));
    }
    let behind = parsed_term(tokens).consumed;
    lemma_term_consumed(tokens);
    if parsed_term(tokens).outcome is Ok {
        lemma_behind_term(tokens);
        if behind < tokens.len() {
            lemma_rule_violations(tokens.skip(behind as int + 1));
        }
    }
}

/// A whole text fails with one of the violations of the rules, or with a
/// closing parenthesis that is left over where the end was expected.
pub proof fn lemma_left_over(tokens: Seq<TokenView>)
    ensures
        match parsed(tokens).outcome {
            Ok(_) => true,
            Err(error) => rule_violation(error) || (error.expected == TokenKind::EndOfInput
                && match error.got {
                Some(token) => token.kind == TokenKind::ParenthesisClose,
                None => false,
            }),
        },
{
    lemma_rule_violations(tokens);
    if parsed_expression(tokens).outcome is Ok {
        lemma_behind_expression(tokens);
    }
}

/// The kinds of the tokens that a factor is written with.
pub open spec fn factor_written(factor: FactorNode) -> Seq<TokenKind>
    decreases factor,
{
    match factor {
        FactorNode::LiteralNode(value) => seq![TokenKind::IntLiteral(value)],
        FactorNode::ExpressionNode(inner) => seq![TokenKind::ParenthesisOpen] + expression_written(
            *inner,
        ) + seq![TokenKind::ParenthesisClose],
    }
}

/// The kinds of the tokens that a term is written with.
pub open spec fn term_written(term: TermNode) -> Seq<TokenKind>
    decreases term,
{
    match term {
        TermNode::SingleFactorNode(factor) => factor_written(factor),
        TermNode::MultiplicationFactorNode { left, right } => factor_written(left)
            + seq![TokenKind::MulOperator] + term_written(*right),
        TermNode::DivisionFactorNode { left, right } => factor_written(left)
            + seq![TokenKind::DivOperator] + term_written(*right),
    }
}

/// The kinds of the tokens that an expression is written with.
pub open spec fn expression_written(expression: ExpressionNode) -> Seq<TokenKind>
    decreases expression,
{
    match expression {
        ExpressionNode::SingleTermNode(term) => term_written(term),
        ExpressionNode::AdditionTermNode { left, right } => term_written(left)
            + seq![TokenKind::AddOperator] + expression_written(*right),
        ExpressionNode::SubstractionTermNode { left, right } => term_written(left)
            + seq![TokenKind::SubOperator] + expression_written(*right),
    }
}

/// Whether the first tokens have the kinds `kinds`, one after the other.
pub open spec fn begins_with(tokens: Seq<TokenView>, kinds: Seq<TokenKind>) -> bool {
    &&& kinds.len() <= tokens.len()
    &&& forall|i: int| 0 <= i < kinds.len() ==> (#[trigger] tokens[i]).kind == kinds[i]
}

/// What begins with two pieces begins with the first, and goes on with the
/// second.
proof fn lemma_begins_with_parts(
    tokens: Seq<TokenView>,
    first: Seq<TokenKind>,
    second: Seq<TokenKind>,
)
    requires
        begins_with(tokens, first + second),
    ensures
        begins_with(tokens, first),
        begins_with(tokens.skip(first.len() as int), second),
{
    let whole = first + second;
    assert forall|i: int| 0 <= i < first.len() implies (#[trigger] tokens[i]).kind
        == first[i] by {
        assert(whole[i] == first[i]);
    }
    let rest = tokens.skip(first.len() as int);
    assert forall|i: int| 0 <= i < second.len() implies (#[trigger] rest[i]).kind
        == second[i] by {
        assert(rest[i] == tokens[first.len() + i]);
        assert(whole[first.len() + i] == second[i]);
    }
}

/// What begins with one piece and goes on with another begins with both.
proof fn lemma_begins_with_both(
    tokens: Seq<TokenView>,
    first: Seq<TokenKind>,
    second: Seq<TokenKind>,
)
    requires
        begins_with(tokens, first),
        begins_with(tokens.skip(first.len() as int), second),
    ensures
        begins_with(tokens, first + second),
{
    let whole = first + second;
    let rest = tokens.skip(first.len() as int);
    assert forall|i: int| 0 <= i < whole.len() implies (#[trigger] tokens[i]).kind
        == whole[i] by {
        if i >= first.len() {
            assert(rest[i - first.len()] == tokens[i]);
        }
    }
}

/// What begins with two operands and the operator between them begins
/// with the first operand, has the operator behind it, and goes on with the
/// second operand up to the same place.
proof fn lemma_begins_with_operands(
    tokens: Seq<TokenView>,
    first: Seq<TokenKind>,
    operator: TokenKind,
    second: Seq<TokenKind>,
)
    requires
        begins_with(tokens, first + seq![operator] + second),
    ensures
        begins_with(tokens, first),
        kind_at(tokens, first.len()) == Some(operator),
        begins_with(tokens.skip(first.len() as int + 1), second),
        kind_at(tokens.skip(first.len() as int + 1), second.len()) == kind_at(
            tokens,
            (first + seq![operator] + second).len(),
        ),
{
    let sign = seq![operator];
    assert(first + sign + second == first + (sign + second));
    lemma_begins_with_parts(tokens, first, sign + second);
    let behind = tokens.skip(first.len() as int);
    lemma_begins_with_parts(behind, sign, second);
    assert(behind[0].kind == sign[0]);
    assert(behind[0] == tokens[first.len() as int]);
    let rest = behind.skip(1);
    assert(rest == tokens.skip(first.len() as int + 1));
    let end = (first + sign + second).len();
    if end < tokens.len() {
        assert(rest[second.len() as int] == tokens[end as int]);
    }
}

/// A factor is read back from the tokens that it is written with,
/// whatever follows them.
pub proof fn lemma_factor_read_back(factor: FactorNode, tokens: Seq<TokenView>)
    requires
        begins_with(tokens, factor_written(factor)),
    ensures
        parsed_factor(tokens) == (Parsed {
            outcome: Ok(factor),
            consumed: factor_written(factor).len(),
        }),
    decreases factor,
{
    match factor {
        FactorNode::LiteralNode(value) => {
            assert(tokens[0].kind == factor_written(factor)[0]);
        },
        FactorNode::ExpressionNode(inner) => {
            let body = expression_written(*inner);
            let open = seq![TokenKind::ParenthesisOpen];
            let close = seq![TokenKind::ParenthesisClose];
            assert(factor_written(factor) == open + (body + close));
            lemma_begins_with_parts(tokens, open, body + close);
            assert(tokens[0].kind == open[0]);
            let rest = tokens.skip(1);
            lemma_begins_with_parts(rest, body, close);
            let behind = rest.skip(body.len() as int);
            assert(behind[0].kind == close[0]);
            assert(behind[0] == rest[body.len() as int]);
            lemma_expression_read_back(*inner, rest);
            assert(rest[body.len() as int] == tokens[1 + body.len() as int]);
        },
    }
}

/// A term is read back from the tokens that it is written with, where
/// something follows them that may stand behind a term.
pub proof fn lemma_term_read_back(term: TermNode, tokens: Seq<TokenView>)
    requires
        begins_with(tokens, term_written(term)),
        ends_term(kind_at(tokens, term_written(term).len())),
    ensures
        parsed_term(tokens) == (Parsed { outcome: Ok(term), consumed: term_written(term).len() }),
    decreases term,
{
    match term {
        TermNode::SingleFactorNode(factor) => {
            lemma_factor_read_back(factor, tokens);
        },
        TermNode::MultiplicationFactorNode { left, right } => {
            let first = factor_written(left);
            lemma_begins_with_operands(
                tokens,
                first,
                TokenKind::MulOperator,
                term_written(*right),
            );
            lemma_factor_read_back(left, tokens);
            lemma_term_read_back(*right, tokens.skip(first.len() as int + 1));
        },
        TermNode::DivisionFactorNode { left, right } => {
            let first = factor_written(left);
            lemma_begins_with_operands(
                tokens,
                first,
                TokenKind::DivOperator,
                term_written(*right),
            );
            lemma_factor_read_back(left, tokens);
            lemma_term_read_back(*right, tokens.skip(first.len() as int + 1));
        },
    }
}

/// An expression is read back from the tokens that it is written with,
/// where a closing parenthesis or the end follows them.
pub proof fn lemma_expression_read_back(expression: ExpressionNode, tokens: Seq<TokenView>)
    requires
        begins_with(tokens, expression_written(expression)),
        ends_expression(kind_at(tokens, expression_written(expression).len())),
    ensures
        parsed_expression(tokens) == (Parsed {
            outcome: Ok(expression),
            consumed: expression_written(expression).len(),
        }),
    decreases expression,
{
    match expression {
        ExpressionNode::SingleTermNode(term) => {
            lemma_term_read_back(term, tokens);
        },
        ExpressionNode::AdditionTermNode { left, right } => {
            let first = term_written(left);
            lemma_begins_with_operands(
                tokens,
                first,
                TokenKind::AddOperator,
                expression_written(*right),
            );
            lemma_term_read_back(left, tokens);
            lemma_expression_read_back(*right, tokens.skip(first.len() as int + 1));
        },
        ExpressionNode::SubstractionTermNode { left, right } => {
            let first = term_written(left);
            lemma_begins_with_operands(
                tokens,
                first,
                TokenKind::SubOperator,
                expression_written(*right),
            );
            lemma_term_read_back(left, tokens);
            lemma_expression_read_back(*right, tokens.skip(first.len() as int + 1));
        },
    }
}

/// Every expression is read back from the tokens that it is written with
/// and nothing else: reading undoes writing.
pub proof fn lemma_read_back(expression: ExpressionNode, tokens: Seq<TokenView>)
    requires
        begins_with(tokens, expression_written(expression)),
        tokens.len() == expression_written(expression).len(),
    ensures
        parsed(tokens) == (Parsed { outcome: Ok(expression), consumed: tokens.len() }),
{
    lemma_expression_read_back(expression, tokens);
}

/// What begins with an operand, has an operator behind it and goes on with
/// a second operand begins with all three.
proof fn lemma_begins_with_all(
    tokens: Seq<TokenView>,
    first: Seq<TokenKind>,
    operator: TokenKind,
    second: Seq<TokenKind>,
)
    requires
        begins_with(tokens, first),
        kind_at(tokens, first.len()) == Some(operator),
        begins_with(tokens.skip(first.len() as int + 1), second),
    ensures
        begins_with(tokens, first + seq![operator] + second),
{
    let sign = seq![operator];
    let behind = tokens.skip(first.len() as int);
    assert(behind[0] == tokens[first.len() as int]);
    assert(begins_with(behind, sign));
    lemma_begins_with_both(tokens, first, sign);
    assert(tokens.skip((first + sign).len() as int) == tokens.skip(first.len() as int + 1));
    lemma_begins_with_both(tokens, first + sign, second);
}

/// The factor that is read from some tokens is written with exactly the
/// tokens that were taken for it.
pub proof fn lemma_factor_reads_written(tokens: Seq<TokenView>)
    ensures
        match parsed_factor(tokens).outcome {
            Ok(factor) => begins_with(tokens, factor_written(factor)) && parsed_factor(
                tokens,
            ).consumed == factor_written(factor).len(),
            Err(_) => true,
        },
    decreases tokens.len(), 0int,
{
    match kind_at(tokens, 0) {
        Some(TokenKind::IntLiteral(value)) => {},
        Some(TokenKind::ParenthesisOpen) => {
            let inner = tokens.skip(1);
            lemma_expression_reads_written(inner);
            lemma_expression_consumed(inner);
            match parsed_expression(inner).outcome {
                Ok(expression) => {
                    let body = expression_written(expression);
                    let at = 1 + body.len();
                    if kind_at(tokens, at) == Some(TokenKind::ParenthesisClose) {
                        let open = seq![TokenKind::ParenthesisOpen];
                        let close = seq![TokenKind::ParenthesisClose];
                        assert(begins_with(tokens, open));
                        lemma_begins_with_both(tokens, open, body);
                        let behind = tokens.skip((open + body).len() as int);
                        assert(behind[0] == tokens[at as int]);
                        assert(begins_with(behind, close));
                        lemma_begins_with_both(tokens, open + body, close);
                    }
                },
                Err(_) => {},
            }
        },
        _ => {},
    }
}

/// The term that is read from some tokens is written with exactly the
/// tokens that were taken for it.
pub proof fn lemma_term_reads_written(tokens: Seq<TokenView>)
    ensures
        match parsed_term(tokens).outcome {
            Ok(term) => begins_with(tokens, term_written(term)) && parsed_term(tokens).consumed
                == term_written(term).len(),
            Err(_) => true,
        },
    decreases tokens.len(), 1int,
{
    lemma_factor_reads_written(tokens);
    lemma_factor_consumed(tokens);
    match parsed_factor(tokens).outcome {
        Ok(left) => {
            let first = factor_written(left);
            let at = first.len();
            match kind_at(tokens, at) {
                Some(TokenKind::MulOperator) | Some(TokenKind::DivOperator) => {
                    let rest = tokens.skip(at as int + 1);
                    lemma_term_reads_written(rest);
                    match parsed_term(rest).outcome {
                        Ok(right) => {
                            lemma_begins_with_all(
                                tokens,
                                first,
                                tokens[at as int].kind,
                                term_written(right),
                            );
                        },
                        Err(_) => {},
                    }
                },
                _ => {},
            }
        },
        Err(_) => {},
    }
}

/// The expression that is read from some tokens is written with exactly the
/// tokens that were taken for it.
pub proof fn lemma_expression_reads_written(tokens: Seq<TokenView>)
    ensures
        match parsed_expression(tokens).outcome {
            Ok(expression) => begins_with(tokens, expression_written(expression))
                && parsed_expression(tokens).consumed == expression_written(expression).len(),
            Err(_) => true,
        },
    decreases tokens.len(), 2int,
{
    lemma_term_reads_written(tokens);
    lemma_term_consumed(tokens);
    match parsed_term(tokens).outcome {
        Ok(left) => {
            let first = term_written(left);
            let at = first.len();
            match kind_at(tokens, at) {
                Some(TokenKind::AddOperator) | Some(TokenKind::SubOperator) => {
                    let rest = tokens.skip(at as int + 1);
                    lemma_expression_reads_written(rest);
                    match parsed_expression(rest).outcome {
                        Ok(right) => {
                            lemma_begins_with_all(
                                tokens,
                                first,
                                tokens[at as int].kind,
                                expression_written(right),
                            );
                        },
                        Err(_) => {},
                    }
                },
                _ => {},
            }
        },
        Err(_) => {},
    }
}

/// The expression that a whole text is read as is written with exactly the
/// tokens of the text: reading adds nothing and leaves nothing out.
pub proof fn lemma_reads_written(tokens: Seq<TokenView>)
    ensures
        match parsed(tokens).outcome {
            Ok(expression) => begins_with(tokens, expression_written(expression))
                && expression_written(expression).len() == tokens.len(),
            Err(_) => true,
        },
{
    lemma_expression_reads_written(tokens);
    lemma_expression_consumed(tokens);
}

} // verus!
