use calculator::lexer::token::{Position, Token, TokenKind};
use calculator::lexer::Lexer;
use calculator::line::{evaluate_line, LineError};
use calculator::parser::syntax_tree::{
    ArithmeticFault, ExpressionNode, FactorNode, InvalidExpressionNode, TermNode,
};
use calculator::parser::Parser;

fn parse(text: &str) -> Result<ExpressionNode, InvalidExpressionNode> {
    Parser::from_tokens(Lexer::from_str(text).into_tokens()).parse()
}

fn value(text: &str) -> i32 {
    parse(text).unwrap().evaluate()
}

fn token(kind: TokenKind, lexem: &str, row: u32, column: u32) -> Token {
    Token {
        start_position: Position { column, row },
        end_position: Position { column: column + lexem.chars().count() as u32, row },
        lexem: lexem.to_string(),
        kind,
    }
}

fn literal(value: i32) -> FactorNode {
    FactorNode::LiteralNode(value)
}

fn single(value: i32) -> TermNode {
    TermNode::SingleFactorNode(literal(value))
}

#[test]
fn single_literal() {
    assert_eq!(value("6"), 6);
    assert_eq!(parse("6").unwrap(), ExpressionNode::SingleTermNode(single(6)));
}

#[test]
fn product_before_difference() {
    assert_eq!(value("2*3-5"), 1);
    assert_eq!(
        parse("2*3-5").unwrap(),
        ExpressionNode::SubstractionTermNode {
            left: TermNode::MultiplicationFactorNode { left: literal(2), right: Box::new(single(3)) },
            right: Box::new(ExpressionNode::SingleTermNode(single(5))),
        }
    );
}

#[test]
fn chains_group_from_the_right() {
    assert_eq!(value("3-2-1"), 2);
    assert_eq!(value("8/4/2"), 4);
    assert_eq!(value("10-4+3"), 3);
    assert_eq!(value("2*6/4"), 2);
    assert_eq!(
        parse("3-2-1").unwrap(),
        ExpressionNode::SubstractionTermNode {
            left: single(3),
            right: Box::new(ExpressionNode::SubstractionTermNode {
                left: single(2),
                right: Box::new(ExpressionNode::SingleTermNode(single(1))),
            }),
        }
    );
}

#[test]
fn parentheses() {
    assert_eq!(value("(4-5)"), -1);
    assert_eq!(value("9*(4-5)"), -9);
    assert_eq!(value("((7))"), 7);
    assert_eq!(value("(1+2)*(3+4)"), 21);
    assert_eq!(value(" ( 3 - 2 ) - 1 "), 0);
}

#[test]
fn division_rounds_toward_zero() {
    assert_eq!(value("7/2"), 3);
    assert_eq!(value("(0-7)/2"), -3);
    assert_eq!(value("7/(0-2)"), -3);
    assert_eq!(value("(0-7)/(0-2)"), 3);
    assert_eq!(value("1/3"), 0);
}

#[test]
fn missing_operand() {
    let error = parse("2+").unwrap_err();
    assert_eq!(error, InvalidExpressionNode { expected: TokenKind::IntLiteral(0), got: None });
    let error = parse("").unwrap_err();
    assert_eq!(error, InvalidExpressionNode { expected: TokenKind::IntLiteral(0), got: None });
    let error = parse("2*").unwrap_err();
    assert_eq!(error, InvalidExpressionNode { expected: TokenKind::IntLiteral(0), got: None });
}

#[test]
fn literal_behind_literal() {
    let error = parse("2 3").unwrap_err();
    assert_eq!(
        error,
        InvalidExpressionNode {
            expected: TokenKind::MulOperator,
            got: Some(token(TokenKind::IntLiteral(3), "3", 1, 3)),
        }
    );
}

#[test]
fn token_left_over() {
    let error = parse("2)").unwrap_err();
    assert_eq!(
        error,
        InvalidExpressionNode {
            expected: TokenKind::EndOfInput,
            got: Some(token(TokenKind::ParenthesisClose, ")", 1, 2)),
        }
    );
    let error = parse("(1+2))+4").unwrap_err();
    assert_eq!(
        error,
        InvalidExpressionNode {
            expected: TokenKind::EndOfInput,
            got: Some(token(TokenKind::ParenthesisClose, ")", 1, 6)),
        }
    );
}

#[test]
fn unclosed_parenthesis() {
    let error = parse("(2").unwrap_err();
    assert_eq!(error, InvalidExpressionNode { expected: TokenKind::ParenthesisClose, got: None });
    let error = parse("3*(2+1").unwrap_err();
    assert_eq!(error, InvalidExpressionNode { expected: TokenKind::ParenthesisClose, got: None });
}

#[test]
fn wrong_leading_token() {
    let error = parse("+1").unwrap_err();
    assert_eq!(
        error,
        InvalidExpressionNode {
            expected: TokenKind::IntLiteral(0),
            got: Some(token(TokenKind::AddOperator, "+", 1, 1)),
        }
    );
    let error = parse("()").unwrap_err();
    assert_eq!(
        error,
        InvalidExpressionNode {
            expected: TokenKind::IntLiteral(0),
            got: Some(token(TokenKind::ParenthesisClose, ")", 1, 2)),
        }
    );
    let error = parse("1+\n 0423").unwrap_err();
    assert_eq!(
        error,
        InvalidExpressionNode {
            expected: TokenKind::IntLiteral(0),
            got: Some(token(TokenKind::Unrecognized, "0423", 2, 2)),
        }
    );
}

#[test]
fn wrong_token_behind_factor() {
    let error = parse("2 (3)").unwrap_err();
    assert_eq!(
        error,
        InvalidExpressionNode {
            expected: TokenKind::MulOperator,
            got: Some(token(TokenKind::ParenthesisOpen, "(", 1, 3)),
        }
    );
    let error = parse("(2 x)").unwrap_err();
    assert_eq!(
        error,
        InvalidExpressionNode {
            expected: TokenKind::MulOperator,
            got: Some(token(TokenKind::Unrecognized, "x", 1, 4)),
        }
    );
}

#[test]
fn rules_leave_what_is_not_theirs() {
    let mut parser = Parser::from_tokens(Lexer::from_str("2*3+4)").into_tokens());
    assert_eq!(parser.match_factor().unwrap(), literal(2));
    let mut parser = Parser::from_tokens(Lexer::from_str("2*3+4)").into_tokens());
    assert_eq!(
        parser.match_term().unwrap(),
        TermNode::MultiplicationFactorNode { left: literal(2), right: Box::new(single(3)) }
    );
    assert_eq!(
        parser.match_expression().unwrap_err(),
        InvalidExpressionNode {
            expected: TokenKind::IntLiteral(0),
            got: Some(token(TokenKind::AddOperator, "+", 1, 4)),
        }
    );
    assert_eq!(parser.match_expression().unwrap(), ExpressionNode::SingleTermNode(single(4)));
    assert_eq!(
        parser.parse().unwrap_err(),
        InvalidExpressionNode {
            expected: TokenKind::IntLiteral(0),
            got: Some(token(TokenKind::ParenthesisClose, ")", 1, 6)),
        }
    );
    assert_eq!(
        parser.parse().unwrap_err(),
        InvalidExpressionNode { expected: TokenKind::IntLiteral(0), got: None }
    );
}

#[test]
fn faults_of_the_arithmetic() {
    assert_eq!(parse("1/0").unwrap().checked_evaluate(), Err(ArithmeticFault::DivisionByZero));
    assert_eq!(parse("1/(2-2)").unwrap().checked_evaluate(), Err(ArithmeticFault::DivisionByZero));
    assert_eq!(parse("2147483647+1").unwrap().checked_evaluate(), Err(ArithmeticFault::Overflow));
    assert_eq!(parse("0-2147483647-2").unwrap().checked_evaluate(), Ok(-2147483645));
    assert_eq!(parse("(0-2147483647)-2").unwrap().checked_evaluate(), Err(ArithmeticFault::Overflow));
    assert_eq!(parse("65536*65536").unwrap().checked_evaluate(), Err(ArithmeticFault::Overflow));
    assert_eq!(parse("65536*32767").unwrap().checked_evaluate(), Ok(2147418112));
    let lowest = TermNode::DivisionFactorNode {
        left: literal(i32::MIN),
        right: Box::new(single(-1)),
    };
    assert_eq!(lowest.checked_evaluate(), Err(ArithmeticFault::Overflow));
    let lowest = TermNode::DivisionFactorNode {
        left: literal(i32::MIN),
        right: Box::new(single(1)),
    };
    assert_eq!(lowest.checked_evaluate(), Ok(i32::MIN));
    assert_eq!(lowest.evaluate(), i32::MIN);
    // The left operand is computed first, so its fault is the one reported.
    assert_eq!(parse("(1/0)+(2147483647+1)").unwrap().checked_evaluate(), Err(ArithmeticFault::DivisionByZero));
    assert_eq!(parse("(2147483647+1)+(1/0)").unwrap().checked_evaluate(), Err(ArithmeticFault::Overflow));
}

#[test]
fn nodes_compute_on_their_own() {
    assert_eq!(literal(-4).evaluate(), -4);
    assert_eq!(literal(-4).checked_evaluate(), Ok(-4));
    let nested = FactorNode::ExpressionNode(Box::new(ExpressionNode::AdditionTermNode {
        left: single(40),
        right: Box::new(ExpressionNode::SingleTermNode(single(2))),
    }));
    assert_eq!(nested.evaluate(), 42);
    let term = TermNode::MultiplicationFactorNode { left: nested, right: Box::new(single(-2)) };
    assert_eq!(term.evaluate(), -84);
    assert_eq!(term.checked_evaluate(), Ok(-84));
}

#[test]
fn lines() {
    assert_eq!(evaluate_line("6"), Ok(6));
    assert_eq!(evaluate_line("2*3-5"), Ok(1));
    assert_eq!(evaluate_line("3-2-1"), Ok(2));
    assert_eq!(evaluate_line("(4-5)"), Ok(-1));
    assert_eq!(evaluate_line("9*(4-5)"), Ok(-9));
    assert_eq!(evaluate_line("4/0"), Err(LineError::Fault(ArithmeticFault::DivisionByZero)));
    assert_eq!(evaluate_line("2147483647*2"), Err(LineError::Fault(ArithmeticFault::Overflow)));
    assert_eq!(
        evaluate_line("2+"),
        Err(LineError::Invalid(InvalidExpressionNode {
            expected: TokenKind::IntLiteral(0),
            got: None
        }))
    );
    assert_eq!(
        evaluate_line("9000000000"),
        Err(LineError::Invalid(InvalidExpressionNode {
            expected: TokenKind::IntLiteral(0),
            got: Some(token(TokenKind::Unrecognized, "9000000000", 1, 1)),
        }))
    );
}

#[test]
fn reports_in_words() {
    let error = parse("2 3").unwrap_err();
    assert_eq!(error.describe(), "Expected MulOperator, got: IntLiteral(3) (1:3).");
    let error = parse("2+").unwrap_err();
    assert_eq!(error.describe(), "Unexpected end of input \u{2014} expected IntLiteral(0).");
    let error = parse("(2").unwrap_err();
    assert_eq!(error.describe(), "Unexpected end of input \u{2014} expected ParenthesisClose.");
    let error = parse("2)").unwrap_err();
    assert_eq!(error.describe(), "Expected EndOfInput, got: ParenthesisClose (1:2).");
    let error = parse("1 +\n\n   x").unwrap_err();
    assert_eq!(error.describe(), "Expected IntLiteral(0), got: Unrecognized (3:4).");
    let error = InvalidExpressionNode {
        expected: TokenKind::AddOperator,
        got: Some(token(TokenKind::IntLiteral(i32::MIN), "x", 4294967295, 1090)),
    };
    assert_eq!(error.describe(), "Expected AddOperator, got: IntLiteral(-2147483648) (4294967295:1090).");
    for (kind, name) in [
        (TokenKind::IntLiteral(907), "IntLiteral(907)"),
        (TokenKind::AddOperator, "AddOperator"),
        (TokenKind::SubOperator, "SubOperator"),
        (TokenKind::MulOperator, "MulOperator"),
        (TokenKind::DivOperator, "DivOperator"),
        (TokenKind::ParenthesisOpen, "ParenthesisOpen"),
        (TokenKind::ParenthesisClose, "ParenthesisClose"),
        (TokenKind::Unrecognized, "Unrecognized"),
        (TokenKind::EndOfInput, "EndOfInput"),
    ] {
        let error = InvalidExpressionNode { expected: kind, got: None };
        assert_eq!(error.describe(), format!("Unexpected end of input \u{2014} expected {}.", name));
    }
}

#[test]
fn faults_in_words() {
    assert_eq!(ArithmeticFault::DivisionByZero.describe(), "Division by zero.");
    assert_eq!(ArithmeticFault::Overflow.describe(), "Result out of range.");
    assert_eq!(evaluate_line("1/0").unwrap_err().describe(), "Division by zero.");
    assert_eq!(evaluate_line("99999*99999").unwrap_err().describe(), "Result out of range.");
    assert_eq!(
        evaluate_line("1 1").unwrap_err().describe(),
        "Expected MulOperator, got: IntLiteral(1) (1:3)."
    );
}

#[test]
fn written_numbers_are_read_back() {
    for value in [0, 1, 9, 10, 99, 100, 1090, 2147483646, i32::MAX] {
        assert_eq!(evaluate_line(&value.to_string()), Ok(value));
        let error = InvalidExpressionNode {
            expected: TokenKind::IntLiteral(value),
            got: Some(token(TokenKind::Unrecognized, "?", value as u32, 1)),
        };
        assert_eq!(
            error.describe(),
            format!("Expected IntLiteral({}), got: Unrecognized ({}:1).", value, value)
        );
    }
}

#[test]
fn trees_are_read_back_from_what_they_are_written_with() {
    let tree = parse("(1+2)*3/(4-5)-6").unwrap();
    let expected = ExpressionNode::SubstractionTermNode {
        left: TermNode::MultiplicationFactorNode {
            left: FactorNode::ExpressionNode(Box::new(ExpressionNode::AdditionTermNode {
                left: single(1),
                right: Box::new(ExpressionNode::SingleTermNode(single(2))),
            })),
            right: Box::new(TermNode::DivisionFactorNode {
                left: literal(3),
                right: Box::new(TermNode::SingleFactorNode(FactorNode::ExpressionNode(
                    Box::new(ExpressionNode::SubstractionTermNode {
                        left: single(4),
                        right: Box::new(ExpressionNode::SingleTermNode(single(5))),
                    }),
                ))),
            }),
        },
        right: Box::new(ExpressionNode::SingleTermNode(single(6))),
    };
    assert_eq!(tree, expected);
    assert_eq!(tree.evaluate(), -15);
}
