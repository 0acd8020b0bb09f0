use calculator::lexer::token::{Position, Token, TokenKind};
use calculator::lexer::Lexer;

#[test]
fn from_str() {
    let mut lexer = Lexer::from_str("abc");
    assert_eq!(lexer.advance_character().unwrap(), 'a');
    assert_eq!(lexer.advance_character().unwrap(), 'b');
    assert_eq!(lexer.advance_character().unwrap(), 'c');
    assert_eq!(lexer.advance_character(), None);
}

#[test]
fn get_int_literal() {
    let lexer = Lexer::from_str("123 0423 9000000000 65a2\n34");
    let mut tokens = lexer.into_tokens();

    let first = tokens.next().unwrap();
    assert_eq!(first.kind, TokenKind::IntLiteral(123));
    assert_eq!(first.start_position, Position { column: 1, row: 1 });
    assert_eq!(first.end_position, Position { column: 4, row: 1 });
    assert_eq!(first.lexem, format!("123"));

    let second = tokens.next().unwrap();
    assert_eq!(second.kind, TokenKind::Unrecognized);
    assert_eq!(second.start_position, Position { column: 5, row: 1 });
    assert_eq!(second.end_position, Position { column: 9, row: 1 });
    assert_eq!(second.lexem, format!("0423"));

    let third = tokens.next().unwrap();
    assert_eq!(third.kind, TokenKind::Unrecognized);
    assert_eq!(third.start_position, Position { column: 10, row: 1 });
    assert_eq!(third.end_position, Position { column: 20, row: 1 });
    assert_eq!(third.lexem, format!("9000000000"));

    let fourth = tokens.next().unwrap();
    assert_eq!(fourth.kind, TokenKind::Unrecognized);
    assert_eq!(fourth.start_position, Position { column: 21, row: 1 });
    assert_eq!(fourth.end_position, Position { column: 25, row: 1 });
    assert_eq!(fourth.lexem, format!("65a2"));

    let fifth = tokens.next().unwrap();
    assert_eq!(fifth.kind, TokenKind::IntLiteral(34));
    assert_eq!(fifth.start_position, Position { column: 1, row: 2 });
    assert_eq!(fifth.end_position, Position { column: 3, row: 2 });
    assert_eq!(fifth.lexem, format!("34"));

    assert_eq!(tokens.next(), None);
}

#[test]
fn get_operator() {
    let lexer = Lexer::from_str("+- *\n/");
    let mut tokens = lexer.into_tokens();

    let first = tokens.next().unwrap();
    assert_eq!(first.kind, TokenKind::AddOperator);
    assert_eq!(first.start_position, Position { column: 1, row: 1 });
    assert_eq!(first.end_position, Position { column: 2, row: 1 });
    assert_eq!(first.lexem, format!("+"));

    let second = tokens.next().unwrap();
    assert_eq!(second.kind, TokenKind::SubOperator);
    assert_eq!(second.start_position, Position { column: 2, row: 1 });
    assert_eq!(second.end_position, Position { column: 3, row: 1 });
    assert_eq!(second.lexem, format!("-"));

    let third = tokens.next().unwrap();
    assert_eq!(third.kind, TokenKind::MulOperator);
    assert_eq!(third.start_position, Position { column: 4, row: 1 });
    assert_eq!(third.end_position, Position { column: 5, row: 1 });
    assert_eq!(third.lexem, format!("*"));

    let fourth = tokens.next().unwrap();
    assert_eq!(fourth.kind, TokenKind::DivOperator);
    assert_eq!(fourth.start_position, Position { column: 1, row: 2 });
    assert_eq!(fourth.end_position, Position { column: 2, row: 2 });
    assert_eq!(fourth.lexem, format!("/"));

    assert_eq!(tokens.next(), None);
}

#[test]
fn get_unrecognised() {
    let lexer = Lexer::from_str("a44-W");
    let mut tokens = lexer.into_tokens();

    let first = tokens.next().unwrap();
    assert_eq!(first.kind, TokenKind::Unrecognized);
    assert_eq!(first.start_position, Position { column: 1, row: 1 });
    assert_eq!(first.end_position, Position { column: 4, row: 1 });
    assert_eq!(first.lexem, format!("a44"));

    let second = tokens.next().unwrap();
    assert_eq!(second.kind, TokenKind::SubOperator);
    assert_eq!(second.start_position, Position { column: 4, row: 1 });
    assert_eq!(second.end_position, Position { column: 5, row: 1 });
    assert_eq!(second.lexem, format!("-"));

    let third = tokens.next().unwrap();
    assert_eq!(third.kind, TokenKind::Unrecognized);
    assert_eq!(third.start_position, Position { column: 5, row: 1 });
    assert_eq!(third.end_position, Position { column: 6, row: 1 });
    assert_eq!(third.lexem, format!("W"));

    assert_eq!(tokens.next(), None);
}

#[test]
fn into_tokens() {
    let lexer = Lexer::from_str("2*3 - 5");
    let mut tokens = lexer.into_tokens();

    let first = tokens.next().unwrap();
    assert_eq!(first.kind, TokenKind::IntLiteral(2));
    assert_eq!(first.start_position, Position { column: 1, row: 1 });
    assert_eq!(first.end_position, Position { column: 2, row: 1 });
    assert_eq!(first.lexem, format!("2"));

    let second = tokens.next().unwrap();
    assert_eq!(second.kind, TokenKind::MulOperator);
    assert_eq!(second.start_position, Position { column: 2, row: 1 });
    assert_eq!(second.end_position, Position { column: 3, row: 1 });
    assert_eq!(second.lexem, format!("*"));

    let third = tokens.next().unwrap();
    assert_eq!(third.kind, TokenKind::IntLiteral(3));
    assert_eq!(third.start_position, Position { column: 3, row: 1 });
    assert_eq!(third.end_position, Position { column: 4, row: 1 });
    assert_eq!(third.lexem, format!("3"));

    let fourth = tokens.next().unwrap();
    assert_eq!(fourth.kind, TokenKind::SubOperator);
    assert_eq!(fourth.start_position, Position { column: 5, row: 1 });
    assert_eq!(fourth.end_position, Position { column: 6, row: 1 });
    assert_eq!(fourth.lexem, format!("-"));

    let fourth = tokens.next().unwrap();
    assert_eq!(fourth.kind, TokenKind::IntLiteral(5));
    assert_eq!(fourth.start_position, Position { column: 7, row: 1 });
    assert_eq!(fourth.end_position, Position { column: 8, row: 1 });
    assert_eq!(fourth.lexem, format!("5"));

    assert_eq!(tokens.next(), None);
}

fn all_tokens(text: &str) -> Vec<Token> {
    let mut stream = Lexer::from_str(text).into_tokens();
    let mut found = Vec::new();
    while let Some(token) = stream.next() {
        found.push(token);
    }
    found
}

fn kinds(text: &str) -> Vec<TokenKind> {
    all_tokens(text).iter().map(|token| token.kind).collect()
}

#[test]
fn digit_strings_are_single_literals() {
    for (text, value) in [
        ("0", 0),
        ("7", 7),
        ("10", 10),
        ("123", 123),
        ("1000000000", 1_000_000_000),
        ("2147483647", i32::MAX),
    ] {
        let found = all_tokens(text);
        assert_eq!(found.len(), 1);
        assert_eq!(found[0].kind, TokenKind::IntLiteral(value));
        assert_eq!(found[0].lexem, text);
        assert_eq!(found[0].start_position, Position { column: 1, row: 1 });
        assert_eq!(found[0].end_position, Position { column: text.len() as u32 + 1, row: 1 });
    }
}

#[test]
fn leading_zero_is_unrecognized() {
    let found = all_tokens("0423");
    assert_eq!(found.len(), 1);
    assert_eq!(found[0].kind, TokenKind::Unrecognized);
    assert_eq!(found[0].lexem, "0423");
    assert_eq!(kinds("00"), vec![TokenKind::Unrecognized]);
    assert_eq!(kinds("01"), vec![TokenKind::Unrecognized]);
}

#[test]
fn overflowing_literal_is_unrecognized() {
    let found = all_tokens("9000000000");
    assert_eq!(found.len(), 1);
    assert_eq!(found[0].kind, TokenKind::Unrecognized);
    assert_eq!(found[0].lexem, "9000000000");
    assert_eq!(kinds("2147483648"), vec![TokenKind::Unrecognized]);
    assert_eq!(kinds("2147483650"), vec![TokenKind::Unrecognized]);
    assert_eq!(kinds("99999999999999999999999999"), vec![TokenKind::Unrecognized]);
}

#[test]
fn literal_on_second_row() {
    let found = all_tokens("123 0423 9000000000 65a2\n34");
    let last = &found[found.len() - 1];
    assert_eq!(last.kind, TokenKind::IntLiteral(34));
    assert_eq!(last.start_position, Position { column: 1, row: 2 });
    assert_eq!(last.end_position, Position { column: 3, row: 2 });
}

#[test]
fn symbols_stand_alone() {
    assert_eq!(
        kinds("2*3-5"),
        vec![
            TokenKind::IntLiteral(2),
            TokenKind::MulOperator,
            TokenKind::IntLiteral(3),
            TokenKind::SubOperator,
            TokenKind::IntLiteral(5),
        ]
    );
    assert_eq!(
        kinds("(12)/a+"),
        vec![
            TokenKind::ParenthesisOpen,
            TokenKind::IntLiteral(12),
            TokenKind::ParenthesisClose,
            TokenKind::DivOperator,
            TokenKind::Unrecognized,
            TokenKind::AddOperator,
        ]
    );
    let found = all_tokens("a(b");
    assert_eq!(found.len(), 3);
    assert_eq!(found[0].lexem, "a");
    assert_eq!(found[1].lexem, "(");
    assert_eq!(found[1].start_position, Position { column: 2, row: 1 });
    assert_eq!(found[1].end_position, Position { column: 3, row: 1 });
    assert_eq!(found[2].lexem, "b");
}

#[test]
fn malformed_number_is_one_lexem() {
    let found = all_tokens("65a2 7x");
    assert_eq!(found.len(), 2);
    assert_eq!(found[0].kind, TokenKind::Unrecognized);
    assert_eq!(found[0].lexem, "65a2");
    assert_eq!(found[1].kind, TokenKind::Unrecognized);
    assert_eq!(found[1].lexem, "7x");
}

#[test]
fn empty_and_blank_texts_have_no_tokens() {
    assert_eq!(all_tokens(""), vec![]);
    assert_eq!(all_tokens(" \t\n  "), vec![]);
    let mut stream = Lexer::from_str("  ").into_tokens();
    assert_eq!(stream.next(), None);
    assert_eq!(stream.next(), None);
}

#[test]
fn newline_resets_the_column() {
    let found = all_tokens("1\n\n  22\n3");
    assert_eq!(found.len(), 3);
    assert_eq!(found[1].start_position, Position { column: 3, row: 3 });
    assert_eq!(found[1].end_position, Position { column: 5, row: 3 });
    assert_eq!(found[2].start_position, Position { column: 1, row: 4 });
}

#[test]
fn single_rules_on_their_own() {
    let mut lexer = Lexer::from_str("x1+");
    let token = lexer.get_operator().unwrap();
    assert_eq!(token.kind, TokenKind::Unrecognized);
    assert_eq!(token.lexem, "x");
    let token = lexer.get_unrecognised().unwrap();
    assert_eq!(token.kind, TokenKind::Unrecognized);
    assert_eq!(token.lexem, "1");
    assert_eq!(lexer.get_unrecognised(), None);
    assert_eq!(lexer.get_int_literal(), None);
    let token = lexer.get_next_token().unwrap();
    assert_eq!(token.kind, TokenKind::AddOperator);
    assert_eq!(lexer.get_operator(), None);
    assert_eq!(lexer.get_next_token(), None);

    let mut lexer = Lexer::from_str("  12");
    lexer.skip_whitespaces();
    let token = lexer.get_int_literal().unwrap();
    assert_eq!(token.kind, TokenKind::IntLiteral(12));
    assert_eq!(token.start_position, Position { column: 3, row: 1 });
}

#[test]
fn whitespace_is_what_the_standard_library_says() {
    for code in 0..=0x10FFFFu32 {
        if let Some(c) = char::from_u32(code) {
            assert_eq!(calculator::lexer::rules::is_whitespace(c), c.is_whitespace());
            assert_eq!(calculator::lexer::rules::is_digit(c), c.is_ascii_digit());
        }
    }
}

#[test]
fn wide_blanks_are_skipped() {
    let found = all_tokens("1\u{A0}2\u{3000}3");
    assert_eq!(found.len(), 3);
    assert_eq!(found[2].start_position, Position { column: 5, row: 1 });
}

#[test]
fn lexems_are_the_text_without_blanks() {
    for text in ["2*3 - 5", "  (12+ a)\n/ 0423\t", "", "   ", "65a2\u{2003}x(", "+-*/()"] {
        let joined: String = all_tokens(text).iter().map(|token| token.lexem.as_str()).collect();
        let solid: String = text.chars().filter(|c| !c.is_whitespace()).collect();
        assert_eq!(joined, solid);
    }
}

#[test]
fn a_symbol_splits_the_text() {
    let whole = all_tokens("12 a+b\n3");
    let before = all_tokens("12 a");
    assert_eq!(whole.len(), before.len() + 3);
    assert_eq!(&whole[..before.len()], &before[..]);
    let symbol = &whole[before.len()];
    assert_eq!(symbol.kind, TokenKind::AddOperator);
    assert_eq!(symbol.lexem, "+");
    assert_eq!(symbol.start_position, Position { column: 5, row: 1 });
    assert_eq!(symbol.end_position, Position { column: 6, row: 1 });
    assert_eq!(whole[before.len() + 1].lexem, "b");
    assert_eq!(whole[before.len() + 1].start_position, Position { column: 6, row: 1 });
    assert_eq!(whole[before.len() + 2].kind, TokenKind::IntLiteral(3));
    assert_eq!(whole[before.len() + 2].start_position, Position { column: 1, row: 2 });
}

#[test]
fn token_copies_are_equal() {
    let found = all_tokens("17");
    let copy = found[0].clone();
    assert_eq!(copy, found[0]);
    assert_eq!(copy.lexem, "17");
}
