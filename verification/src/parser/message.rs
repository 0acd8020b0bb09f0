//! How numbers and token kinds are written out in a report.

use crate::lexer::rules::{all_digits, decimal, digit, well_formed_number};
use crate::lexer::token::TokenKind;
use vstd::prelude::*;
use vstd::string::StringExecFns;

verus! {

/// The character that stands for a number below ten.
pub open spec fn digit_char(d: nat) -> char {
    ('0' as nat + d) as char
}

/// A natural number in base ten, without leading zeros.
pub open spec fn decimal_text(n: nat) -> Seq<char>
    decreases n,
{
    if n < 10 {
        seq![digit_char(n)]
    } else {
        decimal_text(n / 10).push(digit_char(n % 10))
    }
}

/// An integer in base ten, with `-` in front where it is below zero.
pub open spec fn integer_text(v: int) -> Seq<char> {
    if v < 0 {
        seq!['-'] + decimal_text((-v) as nat)
    } else {
        decimal_text(v as nat)
    }
}

/// The name of a token kind, with the value of a literal in parentheses.
pub open spec fn kind_text(kind: TokenKind) -> Seq<char> {
    match kind {
        TokenKind::IntLiteral(value) => "IntLiteral("@ + integer_text(value as int) + ")"@,
        TokenKind::AddOperator => "AddOperator"@,
        TokenKind::SubOperator => "SubOperator"@,
        TokenKind::MulOperator => "MulOperator"@,
        TokenKind::DivOperator => "DivOperator"@,
        TokenKind::ParenthesisOpen => "ParenthesisOpen"@,
        TokenKind::ParenthesisClose => "ParenthesisClose"@,
        TokenKind::Unrecognized => "Unrecognized"@,
        TokenKind::EndOfInput => "EndOfInput"@,
    }
}

fn digit_to_char(d: u32) -> (c: char)
    requires
        d < 10,
    ensures
        c == digit_char(d as nat),
{
    (d as u8 + 48u8) as char
}

/// Writes `n` in base ten at the end of `text`.
pub fn push_decimal(text: &mut String, n: u32)
    ensures
        final(text)@ == old(text)@ + decimal_text(n as nat),
    decreases n,
{
    if n >= 10 {
        push_decimal(text, n / 10);
    }
    text.push(digit_to_char(n % 10));
    proof {
        let before = old(text)@;
        if n >= 10 {
            assert((before + decimal_text(n as nat / 10)).push(digit_char(n as nat % 10))
                == before + decimal_text(n as nat));
        } else {
            assert(before.push(digit_char(n as nat)) == before + decimal_text(n as nat));
        }
    }
}

/// Writes `v` in base ten at the end of `text`.
pub fn push_integer(text: &mut String, v: i32)
    ensures
        final(text)@ == old(text)@ + integer_text(v as int),
{
    if v < 0 {
        text.push('-');
        let magnitude: u32 = (-(v as i64)) as u32;
        push_decimal(text, magnitude);
        proof {
            let before = old(text)@;
            assert(before.push('-') + decimal_text(magnitude as nat) == before + integer_text(
                v as int,
            ));
        }
    } else {
        push_decimal(text, v as u32);
    }
}

/// Writes the name of `kind` at the end of `text`.
pub fn push_kind(text: &mut String, kind: TokenKind)
    ensures
        final(text)@ == old(text)@ + kind_text(kind),
{
    match kind {
        TokenKind::IntLiteral(value) => {
            text.append("IntLiteral(");
            push_integer(text, value);
            text.append(")");
            proof {
                let before = old(text)@;
                assert(before + "IntLiteral("@ + integer_text(value as int) + ")"@ == before + (
                "IntLiteral("@ + integer_text(value as int) + ")"@));
            }
        },
        TokenKind::AddOperator => text.append("AddOperator"),
        TokenKind::SubOperator => text.append("SubOperator"),
        TokenKind::MulOperator => text.append("MulOperator"),
        TokenKind::DivOperator => text.append("DivOperator"),
        TokenKind::ParenthesisOpen => text.append("ParenthesisOpen"),
        TokenKind::ParenthesisClose => text.append("ParenthesisClose"),
        TokenKind::Unrecognized => text.append("Unrecognized"),
        TokenKind::EndOfInput => text.append("EndOfInput"),
    }
}

/// A number that is written out is read back as itself: its text is made
/// of digits, has no `0` in front of further digits, and denotes the number.
pub proof fn lemma_decimal_text_read_back(n: nat)
    ensures
        decimal_text(n).len() > 0,
        all_digits(decimal_text(n)),
        !(decimal_text(n).len() > 1 && decimal_text(n)[0] == '0'),
        decimal(decimal_text(n)) == n,
        n <= i32::MAX ==> well_formed_number(decimal_text(n)),
    decreases n,
{
    let text = decimal_text(n);
    if n < 10 {
        assert(text.drop_last() == Seq::<char>::empty());
        assert(decimal(text.drop_last()) == 0);
        assert(text.last() == digit_char(n));
    } else {
        let front = decimal_text(n / 10);
        lemma_decimal_text_read_back(n / 10);
        assert(text.drop_last() == front);
        assert(text.last() == digit_char(n % 10));
        assert(text[0] == front[0]);
        assert(decimal(front) == n / 10);
        assert(front[0] != '0') by {
            if front.len() == 1 {
                assert(front.drop_last() == Seq::<char>::empty());
                assert(decimal(front.drop_last()) == 0);
                assert(front.last() == front[0]);
            }
        }
        assert forall|i: int| 0 <= i < text.len() implies digit(#[trigger] text[i]) by {
            if i < front.len() {
                assert(text[i] == front[i]);
            }
        }
    }
}

} // verus!
