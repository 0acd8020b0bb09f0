//! The lexical rules, stated over sequences of characters.

use super::token::{Position, TokenKind, TokenView};
use vstd::prelude::*;

verus! {

/// The characters with the Unicode property `White_Space`.
pub open spec fn whitespace(c: char) -> bool {
    ||| '\u{9}' <= c <= '\u{D}'
    ||| c == ' '
    ||| c == '\u{85}'
    ||| c == '\u{A0}'
    ||| c == '\u{1680}'
    ||| '\u{2000}' <= c <= '\u{200A}'
    ||| c == '\u{2028}'
    ||| c == '\u{2029}'
    ||| c == '\u{202F}'
    ||| c == '\u{205F}'
    ||| c == '\u{3000}'
}

/// The ten digits `0` to `9`.
pub open spec fn digit(c: char) -> bool {
    '0' <= c <= '9'
}

/// The four operators.
pub open spec fn operator(c: char) -> bool {
    c == '+' || c == '-' || c == '*' || c == '/'
}

/// The two parentheses.
pub open spec fn parenthesis(c: char) -> bool {
    c == '(' || c == ')'
}

/// A character that stands for itself as a token.
pub open spec fn symbol(c: char) -> bool {
    operator(c) || parenthesis(c)
}

/// A character that ends a run: no run of digits or of other characters
/// reaches across it.
pub open spec fn delimiter(c: char) -> bool {
    whitespace(c) || symbol(c)
}

/// Whether `c` is whitespace.
pub fn is_whitespace(c: char) -> (yes: bool)
    ensures
        yes == whitespace(c),
{
    ('\u{9}' <= c && c <= '\u{D}') || c == ' ' || c == '\u{85}' || c == '\u{A0}' || c
        == '\u{1680}' || ('\u{2000}' <= c && c <= '\u{200A}') || c == '\u{2028}' || c
        == '\u{2029}' || c == '\u{202F}' || c == '\u{205F}' || c == '\u{3000}'
}

/// Whether `c` is a digit.
pub fn is_digit(c: char) -> (yes: bool)
    ensures
        yes == digit(c),
{
    '0' <= c && c <= '9'
}

/// The number that the digit `c` stands for.
pub fn digit_of(c: char) -> (d: u32)
    requires
        digit(c),
    ensures
        d == digit_value(c),
{
    c as u32 - '0' as u32
}

/// Whether `c` is an operator or a parenthesis.
pub fn is_symbol(c: char) -> (yes: bool)
    ensures
        yes == symbol(c),
{
    c == '+' || c == '-' || c == '*' || c == '/' || c == '(' || c == ')'
}

/// Whether `c` ends a run.
pub fn is_delimiter(c: char) -> (yes: bool)
    ensures
        yes == delimiter(c),
{
    is_whitespace(c) || is_symbol(c)
}

/// Where the text begins.
pub open spec fn origin() -> Position {
    Position { column: 1, row: 1 }
}

/// The position after one character: a newline starts the next row at
/// column 1, any other character moves one column to the right.
pub open spec fn step(p: Position, c: char) -> Position {
    if c == '\n' {
        Position { column: 1, row: (p.row + 1) as u32 }
    } else {
        Position { column: (p.column + 1) as u32, row: p.row }
    }
}

/// The position after the characters of `s`, one after the other.
pub open spec fn walk(p: Position, s: Seq<char>) -> Position
    decreases s.len(),
{
    if s.len() == 0 {
        p
    } else {
        step(walk(p, s.drop_last()), s.last())
    }
}

/// How many whitespace characters `s` begins with.
pub open spec fn blank_prefix(s: Seq<char>) -> nat
    decreases s.len(),
{
    if s.len() > 0 && whitespace(s[0]) {
        1 + blank_prefix(s.skip(1))
    } else {
        0
    }
}

/// How many characters stand at the front of `s` before the first
/// delimiter, or before the end.
pub open spec fn run_prefix(s: Seq<char>) -> nat
    decreases s.len(),
{
    if s.len() > 0 && !delimiter(s[0]) {
        1 + run_prefix(s.skip(1))
    } else {
        0
    }
}

/// Whether `s` holds digits only.
pub open spec fn all_digits(s: Seq<char>) -> bool {
    forall|i: int| 0 <= i < s.len() ==> digit(#[trigger] s[i])
}

/// The number that a digit stands for.
pub open spec fn digit_value(c: char) -> nat {
    (c as nat - '0' as nat) as nat
}

/// The number that a string of digits denotes in base ten.
pub open spec fn decimal(s: Seq<char>) -> nat
    decreases s.len(),
{
    if s.len() == 0 {
        0
    } else {
        10 * decimal(s.drop_last()) + digit_value(s.last())
    }
}

/// The kind of a one-character token.
pub open spec fn symbol_kind(c: char) -> TokenKind {
    if c == '+' {
        TokenKind::AddOperator
    } else if c == '-' {
        TokenKind::SubOperator
    } else if c == '*' {
        TokenKind::MulOperator
    } else if c == '/' {
        TokenKind::DivOperator
    } else if c == '(' {
        TokenKind::ParenthesisOpen
    } else if c == ')' {
        TokenKind::ParenthesisClose
    } else {
        TokenKind::Unrecognized
    }
}

/// Whether a run is an integer literal: digits only, no `0` in front of
/// further digits, and a value that an `i32` holds.
pub open spec fn well_formed_number(run: Seq<char>) -> bool {
    &&& run.len() > 0
    &&& all_digits(run)
    &&& !(run.len() > 1 && run[0] == '0')
    &&& decimal(run) <= i32::MAX
}

/// The kind of a run that begins with a digit.
pub open spec fn number_kind(run: Seq<char>) -> TokenKind {
    if well_formed_number(run) {
        TokenKind::IntLiteral(decimal(run) as i32)
    } else {
        TokenKind::Unrecognized
    }
}

/// The length of the lexem that `s` begins with. A symbol stands alone;
/// anything else reaches to the next delimiter.
pub open spec fn lexem_len(s: Seq<char>) -> nat {
    if s.len() > 0 && symbol(s[0]) {
        1
    } else {
        run_prefix(s)
    }
}

/// The kind of a lexem, by the rule that its first character chooses: a
/// symbol has its own kind, a run that begins with a digit is read as a
/// number, and any other run is unrecognized.
pub open spec fn lexem_kind(lexem: Seq<char>) -> TokenKind {
    if lexem.len() == 0 {
        TokenKind::Unrecognized
    } else if symbol(lexem[0]) {
        symbol_kind(lexem[0])
    } else if digit(lexem[0]) {
        number_kind(lexem)
    } else {
        TokenKind::Unrecognized
    }
}

/// How many characters the next token takes from `s`, the whitespace in
/// front of it included. At the end of the text that is all of it.
pub open spec fn taken_by_next(s: Seq<char>) -> nat {
    blank_prefix(s) + lexem_len(s.skip(blank_prefix(s) as int))
}

/// The first token of the text `s` that begins at position `p`, if there
/// is one.
pub open spec fn next_token(s: Seq<char>, p: Position) -> Option<TokenView> {
    let blanks = blank_prefix(s);
    let rest = s.skip(blanks as int);
    if rest.len() == 0 {
        None
    } else {
        let lexem = rest.take(lexem_len(rest) as int);
        let start = walk(p, s.take(blanks as int));
        Some(
            TokenView {
                start_position: start,
                end_position: walk(start, lexem),
                lexem,
                kind: lexem_kind(lexem),
            },
        )
    }
}

/// All the tokens of the text `s` that begins at position `p`.
pub open spec fn tokens(s: Seq<char>, p: Position) -> Seq<TokenView>
    decreases s.len(),
    via tokens_decreases
{
    match next_token(s, p) {
        None => Seq::empty(),
        Some(token) => seq![token] + tokens(
            s.skip(taken_by_next(s) as int),
            token.end_position,
        ),
    }
}

#[via_fn]
proof fn tokens_decreases(s: Seq<char>, p: Position) {
    if next_token(s, p) is Some {
        lemma_blank_prefix_bounds(s);
        lemma_lexem_len_bounds(s.skip(blank_prefix(s) as int));
    }
}

/// The leading whitespace is part of the text and is followed by the end
/// or by a character that is no whitespace.
pub proof fn lemma_blank_prefix_bounds(s: Seq<char>)
    ensures
        blank_prefix(s) <= s.len(),
        forall|i: int| 0 <= i < blank_prefix(s) ==> whitespace(#[trigger] s[i]),
        blank_prefix(s) < s.len() ==> !whitespace(s[blank_prefix(s) as int]),
    decreases s.len(),
{
    if s.len() > 0 && whitespace(s[0]) {
        let tail = s.skip(1);
        lemma_blank_prefix_bounds(tail);
        assert forall|i: int| 0 <= i < blank_prefix(s) implies whitespace(#[trigger] s[i]) by {
            if i > 0 {
                assert(s[i] == tail[i - 1]);
            }
        }
        if blank_prefix(s) < s.len() {
            assert(s[blank_prefix(s) as int] == tail[blank_prefix(tail) as int]);
        }
    }
}

/// A run is part of the text, holds no delimiter and is followed by the end
/// or by a delimiter.
pub proof fn lemma_run_prefix_bounds(s: Seq<char>)
    ensures
        run_prefix(s) <= s.len(),
        forall|i: int| 0 <= i < run_prefix(s) ==> !delimiter(#[trigger] s[i]),
        run_prefix(s) < s.len() ==> delimiter(s[run_prefix(s) as int]),
    decreases s.len(),
{
    if s.len() > 0 && !delimiter(s[0]) {
        let tail = s.skip(1);
        lemma_run_prefix_bounds(tail);
        assert forall|i: int| 0 <= i < run_prefix(s) implies !delimiter(#[trigger] s[i]) by {
            if i > 0 {
                assert(s[i] == tail[i - 1]);
            }
        }
        if run_prefix(s) < s.len() {
            assert(s[run_prefix(s) as int] == tail[run_prefix(tail) as int]);
        }
    }
}

/// A lexem is part of the text, and it is not empty where the text begins
/// with a character that is no whitespace.
pub proof fn lemma_lexem_len_bounds(s: Seq<char>)
    ensures
        lexem_len(s) <= s.len(),
        s.len() > 0 && !whitespace(s[0]) ==> lexem_len(s) >= 1,
{
    lemma_run_prefix_bounds(s);
}

/// A text is made of digits where all but its last character are, and the
/// last one is.
pub proof fn lemma_all_digits_last(s: Seq<char>)
    requires
        s.len() > 0,
    ensures
        all_digits(s) == (all_digits(s.drop_last()) && digit(s.last())),
{
    let front = s.drop_last();
    if all_digits(s) {
        assert forall|i: int| 0 <= i < front.len() implies digit(#[trigger] front[i]) by {
            assert(front[i] == s[i]);
        }
        assert(s.last() == s[s.len() - 1]);
    }
    if all_digits(front) && digit(s.last()) {
        assert forall|i: int| 0 <= i < s.len() implies digit(#[trigger] s[i]) by {
            if i < front.len() {
                assert(front[i] == s[i]);
            }
        }
    }
}

/// Walking over two pieces of text in turn is walking over both at once.
pub proof fn lemma_walk_concat(p: Position, a: Seq<char>, b: Seq<char>)
    ensures
        walk(p, a + b) == walk(walk(p, a), b),
    decreases b.len(),
{
    if b.len() == 0 {
        assert(a + b == a);
    } else {
        lemma_walk_concat(p, a, b.drop_last());
        assert((a + b).drop_last() == a + b.drop_last());
    }
}

} // verus!
