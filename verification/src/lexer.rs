//! Turns characters into tokens, tracking the position of each.

pub mod laws;
pub mod rules;
pub mod source;
pub mod token;

use rules::{
    all_digits, blank_prefix, decimal, digit_of, is_delimiter, is_digit, is_symbol,
    is_whitespace, lemma_all_digits_last, lemma_blank_prefix_bounds, lemma_run_prefix_bounds,
    lemma_walk_concat, lexem_len, next_token, number_kind, origin, run_prefix, step, symbol,
    symbol_kind, taken_by_next, tokens, walk,
};
use source::{CharactersSource, StringSource};
use token::{Position, Token, TokenKind, TokenView};
use vstd::prelude::*;

verus! {

/// `String::push` puts one character at the end of the string and leaves
/// the characters before it as they were.
pub assume_specification[ String::push ](text: &mut String, ch: char)
    ensures
        final(text)@ == old(text)@.push(ch),
;

/// Reads tokens from a source of characters and keeps the position of the
/// next character to come.
pub struct Lexer<TSource: CharactersSource> {
    current_position: Position,
    characters: TSource,
}

impl Lexer<StringSource> {
    /// A lexer at the beginning of `string`. Positions are counted in `u32`,
    /// so the text has to be shorter than `u32::MAX` characters.
    pub fn from_str(string: &str) -> (lexer: Self)
        requires
            string@.len() < u32::MAX,
        ensures
            lexer.wf(),
            lexer.remaining() == string@,
            lexer.position() == origin(),
    {
        let source = StringSource::from_str(string);
        Self::from_character_source(source)
    }
}

impl<TSource: CharactersSource> Lexer<TSource> {
    /// The characters that have not been consumed yet.
    pub closed spec fn remaining(&self) -> Seq<char> {
        self.characters.remaining()
    }

    /// The position of the next character to come.
    pub closed spec fn position(&self) -> Position {
        self.current_position
    }

    /// Rows and columns count from 1, and every position that is still to
    /// come fits in the counters.
    pub open spec fn wf(&self) -> bool {
        &&& 1 <= self.position().column
        &&& 1 <= self.position().row
        &&& self.position().column + self.remaining().len() <= u32::MAX
        &&& self.position().row + self.remaining().len() <= u32::MAX
    }

    /// Consumes one character and moves the position past it.
    pub fn advance_character(&mut self) -> (c: Option<char>)
        requires
            old(self).wf(),
        ensures
            final(self).wf(),
            old(self).remaining().len() == 0 ==> {
                &&& c is None
                &&& final(self).remaining() == old(self).remaining()
                &&& final(self).position() == old(self).position()
            },
            old(self).remaining().len() > 0 ==> {
                &&& c == Some(old(self).remaining()[0])
                &&& final(self).remaining() == old(self).remaining().skip(1)
                &&& final(self).position() == step(old(self).position(), old(self).remaining()[0])
            },
    {
        let c = self.characters.next();
        match c {
            Some('\n') => {
                self.current_position.column = 1;
                self.current_position.row += 1;
            },
            Some(_) => {
                self.current_position.column += 1;
            },
            _ => (),
        }
        c
    }

    /// A lexer at the beginning of what `source` holds, which has to be
    /// shorter than `u32::MAX` characters.
    pub fn from_character_source(source: TSource) -> (lexer: Self)
        requires
            source.remaining().len() < u32::MAX,
        ensures
            lexer.wf(),
            lexer.remaining() == source.remaining(),
            lexer.position() == origin(),
    {
        Self { characters: source, current_position: Position { column: 1, row: 1 } }
    }

    /// The next character, left in place.
    fn peek_character(&mut self) -> (c: Option<char>)
        requires
            old(self).wf(),
        ensures
            final(self).wf(),
            final(self).remaining() == old(self).remaining(),
            final(self).position() == old(self).position(),
            old(self).remaining().len() == 0 ==> c is None,
            old(self).remaining().len() > 0 ==> c == Some(old(self).remaining()[0]),
    {
        match self.characters.peek() {
            Some(c) => Some(*c),
            None => None,
        }
    }

    /// Consumes the whitespace that the text begins with.
    pub fn skip_whitespaces(&mut self)
        requires
            old(self).wf(),
        ensures
            final(self).wf(),
            final(self).remaining() == old(self).remaining().skip(
                blank_prefix(old(self).remaining()) as int,
            ),
            final(self).position() == walk(
                old(self).position(),
                old(self).remaining().take(blank_prefix(old(self).remaining()) as int),
            ),
    {
        let ghost text = self.remaining();
        let ghost start = self.position();
        let ghost mut done: int = 0;
        proof {
            assert(text.skip(0) == text);
            assert(text.take(0) == Seq::<char>::empty());
        }
        loop
            invariant
                self.wf(),
                0 <= done <= text.len(),
                self.remaining() == text.skip(done),
                self.position() == walk(start, text.take(done)),
                blank_prefix(text) == done + blank_prefix(text.skip(done)),
            ensures
                self.wf(),
                self.remaining() == text.skip(blank_prefix(text) as int),
                self.position() == walk(start, text.take(blank_prefix(text) as int)),
            decreases text.len() - done,
        {
            match self.peek_character() {
                Some(c) => {
                    if !is_whitespace(c) {
                        break ;
                    }
                    self.advance_character();
                    proof {
                        assert(text.skip(done).skip(1) == text.skip(done + 1));
                        assert(text.take(done + 1).drop_last() == text.take(done));
                        done = done + 1;
                    }
                },
                None => {
                    break ;
                },
            }
        }
    }

    /// Reads a token of one character, whatever the character is: an
    /// operator or a parenthesis gives its own kind, anything else is
    /// unrecognized. There is no token at the end of the text.
    pub fn get_operator(&mut self) -> (token: Option<Token>)
        requires
            old(self).wf(),
        ensures
            final(self).wf(),
            old(self).remaining().len() == 0 ==> {
                &&& token is None
                &&& final(self).remaining() == old(self).remaining()
                &&& final(self).position() == old(self).position()
            },
            old(self).remaining().len() > 0 ==> {
                &&& token is Some
                &&& token->0@ == (TokenView {
                    start_position: old(self).position(),
                    end_position: step(old(self).position(), old(self).remaining()[0]),
                    lexem: old(self).remaining().take(1),
                    kind: symbol_kind(old(self).remaining()[0]),
                })
                &&& final(self).remaining() == old(self).remaining().skip(1)
                &&& final(self).position() == token->0.end_position
            },
    {
        let ghost text = self.remaining();
        let start_position = self.current_position;
        let mut lexem = String::new();
        let kind = match self.advance_character() {
            Some(c) => {
                lexem.push(c);
                match c {
                    '+' => TokenKind::AddOperator,
                    '-' => TokenKind::SubOperator,
                    '*' => TokenKind::MulOperator,
                    '/' => TokenKind::DivOperator,
                    '(' => TokenKind::ParenthesisOpen,
                    ')' => TokenKind::ParenthesisClose,
                    _ => TokenKind::Unrecognized,
                }
            },
            None => {
                return None;
            },
        };
        let end_position = self.current_position;
        proof {
            assert(lexem@ == text.take(1));
        }
        Some(Token { start_position, end_position, lexem, kind })
    }

    /// Reads the run that the text begins with as one unrecognized token.
    /// There is no token where the run is empty.
    pub fn get_unrecognised(&mut self) -> (token: Option<Token>)
        requires
            old(self).wf(),
        ensures
            final(self).wf(),
            final(self).remaining() == old(self).remaining().skip(
                run_prefix(old(self).remaining()) as int,
            ),
            final(self).position() == walk(
                old(self).position(),
                old(self).remaining().take(run_prefix(old(self).remaining()) as int),
            ),
            run_prefix(old(self).remaining()) == 0 ==> token is None,
            run_prefix(old(self).remaining()) > 0 ==> {
                &&& token is Some
                &&& token->0@ == (TokenView {
                    start_position: old(self).position(),
                    end_position: final(self).position(),
                    lexem: old(self).remaining().take(run_prefix(old(self).remaining()) as int),
                    kind: TokenKind::Unrecognized,
                })
            },
    {
        let ghost text = self.remaining();
        let ghost mut done: int = 0;
        let start_position = self.current_position;
        let kind = TokenKind::Unrecognized;
        let mut lexem = String::new();
        let mut empty = true;
        proof {
            assert(text.skip(0) == text);
            assert(text.take(0) == Seq::<char>::empty());
        }
        loop
            invariant
                self.wf(),
                0 <= done <= text.len(),
                self.remaining() == text.skip(done),
                self.position() == walk(start_position, text.take(done)),
                run_prefix(text) == done + run_prefix(text.skip(done)),
                lexem@ == text.take(done),
                empty == (done == 0),
            ensures
                self.wf(),
                done == run_prefix(text),
                self.remaining() == text.skip(done),
                self.position() == walk(start_position, text.take(done)),
                lexem@ == text.take(done),
                empty == (done == 0),
            decreases text.len() - done,
        {
            match self.peek_character() {
                Some(c) => {
                    if is_delimiter(c) {
                        break ;
                    }
                    self.advance_character();
                    lexem.push(c);
                    empty = false;
                    proof {
                        assert(text.skip(done).skip(1) == text.skip(done + 1));
                        assert(text.take(done + 1).drop_last() == text.take(done));
                        assert(text.take(done).push(c) == text.take(done + 1));
                        done = done + 1;
                    }
                },
                None => {
                    break ;
                },
            }
        }
        if empty {
            None
        } else {
            let end_position = self.current_position;
            Some(Token { start_position, end_position, lexem, kind })
        }
    }

    /// Reads the run that the text begins with as a number: an integer
    /// literal where the run is a well-formed number, an unrecognized token
    /// otherwise. There is no token where the run is empty.
    pub fn get_int_literal(&mut self) -> (token: Option<Token>)
        requires
            old(self).wf(),
        ensures
            final(self).wf(),
            final(self).remaining() == old(self).remaining().skip(
                run_prefix(old(self).remaining()) as int,
            ),
            final(self).position() == walk(
                old(self).position(),
                old(self).remaining().take(run_prefix(old(self).remaining()) as int),
            ),
            run_prefix(old(self).remaining()) == 0 ==> token is None,
            run_prefix(old(self).remaining()) > 0 ==> {
                &&& token is Some
                &&& token->0@ == (TokenView {
                    start_position: old(self).position(),
                    end_position: final(self).position(),
                    lexem: old(self).remaining().take(run_prefix(old(self).remaining()) as int),
                    kind: number_kind(
                        old(self).remaining().take(run_prefix(old(self).remaining()) as int),
                    ),
                })
            },
    {
        let ghost text = self.remaining();
        let ghost mut done: int = 0;
        let start_position = self.current_position;
        let mut lexem = String::new();
        let mut empty = true;
        // Whether the run so far is made of digits, begins with `0`, and has
        // grown past what an `i32` holds; `value` is its number until then.
        let mut digits_only = true;
        let mut leading_zero = false;
        let mut several = false;
        let mut too_large = false;
        let mut value: u32 = 0;
        proof {
            assert(text.skip(0) == text);
            assert(text.take(0) == Seq::<char>::empty());
        }
        loop
            invariant
                self.wf(),
                0 <= done <= text.len(),
                self.remaining() == text.skip(done),
                self.position() == walk(start_position, text.take(done)),
                run_prefix(text) == done + run_prefix(text.skip(done)),
                lexem@ == text.take(done),
                empty == (done == 0),
                digits_only == all_digits(text.take(done)),
                leading_zero == (done > 0 && text[0] == '0'),
                several == (done > 1),
                value <= i32::MAX,
                digits_only && !too_large ==> value == decimal(text.take(done)),
                digits_only && too_large ==> decimal(text.take(done)) > i32::MAX,
            ensures
                self.wf(),
                done == run_prefix(text),
                self.remaining() == text.skip(done),
                self.position() == walk(start_position, text.take(done)),
                lexem@ == text.take(done),
                empty == (done == 0),
                digits_only == all_digits(text.take(done)),
                leading_zero == (done > 0 && text[0] == '0'),
                several == (done > 1),
                value <= i32::MAX,
                digits_only && !too_large ==> value == decimal(text.take(done)),
                digits_only && too_large ==> decimal(text.take(done)) > i32::MAX,
            decreases text.len() - done,
        {
            match self.peek_character() {
                Some(c) => {
                    if is_delimiter(c) {
                        break ;
                    }
                    self.advance_character();
                    lexem.push(c);
                    proof {
                        assert(text.skip(done).skip(1) == text.skip(done + 1));
                        assert(text.take(done + 1).drop_last() == text.take(done));
                        assert(text.take(done).push(c) == text.take(done + 1));
                        assert(text.take(done + 1).last() == c);
                        lemma_all_digits_last(text.take(done + 1));
                    }
                    if is_digit(c) {
                        if empty && c == '0' {
                            leading_zero = true;
                        }
                        if digits_only && !too_large {
                            let next: u64 = (value as u64) * 10 + (digit_of(c) as u64);
                            if next > i32::MAX as u64 {
                                too_large = true;
                            } else {
                                value = next as u32;
                            }
                        }
                    } else {
                        digits_only = false;
                    }
                    several = !empty;
                    empty = false;
                    proof {
                        done = done + 1;
                    }
                },
                None => {
                    break ;
                },
            }
        }
        if empty {
            None
        } else {
            let end_position = self.current_position;
            let kind = if digits_only && !too_large && !(leading_zero && several) {
                TokenKind::IntLiteral(value as i32)
            } else {
                TokenKind::Unrecognized
            };
            Some(Token { start_position, end_position, lexem, kind })
        }
    }

    /// Reads the next token: skips the whitespace in front of it and reads
    /// it by the rule that its first character chooses. There is none left
    /// where only whitespace is.
    pub fn get_next_token(&mut self) -> (token: Option<Token>)
        requires
            old(self).wf(),
        ensures
            final(self).wf(),
            match token {
                Some(t) => next_token(old(self).remaining(), old(self).position()) == Some(t@),
                None => next_token(old(self).remaining(), old(self).position()) is None,
            },
            final(self).remaining() == old(self).remaining().skip(
                taken_by_next(old(self).remaining()) as int,
            ),
            final(self).position() == walk(
                old(self).position(),
                old(self).remaining().take(taken_by_next(old(self).remaining()) as int),
            ),
    {
        let ghost text = self.remaining();
        let ghost start = self.position();
        let ghost blanks = blank_prefix(text) as int;
        let ghost rest = text.skip(blanks);
        proof {
            lemma_blank_prefix_bounds(text);
            lemma_run_prefix_bounds(rest);
        }
        self.skip_whitespaces();
        let token = match self.peek_character() {
            Some(c) => {
                if is_symbol(c) {
                    self.get_operator()
                } else if is_digit(c) {
                    self.get_int_literal()
                } else {
                    self.get_unrecognised()
                }
            },
            None => None,
        };
        proof {
            let taken = lexem_len(rest) as int;
            assert(rest.skip(taken) == text.skip(blanks + taken));
            assert(text.take(blanks + taken) == text.take(blanks) + rest.take(taken));
            lemma_walk_concat(start, text.take(blanks), rest.take(taken));
            if rest.len() > 0 {
                assert(rest.take(taken)[0] == rest[0]);
                if symbol(rest[0]) {
                    let one = rest.take(1);
                    assert(one.drop_last() == Seq::<char>::empty());
                    assert(walk(walk(start, text.take(blanks)), one.drop_last()) == walk(
                        start,
                        text.take(blanks),
                    ));
                    assert(walk(walk(start, text.take(blanks)), one) == step(
                        walk(start, text.take(blanks)),
                        rest[0],
                    ));
                }
            } else {
                assert(rest.take(taken) == Seq::<char>::empty());
            }
        }
        token
    }

    /// The tokens that are still to come, to be pulled one by one.
    pub fn into_tokens(self) -> (stream: TokenIterator<TSource>)
        requires
            self.wf(),
        ensures
            stream.wf(),
            stream.upcoming() == tokens(self.remaining(), self.position()),
    {
        TokenIterator { lexer: self }
    }
}

/// The tokens of a text, read on demand and only once.
pub struct TokenIterator<TSource: CharactersSource> {
    lexer: Lexer<TSource>,
}

impl<TSource: CharactersSource> TokenIterator<TSource> {
    pub closed spec fn wf(&self) -> bool {
        self.lexer.wf()
    }

    /// The tokens that have not been pulled yet.
    pub closed spec fn upcoming(&self) -> Seq<TokenView> {
        tokens(self.lexer.remaining(), self.lexer.position())
    }

    /// Pulls the next token, or `None` when none is left.
    pub fn next(&mut self) -> (token: Option<Token>)
        requires
            old(self).wf(),
        ensures
            final(self).wf(),
            old(self).upcoming().len() == 0 ==> token is None && final(self).upcoming()
                == old(self).upcoming(),
            old(self).upcoming().len() > 0 ==> token is Some && token->0@ == old(
                self,
            ).upcoming()[0] && final(self).upcoming() == old(self).upcoming().skip(1),
    {
        let ghost text = self.lexer.remaining();
        let ghost start = self.lexer.position();
        let token = self.lexer.get_next_token();
        proof {
            lemma_blank_prefix_bounds(text);
            match next_token(text, start) {
                Some(first) => {
                    let after = tokens(text.skip(taken_by_next(text) as int), first.end_position);
                    assert((seq![first] + after).skip(1) == after);
                    let blanks = blank_prefix(text) as int;
                    let rest = text.skip(blanks);
                    let taken = lexem_len(rest) as int;
                    lemma_run_prefix_bounds(rest);
                    assert(text.take(blanks + taken) == text.take(blanks) + rest.take(taken));
                    lemma_walk_concat(start, text.take(blanks), rest.take(taken));
                },
                None => {
                    assert(text.skip(text.len() as int).len() == 0);
                },
            }
        }
        token
    }
}

} // verus!
