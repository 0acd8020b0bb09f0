//! What holds of the lexical rules for every text.

use super::rules::{
    all_digits, blank_prefix, decimal, delimiter, digit, lemma_blank_prefix_bounds,
    lemma_lexem_len_bounds, lemma_run_prefix_bounds, lemma_walk_concat, lexem_len, next_token,
    origin, run_prefix, step, symbol, symbol_kind, taken_by_next, tokens, walk,
    well_formed_number, whitespace,
};
use super::token::{Position, TokenKind, TokenView};
use vstd::prelude::*;

verus! {

/// A text without a delimiter is one run.
pub proof fn lemma_run_without_delimiter(s: Seq<char>)
    requires
        forall|i: int| 0 <= i < s.len() ==> !delimiter(#[trigger] s[i]),
    ensures
        run_prefix(s) == s.len(),
    decreases s.len(),
{
    if s.len() > 0 {
        let tail = s.skip(1);
        assert forall|i: int| 0 <= i < tail.len() implies !delimiter(#[trigger] tail[i]) by {
            assert(tail[i] == s[i + 1]);
        }
        lemma_run_without_delimiter(tail);
    }
}

/// Over a text without a newline the row stays and the column grows by
/// the length of the text.
pub proof fn lemma_walk_in_row(p: Position, s: Seq<char>)
    requires
        forall|i: int| 0 <= i < s.len() ==> #[trigger] s[i] != '\n',
        p.column + s.len() <= u32::MAX,
    ensures
        walk(p, s) == (Position { column: (p.column + s.len()) as u32, row: p.row }),
    decreases s.len(),
{
    if s.len() > 0 {
        let front = s.drop_last();
        assert forall|i: int| 0 <= i < front.len() implies #[trigger] front[i] != '\n' by {
            assert(front[i] == s[i]);
        }
        lemma_walk_in_row(p, front);
        assert(s.last() == s[s.len() - 1]);
    }
}

/// A string of digits that does not begin with `0` denotes a number that is
/// at least its length.
pub proof fn lemma_decimal_at_least_length(s: Seq<char>)
    requires
        all_digits(s),
        s.len() > 0,
        s[0] != '0',
    ensures
        decimal(s) >= s.len(),
    decreases s.len(),
{
    let front = s.drop_last();
    assert(digit(s[s.len() - 1]));
    if front.len() > 0 {
        assert forall|i: int| 0 <= i < front.len() implies digit(#[trigger] front[i]) by {
            assert(front[i] == s[i]);
        }
        assert(front[0] == s[0]);
        lemma_decimal_at_least_length(front);
    } else {
        assert(decimal(front) == 0);
        assert(s.last() == s[0]);
    }
}

/// A string of digits without a `0` in front of further digits, whose
/// number an `i32` holds, is read as exactly one token: the integer literal
/// with that number, from column 1 to the column behind its last digit.
pub proof fn lemma_number_is_one_literal(s: Seq<char>)
    requires
        well_formed_number(s),
    ensures
        s.len() + 1 <= u32::MAX,
        tokens(s, origin()) == seq![
            TokenView {
                start_position: origin(),
                end_position: Position { column: (s.len() + 1) as u32, row: 1 },
                lexem: s,
                kind: TokenKind::IntLiteral(decimal(s) as i32),
            },
        ],
{
    if s[0] != '0' {
        lemma_decimal_at_least_length(s);
    }
    assert forall|i: int| 0 <= i < s.len() implies !delimiter(#[trigger] s[i]) && s[i]
        != '\n' by {
        assert(digit(s[i]));
    }
    lemma_run_without_delimiter(s);
    lemma_walk_in_row(origin(), s);
    assert(digit(s[0]));
    assert(blank_prefix(s) == 0);
    assert(s.skip(0) == s);
    assert(s.take(s.len() as int) == s);
    assert(s.take(0) == Seq::<char>::empty());
    assert(walk(origin(), Seq::<char>::empty()) == origin());
    let first = next_token(s, origin())->0;
    let rest = s.skip(taken_by_next(s) as int);
    assert(rest.len() == 0);
    assert(blank_prefix(rest) == 0);
    assert(rest.skip(0) == rest);
    assert(next_token(rest, first.end_position) is None);
    assert(tokens(rest, first.end_position) == Seq::<TokenView>::empty());
    assert(tokens(s, origin()) == seq![first] + tokens(rest, first.end_position));
}

/// The whitespace in front of a text is not changed by what follows the
/// text, where that does not begin with whitespace.
pub proof fn lemma_blank_prefix_concat(x: Seq<char>, y: Seq<char>)
    requires
        y.len() > 0 ==> !whitespace(y[0]),
    ensures
        blank_prefix(x + y) == blank_prefix(x),
    decreases x.len(),
{
    if x.len() == 0 {
        assert(x + y == y);
    } else {
        assert((x + y)[0] == x[0]);
        assert((x + y).skip(1) == x.skip(1) + y);
        lemma_blank_prefix_concat(x.skip(1), y);
    }
}

/// The run in front of a text is not changed by what follows the text,
/// where that begins with a delimiter.
pub proof fn lemma_run_prefix_concat(x: Seq<char>, y: Seq<char>)
    requires
        y.len() > 0 ==> delimiter(y[0]),
    ensures
        run_prefix(x + y) == run_prefix(x),
    decreases x.len(),
{
    if x.len() == 0 {
        assert(x + y == y);
    } else {
        assert((x + y)[0] == x[0]);
        assert((x + y).skip(1) == x.skip(1) + y);
        lemma_run_prefix_concat(x.skip(1), y);
    }
}

/// The token that a symbol makes at position `p`.
pub open spec fn symbol_token(c: char, p: Position) -> TokenView {
    TokenView {
        start_position: p,
        end_position: step(p, c),
        lexem: seq![c],
        kind: symbol_kind(c),
    }
}

/// An operator or a parenthesis is a token of its own, whatever stands
/// beside it: the tokens of a text with a symbol in it are the tokens of
/// what stands before the symbol, then the symbol, then the tokens of what
/// stands behind it.
pub proof fn lemma_symbol_stands_alone(a: Seq<char>, c: char, b: Seq<char>, p: Position)
    requires
        symbol(c),
    ensures
        tokens(a + seq![c] + b, p) == tokens(a, p) + seq![symbol_token(c, walk(p, a))] + tokens(
            b,
            step(walk(p, a), c),
        ),
    decreases a.len(),
{
    let tail = seq![c] + b;
    let s = a + seq![c] + b;
    assert(s == a + tail);
    assert(tail[0] == c);
    lemma_blank_prefix_concat(a, tail);
    lemma_blank_prefix_bounds(a);
    let blanks = blank_prefix(a) as int;
    assert(s.take(blanks) == a.take(blanks));
    let one = seq![c];
    assert(one.drop_last() == Seq::<char>::empty());
    assert(walk(walk(p, a), one.drop_last()) == walk(p, a));
    assert(walk(walk(p, a), one) == step(walk(p, a), c));
    if blanks == a.len() {
        // Only whitespace stands before the symbol.
        assert(a.take(blanks) == a);
        assert(a.skip(blanks).len() == 0);
        assert(tokens(a, p) == Seq::<TokenView>::empty());
        assert(s.skip(blanks) == tail);
        assert(tail.take(1) == one);
        assert(tail.skip(1) == b);
        assert(s.skip(blanks + 1) == b);
        assert(next_token(s, p) == Some(symbol_token(c, walk(p, a))));
        assert(tokens(s, p) == seq![symbol_token(c, walk(p, a))] + tokens(
            b,
            step(walk(p, a), c),
        ));
        assert(Seq::<TokenView>::empty() + seq![symbol_token(c, walk(p, a))]
            == seq![symbol_token(c, walk(p, a))]);
    } else {
        // A token stands before the symbol, and the symbol ends it.
        let rest = a.skip(blanks);
        assert(s.skip(blanks) == rest + tail);
        assert((rest + tail)[0] == rest[0]);
        lemma_run_prefix_concat(rest, tail);
        lemma_run_prefix_bounds(rest);
        lemma_lexem_len_bounds(rest);
        let taken = lexem_len(rest) as int;
        assert(lexem_len(rest + tail) == taken);
        assert((rest + tail).take(taken) == rest.take(taken));
        let first = next_token(a, p)->0;
        assert(next_token(s, p) == Some(first));
        let after = a.skip(blanks + taken);
        assert(s.skip(blanks + taken) == after + seq![c] + b);
        lemma_symbol_stands_alone(after, c, b, first.end_position);
        assert(a.take(blanks + taken) == a.take(blanks) + rest.take(taken));
        lemma_walk_concat(p, a.take(blanks), rest.take(taken));
        assert(a == a.take(blanks + taken) + after);
        lemma_walk_concat(p, a.take(blanks + taken), after);
        assert(walk(first.end_position, after) == walk(p, a));
        let middle = seq![symbol_token(c, walk(p, a))];
        let last = tokens(b, step(walk(p, a), c));
        assert(tokens(s, p) == seq![first] + (tokens(after, first.end_position) + middle + last));
        assert(tokens(a, p) == seq![first] + tokens(after, first.end_position));
        assert(seq![first] + (tokens(after, first.end_position) + middle + last) == (seq![first]
            + tokens(after, first.end_position)) + middle + last);
    }
}

/// The lexems of some tokens, one behind the other.
pub open spec fn lexems_joined(tokens: Seq<TokenView>) -> Seq<char>
    decreases tokens.len(),
{
    if tokens.len() == 0 {
        Seq::empty()
    } else {
        tokens[0].lexem + lexems_joined(tokens.skip(1))
    }
}

/// A text without its whitespace.
pub open spec fn without_blanks(s: Seq<char>) -> Seq<char> {
    s.filter(|c: char| !whitespace(c))
}

/// Nothing is left of a text that is whitespace only.
proof fn lemma_blanks_vanish(s: Seq<char>)
    requires
        forall|i: int| 0 <= i < s.len() ==> whitespace(#[trigger] s[i]),
    ensures
        without_blanks(s) == Seq::<char>::empty(),
    decreases s.len(),
{
    reveal(Seq::filter);
    if s.len() > 0 {
        let front = s.drop_last();
        assert forall|i: int| 0 <= i < front.len() implies whitespace(#[trigger] front[i]) by {
            assert(front[i] == s[i]);
        }
        lemma_blanks_vanish(front);
        assert(whitespace(s[s.len() - 1]));
    }
}

/// A text without whitespace stays as it is.
proof fn lemma_solid_stays(s: Seq<char>)
    requires
        forall|i: int| 0 <= i < s.len() ==> !whitespace(#[trigger] s[i]),
    ensures
        without_blanks(s) == s,
    decreases s.len(),
{
    reveal(Seq::filter);
    if s.len() > 0 {
        let front = s.drop_last();
        assert forall|i: int| 0 <= i < front.len() implies !whitespace(#[trigger] front[i]) by {
            assert(front[i] == s[i]);
        }
        lemma_solid_stays(front);
        assert(!whitespace(s[s.len() - 1]));
        assert(front.push(s.last()) == s);
    }
}

/// Reading loses nothing but whitespace: the lexems of the tokens of a
/// text, one behind the other, are the text without its whitespace.
pub proof fn lemma_nothing_lost(s: Seq<char>, p: Position)
    ensures
        lexems_joined(tokens(s, p)) == without_blanks(s),
    decreases s.len(),
{
    lemma_blank_prefix_bounds(s);
    let blanks = blank_prefix(s) as int;
    let front = s.take(blanks);
    let rest = s.skip(blanks);
    assert(s == front + rest);
    Seq::filter_distributes_over_add(front, rest, |c: char| !whitespace(c));
    lemma_blanks_vanish(front);
    assert(Seq::<char>::empty() + without_blanks(rest) == without_blanks(rest));
    if rest.len() == 0 {
        lemma_blanks_vanish(rest);
        assert(tokens(s, p) == Seq::<TokenView>::empty());
    } else {
        lemma_run_prefix_bounds(rest);
        lemma_lexem_len_bounds(rest);
        let taken = lexem_len(rest) as int;
        let lexem = rest.take(taken);
        let after = rest.skip(taken);
        assert(rest == lexem + after);
        Seq::filter_distributes_over_add(lexem, after, |c: char| !whitespace(c));
        assert forall|i: int| 0 <= i < lexem.len() implies !whitespace(#[trigger] lexem[i]) by {
            assert(lexem[i] == rest[i]);
        }
        lemma_solid_stays(lexem);
        let first = next_token(s, p)->0;
        assert(after == s.skip(taken_by_next(s) as int));
        lemma_nothing_lost(after, first.end_position);
        let others = tokens(after, first.end_position);
        assert(tokens(s, p) == seq![first] + others);
        assert((seq![first] + others).skip(1) == others);
    }
}

/// Positions count from 1 and never go back a row: from a position at or
/// behind the origin, over a text that the counters have room for, the row
/// does not fall, and row and column grow by no more than the length of the
/// text.
pub proof fn lemma_walk_bounds(p: Position, s: Seq<char>)
    requires
        p.column >= 1,
        p.row >= 1,
        p.column + s.len() <= u32::MAX,
        p.row + s.len() <= u32::MAX,
    ensures
        1 <= walk(p, s).column <= p.column + s.len(),
        p.row <= walk(p, s).row <= p.row + s.len(),
    decreases s.len(),
{
    if s.len() > 0 {
        lemma_walk_bounds(p, s.drop_last());
    }
}

} // verus!
