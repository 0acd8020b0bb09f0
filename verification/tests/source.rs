use calculator::lexer::source::{CharactersSource, StringSource};

#[test]
fn string_source_from_str() {
    let mut string_source = StringSource::from_str("abc");
    assert_eq!(string_source.next().unwrap(), 'a');
    assert_eq!(string_source.next().unwrap(), 'b');
    assert_eq!(string_source.next().unwrap(), 'c');
    assert_eq!(string_source.next(), None);
}

#[test]
fn string_source_next() {
    let mut string_source = StringSource::from_str("abc");
    assert_eq!(string_source.next().unwrap(), 'a');
    assert_eq!(string_source.next().unwrap(), 'b');
    assert_eq!(string_source.next().unwrap(), 'c');
    assert_eq!(string_source.next(), None);
}

#[test]
fn string_source_peek() {
    let mut string_source = StringSource::from_str("abcd");
    assert_eq!(string_source.peek().unwrap(), &'a');
}

#[test]
fn peek_leaves_the_character_in_place() {
    let mut source = StringSource::from_str("xy");
    assert_eq!(source.peek(), Some(&'x'));
    assert_eq!(source.peek(), Some(&'x'));
    assert_eq!(source.next(), Some('x'));
    assert_eq!(source.peek(), Some(&'y'));
    assert_eq!(source.next(), Some('y'));
    assert_eq!(source.peek(), None);
    assert_eq!(source.next(), None);
    assert_eq!(source.next(), None);
}

#[test]
fn characters_beyond_ascii_come_whole() {
    let mut source = StringSource::from_str("\u{e9}\u{4e2d}");
    assert_eq!(source.next(), Some('\u{e9}'));
    assert_eq!(source.next(), Some('\u{4e2d}'));
    assert_eq!(source.next(), None);
}
