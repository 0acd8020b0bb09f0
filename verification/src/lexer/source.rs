//! Where the characters come from.

use vstd::prelude::*;

verus! {

/// A finite, forward-only supply of characters with one character of
/// lookahead. What a source still holds is a sequence of characters; `next`
/// takes its first one away and `peek` changes nothing.
pub trait CharactersSource {
    /// The characters that have not been handed out yet, in order.
    spec fn remaining(&self) -> Seq<char>;

    /// Hands out the next character, or `None` at the end.
    fn next(&mut self) -> (c: Option<char>)
        ensures
            old(self).remaining().len() == 0 ==> c is None && final(self).remaining()
                == old(self).remaining(),
            old(self).remaining().len() > 0 ==> c == Some(old(self).remaining()[0])
                && final(self).remaining() == old(self).remaining().skip(1),
    ;

    /// Shows the next character and leaves it in place.
    fn peek(&mut self) -> (c: Option<&char>)
        ensures
            final(self).remaining() == old(self).remaining(),
            old(self).remaining().len() == 0 ==> c is None,
            old(self).remaining().len() > 0 ==> c == Some(&old(self).remaining()[0]),
    ;
}

/// The characters of a string, handed out from the front.
pub struct StringSource {
    characters: Vec<char>,
    consumed: usize,
}

impl StringSource {
    /// No more characters have been handed out than there are.
    #[verifier::type_invariant]
    spec fn in_bounds(&self) -> bool {
        self.consumed <= self.characters.len()
    }

    /// A source that hands out the characters of `string` in order.
    pub fn from_str(string: &str) -> (source: Self)
        ensures
            source.remaining() == string@,
    {
        broadcast use vstd::string::axiom_spec_iter;

        let mut characters: Vec<char> = Vec::new();
        for c in iter: string.chars()
            invariant
                iter.seq() == string@,
                characters@ == iter.seq().take(iter.index()),
        {
            characters.push(c);
        }
        StringSource { characters, consumed: 0 }
    }
}

impl CharactersSource for StringSource {
    closed spec fn remaining(&self) -> Seq<char> {
        self.characters@.skip(self.consumed as int)
    }

    fn next(&mut self) -> (c: Option<char>) {
        proof {
            use_type_invariant(&*self);
        }
        if self.consumed < self.characters.len() {
            let c = self.characters[self.consumed];
            self.consumed = self.consumed + 1;
            Some(c)
        } else {
            None
        }
    }

    fn peek(&mut self) -> (c: Option<&char>) {
        proof {
            use_type_invariant(&*self);
        }
        if self.consumed < self.characters.len() {
            Some(&self.characters[self.consumed])
        } else {
            None
        }
    }
}

} // verus!
