//! A cursor over a fully buffered text, and the character-level steps that
//! both parsers are built from.
use vstd::prelude::*;
use crate::error::ParseError;
use crate::text::{chars_of, string_of, CharClass};

verus! {

/// The end of the longest run of characters of `class` that starts at `pos`.
pub open spec fn scan_while(s: Seq<char>, pos: int, class: CharClass) -> int
    decreases s.len() - pos,
{
    if 0 <= pos < s.len() && class.contains(s[pos]) {
        scan_while(s, pos + 1, class)
    } else {
        pos
    }
}

/// Whether the characters of `pattern` stand in `s` at `pos`.
pub open spec fn has_prefix_at(s: Seq<char>, pos: int, pattern: Seq<char>) -> bool {
    &&& 0 <= pos
    &&& pos + pattern.len() <= s.len()
    &&& s.subrange(pos, pos + pattern.len()) == pattern
}

/// What reading one character at `pos` yields: the character, or
/// `OutOfInput` at the end of the text.
pub open spec fn char_at(s: Seq<char>, pos: int) -> Result<char, ParseError> {
    if 0 <= pos < s.len() {
        Ok(s[pos])
    } else {
        Err(ParseError::OutOfInput)
    }
}

/// What demanding the character `c` at `pos` yields.
pub open spec fn expect_at(s: Seq<char>, pos: int, c: char) -> Result<(), ParseError> {
    match char_at(s, pos) {
        Err(e) => Err(e),
        Ok(found) => if found == c {
            Ok(())
        } else {
            Err(ParseError::MalformedInput)
        },
    }
}

/// A run ends inside the text, after its start, on a character outside the
/// class or at the end of the text; everything before it is in the class.
pub proof fn lemma_scan_while(s: Seq<char>, pos: int, class: CharClass)
    requires
        0 <= pos <= s.len(),
    ensures
        pos <= scan_while(s, pos, class) <= s.len(),
        forall|i: int| pos <= i < scan_while(s, pos, class) ==> class.contains(#[trigger] s[i]),
        scan_while(s, pos, class) < s.len() ==> !class.contains(s[scan_while(s, pos, class)]),
    decreases s.len() - pos,
{
    if pos < s.len() && class.contains(s[pos]) {
        lemma_scan_while(s, pos + 1, class);
    }
}

/// A run never ends before its start, nor outside the text if it starts
/// inside.
pub proof fn lemma_scan_forward(s: Seq<char>, pos: int, class: CharClass)
    ensures
        pos <= scan_while(s, pos, class),
        0 <= pos <= s.len() ==> scan_while(s, pos, class) <= s.len(),
    decreases s.len() - pos,
{
    if 0 <= pos < s.len() && class.contains(s[pos]) {
        lemma_scan_forward(s, pos + 1, class);
    }
}

/// Whether every character of `s` is of `class`.
pub open spec fn all_in(s: Seq<char>, class: CharClass) -> bool {
    forall|i: int| 0 <= i < s.len() ==> class.contains(#[trigger] s[i])
}

/// Where a text made of two parts stands, both parts stand.
pub proof fn lemma_parts(s: Seq<char>, pos: int, a: Seq<char>, b: Seq<char>)
    requires
        has_prefix_at(s, pos, a + b),
    ensures
        has_prefix_at(s, pos, a),
        has_prefix_at(s, pos + a.len(), b),
{
    let whole = s.subrange(pos, pos + (a + b).len());
    assert forall|i: int| 0 <= i < a.len() implies s.subrange(pos, pos + a.len())[i] == a[i] by {
        assert(whole[i] == (a + b)[i]);
    }
    assert(s.subrange(pos, pos + a.len()) =~= a);
    assert forall|i: int| 0 <= i < b.len() implies s.subrange(
        pos + a.len(),
        pos + a.len() + b.len(),
    )[i] == b[i] by {
        assert(whole[a.len() + i] == (a + b)[a.len() + i]);
    }
    assert(s.subrange(pos + a.len(), pos + a.len() + b.len()) =~= b);
}

/// Where a text stands, its characters stand.
pub proof fn lemma_stands(s: Seq<char>, pos: int, a: Seq<char>)
    requires
        has_prefix_at(s, pos, a),
    ensures
        forall|i: int| 0 <= i < a.len() ==> s[pos + i] == #[trigger] a[i],
{
    assert forall|i: int| 0 <= i < a.len() implies s[pos + i] == #[trigger] a[i] by {
        assert(s.subrange(pos, pos + a.len())[i] == a[i]);
    }
}

/// A run of a class that stands at `pos` and is followed by a character
/// outside the class, or by nothing, is the longest run there.
pub proof fn lemma_run(s: Seq<char>, pos: int, run: Seq<char>, class: CharClass)
    requires
        has_prefix_at(s, pos, run),
        all_in(run, class),
        pos + run.len() == s.len() || !class.contains(s[pos + run.len()]),
    ensures
        scan_while(s, pos, class) == pos + run.len(),
        s.subrange(pos, pos + run.len()) == run,
    decreases run.len(),
{
    lemma_stands(s, pos, run);
    if run.len() > 0 {
        assert(s[pos] == run[0]);
        let rest = run.subrange(1, run.len() as int);
        assert(has_prefix_at(s, pos + 1, rest)) by {
            assert forall|i: int| 0 <= i < rest.len() implies s.subrange(
                pos + 1,
                pos + 1 + rest.len(),
            )[i] == rest[i] by {
                assert(s[pos + (i + 1)] == run[i + 1]);
            }
            assert(s.subrange(pos + 1, pos + 1 + rest.len()) =~= rest);
        }
        assert(all_in(rest, class)) by {
            assert forall|i: int| 0 <= i < rest.len() implies class.contains(
                #[trigger] rest[i],
            ) by {
                assert(class.contains(run[i + 1]));
            }
        }
        lemma_run(s, pos + 1, rest, class);
    }
}

/// A position in a text.
pub struct Scanner {
    input: Vec<char>,
    pos: usize,
}

impl Scanner {
    #[verifier::type_invariant]
    spec fn in_bounds(&self) -> bool {
        self.pos <= self.input.len()
    }

    /// The whole text.
    pub closed spec fn source(&self) -> Seq<char> {
        self.input@
    }

    /// The index of the next character to read.
    pub closed spec fn position(&self) -> int {
        self.pos as int
    }

    /// A scanner at the start of `text`.
    pub fn new(text: &str) -> (s: Scanner)
        ensures
            s.source() == text@,
            s.position() == 0,
    {
        Scanner { input: chars_of(text), pos: 0 }
    }

    /// Whether the whole text has been read.
    pub fn eof(&self) -> (b: bool)
        ensures
            b == (self.position() >= self.source().len()),
            0 <= self.position() <= self.source().len(),
    {
        proof {
            use_type_invariant(self);
        }
        self.pos >= self.input.len()
    }

    /// The next character, which stays unread.
    pub fn next_char(&self) -> (r: Result<char, ParseError>)
        ensures
            r == char_at(self.source(), self.position()),
            0 <= self.position() <= self.source().len(),
    {
        proof {
            use_type_invariant(self);
        }
        if self.pos < self.input.len() {
            Ok(self.input[self.pos])
        } else {
            Err(ParseError::OutOfInput)
        }
    }

    /// Reads the next character.
    pub fn consume_char(&mut self) -> (r: Result<char, ParseError>)
        ensures
            final(self).source() == old(self).source(),
            r == char_at(old(self).source(), old(self).position()),
            final(self).position() == if r is Ok {
                old(self).position() + 1
            } else {
                old(self).position()
            },
            0 <= old(self).position() <= final(self).position() <= final(self).source().len(),
    {
        proof {
            use_type_invariant(&*self);
        }
        if self.pos < self.input.len() {
            let c = self.input[self.pos];
            self.pos = self.pos + 1;
            Ok(c)
        } else {
            Err(ParseError::OutOfInput)
        }
    }

    /// Reads the next character and checks that it is `c`.
    pub fn expect(&mut self, c: char) -> (r: Result<(), ParseError>)
        ensures
            final(self).source() == old(self).source(),
            r == expect_at(old(self).source(), old(self).position(), c),
            r is Ok ==> final(self).position() == old(self).position() + 1,
            0 <= old(self).position() <= final(self).position() <= final(self).source().len(),
    {
        let found = self.consume_char()?;
        if found == c {
            Ok(())
        } else {
            Err(ParseError::MalformedInput)
        }
    }

    /// Whether the unread text begins with `pattern`.
    pub fn starts_with(&self, pattern: &str) -> (b: bool)
        ensures
            b == has_prefix_at(self.source(), self.position(), pattern@),
            0 <= self.position() <= self.source().len(),
    {
        proof {
            use_type_invariant(self);
        }
        let p = chars_of(pattern);
        if p.len() > self.input.len() - self.pos {
            return false;
        }
        let mut i: usize = 0;
        while i < p.len()
            invariant
                i <= p.len(),
                p@ == pattern@,
                self.pos + p.len() <= self.input.len(),
                self.input@.subrange(self.pos as int, self.pos + i) == p@.take(i as int),
            decreases p.len() - i,
        {
            if self.input[self.pos + i] != p[i] {
                assert(self.input@.subrange(self.pos as int, self.pos + p.len())[i as int]
                    != p@[i as int]);
                return false;
            }
            assert(self.input@.subrange(self.pos as int, self.pos + i + 1)
                == self.input@.subrange(self.pos as int, self.pos + i).push(
                self.input@[self.pos + i],
            ));
            assert(p@.take(i + 1) == p@.take(i as int).push(p@[i as int]));
            i += 1;
        }
        assert(p@.take(p.len() as int) == p@);
        true
    }

    /// Reads the longest run of characters of `class` and returns it.
    pub fn consume_while(&mut self, class: CharClass) -> (run: String)
        ensures
            final(self).source() == old(self).source(),
            final(self).position() == scan_while(old(self).source(), old(self).position(), class),
            run@ == old(self).source().subrange(old(self).position(), final(self).position()),
            0 <= old(self).position() <= final(self).position() <= final(self).source().len(),
    {
        proof {
            use_type_invariant(&*self);
        }
        let start = self.pos;
        while self.pos < self.input.len() && class.holds(self.input[self.pos])
            invariant
                start <= self.pos <= self.input.len(),
                self.input == old(self).input,
                scan_while(self.input@, start as int, class) == scan_while(
                    self.input@,
                    self.pos as int,
                    class,
                ),
            decreases self.input.len() - self.pos,
        {
            self.pos = self.pos + 1;
        }
        string_of(&self.input, start, self.pos)
    }

    /// Skips white space.
    pub fn consume_whitespace(&mut self)
        ensures
            final(self).source() == old(self).source(),
            final(self).position() == scan_while(
                old(self).source(),
                old(self).position(),
                CharClass::Whitespace,
            ),
            0 <= old(self).position() <= final(self).position() <= final(self).source().len(),
    {
        let _ = self.consume_while(CharClass::Whitespace);
    }
}

} // verus!
