use vstd::prelude::*;
use crate::chars::{
    ident_char, is_ident_char, is_name_char, is_space, name_char, occurs_at, space, to_chars,
};

verus! {

/// Why a text could not be read.
#[derive(Debug, Clone, Copy, PartialEq, Eq)]
pub enum ParseError {
    /// The input ended where more was required.
    UnexpectedEnd,
    /// Character `found` stands at `pos` where another was required.
    UnexpectedChar { pos: usize, found: char },
    /// The closing tag that ends at `pos` names another element than the one it closes.
    MismatchedClosingTag { pos: usize },
    /// The number that ends at `pos` does not fit in 64 bits.
    NumberTooLarge { pos: usize },
}

/// The kinds of character runs that the parser reads.
pub enum Run {
    Space,
    Name,
    Ident,
    Digit,
    Until(char),
}

pub open spec fn in_run(k: Run, c: char) -> bool {
    match k {
        Run::Space => is_space(c),
        Run::Name => is_name_char(c),
        Run::Ident => is_ident_char(c),
        Run::Digit => '0' <= c && c <= '9',
        Run::Until(d) => c != d,
    }
}

pub fn run_char(k: &Run, c: char) -> (r: bool)
    ensures
        r == in_run(*k, c),
{
    match k {
        Run::Space => space(c),
        Run::Name => name_char(c),
        Run::Ident => ident_char(c),
        Run::Digit => '0' <= c && c <= '9',
        Run::Until(d) => c != *d,
    }
}

/// The length of the longest run of kind `k` in `s` that starts at `i`.
pub open spec fn run_end(s: Seq<char>, i: int, k: Run) -> int
    recommends
        0 <= i <= s.len(),
    decreases s.len() - i,
{
    if i < 0 || i >= s.len() || !in_run(k, s[i]) {
        i
    } else {
        run_end(s, i + 1, k)
    }
}

pub proof fn lemma_run_end(s: Seq<char>, i: int, k: Run)
    requires
        0 <= i <= s.len(),
    ensures
        i <= run_end(s, i, k) <= s.len(),
        run_end(s, i, k) < s.len() ==> !in_run(k, s[run_end(s, i, k)]),
        forall|j: int| i <= j < run_end(s, i, k) ==> in_run(k, #[trigger] s[j]),
    decreases s.len() - i,
{
    if i < s.len() && in_run(k, s[i]) {
        lemma_run_end(s, i + 1, k);
    }
}

/// A position in a text that is being read.
pub struct Parser {
    pub source: String,
    pub input: Vec<char>,
    pub pos: usize,
}

impl Parser {
    /// A parser at the start of `source`.
    pub fn new(source: String) -> (r: Parser)
        ensures
            r.valid(),
            r.source == source,
            r.pos == 0,
    {
        let input = to_chars(source.as_str());
        Parser { source, input, pos: 0 }
    }

    pub open spec fn valid(&self) -> bool {
        &&& self.input@ == self.source@
        &&& self.pos <= self.input@.len()
    }

    pub fn eof(&self) -> (r: bool)
        requires
            self.valid(),
        ensures
            r == (self.pos >= self.input@.len()),
    {
        self.pos >= self.input.len()
    }

    pub fn next_char(&self) -> (r: Option<char>)
        requires
            self.valid(),
        ensures
            r == if self.pos < self.input@.len() {
                Some(self.input@[self.pos as int])
            } else {
                None
            },
    {
        if self.pos < self.input.len() {
            Some(self.input[self.pos])
        } else {
            None
        }
    }

    pub fn starts_with(&self, s: &str) -> (r: bool)
        requires
            self.valid(),
        ensures
            r == (self.pos + s@.len() <= self.input@.len() && self.input@.subrange(
                self.pos as int,
                self.pos + s@.len(),
            ) == s@),
    {
        let t = to_chars(s);
        if t.len() > self.input.len() - self.pos {
            return false;
        }
        occurs_at(&self.input, self.pos, &t)
    }

    /// Reads one character.
    pub fn consume_char(&mut self) -> (r: Result<char, ParseError>)
        requires
            old(self).valid(),
        ensures
            final(self).valid(),
            final(self).input == old(self).input,
            final(self).source == old(self).source,
            old(self).pos < old(self).input@.len() ==> r == Ok::<char, ParseError>(
                old(self).input@[old(self).pos as int],
            ) && final(self).pos == old(self).pos + 1,
            old(self).pos >= old(self).input@.len() ==> r == Err::<char, ParseError>(
                ParseError::UnexpectedEnd,
            ) && final(self).pos == old(self).pos,
    {
        if self.pos < self.input.len() {
            let c = self.input[self.pos];
            self.pos = self.pos + 1;
            Ok(c)
        } else {
            Err(ParseError::UnexpectedEnd)
        }
    }

    /// Moves past the current character.
    pub fn skip(&mut self)
        requires
            old(self).valid(),
            old(self).pos < old(self).input@.len(),
        ensures
            final(self).valid(),
            final(self).input == old(self).input,
            final(self).source == old(self).source,
            final(self).pos == old(self).pos + 1,
    {
        if self.pos < self.input.len() {
            self.pos = self.pos + 1;
        }
    }

    /// Reads `c`, or fails.
    pub fn expect(&mut self, c: char) -> (r: Result<(), ParseError>)
        requires
            old(self).valid(),
        ensures
            final(self).valid(),
            final(self).input == old(self).input,
            final(self).source == old(self).source,
            r is Ok <==> old(self).pos < old(self).input@.len() && old(self).input@[old(self).pos as int]
                == c,
            r is Ok ==> final(self).pos == old(self).pos + 1,
            final(self).pos >= old(self).pos,
    {
        let at = self.pos;
        let d = self.consume_char()?;
        if d == c {
            Ok(())
        } else {
            Err(ParseError::UnexpectedChar { pos: at, found: d })
        }
    }

    /// Reads the longest run of kind `k` that starts here.
    pub fn consume_while(&mut self, k: Run) -> (r: String)
        requires
            old(self).valid(),
        ensures
            final(self).valid(),
            final(self).input == old(self).input,
            final(self).source == old(self).source,
            final(self).pos == run_end(old(self).input@, old(self).pos as int, k),
            final(self).pos >= old(self).pos,
            r@ == old(self).input@.subrange(old(self).pos as int, final(self).pos as int),
            forall|j: int|
                old(self).pos <= j < final(self).pos ==> in_run(k, #[trigger] old(self).input@[j]),
    {
        let start = self.pos;
        while self.pos < self.input.len() && run_char(&k, self.input[self.pos])
            invariant
                self.valid(),
                self.input == old(self).input,
                self.source == old(self).source,
                start == old(self).pos,
                start <= self.pos,
                run_end(self.input@, start as int, k) == run_end(self.input@, self.pos as int, k),
                forall|j: int| start <= j < self.pos ==> in_run(k, #[trigger] self.input@[j]),
            decreases self.input@.len() - self.pos,
        {
            self.pos = self.pos + 1;
        }
        self.source.as_str().substring_char(start, self.pos).to_owned()
    }

    pub fn consume_whitespace(&mut self)
        requires
            old(self).valid(),
        ensures
            final(self).valid(),
            final(self).input == old(self).input,
            final(self).source == old(self).source,
            final(self).pos == run_end(old(self).input@, old(self).pos as int, Run::Space),
            final(self).pos >= old(self).pos,
    {
        self.consume_while(Run::Space);
    }

    pub fn parse_tag_name(&mut self) -> (r: String)
        requires
            old(self).valid(),
        ensures
            final(self).valid(),
            final(self).input == old(self).input,
            final(self).source == old(self).source,
            final(self).pos == run_end(old(self).input@, old(self).pos as int, Run::Name),
            final(self).pos >= old(self).pos,
            r@ == old(self).input@.subrange(old(self).pos as int, final(self).pos as int),
            forall|j: int| 0 <= j < r@.len() ==> is_name_char(#[trigger] r@[j]),
    {
        let r = self.consume_while(Run::Name);
        assert forall|j: int| 0 <= j < r@.len() implies is_name_char(#[trigger] r@[j]) by {
            assert(r@[j] == old(self).input@[old(self).pos + j]);
        }
        r
    }
}

} // verus!
