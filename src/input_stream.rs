//! A cursor over the characters of a source text that tracks line and column.
use vstd::prelude::*;
use vstd::std_specs::iter::IteratorSpec;

verus! {

/// The characters of a source, the position of the next one to read, and the
/// 0-based line and column of that position.
pub struct InputStream {
    pub source: Vec<char>,
    pub line: usize,
    pub col: usize,
    pub pos: usize,
}

/// The number of newline characters among `src[from..to]`.
pub open spec fn newlines(src: Seq<char>, from: int, to: int) -> nat
    decreases to - from,
{
    if to <= from {
        0
    } else {
        newlines(src, from, to - 1) + if src[to - 1] == '\n' { 1nat } else { 0nat }
    }
}

impl InputStream {
    /// How many characters of the source have been read: the position, or
    /// the length once the position has gone past the end.
    pub open spec fn consumed(&self) -> int {
        if self.pos <= self.source@.len() {
            self.pos as int
        } else {
            self.source@.len() as int
        }
    }

    /// The line counts the newlines read so far, and the column never counts
    /// more steps than the position.
    pub open spec fn wf(&self) -> bool {
        &&& self.line == newlines(self.source@, 0, self.consumed())
        &&& self.col <= self.pos
    }

    pub fn new(source: &str) -> (r: Self)
        ensures
            r.wf(),
            r.source@ == source@,
            r.pos == 0,
            r.line == 0,
            r.col == 0,
    {
        let mut chars: Vec<char> = Vec::new();
        let mut it = source.chars();
        broadcast use vstd::string::axiom_spec_iter, vstd::string::next_postcondition;

        loop
            invariant
                it.obeys_prophetic_iter_laws(),
                it.decrease() is Some,
                chars@ + it.remaining() == source@,
            ensures
                chars@ == source@,
            decreases it.decrease()->0,
        {
            match it.next() {
                Some(c) => {
                    chars.push(c);
                },
                None => {
                    assert(chars@ =~= source@);
                    break;
                },
            }
        }
        InputStream { source: chars, line: 0, col: 0, pos: 0 }
    }

    /// Whether every character has been read.
    pub fn eof(&self) -> (r: bool)
        requires
            self.wf(),
        ensures
            r == (self.pos >= self.source@.len()),
    {
        self.peek().is_none()
    }

    /// The next character, without reading it.
    pub fn peek(&self) -> (r: Option<char>)
        requires
            self.wf(),
        ensures
            self.pos < self.source@.len() ==> r == Some(self.source@[self.pos as int]),
            self.pos >= self.source@.len() ==> r is None,
    {
        if self.pos < self.source.len() {
            Some(self.source[self.pos])
        } else {
            None
        }
    }

    /// Reads the next character and steps past it: a newline starts the next
    /// line at column 0, anything else moves one column on. At the end `None`
    /// comes back, and the position and column still move one step on.
    pub fn next(&mut self) -> (r: Option<char>)
        requires
            old(self).wf(),
            old(self).pos < usize::MAX,
        ensures
            final(self).wf(),
            final(self).source@ == old(self).source@,
            final(self).pos == old(self).pos + 1,
            old(self).pos < old(self).source@.len() ==> r == Some(
                old(self).source@[old(self).pos as int],
            ),
            old(self).pos >= old(self).source@.len() ==> r is None,
            r == Some('\n') ==> final(self).line == old(self).line + 1 && final(self).col == 0,
            r != Some('\n') ==> final(self).line == old(self).line && final(self).col == old(
                self,
            ).col + 1,
    {
        if self.pos >= self.source.len() {
            self.pos = self.pos + 1;
            self.col = self.col + 1;
            return None;
        }
        let c = self.source[self.pos];
        proof {
            lemma_newlines_bound(self.source@, 0, self.pos as int);
            assert(newlines(self.source@, 0, self.pos + 1) == self.line + if c == '\n' { 1nat } else { 0nat });
        }
        if c == '\n' {
            self.line = self.line + 1;
            self.col = 0;
        } else {
            self.col = self.col + 1;
        }
        self.pos = self.pos + 1;
        Some(c)
    }
}

/// There are never more newlines in a range than characters.
pub proof fn lemma_newlines_bound(src: Seq<char>, from: int, to: int)
    requires
        from <= to,
    ensures
        newlines(src, from, to) <= to - from,
    decreases to - from,
{
    if to > from {
        lemma_newlines_bound(src, from, to - 1);
    }
}

} // verus!

verus! {

/// Newlines over `[a, c)` are those over `[a, b)` and over `[b, c)`.
pub proof fn lemma_newlines_split(src: Seq<char>, a: int, b: int, c: int)
    requires
        a <= b <= c,
    ensures
        newlines(src, a, c) == newlines(src, a, b) + newlines(src, b, c),
    decreases c - b,
{
    if c > b {
        lemma_newlines_split(src, a, b, c - 1);
    }
}

} // verus!
