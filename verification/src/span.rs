use vstd::prelude::*;

verus! {

/// A half-open range `start..end` of character offsets into a source text.
#[derive(Debug, Clone, Copy, PartialEq, Eq, Hash)]
pub struct Span {
    pub start: usize,
    pub end: usize,
}

impl Span {
    pub fn new(start: usize, end: usize) -> (s: Span)
        ensures
            s.start == start,
            s.end == end,
    {
        Span { start, end }
    }

    /// The empty span located at `pos`.
    pub fn empty(pos: usize) -> (s: Span)
        ensures
            s.start == pos,
            s.end == pos,
    {
        Span { start: pos, end: pos }
    }

    /// The smallest span covering both `self` and `other`.
    pub fn merge(&self, other: Span) -> (s: Span)
        ensures
            s.start == if self.start <= other.start { self.start } else { other.start },
            s.end == if self.end >= other.end { self.end } else { other.end },
    {
        let start = if self.start <= other.start { self.start } else { other.start };
        let end = if self.end >= other.end { self.end } else { other.end };
        Span { start, end }
    }

    pub fn len(&self) -> (n: usize)
        ensures
            n == if self.end >= self.start { self.end - self.start } else { 0 },
    {
        if self.end >= self.start { self.end - self.start } else { 0 }
    }
}

impl Default for Span {
    fn default() -> (s: Span)
        ensures
            s.start == 0,
            s.end == 0,
    {
        Span { start: 0, end: 0 }
    }
}

} // verus!

verus! {

/// The number of newlines among the first `k` characters of `s`.
pub open spec fn newlines_before(s: Seq<char>, k: int) -> nat
    decreases k,
{
    if k <= 0 {
        0
    } else {
        newlines_before(s, k - 1) + if k - 1 < s.len() && s[k - 1] == '\n' {
            1nat
        } else {
            0nat
        }
    }
}

/// The offset at which the line holding offset `k` begins.
pub open spec fn line_start_before(s: Seq<char>, k: int) -> int
    decreases k,
{
    if k <= 0 {
        0
    } else if k - 1 < s.len() && s[k - 1] == '\n' {
        k
    } else {
        line_start_before(s, k - 1)
    }
}

/// `n + 1`, saturating at `usize::MAX`.
pub open spec fn sat_succ(n: nat) -> nat {
    if n + 1 <= usize::MAX { n + 1 } else { usize::MAX as nat }
}

/// A one-based line and column.
#[derive(Debug, Clone, Copy, PartialEq, Eq)]
pub struct Location {
    pub line: usize,
    pub column: usize,
}

/// Maps character offsets of a source text to lines and columns.
pub struct LineIndex {
    chars: Vec<char>,
}

impl LineIndex {
    pub closed spec fn text(&self) -> Seq<char> {
        self.chars@
    }

    pub fn new(source: &str) -> (idx: LineIndex)
        ensures
            idx.text() == source@,
    {
        LineIndex { chars: crate::chars::str_chars(source) }
    }

    /// The line (one plus the newlines before `offset`) and column (one plus
    /// the characters between the line's start and `offset`) of `offset`.
    pub fn location(&self, offset: usize) -> (loc: Location)
        ensures
            loc.line == sat_succ(newlines_before(self.text(), offset as int)),
            loc.column == sat_succ((offset - line_start_before(self.text(), offset as int)) as nat),
    {
        let n = self.chars.len();
        let mut k: usize = 0;
        let mut lines: usize = 0;
        let mut start: usize = 0;
        while k < offset
            invariant
                k <= offset,
                n == self.chars@.len(),
                lines == newlines_before(self.chars@, k as int),
                lines <= k,
                start == line_start_before(self.chars@, k as int),
                start <= k,
            decreases offset - k,
        {
            if k < n && self.chars[k] == '\n' {
                lines = lines + 1;
                start = k + 1;
            }
            k = k + 1;
        }
        Location { line: lines.saturating_add(1), column: (offset - start).saturating_add(1) }
    }
}

} // verus!
