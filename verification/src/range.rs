//! Source positions and ranges.
//!
//! A `Position` is a cursor over the input text: a line number, a column
//! within the line, and the byte offset of the cursor in the UTF-8 encoding
//! of the text.  A `Range` is an immutable `(start, end)` pair of positions
//! bounding a token or an expression.

use vstd::prelude::*;

verus! {

/// Width in bytes of the UTF-8 encoding of `c`.
pub open spec fn char_len(c: char) -> nat {
    if (c as u32) < 0x80 {
        1
    } else if (c as u32) < 0x800 {
        2
    } else if (c as u32) < 0x10000 {
        3
    } else {
        4
    }
}

/// Executable counterpart of `char_len`.
pub fn utf8_len(c: char) -> (n: usize)
    ensures
        n == char_len(c),
{
    let u: u32 = c as u32;
    if u < 0x80 {
        1
    } else if u < 0x800 {
        2
    } else if u < 0x10000 {
        3
    } else {
        4
    }
}

/// Number of newline characters among the first `i` characters of `s`:
/// the line a cursor is on after consuming them.
pub open spec fn line_at(s: Seq<char>, i: int) -> nat
    decreases i,
{
    if i <= 0 {
        0
    } else {
        line_at(s, i - 1) + if s[i - 1] == '\n' {
            1nat
        } else {
            0nat
        }
    }
}

/// Number of characters consumed since the last newline: the column of a
/// cursor that has consumed the first `i` characters of `s`.
pub open spec fn col_at(s: Seq<char>, i: int) -> nat
    decreases i,
{
    if i <= 0 {
        0
    } else if s[i - 1] == '\n' {
        0
    } else {
        col_at(s, i - 1) + 1
    }
}

/// Byte offset of a cursor that has consumed the first `i` characters of
/// `s`: the cumulative UTF-8 length of those characters.
pub open spec fn byte_at(s: Seq<char>, i: int) -> nat
    decreases i,
{
    if i <= 0 {
        0
    } else {
        byte_at(s, i - 1) + char_len(s[i - 1])
    }
}

/// `p` is the position of a cursor that has consumed the first `i`
/// characters of `s`.
pub open spec fn pos_is(p: Position, s: Seq<char>, i: int) -> bool {
    &&& p.line == line_at(s, i)
    &&& p.column == col_at(s, i)
    &&& p.index == byte_at(s, i)
}

/// Consuming more characters never moves the byte offset backwards, and
/// each character moves it forward by at least one byte.
pub proof fn lemma_byte_at_mono(s: Seq<char>, i: int, j: int)
    requires
        0 <= i <= j,
    ensures
        byte_at(s, i) + (j - i) <= byte_at(s, j),
    decreases j - i,
{
    if i < j {
        lemma_byte_at_mono(s, i, j - 1);
    }
}

/// Line and column never exceed the number of characters consumed.
pub proof fn lemma_line_col_le(s: Seq<char>, i: int)
    requires
        0 <= i,
    ensures
        line_at(s, i) <= i,
        col_at(s, i) <= i,
    decreases i,
{
    if 0 < i {
        lemma_line_col_le(s, i - 1);
    }
}

#[derive(Debug, Clone, Copy, PartialEq, Eq, Structural)]
pub struct Position {
    pub line: usize,
    pub column: usize,
    pub index: usize,
}

#[derive(Debug, Clone, Copy, PartialEq, Eq, Structural)]
pub struct Range {
    pub start: Position,
    pub end: Position,
}

impl Position {
    pub fn new(line: usize, column: usize, index: usize) -> (p: Position)
        ensures
            p.line == line,
            p.column == column,
            p.index == index,
    {
        Position { line, column, index }
    }

    /// Move the cursor past `chr`: a newline starts a new line at column 0,
    /// any other character advances the column; either way the byte offset
    /// grows by the character's UTF-8 width.
    pub fn advance(&mut self, chr: char)
        requires
            old(self).line < usize::MAX,
            old(self).column < usize::MAX,
            old(self).index + char_len(chr) <= usize::MAX,
        ensures
            chr == '\n' ==> final(self).line == old(self).line + 1 && final(self).column == 0,
            chr != '\n' ==> final(self).line == old(self).line && final(self).column == old(self).column
                + 1,
            final(self).index == old(self).index + char_len(chr),
    {
        if chr == '\n' {
            self.column = 0;
            self.line = self.line + 1;
        } else {
            self.column = self.column + 1;
        }
        self.index = self.index + utf8_len(chr);
    }
}

impl Range {
    pub fn new(start: Position, end: Position) -> (r: Range)
        ensures
            r.start == start,
            r.end == end,
    {
        Range { start, end }
    }
}

/// Both ends of `r` are cursor positions in `s`: `r` spans the characters
/// from index `i` to index `j`.
pub open spec fn range_is(r: Range, s: Seq<char>, i: int, j: int) -> bool {
    &&& pos_is(r.start, s, i)
    &&& pos_is(r.end, s, j)
}

} // verus!
