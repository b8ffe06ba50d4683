//! A reduced lexer for the arithmetic core of the language: parentheses,
//! natural-number literals with optional `_` separators, and `+`.  It
//! tracks byte offsets only, with no line or column bookkeeping.

use vstd::prelude::*;

use crate::lexer::{digit_val, is_decimal_digit, is_digit_char, is_whitespace, is_ws_char,
    lemma_skip_ws_through, skip_ws};
use crate::range::{byte_at, lemma_byte_at_mono};

verus! {

/// A byte offset into the input.
#[derive(Debug, Clone, Copy, PartialEq, Eq, Structural)]
pub struct Position {
    pub index: u32,
}

/// A half-open `(start, end)` pair of byte offsets.
#[derive(Debug, Clone, Copy, PartialEq, Eq, Structural)]
pub struct Range {
    pub start: Position,
    pub end: Position,
}

impl Range {
    pub fn new(start: Position, end: Position) -> (r: Range)
        ensures
            r.start == start,
            r.end == end,
    {
        Range { start, end }
    }
}

/// The tokens of the arithmetic core.
#[derive(Debug, Clone, Copy, PartialEq, Eq, Structural)]
pub enum Token {
    /// `(`
    LPar,
    /// `)`
    RPar,
    /// A natural-number literal.
    LInt(u64),
    /// `+`
    OpPlus,
    /// End of file.
    EOF,
}

/// A character that may continue a numeric lexeme: a digit or a `_`
/// separator.
pub open spec fn is_num_char(c: char) -> bool {
    is_digit_char(c) || c == '_'
}

/// End of the maximal numeric run starting at `i`.
pub open spec fn num_run_end(s: Seq<char>, i: int) -> int
    decreases s.len() - i,
{
    if i < s.len() && is_num_char(s[i]) {
        num_run_end(s, i + 1)
    } else {
        i
    }
}

/// Value of a numeric lexeme read in base ten, with `_` separators
/// contributing nothing.
pub open spec fn num_val(s: Seq<char>) -> nat
    decreases s.len(),
{
    if s.len() == 0 {
        0
    } else if s.last() == '_' {
        num_val(s.drop_last())
    } else {
        num_val(s.drop_last()) * 10 + digit_val(s.last())
    }
}

/// A maximal numeric run begins at `j`.
pub open spec fn num_start(s: Seq<char>, j: int) -> bool {
    &&& 0 <= j < s.len()
    &&& is_num_char(s[j])
    &&& (j == 0 || !is_num_char(s[j - 1]))
}

/// A character the arithmetic core understands.
pub open spec fn arith_char_ok(c: char) -> bool {
    is_ws_char(c) || c == '(' || c == ')' || c == '+' || is_num_char(c)
}

/// Input the arithmetic lexer accepts without aborting: only characters
/// of its alphabet, every numeric lexeme starting with a digit, and every
/// numeric value fitting the machine.
pub open spec fn clean_arith(s: Seq<char>) -> bool {
    &&& forall|k: int| 0 <= k < s.len() ==> arith_char_ok(#[trigger] s[k])
    &&& forall|j: int| #[trigger]
        num_start(s, j) ==> is_digit_char(s[j]) && num_val(s.subrange(j, num_run_end(s, j)))
            <= u64::MAX
}

/// The token lexed from `s` at character index `i`.
pub open spec fn arith_token(s: Seq<char>, i: int) -> Token {
    let j = skip_ws(s, i);
    if j >= s.len() {
        Token::EOF
    } else if is_digit_char(s[j]) {
        Token::LInt(num_val(s.subrange(j, num_run_end(s, j))) as u64)
    } else if s[j] == '(' {
        Token::LPar
    } else if s[j] == ')' {
        Token::RPar
    } else if s[j] == '+' {
        Token::OpPlus
    } else {
        Token::EOF
    }
}

/// Cursor position after lexing one token from character index `i`.
pub open spec fn arith_token_end(s: Seq<char>, i: int) -> int {
    let j = skip_ws(s, i);
    if j >= s.len() {
        j
    } else if is_digit_char(s[j]) {
        num_run_end(s, j)
    } else {
        j + 1
    }
}

/// The range of the token lexed from character index `i`, in byte
/// offsets.
pub open spec fn arith_range(s: Seq<char>, i: int) -> Range {
    Range {
        start: Position { index: byte_at(s, skip_ws(s, i)) as u32 },
        end: Position { index: byte_at(s, arith_token_end(s, i)) as u32 },
    }
}

/// `num_run_end` stays within bounds, covers only numeric characters,
/// and stops at the first character that cannot extend the run.
pub proof fn lemma_num_run_end(s: Seq<char>, i: int)
    requires
        0 <= i <= s.len(),
    ensures
        i <= num_run_end(s, i) <= s.len(),
        forall|k: int| i <= k < num_run_end(s, i) ==> is_num_char(#[trigger] s[k]),
        num_run_end(s, i) == s.len() || !is_num_char(s[num_run_end(s, i)]),
    decreases s.len() - i,
{
    if i < s.len() && is_num_char(s[i]) {
        lemma_num_run_end(s, i + 1);
    }
}

/// An interval of numeric characters that cannot be extended to the
/// right is exactly the maximal numeric run.
pub proof fn lemma_num_run_unique(s: Seq<char>, i: int, j: int)
    requires
        0 <= i <= j <= s.len(),
        forall|k: int| i <= k < j ==> is_num_char(#[trigger] s[k]),
        j == s.len() || !is_num_char(s[j]),
    ensures
        num_run_end(s, i) == j,
    decreases j - i,
{
    if i < j {
        lemma_num_run_unique(s, i + 1, j);
    }
}

/// The value of a numeric lexeme grows with its length: a prefix never
/// has a larger value.
pub proof fn lemma_num_val_prefix(s: Seq<char>, i: int, j: int, k: int)
    requires
        0 <= i <= j <= k <= s.len(),
    ensures
        num_val(s.subrange(i, j)) <= num_val(s.subrange(i, k)),
    decreases k - j,
{
    if j < k {
        lemma_num_val_prefix(s, i, j, k - 1);
        assert(s.subrange(i, k).drop_last() =~= s.subrange(i, k - 1));
    }
}

/// Reading one more character multiplies the value by ten and adds the
/// digit, or leaves it unchanged for a `_` separator.
pub proof fn lemma_num_val_step(s: Seq<char>, i: int, k: int)
    requires
        0 <= i <= k < s.len(),
    ensures
        s[k] == '_' ==> num_val(s.subrange(i, k + 1)) == num_val(s.subrange(i, k)),
        s[k] != '_' ==> num_val(s.subrange(i, k + 1)) == num_val(s.subrange(i, k)) * 10
            + digit_val(s[k]),
{
    assert(s.subrange(i, k + 1).drop_last() =~= s.subrange(i, k));
    assert(s.subrange(i, k + 1).last() == s[k]);
}

/// Executable counterpart of `is_num_char`.
fn is_numeric_char(c: char) -> (r: bool)
    ensures
        r == is_num_char(c),
{
    is_decimal_digit(c) || c == '_'
}

/// The lexer state: the input text as characters, the index of the next
/// character to consume, and its byte offset.
pub struct Lexer {
    pub input: Vec<char>,
    pub cursor: usize,
    pub position: usize,
}

impl Lexer {
    /// The input text.
    pub open spec fn src(&self) -> Seq<char> {
        self.input@
    }

    /// The cursor is in bounds, `position` is its exact byte offset, and
    /// every byte offset of the text fits the `u32` a `Position` holds.
    pub open spec fn wf(&self) -> bool {
        &&& self.cursor <= self.input@.len()
        &&& self.position == byte_at(self.input@, self.cursor as int)
        &&& byte_at(self.input@, self.input@.len() as int) <= u32::MAX
    }

    /// The cursor does not sit strictly inside a numeric lexeme.
    pub open spec fn at_boundary(&self) -> bool {
        ||| self.cursor == 0
        ||| self.cursor == self.input@.len()
        ||| !is_num_char(self.input@[self.cursor - 1])
        ||| !is_num_char(self.input@[self.cursor as int])
    }

    pub fn new(input: &str) -> (l: Lexer)
        requires
            byte_at(input@, input@.len() as int) <= u32::MAX,
        ensures
            l.wf(),
            l.at_boundary(),
            l.src() == input@,
            l.cursor == 0,
            l.position == 0,
    {
        let chars = crate::lexer::collect_chars(input);
        Lexer { input: chars, cursor: 0, position: 0 }
    }

    /// Consume one character, advancing the byte offset by its UTF-8
    /// width.
    pub fn next_char(&mut self) -> (r: Option<char>)
        requires
            old(self).wf(),
        ensures
            final(self).wf(),
            final(self).input == old(self).input,
            old(self).cursor < old(self).input@.len() ==> {
                &&& r == Some(old(self).input@[old(self).cursor as int])
                &&& final(self).cursor == old(self).cursor + 1
            },
            old(self).cursor >= old(self).input@.len() ==> {
                &&& r is None
                &&& *final(self) == *old(self)
            },
    {
        if self.cursor < self.input.len() {
            let c = self.input[self.cursor];
            proof {
                lemma_byte_at_mono(self.input@, self.cursor + 1, self.input@.len() as int);
            }
            self.position = self.position + crate::range::utf8_len(c);
            self.cursor = self.cursor + 1;
            Some(c)
        } else {
            None
        }
    }

    /// The range from byte offset `start` to the current byte offset.
    fn mk_range(&self, start: usize) -> (r: Range)
        requires
            self.wf(),
            start <= u32::MAX,
        ensures
            r.start.index == start,
            r.end.index == self.position,
    {
        proof {
            lemma_byte_at_mono(self.input@, self.cursor as int, self.input@.len() as int);
        }
        Range::new(
            Position { index: start as u32 },
            Position { index: self.position as u32 },
        )
    }

    /// Consume one character and emit `token` spanning from byte offset
    /// `start`.
    fn to_single_token(&mut self, token: Token, start: usize) -> (r: (Token, Range))
        requires
            old(self).wf(),
            old(self).cursor < old(self).input@.len(),
            start <= u32::MAX,
        ensures
            final(self).wf(),
            final(self).input == old(self).input,
            final(self).cursor == old(self).cursor + 1,
            r.0 == token,
            r.1.start.index == start,
            r.1.end.index == byte_at(old(self).input@, old(self).cursor + 1),
    {
        self.next_char();
        (token, self.mk_range(start))
    }

    /// Consume the maximal run of characters satisfying `condition`
    /// (which must implement the spec predicate `p` exactly).
    fn accumulate_while<F: Fn(char) -> bool>(
        &mut self,
        condition: F,
        Ghost(p): Ghost<spec_fn(char) -> bool>,
    )
        requires
            old(self).wf(),
            forall|c: char| #[trigger] call_requires(condition, (c,)),
            forall|c: char, b: bool| #[trigger] call_ensures(condition, (c,), b) ==> b == p(c),
        ensures
            final(self).wf(),
            final(self).input == old(self).input,
            old(self).cursor <= final(self).cursor <= old(self).input@.len(),
            forall|k: int|
                old(self).cursor <= k < final(self).cursor ==> p(#[trigger] old(self).input@[k]),
            final(self).cursor == old(self).input@.len()
                || !p(old(self).input@[final(self).cursor as int]),
    {
        let ghost s = self.input@;
        let ghost c0 = self.cursor as int;
        loop
            invariant
                self.wf(),
                self.input == old(self).input,
                self.input@ == s,
                c0 <= self.cursor <= s.len(),
                c0 == old(self).cursor,
                forall|k: int| c0 <= k < self.cursor ==> p(#[trigger] s[k]),
                forall|c: char| #[trigger] call_requires(condition, (c,)),
                forall|c: char, b: bool| #[trigger] call_ensures(condition, (c,), b) ==> b == p(c),
            ensures
                self.wf(),
                self.input == old(self).input,
                c0 <= self.cursor <= s.len(),
                forall|k: int| c0 <= k < self.cursor ==> p(#[trigger] s[k]),
                self.cursor == s.len() || !p(s[self.cursor as int]),
            decreases s.len() - self.cursor,
        {
            if self.cursor >= self.input.len() {
                break;
            }
            let x = self.input[self.cursor];
            if !condition(x) {
                break;
            }
            self.next_char();
        }
    }

    /// Lex one token: skip whitespace, then classify a numeric lexeme, a
    /// parenthesis or a `+`, and return it with its byte-offset range.
    /// At end of input this returns `EOF` forever.
    pub fn tokenize(&mut self) -> (r: (Token, Range))
        requires
            old(self).wf(),
            old(self).at_boundary(),
            clean_arith(old(self).input@),
        ensures
            final(self).wf(),
            final(self).at_boundary(),
            final(self).input == old(self).input,
            final(self).cursor == arith_token_end(old(self).input@, old(self).cursor as int),
            r.0 == arith_token(old(self).input@, old(self).cursor as int),
            r.1 == arith_range(old(self).input@, old(self).cursor as int),
        decreases old(self).input@.len() - old(self).cursor,
    {
        let ghost s = self.input@;
        let ghost c0 = self.cursor as int;
        let start = self.position;
        proof {
            lemma_byte_at_mono(s, c0, s.len() as int);
        }
        if self.cursor >= self.input.len() {
            (Token::EOF, self.mk_range(start))
        } else {
            let c = self.input[self.cursor];
            if is_whitespace(c) {
                self.accumulate_while(is_whitespace, Ghost(|ch: char| is_ws_char(ch)));
                proof {
                    lemma_skip_ws_through(s, c0, self.cursor as int);
                }
                self.tokenize()
            } else if is_decimal_digit(c) {
                let run_start = self.cursor;
                self.accumulate_while(is_numeric_char, Ghost(|ch: char| is_num_char(ch)));
                proof {
                    lemma_num_run_unique(s, c0, self.cursor as int);
                    assert(skip_ws(s, c0) == c0);
                    assert(num_start(s, c0));
                }
                let mut value: u64 = 0;
                let mut k: usize = run_start;
                while k < self.cursor
                    invariant
                        self.wf(),
                        self.input@ == s,
                        run_start as int == c0,
                        c0 <= k <= self.cursor,
                        self.cursor == num_run_end(s, c0),
                        num_start(s, c0),
                        clean_arith(s),
                        value == num_val(s.subrange(c0, k as int)),
                    decreases self.cursor - k,
                {
                    let d = self.input[k];
                    proof {
                        lemma_num_run_end(s, c0);
                        assert(s.subrange(c0, num_run_end(s, c0))[k - c0] == s[k as int]);
                        lemma_num_val_step(s, c0, k as int);
                        lemma_num_val_prefix(s, c0, k + 1, num_run_end(s, c0));
                        assert(num_val(s.subrange(c0, num_run_end(s, c0))) <= u64::MAX);
                    }
                    if d != '_' {
                        proof {
                            assert(arith_char_ok(s[k as int]));
                            assert(is_digit_char(d));
                        }
                        let dv = ((d as u32) - 48) as u64;
                        value = value * 10 + dv;
                    }
                    k = k + 1;
                }
                proof {
                    assert(s.subrange(c0, k as int) =~= s.subrange(c0, num_run_end(s, c0)));
                }
                (Token::LInt(value), self.mk_range(start))
            } else if c == '(' {
                self.to_single_token(Token::LPar, start)
            } else if c == ')' {
                self.to_single_token(Token::RPar, start)
            } else if c == '+' {
                self.to_single_token(Token::OpPlus, start)
            } else {
                // `clean_arith` admits no character outside the alphabet
                // handled above, and no `_` at the start of a lexeme, so
                // this arm is unreachable.
                proof {
                    assert(arith_char_ok(s[c0]));
                    assert(num_start(s, c0));
                    assert(false);
                }
                (Token::EOF, self.mk_range(start))
            }
        }
    }
}

} // verus!
