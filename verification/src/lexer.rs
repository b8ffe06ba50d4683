//! A pull-based tokenizer.
//!
//! Each call to [`Lexer::tokenize`] consumes whitespace transparently,
//! classifies the next maximal lexeme, and returns exactly one
//! `(Token, Range)` pair; at end of input it returns `EOF` forever.
//!
//! The functions `skip_ws`, `run_end`, `spec_token` and `token_end` form
//! the mathematical description of that behaviour: what the next token of
//! `s` is when lexing starts at character index `i`, and where the cursor
//! stands afterwards.

use vstd::prelude::*;
use vstd::string::StrSliceExecFns;

use crate::range::{byte_at, lemma_byte_at_mono, lemma_line_col_le, pos_is, range_is, Position,
    Range};
use crate::token::{Token, TokenView};

verus! {

/// Whitespace skipped between tokens: space, carriage return, tab.
/// Newlines are deliberately ordinary identifier characters here.
pub open spec fn is_ws_char(c: char) -> bool {
    c == ' ' || c == '\r' || c == '\t'
}

/// Everything except parentheses and whitespace may appear in an
/// identifier.
pub open spec fn is_ident_char(c: char) -> bool {
    c != '(' && c != ')' && !is_ws_char(c)
}

/// A decimal digit.
pub open spec fn is_digit_char(c: char) -> bool {
    48 <= (c as u32) && (c as u32) <= 57
}

/// Numeric value of a decimal digit.
pub open spec fn digit_val(c: char) -> nat
    recommends
        is_digit_char(c),
{
    ((c as u32) - 48) as nat
}

/// Value of a sequence of decimal digits read in base ten.
pub open spec fn seq_to_nat(s: Seq<char>) -> nat
    decreases s.len(),
{
    if s.len() == 0 {
        0
    } else {
        seq_to_nat(s.drop_last()) * 10 + digit_val(s.last())
    }
}

/// Every character of `s` is a decimal digit.
pub open spec fn all_digits(s: Seq<char>) -> bool {
    forall|k: int| 0 <= k < s.len() ==> is_digit_char(#[trigger] s[k])
}

/// First index at or after `i` that does not hold whitespace.
pub open spec fn skip_ws(s: Seq<char>, i: int) -> int
    decreases s.len() - i,
{
    if i < s.len() && is_ws_char(s[i]) {
        skip_ws(s, i + 1)
    } else {
        i
    }
}

/// End of the maximal run of identifier characters starting at `i`.
pub open spec fn run_end(s: Seq<char>, i: int) -> int
    decreases s.len() - i,
{
    if i < s.len() && is_ident_char(s[i]) {
        run_end(s, i + 1)
    } else {
        i
    }
}

/// Index of the first character of the token lexed from index `i`: the
/// whitespace before it is skipped, not emitted.
pub open spec fn token_start(s: Seq<char>, i: int) -> int {
    skip_ws(s, i)
}

/// Cursor position after lexing one token from index `i`.
pub open spec fn token_end(s: Seq<char>, i: int) -> int {
    let j = skip_ws(s, i);
    if j >= s.len() {
        j
    } else if s[j] == '(' || s[j] == ')' {
        j + 1
    } else {
        run_end(s, j)
    }
}

/// The token lexed from `s` at character index `i`.
pub open spec fn spec_token(s: Seq<char>, i: int) -> TokenView {
    let j = skip_ws(s, i);
    if j >= s.len() {
        TokenView::EOF
    } else if s[j] == '(' {
        TokenView::LPar
    } else if s[j] == ')' {
        TokenView::RPar
    } else if is_digit_char(s[j]) {
        TokenView::Int(seq_to_nat(s.subrange(j, run_end(s, j))))
    } else {
        TokenView::Id(s.subrange(j, run_end(s, j)))
    }
}

/// The position of a cursor that has consumed `i` characters of `s`,
/// as a `Position` value.
pub open spec fn pos_at(s: Seq<char>, i: int) -> Position {
    Position {
        line: crate::range::line_at(s, i) as usize,
        column: crate::range::col_at(s, i) as usize,
        index: byte_at(s, i) as usize,
    }
}

/// The range spanning characters `i` (inclusive) to `j` (exclusive).
pub open spec fn range_at(s: Seq<char>, i: int, j: int) -> Range {
    Range { start: pos_at(s, i), end: pos_at(s, j) }
}

/// The range of the token lexed from index `i`: exactly its lexeme, or the
/// empty range at end of input.
pub open spec fn token_range(s: Seq<char>, i: int) -> Range {
    range_at(s, token_start(s, i), token_end(s, i))
}

/// A maximal identifier run starting with a digit begins at `j`.
pub open spec fn run_start(s: Seq<char>, j: int) -> bool {
    &&& 0 <= j < s.len()
    &&& is_digit_char(s[j])
    &&& (j == 0 || !is_ident_char(s[j - 1]))
}

/// The run starting at `j` is a well-formed integer literal: digits only,
/// with a value that fits the machine.
pub open spec fn num_ok(s: Seq<char>, j: int) -> bool {
    &&& all_digits(s.subrange(j, run_end(s, j)))
    &&& seq_to_nat(s.subrange(j, run_end(s, j))) <= usize::MAX
}

/// Every lexeme of `s` that starts with a digit is a well-formed integer
/// literal.  Lexemes such as `12a4`, and digit runs whose value overflows
/// `usize`, have no token to map to; they are excluded up front so that
/// lexing is total and cannot abort.
pub open spec fn clean_input(s: Seq<char>) -> bool {
    forall|j: int| #[trigger] run_start(s, j) ==> num_ok(s, j)
}

/// `skip_ws` stays within bounds, skips only whitespace, and stops at the
/// first non-whitespace character.
pub proof fn lemma_skip_ws(s: Seq<char>, i: int)
    requires
        0 <= i <= s.len(),
    ensures
        i <= skip_ws(s, i) <= s.len(),
        forall|k: int| i <= k < skip_ws(s, i) ==> is_ws_char(#[trigger] s[k]),
        skip_ws(s, i) == s.len() || !is_ws_char(s[skip_ws(s, i)]),
    decreases s.len() - i,
{
    if i < s.len() && is_ws_char(s[i]) {
        lemma_skip_ws(s, i + 1);
    }
}

/// `run_end` stays within bounds, covers only identifier characters, and
/// stops at the first character that cannot extend the run.
pub proof fn lemma_run_end(s: Seq<char>, i: int)
    requires
        0 <= i <= s.len(),
    ensures
        i <= run_end(s, i) <= s.len(),
        forall|k: int| i <= k < run_end(s, i) ==> is_ident_char(#[trigger] s[k]),
        run_end(s, i) == s.len() || !is_ident_char(s[run_end(s, i)]),
    decreases s.len() - i,
{
    if i < s.len() && is_ident_char(s[i]) {
        lemma_run_end(s, i + 1);
    }
}

/// An interval of identifier characters that cannot be extended to the
/// right is exactly the maximal run: `run_end` is determined by its
/// characterization.
pub proof fn lemma_run_end_unique(s: Seq<char>, i: int, j: int)
    requires
        0 <= i <= j <= s.len(),
        forall|k: int| i <= k < j ==> is_ident_char(#[trigger] s[k]),
        j == s.len() || !is_ident_char(s[j]),
    ensures
        run_end(s, i) == j,
    decreases j - i,
{
    if i < j {
        lemma_run_end_unique(s, i + 1, j);
    }
}

/// Likewise for `skip_ws`.
pub proof fn lemma_skip_ws_unique(s: Seq<char>, i: int, j: int)
    requires
        0 <= i <= j <= s.len(),
        forall|k: int| i <= k < j ==> is_ws_char(#[trigger] s[k]),
        j == s.len() || !is_ws_char(s[j]),
    ensures
        skip_ws(s, i) == j,
    decreases j - i,
{
    if i < j {
        lemma_skip_ws_unique(s, i + 1, j);
    }
}

/// Skipping part of the whitespace before a token does not change the
/// token: lexing from `i` and from `j` agree when everything in between is
/// whitespace.
pub proof fn lemma_skip_ws_through(s: Seq<char>, i: int, j: int)
    requires
        0 <= i <= j <= s.len(),
        forall|k: int| i <= k < j ==> is_ws_char(#[trigger] s[k]),
    ensures
        skip_ws(s, i) == skip_ws(s, j),
    decreases j - i,
{
    if i < j {
        lemma_skip_ws_through(s, i + 1, j);
    }
}

/// The value of a digit string grows with its length: a prefix never has
/// a larger value.
pub proof fn lemma_seq_to_nat_prefix(s: Seq<char>, i: int, j: int, k: int)
    requires
        0 <= i <= j <= k <= s.len(),
    ensures
        seq_to_nat(s.subrange(i, j)) <= seq_to_nat(s.subrange(i, k)),
    decreases k - j,
{
    if j < k {
        lemma_seq_to_nat_prefix(s, i, j, k - 1);
        assert(s.subrange(i, k).drop_last() =~= s.subrange(i, k - 1));
    }
}

/// Appending one digit multiplies the value by ten and adds the digit.
pub proof fn lemma_seq_to_nat_step(s: Seq<char>, i: int, k: int)
    requires
        0 <= i <= k < s.len(),
    ensures
        seq_to_nat(s.subrange(i, k + 1)) == seq_to_nat(s.subrange(i, k)) * 10 + digit_val(s[k]),
{
    assert(s.subrange(i, k + 1).drop_last() =~= s.subrange(i, k));
    assert(s.subrange(i, k + 1).last() == s[k]);
}

/// Bounds for one lexing step: the cursor never moves backwards, moves
/// strictly forward unless the token is `EOF`, and reaches the end of the
/// input exactly when it is.
pub proof fn lemma_token_end(s: Seq<char>, i: int)
    requires
        0 <= i <= s.len(),
    ensures
        i <= token_end(s, i) <= s.len(),
        i <= token_start(s, i) <= token_end(s, i),
        spec_token(s, i) != (TokenView::EOF) ==> i < token_end(s, i),
        spec_token(s, i) == (TokenView::EOF) ==> token_end(s, i) == s.len() && token_start(s, i)
            == s.len(),
{
    lemma_skip_ws(s, i);
    let j = skip_ws(s, i);
    if j < s.len() && !(s[j] == '(' || s[j] == ')') {
        lemma_run_end(s, j + 1);
    }
}

/// A position known field-by-field is the `Position` value of its index.
pub proof fn lemma_pos_is_eq(p: Position, s: Seq<char>, i: int)
    requires
        pos_is(p, s, i),
    ensures
        p == pos_at(s, i),
{
}

/// A range known end-by-end is the `Range` value of its indices.
pub proof fn lemma_range_is_eq(r: Range, s: Seq<char>, i: int, j: int)
    requires
        range_is(r, s, i, j),
    ensures
        r == range_at(s, i, j),
{
}

/// Executable counterpart of `is_ws_char`.
pub fn is_whitespace(c: char) -> (r: bool)
    ensures
        r == is_ws_char(c),
{
    c == ' ' || c == '\r' || c == '\t'
}

/// Executable counterpart of `is_ident_char`.
pub fn is_valid_identifier(c: char) -> (r: bool)
    ensures
        r == is_ident_char(c),
{
    c != '(' && c != ')' && !is_whitespace(c)
}

/// Executable counterpart of `is_digit_char`.
pub fn is_decimal_digit(c: char) -> (r: bool)
    ensures
        r == is_digit_char(c),
{
    let u: u32 = c as u32;
    48 <= u && u <= 57
}

/// Executable counterpart of `digit_val`.
fn digit_to_val(c: char) -> (v: usize)
    requires
        is_digit_char(c),
    ensures
        v == digit_val(c),
{
    ((c as u32) - 48) as usize
}

/// Relies on `str::len`: the byte length of UTF-8 text is the sum of the
/// widths of its characters, and std keeps every `str` at most
/// `isize::MAX` bytes, so that sum fits in `usize`.
#[verifier::external_body]
fn str_byte_len(s: &str) -> (n: usize)
    ensures
        n == byte_at(s@, s@.len() as int),
{
    s.len()
}

/// Relies on `String::push`: appends one character at the end.
#[verifier::external_body]
fn push_char(s: &mut String, c: char)
    ensures
        final(s)@ == old(s)@.push(c),
{
    s.push(c);
}

/// The characters of `input`, in order.
pub(crate) fn collect_chars(input: &str) -> (v: Vec<char>)
    ensures
        v@ == input@,
{
    let ghost s = input@;
    let n = input.unicode_len();
    let mut v: Vec<char> = Vec::new();
    let mut i: usize = 0;
    while i < n
        invariant
            i <= n,
            n == s.len(),
            input@ == s,
            v@ =~= s.take(i as int),
        decreases n - i,
    {
        let c = input.get_char(i);
        v.push(c);
        i = i + 1;
        proof {
            assert(v@ =~= s.take(i as int));
        }
    }
    proof {
        assert(v@ =~= s);
    }
    v
}

/// The lexer state: the input text as characters, the index of the next
/// character to consume, and position bookkeeping for ranges.
pub struct Lexer {
    pub input: Vec<char>,
    pub cursor: usize,
    pub current_pos: Position,
    pub start_pos: Position,
}

impl Lexer {
    /// The input text.
    pub open spec fn src(&self) -> Seq<char> {
        self.input@
    }

    /// The cursor is in bounds, the tracked position is the cursor's true
    /// position, and every byte offset of the text fits in `usize`.
    pub open spec fn wf(&self) -> bool {
        &&& self.cursor <= self.input@.len()
        &&& pos_is(self.current_pos, self.input@, self.cursor as int)
        &&& byte_at(self.input@, self.input@.len() as int) <= usize::MAX
    }

    /// The cursor does not sit strictly inside an identifier run: what
    /// comes next is a fresh token, never the tail of one already emitted.
    pub open spec fn at_boundary(&self) -> bool {
        ||| self.cursor == 0
        ||| self.cursor == self.input@.len()
        ||| !is_ident_char(self.input@[self.cursor - 1])
        ||| !is_ident_char(self.input@[self.cursor as int])
    }

    pub fn new(input: &str) -> (l: Lexer)
        ensures
            l.wf(),
            l.at_boundary(),
            l.src() == input@,
            l.cursor == 0,
            l.current_pos == pos_at(input@, 0),
            l.start_pos == pos_at(input@, 0),
    {
        let v = collect_chars(input);
        let total: usize = str_byte_len(input);
        Lexer {
            input: v,
            cursor: 0,
            current_pos: Position::new(0, 0, 0),
            start_pos: Position::new(0, 0, 0),
        }
    }

    /// The range from the remembered start of the current lexeme to the
    /// current position.
    fn range(&self) -> (r: Range)
        ensures
            r.start == self.start_pos,
            r.end == self.current_pos,
    {
        Range::new(self.start_pos, self.current_pos)
    }

    /// Consume one character, keeping the tracked position exact.
    fn next_char(&mut self) -> (r: Option<char>)
        requires
            old(self).wf(),
        ensures
            final(self).wf(),
            final(self).input == old(self).input,
            final(self).start_pos == old(self).start_pos,
            old(self).cursor < old(self).input@.len() ==> {
                &&& r == Some(old(self).input@[old(self).cursor as int])
                &&& final(self).cursor == old(self).cursor + 1
            },
            old(self).cursor >= old(self).input@.len() ==> {
                &&& r is None
                &&& *final(self) == *old(self)
            },
    {
        if self.cursor < self.input.len() {
            let c = self.input[self.cursor];
            proof {
                let s = self.input@;
                let cur = self.cursor as int;
                lemma_line_col_le(s, cur);
                lemma_byte_at_mono(s, 0, cur + 1);
                lemma_byte_at_mono(s, cur + 1, s.len() as int);
            }
            self.current_pos.advance(c);
            self.cursor = self.cursor + 1;
            Some(c)
        } else {
            None
        }
    }

    /// Consume the maximal run of characters satisfying `condition`
    /// (which must implement the spec predicate `p` exactly) and return
    /// the consumed lexeme.
    fn accumulate_while<F: Fn(char) -> bool>(
        &mut self,
        condition: F,
        Ghost(p): Ghost<spec_fn(char) -> bool>,
    ) -> (r: String)
        requires
            old(self).wf(),
            forall|c: char| #[trigger] call_requires(condition, (c,)),
            forall|c: char, b: bool| #[trigger] call_ensures(condition, (c,), b) ==> b == p(c),
        ensures
            final(self).wf(),
            final(self).input == old(self).input,
            final(self).start_pos == old(self).start_pos,
            old(self).cursor <= final(self).cursor <= old(self).input@.len(),
            forall|k: int|
                old(self).cursor <= k < final(self).cursor ==> p(#[trigger] old(self).input@[k]),
            final(self).cursor == old(self).input@.len()
                || !p(old(self).input@[final(self).cursor as int]),
            r@ == old(self).input@.subrange(old(self).cursor as int, final(self).cursor as int),
    {
        let ghost s = self.input@;
        let ghost c0 = self.cursor as int;
        let mut r = String::new();
        loop
            invariant
                self.wf(),
                self.input == old(self).input,
                self.input@ == s,
                self.start_pos == old(self).start_pos,
                c0 <= self.cursor <= s.len(),
                c0 == old(self).cursor,
                forall|k: int| c0 <= k < self.cursor ==> p(#[trigger] s[k]),
                r@ == s.subrange(c0, self.cursor as int),
                forall|c: char| #[trigger] call_requires(condition, (c,)),
                forall|c: char, b: bool| #[trigger] call_ensures(condition, (c,), b) ==> b == p(c),
            ensures
                self.wf(),
                self.input == old(self).input,
                self.input@ == s,
                self.start_pos == old(self).start_pos,
                c0 <= self.cursor <= s.len(),
                forall|k: int| c0 <= k < self.cursor ==> p(#[trigger] s[k]),
                self.cursor == s.len() || !p(s[self.cursor as int]),
                r@ == s.subrange(c0, self.cursor as int),
            decreases s.len() - self.cursor,
        {
            if self.cursor >= self.input.len() {
                break;
            }
            let x = self.input[self.cursor];
            if !condition(x) {
                break;
            }
            self.next_char();
            push_char(&mut r, x);
            proof {
                assert(r@ =~= s.subrange(c0, self.cursor as int));
            }
        }
        r
    }

    /// Consume a single character and emit `token` spanning it.
    fn get_single_token(&mut self, token: Token) -> (r: (Token, Range))
        requires
            old(self).wf(),
            old(self).cursor < old(self).input@.len(),
        ensures
            final(self).wf(),
            final(self).input == old(self).input,
            final(self).start_pos == old(self).start_pos,
            final(self).cursor == old(self).cursor + 1,
            r.0 == token,
            r.1.start == old(self).start_pos,
            pos_is(r.1.end, old(self).input@, old(self).cursor + 1),
    {
        self.next_char();
        (token, self.range())
    }

    /// Lex one token: skip whitespace, classify the next maximal lexeme,
    /// and return it together with its exact source range.  At end of
    /// input this returns `EOF` forever, without moving the cursor.
    pub fn tokenize(&mut self) -> (r: (Token, Range))
        requires
            old(self).wf(),
            old(self).at_boundary(),
            clean_input(old(self).input@),
        ensures
            final(self).wf(),
            final(self).at_boundary(),
            final(self).input == old(self).input,
            final(self).cursor == token_end(old(self).input@, old(self).cursor as int),
            r.0@ == spec_token(old(self).input@, old(self).cursor as int),
            range_is(
                r.1,
                old(self).input@,
                token_start(old(self).input@, old(self).cursor as int),
                token_end(old(self).input@, old(self).cursor as int),
            ),
        decreases old(self).input@.len() - old(self).cursor,
    {
        let ghost s = self.input@;
        let ghost c0 = self.cursor as int;
        self.start_pos = self.current_pos;
        if self.cursor >= self.input.len() {
            (Token::EOF, self.range())
        } else {
            let c = self.input[self.cursor];
            if is_decimal_digit(c) {
                let start_cursor = self.cursor;
                let _lexeme = self.accumulate_while(
                    is_valid_identifier,
                    Ghost(|ch: char| is_ident_char(ch)),
                );
                proof {
                    lemma_run_end_unique(s, c0, self.cursor as int);
                    assert(skip_ws(s, c0) == c0);
                    assert(run_start(s, c0));
                    assert(num_ok(s, c0));
                }
                let mut value: usize = 0;
                let mut k: usize = start_cursor;
                while k < self.cursor
                    invariant
                        self.wf(),
                        self.input@ == s,
                        start_cursor as int == c0,
                        c0 <= k <= self.cursor,
                        self.cursor == run_end(s, c0),
                        num_ok(s, c0),
                        value == seq_to_nat(s.subrange(c0, k as int)),
                    decreases self.cursor - k,
                {
                    let d = self.input[k];
                    proof {
                        lemma_run_end(s, c0);
                        assert(s.subrange(c0, run_end(s, c0))[k - c0] == s[k as int]);
                        lemma_seq_to_nat_step(s, c0, k as int);
                        lemma_seq_to_nat_prefix(s, c0, k + 1, run_end(s, c0));
                    }
                    value = value * 10 + digit_to_val(d);
                    k = k + 1;
                }
                proof {
                    assert(s.subrange(c0, k as int) =~= s.subrange(c0, run_end(s, c0)));
                }
                (Token::Int(value), self.range())
            } else if is_whitespace(c) {
                let _skipped = self.accumulate_while(
                    is_whitespace,
                    Ghost(|ch: char| is_ws_char(ch)),
                );
                proof {
                    lemma_skip_ws_through(s, c0, self.cursor as int);
                }
                self.tokenize()
            } else if is_valid_identifier(c) {
                let lexeme = self.accumulate_while(
                    is_valid_identifier,
                    Ghost(|ch: char| is_ident_char(ch)),
                );
                proof {
                    lemma_run_end_unique(s, c0, self.cursor as int);
                    assert(skip_ws(s, c0) == c0);
                }
                (Token::Id(lexeme), self.range())
            } else if c == '(' {
                self.get_single_token(Token::LPar)
            } else if c == ')' {
                self.get_single_token(Token::RPar)
            } else {
                // Every character is whitespace, an identifier character
                // or a parenthesis, so no character is left for the
                // sentinel; the arm completes the classification.
                proof {
                    assert(false);
                }
                self.next_char();
                (Token::Invalid, self.range())
            }
        }
    }
}

} // verus!
