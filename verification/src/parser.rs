//! A recursive-descent parser with one token of lookahead (and a second
//! buffered internally).
//!
//! `spec_elem`, `spec_list` and `spec_elems` are the mathematical
//! description of parsing: for every input and cursor they say whether an
//! element parses, which tree it yields, which diagnostic it raises, and
//! where the cursor stands afterwards.  The executable `Parser` is proved
//! to return exactly that outcome.

use vstd::prelude::*;

use crate::errors::{DiagView, SyntaticDiagnostic};
use crate::lexer::{clean_input, lemma_range_is_eq, lemma_token_end, spec_token, token_end,
    token_range, Lexer};
use crate::range::{lemma_byte_at_mono, Range};
use crate::token::{Token, TokenView};
use crate::tree::{expr_view, exprs_view, exprs_view_rec, lemma_exprs_view, Expr, Ident};

verus! {

/// Outcome of parsing one element: a tree and the cursor after it, or a
/// diagnostic and the cursor where parsing stopped.
pub enum ParseOut {
    Node { v: crate::tree::ExprView, next: int },
    Fail { diag: DiagView, next: int },
}

/// Outcome of parsing a sequence of elements.
pub enum ElemsOut {
    Items { items: Seq<crate::tree::ExprView>, next: int },
    Fail { diag: DiagView, next: int },
}

/// An `UnexpectedToken` diagnostic for the token at cursor `i`.  The
/// expected set is always left empty; populating it from the grammar rule
/// in force is a possible enhancement.
pub open spec fn unexpected_at(s: Seq<char>, i: int) -> DiagView {
    DiagView::UnexpectedToken {
        place: token_range(s, i),
        token: spec_token(s, i),
        expected: Seq::empty(),
    }
}

/// What parsing one element from cursor `i` yields: literal and
/// identifier tokens become leaves, `(` opens a list, anything else is an
/// `UnexpectedToken` diagnostic raised without consuming input.
pub open spec fn spec_elem(s: Seq<char>, i: int) -> ParseOut
    decreases s.len() - i, 1int,
{
    match spec_token(s, i) {
        TokenView::Int(n) => ParseOut::Node {
            v: crate::tree::ExprView::Int(token_range(s, i), n),
            next: token_end(s, i),
        },
        TokenView::Str(text) => ParseOut::Node {
            v: crate::tree::ExprView::Str(token_range(s, i), text),
            next: token_end(s, i),
        },
        TokenView::Id(name) => ParseOut::Node {
            v: crate::tree::ExprView::Atom(name, token_range(s, i)),
            next: token_end(s, i),
        },
        TokenView::LPar => spec_list(s, i),
        _ => ParseOut::Fail { diag: unexpected_at(s, i), next: i },
    }
}

/// What parsing a list from cursor `i` yields: after the opening `(`,
/// elements accumulate until one fails without consuming input; a `)`
/// must follow, and its absence is reported as `UnclosedParenthesis` at
/// the opening parenthesis.
pub open spec fn spec_list(s: Seq<char>, i: int) -> ParseOut
    decreases s.len() - i, 0int,
{
    if spec_token(s, i) != (TokenView::LPar) {
        ParseOut::Fail { diag: unexpected_at(s, i), next: i }
    } else {
        let i1 = token_end(s, i);
        if !(i < i1 <= s.len()) {
            // Lexing a `(` always advances the cursor within bounds; this
            // branch only satisfies the termination checker.
            ParseOut::Fail { diag: unexpected_at(s, i), next: i }
        } else {
            match spec_elems(s, i1) {
                ElemsOut::Items { items, next } => {
                    if spec_token(s, next) == (TokenView::RPar) {
                        ParseOut::Node {
                            v: crate::tree::ExprView::List(items),
                            next: token_end(s, next),
                        }
                    } else {
                        ParseOut::Fail {
                            diag: DiagView::UnclosedParenthesis { start: token_range(s, i) },
                            next,
                        }
                    }
                },
                ElemsOut::Fail { diag, next } => ParseOut::Fail { diag, next },
            }
        }
    }
}

/// What parsing zero or more elements from cursor `i` yields: elements
/// accumulate while they parse; a failure that consumed nothing ends the
/// sequence cleanly, a failure after consumption propagates.
pub open spec fn spec_elems(s: Seq<char>, i: int) -> ElemsOut
    decreases s.len() - i, 2int,
{
    match spec_elem(s, i) {
        ParseOut::Node { v, next } => {
            if i < next <= s.len() {
                match spec_elems(s, next) {
                    ElemsOut::Items { items, next: after } => ElemsOut::Items {
                        items: seq![v] + items,
                        next: after,
                    },
                    ElemsOut::Fail { diag, next: after } => ElemsOut::Fail { diag, next: after },
                }
            } else {
                // A parsed element always advances the cursor within
                // bounds; this branch only satisfies the termination
                // checker.
                ElemsOut::Items { items: seq![v], next }
            }
        },
        ParseOut::Fail { diag, next } => {
            if next == i {
                ElemsOut::Items { items: Seq::empty(), next: i }
            } else {
                ElemsOut::Fail { diag, next }
            }
        },
    }
}

/// Every parsing outcome leaves the cursor within bounds; a parsed
/// element, and a failure that propagates out of a sequence, consume at
/// least one token.
pub proof fn lemma_elem_bounds(s: Seq<char>, i: int)
    requires
        0 <= i <= s.len(),
    ensures
        spec_elem(s, i) matches ParseOut::Node { v, next } ==> i < next <= s.len(),
        spec_elem(s, i) matches ParseOut::Fail { diag, next } ==> i <= next <= s.len(),
    decreases s.len() - i, 1int,
{
    lemma_token_end(s, i);
    if spec_token(s, i) == (TokenView::LPar) {
        lemma_list_bounds(s, i);
    }
}

/// Companion of `lemma_elem_bounds` for lists.
pub proof fn lemma_list_bounds(s: Seq<char>, i: int)
    requires
        0 <= i <= s.len(),
    ensures
        spec_list(s, i) matches ParseOut::Node { v, next } ==> i < next <= s.len(),
        spec_list(s, i) matches ParseOut::Fail { diag, next } ==> i <= next <= s.len(),
    decreases s.len() - i, 0int,
{
    lemma_token_end(s, i);
    if spec_token(s, i) == (TokenView::LPar) {
        let i1 = token_end(s, i);
        lemma_elems_bounds(s, i1);
        match spec_elems(s, i1) {
            ElemsOut::Items { items, next } => {
                lemma_token_end(s, next);
            },
            ElemsOut::Fail { diag, next } => {
            },
        }
    }
}

/// Companion of `lemma_elem_bounds` for element sequences.
pub proof fn lemma_elems_bounds(s: Seq<char>, i: int)
    requires
        0 <= i <= s.len(),
    ensures
        spec_elems(s, i) matches ElemsOut::Items { items, next } ==> i <= next <= s.len(),
        spec_elems(s, i) matches ElemsOut::Fail { diag, next } ==> i < next <= s.len(),
    decreases s.len() - i, 2int,
{
    lemma_elem_bounds(s, i);
    match spec_elem(s, i) {
        ParseOut::Node { v, next } => {
            lemma_elems_bounds(s, next);
        },
        ParseOut::Fail { diag, next } => {
        },
    }
}

/// The parser state: a lexer, the current token (`actual`), one more
/// buffered token (`next`), and a progress counter incremented on every
/// shift, used to tell a clean non-match from a failure that consumed
/// input.  The ghost cursor `cur` is the character index of `actual`.
pub struct Parser {
    pub lexer: Lexer,
    pub actual: (Token, Range),
    pub next: (Token, Range),
    pub count: usize,
    pub cur: Ghost<int>,
}

impl Parser {
    /// The input text.
    pub open spec fn src(&self) -> Seq<char> {
        self.lexer.input@
    }

    /// The buffers hold exactly the two tokens lexed from the ghost
    /// cursor onwards, the lexer stands after both, and the progress
    /// counter never exceeds the cursor.
    pub open spec fn wf(&self) -> bool {
        let s = self.lexer.input@;
        &&& self.lexer.wf()
        &&& self.lexer.at_boundary()
        &&& clean_input(s)
        &&& 0 <= self.cur@ <= s.len()
        &&& self.count <= self.cur@
        &&& self.actual.0@ == spec_token(s, self.cur@)
        &&& self.actual.1 == token_range(s, self.cur@)
        &&& self.next.0@ == spec_token(s, token_end(s, self.cur@))
        &&& self.next.1 == token_range(s, token_end(s, self.cur@))
        &&& self.lexer.cursor == token_end(s, token_end(s, self.cur@))
    }

    /// Build a parser over `input`, pre-fetching two tokens.
    pub fn new(input: &str) -> (p: Parser)
        requires
            clean_input(input@),
        ensures
            p.wf(),
            p.src() == input@,
            p.cur@ == 0,
            p.count == 0,
    {
        let mut lexer = Lexer::new(input);
        let actual = lexer.tokenize();
        let next = lexer.tokenize();
        proof {
            let s = input@;
            lemma_token_end(s, 0);
            lemma_range_is_eq(actual.1, s, crate::lexer::token_start(s, 0), token_end(s, 0));
            lemma_range_is_eq(
                next.1,
                s,
                crate::lexer::token_start(s, token_end(s, 0)),
                token_end(s, token_end(s, 0)),
            );
        }
        Parser { lexer, actual, next, count: 0, cur: Ghost(0) }
    }

    /// Shift the lookahead window one token: return the current token,
    /// promote `next`, pull a fresh token from the lexer, and count the
    /// progress.
    fn advance(&mut self) -> (r: (Token, Range))
        requires
            old(self).wf(),
            old(self).actual.0@ != (TokenView::EOF),
        ensures
            final(self).wf(),
            final(self).src() == old(self).src(),
            final(self).cur@ == token_end(old(self).src(), old(self).cur@),
            old(self).cur@ < final(self).cur@,
            final(self).count == old(self).count + 1,
            r.0@ == old(self).actual.0@,
            r.1 == old(self).actual.1,
    {
        let ghost s = self.lexer.input@;
        let ghost c0 = self.cur@;
        proof {
            lemma_token_end(s, c0);
            lemma_token_end(s, token_end(s, c0));
            lemma_byte_at_mono(s, 0, s.len() as int);
        }
        let older = (self.actual.0.clone(), self.actual.1);
        let moved = (self.next.0.clone(), self.next.1);
        self.actual = moved;
        let fresh = self.lexer.tokenize();
        proof {
            let c2 = token_end(s, token_end(s, c0));
            lemma_token_end(s, c2);
            lemma_range_is_eq(fresh.1, s, crate::lexer::token_start(s, c2), token_end(s, c2));
        }
        self.next = fresh;
        self.count = self.count + 1;
        self.cur = Ghost(token_end(s, c0));
        older
    }

    /// Test the current token against a classifying function without
    /// advancing; the state is left untouched either way.
    pub fn eat<T, F: Fn(&Token) -> Option<T>>(&mut self, condition: F) -> (r: Result<T, String>)
        requires
            old(self).wf(),
            forall|t: &Token| #[trigger] call_requires(condition, (t,)),
        ensures
            *final(self) == *old(self),
            match r {
                Result::Ok(v) => call_ensures(condition, (&old(self).actual.0,), Some(v)),
                Result::Err(_) => call_ensures(condition, (&old(self).actual.0,), None::<T>),
            },
    {
        match condition(&self.actual.0) {
            Some(res) => Ok(res),
            None => Err("Does not matches".to_owned()),
        }
    }

    /// Advance only when the current token equals `condition`; otherwise
    /// report it as unexpected, leaving the state untouched.
    pub fn eat_exact(&mut self, condition: Token) -> (r: Result<
        (Token, Range),
        SyntaticDiagnostic,
    >)
        requires
            old(self).wf(),
        ensures
            final(self).wf(),
            final(self).src() == old(self).src(),
            old(self).count <= final(self).count <= old(self).count + 1,
            old(self).cur@ <= final(self).cur@,
            match r {
                Result::Ok(tr) => {
                    &&& old(self).actual.0@ == condition@
                    &&& tr.0@ == condition@
                    &&& tr.1 == token_range(old(self).src(), old(self).cur@)
                    &&& final(self).cur@ == token_end(old(self).src(), old(self).cur@)
                    &&& condition@ != (TokenView::EOF) ==> final(self).count == old(self).count
                        + 1 && old(self).cur@ < final(self).cur@
                    &&& condition@ == (TokenView::EOF) ==> final(self).count == old(self).count
                },
                Result::Err(d) => {
                    &&& old(self).actual.0@ != condition@
                    &&& d@ == unexpected_at(old(self).src(), old(self).cur@)
                    &&& *final(self) == *old(self)
                },
            },
    {
        let ghost s = self.lexer.input@;
        let ghost c0 = self.cur@;
        if condition == self.actual.0 {
            if matches!(self.actual.0, Token::EOF) {
                // At end of input the stream is pinned: the lookahead
                // already holds EOF, so there is nothing to shift.
                proof {
                    lemma_token_end(s, c0);
                    lemma_token_end(s, token_end(s, c0));
                }
                let tok = self.actual.0.clone();
                let rng = self.actual.1;
                self.cur = Ghost(token_end(s, c0));
                Ok((tok, rng))
            } else {
                Ok(self.advance())
            }
        } else {
            let expected: Vec<Token> = Vec::new();
            proof {
                assert(crate::errors::tokens_view(expected@) =~= Seq::<TokenView>::empty());
            }
            Err(
                SyntaticDiagnostic::UnexpectedToken {
                    place: self.actual.1,
                    token: self.actual.0.clone(),
                    expected,
                },
            )
        }
    }

    /// Parse one element: a literal or identifier becomes a leaf tagged
    /// with the current range, `(` opens a list, and any other token is
    /// reported as unexpected without consuming input.  The outcome is
    /// exactly `spec_elem` at the current cursor.
    pub fn parse_elem(&mut self) -> (r: Result<Expr, SyntaticDiagnostic>)
        requires
            old(self).wf(),
        ensures
            final(self).wf(),
            final(self).src() == old(self).src(),
            old(self).count <= final(self).count,
            old(self).cur@ <= final(self).cur@,
            (final(self).count == old(self).count) == (final(self).cur@ == old(self).cur@),
            match r {
                Result::Ok(e) => spec_elem(old(self).src(), old(self).cur@) == (ParseOut::Node {
                    v: e@,
                    next: final(self).cur@,
                }),
                Result::Err(d) => spec_elem(old(self).src(), old(self).cur@) == (ParseOut::Fail {
                    diag: d@,
                    next: final(self).cur@,
                }),
            },
        decreases old(self).src().len() - old(self).cur@, 1int,
    {
        let ghost s = self.lexer.input@;
        let ghost c0 = self.cur@;
        let range = self.actual.1;
        let leaf: Option<Expr> = match &self.actual.0 {
            Token::Int(num) => Some(Expr::Int(range, *num)),
            Token::Str(text) => Some(Expr::Str(range, text.clone())),
            Token::Id(text) => Some(Expr::Atom(Ident::from_string(text.clone(), range))),
            _ => None,
        };
        match leaf {
            Some(e) => {
                self.advance();
                Ok(e)
            },
            None => {
                if matches!(self.actual.0, Token::LPar) {
                    self.parse_list()
                } else {
                    let token = match &self.actual.0 {
                        Token::RPar => Token::RPar,
                        Token::EOF => Token::EOF,
                        _ => Token::Invalid,
                    };
                    let expected: Vec<Token> = Vec::new();
                    proof {
                        assert(crate::errors::tokens_view(expected@) =~= Seq::<TokenView>::empty());
                    }
                    Err(SyntaticDiagnostic::UnexpectedToken { place: range, token, expected })
                }
            },
        }
    }

    /// Run `parse_elem` once, treating a failure that consumed no input
    /// as a clean non-match (`None`) and propagating any failure that
    /// consumed input.
    pub fn try_single(&mut self) -> (r: Result<Option<Expr>, SyntaticDiagnostic>)
        requires
            old(self).wf(),
        ensures
            final(self).wf(),
            final(self).src() == old(self).src(),
            old(self).count <= final(self).count,
            old(self).cur@ <= final(self).cur@,
            (final(self).count == old(self).count) == (final(self).cur@ == old(self).cur@),
            match r {
                Result::Ok(Some(e)) => spec_elem(old(self).src(), old(self).cur@)
                    == (ParseOut::Node { v: e@, next: final(self).cur@ })
                    && old(self).cur@ < final(self).cur@,
                Result::Ok(None) => spec_elem(old(self).src(), old(self).cur@) matches
                    ParseOut::Fail { diag, next } && next == old(self).cur@ && final(self).cur@
                    == old(self).cur@,
                Result::Err(d) => spec_elem(old(self).src(), old(self).cur@) == (ParseOut::Fail {
                    diag: d@,
                    next: final(self).cur@,
                }) && old(self).cur@ < final(self).cur@,
            },
        decreases old(self).src().len() - old(self).cur@, 2int,
    {
        let ghost s = self.lexer.input@;
        let ghost c0 = self.cur@;
        let count = self.count;
        proof {
            lemma_elem_bounds(s, c0);
        }
        match self.parse_elem() {
            Result::Ok(res) => Ok(Some(res)),
            Result::Err(err) => {
                if self.count == count {
                    Ok(None)
                } else {
                    Err(err)
                }
            },
        }
    }

    /// Parse a parenthesized list: consume `(`, accumulate elements until
    /// one fails cleanly, then require `)`; its absence is reported as
    /// `UnclosedParenthesis` anchored at the opening parenthesis.  The
    /// outcome is exactly `spec_list` at the current cursor.
    pub fn parse_list(&mut self) -> (r: Result<Expr, SyntaticDiagnostic>)
        requires
            old(self).wf(),
        ensures
            final(self).wf(),
            final(self).src() == old(self).src(),
            old(self).count <= final(self).count,
            old(self).cur@ <= final(self).cur@,
            (final(self).count == old(self).count) == (final(self).cur@ == old(self).cur@),
            match r {
                Result::Ok(e) => spec_list(old(self).src(), old(self).cur@) == (ParseOut::Node {
                    v: e@,
                    next: final(self).cur@,
                }),
                Result::Err(d) => spec_list(old(self).src(), old(self).cur@) == (ParseOut::Fail {
                    diag: d@,
                    next: final(self).cur@,
                }),
            },
        decreases old(self).src().len() - old(self).cur@, 0int,
    {
        let ghost s = self.lexer.input@;
        let ghost c0 = self.cur@;
        proof {
            lemma_token_end(s, c0);
        }
        let start = match self.eat_exact(Token::LPar) {
            Result::Ok(tr) => tr.1,
            Result::Err(d) => {
                return Err(d);
            },
        };
        let ghost i1 = self.cur@;
        let mut list: Vec<Expr> = Vec::new();
        loop
            invariant
                self.wf(),
                self.lexer.input@ == s,
                s == old(self).src(),
                c0 == old(self).cur@,
                spec_token(s, c0) == (TokenView::LPar),
                c0 < i1 <= self.cur@ <= s.len(),
                i1 == token_end(s, c0),
                old(self).count < self.count <= usize::MAX,
                match spec_elems(s, self.cur@) {
                    ElemsOut::Items { items, next } => spec_elems(s, i1) == (ElemsOut::Items {
                        items: exprs_view(list@) + items,
                        next,
                    }),
                    ElemsOut::Fail { diag, next } => spec_elems(s, i1) == (ElemsOut::Fail {
                        diag,
                        next,
                    }),
                },
            ensures
                self.wf(),
                self.lexer.input@ == s,
                s == old(self).src(),
                c0 == old(self).cur@,
                c0 < i1 <= self.cur@ <= s.len(),
                old(self).count < self.count,
                spec_elems(s, i1) == (ElemsOut::Items {
                    items: exprs_view(list@),
                    next: self.cur@,
                }),
            decreases s.len() - self.cur@,
        {
            let ghost cur_b = self.cur@;
            let ghost list_b = list@;
            match self.try_single() {
                Result::Err(d) => {
                    proof {
                        lemma_elems_bounds(s, cur_b);
                    }
                    return Err(d);
                },
                Result::Ok(opt) => {
                    match opt {
                        Some(elem) => {
                            list.push(elem);
                            proof {
                                lemma_elem_bounds(s, cur_b);
                                assert(exprs_view(list@) =~= exprs_view(list_b) + seq![
                                    expr_view(elem),
                                ]);
                                match spec_elems(s, self.cur@) {
                                    ElemsOut::Items { items, next } => {
                                        assert(exprs_view(list_b) + (seq![expr_view(elem)] + items)
                                            =~= exprs_view(list@) + items);
                                    },
                                    ElemsOut::Fail { diag, next } => {
                                    },
                                }
                            }
                        },
                        None => {
                            proof {
                                assert(exprs_view(list@) + Seq::<crate::tree::ExprView>::empty()
                                    =~= exprs_view(list@));
                            }
                            break;
                        },
                    }
                },
            }
        }
        match self.eat_exact(Token::RPar) {
            Result::Ok(tr) => {
                proof {
                    lemma_exprs_view(list@);
                }
                Ok(Expr::List(list))
            },
            Result::Err(d) => Err(SyntaticDiagnostic::UnclosedParenthesis { start }),
        }
    }
}

} // verus!
