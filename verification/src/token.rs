//! The closed set of lexical categories.
//!
//! Each token is immutable once produced; ownership moves from the lexer to
//! the parser on each pull.  `EOF` is a terminal sentinel returned forever
//! once the input is exhausted; `Invalid` is a recovery sentinel for a
//! single malformed character, so the parser can report a precise error
//! instead of crashing.

use vstd::prelude::*;

verus! {

#[derive(Debug)]
pub enum Token {
    /// `(`
    LPar,
    /// `)`
    RPar,
    /// An unsigned integer literal.
    Int(usize),
    /// A string literal.
    Str(String),
    /// An identifier.
    Id(String),
    /// Sentinel for a single malformed character.
    Invalid,
    /// End of file.
    EOF,
}

/// The mathematical shape of a token: payloads are abstract sequences and
/// unbounded naturals.
pub enum TokenView {
    LPar,
    RPar,
    Int(nat),
    Str(Seq<char>),
    Id(Seq<char>),
    Invalid,
    EOF,
}

impl View for Token {
    type V = TokenView;

    open spec fn view(&self) -> TokenView {
        match self {
            Token::LPar => TokenView::LPar,
            Token::RPar => TokenView::RPar,
            Token::Int(n) => TokenView::Int(*n as nat),
            Token::Str(s) => TokenView::Str(s@),
            Token::Id(s) => TokenView::Id(s@),
            Token::Invalid => TokenView::Invalid,
            Token::EOF => TokenView::EOF,
        }
    }
}

impl Clone for Token {
    fn clone(&self) -> (r: Self)
        ensures
            r@ == self@,
    {
        match self {
            Token::LPar => Token::LPar,
            Token::RPar => Token::RPar,
            Token::Int(n) => Token::Int(*n),
            Token::Str(s) => Token::Str(s.clone()),
            Token::Id(s) => Token::Id(s.clone()),
            Token::Invalid => Token::Invalid,
            Token::EOF => Token::EOF,
        }
    }
}

impl PartialEq for Token {
    /// Two tokens are equal when they are the same category with the same
    /// payload.
    fn eq(&self, other: &Token) -> (r: bool) {
        match (self, other) {
            (Token::LPar, Token::LPar) => true,
            (Token::RPar, Token::RPar) => true,
            (Token::Int(a), Token::Int(b)) => a == b,
            (Token::Str(a), Token::Str(b)) => *a == *b,
            (Token::Id(a), Token::Id(b)) => *a == *b,
            (Token::Invalid, Token::Invalid) => true,
            (Token::EOF, Token::EOF) => true,
            _ => false,
        }
    }
}

impl vstd::std_specs::cmp::PartialEqSpecImpl for Token {
    open spec fn obeys_eq_spec() -> bool {
        true
    }

    open spec fn eq_spec(&self, other: &Token) -> bool {
        self@ == other@
    }
}

} // verus!
