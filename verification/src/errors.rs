//! The taxonomy of syntax errors.
//!
//! A diagnostic is an ordinary return value, never an exception: the
//! caller receives either a complete tree or exactly one diagnostic
//! pinpointing the first structural error.

use vstd::prelude::*;

use crate::range::Range;
use crate::token::{Token, TokenView};

verus! {

/// A structured syntax error.
pub enum SyntaticDiagnostic {
    /// A `(` was opened but its matching `)` was never found; carries the
    /// range of the opening parenthesis, not of the point of failure.
    UnclosedParenthesis { start: Range },
    /// The current token does not satisfy the grammar rule in force:
    /// what was found, where, and (when known) what would have been
    /// accepted.
    UnexpectedToken { place: Range, token: Token, expected: Vec<Token> },
}

/// The views of a sequence of tokens, in order.
pub open spec fn tokens_view(v: Seq<Token>) -> Seq<TokenView> {
    Seq::new(v.len(), |i: int| v[i]@)
}

/// The mathematical shape of a diagnostic.
pub enum DiagView {
    UnclosedParenthesis { start: Range },
    UnexpectedToken { place: Range, token: TokenView, expected: Seq<TokenView> },
}

impl View for SyntaticDiagnostic {
    type V = DiagView;

    open spec fn view(&self) -> DiagView {
        match self {
            SyntaticDiagnostic::UnclosedParenthesis { start } => {
                DiagView::UnclosedParenthesis { start: *start }
            },
            SyntaticDiagnostic::UnexpectedToken { place, token, expected } => {
                DiagView::UnexpectedToken {
                    place: *place,
                    token: token@,
                    expected: tokens_view(expected@),
                }
            },
        }
    }
}

} // verus!
