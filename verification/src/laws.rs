//! Properties of lexing and parsing, stated over the same spec functions
//! the executable contracts use.

use vstd::prelude::*;

use crate::lexer::{all_digits, is_ident_char, is_ws_char, lemma_run_end,
    lemma_run_end_unique, lemma_skip_ws, lemma_skip_ws_through, lemma_skip_ws_unique,
    lemma_token_end, seq_to_nat, skip_ws, spec_token, token_end, token_range, token_start};
use crate::parser::{spec_elem, spec_elems, spec_list, ElemsOut, ParseOut};
use crate::range::byte_at;
use crate::token::TokenView;
use crate::tree::ExprView;

verus! {

/// Once `EOF` has been reached, lexing is idempotent: the cursor stays at
/// the end of the input, the token stays `EOF`, and the token's range
/// stays fixed.
pub proof fn lemma_eof_idempotent(s: Seq<char>, i: int)
    requires
        0 <= i <= s.len(),
        spec_token(s, i) == (TokenView::EOF),
    ensures
        token_end(s, i) == s.len(),
        spec_token(s, token_end(s, i)) == (TokenView::EOF),
        token_end(s, token_end(s, i)) == token_end(s, i),
        token_range(s, token_end(s, i)) == token_range(s, i),
{
    lemma_token_end(s, i);
}

/// Every digit is one byte wide: a digit string's byte offsets coincide
/// with its character indices.
proof fn lemma_digit_bytes(s: Seq<char>, i: int)
    requires
        0 <= i <= s.len(),
        all_digits(s),
    ensures
        byte_at(s, i) == i,
    decreases i,
{
    if 0 < i {
        lemma_digit_bytes(s, i - 1);
    }
}

/// An input that is one valid integer literal lexes to `Int` with exactly
/// its numeric value, and the token's range spans exactly the literal's
/// characters: byte offset 0 to the literal's byte length.
pub proof fn lemma_int_literal(s: Seq<char>)
    requires
        s.len() > 0,
        s.len() <= usize::MAX,
        all_digits(s),
    ensures
        spec_token(s, 0) == (TokenView::Int(seq_to_nat(s))),
        token_start(s, 0) == 0,
        token_end(s, 0) == s.len(),
        token_range(s, 0).start.index == 0,
        token_range(s, 0).end.index == s.len(),
{
    assert(!is_ws_char(s[0]));
    lemma_run_end_unique(s, 0, s.len() as int);
    assert(s.subrange(0, s.len() as int) =~= s);
    lemma_digit_bytes(s, s.len() as int);
}

/// The tokens from cursor `i` that a flat list body may hold: leaves
/// (integers and atoms) up to a closing parenthesis.
pub open spec fn leaves_then_rpar(s: Seq<char>, i: int) -> bool
    decreases s.len() - i,
{
    match spec_token(s, i) {
        TokenView::RPar => true,
        TokenView::Int(n) => i < token_end(s, i) <= s.len() && leaves_then_rpar(s, token_end(s, i)),
        TokenView::Id(name) => i < token_end(s, i) <= s.len() && leaves_then_rpar(
            s,
            token_end(s, i),
        ),
        _ => false,
    }
}

/// The leaf expressions written from cursor `i` on, in order: one `Int`
/// node per integer token and one `Atom` node per identifier token.
pub open spec fn leaf_views(s: Seq<char>, i: int) -> Seq<ExprView>
    decreases s.len() - i,
{
    match spec_token(s, i) {
        TokenView::Int(n) => if i < token_end(s, i) <= s.len() {
            seq![ExprView::Int(token_range(s, i), n)] + leaf_views(s, token_end(s, i))
        } else {
            Seq::empty()
        },
        TokenView::Id(name) => if i < token_end(s, i) <= s.len() {
            seq![ExprView::Atom(name, token_range(s, i))] + leaf_views(s, token_end(s, i))
        } else {
            Seq::empty()
        },
        _ => Seq::empty(),
    }
}

/// A flat sequence of leaves parses to exactly those leaves, stopping at
/// the closing parenthesis.
proof fn lemma_leaves_parse(s: Seq<char>, i: int)
    requires
        0 <= i <= s.len(),
        leaves_then_rpar(s, i),
    ensures
        spec_elems(s, i) matches ElemsOut::Items { items, next } && items == leaf_views(s, i)
            && spec_token(s, next) == (TokenView::RPar) && 0 <= next <= s.len(),
    decreases s.len() - i,
{
    lemma_token_end(s, i);
    match spec_token(s, i) {
        TokenView::RPar => {
            assert(leaf_views(s, i) =~= Seq::<ExprView>::empty());
        },
        TokenView::Int(n) => {
            lemma_leaves_parse(s, token_end(s, i));
            let v = ExprView::Int(token_range(s, i), n);
            assert(spec_elem(s, i) == (ParseOut::Node { v, next: token_end(s, i) }));
            match spec_elems(s, token_end(s, i)) {
                ElemsOut::Items { items, next } => {
                    assert(spec_elems(s, i) == (ElemsOut::Items {
                        items: seq![v] + items,
                        next,
                    }));
                    assert(leaf_views(s, i) == seq![v] + leaf_views(s, token_end(s, i)));
                },
                ElemsOut::Fail { diag, next } => {
                    assert(false);
                },
            }
        },
        TokenView::Id(name) => {
            lemma_leaves_parse(s, token_end(s, i));
            let v = ExprView::Atom(name, token_range(s, i));
            assert(spec_elem(s, i) == (ParseOut::Node { v, next: token_end(s, i) }));
            match spec_elems(s, token_end(s, i)) {
                ElemsOut::Items { items, next } => {
                    assert(spec_elems(s, i) == (ElemsOut::Items {
                        items: seq![v] + items,
                        next,
                    }));
                    assert(leaf_views(s, i) == seq![v] + leaf_views(s, token_end(s, i)));
                },
                ElemsOut::Fail { diag, next } => {
                    assert(false);
                },
            }
        },
        _ => {
        },
    }
}

/// Balanced input parses: a `(`, zero or more atoms or integers, and the
/// matching `)` yield a `List` holding exactly the written elements, in
/// the order they were written.
pub proof fn lemma_balanced_list(s: Seq<char>, i: int)
    requires
        0 <= i <= s.len(),
        spec_token(s, i) == (TokenView::LPar),
        leaves_then_rpar(s, token_end(s, i)),
    ensures
        spec_list(s, i) matches ParseOut::Node { v, next } && v == (ExprView::List(
            leaf_views(s, token_end(s, i)),
        )),
{
    lemma_token_end(s, i);
    lemma_leaves_parse(s, token_end(s, i));
}

/// The tokens from cursor `i`: leaves (integers and atoms) up to the end
/// of the input, with no closing parenthesis before it.
pub open spec fn leaves_then_eof(s: Seq<char>, i: int) -> bool
    decreases s.len() - i,
{
    match spec_token(s, i) {
        TokenView::EOF => true,
        TokenView::Int(n) => i < token_end(s, i) <= s.len() && leaves_then_eof(s, token_end(s, i)),
        TokenView::Id(name) => i < token_end(s, i) <= s.len() && leaves_then_eof(
            s,
            token_end(s, i),
        ),
        _ => false,
    }
}

/// A flat sequence of leaves with no closing parenthesis parses cleanly
/// up to the end of the input.
proof fn lemma_leaves_reach_eof(s: Seq<char>, i: int)
    requires
        0 <= i <= s.len(),
        leaves_then_eof(s, i),
    ensures
        spec_elems(s, i) matches ElemsOut::Items { items, next } && spec_token(s, next)
            == (TokenView::EOF) && 0 <= next <= s.len(),
    decreases s.len() - i,
{
    lemma_token_end(s, i);
    match spec_token(s, i) {
        TokenView::Int(n) => {
            lemma_leaves_reach_eof(s, token_end(s, i));
            let v = ExprView::Int(token_range(s, i), n);
            assert(spec_elem(s, i) == (ParseOut::Node { v, next: token_end(s, i) }));
            match spec_elems(s, token_end(s, i)) {
                ElemsOut::Items { items, next } => {
                    assert(spec_elems(s, i) == (ElemsOut::Items {
                        items: seq![v] + items,
                        next,
                    }));
                },
                ElemsOut::Fail { diag, next } => {
                    assert(false);
                },
            }
        },
        TokenView::Id(name) => {
            lemma_leaves_reach_eof(s, token_end(s, i));
            let v = ExprView::Atom(name, token_range(s, i));
            assert(spec_elem(s, i) == (ParseOut::Node { v, next: token_end(s, i) }));
            match spec_elems(s, token_end(s, i)) {
                ElemsOut::Items { items, next } => {
                    assert(spec_elems(s, i) == (ElemsOut::Items {
                        items: seq![v] + items,
                        next,
                    }));
                },
                ElemsOut::Fail { diag, next } => {
                    assert(false);
                },
            }
        },
        _ => {
        },
    }
}

/// The whole stream of tokens emitted from cursor `i`, up to and not
/// including the final `EOF`.
pub open spec fn token_seq(s: Seq<char>, i: int) -> Seq<TokenView>
    decreases s.len() - i,
{
    if !(0 <= i <= s.len()) || spec_token(s, i) == (TokenView::EOF) {
        Seq::empty()
    } else if !(i < token_end(s, i) <= s.len()) {
        // A non-`EOF` token always advances the cursor within bounds;
        // this branch only satisfies the termination checker.
        Seq::empty()
    } else {
        seq![spec_token(s, i)] + token_seq(s, token_end(s, i))
    }
}

/// Whitespace skipping depends only on the text after the cursor.
proof fn lemma_skip_ws_shift(s1: Seq<char>, i: int, s2: Seq<char>, k: int)
    requires
        0 <= i <= s1.len(),
        0 <= k <= s2.len(),
        s1.subrange(i, s1.len() as int) == s2.subrange(k, s2.len() as int),
    ensures
        skip_ws(s1, i) - i == skip_ws(s2, k) - k,
    decreases s1.len() - i,
{
    assert(s1.subrange(i, s1.len() as int).len() == s1.len() - i);
    assert(s2.subrange(k, s2.len() as int).len() == s2.len() - k);
    assert(s1.len() - i == s2.len() - k);
    assert forall|x: int| i <= x < s1.len() implies #[trigger] s1[x] == s2[k + (x - i)] by {
        assert(s1.subrange(i, s1.len() as int)[x - i] == s1[x]);
        assert(s2.subrange(k, s2.len() as int)[x - i] == s2[k + (x - i)]);
    }
    if i < s1.len() {
        assert(s1[i] == s2[k]);
        if is_ws_char(s1[i]) {
            assert(s1.subrange(i + 1, s1.len() as int) =~= s2.subrange(k + 1, s2.len() as int));
            lemma_skip_ws_shift(s1, i + 1, s2, k + 1);
        }
    }
}

/// Identifier runs depend only on the text after the cursor.
proof fn lemma_run_end_shift(s1: Seq<char>, i: int, s2: Seq<char>, k: int)
    requires
        0 <= i <= s1.len(),
        0 <= k <= s2.len(),
        s1.subrange(i, s1.len() as int) == s2.subrange(k, s2.len() as int),
    ensures
        crate::lexer::run_end(s1, i) - i == crate::lexer::run_end(s2, k) - k,
    decreases s1.len() - i,
{
    assert(s1.subrange(i, s1.len() as int).len() == s1.len() - i);
    assert(s2.subrange(k, s2.len() as int).len() == s2.len() - k);
    assert(s1.len() - i == s2.len() - k);
    assert forall|x: int| i <= x < s1.len() implies #[trigger] s1[x] == s2[k + (x - i)] by {
        assert(s1.subrange(i, s1.len() as int)[x - i] == s1[x]);
        assert(s2.subrange(k, s2.len() as int)[x - i] == s2[k + (x - i)]);
    }
    if i < s1.len() {
        assert(s1[i] == s2[k]);
        if is_ident_char(s1[i]) {
            assert(s1.subrange(i + 1, s1.len() as int) =~= s2.subrange(k + 1, s2.len() as int));
            lemma_run_end_shift(s1, i + 1, s2, k + 1);
        }
    }
}

/// The next token, and how far it reaches, depend only on the text after
/// the cursor.
proof fn lemma_token_shift(s1: Seq<char>, i: int, s2: Seq<char>, k: int)
    requires
        0 <= i <= s1.len(),
        0 <= k <= s2.len(),
        s1.subrange(i, s1.len() as int) == s2.subrange(k, s2.len() as int),
    ensures
        spec_token(s1, i) == spec_token(s2, k),
        token_end(s1, i) - i == token_end(s2, k) - k,
{
    assert(s1.subrange(i, s1.len() as int).len() == s1.len() - i);
    assert(s2.subrange(k, s2.len() as int).len() == s2.len() - k);
    assert(s1.len() - i == s2.len() - k);
    assert forall|x: int| i <= x < s1.len() implies #[trigger] s1[x] == s2[k + (x - i)] by {
        assert(s1.subrange(i, s1.len() as int)[x - i] == s1[x]);
        assert(s2.subrange(k, s2.len() as int)[x - i] == s2[k + (x - i)]);
    }
    lemma_skip_ws_shift(s1, i, s2, k);
    lemma_skip_ws(s1, i);
    lemma_skip_ws(s2, k);
    let j1 = skip_ws(s1, i);
    let j2 = skip_ws(s2, k);
    if j1 < s1.len() {
        assert(s1[j1] == s2[j2]);
        assert(s1.subrange(j1, s1.len() as int) =~= s2.subrange(j2, s2.len() as int));
        lemma_run_end_shift(s1, j1, s2, j2);
        lemma_run_end(s1, j1);
        lemma_run_end(s2, j2);
        let e1 = crate::lexer::run_end(s1, j1);
        let e2 = crate::lexer::run_end(s2, j2);
        assert(s1.subrange(j1, e1) =~= s2.subrange(j2, e2));
    }
}

/// The stream of tokens depends only on the text after the cursor.
proof fn lemma_token_seq_shift(s1: Seq<char>, i: int, s2: Seq<char>, k: int)
    requires
        0 <= i <= s1.len(),
        0 <= k <= s2.len(),
        s1.subrange(i, s1.len() as int) == s2.subrange(k, s2.len() as int),
    ensures
        token_seq(s1, i) == token_seq(s2, k),
    decreases s1.len() - i,
{
    lemma_token_shift(s1, i, s2, k);
    lemma_token_end(s1, i);
    lemma_token_end(s2, k);
    if spec_token(s1, i) != (TokenView::EOF) {
        let e1 = token_end(s1, i);
        let e2 = token_end(s2, k);
        assert(s1.subrange(i, s1.len() as int).len() == s1.len() - i);
        assert(s2.subrange(k, s2.len() as int).len() == s2.len() - k);
        assert forall|x: int| i <= x < s1.len() implies #[trigger] s1[x] == s2[k + (x - i)] by {
            assert(s1.subrange(i, s1.len() as int)[x - i] == s1[x]);
            assert(s2.subrange(k, s2.len() as int)[x - i] == s2[k + (x - i)]);
        }
        assert(s1.subrange(e1, s1.len() as int) =~= s2.subrange(e2, s2.len() as int));
        lemma_token_seq_shift(s1, e1, s2, e2);
    }
}

/// Lexing from anywhere inside a whitespace run gives the same tokens as
/// lexing from its end.
proof fn lemma_token_seq_ws(s: Seq<char>, i: int, j: int)
    requires
        0 <= i <= j <= s.len(),
        forall|k: int| i <= k < j ==> is_ws_char(#[trigger] s[k]),
    ensures
        spec_token(s, i) == spec_token(s, j),
        token_end(s, i) == token_end(s, j),
        token_seq(s, i) == token_seq(s, j),
{
    lemma_skip_ws_through(s, i, j);
    lemma_token_end(s, i);
    lemma_token_end(s, j);
    if spec_token(s, i) != (TokenView::EOF) {
        assert(token_seq(s, i) == seq![spec_token(s, i)] + token_seq(s, token_end(s, i)));
        assert(token_seq(s, j) == seq![spec_token(s, j)] + token_seq(s, token_end(s, j)));
    }
}

/// The induction behind whitespace transparency, walking token by token
/// through the region before the removed run.
proof fn lemma_ws_transparent_from(a: Seq<char>, w: Seq<char>, b: Seq<char>, i: int)
    requires
        0 <= i <= a.len(),
        forall|k: int| 0 <= k < w.len() ==> is_ws_char(#[trigger] w[k]),
        !(a.len() > 0 && b.len() > 0 && is_ident_char(a.last()) && is_ident_char(b[0])),
        w.len() > 0,
    ensures
        token_seq(a + w + b, i) == token_seq(a + b, i),
    decreases a.len() - i,
{
    let s1 = a + w + b;
    let s2 = a + b;
    let alen = a.len() as int;
    let wlen = w.len() as int;
    assert forall|k: int| 0 <= k < alen implies #[trigger] s2[k] == s1[k] && s1[k] == a[k] by {
        assert((a + w + b)[k] == (a + w)[k]);
        assert((a + w)[k] == a[k]);
        assert((a + b)[k] == a[k]);
    }
    assert forall|k: int| alen <= k < alen + wlen implies is_ws_char(#[trigger] s1[k]) by {
        assert((a + w + b)[k] == (a + w)[k]);
        assert((a + w)[k] == w[k - alen]);
    }
    lemma_skip_ws(s1, i);
    let j = skip_ws(s1, i);
    if j >= alen {
        lemma_token_seq_ws(s1, i, alen + wlen);
        lemma_token_seq_ws(s2, i, alen);
        assert(s1.subrange(alen + wlen, s1.len() as int) =~= s2.subrange(alen, s2.len() as int));
        lemma_token_seq_shift(s1, alen + wlen, s2, alen);
    } else {
        lemma_skip_ws_unique(s2, i, j);
        if s1[j] == '(' || s1[j] == ')' {
            lemma_ws_transparent_from(a, w, b, j + 1);
            assert(token_seq(s1, i) == seq![spec_token(s1, i)] + token_seq(s1, j + 1));
            assert(token_seq(s2, i) == seq![spec_token(s2, i)] + token_seq(s2, j + 1));
        } else {
            lemma_run_end(s1, j);
            let e = crate::lexer::run_end(s1, j);
            assert(e <= alen) by {
                if e > alen {
                    assert(is_ident_char(s1[alen]));
                    assert(s1[alen] == w[0]);
                }
            }
            assert(e == crate::lexer::run_end(s2, j)) by {
                if e == alen {
                    assert(is_ident_char(s1[e - 1]));
                    assert(s1[e - 1] == a.last());
                    if b.len() > 0 {
                        assert(s2[e] == b[0]);
                    }
                    lemma_run_end_unique(s2, j, e);
                } else {
                    assert(s2[e] == s1[e]);
                    lemma_run_end_unique(s2, j, e);
                }
            }
            assert(s1.subrange(j, e) =~= s2.subrange(j, e));
            assert(spec_token(s1, i) == spec_token(s2, i));
            assert(token_end(s1, i) == e && token_end(s2, i) == e);
            lemma_ws_transparent_from(a, w, b, e);
            assert(token_seq(s1, i) == seq![spec_token(s1, i)] + token_seq(s1, e));
            assert(token_seq(s2, i) == seq![spec_token(s2, i)] + token_seq(s2, e));
        }
    }
}

/// No closing parenthesis occurs at or after character index `i`.
pub open spec fn no_rpar_from(s: Seq<char>, i: int) -> bool {
    forall|k: int| i <= k < s.len() ==> #[trigger] s[k] != ')'
}

/// With no `)` left in the input, element parsing either runs cleanly to
/// the end of the input or stops inside an unclosed nested list.
proof fn lemma_no_rpar_elems(s: Seq<char>, i: int)
    requires
        0 <= i <= s.len(),
        no_rpar_from(s, i),
    ensures
        (spec_elems(s, i) matches ElemsOut::Items { items, next } && spec_token(s, next)
            == (TokenView::EOF)) || (spec_elems(s, i) matches ElemsOut::Fail { diag, next }
            && diag matches crate::errors::DiagView::UnclosedParenthesis { start }),
    decreases s.len() - i, 2int,
{
    lemma_token_end(s, i);
    lemma_skip_ws(s, i);
    match spec_token(s, i) {
        TokenView::RPar => {
            assert(s[skip_ws(s, i)] == ')');
        },
        TokenView::Int(n) => {
            lemma_no_rpar_elems(s, token_end(s, i));
            let v = ExprView::Int(token_range(s, i), n);
            assert(spec_elem(s, i) == (ParseOut::Node { v, next: token_end(s, i) }));
            match spec_elems(s, token_end(s, i)) {
                ElemsOut::Items { items, next } => {
                    assert(spec_elems(s, i) == (ElemsOut::Items {
                        items: seq![v] + items,
                        next,
                    }));
                },
                ElemsOut::Fail { diag, next } => {
                    assert(spec_elems(s, i) == (ElemsOut::Fail { diag, next }));
                },
            }
        },
        TokenView::Id(name) => {
            lemma_no_rpar_elems(s, token_end(s, i));
            let v = ExprView::Atom(name, token_range(s, i));
            assert(spec_elem(s, i) == (ParseOut::Node { v, next: token_end(s, i) }));
            match spec_elems(s, token_end(s, i)) {
                ElemsOut::Items { items, next } => {
                    assert(spec_elems(s, i) == (ElemsOut::Items {
                        items: seq![v] + items,
                        next,
                    }));
                },
                ElemsOut::Fail { diag, next } => {
                    assert(spec_elems(s, i) == (ElemsOut::Fail { diag, next }));
                },
            }
        },
        TokenView::LPar => {
            lemma_unmatched_open(s, i);
            match spec_list(s, i) {
                ParseOut::Fail { diag, next } => {
                    assert(spec_elem(s, i) == (ParseOut::Fail { diag, next }));
                    assert(next != i);
                    assert(spec_elems(s, i) == (ElemsOut::Fail { diag, next }));
                },
                ParseOut::Node { v, next } => {
                    assert(false);
                },
            }
        },
        _ => {
        },
    }
}

/// An opening `(` with no `)` anywhere before the end of the input makes
/// the parse fail with `UnclosedParenthesis`: the one anchored at this
/// parenthesis, or, for a nested unclosed list, at an inner one.
pub proof fn lemma_unmatched_open(s: Seq<char>, i: int)
    requires
        0 <= i <= s.len(),
        spec_token(s, i) == (TokenView::LPar),
        no_rpar_from(s, i),
    ensures
        spec_list(s, i) matches ParseOut::Fail { diag, next } && diag matches
            crate::errors::DiagView::UnclosedParenthesis { start } && next > i,
    decreases s.len() - i, 0int,
{
    lemma_token_end(s, i);
    let i1 = token_end(s, i);
    lemma_no_rpar_elems(s, i1);
    crate::parser::lemma_elems_bounds(s, i1);
}

/// Whitespace between tokens is transparent: removing a whitespace-only
/// run leaves the emitted token stream unchanged, provided the characters
/// on its two sides cannot join into one identifier lexeme.
pub proof fn lemma_whitespace_transparent(a: Seq<char>, w: Seq<char>, b: Seq<char>)
    requires
        forall|k: int| 0 <= k < w.len() ==> is_ws_char(#[trigger] w[k]),
        !(a.len() > 0 && b.len() > 0 && is_ident_char(a.last()) && is_ident_char(b[0])),
    ensures
        token_seq(a + w + b, 0) == token_seq(a + b, 0),
{
    if w.len() == 0 {
        assert(a + w + b =~= a + b);
    } else {
        lemma_ws_transparent_from(a, w, b, 0);
    }
}

/// An opening `(` whose matching `)` never comes before the end of the
/// input makes the parse fail with `UnclosedParenthesis` carrying the
/// range of exactly that opening parenthesis.
pub proof fn lemma_unclosed_parenthesis(s: Seq<char>, i: int)
    requires
        0 <= i <= s.len(),
        spec_token(s, i) == (TokenView::LPar),
        leaves_then_eof(s, token_end(s, i)),
    ensures
        spec_list(s, i) matches ParseOut::Fail { diag, next } && diag
            == (crate::errors::DiagView::UnclosedParenthesis { start: token_range(s, i) }),
{
    lemma_token_end(s, i);
    lemma_leaves_reach_eof(s, token_end(s, i));
}

} // verus!
