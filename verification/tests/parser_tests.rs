use icaro::errors::SyntaticDiagnostic;
use icaro::parser::Parser;
use icaro::range::{Position, Range};
use icaro::token::Token;
use icaro::tree::{Expr, Ident, Symbol};

#[test]
fn parses_simple_expression() {
    let mut parser = Parser::new("(+ 1 2)");
    let expr = parser.parse_elem().ok().expect("balanced input must parse");
    match expr {
        Expr::List(items) => {
            assert_eq!(items.len(), 3);
            match &items[0] {
                Expr::Atom(id) => assert_eq!(id.data.name, "+"),
                _ => panic!("first element must be the atom +"),
            }
            match &items[1] {
                Expr::Int(_, n) => assert_eq!(*n, 1),
                _ => panic!("second element must be the integer 1"),
            }
            match &items[2] {
                Expr::Int(_, n) => assert_eq!(*n, 2),
                _ => panic!("third element must be the integer 2"),
            }
        }
        _ => panic!("a parenthesized input must parse to a list"),
    }
}

#[test]
fn empty_list_is_valid() {
    let mut parser = Parser::new("()");
    let expr = parser.parse_elem().ok().expect("the empty list is legal");
    match expr {
        Expr::List(items) => assert_eq!(items.len(), 0),
        _ => panic!("() must parse to an empty list"),
    }
}

#[test]
fn missing_close_paren_is_reported_at_the_opening() {
    let mut parser = Parser::new("(1 2");
    let diag = match parser.parse_elem() {
        Err(d) => d,
        Ok(_) => panic!("an unclosed list must not parse"),
    };
    match diag {
        SyntaticDiagnostic::UnclosedParenthesis { start } => {
            assert_eq!(start.start.index, 0);
            assert_eq!(start.end.index, 1);
        }
        _ => panic!("the diagnostic must point at the opening parenthesis"),
    }
}

#[test]
fn bare_integer_parses_as_element() {
    let mut parser = Parser::new("42");
    let expr = parser.parse_elem().ok().expect("an integer is an element");
    match expr {
        Expr::Int(range, n) => {
            assert_eq!(n, 42);
            assert_eq!(range.start.index, 0);
            assert_eq!(range.end.index, 2);
        }
        _ => panic!("42 must parse to an integer leaf"),
    }
}

#[test]
fn stray_close_paren_is_unexpected() {
    let mut parser = Parser::new(")");
    let diag = match parser.parse_elem() {
        Err(d) => d,
        Ok(_) => panic!(") is not an element"),
    };
    match diag {
        SyntaticDiagnostic::UnexpectedToken { place, token, expected } => {
            assert_eq!(place.start.index, 0);
            assert_eq!(place.end.index, 1);
            assert_eq!(token, Token::RPar);
            assert_eq!(expected.len(), 0);
        }
        _ => panic!("a stray ) must be reported as an unexpected token"),
    }
}

#[test]
fn nested_lists_parse() {
    let mut parser = Parser::new("((1) x)");
    let expr = parser.parse_elem().ok().expect("nested balanced input must parse");
    match expr {
        Expr::List(items) => {
            assert_eq!(items.len(), 2);
            match &items[0] {
                Expr::List(inner) => {
                    assert_eq!(inner.len(), 1);
                    match &inner[0] {
                        Expr::Int(_, n) => assert_eq!(*n, 1),
                        _ => panic!("the inner list holds the integer 1"),
                    }
                }
                _ => panic!("the first element is itself a list"),
            }
        }
        _ => panic!("the input is a list"),
    }
}

#[test]
fn inner_unclosed_paren_wins() {
    let mut parser = Parser::new("(a (b");
    match parser.parse_elem() {
        Err(SyntaticDiagnostic::UnclosedParenthesis { start }) => {
            assert_eq!(start.start.index, 3);
            assert_eq!(start.end.index, 4);
        }
        _ => panic!("the inner unclosed parenthesis is diagnosed first"),
    }
}

#[test]
fn parse_at_eof_is_unexpected_token() {
    let mut parser = Parser::new("   ");
    match parser.parse_elem() {
        Err(SyntaticDiagnostic::UnexpectedToken { token, .. }) => {
            assert_eq!(token, Token::EOF);
        }
        _ => panic!("empty input holds no element"),
    }
}

#[test]
fn try_single_distinguishes_clean_misses() {
    let mut parser = Parser::new(") 1");
    match parser.try_single() {
        Ok(None) => {}
        _ => panic!("a leading ) is a clean non-match"),
    }
    let mut parser = Parser::new("7");
    match parser.try_single() {
        Ok(Some(Expr::Int(_, n))) => assert_eq!(n, 7),
        _ => panic!("an integer matches"),
    }
    let mut parser = Parser::new("(1");
    match parser.try_single() {
        Err(SyntaticDiagnostic::UnclosedParenthesis { .. }) => {}
        _ => panic!("a failure after consumption propagates"),
    }
}

#[test]
fn eat_exact_advances_only_on_match() {
    let mut parser = Parser::new("( a");
    let (token, range) = parser.eat_exact(Token::LPar).ok().expect("the input starts with (");
    assert_eq!(token, Token::LPar);
    assert_eq!(range.start.index, 0);
    assert_eq!(range.end.index, 1);
    match parser.eat_exact(Token::RPar) {
        Err(SyntaticDiagnostic::UnexpectedToken { token, .. }) => {
            assert_eq!(token, Token::Id(String::from("a")));
        }
        _ => panic!("the next token is an identifier, not )"),
    }
}

#[test]
fn eat_classifies_without_advancing() {
    fn int_value(t: &Token) -> Option<usize> {
        match t {
            Token::Int(n) => Some(*n),
            _ => None,
        }
    }
    let mut parser = Parser::new("5");
    assert_eq!(parser.eat(int_value), Ok(5));
    assert_eq!(parser.eat(int_value), Ok(5));
    let mut parser = Parser::new("x");
    assert!(parser.eat(int_value).is_err());
}

#[test]
fn positions_track_lines_and_columns() {
    let mut pos = Position::new(0, 0, 0);
    pos.advance('a');
    assert_eq!((pos.line, pos.column, pos.index), (0, 1, 1));
    pos.advance('\n');
    assert_eq!((pos.line, pos.column, pos.index), (1, 0, 2));
    pos.advance('é');
    assert_eq!((pos.line, pos.column, pos.index), (1, 1, 4));
    let range = Range::new(Position::new(0, 0, 0), pos);
    assert_eq!(range.end.index, 4);
}

#[test]
fn symbols_bind_names_to_ranges() {
    let sym = Symbol::new(String::from("cons"));
    assert_eq!(sym.name, "cons");
    let range = Range::new(Position::new(0, 0, 0), Position::new(0, 4, 4));
    let id = Ident::from_string(String::from("cons"), range);
    assert_eq!(id.data.name, "cons");
    assert_eq!(id.range.end.column, 4);
}
