use icaro::arith;
use icaro::lexer::Lexer;
use icaro::token::Token;

#[test]
fn assert_next_char() {
    let input = "(+ 1 2)";

    let mut lexer = arith::Lexer::new(input);

    let c = lexer.next_char();
    assert_eq!(c, Some('('));

    let c = lexer.next_char();
    assert_eq!(c, Some('+'));
}

#[test]
fn should_tokenize() {
    let input = "(+ 1 2)";

    let mut lexer = arith::Lexer::new(input);

    let (token, _range) = lexer.tokenize();
    assert_eq!(token, arith::Token::LPar);

    let (token, _range) = lexer.tokenize();
    assert_eq!(token, arith::Token::OpPlus);

    let (token, _range) = lexer.tokenize();
    assert_eq!(token, arith::Token::LInt(1));

    let (token, _range) = lexer.tokenize();
    assert_eq!(token, arith::Token::LInt(2));

    let (token, _range) = lexer.tokenize();
    assert_eq!(token, arith::Token::RPar);
}

#[test]
fn arith_underscore_separators() {
    let mut lexer = arith::Lexer::new("1_024 (2__0)");
    assert_eq!(lexer.tokenize().0, arith::Token::LInt(1024));
    assert_eq!(lexer.tokenize().0, arith::Token::LPar);
    assert_eq!(lexer.tokenize().0, arith::Token::LInt(20));
    assert_eq!(lexer.tokenize().0, arith::Token::RPar);
    assert_eq!(lexer.tokenize().0, arith::Token::EOF);
}

#[test]
fn arith_ranges_are_byte_offsets() {
    let mut lexer = arith::Lexer::new(" 12)");
    let (token, range) = lexer.tokenize();
    assert_eq!(token, arith::Token::LInt(12));
    assert_eq!(range.start.index, 1);
    assert_eq!(range.end.index, 3);
    let (token, range) = lexer.tokenize();
    assert_eq!(token, arith::Token::RPar);
    assert_eq!(range.start.index, 3);
    assert_eq!(range.end.index, 4);
}

#[test]
fn tokenizes_expression() {
    let mut lexer = Lexer::new("(+ 1 2)");
    assert_eq!(lexer.tokenize().0, Token::LPar);
    assert_eq!(lexer.tokenize().0, Token::Id(String::from("+")));
    assert_eq!(lexer.tokenize().0, Token::Int(1));
    assert_eq!(lexer.tokenize().0, Token::Int(2));
    assert_eq!(lexer.tokenize().0, Token::RPar);
    assert_eq!(lexer.tokenize().0, Token::EOF);
}

#[test]
fn integer_token_spans_exactly_its_digits() {
    let mut lexer = Lexer::new("42");
    let (token, range) = lexer.tokenize();
    assert_eq!(token, Token::Int(42));
    assert_eq!(range.start.index, 0);
    assert_eq!(range.end.index, 2);
    assert_eq!(range.start.column, 0);
    assert_eq!(range.end.column, 2);
}

#[test]
fn whitespace_is_transparent() {
    let mut spaced = Lexer::new("( a\t12 )");
    let mut tight = Lexer::new("(a 12)");
    for _ in 0..5 {
        assert_eq!(spaced.tokenize().0, tight.tokenize().0);
    }
}

#[test]
fn eof_is_idempotent() {
    let mut lexer = Lexer::new("x  ");
    assert_eq!(lexer.tokenize().0, Token::Id(String::from("x")));
    let (first_token, first_range) = lexer.tokenize();
    assert_eq!(first_token, Token::EOF);
    for _ in 0..3 {
        let (token, range) = lexer.tokenize();
        assert_eq!(token, Token::EOF);
        assert_eq!(range, first_range);
    }
}

#[test]
fn newline_is_an_identifier_character() {
    let mut lexer = Lexer::new("a\nb");
    assert_eq!(lexer.tokenize().0, Token::Id(String::from("a\nb")));
    assert_eq!(lexer.tokenize().0, Token::EOF);
}

#[test]
fn multibyte_characters_advance_byte_offsets() {
    let mut lexer = Lexer::new("é (");
    let (token, range) = lexer.tokenize();
    assert_eq!(token, Token::Id(String::from("é")));
    assert_eq!(range.start.index, 0);
    assert_eq!(range.end.index, 2);
    let (token, range) = lexer.tokenize();
    assert_eq!(token, Token::LPar);
    assert_eq!(range.start.index, 3);
    assert_eq!(range.end.index, 4);
}

#[test]
fn arith_eof_is_idempotent() {
    let mut lexer = arith::Lexer::new("+ ");
    assert_eq!(lexer.tokenize().0, arith::Token::OpPlus);
    let (token, range) = lexer.tokenize();
    assert_eq!(token, arith::Token::EOF);
    for _ in 0..3 {
        let (again, range_again) = lexer.tokenize();
        assert_eq!(again, arith::Token::EOF);
        assert_eq!(range_again, range);
    }
}

#[test]
fn leading_whitespace_before_a_list() {
    let mut parser = icaro::parser::Parser::new("  ( 7 )");
    match parser.parse_elem() {
        Ok(icaro::tree::Expr::List(items)) => assert_eq!(items.len(), 1),
        _ => panic!("a list after leading whitespace parses"),
    }
}
