use glaze::lexer::{tokenize, Lexer, Token};
use glaze::error::ErrorKind;
use glaze::nodes::Op;

#[test]
fn tokens_of_a_block() {
    let ts = tokenize(b".".as_slice()).unwrap_err();
    assert_eq!(ts.kind, ErrorKind::UnrecognizedToken);
    let ts = tokenize(b"a:\tb(1.5, 'x')\n".as_slice()).unwrap();
    assert_eq!(ts.len(), 9);
    assert!(matches!(&ts[0], Token::Ident(t) if t == b"a"));
    assert!(matches!(ts[1], Token::Colon));
    assert!(matches!(ts[2], Token::Indent));
    assert!(matches!(&ts[3], Token::Function(t) if t == b"b"));
    assert!(matches!(ts[4], Token::Number(1500000)));
    assert!(matches!(ts[5], Token::Comma));
    assert!(matches!(&ts[6], Token::Str(t) if t == b"x"));
    assert!(matches!(ts[7], Token::CloseParen));
    assert!(matches!(ts[8], Token::Newline));
}

#[test]
fn tokens_skip_spaces_and_line_comments() {
    let ts = tokenize(b"  x    y // note\n-z --w -3 /*c*/".as_slice()).unwrap();
    assert!(matches!(&ts[0], Token::Ident(t) if t == b"x"));
    assert!(matches!(ts[1], Token::Indent));
    assert!(matches!(&ts[2], Token::Ident(t) if t == b"y"));
    assert!(matches!(&ts[3], Token::Ident(t) if t == b"-z"));
    assert!(matches!(&ts[4], Token::Ident(t) if t == b"--w"));
    assert!(matches!(ts[5], Token::Number(-3000000)));
    assert!(matches!(&ts[6], Token::MultilineComment(t) if t == b"c"));
    assert_eq!(ts.len(), 7);
}

#[test]
fn token_errors() {
    assert_eq!(tokenize(b"/* open".as_slice()).unwrap_err().kind, ErrorKind::UnclosedComment);
    assert_eq!(tokenize(b"'open".as_slice()).unwrap_err().kind, ErrorKind::UnclosedString);
    assert_eq!(tokenize(b"- ".as_slice()).unwrap_err().kind, ErrorKind::UnrecognizedToken);
}

#[test]
fn number_token_stops_at_second_point() {
    let mut lx = Lexer::new(b"1.2.3".as_slice());
    assert!(matches!(lx.next().unwrap(), Some(Token::Number(1200000))));
    assert_eq!(lx.next_byte(), Some(b'.'));
}

#[test]
fn cursor_positions() {
    let mut lx = Lexer::new(b"ab\ncd".as_slice());
    assert_eq!(lx.position(), (1, 1));
    assert_eq!(lx.position_at(4), (2, 2));
    lx.advance(3);
    assert_eq!(lx.position(), (2, 1));
    assert_eq!(lx.at(1), b'd');
    assert_eq!(lx.at(9), 0);
    assert_eq!(lx.char_at(0), 'c');
    assert_eq!(lx.byte_at(1), b'd');
    assert!(lx.starts_with(b"cd"));
    assert!(lx.peek(b"c"));
    assert!(lx.peek_at(1, b"d"));
    assert!(!lx.peek_at(2, b""));
    lx.advance(10);
    assert!(!lx.has_left());
    assert_eq!(lx.next_byte(), None);
}

#[test]
fn cursor_try_methods() {
    let mut lx = Lexer::new(b"\t\tx-1 ..=  #a0 \"s\" true -> 12.5\n".as_slice());
    assert!(!lx.try_indent(1));
    assert!(lx.try_indent(2));
    assert_eq!(lx.try_symbol(), Some(b"x-1".to_vec()));
    assert_eq!(lx.try_binary_op(), Some(Op::RangeInclusive));
    lx.skip_whitespace();
    assert_eq!(lx.try_hex().unwrap(), Some(b"a0".to_vec()));
    lx.skip_whitespace();
    assert_eq!(lx.try_string().unwrap(), Some(b"s".to_vec()));
    assert!(lx.try_char(' '));
    assert_eq!(lx.try_bool(), Some(true));
    assert!(lx.try_arrow());
    lx.skip_whitespace();
    assert_eq!(lx.try_number().unwrap(), Some(12500000));
    assert!(lx.try_newline());
    assert!(!lx.has_left());
}

#[test]
fn cursor_operators_need_a_following_space() {
    let mut lx = Lexer::new(b" -2".as_slice());
    assert_eq!(lx.try_binary_op(), None);
    let mut lx = Lexer::new(b" - 2".as_slice());
    assert_eq!(lx.try_binary_op(), Some(Op::Sub));
    let mut lx = Lexer::new(b"four    spaces".as_slice());
    assert!(lx.try_peek(b"four"));
    assert!(lx.try_indent(1));
    assert!(lx.is_whitespace(&b' '));
    assert!(!lx.is_whitespace(&b's'));
}

#[test]
fn string_escapes_and_number_errors() {
    let mut lx = Lexer::new(b"\"a\\\"b\" x".as_slice());
    assert_eq!(lx.try_string().unwrap(), Some(b"a\"b".to_vec()));
    assert_eq!(lx.position(), (1, 7));
    let mut lx = Lexer::new(b"1.x".as_slice());
    let e = lx.try_number().unwrap_err();
    assert_eq!(e.kind, ErrorKind::TrailingDot);
    assert_eq!(e.at, Some((1, 3)));
    let mut lx = Lexer::new(b"12.5px".as_slice());
    assert_eq!(lx.try_number().unwrap(), Some(12500000));
    assert_eq!(lx.position(), (1, 5));
}

#[test]
fn custom_property_is_one_identifier() {
    let ts = tokenize(b"--custom-property: 1".as_slice()).unwrap();
    assert!(matches!(&ts[0], Token::Ident(t) if t == b"--custom-property"));
    assert!(matches!(ts[1], Token::Colon));
}
