use bytes::Bytes;
use geo_git::decimal::Decimal;
use geo_git::lexer::{is_whitespace, tokenize, Cursor, LexError, LexFault, LiteralKind, Token, TokenKind};
use geo_git::parser::action::next_action;
use geo_git::parser::commit::next_commit;
use geo_git::parser::grammar::{ParseError, ParseFault};
use geo_git::parser::tokens::{next_ident, next_literal, next_semicolon, next_token, peek_token};
use geo_git::parser::StringParser;
use geo_git::db::version_controller::ActionKind;
use geo_git::geo::shape::Shape;

fn units(text: &str) -> i128 {
    let tokens = tokenize(text).expect("a number");
    assert_eq!(tokens.len(), 1);
    match tokens[0].kind {
        TokenKind::Literal { val, .. } => val.units,
        other => panic!("no number: {:?}", other),
    }
}

fn fault(text: &str) -> LexFault {
    tokenize(text).expect_err("no number").fault
}

const ONE: i128 = 1_000_000_000_000_000_000;

#[test]
fn numbers_are_read_exactly() {
    assert_eq!(units("1.01"), ONE + ONE / 100);
    assert_eq!(units("1"), ONE);
    assert_eq!(units("0"), 0);
    assert_eq!(units("007.50"), 7 * ONE + ONE / 2);
    assert_eq!(units("1.05"), ONE + ONE / 20);
    assert_eq!(units("0.000000000000000001"), 1);
    assert_eq!(units("0.1234567890123456780000"), 123_456_789_012_345_678);
    assert_eq!(units("9999999999999999999"), 9_999_999_999_999_999_999 * ONE);
    assert_eq!(units("9999999999999999999.999999999999999999"), 10_000_000_000_000_000_000 * ONE - 1);
    assert_eq!(units("3000.0"), 3000 * ONE);
}

#[test]
fn numbers_that_cannot_be_taken() {
    assert_eq!(fault("1."), LexFault::MalformedNumber);
    assert_eq!(fault("1.;"), LexFault::MalformedNumber);
    assert_eq!(fault("1. 5"), LexFault::MalformedNumber);
    assert_eq!(fault("10000000000000000000"), LexFault::NumberTooLarge);
    assert_eq!(fault("18446744073709551616.5"), LexFault::NumberTooLarge);
    assert_eq!(fault("99999999999999999999999999999999999999999"), LexFault::NumberTooLarge);
    assert_eq!(fault("0.0000000000000000001"), LexFault::NumberTooFine);
    assert_eq!(fault("0.00000000000000000000009"), LexFault::NumberTooFine);
    assert_eq!(fault("10000000000000000000."), LexFault::MalformedNumber);
    assert_eq!(fault("10000000000000000000.0000000000000000001"), LexFault::NumberTooLarge);
    assert_eq!(tokenize("ab 7.").unwrap_err(), LexError { fault: LexFault::MalformedNumber, at: 3 });
}

#[test]
fn tokens_bear_their_spans() {
    let tokens = tokenize("  ADDRECT\tA;12.5abc;;\n.5 a;b").unwrap();
    let spans: Vec<(usize, usize, usize)> = tokens.iter().map(|t| (t.start, t.end, t.len)).collect();
    assert_eq!(
        spans,
        vec![
            (2, 9, 7),
            (10, 11, 1),
            (11, 12, 1),
            (12, 16, 4),
            (16, 19, 3),
            (19, 20, 1),
            (20, 21, 1),
            (22, 24, 2),
            (25, 26, 1),
            (26, 27, 1),
            (27, 28, 1),
        ]
    );
    let kinds: Vec<TokenKind> = tokens.iter().map(|t| t.kind).collect();
    assert_eq!(kinds[0], TokenKind::Str);
    assert_eq!(kinds[2], TokenKind::Semicolon);
    assert_eq!(
        kinds[3],
        TokenKind::Literal { val: Decimal::from_units(25 * ONE / 2), kind: LiteralKind::Float }
    );
    assert_eq!(kinds[4], TokenKind::Str);
    assert_eq!(kinds[7], TokenKind::Str);
    assert_eq!(tokenize("12").unwrap()[0].kind, TokenKind::Literal { val: Decimal::from_integer(12), kind: LiteralKind::Int });
    assert_eq!(tokenize("").unwrap(), Vec::<Token>::new());
    assert_eq!(tokenize(" \n ").unwrap(), Vec::<Token>::new());
}

#[test]
fn whitespace_of_more_than_one_byte_separates_tokens() {
    let text = "a\u{85}b\u{200e}c\u{200f}d\u{2028}e\u{2029}f\u{b}g\u{c}h\rI";
    let tokens = tokenize(text).unwrap();
    assert_eq!(tokens.len(), 9);
    assert!(tokens.iter().all(|t| t.kind == TokenKind::Str && t.len == 1));
    assert_eq!(tokens[1].start, 3);
    assert_eq!(tokens[2].start, 7);
    let joined = "a\u{a0}b\u{2003}c\u{c2}\u{e2}\u{80}";
    let tokens = tokenize(joined).unwrap();
    assert_eq!(tokens.len(), 1);
    assert_eq!((tokens[0].start, tokens[0].end), (0, joined.len()));
    for c in ['\t', '\n', '\u{b}', '\u{c}', '\r', ' ', '\u{85}', '\u{200e}', '\u{200f}', '\u{2028}', '\u{2029}'] {
        assert!(is_whitespace(c));
        let text = format!("x{}y", c);
        assert_eq!(tokenize(&text).unwrap().len(), 2);
    }
    for c in ['a', '0', ';', '\0', '\u{a0}', '\u{2003}', '\u{200d}', '\u{202a}', '\u{84}', '\u{3000}'] {
        assert!(!is_whitespace(c));
    }
}

#[test]
fn cursor() {
    let raw_text = "ADDRECT  apple 12 0.5\n\tname;x\u{2028}\u{e9}t\u{e9} ; 7";
    let oracle_tokens = ["ADDRECT", "apple", "12", "0.5", "name", ";", "x", "\u{e9}t\u{e9}", ";", "7"];
    let mut cursor = Cursor::new(raw_text);
    assert_eq!(cursor.len(), raw_text.len());
    let mut id = 0;
    loop {
        let token = cursor.advance_token().unwrap();
        if token.kind == TokenKind::Eof {
            break;
        }
        assert!(id < oracle_tokens.len());
        assert!(token.len == oracle_tokens[id].len());
        assert_eq!(&raw_text[token.start..token.end], oracle_tokens[id]);
        assert_eq!(cursor.offset(), token.end);
        assert_eq!(cursor.pos_within_token(), token.len);
        id += 1;
    }
    assert_eq!(id, oracle_tokens.len());
    assert!(cursor.is_eof());
    assert_eq!(cursor.advance_token().unwrap().kind, TokenKind::Eof);
}

#[test]
fn cursor_steps() {
    let mut c = Cursor::new("12ab  7;");
    assert_eq!(c.first(), b'1');
    assert_eq!(c.eat_demical_digits(), Some(12));
    assert_eq!(c.eat_demical_digits(), None);
    assert_eq!(c.pos_within_token(), 2);
    c.reset_pos_within_token();
    assert_eq!(c.pos_within_token(), 0);
    assert_eq!(c.bump(), Some(b'a'));
    c.eat_while(|b| b != b' ');
    assert_eq!(c.offset(), 4);
    c.eat_whitespace();
    assert_eq!(c.offset(), 6);
    assert_eq!(c.number(), Ok((Decimal::from_integer(7), LiteralKind::Int)));
    assert!(!c.is_eof());
    c.eat_identifier();
    assert!(c.is_eof());
    assert_eq!(c.first(), 0);
    assert_eq!(c.bump(), None);
    let mut big = Cursor::new("18446744073709551615 18446744073709551616 99999999999999999999999");
    assert_eq!(big.eat_demical_digits(), Some(u64::MAX - 0));
    big.eat_whitespace();
    assert_eq!(big.eat_demical_digits(), Some(u64::MAX));
    big.eat_whitespace();
    assert_eq!(big.eat_demical_digits(), Some(u64::MAX));
    let mut word = Cursor::new("ab;cd");
    word.eat_identifier();
    assert_eq!(word.offset(), 2);
    let mut word = Cursor::new(";;x\u{85}y");
    word.eat_identifier();
    assert_eq!(word.offset(), 1);
    word.eat_identifier();
    assert_eq!(word.offset(), 3);
}

#[test]
fn the_parser_reads_token_by_token() {
    let text = "name 4.25 ; UPDRECT r 1 2 3 4 5 6 7 8; COMMIT tail";
    let src = Bytes::copy_from_slice(text.as_bytes());
    let mut p = StringParser::new(&src, Cursor::new(text));
    assert_eq!(p.read_text(5, 9), Bytes::from_static(b"4.25"));
    assert_eq!(peek_token(&p).unwrap().kind, TokenKind::Str);
    assert_eq!(next_ident(&mut p), Ok(Some(Bytes::from_static(b"name"))));
    assert_eq!(peek_token(&p).unwrap().start, 5);
    assert_eq!(next_literal(&mut p), Ok(Some(Decimal::from_units(17 * ONE / 4))));
    assert_eq!(next_semicolon(&mut p), Ok(()));
    let a = next_action(&mut p).unwrap();
    assert!(matches!(a.action, ActionKind::Modify));
    assert_eq!(a.name, Bytes::from_static(b"r"));
    assert!(matches!(a.geo, Shape::Rect(r) if r.ur.y == Decimal::from_integer(4)));
    assert_eq!(a.color.unwrap().b, 7);
    assert_eq!(a.gradient, None);
    let c = next_commit(&mut p).unwrap().unwrap();
    assert_eq!(c.rect_actions.len() + c.line_actions.len(), 0);
    assert_eq!(next_token(&mut p).unwrap().kind, TokenKind::Str);
    assert_eq!(next_ident(&mut p), Ok(None));
    assert_eq!(next_literal(&mut p), Ok(None));
    assert_eq!(next_semicolon(&mut p), Ok(()));
    assert!(next_commit(&mut p).unwrap().is_none());
    let mut p = StringParser::new(&src, Cursor::new(text));
    assert_eq!(next_literal(&mut p), Err(ParseError { fault: ParseFault::ExpectedNumber, at: 0 }));
    let mut p = StringParser::new(&src, Cursor::new(text));
    assert_eq!(next_semicolon(&mut p), Err(ParseError { fault: ParseFault::ExpectedTerminator, at: 0 }));
    let text = "COMMIT ADDLINE l 1 2 3 4; ADDRECT r 1 2 3 4 5";
    let src = Bytes::copy_from_slice(text.as_bytes());
    let commits = StringParser::new(&src, Cursor::new(text)).parse().unwrap();
    assert_eq!(commits.len(), 2);
    assert_eq!((commits[1].rect_actions.len(), commits[1].line_actions.len()), (1, 1));
    assert_eq!(commits[1].rect_actions[0].gradient, Some(Decimal::from_integer(5)));
}
