//! Reading single tokens of the kind that the grammar asks for.

use super::grammar::{
    corners_after, from_lex, ident_after, literal_after, name_after, number_after, numbers_after,
    terminator_after, token_after, ParseError, ParseFault,
};
use super::StringParser;
use crate::decimal::Decimal;
use crate::geo::point::Point;
use crate::lexer::{lemma_lexeme_bounds, LexError, LexFault, Token, TokenKind};
use crate::text::content;
use bytes::Bytes;
use vstd::prelude::*;

verus! {

/// The error of the parser that an error of the lexer comes to.
pub fn lex_failure(e: LexError) -> (r: ParseError)
    ensures
        r == from_lex(e),
{
    ParseError {
        fault: match e.fault {
            LexFault::MalformedNumber => ParseFault::MalformedNumber,
            LexFault::NumberTooLarge => ParseFault::NumberTooLarge,
            LexFault::NumberTooFine => ParseFault::NumberTooFine,
        },
        at: e.at,
    }
}

/// Reads the next token.
pub fn next_token(parser: &mut StringParser) -> (r: Result<Token, ParseError>)
    requires
        old(parser).wf(),
    ensures
        final(parser).wf(),
        final(parser).src == old(parser).src,
        match token_after(old(parser).text(), old(parser).place()) {
            Ok(l) => r matches Ok(t) && t@ == l && final(parser).place() == l.end,
            Err(e) => r == Err::<Token, ParseError>(e),
        },
{
    match parser.cursor.advance_token() {
        Ok(t) => Ok(t),
        Err(e) => Err(lex_failure(e)),
    }
}

/// The next token, which stays unread.
pub fn peek_token(parser: &StringParser) -> (r: Result<Token, ParseError>)
    requires
        parser.wf(),
    ensures
        match token_after(parser.text(), parser.place()) {
            Ok(l) => r matches Ok(t) && t@ == l,
            Err(e) => r == Err::<Token, ParseError>(e),
        },
{
    let mut cursor = parser.cursor;
    match cursor.advance_token() {
        Ok(t) => Ok(t),
        Err(e) => Err(lex_failure(e)),
    }
}

/// Reads a word, and returns its bytes; `None` at the end of the text.
pub fn next_ident(parser: &mut StringParser) -> (r: Result<Option<Bytes>, ParseError>)
    requires
        old(parser).wf(),
    ensures
        final(parser).wf(),
        final(parser).src == old(parser).src,
        match ident_after(old(parser).text(), old(parser).place()) {
            Ok(Some(found)) => {
                &&& r matches Ok(Some(b))
                &&& content(b) == found.0
                &&& final(parser).place() == found.1
            },
            Ok(None) => r matches Ok(None),
            Err(e) => r matches Err(x) && x == e,
        },
{
    proof {
        lemma_lexeme_bounds(parser.text(), parser.place());
    }
    let token = match next_token(parser) {
        Ok(t) => t,
        Err(e) => {
            return Err(e);
        },
    };
    match token.kind {
        TokenKind::Eof => Ok(None),
        TokenKind::Str => Ok(Some(parser.read_text(token.start, token.end))),
        _ => Err(ParseError { fault: ParseFault::ExpectedName, at: token.start }),
    }
}

/// Reads a number, and returns its value; `None` at the end of the text.
pub fn next_literal(parser: &mut StringParser) -> (r: Result<Option<Decimal>, ParseError>)
    requires
        old(parser).wf(),
    ensures
        final(parser).wf(),
        final(parser).src == old(parser).src,
        match literal_after(old(parser).text(), old(parser).place()) {
            Ok(Some(found)) => {
                &&& r == Ok::<Option<Decimal>, ParseError>(Some(found.0))
                &&& final(parser).place() == found.1
            },
            Ok(None) => r == Ok::<Option<Decimal>, ParseError>(None),
            Err(e) => r == Err::<Option<Decimal>, ParseError>(e),
        },
{
    let token = match next_token(parser) {
        Ok(t) => t,
        Err(e) => {
            return Err(e);
        },
    };
    match token.kind {
        TokenKind::Eof => Ok(None),
        TokenKind::Literal { val, kind: _ } => Ok(Some(val)),
        _ => Err(ParseError { fault: ParseFault::ExpectedNumber, at: token.start }),
    }
}

/// Reads the end of a statement: a `;`, or nothing at the end of the text.
pub fn next_semicolon(parser: &mut StringParser) -> (r: Result<(), ParseError>)
    requires
        old(parser).wf(),
    ensures
        final(parser).wf(),
        final(parser).src == old(parser).src,
        match terminator_after(old(parser).text(), old(parser).place()) {
            Ok(p) => r is Ok && final(parser).place() == p,
            Err(e) => r == Err::<(), ParseError>(e),
        },
{
    let token = match next_token(parser) {
        Ok(t) => t,
        Err(e) => {
            return Err(e);
        },
    };
    match token.kind {
        TokenKind::Eof => Ok(()),
        TokenKind::Semicolon => Ok(()),
        _ => Err(ParseError { fault: ParseFault::ExpectedTerminator, at: token.start }),
    }
}

/// Reads a word that has to be there.
pub fn need_ident(parser: &mut StringParser) -> (r: Result<Bytes, ParseError>)
    requires
        old(parser).wf(),
    ensures
        final(parser).wf(),
        final(parser).src == old(parser).src,
        match name_after(old(parser).text(), old(parser).place()) {
            Ok(found) => r matches Ok(b) && content(b) == found.0 && final(parser).place()
                == found.1,
            Err(e) => r matches Err(x) && x == e,
        },
{
    let end: usize = parser.cursor.len();
    match next_ident(parser) {
        Err(e) => Err(e),
        Ok(None) => Err(ParseError { fault: ParseFault::UnexpectedEnd, at: end }),
        Ok(Some(b)) => Ok(b),
    }
}

/// Reads a number that has to be there.
pub fn need_literal(parser: &mut StringParser) -> (r: Result<Decimal, ParseError>)
    requires
        old(parser).wf(),
    ensures
        final(parser).wf(),
        final(parser).src == old(parser).src,
        match number_after(old(parser).text(), old(parser).place()) {
            Ok(found) => r == Ok::<Decimal, ParseError>(found.0) && final(parser).place()
                == found.1,
            Err(e) => r == Err::<Decimal, ParseError>(e),
        },
{
    let end: usize = parser.cursor.len();
    match next_literal(parser) {
        Err(e) => Err(e),
        Ok(None) => Err(ParseError { fault: ParseFault::UnexpectedEnd, at: end }),
        Ok(Some(v)) => Ok(v),
    }
}

/// Reads the four numbers of a geometry.
pub fn need_corners(parser: &mut StringParser) -> (r: Result<(Point, Point), ParseError>)
    requires
        old(parser).wf(),
    ensures
        final(parser).wf(),
        final(parser).src == old(parser).src,
        match corners_after(old(parser).text(), old(parser).place()) {
            Ok(found) => r == Ok::<(Point, Point), ParseError>(found.0) && final(parser).place()
                == found.1,
            Err(e) => r == Err::<(Point, Point), ParseError>(e),
        },
{
    let llx = match need_literal(parser) {
        Ok(v) => v,
        Err(e) => {
            return Err(e);
        },
    };
    let lly = match need_literal(parser) {
        Ok(v) => v,
        Err(e) => {
            return Err(e);
        },
    };
    let urx = match need_literal(parser) {
        Ok(v) => v,
        Err(e) => {
            return Err(e);
        },
    };
    let ury = match need_literal(parser) {
        Ok(v) => v,
        Err(e) => {
            return Err(e);
        },
    };
    Ok((Point { x: llx, y: lly }, Point { x: urx, y: ury }))
}

/// Reads all the numbers up to the end of the statement, which stays
/// unread.
pub fn rest_literals(parser: &mut StringParser) -> (r: Result<Vec<Decimal>, ParseError>)
    requires
        old(parser).wf(),
    ensures
        final(parser).wf(),
        final(parser).src == old(parser).src,
        match numbers_after(old(parser).text(), old(parser).place()) {
            Ok(found) => r matches Ok(v) && v@ == found.0 && final(parser).place() == found.1,
            Err(e) => r matches Err(x) && x == e,
        },
{
    let ghost s = parser.text();
    let ghost start = parser.place();
    let mut literals: Vec<Decimal> = Vec::new();
    loop
        invariant
            parser.wf(),
            parser.src == old(parser).src,
            parser.text() == s,
            s == old(parser).text(),
            start == old(parser).place(),
            match numbers_after(s, parser.place()) {
                Ok(rest) => numbers_after(s, start) == Ok::<(Seq<Decimal>, int), ParseError>(
                    (literals@ + rest.0, rest.1),
                ),
                Err(e) => numbers_after(s, start) == Err::<(Seq<Decimal>, int), ParseError>(e),
            },
        decreases s.len() - parser.place(),
    {
        let ghost at = parser.place();
        let ghost before = literals@;
        proof {
            lemma_lexeme_bounds(s, at);
        }
        let token = match peek_token(parser) {
            Ok(t) => t,
            Err(e) => {
                return Err(e);
            },
        };
        match token.kind {
            TokenKind::Eof => {
                proof {
                    assert(literals@ + Seq::<Decimal>::empty() =~= literals@);
                }
                return Ok(literals);
            },
            TokenKind::Semicolon => {
                proof {
                    assert(literals@ + Seq::<Decimal>::empty() =~= literals@);
                }
                return Ok(literals);
            },
            _ => {},
        }
        match need_literal(parser) {
            Err(e) => {
                return Err(e);
            },
            Ok(v) => {
                literals.push(v);
                proof {
                    match numbers_after(s, parser.place()) {
                        Ok(rest) => {
                            assert(before + (seq![v] + rest.0) =~= literals@ + rest.0);
                        },
                        Err(_) => {},
                    }
                }
            },
        }
    }
}

} // verus!
