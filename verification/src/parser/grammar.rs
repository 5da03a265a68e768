//! The grammar of scripts, as functions from the bytes of a text and a place
//! in it to what is read there.

use crate::db::version_controller::{ActionKind, ActionView, CommitView};
use crate::decimal::Decimal;
use crate::geo::color::Color;
use crate::geo::line::Line;
use crate::geo::point::Point;
use crate::geo::rect::Rect;
use crate::geo::shape::Shape;
use crate::lexer::{lexeme_at, LexError, LexFault, Lexeme, TokenKind};
use vstd::prelude::*;

verus! {

/// What is wrong with a script.
#[derive(Clone, Copy, Debug, PartialEq, Eq, Structural)]
pub enum ParseFault {
    /// A number with a decimal point and no digit after it.
    MalformedNumber,
    /// A number whose whole part is 10^19 or more.
    NumberTooLarge,
    /// A number with a digit other than zero beyond the eighteenth
    /// fractional place.
    NumberTooFine,
    /// A number or a `;` where a name or a keyword has to stand.
    ExpectedName,
    /// A word or a `;` where a number has to stand.
    ExpectedNumber,
    /// A word or a number where a statement has to end.
    ExpectedTerminator,
    /// A statement that starts with no known keyword.
    UnknownStatement,
    /// An `ADDRECT` with neither one nor three numbers after its geometry.
    TrailingCount,
    /// The end of the text in the middle of a statement.
    UnexpectedEnd,
}

/// What is wrong with a script, and the byte at which the token starts that
/// shows it. For `UnknownStatement` and `TrailingCount` that token is the
/// keyword of the statement.
#[derive(Clone, Copy, Debug, PartialEq, Eq, Structural)]
pub struct ParseError {
    pub fault: ParseFault,
    pub at: usize,
}

pub open spec fn from_lex(e: LexError) -> ParseError {
    ParseError {
        fault: match e.fault {
            LexFault::MalformedNumber => ParseFault::MalformedNumber,
            LexFault::NumberTooLarge => ParseFault::NumberTooLarge,
            LexFault::NumberTooFine => ParseFault::NumberTooFine,
        },
        at: e.at,
    }
}

/// The token that follows place `i`.
pub open spec fn token_after(s: Seq<u8>, i: int) -> Result<Lexeme, ParseError> {
    match lexeme_at(s, i) {
        Ok(l) => Ok(l),
        Err(e) => Err(from_lex(e)),
    }
}

/// The upper-case form of an ASCII letter; any other byte is left alone.
pub open spec fn upper(b: u8) -> u8 {
    if 97 <= b <= 122 {
        (b - 32) as u8
    } else {
        b
    }
}

/// Whether `text` is `word` but for the case of its ASCII letters, `word`
/// being in upper case.
pub open spec fn spells(text: Seq<u8>, word: Seq<u8>) -> bool {
    text.map_values(|b: u8| upper(b)) == word
}

/// The word `ADDRECT`.
pub open spec fn word_addrect() -> Seq<u8> {
    seq![65u8, 68u8, 68u8, 82u8, 69u8, 67u8, 84u8]
}

/// The word `UPDRECT`.
pub open spec fn word_updrect() -> Seq<u8> {
    seq![85u8, 80u8, 68u8, 82u8, 69u8, 67u8, 84u8]
}

/// The word `DELRECT`.
pub open spec fn word_delrect() -> Seq<u8> {
    seq![68u8, 69u8, 76u8, 82u8, 69u8, 67u8, 84u8]
}

/// The word `ADDLINE`.
pub open spec fn word_addline() -> Seq<u8> {
    seq![65u8, 68u8, 68u8, 76u8, 73u8, 78u8, 69u8]
}

/// The word `COMMIT`.
pub open spec fn word_commit() -> Seq<u8> {
    seq![67u8, 79u8, 77u8, 77u8, 73u8, 84u8]
}

/// A word is asked for after place `i`: its bytes and where it ends, or
/// `None` at the end of the text.
pub open spec fn ident_after(s: Seq<u8>, i: int) -> Result<Option<(Seq<u8>, int)>, ParseError> {
    match token_after(s, i) {
        Err(e) => Err(e),
        Ok(l) => match l.kind {
            TokenKind::Eof => Ok(None),
            TokenKind::Str => Ok(Some((s.subrange(l.start, l.end), l.end))),
            _ => Err(ParseError { fault: ParseFault::ExpectedName, at: l.start as usize }),
        },
    }
}

/// A number is asked for after place `i`: its value and where it ends, or
/// `None` at the end of the text.
pub open spec fn literal_after(s: Seq<u8>, i: int) -> Result<Option<(Decimal, int)>, ParseError> {
    match token_after(s, i) {
        Err(e) => Err(e),
        Ok(l) => match l.kind {
            TokenKind::Eof => Ok(None),
            TokenKind::Literal { val, .. } => Ok(Some((val, l.end))),
            _ => Err(ParseError { fault: ParseFault::ExpectedNumber, at: l.start as usize }),
        },
    }
}

/// The end of a statement is asked for after place `i`: a `;`, which is
/// read, or the end of the text. The result is where reading goes on.
pub open spec fn terminator_after(s: Seq<u8>, i: int) -> Result<int, ParseError> {
    match token_after(s, i) {
        Err(e) => Err(e),
        Ok(l) => match l.kind {
            TokenKind::Eof => Ok(l.end),
            TokenKind::Semicolon => Ok(l.end),
            _ => Err(ParseError { fault: ParseFault::ExpectedTerminator, at: l.start as usize }),
        },
    }
}

/// A word that has to be there.
pub open spec fn name_after(s: Seq<u8>, i: int) -> Result<(Seq<u8>, int), ParseError> {
    match ident_after(s, i) {
        Err(e) => Err(e),
        Ok(None) => Err(ParseError { fault: ParseFault::UnexpectedEnd, at: s.len() as usize }),
        Ok(Some(found)) => Ok(found),
    }
}

/// A number that has to be there.
pub open spec fn number_after(s: Seq<u8>, i: int) -> Result<(Decimal, int), ParseError> {
    match literal_after(s, i) {
        Err(e) => Err(e),
        Ok(None) => Err(ParseError { fault: ParseFault::UnexpectedEnd, at: s.len() as usize }),
        Ok(Some(found)) => Ok(found),
    }
}

/// The four numbers of a geometry, and where they end.
pub open spec fn corners_after(s: Seq<u8>, i: int) -> Result<((Point, Point), int), ParseError> {
    match number_after(s, i) {
        Err(e) => Err(e),
        Ok((llx, p1)) => match number_after(s, p1) {
            Err(e) => Err(e),
            Ok((lly, p2)) => match number_after(s, p2) {
                Err(e) => Err(e),
                Ok((urx, p3)) => match number_after(s, p3) {
                    Err(e) => Err(e),
                    Ok((ury, p4)) => Ok(
                        ((Point { x: llx, y: lly }, Point { x: urx, y: ury }), p4),
                    ),
                },
            },
        },
    }
}

/// All the numbers that follow place `i` up to the end of the statement,
/// and where the last of them ends. The end of the statement itself is not
/// read.
pub open spec fn numbers_after(s: Seq<u8>, i: int) -> Result<(Seq<Decimal>, int), ParseError>
    decreases s.len() - i,
{
    match token_after(s, i) {
        Err(e) => Err(e),
        Ok(l) => match l.kind {
            TokenKind::Eof => Ok((Seq::empty(), i)),
            TokenKind::Semicolon => Ok((Seq::empty(), i)),
            TokenKind::Str => Err(
                ParseError { fault: ParseFault::ExpectedNumber, at: l.start as usize },
            ),
            TokenKind::Literal { val, .. } => if l.end <= i || l.end > s.len() {
                Ok((Seq::empty(), i))
            } else {
                match numbers_after(s, l.end) {
                    Err(e) => Err(e),
                    Ok((rest, p)) => Ok((seq![val] + rest, p)),
                }
            },
        },
    }
}

/// The color that three numbers give: each is cut to a byte, and the color
/// is fully transparent.
pub open spec fn rgb_of(r: Decimal, g: Decimal, b: Decimal) -> Color {
    Color { r: r.byte_value() as u8, g: g.byte_value() as u8, b: b.byte_value() as u8, a: 0 }
}

pub open spec fn rect_of(c: (Point, Point)) -> Shape {
    Shape::Rect(Rect { ll: c.0, ur: c.1 })
}

pub open spec fn line_of(c: (Point, Point)) -> Shape {
    Shape::Line(Line { ll: c.0, ur: c.1 })
}

/// The geometry that the numbers of an `UPDRECT` give: the first four, if
/// there are as many.
pub open spec fn update_geometry(numbers: Seq<Decimal>) -> Shape {
    if numbers.len() >= 4 {
        rect_of(
            (
                Point { x: numbers[0], y: numbers[1] },
                Point { x: numbers[2], y: numbers[3] },
            ),
        )
    } else {
        Shape::Absent
    }
}

/// The color that the numbers of an `UPDRECT` give: the first three of those
/// that a geometry has left, if there are as many.
pub open spec fn update_color(numbers: Seq<Decimal>) -> Option<Color> {
    let rest = if numbers.len() >= 4 {
        numbers.subrange(4, numbers.len() as int)
    } else {
        numbers
    };
    if rest.len() >= 3 {
        Some(rgb_of(rest[0], rest[1], rest[2]))
    } else {
        None
    }
}

/// An action without anything but its kind and name.
pub open spec fn bare(kind: ActionKind, name: Seq<u8>) -> ActionView {
    ActionView { kind, name, geo: Shape::Absent, desc: None, color: None, gradient: None }
}

/// The rest of an `ADDRECT` statement, from after its keyword. `at` is where
/// the keyword starts.
pub open spec fn addrect_after(s: Seq<u8>, i: int, at: int) -> Result<
    (ActionView, int),
    ParseError,
> {
    match name_after(s, i) {
        Err(e) => Err(e),
        Ok((name, p1)) => match corners_after(s, p1) {
            Err(e) => Err(e),
            Ok((corners, p2)) => match numbers_after(s, p2) {
                Err(e) => Err(e),
                Ok((extra, p3)) => if extra.len() != 1 && extra.len() != 3 {
                    Err(ParseError { fault: ParseFault::TrailingCount, at: at as usize })
                } else {
                    match terminator_after(s, p3) {
                        Err(e) => Err(e),
                        Ok(p4) => Ok(
                            (
                                ActionView {
                                    geo: rect_of(corners),
                                    color: if extra.len() == 3 {
                                        Some(rgb_of(extra[0], extra[1], extra[2]))
                                    } else {
                                        None
                                    },
                                    gradient: if extra.len() == 1 {
                                        Some(extra[0])
                                    } else {
                                        None
                                    },
                                    ..bare(ActionKind::Add, name)
                                },
                                p4,
                            ),
                        ),
                    }
                },
            },
        },
    }
}

/// The rest of an `UPDRECT` statement, from after its keyword.
pub open spec fn updrect_after(s: Seq<u8>, i: int) -> Result<(ActionView, int), ParseError> {
    match name_after(s, i) {
        Err(e) => Err(e),
        Ok((name, p1)) => match numbers_after(s, p1) {
            Err(e) => Err(e),
            Ok((numbers, p2)) => match terminator_after(s, p2) {
                Err(e) => Err(e),
                Ok(p3) => Ok(
                    (
                        ActionView {
                            geo: update_geometry(numbers),
                            color: update_color(numbers),
                            ..bare(ActionKind::Modify, name)
                        },
                        p3,
                    ),
                ),
            },
        },
    }
}

/// The rest of a `DELRECT` statement, from after its keyword.
pub open spec fn delrect_after(s: Seq<u8>, i: int) -> Result<(ActionView, int), ParseError> {
    match name_after(s, i) {
        Err(e) => Err(e),
        Ok((name, p1)) => match terminator_after(s, p1) {
            Err(e) => Err(e),
            Ok(p2) => Ok((bare(ActionKind::Delete, name), p2)),
        },
    }
}

/// The rest of an `ADDLINE` statement, from after its keyword.
pub open spec fn addline_after(s: Seq<u8>, i: int) -> Result<(ActionView, int), ParseError> {
    match name_after(s, i) {
        Err(e) => Err(e),
        Ok((name, p1)) => match corners_after(s, p1) {
            Err(e) => Err(e),
            Ok((corners, p2)) => match terminator_after(s, p2) {
                Err(e) => Err(e),
                Ok(p3) => Ok(
                    (ActionView { geo: line_of(corners), ..bare(ActionKind::Add, name) }, p3),
                ),
            },
        },
    }
}

/// The statement that follows place `i`, as an action, and where reading
/// goes on after it.
#[verifier::opaque]
pub open spec fn statement_after(s: Seq<u8>, i: int) -> Result<(ActionView, int), ParseError> {
    match name_after(s, i) {
        Err(e) => Err(e),
        Ok((keyword, p)) => {
            let at = token_after(s, i).unwrap().start;
            if spells(keyword, word_addrect()) {
                addrect_after(s, p, at)
            } else if spells(keyword, word_updrect()) {
                updrect_after(s, p)
            } else if spells(keyword, word_delrect()) {
                delrect_after(s, p)
            } else if spells(keyword, word_addline()) {
                addline_after(s, p)
            } else {
                Err(ParseError { fault: ParseFault::UnknownStatement, at: at as usize })
            }
        },
    }
}

/// Whether the token that follows place `i` is the word that closes a
/// commit.
pub open spec fn commit_word_after(s: Seq<u8>, i: int) -> bool {
    token_after(s, i) matches Ok(l) && l.kind is Str && spells(
        s.subrange(l.start, l.end),
        word_commit(),
    )
}

/// The commit with `a` appended to the actions of its kind: to those on
/// lines where it carries a line, to those on rectangles otherwise.
pub open spec fn with_action(c: CommitView, a: ActionView) -> CommitView {
    if a.geo is Line {
        CommitView { line_actions: c.line_actions.push(a), ..c }
    } else {
        CommitView { rect_actions: c.rect_actions.push(a), ..c }
    }
}

/// The commit that starts with `c` and goes on with the statements that
/// follow place `i`, up to the closing word, which is read, or the end of
/// the text; and where reading goes on after it.
pub open spec fn commit_from(s: Seq<u8>, i: int, c: CommitView) -> Result<
    (CommitView, int),
    ParseError,
>
    decreases s.len() - i,
{
    match token_after(s, i) {
        Err(e) => Err(e),
        Ok(l) => if l.kind is Eof {
            Ok((c, i))
        } else if commit_word_after(s, i) {
            Ok((c, l.end))
        } else {
            match statement_after(s, i) {
                Err(e) => Err(e),
                Ok((a, p)) => if p <= i || p > s.len() {
                    Ok((c, i))
                } else {
                    commit_from(s, p, with_action(c, a))
                },
            }
        },
    }
}

pub open spec fn empty_commit() -> CommitView {
    CommitView { rect_actions: Seq::empty(), line_actions: Seq::empty() }
}

/// The commits that the text holds from place `i` on, in order. A commit is
/// all that stands before the next closing word or the end of the text; at
/// the end of the text no further commit starts.
pub open spec fn commits_from(s: Seq<u8>, i: int) -> Result<Seq<CommitView>, ParseError>
    decreases s.len() - i,
{
    match token_after(s, i) {
        Err(e) => Err(e),
        Ok(l) => if l.kind is Eof {
            Ok(Seq::empty())
        } else {
            match commit_from(s, i, empty_commit()) {
                Err(e) => Err(e),
                Ok((c, p)) => if p <= i || p > s.len() {
                    Ok(Seq::empty())
                } else {
                    match commits_from(s, p) {
                        Err(e) => Err(e),
                        Ok(rest) => Ok(seq![c] + rest),
                    }
                },
            }
        },
    }
}

/// The commits of a whole script.
pub open spec fn script(s: Seq<u8>) -> Result<Seq<CommitView>, ParseError> {
    commits_from(s, 0)
}

} // verus!
