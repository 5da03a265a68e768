//! Reading one statement as an action.

use super::grammar::{
    corners_after, name_after, number_after, numbers_after, rgb_of, spells, statement_after,
    terminator_after, token_after, upper, word_addline, word_addrect, word_delrect, word_updrect,
    ParseError, ParseFault,
};
use super::tokens::{need_corners, need_ident, next_semicolon, peek_token, rest_literals};
use super::StringParser;
use crate::db::version_controller::{Action, ActionKind};
use crate::decimal::Decimal;
use crate::geo::color::Color;
use crate::geo::line::Line;
use crate::geo::point::Point;
use crate::geo::rect::Rect;
use crate::geo::shape::Shape;
use crate::lexer::lemma_lexeme_bounds;
use crate::text::as_slice;
use vstd::prelude::*;

verus! {

/// The upper-case form of an ASCII letter; any other byte is left alone.
pub fn to_upper(b: u8) -> (r: u8)
    ensures
        r == upper(b),
{
    if 97 <= b && b <= 122 {
        b - 32
    } else {
        b
    }
}

/// Whether `text` is `word` but for the case of its ASCII letters.
pub fn spells_word(text: &[u8], word: &[u8]) -> (r: bool)
    ensures
        r == spells(text@, word@),
{
    if text.len() != word.len() {
        return false;
    }
    let mut i: usize = 0;
    while i < text.len()
        invariant
            i <= text.len(),
            text.len() == word.len(),
            forall|j: int| 0 <= j < i ==> upper(#[trigger] text@[j]) == word@[j],
        decreases text.len() - i,
    {
        if to_upper(text[i]) != word[i] {
            assert(text@.map_values(|b: u8| upper(b))[i as int] != word@[i as int]);
            return false;
        }
        i += 1;
    }
    assert(text@.map_values(|b: u8| upper(b)) =~= word@);
    true
}

/// The color that three numbers give.
pub fn rgb(r: &Decimal, g: &Decimal, b: &Decimal) -> (c: Color)
    ensures
        c == rgb_of(*r, *g, *b),
{
    Color { r: r.to_byte(), g: g.to_byte(), b: b.to_byte(), a: 0 }
}

/// A word that was read ends after the place from which it was asked for.
pub proof fn lemma_name_advances(s: Seq<u8>, i: int)
    requires
        0 <= i <= s.len(),
    ensures
        name_after(s, i) matches Ok(found) ==> i < found.1 <= s.len(),
{
    lemma_lexeme_bounds(s, i);
}

proof fn lemma_number_advances(s: Seq<u8>, i: int)
    requires
        0 <= i <= s.len(),
    ensures
        number_after(s, i) matches Ok(found) ==> i < found.1 <= s.len(),
{
    lemma_lexeme_bounds(s, i);
}

proof fn lemma_corners_advance(s: Seq<u8>, i: int)
    requires
        0 <= i <= s.len(),
    ensures
        corners_after(s, i) matches Ok(found) ==> i < found.1 <= s.len(),
{
    lemma_number_advances(s, i);
    if let Ok((_, p1)) = number_after(s, i) {
        lemma_number_advances(s, p1);
        if let Ok((_, p2)) = number_after(s, p1) {
            lemma_number_advances(s, p2);
            if let Ok((_, p3)) = number_after(s, p2) {
                lemma_number_advances(s, p3);
            }
        }
    }
}

proof fn lemma_numbers_advance(s: Seq<u8>, i: int)
    requires
        0 <= i <= s.len(),
    ensures
        numbers_after(s, i) matches Ok(found) ==> i <= found.1 <= s.len(),
    decreases s.len() - i,
{
    lemma_lexeme_bounds(s, i);
    if let Ok(l) = token_after(s, i) {
        if l.kind is Literal && !(l.end <= i || l.end > s.len()) {
            lemma_numbers_advance(s, l.end);
        }
    }
}

proof fn lemma_terminator_advances(s: Seq<u8>, i: int)
    requires
        0 <= i <= s.len(),
    ensures
        terminator_after(s, i) matches Ok(p) ==> i <= p <= s.len(),
{
    lemma_lexeme_bounds(s, i);
}

/// A statement that was read ends after the place from which it was asked
/// for, and not past the end of the text.
pub proof fn lemma_statement_advances(s: Seq<u8>, i: int)
    requires
        0 <= i <= s.len(),
    ensures
        statement_after(s, i) matches Ok(found) ==> i < found.1 <= s.len(),
{
    reveal(statement_after);
    lemma_name_advances(s, i);
    if let Ok((keyword, p)) = name_after(s, i) {
        lemma_name_advances(s, p);
        if let Ok((_, p1)) = name_after(s, p) {
            lemma_corners_advance(s, p1);
            lemma_numbers_advance(s, p1);
            lemma_terminator_advances(s, p1);
            if let Ok((_, p2)) = corners_after(s, p1) {
                lemma_numbers_advance(s, p2);
                lemma_terminator_advances(s, p2);
                if let Ok((_, p3)) = numbers_after(s, p2) {
                    lemma_terminator_advances(s, p3);
                }
            }
            if let Ok((_, p2)) = numbers_after(s, p1) {
                lemma_terminator_advances(s, p2);
            }
        }
    }
}

/// Whether `text` is the word `ADDRECT`, in either case.
fn is_addrect(text: &[u8]) -> (r: bool)
    ensures
        r == spells(text@, word_addrect()),
{
    let word: [u8; 7] = [65, 68, 68, 82, 69, 67, 84];
    assert(word@ =~= word_addrect());
    spells_word(text, word.as_slice())
}

/// Whether `text` is the word `UPDRECT`, in either case.
fn is_updrect(text: &[u8]) -> (r: bool)
    ensures
        r == spells(text@, word_updrect()),
{
    let word: [u8; 7] = [85, 80, 68, 82, 69, 67, 84];
    assert(word@ =~= word_updrect());
    spells_word(text, word.as_slice())
}

/// Whether `text` is the word `DELRECT`, in either case.
fn is_delrect(text: &[u8]) -> (r: bool)
    ensures
        r == spells(text@, word_delrect()),
{
    let word: [u8; 7] = [68, 69, 76, 82, 69, 67, 84];
    assert(word@ =~= word_delrect());
    spells_word(text, word.as_slice())
}

/// Whether `text` is the word `ADDLINE`, in either case.
fn is_addline(text: &[u8]) -> (r: bool)
    ensures
        r == spells(text@, word_addline()),
{
    let word: [u8; 7] = [65, 68, 68, 76, 73, 78, 69];
    assert(word@ =~= word_addline());
    spells_word(text, word.as_slice())
}

/// Reads one statement and returns it as an action. Reading goes on after
/// the `;` that ends the statement, or at the end of the text where none
/// does.
///
/// `ADDRECT name llx lly urx ury` takes one more number, a scalar, or three,
/// a color. `UPDRECT name` takes the numbers that follow: the first four, if
/// there are as many, are a geometry, and the first three of the rest, if
/// there are as many, a color. `DELRECT name` takes nothing more. `ADDLINE
/// name llx lly urx ury` takes nothing more. Keywords are matched in either
/// case.
pub fn next_action(parser: &mut StringParser) -> (r: Result<Action, ParseError>)
    requires
        old(parser).wf(),
    ensures
        final(parser).wf(),
        final(parser).src == old(parser).src,
        match statement_after(old(parser).text(), old(parser).place()) {
            Ok(found) => r matches Ok(a) && a@ == found.0 && final(parser).place() == found.1,
            Err(e) => r matches Err(x) && x == e,
        },
{
    let ghost s = parser.text();
    let ghost i = parser.place();
    proof {
        reveal(statement_after);
    }
    let at: usize = match peek_token(parser) {
        Ok(t) => t.start,
        Err(e) => {
            return Err(e);
        },
    };
    let keyword = match need_ident(parser) {
        Ok(k) => k,
        Err(e) => {
            return Err(e);
        },
    };
    let word: &[u8] = as_slice(&keyword);
    if is_addrect(word) {
        let name = match need_ident(parser) {
            Ok(n) => n,
            Err(e) => {
                return Err(e);
            },
        };
        let corners = match need_corners(parser) {
            Ok(c) => c,
            Err(e) => {
                return Err(e);
            },
        };
        let numbers = match rest_literals(parser) {
            Ok(v) => v,
            Err(e) => {
                return Err(e);
            },
        };
        let mut res = Action {
            action: ActionKind::Add,
            name,
            geo: Shape::Rect(Rect { ll: corners.0, ur: corners.1 }),
            desc: None,
            color: None,
            gradient: None,
        };
        if numbers.len() == 1 {
            res.gradient = Some(numbers[0]);
        } else if numbers.len() == 3 {
            res.color = Some(rgb(&numbers[0], &numbers[1], &numbers[2]));
        } else {
            return Err(ParseError { fault: ParseFault::TrailingCount, at });
        }
        match next_semicolon(parser) {
            Ok(()) => Ok(res),
            Err(e) => Err(e),
        }
    } else if is_updrect(word) {
        let name = match need_ident(parser) {
            Ok(n) => n,
            Err(e) => {
                return Err(e);
            },
        };
        let literals = match rest_literals(parser) {
            Ok(v) => v,
            Err(e) => {
                return Err(e);
            },
        };
        let mut res = Action {
            action: ActionKind::Modify,
            name,
            geo: Shape::Absent,
            desc: None,
            color: None,
            gradient: None,
        };
        let mut used: usize = 0;
        if literals.len() >= 4 {
            res.geo = Shape::Rect(
                Rect {
                    ll: Point { x: literals[0], y: literals[1] },
                    ur: Point { x: literals[2], y: literals[3] },
                },
            );
            used = 4;
        }
        if literals.len() - used >= 3 {
            res.color = Some(rgb(&literals[used], &literals[used + 1], &literals[used + 2]));
        }
        match next_semicolon(parser) {
            Ok(()) => Ok(res),
            Err(e) => Err(e),
        }
    } else if is_delrect(word) {
        let name = match need_ident(parser) {
            Ok(n) => n,
            Err(e) => {
                return Err(e);
            },
        };
        let res = Action {
            action: ActionKind::Delete,
            name,
            geo: Shape::Absent,
            desc: None,
            color: None,
            gradient: None,
        };
        match next_semicolon(parser) {
            Ok(()) => Ok(res),
            Err(e) => Err(e),
        }
    } else if is_addline(word) {
        let name = match need_ident(parser) {
            Ok(n) => n,
            Err(e) => {
                return Err(e);
            },
        };
        let corners = match need_corners(parser) {
            Ok(c) => c,
            Err(e) => {
                return Err(e);
            },
        };
        let res = Action {
            action: ActionKind::Add,
            name,
            geo: Shape::Line(Line { ll: corners.0, ur: corners.1 }),
            desc: None,
            color: None,
            gradient: None,
        };
        match next_semicolon(parser) {
            Ok(()) => Ok(res),
            Err(e) => Err(e),
        }
    } else {
        Err(ParseError { fault: ParseFault::UnknownStatement, at })
    }
}

} // verus!
