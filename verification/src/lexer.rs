//! The tokens of a script: what they are, as functions on the bytes of the
//! text, and the cursor that reads them.

use crate::decimal::{Decimal, UNITS_PER_ONE};
use vstd::prelude::*;
use vstd::string::StringSliceAdditionalSpecFns;

verus! {

/// How a numeric literal was written: with a decimal point or without.
#[derive(Clone, Copy, Debug, PartialEq, Eq, Structural)]
pub enum LiteralKind {
    Int,
    Float,
}

#[derive(Clone, Copy, Debug, PartialEq, Eq, Structural)]
pub enum TokenKind {
    /// A name or a keyword: a run of bytes that is not a number.
    Str,
    /// A decimal number.
    Literal { val: Decimal, kind: LiteralKind },
    /// The statement terminator `;`.
    Semicolon,
    /// The end of the text.
    Eof,
}

/// A token and the bytes of the text that it spans: `start..end`, `len` bytes.
#[derive(Clone, Copy, Debug, PartialEq, Eq, Structural)]
pub struct Token {
    pub kind: TokenKind,
    pub start: usize,
    pub end: usize,
    pub len: usize,
}

/// What is wrong with a numeric literal.
#[derive(Clone, Copy, Debug, PartialEq, Eq, Structural)]
pub enum LexFault {
    /// A decimal point with no digit after it.
    MalformedNumber,
    /// A whole part of 10^19 or more.
    NumberTooLarge,
    /// A digit other than zero beyond the eighteenth fractional place.
    NumberTooFine,
}

/// A numeric literal that cannot be taken, and the byte at which it starts.
#[derive(Clone, Copy, Debug, PartialEq, Eq, Structural)]
pub struct LexError {
    pub fault: LexFault,
    pub at: usize,
}

/// A token as plain data.
pub ghost struct Lexeme {
    pub kind: TokenKind,
    pub start: int,
    pub end: int,
}

impl View for Token {
    type V = Lexeme;

    open spec fn view(&self) -> Lexeme {
        Lexeme { kind: self.kind, start: self.start as int, end: self.end as int }
    }
}

/// The byte that stands for the end of the text where a byte is asked for.
pub const EOF_BYTE: u8 = 0;

/// The digit `0`.
pub const DIGIT_0: u8 = 48;

/// The digit `9`.
pub const DIGIT_9: u8 = 57;

/// The decimal point `.`.
pub const POINT: u8 = 46;

/// The statement terminator `;`.
pub const SEMICOLON: u8 = 59;

pub open spec fn is_digit(b: u8) -> bool {
    DIGIT_0 <= b <= DIGIT_9
}

/// The number of bytes of the whitespace character that starts at `i`; 0
/// where none starts there. Whitespace is tab, line feed, vertical tab, form
/// feed, carriage return and space, each one byte; NEXT LINE (U+0085), two
/// bytes; and the two direction marks (U+200E, U+200F) and the line and
/// paragraph separators (U+2028, U+2029), three bytes each.
pub open spec fn space_len(s: Seq<u8>, i: int) -> int {
    if i < 0 || i >= s.len() {
        0
    } else if (9 <= s[i] <= 13) || s[i] == 32 {
        1
    } else if s[i] == 0xC2 && i + 1 < s.len() && s[i + 1] == 0x85 {
        2
    } else if s[i] == 0xE2 && i + 2 < s.len() && s[i + 1] == 0x80 && (s[i + 2] == 0x8E || s[i + 2]
        == 0x8F || s[i + 2] == 0xA8 || s[i + 2] == 0xA9) {
        3
    } else {
        0
    }
}

/// The first place from `i` on where no whitespace starts.
pub open spec fn skip_spaces(s: Seq<u8>, i: int) -> int
    decreases s.len() - i,
{
    if space_len(s, i) > 0 {
        skip_spaces(s, i + space_len(s, i))
    } else {
        i
    }
}

/// The end of the longest run of digits that starts at `i`.
pub open spec fn digits_end(s: Seq<u8>, i: int) -> int
    decreases s.len() - i,
{
    if 0 <= i < s.len() && is_digit(s[i]) {
        digits_end(s, i + 1)
    } else {
        i
    }
}

/// The end of the word that runs through `i`: the first place from `i` on
/// that is the end of the text, the start of whitespace, or a `;`.
pub open spec fn word_end(s: Seq<u8>, i: int) -> int
    decreases s.len() - i,
{
    if 0 <= i < s.len() && space_len(s, i) == 0 && s[i] != SEMICOLON {
        word_end(s, i + 1)
    } else {
        i
    }
}

/// The number that the digits `s[from..to]` write in base ten.
pub open spec fn digits_value(s: Seq<u8>, from: int, to: int) -> nat
    decreases to - from,
{
    if to <= from {
        0
    } else {
        digits_value(s, from, to - 1) * 10 + (s[to - 1] - DIGIT_0) as nat
    }
}

pub open spec fn pow10(n: nat) -> nat
    decreases n,
{
    if n == 0 {
        1
    } else {
        10 * pow10((n - 1) as nat)
    }
}

/// The least whole part that is too large.
pub const WHOLE_LIMIT: u64 = 10_000_000_000_000_000_000;

/// The least whole part that is too large.
pub open spec fn whole_limit() -> nat {
    WHOLE_LIMIT as nat
}

/// The number of fractional digits that count.
pub open spec fn places() -> int {
    18
}

/// What the fractional digits `s[from..to]` come to, in units of 10^-18:
/// the first eighteen of them, read as a number and scaled to eighteen
/// places.
pub open spec fn frac_units(s: Seq<u8>, from: int, to: int) -> nat {
    let used = if to - from < places() {
        to - from
    } else {
        places()
    };
    digits_value(s, from, from + used) * pow10((places() - used) as nat)
}

/// Whether every byte of `s[from..to]` is the digit zero.
pub open spec fn all_zero(s: Seq<u8>, from: int, to: int) -> bool {
    forall|i: int| from <= i < to ==> #[trigger] s[i] == DIGIT_0
}

/// The numeric literal that starts at `b`, where a digit stands: digits,
/// then optionally a point and more digits. Its value is the whole part plus
/// the fractional part at its scale.
pub open spec fn number_at(s: Seq<u8>, b: int) -> Result<Lexeme, LexError> {
    let e1 = digits_end(s, b);
    let whole = digits_value(s, b, e1);
    if e1 < s.len() && s[e1] == POINT {
        let e2 = digits_end(s, e1 + 1);
        if e2 == e1 + 1 {
            Err(LexError { fault: LexFault::MalformedNumber, at: b as usize })
        } else if whole >= whole_limit() {
            Err(LexError { fault: LexFault::NumberTooLarge, at: b as usize })
        } else if !all_zero(s, e1 + 1 + places(), e2) {
            Err(LexError { fault: LexFault::NumberTooFine, at: b as usize })
        } else {
            Ok(
                Lexeme {
                    kind: TokenKind::Literal {
                        val: Decimal {
                            units: (whole * UNITS_PER_ONE + frac_units(s, e1 + 1, e2)) as i128,
                        },
                        kind: LiteralKind::Float,
                    },
                    start: b,
                    end: e2,
                },
            )
        }
    } else if whole >= whole_limit() {
        Err(LexError { fault: LexFault::NumberTooLarge, at: b as usize })
    } else {
        Ok(
            Lexeme {
                kind: TokenKind::Literal {
                    val: Decimal { units: (whole * UNITS_PER_ONE) as i128 },
                    kind: LiteralKind::Int,
                },
                start: b,
                end: e1,
            },
        )
    }
}

/// The token that follows place `i`: whitespace is passed over; then the end
/// of the text gives `Eof`, a digit starts a number, `;` stands alone, and
/// anything else starts a word.
#[verifier::opaque]
pub open spec fn lexeme_at(s: Seq<u8>, i: int) -> Result<Lexeme, LexError> {
    let b = skip_spaces(s, i);
    if b >= s.len() {
        Ok(Lexeme { kind: TokenKind::Eof, start: b, end: b })
    } else if is_digit(s[b]) {
        number_at(s, b)
    } else if s[b] == SEMICOLON {
        Ok(Lexeme { kind: TokenKind::Semicolon, start: b, end: b + 1 })
    } else {
        Ok(Lexeme { kind: TokenKind::Str, start: b, end: word_end(s, b + 1) })
    }
}

/// The tokens of the text from place `i` on, up to the end of the text.
pub open spec fn lexemes_from(s: Seq<u8>, i: int) -> Result<Seq<Lexeme>, LexError>
    decreases s.len() - i,
{
    match lexeme_at(s, i) {
        Err(e) => Err(e),
        Ok(l) => if l.kind is Eof || l.end <= i || l.end > s.len() {
            Ok(Seq::empty())
        } else {
            match lexemes_from(s, l.end) {
                Err(e) => Err(e),
                Ok(rest) => Ok(seq![l] + rest),
            }
        },
    }
}

pub proof fn lemma_skip_spaces_bounds(s: Seq<u8>, i: int)
    requires
        0 <= i <= s.len(),
    ensures
        i <= skip_spaces(s, i) <= s.len(),
        space_len(s, skip_spaces(s, i)) == 0,
    decreases s.len() - i,
{
    if space_len(s, i) > 0 {
        lemma_skip_spaces_bounds(s, i + space_len(s, i));
    }
}

pub proof fn lemma_digits_end_bounds(s: Seq<u8>, i: int)
    requires
        0 <= i <= s.len(),
    ensures
        i <= digits_end(s, i) <= s.len(),
        forall|j: int| i <= j < digits_end(s, i) ==> is_digit(#[trigger] s[j]),
        digits_end(s, i) < s.len() ==> !is_digit(s[digits_end(s, i)]),
    decreases s.len() - i,
{
    if i < s.len() && is_digit(s[i]) {
        lemma_digits_end_bounds(s, i + 1);
    }
}

pub proof fn lemma_word_end_bounds(s: Seq<u8>, i: int)
    requires
        0 <= i <= s.len(),
    ensures
        i <= word_end(s, i) <= s.len(),
    decreases s.len() - i,
{
    if i < s.len() && space_len(s, i) == 0 && s[i] != SEMICOLON {
        lemma_word_end_bounds(s, i + 1);
    }
}

/// Every token but `Eof` is at least one byte long, and none reaches
/// before `i` or past the end of the text.
pub proof fn lemma_lexeme_bounds(s: Seq<u8>, i: int)
    requires
        0 <= i <= s.len(),
    ensures
        lexeme_at(s, i) matches Ok(l) ==> i <= l.start <= l.end <= s.len() && (l.kind is Eof
            || l.start < l.end),
{
    reveal(lexeme_at);
    lemma_skip_spaces_bounds(s, i);
    let b = skip_spaces(s, i);
    if b < s.len() {
        if is_digit(s[b]) {
            lemma_digits_end_bounds(s, b);
            let e1 = digits_end(s, b);
            assert(digits_end(s, b) == digits_end(s, b + 1));
            lemma_digits_end_bounds(s, b + 1);
            if e1 < s.len() {
                lemma_digits_end_bounds(s, e1 + 1);
            }
        } else if s[b] != SEMICOLON {
            lemma_word_end_bounds(s, b + 1);
        }
    }
}

pub proof fn lemma_pow10_values()
    ensures
        pow10(0) == 1,
        pow10(1) == 10,
        pow10(18) == 1_000_000_000_000_000_000,
        pow10(19) == 10_000_000_000_000_000_000,
{
    reveal_with_fuel(pow10, 20);
}

/// A place in a text, from which tokens are read one after the other.
#[derive(Clone, Copy, Debug)]
pub struct Cursor<'a> {
    text: &'a [u8],
    pos: usize,
    token_start: usize,
}

impl<'a> Cursor<'a> {
    /// The bytes of the text.
    pub closed spec fn source(&self) -> Seq<u8> {
        self.text@
    }

    /// How many bytes have been read.
    pub closed spec fn position(&self) -> int {
        self.pos as int
    }

    /// Where the current token was taken to start.
    pub closed spec fn token_from(&self) -> int {
        self.token_start as int
    }

    /// The cursor stands within the text, at or after the start of the
    /// current token.
    pub open spec fn wf(&self) -> bool {
        0 <= self.token_from() <= self.position() <= self.source().len()
    }

    /// A cursor at the start of `input`.
    pub fn new(input: &'a str) -> (r: Cursor<'a>)
        ensures
            r.wf(),
            r.source() == input.spec_bytes(),
            r.position() == 0,
            r.token_from() == 0,
    {
        Cursor { text: input.as_bytes(), pos: 0, token_start: 0 }
    }

    /// The length of the text in bytes.
    pub fn len(&self) -> (r: usize)
        ensures
            r == self.source().len(),
    {
        self.text.len()
    }

    /// How many bytes have been read.
    pub fn offset(&self) -> (r: usize)
        ensures
            r == self.position(),
    {
        self.pos
    }

    /// Reads one byte, if the text has not ended.
    pub fn bump(&mut self) -> (r: Option<u8>)
        requires
            old(self).wf(),
        ensures
            final(self).wf(),
            final(self).source() == old(self).source(),
            final(self).token_from() == old(self).token_from(),
            old(self).position() < old(self).source().len() ==> r == Some(
                old(self).source()[old(self).position()],
            ) && final(self).position() == old(self).position() + 1,
            old(self).position() >= old(self).source().len() ==> r is None
                && final(self).position() == old(self).position(),
    {
        if self.pos < self.text.len() {
            let b: u8 = self.text[self.pos];
            self.pos += 1;
            Some(b)
        } else {
            None
        }
    }

    /// The next byte, without reading it; `EOF_BYTE` at the end of the text.
    pub fn first(&self) -> (r: u8)
        requires
            self.wf(),
        ensures
            r == if self.position() < self.source().len() {
                self.source()[self.position()]
            } else {
                EOF_BYTE
            },
    {
        if self.pos < self.text.len() {
            self.text[self.pos]
        } else {
            EOF_BYTE
        }
    }

    /// Whether the text has been read to its end.
    pub fn is_eof(&self) -> (r: bool)
        requires
            self.wf(),
        ensures
            r == (self.position() == self.source().len()),
    {
        self.pos >= self.text.len()
    }

    /// How many bytes of the current token have been read.
    pub fn pos_within_token(&self) -> (r: usize)
        requires
            self.wf(),
        ensures
            r == self.position() - self.token_from(),
    {
        self.pos - self.token_start
    }

    /// Takes the current token to start here.
    pub fn reset_pos_within_token(&mut self)
        requires
            old(self).wf(),
        ensures
            final(self).wf(),
            final(self).source() == old(self).source(),
            final(self).position() == old(self).position(),
            final(self).token_from() == old(self).position(),
    {
        self.token_start = self.pos;
    }

    /// Reads bytes for as long as `predicate` holds of the next one, or
    /// until the end of the text.
    pub fn eat_while<F: Fn(u8) -> bool>(&mut self, predicate: F)
        requires
            old(self).wf(),
            forall|b: u8| call_requires(predicate, (b,)),
        ensures
            final(self).wf(),
            final(self).source() == old(self).source(),
            final(self).token_from() == old(self).token_from(),
            old(self).position() <= final(self).position(),
            forall|j: int|
                old(self).position() <= j < final(self).position() ==> call_ensures(
                    predicate,
                    (#[trigger] old(self).source()[j],),
                    true,
                ),
            final(self).position() == final(self).source().len() || call_ensures(
                predicate,
                (final(self).source()[final(self).position()],),
                false,
            ),
    {
        let ghost from = self.pos;
        while self.pos < self.text.len()
            invariant
                self.wf(),
                self.text == old(self).text,
                self.token_start == old(self).token_start,
                from == old(self).pos,
                from <= self.pos,
                forall|b: u8| call_requires(predicate, (b,)),
                forall|j: int|
                    from <= j < self.pos ==> call_ensures(
                        predicate,
                        (#[trigger] self.text@[j],),
                        true,
                    ),
            decreases self.text.len() - self.pos,
        {
            if !predicate(self.text[self.pos]) {
                return ;
            }
            self.pos += 1;
        }
    }

    /// Reads whitespace up to the next byte that starts none.
    pub fn eat_whitespace(&mut self)
        requires
            old(self).wf(),
        ensures
            final(self).wf(),
            final(self).source() == old(self).source(),
            final(self).token_from() == old(self).token_from(),
            final(self).position() == skip_spaces(old(self).source(), old(self).position()),
    {
        let ghost s = self.text@;
        loop
            invariant
                self.wf(),
                self.text == old(self).text,
                s == self.text@,
                self.token_start == old(self).token_start,
                skip_spaces(s, self.pos as int) == skip_spaces(s, old(self).pos as int),
            ensures
                self.wf(),
                self.text == old(self).text,
                self.token_start == old(self).token_start,
                self.pos == skip_spaces(s, old(self).pos as int),
            decreases self.text.len() - self.pos,
        {
            let n: usize = self.space_here();
            if n == 0 {
                break ;
            }
            self.pos += n;
        }
    }

    /// The number of bytes of the whitespace character that starts here; 0
    /// where none does.
    fn space_here(&self) -> (r: usize)
        requires
            self.wf(),
        ensures
            r == space_len(self.source(), self.position()),
            self.position() + r <= self.source().len(),
    {
        let t = self.text;
        let i: usize = self.pos;
        if i >= t.len() {
            0
        } else if (9 <= t[i] && t[i] <= 13) || t[i] == 32 {
            1
        } else if t[i] == 0xC2 && t.len() - i > 1 && t[i + 1] == 0x85 {
            2
        } else if t[i] == 0xE2 && t.len() - i > 2 && t[i + 1] == 0x80 && (t[i + 2] == 0x8E || t[i
            + 2] == 0x8F || t[i + 2] == 0xA8 || t[i + 2] == 0xA9) {
            3
        } else {
            0
        }
    }

    /// Reads the longest run of digits that starts here. Returns the number
    /// that they write, or `u64::MAX` where that is less; `None` where no
    /// digit stands here.
    pub fn eat_demical_digits(&mut self) -> (r: Option<u64>)
        requires
            old(self).wf(),
        ensures
            final(self).wf(),
            final(self).source() == old(self).source(),
            final(self).token_from() == old(self).token_from(),
            final(self).position() == digits_end(old(self).source(), old(self).position()),
            final(self).position() == old(self).position() ==> r is None,
            final(self).position() > old(self).position() ==> r is Some && r.unwrap() as int == ({
                let v = digits_value(
                    old(self).source(),
                    old(self).position(),
                    final(self).position(),
                );
                if v < u64::MAX {
                    v as int
                } else {
                    u64::MAX as int
                }
            }),
    {
        let ghost s = self.text@;
        let ghost from = self.pos as int;
        let mut res: Option<u64> = None;
        let mut acc: u64 = 0;
        while self.pos < self.text.len() && DIGIT_0 <= self.text[self.pos]
            && self.text[self.pos] <= DIGIT_9
            invariant
                self.wf(),
                self.text == old(self).text,
                s == self.text@,
                from == old(self).pos,
                self.token_start == old(self).token_start,
                from <= self.pos,
                digits_end(s, self.pos as int) == digits_end(s, from),
                self.pos == from ==> res is None,
                self.pos > from ==> res == Some(acc),
                acc as int == if digits_value(s, from, self.pos as int) < u64::MAX {
                    digits_value(s, from, self.pos as int) as int
                } else {
                    u64::MAX as int
                },
            decreases self.text.len() - self.pos,
        {
            let p: u64 = (self.text[self.pos] - DIGIT_0) as u64;
            if acc > (u64::MAX - p) / 10 {
                acc = u64::MAX;
            } else {
                acc = acc * 10 + p;
            }
            res = Some(acc);
            self.pos += 1;
        }
        res
    }

    /// Reads a word to its end: one byte, then all that follow up to
    /// whitespace, a `;` or the end of the text.
    pub fn eat_identifier(&mut self)
        requires
            old(self).wf(),
            old(self).position() < old(self).source().len(),
        ensures
            final(self).wf(),
            final(self).source() == old(self).source(),
            final(self).token_from() == old(self).token_from(),
            final(self).position() == word_end(old(self).source(), old(self).position() + 1),
    {
        let ghost s = self.text@;
        let ghost from = self.pos as int;
        let _ = self.bump();
        loop
            invariant
                self.wf(),
                self.text == old(self).text,
                s == self.text@,
                from == old(self).pos,
                self.token_start == old(self).token_start,
                word_end(s, self.pos as int) == word_end(s, from + 1),
            ensures
                self.wf(),
                self.text == old(self).text,
                self.token_start == old(self).token_start,
                self.pos == word_end(s, from + 1),
            decreases self.text.len() - self.pos,
        {
            if self.pos >= self.text.len() || self.text[self.pos] == SEMICOLON
                || self.space_here() != 0 {
                break ;
            }
            self.pos += 1;
        }
    }

    /// Reads a numeric literal, which must start here: digits, then
    /// optionally a point and more digits. Returns its value and how it was
    /// written.
    pub fn number(&mut self) -> (r: Result<(Decimal, LiteralKind), LexFault>)
        requires
            old(self).wf(),
            old(self).position() < old(self).source().len(),
            is_digit(old(self).source()[old(self).position()]),
        ensures
            final(self).wf(),
            final(self).source() == old(self).source(),
            final(self).token_from() == old(self).token_from(),
            match number_at(old(self).source(), old(self).position()) {
                Ok(l) => r matches Ok(pair) && l.kind == (TokenKind::Literal {
                    val: pair.0,
                    kind: pair.1,
                }) && final(self).position() == l.end,
                Err(e) => r == Err::<(Decimal, LiteralKind), LexFault>(e.fault),
            },
    {
        let ghost s = self.text@;
        let ghost b = self.pos as int;
        proof {
            lemma_digits_end_bounds(s, b);
            lemma_pow10_values();
        }
        let whole: u64 = match self.eat_demical_digits() {
            Some(w) => w,
            None => {
                return Err(LexFault::MalformedNumber);
            },
        };
        let mut frac: u64 = 0;
        let mut kind = LiteralKind::Int;
        let mut tail_clean = true;
        if self.pos < self.text.len() && self.text[self.pos] == POINT {
            kind = LiteralKind::Float;
            self.pos += 1;
            let ghost f0 = self.pos as int;
            let ghost e2 = digits_end(s, f0);
            proof {
                lemma_digits_end_bounds(s, f0);
            }
            let mut taken: u32 = 0;
            while taken < 18 && self.pos < self.text.len() && DIGIT_0 <= self.text[self.pos]
                && self.text[self.pos] <= DIGIT_9
                invariant
                    self.wf(),
                    self.text == old(self).text,
                    s == self.text@,
                    self.token_start == old(self).token_start,
                    taken <= 18,
                    self.pos == f0 + taken,
                    f0 <= e2 <= s.len(),
                    self.pos <= e2,
                    e2 == digits_end(s, f0),
                    digits_end(s, self.pos as int) == e2,
                    frac == digits_value(s, f0, self.pos as int),
                    frac < pow10(taken as nat),
                    pow10(taken as nat) <= pow10(18),
                    pow10(18) == 1_000_000_000_000_000_000,
                decreases 18 - taken,
            {
                let d: u64 = (self.text[self.pos] - DIGIT_0) as u64;
                proof {
                    assert(pow10((taken + 1) as nat) == 10 * pow10(taken as nat));
                    lemma_pow10_rises((taken + 1) as nat, 18);
                    lemma_digits_end_bounds(s, self.pos + 1);
                }
                frac = frac * 10 + d;
                self.pos += 1;
                taken += 1;
            }
            if taken == 0 {
                return Err(LexFault::MalformedNumber);
            }
            let ghost p18 = self.pos as int;
            let zero = |x: u8| -> (r: bool)
                ensures
                    r == (x == DIGIT_0),
                { x == DIGIT_0 };
            self.eat_while(zero);
            let ghost z = self.pos as int;
            proof {
                assert forall|j: int| p18 <= j < z implies is_digit(#[trigger] s[j]) by {
                    assert(call_ensures(zero, (s[j],), true));
                }
                lemma_digits_end_skip(s, p18, z);
            }
            if self.pos < self.text.len() && DIGIT_0 <= self.text[self.pos]
                && self.text[self.pos] <= DIGIT_9 {
                tail_clean = false;
                proof {
                    assert(call_ensures(zero, (s[z],), false));
                    assert(z < e2);
                    assert(s[z] != DIGIT_0);
                    assert(taken == 18);
                }
            } else {
                proof {
                    assert(z == e2);
                    assert forall|j: int| f0 + 18 <= j < e2 implies #[trigger] s[j] == DIGIT_0 by {
                        assert(call_ensures(zero, (s[j],), true));
                    }
                }
            }
            let ghost value = frac as nat;
            let mut k: u32 = taken;
            proof {
                assert(pow10(0) == 1);
                assert(value * pow10(0) == value);
            }
            while k < 18
                invariant
                    taken <= k <= 18,
                    frac == value * pow10((k - taken) as nat),
                    frac < pow10(k as nat),
                    pow10(k as nat) <= pow10(18),
                    pow10(18) == 1_000_000_000_000_000_000,
                decreases 18 - k,
            {
                proof {
                    assert(pow10((k + 1) as nat) == 10 * pow10(k as nat));
                    assert(pow10((k + 1 - taken) as nat) == 10 * pow10((k - taken) as nat));
                    lemma_pow10_rises((k + 1) as nat, 18);
                    assert(value * (10 * pow10((k - taken) as nat)) == 10 * (value * pow10(
                        (k - taken) as nat,
                    ))) by (nonlinear_arith);
                }
                frac = frac * 10;
                k += 1;
            }
            proof {
                assert(frac == frac_units(s, f0, e2));
            }
        }
        if whole >= WHOLE_LIMIT {
            return Err(LexFault::NumberTooLarge);
        }
        if !tail_clean {
            return Err(LexFault::NumberTooFine);
        }
        let wide: i128 = whole as i128;
        let units: i128 = wide * UNITS_PER_ONE + frac as i128;
        Ok((Decimal { units }, kind))
    }

    /// Reads the next token: whitespace is passed over; then the end of the
    /// text gives `Eof`, a digit starts a number, `;` stands alone, and
    /// anything else starts a word.
    pub fn advance_token(&mut self) -> (r: Result<Token, LexError>)
        requires
            old(self).wf(),
        ensures
            final(self).wf(),
            final(self).source() == old(self).source(),
            match lexeme_at(old(self).source(), old(self).position()) {
                Ok(l) => {
                    &&& r matches Ok(t)
                    &&& t@ == l
                    &&& t.len == l.end - l.start
                    &&& final(self).position() == l.end
                    &&& final(self).token_from() == l.start
                },
                Err(e) => r == Err::<Token, LexError>(e),
            },
    {
        proof {
            reveal(lexeme_at);
            lemma_skip_spaces_bounds(self.text@, self.pos as int);
            lemma_lexeme_bounds(self.text@, self.pos as int);
        }
        self.eat_whitespace();
        self.reset_pos_within_token();
        let start: usize = self.pos;
        if self.is_eof() {
            return Ok(Token { kind: TokenKind::Eof, start, end: start, len: 0 });
        }
        let first_byte: u8 = self.first();
        let token_kind = if DIGIT_0 <= first_byte && first_byte <= DIGIT_9 {
            match self.number() {
                Ok(pair) => TokenKind::Literal { val: pair.0, kind: pair.1 },
                Err(fault) => {
                    return Err(LexError { fault, at: start });
                },
            }
        } else if first_byte == SEMICOLON {
            let _ = self.bump();
            TokenKind::Semicolon
        } else {
            self.eat_identifier();
            TokenKind::Str
        };
        let end: usize = self.pos;
        Ok(Token { kind: token_kind, start, end, len: self.pos_within_token() })
    }
}

pub proof fn lemma_pow10_rises(a: nat, b: nat)
    requires
        a <= b,
    ensures
        pow10(a) <= pow10(b),
        pow10(a) >= 1,
    decreases b,
{
    if a < b {
        lemma_pow10_rises(a, (b - 1) as nat);
    } else if a > 0 {
        lemma_pow10_rises((a - 1) as nat, (a - 1) as nat);
    }
}

/// A run of digits ends where any later part of it ends.
pub proof fn lemma_digits_end_skip(s: Seq<u8>, a: int, b: int)
    requires
        0 <= a <= b <= s.len(),
        forall|j: int| a <= j < b ==> is_digit(#[trigger] s[j]),
    ensures
        digits_end(s, a) == digits_end(s, b),
    decreases b - a,
{
    if a < b {
        assert(is_digit(s[a]));
        lemma_digits_end_skip(s, a + 1, b);
    }
}

/// The tokens of a sequence as plain data, in order.
pub open spec fn token_views(tokens: Seq<Token>) -> Seq<Lexeme> {
    tokens.map_values(|t: Token| t@)
}

/// The tokens of `input` in order, up to the end of the text.
pub fn tokenize(input: &str) -> (r: Result<Vec<Token>, LexError>)
    ensures
        match lexemes_from(input.spec_bytes(), 0) {
            Ok(ls) => r matches Ok(v) && token_views(v@) == ls,
            Err(e) => r == Err::<Vec<Token>, LexError>(e),
        },
{
    let mut cursor = Cursor::new(input);
    let ghost s = cursor.source();
    let mut out: Vec<Token> = Vec::new();
    loop
        invariant
            cursor.wf(),
            cursor.source() == s,
            s == input.spec_bytes(),
            match lexemes_from(s, cursor.position()) {
                Ok(rest) => lexemes_from(s, 0) == Ok::<Seq<Lexeme>, LexError>(
                    token_views(out@) + rest,
                ),
                Err(e) => lexemes_from(s, 0) == Err::<Seq<Lexeme>, LexError>(e),
            },
        decreases s.len() - cursor.position(),
    {
        let ghost at = cursor.position();
        proof {
            lemma_lexeme_bounds(s, at);
        }
        let token = match cursor.advance_token() {
            Ok(t) => t,
            Err(e) => {
                return Err(e);
            },
        };
        if token.kind == TokenKind::Eof {
            proof {
                assert(token_views(out@) + Seq::<Lexeme>::empty() =~= token_views(out@));
            }
            return Ok(out);
        }
        let ghost before = out@;
        out.push(token);
        proof {
            assert(token@.end > at);
            assert(token_views(out@) =~= token_views(before).push(token@));
            match lexemes_from(s, token@.end) {
                Ok(rest) => {
                    assert(token_views(before) + (seq![token@] + rest) =~= token_views(out@)
                        + rest);
                },
                Err(e) => {},
            }
        }
    }
}

/// The characters that separate tokens.
pub open spec fn whitespace_char(c: char) -> bool {
    ||| c == '\u{0009}'
    ||| c == '\u{000A}'
    ||| c == '\u{000B}'
    ||| c == '\u{000C}'
    ||| c == '\u{000D}'
    ||| c == '\u{0020}'
    ||| c == '\u{0085}'
    ||| c == '\u{200E}'
    ||| c == '\u{200F}'
    ||| c == '\u{2028}'
    ||| c == '\u{2029}'
}

/// Whether `c` separates tokens: the usual ASCII whitespace, NEXT LINE, the
/// two direction marks, and the line and paragraph separators.
pub fn is_whitespace(c: char) -> (r: bool)
    ensures
        r == whitespace_char(c),
{
    c == '\u{0009}' || c == '\u{000A}' || c == '\u{000B}' || c == '\u{000C}' || c == '\u{000D}'
        || c == '\u{0020}' || c == '\u{0085}' || c == '\u{200E}' || c == '\u{200F}' || c
        == '\u{2028}' || c == '\u{2029}'
}

proof fn lemma_one_byte(c: u32)
    by (bit_vector)
    requires
        c <= 0x7F,
    ensures
        (c & 0x7F) as u8 == c,
{
}

proof fn lemma_two_bytes(c: u32, b0: u8, b1: u8)
    by (bit_vector)
    requires
        0x80 <= c <= 0x7FF,
        b0 == 0xC0 | ((c >> 6) & 0x1F) as u8,
        b1 == 0x80 | (c & 0x3F) as u8,
    ensures
        0xC0 <= b0 <= 0xDF,
        (b0 == 0xC2 && b1 == 0x85) <==> c == 0x85,
{
}

proof fn lemma_three_bytes(c: u32, b0: u8, b1: u8, b2: u8)
    by (bit_vector)
    requires
        0x800 <= c <= 0xFFFF,
        b0 == 0xE0 | ((c >> 12) & 0x0F) as u8,
        b1 == 0x80 | ((c >> 6) & 0x3F) as u8,
        b2 == 0x80 | (c & 0x3F) as u8,
    ensures
        0xE0 <= b0 <= 0xEF,
        (b0 == 0xE2 && b1 == 0x80 && b2 == 0x8E) <==> c == 0x200E,
        (b0 == 0xE2 && b1 == 0x80 && b2 == 0x8F) <==> c == 0x200F,
        (b0 == 0xE2 && b1 == 0x80 && b2 == 0xA8) <==> c == 0x2028,
        (b0 == 0xE2 && b1 == 0x80 && b2 == 0xA9) <==> c == 0x2029,
{
}

proof fn lemma_four_bytes(c: u32, b0: u8)
    by (bit_vector)
    requires
        b0 == 0xF0 | ((c >> 18) & 0x7) as u8,
    ensures
        b0 >= 0xF0,
{
}

/// The tokens are cut where `is_whitespace` says: at the start of a text in
/// UTF-8, whitespace is found exactly where the first character is one that
/// separates tokens, and it is as long as that character's encoding.
pub proof fn law_space_len_is_whitespace(chars: Seq<char>)
    requires
        chars.len() > 0,
    ensures
        space_len(vstd::utf8::encode_utf8(chars), 0) == if whitespace_char(chars[0]) {
            vstd::utf8::encode_scalar(chars[0] as u32).len() as int
        } else {
            0
        },
{
    let c = chars[0];
    let u = c as u32;
    let head = vstd::utf8::encode_scalar(u);
    let tail = vstd::utf8::encode_utf8(chars.drop_first());
    let s = vstd::utf8::encode_utf8(chars);
    assert(s == head + tail);
    vstd::utf8::char_is_scalar(c);
    assert(whitespace_char(c) <==> (u == 9 || u == 10 || u == 11 || u == 12 || u == 13 || u == 32
        || u == 0x85 || u == 0x200E || u == 0x200F || u == 0x2028 || u == 0x2029)) by {
        vstd::utf8::char_u32_cast(c, u);
        assert('\u{0009}' as u32 == 9);
        assert('\u{000A}' as u32 == 10);
        assert('\u{000B}' as u32 == 11);
        assert('\u{000C}' as u32 == 12);
        assert('\u{000D}' as u32 == 13);
        assert('\u{0020}' as u32 == 32);
        assert('\u{0085}' as u32 == 0x85);
        assert('\u{200E}' as u32 == 0x200E);
        assert('\u{200F}' as u32 == 0x200F);
        assert('\u{2028}' as u32 == 0x2028);
        assert('\u{2029}' as u32 == 0x2029);
    }
    if vstd::utf8::has_width_1_encoding(u) {
        lemma_one_byte(u);
        assert(s[0] == head[0]);
    } else if vstd::utf8::has_width_2_encoding(u) {
        lemma_two_bytes(u, head[0], head[1]);
        assert(s[0] == head[0]);
        assert(s[1] == head[1]);
    } else if vstd::utf8::has_width_3_encoding(u) {
        lemma_three_bytes(u, head[0], head[1], head[2]);
        assert(s[0] == head[0]);
        assert(s[1] == head[1]);
        assert(s[2] == head[2]);
    } else {
        lemma_four_bytes(u, head[0]);
        assert(s[0] == head[0]);
    }
}

} // verus!
