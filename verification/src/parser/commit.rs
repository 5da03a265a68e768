//! Reading the statements of one commit.

use super::action::next_action;
use super::grammar::{
    commit_from, commit_word_after, empty_commit, spells, statement_after, token_after,
    with_action, word_commit, ParseError,
};
use super::tokens::{next_token, peek_token};
use super::StringParser;
use crate::db::version_controller::{Commit, CommitView};
use crate::lexer::{lemma_lexeme_bounds, TokenKind};
use crate::text::as_slice;
use vstd::prelude::*;

verus! {

/// The commits of a sequence as plain data, in order.
pub open spec fn commit_views(commits: Seq<Commit>) -> Seq<CommitView> {
    commits.map_values(|c: Commit| c@)
}

/// Reading a commit where the text has not ended passes over at least one
/// byte, and never goes past the end of the text.
pub proof fn lemma_commit_advances(s: Seq<u8>, i: int, c: CommitView)
    requires
        0 <= i <= s.len(),
    ensures
        commit_from(s, i, c) matches Ok(found) ==> i <= found.1 <= s.len() && (token_after(s, i)
            matches Ok(l) && !(l.kind is Eof) ==> i < found.1),
    decreases s.len() - i,
{
    lemma_lexeme_bounds(s, i);
    match token_after(s, i) {
        Err(_) => {},
        Ok(l) => {
            if l.kind is Eof {
            } else if commit_word_after(s, i) {
            } else {
                match statement_after(s, i) {
                    Err(_) => {},
                    Ok((a, p)) => {
                        if p <= i || p > s.len() {
                            super::action::lemma_statement_advances(s, i);
                        } else {
                            lemma_commit_advances(s, p, with_action(c, a));
                        }
                    },
                }
            }
        },
    }
}

/// Reads the next commit: the statements up to the closing word, which is
/// read too, or up to the end of the text. `None` where the text has ended.
pub fn next_commit(parser: &mut StringParser) -> (r: Result<Option<Commit>, ParseError>)
    requires
        old(parser).wf(),
    ensures
        final(parser).wf(),
        final(parser).src == old(parser).src,
        match token_after(old(parser).text(), old(parser).place()) {
            Err(e) => r matches Err(x) && x == e,
            Ok(l) => if l.kind is Eof {
                r matches Ok(None) && final(parser).place() == old(parser).place()
            } else {
                match commit_from(old(parser).text(), old(parser).place(), empty_commit()) {
                    Err(e) => r matches Err(x) && x == e,
                    Ok(found) => r matches Ok(Some(c)) && c@ == found.0 && final(parser).place()
                        == found.1,
                }
            },
        },
{
    let ghost s = parser.text();
    let ghost start = parser.place();
    let first = match peek_token(parser) {
        Ok(t) => t,
        Err(e) => {
            return Err(e);
        },
    };
    if first.kind == TokenKind::Eof {
        return Ok(None);
    }
    let mut commit = Commit::new();
    proof {
        assert(commit@.rect_actions =~= empty_commit().rect_actions);
        assert(commit@.line_actions =~= empty_commit().line_actions);
    }
    loop
        invariant
            parser.wf(),
            parser.src == old(parser).src,
            parser.text() == s,
            s == old(parser).text(),
            start == old(parser).place(),
            0 <= parser.place() <= s.len(),
            !(token_after(s, start) matches Ok(l) && l.kind is Eof),
            token_after(s, start) is Ok,
            commit_from(s, start, empty_commit()) == commit_from(s, parser.place(), commit@),
        decreases s.len() - parser.place(),
    {
        let ghost at = parser.place();
        proof {
            lemma_lexeme_bounds(s, at);
            super::action::lemma_statement_advances(s, at);
        }
        let token = match peek_token(parser) {
            Ok(t) => t,
            Err(e) => {
                return Err(e);
            },
        };
        if token.kind == TokenKind::Eof {
            return Ok(Some(commit));
        }
        if token.kind == TokenKind::Str {
            let word = parser.read_text(token.start, token.end);
            if is_commit_word(as_slice(&word)) {
                let _ = next_token(parser);
                return Ok(Some(commit));
            }
        }
        match next_action(parser) {
            Err(e) => {
                return Err(e);
            },
            Ok(action) => {
                commit.add_action(action);
            },
        }
    }
}

/// Whether `text` is the word that closes a commit, in either case.
pub fn is_commit_word(text: &[u8]) -> (r: bool)
    ensures
        r == spells(text@, word_commit()),
{
    let word: [u8; 6] = [67, 79, 77, 77, 73, 84];
    assert(word@ =~= word_commit());
    super::action::spells_word(text, word.as_slice())
}

} // verus!
