//! The parser: from the text of a script to its commits.

use crate::db::version_controller::Commit;
use crate::lexer::Cursor;
use crate::text::{content, sub_bytes};
use bytes::Bytes;
use vstd::prelude::*;

pub mod action;
pub mod commit;
pub mod grammar;
pub mod tokens;

verus! {

/// Reads the commits of a script from its text.
pub struct StringParser<'src> {
    /// Where reading started.
    pub start_pos: u32,
    /// The text of the script.
    pub src: &'src Bytes,
    /// The cursor that reads the tokens of the text.
    pub cursor: Cursor<'src>,
}

impl<'src> StringParser<'src> {
    /// The cursor reads the very bytes that `src` holds.
    pub open spec fn wf(&self) -> bool {
        &&& self.cursor.wf()
        &&& self.cursor.source() == content(*self.src)
    }

    /// The bytes of the script.
    pub open spec fn text(&self) -> Seq<u8> {
        self.cursor.source()
    }

    /// How far the script has been read.
    pub open spec fn place(&self) -> int {
        self.cursor.position()
    }

    /// A parser of the text that `src` holds, which `cursor` must be a
    /// cursor of.
    pub fn new(src: &'src Bytes, cursor: Cursor<'src>) -> (r: Self)
        requires
            cursor.wf(),
            cursor.source() == content(*src),
        ensures
            r.wf(),
            r.src == src,
            r.cursor == cursor,
            r.start_pos == 0,
    {
        Self { start_pos: 0, src, cursor }
    }

    /// The bytes `start..end` of the script.
    pub fn read_text(&self, start: usize, end: usize) -> (r: Bytes)
        requires
            self.wf(),
            start <= end <= self.text().len(),
        ensures
            content(r) == self.text().subrange(start as int, end as int),
    {
        sub_bytes(self.src, start, end)
    }

    /// The commits of the script from here on, in order.
    pub fn parse(self) -> (r: Result<Vec<Commit>, grammar::ParseError>)
        requires
            self.wf(),
        ensures
            match grammar::commits_from(self.text(), self.place()) {
                Ok(commits) => r matches Ok(v) && commit::commit_views(v@) == commits,
                Err(e) => r matches Err(x) && x == e,
            },
    {
        let mut this = self;
        let ghost s = this.text();
        let ghost start = this.place();
        let mut res: Vec<Commit> = Vec::new();
        loop
            invariant
                this.wf(),
                this.text() == s,
                s == self.text(),
                start == self.place(),
                match grammar::commits_from(s, this.place()) {
                    Ok(rest) => grammar::commits_from(s, start) == Ok::<
                        Seq<crate::db::version_controller::CommitView>,
                        grammar::ParseError,
                    >(commit::commit_views(res@) + rest),
                    Err(e) => grammar::commits_from(s, start) == Err::<
                        Seq<crate::db::version_controller::CommitView>,
                        grammar::ParseError,
                    >(e),
                },
            decreases s.len() - this.place(),
        {
            let ghost at = this.place();
            let ghost before = res@;
            proof {
                commit::lemma_commit_advances(s, at, grammar::empty_commit());
            }
            match commit::next_commit(&mut this) {
                Err(e) => {
                    return Err(e);
                },
                Ok(None) => {
                    proof {
                        assert(commit::commit_views(res@) + Seq::empty() =~= commit::commit_views(
                            res@,
                        ));
                    }
                    return Ok(res);
                },
                Ok(Some(c)) => {
                    res.push(c);
                    proof {
                        assert(commit::commit_views(res@) =~= commit::commit_views(before).push(
                            c@,
                        ));
                        match grammar::commits_from(s, this.place()) {
                            Ok(rest) => {
                                assert(commit::commit_views(before) + (seq![c@] + rest)
                                    =~= commit::commit_views(res@) + rest);
                            },
                            Err(_) => {},
                        }
                    }
                },
            }
        }
    }
}

} // verus!
