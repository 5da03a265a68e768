//! Versions, actions and commits.

use crate::decimal::Decimal;
use crate::geo::color::Color;
use crate::geo::shape::Shape;
use crate::text::{content, opt_content};
use bytes::Bytes;
use vstd::prelude::*;

verus! {

/// A point in the store's history. Versions are counted from genesis, the
/// state before any commit.
#[derive(Clone, Copy, Debug, PartialEq, Eq, PartialOrd, Ord, Structural)]
pub struct VersionId(pub u32);

impl VersionId {
    /// The version before any commit.
    pub fn genesis() -> (r: Self)
        ensures
            r.0 == 0,
    {
        VersionId(0)
    }

    /// The version that follows this one.
    pub fn incr(&self) -> (r: Self)
        requires
            self.0 < u32::MAX,
        ensures
            r.0 == self.0 + 1,
    {
        VersionId(self.0 + 1)
    }
}

#[derive(Clone, Copy, Debug, PartialEq, Eq, Structural)]
pub enum ActionKind {
    Add,
    Modify,
    Delete,
}

/// One edit of one named entity.
pub struct Action {
    pub action: ActionKind,
    pub name: Bytes,
    pub geo: Shape,
    pub desc: Option<Bytes>,
    pub color: Option<Color>,
    pub gradient: Option<Decimal>,
}

/// An action as plain data.
pub ghost struct ActionView {
    pub kind: ActionKind,
    pub name: Seq<u8>,
    pub geo: Shape,
    pub desc: Option<Seq<u8>>,
    pub color: Option<Color>,
    pub gradient: Option<Decimal>,
}

impl View for Action {
    type V = ActionView;

    open spec fn view(&self) -> ActionView {
        ActionView {
            kind: self.action,
            name: content(self.name),
            geo: self.geo,
            desc: opt_content(self.desc),
            color: self.color,
            gradient: self.gradient,
        }
    }
}

/// The actions of a sequence as plain data, in order.
pub open spec fn action_views(actions: Seq<Action>) -> Seq<ActionView> {
    actions.map_values(|a: Action| a@)
}

/// The edits that make up one version: those on rectangles and those on
/// lines, each in the order in which they apply.
pub struct Commit {
    pub rect_actions: Vec<Action>,
    pub line_actions: Vec<Action>,
}

pub ghost struct CommitView {
    pub rect_actions: Seq<ActionView>,
    pub line_actions: Seq<ActionView>,
}

impl View for Commit {
    type V = CommitView;

    open spec fn view(&self) -> CommitView {
        CommitView {
            rect_actions: action_views(self.rect_actions@),
            line_actions: action_views(self.line_actions@),
        }
    }
}

impl Default for Commit {
    fn default() -> (r: Self)
        ensures
            r@.rect_actions.len() == 0,
            r@.line_actions.len() == 0,
    {
        Self::new()
    }
}

impl Commit {
    /// A commit without actions.
    pub fn new() -> (r: Self)
        ensures
            r@.rect_actions.len() == 0,
            r@.line_actions.len() == 0,
    {
        Self { line_actions: Vec::new(), rect_actions: Vec::new() }
    }

    /// Appends `action` to the actions of its kind: to those on lines where
    /// it carries a line, to those on rectangles otherwise.
    pub fn add_action(&mut self, action: Action)
        ensures
            action.geo is Line ==> final(self)@ == (CommitView {
                line_actions: old(self)@.line_actions.push(action@),
                ..old(self)@
            }),
            !(action.geo is Line) ==> final(self)@ == (CommitView {
                rect_actions: old(self)@.rect_actions.push(action@),
                ..old(self)@
            }),
    {
        let ghost before_rects = self.rect_actions@;
        let ghost before_lines = self.line_actions@;
        match action.geo {
            Shape::Line(_) => {
                self.line_actions.push(action);
                assert(action_views(self.line_actions@) =~= action_views(before_lines).push(
                    action@,
                ));
            },
            _ => {
                self.rect_actions.push(action);
                assert(action_views(self.rect_actions@) =~= action_views(before_rects).push(
                    action@,
                ));
            },
        }
    }

    /// The commit made of the given actions.
    pub fn build(line_actions: Vec<Action>, rect_actions: Vec<Action>) -> (r: Self)
        ensures
            r.line_actions == line_actions,
            r.rect_actions == rect_actions,
    {
        Self { line_actions, rect_actions }
    }
}

} // verus!
