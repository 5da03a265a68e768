//! Colors under the store's policy, and the creation of versions.

use super::laws::law_snapshot_isolation;
use super::liveness::{
    alike, commits_recolored, law_stops_whatever_the_colors, recolored, stores_alike,
};
use super::model::{commit_outcome, next_version, snapshot, store_wf, FaultAt, StoreView};
use super::store::{Db, StoreError};
use super::version_controller::{
    action_views, Action, ActionKind, ActionView, Commit, CommitView, VersionId,
};
use crate::decimal::Decimal;
use crate::geo::color::{Color, ColorType, Position};
use crate::geo::criticality::{lemma_place_between_wf, place_between, Criticality};
use vstd::prelude::*;

verus! {

/// The color of an entity under a policy: the explicit color where colors are
/// given outright; where they come from a gradient, what the generator gives
/// at the place of the scalar, and nothing without a scalar. The scalar is
/// held to the range of the gradient once, when its place is taken.
pub fn resolve<G: Fn(Position) -> Color>(
    explicit: Option<Color>,
    scalar: Option<Decimal>,
    policy: &ColorType<G>,
) -> (r: Option<Color>)
    requires
        policy.wf(),
    ensures
        match policy {
            ColorType::RGB => r == explicit,
            ColorType::Gradient { generator, min, max } => match scalar {
                None => r is None,
                Some(s) => r is Some && call_ensures(
                    *generator,
                    (place_between(s, *min, *max).unwrap(),),
                    r.unwrap(),
                ),
            },
        },
{
    match policy {
        ColorType::RGB => explicit,
        ColorType::Gradient { generator, min, max } => match scalar {
            None => None,
            Some(s) => {
                proof {
                    lemma_place_between_wf(s, *min, *max);
                }
                Criticality(s).color(*min, *max, generator)
            },
        },
    }
}

/// Whether `b` is `a` with its color as the policy gives it: under a
/// gradient an add that has a scalar bears what the generator gave at the
/// place of that scalar; every other action is left as it is.
pub open spec fn painted<G: Fn(Position) -> Color>(
    policy: ColorType<G>,
    a: ActionView,
    b: ActionView,
) -> bool {
    match policy {
        ColorType::RGB => b == a,
        ColorType::Gradient { generator, min, max } => if a.kind is Add && a.gradient is Some {
            &&& b.color is Some
            &&& b == (ActionView { color: b.color, ..a })
            &&& call_ensures(
                generator,
                (place_between(a.gradient.unwrap(), min, max).unwrap(),),
                b.color.unwrap(),
            )
        } else {
            b == a
        },
    }
}

/// Whether each of `after` is the action at its place in `before`, with its
/// color as the policy gives it.
pub open spec fn all_painted<G: Fn(Position) -> Color>(
    policy: ColorType<G>,
    before: Seq<ActionView>,
    after: Seq<ActionView>,
) -> bool {
    &&& after.len() == before.len()
    &&& forall|i: int| 0 <= i < before.len() ==> painted(policy, #[trigger] before[i], after[i])
}

/// Whether `colored` is `plain` with every color as the policy gives it.
pub open spec fn painted_commit<G: Fn(Position) -> Color>(
    policy: ColorType<G>,
    plain: CommitView,
    colored: CommitView,
) -> bool {
    &&& all_painted(policy, plain.rect_actions, colored.rect_actions)
    &&& all_painted(policy, plain.line_actions, colored.line_actions)
}

/// Gives each action its color under the policy, in place and in order.
pub fn paint_all<G: Fn(Position) -> Color>(policy: &ColorType<G>, actions: &mut Vec<Action>)
    requires
        policy.wf(),
    ensures
        all_painted(*policy, action_views(old(actions)@), action_views(final(actions)@)),
{
    let ghost plain = action_views(actions@);
    match policy {
        ColorType::RGB => {
            assert(action_views(actions@) =~= plain);
        },
        ColorType::Gradient { generator, min, max } => {
            let mut i: usize = 0;
            while i < actions.len()
                invariant
                    policy.wf(),
                    *policy == (ColorType::Gradient {
                        generator: *generator,
                        min: *min,
                        max: *max,
                    }),
                    i <= actions@.len(),
                    actions@.len() == plain.len(),
                    plain == action_views(old(actions)@),
                    forall|j: int|
                        0 <= j < i ==> painted(*policy, #[trigger] plain[j], actions@[j]@),
                    forall|j: int| i <= j < plain.len() ==> #[trigger] plain[j] == actions@[j]@,
                decreases actions@.len() - i,
            {
                let ghost here = actions@;
                assert(plain[i as int] == here[i as int]@);
                match actions[i].action {
                    ActionKind::Add => match actions[i].gradient {
                        None => {},
                        Some(s) => {
                            proof {
                                lemma_place_between_wf(s, *min, *max);
                            }
                            let c = resolve(None, Some(s), policy);
                            actions[i].color = c;
                            assert(forall|j: int|
                                0 <= j < here.len() && j != i ==> actions@[j] == here[j]);
                        },
                    },
                    _ => {},
                }
                i += 1;
            }
            assert(action_views(actions@).len() == plain.len());
            assert forall|j: int| 0 <= j < plain.len() implies painted(
                *policy,
                #[trigger] plain[j],
                action_views(actions@)[j],
            ) by {
                assert(action_views(actions@)[j] == actions@[j]@);
            }
        },
    }
}

/// The place and the reason of a commit's failure, if it failed.
pub open spec fn site_of(r: Result<(), StoreError>) -> Option<FaultAt> {
    match r {
        Ok(_) => None,
        Err(e) => Some(e.site()),
    }
}

/// Whether a commit on the store `before`, under `policy`, can leave the
/// store `after` and stop as `stopped` says: whether that is how the commit
/// applies once its colors are as the policy gives them.
pub open spec fn version_created<G: Fn(Position) -> Color>(
    policy: ColorType<G>,
    before: StoreView,
    plain: CommitView,
    after: StoreView,
    stopped: Option<FaultAt>,
) -> bool {
    exists|colored: CommitView|
        painted_commit(policy, plain, colored) && #[trigger] commit_outcome(before, colored) == (
            after,
            stopped,
        )
}

/// Where colors are given outright, a commit applies as it stands.
pub proof fn law_given_colors_apply_as_they_stand<G: Fn(Position) -> Color>(
    policy: ColorType<G>,
    before: StoreView,
    plain: CommitView,
    after: StoreView,
    stopped: Option<FaultAt>,
)
    requires
        policy is RGB,
    ensures
        version_created(policy, before, plain, after, stopped) <==> commit_outcome(before, plain)
            == (after, stopped),
{
    if version_created(policy, before, plain, after, stopped) {
        let colored = choose|colored: CommitView|
            painted_commit(policy, plain, colored) && #[trigger] commit_outcome(before, colored)
                == (after, stopped);
        assert(colored.rect_actions =~= plain.rect_actions);
        assert(colored.line_actions =~= plain.line_actions);
    }
    if commit_outcome(before, plain) == (after, stopped) {
        assert(painted_commit(policy, plain, plain));
    }
}

/// A commit with its colors as a policy gives them is the commit as it
/// stands but for the colors of adds.
pub proof fn lemma_painted_recolored<G: Fn(Position) -> Color>(
    policy: ColorType<G>,
    plain: CommitView,
    colored: CommitView,
)
    requires
        painted_commit(policy, plain, colored),
    ensures
        commits_recolored(plain, colored),
{
    assert forall|i: int| 0 <= i < plain.rect_actions.len() implies recolored(
        #[trigger] plain.rect_actions[i],
        colored.rect_actions[i],
    ) by {
        assert(painted(policy, plain.rect_actions[i], colored.rect_actions[i]));
    }
    assert forall|i: int| 0 <= i < plain.line_actions.len() implies recolored(
        #[trigger] plain.line_actions[i],
        colored.line_actions[i],
    ) by {
        assert(painted(policy, plain.line_actions[i], colored.line_actions[i]));
    }
}

/// Whether and where a commit stops is settled before any color is
/// generated: however the colors come out, the commit stops where it stops
/// as it stands, and the same entities are live after it.
pub proof fn law_created_version_stops_by_rule<G: Fn(Position) -> Color>(
    policy: ColorType<G>,
    before: StoreView,
    plain: CommitView,
    after: StoreView,
    stopped: Option<FaultAt>,
)
    requires
        store_wf(before),
        before.version.0 < u32::MAX,
        version_created(policy, before, plain, after, stopped),
    ensures
        stopped == commit_outcome(before, plain).1,
        stores_alike(commit_outcome(before, plain).0, after),
{
    let colored = choose|colored: CommitView|
        painted_commit(policy, plain, colored) && #[trigger] commit_outcome(before, colored) == (
            after,
            stopped,
        );
    lemma_painted_recolored(policy, plain, colored);
    assert(alike(before.rects, before.rects));
    assert(alike(before.lines, before.lines));
    law_stops_whatever_the_colors(before, before, plain, colored);
}

/// Snapshots are isolated from later versions under any policy: however a
/// commit comes out, the slice at any version that the store had reached
/// before is the same after the commit as before it.
pub proof fn law_created_version_keeps_slices<G: Fn(Position) -> Color>(
    policy: ColorType<G>,
    before: StoreView,
    plain: CommitView,
    after: StoreView,
    stopped: Option<FaultAt>,
    earlier: VersionId,
)
    requires
        store_wf(before),
        before.version.0 < u32::MAX,
        earlier.0 <= before.version.0,
        version_created(policy, before, plain, after, stopped),
    ensures
        snapshot(after.rects, earlier) == snapshot(before.rects, earlier),
        snapshot(after.lines, earlier) == snapshot(before.lines, earlier),
        store_wf(after),
{
    let colored = choose|colored: CommitView|
        painted_commit(policy, plain, colored) && #[trigger] commit_outcome(before, colored) == (
            after,
            stopped,
        );
    law_snapshot_isolation(before, colored, earlier);
}

impl<G: Fn(Position) -> Color> Db<G> {
    /// Creates the next version from `commit`.
    ///
    /// The version advances by one. Then the actions on rectangles apply in
    /// order, then those on lines, all at the new version. The first action
    /// that is refused ends the commit and is reported; what went through
    /// before it stays.
    ///
    /// Where colors are given outright, an add takes the color that it
    /// bears. Where they come from a gradient, an add takes the color that
    /// the generator gives at the place of its scalar, and is refused
    /// without one. Whether and where the commit stops does not depend on
    /// what the generator gives.
    pub fn create_version(&mut self, commit: Commit) -> (r: Result<(), StoreError>)
        requires
            old(self).wf(),
            old(self).version.0 < u32::MAX,
        ensures
            final(self).wf(),
            final(self).config == old(self).config,
            version_created(old(self).config.color, old(self)@, commit@, final(self)@, site_of(r)),
            site_of(r) == commit_outcome(old(self)@, commit@).1,
            r matches Err(e) ==> e.version == next_version(old(self).version) && e.reports(
                if e.pass is Rects {
                    commit@.rect_actions
                } else {
                    commit@.line_actions
                },
                e.version,
            ),
    {
        let ghost plain = commit@;
        let Commit { mut rect_actions, mut line_actions } = commit;
        paint_all(&self.config.color, &mut rect_actions);
        paint_all(&self.config.color, &mut line_actions);
        let colored = Commit { rect_actions, line_actions };
        let ghost witness = colored@;
        let r = self.apply(colored);
        proof {
            assert(painted_commit(old(self).config.color, plain, witness));
            assert(commit_outcome(old(self)@, witness) == (self@, site_of(r)));
            law_created_version_stops_by_rule(
                old(self).config.color,
                old(self)@,
                plain,
                self@,
                site_of(r),
            );
            if let Err(e) = &r {
                if e.pass is Rects {
                    assert(painted(
                        old(self).config.color,
                        plain.rect_actions[e.index as int],
                        witness.rect_actions[e.index as int],
                    ));
                } else {
                    assert(painted(
                        old(self).config.color,
                        plain.line_actions[e.index as int],
                        witness.line_actions[e.index as int],
                    ));
                }
            }
        }
        r
    }
}

} // verus!
