//! What does not depend on colors: which entities are live, and whether and
//! where a commit stops.

use super::laws::{
    lemma_at_or_before_later, lemma_edit_shape, lemma_pass_wf, lemma_record_earlier,
    lemma_record_top, recorded_value, touches,
};
use super::model::{
    commit_outcome, edit, lemma_namespace_wf_later, live_at, namespace_wf,
    next_version, progress, store_wf, timeline_wf, written, EntityView, Namespace, Pass,
    StoreView,
};
use super::history::at_or_before;
use super::version_controller::{ActionView, CommitView, VersionId};
use vstd::prelude::*;

verus! {

/// Whether two namespaces hold timelines for the same names, and the same
/// names are live in both at every version.
pub open spec fn alike(a: Namespace, b: Namespace) -> bool {
    &&& forall|k: Seq<u8>| a.contains_key(k) == b.contains_key(k)
    &&& forall|k: Seq<u8>, t: VersionId|
        (#[trigger] live_at(a, k, t) is Some) == (live_at(b, k, t) is Some)
}

/// Whether two stores are at the same version, get their colors in the same
/// way, and are alike in both kinds of entity.
pub open spec fn stores_alike(a: StoreView, b: StoreView) -> bool {
    &&& a.version == b.version
    &&& a.graded == b.graded
    &&& alike(a.rects, b.rects)
    &&& alike(a.lines, b.lines)
}

/// Whether `y` is `x` but, if it is an add, for its color.
pub open spec fn recolored(x: ActionView, y: ActionView) -> bool {
    if x.kind is Add {
        y == (ActionView { color: y.color, ..x })
    } else {
        y == x
    }
}

/// Whether each of `ys` is the action at its place in `xs` but, if that is
/// an add, for its color.
pub open spec fn all_recolored(xs: Seq<ActionView>, ys: Seq<ActionView>) -> bool {
    &&& xs.len() == ys.len()
    &&& forall|i: int| 0 <= i < xs.len() ==> recolored(#[trigger] xs[i], ys[i])
}

/// Whether two commits hold the same actions but for the colors of adds.
pub open spec fn commits_recolored(x: CommitView, y: CommitView) -> bool {
    &&& all_recolored(x.rect_actions, y.rect_actions)
    &&& all_recolored(x.line_actions, y.line_actions)
}

/// What a name is after a value was recorded for one at the newest version:
/// from that version on the name it was recorded for is that value, and all
/// else is as before.
pub proof fn lemma_written_live(
    ns: Namespace,
    name: Seq<u8>,
    v: VersionId,
    value: Option<EntityView>,
    k: Seq<u8>,
    t: VersionId,
)
    requires
        namespace_wf(ns, v),
    ensures
        live_at(written(ns, name, v, value), k, t) == if k == name && t.0 >= v.0 {
            value
        } else {
            live_at(ns, k, t)
        },
{
    let after = written(ns, name, v, value);
    if k == name {
        if ns.contains_key(name) {
            assert(timeline_wf(name, ns[name], v));
            if t.0 >= v.0 {
                lemma_record_top(ns[name], v, value, t);
            } else {
                lemma_record_earlier(ns[name], v, value, t);
            }
        } else {
            assert(after[name] == seq![(v, value)]);
            assert(after[name].last() == (v, value));
            assert(after[name].drop_last() =~= Seq::<(VersionId, Option<EntityView>)>::empty());
            assert(at_or_before(after[name].drop_last(), t) is None);
        }
    } else if ns.contains_key(k) {
        assert(after[k] == ns[k]);
    }
}

/// Which names are live after an action went through depends on nothing but
/// which were live before, and on the kind and the name of the action: from
/// its version on, its name is live unless it is a delete; all else is as
/// before.
pub proof fn lemma_edit_live(
    ns: Namespace,
    v: VersionId,
    pass: Pass,
    x: ActionView,
    k: Seq<u8>,
    t: VersionId,
)
    requires
        namespace_wf(ns, v),
        edit(ns, v, pass, x) is Ok,
    ensures
        (live_at(edit(ns, v, pass, x).unwrap(), k, t) is Some) == if k == x.name && t.0 >= v.0 {
            !(x.kind is Delete)
        } else {
            live_at(ns, k, t) is Some
        },
        edit(ns, v, pass, x).unwrap().contains_key(k) == (ns.contains_key(k) || k == x.name),
{
    lemma_edit_shape(ns, v, pass, x);
    if touches(ns, v, pass, x) {
        lemma_written_live(ns, x.name, v, recorded_value(ns, v, pass, x), k, t);
    } else if k == x.name && t.0 >= v.0 {
        assert(timeline_wf(k, ns[k], v));
        lemma_at_or_before_later(ns[k], v, t);
    }
}

/// Whether an action goes through, and why not if it does not, depends on
/// nothing but which names have timelines and which are live; and so does
/// which are live after it.
pub proof fn lemma_edit_alike(
    a: Namespace,
    b: Namespace,
    v: VersionId,
    pass: Pass,
    x: ActionView,
    y: ActionView,
)
    requires
        namespace_wf(a, v),
        namespace_wf(b, v),
        alike(a, b),
        recolored(x, y),
    ensures
        match (edit(a, v, pass, x), edit(b, v, pass, y)) {
            (Ok(a2), Ok(b2)) => alike(a2, b2),
            (Err(f), Err(g)) => f == g,
            _ => false,
        },
{
    assert((live_at(a, x.name, v) is Some) == (live_at(b, x.name, v) is Some));
    assert(a.contains_key(x.name) == b.contains_key(x.name));
    if let (Ok(a2), Ok(b2)) = (edit(a, v, pass, x), edit(b, v, pass, y)) {
        assert forall|k: Seq<u8>| a2.contains_key(k) == b2.contains_key(k) by {
            lemma_edit_live(a, v, pass, x, k, v);
            lemma_edit_live(b, v, pass, y, k, v);
        }
        assert forall|k: Seq<u8>, t: VersionId|
            (#[trigger] live_at(a2, k, t) is Some) == (live_at(b2, k, t) is Some) by {
            lemma_edit_live(a, v, pass, x, k, t);
            lemma_edit_live(b, v, pass, y, k, t);
            assert((live_at(a, k, t) is Some) == (live_at(b, k, t) is Some));
        }
    }
}

/// How far a pass comes, and where it stops, does not depend on colors.
pub proof fn lemma_progress_alike(
    graded: bool,
    a: Namespace,
    b: Namespace,
    v: VersionId,
    pass: Pass,
    xs: Seq<ActionView>,
    ys: Seq<ActionView>,
    k: nat,
)
    requires
        namespace_wf(a, v),
        namespace_wf(b, v),
        alike(a, b),
        all_recolored(xs, ys),
        k <= xs.len(),
    ensures
        progress(graded, a, v, pass, xs, k).fault == progress(graded, b, v, pass, ys, k).fault,
        alike(progress(graded, a, v, pass, xs, k).ns, progress(graded, b, v, pass, ys, k).ns),
    decreases k,
{
    if k > 0 {
        lemma_progress_alike(graded, a, b, v, pass, xs, ys, (k - 1) as nat);
        let pa = progress(graded, a, v, pass, xs, (k - 1) as nat);
        let pb = progress(graded, b, v, pass, ys, (k - 1) as nat);
        if pa.fault is None {
            lemma_pass_wf(graded, a, v, pass, xs, (k - 1) as nat);
            lemma_pass_wf(graded, b, v, pass, ys, (k - 1) as nat);
            assert(recolored(xs[k - 1], ys[k - 1]));
            lemma_edit_alike(pa.ns, pb.ns, v, pass, xs[k - 1], ys[k - 1]);
        }
    }
}

/// Whether a commit goes through, and where and why it stops if it does
/// not, does not depend on colors; nor does which entities are live after
/// it.
pub proof fn law_stops_whatever_the_colors(
    s1: StoreView,
    s2: StoreView,
    c1: CommitView,
    c2: CommitView,
)
    requires
        store_wf(s1),
        store_wf(s2),
        s1.version.0 < u32::MAX,
        stores_alike(s1, s2),
        commits_recolored(c1, c2),
    ensures
        commit_outcome(s1, c1).1 == commit_outcome(s2, c2).1,
        stores_alike(commit_outcome(s1, c1).0, commit_outcome(s2, c2).0),
        store_wf(commit_outcome(s1, c1).0),
        store_wf(commit_outcome(s2, c2).0),
{
    let graded = s1.graded;
    let v = next_version(s1.version);
    lemma_namespace_wf_later(s1.rects, s1.version, v);
    lemma_namespace_wf_later(s1.lines, s1.version, v);
    lemma_namespace_wf_later(s2.rects, s2.version, v);
    lemma_namespace_wf_later(s2.lines, s2.version, v);
    lemma_progress_alike(
        graded,
        s1.rects,
        s2.rects,
        v,
        Pass::Rects,
        c1.rect_actions,
        c2.rect_actions,
        c1.rect_actions.len(),
    );
    lemma_progress_alike(
        graded,
        s1.lines,
        s2.lines,
        v,
        Pass::Lines,
        c1.line_actions,
        c2.line_actions,
        c1.line_actions.len(),
    );
    lemma_pass_wf(graded, s1.rects, v, Pass::Rects, c1.rect_actions, c1.rect_actions.len());
    lemma_pass_wf(graded, s2.rects, v, Pass::Rects, c2.rect_actions, c2.rect_actions.len());
    lemma_pass_wf(graded, s1.lines, v, Pass::Lines, c1.line_actions, c1.line_actions.len());
    lemma_pass_wf(graded, s2.lines, v, Pass::Lines, c2.line_actions, c2.line_actions.len());
}

/// Likeness carries over.
pub proof fn lemma_alike_transitive(a: Namespace, b: Namespace, c: Namespace)
    requires
        alike(a, b),
        alike(b, c),
    ensures
        alike(a, c),
{
    assert forall|k: Seq<u8>, t: VersionId|
        (#[trigger] live_at(a, k, t) is Some) == (live_at(c, k, t) is Some) by {
        assert((live_at(a, k, t) is Some) == (live_at(b, k, t) is Some));
        assert((live_at(b, k, t) is Some) == (live_at(c, k, t) is Some));
    }
    assert forall|k: Seq<u8>| a.contains_key(k) == c.contains_key(k) by {
        assert(a.contains_key(k) == b.contains_key(k));
    }
}

} // verus!
