//! The store as plain data, and what actions and commits do to it.

use super::history::{ascending, at_or_before, lemma_record_ascending, record};
use super::version_controller::{ActionKind, ActionView, CommitView, VersionId};
use crate::geo::color::Color;
use crate::geo::point::Point;
use crate::geo::shape::Shape;
use vstd::prelude::*;

verus! {

/// A stored entity as plain data. Rectangles and lines are both given by two
/// points.
pub ghost struct EntityView {
    pub name: Seq<u8>,
    pub geo: (Point, Point),
    pub color: Option<Color>,
    pub desc: Option<Seq<u8>>,
}

/// The timeline of one entity as plain data.
pub type Timeline = Seq<(VersionId, Option<EntityView>)>;

/// The timelines of one kind of entity, by name.
pub type Namespace = Map<Seq<u8>, Timeline>;

/// The two kinds of entity, each with a namespace of its own, and the two
/// passes over a commit that edit them.
#[derive(Clone, Copy, Debug, PartialEq, Eq, Structural)]
pub enum Pass {
    Rects,
    Lines,
}

/// Why an action was refused.
#[derive(Clone, Copy, Debug, PartialEq, Eq, Structural)]
pub enum Fault {
    /// An add of a name that is live.
    AlreadyLive,
    /// A modify of a name that is not live.
    NotLive,
    /// A delete of a name that has no timeline.
    NoTimeline,
    /// An add without geometry.
    MissingGeometry,
    /// An add or modify with geometry of the other kind.
    WrongGeometry,
    /// A delete that carries geometry, a description or a color.
    DeletePayload,
    /// An add without a scalar, where colors come from a gradient.
    MissingScalar,
}

/// The geometry that an action brings to a pass, as two points.
pub open spec fn extent_for(pass: Pass, geo: Shape) -> Result<Option<(Point, Point)>, Fault> {
    match geo {
        Shape::Absent => Ok(None),
        Shape::Rect(r) => if pass is Rects {
            Ok(Some((r.ll, r.ur)))
        } else {
            Err(Fault::WrongGeometry)
        },
        Shape::Line(l) => if pass is Lines {
            Ok(Some((l.ll, l.ur)))
        } else {
            Err(Fault::WrongGeometry)
        },
    }
}

/// The entity of the given name as it is at `v`, if it is live then.
pub open spec fn live_at(ns: Namespace, name: Seq<u8>, v: VersionId) -> Option<EntityView> {
    if ns.contains_key(name) {
        at_or_before(ns[name], v)
    } else {
        None
    }
}

/// The namespace with `value` recorded for `name` at `v`.
pub open spec fn written(
    ns: Namespace,
    name: Seq<u8>,
    v: VersionId,
    value: Option<EntityView>,
) -> Namespace {
    ns.insert(
        name,
        if ns.contains_key(name) {
            record(ns[name], v, value)
        } else {
            seq![(v, value)]
        },
    )
}

/// An entity with the supplied fields put in place of its own.
pub open spec fn merged(
    cur: EntityView,
    geo: Option<(Point, Point)>,
    color: Option<Color>,
    desc: Option<Seq<u8>>,
) -> EntityView {
    EntityView {
        name: cur.name,
        geo: match geo {
            Some(g) => g,
            None => cur.geo,
        },
        color: match color {
            Some(c) => Some(c),
            None => cur.color,
        },
        desc: match desc {
            Some(d) => Some(d),
            None => cur.desc,
        },
    }
}

/// What one action does to a namespace at version `v`. The color of the
/// action is taken as it stands.
pub open spec fn edit(ns: Namespace, v: VersionId, pass: Pass, a: ActionView) -> Result<
    Namespace,
    Fault,
> {
    match a.kind {
        ActionKind::Add => match extent_for(pass, a.geo) {
            Err(f) => Err(f),
            Ok(None) => Err(Fault::MissingGeometry),
            Ok(Some(g)) => if live_at(ns, a.name, v) is Some {
                Err(Fault::AlreadyLive)
            } else {
                Ok(
                    written(
                        ns,
                        a.name,
                        v,
                        Some(EntityView { name: a.name, geo: g, color: a.color, desc: a.desc }),
                    ),
                )
            },
        },
        ActionKind::Modify => match extent_for(pass, a.geo) {
            Err(f) => Err(f),
            Ok(geo) => match live_at(ns, a.name, v) {
                None => Err(Fault::NotLive),
                Some(cur) => if merged(cur, geo, a.color, a.desc) == cur {
                    Ok(ns)
                } else {
                    Ok(written(ns, a.name, v, Some(merged(cur, geo, a.color, a.desc))))
                },
            },
        },
        ActionKind::Delete => if !(a.geo is Absent) || a.desc is Some || a.color is Some {
            Err(Fault::DeletePayload)
        } else if !ns.contains_key(a.name) {
            Err(Fault::NoTimeline)
        } else {
            Ok(written(ns, a.name, v, None))
        },
    }
}

/// What one action does to a namespace at version `v` in a store whose
/// colors come from a gradient, if `graded`, or are given outright. Under a
/// gradient an add that would else go through is refused where it has no
/// scalar; all else is as `edit` says.
pub open spec fn edit_under(
    graded: bool,
    ns: Namespace,
    v: VersionId,
    pass: Pass,
    a: ActionView,
) -> Result<Namespace, Fault> {
    match edit(ns, v, pass, a) {
        Err(f) => Err(f),
        Ok(after) => if graded && a.kind is Add && a.gradient is None {
            Err(Fault::MissingScalar)
        } else {
            Ok(after)
        },
    }
}

/// How far a pass has come: the namespace as the actions that went through
/// left it, and the first action that was refused, if one was.
pub ghost struct Progress {
    pub ns: Namespace,
    pub fault: Option<(int, Fault)>,
}

/// The outcome of the first `k` actions, applied in order at version `v`. A
/// pass stops at the first action that is refused.
pub open spec fn progress(
    graded: bool,
    ns: Namespace,
    v: VersionId,
    pass: Pass,
    actions: Seq<ActionView>,
    k: nat,
) -> Progress
    decreases k,
{
    if k == 0 {
        Progress { ns, fault: None }
    } else {
        let before = progress(graded, ns, v, pass, actions, (k - 1) as nat);
        if before.fault is Some {
            before
        } else {
            match edit_under(graded, before.ns, v, pass, actions[k - 1]) {
                Ok(after) => Progress { ns: after, fault: None },
                Err(f) => Progress { ns: before.ns, fault: Some((k - 1, f)) },
            }
        }
    }
}

/// Once an action was refused, the outcome stays as it is.
pub proof fn lemma_progress_stops(
    graded: bool,
    ns: Namespace,
    v: VersionId,
    pass: Pass,
    actions: Seq<ActionView>,
    k: nat,
    n: nat,
)
    requires
        k <= n,
        progress(graded, ns, v, pass, actions, k).fault is Some,
    ensures
        progress(graded, ns, v, pass, actions, n) == progress(graded, ns, v, pass, actions, k),
    decreases n,
{
    if k < n {
        lemma_progress_stops(graded, ns, v, pass, actions, k, (n - 1) as nat);
    }
}

/// The store as plain data: its version, its timelines, and whether its
/// colors come from a gradient.
pub ghost struct StoreView {
    pub version: VersionId,
    pub rects: Namespace,
    pub lines: Namespace,
    pub graded: bool,
}

/// The action that stopped a commit, and why.
pub ghost struct FaultAt {
    pub pass: Pass,
    pub index: int,
    pub fault: Fault,
}

/// The version that a commit on a store at `v` creates.
pub open spec fn next_version(v: VersionId) -> VersionId {
    VersionId((v.0 + 1) as u32)
}

/// What a commit does to a store: the version advances by one, then the
/// actions on rectangles apply in order, then those on lines, all at the new
/// version. The first action that is refused ends the commit; what went
/// through before it stays. The color of each action is taken as it
/// stands.
pub open spec fn commit_outcome(s: StoreView, c: CommitView) -> (StoreView, Option<FaultAt>) {
    let v = next_version(s.version);
    let rects = progress(
        s.graded,
        s.rects,
        v,
        Pass::Rects,
        c.rect_actions,
        c.rect_actions.len(),
    );
    match rects.fault {
        Some((index, fault)) => (
            StoreView { version: v, rects: rects.ns, ..s },
            Some(FaultAt { pass: Pass::Rects, index, fault }),
        ),
        None => {
            let lines = progress(
                s.graded,
                s.lines,
                v,
                Pass::Lines,
                c.line_actions,
                c.line_actions.len(),
            );
            (
                StoreView { version: v, rects: rects.ns, lines: lines.ns, ..s },
                match lines.fault {
                    Some((index, fault)) => Some(FaultAt { pass: Pass::Lines, index, fault }),
                    None => None,
                },
            )
        },
    }
}

/// The store before any commit.
pub open spec fn genesis_store(graded: bool) -> StoreView {
    StoreView {
        version: VersionId(0),
        rects: Map::<Seq<u8>, Timeline>::empty(),
        lines: Map::<Seq<u8>, Timeline>::empty(),
        graded,
    }
}

/// The entities of a namespace that are live at `v`, each as it is then.
pub open spec fn snapshot(ns: Namespace, v: VersionId) -> Map<Seq<u8>, EntityView> {
    Map::new(
        |k: Seq<u8>| ns.contains_key(k) && at_or_before(ns[k], v) is Some,
        |k: Seq<u8>| at_or_before(ns[k], v).unwrap(),
    )
}

/// A timeline as a store at `version` holds it for `name`: its entries rise
/// by version, none lies after `version`, and each value bears the name.
pub open spec fn timeline_wf(name: Seq<u8>, t: Timeline, version: VersionId) -> bool {
    &&& ascending(t)
    &&& t.len() > 0
    &&& forall|i: int| 0 <= i < t.len() ==> (#[trigger] t[i]).0.0 <= version.0
    &&& forall|i: int|
        0 <= i < t.len() && (#[trigger] t[i]).1 is Some ==> t[i].1.unwrap().name == name
}

/// Every timeline of the namespace is as a store at `version` holds it.
pub open spec fn namespace_wf(ns: Namespace, version: VersionId) -> bool {
    forall|k: Seq<u8>| ns.contains_key(k) ==> timeline_wf(k, #[trigger] ns[k], version)
}

/// Both namespaces are as a store at this version holds them.
pub open spec fn store_wf(s: StoreView) -> bool {
    &&& namespace_wf(s.rects, s.version)
    &&& namespace_wf(s.lines, s.version)
}

/// What a timeline says of a time is the value of one of its entries.
pub proof fn lemma_at_or_before_entry<E>(s: Seq<(VersionId, Option<E>)>, t: VersionId)
    requires
        at_or_before(s, t) is Some,
    ensures
        exists|i: int| 0 <= i < s.len() && (#[trigger] s[i]).1 == at_or_before(s, t),
    decreases s.len(),
{
    if s.last().0.0 <= t.0 {
        assert(s[s.len() - 1].1 == at_or_before(s, t));
    } else {
        lemma_at_or_before_entry(s.drop_last(), t);
        let i = choose|i: int|
            0 <= i < s.drop_last().len() && (#[trigger] s.drop_last()[i]).1 == at_or_before(
                s.drop_last(),
                t,
            );
        assert(s[i] == s.drop_last()[i]);
    }
}

/// The entity that is live under a name bears that name.
pub proof fn lemma_live_name(ns: Namespace, name: Seq<u8>, v: VersionId, at: VersionId)
    requires
        namespace_wf(ns, v),
        live_at(ns, name, at) is Some,
    ensures
        live_at(ns, name, at).unwrap().name == name,
{
    lemma_at_or_before_entry(ns[name], at);
}

/// Recording at the store's version, under the name that the value bears,
/// keeps a namespace as a store holds it.
pub proof fn lemma_written_wf(ns: Namespace, name: Seq<u8>, v: VersionId, value: Option<EntityView>)
    requires
        namespace_wf(ns, v),
        value matches Some(e) ==> e.name == name,
    ensures
        namespace_wf(written(ns, name, v, value), v),
{
    let after = written(ns, name, v, value);
    assert forall|k: Seq<u8>| after.contains_key(k) implies timeline_wf(
        k,
        #[trigger] after[k],
        v,
    ) by {
        if k == name {
            if ns.contains_key(name) {
                let s = ns[name];
                let r = record(s, v, value);
                lemma_record_ascending(s, v, value);
                assert forall|i: int| 0 <= i < r.len() implies (#[trigger] r[i]).0.0 <= v.0 by {
                    if r[i].0 != v {
                        let j = choose|j: int| 0 <= j < s.len() && s[j] == r[i];
                        assert(s[j].0.0 <= v.0);
                    }
                }
                assert forall|i: int|
                    0 <= i < r.len() && (#[trigger] r[i]).1 is Some implies r[i].1.unwrap().name
                    == name by {
                    lemma_record_entries(s, v, value, i);
                    if r[i] != (v, value) {
                        let j = choose|j: int| 0 <= j < s.len() && s[j] == r[i];
                        assert(s[j].1 is Some);
                    }
                }
            } else {
                assert(after[k] == seq![(v, value)]);
            }
        } else {
            assert(after[k] == ns[k]);
        }
    }
}

/// Each entry of a timeline after recording is the new entry or one of the
/// old ones.
pub proof fn lemma_record_entries<E>(
    s: Seq<(VersionId, Option<E>)>,
    t: VersionId,
    value: Option<E>,
    i: int,
)
    requires
        0 <= i < record(s, t, value).len(),
    ensures
        record(s, t, value)[i] == (t, value) || exists|j: int|
            0 <= j < s.len() && s[j] == record(s, t, value)[i],
    decreases s.len(),
{
    let r = record(s, t, value);
    if s.len() == 0 {
    } else if s.last().0.0 < t.0 {
        if i < s.len() {
            assert(s[i] == r[i]);
        }
    } else if s.last().0.0 == t.0 {
        if i < s.len() - 1 {
            assert(s[i] == r[i]);
        }
    } else {
        let d = s.drop_last();
        let rd = record(d, t, value);
        if i < rd.len() {
            lemma_record_entries(d, t, value, i);
            if rd[i] != (t, value) {
                let j = choose|j: int| 0 <= j < d.len() && d[j] == rd[i];
                assert(s[j] == r[i]);
            }
        } else {
            assert(s[s.len() - 1] == r[i]);
        }
    }
}

/// An action that goes through leaves a namespace as a store holds it.
pub proof fn lemma_edit_wf(ns: Namespace, v: VersionId, pass: Pass, a: ActionView)
    requires
        namespace_wf(ns, v),
    ensures
        edit(ns, v, pass, a) matches Ok(after) ==> namespace_wf(after, v),
{
    match edit(ns, v, pass, a) {
        Ok(after) => {
            match a.kind {
                ActionKind::Add => {
                    let g = extent_for(pass, a.geo).unwrap().unwrap();
                    lemma_written_wf(
                        ns,
                        a.name,
                        v,
                        Some(EntityView { name: a.name, geo: g, color: a.color, desc: a.desc }),
                    );
                },
                ActionKind::Modify => {
                    let cur = live_at(ns, a.name, v).unwrap();
                    lemma_live_name(ns, a.name, v, v);
                    let next = merged(cur, extent_for(pass, a.geo).unwrap(), a.color, a.desc);
                    if next != cur {
                        lemma_written_wf(ns, a.name, v, Some(next));
                    }
                },
                ActionKind::Delete => {
                    lemma_written_wf(ns, a.name, v, None);
                },
            }
        },
        Err(_) => {},
    }
}

/// A namespace that a store holds at one version it can hold at any later
/// one.
pub proof fn lemma_namespace_wf_later(ns: Namespace, v: VersionId, w: VersionId)
    requires
        namespace_wf(ns, v),
        v.0 <= w.0,
    ensures
        namespace_wf(ns, w),
{
    assert forall|k: Seq<u8>| ns.contains_key(k) implies timeline_wf(k, #[trigger] ns[k], w) by {
        assert(timeline_wf(k, ns[k], v));
    }
}

} // verus!
