//! The versioned store: its entities, how commits with given colors apply to
//! it, and how it is sliced.

use super::history::{at_or_before, record, History};
use super::model::{
    commit_outcome, edit_under, extent_for, genesis_store, lemma_edit_wf,
    lemma_namespace_wf_later,
    lemma_progress_stops, namespace_wf, next_version, progress, snapshot, store_wf, EntityView,
    Fault, FaultAt, Namespace, Pass, StoreView, Timeline,
};
use super::names::NameMap;
use super::version_controller::{action_views, Action, ActionKind, ActionView, Commit, VersionId};
use crate::geo::color::{Color, ColorType, Position};
use crate::geo::line::Line;
use crate::geo::point::Point;
use crate::geo::rect::Rect;
use crate::geo::shape::Shape;
use crate::text::{as_slice, content, opt_content, same_bytes, share, share_opt};
use bytes::Bytes;
use vstd::prelude::*;

verus! {

/// A rectangle as the store holds it at one version.
#[derive(Debug)]
pub struct RectInfo {
    pub name: Bytes,
    pub geo: Rect,
    pub color: Option<Color>,
    pub desc: Option<Bytes>,
}

/// A line as the store holds it at one version.
#[derive(Debug)]
pub struct LineInfo {
    pub name: Bytes,
    pub geo: Line,
    pub color: Option<Color>,
    pub desc: Option<Bytes>,
}

impl View for RectInfo {
    type V = EntityView;

    open spec fn view(&self) -> EntityView {
        EntityView {
            name: content(self.name),
            geo: (self.geo.ll, self.geo.ur),
            color: self.color,
            desc: opt_content(self.desc),
        }
    }
}

impl View for LineInfo {
    type V = EntityView;

    open spec fn view(&self) -> EntityView {
        EntityView {
            name: content(self.name),
            geo: (self.geo.ll, self.geo.ur),
            color: self.color,
            desc: opt_content(self.desc),
        }
    }
}

impl Clone for RectInfo {
    fn clone(&self) -> (r: Self)
        ensures
            r@ == self@,
    {
        RectInfo {
            name: share(&self.name),
            geo: self.geo,
            color: self.color,
            desc: share_opt(&self.desc),
        }
    }
}

impl Clone for LineInfo {
    fn clone(&self) -> (r: Self)
        ensures
            r@ == self@,
    {
        LineInfo {
            name: share(&self.name),
            geo: self.geo,
            color: self.color,
            desc: share_opt(&self.desc),
        }
    }
}

/// What the store needs of a kind of entity: which pass edits it, how one is
/// put together from its parts, and how its parts are read.
pub trait Entity: View<V = EntityView> + Clone + Sized {
    spec fn pass() -> Pass;

    fn of_pass() -> (r: Pass)
        ensures
            r == Self::pass(),
    ;

    fn compose(name: Bytes, geo: (Point, Point), color: Option<Color>, desc: Option<Bytes>) -> (r:
        Self)
        ensures
            r@ == (EntityView { name: content(name), geo, color, desc: opt_content(desc) }),
    ;

    fn label(&self) -> (r: &Bytes)
        ensures
            content(*r) == self@.name,
    ;

    fn extent(&self) -> (r: (Point, Point))
        ensures
            r == self@.geo,
    ;

    fn tint(&self) -> (r: Option<Color>)
        ensures
            r == self@.color,
    ;

    fn note(&self) -> (r: &Option<Bytes>)
        ensures
            opt_content(*r) == self@.desc,
    ;

    fn duplicate(&self) -> (r: Self)
        ensures
            r@ == self@,
    ;
}

impl Entity for RectInfo {
    open spec fn pass() -> Pass {
        Pass::Rects
    }

    fn of_pass() -> (r: Pass) {
        Pass::Rects
    }

    fn compose(name: Bytes, geo: (Point, Point), color: Option<Color>, desc: Option<Bytes>) -> (r:
        Self) {
        RectInfo { name, geo: Rect { ll: geo.0, ur: geo.1 }, color, desc }
    }

    fn label(&self) -> (r: &Bytes) {
        &self.name
    }

    fn extent(&self) -> (r: (Point, Point)) {
        (self.geo.ll, self.geo.ur)
    }

    fn tint(&self) -> (r: Option<Color>) {
        self.color
    }

    fn note(&self) -> (r: &Option<Bytes>) {
        &self.desc
    }

    fn duplicate(&self) -> (r: Self) {
        self.clone()
    }
}

impl Entity for LineInfo {
    open spec fn pass() -> Pass {
        Pass::Lines
    }

    fn of_pass() -> (r: Pass) {
        Pass::Lines
    }

    fn compose(name: Bytes, geo: (Point, Point), color: Option<Color>, desc: Option<Bytes>) -> (r:
        Self) {
        LineInfo { name, geo: Line { ll: geo.0, ur: geo.1 }, color, desc }
    }

    fn label(&self) -> (r: &Bytes) {
        &self.name
    }

    fn extent(&self) -> (r: (Point, Point)) {
        (self.geo.ll, self.geo.ur)
    }

    fn tint(&self) -> (r: Option<Color>) {
        self.color
    }

    fn note(&self) -> (r: &Option<Bytes>) {
        &self.desc
    }

    fn duplicate(&self) -> (r: Self) {
        self.clone()
    }
}

/// A recorded value, or absence, as plain data.
pub open spec fn facet<T: Entity>(x: Option<T>) -> Option<EntityView> {
    match x {
        Some(e) => Some(e@),
        None => None,
    }
}

/// The entries of a history as plain data.
pub open spec fn portray<T: Entity>(s: Seq<(VersionId, Option<T>)>) -> Timeline {
    s.map_values(|e: (VersionId, Option<T>)| (e.0, facet(e.1)))
}

/// The histories of a map, by name, as plain data.
pub open spec fn namespace_of<T: Entity>(m: NameMap<History<T>>) -> Namespace {
    m@.map_values(|h: History<T>| portray(h@))
}

/// The entities of a map, by name, as plain data.
pub open spec fn sheet_of<T: Entity>(m: NameMap<T>) -> Map<Seq<u8>, EntityView> {
    m@.map_values(|e: T| e@)
}

/// The map keeps its keys in order, and each history its entries.
pub open spec fn registry_wf<T: Entity>(m: NameMap<History<T>>) -> bool {
    &&& m.wf()
    &&& forall|k: Seq<u8>| m@.contains_key(k) ==> (#[trigger] m@[k]).wf()
}

pub proof fn lemma_portray_at_or_before<T: Entity>(s: Seq<(VersionId, Option<T>)>, t: VersionId)
    ensures
        at_or_before(portray(s), t) == facet(at_or_before(s, t)),
    decreases s.len(),
{
    if s.len() > 0 {
        assert(portray(s).last() == (s.last().0, facet(s.last().1)));
        assert(portray(s).drop_last() =~= portray(s.drop_last()));
        lemma_portray_at_or_before(s.drop_last(), t);
    }
}

pub proof fn lemma_portray_record<T: Entity>(
    s: Seq<(VersionId, Option<T>)>,
    t: VersionId,
    value: Option<T>,
)
    ensures
        portray(record(s, t, value)) == record(portray(s), t, facet(value)),
    decreases s.len(),
{
    let p = portray(s);
    if s.len() == 0 {
        assert(portray(record(s, t, value)) =~= record(p, t, facet(value)));
    } else {
        assert(p.last() == (s.last().0, facet(s.last().1)));
        assert(p.drop_last() =~= portray(s.drop_last()));
        if s.last().0.0 < t.0 {
            assert(portray(record(s, t, value)) =~= record(p, t, facet(value)));
        } else if s.last().0.0 == t.0 {
            assert(portray(record(s, t, value)) =~= record(p, t, facet(value)));
        } else {
            lemma_portray_record(s.drop_last(), t, value);
            assert(portray(record(s, t, value)) =~= portray(
                record(s.drop_last(), t, value),
            ).push(p.last()));
        }
    }
}

/// Changing the history at one place of a map changes the timeline of that
/// name, and no other.
pub proof fn lemma_namespace_update<T: Entity>(
    before: NameMap<History<T>>,
    after: NameMap<History<T>>,
    i: int,
)
    requires
        registry_wf(before),
        0 <= i < before.values().len(),
        after.names() == before.names(),
        after.values() == before.values().update(i, after.values()[i]),
        after.values()[i].wf(),
    ensures
        registry_wf(after),
        namespace_of(after) == namespace_of(before).insert(
            before.names()[i],
            portray(after.values()[i]@),
        ),
{
    NameMap::lemma_changed_value(before, after, i);
    assert(namespace_of(after) =~= namespace_of(before).insert(
        before.names()[i],
        portray(after.values()[i]@),
    ));
}

/// Mapping a new name to a history adds the timeline of that name, and
/// changes no other.
pub proof fn lemma_namespace_insert<T: Entity>(
    before: NameMap<History<T>>,
    after: NameMap<History<T>>,
    name: Seq<u8>,
    h: History<T>,
)
    requires
        registry_wf(before),
        after.wf(),
        after@ == before@.insert(name, h),
        h.wf(),
    ensures
        registry_wf(after),
        namespace_of(after) == namespace_of(before).insert(name, portray(h@)),
{
    assert(namespace_of(after) =~= namespace_of(before).insert(name, portray(h@)));
}

/// The geometry that an action brings to a pass.
pub fn extent_of(pass: Pass, geo: &Shape) -> (r: Result<Option<(Point, Point)>, Fault>)
    ensures
        r == extent_for(pass, *geo),
{
    match geo {
        Shape::Absent => Ok(None),
        Shape::Rect(rect) => match pass {
            Pass::Rects => Ok(Some((rect.ll, rect.ur))),
            Pass::Lines => Err(Fault::WrongGeometry),
        },
        Shape::Line(line) => match pass {
            Pass::Lines => Ok(Some((line.ll, line.ur))),
            Pass::Rects => Err(Fault::WrongGeometry),
        },
    }
}

/// Applies one action to the histories of one kind of entity, at version
/// `v`, in a store whose colors come from a gradient, if `graded`, or are
/// given outright. The color of the action is taken as it stands. An action
/// that is refused changes nothing.
pub fn edit_namespace<T: Entity>(
    ns: &mut NameMap<History<T>>,
    v: VersionId,
    graded: bool,
    action: &Action,
) -> (r: Result<(), Fault>)
    requires
        registry_wf(*old(ns)),
    ensures
        registry_wf(*final(ns)),
        match edit_under(graded, namespace_of(*old(ns)), v, T::pass(), action@) {
            Ok(after) => r is Ok && namespace_of(*final(ns)) == after,
            Err(f) => r == Err::<(), Fault>(f) && *final(ns) == *old(ns),
        },
{
    let ghost before = *ns;
    let ghost name = content(action.name);
    let pass = T::of_pass();
    match action.action {
        ActionKind::Add => {
            let geo = match extent_of(pass, &action.geo) {
                Err(f) => {
                    return Err(f);
                },
                Ok(None) => {
                    return Err(Fault::MissingGeometry);
                },
                Ok(Some(g)) => g,
            };
            match ns.locate(as_slice(&action.name)) {
                Ok(i) => {
                    proof {
                        before.lemma_entry(i as int);
                        lemma_portray_at_or_before(before.values()[i as int]@, v);
                    }
                    if ns.value_at(i).latest(v).is_some() {
                        return Err(Fault::AlreadyLive);
                    }
                    if graded && action.gradient.is_none() {
                        return Err(Fault::MissingScalar);
                    }
                    let info = T::compose(
                        share(&action.name),
                        geo,
                        action.color,
                        share_opt(&action.desc),
                    );
                    let h = ns.value_at_mut(i);
                    let _ = h.update(v, info);
                    proof {
                        lemma_portray_record(before.values()[i as int]@, v, Some(info));
                        lemma_namespace_update(before, *ns, i as int);
                    }
                    Ok(())
                },
                Err(_) => {
                    if graded && action.gradient.is_none() {
                        return Err(Fault::MissingScalar);
                    }
                    let info = T::compose(
                        share(&action.name),
                        geo,
                        action.color,
                        share_opt(&action.desc),
                    );
                    let h = History::new(v, info);
                    let _ = ns.insert(share(&action.name), h);
                    proof {
                        assert(portray(h@) =~= seq![(v, Some(info@))]);
                        lemma_namespace_insert(before, *ns, name, h);
                    }
                    Ok(())
                },
            }
        },
        ActionKind::Modify => {
            let geo = match extent_of(pass, &action.geo) {
                Err(f) => {
                    return Err(f);
                },
                Ok(g) => g,
            };
            let i = match ns.locate(as_slice(&action.name)) {
                Err(_) => {
                    return Err(Fault::NotLive);
                },
                Ok(i) => i,
            };
            proof {
                before.lemma_entry(i as int);
                lemma_portray_at_or_before(before.values()[i as int]@, v);
            }
            let next = match ns.value_at(i).latest(v) {
                None => {
                    return Err(Fault::NotLive);
                },
                Some(cur) => {
                    let new_geo = match geo {
                        Some(g) => g,
                        None => cur.extent(),
                    };
                    let new_color = match action.color {
                        Some(c) => Some(c),
                        None => cur.tint(),
                    };
                    let same_desc = match &action.desc {
                        Some(d) => match cur.note() {
                            Some(e) => same_bytes(d, e),
                            None => false,
                        },
                        None => true,
                    };
                    let same_geo = new_geo.0 == cur.extent().0 && new_geo.1 == cur.extent().1;
                    let same_color = new_color == cur.tint();
                    if same_geo && same_color && same_desc {
                        return Ok(());
                    }
                    let new_desc = match &action.desc {
                        Some(d) => Some(share(d)),
                        None => share_opt(cur.note()),
                    };
                    T::compose(share(cur.label()), new_geo, new_color, new_desc)
                },
            };
            let h = ns.value_at_mut(i);
            let _ = h.update(v, next);
            proof {
                lemma_portray_record(before.values()[i as int]@, v, Some(next));
                lemma_namespace_update(before, *ns, i as int);
            }
            Ok(())
        },
        ActionKind::Delete => {
            let bare = match action.geo {
                Shape::Absent => true,
                _ => false,
            };
            if !bare || action.desc.is_some() || action.color.is_some() {
                return Err(Fault::DeletePayload);
            }
            let i = match ns.locate(as_slice(&action.name)) {
                Err(_) => {
                    return Err(Fault::NoTimeline);
                },
                Ok(i) => i,
            };
            proof {
                before.lemma_entry(i as int);
            }
            let h = ns.value_at_mut(i);
            h.del(v);
            proof {
                lemma_portray_record(before.values()[i as int]@, v, None);
                lemma_namespace_update(before, *ns, i as int);
            }
            Ok(())
        },
    }
}

/// An action that a commit was stopped by: where it stands in the commit,
/// what it is, and why it was refused.
#[derive(Debug)]
pub struct StoreError {
    pub pass: Pass,
    pub index: usize,
    pub kind: ActionKind,
    pub name: Bytes,
    pub version: VersionId,
    pub fault: Fault,
}

impl StoreError {
    /// The place and the reason, as plain data.
    pub open spec fn site(&self) -> FaultAt {
        FaultAt { pass: self.pass, index: self.index as int, fault: self.fault }
    }

    /// Whether this error reports the action at its index among `actions`,
    /// refused at version `v`.
    pub open spec fn reports(&self, actions: Seq<ActionView>, v: VersionId) -> bool {
        &&& self.index < actions.len()
        &&& self.kind == actions[self.index as int].kind
        &&& content(self.name) == actions[self.index as int].name
        &&& self.version == v
    }
}

/// Applies `actions` in order to the histories of one kind of entity, all at
/// version `v`, and stops at the first that is refused.
pub fn run_pass<T: Entity>(
    ns: &mut NameMap<History<T>>,
    v: VersionId,
    graded: bool,
    actions: &Vec<Action>,
) -> (r: Result<(), StoreError>)
    requires
        registry_wf(*old(ns)),
        namespace_wf(namespace_of(*old(ns)), v),
    ensures
        registry_wf(*final(ns)),
        namespace_wf(namespace_of(*final(ns)), v),
        namespace_of(*final(ns)) == progress(
            graded,
            namespace_of(*old(ns)),
            v,
            T::pass(),
            action_views(actions@),
            actions@.len(),
        ).ns,
        match r {
            Ok(()) => progress(
            graded,
            namespace_of(*old(ns)),
                v,
                T::pass(),
                action_views(actions@),
                actions@.len(),
            ).fault is None,
            Err(e) => {
                &&& progress(
            graded,
            namespace_of(*old(ns)),
                    v,
                    T::pass(),
                    action_views(actions@),
                    actions@.len(),
                ).fault == Some((e.index as int, e.fault))
                &&& e.pass == T::pass()
                &&& e.reports(action_views(actions@), v)
            },
        },
{
    let ghost start = namespace_of(*ns);
    let ghost views = action_views(actions@);
    let mut i: usize = 0;
    while i < actions.len()
        invariant
            i <= actions.len(),
            views == action_views(actions@),
            start == namespace_of(*old(ns)),
            registry_wf(*ns),
            namespace_wf(namespace_of(*ns), v),
            progress(graded, start, v, T::pass(), views, i as nat).fault is None,
            progress(graded, start, v, T::pass(), views, i as nat).ns == namespace_of(*ns),
        decreases actions.len() - i,
    {
        let ghost here = namespace_of(*ns);
        proof {
            lemma_edit_wf(here, v, T::pass(), views[i as int]);
            assert(views[i as int] == actions@[i as int]@);
        }
        match edit_namespace(ns, v, graded, &actions[i]) {
            Ok(()) => {},
            Err(fault) => {
                proof {
                    assert(progress(graded, start, v, T::pass(), views, (i + 1) as nat) == (
                        crate::db::model::Progress { ns: here, fault: Some((i as int, fault)) }));
                    lemma_progress_stops(
                        graded,
                        start,
                        v,
                        T::pass(),
                        views,
                        (i + 1) as nat,
                        actions@.len(),
                    );
                }
                return Err(
                    StoreError {
                        pass: T::of_pass(),
                        index: i,
                        kind: actions[i].action,
                        name: share(&actions[i].name),
                        version: v,
                        fault,
                    },
                );
            },
        }
        i += 1;
    }
    Ok(())
}

/// How colors are found for the entities of a store.
pub struct Config<G> {
    pub color: ColorType<G>,
}

/// The versioned store: for every rectangle and every line that was ever
/// named, what it was at each version.
pub struct Db<G> {
    pub version: VersionId,
    pub rects: NameMap<History<RectInfo>>,
    pub lines: NameMap<History<LineInfo>>,
    pub config: Config<G>,
}

/// The entities of a store that are live at one version.
pub struct SlicedDb {
    pub version: VersionId,
    pub rects: NameMap<RectInfo>,
    pub lines: NameMap<LineInfo>,
}

/// A slice as plain data.
pub ghost struct SliceView {
    pub version: VersionId,
    pub rects: Map<Seq<u8>, EntityView>,
    pub lines: Map<Seq<u8>, EntityView>,
}

impl View for SlicedDb {
    type V = SliceView;

    open spec fn view(&self) -> SliceView {
        SliceView {
            version: self.version,
            rects: sheet_of(self.rects),
            lines: sheet_of(self.lines),
        }
    }
}

impl SlicedDb {
    /// Both maps keep their keys in order.
    pub open spec fn wf(&self) -> bool {
        &&& self.rects.wf()
        &&& self.lines.wf()
    }
}

impl<G> View for Db<G> {
    type V = StoreView;

    open spec fn view(&self) -> StoreView {
        StoreView {
            version: self.version,
            rects: namespace_of(self.rects),
            lines: namespace_of(self.lines),
            graded: self.config.color is Gradient,
        }
    }
}

/// The entities of one kind that are live at `v`, by name.
pub fn slice_namespace<T: Entity>(ns: &NameMap<History<T>>, v: VersionId) -> (r: NameMap<T>)
    requires
        registry_wf(*ns),
    ensures
        r.wf(),
        sheet_of(r) == snapshot(namespace_of(*ns), v),
{
    let ghost full = snapshot(namespace_of(*ns), v);
    let mut out: NameMap<T> = NameMap::new();
    let mut i: usize = 0;
    assert(sheet_of(out) =~= Map::<Seq<u8>, EntityView>::empty());
    while i < ns.len()
        invariant
            i <= ns.names().len(),
            registry_wf(*ns),
            out.wf(),
            full == snapshot(namespace_of(*ns), v),
            forall|k: Seq<u8>| #[trigger]
                sheet_of(out).contains_key(k) ==> full.contains_key(k) && sheet_of(out)[k]
                    == full[k],
            forall|j: int|
                0 <= j < i && full.contains_key(#[trigger] ns.names()[j]) ==> sheet_of(
                    out,
                ).contains_key(ns.names()[j]),
        decreases ns.names().len() - i,
    {
        let ghost name = ns.names()[i as int];
        let ghost was = out;
        proof {
            ns.lemma_entry(i as int);
            lemma_portray_at_or_before(ns.values()[i as int]@, v);
        }
        proof {
            assert(namespace_of(*ns).contains_key(name));
            assert(namespace_of(*ns)[name] == portray(ns.values()[i as int]@));
        }
        match ns.value_at(i).latest(v) {
            Some(info) => {
                let copy = info.duplicate();
                let _ = out.insert(share(ns.key_at(i)), copy);
                proof {
                    assert(full.contains_key(name));
                    assert(full[name] == copy@);
                    assert(sheet_of(out) =~= sheet_of(was).insert(name, copy@));
                }
            },
            None => {
                assert(!full.contains_key(name));
            },
        }
        i += 1;
    }
    proof {
        assert forall|k: Seq<u8>| full.contains_key(k) implies sheet_of(out).contains_key(k) by {
            assert(namespace_of(*ns).contains_key(k));
            assert(ns@.contains_key(k));
            ns.lemma_place(k);
            let j = ns.names().index_of(k);
            assert(ns.names()[j] == k);
        }
        assert(sheet_of(out) =~= full);
    }
    out
}

impl<G: Fn(Position) -> Color> Db<G> {
    /// The histories are kept in order, nothing is recorded after the
    /// current version, and the color policy is in order.
    pub open spec fn wf(&self) -> bool {
        &&& registry_wf(self.rects)
        &&& registry_wf(self.lines)
        &&& store_wf(self@)
        &&& self.config.color.wf()
    }

    /// An empty store at the genesis version.
    pub fn new(cfg: Config<G>) -> (r: Self)
        requires
            cfg.color.wf(),
        ensures
            r.wf(),
            r@ == genesis_store(cfg.color is Gradient),
            r.config == cfg,
    {
        let r = Self {
            rects: NameMap::new(),
            lines: NameMap::new(),
            version: VersionId::genesis(),
            config: cfg,
        };
        proof {
            assert(r@.rects =~= Map::<Seq<u8>, Timeline>::empty());
            assert(r@.lines =~= Map::<Seq<u8>, Timeline>::empty());
        }
        r
    }

    /// The entities that are live at `v`, each as it is then.
    pub fn slice(&self, v: VersionId) -> (r: SlicedDb)
        requires
            self.wf(),
        ensures
            r.wf(),
            r@ == (SliceView {
                version: v,
                rects: snapshot(self@.rects, v),
                lines: snapshot(self@.lines, v),
            }),
    {
        let rects = slice_namespace(&self.rects, v);
        let lines = slice_namespace(&self.lines, v);
        SlicedDb { version: v, rects, lines }
    }

    /// Applies the actions on rectangles, in order, at the current version.
    /// The color of each action is taken as it stands.
    pub fn handle_rect_action(&mut self, rect_actions: Vec<Action>) -> (r: Result<(), StoreError>)
        requires
            old(self).wf(),
        ensures
            final(self).wf(),
            final(self).version == old(self).version,
            final(self).config == old(self).config,
            final(self)@.lines == old(self)@.lines,
            final(self)@.rects == progress(
                old(self)@.graded,
                old(self)@.rects,
                old(self).version,
                Pass::Rects,
                action_views(rect_actions@),
                rect_actions@.len(),
            ).ns,
            match r {
                Ok(()) => progress(
                old(self)@.graded,
                old(self)@.rects,
                    old(self).version,
                    Pass::Rects,
                    action_views(rect_actions@),
                    rect_actions@.len(),
                ).fault is None,
                Err(e) => {
                    &&& progress(
                old(self)@.graded,
                old(self)@.rects,
                        old(self).version,
                        Pass::Rects,
                        action_views(rect_actions@),
                        rect_actions@.len(),
                    ).fault == Some((e.index as int, e.fault))
                    &&& e.pass == Pass::Rects
                    &&& e.reports(action_views(rect_actions@), old(self).version)
                },
            },
    {
        run_pass(&mut self.rects, self.version, self.config.color.is_graded(), &rect_actions)
    }

    /// Applies a commit whose colors are final: the color of each action is
    /// taken as it stands. The version advances by one, then the actions on
    /// rectangles apply in order, then those on lines. The first action
    /// that is refused ends the commit and is reported; what went through
    /// before it stays. Where the colors of the store come from a gradient,
    /// an add has to bear the scalar that its color came from.
    pub fn apply(&mut self, commit: Commit) -> (r: Result<(), StoreError>)
        requires
            old(self).wf(),
            old(self).version.0 < u32::MAX,
        ensures
            final(self).wf(),
            final(self).config == old(self).config,
            final(self)@ == commit_outcome(old(self)@, commit@).0,
            match r {
                Ok(()) => commit_outcome(old(self)@, commit@).1 is None,
                Err(e) => {
                    &&& commit_outcome(old(self)@, commit@).1 == Some(e.site())
                    &&& e.reports(
                        if e.pass is Rects {
                            commit@.rect_actions
                        } else {
                            commit@.line_actions
                        },
                        final(self).version,
                    )
                },
            },
    {
        proof {
            lemma_namespace_wf_later(self@.rects, self.version, next_version(self.version));
            lemma_namespace_wf_later(self@.lines, self.version, next_version(self.version));
        }
        self.version = self.version.incr();
        let Commit { rect_actions, line_actions } = commit;
        match self.handle_rect_action(rect_actions) {
            Err(e) => Err(e),
            Ok(()) => handle_line_action(self, line_actions),
        }
    }
}

/// Applies the actions on lines, in order, at the current version of `db`.
/// The color of each action is taken as it stands.
pub fn handle_line_action<G: Fn(Position) -> Color>(
    db: &mut Db<G>,
    line_actions: Vec<Action>,
) -> (r: Result<(), StoreError>)
    requires
        old(db).wf(),
    ensures
        final(db).wf(),
        final(db).version == old(db).version,
        final(db).config == old(db).config,
        final(db)@.rects == old(db)@.rects,
        final(db)@.lines == progress(
            old(db)@.graded,
            old(db)@.lines,
            old(db).version,
            Pass::Lines,
            action_views(line_actions@),
            line_actions@.len(),
        ).ns,
        match r {
            Ok(()) => progress(
            old(db)@.graded,
            old(db)@.lines,
                old(db).version,
                Pass::Lines,
                action_views(line_actions@),
                line_actions@.len(),
            ).fault is None,
            Err(e) => {
                &&& progress(
            old(db)@.graded,
            old(db)@.lines,
                    old(db).version,
                    Pass::Lines,
                    action_views(line_actions@),
                    line_actions@.len(),
                ).fault == Some((e.index as int, e.fault))
                &&& e.pass == Pass::Lines
                &&& e.reports(action_views(line_actions@), old(db).version)
            },
        },
{
    run_pass(&mut db.lines, db.version, db.config.color.is_graded(), &line_actions)
}

} // verus!
