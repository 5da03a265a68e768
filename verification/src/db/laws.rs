//! What holds of the store across versions.

use super::history::{at_or_before, record, recorded};
use super::model::{
    commit_outcome, edit, extent_for, genesis_store, lemma_edit_wf, lemma_live_name,
    lemma_namespace_wf_later,
    live_at, merged, namespace_wf, next_version, progress, snapshot, store_wf, timeline_wf,
    written, EntityView, Namespace, Pass, StoreView,
};
use super::version_controller::{ActionKind, ActionView, CommitView, VersionId};
use vstd::prelude::*;

verus! {

/// Recording at `t` does not change what a timeline says of an earlier
/// time.
pub proof fn lemma_record_earlier<E>(
    s: Seq<(VersionId, Option<E>)>,
    t: VersionId,
    value: Option<E>,
    earlier: VersionId,
)
    requires
        earlier.0 < t.0,
    ensures
        at_or_before(record(s, t, value), earlier) == at_or_before(s, earlier),
    decreases s.len(),
{
    if s.len() == 0 {
        assert(record(s, t, value).drop_last() =~= s);
    } else if s.last().0.0 < t.0 {
        assert(record(s, t, value).drop_last() =~= s);
    } else if s.last().0.0 == t.0 {
        assert(record(s, t, value).drop_last() =~= s.drop_last());
    } else {
        lemma_record_earlier(s.drop_last(), t, value, earlier);
        assert(record(s, t, value).drop_last() =~= record(s.drop_last(), t, value));
    }
}

/// Where nothing is recorded after `t`, what is recorded at `t` is what the
/// timeline says of `t` and of every later time.
pub proof fn lemma_record_top<E>(
    s: Seq<(VersionId, Option<E>)>,
    t: VersionId,
    value: Option<E>,
    later: VersionId,
)
    requires
        forall|i: int| 0 <= i < s.len() ==> (#[trigger] s[i]).0.0 <= t.0,
        t.0 <= later.0,
    ensures
        at_or_before(record(s, t, value), later) == value,
{
    if s.len() > 0 {
        assert(s.last() == s[s.len() - 1]);
    }
}

/// Where nothing is recorded after `t`, a timeline says of every later time
/// what it says of `t`.
pub proof fn lemma_at_or_before_later<E>(
    s: Seq<(VersionId, Option<E>)>,
    t: VersionId,
    later: VersionId,
)
    requires
        forall|i: int| 0 <= i < s.len() ==> (#[trigger] s[i]).0.0 <= t.0,
        t.0 <= later.0,
    ensures
        at_or_before(s, later) == at_or_before(s, t),
{
    if s.len() > 0 {
        assert(s.last() == s[s.len() - 1]);
    }
}

/// Recording at `t` adds `t` to the recorded versions, and nothing else.
pub proof fn lemma_recorded_record<E>(
    s: Seq<(VersionId, Option<E>)>,
    t: VersionId,
    value: Option<E>,
)
    ensures
        recorded(record(s, t, value)) == recorded(s).insert(t),
    decreases s.len(),
{
    let r = record(s, t, value);
    if s.len() == 0 {
        assert(r[0].0 == t);
        assert forall|v: VersionId| recorded(r).contains(v) <==> recorded(s).insert(t).contains(
            v,
        ) by {}
    } else if s.last().0.0 < t.0 {
        assert forall|v: VersionId| recorded(r).contains(v) <==> recorded(s).insert(t).contains(
            v,
        ) by {
            if recorded(r).contains(v) {
                let i = choose|i: int| 0 <= i < r.len() && (#[trigger] r[i]).0 == v;
                if i < s.len() {
                    assert(s[i].0 == v);
                }
            }
            if v == t {
                assert(r[s.len() as int].0 == t);
            } else if recorded(s).contains(v) {
                let i = choose|i: int| 0 <= i < s.len() && (#[trigger] s[i]).0 == v;
                assert(r[i].0 == v);
            }
        }
    } else if s.last().0.0 == t.0 {
        assert forall|v: VersionId| recorded(r).contains(v) <==> recorded(s).insert(t).contains(
            v,
        ) by {
            if recorded(r).contains(v) {
                let i = choose|i: int| 0 <= i < r.len() && (#[trigger] r[i]).0 == v;
                if i < s.len() - 1 {
                    assert(s[i].0 == v);
                }
            }
            if v == t {
                assert(r[s.len() - 1].0 == t);
            } else if recorded(s).contains(v) {
                let i = choose|i: int| 0 <= i < s.len() && (#[trigger] s[i]).0 == v;
                assert(s.last() == s[s.len() - 1]);
                assert(r[i].0 == v);
            }
        }
    } else {
        let d = s.drop_last();
        let rd = record(d, t, value);
        lemma_recorded_record(d, t, value);
        assert forall|v: VersionId| recorded(r).contains(v) <==> recorded(s).insert(t).contains(
            v,
        ) by {
            if recorded(r).contains(v) {
                let i = choose|i: int| 0 <= i < r.len() && (#[trigger] r[i]).0 == v;
                if i < rd.len() {
                    assert(rd[i].0 == v);
                    assert(recorded(rd).contains(v));
                    if v != t {
                        assert(recorded(d).contains(v));
                        let j = choose|j: int| 0 <= j < d.len() && (#[trigger] d[j]).0 == v;
                        assert(s[j].0 == v);
                    }
                } else {
                    assert(s[s.len() - 1].0 == v);
                }
            }
            if v == t {
                assert(recorded(rd).contains(t));
                let i = choose|i: int| 0 <= i < rd.len() && (#[trigger] rd[i]).0 == t;
                assert(r[i].0 == t);
            } else if recorded(s).contains(v) {
                let i = choose|i: int| 0 <= i < s.len() && (#[trigger] s[i]).0 == v;
                if i < d.len() {
                    assert(d[i].0 == v);
                    assert(recorded(d).contains(v));
                    assert(recorded(rd).contains(v));
                    let j = choose|j: int| 0 <= j < rd.len() && (#[trigger] rd[j]).0 == v;
                    assert(r[j].0 == v);
                } else {
                    assert(r[r.len() - 1].0 == v);
                }
            }
        }
    }
    assert(recorded(r) =~= recorded(s).insert(t));
}

/// Whether an action that goes through records anything: an add and a
/// delete always do, a modify only where a supplied field differs from the
/// current one.
pub open spec fn touches(ns: Namespace, v: VersionId, pass: Pass, a: ActionView) -> bool {
    match a.kind {
        ActionKind::Modify => merged(
            live_at(ns, a.name, v).unwrap(),
            extent_for(pass, a.geo).unwrap(),
            a.color,
            a.desc,
        ) != live_at(ns, a.name, v).unwrap(),
        _ => true,
    }
}

/// The versions recorded for a name, none where the name has no timeline.
pub open spec fn versions_of(ns: Namespace, name: Seq<u8>) -> Set<VersionId> {
    if ns.contains_key(name) {
        recorded(ns[name])
    } else {
        Set::empty()
    }
}

/// The recorded versions of an entity are exactly those at which it was
/// added, deleted, or modified with a change: an action that goes through at
/// version `v` adds `v` to the versions of its name where it records
/// something, and changes the versions of no other name. The timelines stay
/// in rising order, with nothing after `v`, so that `v` is the last version
/// of the name it was recorded for.
pub proof fn law_versions_follow_actions(
    ns: Namespace,
    v: VersionId,
    pass: Pass,
    a: ActionView,
    name: Seq<u8>,
)
    requires
        namespace_wf(ns, v),
        edit(ns, v, pass, a) is Ok,
    ensures
        namespace_wf(edit(ns, v, pass, a).unwrap(), v),
        versions_of(edit(ns, v, pass, a).unwrap(), name) == if name == a.name && touches(
            ns,
            v,
            pass,
            a,
        ) {
            versions_of(ns, name).insert(v)
        } else {
            versions_of(ns, name)
        },
{
    lemma_edit_wf(ns, v, pass, a);
    let after = edit(ns, v, pass, a).unwrap();
    if name == a.name && touches(ns, v, pass, a) {
        if ns.contains_key(name) {
            let value = after[name][0].1;
            match a.kind {
                ActionKind::Add => {
                    let g = extent_for(pass, a.geo).unwrap().unwrap();
                    lemma_recorded_record(
                        ns[name],
                        v,
                        Some(EntityView { name: a.name, geo: g, color: a.color, desc: a.desc }),
                    );
                },
                ActionKind::Modify => {
                    let cur = live_at(ns, a.name, v).unwrap();
                    lemma_recorded_record(
                        ns[name],
                        v,
                        Some(merged(cur, extent_for(pass, a.geo).unwrap(), a.color, a.desc)),
                    );
                },
                ActionKind::Delete => {
                    lemma_recorded_record(ns[name], v, None);
                },
            }
        } else {
            assert(after[name][0].0 == v);
            assert(recorded(after[name]) =~= Set::<VersionId>::empty().insert(v));
        }
    }
}

/// Whether one of the first `k` actions of a pass records something for
/// `name`.
pub open spec fn pass_touches(
    graded: bool,
    ns: Namespace,
    v: VersionId,
    pass: Pass,
    actions: Seq<ActionView>,
    k: nat,
    name: Seq<u8>,
) -> bool
    decreases k,
{
    k > 0 && (pass_touches(graded, ns, v, pass, actions, (k - 1) as nat, name) || (actions[k
        - 1].name == name && touches(
        progress(graded, ns, v, pass, actions, (k - 1) as nat).ns,
        v,
        pass,
        actions[k - 1],
    )))
}

/// A pass that went through at version `v` adds `v` to the recorded
/// versions of the names for which one of its actions recorded something,
/// and changes the versions of no other name.
pub proof fn law_versions_follow_pass(
    graded: bool,
    ns: Namespace,
    v: VersionId,
    pass: Pass,
    actions: Seq<ActionView>,
    k: nat,
    name: Seq<u8>,
)
    requires
        namespace_wf(ns, v),
        progress(graded, ns, v, pass, actions, k).fault is None,
    ensures
        versions_of(progress(graded, ns, v, pass, actions, k).ns, name) == if pass_touches(
            graded,
            ns,
            v,
            pass,
            actions,
            k,
            name,
        ) {
            versions_of(ns, name).insert(v)
        } else {
            versions_of(ns, name)
        },
    decreases k,
{
    if k > 0 {
        let before = progress(graded, ns, v, pass, actions, (k - 1) as nat);
        law_versions_follow_pass(graded, ns, v, pass, actions, (k - 1) as nat, name);
        lemma_pass_wf(graded, ns, v, pass, actions, (k - 1) as nat);
        law_versions_follow_actions(before.ns, v, pass, actions[k - 1], name);
        assert(versions_of(ns, name).insert(v).insert(v) =~= versions_of(ns, name).insert(v));
    }
}

/// What an action that goes through and records something records: the
/// value that its name has from `v` on.
pub open spec fn recorded_value(ns: Namespace, v: VersionId, pass: Pass, a: ActionView) -> Option<
    EntityView,
> {
    match a.kind {
        ActionKind::Add => Some(
            EntityView {
                name: a.name,
                geo: extent_for(pass, a.geo).unwrap().unwrap(),
                color: a.color,
                desc: a.desc,
            },
        ),
        ActionKind::Modify => Some(
            merged(
                live_at(ns, a.name, v).unwrap(),
                extent_for(pass, a.geo).unwrap(),
                a.color,
                a.desc,
            ),
        ),
        ActionKind::Delete => None,
    }
}

/// An action that goes through either leaves the namespace as it was, or
/// records one value for its name.
pub proof fn lemma_edit_shape(ns: Namespace, v: VersionId, pass: Pass, a: ActionView)
    requires
        edit(ns, v, pass, a) is Ok,
    ensures
        edit(ns, v, pass, a).unwrap() == if touches(ns, v, pass, a) {
            written(ns, a.name, v, recorded_value(ns, v, pass, a))
        } else {
            ns
        },
{
}

/// Earlier versions are out of reach of later edits: an action that goes
/// through at version `v` leaves every slice at an earlier version as it
/// was.
pub proof fn law_edit_keeps_earlier_slices(
    ns: Namespace,
    v: VersionId,
    pass: Pass,
    a: ActionView,
    earlier: VersionId,
)
    requires
        earlier.0 < v.0,
        edit(ns, v, pass, a) is Ok,
    ensures
        snapshot(edit(ns, v, pass, a).unwrap(), earlier) == snapshot(ns, earlier),
{
    let after = edit(ns, v, pass, a).unwrap();
    lemma_edit_shape(ns, v, pass, a);
    if touches(ns, v, pass, a) {
        let value = recorded_value(ns, v, pass, a);
        assert forall|k: Seq<u8>| live_at(after, k, earlier) == live_at(ns, k, earlier) by {
            if k == a.name {
                if ns.contains_key(k) {
                    lemma_record_earlier(ns[k], v, value, earlier);
                } else {
                    assert(after[k] == seq![(v, value)]);
                    assert(after[k].last() == (v, value));
                    assert(after[k].drop_last() =~= Seq::<
                        (VersionId, Option<EntityView>),
                    >::empty());
                    assert(at_or_before(after[k].drop_last(), earlier) is None);
                    assert(at_or_before(after[k], earlier) is None);
                }
            } else {
                if ns.contains_key(k) {
                    assert(after[k] == ns[k]);
                }
            }
        }
        assert forall|k: Seq<u8>| snapshot(after, earlier).contains_key(k) <==> snapshot(
            ns,
            earlier,
        ).contains_key(k) by {
            assert(live_at(after, k, earlier) == live_at(ns, k, earlier));
        }
        assert forall|k: Seq<u8>| snapshot(after, earlier).contains_key(k) implies snapshot(
            after,
            earlier,
        )[k] == snapshot(ns, earlier)[k] by {
            assert(live_at(after, k, earlier) == live_at(ns, k, earlier));
        }
        assert(snapshot(after, earlier) =~= snapshot(ns, earlier));
    }
}

/// A pass at version `v` keeps a namespace as a store holds it, however far
/// it comes.
pub proof fn lemma_pass_wf(
    graded: bool,
    ns: Namespace,
    v: VersionId,
    pass: Pass,
    actions: Seq<ActionView>,
    k: nat,
)
    requires
        namespace_wf(ns, v),
    ensures
        namespace_wf(progress(graded, ns, v, pass, actions, k).ns, v),
    decreases k,
{
    if k > 0 {
        lemma_pass_wf(graded, ns, v, pass, actions, (k - 1) as nat);
        let before = progress(graded, ns, v, pass, actions, (k - 1) as nat);
        if before.fault is None {
            lemma_edit_wf(before.ns, v, pass, actions[k - 1]);
        }
    }
}

/// Snapshots are isolated from later commits: whatever a commit does, and
/// whether it goes through or stops, the slice at any version that the
/// store had reached before is the same after the commit as before it.
pub proof fn law_snapshot_isolation(s: StoreView, c: CommitView, earlier: VersionId)
    requires
        store_wf(s),
        s.version.0 < u32::MAX,
        earlier.0 <= s.version.0,
    ensures
        snapshot(commit_outcome(s, c).0.rects, earlier) == snapshot(s.rects, earlier),
        snapshot(commit_outcome(s, c).0.lines, earlier) == snapshot(s.lines, earlier),
        store_wf(commit_outcome(s, c).0),
{
    let graded = s.graded;
    let v = next_version(s.version);
    lemma_namespace_wf_later(s.rects, s.version, v);
    lemma_namespace_wf_later(s.lines, s.version, v);
    lemma_pass_wf(graded, s.rects, v, Pass::Rects, c.rect_actions, c.rect_actions.len());
    lemma_pass_wf(graded, s.lines, v, Pass::Lines, c.line_actions, c.line_actions.len());
    lemma_pass_keeps_earlier(
        graded,
        s.rects,
        v,
        Pass::Rects,
        c.rect_actions,
        c.rect_actions.len(),
        earlier,
    );
    lemma_pass_keeps_earlier(
        graded,
        s.lines,
        v,
        Pass::Lines,
        c.line_actions,
        c.line_actions.len(),
        earlier,
    );
}

/// A pass at version `v` leaves every slice at an earlier version as it was.
pub proof fn lemma_pass_keeps_earlier(
    graded: bool,
    ns: Namespace,
    v: VersionId,
    pass: Pass,
    actions: Seq<ActionView>,
    k: nat,
    earlier: VersionId,
)
    requires
        earlier.0 < v.0,
    ensures
        snapshot(progress(graded, ns, v, pass, actions, k).ns, earlier) == snapshot(ns, earlier),
    decreases k,
{
    if k > 0 {
        lemma_pass_keeps_earlier(graded, ns, v, pass, actions, (k - 1) as nat, earlier);
        let before = progress(graded, ns, v, pass, actions, (k - 1) as nat);
        if before.fault is None {
            if edit(before.ns, v, pass, actions[k - 1]) is Ok {
                law_edit_keeps_earlier_slices(before.ns, v, pass, actions[k - 1], earlier);
            }
        }
    }
}

/// Every entity in a slice bears the name under which the slice holds it.
pub proof fn law_slice_bears_names(ns: Namespace, version: VersionId, v: VersionId, name: Seq<u8>)
    requires
        namespace_wf(ns, version),
        snapshot(ns, v).contains_key(name),
    ensures
        snapshot(ns, v)[name].name == name,
{
    lemma_live_name(ns, name, version, v);
}

/// Only an add starts a timeline: a name that has none before an action
/// went through and has one after it is the name of that action, which is
/// an add, and the timeline starts with the entity that was added.
pub proof fn law_only_add_starts_timeline(
    ns: Namespace,
    v: VersionId,
    pass: Pass,
    a: ActionView,
    name: Seq<u8>,
)
    requires
        edit(ns, v, pass, a) is Ok,
        !ns.contains_key(name),
        edit(ns, v, pass, a).unwrap().contains_key(name),
    ensures
        a.kind is Add,
        name == a.name,
        edit(ns, v, pass, a).unwrap()[name] == seq![(v, recorded_value(ns, v, pass, a))],
        recorded_value(ns, v, pass, a) is Some,
{
}

/// Whether every field that a modify supplies equals the current one.
pub open spec fn changes_nothing(cur: EntityView, pass: Pass, a: ActionView) -> bool {
    &&& extent_for(pass, a.geo) matches Ok(geo)
    &&& (geo matches Some(g) ==> g == cur.geo)
    &&& (a.color matches Some(c) ==> cur.color == Some(c))
    &&& (a.desc matches Some(d) ==> cur.desc == Some(d))
}

/// A modify that changes nothing records nothing: where every field that it
/// supplies equals the current one, the namespace stays exactly as it was.
pub proof fn law_idle_modify_records_nothing(ns: Namespace, v: VersionId, pass: Pass, a: ActionView)
    requires
        a.kind is Modify,
        live_at(ns, a.name, v) is Some,
        changes_nothing(live_at(ns, a.name, v).unwrap(), pass, a),
    ensures
        edit(ns, v, pass, a) == Ok::<Namespace, super::model::Fault>(ns),
        !touches(ns, v, pass, a),
{
}

/// A commit that holds nothing but a modify that changes nothing still uses
/// up a version: the version advances by one, and all timelines stay as they
/// were.
pub proof fn law_idle_modify_advances_version(s: StoreView, a: ActionView)
    requires
        a.kind is Modify,
        live_at(s.rects, a.name, next_version(s.version)) is Some,
        changes_nothing(
            live_at(s.rects, a.name, next_version(s.version)).unwrap(),
            Pass::Rects,
            a,
        ),
    ensures
        commit_outcome(s, CommitView { rect_actions: seq![a], line_actions: Seq::empty() }) == (
            StoreView { version: next_version(s.version), ..s },
            None::<super::model::FaultAt>,
        ),
{
    let graded = s.graded;
    let c = CommitView { rect_actions: seq![a], line_actions: Seq::empty() };
    let v = next_version(s.version);
    law_idle_modify_records_nothing(s.rects, v, Pass::Rects, a);
    reveal_with_fuel(progress, 2);
    assert(progress(graded, s.rects, v, Pass::Rects, c.rect_actions, 0).ns == s.rects);
    assert(c.rect_actions[0] == a);
    assert(progress(graded, s.rects, v, Pass::Rects, c.rect_actions, 1).ns == s.rects);
}

/// A deleted entity is in no slice from the version of its deletion on:
/// right after a delete went through at version `v`, the name is absent from
/// the slice at `v` and at every later version.
pub proof fn law_tombstone_excludes(
    ns: Namespace,
    v: VersionId,
    pass: Pass,
    a: ActionView,
    later: VersionId,
)
    requires
        namespace_wf(ns, v),
        a.kind is Delete,
        edit(ns, v, pass, a) is Ok,
        v.0 <= later.0,
    ensures
        !snapshot(edit(ns, v, pass, a).unwrap(), later).contains_key(a.name),
{
    lemma_record_top(ns[a.name], v, None, later);
}

/// A delete takes nothing from the past: after a delete went through at
/// version `v`, every slice at an earlier version is as it was, so that the
/// entity is still in those in which it was before.
pub proof fn law_tombstone_keeps_past(
    ns: Namespace,
    v: VersionId,
    pass: Pass,
    a: ActionView,
    earlier: VersionId,
)
    requires
        a.kind is Delete,
        edit(ns, v, pass, a) is Ok,
        earlier.0 < v.0,
    ensures
        snapshot(edit(ns, v, pass, a).unwrap(), earlier) == snapshot(ns, earlier),
{
    law_edit_keeps_earlier_slices(ns, v, pass, a, earlier);
}

/// The live entities of one kind, by name, without any history.
pub type Sheet = Map<Seq<u8>, EntityView>;

/// What an action that goes through does to the live entities, where no
/// history is kept: an add puts the new entity under its name, a modify
/// puts the supplied fields in place of the current ones, a delete takes the
/// name away.
pub open spec fn flat_edit(sheet: Sheet, pass: Pass, a: ActionView) -> Sheet {
    match a.kind {
        ActionKind::Add => sheet.insert(
            a.name,
            EntityView {
                name: a.name,
                geo: extent_for(pass, a.geo).unwrap().unwrap(),
                color: a.color,
                desc: a.desc,
            },
        ),
        ActionKind::Modify => sheet.insert(
            a.name,
            merged(sheet[a.name], extent_for(pass, a.geo).unwrap(), a.color, a.desc),
        ),
        ActionKind::Delete => sheet.remove(a.name),
    }
}

/// The live entities after the first `k` actions, applied one by one where
/// no history is kept.
pub open spec fn flat_run(sheet: Sheet, pass: Pass, actions: Seq<ActionView>, k: nat) -> Sheet
    decreases k,
{
    if k == 0 {
        sheet
    } else {
        flat_edit(flat_run(sheet, pass, actions, (k - 1) as nat), pass, actions[k - 1])
    }
}

/// The slice at the version of an edit shows what the edit did: after an
/// action went through at version `v`, the slice at `v` is the slice before
/// it with the action applied as if no history were kept.
pub proof fn law_edit_matches_replay(ns: Namespace, v: VersionId, pass: Pass, a: ActionView)
    requires
        namespace_wf(ns, v),
        edit(ns, v, pass, a) is Ok,
    ensures
        snapshot(edit(ns, v, pass, a).unwrap(), v) == flat_edit(snapshot(ns, v), pass, a),
{
    let after = edit(ns, v, pass, a).unwrap();
    let sheet = snapshot(ns, v);
    lemma_edit_shape(ns, v, pass, a);
    if touches(ns, v, pass, a) {
        let value = recorded_value(ns, v, pass, a);
        if ns.contains_key(a.name) {
            lemma_record_top(ns[a.name], v, value, v);
        } else {
            assert(after[a.name] == seq![(v, value)]);
            assert(after[a.name].last() == (v, value));
        }
        assert(live_at(after, a.name, v) == value);
        assert forall|k: Seq<u8>| k != a.name implies live_at(after, k, v) == live_at(ns, k, v) by {
            if ns.contains_key(k) {
                assert(after[k] == ns[k]);
            }
        }
        assert forall|k: Seq<u8>| snapshot(after, v).contains_key(k) <==> flat_edit(
            sheet,
            pass,
            a,
        ).contains_key(k) by {
            if k != a.name {
                assert(live_at(after, k, v) == live_at(ns, k, v));
            }
        }
        assert forall|k: Seq<u8>| snapshot(after, v).contains_key(k) implies snapshot(after, v)[k]
            == flat_edit(sheet, pass, a)[k] by {
            if k != a.name {
                assert(live_at(after, k, v) == live_at(ns, k, v));
            }
        }
        assert(snapshot(after, v) =~= flat_edit(sheet, pass, a));
    } else {
        assert(sheet.contains_key(a.name));
        assert(sheet =~= flat_edit(sheet, pass, a));
    }
}

/// A pass that went through leaves, at its version, the slice that its
/// actions give one by one where no history is kept.
pub proof fn law_pass_matches_replay(
    graded: bool,
    ns: Namespace,
    v: VersionId,
    pass: Pass,
    actions: Seq<ActionView>,
    k: nat,
)
    requires
        namespace_wf(ns, v),
        progress(graded, ns, v, pass, actions, k).fault is None,
    ensures
        snapshot(progress(graded, ns, v, pass, actions, k).ns, v) == flat_run(
            snapshot(ns, v),
            pass,
            actions,
            k,
        ),
    decreases k,
{
    if k > 0 {
        let before = progress(graded, ns, v, pass, actions, (k - 1) as nat);
        law_pass_matches_replay(graded, ns, v, pass, actions, (k - 1) as nat);
        lemma_pass_wf(graded, ns, v, pass, actions, (k - 1) as nat);
        law_edit_matches_replay(before.ns, v, pass, actions[k - 1]);
    }
}

/// At a version after the last recorded one, a namespace shows what it
/// shows at the last.
pub proof fn lemma_snapshot_later(ns: Namespace, v: VersionId, later: VersionId)
    requires
        namespace_wf(ns, v),
        v.0 <= later.0,
    ensures
        snapshot(ns, later) == snapshot(ns, v),
{
    assert forall|k: Seq<u8>| ns.contains_key(k) implies at_or_before(ns[k], later)
        == at_or_before(ns[k], v) by {
        assert(timeline_wf(k, ns[k], v));
        lemma_at_or_before_later(ns[k], v, later);
    }
    assert(snapshot(ns, later) =~= snapshot(ns, v));
}

/// The slice at the newest version shows what the commit did: after a
/// commit went through, the slice at the new version is the slice at the
/// version before with the actions of the commit applied one by one, as if
/// no history were kept.
pub proof fn law_commit_matches_replay(s: StoreView, c: CommitView)
    requires
        store_wf(s),
        s.version.0 < u32::MAX,
        commit_outcome(s, c).1 is None,
    ensures
        commit_outcome(s, c).0.version == next_version(s.version),
        snapshot(commit_outcome(s, c).0.rects, next_version(s.version)) == flat_run(
            snapshot(s.rects, s.version),
            Pass::Rects,
            c.rect_actions,
            c.rect_actions.len(),
        ),
        snapshot(commit_outcome(s, c).0.lines, next_version(s.version)) == flat_run(
            snapshot(s.lines, s.version),
            Pass::Lines,
            c.line_actions,
            c.line_actions.len(),
        ),
{
    let graded = s.graded;
    let v = next_version(s.version);
    lemma_snapshot_later(s.rects, s.version, v);
    lemma_snapshot_later(s.lines, s.version, v);
    lemma_namespace_wf_later(s.rects, s.version, v);
    lemma_namespace_wf_later(s.lines, s.version, v);
    law_pass_matches_replay(graded, s.rects, v, Pass::Rects, c.rect_actions, c.rect_actions.len());
    law_pass_matches_replay(graded, s.lines, v, Pass::Lines, c.line_actions, c.line_actions.len());
}

/// The store after the first `k` of `commits`, applied in order from the
/// store before any commit.
pub open spec fn replay(graded: bool, commits: Seq<CommitView>, k: nat) -> StoreView
    decreases k,
{
    if k == 0 {
        genesis_store(graded)
    } else {
        commit_outcome(replay(graded, commits, (k - 1) as nat), commits[k - 1]).0
    }
}

/// Whether each of the first `k` of `commits` goes through.
pub open spec fn all_go_through(graded: bool, commits: Seq<CommitView>, k: nat) -> bool {
    forall|j: nat|
        j < k ==> (#[trigger] commit_outcome(
            replay(graded, commits, j),
            commits[j as int],
        )).1 is None
}

/// The live rectangles and lines after the first `k` of `commits`, their
/// actions applied one by one where no history is kept.
pub open spec fn flat_replay(commits: Seq<CommitView>, k: nat) -> (Sheet, Sheet)
    decreases k,
{
    if k == 0 {
        (Map::empty(), Map::empty())
    } else {
        let before = flat_replay(commits, (k - 1) as nat);
        (
            flat_run(
                before.0,
                Pass::Rects,
                commits[k - 1].rect_actions,
                commits[k - 1].rect_actions.len(),
            ),
            flat_run(
                before.1,
                Pass::Lines,
                commits[k - 1].line_actions,
                commits[k - 1].line_actions.len(),
            ),
        )
    }
}

/// Round trip: after `k` commits that all went through, the store is at
/// version `k`, and its slice at that version holds exactly the entities,
/// with exactly the fields, that the actions of those commits give when
/// they are replayed one by one.
pub proof fn law_round_trip(graded: bool, commits: Seq<CommitView>, k: nat)
    requires
        k <= commits.len(),
        k <= u32::MAX,
        all_go_through(graded, commits, k),
    ensures
        store_wf(replay(graded, commits, k)),
        replay(graded, commits, k).version == VersionId(k as u32),
        replay(graded, commits, k).graded == graded,
        snapshot(replay(graded, commits, k).rects, VersionId(k as u32)) == flat_replay(
            commits,
            k,
        ).0,
        snapshot(replay(graded, commits, k).lines, VersionId(k as u32)) == flat_replay(
            commits,
            k,
        ).1,
    decreases k,
{
    if k == 0 {
        assert(snapshot(genesis_store(graded).rects, VersionId(0)) =~= Map::<
            Seq<u8>,
            EntityView,
        >::empty());
        assert(snapshot(genesis_store(graded).lines, VersionId(0)) =~= Map::<
            Seq<u8>,
            EntityView,
        >::empty());
    } else {
        let j = (k - 1) as nat;
        assert forall|i: nat| i < j implies (#[trigger] commit_outcome(
            replay(graded, commits, i),
            commits[i as int],
        )).1 is None by {}
        law_round_trip(graded, commits, j);
        let before = replay(graded, commits, j);
        assert(commit_outcome(replay(graded, commits, j), commits[j as int]).1 is None);
        law_commit_matches_replay(before, commits[j as int]);
        law_snapshot_isolation(before, commits[j as int], before.version);
    }
}

/// The namespace of one kind of entity in a store.
pub open spec fn namespace_in(s: StoreView, pass: Pass) -> Namespace {
    if pass is Rects {
        s.rects
    } else {
        s.lines
    }
}

/// The actions of one pass of a commit.
pub open spec fn actions_in(c: CommitView, pass: Pass) -> Seq<ActionView> {
    if pass is Rects {
        c.rect_actions
    } else {
        c.line_actions
    }
}

/// The versions, among the first `k`, whose commit recorded something for
/// the entity of the given kind and name: those at which it was added,
/// deleted, or modified with a change.
pub open spec fn touched_versions(
    graded: bool,
    commits: Seq<CommitView>,
    k: nat,
    pass: Pass,
    name: Seq<u8>,
) -> Set<VersionId>
    decreases k,
{
    if k == 0 {
        Set::empty()
    } else {
        let before = touched_versions(graded, commits, (k - 1) as nat, pass, name);
        if pass_touches(
            graded,
            namespace_in(replay(graded, commits, (k - 1) as nat), pass),
            VersionId(k as u32),
            pass,
            actions_in(commits[k - 1], pass),
            actions_in(commits[k - 1], pass).len(),
            name,
        ) {
            before.insert(VersionId(k as u32))
        } else {
            before
        }
    }
}

/// Monotonic history: after `k` commits that all went through, the versions
/// recorded for an entity are exactly those at which it was added, deleted,
/// or modified with a change, and its timeline holds them in rising order.
pub proof fn law_versions_follow_replay(
    graded: bool,
    commits: Seq<CommitView>,
    k: nat,
    pass: Pass,
    name: Seq<u8>,
)
    requires
        k <= commits.len(),
        k <= u32::MAX,
        all_go_through(graded, commits, k),
    ensures
        versions_of(namespace_in(replay(graded, commits, k), pass), name) == touched_versions(
            graded,
            commits,
            k,
            pass,
            name,
        ),
        namespace_wf(namespace_in(replay(graded, commits, k), pass), VersionId(k as u32)),
    decreases k,
{
    law_round_trip(graded, commits, k);
    if k > 0 {
        let j = (k - 1) as nat;
        assert forall|i: nat| i < j implies (#[trigger] commit_outcome(
            replay(graded, commits, i),
            commits[i as int],
        )).1 is None by {}
        law_versions_follow_replay(graded, commits, j, pass, name);
        law_round_trip(graded, commits, j);
        let before = replay(graded, commits, j);
        let c = commits[j as int];
        let v = next_version(before.version);
        assert(commit_outcome(replay(graded, commits, j), commits[j as int]).1 is None);
        lemma_namespace_wf_later(before.rects, before.version, v);
        lemma_namespace_wf_later(before.lines, before.version, v);
        law_versions_follow_pass(graded, namespace_in(before, pass),
            v,
            pass,
            actions_in(c, pass),
            actions_in(c, pass).len(),
            name,
        );
    }
}

} // verus!
