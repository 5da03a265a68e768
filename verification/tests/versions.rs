use bytes::Bytes;
use geo_git::db::history::History;
use geo_git::db::model::{Fault, Pass};
use geo_git::db::names::NameMap;
use geo_git::db::paint::resolve;
use geo_git::db::store::{handle_line_action, Config, Db, LineInfo, RectInfo, SlicedDb};
use geo_git::db::version_controller::{Action, ActionKind, Commit, VersionId};
use geo_git::decimal::Decimal;
use geo_git::geo::color::{Color, ColorType, Position};
use geo_git::geo::line::Line;
use geo_git::geo::point::Point;
use geo_git::geo::rect::Rect;
use geo_git::geo::shape::Shape;

type Generator = fn(Position) -> Color;

fn store() -> Db<Generator> {
    Db::new(Config { color: ColorType::RGB })
}

fn thirds(p: Position) -> Color {
    Color { r: (p.num * 3 / p.den) as u8, g: 0, b: 0, a: 1 }
}

fn graded_store() -> Db<Generator> {
    Db::new(Config {
        color: ColorType::Gradient {
            generator: thirds,
            min: Decimal::from_integer(10),
            max: Decimal::from_integer(-20),
        },
    })
}

fn point(x: i64, y: i64) -> Point {
    Point { x: Decimal::from_integer(x), y: Decimal::from_integer(y) }
}

fn rect(n: i64) -> Shape {
    Shape::Rect(Rect { ll: point(0, 0), ur: point(n, n) })
}

fn line(n: i64) -> Shape {
    Shape::Line(Line { ll: point(0, 0), ur: point(n, n) })
}

fn red() -> Color {
    Color { r: 200, g: 0, b: 0, a: 0 }
}

fn action(kind: ActionKind, name: &'static str, geo: Shape, color: Option<Color>) -> Action {
    Action { action: kind, name: Bytes::from_static(name.as_bytes()), geo, desc: None, color, gradient: None }
}

fn add(name: &'static str, n: i64) -> Action {
    action(ActionKind::Add, name, rect(n), Some(red()))
}

fn del(name: &'static str) -> Action {
    action(ActionKind::Delete, name, Shape::Absent, None)
}

fn rects(actions: Vec<Action>) -> Commit {
    Commit::build(vec![], actions)
}

fn rect_names(s: &SlicedDb) -> Vec<Vec<u8>> {
    (0..s.rects.len()).map(|i| s.rects.key_at(i).to_vec()).collect()
}

fn rect_versions(db: &Db<Generator>, name: &[u8]) -> Vec<u32> {
    db.rects.get(name).map(|h| h.versions().iter().map(|v| v.0).collect()).unwrap_or_default()
}

fn same_rects(a: &SlicedDb, b: &SlicedDb) -> bool {
    a.version == b.version
        && a.rects.len() == b.rects.len()
        && (0..a.rects.len()).all(|i| {
            let (x, y) = (a.rects.value_at(i), b.rects.value_at(i));
            a.rects.key_at(i) == b.rects.key_at(i)
                && x.name == y.name
                && x.geo == y.geo
                && x.color == y.color
                && x.desc == y.desc
        })
}

#[test]
fn the_newest_slice_is_what_the_actions_give_one_by_one() {
    let mut db = store();
    db.create_version(rects(vec![add("b", 1), add("a", 2), add("c", 3)])).unwrap();
    db.create_version(rects(vec![
        del("b"),
        action(ActionKind::Modify, "a", rect(5), None),
        add("d", 4),
        add("b", 9),
        del("c"),
    ]))
    .unwrap();
    assert_eq!(db.version, VersionId(2));
    let s = db.slice(VersionId(2));
    assert_eq!(rect_names(&s), vec![b"a".to_vec(), b"b".to_vec(), b"d".to_vec()]);
    assert_eq!(s.rects.get(b"a").unwrap().geo, Rect { ll: point(0, 0), ur: point(5, 5) });
    assert_eq!(s.rects.get(b"a").unwrap().color, Some(red()));
    assert_eq!(s.rects.get(b"b").unwrap().geo, Rect { ll: point(0, 0), ur: point(9, 9) });
    assert_eq!(s.rects.get(b"d").unwrap().name, Bytes::from_static(b"d"));
    assert!(s.rects.get(b"c").is_none());
}

#[test]
fn recorded_versions_are_those_of_the_edits_that_changed_something() {
    let mut db = store();
    db.create_version(rects(vec![add("a", 1)])).unwrap();
    db.create_version(rects(vec![add("other", 1)])).unwrap();
    db.create_version(rects(vec![action(ActionKind::Modify, "a", rect(2), None)])).unwrap();
    db.create_version(rects(vec![action(ActionKind::Modify, "a", rect(2), Some(red()))])).unwrap();
    db.create_version(rects(vec![del("a")])).unwrap();
    db.create_version(rects(vec![])).unwrap();
    db.create_version(rects(vec![add("a", 7)])).unwrap();
    assert_eq!(rect_versions(&db, b"a"), vec![1, 3, 5, 7]);
    assert_eq!(rect_versions(&db, b"other"), vec![2]);
    assert_eq!(rect_versions(&db, b"none"), Vec::<u32>::new());
    assert_eq!(db.version, VersionId(7));
}

#[test]
fn an_old_slice_is_the_same_after_further_commits() {
    let mut db = store();
    db.create_version(rects(vec![add("a", 1), add("b", 1)])).unwrap();
    db.create_version(rects(vec![del("a")])).unwrap();
    let then_1 = db.slice(VersionId(1));
    let then_2 = db.slice(VersionId(2));
    db.create_version(rects(vec![add("a", 8), action(ActionKind::Modify, "b", rect(3), None), add("c", 2)]))
        .unwrap();
    assert!(db.create_version(rects(vec![del("b"), del("missing")])).is_err());
    db.create_version(rects(vec![del("c")])).unwrap();
    assert!(same_rects(&then_1, &db.slice(VersionId(1))));
    assert!(same_rects(&then_2, &db.slice(VersionId(2))));
    assert_eq!(rect_names(&then_1), vec![b"a".to_vec(), b"b".to_vec()]);
    assert_eq!(rect_names(&db.slice(VersionId(2))), vec![b"b".to_vec()]);
    assert_eq!(rect_names(&db.slice(VersionId(3))), vec![b"a".to_vec(), b"b".to_vec(), b"c".to_vec()]);
    assert_eq!(rect_names(&db.slice(VersionId(4))), vec![b"a".to_vec(), b"c".to_vec()]);
    assert_eq!(rect_names(&db.slice(VersionId(5))), vec![b"a".to_vec()]);
    assert_eq!(rect_names(&db.slice(VersionId(900))), vec![b"a".to_vec()]);
}

#[test]
fn a_modify_that_changes_nothing_writes_nothing_and_uses_a_version() {
    let mut db = store();
    let mut first = add("a", 1);
    first.desc = Some(Bytes::from_static(b"first"));
    db.create_version(rects(vec![first])).unwrap();
    let mut same = action(ActionKind::Modify, "a", rect(1), Some(red()));
    same.desc = Some(Bytes::from_static(b"first"));
    db.create_version(rects(vec![same])).unwrap();
    db.create_version(rects(vec![action(ActionKind::Modify, "a", Shape::Absent, None)])).unwrap();
    assert_eq!(db.version, VersionId(3));
    assert_eq!(rect_versions(&db, b"a"), vec![1]);
    let mut other = action(ActionKind::Modify, "a", Shape::Absent, None);
    other.desc = Some(Bytes::from_static(b"second"));
    db.create_version(rects(vec![other])).unwrap();
    assert_eq!(rect_versions(&db, b"a"), vec![1, 4]);
    let s = db.slice(VersionId(4));
    let a = s.rects.get(b"a").unwrap();
    assert_eq!(a.desc, Some(Bytes::from_static(b"second")));
    assert_eq!(a.color, Some(red()));
    assert_eq!(db.slice(VersionId(3)).rects.get(b"a").unwrap().desc, Some(Bytes::from_static(b"first")));
}

#[test]
fn a_deleted_entity_is_gone_from_then_on_and_stays_in_the_past() {
    let mut db = store();
    db.create_version(rects(vec![add("a", 1)])).unwrap();
    db.create_version(rects(vec![])).unwrap();
    db.create_version(rects(vec![del("a")])).unwrap();
    db.create_version(rects(vec![])).unwrap();
    for v in [3, 4, 5, 1000] {
        assert!(db.slice(VersionId(v)).rects.get(b"a").is_none());
    }
    for v in [1, 2] {
        assert!(db.slice(VersionId(v)).rects.get(b"a").is_some());
    }
    assert!(db.slice(VersionId(0)).rects.get(b"a").is_none());
    db.create_version(rects(vec![del("a")])).unwrap();
    assert_eq!(rect_versions(&db, b"a"), vec![1, 3, 5]);
    assert!(db.slice(VersionId(5)).rects.get(b"a").is_none());
}

#[test]
fn every_way_an_action_can_be_refused() {
    let refused = |db: &mut Db<Generator>, a: Action| {
        let e = db.create_version(rects(vec![add("fine", 1), a])).unwrap_err();
        assert_eq!((e.pass, e.index), (Pass::Rects, 1));
        (e.fault, e.kind, e.name.to_vec(), e.version)
    };
    let mut db = store();
    db.create_version(rects(vec![add("a", 1)])).unwrap();
    assert_eq!(refused(&mut db, add("a", 2)), (Fault::AlreadyLive, ActionKind::Add, b"a".to_vec(), VersionId(2)));
    assert_eq!(db.version, VersionId(2));
    assert!(db.slice(VersionId(2)).rects.get(b"fine").is_some());
    db.create_version(rects(vec![del("fine")])).unwrap();
    assert_eq!(
        refused(&mut db, action(ActionKind::Modify, "zz", rect(2), None)).0,
        Fault::NotLive
    );
    db.create_version(rects(vec![del("fine"), del("a")])).unwrap();
    assert_eq!(refused(&mut db, action(ActionKind::Modify, "a", rect(2), None)).0, Fault::NotLive);
    db.create_version(rects(vec![del("fine")])).unwrap();
    assert_eq!(refused(&mut db, del("zz")).0, Fault::NoTimeline);
    db.create_version(rects(vec![del("fine")])).unwrap();
    assert_eq!(
        refused(&mut db, action(ActionKind::Add, "n", Shape::Absent, None)).0,
        Fault::MissingGeometry
    );
    db.create_version(rects(vec![del("fine")])).unwrap();
    assert_eq!(refused(&mut db, action(ActionKind::Add, "n", line(1), None)).0, Fault::WrongGeometry);
    db.create_version(rects(vec![del("fine"), add("a", 1)])).unwrap();
    assert_eq!(
        refused(&mut db, action(ActionKind::Modify, "a", line(1), None)).0,
        Fault::WrongGeometry
    );
    db.create_version(rects(vec![del("fine")])).unwrap();
    assert_eq!(
        refused(&mut db, action(ActionKind::Delete, "a", rect(1), None)).0,
        Fault::DeletePayload
    );
    db.create_version(rects(vec![del("fine")])).unwrap();
    assert_eq!(
        refused(&mut db, action(ActionKind::Delete, "a", Shape::Absent, Some(red()))).0,
        Fault::DeletePayload
    );
    db.create_version(rects(vec![del("fine")])).unwrap();
    let mut described = del("a");
    described.desc = Some(Bytes::from_static(b"why"));
    assert_eq!(refused(&mut db, described).0, Fault::DeletePayload);
}

#[test]
fn lines_and_rectangles_do_not_share_names() {
    let mut db = store();
    let mut c = Commit::new();
    c.add_action(add("x", 1));
    c.add_action(action(ActionKind::Add, "x", line(4), None));
    c.add_action(add("y", 2));
    assert_eq!((c.rect_actions.len(), c.line_actions.len()), (2, 1));
    db.create_version(c).unwrap();
    let s = db.slice(VersionId(1));
    assert_eq!((s.rects.len(), s.lines.len()), (2, 1));
    assert_eq!(s.lines.get(b"x").unwrap().geo, Line { ll: point(0, 0), ur: point(4, 4) });
    db.create_version(Commit::build(
        vec![action(ActionKind::Modify, "x", line(6), Some(red())), del("x")],
        vec![],
    ))
    .unwrap();
    let s = db.slice(VersionId(2));
    assert_eq!((s.rects.len(), s.lines.len()), (2, 0));
    let e = db
        .create_version(Commit::build(vec![action(ActionKind::Add, "z", rect(1), None)], vec![add("w", 1)]))
        .unwrap_err();
    assert_eq!((e.pass, e.index, e.fault), (Pass::Lines, 0, Fault::WrongGeometry));
    assert!(db.slice(VersionId(3)).rects.get(b"w").is_some());
}

#[test]
fn the_line_pass_runs_at_the_current_version() {
    let mut db = store();
    db.create_version(Commit::new()).unwrap();
    handle_line_action(&mut db, vec![action(ActionKind::Add, "l", line(2), None)]).unwrap();
    assert_eq!(db.version, VersionId(1));
    assert!(db.slice(VersionId(1)).lines.get(b"l").is_some());
    let e = handle_line_action(&mut db, vec![del("l"), del("l"), del("m")]).unwrap_err();
    assert_eq!((e.index, e.fault, e.version), (2, Fault::NoTimeline, VersionId(1)));
    db.handle_rect_action(vec![add("r", 1)]).unwrap();
    assert_eq!(db.slice(VersionId(1)).rects.len(), 1);
    db.apply(rects(vec![del("r")])).unwrap();
    assert_eq!(db.version, VersionId(2));
}

#[test]
fn under_a_gradient_adds_take_the_generated_color() {
    let mut db = graded_store();
    let mut a = add("a", 1);
    a.gradient = Some(Decimal::from_integer(0));
    let mut b = action(ActionKind::Add, "b", line(1), None);
    b.gradient = Some(Decimal::from_integer(-50));
    db.create_version(Commit::build(vec![b], vec![a])).unwrap();
    db.create_version(rects(vec![action(ActionKind::Modify, "a", Shape::Absent, Some(red()))])).unwrap();
    assert_eq!(db.slice(VersionId(1)).rects.get(b"a").unwrap().color, Some(Color { r: 1, g: 0, b: 0, a: 1 }));
    assert_eq!(db.slice(VersionId(1)).lines.get(b"b").unwrap().color, Some(Color { r: 3, g: 0, b: 0, a: 1 }));
    assert_eq!(db.slice(VersionId(2)).rects.get(b"a").unwrap().color, Some(red()));
    let e = db.create_version(rects(vec![del("a"), add("c", 1)])).unwrap_err();
    assert_eq!((e.index, e.fault, e.version), (1, Fault::MissingScalar, VersionId(3)));
    assert_eq!(db.version, VersionId(3));
    assert!(db.slice(VersionId(3)).rects.get(b"a").is_none());
    assert!(db.slice(VersionId(2)).rects.get(b"a").is_some());
}

#[test]
fn under_a_gradient_an_add_is_checked_before_its_scalar_is_asked_for() {
    let mut db = graded_store();
    let mut a = add("a", 1);
    a.gradient = Some(Decimal::from_integer(0));
    db.create_version(rects(vec![a])).unwrap();
    let e = db.create_version(rects(vec![add("a", 2)])).unwrap_err();
    assert_eq!((e.index, e.fault), (0, Fault::AlreadyLive));
    let e = db.create_version(rects(vec![action(ActionKind::Add, "n", Shape::Absent, None)])).unwrap_err();
    assert_eq!(e.fault, Fault::MissingGeometry);
    let e = db.create_version(rects(vec![action(ActionKind::Add, "n", line(1), None)])).unwrap_err();
    assert_eq!(e.fault, Fault::WrongGeometry);
    let e = db.create_version(rects(vec![add("n", 2)])).unwrap_err();
    assert_eq!((e.fault, e.version), (Fault::MissingScalar, VersionId(5)));
    let e = db.apply(rects(vec![add("n", 2)])).unwrap_err();
    assert_eq!((e.fault, e.version), (Fault::MissingScalar, VersionId(6)));
    assert_eq!(db.version, VersionId(6));
}

#[test]
fn a_color_is_resolved_by_the_policy() {
    let rgb: ColorType<Generator> = ColorType::RGB;
    assert_eq!(resolve(Some(red()), Some(Decimal::from_integer(1)), &rgb), Some(red()));
    assert_eq!(resolve(None, Some(Decimal::from_integer(1)), &rgb), None);
    let grad: ColorType<Generator> = ColorType::Gradient {
        generator: thirds,
        min: Decimal::from_integer(0),
        max: Decimal::from_integer(3),
    };
    assert_eq!(resolve(Some(red()), None, &grad), None);
    assert_eq!(
        resolve(Some(red()), Some(Decimal::from_integer(2)), &grad),
        Some(Color { r: 2, g: 0, b: 0, a: 1 })
    );
    assert!(matches!(ColorType::<Generator>::default(), ColorType::RGB));
}

#[test]
fn history_answers_with_the_last_entry_at_or_before() {
    let mut h: History<u32> = History::new(VersionId(2), 7);
    assert_eq!(h.query(VersionId(1)), None);
    assert_eq!(h.query(VersionId(2)), Some(7));
    h.del(VersionId(5));
    assert_eq!(h.update(VersionId(4), 9), None);
    assert_eq!(h.query(VersionId(3)), Some(7));
    assert_eq!(h.latest(VersionId(4)), Some(&9));
    assert_eq!(h.query(VersionId(9)), None);
    assert_eq!(h.update(VersionId(4), 11), Some(9));
    assert_eq!(h.update(VersionId(5), 12), None);
    assert_eq!(h.update(VersionId(1), 1), None);
    assert_eq!(h.versions(), vec![VersionId(1), VersionId(2), VersionId(4), VersionId(5)]);
    assert_eq!(h.query(VersionId(u32::MAX)), Some(12));
    assert_eq!(VersionId::genesis().incr().incr(), VersionId(2));
}

#[test]
fn a_name_map_keeps_its_keys_in_order() {
    let mut m: NameMap<u8> = NameMap::new();
    for (k, v) in [("b", 1), ("", 2), ("ab", 3), ("a", 4), ("b", 5), ("B", 6), ("\u{e9}", 7)] {
        let was = m.insert(Bytes::copy_from_slice(k.as_bytes()), v);
        assert_eq!(was, if v == 5 { Some(1) } else { None });
    }
    let keys: Vec<Vec<u8>> = (0..m.len()).map(|i| m.key_at(i).to_vec()).collect();
    assert_eq!(
        keys,
        vec![b"".to_vec(), b"B".to_vec(), b"a".to_vec(), b"ab".to_vec(), b"b".to_vec(), b"\xc3\xa9".to_vec()]
    );
    assert_eq!(m.get(b"b"), Some(&5));
    assert_eq!(m.get(b"c"), None);
    assert_eq!(m.locate(b"aa"), Err(3));
    assert_eq!(m.locate(b"ab"), Ok(3));
    *m.value_at_mut(0) = 9;
    assert_eq!(m.value_at(0), &9);
}

#[test]
fn stored_entities_are_copied_out() {
    let mut db = store();
    db.create_version(rects(vec![add("a", 1)])).unwrap();
    let s = db.slice(VersionId(1));
    let copy: RectInfo = s.rects.get(b"a").unwrap().clone();
    assert_eq!(copy.name, Bytes::from_static(b"a"));
    let l = LineInfo { name: Bytes::from_static(b"l"), geo: Line { ll: point(0, 0), ur: point(1, 1) }, color: None, desc: None };
    assert_eq!(l.clone().geo, l.geo);
}
