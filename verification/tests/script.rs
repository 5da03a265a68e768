use bytes::Bytes;
use geo_git::db::model::{Fault, Pass};
use geo_git::db::store::{Config, Db, SlicedDb};
use geo_git::db::version_controller::VersionId;
use geo_git::decimal::Decimal;
use geo_git::geo::color::{Color, ColorType, Position};
use geo_git::geo::point::Point;
use geo_git::geo::rect::Rect;
use geo_git::parser::grammar::{ParseError, ParseFault};
use geo_git::public::{parse, Error};

type Generator = fn(Position) -> Color;

fn flat() -> Config<Generator> {
    Config { color: ColorType::RGB }
}

fn gray(p: Position) -> Color {
    let level = ((p.num as f64 / p.den as f64) * 255.0).round() as u8;
    Color { r: level, g: level, b: level, a: 255 }
}

fn graded(min: i64, max: i64) -> Config<Generator> {
    Config {
        color: ColorType::Gradient {
            generator: gray,
            min: Decimal::from_integer(min),
            max: Decimal::from_integer(max),
        },
    }
}

fn replay(text: &str) -> Db<Generator> {
    parse(text.to_string(), flat()).expect("the script is in order")
}

fn rect(llx: i64, lly: i64, urx: i64, ury: i64) -> Rect {
    Rect {
        ll: Point { x: Decimal::from_integer(llx), y: Decimal::from_integer(lly) },
        ur: Point { x: Decimal::from_integer(urx), y: Decimal::from_integer(ury) },
    }
}

fn names(slice: &SlicedDb) -> Vec<Vec<u8>> {
    (0..slice.rects.len()).map(|i| slice.rects.key_at(i).to_vec()).collect()
}

fn parse_fault(text: &str) -> ParseError {
    match parse(text.to_string(), flat()) {
        Err(Error::Parse(e)) => e,
        Err(other) => panic!("another error: {:?}", other),
        Ok(_) => panic!("the script went through"),
    }
}

#[test]
fn add_update_delete_over_three_versions() {
    let db = replay("ADDRECT A 0 0 1 1 255 0 0; COMMIT UPDRECT A 0 0 2 2; COMMIT DELRECT A; COMMIT");
    assert_eq!(db.version, VersionId(3));

    let v1 = db.slice(VersionId(1));
    assert_eq!(v1.version, VersionId(1));
    assert_eq!(v1.rects.len(), 1);
    let a = v1.rects.get(b"A").expect("A is live at version 1");
    assert_eq!(a.name, Bytes::from_static(b"A"));
    assert_eq!(a.geo, rect(0, 0, 1, 1));
    assert_eq!(a.color, Some(Color { r: 255, g: 0, b: 0, a: 0 }));
    assert_eq!(a.desc, None);

    let v2 = db.slice(VersionId(2));
    assert_eq!(v2.rects.len(), 1);
    let a = v2.rects.get(b"A").expect("A is live at version 2");
    assert_eq!(a.geo, rect(0, 0, 2, 2));
    assert_eq!(a.color, Some(Color { r: 255, g: 0, b: 0, a: 0 }));

    let v3 = db.slice(VersionId(3));
    assert_eq!(v3.rects.len(), 0);
    assert_eq!(v3.lines.len(), 0);
    assert!(v3.rects.get(b"A").is_none());

    let v0 = db.slice(VersionId(0));
    assert_eq!(v0.rects.len(), 0);
}

#[test]
fn gradient_scalar_is_placed_once() {
    let db = parse("ADDRECT B 0 0 1 1 0.5; COMMIT".to_string(), graded(0, 1)).expect("in order");
    assert_eq!(db.version, VersionId(1));
    let v1 = db.slice(VersionId(1));
    let b = v1.rects.get(b"B").expect("B is live");
    assert_eq!(b.color, Some(gray(Position { num: 1, den: 2 })));
    assert_eq!(b.color, Some(Color { r: 128, g: 128, b: 128, a: 255 }));
}

#[test]
fn gradient_scalar_outside_the_range_is_held_to_it() {
    let db = parse(
        "ADDRECT lo 0 0 1 1 1; ADDRECT hi 0 0 1 1 9; ADDRECT mid 0 0 1 1 3.5; COMMIT".to_string(),
        graded(2, 4),
    )
    .expect("in order");
    let v1 = db.slice(VersionId(1));
    assert_eq!(v1.rects.get(b"lo").unwrap().color, Some(Color { r: 0, g: 0, b: 0, a: 255 }));
    assert_eq!(v1.rects.get(b"hi").unwrap().color, Some(Color { r: 255, g: 255, b: 255, a: 255 }));
    assert_eq!(v1.rects.get(b"mid").unwrap().color, Some(gray(Position { num: 3, den: 4 })));
}

#[test]
fn addrect_with_two_trailing_numbers_is_refused() {
    let e = parse_fault("ADDRECT A 0 0 1 1 7 8; COMMIT");
    assert_eq!(e, ParseError { fault: ParseFault::TrailingCount, at: 0 });
    let e = parse_fault("  ADDRECT A 0 0 1 1; COMMIT");
    assert_eq!(e, ParseError { fault: ParseFault::TrailingCount, at: 2 });
    let e = parse_fault("ADDRECT A 0 0 1 1 1 2 3 4;");
    assert_eq!(e.fault, ParseFault::TrailingCount);
}

#[test]
fn keywords_match_in_either_case() {
    let db = replay("addrect a 1 2 3 4 9; Commit AddLine l 0 0 5 5; updRECT a 7 7 7; commit");
    assert_eq!(db.version, VersionId(2));
    let v2 = db.slice(VersionId(2));
    assert_eq!(v2.rects.get(b"a").unwrap().color, Some(Color { r: 7, g: 7, b: 7, a: 0 }));
    assert_eq!(v2.rects.get(b"a").unwrap().geo, rect(1, 2, 3, 4));
    assert_eq!(v2.lines.len(), 1);
    assert_eq!(v2.lines.get(b"l").unwrap().geo.ur.x, Decimal::from_integer(5));
    assert!(v2.rects.get(b"A").is_none());
}

#[test]
fn a_commit_without_closing_word_ends_with_the_text() {
    let db = replay("ADDRECT A 0 0 1 1 5; COMMIT ADDRECT B 0 0 1 1 5");
    assert_eq!(db.version, VersionId(2));
    assert_eq!(names(&db.slice(VersionId(1))), vec![b"A".to_vec()]);
    assert_eq!(names(&db.slice(VersionId(2))), vec![b"A".to_vec(), b"B".to_vec()]);
}

#[test]
fn empty_commits_still_use_up_versions() {
    let db = replay("COMMIT COMMIT  COMMIT\n");
    assert_eq!(db.version, VersionId(3));
    assert_eq!(db.slice(VersionId(3)).rects.len(), 0);
    assert_eq!(replay("").version, VersionId(0));
    assert_eq!(replay(" \t\n").version, VersionId(0));
}

#[test]
fn update_takes_geometry_first_and_color_from_the_rest() {
    let base = "ADDRECT A 0 0 1 1 1 2 3; COMMIT ";
    let at2 = |tail: &str| {
        let db = replay(&format!("{}{}", base, tail));
        let s = db.slice(VersionId(2));
        let a = s.rects.get(b"A").unwrap();
        (a.geo, a.color)
    };
    let old_color = Some(Color { r: 1, g: 2, b: 3, a: 0 });
    assert_eq!(at2("UPDRECT A; COMMIT"), (rect(0, 0, 1, 1), old_color));
    assert_eq!(at2("UPDRECT A 9 9; COMMIT"), (rect(0, 0, 1, 1), old_color));
    assert_eq!(
        at2("UPDRECT A 9 8 7; COMMIT"),
        (rect(0, 0, 1, 1), Some(Color { r: 9, g: 8, b: 7, a: 0 }))
    );
    assert_eq!(at2("UPDRECT A 5 6 7 8; COMMIT"), (rect(5, 6, 7, 8), old_color));
    assert_eq!(at2("UPDRECT A 5 6 7 8 1 1; COMMIT"), (rect(5, 6, 7, 8), old_color));
    assert_eq!(
        at2("UPDRECT A 5 6 7 8 300 0.9 12; COMMIT"),
        (rect(5, 6, 7, 8), Some(Color { r: 255, g: 0, b: 12, a: 0 }))
    );
    assert_eq!(
        at2("UPDRECT A 5 6 7 8 1 2 4 99; COMMIT"),
        (rect(5, 6, 7, 8), Some(Color { r: 1, g: 2, b: 4, a: 0 }))
    );
}

#[test]
fn a_name_keeps_bytes_that_are_not_ascii() {
    let db = replay("ADDRECT r\u{e9}sum\u{e9}.1 0 0 1 1 5;\u{2028}ADDRECT x1 0 0 1 1 5\u{85}; COMMIT");
    let s = db.slice(VersionId(1));
    assert_eq!(names(&s), vec![b"r\xc3\xa9sum\xc3\xa9.1".to_vec(), b"x1".to_vec()]);
}

#[test]
fn every_way_a_script_can_be_malformed() {
    assert_eq!(
        parse_fault("ADDRECT A 0 0 1. 1 5;"),
        ParseError { fault: ParseFault::MalformedNumber, at: 14 }
    );
    assert_eq!(
        parse_fault("ADDRECT A 10000000000000000000 0 1 1 5;"),
        ParseError { fault: ParseFault::NumberTooLarge, at: 10 }
    );
    assert_eq!(
        parse_fault("ADDRECT A 0.0000000000000000001 0 1 1 5;"),
        ParseError { fault: ParseFault::NumberTooFine, at: 10 }
    );
    assert_eq!(parse_fault("ADDRECT 5 0 0 1 1 5;"), ParseError { fault: ParseFault::ExpectedName, at: 8 });
    assert_eq!(parse_fault("; COMMIT"), ParseError { fault: ParseFault::ExpectedName, at: 0 });
    assert_eq!(
        parse_fault("ADDRECT A 0 0 x 1 5;"),
        ParseError { fault: ParseFault::ExpectedNumber, at: 14 }
    );
    assert_eq!(
        parse_fault("ADDRECT A 0 0 ; 1 5;"),
        ParseError { fault: ParseFault::ExpectedNumber, at: 14 }
    );
    assert_eq!(
        parse_fault("ADDRECT A 0 0 1 1 5 COMMIT"),
        ParseError { fault: ParseFault::ExpectedNumber, at: 20 }
    );
    assert_eq!(
        parse_fault("DELRECT A 1 2 3 4;"),
        ParseError { fault: ParseFault::ExpectedTerminator, at: 10 }
    );
    assert_eq!(
        parse_fault("DELRECT A B;"),
        ParseError { fault: ParseFault::ExpectedTerminator, at: 10 }
    );
    assert_eq!(
        parse_fault("ADDLINE L 0 0 1 1 5;"),
        ParseError { fault: ParseFault::ExpectedTerminator, at: 18 }
    );
    assert_eq!(
        parse_fault("COMMIT MOVERECT A 1 1;"),
        ParseError { fault: ParseFault::UnknownStatement, at: 7 }
    );
    assert_eq!(parse_fault("ADDRECT A 0 0"), ParseError { fault: ParseFault::UnexpectedEnd, at: 13 });
    assert_eq!(parse_fault("DELRECT "), ParseError { fault: ParseFault::UnexpectedEnd, at: 8 });
}

#[test]
fn a_statement_may_end_with_the_text() {
    let db = replay("ADDRECT A 0 0 1 1 5; COMMIT DELRECT A");
    assert_eq!(db.version, VersionId(2));
    assert_eq!(db.slice(VersionId(2)).rects.len(), 0);
    let db = replay("ADDLINE L 0 0 1 1");
    assert_eq!(db.slice(VersionId(1)).lines.len(), 1);
    let db = replay("ADDRECT A 0 0 1 1 1 2 3");
    assert_eq!(db.slice(VersionId(1)).rects.len(), 1);
}

#[test]
fn a_stopped_commit_is_reported_with_its_place() {
    let r = parse(
        "ADDRECT A 0 0 1 1 5; COMMIT ADDRECT B 0 0 1 1 5; ADDRECT A 0 0 1 1 5; COMMIT".to_string(),
        flat(),
    );
    match r {
        Err(Error::Store { commit, error }) => {
            assert_eq!(commit, 1);
            assert_eq!(error.pass, Pass::Rects);
            assert_eq!(error.index, 1);
            assert_eq!(error.fault, Fault::AlreadyLive);
            assert_eq!(error.name, Bytes::from_static(b"A"));
            assert_eq!(error.version, VersionId(2));
        }
        _ => panic!("the second add of A has to stop the replay"),
    }
    match parse("UPDRECT A 1 2 3; COMMIT".to_string(), flat()) {
        Err(Error::Store { commit, error }) => {
            assert_eq!((commit, error.index, error.fault), (0, 0, Fault::NotLive));
        }
        _ => panic!("nothing is there to modify"),
    }
    match parse("DELRECT A; COMMIT".to_string(), flat()) {
        Err(Error::Store { commit, error }) => {
            assert_eq!((commit, error.index, error.fault), (0, 0, Fault::NoTimeline));
        }
        _ => panic!("nothing is there to delete"),
    }
}

#[test]
fn under_a_gradient_an_add_needs_its_scalar() {
    match parse("ADDRECT A 0 0 1 1 5; ADDRECT B 0 0 1 1 1 2 3; COMMIT".to_string(), graded(0, 10)) {
        Err(Error::Store { commit, error }) => {
            assert_eq!(commit, 0);
            assert_eq!(error.index, 1);
            assert_eq!(error.fault, Fault::MissingScalar);
            assert_eq!(error.name, Bytes::from_static(b"B"));
            assert_eq!(error.version, VersionId(1));
        }
        _ => panic!("B has no scalar"),
    }
    match parse("ADDLINE L 0 0 1 1; COMMIT".to_string(), graded(0, 10)) {
        Err(Error::Store { error, .. }) => {
            assert_eq!((error.pass, error.fault), (Pass::Lines, Fault::MissingScalar));
        }
        _ => panic!("L has no scalar"),
    }
}

#[test]
fn a_gradient_with_one_end_is_refused() {
    match parse("COMMIT".to_string(), graded(3, 3)) {
        Err(Error::DegenerateRange) => {}
        _ => panic!("the ends coincide"),
    }
    match parse("not a script".to_string(), graded(3, 3)) {
        Err(Error::DegenerateRange) => {}
        _ => panic!("the ends coincide"),
    }
}
