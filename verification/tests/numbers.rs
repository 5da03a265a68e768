use geo_git::decimal::{gap, Decimal};
use geo_git::geo::color::{Color, Position};
use geo_git::geo::criticality::{ColorGenerator, Criticality};
use geo_git::lexer::{tokenize, TokenKind};
use std::str::FromStr;

fn grade(p: Position) -> Color {
    Color { r: (p.num * 255 / p.den) as u8, g: 0, b: 0, a: 0 }
}

fn lexed(text: &str) -> f64 {
    match tokenize(text).unwrap()[0].kind {
        TokenKind::Literal { val, .. } => val.units as f64 / 1e18,
        _ => panic!("no number"),
    }
}

#[test]
fn testf64() {
    let str = String::from_str("1.01").unwrap();
    let a = str.parse::<f64>().unwrap();
    let str = String::from_str("1").unwrap();
    let b = str.parse::<f64>().unwrap();
    println!("{}\n{}", a, b);
    assert_eq!(lexed("1.01"), a);
    assert_eq!(lexed("1"), b);
}

#[test]
fn a_number_is_cut_to_a_byte() {
    let one: i128 = 1_000_000_000_000_000_000;
    assert_eq!(Decimal::from_integer(0).to_byte(), 0);
    assert_eq!(Decimal::from_integer(-3).to_byte(), 0);
    assert_eq!(Decimal::from_units(one - 1).to_byte(), 0);
    assert_eq!(Decimal::from_units(one).to_byte(), 1);
    assert_eq!(Decimal::from_units(255 * one - 1).to_byte(), 254);
    assert_eq!(Decimal::from_integer(255).to_byte(), 255);
    assert_eq!(Decimal::from_integer(256).to_byte(), 255);
    assert_eq!(Decimal::from_units(i128::MAX).to_byte(), 255);
    assert_eq!(Decimal::from_units(i128::MIN).to_byte(), 0);
    assert_eq!(Decimal::from_integer(i64::MIN).units, i64::MIN as i128 * one);
}

#[test]
fn a_gap_fits_however_far_apart_the_ends_are() {
    assert_eq!(gap(5, 5), 0);
    assert_eq!(gap(7, -3), 10);
    assert_eq!(gap(-3, -7), 4);
    assert_eq!(gap(i128::MAX, i128::MIN), u128::MAX);
    assert_eq!(gap(0, i128::MIN), 1u128 << 127);
    assert_eq!(gap(i128::MAX, 0), (1u128 << 127) - 1);
}

#[test]
fn a_scalar_is_placed_between_the_ends() {
    let d = Decimal::from_integer;
    let place = |v: i64, min: i64, max: i64| Criticality(d(v)).position(d(min), d(max));
    let one: u128 = 1_000_000_000_000_000_000;
    assert_eq!(place(5, 0, 10), Some(Position { num: 5 * one, den: 10 * one }));
    assert_eq!(place(0, 0, 10), Some(Position { num: 0, den: 10 * one }));
    assert_eq!(place(10, 0, 10), Some(Position { num: 10 * one, den: 10 * one }));
    assert_eq!(place(-1, 0, 10), Some(Position { num: 0, den: 10 * one }));
    assert_eq!(place(11, 0, 10), Some(Position { num: 10 * one, den: 10 * one }));
    assert_eq!(place(8, 10, 0), Some(Position { num: 2 * one, den: 10 * one }));
    assert_eq!(place(12, 10, 0), Some(Position { num: 0, den: 10 * one }));
    assert_eq!(place(-5, 10, 0), Some(Position { num: 10 * one, den: 10 * one }));
    assert_eq!(place(-2, -4, 4), Some(Position { num: 2 * one, den: 8 * one }));
    assert_eq!(place(3, 3, 3), None);
    let wide = Criticality(Decimal::from_units(0))
        .position(Decimal::from_units(i128::MIN), Decimal::from_units(i128::MAX))
        .unwrap();
    assert_eq!(wide, Position { num: 1u128 << 127, den: u128::MAX });
}

#[test]
fn a_scalar_gets_the_color_at_its_place() {
    let d = Decimal::from_integer;
    assert_eq!(Criticality(d(1)).color(d(0), d(5), &grade), Some(Color { r: 51, g: 0, b: 0, a: 0 }));
    assert_eq!(Criticality(d(1)).color(d(5), d(5), &grade), None);
    assert_eq!(Color::from_grad(Decimal::from_units(500_000_000_000_000_000), &grade).r, 127);
    assert_eq!(Color::from_grad(d(7), &grade).r, 255);
    assert_eq!(Color::from_grad(d(-7), &grade).r, 0);
}

#[test]
fn a_generator_spans_its_values() {
    let d = Decimal::from_integer;
    let g = ColorGenerator::build(&vec![d(4), d(-2), d(8), d(3)], grade).unwrap();
    assert_eq!((g.min, g.max), (d(-2), d(8)));
    assert_eq!(g.get_color(d(3)), Some(Color { r: 127, g: 0, b: 0, a: 0 }));
    assert_eq!(g.get_color(d(100)), Some(Color { r: 255, g: 0, b: 0, a: 0 }));
    assert!(ColorGenerator::build(&vec![], grade).is_none());
    let single = ColorGenerator::build(&vec![d(4)], grade).unwrap();
    assert_eq!(single.get_color(d(4)), None);
}
