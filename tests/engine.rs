use light_grid::bitmap::BitMap;
use light_grid::bytemap::ByteMap;
use light_grid::engine::{do_brightness, do_onoff};
use light_grid::parser::Parser;
use light_grid::range::{Point, PointRange};

const MAX: Point = Point(999, 999);
const CELLS: usize = 1_000_000;

fn apply(line: &str, lights: &mut BitMap, brightness: &mut ByteMap) {
    let command = Parser::new(line).parse().unwrap();
    let range = PointRange::new(command.from, command.to, MAX);
    do_onoff(lights, range, command.op);
    do_brightness(brightness, range, command.op);
}

#[test]
fn turn_on_whole_grid() {
    let mut lights = BitMap::new(CELLS);
    let mut brightness = ByteMap::new(CELLS);
    apply("turn on 0,0 through 999,999", &mut lights, &mut brightness);
    assert_eq!(1_000_000, lights.count());
    assert_eq!(1_000_000, brightness.count());
}

#[test]
fn toggle_first_row() {
    let mut lights = BitMap::new(CELLS);
    let mut brightness = ByteMap::new(CELLS);
    apply("toggle 0,0 through 999,0", &mut lights, &mut brightness);
    assert_eq!(1000, lights.count());
    assert_eq!(2000, brightness.count());
    assert!(lights.get_bit(999));
    assert!(!lights.get_bit(1000));
}

#[test]
fn turn_off_fresh_grid() {
    let mut lights = BitMap::new(CELLS);
    let mut brightness = ByteMap::new(CELLS);
    apply("turn off 499,499 through 500,500", &mut lights, &mut brightness);
    assert_eq!(0, lights.count());
    assert_eq!(0, brightness.count());
}

#[test]
fn turn_on_one_then_toggle_all() {
    let mut lights = BitMap::new(CELLS);
    let mut brightness = ByteMap::new(CELLS);
    apply("turn on 0,0 through 0,0", &mut lights, &mut brightness);
    assert_eq!(1, brightness.count());
    apply("toggle 0,0 through 999,999", &mut lights, &mut brightness);
    // One from the first line, two for each of the million cells from the second.
    assert_eq!(1 + 2 * 1_000_000, brightness.count());
    assert_eq!(3, brightness.get_byte(0));
    assert_eq!(999_999, lights.count());
    assert!(!lights.get_bit(0));
}

#[test]
fn only_the_rectangle_changes() {
    let max = Point(4, 3);
    let mut lights = BitMap::new(20);
    let mut brightness = ByteMap::new(20);
    let range = PointRange::new(Point(1, 1), Point(2, 2), max);
    do_onoff(&mut lights, range, light_grid::parser::Operation::TurnOn);
    do_brightness(&mut brightness, range, light_grid::parser::Operation::Toggle);
    for i in 0..20usize {
        let (x, y) = (i % 5, i / 5);
        let inside = (1..=2).contains(&x) && (1..=2).contains(&y);
        assert_eq!(inside, lights.get_bit(i), "i={}", i);
        assert_eq!(if inside { 2 } else { 0 }, brightness.get_byte(i), "i={}", i);
    }
    assert_eq!(4, lights.count());
    assert_eq!(8, brightness.count());
}
