use advent::sensor::{distress_signal, parse_positions, tuning_frequency, Coverage, Position, Zone};

const SAMPLE: &str = "Sensor at x=2, y=18: closest beacon is at x=-2, y=15
Sensor at x=9, y=16: closest beacon is at x=10, y=16
Sensor at x=13, y=2: closest beacon is at x=15, y=3
Sensor at x=12, y=14: closest beacon is at x=10, y=16
Sensor at x=10, y=20: closest beacon is at x=10, y=16
Sensor at x=14, y=17: closest beacon is at x=10, y=16
Sensor at x=8, y=7: closest beacon is at x=2, y=10
Sensor at x=2, y=0: closest beacon is at x=2, y=10
Sensor at x=0, y=11: closest beacon is at x=2, y=10
Sensor at x=20, y=14: closest beacon is at x=25, y=17
Sensor at x=17, y=20: closest beacon is at x=21, y=22
Sensor at x=16, y=7: closest beacon is at x=15, y=3
Sensor at x=14, y=3: closest beacon is at x=15, y=3
Sensor at x=20, y=1: closest beacon is at x=15, y=3";

#[test]
fn manhattan_distance() {
    let a = Position::new(2, 18);
    let b = Position::new(-2, 15);
    assert_eq!(a.get_manhattan_distance(b), 7);
    assert_eq!(b.get_manhattan_distance(a), 7);
    assert_eq!(a.get_manhattan_distance(a), 0);
}

#[test]
fn zone_reach_and_contains() {
    let zone = Zone::new(Position::new(8, 7), Position::new(2, 10));
    assert_eq!(zone.distance, 9);
    assert_eq!(zone.get_up_reach(), 16);
    assert_eq!(zone.get_down_reach(), -2);
    assert_eq!(zone.get_right_reach(), 17);
    assert_eq!(zone.get_left_reach(), -1);
    assert!(zone.contains(Position::new(8, 16)));
    assert!(zone.contains(Position::new(2, 10)));
    assert!(!zone.contains(Position::new(2, 11)));
    assert!(!zone.contains(Position::new(18, 7)));
}

#[test]
fn zone_fence() {
    let zone = Zone::new(Position::new(0, 0), Position::new(1, 0));
    let fence = zone.get_fence();
    assert_eq!(fence.len(), 8);
    assert_eq!(fence[0], Position::new(0, 2));
    assert_eq!(fence[1], Position::new(2, 0));
    assert_eq!(fence[2], Position::new(0, -2));
    assert_eq!(fence[3], Position::new(-2, 0));
    assert_eq!(fence[4], Position::new(1, 1));
    assert_eq!(fence[7], Position::new(-1, 1));
}

#[test]
fn parse_report_line() {
    let line: Vec<char> = "Sensor at x=2, y=18: closest beacon is at x=-2, y=15".chars().collect();
    assert_eq!(
        parse_positions(&line),
        Some((Position::new(2, 18), Position::new(-2, 15)))
    );
    let bad: Vec<char> = "Sensor at x=2, y=18: closest beacon at x=-2, y=15".chars().collect();
    assert_eq!(parse_positions(&bad), None);
    let trailing: Vec<char> = "Sensor at x=2, y=18: closest beacon is at x=-2, y=15!".chars().collect();
    assert_eq!(parse_positions(&trailing), None);
}

#[test]
fn coverage_of_sample() {
    let coverage = Coverage::parse(SAMPLE).unwrap();
    assert_eq!(coverage.zones.len(), 14);
    assert!(coverage.is_occupied(Position::new(2, 18)));
    assert!(coverage.is_occupied(Position::new(-2, 15)));
    assert!(!coverage.is_occupied(Position::new(3, 18)));
    assert!(coverage.contains(Position::new(3, 18)));
    assert!(!coverage.contains(Position::new(14, 11)));
    assert_eq!(coverage.get_min_reach(), Position::new(-8, -10));
    assert_eq!(coverage.get_max_reach(), Position::new(28, 26));
    let mut free = 0;
    let row = 10;
    let min = coverage.get_min_reach().x;
    let max = coverage.get_max_reach().x;
    for x in min..=max {
        let p = Position::new(x, row);
        if coverage.contains(p) && !coverage.is_occupied(p) {
            free += 1;
        }
    }
    assert_eq!(free, 26);
}

#[test]
fn coverage_rejects_bad_lines() {
    assert!(Coverage::parse("Sensor at x=1, y=2").is_none());
    assert!(Coverage::parse("").is_none());
}

#[test]
fn distress_beacon_of_sample() {
    let coverage = Coverage::parse(SAMPLE).unwrap();
    let found = distress_signal(&coverage, Position::new(0, 0), Position::new(20, 20));
    assert_eq!(found, Some(Position::new(14, 11)));
    assert_eq!(tuning_frequency(found.unwrap()), Some(56000011));
    assert_eq!(distress_signal(&coverage, Position::new(0, 0), Position::new(10, 10)), None);
    assert_eq!(distress_signal(&coverage, Position::new(5, 5), Position::new(4, 4)), None);
    assert_eq!(tuning_frequency(Position::new(isize::MAX, 0)), None);
}
