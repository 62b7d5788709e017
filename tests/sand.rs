use advent::sand::{get_line_between, parse_position, parse_rocks, Cave, Position, SandPlacement};

const SAMPLE: &str = "498,4 -> 498,6 -> 496,6
503,4 -> 502,4 -> 502,9 -> 494,9";

#[test]
fn moves_of_a_grain() {
    let p = Position::new(500, 0);
    assert_eq!(p.down(), Position::new(500, 1));
    assert_eq!(p.down_and_left(), Position::new(499, 1));
    assert_eq!(p.down_and_right(), Position::new(501, 1));
}

#[test]
fn reads_a_position() {
    let line: Vec<char> = "498,4 -> 498,6".chars().collect();
    assert_eq!(parse_position(&line, 0), Some((Position::new(498, 4), 5)));
    assert_eq!(parse_position(&line, 9), Some((Position::new(498, 6), 14)));
    assert_eq!(parse_position(&line, 5), None);
    let short: Vec<char> = "12".chars().collect();
    assert_eq!(parse_position(&short, 0), None);
}

#[test]
fn points_between() {
    let line = get_line_between(&Position::new(498, 6), &Position::new(498, 4));
    assert_eq!(line, vec![Position::new(498, 5)]);
    let line = get_line_between(&Position::new(494, 9), &Position::new(497, 9));
    assert_eq!(line, vec![Position::new(495, 9), Position::new(496, 9)]);
    assert!(get_line_between(&Position::new(1, 1), &Position::new(2, 1)).is_empty());
}

#[test]
fn rocks_of_sample() {
    let (rocks, lowest) = parse_rocks(SAMPLE).unwrap();
    assert_eq!(lowest, 9);
    assert_eq!(rocks.len(), 5 + 15);
    assert!(rocks.contains(&Position::new(498, 5)));
    assert!(rocks.contains(&Position::new(495, 9)));
    assert!(parse_rocks("1,1 -> 2,2").is_none());
    assert!(parse_rocks("1,x").is_none());
}

#[test]
fn sand_in_sample_cave() {
    let mut cave = Cave::parse(SAMPLE).unwrap();
    assert_eq!(cave.drop_sand(), SandPlacement::Resting(Position::new(500, 8)));
    assert_eq!(cave.drop_sand(), SandPlacement::Resting(Position::new(499, 8)));
    assert_eq!(cave.count_at_rest(), 2);
    loop {
        if cave.drop_sand() == SandPlacement::FreeFall {
            break;
        }
    }
    assert_eq!(cave.count_at_rest(), 24);
}
