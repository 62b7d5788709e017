use advent::heightmap::{get_neighbours, parse_map, shortest_path, Height, Position};

const SAMPLE: &str = "Sabqponm
abcryxxl
accszExk
acctuvwj
abdefghi";

#[test]
fn heights_of_characters() {
    assert_eq!(Height::from_char('S').get_value(), b'a');
    assert_eq!(Height::from_char('E').get_value(), b'z');
    assert_eq!(Height::from_char('m').get_value(), b'm');
    assert!(Height::from_char('S').is_lowest());
    assert!(!Height::from_char('b').is_lowest());
}

#[test]
fn climbing_rules() {
    let a = Height::from_char('a');
    let b = Height::from_char('b');
    let c = Height::from_char('c');
    assert!(a.can_move_to(b));
    assert!(!a.can_move_to(c));
    assert!(c.can_move_to(a));
    assert!(b.can_move_to(b));
}

#[test]
fn moving_keeps_height() {
    let p = Position::new(2, 3, Height::from_char('k'));
    let n = p.go_north();
    assert_eq!((n.row, n.col), (1, 3));
    let s = p.go_south();
    assert_eq!((s.row, s.col), (3, 3));
    let e = p.go_east();
    assert_eq!((e.row, e.col), (2, 4));
    let w = p.go_west();
    assert_eq!((w.row, w.col), (2, 2));
    assert_eq!(w.get_height(), b'k');
    assert!(Position::is_start('S'));
    assert!(!Position::is_start('E'));
    assert!(Position::is_goal('E'));
    assert!(!Position::is_goal('a'));
    assert!(p.can_move_to(Position::new(0, 0, Height::from_char('l'))));
    assert!(!p.can_move_to(Position::new(0, 0, Height::from_char('m'))));
}

#[test]
fn parse_sample_map() {
    let (map, start, goal) = parse_map(SAMPLE).unwrap();
    assert_eq!(map.len(), 40);
    assert_eq!((start.row, start.col), (0, 0));
    assert_eq!(start.get_height(), b'a');
    assert_eq!((goal.row, goal.col), (2, 5));
    assert_eq!(goal.get_height(), b'z');
    assert!(parse_map("abc\ndef").is_none());
}

#[test]
fn neighbours_follow_heights() {
    let (map, start, goal) = parse_map(SAMPLE).unwrap();
    let from_start: Vec<(isize, isize)> =
        get_neighbours(start, &map).iter().map(|p| (p.row, p.col)).collect();
    assert_eq!(from_start, vec![(1, 0), (0, 1)]);
    let from_goal: Vec<(isize, isize)> =
        get_neighbours(goal, &map).iter().map(|p| (p.row, p.col)).collect();
    assert_eq!(from_goal, vec![(1, 5), (3, 5), (2, 6), (2, 4)]);
    let corner = map[2];
    let around: Vec<(isize, isize)> =
        get_neighbours(corner, &map).iter().map(|p| (p.row, p.col)).collect();
    assert_eq!(around, vec![(1, 2), (0, 1)]);
}

#[test]
fn shortest_path_of_sample() {
    let (map, start, goal) = parse_map(SAMPLE).unwrap();
    let path = shortest_path(start, goal, &map).unwrap();
    assert_eq!(path.len() - 1, 31);
    let first = path.front().unwrap();
    let last = path.back().unwrap();
    assert_eq!((first.row, first.col), (0, 0));
    assert_eq!((last.row, last.col), (2, 5));
}

#[test]
fn no_path_over_a_cliff() {
    let (map, start, goal) = parse_map("Sbz\nzzE").unwrap();
    assert!(shortest_path(start, goal, &map).is_none());
    let (map, start, goal) = parse_map("SE").unwrap();
    assert!(shortest_path(start, goal, &map).is_none());
    let (map, start, goal) = parse_map("SbcdefghijklmnopqrstuvwxyE").unwrap();
    assert_eq!(shortest_path(start, goal, &map).unwrap().len(), 26);
}
