use advent::crates::{apply, parse_action, parse_actions, parse_stacks, rearrange, tops, Action};

const DRAWING: &str = "    [D]    
[N] [C]    
[Z] [M] [P]
 1   2   3 ";

const ACTIONS: &str = "move 1 from 2 to 1
move 3 from 1 to 3
move 2 from 2 to 1
move 1 from 1 to 2";

#[test]
fn reads_the_drawing() {
    let stacks = parse_stacks(DRAWING, 3);
    assert_eq!(stacks, vec![vec!['Z', 'N'], vec!['M', 'C', 'D'], vec!['P']]);
    assert_eq!(parse_stacks(DRAWING, 4)[3], Vec::<char>::new());
}

#[test]
fn reads_actions() {
    let line: Vec<char> = "move 3 from 1 to 3".chars().collect();
    assert_eq!(parse_action(&line), Some(Action { count: 3, from: 1, to: 3 }));
    let bad: Vec<char> = "move 3 from 1 onto 3".chars().collect();
    assert_eq!(parse_action(&bad), None);
    assert_eq!(parse_actions(ACTIONS).unwrap().len(), 4);
    assert!(parse_actions("move x from 1 to 2").is_none());
}

#[test]
fn moved_crates_keep_their_order() {
    let mut stacks = parse_stacks(DRAWING, 3);
    let actions = parse_actions(ACTIONS).unwrap();
    assert!(rearrange(&mut stacks, &actions));
    assert_eq!(tops(&stacks), vec![Some('M'), Some('C'), Some('D')]);
}

#[test]
fn impossible_actions() {
    let mut stacks = parse_stacks(DRAWING, 3);
    assert!(!apply(&mut stacks, Action { count: 3, from: 3, to: 1 }));
    assert!(!apply(&mut stacks, Action { count: 1, from: 4, to: 1 }));
    assert!(!apply(&mut stacks, Action { count: 1, from: 0, to: 1 }));
    assert_eq!(stacks, parse_stacks(DRAWING, 3));
    assert!(apply(&mut stacks, Action { count: 2, from: 2, to: 3 }));
    assert_eq!(stacks, vec![vec!['Z', 'N'], vec!['M'], vec!['P', 'C', 'D']]);
    assert!(apply(&mut stacks, Action { count: 1, from: 1, to: 1 }));
    assert_eq!(stacks[0], vec!['Z', 'N']);
    assert_eq!(tops(&vec![vec![]]), vec![None]);
}
