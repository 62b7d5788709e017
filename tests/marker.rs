use advent::marker::find_solution;
use advent::Solution;

#[test]
fn simple() {
    let inputs = vec![
        (r"mjqjpqmgbljsphdztnvjfqwrcgsmlb", 19),
        (r"bvwbjplbgvbhsrlpgdmjqwftvncz", 23),
        (r"nppdvjthqldpwncqszvftbrmjlhg", 23),
        (r"nznrnfrfntjfmvfwmzdfjlvtqnbhcprsg", 29),
        (r"zcfzfwzzqfrljwzlrfnpqdbhtmscgvjw", 26),
    ];

    for (input, expected) in inputs {
        let solution = find_solution(input);
        let solution = solution.unwrap();
        let solution = solution.value;

        assert_eq!(solution, expected);
    }
}

#[test]
fn no_marker_in_short_or_repetitive_input() {
    assert!(find_solution("abc").is_none());
    assert!(find_solution("abcdefghijklmabcdefghijklm").is_none());
}

#[test]
fn marker_at_the_very_start() {
    let solution = find_solution("abcdefghijklmnopq").unwrap();
    assert_eq!(solution.value, 14);
    assert_eq!(Solution::new(7).value, 7);
}
