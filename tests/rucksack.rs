use advent::rucksack::{badge_total, get_priority};

const SAMPLE: &str = "vJrwpWtwJgWrhcsFMMfFFhFp
jqHRNqRjqzjGDLGLrsFMfFZSrLrFZsSL
PmmdzqPrVvPwwTWBwg
wMqvLMZHhHMvwLHjbvcjnnSBnvTQFn
ttgJtRGJQctTZtZT
CrZsJsPPZsGzwwsLwLmpwMDw";

#[test]
fn priorities() {
    assert_eq!(get_priority('a'), 1);
    assert_eq!(get_priority('z'), 26);
    assert_eq!(get_priority('A'), 27);
    assert_eq!(get_priority('Z'), 52);
}

#[test]
fn badges_of_sample() {
    assert_eq!(badge_total(SAMPLE), Some(18 + 52));
}

#[test]
fn shared_items_count_once() {
    assert_eq!(badge_total("aab\naxa\nya"), Some(1));
    assert_eq!(badge_total("ab\nab\nab\nzz"), Some(3));
    assert_eq!(badge_total("1a\n1b\n1c"), None);
    assert_eq!(badge_total("ab"), Some(0));
}
