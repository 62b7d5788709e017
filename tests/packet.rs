use std::cmp::Ordering;

use advent::document::{parse_packets, parse_pairs, Malformation, ParseError};
use advent::packet::Item;

fn parse(text: &str) -> Item {
    Item::parse(text).unwrap()
}

fn text(item: &Item) -> String {
    item.render().into_iter().collect()
}

#[test]
fn scenario_digits_compare_numerically() {
    assert_eq!(Item::is_ordered(&parse("[1,1,3,1,1]"), &parse("[1,1,5,1,1]")), Ordering::Less);
}

#[test]
fn scenario_digit_promoted_against_list() {
    assert_eq!(Item::is_ordered(&parse("[[1],[2,3,4]]"), &parse("[[1],4]")), Ordering::Less);
}

#[test]
fn scenario_nine_against_nested_list() {
    assert_eq!(Item::is_ordered(&parse("[9]"), &parse("[[8,7,6]]")), Ordering::Greater);
}

#[test]
fn scenario_shorter_prefix_first() {
    assert_eq!(
        Item::is_ordered(&parse("[[4,4],4,4]"), &parse("[[4,4],4,4,4]")),
        Ordering::Less
    );
}

#[test]
fn scenario_longer_list_after() {
    assert_eq!(Item::is_ordered(&parse("[7,7,7,7]"), &parse("[7,7,7]")), Ordering::Greater);
}

#[test]
fn scenario_empty_list_first() {
    assert_eq!(Item::is_ordered(&parse("[]"), &parse("[3]")), Ordering::Less);
}

const EXAMPLE_PAIRS: &str = "[1,1,3,1,1]
[1,1,5,1,1]

[[1],[2,3,4]]
[[1],4]

[9]
[[8,7,6]]

[[4,4],4,4]
[[4,4],4,4,4]

[7,7,7,7]
[7,7,7]

[]
[3]
";

#[test]
fn sorted_corpus_with_markers() {
    let mut packets = parse_packets(EXAMPLE_PAIRS).unwrap();
    assert_eq!(packets.len(), 12);
    packets.push(parse("[[2]]"));
    packets.push(parse("[[6]]"));
    packets.sort_by(|a, b| Item::is_ordered(a, b));
    let mut product = 1;
    for (index, packet) in packets.iter().enumerate() {
        if packet.is_marker(2) || packet.is_marker(6) {
            product *= index + 1;
        }
    }
    assert_eq!(product, 6 * 10);
}

#[test]
fn ordered_pairs_of_example() {
    let pairs = parse_pairs(EXAMPLE_PAIRS).unwrap();
    assert_eq!(pairs.len(), 6);
    let mut sum = 0;
    for (index, (left, right)) in pairs.iter().enumerate() {
        if Item::is_ordered(left, right) == Ordering::Less {
            sum += index + 1;
        }
    }
    assert_eq!(sum, 1 + 2 + 4 + 6);
}

#[test]
fn unbalanced_document_is_malformed() {
    assert_eq!(
        Item::parse("[1,2"),
        Err(ParseError::MalformedDocument { position: 4, reason: Malformation::UnexpectedEnd })
    );
}

#[test]
fn malformed_documents() {
    assert_eq!(
        Item::parse(""),
        Err(ParseError::MalformedDocument { position: 0, reason: Malformation::UnexpectedEnd })
    );
    assert_eq!(
        Item::parse("7"),
        Err(ParseError::MalformedDocument { position: 0, reason: Malformation::NotAList })
    );
    assert_eq!(
        Item::parse("[1]]"),
        Err(ParseError::MalformedDocument { position: 3, reason: Malformation::TrailingCharacters })
    );
    assert_eq!(
        Item::parse("[1;2]"),
        Err(ParseError::MalformedDocument { position: 2, reason: Malformation::UnexpectedCharacter })
    );
    assert_eq!(
        Item::parse("[1,,2]"),
        Err(ParseError::MalformedDocument { position: 3, reason: Malformation::UnexpectedCharacter })
    );
    assert_eq!(
        Item::parse("[99999999999999999999999]"),
        Err(ParseError::MalformedDocument { position: 1, reason: Malformation::NumberTooLarge })
    );
}

#[test]
fn multi_digit_numbers() {
    let item = parse("[10,[257],0]");
    assert_eq!(text(&item), "[10,[257],0]");
    assert_eq!(Item::is_ordered(&parse("[10]"), &parse("[9]")), Ordering::Greater);
    assert_eq!(Item::is_ordered(&parse("[12]"), &parse("[12]")), Ordering::Equal);
}

#[test]
fn round_trip_of_rendered_text() {
    for source in ["[]", "[[]]", "[1,[2,[3,[4,[5,6,7]]]],8,9]", "[[4,4],4,4,4]", "[007]"] {
        let item = parse(source);
        let again = parse(&text(&item));
        assert_eq!(text(&again), text(&item));
        assert_eq!(Item::is_ordered(&item, &again), Ordering::Equal);
    }
    assert_eq!(text(&parse("[007]")), "[7]");
}

#[test]
fn reflexive_and_antisymmetric() {
    let samples = ["[1,1,3,1,1]", "[[1],4]", "[9]", "[[8,7,6]]", "[]", "[[]]", "[3]"];
    for a in samples {
        let x = parse(a);
        assert_eq!(Item::is_ordered(&x, &x), Ordering::Equal);
        for b in samples {
            let y = parse(b);
            assert_eq!(Item::is_ordered(&x, &y), Item::is_ordered(&y, &x).reverse());
        }
    }
}

#[test]
fn digit_equals_its_promotion() {
    let lone = Item::Digit(5);
    let wrapped = Item::List(vec![Item::Digit(5)]);
    assert_eq!(Item::is_ordered(&lone, &wrapped), Ordering::Equal);
    assert_eq!(Item::is_ordered(&wrapped, &lone), Ordering::Equal);
}

#[test]
fn one_element_prefix_is_less() {
    let short = Item::List(vec![Item::Digit(4)]);
    let long = Item::List(vec![Item::Digit(4), Item::Digit(1)]);
    assert_eq!(Item::is_ordered(&short, &long), Ordering::Less);
}

#[test]
fn markers() {
    assert!(parse("[[2]]").is_marker(2));
    assert!(!parse("[[2]]").is_marker(6));
    assert!(!parse("[2]").is_marker(2));
    assert!(!parse("[[2,2]]").is_marker(2));
    assert!(!parse("[[[2]]]").is_marker(2));
}

#[test]
fn loader_errors() {
    assert_eq!(parse_pairs("[1]\n[2]\n[3]\n\n[4]"), Err(ParseError::UnpairedDocument));
    assert_eq!(parse_pairs("[1]\n[2]\n[3]"), Err(ParseError::UnpairedDocument));
    assert_eq!(parse_pairs("[1]\n\n[2]"), Err(ParseError::UnpairedDocument));
    assert_eq!(
        parse_packets("[1]\n\n[2\n[3]"),
        Err(ParseError::MalformedDocument { position: 2, reason: Malformation::UnexpectedEnd })
    );
    assert_eq!(parse_packets("\n\n").unwrap().len(), 0);
}
