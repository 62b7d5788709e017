use std::collections::VecDeque;

use advent::monkey::{
    monkey_business, parse_monkies, play, with_common_modulus, Items, Monkey, Operand, Operation,
    Operator, Test, ThrowTo, WorryLevel,
};

const SAMPLE: &str = "Monkey 0:
  Starting items: 79, 98
  Operation: new = old * 19
  Test: divisible by 23
    If true: throw to monkey 2
    If false: throw to monkey 3

Monkey 1:
  Starting items: 54, 65, 75, 74
  Operation: new = old + 6
  Test: divisible by 19
    If true: throw to monkey 2
    If false: throw to monkey 0

Monkey 2:
  Starting items: 79, 60, 97
  Operation: new = old * old
  Test: divisible by 13
    If true: throw to monkey 1
    If false: throw to monkey 3

Monkey 3:
  Starting items: 74
  Operation: new = old + 3
  Test: divisible by 17
    If true: throw to monkey 0
    If false: throw to monkey 1";

fn chars(s: &str) -> Vec<char> {
    s.chars().collect()
}

#[test]
fn twenty_rounds_with_relief() {
    let mut herd = parse_monkies(SAMPLE).unwrap();
    assert!(play(&mut herd, 20));
    assert_eq!(monkey_business(&herd), Some(10605));
}

#[test]
fn many_rounds_with_common_modulus() {
    let mut herd = parse_monkies(SAMPLE).unwrap();
    assert!(with_common_modulus(&mut herd));
    assert!(play(&mut herd, 10_000));
    assert_eq!(monkey_business(&herd), Some(2713310158));
}

#[test]
fn items_are_inspected_in_listed_order() {
    let items = Items::parse(&chars("  Starting items: 79, 98")).unwrap();
    let mut monkey = Monkey {
        items,
        operation: Operation::parse(&chars("  Operation: new = old * 19")).unwrap(),
        test: Test { divisible_by: 23, when_true: ThrowTo(2), when_false: ThrowTo(3) },
        inspected: 0,
    };
    assert!(monkey.can_inspect());
    assert_eq!(monkey.inspect(), Some((WorryLevel { value: 500 }, ThrowTo(3))));
    assert_eq!(monkey.inspect(), Some((WorryLevel { value: 620 }, ThrowTo(3))));
    assert_eq!(monkey.inspect(), None);
    assert_eq!(monkey.inspected, 2);
    monkey.catch(WorryLevel { value: 46 });
    assert_eq!(monkey.inspect(), Some((WorryLevel { value: 291 }, ThrowTo(3))));
}

#[test]
fn worry_with_modulus() {
    let op = Operation { operator: Operator::Multiplication, operand: Operand::Old, modulus: Some(96577) };
    assert_eq!(WorryLevel { value: 1000 }.modify_with(&op).value, 1000 * 1000 % 96577);
    let add = Operation { operator: Operator::Addition, operand: Operand::Value(6), modulus: None };
    assert_eq!(WorryLevel { value: 54 }.modify_with(&add).value, 20);
}

#[test]
fn parse_lines() {
    assert_eq!(
        Operation::parse(&chars("  Operation: new = old * old")),
        Some(Operation { operator: Operator::Multiplication, operand: Operand::Old, modulus: None })
    );
    assert_eq!(
        Operation::parse(&chars("  Operation: new = old + 3")),
        Some(Operation { operator: Operator::Addition, operand: Operand::Value(3), modulus: None })
    );
    assert_eq!(Operation::parse(&chars("  Operation: new = old - 3")), None);
    assert!(Items::parse(&chars("  Starting items: 1,2")).is_none());
    let items = Items::parse(&chars("  Starting items: 5")).unwrap();
    assert_eq!(items.items, VecDeque::from(vec![WorryLevel { value: 5 }]));

    let mut test = Test { divisible_by: 0, when_true: ThrowTo(0), when_false: ThrowTo(0) };
    assert!(test.with_divisible_by(&chars("  Test: divisible by 17")));
    assert!(test.with_truth(&chars("    If true: throw to monkey 0")));
    assert!(test.with_false(&chars("    If false: throw to monkey 1")));
    assert_eq!(test, Test { divisible_by: 17, when_true: ThrowTo(0), when_false: ThrowTo(1) });
    assert!(!test.with_truth(&chars("    If false: throw to monkey 4")));
    assert_eq!(test.when_true, ThrowTo(0));
}

#[test]
fn herd_errors() {
    assert!(parse_monkies("Monkey 0:\n  Starting items: x\n  Operation: new = old * 19\n  Test: divisible by 23\n    If true: throw to monkey 2\n    If false: throw to monkey 3").is_none());
    let mut one = parse_monkies("Monkey 0:\n  Starting items: 1\n  Operation: new = old * 2\n  Test: divisible by 2\n    If true: throw to monkey 1\n    If false: throw to monkey 1").unwrap();
    assert_eq!(monkey_business(&one), None);
    assert!(play(&mut one, 1));
    let mut selfish = parse_monkies("Monkey 0:\n  Starting items: 1\n  Operation: new = old * 2\n  Test: divisible by 2\n    If true: throw to monkey 0\n    If false: throw to monkey 0").unwrap();
    assert!(!play(&mut selfish, 1));
}
