//! Monkeys that pass items around by worry level: their descriptions, their
//! turns and rounds, and the level of monkey business.

use vstd::prelude::*;
use std::collections::VecDeque;
use crate::text::{
    split_lines, to_chars, lines, digits_end, digits_value,
    literal_at, match_literal, lemma_digits_monotone, lemma_digits_end_after,
};
use indexmap::IndexMap;

verus! {

/// How worried one is about an item.
#[derive(Debug, Clone, Copy, PartialEq, Eq, Structural)]
pub struct WorryLevel {
    pub value: u128,
}

#[derive(Debug, Clone, Copy, PartialEq, Eq, Structural)]
pub enum Operator {
    Addition,
    Multiplication,
}

/// The right operand of an operation: a number or the old worry level.
#[derive(Debug, Clone, Copy, PartialEq, Eq, Structural)]
pub enum Operand {
    Value(u128),
    Old,
}

/// How a monkey changes the worry level of an item it inspects. With a
/// modulus the new level is kept modulo it; without one, relief divides it by
/// three.
#[derive(Debug, Clone, Copy, PartialEq, Eq)]
pub struct Operation {
    pub operator: Operator,
    pub operand: Operand,
    pub modulus: Option<u128>,
}

/// The monkey an item is thrown to.
#[derive(Debug, Clone, Copy, PartialEq, Eq, Structural)]
pub struct ThrowTo(pub usize);

/// Where a monkey throws an item: to `when_true` when the worry level is
/// divisible by `divisible_by`, else to `when_false`.
#[derive(Debug, Clone, Copy, PartialEq, Eq, Structural)]
pub struct Test {
    pub divisible_by: u128,
    pub when_true: ThrowTo,
    pub when_false: ThrowTo,
}

/// The items a monkey holds; the back of the queue is inspected first.
#[derive(Debug)]
pub struct Items {
    pub items: VecDeque<WorryLevel>,
}

#[derive(Debug)]
pub struct Monkey {
    pub items: Items,
    pub operation: Operation,
    pub test: Test,
    pub inspected: usize,
}

/// The worry level after the operation, before relief.
pub open spec fn raised(op: Operation, w: int) -> int {
    let rhs = match op.operand {
        Operand::Value(v) => v as int,
        Operand::Old => w,
    };
    match op.operator {
        Operator::Addition => w + rhs,
        Operator::Multiplication => w * rhs,
    }
}

/// The worry level after the operation and relief.
pub open spec fn worry_after(op: Operation, w: int) -> int {
    match op.modulus {
        Some(m) => raised(op, w) % (m as int),
        None => raised(op, w) / 3,
    }
}

/// The operation can run on `w` within `u128`.
pub open spec fn can_raise(op: Operation, w: int) -> bool {
    &&& raised(op, w) <= u128::MAX
    &&& op.modulus != Some(0u128)
}

pub open spec fn target_of(test: Test, w: int) -> ThrowTo {
    if w % (test.divisible_by as int) == 0 {
        test.when_true
    } else {
        test.when_false
    }
}

/// The monkey can inspect its next item without leaving the machine types.
pub open spec fn ready(m: &Monkey) -> bool {
    m.items.items@.len() == 0 || {
        &&& can_raise(m.operation, m.items.items@.last().value as int)
        &&& m.test.divisible_by != 0
        &&& m.inspected < usize::MAX
    }
}

impl WorryLevel {
    /// The worry level after `operation` and relief.
    pub fn modify_with(self, operation: &Operation) -> (r: Self)
        requires
            can_raise(*operation, self.value as int),
        ensures
            r.value == worry_after(*operation, self.value as int),
    {
        let rhs = match operation.operand {
            Operand::Value(v) => v,
            Operand::Old => self.value,
        };
        let updated_level = match operation.operator {
            Operator::Addition => self.value + rhs,
            Operator::Multiplication => self.value * rhs,
        };
        match operation.modulus {
            Some(modulus) => WorryLevel { value: updated_level % modulus },
            None => WorryLevel { value: updated_level / 3 },
        }
    }
}

impl Monkey {
    /// Whether the next inspection stays within the machine types.
    pub fn can_inspect(&self) -> (r: bool)
        ensures
            r == ready(self),
    {
        if self.items.items.len() == 0 {
            return true;
        }
        if self.test.divisible_by == 0 || self.inspected == usize::MAX {
            return false;
        }
        if self.operation.modulus == Some(0u128) {
            return false;
        }
        let n = self.items.items.len();
        let w = self.items.items[n - 1].value;
        let rhs = match self.operation.operand {
            Operand::Value(v) => v,
            Operand::Old => w,
        };
        match self.operation.operator {
            Operator::Addition => w <= u128::MAX - rhs,
            Operator::Multiplication => {
                if rhs == 0 {
                    return true;
                }
                proof {
                    assert((w <= u128::MAX / rhs) == (w * rhs <= u128::MAX)) by (nonlinear_arith)
                        requires
                            rhs > 0,
                    ;
                }
                w <= u128::MAX / rhs
            },
        }
    }

    /// Inspects the next item: its new worry level and the monkey it goes
    /// to; `None` when the monkey holds no item.
    pub fn inspect(&mut self) -> (r: Option<(WorryLevel, ThrowTo)>)
        requires
            ready(old(self)),
        ensures
            old(self).items.items@.len() == 0 ==> r is None && final(self).items.items@ == old(
                self,
            ).items.items@ && final(self).inspected == old(self).inspected,
            old(self).items.items@.len() > 0 ==> {
                let w = worry_after(old(self).operation, old(self).items.items@.last().value as int);
                &&& r == Some((WorryLevel { value: w as u128 }, target_of(old(self).test, w)))
                &&& final(self).items.items@ == old(self).items.items@.drop_last()
                &&& final(self).inspected == old(self).inspected + 1
            },
            final(self).operation == old(self).operation,
            final(self).test == old(self).test,
    {
        let worry_level = match self.items.items.pop_back() {
            Some(w) => w,
            None => {
                return None;
            },
        };
        let worry_level = worry_level.modify_with(&self.operation);
        let throw_to = self.get_throw_target(&worry_level);
        self.inspected = self.inspected + 1;
        Some((worry_level, throw_to))
    }

    /// Receives a thrown item at the front of the queue.
    pub fn catch(&mut self, item: WorryLevel)
        ensures
            final(self).items.items@ == seq![item] + old(self).items.items@,
            final(self).operation == old(self).operation,
            final(self).test == old(self).test,
            final(self).inspected == old(self).inspected,
    {
        self.items.items.push_front(item);
    }

    /// The monkey that an item with this worry level goes to.
    fn get_throw_target(&self, worry_level: &WorryLevel) -> (r: ThrowTo)
        requires
            self.test.divisible_by != 0,
        ensures
            r == target_of(self.test, worry_level.value as int),
    {
        if worry_level.value % self.test.divisible_by == 0 {
            self.test.when_true
        } else {
            self.test.when_false
        }
    }
}

/// The first position at or after `i` that is not a space.
pub open spec fn indent_end(s: Seq<char>, i: int) -> int
    decreases s.len() - i,
{
    if 0 <= i < s.len() && s[i] == ' ' {
        indent_end(s, i + 1)
    } else {
        i
    }
}

/// A number that starts at `i` and fits in a `u128`, and the position after
/// it.
pub open spec fn number_at(s: Seq<char>, i: int) -> Option<(u128, int)> {
    let e = digits_end(s, i);
    if 0 <= i && e > i && digits_value(s, i, e) <= u128::MAX {
        Some((digits_value(s, i, e) as u128, e))
    } else {
        None
    }
}


/// After the indentation, `label` and then a number that ends the line.
pub open spec fn labelled_number(line: Seq<char>, label: Seq<char>) -> Option<u128> {
    let i = indent_end(line, 0);
    if literal_at(line, i, label) {
        match number_at(line, i + label.len()) {
            Some((v, e)) => if e == line.len() {
                Some(v)
            } else {
                None
            },
            None => None,
        }
    } else {
        None
    }
}

/// Numbers separated by `, ` from position `i` to the end of the line.
pub open spec fn number_list(s: Seq<char>, i: int) -> Option<Seq<u128>>
    decreases s.len() - i,
{
    match number_at(s, i) {
        None => None,
        Some((v, e)) => if e == s.len() {
            Some(seq![v])
        } else if i < e && e + 2 <= s.len() && s[e] == ',' && s[e + 1] == ' ' {
            match number_list(s, e + 2) {
                None => None,
                Some(vs) => Some(seq![v] + vs),
            }
        } else {
            None
        },
    }
}

pub open spec fn items_label() -> Seq<char> {
    "Starting items: "@
}

pub open spec fn operation_label() -> Seq<char> {
    "Operation: new = old "@
}

pub open spec fn divisor_label() -> Seq<char> {
    "Test: divisible by "@
}

pub open spec fn true_label() -> Seq<char> {
    "If true: throw to monkey "@
}

pub open spec fn false_label() -> Seq<char> {
    "If false: throw to monkey "@
}

/// The worry levels of an items line, listed first to last.
pub open spec fn items_of(line: Seq<char>) -> Option<Seq<u128>> {
    let i = indent_end(line, 0);
    if literal_at(line, i, items_label()) {
        number_list(line, i + items_label().len())
    } else {
        None
    }
}

/// The operation of an operation line, such as `Operation: new = old * 19`
/// or `Operation: new = old * old`; it has no modulus.
pub open spec fn operation_of(line: Seq<char>) -> Option<Operation> {
    let i = indent_end(line, 0) + operation_label().len();
    if literal_at(line, indent_end(line, 0), operation_label()) && i + 2 < line.len() && line[i
        + 1] == ' ' && (line[i] == '+' || line[i] == '*') {
        let operator = if line[i] == '+' {
            Operator::Addition
        } else {
            Operator::Multiplication
        };
        let rest = i + 2;
        if line.len() == rest + 3 && line[rest] == 'o' && line[rest + 1] == 'l' && line[rest + 2]
            == 'd' {
            Some(Operation { operator, operand: Operand::Old, modulus: None })
        } else {
            match number_at(line, rest) {
                Some((v, e)) => if e == line.len() {
                    Some(Operation { operator, operand: Operand::Value(v), modulus: None })
                } else {
                    None
                },
                None => None,
            }
        }
    } else {
        None
    }
}

/// The items listed first to last, held so that the first is inspected
/// first.
pub open spec fn held(vs: Seq<u128>) -> Seq<WorryLevel> {
    Seq::new(vs.len(), |k: int| WorryLevel { value: vs[vs.len() - 1 - k] })
}

fn skip_indent(s: &Vec<char>) -> (r: usize)
    ensures
        r == indent_end(s@, 0),
{
    let mut i: usize = 0;
    while i < s.len() && s[i] == ' '
        invariant
            i <= s@.len(),
            indent_end(s@, 0) == indent_end(s@, i as int),
        decreases s.len() - i,
    {
        i = i + 1;
    }
    i
}



/// Reads the number that starts at position `at`.
fn parse_number(s: &Vec<char>, at: usize) -> (r: Option<(u128, usize)>)
    ensures
        match r {
            Some((v, e)) => number_at(s@, at as int) == Some((v, e as int)) && e <= s@.len(),
            None => number_at(s@, at as int) is None,
        },
{
    let mut v: u128 = 0;
    let mut j: usize = at;
    if at > s.len() {
        return None;
    }
    while j < s.len() && '0' <= s[j] && s[j] <= '9'
        invariant
            at <= j <= s@.len(),
            v == digits_value(s@, at as int, j as int),
            digits_end(s@, at as int) == digits_end(s@, j as int),
        decreases s.len() - j,
    {
        let d = (s[j] as u32 - '0' as u32) as u128;
        if v > (u128::MAX - d) / 10 {
            proof {
                assert(v * 10 + d > u128::MAX) by (nonlinear_arith)
                    requires
                        v > (u128::MAX - d) / 10,
                        d <= 9,
                ;
                assert(digits_value(s@, at as int, j + 1) == v * 10 + d);
                lemma_digits_end_after(s@, j + 1);
                lemma_digits_monotone(s@, at as int, j + 1, digits_end(s@, at as int));
            }
            return None;
        }
        proof {
            assert(v * 10 + d <= u128::MAX) by (nonlinear_arith)
                requires
                    v <= (u128::MAX - d) / 10,
                    d <= 9,
            ;
        }
        v = v * 10 + d;
        j = j + 1;
    }
    assert(digits_end(s@, j as int) == j);
    if j == at {
        return None;
    }
    Some((v, j))
}


/// Reads `label` after the indentation and a number that ends the line.
fn parse_labelled(line: &Vec<char>, label: &str) -> (r: Option<u128>)
    ensures
        r == labelled_number(line@, label@),
{
    let i = skip_indent(line);
    let lit = to_chars(label);
    if !match_literal(line, i, &lit) {
        return None;
    }
    let n = line.len();
    match parse_number(line, i + lit.len()) {
        Some((v, e)) => if e == line.len() {
            Some(v)
        } else {
            None
        },
        None => None,
    }
}

impl Items {
    /// Reads an items line such as `  Starting items: 79, 98`.
    pub fn parse(line: &Vec<char>) -> (r: Option<Items>)
        ensures
            match r {
                Some(it) => items_of(line@) is Some && it.items@ == held(items_of(line@)->0),
                None => items_of(line@) is None,
            },
    {
        let i = skip_indent(line);
        let lit = to_chars("Starting items: ");
        if !match_literal(line, i, &lit) {
            return None;
        }
        let n = line.len();
        let start = i + lit.len();
        let mut items: VecDeque<WorryLevel> = VecDeque::new();
        let ghost mut listed: Seq<u128> = seq![];
        let mut at: usize = start;
        assert(items@ =~= held(listed));
        loop
            invariant
                start <= at <= line@.len(),
                start == indent_end(line@, 0) + items_label().len(),
                literal_at(line@, indent_end(line@, 0), items_label()),
                items@ == held(listed),
                number_list(line@, start as int) == (match number_list(line@, at as int) {
                    Some(vs) => Some(listed + vs),
                    None => None,
                }),
            decreases line@.len() - at,
        {
            let (v, e) = match parse_number(line, at) {
                Some(p) => p,
                None => {
                    return None;
                },
            };
            proof {
                lemma_digits_end_after(line@, at as int);
            }
            let ghost before = listed;
            items.push_front(WorryLevel { value: v });
            proof {
                listed = listed.push(v);
                assert(items@ =~= held(listed));
            }
            if e == line.len() {
                proof {
                    assert(before + seq![v] =~= listed);
                }
                return Some(Items { items });
            }
            if line.len() - e >= 2 && line[e] == ',' && line[e + 1] == ' ' {
                proof {
                    if let Some(vs) = number_list(line@, e + 2) {
                        assert(before + (seq![v] + vs) =~= listed + vs);
                    }
                }
                at = e + 2;
            } else {
                return None;
            }
        }
    }
}

impl Operation {
    /// Reads an operation line such as `  Operation: new = old * 19`.
    pub fn parse(line: &Vec<char>) -> (r: Option<Operation>)
        ensures
            r == operation_of(line@),
    {
        let start = skip_indent(line);
        let lit = to_chars("Operation: new = old ");
        if !match_literal(line, start, &lit) {
            return None;
        }
        let n = line.len();
        let i = start + lit.len();
        if !(n - i > 2 && line[i + 1] == ' ' && (line[i] == '+' || line[i] == '*')) {
            return None;
        }
        let operator = if line[i] == '+' {
            Operator::Addition
        } else {
            Operator::Multiplication
        };
        let rest = i + 2;
        if line.len() - rest == 3 && line[rest] == 'o' && line[rest + 1] == 'l' && line[rest + 2]
            == 'd' {
            return Some(Operation { operator, operand: Operand::Old, modulus: None });
        }
        match parse_number(line, rest) {
            Some((v, e)) => if e == line.len() {
                Some(Operation { operator, operand: Operand::Value(v), modulus: None })
            } else {
                None
            },
            None => None,
        }
    }
}

impl Test {
    /// Reads the divisor from a line such as `  Test: divisible by 23`;
    /// `false`, and no change, when the line is not one.
    pub fn with_divisible_by(&mut self, line: &Vec<char>) -> (r: bool)
        ensures
            r == (labelled_number(line@, divisor_label()) is Some),
            r ==> *final(self) == (Test {
                divisible_by: labelled_number(line@, divisor_label())->0,
                ..*old(self)
            }),
            !r ==> *final(self) == *old(self),
    {
        match parse_labelled(line, "Test: divisible by ") {
            Some(v) => {
                self.divisible_by = v;
                true
            },
            None => false,
        }
    }

    /// Reads the monkey for divisible levels from a line such as
    /// `    If true: throw to monkey 2`.
    pub fn with_truth(&mut self, line: &Vec<char>) -> (r: bool)
        ensures
            r == (labelled_number(line@, true_label()) matches Some(v) && v <= usize::MAX),
            r ==> *final(self) == (Test {
                when_true: ThrowTo(labelled_number(line@, true_label())->0 as usize),
                ..*old(self)
            }),
            !r ==> *final(self) == *old(self),
    {
        match parse_labelled(line, "If true: throw to monkey ") {
            Some(v) => {
                if v > usize::MAX as u128 {
                    return false;
                }
                self.when_true = ThrowTo(v as usize);
                true
            },
            None => false,
        }
    }

    /// Reads the monkey for other levels from a line such as
    /// `    If false: throw to monkey 3`.
    pub fn with_false(&mut self, line: &Vec<char>) -> (r: bool)
        ensures
            r == (labelled_number(line@, false_label()) matches Some(v) && v <= usize::MAX),
            r ==> *final(self) == (Test {
                when_false: ThrowTo(labelled_number(line@, false_label())->0 as usize),
                ..*old(self)
            }),
            !r ==> *final(self) == *old(self),
    {
        match parse_labelled(line, "If false: throw to monkey ") {
            Some(v) => {
                if v > usize::MAX as u128 {
                    return false;
                }
                self.when_false = ThrowTo(v as usize);
                true
            },
            None => false,
        }
    }
}

/// The model of a monkey.
pub struct MonkeyModel {
    pub items: Seq<WorryLevel>,
    pub operation: Operation,
    pub test: Test,
    pub inspected: usize,
}

impl View for Monkey {
    type V = MonkeyModel;

    open spec fn view(&self) -> MonkeyModel {
        MonkeyModel {
            items: self.items.items@,
            operation: self.operation,
            test: self.test,
            inspected: self.inspected,
        }
    }
}

impl Monkey {
    /// A monkey that holds nothing and throws to monkey 0.
    pub fn empty() -> (r: Monkey)
        ensures
            r@ == blank(),
    {
        let r = Monkey {
            items: Items { items: VecDeque::new() },
            operation: Operation { operator: Operator::Addition, operand: Operand::Value(0), modulus: None },
            test: Test { divisible_by: 0, when_true: ThrowTo(0), when_false: ThrowTo(0) },
            inspected: 0,
        };
        assert(r@.items =~= Seq::<WorryLevel>::empty());
        r
    }
}

pub open spec fn blank() -> MonkeyModel {
    MonkeyModel {
        items: seq![],
        operation: Operation { operator: Operator::Addition, operand: Operand::Value(0), modulus: None },
        test: Test { divisible_by: 0, when_true: ThrowTo(0), when_false: ThrowTo(0) },
        inspected: 0,
    }
}

/// The insertion-ordered map of `indexmap`, which holds a herd keyed by
/// monkey number; its contents are seen only through `herd_contents`.
#[verifier::external_type_specification]
#[verifier::external_body]
#[verifier::reject_recursive_types(K)]
#[verifier::reject_recursive_types(V)]
#[verifier::reject_recursive_types(S)]
pub struct ExIndexMap<K, V, S>(indexmap::IndexMap<K, V, S>);

/// The monkeys of a herd, by number.
pub uninterp spec fn herd_contents(h: IndexMap<usize, Monkey>) -> Map<usize, MonkeyModel>;

pub open spec fn no_monkeys() -> Map<usize, MonkeyModel> {
    Map::empty()
}

/// Relies on `IndexMap::new`: a map without entries.
#[verifier::external_body]
fn herd_new() -> (r: IndexMap<usize, Monkey>)
    ensures
        herd_contents(r) == no_monkeys(),
{
    IndexMap::new()
}

/// Relies on `IndexMap::insert`: afterwards the key maps to the new value,
/// and the value it mapped to before, if any, is handed back.
#[verifier::external_body]
fn herd_insert(h: &mut IndexMap<usize, Monkey>, key: usize, monkey: Monkey) -> (r: Option<Monkey>)
    ensures
        herd_contents(*final(h)) == herd_contents(*old(h)).insert(key, monkey@),
        match r {
            Some(m) => herd_contents(*old(h)).contains_key(key) && m@ == herd_contents(*old(h))[key],
            None => !herd_contents(*old(h)).contains_key(key),
        },
{
    h.insert(key, monkey)
}

/// Relies on `IndexMap::len`: the number of entries.
#[verifier::external_body]
fn herd_len(h: &IndexMap<usize, Monkey>) -> (r: usize)
    ensures
        r == herd_contents(*h).len(),
{
    h.len()
}

/// Relies on `IndexMap::get`: the value at a key, if any, of which the
/// inspection count and the divisor are handed out.
#[verifier::external_body]
fn herd_get(h: &IndexMap<usize, Monkey>, key: usize) -> (r: Option<(usize, u128)>)
    ensures
        match r {
            Some((count, divisor)) => herd_contents(*h).contains_key(key) && count == herd_contents(
                *h,
            )[key].inspected && divisor == herd_contents(*h)[key].test.divisible_by,
            None => !herd_contents(*h).contains_key(key),
        },
{
    h.get(&key).map(|m| (m.inspected, m.test.divisible_by))
}

/// The monkeys numbered `0` up to the length of `ms`.
pub open spec fn numbered(ms: Seq<MonkeyModel>) -> Map<usize, MonkeyModel> {
    Map::new(|k: usize| k < ms.len(), |k: usize| ms[k as int])
}

pub open spec fn model_ready(m: MonkeyModel) -> bool {
    m.items.len() == 0 || {
        &&& can_raise(m.operation, m.items.last().value as int)
        &&& m.test.divisible_by != 0
        &&& m.inspected < usize::MAX
    }
}

/// The herd after monkey `target`, if there is one, catches `w`.
pub open spec fn thrown(h: Map<usize, MonkeyModel>, target: usize, w: WorryLevel) -> Map<
    usize,
    MonkeyModel,
> {
    if h.contains_key(target) {
        h.insert(target, MonkeyModel { items: seq![w] + h[target].items, ..h[target] })
    } else {
        h
    }
}

/// The turn of monkey `idx`: it inspects and throws each item it holds, in
/// order. `None` when an inspection would leave the machine types or the
/// monkey would throw to itself.
pub open spec fn turn(h: Map<usize, MonkeyModel>, idx: usize) -> Option<Map<usize, MonkeyModel>>
    decreases h[idx].items.len(),
{
    if !h.contains_key(idx) || h[idx].items.len() == 0 {
        Some(h)
    } else {
        let m = h[idx];
        if !model_ready(m) {
            None
        } else {
            let w = worry_after(m.operation, m.items.last().value as int);
            let t = target_of(m.test, w).0;
            if t == idx {
                None
            } else {
                let after = MonkeyModel {
                    items: m.items.drop_last(),
                    inspected: (m.inspected + 1) as usize,
                    ..m
                };
                turn(thrown(h.insert(idx, after), t, WorryLevel { value: w as u128 }), idx)
            }
        }
    }
}

/// The turns of monkeys `idx` up to `n`, one after the other.
pub open spec fn turns_from(h: Map<usize, MonkeyModel>, idx: int, n: int) -> Option<
    Map<usize, MonkeyModel>,
>
    decreases n - idx,
{
    if idx >= n {
        Some(h)
    } else {
        match turn(h, idx as usize) {
            None => None,
            Some(h2) => turns_from(h2, idx + 1, n),
        }
    }
}

/// `k` rounds of the `n` monkeys.
pub open spec fn rounds(h: Map<usize, MonkeyModel>, n: int, k: nat) -> Option<Map<usize, MonkeyModel>>
    decreases k,
{
    if k == 0 {
        Some(h)
    } else {
        match rounds(h, n, (k - 1) as nat) {
            None => None,
            Some(h2) => turns_from(h2, 0, n),
        }
    }
}

/// Plays the turn of monkey `idx`; `false` when the turn cannot be played
/// (see `turn`).
fn play_turn(h: &mut IndexMap<usize, Monkey>, idx: usize) -> (r: bool)
    ensures
        r == turn(herd_contents(*old(h)), idx) is Some,
        r ==> herd_contents(*final(h)) == turn(herd_contents(*old(h)), idx)->0,
{
    if herd_get(h, idx).is_none() {
        return true;
    }
    loop
        invariant
            herd_contents(*h).contains_key(idx),
            turn(herd_contents(*old(h)), idx) == turn(herd_contents(*h), idx),
        decreases herd_contents(*h)[idx].items.len(),
    {
        let ghost before = herd_contents(*h);
        let mut monkey = match herd_insert(h, idx, Monkey::empty()) {
            Some(m) => m,
            None => {
                return true;
            },
        };
        if monkey.items.items.len() == 0 {
            herd_insert(h, idx, monkey);
            proof {
                assert(herd_contents(*h) =~= before);
            }
            return true;
        }
        if !monkey.can_inspect() {
            herd_insert(h, idx, monkey);
            proof {
                assert(herd_contents(*h) =~= before);
            }
            return false;
        }
        let (item, target) = match monkey.inspect() {
            Some(thrown) => thrown,
            None => {
                return false;
            },
        };
        if target.0 == idx {
            return false;
        }
        herd_insert(h, idx, monkey);
        let ghost middle = herd_contents(*h);
        proof {
            assert(middle =~= before.insert(idx, monkey@));
        }
        if herd_get(h, target.0).is_some() {
            let ghost caught = middle[target.0];
            match herd_insert(h, target.0, Monkey::empty()) {
                Some(mut catcher) => {
                    catcher.catch(item);
                    proof {
                        assert(catcher@ == MonkeyModel { items: seq![item] + caught.items, ..caught });
                    }
                    herd_insert(h, target.0, catcher);
                    proof {
                        assert(herd_contents(*h) =~= thrown(middle, target.0, item));
                    }
                },
                None => {
                    return false;
                },
            }
        } else {
            proof {
                assert(herd_contents(*h) =~= thrown(middle, target.0, item));
            }
        }
    }
}

/// Plays `rounds` rounds: in each, the monkeys `0` up to the size of the
/// herd take their turns in order. `false` when a turn cannot be played.
pub fn play(h: &mut IndexMap<usize, Monkey>, rounds_to_play: usize) -> (r: bool)
    ensures
        r == rounds(herd_contents(*old(h)), herd_contents(*old(h)).len() as int, rounds_to_play as nat) is Some,
        r ==> herd_contents(*final(h)) == rounds(
            herd_contents(*old(h)),
            herd_contents(*old(h)).len() as int,
            rounds_to_play as nat,
        )->0,
{
    let n = herd_len(h);
    let ghost start = herd_contents(*h);
    let mut k: usize = 0;
    while k < rounds_to_play
        invariant
            n == start.len(),
            start == herd_contents(*old(h)),
            k <= rounds_to_play,
            rounds(start, n as int, k as nat) == Some(herd_contents(*h)),
        decreases rounds_to_play - k,
    {
        let ghost round_start = herd_contents(*h);
        let mut idx: usize = 0;
        while idx < n
            invariant
                idx <= n,
                start == herd_contents(*old(h)),
                k < rounds_to_play,
                n == start.len(),
                rounds(start, n as int, k as nat) == Some(round_start),
                turns_from(round_start, 0, n as int) == turns_from(herd_contents(*h), idx as int, n as int),
            decreases n - idx,
        {
            if !play_turn(h, idx) {
                proof {
                    assert(rounds(start, n as int, (k + 1) as nat) is None);
                    lemma_rounds_stop(start, n as int, (k + 1) as nat, rounds_to_play as nat);
                }
                return false;
            }
            idx = idx + 1;
        }
        k = k + 1;
    }
    true
}

proof fn lemma_rounds_stop(h: Map<usize, MonkeyModel>, n: int, k: nat, total: nat)
    requires
        k <= total,
        rounds(h, n, k) is None,
    ensures
        rounds(h, n, total) is None,
    decreases total - k,
{
    if k < total {
        lemma_rounds_stop(h, n, k + 1, total);
    }
}

/// The product of the divisors of the monkeys numbered below `k`.
pub open spec fn divisor_product(h: Map<usize, MonkeyModel>, k: int) -> int
    decreases k,
{
    if k <= 0 {
        1
    } else {
        divisor_product(h, k - 1) * if h.contains_key((k - 1) as usize) {
            h[(k - 1) as usize].test.divisible_by as int
        } else {
            1int
        }
    }
}

/// The herd with the modulus `m` set on the monkeys numbered below `n`.
pub open spec fn with_modulus(h: Map<usize, MonkeyModel>, n: int, m: u128) -> Map<usize, MonkeyModel> {
    Map::new(
        |k: usize| h.contains_key(k),
        |k: usize|
            if k < n {
                MonkeyModel { operation: Operation { modulus: Some(m), ..h[k].operation }, ..h[k] }
            } else {
                h[k]
            },
    )
}

/// The running product of the divisors stays within `u128`.
pub open spec fn product_fits(h: Map<usize, MonkeyModel>, n: int) -> bool {
    forall|k: int| 0 <= k <= n ==> #[trigger] divisor_product(h, k) <= u128::MAX
}

/// Keeps worry levels small: sets, as every monkey's modulus, the product
/// of all the divisors, which keeps each test's outcome. `false`, and no
/// change, when the product does not fit in a `u128`.
pub fn with_common_modulus(h: &mut IndexMap<usize, Monkey>) -> (r: bool)
    ensures
        r == product_fits(herd_contents(*old(h)), herd_contents(*old(h)).len() as int),
        r ==> herd_contents(*final(h)) == with_modulus(
            herd_contents(*old(h)),
            herd_contents(*old(h)).len() as int,
            divisor_product(herd_contents(*old(h)), herd_contents(*old(h)).len() as int) as u128,
        ),
        !r ==> herd_contents(*final(h)) == herd_contents(*old(h)),
{
    let n = herd_len(h);
    let ghost start = herd_contents(*h);
    let mut product: u128 = 1;
    let mut k: usize = 0;
    while k < n
        invariant
            n == start.len(),
            start == herd_contents(*h),
            k <= n,
            product == divisor_product(start, k as int),
            forall|j: int| 0 <= j <= k ==> #[trigger] divisor_product(start, j) <= u128::MAX,
        decreases n - k,
    {
        let d: u128 = match herd_get(h, k) {
            Some((_, divisor)) => divisor,
            None => 1,
        };
        if d != 0 && product > u128::MAX / d {
            proof {
                assert(product * d > u128::MAX) by (nonlinear_arith)
                    requires
                        d > 0,
                        product > u128::MAX / d,
                ;
                assert(divisor_product(start, k + 1) > u128::MAX);
            }
            return false;
        }
        proof {
            if d != 0 {
                assert(product * d <= u128::MAX) by (nonlinear_arith)
                    requires
                        d > 0,
                        product <= u128::MAX / d,
                ;
            }
        }
        product = product * d;
        k = k + 1;
    }
    let mut k: usize = 0;
    while k < n
        invariant
            n == start.len(),
            k <= n,
            product == divisor_product(start, n as int),
            product_fits(start, n as int),
            herd_contents(*h) == Map::new(
                |j: usize| start.contains_key(j),
                |j: usize|
                    if j < k {
                        MonkeyModel {
                            operation: Operation { modulus: Some(product), ..start[j].operation },
                            ..start[j]
                        }
                    } else {
                        start[j]
                    },
            ),
        decreases n - k,
    {
        if herd_get(h, k).is_some() {
            match herd_insert(h, k, Monkey::empty()) {
                Some(mut monkey) => {
                    monkey.operation.modulus = Some(product);
                    herd_insert(h, k, monkey);
                },
                None => {},
            }
        }
        proof {
            assert(herd_contents(*h) =~= Map::new(
                |j: usize| start.contains_key(j),
                |j: usize|
                    if j < k + 1 {
                        MonkeyModel {
                            operation: Operation { modulus: Some(product), ..start[j].operation },
                            ..start[j]
                        }
                    } else {
                        start[j]
                    },
            ));
        }
        k = k + 1;
    }
    proof {
        assert(herd_contents(*h) =~= with_modulus(start, n as int, product));
    }
    true
}

/// How many of the monkeys numbered below `k` the herd holds.
pub open spec fn present(h: Map<usize, MonkeyModel>, k: int) -> int
    decreases k,
{
    if k <= 0 {
        0
    } else {
        present(h, k - 1) + if h.contains_key((k - 1) as usize) {
            1int
        } else {
            0int
        }
    }
}

/// The two largest inspection counts among the monkeys numbered below `k`,
/// largest first (zero where there are fewer monkeys).
pub open spec fn top_two(h: Map<usize, MonkeyModel>, k: int) -> (int, int)
    decreases k,
{
    if k <= 0 {
        (0, 0)
    } else {
        let (a, b) = top_two(h, k - 1);
        if h.contains_key((k - 1) as usize) {
            let c = h[(k - 1) as usize].inspected as int;
            if c > a {
                (c, a)
            } else if c > b {
                (a, c)
            } else {
                (a, b)
            }
        } else {
            (a, b)
        }
    }
}

proof fn lemma_top_two_bounds(h: Map<usize, MonkeyModel>, k: int)
    ensures
        0 <= top_two(h, k).1 <= top_two(h, k).0 <= usize::MAX,
        0 <= present(h, k),
    decreases k,
{
    if k > 0 {
        lemma_top_two_bounds(h, k - 1);
    }
}

/// The level of monkey business: the product of the two largest inspection
/// counts; `None` when the herd holds fewer than two of the monkeys numbered
/// below its size.
pub fn monkey_business(h: &IndexMap<usize, Monkey>) -> (r: Option<u128>)
    ensures
        match r {
            Some(v) => present(herd_contents(*h), herd_contents(*h).len() as int) >= 2 && v == top_two(
                herd_contents(*h),
                herd_contents(*h).len() as int,
            ).0 * top_two(herd_contents(*h), herd_contents(*h).len() as int).1,
            None => present(herd_contents(*h), herd_contents(*h).len() as int) < 2,
        },
{
    let n = herd_len(h);
    let ghost c = herd_contents(*h);
    let mut first: usize = 0;
    let mut second: usize = 0;
    let mut count: usize = 0;
    let mut k: usize = 0;
    while k < n
        invariant
            n == c.len(),
            c == herd_contents(*h),
            k <= n,
            (first as int, second as int) == top_two(c, k as int),
            count == present(c, k as int),
            count <= k,
        decreases n - k,
    {
        match herd_get(h, k) {
            Some((inspected, _)) => {
                if inspected > first {
                    second = first;
                    first = inspected;
                } else if inspected > second {
                    second = inspected;
                }
                count = count + 1;
            },
            None => {},
        }
        k = k + 1;
    }
    if count < 2 {
        return None;
    }
    proof {
        lemma_top_two_bounds(c, n as int);
        assert(first as u128 * second as u128 <= u128::MAX) by (nonlinear_arith)
            requires
                first <= usize::MAX,
                second <= usize::MAX,
                usize::MAX <= u64::MAX,
        ;
    }
    Some(first as u128 * second as u128)
}

/// A line of spaces only, or an empty one.
pub open spec fn is_blank(line: Seq<char>) -> bool {
    forall|k: int| 0 <= k < line.len() ==> line[k] == ' '
}

/// The lines that are not blank, in order.
pub open spec fn nonblank(ls: Seq<Seq<char>>) -> Seq<Seq<char>>
    decreases ls.len(),
{
    if ls.len() == 0 {
        seq![]
    } else if is_blank(ls.last()) {
        nonblank(ls.drop_last())
    } else {
        nonblank(ls.drop_last()).push(ls.last())
    }
}

/// The monkey described by six lines: a heading, which is not read, its
/// items, its operation, its divisor and the monkeys it throws to.
pub open spec fn monkey_from(g: Seq<Seq<char>>) -> Option<MonkeyModel> {
    match (
        items_of(g[1]),
        operation_of(g[2]),
        labelled_number(g[3], divisor_label()),
        labelled_number(g[4], true_label()),
        labelled_number(g[5], false_label()),
    ) {
        (Some(vs), Some(op), Some(d), Some(t), Some(f)) => if t <= usize::MAX && f <= usize::MAX {
            Some(
                MonkeyModel {
                    items: held(vs),
                    operation: op,
                    test: Test {
                        divisible_by: d,
                        when_true: ThrowTo(t as usize),
                        when_false: ThrowTo(f as usize),
                    },
                    inspected: 0,
                },
            )
        } else {
            None
        },
        _ => None,
    }
}

/// The first `k` monkeys described by groups of six non-blank lines.
pub open spec fn monkeys_of(nb: Seq<Seq<char>>, k: int) -> Option<Seq<MonkeyModel>>
    decreases k,
{
    if k <= 0 {
        Some(seq![])
    } else {
        match monkeys_of(nb, k - 1) {
            None => None,
            Some(ms) => match monkey_from(nb.subrange(6 * (k - 1), 6 * k)) {
                None => None,
                Some(m) => Some(ms.push(m)),
            },
        }
    }
}

/// The monkeys of a text: one per group of six non-blank lines; lines after
/// the last whole group are not read.
pub open spec fn herd_of(s: Seq<char>) -> Option<Seq<MonkeyModel>> {
    let nb = nonblank(split_lines(s));
    monkeys_of(nb, nb.len() as int / 6)
}

fn is_blank_line(line: &Vec<char>) -> (r: bool)
    ensures
        r == is_blank(line@),
{
    let mut k: usize = 0;
    while k < line.len()
        invariant
            k <= line@.len(),
            forall|m: int| 0 <= m < k ==> line@[m] == ' ',
        decreases line.len() - k,
    {
        if line[k] != ' ' {
            return false;
        }
        k = k + 1;
    }
    true
}

/// Reads the monkey whose six lines start at `at` in `ls`, through `keep`.
fn parse_monkey(ls: &Vec<Vec<char>>, keep: &Vec<usize>, at: usize) -> (r: Option<Monkey>)
    requires
        at + 6 <= keep@.len(),
        forall|m: int| 0 <= m < keep@.len() ==> #[trigger] keep@[m] < ls@.len(),
    ensures
        match r {
            Some(monkey) => monkey_from(
                Seq::new(6, |m: int| ls@[keep@[at + m] as int]@),
            ) == Some(monkey@),
            None => monkey_from(Seq::new(6, |m: int| ls@[keep@[at + m] as int]@)) is None,
        },
{
    let n = keep.len();
    let ghost g = Seq::new(6, |m: int| ls@[keep@[at + m] as int]@);
    assert(g[1] == ls@[keep@[at + 1] as int]@);
    assert(g[2] == ls@[keep@[at + 2] as int]@);
    assert(g[3] == ls@[keep@[at + 3] as int]@);
    assert(g[4] == ls@[keep@[at + 4] as int]@);
    assert(g[5] == ls@[keep@[at + 5] as int]@);
    let items = match Items::parse(&ls[keep[at + 1]]) {
        Some(items) => items,
        None => {
            return None;
        },
    };
    let operation = match Operation::parse(&ls[keep[at + 2]]) {
        Some(op) => op,
        None => {
            return None;
        },
    };
    let mut test = Test { divisible_by: 0, when_true: ThrowTo(0), when_false: ThrowTo(0) };
    if !test.with_divisible_by(&ls[keep[at + 3]]) {
        return None;
    }
    if !test.with_truth(&ls[keep[at + 4]]) {
        return None;
    }
    if !test.with_false(&ls[keep[at + 5]]) {
        return None;
    }
    Some(Monkey { items, operation, test, inspected: 0 })
}

/// Reads a herd: the monkeys numbered from 0, one per group of six
/// non-blank lines. `None` when a group does not describe a monkey.
pub fn parse_monkies(input: &str) -> (r: Option<IndexMap<usize, Monkey>>)
    ensures
        match r {
            Some(h) => herd_of(input@) is Some && herd_contents(h) == numbered(herd_of(input@)->0),
            None => herd_of(input@) is None,
        },
{
    let chars = to_chars(input);
    let ls = lines(&chars);
    let ghost all = split_lines(input@);
    let mut keep: Vec<usize> = Vec::new();
    let mut k: usize = 0;
    assert(all.take(0) =~= seq![]);
    while k < ls.len()
        invariant
            k <= ls@.len(),
            ls@.len() == all.len(),
            forall|m: int| 0 <= m < ls@.len() ==> #[trigger] ls@[m]@ == all[m],
            forall|m: int| 0 <= m < keep@.len() ==> #[trigger] keep@[m] < k,
            nonblank(all.take(k as int)) == Seq::new(keep@.len(), |m: int| all[keep@[m] as int]),
        decreases ls.len() - k,
    {
        proof {
            assert(all.take(k + 1).drop_last() =~= all.take(k as int));
            assert(all.take(k + 1).last() == all[k as int]);
        }
        assert(ls@[k as int]@ == all[k as int]);
        if !is_blank_line(&ls[k]) {
            let ghost before = keep@;
            keep.push(k);
            proof {
                assert(Seq::new(keep@.len(), |m: int| all[keep@[m] as int]) =~= Seq::new(
                    before.len(),
                    |m: int| all[before[m] as int],
                ).push(all[k as int]));
            }
        }
        k = k + 1;
    }
    proof {
        assert(all.take(all.len() as int) =~= all);
        assert(all == split_lines(input@));
    }
    let ghost nb = nonblank(all);
    let count = keep.len() / 6;
    let mut h = herd_new();
    let ghost mut ms: Seq<MonkeyModel> = seq![];
    let mut g: usize = 0;
    assert(numbered(ms) =~= no_monkeys());
    while g < count
        invariant
            count == keep@.len() / 6,
            g <= count,
            nb == Seq::new(keep@.len(), |m: int| all[keep@[m] as int]),
            nb == nonblank(split_lines(input@)),
            ls@.len() == all.len(),
            forall|m: int| 0 <= m < ls@.len() ==> #[trigger] ls@[m]@ == all[m],
            forall|m: int| 0 <= m < keep@.len() ==> #[trigger] keep@[m] < ls@.len(),
            monkeys_of(nb, g as int) == Some(ms),
            ms.len() == g,
            herd_contents(h) == numbered(ms),
        decreases count - g,
    {
        let kept = keep.len();
        proof {
            assert(6 * g + 6 <= kept) by (nonlinear_arith)
                requires
                    g < count,
                    count == kept / 6,
            ;
            assert(Seq::new(6, |m: int| ls@[keep@[6 * g + m] as int]@) =~= nb.subrange(
                6 * g as int,
                6 * g + 6,
            ));
        }
        let monkey = match parse_monkey(&ls, &keep, 6 * g) {
            Some(m) => m,
            None => {
                proof {
                    lemma_monkeys_stop(nb, g as int + 1, count as int);
                }
                return None;
            },
        };
        let ghost model = monkey@;
        herd_insert(&mut h, g, monkey);
        proof {
            ms = ms.push(model);
            assert(herd_contents(h) =~= numbered(ms));
        }
        g = g + 1;
    }
    Some(h)
}

proof fn lemma_monkeys_stop(nb: Seq<Seq<char>>, k: int, total: int)
    requires
        0 <= k <= total,
        monkeys_of(nb, k) is None,
    ensures
        monkeys_of(nb, total) is None,
    decreases total - k,
{
    if k < total {
        lemma_monkeys_stop(nb, k + 1, total);
    }
}

} // verus!
