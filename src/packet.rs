//! Packets, the nested lists of integers, with their order and text.

use vstd::prelude::*;
use std::cmp::Ordering;

verus! {

/// A packet value: a non-negative integer or an ordered list of values.
#[derive(Debug)]
pub enum Item {
    Digit(usize),
    List(Vec<Item>),
}

/// The mathematical model of an `Item`.
pub enum Value {
    Digit(nat),
    List(Seq<Value>),
}

impl View for Item {
    type V = Value;

    open spec fn view(&self) -> Value {
        value_of(*self)
    }
}

/// The model of an item, node by node.
pub open spec fn value_of(it: Item) -> Value
    decreases it,
{
    match it {
        Item::Digit(d) => Value::Digit(d as nat),
        Item::List(items) => Value::List(
            Seq::new(
                items@.len(),
                |k: int|
                    if 0 <= k < items@.len() {
                        value_of(items@[k])
                    } else {
                        Value::Digit(0)
                    },
            ),
        ),
    }
}

/// The models of a sequence of items.
pub open spec fn views(items: Seq<Item>) -> Seq<Value> {
    Seq::new(items.len(), |k: int| items[k]@)
}

/// Number of nodes in a value tree.
pub open spec fn size(v: Value) -> nat
    decreases v,
{
    match v {
        Value::Digit(_) => 1,
        Value::List(vs) => 1 + total_size(vs),
    }
}

/// Number of nodes in a sequence of value trees.
pub open spec fn total_size(vs: Seq<Value>) -> nat
    decreases vs,
{
    if vs.len() == 0 {
        0
    } else {
        size(vs[0]) + total_size(vs.drop_first())
    }
}

/// A lone digit promoted to a one-element list.
pub open spec fn promoted(d: nat) -> Value {
    Value::List(seq![Value::Digit(d)])
}

/// Measure under which the comparison recurses: promoting a digit grows the
/// trees, so a digit facing a list weighs more than the promoted pair.
pub open spec fn weight(l: Value, r: Value) -> nat {
    3 * (size(l) + size(r)) + if (l is Digit) != (r is Digit) {
        4nat
    } else {
        0nat
    }
}

pub open spec fn compare_nat(a: nat, b: nat) -> Ordering {
    if a < b {
        Ordering::Less
    } else if a == b {
        Ordering::Equal
    } else {
        Ordering::Greater
    }
}

/// The packet order: digits numerically, a digit against a list as its
/// one-element list, lists lexicographically.
pub open spec fn compare(l: Value, r: Value) -> Ordering
    decreases weight(l, r), 0nat
    via compare_decreases
{
    match l {
        Value::Digit(a) => match r {
            Value::Digit(b) => compare_nat(a, b),
            Value::List(_) => compare(promoted(a), r),
        },
        Value::List(ls) => match r {
            Value::Digit(b) => compare(l, promoted(b)),
            Value::List(rs) => compare_seqs(ls, rs),
        },
    }
}

/// The comparison terminates: promoting a digit lowers the weight.
#[via_fn]
proof fn compare_decreases(l: Value, r: Value) {
    lemma_promoted_size_any();
}

proof fn lemma_promoted_size(d: nat)
    ensures
        size(promoted(d)) == 2,
{
    let s = seq![Value::Digit(d)];
    assert(s.drop_first() =~= Seq::<Value>::empty());
    assert(total_size(s.drop_first()) == 0);
    assert(s[0] == Value::Digit(d));
    assert(size(s[0]) == 1);
    assert(total_size(s) == 1);
}

proof fn lemma_promoted_size_any()
    ensures
        forall|d: nat| #[trigger] size(promoted(d)) == 2,
{
    assert forall|d: nat| #[trigger] size(promoted(d)) == 2 by {
        lemma_promoted_size(d);
    }
}

/// Lexicographic order of two sequences of values: the first unequal pair
/// decides; when one runs out first, the shorter is less.
pub open spec fn compare_seqs(ls: Seq<Value>, rs: Seq<Value>) -> Ordering
    decreases 3 * (total_size(ls) + total_size(rs)) + 4, 1nat,
{
    if ls.len() == 0 && rs.len() == 0 {
        Ordering::Equal
    } else if ls.len() == 0 {
        Ordering::Less
    } else if rs.len() == 0 {
        Ordering::Greater
    } else {
        match compare(ls[0], rs[0]) {
            Ordering::Equal => compare_seqs(ls.drop_first(), rs.drop_first()),
            other => other,
        }
    }
}

pub open spec fn reversed(o: Ordering) -> Ordering {
    match o {
        Ordering::Less => Ordering::Greater,
        Ordering::Equal => Ordering::Equal,
        Ordering::Greater => Ordering::Less,
    }
}

pub proof fn lemma_list_view(it: Item)
    requires
        it is List,
    ensures
        it@ == Value::List(views(it->List_0@)),
{
    let items = it->List_0;
    let vs = it@->List_0;
    assert(vs.len() == items@.len());
    assert forall|k: int| 0 <= k < vs.len() implies vs[k] == views(items@)[k] by {
        assert(vs[k] == items@[k]@);
    }
    assert(vs =~= views(items@));
}

pub proof fn lemma_element_size(vs: Seq<Value>, k: int)
    requires
        0 <= k < vs.len(),
    ensures
        size(vs[k]) <= total_size(vs),
    decreases k,
{
    if k > 0 {
        lemma_element_size(vs.drop_first(), k - 1);
    }
}

impl Item {
    /// Compares two packets: digits numerically, a lone digit against a list
    /// as its one-element list, and lists element by element, the shorter one
    /// first when one is a prefix of the other.
    pub fn is_ordered(left: &Item, right: &Item) -> (r: Ordering)
        ensures
            r == compare(left@, right@),
        decreases weight(left@, right@), 0nat,
    {
        match left {
            Item::Digit(a) => match right {
                Item::Digit(b) => {
                    if *a < *b {
                        Ordering::Less
                    } else if *a == *b {
                        Ordering::Equal
                    } else {
                        Ordering::Greater
                    }
                },
                Item::List(rs) => {
                    let promoted_left = Item::promote(*a);
                    proof {
                        lemma_promoted_size(*a as nat);
                        lemma_list_view(*right);
                    }
                    Item::is_ordered(&promoted_left, right)
                },
            },
            Item::List(ls) => match right {
                Item::Digit(b) => {
                    let promoted_right = Item::promote(*b);
                    proof {
                        lemma_promoted_size(*b as nat);
                        lemma_list_view(*left);
                    }
                    Item::is_ordered(left, &promoted_right)
                },
                Item::List(rs) => {
                    proof {
                        lemma_list_view(*left);
                        lemma_list_view(*right);
                    }
                    compare_lists(ls, rs)
                },
            },
        }
    }

    /// A lone digit as a one-element list.
    fn promote(digit: usize) -> (r: Item)
        ensures
            r@ == promoted(digit as nat),
    {
        let r = Item::List(vec![Item::new(digit)]);
        proof {
            if let Value::List(vs) = r@ {
                assert(vs =~= seq![Value::Digit(digit as nat)]);
            }
        }
        r
    }

    fn new(digit: usize) -> (r: Item)
        ensures
            r@ == Value::Digit(digit as nat),
    {
        Item::Digit(digit)
    }
}

/// Whether two packets have the same shape and the same integers in the same
/// order.
pub fn same_item(a: &Item, b: &Item) -> (r: bool)
    ensures
        r == (a@ == b@),
    decreases size(a@),
{
    match a {
        Item::Digit(x) => match b {
            Item::Digit(y) => *x == *y,
            Item::List(_) => {
                proof {
                    lemma_list_view(*b);
                }
                false
            },
        },
        Item::List(xs) => match b {
            Item::Digit(_) => {
                proof {
                    lemma_list_view(*a);
                }
                false
            },
            Item::List(ys) => {
                proof {
                    lemma_list_view(*a);
                    lemma_list_view(*b);
                }
                let ghost xv = views(xs@);
                let ghost yv = views(ys@);
                if xs.len() != ys.len() {
                    assert(xv.len() != yv.len());
                    return false;
                }
                let mut k: usize = 0;
                while k < xs.len()
                    invariant
                        k <= xs@.len(),
                        xs@.len() == ys@.len(),
                        xv == views(xs@),
                        yv == views(ys@),
                        a@ == Value::List(xv),
                        b@ == Value::List(yv),
                        forall|m: int| 0 <= m < k ==> xv[m] == yv[m],
                    decreases xs.len() - k,
                {
                    proof {
                        lemma_element_size(xv, k as int);
                        assert(xv[k as int] == xs@[k as int]@);
                        assert(yv[k as int] == ys@[k as int]@);
                    }
                    if !same_item(&xs[k], &ys[k]) {
                        assert(xv[k as int] != yv[k as int]);
                        return false;
                    }
                    k = k + 1;
                }
                assert(xv =~= yv);
                true
            },
        },
    }
}

impl PartialEq for Item {
    fn eq(&self, other: &Item) -> (r: bool) {
        same_item(self, other)
    }
}

impl vstd::std_specs::cmp::PartialEqSpecImpl for Item {
    open spec fn obeys_eq_spec() -> bool {
        true
    }

    open spec fn eq_spec(&self, other: &Item) -> bool {
        self@ == other@
    }
}

/// Lexicographic comparison of two lists of packets.
fn compare_lists(ls: &Vec<Item>, rs: &Vec<Item>) -> (r: Ordering)
    ensures
        r == compare_seqs(views(ls@), views(rs@)),
    decreases 3 * (total_size(views(ls@)) + total_size(views(rs@))) + 4, 1nat,
{
    let ghost lv = views(ls@);
    let ghost rv = views(rs@);
    let mut i: usize = 0;
    assert(lv.skip(0) =~= lv);
    assert(rv.skip(0) =~= rv);
    while i < ls.len() && i < rs.len()
        invariant
            0 <= i <= ls.len(),
            i <= rs.len(),
            lv == views(ls@),
            rv == views(rs@),
            compare_seqs(lv, rv) == compare_seqs(lv.skip(i as int), rv.skip(i as int)),
        decreases ls.len() - i,
    {
        proof {
            lemma_element_size(lv, i as int);
            lemma_element_size(rv, i as int);
            assert(lv.skip(i as int).drop_first() =~= lv.skip(i + 1));
            assert(rv.skip(i as int).drop_first() =~= rv.skip(i + 1));
        }
        let o = Item::is_ordered(&ls[i], &rs[i]);
        match o {
            Ordering::Equal => {},
            _ => {
                return o;
            },
        }
        i = i + 1;
    }
    if ls.len() == rs.len() {
        Ordering::Equal
    } else if i == ls.len() {
        Ordering::Less
    } else {
        Ordering::Greater
    }
}

pub open spec fn digit_chars() -> Seq<char> {
    seq!['0', '1', '2', '3', '4', '5', '6', '7', '8', '9']
}

/// The decimal digits of `n`, without leading zeros.
pub open spec fn decimal(n: nat) -> Seq<char>
    decreases n,
{
    if n < 10 {
        seq![digit_chars()[n as int]]
    } else {
        decimal(n / 10).push(digit_chars()[(n % 10) as int])
    }
}

/// The bracketed text of a value, such as `[1,[2,3],4]`.
pub open spec fn text_of(v: Value) -> Seq<char>
    decreases v,
{
    match v {
        Value::Digit(n) => decimal(n),
        Value::List(vs) => seq!['['] + joined(vs) + seq![']'],
    }
}

/// The texts of a sequence of values, separated by commas.
pub open spec fn joined(vs: Seq<Value>) -> Seq<char>
    decreases vs,
{
    if vs.len() == 0 {
        seq![]
    } else if vs.len() == 1 {
        text_of(vs[0])
    } else {
        text_of(vs[0]) + seq![','] + joined(vs.drop_first())
    }
}

/// The packet `[[number]]`.
pub open spec fn marker(number: nat) -> Value {
    Value::List(seq![Value::List(seq![Value::Digit(number)])])
}

fn push_decimal(n: usize, out: &mut Vec<char>)
    ensures
        final(out)@ == old(out)@ + decimal(n as nat),
    decreases n,
{
    let digits = vec!['0', '1', '2', '3', '4', '5', '6', '7', '8', '9'];
    assert(digits@ == digit_chars());
    if n >= 10 {
        push_decimal(n / 10, out);
    }
    out.push(digits[n % 10]);
    proof {
        if n < 10 {
            assert(n % 10 == n);
        }
        assert(final(out)@ =~= old(out)@ + decimal(n as nat));
    }
}

impl Item {
    /// Appends the bracketed text of this packet to `out`.
    pub fn write_text(&self, out: &mut Vec<char>)
        ensures
            final(out)@ == old(out)@ + text_of(self@),
        decreases size(self@),
    {
        match self {
            Item::Digit(n) => {
                push_decimal(*n, out);
            },
            Item::List(items) => {
                proof {
                    lemma_list_view(*self);
                }
                let ghost vs = views(items@);
                out.push('[');
                let ghost start = out@;
                let mut k: usize = 0;
                while k < items.len()
                    invariant
                        k <= items.len(),
                        vs == views(items@),
                        *self == Item::List(*items),
                        self@ == Value::List(vs),
                        out@ == start + joined(vs.take(k as int)),
                        start == old(out)@.push('['),
                    decreases items.len() - k,
                {
                    if k > 0 {
                        out.push(',');
                    }
                    proof {
                        lemma_element_size(vs, k as int);
                        assert(vs[k as int] == items@[k as int]@);
                        assert(size(self@) == 1 + total_size(vs));
                    }
                    items[k].write_text(out);
                    proof {
                        lemma_joined_take(vs, k as int);
                    }
                    k = k + 1;
                }
                out.push(']');
                proof {
                    assert(vs.take(items.len() as int) =~= vs);
                    assert(out@ =~= old(out)@ + text_of(self@));
                }
            },
        }
    }

    /// The bracketed text of this packet.
    pub fn render(&self) -> (r: Vec<char>)
        ensures
            r@ == text_of(self@),
    {
        let mut out: Vec<char> = Vec::new();
        self.write_text(&mut out);
        assert(out@ =~= text_of(self@));
        out
    }

    /// Whether this packet is the divider `[[number]]`.
    pub fn is_marker(&self, number: usize) -> (r: bool)
        ensures
            r == (self@ == marker(number as nat)),
    {
        match self {
            Item::Digit(d) => {
                assert(self@ == Value::Digit(*d as nat));
                assert(marker(number as nat) is List);
                false
            },
            Item::List(outer) => {
                proof {
                    lemma_list_view(*self);
                }
                let ghost m = marker(number as nat);
                assert(m->List_0.len() == 1);
                assert(m->List_0[0]->List_0.len() == 1);
                if outer.len() != 1 {
                    assert(views(outer@).len() != 1);
                    return false;
                }
                assert(views(outer@)[0] == outer@[0]@);
                match &outer[0] {
                    Item::Digit(d) => {
                        assert(outer@[0]@ == Value::Digit(*d as nat));
                        false
                    },
                    Item::List(inner) => {
                        proof {
                            lemma_list_view(outer@[0]);
                        }
                        if inner.len() != 1 {
                            assert(views(outer@)[0] == outer@[0]@);
                            assert(views(inner@).len() != 1);
                            return false;
                        }
                        match &inner[0] {
                            Item::Digit(d) => {
                                proof {
                                    assert(inner@[0]@ == Value::Digit(*d as nat));
                                    assert(views(inner@) =~= seq![Value::Digit(*d as nat)]);
                                    assert(views(outer@) =~= seq![outer@[0]@]);
                                    assert(self@ == marker(*d as nat));
                                    lemma_marker_injective(*d as nat, number as nat);
                                }
                                *d == number
                            },
                            Item::List(_) => {
                                proof {
                                    assert(views(inner@)[0] == inner@[0]@);
                                    lemma_list_view(inner@[0]);
                                }
                                false
                            },
                        }
                    },
                }
            },
        }
    }
}

pub proof fn lemma_size_positive(v: Value)
    ensures
        size(v) >= 1,
{
}

/// Every value compares equal to itself.
pub proof fn lemma_compare_reflexive(v: Value)
    ensures
        compare(v, v) == Ordering::Equal,
    decreases size(v), 0nat,
{
    if let Value::List(vs) = v {
        lemma_compare_seqs_reflexive(vs);
    }
}

/// Every sequence of values compares equal to itself.
pub proof fn lemma_compare_seqs_reflexive(vs: Seq<Value>)
    ensures
        compare_seqs(vs, vs) == Ordering::Equal,
    decreases total_size(vs), 1nat,
{
    if vs.len() > 0 {
        lemma_size_positive(vs[0]);
        lemma_compare_reflexive(vs[0]);
        lemma_compare_seqs_reflexive(vs.drop_first());
    }
}

/// Swapping the operands of a comparison reverses its result.
pub proof fn lemma_compare_antisymmetric(l: Value, r: Value)
    ensures
        compare(r, l) == reversed(compare(l, r)),
    decreases weight(l, r), 0nat,
{
    match l {
        Value::Digit(a) => match r {
            Value::Digit(b) => {},
            Value::List(_) => {
                lemma_promoted_size(a);
                lemma_compare_antisymmetric(promoted(a), r);
            },
        },
        Value::List(ls) => match r {
            Value::Digit(b) => {
                lemma_promoted_size(b);
                lemma_compare_antisymmetric(l, promoted(b));
            },
            Value::List(rs) => {
                lemma_compare_seqs_antisymmetric(ls, rs);
            },
        },
    }
}

/// Swapping two sequences of values reverses their lexicographic comparison.
pub proof fn lemma_compare_seqs_antisymmetric(ls: Seq<Value>, rs: Seq<Value>)
    ensures
        compare_seqs(rs, ls) == reversed(compare_seqs(ls, rs)),
    decreases 3 * (total_size(ls) + total_size(rs)) + 4, 1nat,
{
    if ls.len() > 0 && rs.len() > 0 {
        lemma_size_positive(ls[0]);
        lemma_size_positive(rs[0]);
        lemma_compare_antisymmetric(ls[0], rs[0]);
        lemma_compare_seqs_antisymmetric(ls.drop_first(), rs.drop_first());
    }
}

/// A lone digit compares equal to the one-element list that holds it.
pub proof fn lemma_promotion_equal(d: nat)
    ensures
        compare(Value::Digit(d), Value::List(seq![Value::Digit(d)])) == Ordering::Equal,
{
    lemma_compare_reflexive(promoted(d));
}

/// A one-element list is less than any two-element list that starts with the
/// same value.
pub proof fn lemma_prefix_less(a: Value, b: Value)
    ensures
        compare(Value::List(seq![a]), Value::List(seq![a, b])) == Ordering::Less,
{
    let ls = seq![a];
    let rs = seq![a, b];
    lemma_compare_reflexive(a);
    assert(ls.drop_first() =~= seq![]);
    assert(rs.drop_first() =~= seq![b]);
    assert(compare_seqs(ls.drop_first(), rs.drop_first()) == Ordering::Less);
    assert(ls[0] == a && rs[0] == a);
    assert(compare(ls[0], rs[0]) == Ordering::Equal);
    assert(compare_seqs(ls, rs) == Ordering::Less);
}

proof fn lemma_marker_injective(a: nat, b: nat)
    ensures
        marker(a) == marker(b) ==> a == b,
{
    if marker(a) == marker(b) {
        assert(marker(a)->List_0[0]->List_0[0] == Value::Digit(a));
        assert(marker(b)->List_0[0]->List_0[0] == Value::Digit(b));
    }
}

proof fn lemma_joined_take(vs: Seq<Value>, k: int)
    requires
        0 <= k < vs.len(),
    ensures
        joined(vs.take(k + 1)) == joined(vs.take(k)) + (if k > 0 {
            seq![',']
        } else {
            seq![]
        }) + text_of(vs[k]),
    decreases k,
{
    if k == 0 {
        assert(vs.take(1) =~= seq![vs[0]]);
        assert(vs.take(0) =~= seq![]);
        assert(joined(vs.take(1)) == text_of(vs[0]));
        assert(joined(vs.take(0)) + seq![] + text_of(vs[0]) =~= text_of(vs[0]));
    } else {
        let rest = vs.drop_first();
        lemma_joined_take(rest, k - 1);
        assert(vs.take(k + 1).drop_first() =~= rest.take(k));
        assert(vs.take(k).drop_first() =~= rest.take(k - 1));
        assert(vs.take(k + 1)[0] == vs[0]);
        assert(vs.take(k)[0] == vs[0]);
        if k == 1 {
            assert(rest.take(0) =~= seq![]);
            assert(joined(vs.take(1)) == text_of(vs[0]));
            assert(joined(vs.take(2)) == text_of(vs[0]) + seq![','] + joined(rest.take(1)));
            assert(joined(rest.take(1)) == joined(rest.take(0)) + seq![] + text_of(rest[0]));
            assert(joined(vs.take(2)) =~= joined(vs.take(1)) + seq![','] + text_of(vs[1]));
        } else {
            assert(joined(vs.take(k + 1)) =~= joined(vs.take(k)) + seq![','] + text_of(vs[k]));
        }
    }
}

} // verus!
