//! Rucksack items shared by groups of three, and their priorities.

use vstd::prelude::*;
use crate::text::{split_lines, to_chars, lines};

verus! {

pub open spec fn is_item(c: char) -> bool {
    ('a' <= c && c <= 'z') || ('A' <= c && c <= 'Z')
}

/// The priority of an item: `a` to `z` are 1 to 26, `A` to `Z` are 27 to 52.
pub open spec fn priority(c: char) -> int {
    if 'a' <= c && c <= 'z' {
        c as int - 96
    } else {
        c as int - 38
    }
}

/// The priority of an item.
pub fn get_priority(c: char) -> (r: usize)
    requires
        is_item(c),
    ensures
        r == priority(c),
        1 <= r <= 52,
{
    if 'a' <= c && c <= 'z' {
        (c as u32 - 96) as usize
    } else {
        (c as u32 - 38) as usize
    }
}

/// The items that three rucksacks share, each once, in the order of their
/// first appearance in the first.
pub open spec fn shared(first: Seq<char>, second: Seq<char>, third: Seq<char>) -> Seq<char>
    decreases first.len(),
{
    if first.len() == 0 {
        seq![]
    } else {
        let before = shared(first.drop_last(), second, third);
        let c = first.last();
        if !first.drop_last().contains(c) && second.contains(c) && third.contains(c) {
            before.push(c)
        } else {
            before
        }
    }
}

pub open spec fn priority_sum(cs: Seq<char>) -> int
    decreases cs.len(),
{
    if cs.len() == 0 {
        0
    } else {
        priority_sum(cs.drop_last()) + priority(cs.last())
    }
}

/// The badge total of the first `k` groups of three lines: the sum of the
/// priorities of the items each group shares. `None` when a shared item is
/// not a letter.
pub open spec fn badges(ls: Seq<Seq<char>>, k: int) -> Option<int>
    decreases k,
{
    if k <= 0 {
        Some(0)
    } else {
        match badges(ls, k - 1) {
            None => None,
            Some(total) => {
                let common = shared(ls[3 * (k - 1)], ls[3 * (k - 1) + 1], ls[3 * (k - 1) + 2]);
                if forall|j: int| 0 <= j < common.len() ==> is_item(#[trigger] common[j]) {
                    Some(total + priority_sum(common))
                } else {
                    None
                }
            },
        }
    }
}

fn contains_char(v: &Vec<char>, upto: usize, c: char) -> (r: bool)
    requires
        upto <= v@.len(),
    ensures
        r == v@.take(upto as int).contains(c),
{
    let mut k: usize = 0;
    while k < upto
        invariant
            k <= upto <= v@.len(),
            forall|m: int| 0 <= m < k ==> v@[m] != c,
        decreases upto - k,
    {
        if v[k] == c {
            assert(v@.take(upto as int)[k as int] == c);
            return true;
        }
        k = k + 1;
    }
    proof {
        assert forall|m: int| 0 <= m < upto implies v@.take(upto as int)[m] != c by {}
    }
    false
}

/// The sum of the priorities of the items three rucksacks share; `None` when
/// a shared item is not a letter, or the sum does not fit.
fn group_priority(first: &Vec<char>, second: &Vec<char>, third: &Vec<char>) -> (r: Option<usize>)
    ensures
        match r {
            Some(v) => (forall|j: int|
                0 <= j < shared(first@, second@, third@).len() ==> is_item(
                    #[trigger] shared(first@, second@, third@)[j],
                )) && v == priority_sum(shared(first@, second@, third@)),
            None => !(forall|j: int|
                0 <= j < shared(first@, second@, third@).len() ==> is_item(
                    #[trigger] shared(first@, second@, third@)[j],
                )) || priority_sum(shared(first@, second@, third@)) > usize::MAX,
        },
{
    let mut total: usize = 0;
    let mut k: usize = 0;
    let ghost mut common: Seq<char> = seq![];
    assert(first@.take(0) =~= seq![]);
    while k < first.len()
        invariant
            k <= first@.len(),
            common == shared(first@.take(k as int), second@, third@),
            forall|j: int| 0 <= j < common.len() ==> is_item(#[trigger] common[j]),
            total == priority_sum(common),
        decreases first.len() - k,
    {
        let c = first[k];
        proof {
            assert(first@.take(k + 1).drop_last() =~= first@.take(k as int));
            assert(first@.take(k + 1).last() == c);
        }
        if !contains_char(first, k, c) && contains_char(second, second.len(), c) && contains_char(
            third,
            third.len(),
            c,
        ) {
            proof {
                assert(second@.take(second@.len() as int) =~= second@);
                assert(third@.take(third@.len() as int) =~= third@);
            }
            proof {
                assert(shared(first@.take(k + 1), second@, third@) == common.push(c));
            }
            if !(('a' <= c && c <= 'z') || ('A' <= c && c <= 'Z')) {
                proof {
                    lemma_shared_keeps(first@, second@, third@, k as int + 1);
                    let all = shared(first@, second@, third@);
                    let l = common.len() as int;
                    assert(all.take(l + 1) == common.push(c));
                    assert(l + 1 <= all.len());
                    assert(all.take(l + 1)[l] == c);
                    assert(all[l] == c);
                }
                return None;
            }
            let p = get_priority(c);
            if total > usize::MAX - p {
                proof {
                    lemma_shared_keeps(first@, second@, third@, k as int + 1);
                    let all = shared(first@, second@, third@);
                    assert(all.take(common.len() as int + 1) == common.push(c));
                    assert(common.push(c).drop_last() =~= common);
                    if forall|j: int| 0 <= j < all.len() ==> is_item(#[trigger] all[j]) {
                        lemma_sum_grows(all, common.len() as int + 1);
                    }
                }
                return None;
            }
            total = total + p;
            proof {
                common = common.push(c);
                assert(common.drop_last() =~= shared(first@.take(k as int), second@, third@));
            }
        } else {
            proof {
                assert(second@.take(second@.len() as int) =~= second@);
                assert(third@.take(third@.len() as int) =~= third@);
            }
        }
        k = k + 1;
    }
    assert(first@.take(first@.len() as int) =~= first@);
    Some(total)
}

/// What the shared items of a prefix of the first rucksack are, the shared
/// items of the whole begin with.
proof fn lemma_shared_keeps(first: Seq<char>, second: Seq<char>, third: Seq<char>, k: int)
    requires
        0 <= k <= first.len(),
    ensures
        shared(first, second, third).take(shared(first.take(k), second, third).len() as int)
            == shared(first.take(k), second, third),
        shared(first.take(k), second, third).len() <= shared(first, second, third).len(),
    decreases first.len() - k,
{
    if k == first.len() {
        assert(first.take(k) =~= first);
        assert(shared(first, second, third).take(shared(first, second, third).len() as int)
            =~= shared(first, second, third));
    } else {
        lemma_shared_keeps(first, second, third, k + 1);
        let a = shared(first.take(k), second, third);
        let b = shared(first.take(k + 1), second, third);
        let all = shared(first, second, third);
        assert(first.take(k + 1).drop_last() =~= first.take(k));
        assert(b == a || b == a.push(first[k]));
        assert(all.take(b.len() as int) == b);
        assert(all.take(a.len() as int) =~= b.take(a.len() as int));
        assert(b.take(a.len() as int) =~= a);
    }
}

proof fn lemma_sum_grows(cs: Seq<char>, k: int)
    requires
        0 <= k <= cs.len(),
        forall|j: int| 0 <= j < cs.len() ==> is_item(#[trigger] cs[j]),
    ensures
        priority_sum(cs.take(k)) <= priority_sum(cs),
    decreases cs.len() - k,
{
    if k == cs.len() {
        assert(cs.take(k) =~= cs);
    } else {
        lemma_sum_grows(cs, k + 1);
        assert(cs.take(k + 1).drop_last() =~= cs.take(k));
        assert(is_item(cs[k]));
    }
}

/// The sum of the badge priorities of a list of rucksacks, one per line, in
/// groups of three lines; lines after the last whole group are not read.
/// `None` when a shared item is not a letter, or the sum does not fit.
pub fn badge_total(input: &str) -> (r: Option<usize>)
    ensures
        match r {
            Some(v) => badges(split_lines(input@), split_lines(input@).len() as int / 3) == Some(
                v as int,
            ),
            None => badges(split_lines(input@), split_lines(input@).len() as int / 3) matches Some(
                v,
            ) ==> v > usize::MAX,
        },
{
    let chars = to_chars(input);
    let ls = lines(&chars);
    let ghost all = split_lines(input@);
    let groups = ls.len() / 3;
    let mut total: usize = 0;
    let mut g: usize = 0;
    while g < groups
        invariant
            ls@.len() == all.len(),
            all == split_lines(input@),
            forall|m: int| 0 <= m < ls@.len() ==> #[trigger] ls@[m]@ == all[m],
            groups == ls@.len() / 3,
            g <= groups,
            badges(all, g as int) == Some(total as int),
        decreases groups - g,
    {
        let n = ls.len();
        proof {
            assert(3 * g + 3 <= n) by (nonlinear_arith)
                requires
                    g < groups,
                    groups == n / 3,
            ;
        }
        assert(ls@[3 * g as int]@ == all[3 * g as int]);
        assert(ls@[3 * g + 1]@ == all[3 * g + 1]);
        assert(ls@[3 * g + 2]@ == all[3 * g + 2]);
        match group_priority(&ls[3 * g], &ls[3 * g + 1], &ls[3 * g + 2]) {
            Some(p) => {
                if total > usize::MAX - p {
                    proof {
                        lemma_badges_grow(all, g as int + 1, groups as int);
                    }
                    return None;
                }
                total = total + p;
            },
            None => {
                proof {
                    let common = shared(all[3 * g as int], all[3 * g + 1], all[3 * g + 2]);
                    if forall|j: int| 0 <= j < common.len() ==> is_item(#[trigger] common[j]) {
                        lemma_badges_grow(all, g as int + 1, groups as int);
                    } else {
                        lemma_badges_stop(all, g as int + 1, groups as int);
                    }
                }
                return None;
            },
        }
        g = g + 1;
    }
    Some(total)
}

proof fn lemma_priority_sum_nonneg(cs: Seq<char>)
    requires
        forall|j: int| 0 <= j < cs.len() ==> is_item(#[trigger] cs[j]),
    ensures
        priority_sum(cs) >= 0,
    decreases cs.len(),
{
    if cs.len() > 0 {
        assert(is_item(cs[cs.len() - 1]));
        lemma_priority_sum_nonneg(cs.drop_last());
    }
}

proof fn lemma_badges_grow(ls: Seq<Seq<char>>, k: int, total: int)
    requires
        0 <= k <= total,
        badges(ls, k) matches Some(v) && v > usize::MAX,
    ensures
        badges(ls, total) matches Some(v) ==> v > usize::MAX,
    decreases total - k,
{
    if k < total {
        let common = shared(ls[3 * k], ls[3 * k + 1], ls[3 * k + 2]);
        if forall|j: int| 0 <= j < common.len() ==> is_item(#[trigger] common[j]) {
            lemma_priority_sum_nonneg(common);
            lemma_badges_grow(ls, k + 1, total);
        } else {
            lemma_badges_stop(ls, k + 1, total);
        }
    }
}

proof fn lemma_badges_stop(ls: Seq<Seq<char>>, k: int, total: int)
    requires
        0 <= k <= total,
        badges(ls, k) is None,
    ensures
        badges(ls, total) is None,
    decreases total - k,
{
    if k < total {
        lemma_badges_stop(ls, k + 1, total);
    }
}

} // verus!
