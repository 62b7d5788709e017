//! Stacks of crates drawn as text, and moves that carry several crates at
//! once, keeping their order.

use vstd::prelude::*;
use crate::text::{split_lines, to_chars, lines, usize_at, literal_at, match_literal, parse_usize};

verus! {

/// Moving `count` crates from stack `from` to stack `to`, both counted from
/// one.
#[derive(Debug, Clone, Copy, PartialEq, Eq, Structural)]
pub struct Action {
    pub count: usize,
    pub from: usize,
    pub to: usize,
}

/// The crate drawn in column `c` of a drawing line, as `[X]` starting at
/// position `4 * c`.
pub open spec fn drawn_crate(line: Seq<char>, c: int) -> Option<char> {
    if 4 * c + 1 < line.len() && line[4 * c] == '[' {
        Some(line[4 * c + 1])
    } else {
        None
    }
}

/// Stack `c` of a drawing, bottom first: the crates of column `c` from the
/// lowest line up.
pub open spec fn stack_of(ls: Seq<Seq<char>>, c: int) -> Seq<char>
    decreases ls.len(),
{
    if ls.len() == 0 {
        seq![]
    } else {
        let above = stack_of(ls.drop_last(), c);
        match drawn_crate(ls.last(), c) {
            Some(x) => seq![x] + above,
            None => above,
        }
    }
}

/// Reads `columns` stacks from a drawing such as
/// `    [D]    \n[N] [C]    \n[Z] [M] [P]\n 1   2   3 `; each stack lists
/// its crates from the bottom up.
pub fn parse_stacks(drawing: &str, columns: usize) -> (r: Vec<Vec<char>>)
    ensures
        r@.len() == columns,
        forall|c: int| 0 <= c < columns ==> #[trigger] r@[c]@ == stack_of(split_lines(drawing@), c),
{
    let chars = to_chars(drawing);
    let ls = lines(&chars);
    let ghost all = split_lines(drawing@);
    let mut stacks: Vec<Vec<char>> = Vec::new();
    let mut c: usize = 0;
    while c < columns
        invariant
            c <= columns,
            stacks@.len() == c,
            ls@.len() == all.len(),
            all == split_lines(drawing@),
            forall|m: int| 0 <= m < ls@.len() ==> #[trigger] ls@[m]@ == all[m],
            forall|d: int| 0 <= d < c ==> #[trigger] stacks@[d]@ == stack_of(all, d),
        decreases columns - c,
    {
        let mut stack: Vec<char> = Vec::new();
        let mut k: usize = ls.len();
        assert(all.take(all.len() as int) =~= all);
        while k > 0
            invariant
                k <= ls@.len(),
                ls@.len() == all.len(),
                forall|m: int| 0 <= m < ls@.len() ==> #[trigger] ls@[m]@ == all[m],
                stack_of(all, c as int) == stack@ + stack_of(all.take(k as int), c as int),
            decreases k,
        {
            let line = &ls[k - 1];
            assert(line@ == all[k - 1]);
            proof {
                assert(all.take(k as int).drop_last() =~= all.take(k - 1));
                assert(all.take(k as int).last() == all[k - 1]);
            }
            let ghost before = stack@;
            if c <= (usize::MAX - 1) / 4 && 4 * c + 1 < line.len() && line[4 * c] == '[' {
                stack.push(line[4 * c + 1]);
                proof {
                    assert(before.push(line@[4 * c + 1]) + stack_of(all.take(k - 1), c as int)
                        =~= before + (seq![line@[4 * c + 1]] + stack_of(all.take(k - 1), c as int)));
                }
            } else {
                proof {
                    if 4 * c + 1 < line@.len() {
                        assert(c <= (usize::MAX - 1) / 4) by (nonlinear_arith)
                            requires
                                4 * c + 1 < line@.len(),
                                line@.len() <= usize::MAX,
                        ;
                    }
                }
            }
            k = k - 1;
        }
        proof {
            assert(all.take(0) =~= seq![]);
            assert(stack@ + seq![] =~= stack@);
        }
        stacks.push(stack);
        c = c + 1;
    }
    stacks
}



/// A literal and then a number, from position `i` on.
pub open spec fn field_at(s: Seq<char>, i: int, lit: Seq<char>) -> Option<(usize, int)> {
    if literal_at(s, i, lit) {
        usize_at(s, i + lit.len())
    } else {
        None
    }
}

/// The action of a line `move <count> from <stack> to <stack>`.
pub open spec fn action_of(line: Seq<char>) -> Option<Action> {
    match field_at(line, 0, "move "@) {
        None => None,
        Some((count, i1)) => match field_at(line, i1, " from "@) {
            None => None,
            Some((from, i2)) => match field_at(line, i2, " to "@) {
                None => None,
                Some((to, i3)) => if i3 == line.len() {
                    Some(Action { count, from, to })
                } else {
                    None
                },
            },
        },
    }
}

/// The actions of some lines, one per line.
pub open spec fn actions_of(ls: Seq<Seq<char>>) -> Option<Seq<Action>>
    decreases ls.len(),
{
    if ls.len() == 0 {
        Some(seq![])
    } else {
        match actions_of(ls.drop_last()) {
            None => None,
            Some(acts) => match action_of(ls.last()) {
                None => None,
                Some(a) => Some(acts.push(a)),
            },
        }
    }
}




fn parse_field(s: &Vec<char>, i: usize, lit: &str) -> (r: Option<(usize, usize)>)
    ensures
        match r {
            Some((v, e)) => field_at(s@, i as int, lit@) == Some((v, e as int)) && e <= s@.len(),
            None => field_at(s@, i as int, lit@) is None,
        },
{
    let l = to_chars(lit);
    if !match_literal(s, i, &l) {
        return None;
    }
    let n = s.len();
    parse_usize(s, i + l.len())
}

/// Reads the action of one line.
pub fn parse_action(line: &Vec<char>) -> (r: Option<Action>)
    ensures
        r == action_of(line@),
{
    let (count, i1) = match parse_field(line, 0, "move ") {
        Some(f) => f,
        None => {
            return None;
        },
    };
    let (from, i2) = match parse_field(line, i1, " from ") {
        Some(f) => f,
        None => {
            return None;
        },
    };
    let (to, i3) = match parse_field(line, i2, " to ") {
        Some(f) => f,
        None => {
            return None;
        },
    };
    if i3 == line.len() {
        Some(Action { count, from, to })
    } else {
        None
    }
}

proof fn lemma_actions_stop(all: Seq<Seq<char>>, k: int)
    requires
        0 <= k <= all.len(),
        actions_of(all.take(k)) is None,
    ensures
        actions_of(all) is None,
    decreases all.len() - k,
{
    if k < all.len() {
        assert(all.take(k + 1).drop_last() =~= all.take(k));
        lemma_actions_stop(all, k + 1);
    } else {
        assert(all.take(k) =~= all);
    }
}

/// Reads the actions of a text, one per line; `None` when a line is not an
/// action.
pub fn parse_actions(input: &str) -> (r: Option<Vec<Action>>)
    ensures
        match r {
            Some(acts) => actions_of(split_lines(input@)) == Some(acts@),
            None => actions_of(split_lines(input@)) is None,
        },
{
    let chars = to_chars(input);
    let ls = lines(&chars);
    let ghost all = split_lines(input@);
    let mut actions: Vec<Action> = Vec::new();
    let mut k: usize = 0;
    assert(all.take(0) =~= seq![]);
    while k < ls.len()
        invariant
            k <= ls@.len(),
            ls@.len() == all.len(),
            all == split_lines(input@),
            forall|m: int| 0 <= m < ls@.len() ==> #[trigger] ls@[m]@ == all[m],
            actions_of(all.take(k as int)) == Some(actions@),
        decreases ls.len() - k,
    {
        proof {
            assert(all.take(k + 1).drop_last() =~= all.take(k as int));
            assert(all.take(k + 1).last() == all[k as int]);
        }
        assert(ls@[k as int]@ == all[k as int]);
        match parse_action(&ls[k]) {
            Some(a) => {
                actions.push(a);
            },
            None => {
                proof {
                    lemma_actions_stop(all, k as int + 1);
                }
                return None;
            },
        }
        k = k + 1;
    }
    assert(all.take(all.len() as int) =~= all);
    Some(actions)
}

/// The contents of some stacks.
pub open spec fn stack_views(v: Seq<Vec<char>>) -> Seq<Seq<char>> {
    Seq::new(v.len(), |i: int| v[i]@)
}

/// The stacks after an action: the top `count` crates of stack `from` go,
/// in the same order, on top of stack `to`. `None` when a stack does not
/// exist or holds too few crates.
pub open spec fn moved(stacks: Seq<Seq<char>>, a: Action) -> Option<Seq<Seq<char>>> {
    if 1 <= a.from <= stacks.len() && 1 <= a.to <= stacks.len() && a.count <= stacks[a.from
        - 1].len() {
        let source = stacks[a.from - 1];
        let keep = source.len() - a.count;
        let lifted = source.subrange(keep, source.len() as int);
        let after = stacks.update(a.from - 1, source.take(keep));
        Some(after.update(a.to - 1, after[a.to - 1] + lifted))
    } else {
        None
    }
}

/// The stacks after the actions, in order.
pub open spec fn rearranged(stacks: Seq<Seq<char>>, acts: Seq<Action>) -> Option<Seq<Seq<char>>>
    decreases acts.len(),
{
    if acts.len() == 0 {
        Some(stacks)
    } else {
        match rearranged(stacks, acts.drop_last()) {
            None => None,
            Some(s) => moved(s, acts.last()),
        }
    }
}

fn copy_range(v: &Vec<char>, from: usize, to: usize) -> (r: Vec<char>)
    requires
        from <= to <= v@.len(),
    ensures
        r@ == v@.subrange(from as int, to as int),
{
    let mut r: Vec<char> = Vec::new();
    let mut k: usize = from;
    while k < to
        invariant
            from <= k <= to <= v@.len(),
            r@ == v@.subrange(from as int, k as int),
        decreases to - k,
    {
        r.push(v[k]);
        k = k + 1;
        assert(r@ =~= v@.subrange(from as int, k as int));
    }
    r
}

/// Carries out one action; `false`, and no change, when it cannot be done.
pub fn apply(stacks: &mut Vec<Vec<char>>, action: Action) -> (r: bool)
    ensures
        r == moved(stack_views(old(stacks)@), action) is Some,
        r ==> stack_views(final(stacks)@) == moved(stack_views(old(stacks)@), action)->0,
        !r ==> final(stacks)@ == old(stacks)@,
{
    let n = stacks.len();
    if action.from < 1 || action.from > n || action.to < 1 || action.to > n {
        return false;
    }
    let f = action.from - 1;
    let t = action.to - 1;
    let size = stacks[f].len();
    if action.count > size {
        return false;
    }
    let ghost views = stack_views(stacks@);
    let keep = size - action.count;
    let rest = copy_range(&stacks[f], 0, keep);
    let lifted = copy_range(&stacks[f], keep, size);
    stacks.set(f, rest);
    let ghost after = stack_views(stacks@);
    proof {
        assert(after =~= views.update(f as int, views[f as int].take(keep as int)));
    }
    let target_len = stacks[t].len();
    let mut target = copy_range(&stacks[t], 0, target_len);
    let mut k: usize = 0;
    while k < lifted.len()
        invariant
            k <= lifted@.len(),
            target_len == after[t as int].len(),
            target@ == after[t as int] + lifted@.take(k as int),
        decreases lifted.len() - k,
    {
        target.push(lifted[k]);
        k = k + 1;
        assert(target@ =~= after[t as int] + lifted@.take(k as int));
    }
    proof {
        assert(lifted@.take(lifted@.len() as int) =~= lifted@);
    }
    stacks.set(t, target);
    proof {
        assert(stack_views(stacks@) =~= after.update(t as int, after[t as int] + lifted@));
    }
    true
}

/// Carries out the actions in order; `false` when one cannot be done, after
/// which the stacks are those the actions before it left.
pub fn rearrange(stacks: &mut Vec<Vec<char>>, actions: &Vec<Action>) -> (r: bool)
    ensures
        r == rearranged(stack_views(old(stacks)@), actions@) is Some,
        r ==> stack_views(final(stacks)@) == rearranged(stack_views(old(stacks)@), actions@)->0,
{
    let ghost start = stack_views(stacks@);
    let mut k: usize = 0;
    assert(actions@.take(0) =~= seq![]);
    while k < actions.len()
        invariant
            k <= actions@.len(),
            start == stack_views(old(stacks)@),
            rearranged(start, actions@.take(k as int)) == Some(stack_views(stacks@)),
        decreases actions.len() - k,
    {
        proof {
            assert(actions@.take(k + 1).drop_last() =~= actions@.take(k as int));
            assert(actions@.take(k + 1).last() == actions@[k as int]);
        }
        if !apply(stacks, actions[k]) {
            proof {
                lemma_rearranged_stop(start, actions@, k as int + 1);
            }
            return false;
        }
        k = k + 1;
    }
    assert(actions@.take(actions@.len() as int) =~= actions@);
    true
}

proof fn lemma_rearranged_stop(s: Seq<Seq<char>>, acts: Seq<Action>, k: int)
    requires
        0 <= k <= acts.len(),
        rearranged(s, acts.take(k)) is None,
    ensures
        rearranged(s, acts) is None,
    decreases acts.len() - k,
{
    if k < acts.len() {
        assert(acts.take(k + 1).drop_last() =~= acts.take(k));
        lemma_rearranged_stop(s, acts, k + 1);
    } else {
        assert(acts.take(k) =~= acts);
    }
}

/// The crate on top of each stack; `None` for an empty stack.
pub fn tops(stacks: &Vec<Vec<char>>) -> (r: Vec<Option<char>>)
    ensures
        r@.len() == stacks@.len(),
        forall|i: int|
            0 <= i < stacks@.len() ==> #[trigger] r@[i] == (if stacks@[i]@.len() == 0 {
                None
            } else {
                Some(stacks@[i]@.last())
            }),
{
    let mut r: Vec<Option<char>> = Vec::new();
    let mut i: usize = 0;
    while i < stacks.len()
        invariant
            i <= stacks@.len(),
            r@.len() == i,
            forall|j: int|
                0 <= j < i ==> #[trigger] r@[j] == (if stacks@[j]@.len() == 0 {
                    None
                } else {
                    Some(stacks@[j]@.last())
                }),
        decreases stacks.len() - i,
    {
        let n = stacks[i].len();
        if n == 0 {
            r.push(None);
        } else {
            r.push(Some(stacks[i][n - 1]));
        }
        i = i + 1;
    }
    r
}

} // verus!
