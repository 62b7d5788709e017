//! A height map of letters: its squares, the steps allowed between them, and
//! a breadth-first search for a path from the start to the goal.

use vstd::prelude::*;
use crate::text::{split_lines, to_chars, lines};
use std::collections::VecDeque;

verus! {

/// The height of a square of the map; larger values are higher.
#[derive(Debug, Clone, Copy, PartialEq, Eq, Structural)]
pub struct Height {
    pub value: u8,
}

/// The letter whose height a map character stands for: the start `S` is at
/// height `a` and the goal `E` at height `z`.
pub open spec fn level_char(c: char) -> char {
    if c == 'S' {
        'a'
    } else if c == 'E' {
        'z'
    } else {
        c
    }
}

/// Climbing is allowed up by at most one step; going down is always allowed.
pub open spec fn climbable(from: u8, to: u8) -> bool {
    from as int >= to as int - 1
}

impl Height {
    /// The height of a map character: its code, with `S` as `a` and `E` as
    /// `z`.
    pub fn from_char(c: char) -> (r: Height)
        ensures
            r.value == (level_char(c) as u32) as u8,
    {
        let level = if c == 'S' {
            'a'
        } else if c == 'E' {
            'z'
        } else {
            c
        };
        Height { value: (level as u32) as u8 }
    }

    /// Whether a step from this height to `other` is allowed.
    pub fn can_move_to(&self, other: Height) -> (r: bool)
        ensures
            r == climbable(self.value, other.value),
    {
        self.value as u16 + 1 >= other.value as u16
    }

    pub fn get_value(&self) -> (r: u8)
        ensures
            r == self.value,
    {
        self.value
    }

    /// Whether this is the lowest height, `a`.
    pub fn is_lowest(&self) -> (r: bool)
        ensures
            r == (self.value == 97),
    {
        self.value == 97
    }
}

/// A square of the map: its row and column, growing south and east, and its
/// height.
#[derive(Debug, Clone, Copy)]
pub struct Position {
    pub row: isize,
    pub col: isize,
    pub height: Height,
}

pub open spec fn same_square(a: Position, b: Position) -> bool {
    a.row == b.row && a.col == b.col
}

impl Position {
    pub fn new(row: isize, col: isize, height: Height) -> (r: Self)
        ensures
            r.row == row,
            r.col == col,
            r.height == height,
    {
        Position { row, col, height }
    }

    /// The square one row up, with this square's height.
    pub fn go_north(&self) -> (r: Self)
        requires
            self.row > isize::MIN,
        ensures
            r.row == self.row - 1,
            r.col == self.col,
            r.height == self.height,
    {
        Position::new(self.row - 1, self.col, self.height)
    }

    /// The square one row down, with this square's height.
    pub fn go_south(&self) -> (r: Self)
        requires
            self.row < isize::MAX,
        ensures
            r.row == self.row + 1,
            r.col == self.col,
            r.height == self.height,
    {
        Position::new(self.row + 1, self.col, self.height)
    }

    /// The square one column right, with this square's height.
    pub fn go_east(&self) -> (r: Self)
        requires
            self.col < isize::MAX,
        ensures
            r.row == self.row,
            r.col == self.col + 1,
            r.height == self.height,
    {
        Position::new(self.row, self.col + 1, self.height)
    }

    /// The square one column left, with this square's height.
    pub fn go_west(&self) -> (r: Self)
        requires
            self.col > isize::MIN,
        ensures
            r.row == self.row,
            r.col == self.col - 1,
            r.height == self.height,
    {
        Position::new(self.row, self.col - 1, self.height)
    }

    /// Whether a step from this square to `other` is allowed by height.
    pub fn can_move_to(&self, other: Position) -> (r: bool)
        ensures
            r == climbable(self.height.value, other.height.value),
    {
        self.height.can_move_to(other.height)
    }

    pub fn get_height(&self) -> (r: u8)
        ensures
            r == self.height.value,
    {
        self.height.get_value()
    }

    /// Whether a map character marks the start.
    pub fn is_start(c: char) -> (r: bool)
        ensures
            r == (c == 'S'),
    {
        c == 'S'
    }

    /// Whether a map character marks the goal.
    pub fn is_goal(c: char) -> (r: bool)
        ensures
            r == (c == 'E'),
    {
        c == 'E'
    }
}

pub open spec fn square_at(row: int, col: int, c: char) -> Position {
    Position {
        row: row as isize,
        col: col as isize,
        height: Height { value: (level_char(c) as u32) as u8 },
    }
}

/// The characters of some lines, one after the other.
pub open spec fn flat(ls: Seq<Seq<char>>) -> Seq<char>
    decreases ls.len(),
{
    if ls.len() == 0 {
        seq![]
    } else {
        flat(ls.drop_last()) + ls.last()
    }
}

/// The squares of some lines of a map, row after row.
pub open spec fn squares(ls: Seq<Seq<char>>) -> Seq<Position>
    decreases ls.len(),
{
    if ls.len() == 0 {
        seq![]
    } else {
        let r = ls.len() - 1;
        squares(ls.drop_last()) + Seq::new(ls.last().len(), |c: int| square_at(r, c, ls.last()[c]))
    }
}

/// The index of the first `ch` in `cs`, or the length of `cs` when there is
/// none.
pub open spec fn first_of(cs: Seq<char>, ch: char) -> int
    decreases cs.len(),
{
    if cs.len() == 0 {
        0
    } else {
        let f = first_of(cs.drop_last(), ch);
        if f < cs.len() - 1 {
            f
        } else if cs.last() == ch {
            cs.len() - 1
        } else {
            cs.len() as int
        }
    }
}

/// The map of a text: its squares, and the squares of the first `S` and the
/// first `E`; `None` when either is missing.
pub open spec fn map_of(s: Seq<char>) -> Option<(Seq<Position>, Position, Position)> {
    let ls = split_lines(s);
    let cs = flat(ls);
    let start = first_of(cs, 'S');
    let goal = first_of(cs, 'E');
    if start < cs.len() && goal < cs.len() {
        Some((squares(ls), squares(ls)[start], squares(ls)[goal]))
    } else {
        None
    }
}

proof fn lemma_first_of_bound(cs: Seq<char>, ch: char)
    ensures
        0 <= first_of(cs, ch) <= cs.len(),
        first_of(cs, ch) < cs.len() ==> cs[first_of(cs, ch)] == ch,
    decreases cs.len(),
{
    if cs.len() > 0 {
        lemma_first_of_bound(cs.drop_last(), ch);
    }
}

proof fn lemma_squares_len(ls: Seq<Seq<char>>)
    ensures
        squares(ls).len() == flat(ls).len(),
    decreases ls.len(),
{
    if ls.len() > 0 {
        lemma_squares_len(ls.drop_last());
    }
}

/// Reads a map: one row per line, one square per character. `None` when the
/// map has no start `S` or no goal `E`.
pub fn parse_map(input: &str) -> (r: Option<(Vec<Position>, Position, Position)>)
    ensures
        match r {
            Some((map, start, goal)) => map_of(input@) == Some((map@, start, goal)),
            None => map_of(input@) is None,
        },
{
    let chars = to_chars(input);
    let ls = lines(&chars);
    let ghost all = split_lines(input@);
    let mut map: Vec<Position> = Vec::new();
    let mut cs: Vec<char> = Vec::new();
    let mut start: usize = 0;
    let mut goal: usize = 0;
    let mut row: usize = 0;
    assert(all.take(0) =~= seq![]);
    while row < ls.len()
        invariant
            row <= ls@.len(),
            ls@.len() == all.len(),
            all == split_lines(input@),
            forall|m: int| 0 <= m < ls@.len() ==> #[trigger] ls@[m]@ == all[m],
            map@ == squares(all.take(row as int)),
            cs@ == flat(all.take(row as int)),
            start == first_of(cs@, 'S'),
            goal == first_of(cs@, 'E'),
        decreases ls.len() - row,
    {
        let line = &ls[row];
        let ghost done = all.take(row as int);
        let ghost map0 = map@;
        let ghost cs0 = cs@;
        assert(line@ == all[row as int]);
        let mut col: usize = 0;
        while col < line.len()
            invariant
                row < ls@.len(),
                col <= line@.len(),
                line@ == all[row as int],
                map@ == map0 + Seq::new(col as nat, |c: int| square_at(row as int, c, line@[c])),
                cs@ == cs0 + line@.take(col as int),
                start == first_of(cs@, 'S'),
                goal == first_of(cs@, 'E'),
            decreases line.len() - col,
        {
            let c = line[col];
            let ghost before = cs@;
            let height = Height::from_char(c);
            map.push(Position::new(row as isize, col as isize, height));
            cs.push(c);
            proof {
                assert(cs@.drop_last() =~= before);
                assert(cs@ =~= cs0 + line@.take(col + 1));
                assert(map@ =~= map0 + Seq::new((col + 1) as nat, |m: int| square_at(row as int, m, line@[m])));
            }
            if start == cs.len() - 1 && !Position::is_start(c) {
                start = cs.len();
            }
            if goal == cs.len() - 1 && !Position::is_goal(c) {
                goal = cs.len();
            }
            col = col + 1;
        }
        proof {
            let next = all.take(row + 1);
            assert(next.drop_last() =~= done);
            assert(next.last() == line@);
            assert(line@.take(line@.len() as int) =~= line@);
            assert(map@ =~= squares(next));
        }
        row = row + 1;
    }
    proof {
        assert(all.take(all.len() as int) =~= all);
        lemma_first_of_bound(cs@, 'S');
        lemma_first_of_bound(cs@, 'E');
        lemma_squares_len(all);
    }
    if start < cs.len() && goal < cs.len() {
        let s = map[start];
        let g = map[goal];
        Some((map, s, g))
    } else {
        None
    }
}

/// The first square of `map` at the given row and column.
pub open spec fn lookup(map: Seq<Position>, row: isize, col: isize) -> Option<Position>
    decreases map.len(),
{
    if map.len() == 0 {
        None
    } else {
        match lookup(map.drop_last(), row, col) {
            Some(p) => Some(p),
            None => if map.last().row == row && map.last().col == col {
                Some(map.last())
            } else {
                None
            },
        }
    }
}

/// The square of the map at `destination`, when it exists and the step from
/// `from` may climb to it.
pub open spec fn step_to(from: Position, destination: Position, map: Seq<Position>) -> Option<
    Position,
> {
    match lookup(map, destination.row, destination.col) {
        Some(p) => if climbable(from.height.value, p.height.value) {
            Some(p)
        } else {
            None
        },
        None => None,
    }
}

pub open spec fn as_seq(o: Option<Position>) -> Seq<Position> {
    match o {
        Some(p) => seq![p],
        None => seq![],
    }
}

pub open spec fn north(p: Position) -> Position {
    Position { row: (p.row - 1) as isize, ..p }
}

pub open spec fn south(p: Position) -> Position {
    Position { row: (p.row + 1) as isize, ..p }
}

pub open spec fn east(p: Position) -> Position {
    Position { col: (p.col + 1) as isize, ..p }
}

pub open spec fn west(p: Position) -> Position {
    Position { col: (p.col - 1) as isize, ..p }
}

/// The squares that one step from `node` reaches: north, south, east, west.
pub open spec fn neighbours(node: Position, map: Seq<Position>) -> Seq<Position> {
    as_seq(step_to(node, north(node), map)) + as_seq(step_to(node, south(node), map)) + as_seq(
        step_to(node, east(node), map),
    ) + as_seq(step_to(node, west(node), map))
}

/// The square at `destination`, if it is on the map and `from` can step to
/// it.
fn can_go(from: Position, destination: Position, map: &Vec<Position>) -> (r: Option<Position>)
    ensures
        r == step_to(from, destination, map@),
{
    let mut k: usize = 0;
    while k < map.len()
        invariant
            k <= map@.len(),
            lookup(map@.take(k as int), destination.row, destination.col) is None,
        decreases map.len() - k,
    {
        proof {
            assert(map@.take(k + 1).drop_last() =~= map@.take(k as int));
        }
        let p = map[k];
        if p.row == destination.row && p.col == destination.col {
            proof {
                lemma_lookup_found(map@, k as int + 1, destination.row, destination.col);
            }
            if from.can_move_to(p) {
                return Some(p);
            }
            return None;
        }
        k = k + 1;
    }
    proof {
        assert(map@.take(map@.len() as int) =~= map@);
    }
    None
}

proof fn lemma_lookup_found(map: Seq<Position>, k: int, row: isize, col: isize)
    requires
        0 < k <= map.len(),
        lookup(map.take(k), row, col) is Some,
    ensures
        lookup(map, row, col) == lookup(map.take(k), row, col),
    decreases map.len() - k,
{
    if k < map.len() {
        assert(map.take(k + 1).drop_last() =~= map.take(k));
        lemma_lookup_found(map, k + 1, row, col);
    } else {
        assert(map.take(k) =~= map);
    }
}

/// The squares one step from `node` can reach, in the order north, south,
/// east, west.
pub fn get_neighbours(node: Position, map: &Vec<Position>) -> (r: Vec<Position>)
    requires
        isize::MIN < node.row < isize::MAX,
        isize::MIN < node.col < isize::MAX,
    ensures
        r@ == neighbours(node, map@),
{
    let mut found: Vec<Position> = Vec::new();
    let ghost wanted = neighbours(node, map@);
    if let Some(p) = can_go(node, node.go_north(), map) {
        found.push(p);
    }
    assert(found@ =~= as_seq(step_to(node, north(node), map@)));
    if let Some(p) = can_go(node, node.go_south(), map) {
        found.push(p);
    }
    assert(found@ =~= as_seq(step_to(node, north(node), map@)) + as_seq(step_to(node, south(node), map@)));
    if let Some(p) = can_go(node, node.go_east(), map) {
        found.push(p);
    }
    assert(found@ =~= as_seq(step_to(node, north(node), map@)) + as_seq(step_to(node, south(node), map@))
        + as_seq(step_to(node, east(node), map@)));
    if let Some(p) = can_go(node, node.go_west(), map) {
        found.push(p);
    }
    assert(found@ =~= wanted);
    found
}

/// A square whose coordinates can move one step in every direction.
pub open spec fn coords_ok(p: Position) -> bool {
    isize::MIN < p.row < isize::MAX && isize::MIN < p.col < isize::MAX
}

/// A sequence of squares in which each square is a neighbour of the one
/// before.
pub open spec fn is_walk(path: Seq<Position>, map: Seq<Position>) -> bool {
    &&& path.len() >= 1
    &&& forall|k: int| 0 <= k < path.len() - 1 ==> #[trigger] walk_step(path, map, k)
}

/// Square `k + 1` of a path is a neighbour of square `k`.
pub open spec fn walk_step(path: Seq<Position>, map: Seq<Position>, k: int) -> bool {
    neighbours(path[k], map).contains(path[k + 1])
}

proof fn lemma_lookup_found_square(map: Seq<Position>, row: isize, col: isize)
    requires
        lookup(map, row, col) is Some,
    ensures
        lookup(map, row, col)->0.row == row,
        lookup(map, row, col)->0.col == col,
        map.contains(lookup(map, row, col)->0),
    decreases map.len(),
{
    if map.len() > 0 {
        if lookup(map.drop_last(), row, col) is Some {
            lemma_lookup_found_square(map.drop_last(), row, col);
            let p = lookup(map, row, col)->0;
            let k = choose|k: int| 0 <= k < map.drop_last().len() && map.drop_last()[k] == p;
            assert(map[k] == p);
        } else {
            assert(map[map.len() - 1] == map.last());
        }
    }
}

proof fn lemma_step_square(from: Position, destination: Position, map: Seq<Position>)
    requires
        step_to(from, destination, map) is Some,
    ensures
        lookup(map, step_to(from, destination, map)->0.row, step_to(from, destination, map)->0.col)
            == step_to(from, destination, map),
        map.contains(step_to(from, destination, map)->0),
{
    lemma_lookup_found_square(map, destination.row, destination.col);
}

/// Every neighbour is the square of the map that its coordinates find.
proof fn lemma_neighbour_squares(node: Position, map: Seq<Position>)
    ensures
        forall|p: Position|
            #[trigger] neighbours(node, map).contains(p) ==> lookup(map, p.row, p.col) == Some(p)
                && map.contains(p),
{
    let a = as_seq(step_to(node, north(node), map));
    let b = as_seq(step_to(node, south(node), map));
    let c = as_seq(step_to(node, east(node), map));
    let d = as_seq(step_to(node, west(node), map));
    if step_to(node, north(node), map) is Some {
        lemma_step_square(node, north(node), map);
    }
    if step_to(node, south(node), map) is Some {
        lemma_step_square(node, south(node), map);
    }
    if step_to(node, east(node), map) is Some {
        lemma_step_square(node, east(node), map);
    }
    if step_to(node, west(node), map) is Some {
        lemma_step_square(node, west(node), map);
    }
    assert forall|p: Position| #[trigger] neighbours(node, map).contains(p) implies lookup(
        map,
        p.row,
        p.col,
    ) == Some(p) && map.contains(p) by {
        let ns = neighbours(node, map);
        let k = choose|k: int| 0 <= k < ns.len() && ns[k] == p;
        assert(ns == a + b + c + d);
        if k < a.len() {
            assert(a[k] == p);
        } else if k < a.len() + b.len() {
            assert(b[k - a.len()] == p);
        } else if k < a.len() + b.len() + c.len() {
            assert(c[k - a.len() - b.len()] == p);
        } else {
            assert(d[k - a.len() - b.len() - c.len()] == p);
        }
    }
}

/// The index of the first square of the map at a row and column.
fn index_of(map: &Vec<Position>, row: isize, col: isize) -> (r: Option<usize>)
    ensures
        match r {
            Some(j) => j < map@.len() && lookup(map@, row, col) == Some(map@[j as int]),
            None => lookup(map@, row, col) is None,
        },
{
    let mut k: usize = 0;
    while k < map.len()
        invariant
            k <= map@.len(),
            lookup(map@.take(k as int), row, col) is None,
        decreases map.len() - k,
    {
        proof {
            assert(map@.take(k + 1).drop_last() =~= map@.take(k as int));
        }
        if map[k].row == row && map[k].col == col {
            proof {
                lemma_lookup_found(map@, k as int + 1, row, col);
            }
            return Some(k);
        }
        k = k + 1;
    }
    proof {
        assert(map@.take(map@.len() as int) =~= map@);
    }
    None
}

pub open spec fn count_true(vs: Seq<bool>) -> nat
    decreases vs.len(),
{
    if vs.len() == 0 {
        0
    } else {
        count_true(vs.drop_last()) + if vs.last() {
            1nat
        } else {
            0nat
        }
    }
}

proof fn lemma_count_true(vs: Seq<bool>, j: int)
    requires
        0 <= j < vs.len(),
        !vs[j],
    ensures
        count_true(vs.update(j, true)) == count_true(vs) + 1,
        count_true(vs) <= vs.len(),
    decreases vs.len(),
{
    lemma_count_bound(vs);
    let u = vs.update(j, true);
    if j < vs.len() - 1 {
        assert(u.drop_last() =~= vs.drop_last().update(j, true));
        lemma_count_true(vs.drop_last(), j);
    } else {
        assert(u.drop_last() =~= vs.drop_last());
    }
}

proof fn lemma_count_bound(vs: Seq<bool>)
    ensures
        count_true(vs) <= vs.len(),
    decreases vs.len(),
{
    if vs.len() > 0 {
        lemma_count_bound(vs.drop_last());
    }
}

/// A walk that starts among squares closed under taking neighbours stays
/// among them.
proof fn lemma_walk_stays(w: Seq<Position>, seen: Seq<Position>, map: Seq<Position>)
    requires
        is_walk(w, map),
        seen.contains(w[0]),
        forall|p: Position, n: Position|
            seen.contains(p) && #[trigger] neighbours(p, map).contains(n) ==> seen.contains(n),
    ensures
        forall|k: int| 0 <= k < w.len() ==> seen.contains(#[trigger] w[k]),
{
    assert forall|k: int| 0 <= k < w.len() implies seen.contains(#[trigger] w[k]) by {
        lemma_walk_prefix(w, seen, map, k);
    }
}

proof fn lemma_walk_prefix(w: Seq<Position>, seen: Seq<Position>, map: Seq<Position>, k: int)
    requires
        is_walk(w, map),
        seen.contains(w[0]),
        forall|p: Position, n: Position|
            seen.contains(p) && #[trigger] neighbours(p, map).contains(n) ==> seen.contains(n),
        0 <= k < w.len(),
    ensures
        seen.contains(w[k]),
    decreases k,
{
    if k > 0 {
        lemma_walk_prefix(w, seen, map, k - 1);
        assert(walk_step(w, map, k - 1));
    }
}

/// A shortest walk from `start` to the square of `goal`, found by
/// breadth-first search over the map; `None` when no walk from `start`
/// reaches the square of `goal`.
pub fn shortest_path(start: Position, goal: Position, map: &Vec<Position>) -> (r: Option<
    VecDeque<Position>,
>)
    requires
        coords_ok(start),
        forall|k: int| 0 <= k < map@.len() ==> coords_ok(#[trigger] map@[k]),
    ensures
        match r {
            Some(path) => {
                &&& is_walk(path@, map@)
                &&& path@[0] == start
                &&& same_square(path@.last(), goal)
                &&& forall|w: Seq<Position>|
                    is_walk(w, map@) && w[0] == start && same_square(#[trigger] w.last(), goal)
                        ==> path@.len() <= w.len()
            },
            None => forall|w: Seq<Position>|
                is_walk(w, map@) && w[0] == start ==> !same_square(#[trigger] w.last(), goal),
        },
{
    let mut queue: Vec<Position> = Vec::new();
    let mut parent: Vec<usize> = Vec::new();
    let mut visited: Vec<bool> = Vec::new();
    let mut k: usize = 0;
    while k < map.len()
        invariant
            k <= map@.len(),
            visited@ =~= Seq::new(k as nat, |m: int| false),
        decreases map.len() - k,
    {
        visited.push(false);
        k = k + 1;
    }
    proof {
        assert(count_true(visited@) == 0) by {
            lemma_count_zero(visited@);
        }
    }
    queue.push(start);
    parent.push(0);
    let ghost mut depth: Seq<int> = seq![0int];
    if let Some(j) = index_of(map, start.row, start.col) {
        let found = map[j];
        if found.row == start.row && found.col == start.col && found.height.value == start.height.value {
            assert(map@[j as int] == start);
            proof {
                lemma_count_true(visited@, j as int);
            }
            visited.set(j, true);
        }
    }
    proof {
        assert(queue@[0] == start);
        assert forall|j: int| 0 <= j < map@.len() && #[trigger] visited@[j] implies queue@.contains(
            map@[j],
        ) by {
            assert(map@[j] == start);
        }
    }
    let mut head: usize = 0;
    while head < queue.len()
        invariant
            coords_ok(start),
            forall|k: int| 0 <= k < map@.len() ==> coords_ok(#[trigger] map@[k]),
            queue@.len() >= 1,
            queue@[0] == start,
            parent@.len() == queue@.len(),
            visited@.len() == map@.len(),
            queue@.len() <= count_true(visited@) + 1,
            head <= queue@.len(),
            forall|e: int| 0 <= e < queue@.len() ==> coords_ok(#[trigger] queue@[e]),
            forall|e: int| 1 <= e < queue@.len() ==> #[trigger] linked(queue@, parent@, map@, e),
            forall|j: int| 0 <= j < map@.len() && #[trigger] visited@[j] ==> queue@.contains(map@[j]),
            forall|e: int, n: Position|
                0 <= e < head && #[trigger] neighbours(queue@[e], map@).contains(n)
                    ==> queue@.contains(n),
            forall|e: int| 0 <= e < head ==> !same_square(#[trigger] queue@[e], goal),
            depth.len() == queue@.len(),
            depth[0] == 0,
            forall|e: int| 1 <= e < queue@.len() ==> #[trigger] depth[e] == depth[parent@[e] as int] + 1,
            forall|i: int, j: int| 0 <= i <= j < queue@.len() ==> depth[i] <= depth[j],
            forall|e: int, n: Position|
                0 <= e < head && #[trigger] neighbours(queue@[e], map@).contains(n) ==> reached(
                    queue@,
                    depth,
                    n,
                    depth[e] + 1,
                ),
            head < queue@.len() ==> forall|j: int|
                0 <= j < queue@.len() ==> #[trigger] depth[j] <= depth[head as int] + 1,
        decreases map@.len() + 1 - head,
    {
        proof {
            lemma_count_bound(visited@);
        }
        let current = queue[head];
        if current.row == goal.row && current.col == goal.col {
            let path = build_path(&queue, &parent, head, map, Ghost(depth));
            proof {
                assert forall|w: Seq<Position>|
                    is_walk(w, map@) && w[0] == start && same_square(#[trigger] w.last(), goal)
                        implies path@.len() <= w.len() by {
                    if w.len() < depth[head as int] + 1 {
                        let k = w.len() - 1;
                        lemma_bfs_reach(w, queue@, depth, map@, head as int, k);
                        let e = choose|e: int| 0 <= e < queue@.len() && #[trigger] queue@[e] == w[k] && depth[e] <= k;
                        if e >= head {
                            assert(depth[head as int] <= depth[e]);
                        }
                        assert(!same_square(queue@[e], goal));
                    }
                }
            }
            return Some(path);
        }
        let ns = get_neighbours(current, map);
        proof {
            lemma_neighbour_squares(current, map@);
        }
        let mut t: usize = 0;
        while t < ns.len()
            invariant
                forall|k: int| 0 <= k < map@.len() ==> coords_ok(#[trigger] map@[k]),
                ns@ == neighbours(current, map@),
                current == queue@[head as int],
                head < queue@.len(),
                forall|p: Position|
                    #[trigger] neighbours(current, map@).contains(p) ==> lookup(map@, p.row, p.col)
                        == Some(p) && map@.contains(p),
                t <= ns@.len(),
                queue@.len() >= 1,
                queue@[0] == start,
                parent@.len() == queue@.len(),
                visited@.len() == map@.len(),
                queue@.len() <= count_true(visited@) + 1,
                forall|e: int| 0 <= e < queue@.len() ==> coords_ok(#[trigger] queue@[e]),
                forall|e: int| 1 <= e < queue@.len() ==> #[trigger] linked(queue@, parent@, map@, e),
                forall|j: int|
                    0 <= j < map@.len() && #[trigger] visited@[j] ==> queue@.contains(map@[j]),
                forall|e: int, n: Position|
                    0 <= e < head && #[trigger] neighbours(queue@[e], map@).contains(n)
                        ==> queue@.contains(n),
                forall|m: int| 0 <= m < t ==> queue@.contains(#[trigger] ns@[m]),
                forall|e: int| 0 <= e < head ==> !same_square(#[trigger] queue@[e], goal),
                !same_square(current, goal),
                depth.len() == queue@.len(),
                depth[0] == 0,
                forall|e: int| 1 <= e < queue@.len() ==> #[trigger] depth[e] == depth[parent@[e] as int] + 1,
                forall|i: int, j: int| 0 <= i <= j < queue@.len() ==> depth[i] <= depth[j],
                forall|e: int, n: Position|
                    0 <= e < head && #[trigger] neighbours(queue@[e], map@).contains(n) ==> reached(
                        queue@,
                        depth,
                        n,
                        depth[e] + 1,
                    ),
                forall|j: int| 0 <= j < queue@.len() ==> #[trigger] depth[j] <= depth[head as int] + 1,
                forall|m: int| 0 <= m < t ==> reached(queue@, depth, #[trigger] ns@[m], depth[head as int] + 1),
            decreases ns.len() - t,
        {
            let n = ns[t];
            proof {
                assert(neighbours(current, map@).contains(n)) by {
                    assert(ns@[t as int] == n);
                }
            }
            let ghost before = queue@;
            match index_of(map, n.row, n.col) {
                Some(j) => {
                    if !visited[j] {
                        proof {
                            lemma_count_true(visited@, j as int);
                        }
                        let ghost queue_before = queue@;
                        let ghost parent_before = parent@;
                        let ghost depth_before = depth;
                        visited.set(j, true);
                        queue.push(n);
                        parent.push(head);
                        proof {
                            depth = depth.push(depth_before[head as int] + 1);
                            assert forall|e: int| 1 <= e < queue@.len() implies #[trigger] depth[e]
                                == depth[parent@[e] as int] + 1 by {
                                if e < queue_before.len() {
                                    assert(depth_before[e] == depth_before[parent_before[e] as int] + 1);
                                    assert(linked(queue_before, parent_before, map@, e));
                                    assert(parent@[e] == parent_before[e]);
                                    assert(depth[e] == depth_before[e]);
                                    assert(depth[parent@[e] as int] == depth_before[parent_before[e] as int]);
                                } else {
                                    assert(parent@[e] == head);
                                    assert(depth[head as int] == depth_before[head as int]);
                                }
                            }
                            assert forall|e: int, x: Position|
                                0 <= e < head && #[trigger] neighbours(queue@[e], map@).contains(x) implies reached(
                                    queue@,
                                    depth,
                                    x,
                                    depth[e] + 1,
                                ) by {
                                assert(reached(queue_before, depth_before, x, depth_before[e] + 1));
                                let i = choose|i: int|
                                    0 <= i < queue_before.len() && #[trigger] queue_before[i] == x
                                        && depth_before[i] <= depth_before[e] + 1;
                                assert(queue@[i] == x);
                            }
                            assert forall|m: int| 0 <= m < t implies reached(
                                queue@,
                                depth,
                                #[trigger] ns@[m],
                                depth[head as int] + 1,
                            ) by {
                                assert(reached(queue_before, depth_before, ns@[m], depth_before[head as int] + 1));
                                let i = choose|i: int|
                                    0 <= i < queue_before.len() && #[trigger] queue_before[i] == ns@[m]
                                        && depth_before[i] <= depth_before[head as int] + 1;
                                assert(queue@[i] == ns@[m]);
                            }
                            let last = queue@.len() - 1;
                            assert(queue@[last] == n && depth[last] <= depth[head as int] + 1);
                            assert(reached(queue@, depth, ns@[t as int], depth[head as int] + 1));
                            assert forall|e: int| 1 <= e < queue@.len() implies #[trigger] linked(
                                queue@,
                                parent@,
                                map@,
                                e,
                            ) by {
                                if e < queue_before.len() {
                                    assert(linked(queue_before, parent_before, map@, e));
                                    assert(queue@[e] == queue_before[e]);
                                    assert(parent@[e] == parent_before[e]);
                                    assert(queue@[parent@[e] as int] == queue_before[parent_before[e] as int]);
                                } else {
                                    assert(queue@[e] == n);
                                    assert(parent@[e] == head);
                                    assert(queue@[head as int] == current);
                                }
                            }
                            assert(queue@[queue@.len() - 1] == n);
                            assert forall|x: Position| before.contains(x) implies queue@.contains(x) by {
                                let i = choose|i: int| 0 <= i < before.len() && before[i] == x;
                                assert(queue@[i] == x);
                            }
                        }
                    } else {
                        assert(visited@[j as int]);
                        proof {
                            assert(map@[j as int] == n);
                            assert(queue@.contains(n));
                            let i = choose|i: int| 0 <= i < queue@.len() && queue@[i] == n;
                            assert(depth[i] <= depth[head as int] + 1);
                            assert(reached(queue@, depth, ns@[t as int], depth[head as int] + 1));
                        }
                    }
                },
                None => {},
            }
            t = t + 1;
        }
        proof {
            assert forall|x: Position| #[trigger] neighbours(queue@[head as int], map@).contains(x)
                implies queue@.contains(x) && reached(queue@, depth, x, depth[head as int] + 1) by {
                let ns2 = neighbours(current, map@);
                let m = choose|m: int| 0 <= m < ns2.len() && ns2[m] == x;
                assert(ns@[m] == x);
            }
            if head + 1 < queue@.len() {
                assert(depth[head as int] <= depth[head + 1]);
            }
        }
        head = head + 1;
    }
    proof {
        let seen = queue@;
        assert forall|p: Position, n: Position|
            seen.contains(p) && #[trigger] neighbours(p, map@).contains(n) implies seen.contains(n) by {
            let e = choose|e: int| 0 <= e < seen.len() && seen[e] == p;
        }
        assert forall|w: Seq<Position>|
            is_walk(w, map@) && w[0] == start implies !same_square(#[trigger] w.last(), goal) by {
            assert(seen[0] == start);
            lemma_walk_stays(w, seen, map@);
            assert(seen.contains(w[w.len() - 1]));
            let e = choose|e: int| 0 <= e < seen.len() && seen[e] == w[w.len() - 1];
        }
    }
    None
}

proof fn lemma_count_zero(vs: Seq<bool>)
    requires
        forall|k: int| 0 <= k < vs.len() ==> !vs[k],
    ensures
        count_true(vs) == 0,
    decreases vs.len(),
{
    if vs.len() > 0 {
        lemma_count_zero(vs.drop_last());
    }
}

/// Some entry of a search queue, at most `bound` steps from the first, holds
/// the square `n`.
pub open spec fn reached(queue: Seq<Position>, depth: Seq<int>, n: Position, bound: int) -> bool {
    exists|e: int| 0 <= e < queue.len() && #[trigger] queue[e] == n && depth[e] <= bound
}

/// Along a walk from the first entry, square `i` was reached within `i` steps,
/// as long as `i` is no more than the depth of entry `head`.
proof fn lemma_bfs_reach(
    w: Seq<Position>,
    queue: Seq<Position>,
    depth: Seq<int>,
    map: Seq<Position>,
    head: int,
    i: int,
)
    requires
        is_walk(w, map),
        w[0] == queue[0],
        depth.len() == queue.len(),
        depth[0] == 0,
        0 <= head < queue.len(),
        forall|a: int, b: int| 0 <= a <= b < queue.len() ==> depth[a] <= depth[b],
        forall|e: int, n: Position|
            0 <= e < head && #[trigger] neighbours(queue[e], map).contains(n) ==> reached(
                queue,
                depth,
                n,
                depth[e] + 1,
            ),
        0 <= i < w.len(),
        i <= depth[head],
    ensures
        reached(queue, depth, w[i], i),
    decreases i,
{
    if i == 0 {
        assert(queue[0] == w[0]);
    } else {
        lemma_bfs_reach(w, queue, depth, map, head, i - 1);
        let e = choose|e: int| 0 <= e < queue.len() && #[trigger] queue[e] == w[i - 1] && depth[e] <= i - 1;
        if e >= head {
            assert(depth[head] <= depth[e]);
        }
        assert(walk_step(w, map, i - 1));
        assert(neighbours(queue[e], map).contains(w[i]));
        assert(reached(queue, depth, w[i], depth[e] + 1));
        let f = choose|f: int| 0 <= f < queue.len() && #[trigger] queue[f] == w[i] && depth[f] <= depth[e] + 1;
        assert(queue[f] == w[i] && depth[f] <= i);
    }
}

/// Entry `e` of a search queue was reached in one step from its recorded
/// predecessor, which comes earlier.
pub open spec fn linked(queue: Seq<Position>, parent: Seq<usize>, map: Seq<Position>, e: int) -> bool {
    &&& parent[e] < e
    &&& neighbours(queue[parent[e] as int], map).contains(queue[e])
}

/// The path that the recorded predecessors lead along, from the first entry
/// of the queue to entry `end`.
fn build_path(
    queue: &Vec<Position>,
    parent: &Vec<usize>,
    end: usize,
    map: &Vec<Position>,
    Ghost(depth): Ghost<Seq<int>>,
) -> (r: VecDeque<Position>)
    requires
        end < queue@.len(),
        parent@.len() == queue@.len(),
        forall|e: int| 1 <= e < queue@.len() ==> #[trigger] linked(queue@, parent@, map@, e),
        depth.len() == queue@.len(),
        depth[0] == 0,
        forall|e: int| 1 <= e < queue@.len() ==> #[trigger] depth[e] == depth[parent@[e] as int] + 1,
    ensures
        is_walk(r@, map@),
        r@[0] == queue@[0],
        r@.last() == queue@[end as int],
        r@.len() == depth[end as int] + 1,
{
    let mut path: VecDeque<Position> = VecDeque::new();
    path.push_back(queue[end]);
    let mut cur: usize = end;
    while cur != 0
        invariant
            cur <= end < queue@.len(),
            parent@.len() == queue@.len(),
            forall|e: int| 1 <= e < queue@.len() ==> #[trigger] linked(queue@, parent@, map@, e),
            is_walk(path@, map@),
            path@[0] == queue@[cur as int],
            path@.last() == queue@[end as int],
            depth.len() == queue@.len(),
            depth[0] == 0,
            forall|e: int| 1 <= e < queue@.len() ==> #[trigger] depth[e] == depth[parent@[e] as int] + 1,
            path@.len() + depth[cur as int] == depth[end as int] + 1,
        decreases cur,
    {
        let ghost before = path@;
        let p = parent[cur];
        assert(linked(queue@, parent@, map@, cur as int));
        assert(depth[cur as int] == depth[p as int] + 1);
        path.push_front(queue[p]);
        proof {
            assert(path@ =~= seq![queue@[p as int]] + before);
            assert forall|k: int| 0 <= k < path@.len() - 1 implies #[trigger] walk_step(path@, map@, k) by {
                if k > 0 {
                    assert(walk_step(before, map@, k - 1));
                    assert(path@[k] == before[k - 1]);
                    assert(path@[k + 1] == before[k]);
                }
            }
        }
        cur = p;
    }
    path
}

} // verus!
