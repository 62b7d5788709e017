//! A cave of rock paths into which sand falls grain by grain.

use vstd::prelude::*;
use crate::text::{
    split_lines, to_chars, lines, digits_end, usize_at, parse_usize, lemma_digits_end_within,
};

verus! {

/// A point of the cave: `x` grows to the right and `y` grows down.
#[derive(Debug, Clone, Copy, PartialEq, Eq, Structural, Hash)]
pub struct Position {
    pub x: usize,
    pub y: usize,
}

impl Position {
    pub fn new(x: usize, y: usize) -> (r: Self)
        ensures
            r.x == x,
            r.y == y,
    {
        Position { x, y }
    }

    /// The point just below.
    pub fn down(&self) -> (r: Position)
        requires
            self.y < usize::MAX,
        ensures
            r.x == self.x,
            r.y == self.y + 1,
    {
        Position { x: self.x, y: self.y + 1 }
    }

    /// The point below and to the left.
    pub fn down_and_left(&self) -> (r: Position)
        requires
            self.x > 0,
            self.y < usize::MAX,
        ensures
            r.x == self.x - 1,
            r.y == self.y + 1,
    {
        Position { x: self.x - 1, y: self.y + 1 }
    }

    /// The point below and to the right.
    pub fn down_and_right(&self) -> (r: Position)
        requires
            self.x < usize::MAX,
            self.y < usize::MAX,
        ensures
            r.x == self.x + 1,
            r.y == self.y + 1,
    {
        Position { x: self.x + 1, y: self.y + 1 }
    }
}


/// A point `x,y` that starts at position `i`: two numbers and the one
/// character between them.
pub open spec fn position_at(s: Seq<char>, i: int) -> Option<(Position, int)> {
    match usize_at(s, i) {
        None => None,
        Some((x, e)) => match usize_at(s, e + 1) {
            None => None,
            Some((y, e2)) => Some((Position { x, y }, e2)),
        },
    }
}

pub open spec fn is_separator(c: char) -> bool {
    c == ' ' || c == '-' || c == '>'
}

/// The points of a rock path from position `i` on, such as
/// `498,4 -> 498,6 -> 496,6`.
pub open spec fn points_from(s: Seq<char>, i: int) -> Option<Seq<Position>>
    decreases s.len() - i,
{
    if i < 0 || i >= s.len() {
        Some(seq![])
    } else if is_separator(s[i]) {
        points_from(s, i + 1)
    } else {
        match position_at(s, i) {
            None => None,
            Some((p, j)) => if i < j <= s.len() {
                match points_from(s, j) {
                    None => None,
                    Some(ps) => Some(seq![p] + ps),
                }
            } else {
                None
            },
        }
    }
}

pub open spec fn aligned(a: Position, b: Position) -> bool {
    a.x == b.x || a.y == b.y
}

/// The points strictly between two aligned points, in increasing order.
pub open spec fn between(start: Position, end: Position) -> Seq<Position> {
    if start.x == end.x {
        let lo = if start.y <= end.y {
            start.y as int
        } else {
            end.y as int
        };
        let hi = if start.y <= end.y {
            end.y as int
        } else {
            start.y as int
        };
        Seq::new(
            if hi > lo + 1 {
                (hi - lo - 1) as nat
            } else {
                0
            },
            |k: int| Position { x: start.x, y: (lo + 1 + k) as usize },
        )
    } else {
        let lo = if start.x <= end.x {
            start.x as int
        } else {
            end.x as int
        };
        let hi = if start.x <= end.x {
            end.x as int
        } else {
            start.x as int
        };
        Seq::new(
            if hi > lo + 1 {
                (hi - lo - 1) as nat
            } else {
                0
            },
            |k: int| Position { x: (lo + 1 + k) as usize, y: start.y },
        )
    }
}

/// The rocks of a path: each point, then the points between it and the one
/// before; `None` when two points in a row are not on a line.
pub open spec fn path_rocks(ps: Seq<Position>) -> Option<Seq<Position>>
    decreases ps.len(),
{
    if ps.len() == 0 {
        Some(seq![])
    } else {
        match path_rocks(ps.drop_last()) {
            None => None,
            Some(rs) => {
                let p = ps.last();
                if ps.len() == 1 {
                    Some(rs.push(p))
                } else if aligned(p, ps[ps.len() - 2]) {
                    Some(rs.push(p) + between(p, ps[ps.len() - 2]))
                } else {
                    None
                }
            },
        }
    }
}

/// The largest `y` among some points, or `low` when it is larger.
pub open spec fn lowest(ps: Seq<Position>, low: int) -> int
    decreases ps.len(),
{
    if ps.len() == 0 {
        low
    } else {
        let l = lowest(ps.drop_last(), low);
        if ps.last().y > l {
            ps.last().y as int
        } else {
            l
        }
    }
}

/// The rocks of some lines of paths and the largest `y` among their points.
pub open spec fn rocks_of(ls: Seq<Seq<char>>) -> Option<(Seq<Position>, int)>
    decreases ls.len(),
{
    if ls.len() == 0 {
        Some((seq![], 0))
    } else {
        match rocks_of(ls.drop_last()) {
            None => None,
            Some((rs, low)) => match points_from(ls.last(), 0) {
                None => None,
                Some(ps) => match path_rocks(ps) {
                    None => None,
                    Some(more) => Some((rs + more, lowest(ps, low))),
                },
            },
        }
    }
}



/// Reads a point `x,y` that starts at position `at`; the character between
/// the numbers is skipped whatever it is.
pub fn parse_position(s: &Vec<char>, at: usize) -> (r: Option<(Position, usize)>)
    ensures
        match r {
            Some((p, e)) => position_at(s@, at as int) == Some((p, e as int)),
            None => position_at(s@, at as int) is None,
        },
{
    let (x, e) = match parse_usize(s, at) {
        Some(n) => n,
        None => {
            return None;
        },
    };
    let n = s.len();
    if e == usize::MAX {
        proof {
            assert(digits_end(s@, at as int) == e);
            assert(at < s@.len());
            lemma_digits_end_within(s@, at as int);
            assert(e + 1 > s@.len());
            assert(digits_end(s@, e + 1) == e + 1);
        }
        return None;
    }
    let (y, e2) = match parse_usize(s, e + 1) {
        Some(n) => n,
        None => {
            return None;
        },
    };
    Some((Position::new(x, y), e2))
}


/// The points strictly between two points on one line, in increasing order.
pub fn get_line_between(start: &Position, end: &Position) -> (r: Vec<Position>)
    requires
        aligned(*start, *end),
    ensures
        r@ == between(*start, *end),
{
    let mut found: Vec<Position> = Vec::new();
    if start.x == end.x {
        let first = if start.y <= end.y {
            start.y
        } else {
            end.y
        };
        let last = if start.y <= end.y {
            end.y
        } else {
            start.y
        };
        if first == last {
            assert(found@ =~= between(*start, *end));
            return found;
        }
        let mut y: usize = first + 1;
        while y < last
            invariant
                first < y,
                first <= last,
                y <= last || y == first + 1,
                found@ =~= Seq::new(
                    (y - first - 1) as nat,
                    |k: int| Position { x: start.x, y: (first + 1 + k) as usize },
                ),
            decreases last - y,
        {
            found.push(Position::new(start.x, y));
            y = y + 1;
        }
    } else {
        let first = if start.x <= end.x {
            start.x
        } else {
            end.x
        };
        let last = if start.x <= end.x {
            end.x
        } else {
            start.x
        };
        if first == last {
            assert(found@ =~= between(*start, *end));
            return found;
        }
        let mut x: usize = first + 1;
        while x < last
            invariant
                first < x,
                first <= last,
                x <= last || x == first + 1,
                found@ =~= Seq::new(
                    (x - first - 1) as nat,
                    |k: int| Position { x: (first + 1 + k) as usize, y: start.y },
                ),
            decreases last - x,
        {
            found.push(Position::new(x, start.y));
            x = x + 1;
        }
    }
    found
}

proof fn lemma_position_bounds(s: Seq<char>, i: int)
    requires
        position_at(s, i) is Some,
    ensures
        match position_at(s, i) {
            Some((_, j)) => i < j <= s.len(),
            None => false,
        },
{
    let e = digits_end(s, i);
    assert(e + 1 < s.len());
    lemma_digits_end_within(s, e + 1);
}

/// The points of a rock path line.
fn line_points(s: &Vec<char>) -> (r: Option<Vec<Position>>)
    ensures
        match r {
            Some(ps) => points_from(s@, 0) == Some(ps@),
            None => points_from(s@, 0) is None,
        },
{
    let mut done: Vec<Position> = Vec::new();
    let mut i: usize = 0;
    assert(done@ + seq![] =~= done@);
    while i < s.len()
        invariant
            i <= s@.len(),
            points_from(s@, 0) == (match points_from(s@, i as int) {
                Some(ps) => Some(done@ + ps),
                None => None,
            }),
        decreases s.len() - i,
    {
        let c = s[i];
        if c == ' ' || c == '-' || c == '>' {
            i = i + 1;
        } else {
            match parse_position(s, i) {
                None => {
                    return None;
                },
                Some((p, j)) => {
                    proof {
                        lemma_position_bounds(s@, i as int);
                        let ghost before = done@;
                        if let Some(ps) = points_from(s@, j as int) {
                            assert(before + (seq![p] + ps) =~= before.push(p) + ps);
                        }
                    }
                    done.push(p);
                    i = j;
                }
            }
        }
    }
    assert(done@ + seq![] =~= done@);
    Some(done)
}

/// The rocks of a path, point after point with the points between.
fn path_rocks_of(ps: &Vec<Position>) -> (r: Option<Vec<Position>>)
    ensures
        match r {
            Some(rs) => path_rocks(ps@) == Some(rs@),
            None => path_rocks(ps@) is None,
        },
{
    let mut rocks: Vec<Position> = Vec::new();
    let mut k: usize = 0;
    assert(ps@.take(0) =~= seq![]);
    while k < ps.len()
        invariant
            k <= ps@.len(),
            path_rocks(ps@.take(k as int)) == Some(rocks@),
        decreases ps.len() - k,
    {
        let ghost prefix = ps@.take(k + 1);
        proof {
            assert(prefix.drop_last() =~= ps@.take(k as int));
            assert(prefix.last() == ps@[k as int]);
        }
        let p = ps[k];
        rocks.push(p);
        if k > 0 {
            let previous = ps[k - 1];
            assert(prefix[prefix.len() - 2] == previous);
            if !(p.x == previous.x || p.y == previous.y) {
                proof {
                    lemma_path_stops(ps@, k as int + 1);
                }
                return None;
            }
            let mut more = get_line_between(&p, &previous);
            rocks.append(&mut more);
        }
        k = k + 1;
    }
    assert(ps@.take(ps@.len() as int) =~= ps@);
    Some(rocks)
}

proof fn lemma_path_stops(ps: Seq<Position>, k: int)
    requires
        0 <= k <= ps.len(),
        path_rocks(ps.take(k)) is None,
    ensures
        path_rocks(ps) is None,
    decreases ps.len() - k,
{
    if k < ps.len() {
        assert(ps.take(k + 1).drop_last() =~= ps.take(k));
        lemma_path_stops(ps, k + 1);
    } else {
        assert(ps.take(k) =~= ps);
    }
}

proof fn lemma_rocks_stop(all: Seq<Seq<char>>, k: int)
    requires
        0 <= k <= all.len(),
        rocks_of(all.take(k)) is None,
    ensures
        rocks_of(all) is None,
    decreases all.len() - k,
{
    if k < all.len() {
        assert(all.take(k + 1).drop_last() =~= all.take(k));
        lemma_rocks_stop(all, k + 1);
    } else {
        assert(all.take(k) =~= all);
    }
}

/// Reads the rock paths of a text, one per line: the rocks and the largest
/// `y` among the path points. `None` when a line is not a path of points on
/// lines.
pub fn parse_rocks(input: &str) -> (r: Option<(Vec<Position>, usize)>)
    ensures
        match r {
            Some((rs, low)) => rocks_of(split_lines(input@)) == Some((rs@, low as int)),
            None => rocks_of(split_lines(input@)) is None,
        },
{
    let chars = to_chars(input);
    let ls = lines(&chars);
    let ghost all = split_lines(input@);
    let mut rocks: Vec<Position> = Vec::new();
    let mut lowest_rock: usize = 0;
    let mut k: usize = 0;
    assert(all.take(0) =~= seq![]);
    while k < ls.len()
        invariant
            k <= ls@.len(),
            ls@.len() == all.len(),
            all == split_lines(input@),
            forall|m: int| 0 <= m < ls@.len() ==> #[trigger] ls@[m]@ == all[m],
            rocks_of(all.take(k as int)) == Some((rocks@, lowest_rock as int)),
        decreases ls.len() - k,
    {
        proof {
            assert(all.take(k + 1).drop_last() =~= all.take(k as int));
            assert(all.take(k + 1).last() == all[k as int]);
        }
        assert(ls@[k as int]@ == all[k as int]);
        let points = match line_points(&ls[k]) {
            Some(ps) => ps,
            None => {
                proof {
                    lemma_rocks_stop(all, k as int + 1);
                }
                return None;
            },
        };
        let mut more = match path_rocks_of(&points) {
            Some(rs) => rs,
            None => {
                proof {
                    lemma_rocks_stop(all, k as int + 1);
                }
                return None;
            },
        };
        let ghost low0 = lowest_rock as int;
        let mut m: usize = 0;
        assert(points@.take(0) =~= seq![]);
        while m < points.len()
            invariant
                m <= points@.len(),
                lowest_rock == lowest(points@.take(m as int), low0),
            decreases points.len() - m,
        {
            proof {
                assert(points@.take(m + 1).drop_last() =~= points@.take(m as int));
            }
            if points[m].y > lowest_rock {
                lowest_rock = points[m].y;
            }
            m = m + 1;
        }
        assert(points@.take(points@.len() as int) =~= points@);
        rocks.append(&mut more);
        k = k + 1;
    }
    assert(all.take(all.len() as int) =~= all);
    Some((rocks, lowest_rock))
}

/// Where a grain of sand ends up.
#[derive(Debug, Clone, Copy, PartialEq, Eq, Structural)]
pub enum SandPlacement {
    Resting(Position),
    FreeFall,
}

/// The model of a cave: its rocks, the depth below which there is no rock,
/// and the grains of sand at rest in the order they came to rest.
pub struct CaveState {
    pub rocks: Seq<Position>,
    pub depth: int,
    pub sand: Seq<Position>,
}

pub open spec fn at(x: int, y: int) -> Position {
    Position { x: x as usize, y: y as usize }
}

pub open spec fn blocked(c: CaveState, p: Position) -> bool {
    c.rocks.contains(p) || c.sand.contains(p)
}

/// Where a grain at `(x, y)` ends up: it falls straight down, else down to
/// the left, else down to the right, and rests where none is free; below the
/// deepest rock it falls for ever.
pub open spec fn fall(c: CaveState, x: int, y: int) -> SandPlacement
    decreases c.depth + 1 - y,
{
    if y > c.depth {
        SandPlacement::FreeFall
    } else if !blocked(c, at(x, y + 1)) {
        fall(c, x, y + 1)
    } else if !blocked(c, at(x - 1, y + 1)) {
        fall(c, x - 1, y + 1)
    } else if !blocked(c, at(x + 1, y + 1)) {
        fall(c, x + 1, y + 1)
    } else {
        SandPlacement::Resting(at(x, y))
    }
}

/// The cave after a grain falls from `(500, 0)`.
pub open spec fn dropped(c: CaveState) -> CaveState {
    match fall(c, 500, 0) {
        SandPlacement::Resting(p) => if c.sand.contains(p) {
            c
        } else {
            CaveState { sand: c.sand.push(p), ..c }
        },
        SandPlacement::FreeFall => c,
    }
}

/// A cave of rock into which sand pours from `(500, 0)`.
#[derive(Debug)]
pub struct Cave {
    rocks: Vec<Position>,
    oblivion_depth: usize,
    resting_sand: Vec<Position>,
}

impl View for Cave {
    type V = CaveState;

    closed spec fn view(&self) -> CaveState {
        CaveState {
            rocks: self.rocks@,
            depth: self.oblivion_depth as int,
            sand: self.resting_sand@,
        }
    }
}

fn contains_position(ps: &Vec<Position>, p: &Position) -> (r: bool)
    ensures
        r == ps@.contains(*p),
{
    let mut k: usize = 0;
    while k < ps.len()
        invariant
            k <= ps@.len(),
            forall|m: int| 0 <= m < k ==> ps@[m] != *p,
        decreases ps.len() - k,
    {
        if ps[k] == *p {
            assert(ps@[k as int] == *p);
            return true;
        }
        k = k + 1;
    }
    false
}

impl Cave {
    /// No grain of sand is recorded twice.
    pub open spec fn wf(&self) -> bool {
        self@.sand.no_duplicates()
    }

    /// Reads a cave from its rock paths; no sand has fallen yet.
    pub fn parse(input: &str) -> (r: Option<Cave>)
        ensures
            match r {
                Some(c) => c.wf() && rocks_of(split_lines(input@)) == Some((c@.rocks, c@.depth))
                    && c@.sand == Seq::<Position>::empty(),
                None => rocks_of(split_lines(input@)) is None,
            },
    {
        match parse_rocks(input) {
            None => None,
            Some((rocks, lowest)) => {
                let c = Cave { rocks, oblivion_depth: lowest, resting_sand: Vec::new() };
                assert(c@.sand =~= Seq::<Position>::empty());
                Some(c)
            },
        }
    }

    /// Drops one grain of sand from `(500, 0)` and records where it rests.
    pub fn drop_sand(&mut self) -> (r: SandPlacement)
        requires
            old(self).wf(),
            old(self)@.depth < 500,
        ensures
            final(self).wf(),
            r == fall(old(self)@, 500, 0),
            final(self)@ == dropped(old(self)@),
    {
        let mut position = Position::new(500, 0);
        loop
            invariant
                self.wf(),
                self@.depth < 500,
                self@ == old(self)@,
                fall(self@, 500, 0) == fall(self@, position.x as int, position.y as int),
                position.x + position.y >= 500,
                position.x <= 500 + position.y,
                position.y <= self@.depth + 1,
            decreases self@.depth + 1 - position.y,
        {
            if position.y > self.oblivion_depth {
                return SandPlacement::FreeFall;
            }
            let down = position.down();
            if !self.is_blocked(&down) {
                position = down;
                continue;
            }
            let left = position.down_and_left();
            if !self.is_blocked(&left) {
                position = left;
                continue;
            }
            let right = position.down_and_right();
            if !self.is_blocked(&right) {
                position = right;
                continue;
            }
            if !contains_position(&self.resting_sand, &position) {
                self.resting_sand.push(position);
            }
            return SandPlacement::Resting(position);
        }
    }

    /// Whether the deepest rock lies above `y = 500`, so that sand poured at
    /// `x = 500` can never drift past `x = 0`.
    pub fn is_shallow(&self) -> (r: bool)
        ensures
            r == (self@.depth < 500),
    {
        self.oblivion_depth < 500
    }

    /// How many grains of sand are at rest.
    pub fn count_at_rest(&self) -> (r: usize)
        requires
            self.wf(),
        ensures
            r == self@.sand.len(),
    {
        self.resting_sand.len()
    }

    /// Whether rock or sand at rest fills `position`.
    fn is_blocked(&self, position: &Position) -> (r: bool)
        ensures
            r == blocked(self@, *position),
    {
        contains_position(&self.rocks, position) || contains_position(&self.resting_sand, position)
    }
}

} // verus!
