//! Sensors, the beacons closest to them, and the zones they cover.

use vstd::prelude::*;
use crate::text::{
    split_lines, to_chars, lines, digits_end, digits_value,
    literal_at, match_literal, lemma_digits_monotone, lemma_digits_end_after, lemma_digits_end_within,
};

verus! {

/// A point of the plane.
#[derive(Debug, Clone, Copy, PartialEq, Eq, Structural)]
pub struct Position {
    pub x: isize,
    pub y: isize,
}

pub open spec fn abs(v: int) -> int {
    if v < 0 {
        -v
    } else {
        v
    }
}

/// The Manhattan distance between two points.
pub open spec fn manhattan(a: Position, b: Position) -> int {
    abs(a.x - b.x) + abs(a.y - b.y)
}

fn abs_diff(a: isize, b: isize) -> (r: usize)
    ensures
        r == abs(a - b),
{
    if a >= b {
        (a as i128 - b as i128) as usize
    } else {
        (b as i128 - a as i128) as usize
    }
}

impl Position {
    pub fn new(x: isize, y: isize) -> (r: Self)
        ensures
            r.x == x,
            r.y == y,
    {
        Position { x, y }
    }

    /// The Manhattan distance to `other`.
    pub fn get_manhattan_distance(&self, other: Position) -> (r: usize)
        requires
            manhattan(*self, other) <= usize::MAX,
        ensures
            r == manhattan(*self, other),
    {
        let x_distance = abs_diff(self.x, other.x);
        let y_distance = abs_diff(self.y, other.y);
        x_distance + y_distance
    }
}

/// The square, tilted by 45 degrees, that a sensor covers: every point no
/// farther from `point` than `distance`.
#[derive(Debug, Clone, Copy, PartialEq, Eq, Structural)]
pub struct Zone {
    pub point: Position,
    pub distance: usize,
}

/// The zone's reach in each direction fits in an `isize`.
pub open spec fn reach_fits(z: Zone) -> bool {
    &&& z.distance <= isize::MAX
    &&& isize::MIN <= z.point.x - z.distance
    &&& z.point.x + z.distance <= isize::MAX
    &&& isize::MIN <= z.point.y - z.distance
    &&& z.point.y + z.distance <= isize::MAX
}

/// The points one step beyond the zone's border fit in an `isize`.
pub open spec fn fence_fits(z: Zone) -> bool {
    &&& z.distance < isize::MAX
    &&& isize::MIN <= z.point.x - z.distance - 1
    &&& z.point.x + z.distance + 1 <= isize::MAX
    &&& isize::MIN <= z.point.y - z.distance - 1
    &&& z.point.y + z.distance + 1 <= isize::MAX
}

/// The fence point for the offsets `a` and `b` (with `a + b` one more than the
/// distance), in the turn `quarter`.
pub open spec fn fence_point(z: Zone, a: int, b: int, quarter: int) -> Position {
    let p = z.point;
    if quarter == 0 {
        Position { x: (p.x + a) as isize, y: (p.y + b) as isize }
    } else if quarter == 1 {
        Position { x: (p.y + b) as isize, y: (p.x - a) as isize }
    } else if quarter == 2 {
        Position { x: (p.x - a) as isize, y: (p.y - b) as isize }
    } else {
        Position { x: (p.y - b) as isize, y: (p.x + a) as isize }
    }
}

/// The fence of a zone: for each offset `a` from 0 to the distance, the four
/// turns of the point `a` across and `distance + 1 - a` along.
pub open spec fn fence_of(z: Zone) -> Seq<Position> {
    Seq::new(
        4 * (z.distance + 1) as nat,
        |k: int| fence_point(z, k / 4, z.distance + 1 - k / 4, k % 4),
    )
}

impl Zone {
    /// The zone of a sensor whose closest beacon is `beacon`.
    pub fn new(sensor: Position, beacon: Position) -> (r: Self)
        requires
            manhattan(sensor, beacon) <= usize::MAX,
        ensures
            r.point == sensor,
            r.distance == manhattan(sensor, beacon),
    {
        let distance = sensor.get_manhattan_distance(beacon);
        Zone { point: sensor, distance }
    }

    /// Whether `point` lies in the zone.
    pub fn contains(&self, point: Position) -> (r: bool)
        requires
            reach_fits(*self),
        ensures
            r == (manhattan(self.point, point) <= self.distance),
    {
        if !self.is_within_x(point) || !self.is_within_y(point) {
            return false;
        }
        let distance = self.point.get_manhattan_distance(point);
        self.distance >= distance
    }

    /// The points just outside the zone's border.
    pub fn get_fence(&self) -> (r: Vec<Position>)
        requires
            fence_fits(*self),
        ensures
            r@ == fence_of(*self),
    {
        let mut fence: Vec<Position> = Vec::new();
        let past_fence_distance = self.distance + 1;
        let p = self.point;
        let mut a: usize = 0;
        while a < past_fence_distance
            invariant
                past_fence_distance == self.distance + 1,
                p == self.point,
                fence_fits(*self),
                a <= past_fence_distance,
                fence@ =~= fence_of(*self).take(4 * a),
            decreases past_fence_distance - a,
        {
            let b = past_fence_distance - a;
            fence.push(Position::new(p.x + a as isize, p.y + b as isize));
            fence.push(Position::new(p.y + b as isize, p.x - a as isize));
            fence.push(Position::new(p.x - a as isize, p.y - b as isize));
            fence.push(Position::new(p.y - b as isize, p.x + a as isize));
            proof {
                let f = fence_of(*self);
                assert forall|k: int| 4 * a <= k < 4 * a + 4 implies k / 4 == a && #[trigger] (k % 4)
                    == k - 4 * a by {}
                assert(fence@ =~= f.take(4 * (a + 1)));
            }
            a = a + 1;
        }
        fence
    }

    /// The largest `y` of the zone.
    pub fn get_up_reach(&self) -> (r: isize)
        requires
            reach_fits(*self),
        ensures
            r == self.point.y + self.distance,
    {
        self.point.y + self.distance as isize
    }

    /// The smallest `y` of the zone.
    pub fn get_down_reach(&self) -> (r: isize)
        requires
            reach_fits(*self),
        ensures
            r == self.point.y - self.distance,
    {
        self.point.y - self.distance as isize
    }

    /// The largest `x` of the zone.
    pub fn get_right_reach(&self) -> (r: isize)
        requires
            reach_fits(*self),
        ensures
            r == self.point.x + self.distance,
    {
        self.point.x + self.distance as isize
    }

    /// The smallest `x` of the zone.
    pub fn get_left_reach(&self) -> (r: isize)
        requires
            reach_fits(*self),
        ensures
            r == self.point.x - self.distance,
    {
        self.point.x - self.distance as isize
    }

    fn is_within_x(&self, other: Position) -> (r: bool)
        requires
            reach_fits(*self),
        ensures
            r == (abs(other.x - self.point.x) <= self.distance),
    {
        let right_reach = self.get_right_reach();
        let left_reach = self.get_left_reach();
        other.x <= right_reach && other.x >= left_reach
    }

    fn is_within_y(&self, other: Position) -> (r: bool)
        requires
            reach_fits(*self),
        ensures
            r == (abs(other.y - self.point.y) <= self.distance),
    {
        let up_reach = self.get_up_reach();
        let down_reach = self.get_down_reach();
        other.y <= up_reach && other.y >= down_reach
    }
}


/// An integer that starts at position `i`: an optional `-` and one or more
/// digits; its value and the position after it.
pub open spec fn int_at(s: Seq<char>, i: int) -> Option<(int, int)> {
    let negative = 0 <= i < s.len() && s[i] == '-';
    let p = if negative {
        i + 1
    } else {
        i
    };
    let e = digits_end(s, p);
    if 0 <= i && e > p {
        let v = digits_value(s, p, e);
        Some(
            (
                if negative {
                    -v
                } else {
                    v as int
                },
                e,
            ),
        )
    } else {
        None
    }
}

/// A literal then an integer that fits in an `isize`, from position `i` on.
pub open spec fn field_at(s: Seq<char>, i: int, lit: Seq<char>) -> Option<(isize, int)> {
    if literal_at(s, i, lit) {
        match int_at(s, i + lit.len()) {
            Some((v, e)) => if isize::MIN <= v <= isize::MAX {
                Some((v as isize, e))
            } else {
                None
            },
            None => None,
        }
    } else {
        None
    }
}

pub open spec fn sensor_x_lit() -> Seq<char> {
    "Sensor at x="@
}

pub open spec fn y_lit() -> Seq<char> {
    ", y="@
}

pub open spec fn beacon_x_lit() -> Seq<char> {
    ": closest beacon is at x="@
}

/// The sensor and beacon of a report line
/// `Sensor at x=<int>, y=<int>: closest beacon is at x=<int>, y=<int>`.
pub open spec fn report_of(line: Seq<char>) -> Option<(Position, Position)> {
    match field_at(line, 0, sensor_x_lit()) {
        None => None,
        Some((sx, i1)) => match field_at(line, i1, y_lit()) {
            None => None,
            Some((sy, i2)) => match field_at(line, i2, beacon_x_lit()) {
                None => None,
                Some((bx, i3)) => match field_at(line, i3, y_lit()) {
                    None => None,
                    Some((by, i4)) => if i4 == line.len() {
                        Some((Position { x: sx, y: sy }, Position { x: bx, y: by }))
                    } else {
                        None
                    },
                },
            },
        },
    }
}

/// The zone of a report, when its distance and reach fit the machine types.
pub open spec fn zone_of(sensor: Position, beacon: Position) -> Option<Zone> {
    if manhattan(sensor, beacon) <= usize::MAX && reach_fits(
        Zone { point: sensor, distance: manhattan(sensor, beacon) as usize },
    ) {
        Some(Zone { point: sensor, distance: manhattan(sensor, beacon) as usize })
    } else {
        None
    }
}

/// The reports of a sequence of lines, one per line; `None` when a line is
/// not a report or its zone does not fit.
pub open spec fn reports_of(ls: Seq<Seq<char>>) -> Option<Seq<(Position, Position)>>
    decreases ls.len(),
{
    if ls.len() == 0 {
        Some(seq![])
    } else {
        match reports_of(ls.drop_last()) {
            None => None,
            Some(rs) => match report_of(ls.last()) {
                None => None,
                Some(r) => if zone_of(r.0, r.1) is Some {
                    Some(rs.push(r))
                } else {
                    None
                },
            },
        }
    }
}

pub open spec fn min(a: int, b: int) -> int {
    if a <= b {
        a
    } else {
        b
    }
}

pub open spec fn max(a: int, b: int) -> int {
    if a >= b {
        a
    } else {
        b
    }
}

/// The smallest `x` and `y` that some zone reaches, `isize::MAX` where there
/// is no zone.
pub open spec fn min_reach_of(zs: Seq<Zone>) -> Position
    decreases zs.len(),
{
    if zs.len() == 0 {
        Position { x: isize::MAX, y: isize::MAX }
    } else {
        let m = min_reach_of(zs.drop_last());
        let z = zs.last();
        Position {
            x: min(m.x as int, z.point.x - z.distance) as isize,
            y: min(m.y as int, z.point.y - z.distance) as isize,
        }
    }
}

/// The largest `x` and `y` that some zone reaches, `isize::MIN` where there
/// is no zone.
pub open spec fn max_reach_of(zs: Seq<Zone>) -> Position
    decreases zs.len(),
{
    if zs.len() == 0 {
        Position { x: isize::MIN, y: isize::MIN }
    } else {
        let m = max_reach_of(zs.drop_last());
        let z = zs.last();
        Position {
            x: max(m.x as int, z.point.x + z.distance) as isize,
            y: max(m.y as int, z.point.y + z.distance) as isize,
        }
    }
}

pub open spec fn sensors_of(rs: Seq<(Position, Position)>) -> Seq<Position> {
    Seq::new(rs.len(), |k: int| rs[k].0)
}

pub open spec fn beacons_of(rs: Seq<(Position, Position)>) -> Seq<Position> {
    Seq::new(rs.len(), |k: int| rs[k].1)
}

pub open spec fn zones_of(rs: Seq<(Position, Position)>) -> Seq<Zone> {
    Seq::new(rs.len(), |k: int| zone_of(rs[k].0, rs[k].1)->0)
}

/// The coverage that the reports of a text describe.
pub open spec fn described_by(c: Coverage, s: Seq<char>) -> bool {
    match reports_of(split_lines(s)) {
        Some(rs) => {
            &&& c.sensors@ == sensors_of(rs)
            &&& c.beacons@ == beacons_of(rs)
            &&& c.zones@ == zones_of(rs)
            &&& c.min_reach == min_reach_of(zones_of(rs))
            &&& c.max_reach == max_reach_of(zones_of(rs))
        },
        None => false,
    }
}

/// What a set of sensor reports covers.
#[derive(Debug)]
pub struct Coverage {
    pub sensors: Vec<Position>,
    pub beacons: Vec<Position>,
    pub zones: Vec<Zone>,
    pub min_reach: Position,
    pub max_reach: Position,
}

impl Coverage {
    /// Every zone's reach fits in an `isize`.
    pub open spec fn wf(&self) -> bool {
        forall|k: int| 0 <= k < self.zones@.len() ==> reach_fits(#[trigger] self.zones@[k])
    }

    /// Whether a sensor or a beacon stands at `point`.
    pub fn is_occupied(&self, point: Position) -> (r: bool)
        ensures
            r == (self.sensors@.contains(point) || self.beacons@.contains(point)),
    {
        contains_position(&self.sensors, point) || contains_position(&self.beacons, point)
    }

    /// Whether some zone holds `point`.
    pub fn contains(&self, point: Position) -> (r: bool)
        requires
            self.wf(),
        ensures
            r == exists|k: int|
                0 <= k < self.zones@.len() && manhattan(#[trigger] self.zones@[k].point, point)
                    <= self.zones@[k].distance,
    {
        let mut k: usize = 0;
        while k < self.zones.len()
            invariant
                self.wf(),
                k <= self.zones@.len(),
                forall|m: int|
                    0 <= m < k ==> manhattan(#[trigger] self.zones@[m].point, point)
                        > self.zones@[m].distance,
            decreases self.zones.len() - k,
        {
            if self.zones[k].contains(point) {
                return true;
            }
            k = k + 1;
        }
        false
    }

    /// Reads one report per line. `None` when a line is not a report, or when
    /// a zone's distance or reach does not fit the machine types.
    pub fn parse(input: &str) -> (r: Option<Coverage>)
        ensures
            match r {
                Some(c) => described_by(c, input@) && c.wf(),
                None => reports_of(split_lines(input@)) is None,
            },
    {
        let chars = to_chars(input);
        let ls = lines(&chars);
        let ghost all = split_lines(input@);
        let mut sensors: Vec<Position> = Vec::new();
        let mut beacons: Vec<Position> = Vec::new();
        let mut zones: Vec<Zone> = Vec::new();
        let mut min_reach = Position::new(isize::MAX, isize::MAX);
        let mut max_reach = Position::new(isize::MIN, isize::MIN);
        let ghost mut rs: Seq<(Position, Position)> = seq![];
        let mut k: usize = 0;
        assert(all.take(0) =~= seq![]);
        while k < ls.len()
            invariant
                k <= ls@.len(),
                ls@.len() == all.len(),
                all == split_lines(input@),
                forall|m: int| 0 <= m < ls@.len() ==> #[trigger] ls@[m]@ == all[m],
                reports_of(all.take(k as int)) == Some(rs),
                sensors@ == sensors_of(rs),
                beacons@ == beacons_of(rs),
                zones@ == zones_of(rs),
                min_reach == min_reach_of(zones@),
                max_reach == max_reach_of(zones@),
                forall|m: int| 0 <= m < zones@.len() ==> reach_fits(#[trigger] zones@[m]),
            decreases ls.len() - k,
        {
            proof {
                assert(all.take(k + 1).drop_last() =~= all.take(k as int));
                assert(all.take(k + 1).last() == all[k as int]);
            }
            assert(ls@[k as int]@ == all[k as int]);
            let (sensor, beacon) = match parse_positions(&ls[k]) {
                Some(p) => p,
                None => {
                    proof {
                        lemma_reports_stop(all, k as int + 1);
                    }
                    return None;
                },
            };
            let dx = abs_diff(sensor.x, beacon.x);
            let dy = abs_diff(sensor.y, beacon.y);
            if dx > usize::MAX - dy {
                proof {
                    lemma_reports_stop(all, k as int + 1);
                }
                return None;
            }
            let zone = Zone::new(sensor, beacon);
            let d = zone.distance;
            if d > isize::MAX as usize || (sensor.x as i128) - (d as i128) < isize::MIN as i128 || (
            sensor.x as i128) + (d as i128) > isize::MAX as i128 || (sensor.y as i128) - (d as i128)
                < isize::MIN as i128 || (sensor.y as i128) + (d as i128) > isize::MAX as i128 {
                proof {
                    lemma_reports_stop(all, k as int + 1);
                }
                return None;
            }
            let ghost before = zones@;
            sensors.push(sensor);
            beacons.push(beacon);
            zones.push(zone);
            proof {
                rs = rs.push((sensor, beacon));
                assert(sensors@ =~= sensors_of(rs));
                assert(beacons@ =~= beacons_of(rs));
                assert(zones@ =~= zones_of(rs));
                assert(zones@.drop_last() =~= before);
            }
            let left = zone.get_left_reach();
            let right = zone.get_right_reach();
            let down = zone.get_down_reach();
            let up = zone.get_up_reach();
            if left < min_reach.x {
                min_reach.x = left;
            }
            if down < min_reach.y {
                min_reach.y = down;
            }
            if right > max_reach.x {
                max_reach.x = right;
            }
            if up > max_reach.y {
                max_reach.y = up;
            }
            k = k + 1;
        }
        proof {
            assert(all.take(all.len() as int) =~= all);
        }
        Some(Coverage { sensors, beacons, zones, min_reach, max_reach })
    }

    pub fn get_min_reach(&self) -> (r: Position)
        ensures
            r == self.min_reach,
    {
        self.min_reach
    }

    pub fn get_max_reach(&self) -> (r: Position)
        ensures
            r == self.max_reach,
    {
        self.max_reach
    }
}


/// The integer that starts at position `i`, when it fits in an `isize`.
fn parse_int(s: &Vec<char>, i: usize) -> (r: Option<(isize, usize)>)
    ensures
        r == (match int_at(s@, i as int) {
            Some((v, e)) => if isize::MIN <= v <= isize::MAX {
                Some((v as isize, e as usize))
            } else {
                None
            },
            None => None,
        }),
{
    let negative = i < s.len() && s[i] == '-';
    let p: usize = if negative {
        i + 1
    } else {
        i
    };
    let bound: u64 = isize::MAX as u64 + 1;
    let mut v: u64 = 0;
    let mut j: usize = p;
    if p > s.len() {
        return None;
    }
    while j < s.len() && '0' <= s[j] && s[j] <= '9'
        invariant
            p <= j <= s@.len(),
            negative == (0 <= i < s@.len() && s@[i as int] == '-'),
            p == (if negative {
                i + 1
            } else {
                i as int
            }),
            bound == isize::MAX as int + 1,
            v == digits_value(s@, p as int, j as int),
            v <= bound,
            digits_end(s@, p as int) == digits_end(s@, j as int),
        decreases s.len() - j,
    {
        let d = (s[j] as u32 - '0' as u32) as u64;
        if v > (bound - d) / 10 {
            proof {
                assert(v * 10 + d > bound) by (nonlinear_arith)
                    requires
                        v > (bound - d) / 10,
                        d <= 9,
                ;
                assert(digits_value(s@, p as int, j + 1) == v * 10 + d);
                lemma_digits_end_after(s@, j + 1);
                lemma_digits_monotone(s@, p as int, j + 1, digits_end(s@, p as int));
            }
            return None;
        }
        proof {
            assert(v * 10 + d <= bound) by (nonlinear_arith)
                requires
                    v <= (bound - d) / 10,
                    d <= 9,
            ;
        }
        v = v * 10 + d;
        j = j + 1;
    }
    assert(digits_end(s@, j as int) == j);
    if j == p {
        return None;
    }
    if negative {
        Some(((0 - (v as i128)) as isize, j))
    } else if v <= isize::MAX as u64 {
        Some((v as isize, j))
    } else {
        None
    }
}



/// A literal then an integer, from position `i` on.
fn parse_field(s: &Vec<char>, i: usize, lit: &Vec<char>) -> (r: Option<(isize, usize)>)
    ensures
        match r {
            Some((v, e)) => field_at(s@, i as int, lit@) == Some((v, e as int)),
            None => field_at(s@, i as int, lit@) is None,
        },
{
    if !match_literal(s, i, lit) {
        return None;
    }
    let n = s.len();
    assert(i + lit@.len() <= n);
    proof {
        let j = i + lit@.len();
        let p = if 0 <= j < s@.len() && s@[j] == '-' {
            j + 1
        } else {
            j
        };
        lemma_digits_end_within(s@, p);
    }
    parse_int(s, i + lit.len())
}

/// Reads the sensor and the beacon of a report line.
pub fn parse_positions(line: &Vec<char>) -> (r: Option<(Position, Position)>)
    ensures
        r == report_of(line@),
{
    let sensor_x = to_chars("Sensor at x=");
    let y = to_chars(", y=");
    let beacon_x = to_chars(": closest beacon is at x=");
    let (sx, i1) = match parse_field(line, 0, &sensor_x) {
        Some(f) => f,
        None => {
            return None;
        },
    };
    let (sy, i2) = match parse_field(line, i1, &y) {
        Some(f) => f,
        None => {
            return None;
        },
    };
    let (bx, i3) = match parse_field(line, i2, &beacon_x) {
        Some(f) => f,
        None => {
            return None;
        },
    };
    let (by, i4) = match parse_field(line, i3, &y) {
        Some(f) => f,
        None => {
            return None;
        },
    };
    if i4 == line.len() {
        Some((Position::new(sx, sy), Position::new(bx, by)))
    } else {
        None
    }
}

proof fn lemma_reports_stop(all: Seq<Seq<char>>, k: int)
    requires
        0 <= k <= all.len(),
        reports_of(all.take(k)) is None,
    ensures
        reports_of(all) is None,
    decreases all.len() - k,
{
    if k < all.len() {
        assert(all.take(k + 1).drop_last() =~= all.take(k));
        lemma_reports_stop(all, k + 1);
    } else {
        assert(all.take(k) =~= all);
    }
}

/// No sensor or beacon stands at `p` and no zone covers it.
pub open spec fn free(c: Coverage, p: Position) -> bool {
    &&& !c.sensors@.contains(p)
    &&& !c.beacons@.contains(p)
    &&& !exists|k: int|
        0 <= k < c.zones@.len() && manhattan(#[trigger] c.zones@[k].point, p) <= c.zones@[k].distance
}

/// `p` lies in the box from `low` to `high`, bounds included.
pub open spec fn in_box(p: Position, low: Position, high: Position) -> bool {
    low.x <= p.x <= high.x && low.y <= p.y <= high.y
}

/// `q` comes after `p` when the box is scanned column by column: by `x`, then
/// by `y`.
pub open spec fn scanned_after(q: Position, p: Position) -> bool {
    q.x > p.x || (q.x == p.x && q.y > p.y)
}

/// The last point of the box, scanned column by column, that is free: where
/// the distress beacon must be. `None` when no point of the box is free.
pub fn distress_signal(coverage: &Coverage, low: Position, high: Position) -> (r: Option<Position>)
    requires
        coverage.wf(),
    ensures
        match r {
            Some(p) => in_box(p, low, high) && free(*coverage, p) && forall|q: Position|
                in_box(q, low, high) && scanned_after(q, p) ==> !free(*coverage, q),
            None => forall|q: Position| in_box(q, low, high) ==> !free(*coverage, q),
        },
{
    if high.x < low.x || high.y < low.y {
        return None;
    }
    let mut x: i128 = high.x as i128;
    while x >= low.x as i128
        invariant
            coverage.wf(),
            low.y <= high.y,
            x <= high.x,
            x >= low.x - 1,
            forall|q: Position| in_box(q, low, high) && q.x > x ==> !free(*coverage, q),
        decreases x - low.x + 1,
    {
        let mut y: i128 = high.y as i128;
        while y >= low.y as i128
            invariant
                coverage.wf(),
                low.y <= high.y,
                low.x <= x <= high.x,
                y <= high.y,
                y >= low.y - 1,
                forall|q: Position| in_box(q, low, high) && q.x > x ==> !free(*coverage, q),
                forall|q: Position| in_box(q, low, high) && q.x == x && q.y > y ==> !free(*coverage, q),
            decreases y - low.y + 1,
        {
            let point = Position::new(x as isize, y as isize);
            if !coverage.is_occupied(point) && !coverage.contains(point) {
                return Some(point);
            }
            y = y - 1;
        }
        x = x - 1;
    }
    None
}

/// The tuning frequency of a point: `x` times 4000000, plus `y`; `None` when
/// it does not fit in an `isize`.
pub fn tuning_frequency(p: Position) -> (r: Option<isize>)
    ensures
        match r {
            Some(f) => f == p.x * 4_000_000 + p.y,
            None => !(isize::MIN <= p.x * 4_000_000 + p.y <= isize::MAX),
        },
{
    let f = p.x as i128 * 4_000_000 + p.y as i128;
    if f < isize::MIN as i128 || f > isize::MAX as i128 {
        None
    } else {
        Some(f as isize)
    }
}

fn contains_position(ps: &Vec<Position>, p: Position) -> (r: bool)
    ensures
        r == ps@.contains(p),
{
    let mut k: usize = 0;
    while k < ps.len()
        invariant
            k <= ps@.len(),
            forall|m: int| 0 <= m < k ==> ps@[m] != p,
        decreases ps.len() - k,
    {
        if ps[k] == p {
            assert(ps@[k as int] == p);
            return true;
        }
        k = k + 1;
    }
    false
}

} // verus!
