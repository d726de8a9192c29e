//! Axial hex coordinates: distance and neighbours.
use vstd::prelude::*;

verus! {

/// Axial coordinate `(x, y)` of a hex cell; `x` is the column axis `q`,
/// `y` the row axis `r`.
#[derive(Clone, Copy, Debug, PartialEq, Eq, Structural, Hash, Default)]
pub struct Point {
    pub x: i32,
    pub y: i32,
}

/// Absolute value over the integers.
pub open spec fn abs(v: int) -> int {
    if v < 0 {
        -v
    } else {
        v
    }
}

/// Column offset of the `i`-th neighbour, clockwise from east with rows
/// growing downwards: E, SE, SW, W, NW, NE.
pub open spec fn neighbour_dx(i: int) -> int {
    if i == 0 {
        1
    } else if i == 1 {
        0
    } else if i == 2 {
        -1
    } else if i == 3 {
        -1
    } else if i == 4 {
        0
    } else {
        1
    }
}

/// Row offset of the `i`-th neighbour, in the same order as [`neighbour_dx`].
pub open spec fn neighbour_dy(i: int) -> int {
    if i == 0 {
        0
    } else if i == 1 {
        1
    } else if i == 2 {
        1
    } else if i == 3 {
        0
    } else if i == 4 {
        -1
    } else {
        -1
    }
}

impl Point {
    /// The hex metric on axial coordinates: `(|dq| + |dq + dr| + |dr|) / 2`.
    pub open spec fn distance(self, other: Point) -> int {
        let dq = self.x - other.x;
        let dr = self.y - other.y;
        (abs(dq) + abs(dq + dr) + abs(dr)) / 2
    }

    /// All six neighbours are representable.
    pub open spec fn has_neighbours(self) -> bool {
        &&& i32::MIN < self.x < i32::MAX
        &&& i32::MIN < self.y < i32::MAX
    }

    /// The `i`-th neighbour, `0 <= i < 6`, clockwise from east.
    pub open spec fn neighbour(self, i: int) -> Point {
        Point { x: (self.x + neighbour_dx(i)) as i32, y: (self.y + neighbour_dy(i)) as i32 }
    }

    /// `other` is one step away from `self`.
    pub open spec fn adjacent(self, other: Point) -> bool {
        self.distance(other) == 1
    }

    pub fn new(x: i32, y: i32) -> (p: Point)
        ensures
            p == (Point { x, y }),
    {
        Point { x, y }
    }

    /// Hex distance between two cells.
    pub fn hex_distance(self, other: Point) -> (d: u64)
        ensures
            d == self.distance(other),
    {
        let dq: i64 = self.x as i64 - other.x as i64;
        let dr: i64 = self.y as i64 - other.y as i64;
        let s: i64 = dq + dr;
        let a: i64 = if dq < 0 { -dq } else { dq };
        let b: i64 = if s < 0 { -s } else { s };
        let c: i64 = if dr < 0 { -dr } else { dr };
        ((a + b + c) / 2) as u64
    }

    /// The six neighbours, clockwise from east (rows grow downwards):
    /// E, SE, SW, W, NW, NE.
    pub fn hex_neighbours(self) -> (r: [Point; 6])
        requires
            self.has_neighbours(),
        ensures
            forall|i: int| 0 <= i < 6 ==> r[i] == self.neighbour(i),
    {
        [
            Point { x: self.x + 1, y: self.y },
            Point { x: self.x, y: self.y + 1 },
            Point { x: self.x - 1, y: self.y + 1 },
            Point { x: self.x - 1, y: self.y },
            Point { x: self.x, y: self.y - 1 },
            Point { x: self.x + 1, y: self.y - 1 },
        ]
    }

    /// The `i`-th neighbour, clockwise from east, if it is representable.
    pub fn neighbour_at(self, i: usize) -> (q: Option<Point>)
        requires
            i < 6,
        ensures
            q is Some <==> i32::MIN <= self.x + neighbour_dx(i as int) <= i32::MAX && i32::MIN
                <= self.y + neighbour_dy(i as int) <= i32::MAX,
            q is Some ==> q->0 == self.neighbour(i as int),
    {
        let dx: i32 = if i == 0 || i == 5 {
            1
        } else if i == 1 || i == 4 {
            0
        } else {
            -1
        };
        let dy: i32 = if i == 1 || i == 2 {
            1
        } else if i == 0 || i == 3 {
            0
        } else {
            -1
        };
        match (self.x.checked_add(dx), self.y.checked_add(dy)) {
            (Some(x), Some(y)) => Some(Point { x, y }),
            _ => None,
        }
    }

    /// Whether [`Point::hex_neighbours`] may be called on this cell.
    pub fn can_step(self) -> (b: bool)
        ensures
            b == self.has_neighbours(),
    {
        self.x > i32::MIN && self.x < i32::MAX && self.y > i32::MIN && self.y < i32::MAX
    }
}

/// `a` comes before `b` in the order by `x`, then `y`.
pub open spec fn precedes(a: Point, b: Point) -> bool {
    a.x < b.x || (a.x == b.x && a.y < b.y)
}

/// The cells of the hexagon of the given radius around `(radius, radius)`:
/// every cell at most `radius` steps from the centre, ordered by `x`, then `y`.
pub fn hexagon_of_radius(radius: u16) -> (points: Vec<Point>)
    ensures
        forall|p: Point|
            points@.contains(p) <==> (Point { x: radius as i32, y: radius as i32 }).distance(p)
                <= radius,
        forall|i: int, j: int|
            0 <= i < j < points@.len() ==> precedes(#[trigger] points@[i], #[trigger] points@[j]),
{
    let r: i32 = radius as i32;
    let ghost center = Point { x: r, y: r };
    let mut points: Vec<Point> = Vec::new();
    let mut x: i32 = 0;
    while x <= 2 * r
        invariant
            0 <= r <= 0xffff,
            center == (Point { x: r, y: r }),
            0 <= x <= 2 * r + 1,
            forall|p: Point| points@.contains(p) <==> center.distance(p) <= r && p.x < x,
            forall|i: int, j: int|
                0 <= i < j < points@.len() ==> precedes(
                    #[trigger] points@[i],
                    #[trigger] points@[j],
                ),
        decreases 2 * r + 1 - x,
    {
        let dx: i32 = x - r;
        let lo: i32 = if -dx - r > -r {
            -dx - r
        } else {
            -r
        };
        let hi: i32 = if -dx + r < r {
            -dx + r
        } else {
            r
        };
        let mut y: i32 = lo + r;
        while y <= hi + r
            invariant
                0 <= r <= 0xffff,
                center == (Point { x: r, y: r }),
                0 <= x <= 2 * r,
                dx == x - r,
                lo == (if -dx - r > -r {
                    -dx - r
                } else {
                    -r as int
                }),
                hi == (if -dx + r < r {
                    -dx + r
                } else {
                    r as int
                }),
                lo + r <= y <= hi + r + 1,
                forall|p: Point|
                    points@.contains(p) <==> center.distance(p) <= r && (p.x < x || (p.x == x
                        && p.y < y)),
                forall|i: int, j: int|
                    0 <= i < j < points@.len() ==> precedes(
                        #[trigger] points@[i],
                        #[trigger] points@[j],
                    ),
            decreases hi + r + 1 - y,
        {
            let q = Point { x, y };
            let ghost before = points@;
            points.push(q);
            proof {
                assert forall|p: Point|
                    points@.contains(p) <==> center.distance(p) <= r && (p.x < x || (p.x == x
                        && p.y < y + 1)) by {
                    if points@.contains(p) {
                        let i = points@.index_of(p);
                        if i < before.len() {
                            assert(before[i] == p);
                            assert(before.contains(p));
                        }
                    }
                    if before.contains(p) {
                        let i = before.index_of(p);
                        assert(points@[i] == p);
                    }
                    if p == q {
                        assert(points@[before.len() as int] == p);
                    }
                }
                assert forall|i: int, j: int| 0 <= i < j < points@.len() implies precedes(
                    #[trigger] points@[i],
                    #[trigger] points@[j],
                ) by {
                    if j == before.len() {
                        assert(before.contains(before[i]));
                    }
                }
            }
            y += 1;
        }
        x += 1;
    }
    points
}

/// The distance is symmetric.
pub proof fn lemma_distance_symmetric(a: Point, b: Point)
    ensures
        a.distance(b) == b.distance(a),
{
}

/// The distance is zero exactly between a cell and itself.
pub proof fn lemma_distance_zero(a: Point, b: Point)
    ensures
        a.distance(b) == 0 <==> a == b,
        a.distance(b) >= 0,
{
}

/// Every neighbour is one step away.
pub proof fn lemma_neighbour_adjacent(p: Point, i: int)
    requires
        p.has_neighbours(),
        0 <= i < 6,
    ensures
        p.adjacent(p.neighbour(i)),
{
}

/// A cell one step away is one of the six neighbours.
pub proof fn lemma_adjacent_is_neighbour(p: Point, q: Point)
    requires
        p.adjacent(q),
    ensures
        p.has_neighbours() ==> exists|i: int| 0 <= i < 6 && q == #[trigger] p.neighbour(i),
        (q.x - p.x == 1 && q.y - p.y == 0) || (q.x - p.x == 0 && q.y - p.y == 1) || (q.x - p.x
            == -1 && q.y - p.y == 1) || (q.x - p.x == -1 && q.y - p.y == 0) || (q.x - p.x == 0
            && q.y - p.y == -1) || (q.x - p.x == 1 && q.y - p.y == -1),
{
    if p.has_neighbours() {
        if q.x - p.x == 1 && q.y - p.y == 0 {
            assert(q == p.neighbour(0));
        } else if q.x - p.x == 0 && q.y - p.y == 1 {
            assert(q == p.neighbour(1));
        } else if q.x - p.x == -1 && q.y - p.y == 1 {
            assert(q == p.neighbour(2));
        } else if q.x - p.x == -1 && q.y - p.y == 0 {
            assert(q == p.neighbour(3));
        } else if q.x - p.x == 0 && q.y - p.y == -1 {
            assert(q == p.neighbour(4));
        } else {
            assert(q == p.neighbour(5));
        }
    }
}

} // verus!
