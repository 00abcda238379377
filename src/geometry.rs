use vstd::prelude::*;

verus! {

/// Coordinates and lengths handled by the library stay within this bound, so
/// that every sum and difference formed while packing fits in an `i64`.
pub const COORD_LIMIT: i64 = 1_000_000_000_000;

pub open spec fn in_limits(v: int) -> bool {
    -COORD_LIMIT <= v <= COORD_LIMIT
}

/// The direction along which an edge's extent runs: `X` for a horizontal
/// edge, whose fixed coordinate is a `y`; `Y` for a vertical one.
#[derive(Clone, Copy, Debug, PartialEq, Eq, Structural)]
pub enum Axis {
    X,
    Y,
}

/// The direction, across the edge, into which the edge opens: a square placed
/// against a `Positive` edge lies on its high side.
#[derive(Clone, Copy, Debug, PartialEq, Eq, Structural)]
pub enum Side {
    Negative,
    Positive,
}

#[derive(Clone, Copy, Debug, PartialEq, Eq, Structural)]
pub struct Point {
    pub x: i64,
    pub y: i64,
}

/// An axis-aligned segment: `[start, end]` along `axis`, at the fixed
/// coordinate `pos` across it.
#[derive(Clone, Copy, Debug, PartialEq, Eq, Structural)]
pub struct Edge {
    pub start: i64,
    pub end: i64,
    pub pos: i64,
    pub side: Side,
    pub axis: Axis,
}

/// A square given by its lower-left corner and its side length.
#[derive(Clone, Copy, Debug, PartialEq, Eq, Structural)]
pub struct Square {
    pub x: i64,
    pub y: i64,
    pub side: i64,
}

/// An axis-aligned rectangle given by its four bounds.
#[derive(Clone, Copy, Debug, PartialEq, Eq, Structural)]
pub struct Rect {
    pub left: i64,
    pub bottom: i64,
    pub right: i64,
    pub top: i64,
}

impl Edge {
    pub open spec fn wf(&self) -> bool {
        &&& self.start <= self.end
        &&& in_limits(self.start as int)
        &&& in_limits(self.end as int)
        &&& in_limits(self.pos as int)
    }

    /// Within a few times the coordinate bound: what the ranges of candidate
    /// positions derived from well-formed edges satisfy.
    pub open spec fn near(&self) -> bool {
        &&& -4 * COORD_LIMIT <= self.start <= 4 * COORD_LIMIT
        &&& -4 * COORD_LIMIT <= self.end <= 4 * COORD_LIMIT
        &&& -4 * COORD_LIMIT <= self.pos <= 4 * COORD_LIMIT
    }

    /// The footprint swept by squares of side `size` whose low corners range
    /// over this edge: `(low, high)` along the axis, then across it.
    pub fn get_square(&self, size: i64) -> (r: (i64, i64, i64, i64))
        requires
            self.near(),
            0 <= size <= COORD_LIMIT,
        ensures
            r == (self.start, (self.end + size) as i64, self.pos, (self.pos + size) as i64),
    {
        (self.start, self.end + size, self.pos, self.pos + size)
    }

    /// The normalised edge between two points on one horizontal or vertical
    /// line, ordered by the lower coordinate.
    pub fn new(a: Point, b: Point, side: Side) -> (r: Edge)
        requires
            a.x == b.x || a.y == b.y,
        ensures
            a.y == b.y ==> r == (Edge {
                start: min(a.x, b.x),
                end: max(a.x, b.x),
                pos: a.y,
                side,
                axis: Axis::X,
            }),
            a.y != b.y ==> r == (Edge {
                start: min(a.y, b.y),
                end: max(a.y, b.y),
                pos: a.x,
                side,
                axis: Axis::Y,
            }),
    {
        if a.y == b.y {
            if a.x <= b.x {
                Edge { start: a.x, end: b.x, pos: a.y, side, axis: Axis::X }
            } else {
                Edge { start: b.x, end: a.x, pos: a.y, side, axis: Axis::X }
            }
        } else if a.y <= b.y {
            Edge { start: a.y, end: b.y, pos: a.x, side, axis: Axis::Y }
        } else {
            Edge { start: b.y, end: a.y, pos: a.x, side, axis: Axis::Y }
        }
    }
}

impl Square {
    pub open spec fn wf(&self) -> bool {
        &&& 0 < self.side
        &&& in_limits(self.x as int)
        &&& in_limits(self.y as int)
        &&& in_limits(self.x + self.side)
        &&& in_limits(self.y + self.side)
    }

    /// The four corners, clockwise from the top left.
    pub fn corners(&self) -> (r: [Point; 4])
        requires
            self.wf(),
        ensures
            r[0] == (Point { x: self.x, y: (self.y + self.side) as i64 }),
            r[1] == (Point { x: (self.x + self.side) as i64, y: (self.y + self.side) as i64 }),
            r[2] == (Point { x: (self.x + self.side) as i64, y: self.y }),
            r[3] == (Point { x: self.x, y: self.y }),
    {
        let right = self.x + self.side;
        let top = self.y + self.side;
        [
            Point { x: self.x, y: top },
            Point { x: right, y: top },
            Point { x: right, y: self.y },
            Point { x: self.x, y: self.y },
        ]
    }

    /// Whether the interiors of two squares meet (touching sides do not).
    pub open spec fn overlaps(&self, o: Square) -> bool {
        &&& self.x < o.x + o.side
        &&& o.x < self.x + self.side
        &&& self.y < o.y + o.side
        &&& o.y < self.y + self.side
    }

    pub open spec fn inside(&self, r: Rect) -> bool {
        &&& r.left <= self.x
        &&& self.x + self.side <= r.right
        &&& r.bottom <= self.y
        &&& self.y + self.side <= r.top
    }
}

impl Rect {
    pub open spec fn wf(&self) -> bool {
        &&& self.left <= self.right
        &&& self.bottom <= self.top
        &&& in_limits(self.left as int)
        &&& in_limits(self.right as int)
        &&& in_limits(self.bottom as int)
        &&& in_limits(self.top as int)
    }

    /// The rectangle of the given width and height around a center; where a
    /// length is odd, the extra unit goes to the high side.
    pub fn centered(cx: i64, cy: i64, width: i64, height: i64) -> (r: Rect)
        requires
            0 <= width,
            0 <= height,
            in_limits(cx - width / 2),
            in_limits(cx - width / 2 + width),
            in_limits(cy - height / 2),
            in_limits(cy - height / 2 + height),
        ensures
            r.wf(),
            r.left == cx - width / 2,
            r.right - r.left == width,
            r.bottom == cy - height / 2,
            r.top - r.bottom == height,
    {
        let left = cx - width / 2;
        let bottom = cy - height / 2;
        Rect { left, bottom, right: left + width, top: bottom + height }
    }

    /// The bounds along an axis: `(low, high)`.
    pub fn along(&self, axis: Axis) -> (r: (i64, i64))
        ensures
            r == self.along_spec(axis),
    {
        match axis {
            Axis::X => (self.left, self.right),
            Axis::Y => (self.bottom, self.top),
        }
    }

    pub open spec fn along_spec(&self, axis: Axis) -> (i64, i64) {
        match axis {
            Axis::X => (self.left, self.right),
            Axis::Y => (self.bottom, self.top),
        }
    }
}

/// The other axis.
pub open spec fn across(axis: Axis) -> Axis {
    match axis {
        Axis::X => Axis::Y,
        Axis::Y => Axis::X,
    }
}

pub open spec fn min(a: i64, b: i64) -> i64 {
    if a <= b { a } else { b }
}

pub open spec fn max(a: i64, b: i64) -> i64 {
    if a <= b { b } else { a }
}

} // verus!
