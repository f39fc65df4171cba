//! Coordinates, the four axis-aligned directions and rectangular ranges.
use vstd::prelude::*;

verus! {

/// A point of the grid: `x` is the column, `y` the row.
#[derive(Clone, Copy, Debug, PartialEq, Eq, Hash, Structural)]
pub struct Coord {
    pub x: i32,
    pub y: i32,
}

/// The axis-aligned directions, in the order in which the carver scans them.
#[derive(Clone, Copy, Debug, PartialEq, Eq, Hash, Structural)]
pub enum Direction {
    Up,
    Right,
    Left,
    Down,
}

impl Direction {
    /// Change of `x` made by one step in this direction.
    pub open spec fn dx(self) -> int {
        match self {
            Direction::Right => 1,
            Direction::Left => -1,
            _ => 0,
        }
    }

    /// Change of `y` made by one step in this direction (rows grow downwards).
    pub open spec fn dy(self) -> int {
        match self {
            Direction::Down => 1,
            Direction::Up => -1,
            _ => 0,
        }
    }

    /// The direction at position `i` of the scanning order.
    pub open spec fn nth(i: int) -> Direction {
        if i == 0 {
            Direction::Up
        } else if i == 1 {
            Direction::Right
        } else if i == 2 {
            Direction::Left
        } else {
            Direction::Down
        }
    }

    /// The direction at position `i` of the scanning order.
    pub fn from_index(i: usize) -> (d: Direction)
        requires
            i < 4,
        ensures
            d == Direction::nth(i as int),
    {
        if i == 0 {
            Direction::Up
        } else if i == 1 {
            Direction::Right
        } else if i == 2 {
            Direction::Left
        } else {
            Direction::Down
        }
    }

    /// The unit step of this direction as a coordinate.
    pub fn to_cd(self) -> (c: Coord)
        ensures
            c.x == self.dx(),
            c.y == self.dy(),
    {
        match self {
            Direction::Up => Coord { x: 0, y: -1 },
            Direction::Right => Coord { x: 1, y: 0 },
            Direction::Left => Coord { x: -1, y: 0 },
            Direction::Down => Coord { x: 0, y: 1 },
        }
    }
}

impl Coord {
    pub fn new(x: i32, y: i32) -> (c: Coord)
        ensures
            c.x == x,
            c.y == y,
    {
        Coord { x, y }
    }

    /// Column and row of the point `dist` steps from `self` in direction `dir`.
    pub open spec fn shifted(self, dir: Direction, dist: int) -> (int, int) {
        match dir {
            Direction::Up => (self.x as int, self.y - dist),
            Direction::Right => (self.x + dist, self.y as int),
            Direction::Left => (self.x - dist, self.y as int),
            Direction::Down => (self.x as int, self.y + dist),
        }
    }

    /// `other` lies exactly `dist` steps from `self` in direction `dir`.
    pub open spec fn reaches(self, other: Coord, dir: Direction, dist: int) -> bool {
        self.shifted(dir, dist) == (other.x as int, other.y as int)
    }

    /// `other` lies exactly `dist` steps from `self` along one of the two axes.
    pub open spec fn apart(self, other: Coord, dist: int) -> bool {
        ||| (other.x == self.x && (other.y == self.y + dist || other.y == self.y - dist))
        ||| (other.y == self.y && (other.x == self.x + dist || other.x == self.x - dist))
    }

    /// The point `dist` steps away in direction `dir`, or `None` where it
    /// has no representation in `i32`.
    pub fn step(self, dir: Direction, dist: i32) -> (r: Option<Coord>)
        ensures
            match r {
                Some(c) => self.reaches(c, dir, dist as int),
                None => {
                    let (x, y) = self.shifted(dir, dist as int);
                    x < i32::MIN || x > i32::MAX || y < i32::MIN || y > i32::MAX
                },
            },
    {
        let d: i64 = dist as i64;
        let (x, y): (i64, i64) = match dir {
            Direction::Up => (self.x as i64, self.y as i64 - d),
            Direction::Right => (self.x as i64 + d, self.y as i64),
            Direction::Left => (self.x as i64 - d, self.y as i64),
            Direction::Down => (self.x as i64, self.y as i64 + d),
        };
        if x < i32::MIN as i64 || x > i32::MAX as i64 || y < i32::MIN as i64 || y > i32::MAX as i64 {
            None
        } else {
            Some(Coord { x: x as i32, y: y as i32 })
        }
    }

    /// The point `dist` steps away in direction `dir`.
    pub fn moved(self, dir: Direction, dist: i32) -> (c: Coord)
        requires
            i32::MIN <= self.shifted(dir, dist as int).0 <= i32::MAX,
            i32::MIN <= self.shifted(dir, dist as int).1 <= i32::MAX,
        ensures
            self.reaches(c, dir, dist as int),
    {
        match dir {
            Direction::Up => Coord { x: self.x, y: self.y - dist },
            Direction::Right => Coord { x: self.x + dist, y: self.y },
            Direction::Left => Coord { x: self.x - dist, y: self.y },
            Direction::Down => Coord { x: self.x, y: self.y + dist },
        }
    }
}

/// A non-empty rectangle of coordinates: `x_min <= x < x_max` and
/// `y_min <= y < y_max`.
#[derive(Clone, Copy, Debug, PartialEq, Eq, Hash, Structural)]
pub struct RectRange {
    pub x_min: i32,
    pub x_max: i32,
    pub y_min: i32,
    pub y_max: i32,
}

impl RectRange {
    pub open spec fn x_start(self) -> int {
        self.x_min as int
    }

    pub open spec fn x_end(self) -> int {
        self.x_max as int
    }

    pub open spec fn y_start(self) -> int {
        self.y_min as int
    }

    pub open spec fn y_end(self) -> int {
        self.y_max as int
    }

    /// Both axes hold at least one coordinate.
    pub open spec fn wf(self) -> bool {
        self.x_start() < self.x_end() && self.y_start() < self.y_end()
    }

    /// The point lies inside the rectangle.
    pub open spec fn holds(self, c: Coord) -> bool {
        self.x_start() <= c.x < self.x_end() && self.y_start() <= c.y < self.y_end()
    }

    /// The corner with the smallest column and the smallest row.
    pub open spec fn corner(self) -> Coord {
        Coord { x: self.x_min, y: self.y_min }
    }

    /// The point is inside the rectangle and an even number of steps from
    /// the corner on both axes.
    pub open spec fn on_lattice(self, c: Coord) -> bool {
        self.holds(c) && (c.x - self.x_start()) % 2 == 0 && (c.y - self.y_start()) % 2 == 0
    }

    /// The rectangle `x_min..x_max` by `y_min..y_max`; `None` where one of
    /// the two is empty.
    pub fn new(x_min: i32, y_min: i32, x_max: i32, y_max: i32) -> (r: Option<RectRange>)
        ensures
            r.is_some() <==> (x_min < x_max && y_min < y_max),
            r matches Some(range) ==> range.wf() && range.x_start() == x_min && range.x_end()
                == x_max && range.y_start() == y_min && range.y_end() == y_max,
    {
        if x_min < x_max && y_min < y_max {
            Some(RectRange { x_min, x_max, y_min, y_max })
        } else {
            None
        }
    }

    pub fn contains(&self, c: Coord) -> (b: bool)
        ensures
            b == self.holds(c),
    {
        self.x_min <= c.x && c.x < self.x_max && self.y_min <= c.y && c.y < self.y_max
    }

    pub fn upper_left(&self) -> (c: Coord)
        ensures
            c == self.corner(),
    {
        Coord { x: self.x_min, y: self.y_min }
    }
}

} // verus!
