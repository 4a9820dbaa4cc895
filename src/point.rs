use vstd::prelude::*;

verus! {

/// A cell coordinate; in bounds when both coordinates lie in `0..9`.
#[derive(Debug, Clone, Copy, PartialEq, Eq, Hash, Structural)]
pub struct Point {
    pub x: i32,
    pub y: i32,
}

/// The two directions in which a ship extends from its anchor.
#[derive(Debug, Clone, Copy, PartialEq, Eq, Structural)]
pub enum Direction {
    Horizontal,
    Vertical,
}

impl Direction {
    /// Unit step along the direction: `(1, 0)` or `(0, 1)`.
    pub open spec fn dx(self) -> int {
        match self {
            Direction::Horizontal => 1,
            Direction::Vertical => 0,
        }
    }

    pub open spec fn dy(self) -> int {
        match self {
            Direction::Horizontal => 0,
            Direction::Vertical => 1,
        }
    }
}

impl Point {
    pub fn new(x: i32, y: i32) -> (r: Self)
        ensures
            r.x == x,
            r.y == y,
    {
        Self { x, y }
    }
}

impl std::ops::Add for Point {
    type Output = Point;

    /// Pointwise sum.
    fn add(self, rhs: Point) -> Point {
        Point::new(self.x + rhs.x, self.y + rhs.y)
    }
}

impl vstd::std_specs::ops::AddSpecImpl for Point {
    open spec fn obeys_add_spec() -> bool {
        true
    }

    open spec fn add_req(self, rhs: Point) -> bool {
        i32::MIN <= self.x + rhs.x <= i32::MAX && i32::MIN <= self.y + rhs.y <= i32::MAX
    }

    open spec fn add_spec(self, rhs: Point) -> Point {
        Point { x: (self.x + rhs.x) as i32, y: (self.y + rhs.y) as i32 }
    }
}

impl std::ops::Sub for Point {
    type Output = Point;

    /// Pointwise difference.
    fn sub(self, rhs: Point) -> Point {
        Point::new(self.x - rhs.x, self.y - rhs.y)
    }
}

impl vstd::std_specs::ops::SubSpecImpl for Point {
    open spec fn obeys_sub_spec() -> bool {
        true
    }

    open spec fn sub_req(self, rhs: Point) -> bool {
        i32::MIN <= self.x - rhs.x <= i32::MAX && i32::MIN <= self.y - rhs.y <= i32::MAX
    }

    open spec fn sub_spec(self, rhs: Point) -> Point {
        Point { x: (self.x - rhs.x) as i32, y: (self.y - rhs.y) as i32 }
    }
}

impl std::ops::Add<Direction> for Point {
    type Output = Point;

    /// One step along the direction.
    fn add(self, rhs: Direction) -> Point {
        match rhs {
            Direction::Horizontal => Point::new(self.x + 1, self.y),
            Direction::Vertical => Point::new(self.x, self.y + 1),
        }
    }
}

impl vstd::std_specs::ops::AddSpecImpl<Direction> for Point {
    open spec fn obeys_add_spec() -> bool {
        true
    }

    open spec fn add_req(self, rhs: Direction) -> bool {
        self.x + rhs.dx() <= i32::MAX && self.y + rhs.dy() <= i32::MAX
    }

    open spec fn add_spec(self, rhs: Direction) -> Point {
        Point { x: (self.x + rhs.dx()) as i32, y: (self.y + rhs.dy()) as i32 }
    }
}

impl std::ops::Sub<Direction> for Point {
    type Output = Point;

    /// One step against the direction.
    fn sub(self, rhs: Direction) -> Point {
        match rhs {
            Direction::Horizontal => Point::new(self.x - 1, self.y),
            Direction::Vertical => Point::new(self.x, self.y - 1),
        }
    }
}

impl vstd::std_specs::ops::SubSpecImpl<Direction> for Point {
    open spec fn obeys_sub_spec() -> bool {
        true
    }

    open spec fn sub_req(self, rhs: Direction) -> bool {
        self.x - rhs.dx() >= i32::MIN && self.y - rhs.dy() >= i32::MIN
    }

    open spec fn sub_spec(self, rhs: Direction) -> Point {
        Point { x: (self.x - rhs.dx()) as i32, y: (self.y - rhs.dy()) as i32 }
    }
}

impl std::ops::Mul<i32> for Direction {
    type Output = Point;

    /// The offset of `length` steps along the direction.
    fn mul(self, length: i32) -> Point {
        match self {
            Direction::Horizontal => Point::new(length, 0),
            Direction::Vertical => Point::new(0, length),
        }
    }
}

impl vstd::std_specs::ops::MulSpecImpl<i32> for Direction {
    open spec fn obeys_mul_spec() -> bool {
        true
    }

    open spec fn mul_req(self, length: i32) -> bool {
        true
    }

    open spec fn mul_spec(self, length: i32) -> Point {
        match self {
            Direction::Horizontal => Point { x: length, y: 0 },
            Direction::Vertical => Point { x: 0, y: length },
        }
    }
}

} // verus!
