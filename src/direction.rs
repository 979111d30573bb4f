use vstd::prelude::*;

verus! {

/// One of the four cardinal directions in which a route can move.
#[derive(Clone, Copy, Debug, PartialEq, Eq, Hash, Structural)]
pub enum Direction {
    Up,
    Down,
    Left,
    Right,
}

/// The cell reached from `c` by one step in direction `d`, as unbounded integers.
/// `x` grows to the right and `y` grows downwards.
pub open spec fn offset(d: Direction, c: (i32, i32)) -> (int, int) {
    match d {
        Direction::Up => (c.0 as int, c.1 - 1),
        Direction::Down => (c.0 as int, c.1 + 1),
        Direction::Left => (c.0 - 1, c.1 as int),
        Direction::Right => (c.0 + 1, c.1 as int),
    }
}

/// The direction that undoes a step in direction `d`.
pub open spec fn reverse(d: Direction) -> Direction {
    match d {
        Direction::Up => Direction::Down,
        Direction::Down => Direction::Up,
        Direction::Left => Direction::Right,
        Direction::Right => Direction::Left,
    }
}

/// A number in `0..4` that tells the directions apart.
pub open spec fn ordinal(d: Direction) -> int {
    match d {
        Direction::Up => 0,
        Direction::Down => 1,
        Direction::Left => 2,
        Direction::Right => 3,
    }
}

impl Direction {
    /// The direction pointing back where a step in `self` came from.
    pub fn opposite(&self) -> (r: Direction)
        ensures
            r == reverse(*self),
    {
        match self {
            Direction::Up => Direction::Down,
            Direction::Down => Direction::Up,
            Direction::Left => Direction::Right,
            Direction::Right => Direction::Left,
        }
    }

    /// The coordinates one step away from `coords` in this direction.
    pub fn next(&self, coords: (i32, i32)) -> (r: (i32, i32))
        requires
            i32::MIN <= offset(*self, coords).0 <= i32::MAX,
            i32::MIN <= offset(*self, coords).1 <= i32::MAX,
        ensures
            (r.0 as int, r.1 as int) == offset(*self, coords),
    {
        let (x, y) = coords;
        match self {
            Direction::Up => (x, y - 1),
            Direction::Down => (x, y + 1),
            Direction::Left => (x - 1, y),
            Direction::Right => (x + 1, y),
        }
    }

    /// This direction's position in the order Up, Down, Left, Right.
    pub fn index(&self) -> (r: usize)
        ensures
            r as int == ordinal(*self),
    {
        match self {
            Direction::Up => 0,
            Direction::Down => 1,
            Direction::Left => 2,
            Direction::Right => 3,
        }
    }
}

/// Two directions with the same ordinal are the same direction.
pub proof fn lemma_ordinal_injective(a: Direction, b: Direction)
    ensures
        ordinal(a) == ordinal(b) ==> a == b,
        0 <= ordinal(a) < 4,
{
}

} // verus!
