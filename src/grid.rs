use vstd::prelude::*;

use crate::direction::{lemma_ordinal_injective, offset, ordinal, reverse, Direction};

verus! {

/// A rectangular matrix of digit costs; entering a cell costs its digit.
/// Rows are indexed by `y`, columns by `x`.
#[derive(Debug)]
pub struct Grid {
    pub points: Vec<Vec<u8>>,
}

/// The rows of a grid as plain sequences.
pub open spec fn rows_of(points: Seq<Vec<u8>>) -> Seq<Seq<u8>> {
    points.map_values(|r: Vec<u8>| r@)
}

/// The most cells a grid may have: a search keeps one 16-byte entry for each of
/// up to 1024 nodes per cell, and that table must fit in memory.
pub const CELL_LIMIT: usize = usize::MAX / 16384;

/// A usable cost matrix: at least one row, every row as long as the first and
/// non-empty, every cost a single digit, coordinates that fit in `i32`, and at
/// most `CELL_LIMIT` cells.
pub open spec fn rows_wf(rows: Seq<Seq<u8>>) -> bool {
    &&& 1 <= rows.len() <= i32::MAX
    &&& 1 <= rows[0].len() <= i32::MAX
    &&& rows.len() * rows[0].len() <= CELL_LIMIT
    &&& forall|y: int| 0 <= y < rows.len() ==> #[trigger] rows[y].len() == rows[0].len()
    &&& forall|y: int, x: int|
        0 <= y < rows.len() && 0 <= x < rows[y].len() ==> #[trigger] rows[y][x] <= 9
}

impl View for Grid {
    type V = Seq<Seq<u8>>;

    open spec fn view(&self) -> Seq<Seq<u8>> {
        rows_of(self.points@)
    }
}

impl Grid {
    pub open spec fn wf(&self) -> bool {
        rows_wf(self@)
    }

    pub open spec fn spec_width(&self) -> int {
        self@[0].len() as int
    }

    pub open spec fn spec_height(&self) -> int {
        self@.len() as int
    }

    /// Whether `c` lies in `[0, width) x [0, height)`.
    pub open spec fn in_bounds(&self, c: (int, int)) -> bool {
        0 <= c.0 < self.spec_width() && 0 <= c.1 < self.spec_height()
    }

    /// The cost of entering the in-bounds cell `c`.
    pub open spec fn cell(&self, c: (int, int)) -> int {
        self@[c.1][c.0] as int
    }

    /// Builds a grid from its rows; `None` unless the rows form a usable cost matrix.
    pub fn new(points: Vec<Vec<u8>>) -> (r: Option<Grid>)
        ensures
            r is Some <==> rows_wf(rows_of(points@)),
            r matches Some(g) ==> g.points@ == points@,
    {
        let height = points.len();
        if height == 0 || height > i32::MAX as usize {
            return None;
        }
        let width = points[0].len();
        if width == 0 || width > i32::MAX as usize {
            return None;
        }
        proof {
            assert(height * width <= i32::MAX * i32::MAX) by (nonlinear_arith)
                requires
                    height <= i32::MAX,
                    width <= i32::MAX,
            ;
        }
        if height as u64 * width as u64 > CELL_LIMIT as u64 {
            return None;
        }
        let ghost rows = rows_of(points@);
        let mut y: usize = 0;
        while y < height
            invariant
                height == points@.len(),
                rows == rows_of(points@),
                1 <= width == rows[0].len(),
                y <= height,
                forall|k: int| 0 <= k < y ==> #[trigger] rows[k].len() == width,
                forall|k: int, x: int| 0 <= k < y && 0 <= x < rows[k].len() ==> #[trigger] rows[k][x] <= 9,
            decreases height - y,
        {
            let row = &points[y];
            if row.len() != width {
                proof {
                    assert(rows[y as int].len() != rows[0].len());
                }
                return None;
            }
            let mut x: usize = 0;
            while x < width
                invariant
                    row@ == rows[y as int],
                    row@.len() == width,
                    y < height == points@.len(),
                    rows == rows_of(points@),
                    x <= width,
                    forall|j: int| 0 <= j < x ==> #[trigger] row@[j] <= 9,
                decreases width - x,
            {
                if row[x] > 9 {
                    proof {
                        assert(rows[y as int][x as int] > 9);
                    }
                    return None;
                }
                x += 1;
            }
            y += 1;
        }
        Some(Grid { points })
    }

    /// The number of columns.
    pub fn width(&self) -> (r: usize)
        requires
            self.wf(),
        ensures
            r == self.spec_width(),
    {
        self.points[0].len()
    }

    /// The number of rows.
    pub fn height(&self) -> (r: usize)
        ensures
            r == self.spec_height(),
    {
        self.points.len()
    }

    /// Whether `coords` names a cell of the grid.
    pub fn contains(&self, coords: (i32, i32)) -> (r: bool)
        requires
            self.wf(),
        ensures
            r == self.in_bounds((coords.0 as int, coords.1 as int)),
    {
        let (x, y) = coords;
        0 <= x && x < self.width() as i32 && 0 <= y && y < self.height() as i32
    }

    /// The cost of entering `coords`, or `None` outside the grid.
    pub fn cost_at(&self, coords: (i32, i32)) -> (r: Option<u8>)
        requires
            self.wf(),
        ensures
            r is Some <==> self.in_bounds((coords.0 as int, coords.1 as int)),
            r matches Some(c) ==> c == self.cell((coords.0 as int, coords.1 as int)),
    {
        if self.contains(coords) {
            let (x, y) = coords;
            proof {
                assert(self@[y as int].len() == self.spec_width());
            }
            Some(self.points[y as usize][x as usize])
        } else {
            None
        }
    }

    /// The in-bounds cells one step away from `coords`, each with the direction
    /// leading to it, leaving out the step back along `coming_from`.
    pub fn adjacent(&self, coords: (i32, i32), coming_from: Direction) -> (r: Vec<(Direction, (i32, i32))>)
        requires
            self.wf(),
            self.in_bounds((coords.0 as int, coords.1 as int)),
        ensures
            r@.len() <= 4,
            forall|j: int|
                0 <= j < r@.len() ==> {
                    &&& #[trigger] r@[j].0 != reverse(coming_from)
                    &&& offset(r@[j].0, coords) == (r@[j].1.0 as int, r@[j].1.1 as int)
                    &&& self.in_bounds((r@[j].1.0 as int, r@[j].1.1 as int))
                },
            forall|d: Direction|
                d != reverse(coming_from) && self.in_bounds(#[trigger] offset(d, coords)) ==> exists|j: int|
                    0 <= j < r@.len() && r@[j].0 == d,
            forall|i: int, j: int|
                0 <= i < j < r@.len() ==> ordinal(#[trigger] r@[i].0) < ordinal(#[trigger] r@[j].0),
    {
        let all: [Direction; 4] = [Direction::Up, Direction::Down, Direction::Left, Direction::Right];
        let back = coming_from.opposite();
        let mut r: Vec<(Direction, (i32, i32))> = Vec::new();
        let mut i: usize = 0;
        while i < 4
            invariant
                self.wf(),
                self.in_bounds((coords.0 as int, coords.1 as int)),
                back == reverse(coming_from),
                all@ == seq![Direction::Up, Direction::Down, Direction::Left, Direction::Right],
                i <= 4,
                r@.len() <= i,
                forall|j: int|
                    0 <= j < r@.len() ==> {
                        &&& #[trigger] r@[j].0 != reverse(coming_from)
                        &&& offset(r@[j].0, coords) == (r@[j].1.0 as int, r@[j].1.1 as int)
                        &&& self.in_bounds((r@[j].1.0 as int, r@[j].1.1 as int))
                    },
                forall|d: Direction|
                    ordinal(d) < i && d != reverse(coming_from) && self.in_bounds(#[trigger] offset(d, coords))
                        ==> exists|j: int| 0 <= j < r@.len() && r@[j].0 == d,
                forall|j: int| 0 <= j < r@.len() ==> ordinal(#[trigger] r@[j].0) < i,
                forall|a: int, b: int|
                    0 <= a < b < r@.len() ==> ordinal(#[trigger] r@[a].0) < ordinal(#[trigger] r@[b].0),
            decreases 4 - i,
        {
            let direction = all[i];
            let ghost before = r@;
            assert(ordinal(direction) == i);
            if direction != back {
                let next = direction.next(coords);
                if self.contains(next) {
                    r.push((direction, next));
                    assert(r@[r@.len() - 1].0 == direction);
                }
            }
            proof {
                assert forall|d: Direction|
                    ordinal(d) < i + 1 && d != reverse(coming_from) && self.in_bounds(#[trigger] offset(d, coords))
                        implies exists|j: int| 0 <= j < r@.len() && r@[j].0 == d by {
                    if ordinal(d) < i {
                        let j = choose|j: int| 0 <= j < before.len() && before[j].0 == d;
                        assert(r@[j] == before[j]);
                    } else {
                        lemma_ordinal_injective(d, direction);
                        assert(r@[r@.len() - 1].0 == d);
                    }
                }
            }
            i += 1;
        }
        r
    }
}

} // verus!
