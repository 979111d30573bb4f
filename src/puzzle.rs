use vstd::prelude::*;

use crate::grid::{rows_wf, Grid};
use crate::model::is_shortest;
use crate::parse::lines_of;
use vstd::string::StringSliceAdditionalSpecFns;

verus! {

/// The bottom-right cell of the grid.
pub open spec fn far_corner(g: Grid) -> (i32, i32) {
    ((g.spec_width() - 1) as i32, (g.spec_height() - 1) as i32)
}

/// The least cost from the top-left to the bottom-right cell when a route may
/// go at most three cells straight and may turn after any single step.
pub fn first(grid: &Grid) -> (r: Option<u64>)
    requires
        grid.wf(),
    ensures
        is_shortest(*grid, (0, 0), far_corner(*grid), 1, 3, r),
{
    let end = ((grid.width() - 1) as i32, (grid.height() - 1) as i32);
    grid.shortest_path((0, 0), end, 1, 3)
}

/// The least cost from the top-left to the bottom-right cell when a route
/// must go at least four and at most ten cells straight before it turns or
/// stops.
pub fn second(grid: &Grid) -> (r: Option<u64>)
    requires
        grid.wf(),
    ensures
        is_shortest(*grid, (0, 0), far_corner(*grid), 4, 10, r),
{
    let end = ((grid.width() - 1) as i32, (grid.height() - 1) as i32);
    grid.shortest_path((0, 0), end, 4, 10)
}

/// Reads a grid from `input` and answers both questions on it: `None` when
/// the text is not a usable grid, else the results of `first` and `second`.
pub fn run(input: &str) -> (r: Option<(Option<u64>, Option<u64>)>)
    ensures
        r is Some <==> (lines_of(input.spec_bytes()) matches Some(rows) && rows_wf(rows)),
        r matches Some((a, b)) ==> exists|g: Grid|
            lines_of(input.spec_bytes()) == Some(g@) && #[trigger] g.wf()
                && is_shortest(g, (0, 0), far_corner(g), 1, 3, a)
                && is_shortest(g, (0, 0), far_corner(g), 4, 10, b),
{
    match Grid::parse(input) {
        Some(grid) => {
            let a = first(&grid);
            let b = second(&grid);
            assert(grid.wf());
            Some((a, b))
        },
        None => None,
    }
}

} // verus!
