use vstd::prelude::*;

use crate::direction::{offset, reverse, Direction};
use crate::grid::Grid;

verus! {

/// A node of the expanded search graph: where a route stands, the direction of
/// its last step, and how many steps in a row it has taken in that direction.
#[derive(Clone, Copy, Debug, PartialEq, Eq, Hash)]
pub struct Key {
    pub coords: (i32, i32),
    pub direction: Direction,
    pub steps: u8,
}

/// A node of the search graph together with the cost paid to reach it.
#[derive(Clone, Copy, Debug, PartialEq, Eq)]
pub struct State {
    pub cost: u64,
    pub coords: (i32, i32),
    pub direction: Direction,
    pub steps: u8,
}

impl From<State> for Key {
    fn from(value: State) -> (r: Key) {
        Key { coords: value.coords, direction: value.direction, steps: value.steps }
    }
}

impl vstd::std_specs::convert::FromSpecImpl<State> for Key {
    open spec fn obeys_from_spec() -> bool {
        true
    }

    open spec fn from_spec(v: State) -> Key {
        key_of(v)
    }
}

/// The search-graph node that a state stands at.
pub open spec fn key_of(s: State) -> Key {
    Key { coords: s.coords, direction: s.direction, steps: s.steps }
}

/// The coordinates of a node as integers.
pub open spec fn pos(k: Key) -> (int, int) {
    (k.coords.0 as int, k.coords.1 as int)
}

/// The two nodes a search starts from: at `start`, with no step taken yet,
/// ready to head down or to head right.
pub open spec fn is_seed(start: (i32, i32), k: Key) -> bool {
    &&& k.coords == start
    &&& k.steps == 0
    &&& (k.direction == Direction::Down || k.direction == Direction::Right)
}

/// Whether one step leads from node `a` to node `b`: `b` is an in-bounds cell
/// next to `a` in `b`'s direction, the step does not reverse `a`'s direction,
/// going straight extends the streak, turning is allowed only after at least
/// `min` straight steps and starts a new streak of one, and no streak exceeds
/// `max`.
pub open spec fn is_move(g: Grid, min: u8, max: u8, a: Key, b: Key) -> bool {
    &&& g.in_bounds(pos(b))
    &&& pos(b) == offset(b.direction, a.coords)
    &&& b.direction != reverse(a.direction)
    &&& b.steps <= max
    &&& if b.direction == a.direction {
        b.steps == a.steps + 1
    } else {
        a.steps >= min && b.steps == 1
    }
}

/// Whether the `i`-th and `i + 1`-th nodes of `p` are joined by a move.
pub open spec fn linked(g: Grid, min: u8, max: u8, p: Seq<Key>, i: int) -> bool {
    is_move(g, min, max, p[i], p[i + 1])
}

/// A walk through the search graph that begins at a seed.
pub open spec fn is_walk(g: Grid, start: (i32, i32), min: u8, max: u8, p: Seq<Key>) -> bool {
    &&& p.len() >= 1
    &&& is_seed(start, p[0])
    &&& forall|i: int| 0 <= i < p.len() - 1 ==> #[trigger] linked(g, min, max, p, i)
}

/// What a walk costs: the sum of the costs of the cells it enters; the cell it
/// starts in is free.
pub open spec fn walk_cost(g: Grid, p: Seq<Key>) -> int
    decreases p.len(),
{
    if p.len() <= 1 {
        0
    } else {
        walk_cost(g, p.drop_last()) + g.cell(pos(p.last()))
    }
}

/// A node where a route may stop: at `end`, after at least `min` straight steps.
pub open spec fn is_finish(end: (i32, i32), min: u8, k: Key) -> bool {
    k.coords == end && k.steps >= min
}

/// A walk from `start` that may stop where it ends, at `end`.
pub open spec fn is_route(
    g: Grid,
    start: (i32, i32),
    end: (i32, i32),
    min: u8,
    max: u8,
    p: Seq<Key>,
) -> bool {
    is_walk(g, start, min, max, p) && is_finish(end, min, p.last())
}

/// `r` is the least cost of a route from `start` to `end`, or `None` where no
/// route exists.
pub open spec fn is_shortest(
    g: Grid,
    start: (i32, i32),
    end: (i32, i32),
    min: u8,
    max: u8,
    r: Option<u64>,
) -> bool {
    match r {
        Some(c) => {
            &&& exists|p: Seq<Key>| #[trigger] is_route(g, start, end, min, max, p) && walk_cost(g, p) == c
            &&& forall|p: Seq<Key>| #[trigger] is_route(g, start, end, min, max, p) ==> c <= walk_cost(g, p)
        },
        None => forall|p: Seq<Key>| !#[trigger] is_route(g, start, end, min, max, p),
    }
}

/// Cells cost nothing below zero, so a walk costs no less than any of its
/// prefixes.
pub proof fn lemma_prefix_cost(g: Grid, p: Seq<Key>, n: int)
    requires
        1 <= n <= p.len(),
    ensures
        walk_cost(g, p.take(n)) <= walk_cost(g, p),
    decreases p.len(),
{
    if n < p.len() {
        assert(p.take(n) =~= p.drop_last().take(n));
        lemma_prefix_cost(g, p.drop_last(), n);
        let c = pos(p.last());
        assert(g@[c.1][c.0] >= 0);
    } else {
        assert(p.take(n) =~= p);
    }
}

} // verus!
