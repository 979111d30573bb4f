use vstd::prelude::*;

use crate::direction::{reverse, Direction};
use crate::grid::Grid;
use crate::model::{
    is_move, is_route, is_shortest, is_walk, lemma_prefix_cost, linked, pos, walk_cost, Key,
};

verus! {

/// Whether the step into the `i + 1`-th node of `p` undoes the step into the
/// `i`-th.
pub open spec fn turns_back(p: Seq<Key>, i: int) -> bool {
    p[i + 1].direction == reverse(p[i].direction)
}

/// How many steps at the end of `p` go in one direction.
pub open spec fn final_run(p: Seq<Key>) -> nat
    decreases p.len(),
{
    if p.len() <= 1 {
        0
    } else if p.len() >= 3 && p[p.len() - 2].direction == p.last().direction {
        final_run(p.drop_last()) + 1
    } else {
        1
    }
}

/// A search has a single answer: two results that both meet the contract of
/// `shortest_path` on the same inputs are equal.
pub proof fn shortest_is_unique(
    g: Grid,
    start: (i32, i32),
    end: (i32, i32),
    min: u8,
    max: u8,
    a: Option<u64>,
    b: Option<u64>,
)
    requires
        is_shortest(g, start, end, min, max, a),
        is_shortest(g, start, end, min, max, b),
    ensures
        a == b,
{
    if let Some(x) = a {
        let p = choose|p: Seq<Key>| #[trigger] is_route(g, start, end, min, max, p) && walk_cost(g, p) == x;
        assert(is_route(g, start, end, min, max, p));
        if let Some(y) = b {
            let q = choose|q: Seq<Key>| #[trigger] is_route(g, start, end, min, max, q) && walk_cost(g, q) == y;
            assert(is_route(g, start, end, min, max, q));
        }
    } else if let Some(y) = b {
        let q = choose|q: Seq<Key>| #[trigger] is_route(g, start, end, min, max, q) && walk_cost(g, q) == y;
        assert(is_route(g, start, end, min, max, q));
    }
}

/// Allowing longer streaks never raises the least cost: every route that
/// keeps under the lower bound keeps under the higher one.
pub proof fn longer_streaks_never_cost_more(
    g: Grid,
    start: (i32, i32),
    end: (i32, i32),
    min: u8,
    max1: u8,
    max2: u8,
    a: Option<u64>,
    b: Option<u64>,
)
    requires
        max1 <= max2,
        is_shortest(g, start, end, min, max1, a),
        is_shortest(g, start, end, min, max2, b),
    ensures
        a matches Some(x) ==> b matches Some(y) && y <= x,
{
    if let Some(x) = a {
        let p = choose|p: Seq<Key>| #[trigger] is_route(g, start, end, min, max1, p) && walk_cost(g, p) == x;
        assert forall|i: int| 0 <= i < p.len() - 1 implies #[trigger] linked(g, min, max2, p, i) by {
            assert(linked(g, min, max1, p, i));
        }
        assert(is_route(g, start, end, min, max2, p));
    }
}

/// Demanding longer runs before a turn or a stop never lowers the least cost:
/// every route that meets the higher minimum meets the lower one.
pub proof fn longer_minimum_never_costs_less(
    g: Grid,
    start: (i32, i32),
    end: (i32, i32),
    min1: u8,
    min2: u8,
    max: u8,
    a: Option<u64>,
    b: Option<u64>,
)
    requires
        min1 <= min2,
        is_shortest(g, start, end, min1, max, a),
        is_shortest(g, start, end, min2, max, b),
    ensures
        b matches Some(y) ==> a matches Some(x) && x <= y,
{
    if let Some(y) = b {
        let p = choose|p: Seq<Key>| #[trigger] is_route(g, start, end, min2, max, p) && walk_cost(g, p) == y;
        assert forall|i: int| 0 <= i < p.len() - 1 implies #[trigger] linked(g, min1, max, p, i) by {
            assert(linked(g, min2, max, p, i));
        }
        assert(is_route(g, start, end, min1, max, p));
    }
}

/// On a grid of one row a walk can only keep going left or keep going right,
/// so its `i`-th node lies `i` cells from `start` with a streak of `i`.
proof fn lemma_single_row_walk(g: Grid, start: (i32, i32), min: u8, max: u8, p: Seq<Key>)
    requires
        g.wf(),
        g.spec_height() == 1,
        g.in_bounds((start.0 as int, start.1 as int)),
        is_walk(g, start, min, max, p),
    ensures
        forall|i: int|
            1 <= i < p.len() ==> {
                &&& #[trigger] p[i].steps == i
                &&& p[i].coords.1 == 0
                &&& (p[i].direction == Direction::Right && p[i].coords.0 == start.0 + i) || (p[i].direction
                    == Direction::Left && p[i].coords.0 == start.0 - i)
            },
    decreases p.len(),
{
    if p.len() >= 2 {
        let q = p.drop_last();
        assert forall|i: int| 0 <= i < q.len() - 1 implies #[trigger] linked(g, min, max, q, i) by {
            assert(linked(g, min, max, p, i));
        }
        lemma_single_row_walk(g, start, min, max, q);
        let n = p.len() - 1;
        assert(linked(g, min, max, p, n - 1));
        assert(is_move(g, min, max, p[n - 1], p[n]));
        let a = p[n - 1];
        let b = p[n];
        if n >= 2 {
            assert(a == q[n - 1]);
            assert(a.coords.1 == 0);
        } else {
            assert(a.coords == start);
        }
        assert(b.coords.1 == 0);
        assert(b.direction != Direction::Up && b.direction != Direction::Down);
        if n >= 2 {
            assert(b.direction == a.direction);
            assert(b.steps == n);
        } else {
            assert(a.steps == 0);
            assert(b.steps == 1);
        }
        assert(b.steps == n);
        assert((b.direction == Direction::Right && b.coords.0 == start.0 + n) || (b.direction == Direction::Left
            && b.coords.0 == start.0 - n));
        assert forall|i: int| 1 <= i < p.len() implies {
            &&& #[trigger] p[i].steps == i
            &&& p[i].coords.1 == 0
            &&& (p[i].direction == Direction::Right && p[i].coords.0 == start.0 + i) || (p[i].direction
                == Direction::Left && p[i].coords.0 == start.0 - i)
        } by {
            if i < n {
                assert(p[i] == q[i]);
                assert(q[i].steps == i);
            }
        }
    }
}

/// On a grid of one row, no route reaches a cell more than `max` cells to
/// the right of `start`: getting there would take more straight steps than
/// a streak may hold.
pub proof fn single_row_out_of_reach(g: Grid, start: (i32, i32), end: (i32, i32), min: u8, max: u8)
    requires
        g.wf(),
        g.spec_height() == 1,
        g.in_bounds((start.0 as int, start.1 as int)),
        end.0 > start.0 + max,
    ensures
        is_shortest(g, start, end, min, max, None),
{
    assert forall|p: Seq<Key>| !#[trigger] is_route(g, start, end, min, max, p) by {
        if is_route(g, start, end, min, max, p) {
            lemma_single_row_walk(g, start, min, max, p);
            if p.len() >= 2 {
                assert(linked(g, min, max, p, p.len() - 2));
                assert(p[p.len() - 1].steps == p.len() - 1);
            }
        }
    }
}

/// No walk ever turns straight back the way it came.
pub proof fn walks_never_reverse(g: Grid, start: (i32, i32), min: u8, max: u8, p: Seq<Key>)
    requires
        is_walk(g, start, min, max, p),
    ensures
        forall|i: int| 0 <= i < p.len() - 1 ==> !#[trigger] turns_back(p, i),
{
    assert forall|i: int| 0 <= i < p.len() - 1 implies !#[trigger] turns_back(p, i) by {
        assert(linked(g, min, max, p, i));
    }
}

/// The streak a walk's last node records is the number of steps at the end
/// of the walk that go in one direction.
pub proof fn streak_is_final_run(g: Grid, start: (i32, i32), min: u8, max: u8, p: Seq<Key>)
    requires
        is_walk(g, start, min, max, p),
    ensures
        final_run(p) == p.last().steps,
    decreases p.len(),
{
    if p.len() >= 2 {
        let q = p.drop_last();
        assert forall|i: int| 0 <= i < q.len() - 1 implies #[trigger] linked(g, min, max, q, i) by {
            assert(linked(g, min, max, p, i));
        }
        streak_is_final_run(g, start, min, max, q);
        assert(linked(g, min, max, p, p.len() - 2));
        assert(q.last() == p[p.len() - 2]);
    }
}

/// Every route ends with a run of at least `min` steps in one direction; in
/// particular one route whose cost is the answer of a search does.
pub proof fn answer_ends_on_long_run(
    g: Grid,
    start: (i32, i32),
    end: (i32, i32),
    min: u8,
    max: u8,
    c: u64,
)
    requires
        is_shortest(g, start, end, min, max, Some(c)),
    ensures
        forall|p: Seq<Key>| #[trigger] is_route(g, start, end, min, max, p) ==> final_run(p) >= min,
        exists|p: Seq<Key>|
            #[trigger] is_route(g, start, end, min, max, p) && walk_cost(g, p) == c && final_run(p) >= min,
{
    assert forall|p: Seq<Key>| #[trigger] is_route(g, start, end, min, max, p) implies final_run(p) >= min by {
        streak_is_final_run(g, start, min, max, p);
    }
}

/// Whether no node occurs twice in `p`.
pub open spec fn is_simple(p: Seq<Key>) -> bool {
    forall|i: int, j: int| 0 <= i < j < p.len() ==> p[i] != p[j]
}

/// The sum of the costs of the cells of the nodes of `s`.
pub open spec fn cells_cost(g: Grid, s: Seq<Key>) -> int
    decreases s.len(),
{
    if s.len() == 0 {
        0
    } else {
        cells_cost(g, s.drop_last()) + g.cell(pos(s.last()))
    }
}

proof fn lemma_cost_append(g: Grid, a: Seq<Key>, b: Seq<Key>)
    requires
        a.len() >= 1,
    ensures
        walk_cost(g, a + b) == walk_cost(g, a) + cells_cost(g, b),
    decreases b.len(),
{
    if b.len() == 0 {
        assert(a + b =~= a);
    } else {
        assert((a + b).drop_last() =~= a + b.drop_last());
        lemma_cost_append(g, a, b.drop_last());
    }
}

/// Cutting out the loop between two visits of one node leaves a shorter
/// route to the same node that costs no more.
proof fn lemma_shortcut(
    g: Grid,
    start: (i32, i32),
    end: (i32, i32),
    min: u8,
    max: u8,
    p: Seq<Key>,
    i: int,
    j: int,
)
    requires
        is_route(g, start, end, min, max, p),
        0 <= i < j < p.len(),
        p[i] == p[j],
    ensures
        is_route(g, start, end, min, max, p.take(i + 1) + p.skip(j + 1)),
        walk_cost(g, p.take(i + 1) + p.skip(j + 1)) <= walk_cost(g, p),
        (p.take(i + 1) + p.skip(j + 1)).len() < p.len(),
{
    let q = p.take(i + 1) + p.skip(j + 1);
    let gap = j - i;
    assert forall|k: int| 0 <= k < q.len() implies #[trigger] q[k] == if k <= i { p[k] } else { p[k + gap] } by {
    }
    assert forall|k: int| 0 <= k < q.len() - 1 implies #[trigger] linked(g, min, max, q, k) by {
        if k < i {
            assert(linked(g, min, max, p, k));
        } else {
            assert(linked(g, min, max, p, k + gap));
        }
    }
    assert(q.last() == p.last());
    assert(p =~= p.take(j + 1) + p.skip(j + 1));
    lemma_cost_append(g, p.take(j + 1), p.skip(j + 1));
    lemma_cost_append(g, p.take(i + 1), p.skip(j + 1));
    assert(p.take(j + 1).take(i + 1) =~= p.take(i + 1));
    lemma_prefix_cost(g, p.take(j + 1), i + 1);
}

proof fn lemma_simple_witness(
    g: Grid,
    start: (i32, i32),
    end: (i32, i32),
    min: u8,
    max: u8,
    c: u64,
    p: Seq<Key>,
)
    requires
        is_route(g, start, end, min, max, p),
        walk_cost(g, p) == c,
        forall|q: Seq<Key>| #[trigger] is_route(g, start, end, min, max, q) ==> c <= walk_cost(g, q),
    ensures
        exists|q: Seq<Key>| #[trigger] is_route(g, start, end, min, max, q) && is_simple(q) && walk_cost(g, q) == c,
    decreases p.len(),
{
    if is_simple(p) {
        assert(is_route(g, start, end, min, max, p));
    } else {
        let (i, j) = choose|i: int, j: int| 0 <= i < j < p.len() && p[i] == p[j];
        let q = p.take(i + 1) + p.skip(j + 1);
        lemma_shortcut(g, start, end, min, max, p, i, j);
        assert(is_route(g, start, end, min, max, q));
        lemma_simple_witness(g, start, end, min, max, c, q);
    }
}

/// The least cost is that of a route which visits no node twice, so it is
/// also the least cost among such routes.
pub proof fn answer_needs_no_repeats(
    g: Grid,
    start: (i32, i32),
    end: (i32, i32),
    min: u8,
    max: u8,
    c: u64,
)
    requires
        is_shortest(g, start, end, min, max, Some(c)),
    ensures
        exists|q: Seq<Key>| #[trigger] is_route(g, start, end, min, max, q) && is_simple(q) && walk_cost(g, q) == c,
        forall|q: Seq<Key>| #[trigger] is_route(g, start, end, min, max, q) && is_simple(q) ==> c <= walk_cost(g, q),
{
    let p = choose|p: Seq<Key>| #[trigger] is_route(g, start, end, min, max, p) && walk_cost(g, p) == c;
    lemma_simple_witness(g, start, end, min, max, c, p);
}

} // verus!
