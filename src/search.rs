use vstd::prelude::*;

use crate::direction::{offset, reverse, Direction};
use crate::frontier::{lemma_without, without, Frontier};
use crate::grid::{Grid, CELL_LIMIT};
use crate::model::{
    is_finish, is_move, is_route, is_seed, is_shortest, is_walk, key_of, lemma_prefix_cost, linked, pos,
    walk_cost, Key, State,
};
use crate::table::{entry_weight, CostTable};

verus! {

/// The table describes searches over `g` with streaks of at most `max`.
pub open spec fn table_fits(g: Grid, max: u8, t: CostTable) -> bool {
    &&& t.wf()
    &&& t.width == g.spec_width()
    &&& t.height == g.spec_height()
    &&& t.span == max + 1
}

/// The frontier holds `k` at the best cost the table records for it.
pub open spec fn pending(t: CostTable, f: Seq<State>, k: Key) -> bool {
    exists|m: int| 0 <= m < f.len() && key_of(#[trigger] f[m]) == k && t.best(k) == Some(f[m].cost)
}

/// `k` has been reached and its best cost is no longer waiting in the frontier.
pub open spec fn settled(t: CostTable, f: Seq<State>, k: Key) -> bool {
    t.covers(k) && t.best(k) is Some && !pending(t, f, k)
}

/// Every move out of `k` in direction `d` leads to a node whose best cost is
/// at most `k`'s plus the cost of entering it.
pub open spec fn relaxed_toward(g: Grid, min: u8, max: u8, t: CostTable, k: Key, d: Direction) -> bool {
    forall|v: Key|
        #[trigger] is_move(g, min, max, k, v) && v.direction == d ==> {
            &&& t.best(v) is Some
            &&& t.best(v).unwrap() <= t.best(k).unwrap() + g.cell(pos(v))
        }
}

/// Every move out of `k` leads to a node whose best cost is at most `k`'s
/// plus the cost of entering it.
pub open spec fn relaxed(g: Grid, min: u8, max: u8, t: CostTable, k: Key) -> bool {
    forall|v: Key|
        #[trigger] is_move(g, min, max, k, v) ==> {
            &&& t.best(v) is Some
            &&& t.best(v).unwrap() <= t.best(k).unwrap() + g.cell(pos(v))
        }
}

/// Each frontier entry names a node of the table, costs no less than the
/// node's best cost, and stays under the cost bound.
#[verifier::opaque]
pub open spec fn entries_ok(t: CostTable, f: Seq<State>) -> bool {
    forall|m: int|
        0 <= m < f.len() ==> {
            &&& t.covers(key_of(#[trigger] f[m]))
            &&& t.best(key_of(f[m])) is Some
            &&& t.best(key_of(f[m])).unwrap() <= f[m].cost
            &&& f[m].cost <= 9 * t.filled()
        }
}

/// Each recorded cost is the cost of a walk to its node, and stays under the
/// cost bound.
#[verifier::opaque]
pub open spec fn reached_ok(g: Grid, start: (i32, i32), min: u8, max: u8, t: CostTable) -> bool {
    forall|k: Key|
        t.covers(k) && #[trigger] t.best(k) is Some ==> {
            &&& t.best(k).unwrap() <= 9 * t.filled()
            &&& exists|p: Seq<Key>|
                #[trigger] is_walk(g, start, min, max, p) && p.last() == k && walk_cost(g, p)
                    == t.best(k).unwrap()
        }
}

/// Every settled node other than `u` has had its moves relaxed.
#[verifier::opaque]
pub open spec fn settled_relaxed_but(g: Grid, min: u8, max: u8, t: CostTable, f: Seq<State>, u: Key) -> bool {
    forall|k: Key| k != u && #[trigger] settled(t, f, k) ==> relaxed(g, min, max, t, k)
}

/// Every settled node has had its moves relaxed.
#[verifier::opaque]
pub open spec fn settled_relaxed(g: Grid, min: u8, max: u8, t: CostTable, f: Seq<State>) -> bool {
    forall|k: Key| #[trigger] settled(t, f, k) ==> relaxed(g, min, max, t, k)
}

/// A node where a route may stop never settles: once reached, it waits in the
/// frontier.
#[verifier::opaque]
pub open spec fn finish_pending(end: (i32, i32), min: u8, t: CostTable, f: Seq<State>) -> bool {
    forall|k: Key| t.covers(k) && #[trigger] is_finish(end, min, k) && t.best(k) is Some ==> pending(t, f, k)
}

/// Both seeds are reached at no cost.
#[verifier::opaque]
pub open spec fn seeds_ok(start: (i32, i32), t: CostTable) -> bool {
    forall|k: Key| #[trigger] is_seed(start, k) ==> t.covers(k) && t.best(k) == Some(0u64)
}

proof fn lemma_move_covered(g: Grid, min: u8, max: u8, t: CostTable, a: Key, b: Key)
    requires
        table_fits(g, max, t),
        is_move(g, min, max, a, b),
    ensures
        t.covers(b),
{
}

proof fn lemma_move_determined(g: Grid, min: u8, max: u8, a: Key, b: Key, c: Key)
    requires
        is_move(g, min, max, a, b),
        is_move(g, min, max, a, c),
        b.direction == c.direction,
    ensures
        b == c,
{
    assert(b.coords == c.coords);
}

proof fn lemma_walk_extend(g: Grid, start: (i32, i32), min: u8, max: u8, p: Seq<Key>, v: Key)
    requires
        is_walk(g, start, min, max, p),
        is_move(g, min, max, p.last(), v),
    ensures
        is_walk(g, start, min, max, p.push(v)),
        walk_cost(g, p.push(v)) == walk_cost(g, p) + g.cell(pos(v)),
        p.push(v).last() == v,
{
    let q = p.push(v);
    assert(q.drop_last() =~= p);
    assert forall|i: int| 0 <= i < q.len() - 1 implies #[trigger] linked(g, min, max, q, i) by {
        if i < p.len() - 1 {
            assert(linked(g, min, max, p, i));
        }
    }
}

proof fn lemma_walk_shorten(g: Grid, start: (i32, i32), min: u8, max: u8, p: Seq<Key>)
    requires
        is_walk(g, start, min, max, p),
        p.len() >= 2,
    ensures
        is_walk(g, start, min, max, p.drop_last()),
        is_move(g, min, max, p.drop_last().last(), p.last()),
        walk_cost(g, p) == walk_cost(g, p.drop_last()) + g.cell(pos(p.last())),
{
    let q = p.drop_last();
    assert forall|i: int| 0 <= i < q.len() - 1 implies #[trigger] linked(g, min, max, q, i) by {
        assert(linked(g, min, max, p, i));
    }
    assert(linked(g, min, max, p, p.len() - 2));
}

/// Taking out an entry that does not hold its node's best cost changes which
/// nodes are pending for no node; taking out any entry changes it for no
/// other node.
proof fn lemma_pending_after_pop(t: CostTable, f: Seq<State>, i: int)
    requires
        0 <= i < f.len(),
    ensures
        forall|k: Key|
            (k != key_of(f[i]) || t.best(k) != Some(f[i].cost)) ==> (#[trigger] pending(t, without(f, i), k)
                <==> pending(t, f, k)),
{
    lemma_without(f, i);
    let g = without(f, i);
    assert forall|k: Key| (k != key_of(f[i]) || t.best(k) != Some(f[i].cost)) implies (#[trigger] pending(
        t,
        g,
        k,
    ) <==> pending(t, f, k)) by {
        if pending(t, f, k) {
            let m = choose|m: int| 0 <= m < f.len() && key_of(#[trigger] f[m]) == k && t.best(k) == Some(f[m].cost);
            assert(m != i);
            let m2 = choose|m2: int| 0 <= m2 < g.len() && g[m2] == #[trigger] f[m];
            assert(key_of(g[m2]) == k);
        }
        if pending(t, g, k) {
            let m = choose|m: int| 0 <= m < g.len() && key_of(#[trigger] g[m]) == k && t.best(k) == Some(g[m].cost);
            let j = choose|j: int| 0 <= j < f.len() && j != i && f[j] == #[trigger] g[m];
            assert(key_of(f[j]) == k);
        }
    }
}

/// Every walk from a seed either reaches a pending node at no more than the
/// cost of the walk up to it, or ends at a reached node at no more than its
/// whole cost.
proof fn lemma_walk_meets_frontier(
    g: Grid,
    start: (i32, i32),
    min: u8,
    max: u8,
    t: CostTable,
    f: Seq<State>,
    p: Seq<Key>,
)
    requires
        g.wf(),
        g.in_bounds((start.0 as int, start.1 as int)),
        table_fits(g, max, t),
        seeds_ok(start, t),
        settled_relaxed(g, min, max, t, f),
        is_walk(g, start, min, max, p),
    ensures
        exists|j: int|
            0 <= j < p.len() && #[trigger] t.best(p[j]) is Some && t.best(p[j]).unwrap() <= walk_cost(
                g,
                p.take(j + 1),
            ) && (pending(t, f, p[j]) || j == p.len() - 1),
    decreases p.len(),
{
    reveal(seeds_ok);
    reveal(settled_relaxed);
    if p.len() == 1 {
        assert(is_seed(start, p[0]));
        assert(p.take(1).len() == 1);
        assert(t.best(p[0]) is Some);
    } else {
        let q = p.drop_last();
        lemma_walk_shorten(g, start, min, max, p);
        lemma_walk_meets_frontier(g, start, min, max, t, f, q);
        let j = choose|j: int|
            0 <= j < q.len() && #[trigger] t.best(q[j]) is Some && t.best(q[j]).unwrap() <= walk_cost(
                g,
                q.take(j + 1),
            ) && (pending(t, f, q[j]) || j == q.len() - 1);
        assert(q[j] == p[j]);
        assert(q.take(j + 1) =~= p.take(j + 1));
        if !pending(t, f, q[j]) {
            assert(j == q.len() - 1);
            assert(q.take(j + 1) =~= q);
            if j > 0 {
                assert(linked(g, min, max, q, j - 1));
                lemma_move_covered(g, min, max, t, q[j - 1], q[j]);
            } else {
                assert(is_seed(start, q[0]));
            }
            assert(settled(t, f, q[j]));
            assert(relaxed(g, min, max, t, q[j]));
            assert(is_move(g, min, max, q.last(), p.last()));
            let n = p.len() - 1;
            assert(p.take(n + 1) =~= p);
            assert(t.best(p[n]) is Some);
        }
    }
}

proof fn lemma_walk_covered(g: Grid, start: (i32, i32), min: u8, max: u8, t: CostTable, p: Seq<Key>)
    requires
        g.in_bounds((start.0 as int, start.1 as int)),
        table_fits(g, max, t),
        is_walk(g, start, min, max, p),
    ensures
        forall|i: int| 0 <= i < p.len() ==> t.covers(#[trigger] p[i]),
{
    assert forall|i: int| 0 <= i < p.len() implies t.covers(#[trigger] p[i]) by {
        if i > 0 {
            assert(linked(g, min, max, p, i - 1));
        }
    }
}

/// `t2` and `f2` are `t` and `f` after `cost` was recorded for `v` and an
/// entry for `v` at that cost was queued.
#[verifier::opaque]
pub open spec fn recorded(t: CostTable, f: Seq<State>, t2: CostTable, f2: Seq<State>, v: Key, cost: u64) -> bool {
    &&& t2.width == t.width
    &&& t2.height == t.height
    &&& t2.span == t.span
    &&& t2.best(v) == Some(cost)
    &&& forall|o: Key| t.covers(o) && o != v ==> #[trigger] t2.best(o) == t.best(o)
    &&& f2.len() == f.len() + 1
    &&& forall|m: int| 0 <= m < f.len() ==> f2[m] == f[m]
    &&& key_of(f2[f.len() as int]) == v
    &&& f2[f.len() as int].cost == cost
}

proof fn lemma_recorded_pending(t: CostTable, f: Seq<State>, t2: CostTable, f2: Seq<State>, v: Key, cost: u64)
    requires
        recorded(t, f, t2, f2, v, cost),
        entries_ok(t, f),
    ensures
        pending(t2, f2, v),
        forall|k: Key| k != v ==> (#[trigger] pending(t2, f2, k) <==> pending(t, f, k)),
{
    reveal(recorded);
    reveal(entries_ok);
    let n = f.len() as int;
    assert(key_of(f2[n]) == v);
    assert forall|k: Key| k != v implies (#[trigger] pending(t2, f2, k) <==> pending(t, f, k)) by {
        if pending(t, f, k) {
            let m = choose|m: int| 0 <= m < f.len() && key_of(#[trigger] f[m]) == k && t.best(k) == Some(f[m].cost);
            assert(f2[m] == f[m]);
        }
        if pending(t2, f2, k) {
            let m = choose|m: int| 0 <= m < f2.len() && key_of(#[trigger] f2[m]) == k && t2.best(k) == Some(f2[m].cost);
            assert(m != n);
            assert(f2[m] == f[m]);
        }
    }
}

proof fn lemma_recorded_entries(t: CostTable, f: Seq<State>, t2: CostTable, f2: Seq<State>, v: Key, cost: u64)
    requires
        recorded(t, f, t2, f2, v, cost),
        entries_ok(t, f),
        t.covers(v),
        t.best(v) is None || cost < t.best(v).unwrap(),
        t.filled() <= t2.filled(),
        cost <= 9 * t2.filled(),
    ensures
        entries_ok(t2, f2),
{
    reveal(recorded);
    reveal(entries_ok);
    let n = f.len() as int;
    assert forall|m: int| 0 <= m < f2.len() implies {
        &&& t2.covers(key_of(#[trigger] f2[m]))
        &&& t2.best(key_of(f2[m])) is Some
        &&& t2.best(key_of(f2[m])).unwrap() <= f2[m].cost
        &&& f2[m].cost <= 9 * t2.filled()
    } by {
        if m < n {
            assert(f2[m] == f[m]);
        }
    }
}

proof fn lemma_recorded_reached(
    g: Grid,
    start: (i32, i32),
    min: u8,
    max: u8,
    t: CostTable,
    f: Seq<State>,
    t2: CostTable,
    f2: Seq<State>,
    u: Key,
    v: Key,
    cost: u64,
)
    requires
        recorded(t, f, t2, f2, v, cost),
        reached_ok(g, start, min, max, t),
        t.covers(u),
        t.best(u) is Some,
        is_move(g, min, max, u, v),
        cost == t.best(u).unwrap() + g.cell(pos(v)),
        t.filled() <= t2.filled(),
        cost <= 9 * t2.filled(),
    ensures
        reached_ok(g, start, min, max, t2),
{
    reveal(recorded);
    reveal(reached_ok);
    assert forall|k: Key| t2.covers(k) && #[trigger] t2.best(k) is Some implies {
        &&& t2.best(k).unwrap() <= 9 * t2.filled()
        &&& exists|p: Seq<Key>|
            #[trigger] is_walk(g, start, min, max, p) && p.last() == k && walk_cost(g, p) == t2.best(k).unwrap()
    } by {
        if k == v {
            let p = choose|p: Seq<Key>|
                #[trigger] is_walk(g, start, min, max, p) && p.last() == u && walk_cost(g, p) == t.best(u).unwrap();
            lemma_walk_extend(g, start, min, max, p, v);
        } else {
            assert(t.best(k) is Some);
        }
    }
}

proof fn lemma_recorded_settled(
    g: Grid,
    min: u8,
    max: u8,
    t: CostTable,
    f: Seq<State>,
    t2: CostTable,
    f2: Seq<State>,
    u: Key,
    v: Key,
    cost: u64,
)
    requires
        table_fits(g, max, t),
        recorded(t, f, t2, f2, v, cost),
        entries_ok(t, f),
        settled_relaxed_but(g, min, max, t, f, u),
        t.best(v) is None || cost < t.best(v).unwrap(),
    ensures
        settled_relaxed_but(g, min, max, t2, f2, u),
        forall|o: Key|
            t.covers(o) && t.best(o) is Some ==> #[trigger] t2.best(o) is Some && t2.best(o).unwrap()
                <= t.best(o).unwrap(),
{
    reveal(recorded);
    reveal(settled_relaxed_but);
    lemma_recorded_pending(t, f, t2, f2, v, cost);
    assert forall|o: Key| t.covers(o) && t.best(o) is Some implies #[trigger] t2.best(o) is Some
        && t2.best(o).unwrap() <= t.best(o).unwrap() by {
        if o == v {
        }
    }
    assert forall|k: Key| k != u && #[trigger] settled(t2, f2, k) implies relaxed(g, min, max, t2, k) by {
        assert(k != v);
        assert(settled(t, f, k));
        assert(relaxed(g, min, max, t, k));
        assert forall|w: Key| #[trigger] is_move(g, min, max, k, w) implies {
            &&& t2.best(w) is Some
            &&& t2.best(w).unwrap() <= t2.best(k).unwrap() + g.cell(pos(w))
        } by {
            lemma_move_covered(g, min, max, t, k, w);
        }
    }
}

/// Recording a cheaper cost for `v`, reached by a move from `u`, and queueing
/// it keeps every invariant of the search, lowers the table's weight, and
/// leaves the moves from `u` in `v`'s direction relaxed.
proof fn lemma_relax(
    g: Grid,
    start: (i32, i32),
    end: (i32, i32),
    min: u8,
    max: u8,
    t: CostTable,
    f: Seq<State>,
    t2: CostTable,
    f2: Seq<State>,
    u: Key,
    v: Key,
    d: u64,
    cost: u64,
    big: int,
)
    requires
        g.wf(),
        table_fits(g, max, t),
        t2.wf(),
        big == 9 * t.capacity() + 20,
        entries_ok(t, f),
        reached_ok(g, start, min, max, t),
        seeds_ok(start, t),
        finish_pending(end, min, t, f),
        settled_relaxed_but(g, min, max, t, f, u),
        t.covers(u),
        t.best(u) == Some(d),
        is_move(g, min, max, u, v),
        cost == d + g.cell(pos(v)),
        t.best(v) is None || cost < t.best(v).unwrap(),
        recorded(t, f, t2, f2, v, cost),
        t2.filled() == t.filled() + (if t.best(v) is None { 1int } else { 0int }),
        t2.weight(big) == t.weight(big) - entry_weight(t.best(v), big) + cost + 1,
    ensures
        table_fits(g, max, t2),
        entries_ok(t2, f2),
        reached_ok(g, start, min, max, t2),
        seeds_ok(start, t2),
        finish_pending(end, min, t2, f2),
        settled_relaxed_but(g, min, max, t2, f2, u),
        t2.best(u) == Some(d),
        t2.weight(big) < t.weight(big),
        forall|o: Key|
            t.covers(o) && t.best(o) is Some ==> #[trigger] t2.best(o) is Some && t2.best(o).unwrap()
                <= t.best(o).unwrap(),
        relaxed_toward(g, min, max, t2, u, v.direction),
{
    lemma_move_covered(g, min, max, t, u, v);
    assert(d <= 9 * t.filled() && (t.best(v) is Some ==> t.best(v).unwrap() <= 9 * t.filled())) by {
        reveal(reached_ok);
        assert(t.best(u) is Some);
    }
    assert(t2.width == t.width && t2.height == t.height && t2.span == t.span) by {
        reveal(recorded);
    }
    lemma_recorded_bounds(g, min, max, t, t2, u, v, d, cost, big);
    lemma_recorded_pending(t, f, t2, f2, v, cost);
    lemma_recorded_entries(t, f, t2, f2, v, cost);
    lemma_recorded_reached(g, start, min, max, t, f, t2, f2, u, v, cost);
    lemma_recorded_settled(g, min, max, t, f, t2, f2, u, v, cost);
    lemma_recorded_rest(g, start, end, min, max, t, f, t2, f2, u, v, cost);
}

proof fn lemma_recorded_bounds(
    g: Grid,
    min: u8,
    max: u8,
    t: CostTable,
    t2: CostTable,
    u: Key,
    v: Key,
    d: u64,
    cost: u64,
    big: int,
)
    requires
        g.wf(),
        table_fits(g, max, t),
        big == 9 * t.capacity() + 20,
        d <= 9 * t.filled(),
        is_move(g, min, max, u, v),
        cost == d + g.cell(pos(v)),
        t.best(v) is None || cost < t.best(v).unwrap(),
        t.best(v) is Some ==> t.best(v).unwrap() <= 9 * t.filled(),
        t2.filled() == t.filled() + (if t.best(v) is None { 1int } else { 0int }),
        t2.weight(big) == t.weight(big) - entry_weight(t.best(v), big) + cost + 1,
    ensures
        t.filled() <= t2.filled(),
        cost <= 9 * t2.filled(),
        t2.weight(big) < t.weight(big),
        u != v,
{
    t.lemma_sums(big);
    assert(g@[pos(v).1].len() == g.spec_width());
    assert(g.cell(pos(v)) <= 9);
    assert(cost <= 9 * t.filled() + 9);
    assert(t.filled() <= t.capacity());
    match t.best(v) {
        Some(c) => {
            assert(entry_weight(t.best(v), big) == c + 1);
        },
        None => {
            assert(entry_weight(t.best(v), big) == big);
        },
    }
}

proof fn lemma_recorded_rest(
    g: Grid,
    start: (i32, i32),
    end: (i32, i32),
    min: u8,
    max: u8,
    t: CostTable,
    f: Seq<State>,
    t2: CostTable,
    f2: Seq<State>,
    u: Key,
    v: Key,
    cost: u64,
)
    requires
        table_fits(g, max, t),
        recorded(t, f, t2, f2, v, cost),
        entries_ok(t, f),
        seeds_ok(start, t),
        finish_pending(end, min, t, f),
        u != v,
        t.covers(u),
        t.best(u) is Some,
        is_move(g, min, max, u, v),
        cost == t.best(u).unwrap() + g.cell(pos(v)),
        t.best(v) is None || cost < t.best(v).unwrap(),
    ensures
        seeds_ok(start, t2),
        finish_pending(end, min, t2, f2),
        t2.best(u) == t.best(u),
        relaxed_toward(g, min, max, t2, u, v.direction),
{
    reveal(recorded);
    reveal(seeds_ok);
    reveal(finish_pending);
    lemma_recorded_pending(t, f, t2, f2, v, cost);
    assert forall|k: Key| #[trigger] is_seed(start, k) implies t2.covers(k) && t2.best(k) == Some(0u64) by {
        if k == v {
            assert(t.best(v) == Some(0u64));
        }
    }
    assert forall|k: Key| t2.covers(k) && #[trigger] is_finish(end, min, k) && t2.best(k) is Some implies pending(
        t2,
        f2,
        k,
    ) by {
        if k != v {
            assert(pending(t, f, k));
        }
    }
    assert forall|w: Key| #[trigger] is_move(g, min, max, u, w) && w.direction == v.direction implies {
        &&& t2.best(w) is Some
        &&& t2.best(w).unwrap() <= t2.best(u).unwrap() + g.cell(pos(w))
    } by {
        lemma_move_determined(g, min, max, u, v, w);
    }
}

/// When the cheapest frontier entry holds its node's best cost and that node
/// may end a route, its cost is the least cost of a route.
proof fn lemma_answer_found(
    g: Grid,
    start: (i32, i32),
    end: (i32, i32),
    min: u8,
    max: u8,
    t: CostTable,
    f: Seq<State>,
    i: int,
)
    requires
        g.wf(),
        g.in_bounds((start.0 as int, start.1 as int)),
        table_fits(g, max, t),
        reached_ok(g, start, min, max, t),
        seeds_ok(start, t),
        finish_pending(end, min, t, f),
        settled_relaxed(g, min, max, t, f),
        0 <= i < f.len(),
        t.covers(key_of(f[i])),
        t.best(key_of(f[i])) == Some(f[i].cost),
        is_finish(end, min, key_of(f[i])),
        forall|j: int| 0 <= j < f.len() ==> f[i].cost <= #[trigger] f[j].cost,
    ensures
        is_shortest(g, start, end, min, max, Some(f[i].cost)),
{
    reveal(reached_ok);
    let u = key_of(f[i]);
    let c = f[i].cost;
    assert(t.best(u) is Some);
    let p = choose|p: Seq<Key>|
        #[trigger] is_walk(g, start, min, max, p) && p.last() == u && walk_cost(g, p) == t.best(u).unwrap();
    assert(is_route(g, start, end, min, max, p));
    assert forall|q: Seq<Key>| #[trigger] is_route(g, start, end, min, max, q) implies c <= walk_cost(g, q) by {
        lemma_at_least_frontier(g, start, end, min, max, t, f, q);
        let j = choose|j: int|
            0 <= j < f.len() && #[trigger] f[j].cost <= walk_cost(g, q);
        assert(c <= f[j].cost);
    }
}

/// Every route passes a frontier entry that costs no more than the route.
proof fn lemma_at_least_frontier(
    g: Grid,
    start: (i32, i32),
    end: (i32, i32),
    min: u8,
    max: u8,
    t: CostTable,
    f: Seq<State>,
    q: Seq<Key>,
)
    requires
        g.wf(),
        g.in_bounds((start.0 as int, start.1 as int)),
        table_fits(g, max, t),
        seeds_ok(start, t),
        finish_pending(end, min, t, f),
        settled_relaxed(g, min, max, t, f),
        is_route(g, start, end, min, max, q),
    ensures
        exists|j: int| 0 <= j < f.len() && #[trigger] f[j].cost <= walk_cost(g, q),
{
    reveal(finish_pending);
    lemma_walk_meets_frontier(g, start, min, max, t, f, q);
    lemma_walk_covered(g, start, min, max, t, q);
    let j = choose|j: int|
        0 <= j < q.len() && #[trigger] t.best(q[j]) is Some && t.best(q[j]).unwrap() <= walk_cost(g, q.take(j + 1))
            && (pending(t, f, q[j]) || j == q.len() - 1);
    if !pending(t, f, q[j]) {
        assert(t.covers(q[q.len() - 1]));
        assert(is_finish(end, min, q.last()));
    }
    assert(pending(t, f, q[j]));
    let m = choose|m: int| 0 <= m < f.len() && key_of(#[trigger] f[m]) == q[j] && t.best(q[j]) == Some(f[m].cost);
    lemma_prefix_cost(g, q, j + 1);
    assert(f[m].cost <= walk_cost(g, q));
}

/// With nothing left in the frontier, no route exists.
proof fn lemma_no_answer(
    g: Grid,
    start: (i32, i32),
    end: (i32, i32),
    min: u8,
    max: u8,
    t: CostTable,
    f: Seq<State>,
)
    requires
        g.wf(),
        g.in_bounds((start.0 as int, start.1 as int)),
        table_fits(g, max, t),
        seeds_ok(start, t),
        finish_pending(end, min, t, f),
        settled_relaxed(g, min, max, t, f),
        f.len() == 0,
    ensures
        is_shortest(g, start, end, min, max, None),
{
    assert forall|q: Seq<Key>| !#[trigger] is_route(g, start, end, min, max, q) by {
        if is_route(g, start, end, min, max, q) {
            lemma_at_least_frontier(g, start, end, min, max, t, f, q);
        }
    }
}

/// Taking an entry out of the frontier keeps the invariants, save that the
/// node it held may settle without its moves relaxed. An entry that did not
/// hold its node's best cost changes nothing at all.
proof fn lemma_popped(end: (i32, i32), min: u8, max: u8, g: Grid, t: CostTable, f: Seq<State>, i: int)
    requires
        0 <= i < f.len(),
        entries_ok(t, f),
        finish_pending(end, min, t, f),
        settled_relaxed(g, min, max, t, f),
        t.best(key_of(f[i])) != Some(f[i].cost) || !is_finish(end, min, key_of(f[i])),
    ensures
        entries_ok(t, without(f, i)),
        finish_pending(end, min, t, without(f, i)),
        settled_relaxed_but(g, min, max, t, without(f, i), key_of(f[i])),
        t.best(key_of(f[i])) != Some(f[i].cost) ==> settled_relaxed(g, min, max, t, without(f, i)),
{
    reveal(entries_ok);
    reveal(finish_pending);
    reveal(settled_relaxed);
    reveal(settled_relaxed_but);
    let h = without(f, i);
    let u = key_of(f[i]);
    lemma_without(f, i);
    lemma_pending_after_pop(t, f, i);
    assert forall|m: int| 0 <= m < h.len() implies {
        &&& t.covers(key_of(#[trigger] h[m]))
        &&& t.best(key_of(h[m])) is Some
        &&& t.best(key_of(h[m])).unwrap() <= h[m].cost
        &&& h[m].cost <= 9 * t.filled()
    } by {
        let j = choose|j: int| 0 <= j < f.len() && j != i && f[j] == #[trigger] h[m];
    }
    assert forall|k: Key| t.covers(k) && #[trigger] is_finish(end, min, k) && t.best(k) is Some implies pending(t, h, k) by {
        assert(pending(t, f, k));
        assert(pending(t, h, k) <==> pending(t, f, k));
    }
    assert forall|k: Key| k != u && #[trigger] settled(t, h, k) implies relaxed(g, min, max, t, k) by {
        assert(pending(t, h, k) <==> pending(t, f, k));
        assert(settled(t, f, k));
    }
    if t.best(u) != Some(f[i].cost) {
        assert forall|k: Key| #[trigger] settled(t, h, k) implies relaxed(g, min, max, t, k) by {
            assert(pending(t, h, k) <==> pending(t, f, k));
            assert(settled(t, f, k));
        }
    }
}

/// Once the moves out of `u` are relaxed, every settled node is.
proof fn lemma_closed_out(g: Grid, min: u8, max: u8, t: CostTable, f: Seq<State>, u: Key)
    requires
        settled_relaxed_but(g, min, max, t, f, u),
        relaxed(g, min, max, t, u),
    ensures
        settled_relaxed(g, min, max, t, f),
{
    reveal(settled_relaxed);
    reveal(settled_relaxed_but);
}

/// The moves out of `u` are relaxed once those in each direction that leads
/// to a cell are.
proof fn lemma_relaxed_all(
    g: Grid,
    min: u8,
    max: u8,
    t: CostTable,
    u: Key,
    next: Seq<(Direction, (i32, i32))>,
)
    requires
        forall|d: Direction|
            d != reverse(u.direction) && g.in_bounds(#[trigger] offset(d, u.coords)) ==> exists|j: int|
                0 <= j < next.len() && next[j].0 == d,
        forall|j: int| 0 <= j < next.len() ==> relaxed_toward(g, min, max, t, u, #[trigger] next[j].0),
    ensures
        relaxed(g, min, max, t, u),
{
    assert forall|v: Key| #[trigger] is_move(g, min, max, u, v) implies {
        &&& t.best(v) is Some
        &&& t.best(v).unwrap() <= t.best(u).unwrap() + g.cell(pos(v))
    } by {
        assert(g.in_bounds(offset(v.direction, u.coords)));
        let j = choose|j: int| 0 <= j < next.len() && next[j].0 == v.direction;
        assert(relaxed_toward(g, min, max, t, u, next[j].0));
    }
}

proof fn lemma_toward_kept(g: Grid, min: u8, max: u8, t: CostTable, t2: CostTable, u: Key, d: Direction)
    requires
        table_fits(g, max, t),
        relaxed_toward(g, min, max, t, u, d),
        t2.best(u) == t.best(u),
        forall|o: Key|
            t.covers(o) && t.best(o) is Some ==> #[trigger] t2.best(o) is Some && t2.best(o).unwrap()
                <= t.best(o).unwrap(),
    ensures
        relaxed_toward(g, min, max, t2, u, d),
{
    assert forall|v: Key| #[trigger] is_move(g, min, max, u, v) && v.direction == d implies {
        &&& t2.best(v) is Some
        &&& t2.best(v).unwrap() <= t2.best(u).unwrap() + g.cell(pos(v))
    } by {
        lemma_move_covered(g, min, max, t, u, v);
    }
}

proof fn lemma_seeded(
    g: Grid,
    start: (i32, i32),
    end: (i32, i32),
    min: u8,
    max: u8,
    t: CostTable,
    f: Seq<State>,
)
    requires
        g.wf(),
        g.in_bounds((start.0 as int, start.1 as int)),
        table_fits(g, max, t),
        t.filled() == 2,
        forall|k: Key| t.covers(k) && !is_seed(start, k) ==> #[trigger] t.best(k) is None,
        forall|k: Key| is_seed(start, k) ==> #[trigger] t.best(k) == Some(0u64),
        f.len() == 2,
        key_of(f[0]) == (Key { coords: start, direction: Direction::Down, steps: 0 }),
        key_of(f[1]) == (Key { coords: start, direction: Direction::Right, steps: 0 }),
        f[0].cost == 0,
        f[1].cost == 0,
    ensures
        entries_ok(t, f),
        reached_ok(g, start, min, max, t),
        seeds_ok(start, t),
        finish_pending(end, min, t, f),
        settled_relaxed(g, min, max, t, f),
{
    assert(entries_ok(t, f)) by {
        reveal(entries_ok);
        assert(is_seed(start, key_of(f[0])));
        assert(is_seed(start, key_of(f[1])));
    }
    assert(seeds_ok(start, t)) by {
        reveal(seeds_ok);
    }
    assert(reached_ok(g, start, min, max, t)) by {
        reveal(reached_ok);
        assert forall|k: Key| t.covers(k) && #[trigger] t.best(k) is Some implies {
            &&& t.best(k).unwrap() <= 9 * t.filled()
            &&& exists|p: Seq<Key>|
                #[trigger] is_walk(g, start, min, max, p) && p.last() == k && walk_cost(g, p) == t.best(k).unwrap()
        } by {
            assert(is_seed(start, k));
            let p = seq![k];
            assert(is_walk(g, start, min, max, p));
        }
    }
    assert forall|k: Key| t.covers(k) && t.best(k) is Some implies pending(t, f, k) by {
        assert(is_seed(start, k));
        if k.direction == Direction::Down {
            assert(key_of(f[0]) == k);
        } else {
            assert(key_of(f[1]) == k);
        }
    }
    assert(settled_relaxed(g, min, max, t, f)) by {
        reveal(settled_relaxed);
    }
    assert(finish_pending(end, min, t, f)) by {
        reveal(finish_pending);
    }
}

impl Grid {
    /// The least cost of a route from `start` to `end` that never reverses,
    /// never goes more than `max_step` cells straight, and turns or stops only
    /// after at least `min_step` cells straight; `None` when no route exists.
    /// A route begins by heading down or right from `start`, and the cell it
    /// starts in is free.
    pub fn shortest_path(&self, start: (i32, i32), end: (i32, i32), min_step: u8, max_step: u8) -> (r: Option<u64>)
        requires
            self.wf(),
            self.in_bounds((start.0 as int, start.1 as int)),
        ensures
            is_shortest(*self, start, end, min_step, max_step, r),
    {
        let width = self.width();
        let height = self.height();
        let span = max_step as usize + 1;
        proof {
            let cells = height * width;
            assert(cells <= CELL_LIMIT);
            assert(cells * 4 * span <= cells * 1024) by (nonlinear_arith)
                requires
                    span <= 256,
                    cells >= 0,
            ;
            assert(CELL_LIMIT * 1024 <= usize::MAX / 16);
            assert(cells * 1024 <= CELL_LIMIT * 1024) by (nonlinear_arith)
                requires
                    cells <= CELL_LIMIT,
            ;
        }
        let mut distances = CostTable::new(width, height, span);
        let mut heap = Frontier::new();
        let ghost big: int = 9 * distances.capacity() + 20;
        let ghost empty = distances;
        let down = State { cost: 0, coords: start, direction: Direction::Down, steps: 0 };
        let right = State { cost: 0, coords: start, direction: Direction::Right, steps: 0 };
        distances.set(Key::from(down), 0);
        heap.push(down);
        distances.set(Key::from(right), 0);
        heap.push(right);
        proof {
            assert forall|k: Key| distances.covers(k) && !is_seed(start, k) implies #[trigger] distances.best(k)
                is None by {
                assert(empty.best(k) is None);
            }
            assert forall|k: Key| is_seed(start, k) implies #[trigger] distances.best(k) == Some(0u64) by {
                if k.direction == Direction::Down {
                    assert(k == key_of(down));
                } else {
                    assert(k == key_of(right));
                }
            }
            lemma_seeded(*self, start, end, min_step, max_step, distances, heap@);
        }
        loop
            invariant
                self.wf(),
                self.in_bounds((start.0 as int, start.1 as int)),
                table_fits(*self, max_step, distances),
                big == 9 * distances.capacity() + 20,
                distances.capacity() <= usize::MAX / 16,
                entries_ok(distances, heap@),
                reached_ok(*self, start, min_step, max_step, distances),
                seeds_ok(start, distances),
                finish_pending(end, min_step, distances, heap@),
                settled_relaxed(*self, min_step, max_step, distances, heap@),
            decreases 2 * distances.weight(big) + heap@.len(),
        {
            proof {
                distances.lemma_sums(big);
            }
            let ghost f0 = heap@;
            let ghost m0 = 2 * distances.weight(big) + heap@.len();
            let state = match heap.pop_min() {
                Some(s) => s,
                None => {
                    proof {
                        lemma_no_answer(*self, start, end, min_step, max_step, distances, f0);
                    }
                    return None;
                },
            };
            let ghost i = choose|i: int| 0 <= i < f0.len() && f0[i] == state && heap@ == without(f0, i);
            assert(heap@.len() == f0.len() - 1);
            let key = Key::from(state);
            proof {
                reveal(entries_ok);
                assert(key_of(f0[i]) == key);
                assert(distances.covers(key));
                assert(distances.best(key).unwrap() <= state.cost);
                assert(state.cost <= 9 * distances.filled());
            }
            let stale = match distances.get(key) {
                Some(c) => c < state.cost,
                None => true,
            };
            if stale {
                proof {
                    lemma_popped(end, min_step, max_step, *self, distances, f0, i);
                }
                assert(2 * distances.weight(big) + heap@.len() < m0);
                proof {
                    distances.lemma_sums(big);
                }
            } else {
                if state.coords.0 == end.0 && state.coords.1 == end.1 && state.steps >= min_step {
                    proof {
                        assert(state.coords == end);
                        lemma_answer_found(*self, start, end, min_step, max_step, distances, f0, i);
                    }
                    return Some(state.cost);
                }
                proof {
                    lemma_popped(end, min_step, max_step, *self, distances, f0, i);
                }
                let next = self.adjacent(state.coords, state.direction);
                let mut j: usize = 0;
                while j < next.len()
                    invariant
                        self.wf(),
                        self.in_bounds((start.0 as int, start.1 as int)),
                        table_fits(*self, max_step, distances),
                        big == 9 * distances.capacity() + 20,
                        distances.capacity() <= usize::MAX / 16,
                        entries_ok(distances, heap@),
                        reached_ok(*self, start, min_step, max_step, distances),
                        seeds_ok(start, distances),
                        finish_pending(end, min_step, distances, heap@),
                        settled_relaxed_but(*self, min_step, max_step, distances, heap@, key),
                        key == key_of(state),
                        distances.covers(key),
                        distances.best(key) == Some(state.cost),
                        j <= next@.len(),
                        forall|jj: int|
                            0 <= jj < next@.len() ==> {
                                &&& #[trigger] next@[jj].0 != reverse(state.direction)
                                &&& offset(next@[jj].0, state.coords) == (next@[jj].1.0 as int, next@[jj].1.1 as int)
                                &&& self.in_bounds((next@[jj].1.0 as int, next@[jj].1.1 as int))
                            },
                        forall|d: Direction|
                            d != reverse(state.direction) && self.in_bounds(#[trigger] offset(d, state.coords))
                                ==> exists|jj: int| 0 <= jj < next@.len() && next@[jj].0 == d,
                        forall|jj: int|
                            0 <= jj < j ==> relaxed_toward(
                                *self,
                                min_step,
                                max_step,
                                distances,
                                key,
                                #[trigger] next@[jj].0,
                            ),
                        2 * distances.weight(big) + heap@.len() < m0,
                    decreases next@.len() - j,
                {
                    let (next_direction, coords) = next[j];
                    let straight = next_direction == state.direction;
                    let allowed = if straight {
                        state.steps < max_step
                    } else {
                        state.steps >= min_step && 1 <= max_step
                    };
                    if allowed {
                        let steps: u8 = if straight {
                            state.steps + 1
                        } else {
                            1
                        };
                        proof {
                            reveal(reached_ok);
                            distances.lemma_sums(big);
                            assert(state.cost <= 9 * distances.filled());
                            assert(self@[coords.1 as int].len() == self.spec_width());
                            assert(self.cell((coords.0 as int, coords.1 as int)) <= 9);
                            assert(9 * distances.filled() + 9 <= u64::MAX);
                        }
                        let cost = state.cost + self.points[coords.1 as usize][coords.0 as usize] as u64;
                        let next_state = State { cost, coords, direction: next_direction, steps };
                        let next_key = Key::from(next_state);
                        assert(is_move(*self, min_step, max_step, key, next_key));
                        let improves = match distances.get(next_key) {
                            Some(c) => cost < c,
                            None => true,
                        };
                        if improves {
                            let ghost t0 = distances;
                            let ghost h0 = heap@;
                            distances.set(next_key, cost);
                            heap.push(next_state);
                            proof {
                                assert(recorded(t0, h0, distances, heap@, next_key, cost)) by {
                                    reveal(recorded);
                                    assert(heap@[h0.len() as int] == next_state);
                                }
                                lemma_relax(
                                    *self,
                                    start,
                                    end,
                                    min_step,
                                    max_step,
                                    t0,
                                    h0,
                                    distances,
                                    heap@,
                                    key,
                                    next_key,
                                    state.cost,
                                    cost,
                                    big,
                                );
                                assert forall|jj: int| 0 <= jj < j + 1 implies relaxed_toward(
                                    *self,
                                    min_step,
                                    max_step,
                                    distances,
                                    key,
                                    #[trigger] next@[jj].0,
                                ) by {
                                    if jj < j {
                                        lemma_toward_kept(*self, min_step, max_step, t0, distances, key, next@[jj].0);
                                    }
                                }
                            }
                        } else {
                            proof {
                                assert forall|v: Key| #[trigger] is_move(*self, min_step, max_step, key, v)
                                    && v.direction == next_direction implies {
                                    &&& distances.best(v) is Some
                                    &&& distances.best(v).unwrap() <= distances.best(key).unwrap() + self.cell(pos(v))
                                } by {
                                    lemma_move_determined(*self, min_step, max_step, key, next_key, v);
                                }
                                assert(relaxed_toward(*self, min_step, max_step, distances, key, next@[j as int].0));
                            }
                        }
                    } else {
                        proof {
                            assert(relaxed_toward(*self, min_step, max_step, distances, key, next@[j as int].0));
                        }
                    }
                    j += 1;
                }
                proof {
                    lemma_relaxed_all(*self, min_step, max_step, distances, key, next@);
                    lemma_closed_out(*self, min_step, max_step, distances, heap@, key);
                    distances.lemma_sums(big);
                }
                assert(2 * distances.weight(big) + heap@.len() < m0);
            }
        }
    }
}

} // verus!
