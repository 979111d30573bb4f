use vstd::prelude::*;

use crate::direction::{lemma_ordinal_injective, ordinal};
use crate::model::Key;

verus! {

/// How many entries of `s` hold a cost.
pub open spec fn count_filled(s: Seq<Option<u64>>) -> nat
    decreases s.len(),
{
    if s.len() == 0 {
        0
    } else {
        count_filled(s.drop_last()) + if s.last() is Some { 1nat } else { 0nat }
    }
}

/// What one entry adds to the table's weight: one more than its cost, or `big`
/// where it holds none.
pub open spec fn entry_weight(e: Option<u64>, big: int) -> int {
    match e {
        Some(c) => c + 1,
        None => big,
    }
}

/// The sum of the weights of the entries of `s`.
pub open spec fn total_weight(s: Seq<Option<u64>>, big: int) -> int
    decreases s.len(),
{
    if s.len() == 0 {
        0
    } else {
        total_weight(s.drop_last(), big) + entry_weight(s.last(), big)
    }
}

proof fn lemma_update_sums(s: Seq<Option<u64>>, i: int, v: Option<u64>, big: int)
    requires
        0 <= i < s.len(),
    ensures
        count_filled(s.update(i, v)) == count_filled(s) - (if s[i] is Some { 1int } else { 0int }) + (
        if v is Some { 1int } else { 0int }),
        total_weight(s.update(i, v), big) == total_weight(s, big) - entry_weight(s[i], big)
            + entry_weight(v, big),
    decreases s.len(),
{
    let t = s.update(i, v);
    if i == s.len() - 1 {
        assert(t.drop_last() =~= s.drop_last());
    } else {
        assert(t.drop_last() =~= s.drop_last().update(i, v));
        lemma_update_sums(s.drop_last(), i, v, big);
    }
}

proof fn lemma_sums_bounds(s: Seq<Option<u64>>, big: int)
    requires
        big >= 0,
    ensures
        count_filled(s) <= s.len(),
        total_weight(s, big) >= 0,
    decreases s.len(),
{
    if s.len() > 0 {
        lemma_sums_bounds(s.drop_last(), big);
    }
}

proof fn lemma_all_empty(s: Seq<Option<u64>>, big: int)
    requires
        forall|i: int| 0 <= i < s.len() ==> s[i] is None,
    ensures
        count_filled(s) == 0,
        total_weight(s, big) == s.len() * big,
    decreases s.len(),
{
    if s.len() > 0 {
        lemma_all_empty(s.drop_last(), big);
        assert(total_weight(s, big) == (s.len() - 1) * big + big);
        assert((s.len() - 1) * big + big == s.len() * big) by (nonlinear_arith);
    }
}

/// Digits in a mixed radix: a value below `m` after a multiple of `m` is told
/// apart from every other such pair.
proof fn lemma_radix_injective(a: int, s: int, b: int, t: int, m: int)
    requires
        m > 0,
        0 <= s < m,
        0 <= t < m,
        a >= 0,
        b >= 0,
        a * m + s == b * m + t,
    ensures
        a == b,
        s == t,
{
    if a < b {
        assert((b - a) * m >= m) by (nonlinear_arith)
            requires
                b - a >= 1,
                m > 0,
        ;
        assert(b * m - a * m == (b - a) * m) by (nonlinear_arith);
    } else if b < a {
        assert((a - b) * m >= m) by (nonlinear_arith)
            requires
                a - b >= 1,
                m > 0,
        ;
        assert(a * m - b * m == (a - b) * m) by (nonlinear_arith);
    }
}

proof fn lemma_radix_bound(a: int, s: int, n: int, m: int)
    requires
        0 <= a < n,
        0 <= s < m,
    ensures
        0 <= a * m + s < n * m,
{
    assert(0 <= a * m) by (nonlinear_arith)
        requires
            a >= 0,
            m > 0,
    ;
    assert(a * m + m <= n * m) by (nonlinear_arith)
        requires
            a + 1 <= n,
            m > 0,
    ;
}

/// The best cost known so far for each node of the search graph over a
/// `width` by `height` grid whose streaks stay below `span`.
pub struct CostTable {
    pub costs: Vec<Option<u64>>,
    pub width: usize,
    pub height: usize,
    pub span: usize,
}

impl CostTable {
    /// Whether `k` has an entry in the table.
    pub open spec fn covers(&self, k: Key) -> bool {
        &&& 0 <= k.coords.0 < self.width
        &&& 0 <= k.coords.1 < self.height
        &&& k.steps < self.span
    }

    pub open spec fn slot(&self, k: Key) -> int {
        ((k.coords.1 * self.width + k.coords.0) * 4 + ordinal(k.direction)) * self.span + k.steps
    }

    pub open spec fn capacity(&self) -> int {
        self.height * self.width * 4 * self.span
    }

    pub open spec fn wf(&self) -> bool {
        &&& self.span >= 1
        &&& self.costs@.len() == self.capacity()
    }

    /// The best cost recorded for `k`.
    pub open spec fn best(&self, k: Key) -> Option<u64> {
        self.costs@[self.slot(k)]
    }

    /// How many nodes have a recorded cost.
    pub open spec fn filled(&self) -> nat {
        count_filled(self.costs@)
    }

    pub open spec fn weight(&self, big: int) -> int {
        total_weight(self.costs@, big)
    }

    pub proof fn lemma_slot(&self, k: Key)
        requires
            self.wf(),
            self.covers(k),
        ensures
            0 <= self.slot(k) < self.capacity(),
    {
        let w = self.width as int;
        let h = self.height as int;
        lemma_radix_bound(k.coords.1 as int, k.coords.0 as int, h, w);
        lemma_ordinal_injective(k.direction, k.direction);
        lemma_radix_bound(k.coords.1 * w + k.coords.0, ordinal(k.direction), h * w, 4);
        lemma_radix_bound(
            (k.coords.1 * w + k.coords.0) * 4 + ordinal(k.direction),
            k.steps as int,
            h * w * 4,
            self.span as int,
        );
    }

    pub proof fn lemma_slot_injective(&self, a: Key, b: Key)
        requires
            self.wf(),
            self.covers(a),
            self.covers(b),
            self.slot(a) == self.slot(b),
        ensures
            a == b,
    {
        let w = self.width as int;
        lemma_ordinal_injective(a.direction, b.direction);
        lemma_ordinal_injective(b.direction, a.direction);
        let ca = a.coords.1 * w + a.coords.0;
        let cb = b.coords.1 * w + b.coords.0;
        lemma_radix_bound(a.coords.1 as int, a.coords.0 as int, self.height as int, w);
        lemma_radix_bound(b.coords.1 as int, b.coords.0 as int, self.height as int, w);
        lemma_radix_bound(ca, ordinal(a.direction), self.height * w, 4);
        lemma_radix_bound(cb, ordinal(b.direction), self.height * w, 4);
        lemma_radix_injective(
            ca * 4 + ordinal(a.direction),
            a.steps as int,
            cb * 4 + ordinal(b.direction),
            b.steps as int,
            self.span as int,
        );
        lemma_radix_injective(ca, ordinal(a.direction), cb, ordinal(b.direction), 4);
        lemma_radix_injective(
            a.coords.1 as int,
            a.coords.0 as int,
            b.coords.1 as int,
            b.coords.0 as int,
            w,
        );
    }

    pub proof fn lemma_sums(&self, big: int)
        requires
            self.wf(),
            big >= 0,
        ensures
            self.filled() <= self.capacity(),
            self.weight(big) >= 0,
    {
        lemma_sums_bounds(self.costs@, big);
    }

    /// An empty table for a `width` by `height` grid with streaks below `span`.
    pub fn new(width: usize, height: usize, span: usize) -> (r: CostTable)
        requires
            span >= 1,
            height * width * 4 * span <= usize::MAX,
        ensures
            r.wf(),
            r.width == width,
            r.height == height,
            r.span == span,
            forall|k: Key| r.covers(k) ==> #[trigger] r.best(k) is None,
            r.filled() == 0,
            forall|big: int| #[trigger] r.weight(big) == r.capacity() * big,
    {
        proof {
            assert(height * width <= height * width * 4 * span) by (nonlinear_arith)
                requires
                    span >= 1,
            ;
            assert(height * width * 4 <= height * width * 4 * span) by (nonlinear_arith)
                requires
                    span >= 1,
            ;
        }
        let capacity = height * width * 4 * span;
        let mut costs: Vec<Option<u64>> = Vec::new();
        let mut i: usize = 0;
        while i < capacity
            invariant
                i <= capacity,
                costs@.len() == i,
                forall|j: int| 0 <= j < i ==> costs@[j] is None,
            decreases capacity - i,
        {
            costs.push(None);
            i += 1;
        }
        let r = CostTable { costs, width, height, span };
        proof {
            assert forall|k: Key| r.covers(k) implies #[trigger] r.best(k) is None by {
                r.lemma_slot(k);
            }
            assert forall|big: int| #[trigger] r.weight(big) == r.capacity() * big by {
                lemma_all_empty(r.costs@, big);
            }
            lemma_all_empty(r.costs@, 0);
        }
        r
    }

    /// The position of `k`'s entry.
    pub fn slot_of(&self, k: Key) -> (r: usize)
        requires
            self.wf(),
            self.covers(k),
        ensures
            r == self.slot(k),
            r < self.capacity(),
    {
        let n = self.costs.len();
        proof {
            self.lemma_slot(k);
            let w = self.width as int;
            lemma_radix_bound(k.coords.1 as int, k.coords.0 as int, self.height as int, w);
            lemma_radix_bound(k.coords.1 * w + k.coords.0, ordinal(k.direction), self.height * w, 4);
            assert(self.height * w * 4 <= self.capacity()) by (nonlinear_arith)
                requires
                    self.span >= 1,
                    self.height * w * 4 >= 0,
                    self.capacity() == self.height * w * 4 * self.span,
            ;
            assert(self.height * w <= self.height * w * 4);
        }
        let cell = k.coords.1 as usize * self.width + k.coords.0 as usize;
        let lane = cell * 4 + k.direction.index();
        lane * self.span + k.steps as usize
    }

    /// The best cost recorded for `k`.
    pub fn get(&self, k: Key) -> (r: Option<u64>)
        requires
            self.wf(),
            self.covers(k),
        ensures
            r == self.best(k),
    {
        let i = self.slot_of(k);
        self.costs[i]
    }

    /// Records `cost` as the best cost for `k`.
    pub fn set(&mut self, k: Key, cost: u64)
        requires
            old(self).wf(),
            old(self).covers(k),
        ensures
            final(self).wf(),
            final(self).width == old(self).width,
            final(self).height == old(self).height,
            final(self).span == old(self).span,
            final(self).best(k) == Some(cost),
            forall|o: Key|
                old(self).covers(o) && o != k ==> #[trigger] final(self).best(o) == old(self).best(o),
            final(self).filled() == old(self).filled() + (if old(self).best(k) is None {
                1int
            } else {
                0int
            }),
            forall|big: int|
                #[trigger] final(self).weight(big) == old(self).weight(big) - entry_weight(
                    old(self).best(k),
                    big,
                ) + cost + 1,
    {
        let i = self.slot_of(k);
        let ghost before = *self;
        self.costs.set(i, Some(cost));
        proof {
            assert forall|o: Key| before.covers(o) && o != k implies #[trigger] self.best(o)
                == before.best(o) by {
                before.lemma_slot(o);
                if before.slot(o) == before.slot(k) {
                    before.lemma_slot_injective(o, k);
                }
            }
            assert forall|big: int| #[trigger] self.weight(big) == before.weight(big) - entry_weight(
                before.best(k),
                big,
            ) + cost + 1 by {
                lemma_update_sums(before.costs@, i as int, Some(cost), big);
            }
            lemma_update_sums(before.costs@, i as int, Some(cost), 0);
        }
    }
}

} // verus!
