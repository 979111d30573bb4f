use vstd::prelude::*;

use crate::model::State;

verus! {

/// The states waiting to be expanded; the cheapest one leaves first.
pub struct Frontier {
    pub entries: Vec<State>,
}

/// The sequence left when the `i`-th entry of `s` is taken out and the last
/// entry moves into its place.
pub open spec fn without(s: Seq<State>, i: int) -> Seq<State> {
    s.update(i, s.last()).drop_last()
}

/// Every entry but the `i`-th stays after `without`, and nothing new comes in.
pub proof fn lemma_without(s: Seq<State>, i: int)
    requires
        0 <= i < s.len(),
    ensures
        without(s, i).len() == s.len() - 1,
        forall|j: int|
            0 <= j < s.len() && j != i ==> exists|m: int|
                0 <= m < without(s, i).len() && without(s, i)[m] == #[trigger] s[j],
        forall|m: int|
            0 <= m < without(s, i).len() ==> exists|j: int|
                0 <= j < s.len() && j != i && s[j] == #[trigger] without(s, i)[m],
{
    let t = without(s, i);
    let last = s.len() - 1;
    assert(t.len() == s.len() - 1);
    assert(forall|m: int| 0 <= m < t.len() ==> #[trigger] t[m] == if m == i { s[last] } else { s[m] });
    assert forall|j: int| 0 <= j < s.len() && j != i implies exists|m: int|
        0 <= m < t.len() && t[m] == #[trigger] s[j] by {
        if j == last {
            assert(t[i] == s[j]);
        } else {
            assert(t[j] == s[j]);
        }
    }
    assert forall|m: int| 0 <= m < t.len() implies exists|j: int|
        0 <= j < s.len() && j != i && s[j] == #[trigger] t[m] by {
        if m == i {
            assert(s[last] == t[m]);
        } else {
            assert(s[m] == t[m]);
        }
    }
}

impl View for Frontier {
    type V = Seq<State>;

    open spec fn view(&self) -> Seq<State> {
        self.entries@
    }
}

impl Frontier {
    pub fn new() -> (r: Frontier)
        ensures
            r@ == Seq::<State>::empty(),
    {
        Frontier { entries: Vec::new() }
    }

    pub fn push(&mut self, state: State)
        ensures
            final(self)@ == old(self)@.push(state),
    {
        self.entries.push(state);
    }

    /// Takes out an entry of least cost; `None` when the frontier is empty.
    pub fn pop_min(&mut self) -> (r: Option<State>)
        ensures
            old(self)@.len() == 0 ==> r is None && final(self)@ == old(self)@,
            old(self)@.len() > 0 ==> r is Some,
            r matches Some(s) ==> {
                &&& exists|i: int|
                    0 <= i < old(self)@.len() && old(self)@[i] == s && final(self)@ == without(
                        old(self)@,
                        i,
                    )
                &&& forall|j: int| 0 <= j < old(self)@.len() ==> s.cost <= #[trigger] old(self)@[j].cost
            },
    {
        let n = self.entries.len();
        if n == 0 {
            return None;
        }
        let mut best: usize = 0;
        let mut j: usize = 1;
        while j < n
            invariant
                n == self.entries@.len(),
                1 <= j <= n,
                best < n,
                forall|m: int| 0 <= m < j ==> self.entries@[best as int].cost <= #[trigger] self.entries@[m].cost,
            decreases n - j,
        {
            if self.entries[j].cost < self.entries[best].cost {
                best = j;
            }
            j += 1;
        }
        let s = self.entries.swap_remove(best);
        Some(s)
    }
}

} // verus!
