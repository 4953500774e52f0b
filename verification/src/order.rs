//! The order in which the tasks of a graph are to run, as mathematics.
//!
//! A graph is a list of tasks with distinct names; a task is spoken of by
//! its position in the list, which is the order in which the tasks came in.
//! The order of a run is found by peeling: again and again the task is
//! taken whose dependencies have all been taken already, and among several
//! such tasks the one that came into the graph first.  Where tasks are left
//! and none of them can be taken, the graph has a cycle.

use vstd::prelude::*;
use crate::count::{below, lemma_distinct_below};
use crate::task::TaskView;
use crate::text::distinct;

verus! {

/// Task `i` of the graph names task `j` among its dependencies.
pub open spec fn depends_on(g: Seq<TaskView>, i: int, j: int) -> bool {
    &&& 0 <= i < g.len()
    &&& 0 <= j < g.len()
    &&& g[i].dependencies.contains(g[j].name)
}

/// Task `i` has not been taken and every dependency of it has been.
pub open spec fn ready(g: Seq<TaskView>, done: Seq<int>, i: int) -> bool {
    &&& 0 <= i < g.len()
    &&& !done.contains(i)
    &&& forall|j: int| #[trigger] depends_on(g, i, j) ==> done.contains(j)
}

/// Task `i` is the first, in the order of the graph, that is ready.
pub open spec fn first_ready(g: Seq<TaskView>, done: Seq<int>, i: int) -> bool {
    &&& ready(g, done, i)
    &&& forall|k: int| 0 <= k < i ==> !ready(g, done, k)
}

/// The tasks taken when peeling goes on from `done` until no task is ready.
pub open spec fn peel(g: Seq<TaskView>, done: Seq<int>) -> Seq<int>
    decreases g.len() - done.len(),
{
    if done.len() < g.len() && exists|i: int| first_ready(g, done, i) {
        peel(g, done.push(choose|i: int| first_ready(g, done, i)))
    } else {
        done
    }
}

/// The order in which the tasks of the graph are taken, where peeling takes
/// them all.
pub open spec fn topological_order(g: Seq<TaskView>) -> Option<Seq<int>> {
    let order = peel(g, Seq::empty());
    if order.len() == g.len() {
        Some(order)
    } else {
        None
    }
}

/// `x` stands in `s` at a position before `k`.
pub open spec fn occurs_before(s: Seq<int>, x: int, k: int) -> bool {
    exists|m: int| 0 <= m < k && m < s.len() && s[m] == x
}

/// `done` is the start of an order: it names tasks of the graph, none
/// twice, and each after all of its dependencies.
pub open spec fn orderly(g: Seq<TaskView>, done: Seq<int>) -> bool {
    &&& below(done, g.len() as int)
    &&& distinct(done)
    &&& forall|k: int, j: int|
        0 <= k < done.len() && #[trigger] depends_on(g, done[k], j) ==> occurs_before(done, j, k)
}

/// `order` holds every task of the graph once, each after all of its
/// dependencies.
pub open spec fn is_topological(g: Seq<TaskView>, order: Seq<int>) -> bool {
    &&& orderly(g, order)
    &&& order.len() == g.len()
    &&& forall|i: int| 0 <= i < g.len() ==> order.contains(i)
}

/// The first ready task is the one that peeling takes next.
pub proof fn lemma_next(g: Seq<TaskView>, done: Seq<int>, i: int)
    requires
        first_ready(g, done, i),
    ensures
        (choose|k: int| first_ready(g, done, k)) == i,
{
    let k = choose|k: int| first_ready(g, done, k);
    assert(first_ready(g, done, k));
    if k < i {
        assert(!ready(g, done, k));
    }
    if i < k {
        assert(!ready(g, done, i));
    }
}

/// Taking a ready task keeps the start of an order orderly.
pub proof fn lemma_take(g: Seq<TaskView>, done: Seq<int>, i: int)
    requires
        orderly(g, done),
        ready(g, done, i),
    ensures
        orderly(g, done.push(i)),
        done.len() < g.len(),
{
    let next = done.push(i);
    assert(distinct(next)) by {
        assert forall|a: int, b: int| 0 <= a < b < next.len() implies next[a] != next[b] by {
            if b == done.len() {
                assert(done.contains(done[a]));
            } else {
                assert(done[a] != done[b]);
            }
        }
    }
    assert(below(next, g.len() as int)) by {
        assert forall|k: int| 0 <= k < next.len() implies 0 <= #[trigger] next[k] < g.len() by {
            if k < done.len() {
                assert(next[k] == done[k]);
            }
        }
    }
    assert forall|k: int, j: int|
        0 <= k < next.len() && #[trigger] depends_on(g, next[k], j) implies occurs_before(
        next,
        j,
        k,
    ) by {
        if k < done.len() {
            assert(next[k] == done[k]);
            assert(occurs_before(done, j, k));
            let m = choose|m: int| 0 <= m < k && m < done.len() && done[m] == j;
            assert(next[m] == j);
        } else {
            assert(done.contains(j));
            let m = choose|m: int| 0 <= m < done.len() && done[m] == j;
            assert(next[m] == j);
        }
    }
    lemma_distinct_below(next, g.len() as int);
}

/// Peeling from an orderly start gives an orderly list that begins with
/// that start, and at its end no task is ready.
pub proof fn lemma_peel(g: Seq<TaskView>, done: Seq<int>)
    requires
        orderly(g, done),
    ensures
        orderly(g, peel(g, done)),
        done.len() <= peel(g, done).len(),
        peel(g, done).take(done.len() as int) == done,
        forall|i: int| !ready(g, peel(g, done), i),
    decreases g.len() - done.len(),
{
    if exists|i: int| first_ready(g, done, i) {
        let i = choose|i: int| first_ready(g, done, i);
        lemma_take(g, done, i);
        lemma_peel(g, done.push(i));
        assert(peel(g, done).take(done.len() as int) =~= done) by {
            let grown = peel(g, done.push(i));
            let start = grown.take(done.len() as int + 1);
            assert(start == done.push(i));
            assert forall|k: int| 0 <= k < done.len() implies grown[k] == done[k] by {
                assert(start[k] == done.push(i)[k]);
            }
        }
    } else {
        assert(peel(g, done) == done);
        assert(done.take(done.len() as int) =~= done);
        assert forall|i: int| !ready(g, done, i) by {
            if ready(g, done, i) {
                lemma_least_ready(g, done, i);
            }
        }
    }
}

/// Where some task at or before `i` is ready, there is a first ready task.
pub proof fn lemma_least_ready(g: Seq<TaskView>, done: Seq<int>, i: int)
    requires
        ready(g, done, i),
    ensures
        exists|k: int| first_ready(g, done, k),
    decreases i,
{
    if exists|k: int| 0 <= k < i && ready(g, done, k) {
        let k = choose|k: int| 0 <= k < i && ready(g, done, k);
        lemma_least_ready(g, done, k);
    } else {
        assert(first_ready(g, done, i));
    }
}

/// The order that peeling gives, where it takes every task, holds every
/// task once, each after all of its dependencies.
pub proof fn lemma_topological(g: Seq<TaskView>)
    ensures
        topological_order(g) matches Some(order) ==> is_topological(g, order),
{
    let none = Seq::<int>::empty();
    assert(orderly(g, none));
    lemma_peel(g, none);
    let order = peel(g, none);
    if order.len() == g.len() {
        lemma_distinct_below(order, g.len() as int);
        assert forall|i: int| 0 <= i < g.len() implies order.contains(i) by {
            if !order.contains(i) {
                assert(exists|p: int| 0 <= p < g.len() && !order.contains(p));
            }
        }
    }
}

} // verus!
