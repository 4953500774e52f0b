//! The dependency graph: the tasks of a run, each under its name, in the
//! order in which they came in.

use vstd::prelude::*;
use vstd::pervasive::unreached;
use crate::count::{below, lemma_distinct_below};
use crate::error::{Error, ErrorView};
use crate::freshness::{is_up_to_date, Snapshot};
use crate::order::{
    depends_on, first_ready, lemma_next, lemma_take, lemma_topological, orderly, peel, ready,
    topological_order,
};
use crate::schedule::{
    keeps, lemma_marks, lemma_schedule_runnable, marks, pick, schedule_of, stale, tasks_at,
    Schedule,
};
use crate::task::{copy_tasks, names, position_of, task_views, Task, TaskView};
use crate::text::{contains_text, distinct, find_first, lemma_find_first, owned, texts};

verus! {

/// A task named `a` of the graph depends on a task named `b` of the graph.
pub open spec fn link(g: Seq<TaskView>, a: Seq<char>, b: Seq<char>) -> bool {
    exists|i: int, j: int| #[trigger] depends_on(g, i, j) && g[i].name == a && g[j].name == b
}

/// `path` is a cycle of the graph: it starts and ends with the same name,
/// and each of its names depends on the one after it.
pub open spec fn cycle_in(g: Seq<TaskView>, path: Seq<Seq<char>>) -> bool {
    &&& path.len() >= 2
    &&& path[0] == path.last()
    &&& forall|q: int| 0 <= q < path.len() - 1 ==> link(g, #[trigger] path[q], path[q + 1])
}

/// The graph has no cycle.
pub open spec fn acyclic(g: Seq<TaskView>) -> bool {
    forall|path: Seq<Seq<char>>| !cycle_in(g, path)
}

/// Each task of the walk depends on the one after it.
pub open spec fn is_walk(g: Seq<TaskView>, walk: Seq<int>) -> bool {
    forall|q: int| 0 <= q < walk.len() - 1 ==> depends_on(g, #[trigger] walk[q], walk[q + 1])
}

/// In an order that holds each task after all that it depends on, every
/// later task of a walk stands before the first task of the walk.
proof fn lemma_walk_falls(g: Seq<TaskView>, order: Seq<int>, walk: Seq<int>, q: int)
    requires
        crate::order::is_topological(g, order),
        is_walk(g, walk),
        1 <= q < walk.len(),
    ensures
        exists|a: int, b: int|
            0 <= b < a < order.len() && #[trigger] order[a] == walk[0] && #[trigger] order[b]
                == walk[q],
    decreases q,
{
    assert(depends_on(g, walk[q - 1], walk[q]));
    assert(order.contains(walk[q - 1]));
    let k = choose|k: int| 0 <= k < order.len() && order[k] == walk[q - 1];
    assert(depends_on(g, order[k], walk[q]));
    assert(crate::order::occurs_before(order, walk[q], k));
    let m = choose|m: int| 0 <= m < k && m < order.len() && order[m] == walk[q];
    if q >= 2 {
        lemma_walk_falls(g, order, walk, q - 1);
        let (a, b) = choose|a: int, b: int|
            0 <= b < a < order.len() && #[trigger] order[a] == walk[0] && #[trigger] order[b]
                == walk[q - 1];
        if b != k {
            if b < k {
                assert(order[b] != order[k]);
            } else {
                assert(order[k] != order[b]);
            }
        }
        assert(order[a] == walk[0] && order[m] == walk[q]);
    } else {
        assert(order[k] == walk[0] && order[m] == walk[q]);
    }
}

/// A graph whose tasks can all be taken by peeling has no cycle.
pub proof fn lemma_sorted_is_acyclic(g: Seq<TaskView>)
    requires
        distinct(names(g)),
        topological_order(g) is Some,
    ensures
        acyclic(g),
{
    lemma_topological(g);
    let order = topological_order(g).unwrap();
    assert forall|path: Seq<Seq<char>>| !cycle_in(g, path) by {
        if cycle_in(g, path) {
            let walk = Seq::new(
                path.len(),
                |q: int| choose|i: int| 0 <= i < g.len() && g[i].name == path[q],
            );
            assert forall|q: int| 0 <= q < path.len() implies 0 <= #[trigger] walk[q] < g.len()
                && g[walk[q]].name == path[q] by {
                if q < path.len() - 1 {
                    assert(link(g, path[q], path[q + 1]));
                    let (i, j) = choose|i: int, j: int| #[trigger]
                        depends_on(g, i, j) && g[i].name == path[q] && g[j].name == path[q + 1];
                    assert(0 <= i < g.len() && g[i].name == path[q]);
                } else {
                    assert(link(g, path[q - 1], path[q - 1 + 1]));
                    let (i, j) = choose|i: int, j: int| #[trigger]
                        depends_on(g, i, j) && g[i].name == path[q - 1] && g[j].name == path[q - 1
                            + 1];
                    assert(0 <= j < g.len() && g[j].name == path[q]);
                }
            }
            assert forall|q: int| 0 <= q < walk.len() - 1 implies depends_on(
                g,
                #[trigger] walk[q],
                walk[q + 1],
            ) by {
                assert(link(g, path[q], path[q + 1]));
                let (i, j) = choose|i: int, j: int| #[trigger]
                    depends_on(g, i, j) && g[i].name == path[q] && g[j].name == path[q + 1];
                lemma_same_name(g, i, walk[q]);
                lemma_same_name(g, j, walk[q + 1]);
            }
            lemma_walk_falls(g, order, walk, walk.len() - 1);
            let (a, b) = choose|a: int, b: int|
                0 <= b < a < order.len() && #[trigger] order[a] == walk[0] && #[trigger] order[b]
                    == walk[walk.len() - 1];
            lemma_same_name(g, walk[0], walk[walk.len() - 1]);
            assert(order[b] != order[a]);
        }
    }
}

/// In a graph of distinct names, tasks of the same name are the same
/// task.
proof fn lemma_same_name(g: Seq<TaskView>, i: int, j: int)
    requires
        distinct(names(g)),
        0 <= i < g.len(),
        0 <= j < g.len(),
        g[i].name == g[j].name,
    ensures
        i == j,
{
    assert(names(g)[i] == g[i].name);
    assert(names(g)[j] == g[j].name);
    if i < j {
        assert(names(g)[i] != names(g)[j]);
    }
    if j < i {
        assert(names(g)[j] != names(g)[i]);
    }
}

/// The indices of a list, as mathematical integers.
pub open spec fn ints(v: Seq<usize>) -> Seq<int> {
    Seq::new(v.len(), |k: int| v[k] as int)
}

/// `flags` says of each task whether it stands in `done`.
pub open spec fn flagged(flags: Seq<bool>, done: Seq<int>, n: int) -> bool {
    &&& flags.len() == n
    &&& forall|i: int| 0 <= i < n ==> #[trigger] flags[i] == done.contains(i)
}

/// A task of the list that task `i` depends on and that is not flagged, if
/// there is one.
pub(crate) fn blocker(tasks: &Vec<Task>, taken: &Vec<bool>, i: usize) -> (r: Option<usize>)
    requires
        distinct(names(task_views(tasks@))),
        i < tasks@.len(),
        taken@.len() == tasks@.len(),
    ensures
        match r {
            Some(j) => depends_on(task_views(tasks@), i as int, j as int) && !taken@[j as int],
            None => forall|j: int| #[trigger]
                depends_on(task_views(tasks@), i as int, j) ==> taken@[j],
        },
{
    let deps = tasks[i].dependencies();
    let ghost g = task_views(tasks@);
    let mut q: usize = 0;
    while q < deps.len()
        invariant
            q <= deps.len(),
            distinct(names(g)),
            g == task_views(tasks@),
            i < g.len(),
            taken@.len() == g.len(),
            texts(deps@) == g[i as int].dependencies,
            forall|p: int, j: int|
                0 <= p < q && 0 <= j < g.len() && #[trigger] g[j].name == #[trigger] texts(
                    deps@,
                )[p] ==> taken@[j],
        decreases deps.len() - q,
    {
        if let Some(j) = position_of(tasks, &deps[q]) {
            assert(names(g)[j as int] == g[j as int].name);
            assert(g[j as int].name == texts(deps@)[q as int]);
            if !taken[j] {
                return Some(j);
            }
            assert forall|k: int|
                0 <= k < g.len() && #[trigger] g[k].name == texts(deps@)[q as int] implies taken@[k] by {
                assert(names(g)[k] == g[k].name);
                if k < j {
                    assert(names(g)[k] != names(g)[j as int]);
                }
                if j < k {
                    assert(names(g)[j as int] != names(g)[k]);
                }
            }
        } else {
            assert forall|k: int|
                0 <= k < g.len() && #[trigger] g[k].name == texts(deps@)[q as int] implies taken@[k] by {
                assert(names(g)[k] == g[k].name);
                assert(names(g).contains(g[k].name));
            }
        }
        q = q + 1;
    }
    assert forall|j: int| #[trigger] depends_on(g, i as int, j) implies taken@[j] by {
        let p = choose|p: int|
            0 <= p < g[i as int].dependencies.len() && g[i as int].dependencies[p] == g[j].name;
        assert(texts(deps@)[p] == g[j].name);
    }
    None
}

/// The tasks of a run, each under its name.  No two tasks of a graph have
/// the same name.
#[derive(Debug)]
pub struct Graph {
    nodes: Vec<Task>,
}

impl View for Graph {
    type V = Seq<TaskView>;

    closed spec fn view(&self) -> Seq<TaskView> {
        task_views(self.nodes@)
    }
}

impl Graph {
    /// The invariant of a graph: no two tasks have the same name.
    pub open spec fn wf(&self) -> bool {
        distinct(names(self@))
    }

    /// A graph without tasks.
    pub fn new() -> (out: Graph)
        ensures
            out.wf(),
            out@ == Seq::<TaskView>::empty(),
    {
        let out = Graph { nodes: Vec::new() };
        assert(out@ =~= Seq::<TaskView>::empty());
        out
    }

    /// The number of tasks.
    pub fn len(&self) -> (n: usize)
        ensures
            n == self@.len(),
    {
        self.nodes.len()
    }

    /// Whether a task of that name is in the graph.
    pub fn contains(&self, name: &str) -> (r: bool)
        ensures
            r == names(self@).contains(name@),
    {
        let key = owned(name);
        position_of(&self.nodes, &key).is_some()
    }

    /// The task of that name, where the graph has one.
    pub fn get(&self, name: &str) -> (r: Option<Task>)
        ensures
            match r {
                Some(task) => find_first(names(self@), name@) matches Some(i) && task@ == self@[i],
                None => !names(self@).contains(name@),
            },
    {
        let key = owned(name);
        proof {
            lemma_find_first(names(self@), name@);
        }
        match position_of(&self.nodes, &key) {
            Some(i) => Some(self.nodes[i].clone()),
            None => None,
        }
    }

    /// The tasks of the graph, in the order in which they came in.
    pub fn tasks(&self) -> (out: Vec<Task>)
        ensures
            task_views(out@) == self@,
    {
        copy_tasks(&self.nodes)
    }

    /// Puts a task into the graph, after the tasks that are there.  Where
    /// the graph has a task of that name already, nothing changes and the
    /// answer is `false`.
    pub fn insert(&mut self, task: Task) -> (r: bool)
        requires
            old(self).wf(),
        ensures
            final(self).wf(),
            r == !names(old(self)@).contains(task@.name),
            final(self)@ == if r {
                old(self)@.push(task@)
            } else {
                old(self)@
            },
    {
        if position_of(&self.nodes, task.name()).is_some() {
            return false;
        }
        proof {
            crate::registry::lemma_push_keeps_distinct(self@, task@);
        }
        self.nodes.push(task);
        assert(self@ =~= old(self)@.push(task@));
        true
    }

    /// A cycle among the tasks that have not been taken, found by walking
    /// from `start` along dependencies that have not been taken either.
    fn cycle_from(&self, taken: &Vec<bool>, start: usize, Ghost(done): Ghost<Seq<int>>) -> (path:
        Vec<String>)
        requires
            self.wf(),
            start < self@.len(),
            flagged(taken@, done, self@.len() as int),
            !taken@[start as int],
            forall|i: int| !ready(self@, done, i),
        ensures
            cycle_in(self@, texts(path@)),
    {
        let n = self.nodes.len();
        let ghost g = self@;
        let mut seen: Vec<bool> = Vec::new();
        let mut k: usize = 0;
        while k < n
            invariant
                k <= n,
                seen@.len() == k,
                forall|i: int| 0 <= i < k ==> !seen@[i],
            decreases n - k,
        {
            seen.push(false);
            k = k + 1;
        }
        let mut walk: Vec<usize> = Vec::new();
        let mut cur: usize = start;
        loop
            invariant
                self.wf(),
                g == self@,
                n == g.len(),
                flagged(taken@, done, n as int),
                forall|i: int| !ready(g, done, i),
                cur < n,
                !taken@[cur as int],
                flagged(seen@, ints(walk@), n as int),
                distinct(ints(walk@)),
                below(ints(walk@), n as int),
                forall|q: int|
                    0 <= q < walk@.len() - 1 ==> #[trigger] depends_on(
                        g,
                        walk@[q] as int,
                        walk@[q + 1] as int,
                    ),
                walk@.len() > 0 ==> depends_on(g, walk@[walk@.len() - 1] as int, cur as int),
            decreases n - walk@.len(),
        {
            if seen[cur] {
                assert(ints(walk@).contains(cur as int));
                proof {
                    lemma_distinct_below(ints(walk@), n as int);
                    let q = choose|q: int| 0 <= q < walk@.len() && ints(walk@)[q] == cur;
                    assert(walk@[q] == cur);
                    assert forall|p: int| 0 <= p < walk@.len() implies 0 <= #[trigger] walk@[p]
                        < n by {
                        assert(ints(walk@)[p] == walk@[p]);
                    }
                }
                let mut at: usize = 0;
                while walk[at] != cur
                    invariant
                        at < walk@.len() <= n,
                        exists|q: int| at <= q < walk@.len() && walk@[q] == cur,
                    decreases walk@.len() - at,
                {
                    at = at + 1;
                }
                let mut path: Vec<String> = Vec::new();
                let mut q: usize = at;
                while q < walk.len()
                    invariant
                        at <= q <= walk@.len(),
                        walk@.len() <= n,
                        n == self.nodes@.len(),
                        g == self@,
                        path@.len() == q - at,
                        forall|p: int|
                            0 <= p < path@.len() ==> #[trigger] path@[p]@ == g[walk@[at + p] as int].name,
                        forall|p: int| 0 <= p < walk@.len() ==> 0 <= #[trigger] walk@[p] < n,
                    decreases walk@.len() - q,
                {
                    path.push(self.nodes[walk[q]].name().clone());
                    q = q + 1;
                }
                path.push(self.nodes[cur].name().clone());
                let ghost names_on = texts(path@);
                assert forall|p: int| 0 <= p < names_on.len() - 1 implies link(
                    g,
                    #[trigger] names_on[p],
                    names_on[p + 1],
                ) by {
                    let from = walk@[at + p] as int;
                    if at + p + 1 < walk@.len() {
                        assert(depends_on(g, from, walk@[at + p + 1] as int));
                    } else {
                        assert(depends_on(g, from, cur as int));
                    }
                }
                return path;
            }
            proof {
                let longer = ints(walk@).push(cur as int);
                assert(!ints(walk@).contains(cur as int));
                assert(distinct(longer)) by {
                    assert forall|a: int, b: int| 0 <= a < b < longer.len() implies longer[a]
                        != longer[b] by {
                        if b == walk@.len() {
                            assert(ints(walk@).contains(ints(walk@)[a]));
                        } else {
                            assert(ints(walk@)[a] != ints(walk@)[b]);
                        }
                    }
                }
                assert(below(longer, n as int)) by {
                    assert forall|a: int| 0 <= a < longer.len() implies 0 <= #[trigger] longer[a]
                        < n by {
                        if a < walk@.len() {
                            assert(longer[a] == ints(walk@)[a]);
                        }
                    }
                }
                lemma_distinct_below(longer, n as int);
            }
            let ghost before = ints(walk@);
            seen.set(cur, true);
            walk.push(cur);
            assert(ints(walk@) =~= before.push(cur as int));
            assert(flagged(seen@, ints(walk@), n as int)) by {
                assert forall|i: int| 0 <= i < n implies #[trigger] seen@[i] == ints(
                    walk@,
                ).contains(i) by {
                    if i == cur {
                        assert(ints(walk@)[walk@.len() - 1] == i);
                    } else if before.contains(i) {
                        let a = choose|a: int| 0 <= a < before.len() && before[a] == i;
                        assert(ints(walk@)[a] == i);
                    } else if ints(walk@).contains(i) {
                        let a = choose|a: int| 0 <= a < walk@.len() && ints(walk@)[a] == i;
                        assert(before[a] == i);
                    }
                }
            }
            match blocker(&self.nodes, taken, cur) {
                Some(next) => {
                    cur = next;
                },
                None => {
                    proof {
                        assert(!done.contains(cur as int));
                        assert forall|j: int| #[trigger]
                            depends_on(g, cur as int, j) implies done.contains(j) by {
                            assert(taken@[j]);
                        }
                        assert(ready(g, done, cur as int));
                    }
                    return unreached();
                },
            }
        }
    }

    /// The order of a run of all tasks, found by peeling, or the cycle that
    /// stops the peeling.
    fn sort(&self) -> (r: Result<Vec<usize>, Vec<String>>)
        requires
            self.wf(),
        ensures
            match r {
                Ok(order) => topological_order(self@) == Some(ints(order@)),
                Err(path) => topological_order(self@) is None && cycle_in(self@, texts(path@)),
            },
    {
        let n = self.nodes.len();
        let ghost g = self@;
        let mut taken: Vec<bool> = Vec::new();
        let mut k: usize = 0;
        while k < n
            invariant
                k <= n,
                taken@.len() == k,
                forall|i: int| 0 <= i < k ==> !taken@[i],
            decreases n - k,
        {
            taken.push(false);
            k = k + 1;
        }
        let mut order: Vec<usize> = Vec::new();
        assert(ints(order@) =~= Seq::<int>::empty());
        loop
            invariant
                self.wf(),
                g == self@,
                n == g.len(),
                flagged(taken@, ints(order@), n as int),
                orderly(g, ints(order@)),
                peel(g, Seq::empty()) == peel(g, ints(order@)),
            decreases n - order@.len(),
        {
            let ghost done = ints(order@);
            let mut found: Option<usize> = None;
            let mut pending: Option<usize> = None;
            let mut i: usize = 0;
            while i < n && found.is_none()
                invariant
                    self.wf(),
                    g == self@,
                    n == g.len(),
                    i <= n,
                    done == ints(order@),
                    flagged(taken@, done, n as int),
                    match found {
                        Some(f) => first_ready(g, done, f as int),
                        None => forall|k: int| 0 <= k < i ==> !ready(g, done, k),
                    },
                    match pending {
                        Some(p) => p < n && !taken@[p as int],
                        None => forall|k: int| 0 <= k < i ==> taken@[k],
                    },
                decreases n - i + if found.is_none() { 1int } else { 0int },
            {
                if !taken[i] {
                    if pending.is_none() {
                        pending = Some(i);
                    }
                    match blocker(&self.nodes, &taken, i) {
                        None => {
                            assert(ready(g, done, i as int)) by {
                                assert forall|j: int| #[trigger]
                                    depends_on(g, i as int, j) implies done.contains(j) by {
                                    assert(taken@[j]);
                                }
                            }
                            found = Some(i);
                        },
                        Some(j) => {
                            assert(!ready(g, done, i as int)) by {
                                assert(depends_on(g, i as int, j as int) && !done.contains(
                                    j as int,
                                ));
                            }
                            i = i + 1;
                        },
                    }
                } else {
                    i = i + 1;
                }
            }
            match found {
                Some(f) => {
                    proof {
                        lemma_next(g, done, f as int);
                        lemma_take(g, done, f as int);
                    }
                    taken.set(f, true);
                    order.push(f);
                    assert(ints(order@) =~= done.push(f as int));
                    assert(flagged(taken@, ints(order@), n as int)) by {
                        assert forall|x: int| 0 <= x < n implies #[trigger] taken@[x] == ints(
                            order@,
                        ).contains(x) by {
                            if x == f {
                                assert(ints(order@)[order@.len() - 1] == x);
                            } else if done.contains(x) {
                                let a = choose|a: int| 0 <= a < done.len() && done[a] == x;
                                assert(ints(order@)[a] == x);
                            } else if ints(order@).contains(x) {
                                let a = choose|a: int|
                                    0 <= a < order@.len() && ints(order@)[a] == x;
                                assert(done[a] == x);
                            }
                        }
                    }
                },
                None => {
                    assert(forall|k: int| !ready(g, done, k));
                    assert(peel(g, done) == done) by {
                        if exists|k: int| first_ready(g, done, k) {
                            let k = choose|k: int| first_ready(g, done, k);
                            assert(ready(g, done, k));
                        }
                    }
                    proof {
                        lemma_distinct_below(done, n as int);
                    }
                    match pending {
                        Some(p) => {
                            assert(!done.contains(p as int));
                            let path = self.cycle_from(&taken, p, Ghost(done));
                            return Err(path);
                        },
                        None => {
                            assert forall|x: int| 0 <= x < n implies done.contains(x) by {
                                assert(taken@[x]);
                            }
                            return Ok(order);
                        },
                    }
                },
            }
        }
    }

    /// The schedule of the graph: its tasks in the order of a run, each
    /// after the tasks that it depends on, and among tasks that could run
    /// next the one first that came into the graph first.  Where
    /// `respect_freshness` is set, only the dirty tasks are part of the
    /// schedule: those that the oracle does not call up to date for the
    /// given files, and those that depend on a dirty task.  Fails with the
    /// cycle where the tasks depend on each other in a circle.
    pub fn solve(&self, respect_freshness: bool, files: &Snapshot) -> (r: Result<Schedule, Error>)
        requires
            self.wf(),
            files.wf(),
        ensures
            r is Ok <==> acyclic(self@),
            match r {
                Ok(schedule) => schedule_of(self@, files@, respect_freshness) == Some(schedule@)
                    && schedule.wf(),
                Err(e) => schedule_of(self@, files@, respect_freshness) is None && (
                e@ matches ErrorView::Cycle(path) && cycle_in(self@, path)),
            },
    {
        proof {
            if topological_order(self@) is Some {
                lemma_sorted_is_acyclic(self@);
            }
        }
        let order = match self.sort() {
            Ok(order) => order,
            Err(path) => {
                return Err(Error::Cycle(path));
            },
        };
        let n = order.len();
        let ghost g = self@;
        let ghost at = ints(order@);
        proof {
            lemma_topological(g);
        }
        let mut flags: Vec<bool> = Vec::new();
        let mut out: Vec<Task> = Vec::new();
        assert(task_views(out@) =~= tasks_at(g, pick(g, files@, respect_freshness, at, 0)));
        let mut k: usize = 0;
        while k < n
            invariant
                self.wf(),
                files.wf(),
                g == self@,
                at == ints(order@),
                n == order@.len(),
                n == g.len(),
                below(at, g.len() as int),
                k <= n,
                flags@ == marks(g, files@, at, k as int),
                task_views(out@) == tasks_at(g, pick(g, files@, respect_freshness, at, k as int)),
            decreases n - k,
        {
            let i = order[k];
            assert(at[k as int] == i);
            let task = &self.nodes[i];
            proof {
                lemma_marks(g, files@, at, k as int, k as int);
            }
            let deps = task.dependencies();
            let mut mark = !is_up_to_date(task.inputs(), task.outputs(), files);
            let mut m: usize = 0;
            while m < k && !mark
                invariant
                    g == self@,
                    at == ints(order@),
                    n == order@.len(),
                    n == g.len(),
                    below(at, g.len() as int),
                    k < n,
                    m <= k,
                    i == order@[k as int],
                    i < g.len(),
                    flags@.len() == k,
                    texts(deps@) == g[i as int].dependencies,
                    mark ==> stale(g[i as int], files@) || exists|x: int|
                        0 <= x < k && depends_on(g, at[k as int], at[x]) && #[trigger] flags@[x],
                    !mark ==> !stale(g[i as int], files@) && forall|x: int|
                        0 <= x < m ==> !(depends_on(g, at[k as int], at[x]) && #[trigger] flags@[x]),
                decreases k - m + if mark { 0int } else { 1int },
            {
                assert(at[m as int] == order@[m as int]);
                if flags[m] && contains_text(deps, self.nodes[order[m]].name()) {
                    assert(depends_on(g, at[k as int], at[m as int]));
                    mark = true;
                } else {
                    m = m + 1;
                }
            }
            let ghost before = flags@;
            let ghost picked = pick(g, files@, respect_freshness, at, k as int);
            flags.push(mark);
            assert(flags@ == marks(g, files@, at, k + 1));
            proof {
                lemma_marks(g, files@, at, k + 1, n as int);
                assert(marks(g, files@, at, k + 1)[k as int] == mark);
                assert(marks(g, files@, at, n as int)[k as int] == mark);
                assert(keeps(g, files@, respect_freshness, at, k as int) == (!respect_freshness
                    || mark));
            }
            if !respect_freshness || mark {
                let ghost views = task_views(out@);
                out.push(task.clone());
                assert(task_views(out@) =~= tasks_at(g, picked.push(i as int))) by {
                    let grown = tasks_at(g, picked.push(i as int));
                    assert(views.len() == picked.len());
                    assert forall|a: int| 0 <= a < grown.len() implies task_views(out@)[a]
                        == grown[a] by {
                        if a < picked.len() {
                            assert(task_views(out@)[a] == views[a]);
                            assert(views[a] == tasks_at(g, picked)[a]);
                        }
                    }
                }
            }
            k = k + 1;
        }
        proof {
            lemma_schedule_runnable(g, files@, respect_freshness);
        }
        Ok(Schedule::trusted(out))
    }
}

} // verus!
