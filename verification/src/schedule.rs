//! The schedule of a run: which tasks of a graph run, and in what order.
//!
//! The tasks run in the order that peeling gives.  Where freshness is
//! respected, a task is left out unless it is dirty: unless the oracle says
//! that it is not up to date, or one of its dependencies is dirty.

use vstd::prelude::*;
use crate::freshness::{up_to_date, Stamp};
use crate::order::{depends_on, lemma_topological, occurs_before, topological_order};
use crate::task::{names, task_views, Task, TaskView};
use crate::count::below;
use crate::text::distinct;

verus! {

/// The oracle does not call the task up to date.
pub open spec fn stale(task: TaskView, files: Map<Seq<char>, Stamp>) -> bool {
    !up_to_date(task.inputs, task.outputs, files)
}

/// For each of the first `upto` tasks of the order, whether it is dirty:
/// whether it is stale, or a task before it in the order that it depends on
/// is dirty.
pub open spec fn marks(
    g: Seq<TaskView>,
    files: Map<Seq<char>, Stamp>,
    order: Seq<int>,
    upto: int,
) -> Seq<bool>
    decreases upto,
{
    if upto <= 0 {
        Seq::empty()
    } else {
        let before = marks(g, files, order, upto - 1);
        before.push(
            stale(g[order[upto - 1]], files) || exists|m: int|
                0 <= m < upto - 1 && depends_on(g, order[upto - 1], order[m])
                    && #[trigger] before[m],
        )
    }
}

/// The task at position `k` of the order is dirty.
pub open spec fn dirty(
    g: Seq<TaskView>,
    files: Map<Seq<char>, Stamp>,
    order: Seq<int>,
    k: int,
) -> bool {
    0 <= k < order.len() && marks(g, files, order, order.len() as int)[k]
}

/// A task before position `k` of the order that the task at `k` depends on
/// is dirty.
pub open spec fn tainted(
    g: Seq<TaskView>,
    files: Map<Seq<char>, Stamp>,
    order: Seq<int>,
    k: int,
) -> bool {
    exists|m: int|
        0 <= m < k && depends_on(g, order[k], order[m]) && #[trigger] dirty(g, files, order, m)
}

/// The marks of a longer start of the order begin with the marks of a
/// shorter one.
pub proof fn lemma_marks(
    g: Seq<TaskView>,
    files: Map<Seq<char>, Stamp>,
    order: Seq<int>,
    shorter: int,
    longer: int,
)
    requires
        0 <= shorter <= longer,
    ensures
        marks(g, files, order, longer).len() == longer,
        marks(g, files, order, shorter).len() == shorter,
        forall|m: int|
            0 <= m < shorter ==> marks(g, files, order, longer)[m] == #[trigger] marks(
                g,
                files,
                order,
                shorter,
            )[m],
    decreases longer,
{
    if longer > 0 {
        if shorter < longer {
            lemma_marks(g, files, order, shorter, longer - 1);
        } else {
            lemma_marks(g, files, order, shorter - 1, longer - 1);
        }
    }
}

/// A task of the order is dirty exactly if it is stale or a task before it
/// in the order that it depends on is dirty.
pub proof fn lemma_dirty(
    g: Seq<TaskView>,
    files: Map<Seq<char>, Stamp>,
    order: Seq<int>,
    k: int,
)
    requires
        0 <= k < order.len(),
    ensures
        dirty(g, files, order, k) <==> stale(g[order[k]], files) || tainted(g, files, order, k),
{
    let n = order.len() as int;
    lemma_marks(g, files, order, k + 1, n);
    lemma_marks(g, files, order, k, n);
    let upto = marks(g, files, order, k + 1);
    let before = marks(g, files, order, k);
    assert(marks(g, files, order, n)[k] == upto[k]);
    assert(upto[k] == (stale(g[order[k]], files) || exists|m: int|
        0 <= m < k && depends_on(g, order[k], order[m]) && #[trigger] before[m]));
    if tainted(g, files, order, k) {
        let m = choose|m: int|
            0 <= m < k && depends_on(g, order[k], order[m]) && #[trigger] dirty(g, files, order, m);
        assert(before[m]);
    }
    if exists|m: int| 0 <= m < k && depends_on(g, order[k], order[m]) && #[trigger] before[m] {
        let m = choose|m: int|
            0 <= m < k && depends_on(g, order[k], order[m]) && #[trigger] before[m];
        assert(dirty(g, files, order, m));
    }
}

/// The task at position `k` of the order is part of the run.
pub open spec fn keeps(
    g: Seq<TaskView>,
    files: Map<Seq<char>, Stamp>,
    respect: bool,
    order: Seq<int>,
    k: int,
) -> bool {
    !respect || dirty(g, files, order, k)
}

/// The tasks among the first `upto` of the order that are part of the run,
/// in that order.
pub open spec fn pick(
    g: Seq<TaskView>,
    files: Map<Seq<char>, Stamp>,
    respect: bool,
    order: Seq<int>,
    upto: int,
) -> Seq<int>
    decreases upto,
{
    if upto <= 0 {
        Seq::empty()
    } else {
        let before = pick(g, files, respect, order, upto - 1);
        if keeps(g, files, respect, order, upto - 1) {
            before.push(order[upto - 1])
        } else {
            before
        }
    }
}

/// The tasks of the run, by their positions in the graph and in the order
/// of the run; none where the graph has a cycle.
pub open spec fn schedule_indices(
    g: Seq<TaskView>,
    files: Map<Seq<char>, Stamp>,
    respect: bool,
) -> Option<Seq<int>> {
    match topological_order(g) {
        Some(order) => Some(pick(g, files, respect, order, order.len() as int)),
        None => None,
    }
}

/// The tasks of the graph at the given positions.
pub open spec fn tasks_at(g: Seq<TaskView>, at: Seq<int>) -> Seq<TaskView> {
    Seq::new(at.len(), |k: int| g[at[k]])
}

/// The schedule of a graph: the tasks of the run in their order; none where
/// the graph has a cycle.
pub open spec fn schedule_of(
    g: Seq<TaskView>,
    files: Map<Seq<char>, Stamp>,
    respect: bool,
) -> Option<Seq<TaskView>> {
    match schedule_indices(g, files, respect) {
        Some(at) => Some(tasks_at(g, at)),
        None => None,
    }
}

/// Task `x` stands among the first `upto` of the order and is kept.
pub open spec fn kept_at(
    g: Seq<TaskView>,
    files: Map<Seq<char>, Stamp>,
    respect: bool,
    order: Seq<int>,
    upto: int,
    x: int,
) -> bool {
    exists|k: int| 0 <= k < upto && order[k] == x && #[trigger] keeps(g, files, respect, order, k)
}

/// `x` stands before `y` among the first `upto` of the order.
pub open spec fn apart(order: Seq<int>, upto: int, x: int, y: int) -> bool {
    exists|k1: int, k2: int|
        0 <= k1 < k2 < upto && #[trigger] order[k1] == x && #[trigger] order[k2] == y
}

/// What `pick` holds: exactly the kept tasks, in the order of the order.
pub proof fn lemma_pick(
    g: Seq<TaskView>,
    files: Map<Seq<char>, Stamp>,
    respect: bool,
    order: Seq<int>,
    upto: int,
)
    requires
        0 <= upto <= order.len(),
    ensures
        pick(g, files, respect, order, upto).len() <= upto,
        forall|a: int|
            0 <= a < pick(g, files, respect, order, upto).len() ==> kept_at(
                g,
                files,
                respect,
                order,
                upto,
                #[trigger] pick(g, files, respect, order, upto)[a],
            ),
        forall|k: int|
            0 <= k < upto && #[trigger] keeps(g, files, respect, order, k) ==> pick(
                g,
                files,
                respect,
                order,
                upto,
            ).contains(order[k]),
        forall|a: int, b: int|
            0 <= a < b < pick(g, files, respect, order, upto).len() ==> apart(
                order,
                upto,
                #[trigger] pick(g, files, respect, order, upto)[a],
                #[trigger] pick(g, files, respect, order, upto)[b],
            ),
    decreases upto,
{
    if upto > 0 {
        lemma_pick(g, files, respect, order, upto - 1);
        let before = pick(g, files, respect, order, upto - 1);
        let now = pick(g, files, respect, order, upto);
        assert forall|a: int| 0 <= a < now.len() implies kept_at(
            g,
            files,
            respect,
            order,
            upto,
            #[trigger] now[a],
        ) by {
            if a < before.len() {
                assert(now[a] == before[a]);
                assert(kept_at(g, files, respect, order, upto - 1, before[a]));
                let k = choose|k: int|
                    0 <= k < upto - 1 && order[k] == before[a] && #[trigger] keeps(
                        g,
                        files,
                        respect,
                        order,
                        k,
                    );
                assert(keeps(g, files, respect, order, k));
            } else {
                assert(keeps(g, files, respect, order, upto - 1));
            }
        }
        assert forall|k: int|
            0 <= k < upto && #[trigger] keeps(g, files, respect, order, k) implies now.contains(
            order[k],
        ) by {
            if k < upto - 1 {
                assert(before.contains(order[k]));
                let a = choose|a: int| 0 <= a < before.len() && before[a] == order[k];
                assert(now[a] == order[k]);
            } else {
                assert(now[now.len() - 1] == order[k]);
            }
        }
        assert forall|a: int, b: int| 0 <= a < b < now.len() implies apart(
            order,
            upto,
            #[trigger] now[a],
            #[trigger] now[b],
        ) by {
            if b < before.len() {
                assert(now[a] == before[a] && now[b] == before[b]);
                assert(apart(order, upto - 1, before[a], before[b]));
                let (k1, k2) = choose|k1: int, k2: int|
                    0 <= k1 < k2 < upto - 1 && #[trigger] order[k1] == before[a]
                        && #[trigger] order[k2] == before[b];
                assert(order[k1] == now[a] && order[k2] == now[b]);
            } else {
                assert(now[a] == before[a]);
                assert(kept_at(g, files, respect, order, upto - 1, before[a]));
                let k = choose|k: int|
                    0 <= k < upto - 1 && order[k] == before[a] && #[trigger] keeps(
                        g,
                        files,
                        respect,
                        order,
                        k,
                    );
                assert(order[k] == now[a] && order[upto - 1] == now[b]);
            }
        }
    }
}

/// Task `i` of the graph is part of the run.
pub open spec fn included(
    g: Seq<TaskView>,
    files: Map<Seq<char>, Stamp>,
    respect: bool,
    i: int,
) -> bool {
    schedule_indices(g, files, respect) matches Some(at) && at.contains(i)
}

/// A list of tasks that can be run from front to back: no name occurs
/// twice, and a task that another one depends on stands before it.
pub open spec fn runnable(tasks: Seq<TaskView>) -> bool {
    &&& distinct(names(tasks))
    &&& forall|a: int, b: int|
        0 <= a < tasks.len() && 0 <= b < tasks.len() && #[trigger] tasks[a].dependencies.contains(
            tasks[b].name,
        ) ==> b < a
}

/// A task of the order is part of the run exactly if it is kept.
proof fn lemma_picked(
    g: Seq<TaskView>,
    files: Map<Seq<char>, Stamp>,
    respect: bool,
    order: Seq<int>,
    k: int,
)
    requires
        distinct(order),
        0 <= k < order.len(),
    ensures
        pick(g, files, respect, order, order.len() as int).contains(order[k]) <==> keeps(
            g,
            files,
            respect,
            order,
            k,
        ),
{
    let n = order.len() as int;
    let p = pick(g, files, respect, order, n);
    lemma_pick(g, files, respect, order, n);
    if p.contains(order[k]) {
        let a = choose|a: int| 0 <= a < p.len() && p[a] == order[k];
        assert(kept_at(g, files, respect, order, n, p[a]));
        let k2 = choose|k2: int|
            0 <= k2 < n && order[k2] == p[a] && #[trigger] keeps(g, files, respect, order, k2);
        if k2 < k {
            assert(order[k2] != order[k]);
        }
        if k < k2 {
            assert(order[k] != order[k2]);
        }
    }
}

/// The tasks of a run are distinct tasks of the graph, and each stands
/// after every task of the run that it depends on.
pub proof fn lemma_schedule_orderly(
    g: Seq<TaskView>,
    files: Map<Seq<char>, Stamp>,
    respect: bool,
)
    requires
        topological_order(g) is Some,
    ensures
        schedule_indices(g, files, respect) matches Some(at) && below(
            at,
            g.len() as int,
        ) && distinct(at) && (forall|a: int, b: int|
            0 <= a < at.len() && 0 <= b < at.len() && #[trigger] depends_on(g, at[a], at[b]) ==> b
                < a),
{
    lemma_topological(g);
    let order = topological_order(g).unwrap();
    let n = order.len() as int;
    let at = pick(g, files, respect, order, n);
    lemma_pick(g, files, respect, order, n);
    assert forall|a: int| 0 <= a < at.len() implies 0 <= #[trigger] at[a] < g.len() by {
        assert(kept_at(g, files, respect, order, n, at[a]));
    }
    assert forall|a: int, b: int| 0 <= a < b < at.len() implies at[a] != at[b] by {
        assert(apart(order, n, at[a], at[b]));
        let (k1, k2) = choose|k1: int, k2: int|
            0 <= k1 < k2 < n && #[trigger] order[k1] == at[a] && #[trigger] order[k2] == at[b];
        assert(order[k1] != order[k2]);
    }
    assert forall|a: int, b: int|
        0 <= a < at.len() && 0 <= b < at.len() && #[trigger] depends_on(
            g,
            at[a],
            at[b],
        ) implies b < a by {
        assert(kept_at(g, files, respect, order, n, at[a]));
        let k = choose|k: int|
            0 <= k < n && order[k] == at[a] && #[trigger] keeps(g, files, respect, order, k);
        assert(depends_on(g, order[k], at[b]));
        assert(occurs_before(order, at[b], k));
        let m = choose|m: int| 0 <= m < k && m < order.len() && order[m] == at[b];
        if a < b {
            assert(apart(order, n, at[a], at[b]));
            let (k1, k2) = choose|k1: int, k2: int|
                0 <= k1 < k2 < n && #[trigger] order[k1] == at[a] && #[trigger] order[k2] == at[b];
            if k1 != k {
                assert(order[k1] == order[k]);
                if k1 < k {
                    assert(order[k1] != order[k]);
                } else {
                    assert(order[k] != order[k1]);
                }
            }
            if k2 != m {
                if k2 < m {
                    assert(order[k2] != order[m]);
                } else {
                    assert(order[m] != order[k2]);
                }
            }
        }
        if a == b {
            assert(order[m] != order[k]);
        }
    }
}

/// The schedule of a graph whose names are distinct can be run from front
/// to back.
pub proof fn lemma_schedule_runnable(
    g: Seq<TaskView>,
    files: Map<Seq<char>, Stamp>,
    respect: bool,
)
    requires
        distinct(names(g)),
        topological_order(g) is Some,
    ensures
        schedule_of(g, files, respect) matches Some(tasks) && runnable(tasks),
{
    lemma_schedule_orderly(g, files, respect);
    let at = schedule_indices(g, files, respect).unwrap();
    let tasks = tasks_at(g, at);
    assert forall|a: int, b: int| 0 <= a < b < tasks.len() implies names(tasks)[a] != names(
        tasks,
    )[b] by {
        assert(at[a] != at[b]);
        assert(names(g)[at[a]] == tasks[a].name);
        assert(names(g)[at[b]] == tasks[b].name);
        if at[a] < at[b] {
            assert(names(g)[at[a]] != names(g)[at[b]]);
        } else {
            assert(names(g)[at[b]] != names(g)[at[a]]);
        }
    }
    assert forall|a: int, b: int|
        0 <= a < tasks.len() && 0 <= b < tasks.len() && #[trigger] tasks[a].dependencies.contains(
            tasks[b].name,
        ) implies b < a by {
        assert(depends_on(g, at[a], at[b]));
    }
}

/// A task is part of the run exactly if freshness is not respected, or the
/// oracle does not call it up to date, or a task that it depends on is part
/// of the run.  So a task that the oracle calls up to date runs only where
/// every task runs or where something that it depends on, directly or
/// through other tasks, has to run.
pub proof fn lemma_inclusion(
    g: Seq<TaskView>,
    files: Map<Seq<char>, Stamp>,
    respect: bool,
    i: int,
)
    requires
        topological_order(g) is Some,
        0 <= i < g.len(),
    ensures
        included(g, files, respect, i) <==> (!respect || stale(g[i], files) || exists|j: int|
            depends_on(g, i, j) && #[trigger] included(g, files, respect, j)),
{
    lemma_topological(g);
    let order = topological_order(g).unwrap();
    let n = order.len() as int;
    let at = pick(g, files, respect, order, n);
    assert(order.contains(i));
    let k = choose|k: int| 0 <= k < order.len() && order[k] == i;
    lemma_picked(g, files, respect, order, k);
    if respect {
        lemma_dirty(g, files, order, k);
        if dirty(g, files, order, k) && !stale(g[i], files) {
            let m = choose|m: int|
                0 <= m < k && depends_on(g, order[k], order[m]) && #[trigger] dirty(
                    g,
                    files,
                    order,
                    m,
                );
            lemma_picked(g, files, respect, order, m);
            assert(depends_on(g, i, order[m]) && included(g, files, respect, order[m]));
        }
        if exists|j: int| depends_on(g, i, j) && #[trigger] included(g, files, respect, j) {
            let j = choose|j: int| depends_on(g, i, j) && #[trigger] included(g, files, respect, j);
            assert(depends_on(g, order[k], j));
            assert(occurs_before(order, j, k));
            let m = choose|m: int| 0 <= m < k && m < order.len() && order[m] == j;
            lemma_picked(g, files, respect, order, m);
            assert(dirty(g, files, order, m));
        }
    }
}

/// The marks depend on the files only through the answers of the oracle.
proof fn lemma_marks_same(
    g: Seq<TaskView>,
    one: Map<Seq<char>, Stamp>,
    other: Map<Seq<char>, Stamp>,
    order: Seq<int>,
    upto: int,
)
    requires
        below(order, g.len() as int),
        upto <= order.len(),
        forall|i: int| 0 <= i < g.len() ==> stale(#[trigger] g[i], one) == stale(g[i], other),
    ensures
        marks(g, one, order, upto) == marks(g, other, order, upto),
    decreases upto,
{
    if upto > 0 {
        lemma_marks_same(g, one, other, order, upto - 1);
        assert(0 <= order[upto - 1] < g.len());
        assert(stale(g[order[upto - 1]], one) == stale(g[order[upto - 1]], other));
    }
}

/// `pick` depends on the files only through the answers of the oracle.
proof fn lemma_pick_same(
    g: Seq<TaskView>,
    one: Map<Seq<char>, Stamp>,
    other: Map<Seq<char>, Stamp>,
    respect: bool,
    order: Seq<int>,
    upto: int,
)
    requires
        below(order, g.len() as int),
        forall|i: int| 0 <= i < g.len() ==> stale(#[trigger] g[i], one) == stale(g[i], other),
    ensures
        pick(g, one, respect, order, upto) == pick(g, other, respect, order, upto),
    decreases upto,
{
    if upto > 0 {
        lemma_pick_same(g, one, other, respect, order, upto - 1);
        lemma_marks_same(g, one, other, order, order.len() as int);
    }
}

/// The schedule is determined by the tasks of the graph, their order in it,
/// and the answers of the oracle: two states of the file system for which
/// the oracle gives the same answer on every task give the same schedule.
pub proof fn lemma_schedule_determined(
    g: Seq<TaskView>,
    one: Map<Seq<char>, Stamp>,
    other: Map<Seq<char>, Stamp>,
    respect: bool,
)
    requires
        forall|i: int| 0 <= i < g.len() ==> stale(#[trigger] g[i], one) == stale(g[i], other),
    ensures
        schedule_of(g, one, respect) == schedule_of(g, other, respect),
{
    if let Some(order) = topological_order(g) {
        lemma_topological(g);
        lemma_pick_same(g, one, other, respect, order, order.len() as int);
    }
}

/// The tasks of a run, in the order in which they are handed out.  No name
/// occurs twice, and a task that another one depends on stands before it.
#[derive(Debug)]
pub struct Schedule {
    tasks: Vec<Task>,
}

impl View for Schedule {
    type V = Seq<TaskView>;

    closed spec fn view(&self) -> Seq<TaskView> {
        task_views(self.tasks@)
    }
}

impl Schedule {
    /// The invariant of a schedule.
    pub open spec fn wf(&self) -> bool {
        runnable(self@)
    }

    /// The schedule of the given tasks; none where a name occurs twice or a
    /// task stands before one that it depends on.
    pub fn from_tasks(tasks: Vec<Task>) -> (r: Option<Schedule>)
        ensures
            r is Some <==> runnable(task_views(tasks@)),
            r matches Some(s) ==> s.wf() && s@ == task_views(tasks@),
    {
        let ghost views = task_views(tasks@);
        let mut a: usize = 0;
        while a < tasks.len()
            invariant
                a <= tasks.len(),
                views == task_views(tasks@),
                forall|x: int, y: int| 0 <= x < y < tasks.len() && x < a ==> names(views)[x] != names(views)[y],
                forall|x: int, y: int|
                    0 <= x < a && 0 <= y < tasks.len() && #[trigger] views[x].dependencies.contains(
                        views[y].name,
                    ) ==> y < x,
            decreases tasks.len() - a,
        {
            let mut b: usize = a;
            while b < tasks.len()
                invariant
                    a <= b <= tasks.len(),
                    a < tasks.len(),
                    views == task_views(tasks@),
                    forall|y: int| a < y < b ==> names(views)[a as int] != names(views)[y],
                    forall|y: int|
                        a <= y < b ==> !views[a as int].dependencies.contains(
                            #[trigger] views[y].name,
                        ),
                decreases tasks.len() - b,
            {
                if b > a && *tasks[a].name() == *tasks[b].name() {
                    assert(names(views)[a as int] == names(views)[b as int]);
                    return None;
                }
                if crate::text::contains_text(tasks[a].dependencies(), tasks[b].name()) {
                    assert(views[a as int].dependencies.contains(views[b as int].name));
                    return None;
                }
                b = b + 1;
            }
            a = a + 1;
        }
        Some(Schedule { tasks })
    }

    /// The number of tasks.
    pub fn len(&self) -> (n: usize)
        ensures
            n == self@.len(),
    {
        self.tasks.len()
    }

    /// Whether the schedule has no task.
    pub fn is_empty(&self) -> (r: bool)
        ensures
            r == (self@.len() == 0),
    {
        self.tasks.len() == 0
    }

    /// The tasks, in the order of the run.
    pub fn tasks(&self) -> (r: &Vec<Task>)
        ensures
            task_views(r@) == self@,
    {
        &self.tasks
    }

    /// The names of the tasks, in the order of the run.
    pub fn task_names(&self) -> (out: Vec<String>)
        ensures
            crate::text::texts(out@) == names(self@),
    {
        let mut out: Vec<String> = Vec::new();
        let mut i: usize = 0;
        while i < self.tasks.len()
            invariant
                i <= self.tasks.len(),
                out@.len() == i,
                forall|k: int| 0 <= k < i ==> out@[k]@ == self.tasks@[k]@.name,
            decreases self.tasks.len() - i,
        {
            out.push(self.tasks[i].name().clone());
            i = i + 1;
        }
        assert(crate::text::texts(out@) =~= names(self@));
        out
    }

    /// The schedule of tasks that are known to be runnable.
    pub(crate) fn trusted(tasks: Vec<Task>) -> (out: Schedule)
        requires
            runnable(task_views(tasks@)),
        ensures
            out.wf(),
            out@ == task_views(tasks@),
    {
        Schedule { tasks }
    }
}

} // verus!
