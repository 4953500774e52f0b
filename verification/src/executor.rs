//! The coordinator of a run: the decisions that hand the tasks of a
//! schedule out to a bounded pool of workers.
//!
//! The coordinator runs no task and waits for nobody.  Whoever drives it
//! tells it what happened, that a worker has signalled that it is ready or
//! that a worker is gone, and is told which tasks to send to which workers.
//! A worker is free from its ready signal until a task is sent to it; a
//! ready signal of a worker that had a task says that the task is
//! completed.  The schedule is handed out strictly from the front, and its
//! first task only when every task of the schedule that it depends on is
//! completed.  After the first failure nothing more is handed out.

use vstd::prelude::*;
use crate::error::{Error, ErrorView};
use crate::order::depends_on;
use crate::graph::blocker;
use crate::schedule::{runnable, Schedule};
use crate::task::{names, TaskView};
use crate::text::owned;

verus! {

/// The state of one worker, as the coordinator knows it.
#[derive(Clone, Copy, Debug, PartialEq, Eq)]
pub enum Slot {
    /// The worker has not signalled yet that it is ready.
    Starting,
    /// The worker is free: it is ready and has no task.
    Idle,
    /// The worker has been sent the task at this position of the schedule
    /// and has not signalled since.
    Busy(usize),
    /// The worker is gone.
    Gone,
}

/// The order to send a task to a worker.
#[derive(Debug, PartialEq, Eq)]
pub struct Dispatch {
    /// The worker to send the task to.
    pub worker: usize,
    /// The name of the task.
    pub task: String,
    /// The place of the task in the run, counted from one.
    pub progress: usize,
    /// The number of tasks in the run.
    pub total: usize,
}

/// What a [`Dispatch`] holds, as plain values.
pub struct DispatchView {
    pub worker: int,
    pub task: Seq<char>,
    pub progress: int,
    pub total: int,
}

impl View for Dispatch {
    type V = DispatchView;

    open spec fn view(&self) -> DispatchView {
        DispatchView {
            worker: self.worker as int,
            task: self.task@,
            progress: self.progress as int,
            total: self.total as int,
        }
    }
}

/// The views of a list of dispatches, in order.
pub open spec fn dispatch_views(v: Seq<Dispatch>) -> Seq<DispatchView> {
    Seq::new(v.len(), |i: int| v[i]@)
}

/// The state of a run, as plain values.
pub struct RunState {
    /// The tasks of the schedule, in order.
    pub tasks: Seq<TaskView>,
    /// The number of tasks that have been handed out: the position of the
    /// first task that has not been.
    pub next: int,
    /// The state of each worker.
    pub slots: Seq<Slot>,
    /// For each task, whether it is completed.
    pub done: Seq<bool>,
    /// The first failure, if there was one.
    pub failure: Option<ErrorView>,
    /// The job budget.
    pub jobs: int,
}

/// The smaller of two numbers.
pub open spec fn least(a: int, b: int) -> int {
    if a <= b {
        a
    } else {
        b
    }
}

/// The invariant of a run.
pub open spec fn valid(s: RunState) -> bool {
    &&& runnable(s.tasks)
    &&& s.tasks.len() <= usize::MAX
    &&& 0 <= s.next <= s.tasks.len()
    &&& s.done.len() == s.tasks.len()
    &&& 0 <= s.jobs
    &&& s.slots.len() == least(s.jobs, s.tasks.len() as int)
    &&& forall|w: int|
        0 <= w < s.slots.len() ==> (#[trigger] s.slots[w] matches Slot::Busy(i) ==> i < s.next
            && !s.done[i as int])
    &&& forall|v: int, w: int|
        0 <= v < w < s.slots.len() && #[trigger] s.slots[v] is Busy ==> s.slots[v]
            != #[trigger] s.slots[w]
    &&& forall|i: int| 0 <= i < s.done.len() && #[trigger] s.done[i] ==> i < s.next
    &&& forall|i: int, j: int|
        0 <= i < s.next && #[trigger] depends_on(s.tasks, i, j) ==> s.done[j]
}

/// The state in which a run begins: nothing is handed out or completed and
/// no worker has signalled.
pub open spec fn initial(tasks: Seq<TaskView>, jobs: int) -> RunState {
    RunState {
        tasks,
        next: 0,
        slots: Seq::new(least(jobs, tasks.len() as int) as nat, |w: int| Slot::Starting),
        done: Seq::new(tasks.len(), |i: int| false),
        failure: None,
        jobs,
    }
}

/// The first task that has not been handed out can be: every task of the
/// schedule that it depends on is completed.
pub open spec fn head_ready(s: RunState) -> bool {
    forall|j: int| #[trigger] depends_on(s.tasks, s.next, j) ==> s.done[j]
}

/// Worker `w` is the free worker with the lowest number.
pub open spec fn first_free(slots: Seq<Slot>, w: int) -> bool {
    &&& 0 <= w < slots.len()
    &&& slots[w] is Idle
    &&& forall|v: int| 0 <= v < w ==> !(#[trigger] slots[v] is Idle)
}

/// Some worker is free.
pub open spec fn some_free(slots: Seq<Slot>) -> bool {
    exists|w: int| first_free(slots, w)
}

/// The free worker with the lowest number.
pub open spec fn free_worker(slots: Seq<Slot>) -> int {
    choose|w: int| first_free(slots, w)
}

/// A task can be handed out now.
pub open spec fn can_dispatch(s: RunState) -> bool {
    &&& s.failure is None
    &&& 0 <= s.next < s.tasks.len()
    &&& head_ready(s)
    &&& some_free(s.slots)
}

/// The order that hands out the first task that has not been.
pub open spec fn next_dispatch(s: RunState) -> DispatchView {
    DispatchView {
        worker: free_worker(s.slots),
        task: s.tasks[s.next].name,
        progress: s.next + 1,
        total: s.tasks.len() as int,
    }
}

/// The state after the first task that has not been handed out has been.
pub open spec fn after_dispatch(s: RunState) -> RunState {
    RunState {
        next: s.next + 1,
        slots: s.slots.update(free_worker(s.slots), Slot::Busy(s.next as usize)),
        ..s
    }
}

/// The state after every task that can be handed out has been.
pub open spec fn hand_out(s: RunState) -> RunState
    decreases s.tasks.len() - s.next,
{
    if can_dispatch(s) {
        hand_out(after_dispatch(s))
    } else {
        s
    }
}

/// The orders that hand out every task that can be handed out, in order.
pub open spec fn orders(s: RunState) -> Seq<DispatchView>
    decreases s.tasks.len() - s.next,
{
    if can_dispatch(s) {
        seq![next_dispatch(s)] + orders(after_dispatch(s))
    } else {
        Seq::empty()
    }
}

/// The state after the ready signal of worker `w` has been taken note of,
/// before anything is handed out: a task that the worker had is completed
/// and the worker is free.  A signal of a worker that is gone or that does
/// not exist changes nothing.
pub open spec fn signalled(s: RunState, w: int) -> RunState {
    if 0 <= w < s.slots.len() {
        match s.slots[w] {
            Slot::Busy(i) => RunState {
                slots: s.slots.update(w, Slot::Idle),
                done: s.done.update(i as int, true),
                ..s
            },
            Slot::Gone => s,
            _ => RunState { slots: s.slots.update(w, Slot::Idle), ..s },
        }
    } else {
        s
    }
}

/// The failure that the exit of worker `w` stands for: the failure of the
/// task that it had, or of its start where it had not signalled yet.  A
/// worker that was free leaves without a failure.
pub open spec fn exit_failure(s: RunState, w: int, cause: Seq<char>) -> Option<ErrorView> {
    if 0 <= w < s.slots.len() {
        match s.slots[w] {
            Slot::Busy(i) => Some(ErrorView::ActionFailure(s.tasks[i as int].name, cause)),
            Slot::Starting => Some(ErrorView::ContextInitFailure),
            _ => None,
        }
    } else {
        None
    }
}

/// The state after worker `w` is gone.  The first failure of a run is
/// kept.
pub open spec fn departed(s: RunState, w: int, cause: Seq<char>) -> RunState {
    if 0 <= w < s.slots.len() {
        RunState {
            slots: s.slots.update(w, Slot::Gone),
            failure: if s.failure is Some {
                s.failure
            } else {
                exit_failure(s, w, cause)
            },
            ..s
        }
    } else {
        s
    }
}

/// The number of workers that have a task.
pub open spec fn running(slots: Seq<Slot>) -> nat
    decreases slots.len(),
{
    if slots.len() == 0 {
        0
    } else if slots.last() is Busy {
        1 + running(slots.drop_last())
    } else {
        running(slots.drop_last())
    }
}

/// The names of the tasks that have been handed out, in the order in which
/// they were.
pub open spec fn dispatched(s: RunState) -> Seq<Seq<char>> {
    names(s.tasks).take(s.next)
}

/// The initial state is valid.
pub proof fn lemma_initial_valid(tasks: Seq<TaskView>, jobs: int)
    requires
        runnable(tasks),
        tasks.len() <= usize::MAX,
        0 <= jobs,
    ensures
        valid(initial(tasks, jobs)),
{
}

/// The free worker with the lowest number is the one that `free_worker`
/// names.
pub proof fn lemma_free_worker(slots: Seq<Slot>, w: int)
    requires
        first_free(slots, w),
    ensures
        some_free(slots),
        free_worker(slots) == w,
{
    let v = free_worker(slots);
    assert(first_free(slots, v));
    if v < w {
        assert(!(slots[v] is Idle));
    }
    if w < v {
        assert(!(slots[w] is Idle));
    }
}

/// Handing a task out keeps the state valid.
pub proof fn lemma_dispatch_valid(s: RunState)
    requires
        valid(s),
        can_dispatch(s),
    ensures
        valid(after_dispatch(s)),
{
    let w = free_worker(s.slots);
    assert(first_free(s.slots, w));
    let t = after_dispatch(s);
    assert forall|v: int| 0 <= v < t.slots.len() implies (#[trigger] t.slots[v] matches Slot::Busy(
        i,
    ) ==> i < t.next && !t.done[i as int]) by {
        if v != w {
            assert(t.slots[v] == s.slots[v]);
        } else {
            if s.done[s.next] {
                assert(s.next < s.next);
            }
        }
    }
    assert forall|u: int, v: int|
        0 <= u < v < t.slots.len() && #[trigger] t.slots[u] is Busy implies t.slots[u]
        != #[trigger] t.slots[v] by {
        if u != w && v != w {
            assert(s.slots[u] == t.slots[u] && s.slots[v] == t.slots[v]);
        } else if u == w {
            assert(s.slots[v] == t.slots[v]);
        } else {
            assert(s.slots[u] == t.slots[u]);
        }
    }
    assert forall|i: int, j: int| 0 <= i < t.next && #[trigger] depends_on(t.tasks, i, j) implies t.done[j] by {
        if i == s.next {
            assert(head_ready(s));
        }
    }
}

/// Taking note of a ready signal keeps the state valid.
pub proof fn lemma_signal_valid(s: RunState, w: int)
    requires
        valid(s),
    ensures
        valid(signalled(s, w)),
{
    let t = signalled(s, w);
    if 0 <= w < s.slots.len() {
        assert forall|v: int| 0 <= v < t.slots.len() implies (#[trigger] t.slots[v] matches Slot::Busy(
            i,
        ) ==> i < t.next && !t.done[i as int]) by {
            if v != w {
                assert(t.slots[v] == s.slots[v]);
                if v < w {
                    assert(s.slots[v] is Busy ==> s.slots[v] != s.slots[w]);
                } else {
                    assert(s.slots[w] is Busy ==> s.slots[w] != s.slots[v]);
                }
            }
        }
        assert forall|u: int, v: int|
            0 <= u < v < t.slots.len() && #[trigger] t.slots[u] is Busy implies t.slots[u]
            != #[trigger] t.slots[v] by {
            assert(u != w);
            assert(s.slots[u] == t.slots[u]);
            if v != w {
                assert(s.slots[v] == t.slots[v]);
            }
        }
        assert forall|i: int| 0 <= i < t.done.len() && #[trigger] t.done[i] implies i < t.next by {
            if !s.done[i] {
                assert(s.slots[w] matches Slot::Busy(k) && k == i);
            }
        }
        assert forall|i: int, j: int| 0 <= i < t.next && #[trigger] depends_on(t.tasks, i, j) implies t.done[j] by {
            assert(s.done[j]);
        }
    }
}

/// The exit of a worker keeps the state valid.
pub proof fn lemma_depart_valid(s: RunState, w: int, cause: Seq<char>)
    requires
        valid(s),
    ensures
        valid(departed(s, w, cause)),
{
    let t = departed(s, w, cause);
    if 0 <= w < s.slots.len() {
        assert forall|v: int| 0 <= v < t.slots.len() implies (#[trigger] t.slots[v] matches Slot::Busy(
            i,
        ) ==> i < t.next && !t.done[i as int]) by {
            if v != w {
                assert(t.slots[v] == s.slots[v]);
            }
        }
        assert forall|u: int, v: int|
            0 <= u < v < t.slots.len() && #[trigger] t.slots[u] is Busy implies t.slots[u]
            != #[trigger] t.slots[v] by {
            assert(u != w);
            assert(s.slots[u] == t.slots[u]);
            if v != w {
                assert(s.slots[v] == t.slots[v]);
            }
        }
    }
}

/// Handing out every task that can be keeps the state valid, hands out
/// the next tasks of the schedule and no others, and completes nothing.
pub proof fn lemma_hand_out(s: RunState)
    requires
        valid(s),
    ensures
        valid(hand_out(s)),
        hand_out(s).tasks == s.tasks,
        hand_out(s).done == s.done,
        hand_out(s).failure == s.failure,
        hand_out(s).jobs == s.jobs,
        hand_out(s).next == s.next + orders(s).len(),
        !can_dispatch(hand_out(s)),
        forall|k: int|
            0 <= k < orders(s).len() ==> (#[trigger] orders(s)[k]).task == s.tasks[s.next + k].name
                && orders(s)[k].progress == s.next + k + 1 && orders(s)[k].total
                == s.tasks.len(),
    decreases s.tasks.len() - s.next,
{
    if can_dispatch(s) {
        lemma_dispatch_valid(s);
        let t = after_dispatch(s);
        lemma_hand_out(t);
        assert forall|k: int| 0 <= k < orders(s).len() implies (#[trigger] orders(s)[k]).task
            == s.tasks[s.next + k].name && orders(s)[k].progress == s.next + k + 1 && orders(
            s,
        )[k].total == s.tasks.len() by {
            if k > 0 {
                assert(orders(s)[k] == orders(t)[k - 1]);
            }
        }
    }
}

/// The number of workers that have a task is at most the number of
/// workers.
pub proof fn lemma_running_bound(slots: Seq<Slot>)
    ensures
        running(slots) <= slots.len(),
    decreases slots.len(),
{
    if slots.len() > 0 {
        lemma_running_bound(slots.drop_last());
    }
}

/// At no time do more workers have a task than the job budget allows, nor
/// more than the schedule has tasks.
pub proof fn lemma_worker_bound(s: RunState)
    requires
        valid(s),
    ensures
        running(s.slots) <= least(s.jobs, s.tasks.len() as int),
{
    lemma_running_bound(s.slots);
}

/// A task that has been handed out began only after every task of the
/// schedule that it depends on, directly or through other tasks of the
/// schedule, was completed.  The path leads from the task, each task on it
/// depending on the one after it.
pub proof fn lemma_dependency_respect(s: RunState, path: Seq<int>)
    requires
        valid(s),
        path.len() >= 2,
        forall|q: int| 0 <= q < path.len() - 1 ==> depends_on(s.tasks, #[trigger] path[q], path[q + 1]),
        0 <= path[0] < s.next,
    ensures
        0 <= path.last() < s.tasks.len(),
        s.done[path.last()],
    decreases path.len(),
{
    if path.len() == 2 {
        assert(depends_on(s.tasks, path[0], path[1]));
    } else {
        let shorter = path.drop_last();
        assert forall|q: int| 0 <= q < shorter.len() - 1 implies depends_on(
            s.tasks,
            #[trigger] shorter[q],
            shorter[q + 1],
        ) by {
            assert(depends_on(s.tasks, path[q], path[q + 1]));
        }
        lemma_dependency_respect(s, shorter);
        let a = path[path.len() - 2];
        assert(shorter.last() == a);
        assert(depends_on(s.tasks, a, path[path.len() - 2 + 1]));
    }
}

/// Every task that has been handed out has been handed out once: the
/// names handed out are the first names of the schedule, in its order, and
/// no name occurs twice among them.  When all tasks are handed out, they
/// are the names of the schedule.
pub proof fn lemma_exactly_once(s: RunState)
    requires
        valid(s),
    ensures
        dispatched(s).len() == s.next,
        forall|a: int, b: int| 0 <= a < b < s.next ==> dispatched(s)[a] != dispatched(s)[b],
        s.next == s.tasks.len() ==> dispatched(s) == names(s.tasks),
{
    assert forall|a: int, b: int| 0 <= a < b < s.next implies dispatched(s)[a] != dispatched(
        s,
    )[b] by {
        assert(names(s.tasks)[a] != names(s.tasks)[b]);
    }
    if s.next == s.tasks.len() {
        assert(dispatched(s) =~= names(s.tasks));
    }
}

/// The view of an optional error.
pub open spec fn error_option(e: Option<Error>) -> Option<ErrorView> {
    match e {
        Some(e) => Some(e@),
        None => None,
    }
}

/// The coordinator of one run.
#[derive(Debug)]
pub struct Coordinator {
    schedule: Schedule,
    next: usize,
    slots: Vec<Slot>,
    done: Vec<bool>,
    failure: Option<Error>,
    jobs: usize,
}

impl View for Coordinator {
    type V = RunState;

    closed spec fn view(&self) -> RunState {
        RunState {
            tasks: self.schedule@,
            next: self.next as int,
            slots: self.slots@,
            done: self.done@,
            failure: error_option(self.failure),
            jobs: self.jobs as int,
        }
    }
}

impl Coordinator {
    /// The invariant of a coordinator.
    pub open spec fn wf(&self) -> bool {
        valid(self@)
    }

    /// The coordinator of a run of the schedule with at most `jobs` workers.
    /// It has as many workers as the job budget allows, but no more than
    /// the schedule has tasks; they are numbered from zero.
    pub fn new(schedule: Schedule, jobs: usize) -> (out: Coordinator)
        requires
            schedule.wf(),
        ensures
            out.wf(),
            out@ == initial(schedule@, jobs as int),
    {
        let total = schedule.len();
        let workers = if jobs <= total {
            jobs
        } else {
            total
        };
        let mut slots: Vec<Slot> = Vec::new();
        let mut w: usize = 0;
        while w < workers
            invariant
                w <= workers,
                slots@.len() == w,
                forall|v: int| 0 <= v < w ==> slots@[v] == Slot::Starting,
            decreases workers - w,
        {
            slots.push(Slot::Starting);
            w = w + 1;
        }
        let mut done: Vec<bool> = Vec::new();
        let mut i: usize = 0;
        while i < total
            invariant
                i <= total,
                done@.len() == i,
                forall|k: int| 0 <= k < i ==> !done@[k],
            decreases total - i,
        {
            done.push(false);
            i = i + 1;
        }
        let out = Coordinator { schedule, next: 0, slots, done, failure: None, jobs };
        proof {
            assert(out@.slots =~= initial(schedule@, jobs as int).slots);
            assert(out@.done =~= initial(schedule@, jobs as int).done);
            lemma_initial_valid(schedule@, jobs as int);
        }
        out
    }

    /// The number of workers.
    pub fn worker_count(&self) -> (n: usize)
        ensures
            n == self@.slots.len(),
    {
        self.slots.len()
    }

    /// The number of tasks in the run.
    pub fn total(&self) -> (n: usize)
        ensures
            n == self@.tasks.len(),
    {
        self.schedule.len()
    }

    /// The number of tasks that have been handed out.
    pub fn handed_out(&self) -> (n: usize)
        ensures
            n == self@.next,
    {
        self.next
    }

    /// Whether nothing more will be handed out: every task has been, or
    /// the run has failed.
    pub fn finished(&self) -> (r: bool)
        requires
            self.wf(),
        ensures
            r == (self@.next == self@.tasks.len() || self@.failure is Some),
    {
        self.next == self.schedule.len() || self.failure.is_some()
    }

    /// How the run has gone so far: the first failure, if there was one.
    pub fn outcome(&self) -> (r: Result<(), Error>)
        ensures
            match r {
                Ok(_) => self@.failure is None,
                Err(e) => self@.failure == Some(e@),
            },
    {
        match &self.failure {
            Some(e) => Err(e.clone()),
            None => Ok(()),
        }
    }

    /// The state of a worker; none where there is no worker of that number.
    pub fn slot(&self, worker: usize) -> (r: Option<Slot>)
        ensures
            r == if worker < self@.slots.len() {
                Some(self@.slots[worker as int])
            } else {
                None
            },
    {
        if worker < self.slots.len() {
            Some(self.slots[worker])
        } else {
            None
        }
    }

    /// Whether the task at a position of the schedule is completed.
    pub fn completed(&self, position: usize) -> (r: bool)
        requires
            self.wf(),
        ensures
            r == (position < self@.done.len() && self@.done[position as int]),
    {
        position < self.done.len() && self.done[position]
    }

    /// The free worker with the lowest number, if a worker is free.
    fn idle_worker(&self) -> (r: Option<usize>)
        ensures
            match r {
                Some(w) => first_free(self@.slots, w as int),
                None => !some_free(self@.slots),
            },
    {
        let mut w: usize = 0;
        while w < self.slots.len()
            invariant
                w <= self.slots.len(),
                forall|v: int| 0 <= v < w ==> !(#[trigger] self.slots@[v] is Idle),
            decreases self.slots.len() - w,
        {
            if let Slot::Idle = self.slots[w] {
                return Some(w);
            }
            w = w + 1;
        }
        assert(!some_free(self@.slots)) by {
            if some_free(self@.slots) {
                let v = choose|v: int| first_free(self@.slots, v);
                assert(!(self.slots@[v] is Idle));
            }
        }
        None
    }

    /// Takes note of the ready signal of a worker and hands out every task
    /// that can be handed out now.  The orders come in the order of the
    /// schedule; each goes to the free worker with the lowest number.
    pub fn ready(&mut self, worker: usize) -> (out: Vec<Dispatch>)
        requires
            old(self).wf(),
        ensures
            final(self).wf(),
            final(self)@ == hand_out(signalled(old(self)@, worker as int)),
            dispatch_views(out@) == orders(signalled(old(self)@, worker as int)),
            dispatched(final(self)@) == dispatched(old(self)@) + Seq::new(
                out@.len(),
                |k: int| out@[k]@.task,
            ),
    {
        let mut out: Vec<Dispatch> = Vec::new();
        if worker < self.slots.len() {
            match self.slots[worker] {
                Slot::Busy(i) => {
                    self.done.set(i, true);
                    self.slots.set(worker, Slot::Idle);
                },
                Slot::Gone => {},
                _ => {
                    self.slots.set(worker, Slot::Idle);
                },
            }
        }
        let ghost start = self@;
        proof {
            lemma_signal_valid(old(self)@, worker as int);
            assert(start == signalled(old(self)@, worker as int));
            assert(dispatch_views(out@) =~= Seq::<DispatchView>::empty());
        }
        let total = self.schedule.len();
        let mut go = true;
        while go
            invariant
                valid(self@),
                valid(start),
                total == self@.tasks.len(),
                self@.tasks == start.tasks,
                start.next <= self@.next,
                hand_out(start) == hand_out(self@),
                orders(start) == dispatch_views(out@) + orders(self@),
                out@.len() == self@.next - start.next,
                !go ==> !can_dispatch(self@),
            decreases
                    total - self.next + if go {
                        1int
                    } else {
                        0int
                    },
        {
            let ghost now = self@;
            if self.failure.is_some() || self.next >= total {
                go = false;
            } else if blocker(self.schedule.tasks(), &self.done, self.next).is_some() {
                assert(!head_ready(now));
                go = false;
            } else {
                assert(head_ready(now));
                match self.idle_worker() {
                    None => {
                        go = false;
                    },
                    Some(w) => {
                        proof {
                            lemma_free_worker(now.slots, w as int);
                            lemma_dispatch_valid(now);
                        }
                        let name = self.schedule.tasks()[self.next].name().clone();
                        let order = Dispatch {
                            worker: w,
                            task: name,
                            progress: self.next + 1,
                            total,
                        };
                        assert(order@ == next_dispatch(now));
                        let ghost before = dispatch_views(out@);
                        self.slots.set(w, Slot::Busy(self.next));
                        self.next = self.next + 1;
                        out.push(order);
                        assert(self@ == after_dispatch(now));
                        assert(dispatch_views(out@) =~= before.push(next_dispatch(now)));
                        assert(before + (seq![next_dispatch(now)] + orders(self@)) =~= before.push(
                            next_dispatch(now),
                        ) + orders(self@));
                    },
                }
            }
        }
        proof {
            assert(dispatch_views(out@) + Seq::<DispatchView>::empty() =~= dispatch_views(out@));
            lemma_hand_out(start);
            let sent = Seq::new(out@.len(), |k: int| out@[k]@.task);
            assert(dispatched(self@) =~= dispatched(old(self)@) + sent) by {
                assert(start.next == old(self)@.next);
                assert(start.tasks == old(self)@.tasks);
                assert forall|k: int| 0 <= k < sent.len() implies sent[k] == names(start.tasks)[start.next
                    + k] by {
                    assert(dispatch_views(out@)[k] == orders(start)[k]);
                }
            }
        }
        out
    }

    /// Takes note that a worker is gone.  Where the worker had a task, the
    /// task has failed for the given cause; where it had not signalled yet,
    /// its start has failed.  The first failure of a run is the one that
    /// is kept.
    pub fn exited(&mut self, worker: usize, cause: &str)
        requires
            old(self).wf(),
        ensures
            final(self).wf(),
            final(self)@ == departed(old(self)@, worker as int, cause@),
    {
        proof {
            lemma_depart_valid(self@, worker as int, cause@);
        }
        if worker < self.slots.len() {
            let failure = match self.slots[worker] {
                Slot::Busy(i) => Some(
                    Error::ActionFailure(
                        self.schedule.tasks()[i].name().clone(),
                        owned(cause),
                    ),
                ),
                Slot::Starting => Some(Error::ContextInitFailure),
                _ => None,
            };
            assert(error_option(failure) == exit_failure(self@, worker as int, cause@));
            if self.failure.is_none() {
                self.failure = failure;
            }
            self.slots.set(worker, Slot::Gone);
        }
    }
}

} // verus!
