//! The resolver: from the names of the targets to the graph of all tasks
//! that a run of them needs.
//!
//! A target is looked up in the registry and put into the graph, and then
//! each of its dependencies in the order in which the task declares them,
//! depth first.  A name that is met again while its own dependencies are
//! still being followed closes a cycle.

use vstd::prelude::*;
use crate::error::{Error, ErrorView};
use crate::graph::Graph;
use crate::registry::{lookup, Lookup, Registry, RegistryView};
use crate::task::{names, TaskView};
use crate::text::{distinct, find_first, lemma_find_first, position, texts};

verus! {

/// The task named `a` is there and names `b` among its dependencies.
pub open spec fn depends(reg: RegistryView, a: Seq<char>, b: Seq<char>) -> bool {
    lookup(reg, a) matches Lookup::Found(task) && task.dependencies.contains(b)
}

/// Each name of the path depends on the one after it.
pub open spec fn chain(reg: RegistryView, path: Seq<Seq<char>>) -> bool {
    &&& path.len() >= 1
    &&& forall|q: int| 0 <= q < path.len() - 1 ==> depends(reg, #[trigger] path[q], path[q + 1])
}

/// The name is a target or is reached from a target along dependencies.
pub open spec fn reachable(reg: RegistryView, roots: Seq<Seq<char>>, name: Seq<char>) -> bool {
    exists|path: Seq<Seq<char>>|
        #[trigger] chain(reg, path) && roots.contains(path[0]) && path.last() == name
}

/// The path is a cycle: a chain of two names or more that ends where it
/// starts.
pub open spec fn cycle(reg: RegistryView, path: Seq<Seq<char>>) -> bool {
    &&& path.len() >= 2
    &&& path[0] == path.last()
    &&& chain(reg, path)
}

/// Every task of the graph is the task that the registry gives for its
/// name.
pub open spec fn faithful(reg: RegistryView, g: Seq<TaskView>) -> bool {
    forall|i: int| 0 <= i < g.len() ==> lookup(reg, #[trigger] g[i].name) == Lookup::Found(g[i])
}

/// Every dependency of a task of the graph is a task of the graph.
pub open spec fn closed(g: Seq<TaskView>) -> bool {
    forall|i: int, q: int|
        0 <= i < g.len() && 0 <= q < g[i].dependencies.len() ==> names(g).contains(
            #[trigger] g[i].dependencies[q],
        )
}

/// The graph holds what a run of the targets needs: the targets and every
/// task reached from them, each as the registry gives it, and no other.
pub open spec fn resolved(reg: RegistryView, roots: Seq<Seq<char>>, g: Seq<TaskView>) -> bool {
    &&& distinct(names(g))
    &&& faithful(reg, g)
    &&& closed(g)
    &&& forall|r: int| 0 <= r < roots.len() ==> names(g).contains(#[trigger] roots[r])
    &&& forall|i: int| 0 <= i < g.len() ==> reachable(reg, roots, #[trigger] g[i].name)
}

/// Nothing stands in the way of a run of the targets: every name reached
/// from them has a task, and none of them lies on a cycle.
pub open spec fn resolvable(reg: RegistryView, roots: Seq<Seq<char>>) -> bool {
    &&& forall|name: Seq<char>| #[trigger]
        reachable(reg, roots, name) ==> lookup(reg, name) is Found
    &&& forall|path: Seq<Seq<char>>| #[trigger] cycle(reg, path) ==> !reachable(reg, roots, path[0])
}

/// What an error of the resolver says is true of the registry.
pub open spec fn justified(reg: RegistryView, roots: Seq<Seq<char>>, e: ErrorView) -> bool {
    match e {
        ErrorView::UnknownTask(name) => reachable(reg, roots, name) && lookup(reg, name)
            is Missing,
        ErrorView::RuleInstantiationFailed(pattern, name) => reachable(reg, roots, name) && lookup(
            reg,
            name,
        ) == Lookup::Failed(pattern),
        ErrorView::Cycle(path) => cycle(reg, path) && reachable(reg, roots, path[0]),
        _ => false,
    }
}

/// Two registries give the same outcome for every lookup.
pub open spec fn same_lookups(one: RegistryView, other: RegistryView) -> bool {
    forall|name: Seq<char>| #[trigger] lookup(one, name) == lookup(other, name)
}

/// The task that a lookup finds has the name that was looked up.
pub proof fn lemma_found_name(reg: RegistryView, name: Seq<char>)
    ensures
        lookup(reg, name) matches Lookup::Found(task) ==> task.name == name,
{
    reveal(lookup);
    lemma_find_first(names(reg.tasks), name);
    if let Some(i) = find_first(names(reg.tasks), name) {
        assert(names(reg.tasks)[i] == reg.tasks[i].name);
    }
}

/// A target is reachable.
pub proof fn lemma_reach_root(reg: RegistryView, roots: Seq<Seq<char>>, r: int)
    requires
        0 <= r < roots.len(),
    ensures
        reachable(reg, roots, roots[r]),
{
    let path = seq![roots[r]];
    assert(chain(reg, path));
    assert(path[0] == roots[r] && path.last() == roots[r]);
}

/// What a reachable name depends on is reachable.
pub proof fn lemma_reach_step(
    reg: RegistryView,
    roots: Seq<Seq<char>>,
    from: Seq<char>,
    to: Seq<char>,
)
    requires
        reachable(reg, roots, from),
        depends(reg, from, to),
    ensures
        reachable(reg, roots, to),
{
    let path = choose|path: Seq<Seq<char>>|
        #[trigger] chain(reg, path) && roots.contains(path[0]) && path.last() == from;
    let longer = path.push(to);
    assert forall|q: int| 0 <= q < longer.len() - 1 implies depends(
        reg,
        #[trigger] longer[q],
        longer[q + 1],
    ) by {
        if q < path.len() - 1 {
            assert(depends(reg, path[q], path[q + 1]));
        }
    }
    assert(chain(reg, longer));
    assert(longer[0] == path[0] && longer.last() == to);
}

/// The largest number of tasks that a graph can hold.
pub open spec fn limit() -> int {
    usize::MAX as int
}

/// The path of the cycle that `name` closes: the names of the stack from
/// the first place of `name` on, and `name` again.
pub open spec fn closing(stack: Seq<Seq<char>>, name: Seq<char>) -> Seq<Seq<char>> {
    stack.skip(find_first(stack, name).unwrap()).push(name)
}

/// The graph after the task of `name`, which is not in the graph `g`, has
/// been put into it, and after it all that it depends on; or the failure
/// that ends the walk.  The stack holds the names whose dependencies are
/// being followed.
pub open spec fn deepen(
    reg: RegistryView,
    g: Seq<TaskView>,
    stack: Seq<Seq<char>>,
    name: Seq<char>,
) -> Result<Seq<TaskView>, ErrorView>
    decreases limit() - g.len(), 0int, 0int,
{
    match lookup(reg, name) {
        Lookup::Missing => Err(ErrorView::UnknownTask(name)),
        Lookup::Failed(pattern) => Err(ErrorView::RuleInstantiationFailed(pattern, name)),
        Lookup::Found(task) => if g.len() < limit() {
            follow(reg, g.push(task), stack.push(name), task.dependencies, 0)
        } else {
            Err(ErrorView::IoFailure)
        },
    }
}

/// The graph after the dependencies from position `i` on of the task on
/// top of the stack have been followed, in their order; or the failure
/// that ends the walk.  A dependency that is on the stack closes a cycle;
/// one that is in the graph is passed over.
pub open spec fn follow(
    reg: RegistryView,
    g: Seq<TaskView>,
    stack: Seq<Seq<char>>,
    deps: Seq<Seq<char>>,
    i: int,
) -> Result<Seq<TaskView>, ErrorView>
    decreases limit() - g.len(), 1int, deps.len() - i,
{
    if i < 0 || i >= deps.len() {
        Ok(g)
    } else if stack.contains(deps[i]) {
        Err(ErrorView::Cycle(closing(stack, deps[i])))
    } else if names(g).contains(deps[i]) {
        follow(reg, g, stack, deps, i + 1)
    } else {
        match deepen(reg, g, stack, deps[i]) {
            Ok(grown) => if g.len() < grown.len() <= limit() {
                follow(reg, grown, stack, deps, i + 1)
            } else {
                Ok(grown)
            },
            Err(e) => Err(e),
        }
    }
}

/// The graph after the targets from position `r` on have been resolved,
/// in their order; or the failure that ends the walk.
pub open spec fn settle(
    reg: RegistryView,
    g: Seq<TaskView>,
    roots: Seq<Seq<char>>,
    r: int,
) -> Result<Seq<TaskView>, ErrorView>
    decreases roots.len() - r,
{
    if r < 0 || r >= roots.len() {
        Ok(g)
    } else if names(g).contains(roots[r]) {
        settle(reg, g, roots, r + 1)
    } else {
        match deepen(reg, g, Seq::empty(), roots[r]) {
            Ok(grown) => settle(reg, grown, roots, r + 1),
            Err(e) => Err(e),
        }
    }
}

/// What resolving the targets gives: the graph, its tasks in the order in
/// which the walk meets them, or the first failure that the walk meets.
pub open spec fn resolution(reg: RegistryView, roots: Seq<Seq<char>>) -> Result<
    Seq<TaskView>,
    ErrorView,
> {
    settle(reg, Seq::empty(), roots, 0)
}

/// `x` stands in `s` before position `k`.
pub open spec fn earlier(s: Seq<Seq<char>>, x: Seq<char>, k: int) -> bool {
    exists|m: int| 0 <= m < k && m < s.len() && #[trigger] s[m] == x
}

/// `fin` lists names so that each stands after everything it depends on.
pub open spec fn settled(reg: RegistryView, fin: Seq<Seq<char>>) -> bool {
    &&& distinct(fin)
    &&& forall|k: int, d: Seq<char>|
        0 <= k < fin.len() && #[trigger] depends(reg, fin[k], d) ==> earlier(fin, d, k)
}

/// Along a chain that starts in a settled list, every later name stands in
/// the list before the first one.
proof fn lemma_chain_falls(reg: RegistryView, fin: Seq<Seq<char>>, path: Seq<Seq<char>>, q: int)
    requires
        settled(reg, fin),
        chain(reg, path),
        fin.contains(path[0]),
        0 <= q < path.len(),
    ensures
        fin.contains(path[q]),
        q >= 1 ==> exists|a: int, b: int|
            0 <= b < a < fin.len() && #[trigger] fin[a] == path[0] && #[trigger] fin[b] == path[q],
    decreases q,
{
    if q >= 1 {
        lemma_chain_falls(reg, fin, path, q - 1);
        let k = choose|k: int| 0 <= k < fin.len() && fin[k] == path[q - 1];
        assert(depends(reg, path[q - 1], path[q]));
        assert(depends(reg, fin[k], path[q]));
        assert(earlier(fin, path[q], k));
        let m = choose|m: int| 0 <= m < k && m < fin.len() && #[trigger] fin[m] == path[q];
        if q - 1 >= 1 {
            let (a, b) = choose|a: int, b: int|
                0 <= b < a < fin.len() && #[trigger] fin[a] == path[0] && #[trigger] fin[b]
                    == path[q - 1];
            if b != k {
                if b < k {
                    assert(fin[b] != fin[k]);
                } else {
                    assert(fin[k] != fin[b]);
                }
            }
            assert(fin[a] == path[0] && fin[m] == path[q]);
        } else {
            assert(fin[k] == path[0] && fin[m] == path[q]);
        }
    }
}

/// A chain of two names or more that starts in a settled list does not end
/// where it starts.
proof fn lemma_no_cycle(reg: RegistryView, fin: Seq<Seq<char>>, path: Seq<Seq<char>>)
    requires
        settled(reg, fin),
        chain(reg, path),
        path.len() >= 2,
        fin.contains(path[0]),
    ensures
        path[0] != path.last(),
{
    lemma_chain_falls(reg, fin, path, path.len() - 1);
    let (a, b) = choose|a: int, b: int|
        0 <= b < a < fin.len() && #[trigger] fin[a] == path[0] && #[trigger] fin[b]
            == path[path.len() - 1];
    assert(fin[b] != fin[a]);
}

/// The state of the walk: the graph so far, the names whose dependencies
/// are being followed, innermost last, and the names that are done with.
#[verifier::opaque]
spec fn walking(
    reg: RegistryView,
    roots: Seq<Seq<char>>,
    g: Seq<TaskView>,
    stack: Seq<Seq<char>>,
    fin: Seq<Seq<char>>,
) -> bool {
    &&& distinct(names(g))
    &&& faithful(reg, g)
    &&& forall|i: int| 0 <= i < g.len() ==> reachable(reg, roots, #[trigger] g[i].name)
    &&& forall|n: Seq<char>| #[trigger] names(g).contains(n) ==> stack.contains(n) || fin.contains(n)
    &&& forall|n: Seq<char>| #[trigger] stack.contains(n) ==> names(g).contains(n)
    &&& forall|n: Seq<char>| #[trigger]
        fin.contains(n) ==> names(g).contains(n) && !stack.contains(n)
    &&& distinct(stack)
    &&& forall|q: int| 0 <= q < stack.len() - 1 ==> depends(reg, #[trigger] stack[q], stack[q + 1])
    &&& settled(reg, fin)
}

/// The walk goes on when a task that was just found is put into the graph
/// and its name on the stack.
proof fn lemma_enter(
    reg: RegistryView,
    roots: Seq<Seq<char>>,
    g: Seq<TaskView>,
    stack: Seq<Seq<char>>,
    fin: Seq<Seq<char>>,
    task: TaskView,
)
    requires
        walking(reg, roots, g, stack, fin),
        !names(g).contains(task.name),
        lookup(reg, task.name) == Lookup::Found(task),
        reachable(reg, roots, task.name),
        stack.len() > 0 ==> depends(reg, stack.last(), task.name),
    ensures
        walking(reg, roots, g.push(task), stack.push(task.name), fin),
{
    reveal(walking);
    let g2 = g.push(task);
    let stack2 = stack.push(task.name);
    crate::registry::lemma_push_keeps_distinct(g, task);
    assert(names(g2) =~= names(g).push(task.name));
    assert forall|i: int| 0 <= i < g2.len() implies lookup(reg, #[trigger] g2[i].name)
        == Lookup::Found(g2[i]) && reachable(reg, roots, g2[i].name) by {
        if i < g.len() {
            assert(g2[i] == g[i]);
        }
    }
    assert forall|n: Seq<char>| #[trigger] names(g2).contains(n) implies stack2.contains(n)
        || fin.contains(n) by {
        let i = choose|i: int| 0 <= i < names(g2).len() && names(g2)[i] == n;
        if i < g.len() {
            assert(names(g)[i] == n);
            assert(names(g).contains(n));
            if stack.contains(n) {
                let q = choose|q: int| 0 <= q < stack.len() && stack[q] == n;
                assert(stack2[q] == n);
            }
        } else {
            assert(stack2[stack.len() as int] == n);
        }
    }
    assert forall|n: Seq<char>| #[trigger] stack2.contains(n) implies names(g2).contains(n) by {
        let q = choose|q: int| 0 <= q < stack2.len() && stack2[q] == n;
        if q < stack.len() {
            assert(stack[q] == n);
            assert(stack.contains(n));
            let i = choose|i: int| 0 <= i < names(g).len() && names(g)[i] == n;
            assert(names(g2)[i] == n);
        } else {
            assert(names(g2)[g.len() as int] == n);
        }
    }
    assert forall|n: Seq<char>| #[trigger] fin.contains(n) implies names(g2).contains(n)
        && !stack2.contains(n) by {
        assert(names(g).contains(n));
        let i = choose|i: int| 0 <= i < names(g).len() && names(g)[i] == n;
        assert(names(g2)[i] == n);
        if stack2.contains(n) {
            let q = choose|q: int| 0 <= q < stack2.len() && stack2[q] == n;
            if q < stack.len() {
                assert(stack[q] == n);
                assert(stack.contains(n));
            }
        }
    }
    assert(distinct(stack2)) by {
        assert forall|a: int, b: int| 0 <= a < b < stack2.len() implies stack2[a] != stack2[b] by {
            if b == stack.len() {
                assert(stack.contains(stack[a]));
            } else {
                assert(stack[a] != stack[b]);
            }
        }
    }
    assert forall|q: int| 0 <= q < stack2.len() - 1 implies depends(
        reg,
        #[trigger] stack2[q],
        stack2[q + 1],
    ) by {
        if q < stack.len() - 1 {
            assert(depends(reg, stack[q], stack[q + 1]));
        }
    }
}

/// The walk goes on when the innermost name, all of whose dependencies are
/// done with, is taken off the stack and is done with itself.
proof fn lemma_leave(
    reg: RegistryView,
    roots: Seq<Seq<char>>,
    g: Seq<TaskView>,
    stack: Seq<Seq<char>>,
    fin: Seq<Seq<char>>,
    name: Seq<char>,
)
    requires
        walking(reg, roots, g, stack.push(name), fin),
        forall|d: Seq<char>| #[trigger] depends(reg, name, d) ==> fin.contains(d),
    ensures
        walking(reg, roots, g, stack, fin.push(name)),
{
    reveal(walking);
    let stack2 = stack.push(name);
    let fin2 = fin.push(name);
    assert(stack2[stack.len() as int] == name);
    assert(stack2.contains(name));
    assert(!stack.contains(name)) by {
        if stack.contains(name) {
            let q = choose|q: int| 0 <= q < stack.len() && stack[q] == name;
            assert(stack2[q] != stack2[stack.len() as int]);
        }
    }
    assert forall|n: Seq<char>| #[trigger] names(g).contains(n) implies stack.contains(n)
        || fin2.contains(n) by {
        if stack2.contains(n) {
            let q = choose|q: int| 0 <= q < stack2.len() && stack2[q] == n;
            if q < stack.len() {
                assert(stack[q] == n);
            } else {
                assert(fin2[fin.len() as int] == n);
            }
        } else {
            let k = choose|k: int| 0 <= k < fin.len() && fin[k] == n;
            assert(fin2[k] == n);
        }
    }
    assert forall|n: Seq<char>| #[trigger] stack.contains(n) implies names(g).contains(n) by {
        let q = choose|q: int| 0 <= q < stack.len() && stack[q] == n;
        assert(stack2[q] == n);
        assert(stack2.contains(n));
    }
    assert forall|n: Seq<char>| #[trigger] fin2.contains(n) implies names(g).contains(n)
        && !stack.contains(n) by {
        let k = choose|k: int| 0 <= k < fin2.len() && fin2[k] == n;
        if k < fin.len() {
            assert(fin[k] == n);
            assert(fin.contains(n));
            if stack.contains(n) {
                let q = choose|q: int| 0 <= q < stack.len() && stack[q] == n;
                assert(stack2[q] == n);
                assert(stack2.contains(n));
            }
        }
    }
    assert(distinct(stack)) by {
        assert forall|a: int, b: int| 0 <= a < b < stack.len() implies stack[a] != stack[b] by {
            assert(stack2[a] != stack2[b]);
        }
    }
    assert forall|q: int| 0 <= q < stack.len() - 1 implies depends(
        reg,
        #[trigger] stack[q],
        stack[q + 1],
    ) by {
        assert(depends(reg, stack2[q], stack2[q + 1]));
    }
    assert(distinct(fin2)) by {
        assert forall|a: int, b: int| 0 <= a < b < fin2.len() implies fin2[a] != fin2[b] by {
            if b == fin.len() {
                assert(fin.contains(fin[a]));
            } else {
                assert(fin[a] != fin[b]);
            }
        }
    }
    assert forall|k: int, d: Seq<char>|
        0 <= k < fin2.len() && #[trigger] depends(reg, fin2[k], d) implies earlier(fin2, d, k) by {
        if k < fin.len() {
            assert(depends(reg, fin[k], d));
            assert(earlier(fin, d, k));
            let m = choose|m: int| 0 <= m < k && m < fin.len() && #[trigger] fin[m] == d;
            assert(fin2[m] == d);
        } else {
            assert(fin.contains(d));
            let m = choose|m: int| 0 <= m < fin.len() && fin[m] == d;
            assert(fin2[m] == d);
        }
    }
}

/// Where the walk has ended with every target in the graph, the graph is
/// resolved and nothing stood in the way.
proof fn lemma_done(
    reg: RegistryView,
    roots: Seq<Seq<char>>,
    g: Seq<TaskView>,
    fin: Seq<Seq<char>>,
)
    requires
        walking(reg, roots, g, Seq::empty(), fin),
        forall|r: int| 0 <= r < roots.len() ==> names(g).contains(#[trigger] roots[r]),
    ensures
        resolved(reg, roots, g),
        resolvable(reg, roots),
{
    reveal(walking);
    let none = Seq::<Seq<char>>::empty();
    assert forall|n: Seq<char>| names(g).contains(n) implies fin.contains(n) by {
        assert(!none.contains(n));
    }
    assert forall|i: int, q: int|
        0 <= i < g.len() && 0 <= q < g[i].dependencies.len() implies names(g).contains(
        #[trigger] g[i].dependencies[q],
    ) by {
        let d = g[i].dependencies[q];
        assert(names(g)[i] == g[i].name);
        assert(names(g).contains(g[i].name));
        let k = choose|k: int| 0 <= k < fin.len() && fin[k] == g[i].name;
        assert(depends(reg, fin[k], d));
        assert(earlier(fin, d, k));
        let m = choose|m: int| 0 <= m < k && m < fin.len() && #[trigger] fin[m] == d;
        assert(fin.contains(d));
    }
    assert forall|name: Seq<char>| #[trigger] reachable(reg, roots, name) implies lookup(reg, name)
        is Found && fin.contains(name) by {
        let path = choose|path: Seq<Seq<char>>|
            #[trigger] chain(reg, path) && roots.contains(path[0]) && path.last() == name;
        let r = choose|r: int| 0 <= r < roots.len() && roots[r] == path[0];
        assert(names(g).contains(roots[r]));
        lemma_chain_falls(reg, fin, path, path.len() - 1);
        assert(names(g).contains(name));
        let i = choose|i: int| 0 <= i < names(g).len() && names(g)[i] == name;
        assert(g[i].name == name);
    }
    assert forall|path: Seq<Seq<char>>| #[trigger] cycle(reg, path) implies !reachable(
        reg,
        roots,
        path[0],
    ) by {
        if reachable(reg, roots, path[0]) {
            lemma_no_cycle(reg, fin, path);
        }
    }
}

/// The walk can begin: nothing is in the graph, on the stack or done with.
proof fn lemma_begin(reg: RegistryView, roots: Seq<Seq<char>>)
    ensures
        walking(reg, roots, Seq::empty(), Seq::empty(), Seq::empty()),
{
    reveal(walking);
    assert(names(Seq::<TaskView>::empty()) =~= Seq::<Seq<char>>::empty());
}

/// In the state of a walk, the names of the graph are distinct, and what is
/// done with is in the graph.
proof fn lemma_walk_facts(
    reg: RegistryView,
    roots: Seq<Seq<char>>,
    g: Seq<TaskView>,
    stack: Seq<Seq<char>>,
    fin: Seq<Seq<char>>,
)
    requires
        walking(reg, roots, g, stack, fin),
    ensures
        distinct(names(g)),
        forall|n: Seq<char>| fin.contains(n) ==> #[trigger] names(g).contains(n),
{
    reveal(walking);
}

/// A name of the graph that is not on the stack is done with.
proof fn lemma_passed(
    reg: RegistryView,
    roots: Seq<Seq<char>>,
    g: Seq<TaskView>,
    stack: Seq<Seq<char>>,
    fin: Seq<Seq<char>>,
    name: Seq<char>,
)
    requires
        walking(reg, roots, g, stack, fin),
        names(g).contains(name),
        !stack.contains(name),
    ensures
        fin.contains(name),
{
    reveal(walking);
}

/// A dependency of the innermost name that is on the stack closes a cycle
/// that is reached from the targets.
proof fn lemma_closes(
    reg: RegistryView,
    roots: Seq<Seq<char>>,
    g: Seq<TaskView>,
    stack: Seq<Seq<char>>,
    fin: Seq<Seq<char>>,
    dep: Seq<char>,
)
    requires
        walking(reg, roots, g, stack, fin),
        stack.len() > 0,
        depends(reg, stack.last(), dep),
        stack.contains(dep),
    ensures
        justified(reg, roots, ErrorView::Cycle(closing(stack, dep))),
{
    reveal(walking);
    lemma_find_first(stack, dep);
    let at = find_first(stack, dep).unwrap();
    let way = closing(stack, dep);
    assert(way[0] == stack[at]);
    assert forall|q: int| 0 <= q < way.len() - 1 implies depends(reg, #[trigger] way[q], way[q + 1]) by {
        if at + q + 1 < stack.len() {
            assert(depends(reg, stack[at + q], stack[at + q + 1]));
        } else {
            assert(way[q] == stack[stack.len() - 1]);
        }
    }
    assert(names(g).contains(dep));
    let k = choose|k: int| 0 <= k < names(g).len() && names(g)[k] == dep;
    assert(g[k].name == dep);
}

/// The names of the stack from position `at` on, and `name` after them.
fn close_cycle(stack: &Vec<String>, at: usize, name: &String) -> (path: Vec<String>)
    requires
        at < stack@.len(),
    ensures
        texts(path@) == texts(stack@).skip(at as int).push(name@),
{
    let mut path: Vec<String> = Vec::new();
    let mut q: usize = at;
    while q < stack.len()
        invariant
            at <= q <= stack@.len(),
            path@.len() == q - at,
            forall|p: int| 0 <= p < path@.len() ==> #[trigger] path@[p]@ == stack@[at + p]@,
        decreases stack@.len() - q,
    {
        path.push(stack[q].clone());
        q = q + 1;
    }
    path.push(name.clone());
    assert(texts(path@) =~= texts(stack@).skip(at as int).push(name@));
    path
}

/// Puts the task of `name`, which is not in the graph yet, into the graph,
/// and after it all that it depends on.
fn visit(
    registry: &mut Registry,
    graph: &mut Graph,
    stack: &mut Vec<String>,
    name: &String,
    Ghost(reg): Ghost<RegistryView>,
    Ghost(roots): Ghost<Seq<Seq<char>>>,
    Ghost(fin): Ghost<Seq<Seq<char>>>,
) -> (r: Result<Ghost<Seq<Seq<char>>>, Error>)
    requires
        old(registry).wf(),
        same_lookups(old(registry)@, reg),
        walking(reg, roots, old(graph)@, texts(old(stack)@), fin),
        !names(old(graph)@).contains(name@),
        reachable(reg, roots, name@),
        old(stack)@.len() > 0 ==> depends(reg, texts(old(stack)@).last(), name@),
    ensures
        final(registry).wf(),
        same_lookups(final(registry)@, reg),
        final(registry)@.rules == old(registry)@.rules,
        final(registry)@.default == old(registry)@.default,
        match r {
            Ok(_) => deepen(reg, old(graph)@, texts(old(stack)@), name@) == Ok::<
                Seq<TaskView>,
                ErrorView,
            >(final(graph)@),
            Err(e) => deepen(reg, old(graph)@, texts(old(stack)@), name@) == Err::<
                Seq<TaskView>,
                ErrorView,
            >(e@),
        },
        match r {
            Ok(done) => {
                &&& walking(reg, roots, final(graph)@, texts(final(stack)@), done@)
                &&& texts(final(stack)@) == texts(old(stack)@)
                &&& done@.contains(name@)
                &&& final(graph)@.len() > old(graph)@.len()
                &&& forall|n: Seq<char>| fin.contains(n) ==> #[trigger] done@.contains(n)
                &&& forall|n: Seq<char>|
                    names(old(graph)@).contains(n) ==> #[trigger] names(final(graph)@).contains(n)
            },
            Err(e) => justified(reg, roots, e@),
        },
    decreases usize::MAX - old(graph)@.len(),
{
    let ghost g0 = graph@;
    let ghost stack0 = texts(stack@);
    let task = match registry.get(name.as_str()) {
        Ok(Some(task)) => task,
        Ok(None) => {
            return Err(Error::UnknownTask(name.clone()));
        },
        Err(e) => {
            return Err(e);
        },
    };
    proof {
        lemma_found_name(reg, name@);
        lemma_walk_facts(reg, roots, g0, stack0, fin);
        lemma_enter(reg, roots, g0, stack0, fin, task@);
    }
    let fresh = graph.insert(task.clone());
    assert(fresh);
    let size = graph.len();
    assert(g0.len() < limit());
    stack.push(name.clone());
    assert(texts(stack@) =~= stack0.push(name@));
    assert forall|n: Seq<char>| names(g0).contains(n) implies #[trigger] names(graph@).contains(
        n,
    ) by {
        let i = choose|i: int| 0 <= i < names(g0).len() && names(g0)[i] == n;
        assert(names(graph@)[i] == n);
    }
    let deps = task.dependencies();
    let ghost mut cur = fin;
    let mut i: usize = 0;
    while i < deps.len()
        invariant
            registry.wf(),
            same_lookups(registry@, reg),
            registry@.rules == old(registry)@.rules,
            registry@.default == old(registry)@.default,
            walking(reg, roots, graph@, texts(stack@), cur),
            texts(stack@) == stack0.push(name@),
            stack@.len() > 0,
            graph@.len() > g0.len(),
            g0 == old(graph)@,
            stack0 == texts(old(stack)@),
            i <= deps.len(),
            texts(deps@) == task@.dependencies,
            lookup(reg, name@) == Lookup::Found(task@),
            reachable(reg, roots, name@),
            deepen(reg, g0, stack0, name@) == follow(
                reg,
                graph@,
                texts(stack@),
                task@.dependencies,
                i as int,
            ),
            forall|q: int| 0 <= q < i ==> cur.contains(#[trigger] texts(deps@)[q]),
            forall|n: Seq<char>| fin.contains(n) ==> #[trigger] cur.contains(n),
            forall|n: Seq<char>| names(g0).contains(n) ==> #[trigger] names(graph@).contains(n),
        decreases deps.len() - i,
    {
        let dep = &deps[i];
        assert(texts(deps@)[i as int] == dep@);
        assert(depends(reg, name@, dep@));
        if let Some(at) = position(stack, dep) {
            let path = close_cycle(stack, at, dep);
            proof {
                lemma_find_first(texts(stack@), dep@);
                assert(texts(stack@).contains(dep@));
                lemma_closes(reg, roots, graph@, texts(stack@), cur, dep@);
                assert(task@.dependencies[i as int] == dep@);
                assert(follow(reg, graph@, texts(stack@), task@.dependencies, i as int) == Err::<
                    Seq<TaskView>,
                    ErrorView,
                >(ErrorView::Cycle(closing(texts(stack@), dep@))));
                assert(texts(path@) == closing(texts(stack@), dep@));
            }
            return Err(Error::Cycle(path));
        }
        if graph.contains(dep.as_str()) {
            proof {
                lemma_passed(reg, roots, graph@, texts(stack@), cur, dep@);
            }
        } else {
            proof {
                lemma_reach_step(reg, roots, name@, dep@);
            }
            let ghost before = graph@;
            let size = graph.len();
            assert(usize::MAX - size < usize::MAX - g0.len());
            let ghost stack_now = texts(stack@);
            assert(!stack_now.contains(dep@));
            assert(task@.dependencies[i as int] == dep@);
            let outcome = visit(registry, graph, stack, dep, Ghost(reg), Ghost(roots), Ghost(cur));
            let grown = graph.len();
            proof {
                let step = deepen(reg, before, stack_now, dep@);
                assert(follow(reg, before, stack_now, task@.dependencies, i as int) == match step {
                    Ok(g2) => if before.len() < g2.len() <= limit() {
                        follow(reg, g2, stack_now, task@.dependencies, i + 1)
                    } else {
                        Ok(g2)
                    },
                    Err(e) => Err(e),
                });
            }
            match outcome {
                Ok(done) => {
                    proof {
                        assert forall|q: int| 0 <= q <= i implies done@.contains(
                            #[trigger] texts(deps@)[q],
                        ) by {
                            if q < i {
                                assert(cur.contains(texts(deps@)[q]));
                            }
                        }
                        assert forall|n: Seq<char>| fin.contains(n) implies #[trigger]
                            done@.contains(n) by {
                            assert(cur.contains(n));
                        }
                        assert forall|n: Seq<char>| names(g0).contains(n) implies #[trigger]
                            names(graph@).contains(n) by {
                            assert(names(before).contains(n));
                        }
                        cur = done@;
                    }
                },
                Err(e) => {
                    return Err(e);
                },
            }
        }
        i = i + 1;
    }
    let ghost full = texts(stack@);
    stack.pop();
    assert(texts(stack@) =~= full.drop_last());
    assert(texts(stack@) =~= stack0);
    proof {
        assert forall|d: Seq<char>| #[trigger] depends(reg, name@, d) implies cur.contains(d) by {
            let q = choose|q: int|
                0 <= q < task@.dependencies.len() && task@.dependencies[q] == d;
            assert(cur.contains(texts(deps@)[q]));
        }
        lemma_leave(reg, roots, graph@, stack0, cur, name@);
        assert(cur.push(name@)[cur.len() as int] == name@);
        assert forall|n: Seq<char>| fin.contains(n) implies #[trigger] cur.push(name@).contains(
            n,
        ) by {
            assert(cur.contains(n));
            let k = choose|k: int| 0 <= k < cur.len() && cur[k] == n;
            assert(cur.push(name@)[k] == n);
        }
    }
    Ok(Ghost(cur.push(name@)))
}

/// Resolves the targets into the graph of all tasks that a run of them
/// needs.  Each target is looked up in the registry and put into the graph,
/// then its dependencies in their declared order, depth first; a name that
/// is in the graph already is passed over.  Fails where a name that is
/// reached has neither a task nor a rule, where its rule cannot make the
/// task, and where a task depends on itself through others.
pub fn resolve(registry: &mut Registry, roots: &Vec<String>) -> (r: Result<Graph, Error>)
    requires
        old(registry).wf(),
    ensures
        final(registry).wf(),
        same_lookups(final(registry)@, old(registry)@),
        final(registry)@.rules == old(registry)@.rules,
        final(registry)@.default == old(registry)@.default,
        r is Ok <==> resolvable(old(registry)@, texts(roots@)),
        match r {
            Ok(graph) => graph.wf() && resolved(old(registry)@, texts(roots@), graph@)
                && resolution(old(registry)@, texts(roots@)) == Ok::<Seq<TaskView>, ErrorView>(
                graph@,
            ),
            Err(e) => justified(old(registry)@, texts(roots@), e@) && resolution(
                old(registry)@,
                texts(roots@),
            ) == Err::<Seq<TaskView>, ErrorView>(e@),
        },
{
    let ghost reg = registry@;
    let ghost targets = texts(roots@);
    let mut graph = Graph::new();
    let mut stack: Vec<String> = Vec::new();
    let ghost mut fin = Seq::<Seq<char>>::empty();
    assert(texts(stack@) =~= Seq::<Seq<char>>::empty());
    assert(names(graph@) =~= Seq::<Seq<char>>::empty());
    proof {
        lemma_begin(reg, targets);
    }
    let mut r: usize = 0;
    while r < roots.len()
        invariant
            registry.wf(),
            same_lookups(registry@, reg),
            registry@.rules == reg.rules,
            registry@.default == reg.default,
            targets == texts(roots@),
            reg == old(registry)@,
            r <= roots.len(),
            stack@.len() == 0,
            walking(reg, targets, graph@, Seq::empty(), fin),
            forall|q: int| 0 <= q < r ==> names(graph@).contains(#[trigger] targets[q]),
            resolution(reg, targets) == settle(reg, graph@, targets, r as int),
        decreases roots.len() - r,
    {
        assert(texts(stack@) =~= Seq::<Seq<char>>::empty());
        assert(targets[r as int] == roots@[r as int]@);
        if !graph.contains(roots[r].as_str()) {
            proof {
                lemma_reach_root(reg, targets, r as int);
            }
            let ghost before = graph@;
            match visit(
                registry,
                &mut graph,
                &mut stack,
                &roots[r],
                Ghost(reg),
                Ghost(targets),
                Ghost(fin),
            ) {
                Ok(done) => {
                    proof {
                        lemma_walk_facts(reg, targets, graph@, Seq::empty(), done@);
                        assert(names(graph@).contains(targets[r as int]));
                        assert forall|q: int| 0 <= q < r implies names(graph@).contains(
                            #[trigger] targets[q],
                        ) by {
                            assert(names(before).contains(targets[q]));
                        }
                        assert(texts(stack@) =~= Seq::<Seq<char>>::empty());
                        fin = done@;
                    }
                },
                Err(e) => {
                    proof {
                        lemma_unjustified(reg, targets, e@);
                    }
                    return Err(e);
                },
            }
        }
        r = r + 1;
    }
    proof {
        lemma_done(reg, targets, graph@, fin);
    }
    Ok(graph)
}

/// Where an error of the resolver is justified, something stands in the
/// way of a run.
pub proof fn lemma_unjustified(reg: RegistryView, roots: Seq<Seq<char>>, e: ErrorView)
    requires
        justified(reg, roots, e),
    ensures
        !resolvable(reg, roots),
{
    match e {
        ErrorView::UnknownTask(name) => {
            assert(reachable(reg, roots, name) && !(lookup(reg, name) is Found));
        },
        ErrorView::RuleInstantiationFailed(pattern, name) => {
            assert(reachable(reg, roots, name) && !(lookup(reg, name) is Found));
        },
        ErrorView::Cycle(path) => {
            assert(cycle(reg, path) && reachable(reg, roots, path[0]));
        },
        _ => {},
    }
}

/// A cycle of a resolved graph is a cycle of the registry that is reached
/// from the targets.
pub proof fn lemma_graph_cycle(
    reg: RegistryView,
    roots: Seq<Seq<char>>,
    g: Seq<TaskView>,
    path: Seq<Seq<char>>,
)
    requires
        resolved(reg, roots, g),
        crate::graph::cycle_in(g, path),
    ensures
        cycle(reg, path),
        reachable(reg, roots, path[0]),
{
    assert forall|q: int| 0 <= q < path.len() - 1 implies depends(
        reg,
        #[trigger] path[q],
        path[q + 1],
    ) by {
        assert(crate::graph::link(g, path[q], path[q + 1]));
        let (i, j) = choose|i: int, j: int| #[trigger]
            crate::order::depends_on(g, i, j) && g[i].name == path[q] && g[j].name == path[q + 1];
        assert(lookup(reg, g[i].name) == Lookup::Found(g[i]));
    }
    assert(crate::graph::link(g, path[0], path[1]));
    let (i, j) = choose|i: int, j: int| #[trigger]
        crate::order::depends_on(g, i, j) && g[i].name == path[0] && g[j].name == path[1];
    assert(reachable(reg, roots, g[i].name));
}

/// What the resolver says of a registry holds of every registry that gives
/// the same outcome for every lookup.
pub proof fn lemma_same_lookups(
    one: RegistryView,
    other: RegistryView,
    roots: Seq<Seq<char>>,
    g: Seq<TaskView>,
)
    requires
        same_lookups(one, other),
    ensures
        resolved(one, roots, g) == resolved(other, roots, g),
        resolvable(one, roots) == resolvable(other, roots),
{
    lemma_lookups_carry(one, other, roots, g);
    assert(same_lookups(other, one)) by {
        assert forall|name: Seq<char>| #[trigger] lookup(other, name) == lookup(one, name) by {
            assert(lookup(one, name) == lookup(other, name));
        }
    }
    lemma_lookups_carry(other, one, roots, g);
}

/// One direction of `lemma_same_lookups`.
proof fn lemma_lookups_carry(
    one: RegistryView,
    other: RegistryView,
    roots: Seq<Seq<char>>,
    g: Seq<TaskView>,
)
    requires
        same_lookups(one, other),
    ensures
        resolved(one, roots, g) ==> resolved(other, roots, g),
        resolvable(one, roots) ==> resolvable(other, roots),
        forall|name: Seq<char>| #[trigger]
            reachable(one, roots, name) ==> reachable(other, roots, name),
        forall|name: Seq<char>| #[trigger]
            reachable(other, roots, name) ==> reachable(one, roots, name),
{
    assert forall|a: Seq<char>, b: Seq<char>| #[trigger]
        depends(one, a, b) == depends(other, a, b) by {
        assert(lookup(one, a) == lookup(other, a));
    }
    assert forall|path: Seq<Seq<char>>| #[trigger] chain(one, path) == chain(other, path) by {
        if chain(one, path) {
            assert forall|q: int| 0 <= q < path.len() - 1 implies depends(
                other,
                #[trigger] path[q],
                path[q + 1],
            ) by {
                assert(depends(one, path[q], path[q + 1]));
            }
        }
        if chain(other, path) {
            assert forall|q: int| 0 <= q < path.len() - 1 implies depends(
                one,
                #[trigger] path[q],
                path[q + 1],
            ) by {
                assert(depends(other, path[q], path[q + 1]));
            }
        }
    }
    assert forall|name: Seq<char>| #[trigger] reachable(one, roots, name) implies reachable(
        other,
        roots,
        name,
    ) by {
        let path = choose|path: Seq<Seq<char>>|
            #[trigger] chain(one, path) && roots.contains(path[0]) && path.last() == name;
        assert(chain(other, path));
    }
    assert forall|name: Seq<char>| #[trigger] reachable(other, roots, name) implies reachable(
        one,
        roots,
        name,
    ) by {
        let path = choose|path: Seq<Seq<char>>|
            #[trigger] chain(other, path) && roots.contains(path[0]) && path.last() == name;
        assert(chain(one, path));
    }
    if resolved(one, roots, g) {
        assert forall|i: int| 0 <= i < g.len() implies lookup(other, #[trigger] g[i].name)
            == Lookup::Found(g[i]) && reachable(other, roots, g[i].name) by {
            assert(lookup(one, g[i].name) == lookup(other, g[i].name));
            assert(reachable(one, roots, g[i].name));
        }
    }
    if resolvable(one, roots) {
        assert forall|name: Seq<char>| #[trigger] reachable(other, roots, name) implies lookup(
            other,
            name,
        ) is Found by {
            assert(reachable(one, roots, name));
            assert(lookup(one, name) == lookup(other, name));
        }
        assert forall|path: Seq<Seq<char>>| #[trigger] cycle(other, path) implies !reachable(
            other,
            roots,
            path[0],
        ) by {
            assert(chain(one, path) == chain(other, path));
            assert(cycle(one, path));
            if reachable(other, roots, path[0]) {
                assert(reachable(one, roots, path[0]));
            }
        }
    }
}

/// `deepen` depends on the registry only through the outcomes of lookups.
proof fn lemma_deepen_same(
    one: RegistryView,
    other: RegistryView,
    g: Seq<TaskView>,
    stack: Seq<Seq<char>>,
    name: Seq<char>,
)
    requires
        same_lookups(one, other),
    ensures
        deepen(one, g, stack, name) == deepen(other, g, stack, name),
    decreases limit() - g.len(), 0int, 0int,
{
    assert(lookup(one, name) == lookup(other, name));
    if let Lookup::Found(task) = lookup(one, name) {
        if g.len() < limit() {
            lemma_follow_same(one, other, g.push(task), stack.push(name), task.dependencies, 0);
        }
    }
}

/// `follow` depends on the registry only through the outcomes of lookups.
proof fn lemma_follow_same(
    one: RegistryView,
    other: RegistryView,
    g: Seq<TaskView>,
    stack: Seq<Seq<char>>,
    deps: Seq<Seq<char>>,
    i: int,
)
    requires
        same_lookups(one, other),
    ensures
        follow(one, g, stack, deps, i) == follow(other, g, stack, deps, i),
    decreases limit() - g.len(), 1int, deps.len() - i,
{
    if 0 <= i < deps.len() && !stack.contains(deps[i]) {
        if names(g).contains(deps[i]) {
            lemma_follow_same(one, other, g, stack, deps, i + 1);
        } else {
            lemma_deepen_same(one, other, g, stack, deps[i]);
            if let Ok(grown) = deepen(one, g, stack, deps[i]) {
                if g.len() < grown.len() <= limit() {
                    lemma_follow_same(one, other, grown, stack, deps, i + 1);
                }
            }
        }
    }
}

/// `settle` depends on the registry only through the outcomes of lookups.
proof fn lemma_settle_same(
    one: RegistryView,
    other: RegistryView,
    g: Seq<TaskView>,
    roots: Seq<Seq<char>>,
    r: int,
)
    requires
        same_lookups(one, other),
    ensures
        settle(one, g, roots, r) == settle(other, g, roots, r),
    decreases roots.len() - r,
{
    if 0 <= r < roots.len() {
        if names(g).contains(roots[r]) {
            lemma_settle_same(one, other, g, roots, r + 1);
        } else {
            lemma_deepen_same(one, other, g, Seq::empty(), roots[r]);
            if let Ok(grown) = deepen(one, g, Seq::empty(), roots[r]) {
                lemma_settle_same(one, other, grown, roots, r + 1);
            }
        }
    }
}

/// What resolving the targets gives is determined by the targets and by
/// what the registry gives for each name: registries that give the same
/// outcome for every lookup give the same graph, or the same failure.
pub proof fn lemma_resolution_determined(
    one: RegistryView,
    other: RegistryView,
    roots: Seq<Seq<char>>,
)
    requires
        same_lookups(one, other),
    ensures
        resolution(one, roots) == resolution(other, roots),
{
    lemma_settle_same(one, other, Seq::empty(), roots, 0);
}

} // verus!
