//! The list of tasks that is shown to the user: the tasks in the order of
//! their names.
//!
//! Names are ordered as strings are: character by character by the number
//! of the character, a name before every longer name that it starts.

use vstd::prelude::*;
use vstd::string::StringExecFns;
use crate::task::{names, task_views, Task, TaskView};
use crate::text::{chars_of, owned, padded, padded_to, texts};

verus! {

/// `a` comes before `b` in the order of strings, or is `b`.
pub open spec fn precedes(a: Seq<char>, b: Seq<char>) -> bool
    decreases a.len(),
{
    if a.len() == 0 {
        true
    } else if b.len() == 0 {
        false
    } else if a[0] != b[0] {
        a[0] < b[0]
    } else {
        precedes(a.drop_first(), b.drop_first())
    }
}

/// Of two strings, one comes before the other or is the other.
pub proof fn lemma_precedes_total(a: Seq<char>, b: Seq<char>)
    ensures
        precedes(a, b) || precedes(b, a),
    decreases a.len(),
{
    if a.len() > 0 && b.len() > 0 && a[0] == b[0] {
        lemma_precedes_total(a.drop_first(), b.drop_first());
    }
}

/// What comes before a string comes before everything after it.
pub proof fn lemma_precedes_transitive(a: Seq<char>, b: Seq<char>, c: Seq<char>)
    requires
        precedes(a, b),
        precedes(b, c),
    ensures
        precedes(a, c),
    decreases a.len(),
{
    if a.len() > 0 && b.len() > 0 && c.len() > 0 && a[0] == b[0] && b[0] == c[0] {
        lemma_precedes_transitive(a.drop_first(), b.drop_first(), c.drop_first());
    }
}

/// Whether `a` comes before `b` in the order of strings, or is `b`.
pub fn comes_before(a: &str, b: &str) -> (r: bool)
    ensures
        r == precedes(a@, b@),
{
    let x = chars_of(a);
    let y = chars_of(b);
    let mut i: usize = 0;
    assert(x@.skip(0) =~= x@);
    assert(y@.skip(0) =~= y@);
    while i < x.len() && i < y.len()
        invariant
            x@ == a@,
            y@ == b@,
            i <= x@.len(),
            i <= y@.len(),
            precedes(x@, y@) == precedes(x@.skip(i as int), y@.skip(i as int)),
        decreases x@.len() - i,
    {
        assert(x@.skip(i as int).drop_first() =~= x@.skip(i + 1));
        assert(y@.skip(i as int).drop_first() =~= y@.skip(i + 1));
        assert(x@.skip(i as int)[0] == x@[i as int]);
        assert(y@.skip(i as int)[0] == y@[i as int]);
        if x[i] != y[i] {
            return x[i] < y[i];
        }
        i = i + 1;
    }
    i == x.len()
}

/// The names of the tasks are in order.
pub open spec fn sorted(tasks: Seq<TaskView>) -> bool {
    forall|i: int, j: int|
        0 <= i < j < tasks.len() ==> precedes(#[trigger] tasks[i].name, #[trigger] tasks[j].name)
}

/// The position of a task of `tasks` whose name comes first.
fn first_name(tasks: &Vec<Task>) -> (at: usize)
    requires
        tasks@.len() > 0,
    ensures
        at < tasks@.len(),
        forall|k: int|
            0 <= k < tasks@.len() ==> precedes(tasks@[at as int]@.name, #[trigger] tasks@[k]@.name),
{
    let mut at: usize = 0;
    let mut k: usize = 1;
    assert(precedes(tasks@[0]@.name, tasks@[0]@.name)) by {
        lemma_precedes_total(tasks@[0]@.name, tasks@[0]@.name);
    }
    while k < tasks.len()
        invariant
            at < k <= tasks@.len(),
            forall|j: int|
                0 <= j < k ==> precedes(tasks@[at as int]@.name, #[trigger] tasks@[j]@.name),
        decreases tasks@.len() - k,
    {
        if !comes_before(tasks[at].name().as_str(), tasks[k].name().as_str()) {
            proof {
                let old_name = tasks@[at as int]@.name;
                let new_name = tasks@[k as int]@.name;
                lemma_precedes_total(old_name, new_name);
                lemma_precedes_total(new_name, new_name);
                assert forall|j: int| 0 <= j < k + 1 implies precedes(
                    new_name,
                    #[trigger] tasks@[j]@.name,
                ) by {
                    if j < k {
                        lemma_precedes_transitive(new_name, old_name, tasks@[j]@.name);
                    }
                }
            }
            at = k;
        }
        k = k + 1;
    }
    at
}

/// The tasks in the order of their names.
pub fn by_name(tasks: Vec<Task>) -> (out: Vec<Task>)
    ensures
        sorted(task_views(out@)),
        task_views(out@).to_multiset() == task_views(tasks@).to_multiset(),
{
    let mut rest = tasks;
    let mut out: Vec<Task> = Vec::new();
    let ghost all = task_views(tasks@).to_multiset();
    assert(task_views(out@) =~= Seq::<TaskView>::empty());
    proof {
        broadcast use vstd::seq_lib::group_to_multiset_ensures;

        assert(task_views(out@).to_multiset().add(task_views(rest@).to_multiset()) =~= all);
    }
    while rest.len() > 0
        invariant
            sorted(task_views(out@)),
            forall|i: int, k: int|
                0 <= i < out@.len() && 0 <= k < rest@.len() ==> precedes(
                    #[trigger] out@[i]@.name,
                    #[trigger] rest@[k]@.name,
                ),
            task_views(out@).to_multiset().add(task_views(rest@).to_multiset()) == all,
        decreases rest@.len(),
    {
        let at = first_name(&rest);
        let ghost before_rest = task_views(rest@);
        let ghost before_out = task_views(out@);
        let ghost held = rest@;
        let task = rest.remove(at);
        assert(task_views(rest@) =~= before_rest.remove(at as int));
        out.push(task);
        assert(task_views(out@) =~= before_out.push(task@));
        proof {
            broadcast use vstd::seq_lib::group_to_multiset_ensures;

            assert(before_rest.to_multiset().count(task@) > 0) by {
                assert(before_rest[at as int] == task@);
                assert(before_rest.contains(task@));
            }
            assert(task_views(out@).to_multiset().add(task_views(rest@).to_multiset()) =~= all);
            assert forall|i: int, j: int| 0 <= i < j < out@.len() implies precedes(
                #[trigger] task_views(out@)[i].name,
                #[trigger] task_views(out@)[j].name,
            ) by {
                if j < out@.len() - 1 {
                    assert(precedes(before_out[i].name, before_out[j].name));
                } else {
                    assert(precedes(out@[i]@.name, held[at as int]@.name));
                }
            }
            assert forall|i: int, k: int|
                0 <= i < out@.len() && 0 <= k < rest@.len() implies precedes(
                #[trigger] out@[i]@.name,
                #[trigger] rest@[k]@.name,
            ) by {
                let source = if k < at {
                    k
                } else {
                    k + 1
                };
                assert(rest@[k] == held[source]);
                if i < out@.len() - 1 {
                    assert(precedes(out@[i]@.name, held[source]@.name));
                } else {
                    assert(precedes(held[at as int]@.name, held[source]@.name));
                }
            }
        }
    }
    proof {
        broadcast use vstd::seq_lib::group_to_multiset_ensures;

        assert(task_views(rest@) =~= Seq::<TaskView>::empty());
        assert(task_views(out@).to_multiset().add(task_views(rest@).to_multiset())
            =~= task_views(out@).to_multiset());
    }
    out
}

/// The width of the column of names in the list of tasks.
pub open spec fn name_width() -> nat {
    16
}

/// The start of the line of a task in the list of tasks: two spaces and
/// the name, padded with spaces to the width of the column.
pub open spec fn name_column(name: Seq<char>) -> Seq<char> {
    seq![' ', ' '] + padded_to(name, name_width())
}

/// The start of the line of a task in the list of tasks.
pub fn name_cell(task: &Task) -> (out: String)
    ensures
        out@ == name_column(task@.name),
{
    proof {
        reveal_strlit("  ");
    }
    let mut out = owned("  ");
    assert(out@ =~= seq![' ', ' ']);
    out.append(padded(task.name().as_str(), 16).as_str());
    out
}

/// The line of a task in the list of tasks: the name in its column, then
/// the description where the task has one.
pub open spec fn entry_line(task: TaskView) -> Seq<char> {
    name_column(task.name) + match task.description {
        Some(text) => text,
        None => Seq::empty(),
    }
}

/// The list of tasks as it is shown: a heading, a line for each task, and
/// where there is a default target an empty line and a line that names it.
pub open spec fn list_text(tasks: Seq<TaskView>, default: Option<Seq<char>>) -> Seq<Seq<char>> {
    seq!["Available tasks:"@] + Seq::new(tasks.len(), |i: int| entry_line(tasks[i])) + match default {
        Some(name) => seq![Seq::empty(), "Default task: "@ + name],
        None => Seq::empty(),
    }
}

/// The lines of the list of the given tasks, in their order.
pub fn list_lines(tasks: &Vec<Task>, default: &Option<String>) -> (out: Vec<String>)
    ensures
        texts(out@) == list_text(task_views(tasks@), crate::task::text_option(*default)),
{
    let mut out: Vec<String> = Vec::new();
    out.push(owned("Available tasks:"));
    let mut i: usize = 0;
    while i < tasks.len()
        invariant
            i <= tasks.len(),
            out@.len() == i + 1,
            out@[0]@ == "Available tasks:"@,
            forall|k: int| 0 <= k < i ==> out@[k + 1]@ == entry_line(tasks@[k]@),
        decreases tasks.len() - i,
    {
        let mut line = name_cell(&tasks[i]);
        if let Some(text) = tasks[i].description() {
            line.append(text.as_str());
        } else {
            assert(line@ + Seq::<char>::empty() =~= line@);
        }
        out.push(line);
        i = i + 1;
    }
    let ghost body = texts(out@);
    match default {
        Some(name) => {
            out.push(String::new());
            let mut last = owned("Default task: ");
            last.append(name.as_str());
            out.push(last);
        },
        None => {},
    }
    assert(texts(out@) =~= list_text(task_views(tasks@), crate::task::text_option(*default)));
    out
}

} // verus!
