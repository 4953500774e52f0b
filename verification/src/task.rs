//! Tasks, the units of a build, and rules, the templates that make tasks
//! for names that fit a pattern.

use vstd::prelude::*;
use crate::text::{copy_texts, first_at, owned, texts};

verus! {

/// A handle to an action that the source of the tasks can run.
pub type ActionId = u64;

/// What a [`Task`] holds, as plain sequences.
pub struct TaskView {
    pub name: Seq<char>,
    pub description: Option<Seq<char>>,
    pub dependencies: Seq<Seq<char>>,
    pub inputs: Seq<Seq<char>>,
    pub outputs: Seq<Seq<char>>,
    pub action: Option<ActionId>,
}

/// A named unit of work: the names of the tasks it depends on, the files it
/// reads and writes, and a handle to its action.  The name is never empty.
#[derive(Debug, PartialEq, Eq)]
pub struct Task {
    name: String,
    description: Option<String>,
    dependencies: Vec<String>,
    inputs: Vec<String>,
    outputs: Vec<String>,
    action: Option<ActionId>,
}

/// The view of an optional string.
pub open spec fn text_option(s: Option<String>) -> Option<Seq<char>> {
    match s {
        Some(t) => Some(t@),
        None => None,
    }
}

/// A copy of an optional string.
pub(crate) fn copy_option(s: &Option<String>) -> (out: Option<String>)
    ensures
        text_option(out) == text_option(*s),
{
    match s {
        Some(t) => Some(t.clone()),
        None => None,
    }
}

impl View for Task {
    type V = TaskView;

    closed spec fn view(&self) -> TaskView {
        TaskView {
            name: self.name@,
            description: text_option(self.description),
            dependencies: texts(self.dependencies@),
            inputs: texts(self.inputs@),
            outputs: texts(self.outputs@),
            action: self.action,
        }
    }
}

impl Clone for Task {
    fn clone(&self) -> (out: Task)
        ensures
            out@ == self@,
    {
        proof {
            use_type_invariant(self);
        }
        Task {
            name: self.name.clone(),
            description: copy_option(&self.description),
            dependencies: copy_texts(&self.dependencies),
            inputs: copy_texts(&self.inputs),
            outputs: copy_texts(&self.outputs),
            action: self.action,
        }
    }
}

impl Task {
    #[verifier::type_invariant]
    spec fn named(&self) -> bool {
        self.name@.len() > 0
    }

    /// A task of the given name with no description, dependencies, files or
    /// action.  There is no task with the empty name.
    pub fn new(name: &str) -> (r: Option<Task>)
        ensures
            name@.len() == 0 <==> r is None,
            r matches Some(t) ==> t@ == (TaskView {
                name: name@,
                description: None,
                dependencies: Seq::empty(),
                inputs: Seq::empty(),
                outputs: Seq::empty(),
                action: None,
            }),
    {
        let name = owned(name);
        if name.as_str().unicode_len() == 0 {
            return None;
        }
        let task = Task {
            name,
            description: None,
            dependencies: Vec::new(),
            inputs: Vec::new(),
            outputs: Vec::new(),
            action: None,
        };
        assert(texts(task.dependencies@) =~= Seq::<Seq<char>>::empty());
        assert(texts(task.inputs@) =~= Seq::<Seq<char>>::empty());
        assert(texts(task.outputs@) =~= Seq::<Seq<char>>::empty());
        Some(task)
    }

    /// The name of the task.
    pub fn name(&self) -> (r: &String)
        ensures
            r@ == self@.name,
            r@.len() > 0,
    {
        proof {
            use_type_invariant(self);
        }
        &self.name
    }

    /// The description, where the task has one.
    pub fn description(&self) -> (r: &Option<String>)
        ensures
            text_option(*r) == self@.description,
    {
        &self.description
    }

    /// The names of the tasks that the task depends on, as declared.
    pub fn dependencies(&self) -> (r: &Vec<String>)
        ensures
            texts(r@) == self@.dependencies,
    {
        &self.dependencies
    }

    /// The paths of the files that the task reads.
    pub fn inputs(&self) -> (r: &Vec<String>)
        ensures
            texts(r@) == self@.inputs,
    {
        &self.inputs
    }

    /// The paths of the files that the task makes.
    pub fn outputs(&self) -> (r: &Vec<String>)
        ensures
            texts(r@) == self@.outputs,
    {
        &self.outputs
    }

    /// The handle of the action, where the task has one.
    pub fn action(&self) -> (r: Option<ActionId>)
        ensures
            r == self@.action,
    {
        self.action
    }

    /// The task with this description.
    pub fn with_description(self, text: &str) -> (out: Task)
        ensures
            out@ == (TaskView { description: Some(text@), ..self@ }),
    {
        proof {
            use_type_invariant(&self);
        }
        let Task { name, description: _, dependencies, inputs, outputs, action } = self;
        Task { name, description: Some(owned(text)), dependencies, inputs, outputs, action }
    }

    /// The task with one more dependency, after those already declared.
    pub fn with_dependency(self, on: &str) -> (out: Task)
        ensures
            out@ == (TaskView { dependencies: self@.dependencies.push(on@), ..self@ }),
    {
        proof {
            use_type_invariant(&self);
        }
        let Task { name, description, mut dependencies, inputs, outputs, action } = self;
        let ghost before = dependencies@;
        dependencies.push(owned(on));
        assert(texts(dependencies@) =~= texts(before).push(on@));
        Task { name, description, dependencies, inputs, outputs, action }
    }

    /// The task with one more input file, after those already declared.
    pub fn with_input(self, path: &str) -> (out: Task)
        ensures
            out@ == (TaskView { inputs: self@.inputs.push(path@), ..self@ }),
    {
        proof {
            use_type_invariant(&self);
        }
        let Task { name, description, dependencies, mut inputs, outputs, action } = self;
        let ghost before = inputs@;
        inputs.push(owned(path));
        assert(texts(inputs@) =~= texts(before).push(path@));
        Task { name, description, dependencies, inputs, outputs, action }
    }

    /// The task with one more output file, after those already declared.
    pub fn with_output(self, path: &str) -> (out: Task)
        ensures
            out@ == (TaskView { outputs: self@.outputs.push(path@), ..self@ }),
    {
        proof {
            use_type_invariant(&self);
        }
        let Task { name, description, dependencies, inputs, mut outputs, action } = self;
        let ghost before = outputs@;
        outputs.push(owned(path));
        assert(texts(outputs@) =~= texts(before).push(path@));
        Task { name, description, dependencies, inputs, outputs, action }
    }

    /// The task with this action.
    pub fn with_action(self, action: ActionId) -> (out: Task)
        ensures
            out@ == (TaskView { action: Some(action), ..self@ }),
    {
        proof {
            use_type_invariant(&self);
        }
        let Task { name, description, dependencies, inputs, outputs, action: _ } = self;
        Task { name, description, dependencies, inputs, outputs, action: Some(action) }
    }
}

/// The views of a list of tasks, in order.
pub open spec fn task_views(tasks: Seq<Task>) -> Seq<TaskView> {
    Seq::new(tasks.len(), |i: int| tasks[i]@)
}

/// The names of a list of tasks, in order.
pub open spec fn names(tasks: Seq<TaskView>) -> Seq<Seq<char>> {
    Seq::new(tasks.len(), |i: int| tasks[i].name)
}

/// The position of the first task of the given name, if there is one.
pub fn position_of(tasks: &Vec<Task>, name: &String) -> (r: Option<usize>)
    ensures
        match r {
            Some(i) => first_at(names(task_views(tasks@)), name@, i as int),
            None => !names(task_views(tasks@)).contains(name@),
        },
{
    let mut i: usize = 0;
    while i < tasks.len()
        invariant
            i <= tasks.len(),
            forall|j: int| 0 <= j < i ==> names(task_views(tasks@))[j] != name@,
        decreases tasks.len() - i,
    {
        if *tasks[i].name() == *name {
            return Some(i);
        }
        i = i + 1;
    }
    None
}

/// A copy of a list of tasks.
pub fn copy_tasks(tasks: &Vec<Task>) -> (out: Vec<Task>)
    ensures
        task_views(out@) == task_views(tasks@),
{
    let mut out: Vec<Task> = Vec::new();
    let mut i: usize = 0;
    while i < tasks.len()
        invariant
            i <= tasks.len(),
            out@.len() == i,
            forall|j: int| 0 <= j < i ==> out@[j]@ == tasks@[j]@,
        decreases tasks.len() - i,
    {
        out.push(tasks[i].clone());
        i = i + 1;
    }
    assert(task_views(out@) =~= task_views(tasks@));
    out
}

} // verus!
