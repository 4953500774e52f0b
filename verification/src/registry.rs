//! The registry of named tasks and pattern rules.
//!
//! A name is looked up among the named tasks first.  Where no task has the
//! name, the rules are tried in the order in which they were added, and the
//! first whose pattern matches makes the task.  A task made by a rule is
//! kept under its name, so that a later lookup finds it among the tasks.

use vstd::prelude::*;
use crate::error::{Error, ErrorView};
use crate::pattern::is_match;
use crate::rule::{instantiate, Rule, RuleView};
use crate::task::{copy_tasks, names, position_of, task_views, Task, TaskView};
use crate::text::{distinct, find_first, first_at, lemma_find_first, owned};

verus! {

/// What a [`Registry`] holds, as plain sequences.
pub struct RegistryView {
    pub tasks: Seq<TaskView>,
    pub rules: Seq<RuleView>,
    pub default: Option<Seq<char>>,
}

/// The outcome of looking a name up.
pub enum Lookup {
    /// The task of that name, registered or made by a rule.
    Found(TaskView),
    /// The first rule that matches the name, the one with this pattern,
    /// cannot make a task for it.
    Failed(Seq<char>),
    /// No task has the name and no rule matches it.
    Missing,
}

/// The views of a list of rules, in order.
pub open spec fn rule_views(rules: Seq<Rule>) -> Seq<RuleView> {
    Seq::new(rules.len(), |i: int| rules[i]@)
}

/// Rule `i` is the first whose pattern matches the name.
pub open spec fn rule_at(rules: Seq<RuleView>, name: Seq<char>, i: int) -> bool {
    &&& 0 <= i < rules.len()
    &&& is_match(rules[i].pattern, name)
    &&& forall|j: int| 0 <= j < i ==> !is_match(#[trigger] rules[j].pattern, name)
}

/// The first rule whose pattern matches the name, if any does.
pub open spec fn first_rule(rules: Seq<RuleView>, name: Seq<char>) -> Option<int> {
    if exists|i: int| rule_at(rules, name, i) {
        Some(choose|i: int| rule_at(rules, name, i))
    } else {
        None
    }
}

/// What a lookup of `name` in the registry gives.
#[verifier::opaque]
pub open spec fn lookup(reg: RegistryView, name: Seq<char>) -> Lookup {
    match find_first(names(reg.tasks), name) {
        Some(i) => Lookup::Found(reg.tasks[i]),
        None => match first_rule(reg.rules, name) {
            Some(r) => match instantiate(reg.rules[r], name) {
                Some(task) => Lookup::Found(task),
                None => Lookup::Failed(reg.rules[r].pattern),
            },
            None => Lookup::Missing,
        },
    }
}

/// The first matching rule is the only one that `first_rule` can give.
pub proof fn lemma_first_rule(rules: Seq<RuleView>, name: Seq<char>)
    ensures
        forall|i: int| rule_at(rules, name, i) ==> first_rule(rules, name) == Some(i),
        first_rule(rules, name) matches Some(i) ==> rule_at(rules, name, i),
{
    assert forall|i: int| rule_at(rules, name, i) implies first_rule(rules, name) == Some(i) by {
        let j = choose|j: int| rule_at(rules, name, j);
        if j < i {
            assert(!is_match(rules[j].pattern, name));
        }
        if i < j {
            assert(!is_match(rules[i].pattern, name));
        }
    }
}

/// For a name that a registered task has, the lookup gives that task,
/// whatever the rules are.
pub proof fn lemma_rule_priority(reg: RegistryView, i: int)
    requires
        distinct(names(reg.tasks)),
        0 <= i < reg.tasks.len(),
    ensures
        lookup(reg, reg.tasks[i].name) == Lookup::Found(reg.tasks[i]),
{
    reveal(lookup);
    let all = names(reg.tasks);
    assert(all[i] == reg.tasks[i].name);
    assert(first_at(all, reg.tasks[i].name, i)) by {
        assert forall|j: int| 0 <= j < i implies all[j] != reg.tasks[i].name by {
            assert(all[j] != all[i]);
        }
    }
    lemma_find_first(all, reg.tasks[i].name);
}

/// Keeping a task that a rule has made changes the outcome of no lookup.
pub proof fn lemma_lookup_stable(reg: RegistryView, task: TaskView, name: Seq<char>)
    requires
        lookup(reg, task.name) == Lookup::Found(task),
        !names(reg.tasks).contains(task.name),
    ensures
        lookup(RegistryView { tasks: reg.tasks.push(task), ..reg }, name) == lookup(reg, name),
{
    reveal(lookup);
    let grown = RegistryView { tasks: reg.tasks.push(task), ..reg };
    let before = names(reg.tasks);
    let after = names(grown.tasks);
    assert(after =~= before.push(task.name));
    lemma_find_first(before, name);
    lemma_find_first(after, name);
    if name == task.name {
        assert(first_at(after, name, before.len() as int)) by {
            assert forall|j: int| 0 <= j < before.len() implies after[j] != name by {
                assert(before[j] == after[j]);
                assert(before.contains(before[j]));
            }
        }
    } else {
        match find_first(before, name) {
            Some(i) => {
                assert(first_at(after, name, i)) by {
                    assert forall|j: int| 0 <= j < i implies after[j] != name by {
                        assert(before[j] == after[j]);
                    }
                }
            },
            None => {
                if after.contains(name) {
                    let j = choose|j: int| 0 <= j < after.len() && after[j] == name;
                    assert(before[j] == name);
                    assert(before.contains(name));
                }
            },
        }
    }
}

/// The named tasks and the rules of a build, and the name of its default
/// target.  No two tasks have the same name.
#[derive(Debug)]
pub struct Registry {
    tasks: Vec<Task>,
    rules: Vec<Rule>,
    default: Option<String>,
}

impl View for Registry {
    type V = RegistryView;

    closed spec fn view(&self) -> RegistryView {
        RegistryView {
            tasks: task_views(self.tasks@),
            rules: rule_views(self.rules@),
            default: crate::task::text_option(self.default),
        }
    }
}

impl Registry {
    /// The invariant of a registry: no two tasks have the same name.
    pub open spec fn wf(&self) -> bool {
        distinct(names(self@.tasks))
    }

    /// A registry with no task, no rule and no default target.
    pub fn new() -> (out: Registry)
        ensures
            out.wf(),
            out@ == (RegistryView { tasks: Seq::empty(), rules: Seq::empty(), default: None }),
    {
        let out = Registry { tasks: Vec::new(), rules: Vec::new(), default: None };
        assert(out@.tasks =~= Seq::<TaskView>::empty());
        assert(out@.rules =~= Seq::<RuleView>::empty());
        out
    }

    /// Registers a task.  Fails, and changes nothing, where a task of that
    /// name is registered already.
    pub fn insert_task(&mut self, task: Task) -> (r: Result<(), Error>)
        requires
            old(self).wf(),
        ensures
            final(self).wf(),
            match r {
                Ok(_) => !names(old(self)@.tasks).contains(task@.name) && final(self)@ == (
                RegistryView { tasks: old(self)@.tasks.push(task@), ..old(self)@ }),
                Err(e) => names(old(self)@.tasks).contains(task@.name) && final(self)@ == old(self)@ && e@ == ErrorView::Duplicate(task@.name),
            },
    {
        if position_of(&self.tasks, task.name()).is_some() {
            return Err(Error::Duplicate(task.name().clone()));
        }
        proof {
            lemma_push_keeps_distinct(self@.tasks, task@);
        }
        self.tasks.push(task);
        assert(self@.tasks =~= old(self)@.tasks.push(task@));
        Ok(())
    }

    /// Adds a rule after the rules that are there.
    pub fn insert_rule(&mut self, rule: Rule)
        requires
            old(self).wf(),
        ensures
            final(self).wf(),
            final(self)@ == (RegistryView { rules: old(self)@.rules.push(rule@), ..old(self)@ }),
    {
        self.rules.push(rule);
        assert(self@.rules =~= old(self)@.rules.push(rule@));
    }

    /// Names the default target.
    pub fn set_default(&mut self, name: &str)
        requires
            old(self).wf(),
        ensures
            final(self).wf(),
            final(self)@ == (RegistryView { default: Some(name@), ..old(self)@ }),
    {
        self.default = Some(owned(name));
    }

    /// The name of the default target, where one was named.
    pub fn default_task(&self) -> (r: Option<String>)
        ensures
            crate::task::text_option(r) == self@.default,
    {
        crate::task::copy_option(&self.default)
    }

    /// The tasks that the registry holds now: those registered and those
    /// that rules have made so far, in the order in which they came.
    pub fn tasks(&self) -> (out: Vec<Task>)
        ensures
            task_views(out@) == self@.tasks,
    {
        copy_tasks(&self.tasks)
    }

    /// The number of rules.
    pub fn rule_count(&self) -> (n: usize)
        ensures
            n == self@.rules.len(),
    {
        self.rules.len()
    }

    /// The task registered under the name, without trying the rules.
    pub fn get_task(&self, name: &str) -> (r: Option<Task>)
        ensures
            match r {
                Some(task) => find_first(names(self@.tasks), name@) matches Some(i) && task@
                    == self@.tasks[i],
                None => !names(self@.tasks).contains(name@),
            },
    {
        let key = owned(name);
        proof {
            lemma_find_first(names(self@.tasks), name@);
        }
        match position_of(&self.tasks, &key) {
            Some(i) => Some(self.tasks[i].clone()),
            None => None,
        }
    }

    /// Looks a name up: among the tasks first, then among the rules in
    /// their order.  A task that a rule makes is kept, which changes the
    /// outcome of no later lookup.
    pub fn get(&mut self, name: &str) -> (r: Result<Option<Task>, Error>)
        requires
            old(self).wf(),
        ensures
            final(self).wf(),
            match lookup(old(self)@, name@) {
                Lookup::Found(found) => r matches Ok(Some(task)) && task@ == found && final(self)@ == (RegistryView {
                    tasks: if names(old(self)@.tasks).contains(name@) {
                        old(self)@.tasks
                    } else {
                        old(self)@.tasks.push(found)
                    },
                    ..old(self)@
                }),
                Lookup::Failed(pattern) => r matches Err(e) && e@
                    == ErrorView::RuleInstantiationFailed(pattern, name@) && final(self)@ == old(self)@,
                Lookup::Missing => r == Ok::<Option<Task>, Error>(None) && final(self)@ == old(self)@,
            },
            forall|other: Seq<char>| #[trigger]
                lookup(final(self)@, other) == lookup(old(self)@, other),
    {
        let key = owned(name);
        proof {
            reveal(lookup);
            lemma_find_first(names(self@.tasks), name@);
            lemma_first_rule(self@.rules, name@);
        }
        if let Some(i) = position_of(&self.tasks, &key) {
            return Ok(Some(self.tasks[i].clone()));
        }
        let mut r: usize = 0;
        while r < self.rules.len()
            invariant
                r <= self.rules.len(),
                *self == *old(self),
                self.wf(),
                !names(self@.tasks).contains(name@),
                forall|j: int| 0 <= j < r ==> !is_match(#[trigger] self@.rules[j].pattern, name@),
            decreases self.rules.len() - r,
        {
            if self.rules[r].matches(name) {
                assert(rule_at(self@.rules, name@, r as int));
                proof {
                    reveal(lookup);
                    lemma_find_first(names(self@.tasks), name@);
                    lemma_first_rule(self@.rules, name@);
                }
                match self.rules[r].create_task(name) {
                    Ok(task) => {
                        let out = task.clone();
                        proof {
                            lemma_push_keeps_distinct(self@.tasks, task@);
                            let grown = RegistryView {
                                tasks: self@.tasks.push(task@),
                                rules: self@.rules,
                                default: self@.default,
                            };
                            assert forall|other: Seq<char>| #[trigger]
                                lookup(grown, other) == lookup(self@, other) by {
                                lemma_lookup_stable(self@, task@, other);
                            }
                        }
                        self.tasks.push(task);
                        assert(self@.tasks =~= old(self)@.tasks.push(task@));
                        return Ok(Some(out));
                    },
                    Err(e) => {
                        return Err(e);
                    },
                }
            }
            r = r + 1;
        }
        assert(first_rule(self@.rules, name@) is None) by {
            if first_rule(self@.rules, name@) is Some {
                let i = first_rule(self@.rules, name@).unwrap();
                assert(rule_at(self@.rules, name@, i));
                assert(!is_match(self@.rules[i].pattern, name@));
            }
        }
        Ok(None)
    }
}

/// A list of tasks with distinct names stays so when a task of a new name
/// is added at its end.
pub proof fn lemma_push_keeps_distinct(tasks: Seq<TaskView>, task: TaskView)
    requires
        distinct(names(tasks)),
        !names(tasks).contains(task.name),
    ensures
        distinct(names(tasks.push(task))),
{
    let before = names(tasks);
    let after = names(tasks.push(task));
    assert(after =~= before.push(task.name));
    assert forall|i: int, j: int| 0 <= i < j < after.len() implies after[i] != after[j] by {
        if j == before.len() {
            assert(before.contains(before[i]));
        } else {
            assert(before[i] != before[j]);
        }
    }
}

} // verus!
