//! Rules: templates that make a task for any name that fits a pattern.

use vstd::prelude::*;
use crate::error::{Error, ErrorView};
use crate::pattern::{captures, is_match, match_pattern, substitute, substitute_text};
use crate::task::{text_option, ActionId, Task, TaskView};
use crate::text::{owned, texts};

verus! {

/// What a [`Rule`] holds, as plain sequences.
pub struct RuleView {
    pub pattern: Seq<char>,
    pub description: Option<Seq<char>>,
    pub dependencies: Seq<Seq<char>>,
    pub inputs: Seq<Seq<char>>,
    pub outputs: Seq<Seq<char>>,
    pub action: Option<ActionId>,
}

/// A template for tasks.  Its pattern says for which names it makes a task;
/// its dependencies, inputs and outputs are templates that are filled in
/// with what the pattern captured in the name.  The description and the
/// action are handed to every task as they are.
#[derive(Debug, PartialEq, Eq)]
pub struct Rule {
    pattern: String,
    description: Option<String>,
    dependencies: Vec<String>,
    inputs: Vec<String>,
    outputs: Vec<String>,
    action: Option<ActionId>,
}

impl View for Rule {
    type V = RuleView;

    closed spec fn view(&self) -> RuleView {
        RuleView {
            pattern: self.pattern@,
            description: text_option(self.description),
            dependencies: texts(self.dependencies@),
            inputs: texts(self.inputs@),
            outputs: texts(self.outputs@),
            action: self.action,
        }
    }
}

/// Each template of a list filled in, where all of them can be.
pub open spec fn substitute_each(
    templates: Seq<Seq<char>>,
    name: Seq<char>,
    caps: Seq<Seq<char>>,
) -> Option<Seq<Seq<char>>> {
    if forall|i: int|
        0 <= i < templates.len() ==> (#[trigger] substitute(templates[i], name, caps)) is Some {
        Some(Seq::new(templates.len(), |i: int| substitute(templates[i], name, caps).unwrap()))
    } else {
        None
    }
}

/// The task that a rule makes for a name: none where the name is empty,
/// where the pattern does not match it, or where a template refers to a
/// capture that the match does not have.
pub open spec fn instantiate(rule: RuleView, name: Seq<char>) -> Option<TaskView> {
    if name.len() == 0 {
        None
    } else {
        match captures(rule.pattern, name) {
            None => None,
            Some(caps) => match (
                substitute_each(rule.dependencies, name, caps),
                substitute_each(rule.inputs, name, caps),
                substitute_each(rule.outputs, name, caps),
            ) {
                (Some(dependencies), Some(inputs), Some(outputs)) => Some(
                    TaskView {
                        name,
                        description: rule.description,
                        dependencies,
                        inputs,
                        outputs,
                        action: rule.action,
                    },
                ),
                _ => None,
            },
        }
    }
}

/// Fills in each template of a list.
fn substitute_list(templates: &Vec<String>, name: &str, caps: &Vec<String>) -> (r: Option<
    Vec<String>,
>)
    ensures
        match r {
            Some(out) => substitute_each(texts(templates@), name@, texts(caps@)) == Some(
                texts(out@),
            ),
            None => substitute_each(texts(templates@), name@, texts(caps@)) is None,
        },
{
    let mut out: Vec<String> = Vec::new();
    let mut i: usize = 0;
    while i < templates.len()
        invariant
            i <= templates.len(),
            out@.len() == i,
            forall|j: int|
                0 <= j < i ==> (#[trigger] substitute(
                    texts(templates@)[j],
                    name@,
                    texts(caps@),
                )) == Some(out@[j]@),
        decreases templates.len() - i,
    {
        match substitute_text(templates[i].as_str(), name, caps) {
            Some(text) => {
                out.push(text);
            },
            None => {
                assert(substitute(texts(templates@)[i as int], name@, texts(caps@)) is None);
                return None;
            },
        }
        i = i + 1;
    }
    assert(texts(out@) =~= substitute_each(texts(templates@), name@, texts(caps@)).unwrap());
    Some(out)
}

impl Rule {
    /// A rule for the given pattern with no description, dependencies, files
    /// or action.
    pub fn new(pattern: &str) -> (out: Rule)
        ensures
            out@ == (RuleView {
                pattern: pattern@,
                description: None,
                dependencies: Seq::empty(),
                inputs: Seq::empty(),
                outputs: Seq::empty(),
                action: None,
            }),
    {
        let rule = Rule {
            pattern: owned(pattern),
            description: None,
            dependencies: Vec::new(),
            inputs: Vec::new(),
            outputs: Vec::new(),
            action: None,
        };
        assert(texts(rule.dependencies@) =~= Seq::<Seq<char>>::empty());
        assert(texts(rule.inputs@) =~= Seq::<Seq<char>>::empty());
        assert(texts(rule.outputs@) =~= Seq::<Seq<char>>::empty());
        rule
    }

    /// The pattern of the rule.
    pub fn pattern(&self) -> (r: &String)
        ensures
            r@ == self@.pattern,
    {
        &self.pattern
    }

    /// The rule with this description.
    pub fn with_description(self, text: &str) -> (out: Rule)
        ensures
            out@ == (RuleView { description: Some(text@), ..self@ }),
    {
        let mut out = self;
        out.description = Some(owned(text));
        out
    }

    /// The rule with one more dependency template, after those it has.
    pub fn with_dependency(self, template: &str) -> (out: Rule)
        ensures
            out@ == (RuleView { dependencies: self@.dependencies.push(template@), ..self@ }),
    {
        let mut out = self;
        out.dependencies.push(owned(template));
        assert(texts(out.dependencies@) =~= texts(self.dependencies@).push(template@));
        out
    }

    /// The rule with one more input template, after those it has.
    pub fn with_input(self, template: &str) -> (out: Rule)
        ensures
            out@ == (RuleView { inputs: self@.inputs.push(template@), ..self@ }),
    {
        let mut out = self;
        out.inputs.push(owned(template));
        assert(texts(out.inputs@) =~= texts(self.inputs@).push(template@));
        out
    }

    /// The rule with one more output template, after those it has.
    pub fn with_output(self, template: &str) -> (out: Rule)
        ensures
            out@ == (RuleView { outputs: self@.outputs.push(template@), ..self@ }),
    {
        let mut out = self;
        out.outputs.push(owned(template));
        assert(texts(out.outputs@) =~= texts(self.outputs@).push(template@));
        out
    }

    /// The rule with this action.
    pub fn with_action(self, action: ActionId) -> (out: Rule)
        ensures
            out@ == (RuleView { action: Some(action), ..self@ }),
    {
        let mut out = self;
        out.action = Some(action);
        out
    }

    /// Whether the pattern of the rule matches the whole name.
    pub fn matches(&self, name: &str) -> (r: bool)
        ensures
            r == is_match(self@.pattern, name@),
    {
        match_pattern(self.pattern.as_str(), name).is_some()
    }

    /// Makes the task of this rule for a name.
    pub fn create_task(&self, name: &str) -> (r: Result<Task, Error>)
        ensures
            match r {
                Ok(task) => instantiate(self@, name@) == Some(task@),
                Err(e) => instantiate(self@, name@) is None && e@
                    == ErrorView::RuleInstantiationFailed(self@.pattern, name@),
            },
    {
        let caps = match match_pattern(self.pattern.as_str(), name) {
            Some(caps) => caps,
            None => {
                return Err(self.failure(name));
            },
        };
        let dependencies = match substitute_list(&self.dependencies, name, &caps) {
            Some(list) => list,
            None => {
                return Err(self.failure(name));
            },
        };
        let inputs = match substitute_list(&self.inputs, name, &caps) {
            Some(list) => list,
            None => {
                return Err(self.failure(name));
            },
        };
        let outputs = match substitute_list(&self.outputs, name, &caps) {
            Some(list) => list,
            None => {
                return Err(self.failure(name));
            },
        };
        let mut task = match Task::new(name) {
            Some(task) => task,
            None => {
                return Err(self.failure(name));
            },
        };
        if let Some(text) = &self.description {
            task = task.with_description(text.as_str());
        }
        if let Some(action) = self.action {
            task = task.with_action(action);
        }
        let ghost base = task@;
        assert(base.dependencies =~= texts(dependencies@).take(0));
        assert(base.inputs =~= texts(inputs@).take(0));
        assert(base.outputs =~= texts(outputs@).take(0));
        let mut i: usize = 0;
        while i < dependencies.len()
            invariant
                i <= dependencies.len(),
                task@ == (TaskView {
                    dependencies: texts(dependencies@).take(i as int),
                    ..base
                }),
            decreases dependencies.len() - i,
        {
            task = task.with_dependency(dependencies[i].as_str());
            assert(texts(dependencies@).take(i as int).push(dependencies@[i as int]@) =~= texts(
                dependencies@,
            ).take(i + 1));
            i = i + 1;
        }
        let mut i: usize = 0;
        while i < inputs.len()
            invariant
                i <= inputs.len(),
                task@ == (TaskView {
                    dependencies: texts(dependencies@).take(dependencies@.len() as int),
                    inputs: texts(inputs@).take(i as int),
                    ..base
                }),
            decreases inputs.len() - i,
        {
            task = task.with_input(inputs[i].as_str());
            assert(texts(inputs@).take(i as int).push(inputs@[i as int]@) =~= texts(
                inputs@,
            ).take(i + 1));
            i = i + 1;
        }
        let mut i: usize = 0;
        while i < outputs.len()
            invariant
                i <= outputs.len(),
                task@ == (TaskView {
                    dependencies: texts(dependencies@).take(dependencies@.len() as int),
                    inputs: texts(inputs@).take(inputs@.len() as int),
                    outputs: texts(outputs@).take(i as int),
                    ..base
                }),
            decreases outputs.len() - i,
        {
            task = task.with_output(outputs[i].as_str());
            assert(texts(outputs@).take(i as int).push(outputs@[i as int]@) =~= texts(
                outputs@,
            ).take(i + 1));
            i = i + 1;
        }
        assert(texts(dependencies@).take(dependencies@.len() as int) =~= texts(dependencies@));
        assert(texts(inputs@).take(inputs@.len() as int) =~= texts(inputs@));
        assert(texts(outputs@).take(outputs@.len() as int) =~= texts(outputs@));
        Ok(task)
    }

    /// The error that says that this rule could not make a task for `name`.
    fn failure(&self, name: &str) -> (e: Error)
        ensures
            e@ == ErrorView::RuleInstantiationFailed(self@.pattern, name@),
    {
        Error::RuleInstantiationFailed(self.pattern.clone(), owned(name))
    }
}

impl Clone for Rule {
    fn clone(&self) -> (out: Rule)
        ensures
            out@ == self@,
    {
        Rule {
            pattern: self.pattern.clone(),
            description: crate::task::copy_option(&self.description),
            dependencies: crate::text::copy_texts(&self.dependencies),
            inputs: crate::text::copy_texts(&self.inputs),
            outputs: crate::text::copy_texts(&self.outputs),
            action: self.action,
        }
    }
}

} // verus!
