//! What a worker does with a task that it is sent.
//!
//! A worker has its own registry, loaded from the same build file as the
//! coordinator's.  For each task that it is sent it announces the task,
//! looks it up, and runs its action unless the run is a dry run.

use vstd::prelude::*;
use vstd::string::StringExecFns;
use crate::error::{Error, ErrorView};
use crate::executor::Dispatch;
use crate::registry::{lookup, Lookup, Registry};
use crate::runner::EnvironmentSpec;
use crate::task::ActionId;
use crate::text::{decimal, owned, to_decimal};

verus! {

/// What a worker does for a task.
#[derive(Clone, Copy, Debug, PartialEq, Eq, Structural)]
pub enum Work {
    /// Run the action with this handle.
    Invoke(ActionId),
    /// Run nothing: the run is a dry run, or the task has no action.
    Skip,
}

/// The line that announces a task: its place in the run, the number of
/// tasks in the run, and its name.
pub open spec fn progress_text(progress: nat, total: nat, name: Seq<char>) -> Seq<char> {
    seq!['['] + decimal(progress) + seq!['/'] + decimal(total) + seq![']', ' '] + name
}

/// The line that announces a task, as in `[2/5] build`.
pub fn progress_line(progress: usize, total: usize, name: &str) -> (out: String)
    ensures
        out@ == progress_text(progress as nat, total as nat, name@),
{
    proof {
        reveal_strlit("[");
        reveal_strlit("/");
        reveal_strlit("] ");
    }
    let mut out = String::from_str("[");
    assert(out@ =~= seq!['[']);
    out.append(to_decimal(progress).as_str());
    out.append("/");
    assert("/"@ =~= seq!['/']);
    out.append(to_decimal(total).as_str());
    out.append("] ");
    assert("] "@ =~= seq![']', ' ']);
    out.append(name);
    out
}

/// What a worker does for the task of a name that the registry finds: it
/// runs the action of the task, unless the run is a dry run or the task has
/// no action.
pub open spec fn work_for(dry_run: bool, action: Option<ActionId>) -> Work {
    match action {
        Some(id) => if dry_run {
            Work::Skip
        } else {
            Work::Invoke(id)
        },
        None => Work::Skip,
    }
}

/// Decides what a worker does for the task that it was sent.  The task is
/// looked up among the tasks first and then among the rules.  Fails where
/// neither has it and where its rule cannot make it.
pub fn work_on(registry: &mut Registry, spec: &EnvironmentSpec, name: &str) -> (r: Result<
    Work,
    Error,
>)
    requires
        old(registry).wf(),
    ensures
        final(registry).wf(),
        forall|other: Seq<char>| #[trigger]
            lookup(final(registry)@, other) == lookup(old(registry)@, other),
        match lookup(old(registry)@, name@) {
            Lookup::Found(task) => r == Ok::<Work, Error>(
                work_for(spec@.dry_run, task.action),
            ),
            Lookup::Failed(pattern) => r matches Err(e) && e@
                == ErrorView::RuleInstantiationFailed(pattern, name@),
            Lookup::Missing => r matches Err(e) && e@ == ErrorView::NoMatchingTask(name@),
        },
        spec@.dry_run ==> !(r matches Ok(Work::Invoke(_))),
{
    match registry.get(name) {
        Ok(Some(task)) => {
            match task.action() {
                Some(id) => if spec.is_dry_run() {
                    Ok(Work::Skip)
                } else {
                    Ok(Work::Invoke(id))
                },
                None => Ok(Work::Skip),
            }
        },
        Ok(None) => Err(Error::NoMatchingTask(owned(name))),
        Err(e) => Err(e),
    }
}

impl Dispatch {
    /// The line that announces the task of this order.
    pub fn line(&self) -> (out: String)
        ensures
            out@ == progress_text(self@.progress as nat, self@.total as nat, self@.task),
    {
        progress_line(self.progress, self.total, self.task.as_str())
    }
}

} // verus!
