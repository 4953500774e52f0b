//! The ways in which planning or running a build can fail.

use vstd::prelude::*;
use vstd::string::StringExecFns;
use crate::text::texts;

verus! {

/// A failure of the task engine.
#[derive(Debug, PartialEq, Eq)]
pub enum Error {
    /// A task of this name is already registered.
    Duplicate(String),
    /// No task has this name and no rule matches it.
    UnknownTask(String),
    /// The tasks depend on each other in a circle.  The path starts and ends
    /// with the same name, and each name depends on the one after it.
    Cycle(Vec<String>),
    /// The rule with this pattern matched this name but could not make a
    /// task for it.
    RuleInstantiationFailed(String, String),
    /// A worker found neither a task nor a rule for the name it was handed.
    NoMatchingTask(String),
    /// No target was asked for and the build file names no default.
    NoDefaultTask,
    /// The build file could not be loaded, for this reason.
    LoadFailure(String),
    /// The action of the task of this name failed, for this cause.
    ActionFailure(String, String),
    /// A worker could not set up its own context.
    ContextInitFailure,
    /// An operation on the file system failed where that is fatal.
    IoFailure,
}

/// What an [`Error`] holds, as plain sequences.
pub enum ErrorView {
    Duplicate(Seq<char>),
    UnknownTask(Seq<char>),
    Cycle(Seq<Seq<char>>),
    RuleInstantiationFailed(Seq<char>, Seq<char>),
    NoMatchingTask(Seq<char>),
    NoDefaultTask,
    LoadFailure(Seq<char>),
    ActionFailure(Seq<char>, Seq<char>),
    ContextInitFailure,
    IoFailure,
}

impl View for Error {
    type V = ErrorView;

    open spec fn view(&self) -> ErrorView {
        match self {
            Error::Duplicate(n) => ErrorView::Duplicate(n@),
            Error::UnknownTask(n) => ErrorView::UnknownTask(n@),
            Error::Cycle(p) => ErrorView::Cycle(texts(p@)),
            Error::RuleInstantiationFailed(p, n) => ErrorView::RuleInstantiationFailed(p@, n@),
            Error::NoMatchingTask(n) => ErrorView::NoMatchingTask(n@),
            Error::NoDefaultTask => ErrorView::NoDefaultTask,
            Error::LoadFailure(r) => ErrorView::LoadFailure(r@),
            Error::ActionFailure(n, c) => ErrorView::ActionFailure(n@, c@),
            Error::ContextInitFailure => ErrorView::ContextInitFailure,
            Error::IoFailure => ErrorView::IoFailure,
        }
    }
}

/// The names of a path joined by arrows: `a -> b -> a`.
pub open spec fn arrows(path: Seq<Seq<char>>) -> Seq<char>
    decreases path.len(),
{
    if path.len() == 0 {
        Seq::empty()
    } else if path.len() == 1 {
        path[0]
    } else {
        arrows(path.drop_last()) + " -> "@ + path.last()
    }
}

/// The message that describes an error to the user.
pub open spec fn message_of(e: ErrorView) -> Seq<char> {
    match e {
        ErrorView::Duplicate(n) => "task '"@ + n + "' is already defined"@,
        ErrorView::UnknownTask(n) => "no matching task or rule for '"@ + n + "'"@,
        ErrorView::Cycle(p) => "dependency cycle: "@ + arrows(p),
        ErrorView::RuleInstantiationFailed(p, n) => "rule '"@ + p + "' cannot make task '"@ + n
            + "'"@,
        ErrorView::NoMatchingTask(n) => "no matching task or rule for '"@ + n + "'"@,
        ErrorView::NoDefaultTask => "no default task defined"@,
        ErrorView::LoadFailure(r) => "failed to load the build file: "@ + r,
        ErrorView::ActionFailure(n, c) => "task '"@ + n + "' failed: "@ + c,
        ErrorView::ContextInitFailure => "a worker failed to start"@,
        ErrorView::IoFailure => "file system operation failed"@,
    }
}

/// The names of `path` joined by arrows.
fn join_arrows(path: &Vec<String>) -> (out: String)
    ensures
        out@ == arrows(texts(path@)),
{
    let mut out = String::new();
    let mut i: usize = 0;
    while i < path.len()
        invariant
            i <= path.len(),
            out@ == arrows(texts(path@).take(i as int)),
        decreases path.len() - i,
    {
        let ghost before = texts(path@).take(i as int);
        let ghost after = texts(path@).take(i + 1);
        assert(after.drop_last() =~= before);
        assert(after.last() == path@[i as int]@);
        if i > 0 {
            out.append(" -> ");
        } else {
            assert(out@ =~= Seq::<char>::empty());
        }
        out.append(path[i].as_str());
        assert(out@ =~= arrows(after));
        i = i + 1;
    }
    assert(texts(path@).take(i as int) =~= texts(path@));
    out
}

impl Error {
    /// The message that describes this error to the user.
    pub fn message(&self) -> (out: String)
        ensures
            out@ == message_of(self@),
    {
        match self {
            Error::Duplicate(n) => {
                let mut out = String::from_str("task '");
                out.append(n.as_str());
                out.append("' is already defined");
                out
            },
            Error::UnknownTask(n) => {
                let mut out = String::from_str("no matching task or rule for '");
                out.append(n.as_str());
                out.append("'");
                out
            },
            Error::Cycle(p) => {
                let mut out = String::from_str("dependency cycle: ");
                let joined = join_arrows(p);
                out.append(joined.as_str());
                out
            },
            Error::RuleInstantiationFailed(p, n) => {
                let mut out = String::from_str("rule '");
                out.append(p.as_str());
                out.append("' cannot make task '");
                out.append(n.as_str());
                out.append("'");
                out
            },
            Error::NoMatchingTask(n) => {
                let mut out = String::from_str("no matching task or rule for '");
                out.append(n.as_str());
                out.append("'");
                out
            },
            Error::NoDefaultTask => String::from_str("no default task defined"),
            Error::LoadFailure(r) => {
                let mut out = String::from_str("failed to load the build file: ");
                out.append(r.as_str());
                out
            },
            Error::ActionFailure(n, c) => {
                let mut out = String::from_str("task '");
                out.append(n.as_str());
                out.append("' failed: ");
                out.append(c.as_str());
                out
            },
            Error::ContextInitFailure => String::from_str("a worker failed to start"),
            Error::IoFailure => String::from_str("file system operation failed"),
        }
    }
}

impl Clone for Error {
    fn clone(&self) -> (out: Error)
        ensures
            out@ == self@,
    {
        match self {
            Error::Duplicate(n) => Error::Duplicate(n.clone()),
            Error::UnknownTask(n) => Error::UnknownTask(n.clone()),
            Error::Cycle(p) => Error::Cycle(crate::text::copy_texts(p)),
            Error::RuleInstantiationFailed(p, n) => Error::RuleInstantiationFailed(
                p.clone(),
                n.clone(),
            ),
            Error::NoMatchingTask(n) => Error::NoMatchingTask(n.clone()),
            Error::NoDefaultTask => Error::NoDefaultTask,
            Error::LoadFailure(r) => Error::LoadFailure(r.clone()),
            Error::ActionFailure(n, c) => Error::ActionFailure(n.clone(), c.clone()),
            Error::ContextInitFailure => Error::ContextInitFailure,
            Error::IoFailure => Error::IoFailure,
        }
    }
}

} // verus!
