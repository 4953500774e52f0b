//! What the runner makes of the answers of the script runtime.
//!
//! The runtime itself is outside the library.  Whoever drives it hands its
//! answers over as plain values, and the functions here say what they mean:
//! which failure a status stands for, and how a search path grows.

use vstd::prelude::*;
use vstd::string::StringExecFns;
use crate::error::{Error, ErrorView};
use crate::text::owned;

verus! {

/// How the runtime answered the request to run a file.
#[derive(Clone, Copy, Debug, PartialEq, Eq, Structural)]
pub enum LoadStatus {
    /// The file ran to its end.
    Done,
    /// The file could not be read.
    FileError,
    /// The file was read and failed; the runtime holds a message.
    Failed,
}

/// The message for a file that could not be read.
pub open spec fn unreadable(path: Seq<char>) -> Seq<char> {
    "the file \""@ + path + "\" could not be read"@
}

/// The message for a path that is no text.
pub open spec fn bad_path() -> Seq<char> {
    "path contains invalid characters"@
}

/// The message for a failure of which the runtime says nothing.
pub open spec fn unknown_error() -> Seq<char> {
    "unknown error"@
}

/// What loading the build file has come to, given the path as text where
/// it is text, the status of the runtime, and the message that the runtime
/// holds.  A status other than `Done` is a failure to load: of a file
/// that could not be read with the path in its message, of a file that
/// failed with the message of the runtime.
pub fn load_outcome(path: Option<&str>, status: LoadStatus, message: &str) -> (r: Result<
    (),
    Error,
>)
    ensures
        match r {
            Ok(_) => path is Some && status == LoadStatus::Done,
            Err(e) => e@ == ErrorView::LoadFailure(
                match path {
                    None => bad_path(),
                    Some(p) => if status == LoadStatus::FileError {
                        unreadable(p@)
                    } else {
                        message@
                    },
                },
            ) && !(path is Some && status == LoadStatus::Done),
        },
{
    let path = match path {
        Some(p) => p,
        None => {
            return Err(Error::LoadFailure(owned("path contains invalid characters")));
        },
    };
    match status {
        LoadStatus::Done => Ok(()),
        LoadStatus::FileError => {
            let mut text = owned("the file \"");
            text.append(path);
            text.append("\" could not be read");
            Err(Error::LoadFailure(text))
        },
        LoadStatus::Failed => Err(Error::LoadFailure(owned(message))),
    }
}

/// The cause of a call into the runtime that failed: the message that the
/// runtime holds, or `unknown error` where it holds none.
pub fn call_failure(message: Option<&str>) -> (out: String)
    ensures
        out@ == match message {
            Some(m) => m@,
            None => unknown_error(),
        },
{
    match message {
        Some(m) => owned(m),
        None => owned("unknown error"),
    }
}

/// A search path with one more entry: the path, a semicolon, the entry.
pub open spec fn with_entry(search: Seq<char>, entry: Seq<char>) -> Seq<char> {
    search + seq![';'] + entry
}

/// Adds an entry to the end of a search path for modules.
pub fn extend_search_path(search: &str, entry: &str) -> (out: String)
    ensures
        out@ == with_entry(search@, entry@),
{
    proof {
        reveal_strlit(";");
    }
    let mut out = owned(search);
    out.append(";");
    assert(";"@ =~= seq![';']);
    out.append(entry);
    out
}

} // verus!
