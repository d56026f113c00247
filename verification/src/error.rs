//! Error kinds of the engine and the error value that carries one of them
//! together with the context gathered on its way up.

use crate::text::{decimal, strs};
use vstd::string::StringExecFns;
use vstd::prelude::*;

verus! {

/// What went wrong.
#[derive(Clone, Debug, PartialEq, Eq)]
pub enum InnerError {
    /// The workspace toolchain exited with a failure or could not be spawned;
    /// carries what it wrote to its error stream.
    ToolchainFailure(String),
    /// The task daemon cannot be reached, or answered with something that the
    /// request does not allow.
    SchedulerUnavailable(String),
    /// At least one requested process name is not in the store.
    ProcessNotFound(Vec<String>),
    /// The named stack is not defined.
    StackNotFound(String),
    /// A stack was reached twice while its ancestors were walked.
    RecursionLoop,
    /// The chain of ancestors of a stack is longer than the limit.
    RecursionDepthExceeded,
    /// The configuration file is malformed.
    ConfigParse(String),
    /// The store could not be opened, read or written.
    StateIOError(String),
    /// A cancellation came through.
    Interrupted,
    /// A write that would break an invariant of the store.
    Conflict(String),
    /// A text that should have held a value of a known form did not.
    Parse(String),
    /// A text that should have held a number did not.
    ParseInt(String),
    /// An integer does not fit the type it is stored in.
    TryFromInt,
    /// A lock was poisoned.
    Lock(String),
}

/// The mathematical value of an [`InnerError`].
pub ghost enum InnerErrorView {
    ToolchainFailure(Seq<char>),
    SchedulerUnavailable(Seq<char>),
    ProcessNotFound(Seq<Seq<char>>),
    StackNotFound(Seq<char>),
    RecursionLoop,
    RecursionDepthExceeded,
    ConfigParse(Seq<char>),
    StateIOError(Seq<char>),
    Interrupted,
    Conflict(Seq<char>),
    Parse(Seq<char>),
    ParseInt(Seq<char>),
    TryFromInt,
    Lock(Seq<char>),
}

impl View for InnerError {
    type V = InnerErrorView;

    open spec fn view(&self) -> InnerErrorView {
        match self {
            InnerError::ToolchainFailure(s) => InnerErrorView::ToolchainFailure(s@),
            InnerError::SchedulerUnavailable(s) => InnerErrorView::SchedulerUnavailable(s@),
            InnerError::ProcessNotFound(v) => InnerErrorView::ProcessNotFound(strs(v@)),
            InnerError::StackNotFound(s) => InnerErrorView::StackNotFound(s@),
            InnerError::RecursionLoop => InnerErrorView::RecursionLoop,
            InnerError::RecursionDepthExceeded => InnerErrorView::RecursionDepthExceeded,
            InnerError::ConfigParse(s) => InnerErrorView::ConfigParse(s@),
            InnerError::StateIOError(s) => InnerErrorView::StateIOError(s@),
            InnerError::Interrupted => InnerErrorView::Interrupted,
            InnerError::Conflict(s) => InnerErrorView::Conflict(s@),
            InnerError::Parse(s) => InnerErrorView::Parse(s@),
            InnerError::ParseInt(s) => InnerErrorView::ParseInt(s@),
            InnerError::TryFromInt => InnerErrorView::TryFromInt,
            InnerError::Lock(s) => InnerErrorView::Lock(s@),
        }
    }
}

/// The one-line name of each error kind.
pub open spec fn kind_text(e: InnerErrorView) -> Seq<char> {
    match e {
        InnerErrorView::ToolchainFailure(_) => "Toolchain error"@,
        InnerErrorView::SchedulerUnavailable(_) => "Scheduler error"@,
        InnerErrorView::ProcessNotFound(_) => "Process not found error"@,
        InnerErrorView::StackNotFound(_) => "Stack not found error"@,
        InnerErrorView::RecursionLoop => "Recursion loop error"@,
        InnerErrorView::RecursionDepthExceeded => "Recursion deepness too high error"@,
        InnerErrorView::ConfigParse(_) => "Config parse error"@,
        InnerErrorView::StateIOError(_) => "State IO error"@,
        InnerErrorView::Interrupted => "Interrupted"@,
        InnerErrorView::Conflict(_) => "Conflict error"@,
        InnerErrorView::Parse(_) => "Parse error"@,
        InnerErrorView::ParseInt(_) => "ParseIntError error"@,
        InnerErrorView::TryFromInt => "TryFromInt error"@,
        InnerErrorView::Lock(_) => "Lock error"@,
    }
}

impl InnerError {
    /// The one-line name of the error kind.
    pub fn to_string(&self) -> (r: String)
        ensures
            r@ == kind_text(self@),
    {
        match self {
            InnerError::ToolchainFailure(_) => "Toolchain error".to_owned(),
            InnerError::SchedulerUnavailable(_) => "Scheduler error".to_owned(),
            InnerError::ProcessNotFound(_) => "Process not found error".to_owned(),
            InnerError::StackNotFound(_) => "Stack not found error".to_owned(),
            InnerError::RecursionLoop => "Recursion loop error".to_owned(),
            InnerError::RecursionDepthExceeded => "Recursion deepness too high error".to_owned(),
            InnerError::ConfigParse(_) => "Config parse error".to_owned(),
            InnerError::StateIOError(_) => "State IO error".to_owned(),
            InnerError::Interrupted => "Interrupted".to_owned(),
            InnerError::Conflict(_) => "Conflict error".to_owned(),
            InnerError::Parse(_) => "Parse error".to_owned(),
            InnerError::ParseInt(_) => "ParseIntError error".to_owned(),
            InnerError::TryFromInt => "TryFromInt error".to_owned(),
            InnerError::Lock(_) => "Lock error".to_owned(),
        }
    }
}

/// An error of the engine: its kind, and the context added on the way up,
/// oldest first.
#[derive(Clone, Debug, PartialEq, Eq)]
pub struct Error {
    pub inner_error: InnerError,
    pub debug_context: Vec<String>,
}

/// The mathematical value of an [`Error`].
pub ghost struct ErrorView {
    pub inner: InnerErrorView,
    pub context: Seq<Seq<char>>,
}

impl View for Error {
    type V = ErrorView;

    open spec fn view(&self) -> ErrorView {
        ErrorView { inner: self.inner_error@, context: strs(self.debug_context@) }
    }
}

/// An error of kind `inner` that has gathered no context.
pub open spec fn plain(inner: InnerErrorView) -> ErrorView {
    ErrorView { inner, context: Seq::empty() }
}

/// The numbered context entries from index `from` on, each written as
/// `[n] text` with `n` counted from one.
pub open spec fn context_text(context: Seq<Seq<char>>, from: int) -> Seq<char>
    decreases context.len() - from,
{
    if from < 0 || from >= context.len() {
        Seq::empty()
    } else {
        "["@ + crate::text::decimal_digits((from + 1) as nat) + "] "@ + context[from]
            + context_text(context, from + 1)
    }
}

/// The description of an error: the name of its kind, then, where context
/// was gathered, the words ` With context:` and the numbered entries.
pub open spec fn error_text(e: ErrorView) -> Seq<char> {
    if e.context.len() == 0 {
        kind_text(e.inner)
    } else {
        kind_text(e.inner) + " With context:"@ + context_text(e.context, 0)
    }
}

impl Error {
    /// An error of the given kind with no context.
    pub fn new(inner_error: InnerError) -> (e: Error)
        ensures
            e@ == plain(inner_error@),
            e.inner_error == inner_error,
    {
        let e = Error { inner_error, debug_context: Vec::new() };
        assert(strs(e.debug_context@) =~= Seq::empty());
        e
    }

    /// The error `src` with the name of the kind `inner_error` added to its
    /// context.
    pub fn with_context(inner_error: &InnerError, src: Error) -> (e: Error)
        ensures
            e@.inner == src@.inner,
            e@.context == src@.context.push(kind_text(inner_error@)),
    {
        src.add_context(inner_error.to_string())
    }

    /// The same error with one more entry at the end of its context.
    pub fn add_context(self, context: String) -> (e: Error)
        ensures
            e@.inner == self@.inner,
            e@.context == self@.context.push(context@),
    {
        let mut e = self;
        e.debug_context.push(context);
        assert(strs(e.debug_context@) =~= strs(self.debug_context@).push(context@));
        e
    }

    /// The one-line description of the error.
    pub fn to_string(&self) -> (r: String)
        ensures
            r@ == error_text(self@),
    {
        let mut r = self.inner_error.to_string();
        if self.debug_context.len() == 0 {
            return r;
        }
        r.append(" With context:");
        let ghost head = r@;
        let n = self.debug_context.len();
        let mut i: usize = 0;
        while i < n
            invariant
                n == self.debug_context.len(),
                0 <= i <= n,
                r@ + context_text(self@.context, i as int) == head + context_text(self@.context, 0),
            decreases n - i,
        {
            let ghost before = r@;
            r.append("[");
            let d = decimal(i + 1);
            r.append(d.as_str());
            r.append("] ");
            r.append(self.debug_context[i].as_str());
            assert(self@.context[i as int] == self.debug_context@[i as int]@);
            assert(r@ + context_text(self@.context, i as int + 1) =~= before + context_text(
                self@.context,
                i as int,
            ));
            i += 1;
        }
        assert(r@ =~= r@ + context_text(self@.context, n as int));
        r
    }
}

/// The error for a poisoned lock, with the reason as its payload.
pub fn lock_error(e: String) -> (r: Error)
    ensures
        r@ == plain(InnerErrorView::Lock(e@)),
{
    Error::new(InnerError::Lock(e))
}

} // verus!
