//! Showing the output of processes: what to ask of the scheduler for each
//! of them, and how its lines are marked.

use crate::common::{procs, Process, ProcessView};
use crate::error::{plain, Error, InnerError, InnerErrorView};
use crate::state::{selection, State};
use crate::text::{pad_right, padded, strs};
use vstd::prelude::*;
use vstd::string::{StrSliceExecFns, StringExecFns};

verus! {

/// Which output to show, and how.
#[derive(Clone, Debug, PartialEq, Eq)]
pub struct LogsArgs {
    pub follow: bool,
    pub process_prefix: bool,
    pub tail: bool,
    pub processes: Vec<String>,
}

/// What to ask of the scheduler for the output of one process.
#[derive(Clone, Debug, PartialEq, Eq)]
pub struct LogFetch {
    /// What each line is to start with.
    pub prefix: String,
    /// The handle of the task.
    pub pid: usize,
    /// How many lines of what was written before to show: all where
    /// nothing is given.
    pub lines: Option<usize>,
    /// Whether to go on with what is written from now on.
    pub follow: bool,
}

/// What showing the output of a selection takes.
#[derive(Clone, Debug, PartialEq, Eq)]
pub struct LogsPlan {
    /// The selected processes.
    pub processes: Vec<Process>,
    /// The width to which names are padded: the length in characters of
    /// the longest.
    pub max_process_name_len: usize,
    /// How many lines the queue between the fetchers and the printer
    /// holds: two for each process.
    pub capacity: usize,
}

/// The length in characters of the longest name among the first `n`
/// processes.
pub open spec fn longest_name(ps: Seq<ProcessView>, n: int) -> nat
    decreases n,
{
    if n <= 0 || n > ps.len() {
        0
    } else {
        let rest = longest_name(ps, n - 1);
        let len = ps[n - 1].name.len();
        if rest < len {
            len
        } else {
            rest
        }
    }
}

/// What every line of a process starts with: nothing, or, where names are
/// asked for, its name padded to `width` characters and ` > `.
pub open spec fn prefix_of(name: Seq<char>, with_name: bool, width: nat) -> Seq<char> {
    if with_name {
        padded(name, width) + " > "@
    } else {
        Seq::empty()
    }
}

/// How many lines the queue holds for `n` processes.
pub open spec fn queue_capacity(n: nat) -> nat {
    if 2 * n > usize::MAX {
        usize::MAX as nat
    } else {
        2 * n
    }
}

/// The operation that shows output.
pub struct Logs {
    args: LogsArgs,
}

impl Logs {
    /// The operation that `args` describes.
    pub fn new(args: LogsArgs) -> (r: Logs)
        ensures
            r.args() == args,
    {
        Logs { args }
    }

    /// What the operation was given.
    pub closed spec fn args(&self) -> LogsArgs {
        self.args
    }

    /// The selected processes, the width of their names and the size of
    /// the queue for their lines.
    pub fn run(&self, state: &State) -> (r: Result<LogsPlan, Error>)
        requires
            state.wf(),
        ensures
            match selection(state@, strs(self.args().processes@)) {
                Ok(selected) => {
                    &&& r is Ok
                    &&& procs(r->Ok_0.processes@) == selected
                    &&& r->Ok_0.max_process_name_len == longest_name(
                        selected,
                        selected.len() as int,
                    )
                    &&& r->Ok_0.capacity == queue_capacity(selected.len())
                },
                Err(e) => r is Err && r->Err_0@ == plain(e),
            },
    {
        let processes = match state.filter_processes(&self.args.processes) {
            Ok(processes) => processes,
            Err(e) => {
                return Err(e);
            },
        };
        let n = processes.len();
        let mut longest: usize = 0;
        let mut i: usize = 0;
        while i < n
            invariant
                n == processes.len(),
                0 <= i <= n,
                longest == longest_name(procs(processes@), i as int),
            decreases n - i,
        {
            assert(procs(processes@)[i as int] == processes@[i as int]@);
            let len = processes[i].name.as_str().unicode_len();
            if longest < len {
                longest = len;
            }
            i += 1;
        }
        let capacity = if n > usize::MAX / 2 {
            usize::MAX
        } else {
            2 * n
        };
        Ok(LogsPlan { processes, max_process_name_len: longest, capacity })
    }

    /// What to ask of the scheduler for `process`; see [`run`].
    pub fn fetch(&self, process: &Process, max_process_name_len: usize) -> (r: Result<
        Option<LogFetch>,
        Error,
    >)
        ensures
            fetch_is(r, process@, self.args(), max_process_name_len),
    {
        run(process, &self.args, max_process_name_len)
    }
}

/// Whether `r` is what is asked of the scheduler for the process `p`.
/// Nothing, where only new lines are wanted and the output is not
/// followed. Else the process must have a handle: the error
/// `SchedulerUnavailable` where it has none. With it, all that was written
/// is asked for, or, where only new lines are wanted, none of it; and the
/// output is followed where that is wanted.
pub open spec fn fetch_is(
    r: Result<Option<LogFetch>, Error>,
    p: ProcessView,
    args: LogsArgs,
    width: usize,
) -> bool {
    if args.tail && !args.follow {
        r is Ok && r->Ok_0 is None
    } else {
        match p.pid {
            None => r is Err && r->Err_0@ == plain(
                InnerErrorView::SchedulerUnavailable("PID missing for log"@),
            ),
            Some(pid) => {
                &&& r is Ok
                &&& r->Ok_0 is Some
                &&& r->Ok_0->0.prefix@ == prefix_of(p.name, args.process_prefix, width as nat)
                &&& r->Ok_0->0.pid == pid
                &&& r->Ok_0->0.lines == (if args.tail {
                    Some(0usize)
                } else {
                    None
                })
                &&& r->Ok_0->0.follow == args.follow
            },
        }
    }
}

/// What to ask of the scheduler for the output of `process`.
pub fn run(process: &Process, args: &LogsArgs, max_process_name_len: usize) -> (r: Result<
    Option<LogFetch>,
    Error,
>)
    ensures
        fetch_is(r, process@, *args, max_process_name_len),
{
    if args.tail && !args.follow {
        return Ok(None);
    }
    let prefix = if args.process_prefix {
        let mut prefix = pad_right(process.name.as_str(), max_process_name_len);
        prefix.append(" > ");
        prefix
    } else {
        String::new()
    };
    let pid = match process.pid {
        Some(pid) => pid as usize,
        None => {
            return Err(
                Error::new(InnerError::SchedulerUnavailable("PID missing for log".to_owned())),
            );
        },
    };
    let lines = if args.tail {
        Some(0usize)
    } else {
        None
    };
    Ok(Some(LogFetch { prefix, pid, lines, follow: args.follow }))
}

} // verus!
