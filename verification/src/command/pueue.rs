//! The task scheduler as the engine sees it: what is asked of it, and what
//! its answers mean.

use crate::common::TaskStatus;
use crate::error::{plain, Error, InnerError, InnerErrorView};
use crate::text::{prefixed_lines, push_lines, str_eq, strs};
use std::string::FromUtf8Error;
use vstd::prelude::*;
use vstd::string::StringExecFns;
use vstd::utf8::{decode_utf8, valid_utf8};

verus! {

/// A task as the scheduler reports it, as far as the engine reads it.
#[derive(Clone, Debug, PartialEq, Eq)]
pub struct Task {
    pub id: usize,
    pub label: Option<String>,
    pub group: String,
    pub status: TaskStatus,
}

/// A task of the project's group as the engine reads it: the label under
/// which it was started, the handle that the scheduler gave it, and its
/// state.
#[derive(Clone, Debug, PartialEq, Eq)]
pub struct ScheduledTask {
    pub label: String,
    pub id: usize,
    pub status: TaskStatus,
}

impl View for ScheduledTask {
    type V = (Seq<char>, usize, TaskStatus);

    open spec fn view(&self) -> (Seq<char>, usize, TaskStatus) {
        (self.label@, self.id, self.status)
    }
}

/// The views of a list of tasks.
pub open spec fn tasks_view(v: Seq<ScheduledTask>) -> Seq<(Seq<char>, usize, TaskStatus)> {
    v.map_values(|t: ScheduledTask| t@)
}

/// The signal that stops a task.
#[derive(Clone, Copy, Debug, PartialEq, Eq, Structural)]
pub enum Signal {
    SigKill,
    SigTerm,
}

/// An answer of the scheduler, as far as the engine reads it.
#[derive(Clone, Debug, PartialEq, Eq)]
pub enum Response {
    /// A task was added; its handle.
    AddedTask(usize),
    /// Tasks that may be edited.
    Edit,
    /// Every task that the scheduler holds.
    Status(Vec<Task>),
    /// What the tasks asked for have written, compressed, one entry for
    /// each.
    Log(Vec<Option<Vec<u8>>>),
    /// The names of the groups.
    Group(Vec<String>),
    /// What the tasks followed have written since the last answer.
    Stream(Vec<String>),
    /// The request was carried out.
    Success(String),
    /// The request was refused.
    Failure(String),
    /// The stream has ended.
    Close,
}

/// Whether an answer says that the request was carried out.
pub open spec fn is_success(response: Response) -> bool {
    response is AddedTask || response is Success
}

/// The name of the group of the project `project_id`.
pub open spec fn group_name(project_id: Seq<char>) -> Seq<char> {
    "jocker-"@ + project_id
}

/// The label under which a task counts: its own, or `NONE`.
pub open spec fn label_of(task: Task) -> Seq<char> {
    match task.label {
        Some(l) => l@,
        None => "NONE"@,
    }
}

/// The tasks among the first `n` that belong to `group`, in their order.
pub open spec fn in_group(tasks: Seq<Task>, group: Seq<char>, n: int) -> Seq<
    (Seq<char>, usize, TaskStatus),
>
    decreases n,
{
    if n <= 0 || n > tasks.len() {
        Seq::empty()
    } else if tasks[n - 1].group@ == group {
        in_group(tasks, group, n - 1).push((label_of(tasks[n - 1]), tasks[n - 1].id, tasks[n - 1].status))
    } else {
        in_group(tasks, group, n - 1)
    }
}

/// The state of the last of `tasks` with the handle `pid`.
pub open spec fn status_of(tasks: Seq<(Seq<char>, usize, TaskStatus)>, pid: usize) -> Option<
    TaskStatus,
>
    decreases tasks.len(),
{
    if tasks.len() == 0 {
        None
    } else if tasks.last().1 == pid {
        Some(tasks.last().2)
    } else {
        status_of(tasks.drop_last(), pid)
    }
}

/// The error of a read, `std::io::Error`. Nothing is read of it.
#[verifier::external_type_specification]
#[verifier::external_body]
pub struct ExIoError(std::io::Error);

/// The error of `String::from_utf8`. Nothing is read of it.
#[verifier::external_type_specification]
#[verifier::external_body]
pub struct ExFromUtf8Error(FromUtf8Error);

/// What a Snappy stream in the frame format holds, as
/// `snap::read::FrameDecoder` reads it; nothing where the bytes are no
/// such stream.
pub uninterp spec fn snap_decoded(bytes: Seq<u8>) -> Option<Seq<u8>>;

/// Reads `bytes` to the end through a `snap::read::FrameDecoder`: what the
/// stream holds, or the error of the decoder.
#[verifier::external_body]
fn decompress(bytes: &[u8]) -> (r: Result<Vec<u8>, std::io::Error>)
    ensures
        match r {
            Ok(raw) => snap_decoded(bytes@) == Some(raw@),
            Err(_) => snap_decoded(bytes@) is None,
        },
{
    let mut raw = Vec::new();
    std::io::Read::read_to_end(&mut snap::read::FrameDecoder::new(bytes), &mut raw)?;
    Ok(raw)
}

/// `String::from_utf8` succeeds exactly on bytes that are valid UTF-8, and
/// then gives the string that they encode.
pub assume_specification[ String::from_utf8 ](vec: Vec<u8>) -> (r: Result<String, FromUtf8Error>)
    ensures
        r is Ok <==> valid_utf8(vec@),
        r matches Ok(s) ==> s@ == decode_utf8(vec@),
;

/// The text that one entry of a log answer holds.
pub open spec fn log_text(output: Option<Vec<u8>>) -> Result<Seq<char>, InnerErrorView> {
    let bytes = match output {
        Some(b) => b@,
        None => Seq::empty(),
    };
    match snap_decoded(bytes) {
        None => Err(InnerErrorView::SchedulerUnavailable("Log output cannot be decompressed"@)),
        Some(raw) => if valid_utf8(raw) {
            Ok(decode_utf8(raw))
        } else {
            Err(InnerErrorView::Parse("Log output is not UTF-8"@))
        },
    }
}

/// The lines that the first `n` entries of a log answer hold, each with
/// `prefix` before it; or the error of the first entry that cannot be
/// read.
pub open spec fn log_lines(outputs: Seq<Option<Vec<u8>>>, prefix: Seq<char>, n: int) -> Result<
    Seq<Seq<char>>,
    InnerErrorView,
>
    decreases n,
{
    if n <= 0 || n > outputs.len() {
        Ok(Seq::empty())
    } else {
        match log_lines(outputs, prefix, n - 1) {
            Err(e) => Err(e),
            Ok(lines) => match log_text(outputs[n - 1]) {
                Err(e) => Err(e),
                Ok(text) => Ok(lines + prefixed_lines(prefix, text)),
            },
        }
    }
}

/// The lines that the first `n` texts of a stream answer hold, each with
/// `prefix` before it.
pub open spec fn stream_lines(texts: Seq<String>, prefix: Seq<char>, n: int) -> Seq<Seq<char>>
    decreases n,
{
    if n <= 0 || n > texts.len() {
        Seq::empty()
    } else {
        stream_lines(texts, prefix, n - 1) + prefixed_lines(prefix, texts[n - 1]@)
    }
}

/// What an answer to a request for the log means.
pub open spec fn log_outcome(response: Response, prefix: Seq<char>) -> Result<
    Seq<Seq<char>>,
    InnerErrorView,
> {
    match response {
        Response::Log(outputs) => log_lines(outputs@, prefix, outputs@.len() as int),
        _ => Err(
            InnerErrorView::SchedulerUnavailable(
                "Received unhandled Response message during logs streaming"@,
            ),
        ),
    }
}

/// One step of following a stream.
#[derive(Clone, Debug, PartialEq, Eq)]
pub enum Follow {
    /// Lines to hand on; the stream goes on.
    Lines(Vec<String>),
    /// The stream has ended.
    Close,
}

/// What an answer means while a stream is followed: lines to hand on, the
/// end of the stream, or an error.
pub open spec fn follow_outcome(response: Response, prefix: Seq<char>) -> Result<
    Option<Seq<Seq<char>>>,
    InnerErrorView,
> {
    match response {
        Response::Stream(texts) => Ok(Some(stream_lines(texts@, prefix, texts@.len() as int))),
        Response::Close => Ok(None),
        Response::Failure(text) => Err(
            InnerErrorView::SchedulerUnavailable("Failure during logs streaming: "@ + text@),
        ),
        _ => Err(
            InnerErrorView::SchedulerUnavailable(
                "Received unhandled Response message during logs streaming"@,
            ),
        ),
    }
}

impl Response {
    /// Whether the answer says that the request was carried out.
    pub fn success(&self) -> (r: bool)
        ensures
            r == is_success(*self),
    {
        match self {
            Response::AddedTask(_) => true,
            Response::Success(_) => true,
            _ => false,
        }
    }
}

/// The scheduler client of one project.
pub struct Pueue {
    group: String,
}

impl Pueue {
    /// The client of the project `project_id`, and whether its group has
    /// yet to be added: it has where it is not among `groups`.
    pub fn new(project_id: &str, groups: &Vec<String>) -> (r: (Pueue, bool))
        ensures
            r.0.group_view() == group_name(project_id@),
            r.1 == !strs(groups@).contains(group_name(project_id@)),
    {
        let group = "jocker-".to_owned().concat(project_id);
        let known = crate::text::contains_name(groups, group.as_str());
        (Pueue { group }, !known)
    }

    /// The name of the group.
    pub closed spec fn group_view(&self) -> Seq<char> {
        self.group@
    }

    /// The name of the group of the project.
    pub fn group(&self) -> (r: &str)
        ensures
            r@ == self.group_view(),
    {
        self.group.as_str()
    }

    /// The handle of the task that a request to add one has brought. Any
    /// answer but `AddedTask` is the error `SchedulerUnavailable`.
    pub fn start(&self, response: &Response) -> (r: Result<usize, Error>)
        ensures
            match response {
                Response::AddedTask(id) => r == Ok::<usize, Error>(*id),
                _ => r is Err && r->Err_0@ == plain(
                    InnerErrorView::SchedulerUnavailable("Task was not added"@),
                ),
            },
    {
        match response {
            Response::AddedTask(id) => Ok(*id),
            _ => Err(Error::new(InnerError::SchedulerUnavailable("Task was not added".to_owned()))),
        }
    }

    /// Whether a task that was started is up: it runs.
    pub fn has_started(status: TaskStatus) -> (r: bool)
        ensures
            r == (status == TaskStatus::Running),
    {
        status == TaskStatus::Running
    }

    /// Whether a task that was stopped is down: it is done.
    pub fn has_stopped(status: TaskStatus) -> (r: bool)
        ensures
            r == (status == TaskStatus::Done),
    {
        status == TaskStatus::Done
    }

    /// The tasks of the group of the project among `tasks`, each under its
    /// label, or under `NONE` where it has none.
    pub fn processes(&self, tasks: &Vec<Task>) -> (r: Vec<ScheduledTask>)
        ensures
            tasks_view(r@) == in_group(tasks@, self.group_view(), tasks@.len() as int),
    {
        let mut r: Vec<ScheduledTask> = Vec::new();
        let n = tasks.len();
        let mut i: usize = 0;
        assert(tasks_view(r@) =~= in_group(tasks@, self.group_view(), 0));
        while i < n
            invariant
                n == tasks.len(),
                0 <= i <= n,
                tasks_view(r@) == in_group(tasks@, self.group_view(), i as int),
            decreases n - i,
        {
            let task = &tasks[i];
            if str_eq(task.group.as_str(), self.group.as_str()) {
                let label = match &task.label {
                    Some(l) => l.clone(),
                    None => "NONE".to_owned(),
                };
                let entry = ScheduledTask { label, id: task.id, status: task.status };
                assert(tasks_view(r@.push(entry)) =~= tasks_view(r@).push(entry@));
                r.push(entry);
            }
            i += 1;
        }
        r
    }

    /// The state of the task with the handle `pid` among the tasks of the
    /// project. Where there is none, the error `SchedulerUnavailable`.
    pub fn process_status(tasks: &Vec<ScheduledTask>, pid: usize) -> (r: Result<TaskStatus, Error>)
        ensures
            match status_of(tasks_view(tasks@), pid) {
                Some(status) => r == Ok::<TaskStatus, Error>(status),
                None => r is Err && r->Err_0@ == plain(
                    InnerErrorView::SchedulerUnavailable("Cannot get status of process"@),
                ),
            },
    {
        let ghost all = tasks_view(tasks@);
        let mut i: usize = tasks.len();
        assert(all.take(i as int) =~= all);
        while i > 0
            invariant
                all == tasks_view(tasks@),
                0 <= i <= tasks.len(),
                status_of(all, pid) == status_of(all.take(i as int), pid),
            decreases i,
        {
            i -= 1;
            assert(all.take(i as int + 1).last() == tasks@[i as int]@);
            assert(all.take(i as int + 1).drop_last() =~= all.take(i as int));
            if tasks[i].id == pid {
                return Ok(tasks[i].status);
            }
        }
        Err(
            Error::new(
                InnerError::SchedulerUnavailable("Cannot get status of process".to_owned()),
            ),
        )
    }

    /// The signal that stops a task: KILL where `kill` is set, else TERM.
    pub fn stop(kill: bool) -> (r: Signal)
        ensures
            r == (if kill {
                Signal::SigKill
            } else {
                Signal::SigTerm
            }),
    {
        if kill {
            Signal::SigKill
        } else {
            Signal::SigTerm
        }
    }

    /// Whether the request that `response` answers was carried out; else
    /// the error `SchedulerUnavailable`.
    pub fn check(response: &Response) -> (r: Result<(), Error>)
        ensures
            if is_success(*response) {
                r is Ok
            } else {
                r is Err && r->Err_0@ == plain(
                    InnerErrorView::SchedulerUnavailable("Request was refused"@),
                )
            },
    {
        if response.success() {
            Ok(())
        } else {
            Err(
                Error::new(InnerError::SchedulerUnavailable("Request was refused".to_owned())),
            )
        }
    }

    /// Whether the group is empty after a reset: the scheduler holds no
    /// task of it any more.
    pub fn is_reset(&self, tasks: &Vec<Task>) -> (r: bool)
        ensures
            r == (in_group(tasks@, self.group_view(), tasks@.len() as int).len() == 0),
    {
        self.processes(tasks).len() == 0
    }

    /// The text of one entry of a log answer: decompressed, then read as
    /// UTF-8.
    fn text(output: &Option<Vec<u8>>) -> (r: Result<String, Error>)
        ensures
            match log_text(*output) {
                Ok(text) => r is Ok && r->Ok_0@ == text,
                Err(e) => r is Err && r->Err_0@ == plain(e),
            },
    {
        let none: Vec<u8> = Vec::new();
        let bytes: &Vec<u8> = match output {
            Some(b) => b,
            None => &none,
        };
        assert(none@ =~= Seq::empty());
        let raw = match decompress(bytes.as_slice()) {
            Ok(raw) => raw,
            Err(_) => {
                return Err(
                    Error::new(
                        InnerError::SchedulerUnavailable(
                            "Log output cannot be decompressed".to_owned(),
                        ),
                    ),
                );
            },
        };
        match String::from_utf8(raw) {
            Ok(text) => Ok(text),
            Err(_) => Err(Error::new(InnerError::Parse("Log output is not UTF-8".to_owned()))),
        }
    }

    /// The lines that an answer to a request for the log holds, each with
    /// `prefix` before it. Any answer but `Log` is the error
    /// `SchedulerUnavailable`.
    pub fn log(response: &Response, prefix: &str) -> (r: Result<Vec<String>, Error>)
        ensures
            match log_outcome(*response, prefix@) {
                Ok(lines) => r is Ok && strs(r->Ok_0@) == lines,
                Err(e) => r is Err && r->Err_0@ == plain(e),
            },
    {
        match response {
            Response::Log(outputs) => {
                let mut lines: Vec<String> = Vec::new();
                let n = outputs.len();
                let mut i: usize = 0;
                assert(strs(lines@) =~= Seq::empty());
                while i < n
                    invariant
                        n == outputs.len(),
                        0 <= i <= n,
                        log_outcome(*response, prefix@) == log_lines(outputs@, prefix@, n as int),
                        log_lines(outputs@, prefix@, i as int) == Ok::<
                            Seq<Seq<char>>,
                            InnerErrorView,
                        >(strs(lines@)),
                    decreases n - i,
                {
                    match Pueue::text(&outputs[i]) {
                        Ok(text) => {
                            push_lines(&mut lines, prefix, text.as_str());
                        },
                        Err(e) => {
                            proof {
                                lemma_log_lines_error(outputs@, prefix@, i as int + 1, n as int);
                            }
                            return Err(e);
                        },
                    }
                    i += 1;
                }
                Ok(lines)
            },
            _ => Err(
                Error::new(
                    InnerError::SchedulerUnavailable(
                        "Received unhandled Response message during logs streaming".to_owned(),
                    ),
                ),
            ),
        }
    }

    /// What an answer means while a stream is followed: the lines of a
    /// `Stream` answer, each with `prefix` before it; the end on `Close`;
    /// the error `SchedulerUnavailable` on any other.
    pub fn follow(response: &Response, prefix: &str) -> (r: Result<Follow, Error>)
        ensures
            match follow_outcome(*response, prefix@) {
                Ok(Some(lines)) => r is Ok && r->Ok_0 is Lines && strs(r->Ok_0->Lines_0@) == lines,
                Ok(None) => r is Ok && r->Ok_0 is Close,
                Err(e) => r is Err && r->Err_0@ == plain(e),
            },
    {
        match response {
            Response::Stream(texts) => {
                let mut lines: Vec<String> = Vec::new();
                let n = texts.len();
                let mut i: usize = 0;
                assert(strs(lines@) =~= Seq::empty());
                while i < n
                    invariant
                        n == texts.len(),
                        0 <= i <= n,
                        strs(lines@) == stream_lines(texts@, prefix@, i as int),
                    decreases n - i,
                {
                    push_lines(&mut lines, prefix, texts[i].as_str());
                    i += 1;
                }
                Ok(Follow::Lines(lines))
            },
            Response::Close => Ok(Follow::Close),
            Response::Failure(text) => {
                let message = "Failure during logs streaming: ".to_owned().concat(text.as_str());
                Err(Error::new(InnerError::SchedulerUnavailable(message)))
            },
            _ => Err(
                Error::new(
                    InnerError::SchedulerUnavailable(
                        "Received unhandled Response message during logs streaming".to_owned(),
                    ),
                ),
            ),
        }
    }
}

/// An error among the first entries is the error of the whole answer.
proof fn lemma_log_lines_error(outputs: Seq<Option<Vec<u8>>>, prefix: Seq<char>, n: int, m: int)
    requires
        0 <= n <= m <= outputs.len(),
        log_lines(outputs, prefix, n) is Err,
    ensures
        log_lines(outputs, prefix, m) == log_lines(outputs, prefix, n),
    decreases m - n,
{
    if n < m {
        lemma_log_lines_error(outputs, prefix, n, m - 1);
    }
}

} // verus!
