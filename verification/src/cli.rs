//! The command line as plain values, and what each subcommand hands to
//! its operation.

use crate::common::ProcessState;
use crate::logs::LogsArgs;
use crate::ps::{PsArgs, PsOutput};
use crate::start::StartArgs;
use crate::stop::StopArgs;
use crate::Pid;
use std::fmt::Display;
use vstd::prelude::*;
use vstd::string::to_string_from_display_ensures;

verus! {

/// The command line.
#[derive(Debug, PartialEq, Eq)]
pub struct Cli {
    /// Whether to force a refresh.
    pub refresh: bool,
    /// Which stack to select.
    pub stack: Option<String>,
    /// In which directory to work.
    pub target_directory: Option<String>,
    pub sub_command: CliSubCommand,
}

/// The subcommands.
#[derive(Debug, PartialEq, Eq)]
pub enum CliSubCommand {
    Ui(UiArgs),
    Clean(CleanArgsCli),
    Logs(LogsArgsCli),
    Ps(PsArgsCli),
    Start(StartArgsCli),
    Stop(StopArgsCli),
}

/// `ui`.
#[derive(Debug, PartialEq, Eq)]
pub struct UiArgs {}

/// `clean`: removes the state and the resources of the project.
#[derive(Clone, Debug, PartialEq, Eq)]
pub struct CleanArgsCli {}

/// `logs`.
#[derive(Clone, Debug, PartialEq, Eq)]
pub struct LogsArgsCli {
    /// Whether to follow the output.
    pub follow: bool,
    /// Whether each line starts with the name of its process.
    pub process_prefix: bool,
    /// Whether only new lines are shown.
    pub tail: bool,
    /// The processes to act upon.
    pub processes: Vec<String>,
}

/// `ps`.
#[derive(Debug, PartialEq, Eq)]
pub struct PsArgsCli {
    /// The processes to act upon.
    pub processes: Vec<String>,
}

/// One line of the table that `ps` prints.
#[derive(Clone, Debug, PartialEq, Eq)]
pub struct PsOutputCli {
    pub name: String,
    pub state: ProcessState,
    pub pid: Option<Pid>,
}

/// `start`.
#[derive(Debug, PartialEq, Eq)]
pub struct StartArgsCli {
    /// The processes to act upon.
    pub processes: Vec<String>,
}

/// `stop`.
#[derive(Clone, Debug, PartialEq, Eq)]
pub struct StopArgsCli {
    /// Whether to send KILL in place of TERM.
    pub kill: bool,
    /// The processes to act upon.
    pub processes: Vec<String>,
}

impl From<LogsArgsCli> for LogsArgs {
    fn from(value: LogsArgsCli) -> (r: LogsArgs) {
        LogsArgs {
            follow: value.follow,
            process_prefix: value.process_prefix,
            tail: value.tail,
            processes: value.processes,
        }
    }
}

impl vstd::std_specs::convert::FromSpecImpl<LogsArgsCli> for LogsArgs {
    open spec fn obeys_from_spec() -> bool {
        true
    }

    open spec fn from_spec(value: LogsArgsCli) -> LogsArgs {
        LogsArgs {
            follow: value.follow,
            process_prefix: value.process_prefix,
            tail: value.tail,
            processes: value.processes,
        }
    }
}

impl From<PsArgsCli> for PsArgs {
    fn from(value: PsArgsCli) -> (r: PsArgs) {
        PsArgs { processes: value.processes }
    }
}

impl vstd::std_specs::convert::FromSpecImpl<PsArgsCli> for PsArgs {
    open spec fn obeys_from_spec() -> bool {
        true
    }

    open spec fn from_spec(value: PsArgsCli) -> PsArgs {
        PsArgs { processes: value.processes }
    }
}

impl From<PsOutput> for PsOutputCli {
    fn from(value: PsOutput) -> (r: PsOutputCli) {
        PsOutputCli { name: value.name, state: value.state, pid: value.pid }
    }
}

impl vstd::std_specs::convert::FromSpecImpl<PsOutput> for PsOutputCli {
    open spec fn obeys_from_spec() -> bool {
        true
    }

    open spec fn from_spec(value: PsOutput) -> PsOutputCli {
        PsOutputCli { name: value.name, state: value.state, pid: value.pid }
    }
}

impl From<StartArgsCli> for StartArgs {
    fn from(value: StartArgsCli) -> (r: StartArgs) {
        StartArgs { processes: value.processes }
    }
}

impl vstd::std_specs::convert::FromSpecImpl<StartArgsCli> for StartArgs {
    open spec fn obeys_from_spec() -> bool {
        true
    }

    open spec fn from_spec(value: StartArgsCli) -> StartArgs {
        StartArgs { processes: value.processes }
    }
}

impl From<StopArgsCli> for StopArgs {
    fn from(value: StopArgsCli) -> (r: StopArgs) {
        StopArgs { kill: value.kill, processes: value.processes }
    }
}

impl vstd::std_specs::convert::FromSpecImpl<StopArgsCli> for StopArgs {
    open spec fn obeys_from_spec() -> bool {
        true
    }

    open spec fn from_spec(value: StopArgsCli) -> StopArgs {
        StopArgs { kill: value.kill, processes: value.processes }
    }
}

/// What a cell of the table shows for a value that may be missing: the
/// value as it displays itself, or nothing.
pub fn tabled_display_option<T: Display>(value: &Option<T>) -> (r: String)
    ensures
        match value {
            Some(u) => to_string_from_display_ensures::<T>(u, r),
            None => r@ == Seq::<char>::empty(),
        },
{
    match value {
        Some(u) => u.to_string(),
        None => String::new(),
    }
}

} // verus!
