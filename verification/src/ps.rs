//! Listing processes.

use crate::common::{process_names, procs, Exec, Process, ProcessState, ProcessView};
use crate::database::sort_by_name;
use crate::error::{plain, Error};
use crate::state::{selection, State, StateView};
use crate::text::{lemma_name_order, sort_positions, strs};
use crate::Pid;
use vstd::prelude::*;

verus! {

/// Which processes to list.
#[derive(Debug, PartialEq, Eq)]
pub struct PsArgs {
    pub processes: Vec<String>,
}

/// One line of the list.
#[derive(Clone, Debug, PartialEq, Eq)]
pub struct PsOutput {
    pub name: String,
    pub state: ProcessState,
    pub pid: Option<Pid>,
}

impl View for PsOutput {
    type V = (Seq<char>, ProcessState, Option<Pid>);

    open spec fn view(&self) -> (Seq<char>, ProcessState, Option<Pid>) {
        (self.name@, self.state, self.pid)
    }
}

/// What the list shows of a process: its name, state and handle.
pub open spec fn line_of(p: ProcessView) -> (Seq<char>, ProcessState, Option<Pid>) {
    (p.name, p.state, p.pid)
}

/// The lines for a selection of processes: one for each, in the order of
/// their names.
pub open spec fn lines_of(ps: Seq<ProcessView>) -> Seq<(Seq<char>, ProcessState, Option<Pid>)> {
    sort_by_name(ps).map_values(|p: ProcessView| line_of(p))
}

impl PsOutput {
    /// The line for `value`.
    pub fn from(value: Process) -> (r: PsOutput)
        ensures
            r@ == line_of(value@),
    {
        PsOutput { name: value.name, state: value.state, pid: value.pid }
    }
}

/// The operation that lists processes.
pub struct Ps {
    args: PsArgs,
}

impl Ps {
    /// The operation on the processes that `args` names.
    pub fn new(args: PsArgs) -> (r: Ps)
        ensures
            r.names() == strs(args.processes@),
    {
        Ps { args }
    }

    /// The names that the operation was given.
    pub closed spec fn names(&self) -> Seq<Seq<char>> {
        strs(self.args.processes@)
    }

    /// The lines of the selected processes, in the order of their names.
    pub fn run(&self, state: &State) -> (r: Result<Vec<PsOutput>, Error>)
        requires
            state.wf(),
        ensures
            match selection(state@, self.names()) {
                Ok(selected) => {
                    &&& r is Ok
                    &&& r->Ok_0@.map_values(|o: PsOutput| o@) == lines_of(selected)
                },
                Err(e) => r is Err && r->Err_0@ == plain(e),
            },
    {
        let processes = match state.filter_processes(&self.args.processes) {
            Ok(processes) => processes,
            Err(e) => {
                return Err(e);
            },
        };
        let mut names: Vec<String> = Vec::new();
        let n = processes.len();
        let mut i: usize = 0;
        while i < n
            invariant
                n == processes.len(),
                0 <= i <= n,
                names.len() == i,
                forall|j: int| 0 <= j < i ==> names@[j]@ == processes@[j]@.name,
            decreases n - i,
        {
            names.push(processes[i].name.clone());
            i += 1;
        }
        assert(strs(names@) =~= process_names(procs(processes@)));
        let order = sort_positions(&names);
        proof {
            lemma_name_order(strs(names@), n as nat);
        }
        let mut out: Vec<PsOutput> = Vec::new();
        let mut k: usize = 0;
        while k < n
            invariant
                n == processes.len(),
                order.len() == n,
                forall|j: int| 0 <= j < n ==> #[trigger] order@[j] < n,
                0 <= k <= n,
                out.len() == k,
                forall|j: int|
                    0 <= j < k ==> (#[trigger] out@[j])@ == line_of(processes@[order@[j] as int]@),
            decreases n - k,
        {
            out.push(PsOutput::from(processes[order[k]].duplicate()));
            k += 1;
        }
        assert(out@.map_values(|o: PsOutput| o@) =~= lines_of(procs(processes@)));
        Ok(out)
    }
}

impl Exec<Vec<PsOutput>> for Ps {
    open spec fn gives(&self, state: StateView, r: Result<Vec<PsOutput>, Error>) -> bool {
        match selection(state, self.names()) {
            Ok(selected) => {
                &&& r is Ok
                &&& r->Ok_0@.map_values(|o: PsOutput| o@) == lines_of(selected)
            },
            Err(e) => r is Err && r->Err_0@ == plain(e),
        }
    }

    fn exec(&self, state: &State) -> (r: Result<Vec<PsOutput>, Error>) {
        self.run(state)
    }
}

} // verus!
