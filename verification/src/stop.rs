//! Stopping processes: which of them need a signal, and what the store
//! records once they are down.

use crate::common::{procs, running_have_handle, Process, ProcessState, ProcessView};
use crate::start::{mark_all, mark_started};
use crate::database::{with_pid, with_state, StoreView};
use crate::error::{plain, Error};
use crate::state::{selection, State, StateView};
use crate::text::strs;
use crate::Pid;
use vstd::prelude::*;

verus! {

/// Which processes to stop, and how.
#[derive(Clone, Debug, PartialEq, Eq)]
pub struct StopArgs {
    pub kill: bool,
    pub processes: Vec<String>,
}

/// What stopping one process takes.
#[derive(Clone, Copy, Debug, PartialEq, Eq, Structural)]
pub enum StopAction {
    /// The process is stopped already: nothing to do.
    Skip,
    /// The task with the handle `pid` is to be stopped, with KILL where
    /// `kill` is set and with TERM where it is not; then the store is
    /// brought up to date.
    Signal { pid: Pid, kill: bool },
    /// The process has no task: only the store is brought up to date.
    Mark,
}

/// What stopping a process takes, given whether KILL was asked for.
pub open spec fn stop_action(p: ProcessView, kill: bool) -> StopAction {
    if p.state == ProcessState::Stopped {
        StopAction::Skip
    } else {
        match p.pid {
            Some(pid) => StopAction::Signal { pid, kill },
            None => StopAction::Mark,
        }
    }
}

/// The processes once the one called `name` is down: stopped and without
/// handle.
pub open spec fn mark_stopped(ps: Seq<ProcessView>, name: Seq<char>) -> Seq<ProcessView> {
    with_pid(with_state(ps, name, ProcessState::Stopped), name, None)
}

/// The operation that stops processes.
pub struct Stop {
    args: StopArgs,
}

impl Stop {
    /// The operation on the processes that `args` names.
    pub fn new(args: StopArgs) -> (r: Stop)
        ensures
            r.names() == strs(args.processes@),
            r.kill() == args.kill,
    {
        Stop { args }
    }

    /// The names that the operation was given.
    pub closed spec fn names(&self) -> Seq<Seq<char>> {
        strs(self.args.processes@)
    }

    /// Whether KILL was asked for.
    pub closed spec fn kill(&self) -> bool {
        self.args.kill
    }

    /// The processes to stop.
    pub fn begin(&self, state: &State) -> (r: Result<Vec<Process>, Error>)
        requires
            state.wf(),
        ensures
            match selection(state@, self.names()) {
                Ok(selected) => r is Ok && procs(r->Ok_0@) == selected,
                Err(e) => r is Err && r->Err_0@ == plain(e),
            },
    {
        state.filter_processes(&self.args.processes)
    }

    /// What stopping `process` takes.
    pub fn action(&self, process: &Process) -> (r: StopAction)
        ensures
            r == stop_action(process@, self.kill()),
    {
        run(process, &self.args)
    }

    /// Takes note that the process called `name` is down.
    pub fn stopped(&self, state: &mut State, name: &str)
        requires
            old(state).wf(),
        ensures
            final(state).wf(),
            final(state)@ == (StateView {
                store: StoreView {
                    processes: mark_stopped(old(state)@.store.processes, name@),
                    ..old(state)@.store
                },
                ..old(state)@
            }),
    {
        state.set_state(name, ProcessState::Stopped);
        let r = state.set_pid(name, None);
    }
}

/// What stopping `process` takes: nothing where it is stopped already, a
/// signal to its task where it has one, else only a note in the store.
pub fn run(process: &Process, args: &StopArgs) -> (r: StopAction)
    ensures
        r == stop_action(process@, args.kill),
{
    if process.state == ProcessState::Stopped {
        return StopAction::Skip;
    }
    match process.pid {
        Some(pid) => StopAction::Signal { pid, kill: args.kill },
        None => StopAction::Mark,
    }
}

/// The processes once each of those called by one of `names` is down.
pub open spec fn stop_all(ps: Seq<ProcessView>, names: Seq<Seq<char>>) -> Seq<ProcessView>
    decreases names.len(),
{
    if names.len() == 0 {
        ps
    } else {
        stop_all(mark_stopped(ps, names[0]), names.drop_first())
    }
}

/// The processes once each of those called by one of `names` runs under
/// the handle at the same place of `pids`.
pub open spec fn start_all(ps: Seq<ProcessView>, names: Seq<Seq<char>>, pids: Seq<Pid>) -> Seq<
    ProcessView,
>
    decreases names.len(),
{
    if names.len() == 0 || pids.len() == 0 {
        ps
    } else {
        start_all(mark_started(ps, names[0], pids[0]), names.drop_first(), pids.drop_first())
    }
}

/// Whether `after` is `before` but for the handle and the state of the
/// processes called by one of `names`.
pub open spec fn touched_only(
    before: Seq<ProcessView>,
    after: Seq<ProcessView>,
    names: Seq<Seq<char>>,
) -> bool {
    &&& after.len() == before.len()
    &&& forall|k: int|
        0 <= k < before.len() ==> {
            &&& (#[trigger] after[k]) == (ProcessView {
                pid: after[k].pid,
                state: after[k].state,
                ..before[k]
            })
            &&& !names.contains(before[k].name) ==> after[k] == before[k]
        }
}

proof fn lemma_rest_within(ns: Seq<Seq<char>>, all: Seq<Seq<char>>)
    requires
        ns.len() > 0,
        forall|i: int| 0 <= i < ns.len() ==> all.contains(#[trigger] ns[i]),
    ensures
        all.contains(ns[0]),
        forall|i: int| 0 <= i < ns.drop_first().len() ==> all.contains(#[trigger] ns.drop_first()[i]),
{
    assert forall|i: int| 0 <= i < ns.drop_first().len() implies all.contains(
        #[trigger] ns.drop_first()[i],
    ) by {
        assert(ns.drop_first()[i] == ns[i + 1]);
    }
}

/// Marking touches nothing but the handle and state of the marked.
pub proof fn lemma_mark_all_touches(
    ps: Seq<ProcessView>,
    ns: Seq<Seq<char>>,
    state: ProcessState,
    all: Seq<Seq<char>>,
)
    requires
        forall|i: int| 0 <= i < ns.len() ==> all.contains(#[trigger] ns[i]),
    ensures
        touched_only(ps, mark_all(ps, ns, state), all),
    decreases ns.len(),
{
    if ns.len() > 0 {
        lemma_rest_within(ns, all);
        let next = with_state(ps, ns[0], state);
        lemma_mark_all_touches(next, ns.drop_first(), state, all);
        let end = mark_all(ps, ns, state);
        assert forall|k: int| 0 <= k < ps.len() implies (#[trigger] end[k]) == (ProcessView {
            pid: end[k].pid,
            state: end[k].state,
            ..ps[k]
        }) && (!all.contains(ps[k].name) ==> end[k] == ps[k]) by {
            assert(next[k].name == ps[k].name);
        }
    }
}

/// Starting touches nothing but the handle and state of the started.
pub proof fn lemma_start_all_touches(
    ps: Seq<ProcessView>,
    ns: Seq<Seq<char>>,
    pids: Seq<Pid>,
    all: Seq<Seq<char>>,
)
    requires
        forall|i: int| 0 <= i < ns.len() ==> all.contains(#[trigger] ns[i]),
    ensures
        touched_only(ps, start_all(ps, ns, pids), all),
    decreases ns.len(),
{
    if ns.len() > 0 && pids.len() > 0 {
        lemma_rest_within(ns, all);
        let next = mark_started(ps, ns[0], pids[0]);
        lemma_start_all_touches(next, ns.drop_first(), pids.drop_first(), all);
        let end = start_all(ps, ns, pids);
        assert forall|k: int| 0 <= k < ps.len() implies (#[trigger] end[k]) == (ProcessView {
            pid: end[k].pid,
            state: end[k].state,
            ..ps[k]
        }) && (!all.contains(ps[k].name) ==> end[k] == ps[k]) by {
            assert(next[k].name == ps[k].name);
        }
    }
}

/// Stopping touches nothing but the handle and state of the stopped, and
/// leaves each of them, and whatever was down before, stopped and without
/// handle.
pub proof fn lemma_stop_all_touches(ps: Seq<ProcessView>, ns: Seq<Seq<char>>, all: Seq<Seq<char>>)
    requires
        forall|i: int| 0 <= i < ns.len() ==> all.contains(#[trigger] ns[i]),
    ensures
        touched_only(ps, stop_all(ps, ns), all),
        forall|k: int|
            0 <= k < ps.len() && (ns.contains(ps[k].name) || (ps[k].state == ProcessState::Stopped
                && ps[k].pid is None)) ==> (#[trigger] stop_all(ps, ns)[k]).state
                == ProcessState::Stopped && stop_all(ps, ns)[k].pid is None,
    decreases ns.len(),
{
    if ns.len() > 0 {
        lemma_rest_within(ns, all);
        let next = mark_stopped(ps, ns[0]);
        let rest = ns.drop_first();
        lemma_stop_all_touches(next, rest, all);
        let end = stop_all(ps, ns);
        assert forall|k: int| 0 <= k < ps.len() implies (#[trigger] end[k]) == (ProcessView {
            pid: end[k].pid,
            state: end[k].state,
            ..ps[k]
        }) && (!all.contains(ps[k].name) ==> end[k] == ps[k]) by {
            assert(next[k].name == ps[k].name);
        }
        assert forall|k: int|
            0 <= k < ps.len() && (ns.contains(ps[k].name) || (ps[k].state == ProcessState::Stopped
                && ps[k].pid is None)) implies (#[trigger] end[k]).state == ProcessState::Stopped
            && end[k].pid is None by {
            assert(next[k].name == ps[k].name);
            if ns.contains(ps[k].name) && ps[k].name != ns[0] {
                let i = choose|i: int| 0 <= i < ns.len() && ns[i] == ps[k].name;
                assert(rest[i - 1] == ps[k].name);
                assert(rest.contains(next[k].name));
            }
        }
    }
}

/// Starting processes that are down and then stopping them leaves the
/// processes as they were: each of those named is marked as building, then
/// runs under its handle, then is down again, stopped and without handle.
pub proof fn lemma_start_then_stop(ps: Seq<ProcessView>, names: Seq<Seq<char>>, pids: Seq<Pid>)
    requires
        names.len() == pids.len(),
        forall|k: int|
            0 <= k < ps.len() && names.contains((#[trigger] ps[k]).name) ==> ps[k].state
                == ProcessState::Stopped && ps[k].pid is None,
    ensures
        stop_all(start_all(mark_all(ps, names, ProcessState::Building), names, pids), names) == ps,
{
    let building = mark_all(ps, names, ProcessState::Building);
    let running = start_all(building, names, pids);
    let end = stop_all(running, names);
    lemma_mark_all_touches(ps, names, ProcessState::Building, names);
    lemma_start_all_touches(building, names, pids, names);
    lemma_stop_all_touches(running, names, names);
    assert forall|k: int| 0 <= k < ps.len() implies end[k] == ps[k] by {
        assert(building[k].name == ps[k].name);
        assert(running[k].name == ps[k].name);
        assert(end[k] == (ProcessView { pid: end[k].pid, state: end[k].state, ..running[k] }));
        if names.contains(ps[k].name) {
            assert(names.contains(running[k].name));
        }
    }
    assert(end =~= ps);
}

/// Where every process that runs has a handle, this is still so after
/// processes were marked as building or as stopped, after one was started,
/// and after one was stopped.
pub proof fn lemma_supervision_keeps_handles(
    ps: Seq<ProcessView>,
    names: Seq<Seq<char>>,
    name: Seq<char>,
    pid: Pid,
)
    requires
        running_have_handle(ps),
    ensures
        running_have_handle(mark_all(ps, names, ProcessState::Building)),
        running_have_handle(mark_all(ps, names, ProcessState::Stopped)),
        running_have_handle(mark_started(ps, name, pid)),
        running_have_handle(mark_stopped(ps, name)),
{
    lemma_marked_keep_handles(ps, names, ProcessState::Building);
    lemma_marked_keep_handles(ps, names, ProcessState::Stopped);
}

proof fn lemma_marked_keep_handles(ps: Seq<ProcessView>, ns: Seq<Seq<char>>, state: ProcessState)
    requires
        running_have_handle(ps),
        state != ProcessState::Running,
    ensures
        running_have_handle(mark_all(ps, ns, state)),
    decreases ns.len(),
{
    if ns.len() > 0 {
        lemma_marked_keep_handles(with_state(ps, ns[0], state), ns.drop_first(), state);
    }
}

} // verus!
