//! The state of one project: its store, the directories it lives in and
//! the stack that is selected, with every operation that reads or changes
//! them.

use crate::command::cargo::{bins, BinaryPackage};
use crate::command::pueue::{tasks_view, ScheduledTask};
use crate::common::{
    all_processes, process_names, procs, running_have_handle, stack_names, stacks_view,
    stopped_have_no_handle, Process, ProcessState, ProcessView, Stack, StackView, TaskStatus,
};
use crate::config::{stack_table, ConfigFile};
use crate::database::{
    binary_names, find_stack, first_unresolved, lemma_first_unresolved, missing_from, missing_names, missing_of,
    normal_processes, sort_binaries, sort_by_name, store_wf, stored_processes, unique_stacks, with_pid, with_state, without_members,
    Database, StoreView,
};
use crate::error::{plain, Error, InnerError, InnerErrorView};
use crate::database::lemma_sort_by_name;
use crate::refresh::{
    carry_over, described_processes, find_process, has_unfit_task, last_task, lemma_find_process,
    lemma_find_reconciled, lemma_first_unfit, lemma_rebuilt_runtime, no_finished_task,
    runtime_from,
};
use crate::refresh::{
    default_stack_of, elapsed_seconds, elapsed_since, first_unfit, first_unresolvable, has_newer,
    needs_to_refresh, rebuild_processes, rebuilt_processes, reconcile, reconciled,
    reconciled_process, resolve_stacks, resolved_stacks, runtime_of, walk_error, walk_of,
};
use crate::text::{clone_strings, contains_name, str_eq, strs};
use crate::Pid;
use vstd::prelude::*;
use vstd::slice::slice_subrange;
use vstd::string::StringExecFns;

verus! {

/// What the state is opened with.
#[derive(Debug, PartialEq, Eq)]
pub struct StateArgs {
    pub refresh: bool,
    pub stack: Option<String>,
}

/// What a refresh reads from outside the store.
#[derive(Clone, Debug, PartialEq, Eq)]
pub struct RefreshInput {
    /// The tasks of the project's group, oldest first.
    pub tasks: Vec<ScheduledTask>,
    /// The present time, in seconds since the epoch.
    pub now: i64,
    /// For each manifest of the workspace that exists, the seconds since it
    /// was last changed.
    pub manifest_ages: Vec<u64>,
    /// The same for each configuration file that exists.
    pub config_ages: Vec<u64>,
    /// The artifacts of the workspace; read where the artifacts are
    /// refreshed.
    pub artifacts: Vec<BinaryPackage>,
    /// The configuration, where the workspace has one; read where the
    /// configuration is refreshed.
    pub config: Option<ConfigFile>,
}

/// The SHA-256 digest of a sequence of bytes, as `sha2::Sha256` computes
/// it.
pub uninterp spec fn sha256(data: Seq<u8>) -> Seq<u8>;

/// `sha2::Sha256::digest` of `data`: the 32 bytes of its SHA-256 digest.
#[verifier::external_body]
fn sha256_digest(data: &[u8]) -> (r: Vec<u8>)
    ensures
        r@ == sha256(data@),
        r@.len() == 32,
{
    <sha2::Sha256 as sha2::Digest>::digest(data).to_vec()
}

/// The digit of a number below sixteen in base sixteen, in lower case.
pub open spec fn hex_digit(n: int) -> char {
    if n == 0 {
        '0'
    } else if n == 1 {
        '1'
    } else if n == 2 {
        '2'
    } else if n == 3 {
        '3'
    } else if n == 4 {
        '4'
    } else if n == 5 {
        '5'
    } else if n == 6 {
        '6'
    } else if n == 7 {
        '7'
    } else if n == 8 {
        '8'
    } else if n == 9 {
        '9'
    } else if n == 10 {
        'a'
    } else if n == 11 {
        'b'
    } else if n == 12 {
        'c'
    } else if n == 13 {
        'd'
    } else if n == 14 {
        'e'
    } else {
        'f'
    }
}

/// Bytes written in base sixteen: two digits in lower case for each byte,
/// the high one first.
pub open spec fn hex_lower(data: Seq<u8>) -> Seq<char>
    decreases data.len(),
{
    if data.len() == 0 {
        Seq::empty()
    } else {
        hex_lower(data.drop_last()).push(hex_digit(data.last() as int / 16)).push(
            hex_digit(data.last() as int % 16),
        )
    }
}

/// Whether a character is a digit of base sixteen in lower case.
pub open spec fn is_lower_hex(c: char) -> bool {
    ('0' <= c && c <= '9') || ('a' <= c && c <= 'f')
}

/// Bytes written in base sixteen are two digits of base sixteen in lower
/// case for each byte.
pub proof fn lemma_hex_lower(data: Seq<u8>)
    ensures
        hex_lower(data).len() == 2 * data.len(),
        forall|i: int| 0 <= i < hex_lower(data).len() ==> is_lower_hex(#[trigger] hex_lower(data)[i]),
    decreases data.len(),
{
    if data.len() > 0 {
        lemma_hex_lower(data.drop_last());
        let head = hex_lower(data.drop_last());
        let high = data.last() as int / 16;
        let low = data.last() as int % 16;
        assert(0 <= high < 16 && 0 <= low < 16);
        assert(is_lower_hex(hex_digit(high)));
        assert(is_lower_hex(hex_digit(low)));
        assert forall|i: int| 0 <= i < hex_lower(data).len() implies is_lower_hex(
            #[trigger] hex_lower(data)[i],
        ) by {
            if i < head.len() {
                assert(hex_lower(data)[i] == head[i]);
            }
        }
    }
}

/// `hex::encode` of `data`: each byte as two digits of base sixteen in
/// lower case, the high one first.
#[verifier::external_body]
fn hex_encode(data: &[u8]) -> (r: String)
    ensures
        r@ == hex_lower(data@),
{
    hex::encode(data)
}

/// The id of the project in the workspace directory `target_dir`: the
/// first eight bytes of the digest of the path, in base sixteen.
pub open spec fn project_id(target_dir: Seq<char>) -> Seq<char> {
    hex_lower(sha256(vstd::utf8::encode_utf8(target_dir)).take(8))
}

/// The directory in which the state of a project is kept.
pub open spec fn project_dir(state_home: Seq<char>, id: Seq<char>) -> Seq<char> {
    state_home + "/"@ + "jocker"@ + "/"@ + id
}

/// The mathematical value of a [`State`].
pub ghost struct StateView {
    pub project_dir: Seq<char>,
    pub target_dir: Seq<char>,
    pub store: StoreView,
    pub current_stack: Option<Seq<char>>,
}

/// The names that an operation is about: those given; where none is given
/// those of the selected stack, which must exist; else none, which stands
/// for every process.
pub open spec fn wanted_names(v: StateView, names: Seq<Seq<char>>) -> Result<
    Seq<Seq<char>>,
    Seq<char>,
> {
    if names.len() > 0 {
        Ok(names)
    } else {
        match v.current_stack {
            Some(s) => match find_stack(v.store.stacks, s) {
                Some(stack) => Ok(all_processes(stack)),
                None => Err(s),
            },
            None => Ok(Seq::empty()),
        }
    }
}

/// Those of the first `n` processes whose name is in `expected`, in their
/// order.
pub open spec fn keep_named(ps: Seq<ProcessView>, expected: Seq<Seq<char>>, n: int) -> Seq<
    ProcessView,
>
    decreases n,
{
    if n <= 0 || n > ps.len() {
        Seq::empty()
    } else if expected.contains(ps[n - 1].name) {
        keep_named(ps, expected, n - 1).push(ps[n - 1])
    } else {
        keep_named(ps, expected, n - 1)
    }
}

/// What an operation on the names `names` works on: every process where
/// nothing is wanted, else the wanted processes in the order of the store,
/// or the wanted names that are no process.
pub open spec fn selection(v: StateView, names: Seq<Seq<char>>) -> Result<
    Seq<ProcessView>,
    InnerErrorView,
> {
    match wanted_names(v, names) {
        Err(stack) => Err(InnerErrorView::StackNotFound(stack)),
        Ok(expected) => {
            let known = process_names(v.store.processes);
            let missing = missing_names(expected, known, expected.len() as int);
            if expected.len() == 0 {
                Ok(v.store.processes)
            } else if missing.len() > 0 {
                Err(InnerErrorView::ProcessNotFound(missing))
            } else {
                Ok(keep_named(v.store.processes, expected, v.store.processes.len() as int))
            }
        },
    }
}

/// The store after its processes were brought in line with the scheduler.
pub open spec fn after_reconcile(v: StoreView, tasks: Seq<(Seq<char>, usize, TaskStatus)>) -> Result<
    StoreView,
    InnerErrorView,
> {
    match first_unfit(v.processes, tasks, 0) {
        Some(_) => Err(InnerErrorView::TryFromInt),
        None => Ok(StoreView { processes: reconciled(v.processes, tasks), ..v }),
    }
}

/// The store after its artifacts were replaced at the time `now`.
pub open spec fn after_binaries(v: StoreView, artifacts: Seq<(Seq<char>, Seq<char>)>, now: i64) -> Result<
    StoreView,
    InnerErrorView,
> {
    if binary_names(artifacts).no_duplicates() {
        Ok(StoreView { binaries: sort_binaries(artifacts), binaries_updated_at: Some(now), ..v })
    } else {
        Err(InnerErrorView::Conflict("artifact name is not unique"@))
    }
}

/// The store after its processes were rebuilt from the configuration or
/// from the artifacts.
pub open spec fn after_processes(v: StoreView, config: Option<ConfigFile>) -> Result<
    StoreView,
    InnerErrorView,
> {
    let rebuilt = rebuilt_processes(config, v.binaries, v.processes);
    if process_names(rebuilt).no_duplicates() {
        Ok(
            StoreView {
                processes: stored_processes(rebuilt),
                stacks: without_members(v.stacks),
                ..v
            },
        )
    } else {
        Err(InnerErrorView::Conflict("process name is not unique"@))
    }
}

/// The stacks that a configuration describes, each with what it inherits;
/// none where there is no configuration.
pub open spec fn described_stacks(config: Option<ConfigFile>) -> Result<
    Seq<StackView>,
    InnerErrorView,
> {
    match config {
        None => Ok(Seq::empty()),
        Some(c) => match first_unresolvable(stack_table(c.stacks@), 0) {
            Some(k) => Err(walk_error(walk_of(stack_table(c.stacks@), k))),
            None => Ok(resolved_stacks(stack_table(c.stacks@))),
        },
    }
}

/// The default stack that a configuration names, if it names one.
pub open spec fn described_default(config: Option<ConfigFile>) -> Option<Seq<char>> {
    match config {
        None => None,
        Some(c) => default_stack_of(c),
    }
}

/// The store after its stacks were rebuilt from the configuration at the
/// time `now`.
pub open spec fn after_stacks(v: StoreView, config: Option<ConfigFile>, now: i64) -> Result<
    StoreView,
    InnerErrorView,
> {
    match described_stacks(config) {
        Err(e) => Err(e),
        Ok(stacks) => {
            let default = described_default(config);
            let known = process_names(v.processes);
            if default matches Some(d) && !stack_names(stacks).contains(d) {
                Err(InnerErrorView::StackNotFound(default->0))
            } else if first_unresolved(stacks, known, 0) is Some {
                Err(
                    InnerErrorView::ProcessNotFound(
                        missing_of(stacks[first_unresolved(stacks, known, 0)->0], known),
                    ),
                )
            } else if !stack_names(stacks).no_duplicates() {
                Err(InnerErrorView::Conflict("stack name is not unique"@))
            } else {
                Ok(
                    StoreView {
                        stacks: unique_stacks(stacks),
                        default_stack: default,
                        config_updated_at: Some(now),
                        ..v
                    },
                )
            }
        },
    }
}

/// Whether a refresh at the time `now` replaces the artifacts: it is
/// forced, or one of the manifests, whose ages in seconds are `ages`, is
/// newer than the last refresh of the artifacts.
pub open spec fn artifacts_due(v: StoreView, hard: bool, now: i64, ages: Seq<u64>) -> bool {
    hard || has_newer(ages, elapsed_seconds(v.binaries_updated_at, now) as u64)
}

/// Whether a refresh at the time `now` rebuilds processes and stacks: it
/// is forced, or one of the configuration files, whose ages in seconds are
/// `ages`, is newer than the last refresh of the configuration.
pub open spec fn config_due(v: StoreView, hard: bool, now: i64, ages: Seq<u64>) -> bool {
    hard || has_newer(ages, elapsed_seconds(v.config_updated_at, now) as u64)
}

/// What a refresh of `db` at the time `now` is going to read: whether it
/// replaces the artifacts, and whether it rebuilds processes and stacks.
pub fn refresh_due(
    db: &Database,
    hard: bool,
    now: i64,
    manifest_ages: &Vec<u64>,
    config_ages: &Vec<u64>,
) -> (r: (bool, bool))
    ensures
        r.0 == artifacts_due(db@, hard, now, manifest_ages@),
        r.1 == config_due(db@, hard, now, config_ages@),
{
    let artifacts = hard || needs_to_refresh(
        manifest_ages,
        elapsed_since(db.get_binaries_updated_at(), now),
    );
    let config = hard || needs_to_refresh(
        config_ages,
        elapsed_since(db.get_config_updated_at(), now),
    );
    (artifacts, config)
}

/// The store after a refresh. First the processes are brought in line
/// with the scheduler. Then, where the artifacts are due, they are
/// replaced. Then, where the configuration is due, the processes and the
/// stacks are rebuilt. What is due is decided on the store as it was
/// before the refresh.
pub open spec fn refreshed(v: StoreView, hard: bool, input: RefreshInput) -> Result<
    StoreView,
    InnerErrorView,
> {
    match after_reconcile(v, tasks_view(input.tasks@)) {
        Err(e) => Err(e),
        Ok(v1) => {
            let second = if artifacts_due(v, hard, input.now, input.manifest_ages@) {
                after_binaries(v1, bins(input.artifacts@), input.now)
            } else {
                Ok(v1)
            };
            match second {
                Err(e) => Err(e),
                Ok(v2) => {
                    if config_due(v, hard, input.now, input.config_ages@) {
                        match after_processes(v2, input.config) {
                            Err(e) => Err(e),
                            Ok(v3) => after_stacks(v3, input.config, input.now),
                        }
                    } else {
                        Ok(v2)
                    }
                },
            }
        },
    }
}

/// The processes of which the first `n` are in line with the scheduler and
/// the others as they were.
spec fn partly_reconciled(
    ps: Seq<ProcessView>,
    tasks: Seq<(Seq<char>, usize, TaskStatus)>,
    n: int,
) -> Seq<ProcessView> {
    Seq::new(
        ps.len(),
        |k: int|
            if k < n {
                reconciled_process(ps[k], tasks)
            } else {
                ps[k]
            },
    )
}

/// The state of one project.
pub struct State {
    project_dir: String,
    target_dir: String,
    db: Database,
    current_stack: Option<String>,
}

impl View for State {
    type V = StateView;

    closed spec fn view(&self) -> StateView {
        StateView {
            project_dir: self.project_dir@,
            target_dir: self.target_dir@,
            store: self.db@,
            current_stack: match self.current_stack {
                Some(s) => Some(s@),
                None => None,
            },
        }
    }
}

impl State {
    /// What holds of every state: its store is in order.
    pub open spec fn wf(&self) -> bool {
        store_wf(self@.store)
    }

    /// The id of the project in the workspace directory `target_dir`:
    /// sixteen digits of base sixteen in lower case. It depends on the
    /// characters of the path and on nothing else.
    pub fn get_project_id(target_dir: &str) -> (r: String)
        ensures
            r@ == project_id(target_dir@),
            r@.len() == 16,
            forall|i: int| 0 <= i < r@.len() ==> is_lower_hex(#[trigger] r@[i]),
    {
        let digest = sha256_digest(target_dir.as_bytes());
        let head = slice_subrange(digest.as_slice(), 0, 8);
        proof {
            lemma_hex_lower(head@);
        }
        hex_encode(head)
    }

    /// The directory under `state_home` in which the state of the project
    /// `project_id` is kept.
    pub fn get_project_dir(state_home: &str, project_id: &str) -> (r: String)
        ensures
            r@ == project_dir(state_home@, project_id@),
    {
        let mut r = state_home.to_owned();
        r.append("/");
        r.append(crate::JOCKER);
        r.append("/");
        r.append(project_id);
        proof {
            reveal_strlit("jocker");
        }
        assert(crate::JOCKER@ == "jocker"@);
        r
    }

    /// Opens the state of the project in the workspace directory
    /// `target_dir` over the store `db`, refreshes it, forced where
    /// `refresh` is set, and selects the stack `stack`, or the default
    /// stack where none is given. A stack that is given must exist.
    pub fn new(
        refresh: bool,
        stack: Option<String>,
        target_dir: &str,
        state_home: &str,
        db: Database,
        input: &RefreshInput,
    ) -> (r: Result<State, Error>)
        requires
            db.wf(),
        ensures
            match refreshed(db@, refresh, *input) {
                Err(e) => r is Err && r->Err_0@ == plain(e),
                Ok(store) => match stack {
                    Some(s) => match find_stack(store.stacks, s@) {
                        Some(found) => {
                            &&& r is Ok
                            &&& r->Ok_0.wf()
                            &&& r->Ok_0@ == (StateView {
                                project_dir: project_dir(state_home@, project_id(target_dir@)),
                                target_dir: target_dir@,
                                store,
                                current_stack: Some(found.name),
                            })
                        },
                        None => r is Err && r->Err_0@ == plain(InnerErrorView::StackNotFound(s@)),
                    },
                    None => {
                        &&& r is Ok
                        &&& r->Ok_0.wf()
                        &&& r->Ok_0@ == (StateView {
                            project_dir: project_dir(state_home@, project_id(target_dir@)),
                            target_dir: target_dir@,
                            store,
                            current_stack: store.default_stack,
                        })
                    },
                },
            },
    {
        let id = State::get_project_id(target_dir);
        let project_dir = State::get_project_dir(state_home, id.as_str());
        let mut state = State {
            project_dir,
            target_dir: target_dir.to_owned(),
            db,
            current_stack: None,
        };
        match state.refresh(refresh, input) {
            Err(e) => {
                return Err(e);
            },
            Ok(()) => {},
        }
        match state.set_current_stack(&stack) {
            Err(e) => {
                return Err(e);
            },
            Ok(()) => {},
        }
        Ok(state)
    }

    /// The seconds from the last refresh of the artifacts to `now`.
    pub fn get_elapsed_since_last_binaries_update(&self, now: i64) -> (r: u64)
        ensures
            r == elapsed_seconds(self@.store.binaries_updated_at, now),
    {
        elapsed_since(self.db.get_binaries_updated_at(), now)
    }

    /// The seconds from the last refresh of the configuration to `now`.
    pub fn get_elapsed_since_last_config_update(&self, now: i64) -> (r: u64)
        ensures
            r == elapsed_seconds(self@.store.config_updated_at, now),
    {
        elapsed_since(self.db.get_config_updated_at(), now)
    }

    /// When the artifacts were last refreshed, in seconds since the epoch.
    pub fn get_binaries_updated_at(&self) -> (r: Option<i64>)
        ensures
            r == self@.store.binaries_updated_at,
    {
        self.db.get_binaries_updated_at()
    }

    /// When the configuration was last refreshed, in seconds since the
    /// epoch.
    pub fn get_config_updated_at(&self) -> (r: Option<i64>)
        ensures
            r == self@.store.config_updated_at,
    {
        self.db.get_config_updated_at()
    }

    /// Every stack, in the order of the store.
    pub fn get_stacks(&self) -> (r: Vec<Stack>)
        ensures
            stacks_view(r@) == self@.store.stacks,
    {
        self.db.get_stacks()
    }

    /// Records when the artifacts were refreshed.
    pub fn set_binaries_updated_at(&mut self, date: i64)
        ensures
            final(self)@ == (StateView {
                store: StoreView { binaries_updated_at: Some(date), ..old(self)@.store },
                ..old(self)@
            }),
    {
        self.db.set_binaries_updated_at(date)
    }

    /// Records when the configuration was refreshed.
    pub fn set_config_updated_at(&mut self, date: i64)
        ensures
            final(self)@ == (StateView {
                store: StoreView { config_updated_at: Some(date), ..old(self)@.store },
                ..old(self)@
            }),
    {
        self.db.set_config_updated_at(date)
    }

    /// The workspace directory.
    pub fn get_target_dir(&self) -> (r: &str)
        ensures
            r@ == self@.target_dir,
    {
        self.target_dir.as_str()
    }

    /// The directory in which the state of the project is kept.
    pub fn get_project_directory(&self) -> (r: &str)
        ensures
            r@ == self@.project_dir,
    {
        self.project_dir.as_str()
    }

    /// Every artifact, in the order of the store.
    pub fn get_binaries(&self) -> (r: Vec<BinaryPackage>)
        ensures
            bins(r@) == self@.store.binaries,
    {
        self.db.get_binaries()
    }

    /// Replaces the artifacts by `binaries`, ordered by name. Where two of
    /// them share a name, the error `Conflict` and no change.
    pub fn set_binaries(&mut self, binaries: &Vec<BinaryPackage>) -> (r: Result<(), Error>)
        requires
            old(self).wf(),
        ensures
            final(self).wf(),
            if binary_names(bins(binaries@)).no_duplicates() {
                &&& r is Ok
                &&& final(self)@ == (StateView {
                    store: StoreView {
                        binaries: sort_binaries(bins(binaries@)),
                        ..old(self)@.store
                    },
                    ..old(self)@
                })
            } else {
                &&& r is Err
                &&& r->Err_0@ == plain(InnerErrorView::Conflict("artifact name is not unique"@))
                &&& final(self)@ == old(self)@
            },
    {
        self.db.set_binaries(binaries)
    }

    /// The processes that an operation on `process_names` works on: those
    /// named; where none is named those of the selected stack; where no
    /// stack is selected every process. They come in the order of the
    /// store. A wanted name that is no process is the error
    /// `ProcessNotFound`, which carries every such name.
    pub fn filter_processes(&self, process_names: &Vec<String>) -> (r: Result<Vec<Process>, Error>)
        requires
            self.wf(),
        ensures
            match selection(self@, strs(process_names@)) {
                Ok(selected) => r is Ok && procs(r->Ok_0@) == selected,
                Err(e) => r is Err && r->Err_0@ == plain(e),
            },
    {
        let expected: Vec<String> = if process_names.len() > 0 {
            clone_strings(process_names)
        } else {
            match &self.current_stack {
                Some(stack) => match self.db.get_stack(stack.as_str()) {
                    Ok(found) => found.get_all_processes(),
                    Err(e) => {
                        return Err(e);
                    },
                },
                None => {
                    let none: Vec<String> = Vec::new();
                    assert(strs(none@) =~= Seq::empty());
                    none
                },
            }
        };
        assert(wanted_names(self@, strs(process_names@)) == Ok::<Seq<Seq<char>>, Seq<char>>(
            strs(expected@),
        ));
        let all = self.db.get_processes();
        if expected.len() == 0 {
            return Ok(all);
        }
        let mut known: Vec<String> = Vec::new();
        let n = all.len();
        let mut i: usize = 0;
        while i < n
            invariant
                n == all.len(),
                0 <= i <= n,
                known.len() == i,
                forall|j: int| 0 <= j < i ==> known@[j]@ == all@[j]@.name,
            decreases n - i,
        {
            known.push(all[i].name.clone());
            i += 1;
        }
        assert(strs(known@) =~= crate::common::process_names(procs(all@)));
        let missing = missing_from(&expected, &known);
        if missing.len() > 0 {
            return Err(Error::new(InnerError::ProcessNotFound(missing)));
        }
        let mut kept: Vec<Process> = Vec::new();
        let mut k: usize = 0;
        assert(procs(kept@) =~= keep_named(procs(all@), strs(expected@), 0));
        while k < n
            invariant
                n == all.len(),
                0 <= k <= n,
                procs(kept@) == keep_named(procs(all@), strs(expected@), k as int),
            decreases n - k,
        {
            assert(procs(all@)[k as int] == all@[k as int]@);
            if contains_name(&expected, all[k].name.as_str()) {
                let p = all[k].duplicate();
                assert(procs(kept@.push(p)) =~= procs(kept@).push(p@));
                kept.push(p);
            }
            k += 1;
        }
        Ok(kept)
    }

    /// Every process, in the order of the store.
    pub fn get_processes(&self) -> (r: Vec<Process>)
        ensures
            procs(r@) == self@.store.processes,
    {
        self.db.get_processes()
    }

    /// Replaces the processes by `processes`, ordered by name; every stack
    /// is left without members. Where two of the new processes share a
    /// name, the error `Conflict` and no change.
    pub fn set_processes(&mut self, processes: Vec<Process>) -> (r: Result<(), Error>)
        requires
            old(self).wf(),
        ensures
            final(self).wf(),
            if crate::common::process_names(procs(processes@)).no_duplicates() {
                &&& r is Ok
                &&& final(self)@ == (StateView {
                    store: StoreView {
                        processes: stored_processes(procs(processes@)),
                        stacks: without_members(old(self)@.store.stacks),
                        ..old(self)@.store
                    },
                    ..old(self)@
                })
            } else {
                &&& r is Err
                &&& r->Err_0@ == plain(InnerErrorView::Conflict("process name is not unique"@))
                &&& final(self)@ == old(self)@
            },
    {
        self.db.set_processes(&processes)
    }

    /// Gives the process called `process_name` the state `state`.
    pub fn set_state(&mut self, process_name: &str, state: ProcessState)
        requires
            old(self).wf(),
        ensures
            final(self).wf(),
            final(self)@ == (StateView {
                store: StoreView {
                    processes: with_state(old(self)@.store.processes, process_name@, state),
                    ..old(self)@.store
                },
                ..old(self)@
            }),
    {
        self.db.set_process_state(process_name, state)
    }

    /// Gives the process called `process_name` the handle `pid`, or takes
    /// its handle away. A handle above the largest that the store holds is
    /// the error `TryFromInt`, and nothing changes.
    pub fn set_pid(&mut self, process_name: &str, pid: Option<usize>) -> (r: Result<(), Error>)
        requires
            old(self).wf(),
        ensures
            final(self).wf(),
            match pid {
                Some(p) if p > i32::MAX => {
                    &&& r is Err
                    &&& r->Err_0@ == plain(InnerErrorView::TryFromInt)
                    &&& final(self)@ == old(self)@
                },
                _ => {
                    &&& r is Ok
                    &&& final(self)@ == (StateView {
                        store: StoreView {
                            processes: with_pid(
                                old(self)@.store.processes,
                                process_name@,
                                match pid {
                                    Some(p) => Some(p as Pid),
                                    None => None,
                                },
                            ),
                            ..old(self)@.store
                        },
                        ..old(self)@
                    })
                },
            },
    {
        let handle: Option<Pid> = match pid {
            Some(p) => {
                if p > i32::MAX as usize {
                    return Err(Error::new(InnerError::TryFromInt));
                }
                Some(p as Pid)
            },
            None => None,
        };
        self.db.set_process_pid(process_name, handle);
        Ok(())
    }

    /// The name of the selected stack, if one is selected.
    pub fn get_current_stack(&self) -> (r: Option<String>)
        ensures
            match r {
                Some(s) => self@.current_stack == Some(s@),
                None => self@.current_stack is None,
            },
    {
        match &self.current_stack {
            Some(s) => Some(s.clone()),
            None => None,
        }
    }

    /// Selects the stack `stack`, which must exist, or, with `None`, the
    /// default stack of the store, if it has one.
    pub fn set_current_stack(&mut self, stack: &Option<String>) -> (r: Result<(), Error>)
        ensures
            match stack {
                Some(s) => match find_stack(old(self)@.store.stacks, s@) {
                    Some(found) => {
                        &&& r is Ok
                        &&& final(self)@ == (StateView {
                            current_stack: Some(found.name),
                            ..old(self)@
                        })
                    },
                    None => {
                        &&& r is Err
                        &&& r->Err_0@ == plain(InnerErrorView::StackNotFound(s@))
                        &&& final(self)@ == old(self)@
                    },
                },
                None => {
                    &&& r is Ok
                    &&& final(self)@ == (StateView {
                        current_stack: old(self)@.store.default_stack,
                        ..old(self)@
                    })
                },
            },
    {
        match stack {
            Some(s) => match self.db.get_stack(s.as_str()) {
                Ok(found) => {
                    self.current_stack = Some(found.name);
                    Ok(())
                },
                Err(e) => Err(e),
            },
            None => {
                self.current_stack = self.db.get_default_stack();
                Ok(())
            },
        }
    }

    /// The name of the default stack, if one is set.
    pub fn get_default_stack(&self) -> (r: Option<String>)
        ensures
            match r {
                Some(s) => self@.store.default_stack == Some(s@),
                None => self@.store.default_stack is None,
            },
    {
        self.db.get_default_stack()
    }

    /// Makes `stack` the default stack, or, with `None`, leaves the store
    /// without one. A stack that does not exist cannot be the default: the
    /// error `Conflict` with its name, and no change.
    pub fn set_default_stack(&mut self, stack: &Option<String>) -> (r: Result<(), Error>)
        requires
            old(self).wf(),
        ensures
            final(self).wf(),
            match stack {
                None => r is Ok && final(self)@ == (StateView {
                    store: StoreView { default_stack: None, ..old(self)@.store },
                    ..old(self)@
                }),
                Some(name) => if stack_names(old(self)@.store.stacks).contains(name@) {
                    &&& r is Ok
                    &&& final(self)@ == (StateView {
                        store: StoreView { default_stack: Some(name@), ..old(self)@.store },
                        ..old(self)@
                    })
                } else {
                    &&& r is Err
                    &&& r->Err_0@ == plain(InnerErrorView::Conflict(name@))
                    &&& final(self)@ == old(self)@
                },
            },
    {
        self.db.set_default_stack(stack)
    }

    /// The stack called `stack`. Where there is none, the error
    /// `StackNotFound` with that name.
    pub fn get_stack(&self, stack: &str) -> (r: Result<Stack, Error>)
        ensures
            match find_stack(self@.store.stacks, stack@) {
                Some(found) => r is Ok && r->Ok_0@ == found,
                None => r is Err && r->Err_0@ == plain(InnerErrorView::StackNotFound(stack@)),
            },
    {
        self.db.get_stack(stack)
    }

    /// Replaces the stacks by `stacks`; see [`Database::set_stacks`].
    pub fn set_stacks(&mut self, stacks: &Vec<Stack>) -> (r: Result<(), Error>)
        requires
            old(self).wf(),
        ensures
            final(self).wf(),
            match first_unresolved(
                stacks_view(stacks@),
                crate::common::process_names(old(self)@.store.processes),
                0,
            ) {
                Some(at) => {
                    &&& r is Err
                    &&& r->Err_0@ == plain(
                        InnerErrorView::ProcessNotFound(
                            missing_of(
                                stacks@[at]@,
                                crate::common::process_names(old(self)@.store.processes),
                            ),
                        ),
                    )
                    &&& final(self)@ == old(self)@
                },
                None => if stack_names(stacks_view(stacks@)).no_duplicates() {
                    &&& r is Ok
                    &&& final(self)@ == (StateView {
                        store: StoreView {
                            stacks: unique_stacks(stacks_view(stacks@)),
                            default_stack: None,
                            ..old(self)@.store
                        },
                        ..old(self)@
                    })
                } else {
                    &&& r is Err
                    &&& r->Err_0@ == plain(InnerErrorView::Conflict("stack name is not unique"@))
                    &&& final(self)@ == old(self)@
                },
            },
    {
        self.db.set_stacks(stacks)
    }

    /// Whether the artifacts are due for a refresh at the time `now`: one
    /// of the manifests, whose ages in seconds are `ages`, is newer than
    /// their last refresh.
    pub fn needs_to_refresh_binaries(&self, now: i64, ages: &Vec<u64>) -> (r: bool)
        ensures
            r == has_newer(ages@, elapsed_seconds(self@.store.binaries_updated_at, now) as u64),
    {
        needs_to_refresh(ages, self.get_elapsed_since_last_binaries_update(now))
    }

    /// Whether the configuration is due for a refresh at the time `now`:
    /// one of its files, whose ages in seconds are `ages`, is newer than
    /// its last refresh.
    pub fn needs_to_refresh_config(&self, now: i64, ages: &Vec<u64>) -> (r: bool)
        ensures
            r == has_newer(ages@, elapsed_seconds(self@.store.config_updated_at, now) as u64),
    {
        needs_to_refresh(ages, self.get_elapsed_since_last_config_update(now))
    }

    /// Brings every process in line with the tasks of the scheduler: one
    /// that the scheduler runs under its name gets the handle and the state
    /// of that task, any other is stopped and without handle. A handle that
    /// the store cannot hold is the error `TryFromInt`, and nothing
    /// changes.
    pub fn reconcile_pids(&mut self, tasks: &Vec<ScheduledTask>) -> (r: Result<(), Error>)
        requires
            old(self).wf(),
        ensures
            final(self).wf(),
            match after_reconcile(old(self)@.store, tasks_view(tasks@)) {
                Ok(store) => r is Ok && final(self)@ == (StateView { store, ..old(self)@ }),
                Err(e) => r is Err && r->Err_0@ == plain(e) && final(self)@ == old(self)@,
            },
    {
        let processes = self.db.get_processes();
        let runtime = match reconcile(&processes, tasks) {
            Ok(runtime) => runtime,
            Err(e) => {
                return Err(e);
            },
        };
        let ghost before = old(self)@.store.processes;
        let ghost all = tasks_view(tasks@);
        let n = processes.len();
        let mut i: usize = 0;
        assert(partly_reconciled(before, all, 0) =~= before);
        while i < n
            invariant
                n == processes.len(),
                runtime.len() == n,
                before == old(self)@.store.processes,
                before == procs(processes@),
                all == tasks_view(tasks@),
                0 <= i <= n,
                self.wf(),
                forall|k: int|
                    0 <= k < n ==> (#[trigger] runtime@[k]) == runtime_of(all, processes@[k]@.name),
                self@ == (StateView {
                    store: StoreView {
                        processes: partly_reconciled(before, all, i as int),
                        ..old(self)@.store
                    },
                    ..old(self)@
                }),
            decreases n - i,
        {
            let ghost current = partly_reconciled(before, all, i as int);
            let name = processes[i].name.as_str();
            assert(before[i as int] == processes@[i as int]@);
            self.db.set_process_pid(name, runtime[i].0);
            self.db.set_process_state(name, runtime[i].1);
            proof {
                let step = with_state(
                    with_pid(current, name@, runtime@[i as int].0),
                    name@,
                    runtime@[i as int].1,
                );
                let names = crate::common::process_names(current);
                assert forall|k: int| 0 <= k < n implies step[k] == partly_reconciled(
                    before,
                    all,
                    i as int + 1,
                )[k] by {
                    assert(names[k] == current[k].name);
                    assert(names[i as int] == current[i as int].name);
                    assert(current[k].name == before[k].name);
                }
                assert(step =~= partly_reconciled(before, all, i as int + 1));
            }
            i += 1;
        }
        assert(partly_reconciled(before, all, n as int) =~= reconciled(before, all));
        Ok(())
    }

    /// Replaces the artifacts by `artifacts` and records `now` as the time
    /// of their refresh.
    pub fn refresh_binaries(&mut self, artifacts: &Vec<BinaryPackage>, now: i64) -> (r: Result<
        (),
        Error,
    >)
        requires
            old(self).wf(),
        ensures
            final(self).wf(),
            match after_binaries(old(self)@.store, bins(artifacts@), now) {
                Ok(store) => r is Ok && final(self)@ == (StateView { store, ..old(self)@ }),
                Err(e) => r is Err && r->Err_0@ == plain(e) && final(self)@ == old(self)@,
            },
    {
        match self.db.set_binaries(artifacts) {
            Ok(()) => {
                self.db.set_binaries_updated_at(now);
                Ok(())
            },
            Err(e) => Err(e),
        }
    }

    /// Rebuilds the processes from the configuration or, where there is
    /// none, from the artifacts; a process that was stored under the same
    /// name keeps its handle and state.
    pub fn refresh_processes(&mut self, config: &Option<ConfigFile>) -> (r: Result<(), Error>)
        requires
            old(self).wf(),
        ensures
            final(self).wf(),
            match after_processes(old(self)@.store, *config) {
                Ok(store) => r is Ok && final(self)@ == (StateView { store, ..old(self)@ }),
                Err(e) => r is Err && r->Err_0@ == plain(e) && final(self)@ == old(self)@,
            },
    {
        let previous = self.db.get_processes();
        let binaries = self.db.get_binaries();
        let processes = rebuild_processes(config, &binaries, &previous);
        self.db.set_processes(&processes)
    }

    /// Rebuilds the stacks from the configuration, each with what it
    /// inherits, sets the default stack that the configuration names, which
    /// must be one of them, and records `now` as the time of the refresh.
    /// On an error nothing changes.
    pub fn refresh_stacks(&mut self, config: &Option<ConfigFile>, now: i64) -> (r: Result<
        (),
        Error,
    >)
        requires
            old(self).wf(),
        ensures
            final(self).wf(),
            match after_stacks(old(self)@.store, *config, now) {
                Ok(store) => r is Ok && final(self)@ == (StateView { store, ..old(self)@ }),
                Err(e) => r is Err && r->Err_0@ == plain(e) && final(self)@ == old(self)@,
            },
    {
        let mut default_stack: Option<String> = None;
        let stacks: Vec<Stack> = match config {
            Some(c) => {
                match &c.default {
                    Some(d) => match &d.stack {
                        Some(s) => {
                            default_stack = Some(s.clone());
                        },
                        None => {},
                    },
                    None => {},
                }
                match resolve_stacks(&c.stacks) {
                    Ok(stacks) => stacks,
                    Err(e) => {
                        return Err(e);
                    },
                }
            },
            None => {
                let none: Vec<Stack> = Vec::new();
                assert(stacks_view(none@) =~= Seq::empty());
                none
            },
        };
        match &default_stack {
            Some(d) => {
                let mut found = false;
                let mut i: usize = 0;
                while i < stacks.len()
                    invariant
                        0 <= i <= stacks.len(),
                        found == exists|j: int| 0 <= j < i && stacks@[j]@.name == d@,
                    decreases stacks.len() - i,
                {
                    if str_eq(stacks[i].name.as_str(), d.as_str()) {
                        found = true;
                    }
                    i += 1;
                }
                proof {
                    let names = stack_names(stacks_view(stacks@));
                    if found {
                        let j = choose|j: int| 0 <= j < stacks.len() && stacks@[j]@.name == d@;
                        assert(names[j] == d@);
                        assert(names.contains(d@));
                    } else {
                        assert forall|j: int| 0 <= j < names.len() implies names[j] != d@ by {
                            assert(names[j] == stacks@[j]@.name);
                        }
                    }
                }
                if !found {
                    return Err(Error::new(InnerError::StackNotFound(d.clone())));
                }
            },
            None => {},
        }
        match self.db.set_stacks(&stacks) {
            Ok(()) => {},
            Err(e) => {
                proof {
                    let known = crate::common::process_names(old(self)@.store.processes);
                    let at = first_unresolved(stacks_view(stacks@), known, 0);
                    lemma_first_unresolved(stacks_view(stacks@), known, 0);
                    if at is Some {
                        assert(stacks_view(stacks@)[at->0] == stacks@[at->0]@);
                    }
                }
                return Err(e);
            },
        }
        assert(stack_names(self.db@.stacks) =~= stack_names(stacks_view(stacks@)));
        match self.db.set_default_stack(&default_stack) {
            Ok(()) => {},
            Err(e) => {
                return Err(e);
            },
        }
        self.db.set_config_updated_at(now);
        Ok(())
    }

    /// The steps of a refresh, one after the other; it stops at the first
    /// that fails.
    fn refresh_steps(&mut self, hard: bool, input: &RefreshInput) -> (r: Result<(), Error>)
        requires
            old(self).wf(),
        ensures
            final(self).wf(),
            final(self)@.project_dir == old(self)@.project_dir,
            final(self)@.target_dir == old(self)@.target_dir,
            final(self)@.current_stack == old(self)@.current_stack,
            match refreshed(old(self)@.store, hard, *input) {
                Ok(store) => r is Ok && final(self)@.store == store,
                Err(e) => r is Err && r->Err_0@ == plain(e),
            },
    {
        match self.reconcile_pids(&input.tasks) {
            Ok(()) => {},
            Err(e) => {
                return Err(e);
            },
        }
        if hard || self.needs_to_refresh_binaries(input.now, &input.manifest_ages) {
            match self.refresh_binaries(&input.artifacts, input.now) {
                Ok(()) => {},
                Err(e) => {
                    return Err(e);
                },
            }
        }
        if hard || self.needs_to_refresh_config(input.now, &input.config_ages) {
            match self.refresh_processes(&input.config) {
                Ok(()) => {},
                Err(e) => {
                    return Err(e);
                },
            }
            match self.refresh_stacks(&input.config, input.now) {
                Ok(()) => {},
                Err(e) => {
                    return Err(e);
                },
            }
        }
        Ok(())
    }

    /// Refreshes the store: see [`refreshed`]. A refresh that fails leaves
    /// the store as it was.
    pub fn refresh(&mut self, hard: bool, input: &RefreshInput) -> (r: Result<(), Error>)
        requires
            old(self).wf(),
        ensures
            final(self).wf(),
            match refreshed(old(self)@.store, hard, *input) {
                Ok(store) => r is Ok && final(self)@ == (StateView { store, ..old(self)@ }),
                Err(e) => r is Err && r->Err_0@ == plain(e) && final(self)@ == old(self)@,
            },
    {
        let saved = self.db.duplicate();
        let r = self.refresh_steps(hard, input);
        if r.is_err() {
            self.db = saved;
        }
        r
    }
}

/// After a refresh, each process has the handle and the state that the
/// scheduler gives to a process that was stored before, or it is stopped
/// and without handle.
pub proof fn lemma_refreshed_runtime(v: StoreView, hard: bool, input: RefreshInput)
    requires
        store_wf(v),
        refreshed(v, hard, input) is Ok,
    ensures
        forall|k: int|
            0 <= k < refreshed(v, hard, input)->Ok_0.processes.len() ==> runtime_from(
                #[trigger] refreshed(v, hard, input)->Ok_0.processes[k],
                reconciled(v.processes, tasks_view(input.tasks@)),
            ),
{
    let tasks = tasks_view(input.tasks@);
    let in_line = reconciled(v.processes, tasks);
    let end = refreshed(v, hard, input)->Ok_0;
    let v1 = after_reconcile(v, tasks)->Ok_0;
    let artifacts_due = hard || has_newer(
        input.manifest_ages@,
        elapsed_seconds(v1.binaries_updated_at, input.now) as u64,
    );
    let v2 = if artifacts_due {
        after_binaries(v1, bins(input.artifacts@), input.now)->Ok_0
    } else {
        v1
    };
    let config_due = hard || has_newer(
        input.config_ages@,
        elapsed_seconds(v2.config_updated_at, input.now) as u64,
    );
    assert(v2.processes == in_line);
    if config_due {
        let rebuilt = rebuilt_processes(input.config, v2.binaries, in_line);
        lemma_rebuilt_runtime(input.config, v2.binaries, in_line);
        assert(input.artifacts@.len() == input.artifacts.len());
        if input.config is Some {
            assert(input.config->0.processes@.len() == input.config->0.processes.len());
        }
        if artifacts_due {
            crate::database::lemma_sort_binaries(bins(input.artifacts@));
        }
        assert(rebuilt.len() <= usize::MAX);
        let normal = normal_processes(rebuilt);
        lemma_sort_by_name(normal);
        assert(end.processes == sort_by_name(normal));
        assert forall|k: int| 0 <= k < end.processes.len() implies runtime_from(
            #[trigger] end.processes[k],
            in_line,
        ) by {
            assert(sort_by_name(normal)[k] == end.processes[k]);
            assert(sort_by_name(normal).contains(end.processes[k]));
            assert(normal.contains(end.processes[k]));
            let j = choose|j: int| 0 <= j < normal.len() && normal[j] == end.processes[k];
            assert(runtime_from(rebuilt[j], in_line));
            if !(rebuilt[j].state == ProcessState::Stopped && rebuilt[j].pid is None) {
                let i = choose|i: int|
                    0 <= i < in_line.len() && rebuilt[j].name == (#[trigger] in_line[i]).name
                        && rebuilt[j].pid == in_line[i].pid && rebuilt[j].state
                        == in_line[i].state;
                assert(end.processes[k].name == in_line[i].name);
            }
        }
    } else {
        assert(end.processes == in_line);
        assert forall|k: int| 0 <= k < end.processes.len() implies runtime_from(
            #[trigger] end.processes[k],
            in_line,
        ) by {
            assert(in_line[k].pid == end.processes[k].pid);
        }
    }
}

/// After a refresh every process that runs has a handle.
pub proof fn lemma_refreshed_running_have_handle(v: StoreView, hard: bool, input: RefreshInput)
    requires
        store_wf(v),
        refreshed(v, hard, input) is Ok,
    ensures
        running_have_handle(refreshed(v, hard, input)->Ok_0.processes),
{
    lemma_refreshed_runtime(v, hard, input);
    let end = refreshed(v, hard, input)->Ok_0.processes;
    let in_line = reconciled(v.processes, tasks_view(input.tasks@));
    assert forall|k: int| 0 <= k < end.len() implies ((#[trigger] end[k]).state
        == ProcessState::Running ==> end[k].pid is Some) by {
        assert(runtime_from(end[k], in_line));
    }
}

/// After a refresh every process that is stopped has no handle, provided
/// that the scheduler holds no paused or finished task under the name of a
/// process of the refreshed store: such a task leaves a process that was
/// stored before stopped with the handle of the task.
pub proof fn lemma_refreshed_stopped_have_no_handle(v: StoreView, hard: bool, input: RefreshInput)
    requires
        store_wf(v),
        refreshed(v, hard, input) is Ok,
        no_finished_task(refreshed(v, hard, input)->Ok_0.processes, tasks_view(input.tasks@)),
    ensures
        stopped_have_no_handle(refreshed(v, hard, input)->Ok_0.processes),
{
    lemma_refreshed_runtime(v, hard, input);
    let end = refreshed(v, hard, input)->Ok_0.processes;
    let tasks = tasks_view(input.tasks@);
    let in_line = reconciled(v.processes, tasks);
    assert forall|k: int| 0 <= k < end.len() implies ((#[trigger] end[k]).state
        == ProcessState::Stopped ==> end[k].pid is None) by {
        assert(runtime_from(end[k], in_line));
        if end[k].state == ProcessState::Stopped && end[k].pid is Some {
            let j = choose|j: int|
                0 <= j < in_line.len() && end[k].name == (#[trigger] in_line[j]).name && end[k].pid
                    == in_line[j].pid && end[k].state == in_line[j].state;
            assert(in_line[j] == reconciled_process(v.processes[j], tasks));
            assert(v.processes[j].name == end[k].name);
            assert(false);
        }
    }
}

/// The id of a project depends on the characters of the path of its
/// workspace and on nothing else: one path, one id.
pub proof fn lemma_project_id_of_one_path(first: Seq<char>, second: Seq<char>)
    requires
        first == second,
    ensures
        project_id(first) == project_id(second),
{
}

/// Whether every process that the workspace describes and for which the
/// scheduler holds a task is in the store already.
pub open spec fn tasks_are_known(v: StoreView, input: RefreshInput) -> bool {
    let described = described_processes(input.config, sort_binaries(bins(input.artifacts@)));
    forall|k: int|
        0 <= k < described.len() && last_task(
            tasks_view(input.tasks@),
            (#[trigger] described[k]).name,
        ) is Some ==> process_names(v.processes).contains(described[k].name)
}

/// A second forced refresh changes nothing but the two times of refresh,
/// where nothing has changed between the two: the scheduler reports the
/// same tasks and the workspace has the same artifacts and configuration.
/// This holds where the scheduler holds no task for a process that the
/// first refresh is the first to store: such a process is stored as
/// stopped, and the second refresh gives it the handle of the task.
pub proof fn lemma_refresh_twice(v: StoreView, first: RefreshInput, second: RefreshInput)
    requires
        store_wf(v),
        tasks_view(first.tasks@) == tasks_view(second.tasks@),
        bins(first.artifacts@) == bins(second.artifacts@),
        first.config == second.config,
        refreshed(v, true, first) is Ok,
        tasks_are_known(v, first),
    ensures
        refreshed(refreshed(v, true, first)->Ok_0, true, second) == Ok::<StoreView, InnerErrorView>(
            StoreView {
                binaries_updated_at: Some(second.now),
                config_updated_at: Some(second.now),
                ..refreshed(v, true, first)->Ok_0
            },
        ),
{
    let tasks = tasks_view(first.tasks@);
    let artifacts = bins(first.artifacts@);
    let config = first.config;
    let v1 = after_reconcile(v, tasks)->Ok_0;
    let v2 = after_binaries(v1, artifacts, first.now)->Ok_0;
    let r1 = rebuilt_processes(config, v2.binaries, v2.processes);
    let v3 = after_processes(v2, config)->Ok_0;
    let s1 = after_stacks(v3, config, first.now)->Ok_0;
    assert(refreshed(v, true, first) == Ok::<StoreView, InnerErrorView>(s1));
    let described = described_processes(config, v2.binaries);
    let n1 = normal_processes(r1);
    let sorted = sort_by_name(n1);
    assert(first.artifacts@.len() == first.artifacts.len());
    if config is Some {
        assert(config->0.processes@.len() == config->0.processes.len());
    }
    crate::database::lemma_sort_binaries(artifacts);
    lemma_sort_by_name(n1);
    assert(process_names(n1) =~= process_names(r1));
    lemma_first_unfit(v.processes, tasks, 0);
    assert(s1.processes == sorted);

    // Each process of the refreshed store is described, under its name.
    assert forall|k: int| 0 <= k < sorted.len() implies exists|j: int|
        0 <= j < described.len() && described[j].name == (#[trigger] sorted[k]).name by {
        assert(sorted.contains(sorted[k]));
        assert(n1.contains(sorted[k]));
        let j = choose|j: int| 0 <= j < n1.len() && n1[j] == sorted[k];
        assert(r1[j] == carry_over(described[j], v2.processes));
        assert(described[j].name == sorted[k].name);
    }

    // The second refresh brings every process in line once more.
    lemma_first_unfit(sorted, tasks, 0);
    assert forall|k: int| 0 <= k < sorted.len() implies !has_unfit_task(
        tasks,
        (#[trigger] sorted[k]).name,
    ) by {
        let name = sorted[k].name;
        if last_task(tasks, name) is Some {
            let j = choose|j: int| 0 <= j < described.len() && described[j].name == name;
            assert(process_names(v.processes).contains(described[j].name));
            let i = choose|i: int|
                0 <= i < process_names(v.processes).len() && process_names(v.processes)[i] == name;
            assert(v.processes[i].name == name);
        }
    }
    let w1 = after_reconcile(s1, tasks)->Ok_0;
    let w2 = after_binaries(w1, artifacts, second.now)->Ok_0;
    assert(w2.binaries == v2.binaries);
    let r2 = rebuilt_processes(config, w2.binaries, w2.processes);

    // It rebuilds the same processes.
    assert forall|k: int| 0 <= k < described.len() implies carry_over(described[k], w2.processes)
        == carry_over(described[k], v2.processes) by {
        let p = described[k];
        assert(p.state == ProcessState::Stopped && p.pid is None);
        lemma_find_reconciled(sorted, tasks, p.name);
        lemma_find_reconciled(v.processes, tasks, p.name);
        lemma_find_process(sorted, p.name);
        lemma_find_process(v.processes, p.name);
        assert(r1[k] == carry_over(p, v2.processes));
        assert(n1.contains(n1[k]));
        assert(sorted.contains(n1[k]));
        let at = choose|at: int| 0 <= at < sorted.len() && sorted[at] == n1[k];
        assert(process_names(sorted)[at] == p.name);
        assert(find_process(sorted, p.name) is Some);
        if find_process(v.processes, p.name) is None {
            if last_task(tasks, p.name) is Some {
                assert(process_names(v.processes).contains(described[k].name));
            }
        }
    }
    assert(r2 =~= r1);
    let w3 = after_processes(w2, config)->Ok_0;
    assert(w3.processes == sorted);
    assert(without_members(without_members(v2.stacks)) =~= without_members(v2.stacks));
    assert(after_stacks(w3, config, second.now) is Ok);
}

} // verus!
