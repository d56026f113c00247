//! The records of the engine: processes, their lifecycle states, and stacks.

use crate::config::ConfigProcess;
use crate::error::{plain, Error, InnerError, InnerErrorView};
use crate::text::{
    clone_strings, extend_unique, name_before, name_lt, str_eq, strs, union_names,
};
use std::cmp::Ordering;
use crate::state::{State, StateView};
use crate::Pid;
use vstd::prelude::*;

verus! {

/// How many levels of ancestors a stack may have.
pub const MAX_RECURSION_LEVEL: u8 = 10;

/// Name of the environment variable that selects a stack.
pub const JOCKER_ENV_STACK: &'static str = "JOCKER_STACK";

/// An operation of the engine that reads the state of the project and
/// gives a `T`.
pub trait Exec<T> {
    /// Whether `r` is what the operation gives on `state`.
    spec fn gives(&self, state: StateView, r: Result<T, Error>) -> bool;

    /// Carries the operation out.
    fn exec(&self, state: &State) -> (r: Result<T, Error>)
        requires
            state.wf(),
        ensures
            self.gives(state@, r),
    ;
}

/// Where a process stands in its lifecycle.
#[derive(Clone, Copy, Debug, PartialEq, Eq, Structural, PartialOrd, Ord, Hash)]
pub enum ProcessState {
    Stopped,
    Building,
    Running,
    Unknown,
}

/// The state of a task as the scheduler reports it.
#[derive(Clone, Copy, Debug, PartialEq, Eq, Structural)]
pub enum TaskStatus {
    Locked,
    Stashed,
    Queued,
    Running,
    Paused,
    Done,
}

/// The lifecycle state that stands for a state of the scheduler: a running
/// task is `Running`, a paused or finished one `Stopped`, any other
/// `Unknown`.
pub open spec fn state_of_task(status: TaskStatus) -> ProcessState {
    match status {
        TaskStatus::Running => ProcessState::Running,
        TaskStatus::Paused | TaskStatus::Done => ProcessState::Stopped,
        _ => ProcessState::Unknown,
    }
}

/// The word under which a state is stored and shown.
pub open spec fn state_word(state: ProcessState) -> Seq<char> {
    match state {
        ProcessState::Stopped => "stopped"@,
        ProcessState::Building => "building"@,
        ProcessState::Running => "running"@,
        ProcessState::Unknown => "unknown"@,
    }
}

/// The state that a word stands for, if any.
pub open spec fn word_state(word: Seq<char>) -> Option<ProcessState> {
    if word == "stopped"@ {
        Some(ProcessState::Stopped)
    } else if word == "building"@ {
        Some(ProcessState::Building)
    } else if word == "running"@ {
        Some(ProcessState::Running)
    } else if word == "unknown"@ {
        Some(ProcessState::Unknown)
    } else {
        None
    }
}

impl Default for ProcessState {
    fn default() -> (r: ProcessState)
        ensures
            r == ProcessState::Stopped,
    {
        ProcessState::Stopped
    }
}

impl From<TaskStatus> for ProcessState {
    fn from(value: TaskStatus) -> (r: ProcessState) {
        match value {
            TaskStatus::Running => ProcessState::Running,
            TaskStatus::Paused | TaskStatus::Done => ProcessState::Stopped,
            _ => ProcessState::Unknown,
        }
    }
}

impl vstd::std_specs::convert::FromSpecImpl<TaskStatus> for ProcessState {
    open spec fn obeys_from_spec() -> bool {
        true
    }

    open spec fn from_spec(value: TaskStatus) -> ProcessState {
        state_of_task(value)
    }
}

impl ProcessState {
    /// The word for this state.
    pub fn to_string(&self) -> (r: String)
        ensures
            r@ == state_word(*self),
    {
        match self {
            ProcessState::Stopped => "stopped".to_owned(),
            ProcessState::Building => "building".to_owned(),
            ProcessState::Running => "running".to_owned(),
            ProcessState::Unknown => "unknown".to_owned(),
        }
    }

    /// Reads a state from its word. Any other text is a parse error that
    /// carries the text.
    pub fn try_from(value: String) -> (r: Result<ProcessState, Error>)
        ensures
            match word_state(value@) {
                Some(state) => r == Ok::<ProcessState, Error>(state),
                None => r is Err && r->Err_0@ == plain(InnerErrorView::Parse(value@)),
            },
    {
        if str_eq(value.as_str(), "stopped") {
            Ok(ProcessState::Stopped)
        } else if str_eq(value.as_str(), "building") {
            Ok(ProcessState::Building)
        } else if str_eq(value.as_str(), "running") {
            Ok(ProcessState::Running)
        } else if str_eq(value.as_str(), "unknown") {
            Ok(ProcessState::Unknown)
        } else {
            Err(Error::new(InnerError::Parse(value)))
        }
    }
}

/// Reading back the word of a state gives the state.
pub proof fn lemma_state_word_round_trip(state: ProcessState)
    ensures
        word_state(state_word(state)) == Some(state),
{
    reveal_strlit("stopped");
    reveal_strlit("building");
    reveal_strlit("running");
    reveal_strlit("unknown");
    assert("stopped"@.len() == 7);
    assert("building"@.len() == 8);
    assert("running"@[0] == 'r');
    assert("unknown"@[0] == 'u');
    assert("stopped"@[0] == 's');
}

/// A supervisable unit: a binary of the workspace with what is needed to
/// launch it, and where it stands.
#[derive(Clone, Debug, PartialEq, Eq)]
pub struct Process {
    pub name: String,
    pub binary: String,
    pub state: ProcessState,
    pub pid: Option<Pid>,
    pub args: Vec<String>,
    pub cargo_args: Vec<String>,
    pub env: Vec<(String, String)>,
}

/// The mathematical value of a [`Process`].
pub ghost struct ProcessView {
    pub name: Seq<char>,
    pub binary: Seq<char>,
    pub state: ProcessState,
    pub pid: Option<Pid>,
    pub args: Seq<Seq<char>>,
    pub cargo_args: Seq<Seq<char>>,
    pub env: Seq<(Seq<char>, Seq<char>)>,
}

/// The views of a list of pairs of strings.
pub open spec fn pairs(v: Seq<(String, String)>) -> Seq<(Seq<char>, Seq<char>)> {
    v.map_values(|e: (String, String)| (e.0@, e.1@))
}

impl View for Process {
    type V = ProcessView;

    open spec fn view(&self) -> ProcessView {
        ProcessView {
            name: self.name@,
            binary: self.binary@,
            state: self.state,
            pid: self.pid,
            args: strs(self.args@),
            cargo_args: strs(self.cargo_args@),
            env: pairs(self.env@),
        }
    }
}

/// The views of a list of processes.
pub open spec fn procs(v: Seq<Process>) -> Seq<ProcessView> {
    v.map_values(|p: Process| p@)
}

/// The names of a list of processes, in its order.
pub open spec fn process_names(v: Seq<ProcessView>) -> Seq<Seq<char>> {
    v.map_values(|p: ProcessView| p.name)
}

/// Whether every process that runs has a handle.
pub open spec fn running_have_handle(ps: Seq<ProcessView>) -> bool {
    forall|k: int|
        0 <= k < ps.len() ==> ((#[trigger] ps[k]).state == ProcessState::Running ==> ps[k].pid
            is Some)
}

/// Whether every process that is stopped has no handle.
pub open spec fn stopped_have_no_handle(ps: Seq<ProcessView>) -> bool {
    forall|k: int|
        0 <= k < ps.len() ==> ((#[trigger] ps[k]).state == ProcessState::Stopped ==> ps[k].pid
            is None)
}

/// A process as it is before anything is known of it but its name and
/// binary: stopped, without handle, arguments or environment.
pub open spec fn fresh_process(name: Seq<char>, binary: Seq<char>) -> ProcessView {
    ProcessView {
        name,
        binary,
        state: ProcessState::Stopped,
        pid: None,
        args: Seq::empty(),
        cargo_args: Seq::empty(),
        env: Seq::empty(),
    }
}

/// The process that a configuration entry describes: the binary is the one
/// given, or the name where none is given; it starts stopped.
pub open spec fn configured_process(name: Seq<char>, config: ConfigProcess) -> ProcessView {
    ProcessView {
        name,
        binary: match config.binary {
            Some(b) => b@,
            None => name,
        },
        state: ProcessState::Stopped,
        pid: None,
        args: strs(config.args@),
        cargo_args: strs(config.cargo_args@),
        env: pairs(config.env@),
    }
}

/// Whether the keys of the entries ascend, so that no key occurs twice.
pub open spec fn keys_ascend(env: Seq<(Seq<char>, Seq<char>)>) -> bool {
    forall|a: int, b: int|
        0 <= a < b < env.len() ==> name_lt((#[trigger] env[a]).0, (#[trigger] env[b]).0)
}

/// How many entries at the head of `env` have a key that comes before
/// `key`.
pub open spec fn keys_below(env: Seq<(Seq<char>, Seq<char>)>, key: Seq<char>) -> nat
    decreases env.len(),
{
    if env.len() > 0 && name_lt(env[0].0, key) {
        1 + keys_below(env.drop_first(), key)
    } else {
        0
    }
}

/// The entries `env`, whose keys ascend, with `key` set to `value`: in
/// the place of the entry of that key, or, where there is none, at the
/// place that keeps the keys ascending.
pub open spec fn sorted_put(
    env: Seq<(Seq<char>, Seq<char>)>,
    key: Seq<char>,
    value: Seq<char>,
) -> Seq<(Seq<char>, Seq<char>)> {
    let i = keys_below(env, key) as int;
    if i < env.len() && env[i].0 == key {
        env.update(i, (key, value))
    } else {
        env.insert(i, (key, value))
    }
}

/// The entries in the order of their keys, each key once with the value of
/// its last entry.
pub open spec fn sorted_entries(env: Seq<(Seq<char>, Seq<char>)>) -> Seq<(Seq<char>, Seq<char>)>
    decreases env.len(),
{
    if env.len() == 0 {
        Seq::empty()
    } else {
        sorted_put(sorted_entries(env.drop_last()), env.last().0, env.last().1)
    }
}

/// The entries counted as below `key` are at the head, all of them come
/// before `key`, and the next one does not.
pub proof fn lemma_keys_below(env: Seq<(Seq<char>, Seq<char>)>, key: Seq<char>)
    ensures
        keys_below(env, key) <= env.len(),
        forall|j: int| 0 <= j < keys_below(env, key) ==> name_lt((#[trigger] env[j]).0, key),
        keys_below(env, key) < env.len() ==> !name_lt(env[keys_below(env, key) as int].0, key),
    decreases env.len(),
{
    if env.len() > 0 && name_lt(env[0].0, key) {
        let rest = env.drop_first();
        lemma_keys_below(rest, key);
        assert forall|j: int| 0 <= j < keys_below(env, key) implies name_lt(
            (#[trigger] env[j]).0,
            key,
        ) by {
            if j > 0 {
                assert(env[j] == rest[j - 1]);
            }
        }
        if keys_below(env, key) < env.len() {
            assert(env[keys_below(env, key) as int] == rest[keys_below(rest, key) as int]);
        }
    }
}

/// Setting a key keeps the keys ascending.
pub proof fn lemma_sorted_put(env: Seq<(Seq<char>, Seq<char>)>, key: Seq<char>, value: Seq<char>)
    requires
        keys_ascend(env),
    ensures
        keys_ascend(sorted_put(env, key, value)),
{
    lemma_keys_below(env, key);
    let i = keys_below(env, key) as int;
    let out = sorted_put(env, key, value);
    if i < env.len() && env[i].0 == key {
        assert forall|a: int, b: int| 0 <= a < b < out.len() implies name_lt(
            (#[trigger] out[a]).0,
            (#[trigger] out[b]).0,
        ) by {
            assert(out[a].0 == env[a].0 && out[b].0 == env[b].0);
        }
    } else {
        assert forall|a: int, b: int| 0 <= a < b < out.len() implies name_lt(
            (#[trigger] out[a]).0,
            (#[trigger] out[b]).0,
        ) by {
            if b < i {
                assert(out[a] == env[a] && out[b] == env[b]);
            } else if b == i {
                assert(out[a] == env[a]);
            } else if a == i {
                assert(out[b] == env[b - 1]);
                crate::text::lemma_name_lt_total(key, env[i].0);
                if b - 1 > i {
                    crate::text::lemma_name_lt_transitive(key, env[i].0, env[b - 1].0);
                }
            } else if a > i {
                assert(out[a] == env[a - 1] && out[b] == env[b - 1]);
            } else {
                assert(out[a] == env[a] && out[b] == env[b - 1]);
            }
        }
    }
}

/// Sets `key` to `value` in entries whose keys ascend.
fn put_sorted(env: &mut Vec<(String, String)>, key: &str, value: &str)
    requires
        keys_ascend(pairs(old(env)@)),
    ensures
        pairs(final(env)@) == sorted_put(pairs(old(env)@), key@, value@),
        keys_ascend(pairs(final(env)@)),
{
    let ghost all = pairs(env@);
    let n = env.len();
    let mut i: usize = 0;
    assert(all.skip(0) =~= all);
    while i < n && name_before(env[i].0.as_str(), key)
        invariant
            n == env.len(),
            all == pairs(env@),
            0 <= i <= n,
            keys_below(all, key@) == i + keys_below(all.skip(i as int), key@),
        decreases n - i,
    {
        assert(all.skip(i as int)[0] == (env@[i as int].0@, env@[i as int].1@));
        assert(all.skip(i as int).drop_first() =~= all.skip(i as int + 1));
        i += 1;
    }
    proof {
        if i < n {
            assert(all.skip(i as int)[0] == (env@[i as int].0@, env@[i as int].1@));
        }
        lemma_sorted_put(all, key@, value@);
    }
    if i < n && str_eq(env[i].0.as_str(), key) {
        env.set(i, (key.to_owned(), value.to_owned()));
        assert(pairs(env@) =~= all.update(i as int, (key@, value@)));
    } else {
        assert(i < n ==> all[i as int].0 != key@);
        env.insert(i, (key.to_owned(), value.to_owned()));
        assert(pairs(env@) =~= all.insert(i as int, (key@, value@)));
    }
}

/// The entries in the order of their keys, each key once with the value of
/// its last entry.
pub fn sort_entries(env: &Vec<(String, String)>) -> (r: Vec<(String, String)>)
    ensures
        pairs(r@) == sorted_entries(pairs(env@)),
        keys_ascend(pairs(r@)),
{
    let mut r: Vec<(String, String)> = Vec::new();
    let n = env.len();
    let mut i: usize = 0;
    assert(pairs(r@) =~= sorted_entries(pairs(env@).take(0)));
    while i < n
        invariant
            n == env.len(),
            0 <= i <= n,
            pairs(r@) == sorted_entries(pairs(env@).take(i as int)),
            keys_ascend(pairs(r@)),
        decreases n - i,
    {
        let ghost next = pairs(env@).take(i as int + 1);
        assert(next.drop_last() =~= pairs(env@).take(i as int));
        assert(next.last() == (env@[i as int].0@, env@[i as int].1@));
        put_sorted(&mut r, env[i].0.as_str(), env[i].1.as_str());
        i += 1;
    }
    assert(pairs(env@).take(n as int) =~= pairs(env@));
    r
}

/// A copy of a list of pairs of strings.
pub fn clone_pairs(v: &Vec<(String, String)>) -> (r: Vec<(String, String)>)
    ensures
        pairs(r@) == pairs(v@),
{
    let mut r: Vec<(String, String)> = Vec::new();
    let n = v.len();
    let mut i: usize = 0;
    while i < n
        invariant
            n == v.len(),
            0 <= i <= n,
            r.len() == i,
            forall|j: int| 0 <= j < i ==> r@[j].0@ == v@[j].0@ && r@[j].1@ == v@[j].1@,
        decreases n - i,
    {
        r.push((v[i].0.clone(), v[i].1.clone()));
        i += 1;
    }
    assert(pairs(r@) =~= pairs(v@));
    r
}

impl Process {
    /// A stopped process with the given name and binary and nothing else.
    pub fn new(name: &str, binary: &str) -> (p: Process)
        ensures
            p@ == fresh_process(name@, binary@),
    {
        let p = Process {
            name: name.to_owned(),
            binary: binary.to_owned(),
            state: ProcessState::Stopped,
            pid: None,
            args: Vec::new(),
            cargo_args: Vec::new(),
            env: Vec::new(),
        };
        assert(strs(p.args@) =~= Seq::empty());
        assert(strs(p.cargo_args@) =~= Seq::empty());
        assert(pairs(p.env@) =~= Seq::empty());
        p
    }

    /// The name, which identifies the process.
    pub fn name(&self) -> (r: &str)
        ensures
            r@ == self@.name,
    {
        self.name.as_str()
    }

    /// The name of the executable.
    pub fn binary(&self) -> (r: &str)
        ensures
            r@ == self@.binary,
    {
        self.binary.as_str()
    }

    /// The handle that the scheduler gave, if the process has one.
    pub fn pid(&self) -> (r: &Option<Pid>)
        ensures
            *r == self@.pid,
    {
        &self.pid
    }

    /// The arguments, before variables are expanded.
    pub fn args(&self) -> (r: &[String])
        ensures
            strs(r@) == self@.args,
    {
        self.args.as_slice()
    }

    /// The flags handed to the toolchain when the process is built.
    pub fn cargo_args(&self) -> (r: &[String])
        ensures
            strs(r@) == self@.cargo_args,
    {
        self.cargo_args.as_slice()
    }

    /// A copy with the same value.
    pub fn duplicate(&self) -> (p: Process)
        ensures
            p@ == self@,
    {
        Process {
            name: self.name.clone(),
            binary: self.binary.clone(),
            state: self.state,
            pid: self.pid,
            args: clone_strings(&self.args),
            cargo_args: clone_strings(&self.cargo_args),
            env: clone_pairs(&self.env),
        }
    }

    /// The process that the configuration entry `config` describes under
    /// the name `name`.
    pub fn from_config(name: String, config: ConfigProcess) -> (p: Process)
        ensures
            p@ == configured_process(name@, config),
    {
        let binary = match config.binary {
            Some(b) => b,
            None => name.clone(),
        };
        Process {
            binary,
            name,
            state: ProcessState::Stopped,
            pid: None,
            args: config.args,
            cargo_args: config.cargo_args,
            env: config.env,
        }
    }
}

/// A named group of processes: those declared on it and those that it has
/// from its ancestors.
#[derive(Clone, Debug, PartialEq, Eq)]
pub struct Stack {
    pub name: String,
    pub processes: Vec<String>,
    pub inherited_processes: Vec<String>,
}

/// The mathematical value of a [`Stack`].
pub ghost struct StackView {
    pub name: Seq<char>,
    pub processes: Seq<Seq<char>>,
    pub inherited_processes: Seq<Seq<char>>,
}

impl View for Stack {
    type V = StackView;

    open spec fn view(&self) -> StackView {
        StackView {
            name: self.name@,
            processes: strs(self.processes@),
            inherited_processes: strs(self.inherited_processes@),
        }
    }
}

/// The views of a list of stacks.
pub open spec fn stacks_view(v: Seq<Stack>) -> Seq<StackView> {
    v.map_values(|s: Stack| s@)
}

/// The names of a list of stacks, in its order.
pub open spec fn stack_names(v: Seq<StackView>) -> Seq<Seq<char>> {
    v.map_values(|s: StackView| s.name)
}

/// The names of every process of a stack, each once: the declared ones in
/// their order, then the inherited ones that were not declared.
pub open spec fn all_processes(stack: StackView) -> Seq<Seq<char>> {
    union_names(union_names(Seq::empty(), stack.processes), stack.inherited_processes)
}

impl Stack {
    /// The names of the processes of the stack, declared and inherited,
    /// each once.
    pub fn get_all_processes(&self) -> (r: Vec<String>)
        ensures
            strs(r@) == all_processes(self@),
            strs(r@).no_duplicates(),
    {
        let mut r: Vec<String> = Vec::new();
        assert(strs(r@) =~= Seq::empty());
        proof {
            let none = Seq::<Seq<char>>::empty();
            crate::text::lemma_union_names_distinct(none, self@.processes);
            crate::text::lemma_union_names_distinct(
                union_names(none, self@.processes),
                self@.inherited_processes,
            );
        }
        extend_unique(&mut r, &self.processes);
        extend_unique(&mut r, &self.inherited_processes);
        r
    }

    /// A copy with the same value.
    pub fn duplicate(&self) -> (s: Stack)
        ensures
            s@ == self@,
    {
        Stack {
            name: self.name.clone(),
            processes: clone_strings(&self.processes),
            inherited_processes: clone_strings(&self.inherited_processes),
        }
    }
}

/// How one value stands to another in an order.
#[derive(Clone, Copy, Debug, PartialEq, Eq, Structural)]
pub enum Order {
    Less,
    Equal,
    Greater,
}

/// How two texts stand in the order of names.
pub open spec fn text_order(a: Seq<char>, b: Seq<char>) -> Order {
    if name_lt(a, b) {
        Order::Less
    } else if name_lt(b, a) {
        Order::Greater
    } else {
        Order::Equal
    }
}

/// How two lists of texts stand: by the first place at which they differ,
/// a list before any that it begins.
pub open spec fn texts_order(a: Seq<Seq<char>>, b: Seq<Seq<char>>) -> Order
    decreases a.len(),
{
    if a.len() == 0 && b.len() == 0 {
        Order::Equal
    } else if a.len() == 0 {
        Order::Less
    } else if b.len() == 0 {
        Order::Greater
    } else if text_order(a[0], b[0]) != Order::Equal {
        text_order(a[0], b[0])
    } else {
        texts_order(a.drop_first(), b.drop_first())
    }
}

/// The place of a state among the states.
pub open spec fn state_rank(state: ProcessState) -> int {
    match state {
        ProcessState::Stopped => 0,
        ProcessState::Building => 1,
        ProcessState::Running => 2,
        ProcessState::Unknown => 3,
    }
}

/// How two states stand.
pub open spec fn state_order(a: ProcessState, b: ProcessState) -> Order {
    if state_rank(a) < state_rank(b) {
        Order::Less
    } else if state_rank(a) > state_rank(b) {
        Order::Greater
    } else {
        Order::Equal
    }
}

/// How two handles stand: none before any, and two by their numbers.
pub open spec fn handle_order(a: Option<Pid>, b: Option<Pid>) -> Order {
    match (a, b) {
        (None, None) => Order::Equal,
        (None, Some(_)) => Order::Less,
        (Some(_), None) => Order::Greater,
        (Some(x), Some(y)) => if x < y {
            Order::Less
        } else if x > y {
            Order::Greater
        } else {
            Order::Equal
        },
    }
}

/// How two processes stand: by their names, then their binaries, states,
/// handles and arguments.
pub open spec fn process_order(a: ProcessView, b: ProcessView) -> Order {
    if text_order(a.name, b.name) != Order::Equal {
        text_order(a.name, b.name)
    } else if text_order(a.binary, b.binary) != Order::Equal {
        text_order(a.binary, b.binary)
    } else if state_order(a.state, b.state) != Order::Equal {
        state_order(a.state, b.state)
    } else if handle_order(a.pid, b.pid) != Order::Equal {
        handle_order(a.pid, b.pid)
    } else {
        texts_order(a.args, b.args)
    }
}

/// The same standing in the words of the standard library.
pub open spec fn ordering_of(order: Order) -> Ordering {
    match order {
        Order::Less => Ordering::Less,
        Order::Equal => Ordering::Equal,
        Order::Greater => Ordering::Greater,
    }
}

fn order_texts(a: &str, b: &str) -> (r: Order)
    ensures
        r == text_order(a@, b@),
{
    if name_before(a, b) {
        Order::Less
    } else if name_before(b, a) {
        Order::Greater
    } else {
        Order::Equal
    }
}

fn rank(state: ProcessState) -> (r: u8)
    ensures
        r == state_rank(state),
{
    match state {
        ProcessState::Stopped => 0,
        ProcessState::Building => 1,
        ProcessState::Running => 2,
        ProcessState::Unknown => 3,
    }
}

fn order_lists(a: &Vec<String>, b: &Vec<String>) -> (r: Order)
    ensures
        r == texts_order(strs(a@), strs(b@)),
{
    let mut i: usize = 0;
    assert(strs(a@).skip(0) =~= strs(a@) && strs(b@).skip(0) =~= strs(b@));
    while i < a.len() && i < b.len()
        invariant
            0 <= i <= a.len(),
            i <= b.len(),
            texts_order(strs(a@), strs(b@)) == texts_order(
                strs(a@).skip(i as int),
                strs(b@).skip(i as int),
            ),
        decreases a.len() - i,
    {
        assert(strs(a@).skip(i as int)[0] == a@[i as int]@);
        assert(strs(b@).skip(i as int)[0] == b@[i as int]@);
        assert(strs(a@).skip(i as int).drop_first() =~= strs(a@).skip(i as int + 1));
        assert(strs(b@).skip(i as int).drop_first() =~= strs(b@).skip(i as int + 1));
        let step = order_texts(a[i].as_str(), b[i].as_str());
        if step != Order::Equal {
            return step;
        }
        i += 1;
    }
    if i < b.len() {
        Order::Less
    } else if i < a.len() {
        Order::Greater
    } else {
        Order::Equal
    }
}

impl Process {
    /// How this process stands to `other`.
    pub fn order(&self, other: &Process) -> (r: Order)
        ensures
            r == process_order(self@, other@),
    {
        let by_name = order_texts(self.name.as_str(), other.name.as_str());
        if by_name != Order::Equal {
            return by_name;
        }
        let by_binary = order_texts(self.binary.as_str(), other.binary.as_str());
        if by_binary != Order::Equal {
            return by_binary;
        }
        let mine = rank(self.state);
        let theirs = rank(other.state);
        if mine < theirs {
            return Order::Less;
        }
        if mine > theirs {
            return Order::Greater;
        }
        let by_handle = match (self.pid, other.pid) {
            (None, None) => Order::Equal,
            (None, Some(_)) => Order::Less,
            (Some(_), None) => Order::Greater,
            (Some(x), Some(y)) => if x < y {
                Order::Less
            } else if x > y {
                Order::Greater
            } else {
                Order::Equal
            },
        };
        if by_handle != Order::Equal {
            return by_handle;
        }
        order_lists(&self.args, &other.args)
    }

    /// How this process stands to `other`: by their names, then their
    /// binaries, states, handles and arguments.
    pub fn cmp(&self, other: &Process) -> (r: Ordering)
        ensures
            r == ordering_of(process_order(self@, other@)),
    {
        match self.order(other) {
            Order::Less => Ordering::Less,
            Order::Equal => Ordering::Equal,
            Order::Greater => Ordering::Greater,
        }
    }

    /// The same as [`Process::cmp`]: any two processes can be told apart
    /// or are alike.
    pub fn partial_cmp(&self, other: &Process) -> (r: Option<Ordering>)
        ensures
            r == Some(ordering_of(process_order(self@, other@))),
    {
        Some(self.cmp(other))
    }
}

} // verus!
