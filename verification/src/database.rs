//! The state of a project as the engine keeps it between invocations:
//! artifacts, processes, stacks and a few facts about the last refresh.
//!
//! The store owns its records. A process is found by its name and a stack
//! by its name; a stack names only processes that exist, and the default
//! stack, where there is one, exists.

use crate::common::{keys_ascend, sort_entries, sorted_entries};
use crate::common::{
    pairs, process_names, procs, stack_names, stacks_view, state_word, word_state, Process,
    ProcessState, ProcessView, Stack, StackView,
};
use crate::error::{plain, Error, InnerError, InnerErrorView};
use crate::command::cargo::{bins, BinaryPackage};
use crate::text::{
    extend_unique, lemma_names_ascend, lemma_union_names_contains, lemma_union_names_distinct,
    names_ascend, union_names,
};
use crate::text::{
    all_distinct, contains_name, lemma_name_order, lemma_strs_push, name_lt,
    name_order, sort_positions, str_eq, strs,
};
use crate::Pid;
use vstd::prelude::*;

verus! {

/// An artifact as a row of the store: its name and the text of its id.
#[derive(Clone, Debug, PartialEq, Eq)]
pub struct BinaryPackageSql {
    pub name: String,
    pub id: String,
}

/// A process as a row of the store: its state as a word, its handle as a
/// number, its arguments, flags and environment as JSON.
#[derive(Clone, Debug, PartialEq, Eq)]
pub struct ProcessSql {
    pub name: String,
    pub binary: String,
    pub state: String,
    pub pid: Option<i64>,
    pub args: String,
    pub cargo_args: String,
    pub env: String,
}

/// The list of strings that a JSON text holds, as `serde_json::from_str`
/// reads it; nothing where the text holds no such list.
pub uninterp spec fn json_list(text: Seq<char>) -> Option<Seq<Seq<char>>>;

/// The entries of the map from strings to strings that a JSON text holds,
/// as `serde_json::from_str` reads it, in the order of their keys; nothing
/// where the text holds no such map.
pub uninterp spec fn json_map(text: Seq<char>) -> Option<Seq<(Seq<char>, Seq<char>)>>;

/// The JSON text that `serde_json::to_string` writes for a list of
/// strings.
pub uninterp spec fn json_of_list(list: Seq<Seq<char>>) -> Option<Seq<char>>;

/// The JSON text that `serde_json::to_string` writes for the map with the
/// given entries, whose keys ascend.
pub uninterp spec fn json_of_map(entries: Seq<(Seq<char>, Seq<char>)>) -> Option<Seq<char>>;

/// `serde_json::from_str` of `text`, read as a list of strings.
#[verifier::external_body]
fn decode_list(text: &str) -> (r: Option<Vec<String>>)
    ensures
        match r {
            Some(list) => json_list(text@) == Some(strs(list@)),
            None => json_list(text@) is None,
        },
{
    serde_json::from_str::<Vec<String>>(text).ok()
}

/// `serde_json::from_str` of `text`, read as a map from strings to
/// strings; its entries are handed out in the order of their keys.
#[verifier::external_body]
fn decode_map(text: &str) -> (r: Option<Vec<(String, String)>>)
    ensures
        match r {
            Some(entries) => json_map(text@) == Some(pairs(entries@)),
            None => json_map(text@) is None,
        },
{
    let map = serde_json::from_str::<std::collections::BTreeMap<String, String>>(text).ok()?;
    Some(map.into_iter().collect())
}

/// `serde_json::to_string` of a list of strings.
#[verifier::external_body]
fn encode_list(list: &Vec<String>) -> (r: Option<String>)
    ensures
        match r {
            Some(text) => json_of_list(strs(list@)) == Some(text@),
            None => json_of_list(strs(list@)) is None,
        },
{
    serde_json::to_string(list).ok()
}

/// `serde_json::to_string` of the map with the given entries. Their keys
/// ascend, so the map holds them one for one and in their order.
#[verifier::external_body]
fn encode_map(entries: &Vec<(String, String)>) -> (r: Option<String>)
    requires
        keys_ascend(pairs(entries@)),
    ensures
        match r {
            Some(text) => json_of_map(pairs(entries@)) == Some(text@),
            None => json_of_map(pairs(entries@)) is None,
        },
{
    let map: std::collections::BTreeMap<String, String> = entries.iter().cloned().collect();
    serde_json::to_string(&map).ok()
}

/// The process that a row stands for. Its state must be one of the four
/// words, else the error `Parse` with the word; its handle must fit, else
/// `TryFromInt`; its three JSON columns must hold what they are for, else
/// `StateIOError` with the column.
pub open spec fn row_process(row: ProcessSql) -> Result<ProcessView, InnerErrorView> {
    if word_state(row.state@) is None {
        Err(InnerErrorView::Parse(row.state@))
    } else if row.pid matches Some(p) && !(0 <= p <= u32::MAX) {
        Err(InnerErrorView::TryFromInt)
    } else if json_list(row.args@) is None {
        Err(InnerErrorView::StateIOError(row.args@))
    } else if json_list(row.cargo_args@) is None {
        Err(InnerErrorView::StateIOError(row.cargo_args@))
    } else if json_map(row.env@) is None {
        Err(InnerErrorView::StateIOError(row.env@))
    } else {
        Ok(
            ProcessView {
                name: row.name@,
                binary: row.binary@,
                state: word_state(row.state@)->0,
                pid: match row.pid {
                    Some(p) => Some(p as Pid),
                    None => None,
                },
                args: json_list(row.args@)->0,
                cargo_args: json_list(row.cargo_args@)->0,
                env: json_map(row.env@)->0,
            },
        )
    }
}

/// Whether `row` is the row for the process `p`: its environment is
/// written in the order of its keys, each once.
pub open spec fn is_row_of(row: ProcessSql, p: ProcessView) -> bool {
    &&& row.name@ == p.name
    &&& row.binary@ == p.binary
    &&& row.state@ == state_word(p.state)
    &&& row.pid == match p.pid {
        Some(pid) => Some(pid as i64),
        None => None,
    }
    &&& json_of_list(p.args) == Some(row.args@)
    &&& json_of_list(p.cargo_args) == Some(row.cargo_args@)
    &&& json_of_map(sorted_entries(p.env)) == Some(row.env@)
}

impl Process {
    /// The process that a row of the store stands for.
    pub fn try_from(value: ProcessSql) -> (r: Result<Process, Error>)
        ensures
            match row_process(value) {
                Ok(p) => r is Ok && r->Ok_0@ == p,
                Err(e) => r is Err && r->Err_0@ == plain(e),
            },
    {
        let state = match ProcessState::try_from(value.state) {
            Ok(state) => state,
            Err(e) => {
                return Err(e);
            },
        };
        let pid: Option<Pid> = match value.pid {
            Some(p) => {
                if p < 0 || p > u32::MAX as i64 {
                    return Err(Error::new(InnerError::TryFromInt));
                }
                Some(p as Pid)
            },
            None => None,
        };
        let args = match decode_list(value.args.as_str()) {
            Some(args) => args,
            None => {
                return Err(Error::new(InnerError::StateIOError(value.args)));
            },
        };
        let cargo_args = match decode_list(value.cargo_args.as_str()) {
            Some(cargo_args) => cargo_args,
            None => {
                return Err(Error::new(InnerError::StateIOError(value.cargo_args)));
            },
        };
        let env = match decode_map(value.env.as_str()) {
            Some(env) => env,
            None => {
                return Err(Error::new(InnerError::StateIOError(value.env)));
            },
        };
        Ok(Process { name: value.name, binary: value.binary, state, pid, args, cargo_args, env })
    }
}

impl ProcessSql {
    /// The row for a process. Where one of its lists cannot be written as
    /// JSON, the error `StateIOError` with the name of the process.
    pub fn from(process: &Process) -> (r: Result<ProcessSql, Error>)
        ensures
            match r {
                Ok(row) => is_row_of(row, process@),
                Err(e) => {
                    &&& e@ == plain(InnerErrorView::StateIOError(process@.name))
                    &&& json_of_list(process@.args) is None || json_of_list(process@.cargo_args)
                        is None || json_of_map(sorted_entries(process@.env)) is None
                },
            },
    {
        let args = match encode_list(&process.args) {
            Some(args) => args,
            None => {
                return Err(Error::new(InnerError::StateIOError(process.name.clone())));
            },
        };
        let cargo_args = match encode_list(&process.cargo_args) {
            Some(cargo_args) => cargo_args,
            None => {
                return Err(Error::new(InnerError::StateIOError(process.name.clone())));
            },
        };
        let env = match encode_map(&sort_entries(&process.env)) {
            Some(env) => env,
            None => {
                return Err(Error::new(InnerError::StateIOError(process.name.clone())));
            },
        };
        let pid: Option<i64> = match process.pid {
            Some(p) => Some(p as i64),
            None => None,
        };
        Ok(
            ProcessSql {
                name: process.name.clone(),
                binary: process.binary.clone(),
                state: process.state.to_string(),
                pid,
                args,
                cargo_args,
                env,
            },
        )
    }
}

/// The mathematical value of a store.
pub ghost struct StoreView {
    pub binaries: Seq<(Seq<char>, Seq<char>)>,
    pub binaries_updated_at: Option<i64>,
    pub config_updated_at: Option<i64>,
    pub default_stack: Option<Seq<char>>,
    pub processes: Seq<ProcessView>,
    pub stacks: Seq<StackView>,
}

/// The names of a list of artifacts, in its order.
pub open spec fn binary_names(v: Seq<(Seq<char>, Seq<char>)>) -> Seq<Seq<char>> {
    v.map_values(|b: (Seq<char>, Seq<char>)| b.0)
}

/// Every name that `stack` holds, declared or inherited, is in `names`.
pub open spec fn stack_within(stack: StackView, names: Seq<Seq<char>>) -> bool {
    &&& forall|i: int|
        0 <= i < stack.processes.len() ==> names.contains(#[trigger] stack.processes[i])
    &&& forall|i: int|
        0 <= i < stack.inherited_processes.len() ==> names.contains(
            #[trigger] stack.inherited_processes[i],
        )
}

/// What holds of every store: it holds no more than a machine can count;
/// its artifacts and its processes ascend by name, so that no two share
/// one; the environment of a process ascends by key, so that it sets no
/// key twice; no two stacks share a name; a stack names only processes that
/// exist, and none twice among those declared nor among those inherited;
/// and the default stack exists.
pub open spec fn store_wf(v: StoreView) -> bool {
    &&& v.binaries.len() <= usize::MAX
    &&& v.processes.len() <= usize::MAX
    &&& binary_names(v.binaries).no_duplicates()
    &&& names_ascend(binary_names(v.binaries))
    &&& process_names(v.processes).no_duplicates()
    &&& names_ascend(process_names(v.processes))
    &&& forall|i: int| 0 <= i < v.processes.len() ==> keys_ascend((#[trigger] v.processes[i]).env)
    &&& stack_names(v.stacks).no_duplicates()
    &&& forall|i: int|
        0 <= i < v.stacks.len() ==> stack_within(#[trigger] v.stacks[i], process_names(v.processes))
    &&& forall|i: int|
        0 <= i < v.stacks.len() ==> (#[trigger] v.stacks[i]).processes.no_duplicates()
            && v.stacks[i].inherited_processes.no_duplicates()
    &&& v.default_stack matches Some(name) ==> stack_names(v.stacks).contains(name)
}

/// A store without any record.
pub open spec fn empty_store() -> StoreView {
    StoreView {
        binaries: Seq::empty(),
        binaries_updated_at: None,
        config_updated_at: None,
        default_stack: None,
        processes: Seq::empty(),
        stacks: Seq::empty(),
    }
}

/// The processes with the state of the one called `name` replaced.
pub open spec fn with_state(ps: Seq<ProcessView>, name: Seq<char>, state: ProcessState) -> Seq<
    ProcessView,
> {
    ps.map_values(
        |p: ProcessView|
            if p.name == name {
                ProcessView { state, ..p }
            } else {
                p
            },
    )
}

/// The processes with the handle of the one called `name` replaced.
pub open spec fn with_pid(ps: Seq<ProcessView>, name: Seq<char>, pid: Option<Pid>) -> Seq<
    ProcessView,
> {
    ps.map_values(
        |p: ProcessView|
            if p.name == name {
                ProcessView { pid, ..p }
            } else {
                p
            },
    )
}

/// The first stack called `name`, if there is one.
pub open spec fn find_stack(stacks: Seq<StackView>, name: Seq<char>) -> Option<StackView>
    decreases stacks.len(),
{
    if stacks.len() == 0 {
        None
    } else if stacks[0].name == name {
        Some(stacks[0])
    } else {
        find_stack(stacks.drop_first(), name)
    }
}

/// The process with its environment in the order of its keys, each key
/// once with the value of its last entry.
pub open spec fn normal_process(p: ProcessView) -> ProcessView {
    ProcessView { env: sorted_entries(p.env), ..p }
}

/// Each of the processes with its environment in order.
pub open spec fn normal_processes(ps: Seq<ProcessView>) -> Seq<ProcessView> {
    ps.map_values(|p: ProcessView| normal_process(p))
}

/// The processes as the store keeps them: each with its environment in
/// order, and all in the order of their names.
pub open spec fn stored_processes(ps: Seq<ProcessView>) -> Seq<ProcessView> {
    sort_by_name(normal_processes(ps))
}

/// The processes in the order of their names; those of one name keep
/// their order.
pub open spec fn sort_by_name(ps: Seq<ProcessView>) -> Seq<ProcessView> {
    let order = name_order(process_names(ps), ps.len());
    Seq::new(ps.len(), |k: int| ps[order[k] as int])
}

/// The artifacts in the order of their names; those of one name keep their
/// order.
pub open spec fn sort_binaries(bs: Seq<(Seq<char>, Seq<char>)>) -> Seq<(Seq<char>, Seq<char>)> {
    let order = name_order(binary_names(bs), bs.len());
    Seq::new(bs.len(), |k: int| bs[order[k] as int])
}

/// The stack with each name once among those declared and once among
/// those inherited: the first of each stays.
pub open spec fn unique_stack(s: StackView) -> StackView {
    StackView {
        name: s.name,
        processes: union_names(Seq::empty(), s.processes),
        inherited_processes: union_names(Seq::empty(), s.inherited_processes),
    }
}

/// Each of the stacks with each of its names once.
pub open spec fn unique_stacks(stacks: Seq<StackView>) -> Seq<StackView> {
    stacks.map_values(|s: StackView| unique_stack(s))
}

/// The stacks with nothing left in them but their names.
pub open spec fn without_members(stacks: Seq<StackView>) -> Seq<StackView> {
    stacks.map_values(
        |s: StackView|
            StackView { name: s.name, processes: Seq::empty(), inherited_processes: Seq::empty() },
    )
}

/// The names among the first `n` of `wanted` that are not in `names`, in
/// their order.
pub open spec fn missing_names(wanted: Seq<Seq<char>>, names: Seq<Seq<char>>, n: int) -> Seq<
    Seq<char>,
>
    decreases n,
{
    if n <= 0 || n > wanted.len() {
        Seq::empty()
    } else if names.contains(wanted[n - 1]) {
        missing_names(wanted, names, n - 1)
    } else {
        missing_names(wanted, names, n - 1).push(wanted[n - 1])
    }
}

/// The names that `stack` holds, declared then inherited, that are not in
/// `names`.
pub open spec fn missing_of(stack: StackView, names: Seq<Seq<char>>) -> Seq<Seq<char>> {
    let wanted = stack.processes + stack.inherited_processes;
    missing_names(wanted, names, wanted.len() as int)
}

/// The first stack from position `from` on that holds a name which is not
/// in `names`.
pub open spec fn first_unresolved(stacks: Seq<StackView>, names: Seq<Seq<char>>, from: int) -> Option<
    int,
>
    decreases stacks.len() - from,
{
    if from < 0 || from >= stacks.len() {
        None
    } else if missing_of(stacks[from], names).len() > 0 {
        Some(from)
    } else {
        first_unresolved(stacks, names, from + 1)
    }
}

/// The first stack that holds an unknown name is a stack of the list, at
/// or after the position from which it was looked for, and does hold one.
pub proof fn lemma_first_unresolved(stacks: Seq<StackView>, names: Seq<Seq<char>>, from: int)
    requires
        0 <= from,
    ensures
        first_unresolved(stacks, names, from) matches Some(at) ==> from <= at < stacks.len()
            && missing_of(stacks[at], names).len() > 0,
    decreases stacks.len() - from,
{
    if from < stacks.len() && missing_of(stacks[from], names).len() == 0 {
        lemma_first_unresolved(stacks, names, from + 1);
    }
}

/// Nothing is missing exactly when every wanted name is there.
pub proof fn lemma_missing_names_empty(wanted: Seq<Seq<char>>, names: Seq<Seq<char>>, n: int)
    requires
        0 <= n <= wanted.len(),
    ensures
        missing_names(wanted, names, n).len() == 0 <==> forall|i: int|
            0 <= i < n ==> names.contains(#[trigger] wanted[i]),
    decreases n,
{
    if n > 0 {
        lemma_missing_names_empty(wanted, names, n - 1);
    }
}

/// Sorting by name changes the order of the processes and nothing else:
/// the result is as long, holds what the list held, and its names never go
/// down.
pub proof fn lemma_sort_by_name(ps: Seq<ProcessView>)
    requires
        ps.len() <= usize::MAX,
    ensures
        sort_by_name(ps).len() == ps.len(),
        forall|p: ProcessView| sort_by_name(ps).contains(p) <==> ps.contains(p),
        forall|a: int, b: int|
            0 <= a < b < ps.len() ==> !name_lt(
                (#[trigger] sort_by_name(ps)[b]).name,
                (#[trigger] sort_by_name(ps)[a]).name,
            ),
        process_names(ps).no_duplicates() ==> process_names(sort_by_name(ps)).no_duplicates(),
        process_names(ps).no_duplicates() ==> names_ascend(process_names(sort_by_name(ps))),
{
    let names = process_names(ps);
    let order = name_order(names, ps.len());
    let sorted = sort_by_name(ps);
    lemma_name_order(names, ps.len());
    assert forall|p: ProcessView| sorted.contains(p) <==> ps.contains(p) by {
        if sorted.contains(p) {
            let k = choose|k: int| 0 <= k < sorted.len() && sorted[k] == p;
            assert(ps[order[k] as int] == p);
        }
        if ps.contains(p) {
            let i = choose|i: int| 0 <= i < ps.len() && ps[i] == p;
            assert(order.contains(i as usize));
            let k = choose|k: int| 0 <= k < order.len() && order[k] == i as usize;
            assert(sorted[k] == p);
        }
    }
    assert forall|a: int, b: int| 0 <= a < b < ps.len() implies !name_lt(
        (#[trigger] sorted[b]).name,
        (#[trigger] sorted[a]).name,
    ) by {
        assert(names[order[b] as int] == sorted[b].name);
        assert(names[order[a] as int] == sorted[a].name);
    }
    if names.no_duplicates() {
        assert forall|a: int, b: int|
            0 <= a < sorted.len() && 0 <= b < sorted.len() && a != b implies process_names(
            sorted,
        )[a] != process_names(sorted)[b] by {
            assert(process_names(sorted)[a] == names[order[a] as int]);
            assert(process_names(sorted)[b] == names[order[b] as int]);
            assert(order[a] != order[b]);
        }
        assert forall|a: int, b: int| 0 <= a < b < sorted.len() implies !name_lt(
            #[trigger] process_names(sorted)[b],
            #[trigger] process_names(sorted)[a],
        ) by {
            assert(process_names(sorted)[a] == sorted[a].name);
            assert(process_names(sorted)[b] == sorted[b].name);
        }
        lemma_names_ascend(process_names(sorted));
    }
}

/// Sorting by name changes the order of the artifacts and nothing else.
pub proof fn lemma_sort_binaries(bs: Seq<(Seq<char>, Seq<char>)>)
    requires
        bs.len() <= usize::MAX,
    ensures
        sort_binaries(bs).len() == bs.len(),
        forall|b: (Seq<char>, Seq<char>)| sort_binaries(bs).contains(b) <==> bs.contains(b),
        forall|a: int, b: int|
            0 <= a < b < bs.len() ==> !name_lt(
                (#[trigger] sort_binaries(bs)[b]).0,
                (#[trigger] sort_binaries(bs)[a]).0,
            ),
        binary_names(bs).no_duplicates() ==> binary_names(sort_binaries(bs)).no_duplicates(),
        binary_names(bs).no_duplicates() ==> names_ascend(binary_names(sort_binaries(bs))),
{
    let names = binary_names(bs);
    let order = name_order(names, bs.len());
    let sorted = sort_binaries(bs);
    lemma_name_order(names, bs.len());
    assert forall|p: (Seq<char>, Seq<char>)| sorted.contains(p) <==> bs.contains(p) by {
        if sorted.contains(p) {
            let k = choose|k: int| 0 <= k < sorted.len() && sorted[k] == p;
            assert(bs[order[k] as int] == p);
        }
        if bs.contains(p) {
            let i = choose|i: int| 0 <= i < bs.len() && bs[i] == p;
            assert(order.contains(i as usize));
            let k = choose|k: int| 0 <= k < order.len() && order[k] == i as usize;
            assert(sorted[k] == p);
        }
    }
    assert forall|a: int, b: int| 0 <= a < b < bs.len() implies !name_lt(
        (#[trigger] sorted[b]).0,
        (#[trigger] sorted[a]).0,
    ) by {
        assert(names[order[b] as int] == sorted[b].0);
        assert(names[order[a] as int] == sorted[a].0);
    }
    if names.no_duplicates() {
        assert forall|a: int, b: int|
            0 <= a < sorted.len() && 0 <= b < sorted.len() && a != b implies binary_names(
            sorted,
        )[a] != binary_names(sorted)[b] by {
            assert(binary_names(sorted)[a] == names[order[a] as int]);
            assert(binary_names(sorted)[b] == names[order[b] as int]);
            assert(order[a] != order[b]);
        }
        assert forall|a: int, b: int| 0 <= a < b < sorted.len() implies !name_lt(
            #[trigger] binary_names(sorted)[b],
            #[trigger] binary_names(sorted)[a],
        ) by {
            assert(binary_names(sorted)[a] == sorted[a].0);
            assert(binary_names(sorted)[b] == sorted[b].0);
        }
        lemma_names_ascend(binary_names(sorted));
    }
}

/// The store of one project.
pub struct Database {
    binaries: Vec<BinaryPackage>,
    binaries_updated_at: Option<i64>,
    config_updated_at: Option<i64>,
    default_stack: Option<String>,
    processes: Vec<Process>,
    stacks: Vec<Stack>,
}

impl View for Database {
    type V = StoreView;

    closed spec fn view(&self) -> StoreView {
        StoreView {
            binaries: bins(self.binaries@),
            binaries_updated_at: self.binaries_updated_at,
            config_updated_at: self.config_updated_at,
            default_stack: match self.default_stack {
                Some(s) => Some(s@),
                None => None,
            },
            processes: procs(self.processes@),
            stacks: stacks_view(self.stacks@),
        }
    }
}

/// The position of the process called `name`, if it is there.
fn position_of(processes: &Vec<Process>, name: &str) -> (r: Option<usize>)
    ensures
        match r {
            Some(i) => i < processes.len() && processes@[i as int]@.name == name@ && forall|j: int|
                0 <= j < i ==> processes@[j]@.name != name@,
            None => !process_names(procs(processes@)).contains(name@),
        },
{
    let n = processes.len();
    let mut i: usize = 0;
    while i < n
        invariant
            n == processes.len(),
            0 <= i <= n,
            forall|j: int| 0 <= j < i ==> processes@[j]@.name != name@,
        decreases n - i,
    {
        if str_eq(processes[i].name.as_str(), name) {
            return Some(i);
        }
        i += 1;
    }
    assert forall|j: int| 0 <= j < n implies process_names(procs(processes@))[j] != name@ by {
        assert(process_names(procs(processes@))[j] == processes@[j]@.name);
    }
    None
}

/// The names of a list of processes.
fn names_of_processes(processes: &Vec<Process>) -> (r: Vec<String>)
    ensures
        strs(r@) == process_names(procs(processes@)),
{
    let mut r: Vec<String> = Vec::new();
    let n = processes.len();
    let mut i: usize = 0;
    while i < n
        invariant
            n == processes.len(),
            0 <= i <= n,
            r.len() == i,
            forall|j: int| 0 <= j < i ==> r@[j]@ == processes@[j]@.name,
        decreases n - i,
    {
        r.push(processes[i].name.clone());
        i += 1;
    }
    assert(strs(r@) =~= process_names(procs(processes@)));
    r
}

/// The names of a list of artifacts.
fn names_of_binaries(binaries: &Vec<BinaryPackage>) -> (r: Vec<String>)
    ensures
        strs(r@) == binary_names(bins(binaries@)),
{
    let mut r: Vec<String> = Vec::new();
    let n = binaries.len();
    let mut i: usize = 0;
    while i < n
        invariant
            n == binaries.len(),
            0 <= i <= n,
            r.len() == i,
            forall|j: int| 0 <= j < i ==> r@[j]@ == binaries@[j]@.0,
        decreases n - i,
    {
        r.push(binaries[i].name.clone());
        i += 1;
    }
    assert(strs(r@) =~= binary_names(bins(binaries@)));
    r
}

/// The names of a list of stacks.
fn names_of_stacks(stacks: &Vec<Stack>) -> (r: Vec<String>)
    ensures
        strs(r@) == stack_names(stacks_view(stacks@)),
{
    let mut r: Vec<String> = Vec::new();
    let n = stacks.len();
    let mut i: usize = 0;
    while i < n
        invariant
            n == stacks.len(),
            0 <= i <= n,
            r.len() == i,
            forall|j: int| 0 <= j < i ==> r@[j]@ == stacks@[j]@.name,
        decreases n - i,
    {
        r.push(stacks[i].name.clone());
        i += 1;
    }
    assert(strs(r@) =~= stack_names(stacks_view(stacks@)));
    r
}

/// The names of `wanted` that are not in `names`, in their order.
pub fn missing_from(wanted: &Vec<String>, names: &Vec<String>) -> (r: Vec<String>)
    ensures
        strs(r@) == missing_names(strs(wanted@), strs(names@), wanted@.len() as int),
{
    let mut r: Vec<String> = Vec::new();
    let n = wanted.len();
    assert(strs(r@) =~= missing_names(strs(wanted@), strs(names@), 0));
    let mut i: usize = 0;
    while i < n
        invariant
            n == wanted.len(),
            0 <= i <= n,
            strs(r@) == missing_names(strs(wanted@), strs(names@), i as int),
        decreases n - i,
    {
        if !contains_name(names, wanted[i].as_str()) {
            proof {
                lemma_strs_push(r@, wanted@[i as int]);
            }
            r.push(wanted[i].clone());
        }
        i += 1;
    }
    r
}

/// The names of `stack`, declared then inherited, that are not in `names`.
fn missing_in(stack: &Stack, names: &Vec<String>) -> (r: Vec<String>)
    ensures
        strs(r@) == missing_of(stack@, strs(names@)),
{
    let mut r: Vec<String> = Vec::new();
    let ghost wanted = stack@.processes + stack@.inherited_processes;
    let n = stack.processes.len();
    let m = stack.inherited_processes.len();
    assert(strs(r@) =~= missing_names(wanted, strs(names@), 0));
    let mut i: usize = 0;
    while i < n
        invariant
            n == stack.processes.len(),
            m == stack.inherited_processes.len(),
            wanted == stack@.processes + stack@.inherited_processes,
            0 <= i <= n,
            strs(r@) == missing_names(wanted, strs(names@), i as int),
        decreases n - i,
    {
        assert(wanted[i as int] == stack.processes@[i as int]@);
        if !contains_name(names, stack.processes[i].as_str()) {
            proof {
                lemma_strs_push(r@, stack.processes@[i as int]);
            }
            r.push(stack.processes[i].clone());
        }
        i += 1;
    }
    let mut j: usize = 0;
    while j < m
        invariant
            n == stack.processes.len(),
            m == stack.inherited_processes.len(),
            wanted == stack@.processes + stack@.inherited_processes,
            0 <= j <= m,
            strs(r@) == missing_names(wanted, strs(names@), n + j),
        decreases m - j,
    {
        assert(wanted[n + j] == stack.inherited_processes@[j as int]@);
        if !contains_name(names, stack.inherited_processes[j].as_str()) {
            proof {
                lemma_strs_push(r@, stack.inherited_processes@[j as int]);
            }
            r.push(stack.inherited_processes[j].clone());
        }
        j += 1;
    }
    r
}

impl Database {
    /// What holds of every store.
    pub open spec fn wf(&self) -> bool {
        store_wf(self@)
    }

    /// An empty store.
    pub fn new() -> (db: Database)
        ensures
            db.wf(),
            db@ == empty_store(),
    {
        let db = Database {
            binaries: Vec::new(),
            binaries_updated_at: None,
            config_updated_at: None,
            default_stack: None,
            processes: Vec::new(),
            stacks: Vec::new(),
        };
        assert(db@.binaries =~= Seq::empty());
        assert(db@.processes =~= Seq::empty());
        assert(db@.stacks =~= Seq::empty());
        db
    }

    /// When the artifacts were last refreshed, in seconds since the epoch.
    pub fn get_binaries_updated_at(&self) -> (r: Option<i64>)
        ensures
            r == self@.binaries_updated_at,
    {
        self.binaries_updated_at
    }

    /// When the configuration was last refreshed, in seconds since the
    /// epoch.
    pub fn get_config_updated_at(&self) -> (r: Option<i64>)
        ensures
            r == self@.config_updated_at,
    {
        self.config_updated_at
    }

    /// Records when the artifacts were refreshed.
    pub fn set_binaries_updated_at(&mut self, date: i64)
        ensures
            final(self)@ == (StoreView { binaries_updated_at: Some(date), ..old(self)@ }),
    {
        self.binaries_updated_at = Some(date);
    }

    /// Records when the configuration was refreshed.
    pub fn set_config_updated_at(&mut self, date: i64)
        ensures
            final(self)@ == (StoreView { config_updated_at: Some(date), ..old(self)@ }),
    {
        self.config_updated_at = Some(date);
    }

    /// The name of the default stack, if one is set.
    pub fn get_default_stack(&self) -> (r: Option<String>)
        ensures
            match r {
                Some(s) => self@.default_stack == Some(s@),
                None => self@.default_stack is None,
            },
    {
        match &self.default_stack {
            Some(s) => Some(s.clone()),
            None => None,
        }
    }

    /// Every process, in the order of the store.
    pub fn get_processes(&self) -> (r: Vec<Process>)
        ensures
            procs(r@) == self@.processes,
    {
        let mut r: Vec<Process> = Vec::new();
        let n = self.processes.len();
        let mut i: usize = 0;
        while i < n
            invariant
                n == self.processes.len(),
                0 <= i <= n,
                r.len() == i,
                forall|j: int| 0 <= j < i ==> r@[j]@ == self.processes@[j]@,
            decreases n - i,
        {
            r.push(self.processes[i].duplicate());
            i += 1;
        }
        assert(procs(r@) =~= procs(self.processes@));
        r
    }

    /// Gives the process called `process_name` the state `state`. Where no
    /// process has that name nothing changes.
    pub fn set_process_state(&mut self, process_name: &str, state: ProcessState)
        requires
            old(self).wf(),
        ensures
            final(self).wf(),
            final(self)@ == (StoreView {
                processes: with_state(old(self)@.processes, process_name@, state),
                ..old(self)@
            }),
    {
        match position_of(&self.processes, process_name) {
            Some(i) => {
                let mut p = self.processes[i].duplicate();
                p.state = state;
                self.processes.set(i, p);
                proof {
                    let before = old(self)@.processes;
                    let after = with_state(before, process_name@, state);
                    assert forall|j: int| 0 <= j < before.len() implies procs(self.processes@)[j]
                        == after[j] by {
                        if j != i {
                            assert(process_names(before)[j] == before[j].name);
                            assert(process_names(before)[i as int] == before[i as int].name);
                        }
                    }
                    assert(procs(self.processes@) =~= after);
                    assert(process_names(after) =~= process_names(before));
                }
            },
            None => {
                proof {
                    let before = old(self)@.processes;
                    assert forall|j: int| 0 <= j < before.len() implies before[j].name
                        != process_name@ by {
                        assert(process_names(before)[j] == before[j].name);
                    }
                    assert(with_state(before, process_name@, state) =~= before);
                }
            },
        }
    }

    /// Gives the process called `process_name` the handle `pid`, or takes
    /// its handle away. Where no process has that name nothing changes.
    pub fn set_process_pid(&mut self, process_name: &str, pid: Option<Pid>)
        requires
            old(self).wf(),
        ensures
            final(self).wf(),
            final(self)@ == (StoreView {
                processes: with_pid(old(self)@.processes, process_name@, pid),
                ..old(self)@
            }),
    {
        match position_of(&self.processes, process_name) {
            Some(i) => {
                let mut p = self.processes[i].duplicate();
                p.pid = pid;
                self.processes.set(i, p);
                proof {
                    let before = old(self)@.processes;
                    let after = with_pid(before, process_name@, pid);
                    assert forall|j: int| 0 <= j < before.len() implies procs(self.processes@)[j]
                        == after[j] by {
                        if j != i {
                            assert(process_names(before)[j] == before[j].name);
                            assert(process_names(before)[i as int] == before[i as int].name);
                        }
                    }
                    assert(procs(self.processes@) =~= after);
                    assert(process_names(after) =~= process_names(before));
                }
            },
            None => {
                proof {
                    let before = old(self)@.processes;
                    assert forall|j: int| 0 <= j < before.len() implies before[j].name
                        != process_name@ by {
                        assert(process_names(before)[j] == before[j].name);
                    }
                    assert(with_pid(before, process_name@, pid) =~= before);
                }
            },
        }
    }

    /// The stack called `stack`. Where there is none, the error
    /// `StackNotFound` with that name.
    pub fn get_stack(&self, stack: &str) -> (r: Result<Stack, Error>)
        ensures
            match find_stack(self@.stacks, stack@) {
                Some(found) => r is Ok && r->Ok_0@ == found,
                None => r is Err && r->Err_0@ == plain(InnerErrorView::StackNotFound(stack@)),
            },
    {
        let n = self.stacks.len();
        let mut i: usize = 0;
        assert(self@.stacks.skip(0) =~= self@.stacks);
        while i < n
            invariant
                n == self.stacks.len(),
                0 <= i <= n,
                find_stack(self@.stacks, stack@) == find_stack(self@.stacks.skip(i as int), stack@),
            decreases n - i,
        {
            assert(self@.stacks.skip(i as int)[0] == self.stacks@[i as int]@);
            assert(self@.stacks.skip(i as int).drop_first() =~= self@.stacks.skip(i as int + 1));
            if str_eq(self.stacks[i].name.as_str(), stack) {
                return Ok(self.stacks[i].duplicate());
            }
            i += 1;
        }
        Err(Error::new(InnerError::StackNotFound(stack.to_owned())))
    }

    /// Every artifact, in the order of the store.
    pub fn get_binaries(&self) -> (r: Vec<BinaryPackage>)
        ensures
            bins(r@) == self@.binaries,
    {
        let mut r: Vec<BinaryPackage> = Vec::new();
        let n = self.binaries.len();
        let mut i: usize = 0;
        while i < n
            invariant
                n == self.binaries.len(),
                0 <= i <= n,
                r.len() == i,
                forall|j: int| 0 <= j < i ==> r@[j]@ == self.binaries@[j]@,
            decreases n - i,
        {
            r.push(
                BinaryPackage { name: self.binaries[i].name.clone(), id: self.binaries[i].id.clone() },
            );
            i += 1;
        }
        assert(bins(r@) =~= bins(self.binaries@));
        r
    }

    /// Replaces the artifacts by `binaries`, ordered by name. Where two of
    /// them share a name, the error `Conflict` and no change.
    pub fn set_binaries(&mut self, binaries: &Vec<BinaryPackage>) -> (r: Result<(), Error>)
        requires
            old(self).wf(),
        ensures
            final(self).wf(),
            if binary_names(bins(binaries@)).no_duplicates() {
                &&& r is Ok
                &&& final(self)@ == (StoreView {
                    binaries: sort_binaries(bins(binaries@)),
                    ..old(self)@
                })
            } else {
                &&& r is Err
                &&& r->Err_0@ == plain(InnerErrorView::Conflict("artifact name is not unique"@))
                &&& final(self)@ == old(self)@
            },
    {
        let names = names_of_binaries(binaries);
        if !all_distinct(&names) {
            return Err(Error::new(InnerError::Conflict("artifact name is not unique".to_owned())));
        }
        let order = sort_positions(&names);
        proof {
            lemma_name_order(strs(names@), names.len() as nat);
            lemma_sort_binaries(bins(binaries@));
        }
        let mut sorted: Vec<BinaryPackage> = Vec::new();
        let n = binaries.len();
        let mut k: usize = 0;
        while k < n
            invariant
                n == binaries.len(),
                order.len() == n,
                forall|j: int| 0 <= j < n ==> #[trigger] order@[j] < n,
                0 <= k <= n,
                sorted.len() == k,
                forall|j: int| 0 <= j < k ==> sorted@[j]@ == binaries@[order@[j] as int]@,
            decreases n - k,
        {
            let b = &binaries[order[k]];
            sorted.push(BinaryPackage { name: b.name.clone(), id: b.id.clone() });
            k += 1;
        }
        assert(bins(sorted@) =~= sort_binaries(bins(binaries@)));
        self.binaries = sorted;
        Ok(())
    }

    /// Replaces the processes by `processes`, ordered by name, each with
    /// its environment ordered by key. The rows
    /// that tied a stack to a process go with the old processes, so every
    /// stack is left without members. Where two of the new processes share
    /// a name, the error `Conflict` and no change.
    pub fn set_processes(&mut self, processes: &Vec<Process>) -> (r: Result<(), Error>)
        requires
            old(self).wf(),
        ensures
            final(self).wf(),
            if process_names(procs(processes@)).no_duplicates() {
                &&& r is Ok
                &&& final(self)@ == (StoreView {
                    processes: stored_processes(procs(processes@)),
                    stacks: without_members(old(self)@.stacks),
                    ..old(self)@
                })
            } else {
                &&& r is Err
                &&& r->Err_0@ == plain(InnerErrorView::Conflict("process name is not unique"@))
                &&& final(self)@ == old(self)@
            },
    {
        let names = names_of_processes(processes);
        if !all_distinct(&names) {
            return Err(Error::new(InnerError::Conflict("process name is not unique".to_owned())));
        }
        let order = sort_positions(&names);
        proof {
            lemma_name_order(strs(names@), names.len() as nat);
            lemma_sort_by_name(procs(processes@));
        }
        let mut sorted: Vec<Process> = Vec::new();
        let n = processes.len();
        let mut k: usize = 0;
        while k < n
            invariant
                n == processes.len(),
                order.len() == n,
                forall|j: int| 0 <= j < n ==> #[trigger] order@[j] < n,
                0 <= k <= n,
                sorted.len() == k,
                forall|j: int|
                    0 <= j < k ==> (#[trigger] sorted@[j])@ == normal_process(
                        processes@[order@[j] as int]@,
                    ) && keys_ascend(sorted@[j]@.env),
            decreases n - k,
        {
            let mut p = processes[order[k]].duplicate();
            p.env = sort_entries(&p.env);
            sorted.push(p);
            k += 1;
        }
        assert(process_names(normal_processes(procs(processes@))) =~= process_names(
            procs(processes@),
        ));
        assert(procs(sorted@) =~= stored_processes(procs(processes@)));
        proof {
            lemma_sort_by_name(normal_processes(procs(processes@)));
        }
        let mut bare: Vec<Stack> = Vec::new();
        let m = self.stacks.len();
        let mut i: usize = 0;
        while i < m
            invariant
                m == self.stacks.len(),
                0 <= i <= m,
                bare.len() == i,
                forall|j: int|
                    0 <= j < i ==> (#[trigger] bare@[j])@ == (StackView {
                        name: self.stacks@[j]@.name,
                        processes: Seq::empty(),
                        inherited_processes: Seq::empty(),
                    }),
            decreases m - i,
        {
            let s = Stack {
                name: self.stacks[i].name.clone(),
                processes: Vec::new(),
                inherited_processes: Vec::new(),
            };
            assert(strs(s.processes@) =~= Seq::empty());
            assert(strs(s.inherited_processes@) =~= Seq::empty());
            bare.push(s);
            i += 1;
        }
        assert(stacks_view(bare@) =~= without_members(old(self)@.stacks));
        assert(stack_names(stacks_view(bare@)) =~= stack_names(old(self)@.stacks));
        self.processes = sorted;
        self.stacks = bare;
        Ok(())
    }

    /// Every stack, in the order of the store.
    pub fn get_stacks(&self) -> (r: Vec<Stack>)
        ensures
            stacks_view(r@) == self@.stacks,
    {
        let mut r: Vec<Stack> = Vec::new();
        let n = self.stacks.len();
        let mut i: usize = 0;
        while i < n
            invariant
                n == self.stacks.len(),
                0 <= i <= n,
                r.len() == i,
                forall|j: int| 0 <= j < i ==> r@[j]@ == self.stacks@[j]@,
            decreases n - i,
        {
            r.push(self.stacks[i].duplicate());
            i += 1;
        }
        assert(stacks_view(r@) =~= stacks_view(self.stacks@));
        r
    }

    /// Replaces the stacks by `stacks`, in their order, each with each of
    /// its names once. Every name that they hold is checked first: where a
    /// stack holds one that is no process, the error `ProcessNotFound` with
    /// the names that the first such stack misses, and no change. Where two
    /// stacks share a name, the error `Conflict` and no change. The old
    /// stacks go before the new ones come, and the default stack with them:
    /// none is set afterwards.
    pub fn set_stacks(&mut self, stacks: &Vec<Stack>) -> (r: Result<(), Error>)
        requires
            old(self).wf(),
        ensures
            final(self).wf(),
            match first_unresolved(stacks_view(stacks@), process_names(old(self)@.processes), 0) {
                Some(at) => {
                    &&& r is Err
                    &&& r->Err_0@ == plain(
                        InnerErrorView::ProcessNotFound(
                            missing_of(stacks@[at]@, process_names(old(self)@.processes)),
                        ),
                    )
                    &&& final(self)@ == old(self)@
                },
                None => if stack_names(stacks_view(stacks@)).no_duplicates() {
                    &&& r is Ok
                    &&& final(self)@ == (StoreView {
                        stacks: unique_stacks(stacks_view(stacks@)),
                        default_stack: None,
                        ..old(self)@
                    })
                } else {
                    &&& r is Err
                    &&& r->Err_0@ == plain(InnerErrorView::Conflict("stack name is not unique"@))
                    &&& final(self)@ == old(self)@
                },
            },
    {
        let names = names_of_processes(&self.processes);
        let ghost known = process_names(old(self)@.processes);
        let ghost wanted = stacks_view(stacks@);
        let n = stacks.len();
        let mut i: usize = 0;
        while i < n
            invariant
                n == stacks.len(),
                0 <= i <= n,
                *self == *old(self),
                self.wf(),
                strs(names@) == known,
                known == process_names(old(self)@.processes),
                wanted == stacks_view(stacks@),
                first_unresolved(wanted, known, 0) == first_unresolved(wanted, known, i as int),
                forall|j: int| 0 <= j < i ==> stack_within(#[trigger] wanted[j], known),
            decreases n - i,
        {
            let missing = missing_in(&stacks[i], &names);
            assert(wanted[i as int] == stacks@[i as int]@);
            if missing.len() > 0 {
                return Err(Error::new(InnerError::ProcessNotFound(missing)));
            }
            proof {
                let s = wanted[i as int];
                let all = s.processes + s.inherited_processes;
                lemma_missing_names_empty(all, known, all.len() as int);
                assert forall|a: int| 0 <= a < s.processes.len() implies known.contains(
                    #[trigger] s.processes[a],
                ) by {
                    assert(all[a] == s.processes[a]);
                }
                assert forall|a: int| 0 <= a < s.inherited_processes.len() implies known.contains(
                    #[trigger] s.inherited_processes[a],
                ) by {
                    assert(all[s.processes.len() + a] == s.inherited_processes[a]);
                }
            }
            i += 1;
        }
        let given_names = names_of_stacks(stacks);
        if !all_distinct(&given_names) {
            return Err(Error::new(InnerError::Conflict("stack name is not unique".to_owned())));
        }
        let mut copy: Vec<Stack> = Vec::new();
        let mut k: usize = 0;
        while k < n
            invariant
                n == stacks.len(),
                0 <= k <= n,
                copy.len() == k,
                forall|j: int| 0 <= j < k ==> (#[trigger] copy@[j])@ == unique_stack(stacks@[j]@),
            decreases n - k,
        {
            let mut declared: Vec<String> = Vec::new();
            let mut inherited: Vec<String> = Vec::new();
            assert(strs(declared@) =~= Seq::empty());
            assert(strs(inherited@) =~= Seq::empty());
            extend_unique(&mut declared, &stacks[k].processes);
            extend_unique(&mut inherited, &stacks[k].inherited_processes);
            copy.push(
                Stack {
                    name: stacks[k].name.clone(),
                    processes: declared,
                    inherited_processes: inherited,
                },
            );
            k += 1;
        }
        assert(stacks_view(copy@) =~= unique_stacks(wanted));
        assert(stack_names(unique_stacks(wanted)) =~= stack_names(wanted));
        proof {
            let none = Seq::<Seq<char>>::empty();
            assert forall|j: int| 0 <= j < n implies stack_within(
                #[trigger] unique_stacks(wanted)[j],
                known,
            ) && unique_stacks(wanted)[j].processes.no_duplicates() && unique_stacks(
                wanted,
            )[j].inherited_processes.no_duplicates() by {
                let s = wanted[j];
                let u = unique_stack(s);
                assert(stack_within(s, known));
                lemma_union_names_distinct(none, s.processes);
                lemma_union_names_distinct(none, s.inherited_processes);
                assert forall|a: int| 0 <= a < u.processes.len() implies known.contains(
                    #[trigger] u.processes[a],
                ) by {
                    lemma_union_names_contains(none, s.processes, u.processes[a]);
                    assert(u.processes.contains(u.processes[a]));
                    let b = choose|b: int|
                        0 <= b < s.processes.len() && s.processes[b] == u.processes[a];
                    assert(known.contains(s.processes[b]));
                }
                assert forall|a: int| 0 <= a < u.inherited_processes.len() implies known.contains(
                    #[trigger] u.inherited_processes[a],
                ) by {
                    lemma_union_names_contains(
                        none,
                        s.inherited_processes,
                        u.inherited_processes[a],
                    );
                    assert(u.inherited_processes.contains(u.inherited_processes[a]));
                    let b = choose|b: int|
                        0 <= b < s.inherited_processes.len() && s.inherited_processes[b]
                            == u.inherited_processes[a];
                    assert(known.contains(s.inherited_processes[b]));
                }
            }
        }
        self.stacks = copy;
        self.default_stack = None;
        Ok(())
    }

    /// Makes `stack` the default stack, or, with `None`, leaves the store
    /// without one. A stack that does not exist cannot be the default: the
    /// error `Conflict` with its name, and no change.
    pub fn set_default_stack(&mut self, stack: &Option<String>) -> (r: Result<(), Error>)
        requires
            old(self).wf(),
        ensures
            final(self).wf(),
            match stack {
                None => r is Ok && final(self)@ == (StoreView { default_stack: None, ..old(self)@ }),
                Some(name) => if stack_names(old(self)@.stacks).contains(name@) {
                    &&& r is Ok
                    &&& final(self)@ == (StoreView { default_stack: Some(name@), ..old(self)@ })
                } else {
                    &&& r is Err
                    &&& r->Err_0@ == plain(InnerErrorView::Conflict(name@))
                    &&& final(self)@ == old(self)@
                },
            },
    {
        match stack {
            None => {
                self.default_stack = None;
                Ok(())
            },
            Some(name) => {
                let names = names_of_stacks(&self.stacks);
                if contains_name(&names, name.as_str()) {
                    self.default_stack = Some(name.clone());
                    Ok(())
                } else {
                    Err(Error::new(InnerError::Conflict(name.clone())))
                }
            },
        }
    }

    /// A copy of the store with the same value.
    pub fn duplicate(&self) -> (db: Database)
        ensures
            db@ == self@,
    {
        Database {
            binaries: self.get_binaries(),
            binaries_updated_at: self.binaries_updated_at,
            config_updated_at: self.config_updated_at,
            default_stack: self.get_default_stack(),
            processes: self.get_processes(),
            stacks: self.get_stacks(),
        }
    }
}

} // verus!
