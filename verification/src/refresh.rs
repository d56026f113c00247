//! The refresh pipeline: bringing the stored processes in line with what
//! the scheduler runs, rebuilding them from the configuration or from the
//! artifacts, and flattening the inheritance between stacks.

use crate::command::cargo::{bins, BinaryPackage};
use crate::command::pueue::{tasks_view, ScheduledTask};
use crate::state::{refreshed, RefreshInput, State, StateView};
use crate::Pid;
use crate::common::{
    configured_process, fresh_process, process_names, procs, stacks_view, state_of_task,
    Process, ProcessState, ProcessView, Stack, StackView, TaskStatus, MAX_RECURSION_LEVEL,
};
use crate::config::{stack_table, ConfigFile, ConfigProcess, ConfigStack, ConfigStackView};
use crate::error::{plain, Error, InnerError, InnerErrorView};
use crate::text::{
    clone_strings, contains_name, extend_unique, lemma_strs_push, lemma_union_names_contains,
    str_eq, strs, union_names,
};
use vstd::prelude::*;

verus! {

/// Whether a refresh is forced.
#[derive(Debug, PartialEq, Eq)]
pub struct RefreshArgs {
    pub hard: bool,
}

/// The operation that refreshes the store.
pub struct Refresh {
    args: RefreshArgs,
}

impl Refresh {
    /// The operation that `args` describes.
    pub fn new(args: RefreshArgs) -> (r: Refresh)
        ensures
            r.hard() == args.hard,
    {
        Refresh { args }
    }

    /// Whether the refresh is forced.
    pub closed spec fn hard(&self) -> bool {
        self.args.hard
    }

    /// Refreshes the store of `state`; a refresh that fails leaves it as it
    /// was.
    pub fn refresh(&self, state: &mut State, input: &RefreshInput) -> (r: Result<(), Error>)
        requires
            old(state).wf(),
        ensures
            final(state).wf(),
            match refreshed(old(state)@.store, self.hard(), *input) {
                Ok(store) => r is Ok && final(state)@ == (StateView { store, ..old(state)@ }),
                Err(e) => r is Err && r->Err_0@ == plain(e) && final(state)@ == old(state)@,
            },
    {
        state.refresh(self.args.hard, input)
    }
}

/// The definition of the first stack called `name`.
pub open spec fn lookup_stack(table: Seq<(Seq<char>, ConfigStackView)>, name: Seq<char>) -> Option<
    ConfigStackView,
>
    decreases table.len(),
{
    if table.len() == 0 {
        None
    } else if table[0].0 == name {
        Some(table[0].1)
    } else {
        lookup_stack(table.drop_first(), name)
    }
}

/// How a walk over the ancestors of a stack ends.
pub ghost enum Walk {
    /// Every ancestor was reached: the processes gathered from them, each
    /// once.
    Done { inherited: Seq<Seq<char>> },
    /// A stack was reached that is its own ancestor.
    Loop,
    /// The walk went below the deepest level allowed.
    TooDeep,
    /// A stack that is not defined was named.
    Missing(Seq<char>),
}

/// The walk over the stacks `names`, which lie `level` levels above the
/// stack that is resolved, and over their ancestors, depth first and in
/// the order in which they are named. `browsed` holds the stacks on the
/// way from the resolved stack down to `names`, and `inherited` the
/// processes gathered before. A stack that is reached by two ways is
/// walked twice; one that is reached from itself is a loop.
pub open spec fn walk(
    level: nat,
    names: Seq<Seq<char>>,
    table: Seq<(Seq<char>, ConfigStackView)>,
    browsed: Seq<Seq<char>>,
    inherited: Seq<Seq<char>>,
) -> Walk
    decreases MAX_RECURSION_LEVEL + 1 - level, names.len(),
{
    if level > MAX_RECURSION_LEVEL {
        Walk::TooDeep
    } else if names.len() == 0 {
        Walk::Done { inherited }
    } else if browsed.contains(names[0]) {
        Walk::Loop
    } else {
        match lookup_stack(table, names[0]) {
            None => Walk::Missing(names[0]),
            Some(stack) => match walk(
                level + 1,
                stack.inherits,
                table,
                browsed.push(names[0]),
                union_names(inherited, stack.processes),
            ) {
                Walk::Done { inherited: gathered } => walk(
                    level,
                    names.drop_first(),
                    table,
                    browsed,
                    gathered,
                ),
                other => other,
            },
        }
    }
}

/// The stacks that a walk which ends well has reached, in the order in
/// which it reached them; one that it reached by two ways stands twice.
pub open spec fn visited(
    level: nat,
    names: Seq<Seq<char>>,
    table: Seq<(Seq<char>, ConfigStackView)>,
    browsed: Seq<Seq<char>>,
    inherited: Seq<Seq<char>>,
) -> Seq<Seq<char>>
    decreases MAX_RECURSION_LEVEL + 1 - level, names.len(),
{
    if level > MAX_RECURSION_LEVEL || names.len() == 0 || browsed.contains(names[0]) {
        Seq::empty()
    } else {
        match lookup_stack(table, names[0]) {
            None => Seq::empty(),
            Some(stack) => {
                let first = browsed.push(names[0]);
                let gathered = union_names(inherited, stack.processes);
                match walk(level + 1, stack.inherits, table, first, gathered) {
                    Walk::Done { inherited: more } => seq![names[0]] + visited(
                        level + 1,
                        stack.inherits,
                        table,
                        first,
                        gathered,
                    ) + visited(level, names.drop_first(), table, browsed, more),
                    _ => Seq::empty(),
                }
            },
        }
    }
}

/// The error that a walk ends with, where it does not end well.
pub open spec fn walk_error(w: Walk) -> InnerErrorView {
    match w {
        Walk::Loop => InnerErrorView::RecursionLoop,
        Walk::TooDeep => InnerErrorView::RecursionDepthExceeded,
        Walk::Missing(name) => InnerErrorView::StackNotFound(name),
        Walk::Done { .. } => arbitrary(),
    }
}

/// The position of the first stack called `name` in the configuration.
fn find_config_stack(stacks: &Vec<(String, ConfigStack)>, name: &str) -> (r: Option<usize>)
    ensures
        match r {
            Some(i) => i < stacks.len() && lookup_stack(stack_table(stacks@), name@) == Some(
                stacks@[i as int].1@,
            ),
            None => lookup_stack(stack_table(stacks@), name@) is None,
        },
{
    let n = stacks.len();
    let ghost table = stack_table(stacks@);
    let mut i: usize = 0;
    assert(table.skip(0) =~= table);
    while i < n
        invariant
            n == stacks.len(),
            table == stack_table(stacks@),
            0 <= i <= n,
            lookup_stack(table, name@) == lookup_stack(table.skip(i as int), name@),
        decreases n - i,
    {
        assert(table.skip(i as int)[0] == (stacks@[i as int].0@, stacks@[i as int].1@));
        assert(table.skip(i as int).drop_first() =~= table.skip(i as int + 1));
        if str_eq(stacks[i].0.as_str(), name) {
            return Some(i);
        }
        i += 1;
    }
    None
}

/// Walks the stacks `stack_names` and their ancestors and adds their
/// processes to `inherited_processes`. `browsed_stacks` holds the stacks
/// on the way down to `stack_names`; each stack is noted there while its
/// ancestors are walked, and the list is handed back as it came. Reaching
/// a stack that is noted is the error `RecursionLoop`, naming one that is
/// not defined is `StackNotFound`, and going more than the allowed number
/// of levels up is `RecursionDepthExceeded`.
pub fn recurse_inherited_processes(
    recursion_level: u8,
    stack_names: &Vec<String>,
    stacks: &Vec<(String, ConfigStack)>,
    browsed_stacks: &mut Vec<String>,
    inherited_processes: Vec<String>,
) -> (r: Result<Vec<String>, Error>)
    ensures
        match walk(
            recursion_level as nat,
            strs(stack_names@),
            stack_table(stacks@),
            strs(old(browsed_stacks)@),
            strs(inherited_processes@),
        ) {
            Walk::Done { inherited } => r is Ok && strs(r->Ok_0@) == inherited,
            other => r is Err && r->Err_0@ == plain(walk_error(other)),
        },
        strs(final(browsed_stacks)@) == strs(old(browsed_stacks)@),
    decreases MAX_RECURSION_LEVEL + 1 - recursion_level,
{
    if recursion_level > MAX_RECURSION_LEVEL {
        return Err(Error::new(InnerError::RecursionDepthExceeded));
    }
    let ghost table = stack_table(stacks@);
    let ghost names = strs(stack_names@);
    let ghost path = strs(old(browsed_stacks)@);
    let ghost whole = walk(recursion_level as nat, names, table, path, strs(inherited_processes@));
    let mut gathered = inherited_processes;
    let n = stack_names.len();
    let mut i: usize = 0;
    assert(names.skip(0) =~= names);
    while i < n
        invariant
            n == stack_names.len(),
            names == strs(stack_names@),
            table == stack_table(stacks@),
            path == strs(old(browsed_stacks)@),
            recursion_level <= MAX_RECURSION_LEVEL,
            0 <= i <= n,
            strs(browsed_stacks@) == path,
            whole == walk(
                recursion_level as nat,
                names,
                table,
                path,
                strs(inherited_processes@),
            ),
            whole == walk(recursion_level as nat, names.skip(i as int), table, path, strs(gathered@)),
        decreases n - i,
    {
        let ghost rest = names.skip(i as int);
        assert(rest[0] == stack_names@[i as int]@);
        assert(rest.drop_first() =~= names.skip(i as int + 1));
        let name = &stack_names[i];
        if contains_name(browsed_stacks, name.as_str()) {
            return Err(Error::new(InnerError::RecursionLoop));
        }
        let at = match find_config_stack(stacks, name.as_str()) {
            None => {
                return Err(Error::new(InnerError::StackNotFound(name.clone())));
            },
            Some(at) => at,
        };
        let stack = &stacks[at].1;
        extend_unique(&mut gathered, &stack.processes);
        proof {
            lemma_strs_push(browsed_stacks@, *name);
        }
        browsed_stacks.push(name.clone());
        let r = recurse_inherited_processes(
            recursion_level + 1,
            &stack.inherits,
            stacks,
            browsed_stacks,
            gathered,
        );
        let ghost below = browsed_stacks@;
        let noted = browsed_stacks.pop();
        assert(strs(browsed_stacks@) =~= path) by {
            assert(strs(below) == path.push(name@));
            assert(below.len() == strs(below).len());
            assert(browsed_stacks@ =~= below.drop_last());
            assert(strs(below.drop_last()) =~= strs(below).drop_last());
        }
        match r {
            Ok(more) => {
                gathered = more;
            },
            Err(e) => {
                return Err(e);
            },
        }
        i += 1;
    }
    Ok(gathered)
}

/// A walk does not end well where one of the stacks it is given is on the
/// way down to them.
pub proof fn lemma_walk_meets_loop(
    level: nat,
    names: Seq<Seq<char>>,
    table: Seq<(Seq<char>, ConfigStackView)>,
    browsed: Seq<Seq<char>>,
    inherited: Seq<Seq<char>>,
    i: int,
)
    requires
        0 <= i < names.len(),
        browsed.contains(names[i]),
    ensures
        !(walk(level, names, table, browsed, inherited) is Done),
    decreases names.len(),
{
    if level <= MAX_RECURSION_LEVEL && !browsed.contains(names[0]) {
        match lookup_stack(table, names[0]) {
            None => {},
            Some(stack) => {
                let inner = walk(
                    level + 1,
                    stack.inherits,
                    table,
                    browsed.push(names[0]),
                    union_names(inherited, stack.processes),
                );
                if inner is Done {
                    assert(names.drop_first()[i - 1] == names[i]);
                    lemma_walk_meets_loop(
                        level,
                        names.drop_first(),
                        table,
                        browsed,
                        inner->inherited,
                        i - 1,
                    );
                }
            },
        }
    }
}

/// Whether one of `names` is in `browsed`.
pub open spec fn meets(names: Seq<Seq<char>>, browsed: Seq<Seq<char>>) -> bool {
    exists|j: int| 0 <= j < names.len() && browsed.contains(#[trigger] names[j])
}

/// A walk that ends well does not reach the stack `name`, where each of
/// the stacks it is given is a parent of `name` or a parent of `name` is on
/// the way down to them.
proof fn lemma_walk_avoids(
    level: nat,
    names: Seq<Seq<char>>,
    table: Seq<(Seq<char>, ConfigStackView)>,
    browsed: Seq<Seq<char>>,
    inherited: Seq<Seq<char>>,
    name: Seq<char>,
)
    requires
        walk(level, names, table, browsed, inherited) is Done,
        lookup_stack(table, name) is Some,
        meets(lookup_stack(table, name)->0.inherits, browsed) || forall|i: int|
            0 <= i < names.len() ==> lookup_stack(table, name)->0.inherits.contains(
                #[trigger] names[i],
            ),
    ensures
        !visited(level, names, table, browsed, inherited).contains(name),
    decreases MAX_RECURSION_LEVEL + 1 - level, names.len(),
{
    if names.len() > 0 {
        let parents = lookup_stack(table, name)->0.inherits;
        let stack = lookup_stack(table, names[0])->0;
        let first = browsed.push(names[0]);
        let gathered = union_names(inherited, stack.processes);
        let inner = walk(level + 1, stack.inherits, table, first, gathered);
        let rest = names.drop_first();
        assert(first[browsed.len() as int] == names[0]);
        assert(meets(parents, first)) by {
            if meets(parents, browsed) {
                let j = choose|j: int| 0 <= j < parents.len() && browsed.contains(#[trigger] parents[j]);
                let k = choose|k: int| 0 <= k < browsed.len() && browsed[k] == parents[j];
                assert(first[k] == parents[j]);
                assert(first.contains(parents[j]));
            } else {
                assert(parents.contains(names[0]));
                let j = choose|j: int| 0 <= j < parents.len() && parents[j] == names[0];
                assert(first.contains(parents[j]));
            }
        }
        if names[0] == name {
            let j = choose|j: int| 0 <= j < parents.len() && first.contains(#[trigger] parents[j]);
            lemma_walk_meets_loop(level + 1, parents, table, first, gathered, j);
            assert(false);
        }
        lemma_walk_avoids(level + 1, stack.inherits, table, first, gathered, name);
        assert forall|i: int| 0 <= i < rest.len() && !meets(parents, browsed) implies parents.contains(
            #[trigger] rest[i],
        ) by {
            assert(rest[i] == names[i + 1]);
        }
        lemma_walk_avoids(level, rest, table, browsed, inner->inherited, name);
        let below = visited(level + 1, stack.inherits, table, first, gathered);
        let after = visited(level, rest, table, browsed, inner->inherited);
        let all = visited(level, names, table, browsed, inherited);
        assert(all == seq![names[0]] + below + after);
        if all.contains(name) {
            let k = choose|k: int| 0 <= k < all.len() && all[k] == name;
            if k == 0 {
            } else if k < 1 + below.len() {
                assert(below[k - 1] == name);
            } else {
                assert(after[k - 1 - below.len()] == name);
            }
        }
    }
}

/// No stack is among its own ancestors: where the walk over the parents of
/// a stack ends well, it has not reached the stack itself.
pub proof fn lemma_stack_is_not_its_ancestor(
    table: Seq<(Seq<char>, ConfigStackView)>,
    name: Seq<char>,
)
    requires
        lookup_stack(table, name) is Some,
        walk(0, lookup_stack(table, name)->0.inherits, table, Seq::empty(), Seq::empty()) is Done,
    ensures
        !visited(
            0,
            lookup_stack(table, name)->0.inherits,
            table,
            Seq::empty(),
            Seq::empty(),
        ).contains(name),
{
    lemma_walk_avoids(
        0,
        lookup_stack(table, name)->0.inherits,
        table,
        Seq::empty(),
        Seq::empty(),
        name,
    );
}

/// The walk that resolves the stack at position `k` of the table.
pub open spec fn walk_of(table: Seq<(Seq<char>, ConfigStackView)>, k: int) -> Walk {
    walk(0, table[k].1.inherits, table, Seq::empty(), Seq::empty())
}

/// The first position from `from` on whose stack cannot be resolved.
pub open spec fn first_unresolvable(table: Seq<(Seq<char>, ConfigStackView)>, from: int) -> Option<
    int,
>
    decreases table.len() - from,
{
    if from < 0 || from >= table.len() {
        None
    } else if !(walk_of(table, from) is Done) {
        Some(from)
    } else {
        first_unresolvable(table, from + 1)
    }
}

/// The stack at position `k` of the table with what it inherits: the
/// processes of each of its ancestors.
pub open spec fn resolved_stack(table: Seq<(Seq<char>, ConfigStackView)>, k: int) -> StackView {
    StackView {
        name: table[k].0,
        processes: table[k].1.processes,
        inherited_processes: walk_of(table, k)->inherited,
    }
}

/// Every stack of the table with what it inherits, in the order of the
/// table.
pub open spec fn resolved_stacks(table: Seq<(Seq<char>, ConfigStackView)>) -> Seq<StackView> {
    Seq::new(table.len(), |k: int| resolved_stack(table, k))
}

/// The stacks of a configuration, each with the processes that it
/// inherits. Where the ancestors of a stack cannot be walked, the error of
/// the first such stack.
pub fn resolve_stacks(stacks: &Vec<(String, ConfigStack)>) -> (r: Result<Vec<Stack>, Error>)
    ensures
        match first_unresolvable(stack_table(stacks@), 0) {
            Some(k) => r is Err && r->Err_0@ == plain(walk_error(walk_of(stack_table(stacks@), k))),
            None => r is Ok && stacks_view(r->Ok_0@) == resolved_stacks(stack_table(stacks@)),
        },
        r matches Ok(resolved) ==> forall|k: int|
            0 <= k < resolved@.len() ==> (#[trigger] resolved@[k])@.inherited_processes.no_duplicates(),
{
    let ghost table = stack_table(stacks@);
    let mut out: Vec<Stack> = Vec::new();
    let n = stacks.len();
    let mut i: usize = 0;
    while i < n
        invariant
            n == stacks.len(),
            table == stack_table(stacks@),
            0 <= i <= n,
            out.len() == i,
            first_unresolvable(table, 0) == first_unresolvable(table, i as int),
            forall|k: int| 0 <= k < i ==> (#[trigger] out@[k])@ == resolved_stack(table, k),
            forall|k: int|
                0 <= k < i ==> (#[trigger] out@[k])@.inherited_processes.no_duplicates(),
        decreases n - i,
    {
        assert(table[i as int] == (stacks@[i as int].0@, stacks@[i as int].1@));
        let mut browsed: Vec<String> = Vec::new();
        let start: Vec<String> = Vec::new();
        assert(strs(browsed@) =~= Seq::empty());
        assert(strs(start@) =~= Seq::empty());
        match recurse_inherited_processes(0, &stacks[i].1.inherits, stacks, &mut browsed, start) {
            Ok(inherited) => {
                proof {
                    lemma_walk_gathers(0, table[i as int].1.inherits, table, Seq::empty(), Seq::empty());
                }
                out.push(
                    Stack {
                        name: stacks[i].0.clone(),
                        processes: clone_strings(&stacks[i].1.processes),
                        inherited_processes: inherited,
                    },
                );
            },
            Err(e) => {
                return Err(e);
            },
        }
        i += 1;
    }
    assert(stacks_view(out@) =~= resolved_stacks(table));
    Ok(out)
}

/// The flags that the configuration gives to every process.
pub open spec fn default_args(config: ConfigFile) -> Seq<Seq<char>> {
    match config.default {
        Some(d) => match d.process {
            Some(p) => strs(p.cargo_args@),
            None => Seq::empty(),
        },
        None => Seq::empty(),
    }
}

/// The default stack that the configuration names.
pub open spec fn default_stack_of(config: ConfigFile) -> Option<Seq<char>> {
    match config.default {
        Some(d) => match d.stack {
            Some(s) => Some(s@),
            None => None,
        },
        None => None,
    }
}

/// The first process called `name`.
pub open spec fn find_process(ps: Seq<ProcessView>, name: Seq<char>) -> Option<ProcessView>
    decreases ps.len(),
{
    if ps.len() == 0 {
        None
    } else if ps[0].name == name {
        Some(ps[0])
    } else {
        find_process(ps.drop_first(), name)
    }
}

/// The process `p` with the handle and the state of the stored process of
/// the same name, where there is one.
pub open spec fn carry_over(p: ProcessView, previous: Seq<ProcessView>) -> ProcessView {
    match find_process(previous, p.name) {
        Some(q) => ProcessView { pid: q.pid, state: q.state, ..p },
        None => p,
    }
}

/// The processes before anything stored is carried over. With a
/// configuration: one for each of its entries, its own flags first and the
/// default flags after them. Without: one for each artifact, named after
/// it.
pub open spec fn described_processes(
    config: Option<ConfigFile>,
    binaries: Seq<(Seq<char>, Seq<char>)>,
) -> Seq<ProcessView> {
    match config {
        Some(c) => c.processes@.map_values(
            |e: (String, ConfigProcess)|
                {
                    let p = configured_process(e.0@, e.1);
                    ProcessView { cargo_args: p.cargo_args + default_args(c), ..p }
                },
        ),
        None => binaries.map_values(|b: (Seq<char>, Seq<char>)| fresh_process(b.0, b.0)),
    }
}

/// The processes after a rebuild: those that the configuration or the
/// artifacts describe, each with the handle and state that the store had
/// for its name.
pub open spec fn rebuilt_processes(
    config: Option<ConfigFile>,
    binaries: Seq<(Seq<char>, Seq<char>)>,
    previous: Seq<ProcessView>,
) -> Seq<ProcessView> {
    described_processes(config, binaries).map_values(|p: ProcessView| carry_over(p, previous))
}

/// The position of the first process called `name`.
fn find_previous(previous: &Vec<Process>, name: &str) -> (r: Option<usize>)
    ensures
        match r {
            Some(i) => i < previous.len() && find_process(procs(previous@), name@) == Some(
                previous@[i as int]@,
            ),
            None => find_process(procs(previous@), name@) is None,
        },
{
    let n = previous.len();
    let ghost ps = procs(previous@);
    let mut i: usize = 0;
    assert(ps.skip(0) =~= ps);
    while i < n
        invariant
            n == previous.len(),
            ps == procs(previous@),
            0 <= i <= n,
            find_process(ps, name@) == find_process(ps.skip(i as int), name@),
        decreases n - i,
    {
        assert(ps.skip(i as int)[0] == previous@[i as int]@);
        assert(ps.skip(i as int).drop_first() =~= ps.skip(i as int + 1));
        if str_eq(previous[i].name.as_str(), name) {
            return Some(i);
        }
        i += 1;
    }
    None
}

/// Builds the processes anew from the configuration, or, where there is
/// none, from the artifacts, and gives each the handle and state of the
/// stored process of its name.
pub fn rebuild_processes(
    config: &Option<ConfigFile>,
    binaries: &Vec<BinaryPackage>,
    previous: &Vec<Process>,
) -> (r: Vec<Process>)
    ensures
        procs(r@) == rebuilt_processes(*config, bins(binaries@), procs(previous@)),
{
    let mut described: Vec<Process> = Vec::new();
    match config {
        Some(c) => {
            let n = c.processes.len();
            let mut i: usize = 0;
            while i < n
                invariant
                    n == c.processes.len(),
                    0 <= i <= n,
                    described.len() == i,
                    forall|k: int|
                        0 <= k < i ==> (#[trigger] described@[k])@ == described_processes(
                            Some(*c),
                            bins(binaries@),
                        )[k],
                decreases n - i,
            {
                let entry = &c.processes[i];
                let mut cargo_args = clone_strings(&entry.1.cargo_args);
                match &c.default {
                    Some(d) => match &d.process {
                        Some(p) => {
                            let n2 = p.cargo_args.len();
                            let mut j: usize = 0;
                            while j < n2
                                invariant
                                    n2 == p.cargo_args.len(),
                                    0 <= j <= n2,
                                    strs(cargo_args@) == strs(entry.1.cargo_args@) + strs(
                                        p.cargo_args@,
                                    ).take(j as int),
                                decreases n2 - j,
                            {
                                proof {
                                    lemma_strs_push(cargo_args@, p.cargo_args@[j as int]);
                                }
                                cargo_args.push(p.cargo_args[j].clone());
                                assert(strs(p.cargo_args@).take(j as int + 1) =~= strs(
                                    p.cargo_args@,
                                ).take(j as int).push(p.cargo_args@[j as int]@));
                                assert(strs(cargo_args@) =~= strs(entry.1.cargo_args@) + strs(
                                    p.cargo_args@,
                                ).take(j as int + 1));
                                j += 1;
                            }
                            assert(strs(p.cargo_args@).take(n2 as int) =~= strs(p.cargo_args@));
                        },
                        None => {
                            assert(strs(cargo_args@) =~= strs(entry.1.cargo_args@) + Seq::empty());
                        },
                    },
                    None => {
                        assert(strs(cargo_args@) =~= strs(entry.1.cargo_args@) + Seq::empty());
                    },
                }
                let binary = match &entry.1.binary {
                    Some(b) => b.clone(),
                    None => entry.0.clone(),
                };
                described.push(
                    Process {
                        name: entry.0.clone(),
                        binary,
                        state: ProcessState::Stopped,
                        pid: None,
                        args: clone_strings(&entry.1.args),
                        cargo_args,
                        env: crate::common::clone_pairs(&entry.1.env),
                    },
                );
                i += 1;
            }
            assert(procs(described@) =~= described_processes(*config, bins(binaries@)));
        },
        None => {
            let n = binaries.len();
            let mut i: usize = 0;
            while i < n
                invariant
                    n == binaries.len(),
                    0 <= i <= n,
                    described.len() == i,
                    forall|k: int|
                        0 <= k < i ==> (#[trigger] described@[k])@ == fresh_process(
                            binaries@[k]@.0,
                            binaries@[k]@.0,
                        ),
                decreases n - i,
            {
                described.push(Process::new(binaries[i].name(), binaries[i].name()));
                i += 1;
            }
            assert(procs(described@) =~= described_processes(*config, bins(binaries@)));
        },
    }
    let ghost base = procs(described@);
    let mut out: Vec<Process> = Vec::new();
    let n = described.len();
    let mut i: usize = 0;
    while i < n
        invariant
            n == described.len(),
            base == procs(described@),
            0 <= i <= n,
            out.len() == i,
            forall|k: int|
                0 <= k < i ==> (#[trigger] out@[k])@ == carry_over(base[k], procs(previous@)),
        decreases n - i,
    {
        let mut p = described[i].duplicate();
        assert(p@ == base[i as int]);
        match find_previous(previous, p.name.as_str()) {
            Some(at) => {
                p.pid = previous[at].pid;
                p.state = previous[at].state;
            },
            None => {},
        }
        out.push(p);
        i += 1;
    }
    assert(procs(out@) =~= rebuilt_processes(*config, bins(binaries@), procs(previous@)));
    out
}

/// Whether one of the watched files is newer than the last refresh: the
/// age of its last change, in seconds, is below the seconds that have
/// gone by since that refresh.
pub open spec fn has_newer(ages: Seq<u64>, elapsed: u64) -> bool {
    exists|i: int| 0 <= i < ages.len() && #[trigger] ages[i] < elapsed
}

/// Whether one of the watched files, whose ages in seconds are `ages`, was
/// changed after the last refresh, which lies `elapsed` seconds back.
pub fn needs_to_refresh(ages: &Vec<u64>, elapsed: u64) -> (r: bool)
    ensures
        r == has_newer(ages@, elapsed),
{
    let n = ages.len();
    let mut i: usize = 0;
    while i < n
        invariant
            n == ages.len(),
            0 <= i <= n,
            forall|j: int| 0 <= j < i ==> !(#[trigger] ages@[j] < elapsed),
        decreases n - i,
    {
        if ages[i] < elapsed {
            return true;
        }
        i += 1;
    }
    false
}

/// The seconds from `since`, or from the epoch where nothing was recorded,
/// to `now`: none where `now` is the earlier.
pub open spec fn elapsed_seconds(since: Option<i64>, now: i64) -> int {
    let start: int = match since {
        Some(date) => date as int,
        None => 0,
    };
    if now - start < 0 {
        0
    } else if now - start > i64::MAX {
        i64::MAX as int
    } else {
        now - start
    }
}

/// The seconds that have gone by between `since` and `now`.
pub fn elapsed_since(since: Option<i64>, now: i64) -> (r: u64)
    ensures
        r == elapsed_seconds(since, now),
{
    let start: i64 = match since {
        Some(date) => date,
        None => 0,
    };
    if now < start {
        0
    } else if start >= 0 {
        (now - start) as u64
    } else if now < 0 {
        (now - start) as u64
    } else {
        let back: u64 = (-(start + 1)) as u64 + 1;
        let total: u64 = now as u64 + back;
        if total > i64::MAX as u64 {
            i64::MAX as u64
        } else {
            total
        }
    }
}

/// The handle and state of the last task labelled `name`.
pub open spec fn last_task(tasks: Seq<(Seq<char>, usize, TaskStatus)>, name: Seq<char>) -> Option<
    (usize, TaskStatus),
>
    decreases tasks.len(),
{
    if tasks.len() == 0 {
        None
    } else if tasks.last().0 == name {
        Some((tasks.last().1, tasks.last().2))
    } else {
        last_task(tasks.drop_last(), name)
    }
}

/// The handle and state that a process called `name` has once it is
/// brought in line with the scheduler: those of the task that the
/// scheduler runs under its name, or, where there is none, no handle and
/// `Stopped`.
pub open spec fn runtime_of(tasks: Seq<(Seq<char>, usize, TaskStatus)>, name: Seq<char>) -> (
    Option<Pid>,
    ProcessState,
) {
    match last_task(tasks, name) {
        Some(t) => (Some(t.0 as Pid), state_of_task(t.1)),
        None => (None, ProcessState::Stopped),
    }
}

/// A process brought in line with the scheduler.
pub open spec fn reconciled_process(
    p: ProcessView,
    tasks: Seq<(Seq<char>, usize, TaskStatus)>,
) -> ProcessView {
    ProcessView { pid: runtime_of(tasks, p.name).0, state: runtime_of(tasks, p.name).1, ..p }
}

/// Every process brought in line with the scheduler.
pub open spec fn reconciled(
    ps: Seq<ProcessView>,
    tasks: Seq<(Seq<char>, usize, TaskStatus)>,
) -> Seq<ProcessView> {
    ps.map_values(|p: ProcessView| reconciled_process(p, tasks))
}

/// The first process from position `from` on whose task has a handle that
/// the store cannot hold.
pub open spec fn first_unfit(
    ps: Seq<ProcessView>,
    tasks: Seq<(Seq<char>, usize, TaskStatus)>,
    from: int,
) -> Option<int>
    decreases ps.len() - from,
{
    if from < 0 || from >= ps.len() {
        None
    } else if last_task(tasks, ps[from].name) matches Some(t) && t.0 > i32::MAX {
        Some(from)
    } else {
        first_unfit(ps, tasks, from + 1)
    }
}

/// The position of the last task labelled `name`.
fn find_last_task(tasks: &Vec<ScheduledTask>, name: &str) -> (r: Option<usize>)
    ensures
        match r {
            Some(i) => i < tasks.len() && last_task(tasks_view(tasks@), name@) == Some(
                (tasks@[i as int].id, tasks@[i as int].status),
            ),
            None => last_task(tasks_view(tasks@), name@) is None,
        },
{
    let ghost all = tasks_view(tasks@);
    let mut i: usize = tasks.len();
    assert(all.take(i as int) =~= all);
    while i > 0
        invariant
            all == tasks_view(tasks@),
            0 <= i <= tasks.len(),
            last_task(all, name@) == last_task(all.take(i as int), name@),
        decreases i,
    {
        i -= 1;
        assert(all.take(i as int + 1).last() == tasks@[i as int]@);
        assert(all.take(i as int + 1).drop_last() =~= all.take(i as int));
        if str_eq(tasks[i].label.as_str(), name) {
            return Some(i);
        }
    }
    None
}

/// The handle and state that each of `processes` gets from the tasks of
/// the scheduler. Where a handle is too large for the store, the error
/// `TryFromInt`.
pub fn reconcile(processes: &Vec<Process>, tasks: &Vec<ScheduledTask>) -> (r: Result<
    Vec<(Option<Pid>, ProcessState)>,
    Error,
>)
    ensures
        match first_unfit(procs(processes@), tasks_view(tasks@), 0) {
            Some(_) => r is Err && r->Err_0@ == plain(InnerErrorView::TryFromInt),
            None => {
                &&& r is Ok
                &&& r->Ok_0@.len() == processes@.len()
                &&& forall|k: int|
                    0 <= k < processes@.len() ==> (#[trigger] r->Ok_0@[k]) == runtime_of(
                        tasks_view(tasks@),
                        processes@[k]@.name,
                    )
            },
        },
{
    let ghost ps = procs(processes@);
    let ghost all = tasks_view(tasks@);
    let mut out: Vec<(Option<Pid>, ProcessState)> = Vec::new();
    let n = processes.len();
    let mut i: usize = 0;
    while i < n
        invariant
            n == processes.len(),
            ps == procs(processes@),
            all == tasks_view(tasks@),
            0 <= i <= n,
            out.len() == i,
            first_unfit(ps, all, 0) == first_unfit(ps, all, i as int),
            forall|k: int|
                0 <= k < i ==> (#[trigger] out@[k]) == runtime_of(all, processes@[k]@.name),
        decreases n - i,
    {
        assert(ps[i as int] == processes@[i as int]@);
        match find_last_task(tasks, processes[i].name.as_str()) {
            Some(at) => {
                let id = tasks[at].id;
                if id > i32::MAX as usize {
                    return Err(Error::new(InnerError::TryFromInt));
                }
                let status = tasks[at].status;
                out.push((Some(id as Pid), ProcessState::from(status)));
            },
            None => {
                out.push((None, ProcessState::Stopped));
            },
        }
        i += 1;
    }
    Ok(out)
}

/// Once the processes are in line with the scheduler, each that runs has a
/// handle.
pub proof fn lemma_reconciled_running_has_handle(
    ps: Seq<ProcessView>,
    tasks: Seq<(Seq<char>, usize, TaskStatus)>,
)
    ensures
        forall|k: int|
            0 <= k < ps.len() ==> ((#[trigger] reconciled(ps, tasks)[k]).state
                == ProcessState::Running ==> reconciled(ps, tasks)[k].pid is Some),
{
}

/// Whether no task of the scheduler that carries the name of one of the
/// processes is paused or done.
pub open spec fn no_finished_task(
    ps: Seq<ProcessView>,
    tasks: Seq<(Seq<char>, usize, TaskStatus)>,
) -> bool {
    forall|k: int|
        0 <= k < ps.len() ==> (last_task(tasks, (#[trigger] ps[k]).name) matches Some(t) ==> t.1
            != TaskStatus::Paused && t.1 != TaskStatus::Done)
}

/// Once the processes are in line with the scheduler, each that is stopped
/// has no handle, provided that the scheduler holds no paused or finished
/// task under the name of a process: such a task leaves its process
/// stopped with the handle of the task.
pub proof fn lemma_reconciled_stopped_has_no_handle(
    ps: Seq<ProcessView>,
    tasks: Seq<(Seq<char>, usize, TaskStatus)>,
)
    requires
        no_finished_task(ps, tasks),
    ensures
        forall|k: int|
            0 <= k < ps.len() ==> ((#[trigger] reconciled(ps, tasks)[k]).state
                == ProcessState::Stopped ==> reconciled(ps, tasks)[k].pid is None),
{
    assert forall|k: int| 0 <= k < ps.len() implies ((#[trigger] reconciled(ps, tasks)[k]).state
        == ProcessState::Stopped ==> reconciled(ps, tasks)[k].pid is None) by {
        let p = ps[k];
        assert(reconciled(ps, tasks)[k] == reconciled_process(p, tasks));
    }
}

/// The process that is found under a name is one of the processes and has
/// that name; none is found exactly where no process has the name.
pub proof fn lemma_find_process(ps: Seq<ProcessView>, name: Seq<char>)
    ensures
        find_process(ps, name) matches Some(q) ==> ps.contains(q) && q.name == name,
        find_process(ps, name) is None <==> !process_names(ps).contains(name),
    decreases ps.len(),
{
    if ps.len() > 0 {
        let rest = ps.drop_first();
        lemma_find_process(rest, name);
        assert(process_names(ps)[0] == ps[0].name);
        if ps[0].name == name {
            assert(ps.contains(ps[0]));
            assert(process_names(ps).contains(name));
        } else {
            if find_process(rest, name) is Some {
                let q = find_process(rest, name)->0;
                let i = choose|i: int| 0 <= i < rest.len() && rest[i] == q;
                assert(ps[i + 1] == q);
            }
            if process_names(rest).contains(name) {
                let i = choose|i: int|
                    0 <= i < process_names(rest).len() && process_names(rest)[i] == name;
                assert(process_names(ps)[i + 1] == name);
            }
            if process_names(ps).contains(name) {
                let i = choose|i: int|
                    0 <= i < process_names(ps).len() && process_names(ps)[i] == name;
                assert(process_names(rest)[i - 1] == name);
            }
        }
    }
}

/// Whether the handle and the state of `p` are those of a fresh process,
/// or those of the one of `previous` that has its name.
pub open spec fn runtime_from(p: ProcessView, previous: Seq<ProcessView>) -> bool {
    ||| p.state == ProcessState::Stopped && p.pid is None
    ||| exists|j: int|
        0 <= j < previous.len() && p.name == (#[trigger] previous[j]).name && p.pid
            == previous[j].pid && p.state == previous[j].state
}

/// A rebuilt process has its name, binary, arguments, flags and
/// environment from what describes it, and its handle and state from the
/// stored process of its name, or, where there is none, it is stopped and
/// without handle.
pub proof fn lemma_rebuilt_runtime(
    config: Option<ConfigFile>,
    binaries: Seq<(Seq<char>, Seq<char>)>,
    previous: Seq<ProcessView>,
)
    ensures
        rebuilt_processes(config, binaries, previous).len() == described_processes(
            config,
            binaries,
        ).len(),
        forall|k: int|
            0 <= k < rebuilt_processes(config, binaries, previous).len() ==> runtime_from(
                #[trigger] rebuilt_processes(config, binaries, previous)[k],
                previous,
            ),
{
    let described = described_processes(config, binaries);
    let rebuilt = rebuilt_processes(config, binaries, previous);
    assert forall|k: int| 0 <= k < rebuilt.len() implies runtime_from(
        #[trigger] rebuilt[k],
        previous,
    ) by {
        let p = described[k];
        assert(rebuilt[k] == carry_over(p, previous));
        assert(p.state == ProcessState::Stopped && p.pid is None);
        lemma_find_process(previous, p.name);
        if find_process(previous, p.name) is Some {
            let q = find_process(previous, p.name)->0;
            let j = choose|j: int| 0 <= j < previous.len() && previous[j] == q;
            assert(previous[j].pid == rebuilt[k].pid);
        }
    }
}

/// Whether the scheduler holds under `name` a task with a handle that the
/// store cannot hold.
pub open spec fn has_unfit_task(tasks: Seq<(Seq<char>, usize, TaskStatus)>, name: Seq<char>) -> bool {
    last_task(tasks, name) matches Some(t) && t.0 > i32::MAX
}

/// No process has a task with a handle that does not fit exactly where the
/// search for one finds none.
pub proof fn lemma_first_unfit(
    ps: Seq<ProcessView>,
    tasks: Seq<(Seq<char>, usize, TaskStatus)>,
    from: int,
)
    requires
        0 <= from,
    ensures
        first_unfit(ps, tasks, from) is None <==> forall|k: int|
            from <= k < ps.len() ==> !has_unfit_task(tasks, (#[trigger] ps[k]).name),
    decreases ps.len() - from,
{
    if from < ps.len() {
        lemma_first_unfit(ps, tasks, from + 1);
    }
}

/// Looking a process up among those brought in line with the scheduler
/// finds the process that is found among the stored ones, brought in line.
pub proof fn lemma_find_reconciled(
    ps: Seq<ProcessView>,
    tasks: Seq<(Seq<char>, usize, TaskStatus)>,
    name: Seq<char>,
)
    ensures
        find_process(reconciled(ps, tasks), name) == match find_process(ps, name) {
            Some(q) => Some(reconciled_process(q, tasks)),
            None => None,
        },
    decreases ps.len(),
{
    if ps.len() > 0 {
        lemma_find_reconciled(ps.drop_first(), tasks, name);
        assert(reconciled(ps, tasks).drop_first() =~= reconciled(ps.drop_first(), tasks));
    }
}

/// Whether `x` is a process of one of the stacks `reached`.
pub open spec fn declared_among(
    table: Seq<(Seq<char>, ConfigStackView)>,
    reached: Seq<Seq<char>>,
    x: Seq<char>,
) -> bool {
    exists|k: int|
        0 <= k < reached.len() && lookup_stack(table, #[trigger] reached[k]) is Some
            && lookup_stack(table, reached[k])->0.processes.contains(x)
}

/// What a walk that ends well has gathered: a process is inherited exactly
/// where it was inherited before or is declared on a stack that the walk
/// has reached. No process is inherited twice.
pub proof fn lemma_walk_gathers(
    level: nat,
    names: Seq<Seq<char>>,
    table: Seq<(Seq<char>, ConfigStackView)>,
    browsed: Seq<Seq<char>>,
    inherited: Seq<Seq<char>>,
)
    requires
        walk(level, names, table, browsed, inherited) is Done,
    ensures
        forall|x: Seq<char>|
            walk(level, names, table, browsed, inherited)->inherited.contains(x)
                <==> inherited.contains(x) || declared_among(
                table,
                visited(level, names, table, browsed, inherited),
                x,
            ),
        inherited.no_duplicates() ==> walk(
            level,
            names,
            table,
            browsed,
            inherited,
        )->inherited.no_duplicates(),
    decreases MAX_RECURSION_LEVEL + 1 - level, names.len(),
{
    let end = walk(level, names, table, browsed, inherited)->inherited;
    let all = visited(level, names, table, browsed, inherited);
    if names.len() == 0 {
        assert forall|x: Seq<char>| !declared_among(table, all, x) by {}
    } else {
        let stack = lookup_stack(table, names[0])->0;
        let first = browsed.push(names[0]);
        let gathered = union_names(inherited, stack.processes);
        let inner = walk(level + 1, stack.inherits, table, first, gathered);
        let rest = names.drop_first();
        lemma_walk_gathers(level + 1, stack.inherits, table, first, gathered);
        lemma_walk_gathers(level, rest, table, browsed, inner->inherited);
        let below = visited(level + 1, stack.inherits, table, first, gathered);
        let after = visited(level, rest, table, browsed, inner->inherited);
        assert(all == seq![names[0]] + below + after);
        assert forall|x: Seq<char>|
            end.contains(x) <==> inherited.contains(x) || declared_among(table, all, x) by {
            lemma_union_names_contains(inherited, stack.processes, x);
            if declared_among(table, all, x) {
                let k = choose|k: int|
                    0 <= k < all.len() && lookup_stack(table, #[trigger] all[k]) is Some
                        && lookup_stack(table, all[k])->0.processes.contains(x);
                if k == 0 {
                } else if k < 1 + below.len() {
                    assert(below[k - 1] == all[k]);
                    assert(declared_among(table, below, x));
                } else {
                    assert(after[k - 1 - below.len()] == all[k]);
                    assert(declared_among(table, after, x));
                }
            }
            if stack.processes.contains(x) {
                assert(all[0] == names[0]);
                assert(declared_among(table, all, x));
            }
            if declared_among(table, below, x) {
                let k = choose|k: int|
                    0 <= k < below.len() && lookup_stack(table, #[trigger] below[k]) is Some
                        && lookup_stack(table, below[k])->0.processes.contains(x);
                assert(all[k + 1] == below[k]);
                assert(declared_among(table, all, x));
            }
            if declared_among(table, after, x) {
                let k = choose|k: int|
                    0 <= k < after.len() && lookup_stack(table, #[trigger] after[k]) is Some
                        && lookup_stack(table, after[k])->0.processes.contains(x);
                assert(all[k + 1 + below.len()] == after[k]);
                assert(declared_among(table, all, x));
            }
        }
        if inherited.no_duplicates() {
            crate::text::lemma_union_names_distinct(inherited, stack.processes);
        }
    }
}

/// Whether the stack `t` is one of `names` or an ancestor of one of them
/// at most `depth` levels above.
pub open spec fn reaches(
    table: Seq<(Seq<char>, ConfigStackView)>,
    names: Seq<Seq<char>>,
    t: Seq<char>,
    depth: nat,
) -> bool
    decreases depth,
{
    names.contains(t) || (depth > 0 && exists|i: int|
        0 <= i < names.len() && lookup_stack(table, #[trigger] names[i]) is Some && reaches(
            table,
            lookup_stack(table, names[i])->0.inherits,
            t,
            (depth - 1) as nat,
        ))
}

/// A walk that ends well has reached exactly the stacks it was given and
/// their ancestors.
pub proof fn lemma_walk_visits(
    level: nat,
    names: Seq<Seq<char>>,
    table: Seq<(Seq<char>, ConfigStackView)>,
    browsed: Seq<Seq<char>>,
    inherited: Seq<Seq<char>>,
    t: Seq<char>,
)
    requires
        walk(level, names, table, browsed, inherited) is Done,
    ensures
        level <= MAX_RECURSION_LEVEL,
        visited(level, names, table, browsed, inherited).contains(t) <==> reaches(
            table,
            names,
            t,
            (MAX_RECURSION_LEVEL - level) as nat,
        ),
    decreases MAX_RECURSION_LEVEL + 1 - level, names.len(),
{
    let depth = (MAX_RECURSION_LEVEL - level) as nat;
    let all = visited(level, names, table, browsed, inherited);
    if names.len() == 0 {
        assert(!reaches(table, names, t, depth));
    } else {
        let stack = lookup_stack(table, names[0])->0;
        let first = browsed.push(names[0]);
        let gathered = union_names(inherited, stack.processes);
        let inner = walk(level + 1, stack.inherits, table, first, gathered);
        let rest = names.drop_first();
        lemma_walk_visits(level + 1, stack.inherits, table, first, gathered, t);
        lemma_walk_visits(level, rest, table, browsed, inner->inherited, t);
        let below = visited(level + 1, stack.inherits, table, first, gathered);
        let after = visited(level, rest, table, browsed, inner->inherited);
        assert(all == seq![names[0]] + below + after);
        assert(depth > 0);
        if all.contains(t) {
            let k = choose|k: int| 0 <= k < all.len() && all[k] == t;
            if k == 0 {
                assert(names.contains(t));
            } else if k < 1 + below.len() {
                assert(below[k - 1] == t);
                assert(below.contains(t));
                assert(reaches(table, stack.inherits, t, (depth - 1) as nat));
                assert(lookup_stack(table, names[0]) is Some);
            } else {
                assert(after[k - 1 - below.len()] == t);
                assert(after.contains(t));
                assert(reaches(table, rest, t, depth));
                if rest.contains(t) {
                    let i = choose|i: int| 0 <= i < rest.len() && rest[i] == t;
                    assert(names[i + 1] == t);
                } else {
                    let i = choose|i: int|
                        0 <= i < rest.len() && lookup_stack(table, #[trigger] rest[i]) is Some
                            && reaches(
                            table,
                            lookup_stack(table, rest[i])->0.inherits,
                            t,
                            (depth - 1) as nat,
                        );
                    assert(names[i + 1] == rest[i]);
                }
            }
        }
        if reaches(table, names, t, depth) {
            if names.contains(t) {
                let i = choose|i: int| 0 <= i < names.len() && names[i] == t;
                if i == 0 {
                    assert(all[0] == t);
                } else {
                    assert(rest[i - 1] == t);
                    assert(rest.contains(t));
                    assert(after.contains(t));
                    let k = choose|k: int| 0 <= k < after.len() && after[k] == t;
                    assert(all[k + 1 + below.len()] == t);
                }
            } else {
                let i = choose|i: int|
                    0 <= i < names.len() && lookup_stack(table, #[trigger] names[i]) is Some
                        && reaches(
                        table,
                        lookup_stack(table, names[i])->0.inherits,
                        t,
                        (depth - 1) as nat,
                    );
                if i == 0 {
                    assert(below.contains(t));
                    let k = choose|k: int| 0 <= k < below.len() && below[k] == t;
                    assert(all[k + 1] == t);
                } else {
                    assert(rest[i - 1] == names[i]);
                    assert(reaches(table, rest, t, depth));
                    assert(after.contains(t));
                    let k = choose|k: int| 0 <= k < after.len() && after[k] == t;
                    assert(all[k + 1 + below.len()] == t);
                }
            }
        }
    }
}

} // verus!
