//! Starting processes: the build that comes first, the command line and
//! environment of each launch, and what the store records on the way.

use crate::command::cargo::{build_command, Cargo};
use crate::common::{pairs, process_names, procs, Process, ProcessState, ProcessView};
use crate::database::{with_pid, with_state, StoreView};
use crate::error::{plain, Error, InnerError, InnerErrorView};
use crate::state::{selection, State, StateView};
use crate::text::{chars_of, join_space, lemma_strs_push, str_eq, string_of, strs};
use crate::Pid;
use vstd::prelude::*;
use vstd::string::StringExecFns;

verus! {

/// Which processes to start.
#[derive(Debug, PartialEq, Eq)]
pub struct StartArgs {
    pub processes: Vec<String>,
}

/// Whether a character may stand between the braces of a placeholder:
/// letters and digits of ASCII and `-`, `_`, `:`, `/`, `.`, `[`, `]`.
pub open spec fn is_placeholder_char(c: char) -> bool {
    ('a' <= c && c <= 'z') || ('A' <= c && c <= 'Z') || ('0' <= c && c <= '9') || c == '-' || c
        == '_' || c == ':' || c == '/' || c == '.' || c == '[' || c == ']'
}

/// How many placeholder characters stand in a row from `i` on.
pub open spec fn run_len(s: Seq<char>, i: int) -> nat
    decreases s.len() - i,
{
    if 0 <= i < s.len() && is_placeholder_char(s[i]) {
        1 + run_len(s, i + 1)
    } else {
        0
    }
}

/// Where the run of placeholder characters that starts at `i` ends.
pub open spec fn run_end(s: Seq<char>, i: int) -> int {
    i + run_len(s, i)
}

/// Whether a placeholder starts at `i`: a dollar sign, an opening brace,
/// placeholder characters as far as they go, and a closing brace.
pub open spec fn placeholder_at(s: Seq<char>, i: int) -> bool {
    &&& 0 <= i
    &&& i + 1 < s.len()
    &&& s[i] == '$'
    &&& s[i + 1] == '{'
    &&& run_end(s, i + 2) < s.len()
    &&& s[run_end(s, i + 2)] == '}'
}

/// The first position at or after `i` at which `:-` stands in `name`, or
/// the length of `name` where it stands nowhere.
pub open spec fn find_separator(name: Seq<char>, i: int) -> int
    decreases name.len() - i,
{
    if i < 0 || i >= name.len() {
        name.len() as int
    } else if i + 1 < name.len() && name[i] == ':' && name[i + 1] == '-' {
        i
    } else {
        find_separator(name, i + 1)
    }
}

/// The name of the variable of a placeholder: what stands before the first
/// `:-`.
pub open spec fn variable_of(name: Seq<char>) -> Seq<char> {
    name.take(find_separator(name, 0))
}

/// The default of a placeholder: what stands between the first `:-` and
/// the next, or the end.
pub open spec fn default_of(name: Seq<char>) -> Option<Seq<char>> {
    let first = find_separator(name, 0);
    if first >= name.len() {
        None
    } else {
        Some(name.subrange(first + 2, find_separator(name, first + 2)))
    }
}

/// The value of the last entry of `env` under `key`.
pub open spec fn env_get(env: Seq<(Seq<char>, Seq<char>)>, key: Seq<char>) -> Option<Seq<char>>
    decreases env.len(),
{
    if env.len() == 0 {
        None
    } else if env.last().0 == key {
        Some(env.last().1)
    } else {
        env_get(env.drop_last(), key)
    }
}

/// What stands for the placeholder with `name` between its braces: the
/// value of the variable; where the variable is not set or empty, the
/// default; where there is no default, nothing.
pub open spec fn placeholder_value(name: Seq<char>, env: Seq<(Seq<char>, Seq<char>)>) -> Seq<
    char,
> {
    match env_get(env, variable_of(name)) {
        Some(v) if v.len() > 0 => v,
        _ => match default_of(name) {
            Some(d) => d,
            None => Seq::empty(),
        },
    }
}

/// The text from position `i` on with every placeholder replaced by its
/// value; all else stays as it is.
pub open spec fn expand_from(s: Seq<char>, env: Seq<(Seq<char>, Seq<char>)>, i: int) -> Seq<char>
    decreases s.len() - i,
{
    if i < 0 || i >= s.len() {
        Seq::empty()
    } else if placeholder_at(s, i) {
        let end = run_end(s, i + 2);
        placeholder_value(s.subrange(i + 2, end), env) + expand_from(s, env, end + 1)
    } else {
        seq![s[i]] + expand_from(s, env, i + 1)
    }
}

/// The text with every placeholder replaced by its value.
pub open spec fn expanded(s: Seq<char>, env: Seq<(Seq<char>, Seq<char>)>) -> Seq<char> {
    expand_from(s, env, 0)
}

/// A separator that is found stands within the name, with its second
/// character.
pub proof fn lemma_find_separator_bounds(name: Seq<char>, i: int)
    requires
        0 <= i,
    ensures
        find_separator(name, i) <= name.len(),
        i <= name.len() ==> i <= find_separator(name, i),
        find_separator(name, i) < name.len() ==> find_separator(name, i) + 2 <= name.len(),
    decreases name.len() - i,
{
    if i < name.len() && !(i + 1 < name.len() && name[i] == ':' && name[i + 1] == '-') {
        lemma_find_separator_bounds(name, i + 1);
    }
}

fn is_placeholder(c: char) -> (r: bool)
    ensures
        r == is_placeholder_char(c),
{
    ('a' <= c && c <= 'z') || ('A' <= c && c <= 'Z') || ('0' <= c && c <= '9') || c == '-' || c
        == '_' || c == ':' || c == '/' || c == '.' || c == '[' || c == ']'
}

/// Where the run of placeholder characters that starts at `i` ends.
fn scan_run(s: &Vec<char>, i: usize) -> (r: usize)
    requires
        i <= s.len(),
    ensures
        r == run_end(s@, i as int),
        i <= r <= s.len(),
{
    let mut k: usize = i;
    while k < s.len() && is_placeholder(s[k])
        invariant
            i <= k <= s.len(),
            run_end(s@, i as int) == run_end(s@, k as int),
        decreases s.len() - k,
    {
        k += 1;
    }
    k
}

/// The first position at or after `i` at which `:-` stands.
fn scan_separator(name: &Vec<char>, i: usize) -> (r: usize)
    ensures
        r == find_separator(name@, i as int),
        r <= name.len(),
        i <= name.len() ==> i <= r,
{
    let mut k: usize = i;
    while k < name.len() && !(k + 1 < name.len() && name[k] == ':' && name[k + 1] == '-')
        invariant
            i <= k,
            find_separator(name@, i as int) == find_separator(name@, k as int),
        decreases name.len() - k,
    {
        k += 1;
    }
    if k >= name.len() {
        name.len()
    } else {
        k
    }
}

/// The value of the last entry of `env` under `key`.
fn lookup(env: &Vec<(String, String)>, key: &str) -> (r: Option<usize>)
    ensures
        match r {
            Some(at) => at < env.len() && env_get(pairs(env@), key@) == Some(env@[at as int].1@),
            None => env_get(pairs(env@), key@) is None,
        },
{
    let ghost all = pairs(env@);
    let mut i: usize = env.len();
    assert(all.take(i as int) =~= all);
    while i > 0
        invariant
            all == pairs(env@),
            0 <= i <= env.len(),
            env_get(all, key@) == env_get(all.take(i as int), key@),
        decreases i,
    {
        i -= 1;
        assert(all.take(i as int + 1).last() == (env@[i as int].0@, env@[i as int].1@));
        assert(all.take(i as int + 1).drop_last() =~= all.take(i as int));
        if str_eq(env[i].0.as_str(), key) {
            return Some(i);
        }
    }
    None
}

/// The value of the placeholder with `name` between its braces.
fn value_of(name: &Vec<char>, env: &Vec<(String, String)>) -> (r: String)
    ensures
        r@ == placeholder_value(name@, pairs(env@)),
{
    let first = scan_separator(name, 0);
    let variable = string_of(name, 0, first);
    assert(name@.subrange(0, first as int) =~= name@.take(first as int));
    match lookup(env, variable.as_str()) {
        Some(at) => {
            if env[at].1.as_str().unicode_len() > 0 {
                return env[at].1.clone();
            }
        },
        None => {},
    }
    if first >= name.len() {
        String::new()
    } else {
        proof {
            lemma_find_separator_bounds(name@, 0);
            lemma_find_separator_bounds(name@, first as int + 2);
        }
        let next = scan_separator(name, first + 2);
        string_of(name, first + 2, next)
    }
}

/// Replaces in `value` each placeholder `${NAME}` by the value of `NAME`
/// in `env`, and each `${NAME:-default}` by that value or, where `NAME` is
/// not set or empty, by `default`. Where `env` sets a name more than once
/// the last entry counts. All else is copied as it stands.
pub fn envsubst(value: &str, env: &Vec<(String, String)>) -> (r: String)
    ensures
        r@ == expanded(value@, pairs(env@)),
{
    let s = chars_of(value);
    let n = s.len();
    let mut r = String::new();
    let mut i: usize = 0;
    while i < n
        invariant
            n == s.len(),
            s@ == value@,
            0 <= i <= n,
            r@ + expand_from(s@, pairs(env@), i as int) == expand_from(s@, pairs(env@), 0),
        decreases n - i,
    {
        let ghost before = r@;
        let mut replaced = false;
        if s[i] == '$' && i + 1 < n && s[i + 1] == '{' {
            let end = scan_run(&s, i + 2);
            if end < n && s[end] == '}' {
                let mut name: Vec<char> = Vec::new();
                let mut k: usize = i + 2;
                while k < end
                    invariant
                        i + 2 <= k <= end <= n,
                        n == s.len(),
                        name@ == s@.subrange(i + 2, k as int),
                    decreases end - k,
                {
                    name.push(s[k]);
                    assert(s@.subrange(i + 2, k as int + 1) =~= s@.subrange(i + 2, k as int).push(
                        s@[k as int],
                    ));
                    k += 1;
                }
                let v = value_of(&name, env);
                r.append(v.as_str());
                assert(r@ + expand_from(s@, pairs(env@), end + 1) =~= before + expand_from(
                    s@,
                    pairs(env@),
                    i as int,
                ));
                i = end + 1;
                replaced = true;
            }
        }
        if !replaced {
            r.push(s[i]);
            assert(r@ + expand_from(s@, pairs(env@), i as int + 1) =~= before + expand_from(
                s@,
                pairs(env@),
                i as int,
            ));
            i += 1;
        }
    }
    assert(r@ =~= r@ + expand_from(s@, pairs(env@), n as int));
    r
}

/// The entries `env` with `key` set to `value`: in place where `key` is
/// set already, else at the end.
pub open spec fn env_set(env: Seq<(Seq<char>, Seq<char>)>, key: Seq<char>, value: Seq<char>) -> Seq<
    (Seq<char>, Seq<char>),
>
    decreases env.len(),
{
    if env.len() == 0 {
        seq![(key, value)]
    } else if env[0].0 == key {
        seq![(key, value)] + env.drop_first()
    } else {
        seq![env[0]] + env_set(env.drop_first(), key, value)
    }
}

/// The entries `base` with each entry of `more` set in its turn, so that a
/// later one overrides an earlier one.
pub open spec fn env_merge(base: Seq<(Seq<char>, Seq<char>)>, more: Seq<(Seq<char>, Seq<char>)>) -> Seq<
    (Seq<char>, Seq<char>),
>
    decreases more.len(),
{
    if more.len() == 0 {
        base
    } else {
        env_merge(env_set(base, more[0].0, more[0].1), more.drop_first())
    }
}

/// The keys of the entries, in their order.
pub open spec fn env_keys(env: Seq<(Seq<char>, Seq<char>)>) -> Seq<Seq<char>> {
    env.map_values(|e: (Seq<char>, Seq<char>)| e.0)
}

/// A key is set after `key` was set exactly where it was set before or is
/// `key`.
pub proof fn lemma_env_set_has(
    env: Seq<(Seq<char>, Seq<char>)>,
    key: Seq<char>,
    value: Seq<char>,
    k: Seq<char>,
)
    ensures
        env_keys(env_set(env, key, value)).contains(k) <==> env_keys(env).contains(k) || k == key,
    decreases env.len(),
{
    let out = env_set(env, key, value);
    if env.len() == 0 {
        assert(env_keys(out)[0] == key);
        if env_keys(out).contains(k) {
            let a = choose|a: int| 0 <= a < env_keys(out).len() && env_keys(out)[a] == k;
        }
    } else if env[0].0 == key {
        assert(env_keys(out) =~= env_keys(env));
        assert(env_keys(env)[0] == key);
    } else {
        let rest = env.drop_first();
        let put = env_set(rest, key, value);
        lemma_env_set_has(rest, key, value, k);
        assert(env_keys(out) =~= seq![env[0].0] + env_keys(put));
        assert(env_keys(rest) =~= env_keys(env).drop_first());
        assert(env_keys(env)[0] == env[0].0);
        if env_keys(out).contains(k) {
            let a = choose|a: int| 0 <= a < env_keys(out).len() && env_keys(out)[a] == k;
            if a > 0 {
                assert(env_keys(put)[a - 1] == k);
                if env_keys(rest).contains(k) {
                    let b = choose|b: int| 0 <= b < env_keys(rest).len() && env_keys(rest)[b] == k;
                    assert(env_keys(env)[b + 1] == k);
                }
            }
        }
        if env_keys(env).contains(k) || k == key {
            if k == env[0].0 {
                assert(env_keys(out)[0] == k);
            } else {
                if env_keys(env).contains(k) {
                    let b = choose|b: int| 0 <= b < env_keys(env).len() && env_keys(env)[b] == k;
                    assert(env_keys(rest)[b - 1] == k);
                }
                let a = choose|a: int| 0 <= a < env_keys(put).len() && env_keys(put)[a] == k;
                assert(env_keys(out)[a + 1] == k);
            }
        }
    }
}

/// Setting a key in entries that hold no key twice gives entries that hold
/// no key twice.
pub proof fn lemma_env_set_keys(env: Seq<(Seq<char>, Seq<char>)>, key: Seq<char>, value: Seq<char>)
    requires
        env_keys(env).no_duplicates(),
    ensures
        env_keys(env_set(env, key, value)).no_duplicates(),
    decreases env.len(),
{
    let out = env_set(env, key, value);
    if env.len() == 0 {
    } else if env[0].0 == key {
        assert(env_keys(out) =~= env_keys(env));
    } else {
        let rest = env.drop_first();
        let put = env_set(rest, key, value);
        assert(env_keys(rest) =~= env_keys(env).drop_first());
        assert(env_keys(env)[0] == env[0].0);
        assert(env_keys(rest).no_duplicates()) by {
            assert forall|a: int, b: int|
                0 <= a < env_keys(rest).len() && 0 <= b < env_keys(rest).len() && a
                    != b implies env_keys(rest)[a] != env_keys(rest)[b] by {
                assert(env_keys(rest)[a] == env_keys(env)[a + 1]);
                assert(env_keys(rest)[b] == env_keys(env)[b + 1]);
            }
        }
        lemma_env_set_keys(rest, key, value);
        lemma_env_set_has(rest, key, value, env[0].0);
        assert(env_keys(out) =~= seq![env[0].0] + env_keys(put));
        assert(!env_keys(rest).contains(env[0].0)) by {
            if env_keys(rest).contains(env[0].0) {
                let a = choose|a: int| 0 <= a < env_keys(rest).len() && env_keys(rest)[a] == env[0].0;
                assert(env_keys(env)[a + 1] == env_keys(env)[0]);
            }
        }
        assert forall|a: int, b: int|
            0 <= a < env_keys(out).len() && 0 <= b < env_keys(out).len() && a != b implies env_keys(
            out,
        )[a] != env_keys(out)[b] by {
            if a > 0 {
                assert(env_keys(out)[a] == env_keys(put)[a - 1]);
                assert(env_keys(put).contains(env_keys(out)[a]));
            }
            if b > 0 {
                assert(env_keys(out)[b] == env_keys(put)[b - 1]);
                assert(env_keys(put).contains(env_keys(out)[b]));
            }
        }
    }
}

/// Merging entries into entries that hold no key twice gives entries that
/// hold no key twice.
pub proof fn lemma_env_merge_keys(base: Seq<(Seq<char>, Seq<char>)>, more: Seq<(Seq<char>, Seq<char>)>)
    requires
        env_keys(base).no_duplicates(),
    ensures
        env_keys(env_merge(base, more)).no_duplicates(),
    decreases more.len(),
{
    if more.len() > 0 {
        lemma_env_set_keys(base, more[0].0, more[0].1);
        lemma_env_merge_keys(env_set(base, more[0].0, more[0].1), more.drop_first());
    }
}

/// The environment of a launch: the entries of the environment file, then
/// those of the process over them.
pub open spec fn launch_env(
    dotenv: Seq<(Seq<char>, Seq<char>)>,
    own: Seq<(Seq<char>, Seq<char>)>,
) -> Seq<(Seq<char>, Seq<char>)> {
    env_merge(env_merge(Seq::empty(), dotenv), own)
}

/// The command line of a launch: the path of the binary under
/// `./target/debug/`, then each argument with its placeholders replaced,
/// with one space between each two.
pub open spec fn launch_command(p: ProcessView, env: Seq<(Seq<char>, Seq<char>)>) -> Seq<char> {
    join_space(
        seq!["./target/debug/"@ + p.binary] + p.args.map_values(|a: Seq<char>| expanded(a, env)),
    )
}

/// The processes with each of those called by one of `names` given the
/// state `state`.
pub open spec fn mark_all(ps: Seq<ProcessView>, names: Seq<Seq<char>>, state: ProcessState) -> Seq<
    ProcessView,
>
    decreases names.len(),
{
    if names.len() == 0 {
        ps
    } else {
        mark_all(with_state(ps, names[0], state), names.drop_first(), state)
    }
}

/// The processes once the one called `name` runs under the handle `pid`.
pub open spec fn mark_started(ps: Seq<ProcessView>, name: Seq<char>, pid: Pid) -> Seq<ProcessView> {
    with_state(with_pid(ps, name, Some(pid)), name, ProcessState::Running)
}

/// What is handed to the scheduler to launch one process.
#[derive(Clone, Debug, PartialEq, Eq)]
pub struct Launch {
    /// The label of the task: the name of the process.
    pub label: String,
    /// The command line.
    pub command: String,
    /// The environment, each name once.
    pub env: Vec<(String, String)>,
}

/// Sets `key` to `value` in `env`.
fn set_entry(env: &mut Vec<(String, String)>, key: &str, value: &str)
    ensures
        pairs(final(env)@) == env_set(pairs(old(env)@), key@, value@),
{
    let n = env.len();
    let ghost all = pairs(env@);
    let mut i: usize = 0;
    assert(all.skip(0) =~= all);
    assert(all.take(0) + env_set(all.skip(0), key@, value@) =~= env_set(all, key@, value@));
    while i < n
        invariant
            n == env.len(),
            all == pairs(env@),
            *env == *old(env),
            0 <= i <= n,
            all.take(i as int) + env_set(all.skip(i as int), key@, value@) == env_set(
                all,
                key@,
                value@,
            ),
        decreases n - i,
    {
        let ghost rest = all.skip(i as int);
        assert(rest[0] == (env@[i as int].0@, env@[i as int].1@));
        assert(rest.drop_first() =~= all.skip(i as int + 1));
        if str_eq(env[i].0.as_str(), key) {
            env.set(i, (key.to_owned(), value.to_owned()));
            assert(pairs(env@) =~= all.take(i as int) + (seq![(key@, value@)] + rest.drop_first()));
            return ;
        }
        assert(all.take(i as int + 1) =~= all.take(i as int) + seq![rest[0]]);
        assert(all.take(i as int + 1) + env_set(all.skip(i as int + 1), key@, value@) =~= all.take(
            i as int,
        ) + env_set(rest, key@, value@));
        i += 1;
    }
    env.push((key.to_owned(), value.to_owned()));
    assert(all.skip(n as int) =~= Seq::empty());
    assert(all.take(n as int) =~= all);
    assert(pairs(env@) =~= all + seq![(key@, value@)]);
}

/// Sets in `env` each entry of `more` in its turn.
fn merge_entries(env: &mut Vec<(String, String)>, more: &Vec<(String, String)>)
    ensures
        pairs(final(env)@) == env_merge(pairs(old(env)@), pairs(more@)),
{
    let n = more.len();
    let ghost all = pairs(more@);
    let mut i: usize = 0;
    assert(all.skip(0) =~= all);
    while i < n
        invariant
            n == more.len(),
            all == pairs(more@),
            0 <= i <= n,
            env_merge(pairs(env@), all.skip(i as int)) == env_merge(pairs(old(env)@), all),
        decreases n - i,
    {
        assert(all.skip(i as int)[0] == (more@[i as int].0@, more@[i as int].1@));
        assert(all.skip(i as int).drop_first() =~= all.skip(i as int + 1));
        set_entry(env, more[i].0.as_str(), more[i].1.as_str());
        i += 1;
    }
}

/// The operation that starts processes.
pub struct Start {
    args: StartArgs,
}

impl Start {
    /// The operation on the processes that `args` names.
    pub fn new(args: StartArgs) -> (r: Start)
        ensures
            r.names() == strs(args.processes@),
    {
        Start { args }
    }

    /// The names that the operation was given.
    pub closed spec fn names(&self) -> Seq<Seq<char>> {
        strs(self.args.processes@)
    }

    /// Selects the processes to start and marks each of them as building.
    /// Where the selection fails nothing changes.
    pub fn begin(&self, state: &mut State) -> (r: Result<Vec<Process>, Error>)
        requires
            old(state).wf(),
        ensures
            final(state).wf(),
            match selection(old(state)@, self.names()) {
                Ok(selected) => {
                    &&& r is Ok
                    &&& procs(r->Ok_0@) == selected
                    &&& final(state)@ == (StateView {
                        store: StoreView {
                            processes: mark_all(
                                old(state)@.store.processes,
                                process_names(selected),
                                ProcessState::Building,
                            ),
                            ..old(state)@.store
                        },
                        ..old(state)@
                    })
                },
                Err(e) => r is Err && r->Err_0@ == plain(e) && final(state)@ == old(state)@,
            },
    {
        let processes = match state.filter_processes(&self.args.processes) {
            Ok(processes) => processes,
            Err(e) => {
                return Err(e);
            },
        };
        mark(state, &processes, ProcessState::Building);
        Ok(processes)
    }

    /// The arguments of the one toolchain command that builds the binaries
    /// of `processes` with the flags of all of them.
    pub fn build(&self, processes: &Vec<Process>) -> (r: Vec<String>)
        ensures
            strs(r@) == build_command(binaries_of(procs(processes@)), flags_of(procs(processes@))),
    {
        let mut binaries: Vec<String> = Vec::new();
        let mut flags: Vec<String> = Vec::new();
        let ghost ps = procs(processes@);
        let n = processes.len();
        let mut i: usize = 0;
        assert(strs(binaries@) =~= binaries_of(ps.take(0)));
        assert(strs(flags@) =~= flags_of(ps.take(0)));
        while i < n
            invariant
                n == processes.len(),
                ps == procs(processes@),
                0 <= i <= n,
                strs(binaries@) == binaries_of(ps.take(i as int)),
                strs(flags@) == flags_of(ps.take(i as int)),
            decreases n - i,
        {
            let p = &processes[i];
            assert(ps.take(i as int + 1).drop_last() =~= ps.take(i as int));
            assert(ps.take(i as int + 1).last() == p@);
            proof {
                lemma_strs_push(binaries@, p.binary);
            }
            binaries.push(p.binary.clone());
            let m = p.cargo_args.len();
            let ghost start = strs(flags@);
            let mut j: usize = 0;
            while j < m
                invariant
                    m == p.cargo_args.len(),
                    0 <= j <= m,
                    strs(flags@) == start + strs(p.cargo_args@).take(j as int),
                decreases m - j,
            {
                proof {
                    lemma_strs_push(flags@, p.cargo_args@[j as int]);
                }
                flags.push(p.cargo_args[j].clone());
                assert(strs(p.cargo_args@).take(j as int + 1) =~= strs(p.cargo_args@).take(
                    j as int,
                ).push(p.cargo_args@[j as int]@));
                assert(strs(flags@) =~= start + strs(p.cargo_args@).take(j as int + 1));
                j += 1;
            }
            assert(strs(p.cargo_args@).take(m as int) =~= strs(p.cargo_args@));
            i += 1;
        }
        assert(ps.take(n as int) =~= ps);
        Cargo::build(&binaries, &flags)
    }

    /// Takes note that the build failed: every selected process is marked
    /// as stopped again. The error to report is `ToolchainFailure` with
    /// what the toolchain wrote.
    pub fn build_failed(&self, state: &mut State, processes: &Vec<Process>, stderr: String) -> (r:
        Error)
        requires
            old(state).wf(),
        ensures
            final(state).wf(),
            r@ == plain(InnerErrorView::ToolchainFailure(stderr@)),
            final(state)@ == (StateView {
                store: StoreView {
                    processes: mark_all(
                        old(state)@.store.processes,
                        process_names(procs(processes@)),
                        ProcessState::Stopped,
                    ),
                    ..old(state)@.store
                },
                ..old(state)@
            }),
    {
        mark(state, processes, ProcessState::Stopped);
        Error::new(InnerError::ToolchainFailure(stderr))
    }

    /// What to hand to the scheduler to launch `process`, given the
    /// entries of the environment file. Nothing where the process is
    /// neither stopped nor building: it is started already.
    pub fn run(&self, process: &Process, dotenv: &Vec<(String, String)>) -> (r: Option<Launch>)
        ensures
            match r {
                Some(launch) => {
                    &&& process@.state == ProcessState::Stopped || process@.state
                        == ProcessState::Building
                    &&& launch.label@ == process@.name
                    &&& pairs(launch.env@) == launch_env(pairs(dotenv@), process@.env)
                    &&& env_keys(pairs(launch.env@)).no_duplicates()
                    &&& launch.command@ == launch_command(process@, pairs(launch.env@))
                },
                None => process@.state != ProcessState::Stopped && process@.state
                    != ProcessState::Building,
            },
    {
        if process.state != ProcessState::Stopped && process.state != ProcessState::Building {
            return None;
        }
        let mut env: Vec<(String, String)> = Vec::new();
        assert(pairs(env@) =~= Seq::empty());
        merge_entries(&mut env, dotenv);
        merge_entries(&mut env, &process.env);
        proof {
            let none = Seq::<(Seq<char>, Seq<char>)>::empty();
            assert(env_keys(none) =~= Seq::empty());
            lemma_env_merge_keys(none, pairs(dotenv@));
            lemma_env_merge_keys(env_merge(none, pairs(dotenv@)), process@.env);
        }
        let mut command = "./target/debug/".to_owned();
        command.append(process.binary.as_str());
        let ghost head = "./target/debug/"@ + process@.binary;
        let ghost words = process@.args.map_values(|a: Seq<char>| expanded(a, pairs(env@)));
        let n = process.args.len();
        let mut i: usize = 0;
        assert((seq![head] + words.take(0)) =~= seq![head]);
        while i < n
            invariant
                n == process.args.len(),
                words == process@.args.map_values(|a: Seq<char>| expanded(a, pairs(env@))),
                0 <= i <= n,
                command@ == join_space(seq![head] + words.take(i as int)),
            decreases n - i,
        {
            let word = envsubst(process.args[i].as_str(), &env);
            let ghost before = seq![head] + words.take(i as int);
            let ghost after = seq![head] + words.take(i as int + 1);
            assert(words[i as int] == word@);
            assert(after.drop_last() =~= before);
            assert(after.last() == word@);
            command.push(' ');
            command.append(word.as_str());
            assert(command@ =~= join_space(before) + seq![' '] + word@);
            i += 1;
        }
        assert(words.take(n as int) =~= words);
        Some(Launch { label: process.name.clone(), command, env })
    }

    /// Takes note that the scheduler runs the process called `name` under
    /// the handle `pid`. A handle that the store cannot hold is the error
    /// `TryFromInt`, and nothing changes.
    pub fn started(&self, state: &mut State, name: &str, pid: usize) -> (r: Result<(), Error>)
        requires
            old(state).wf(),
        ensures
            final(state).wf(),
            if pid > i32::MAX {
                &&& r is Err
                &&& r->Err_0@ == plain(InnerErrorView::TryFromInt)
                &&& final(state)@ == old(state)@
            } else {
                &&& r is Ok
                &&& final(state)@ == (StateView {
                    store: StoreView {
                        processes: mark_started(old(state)@.store.processes, name@, pid as Pid),
                        ..old(state)@.store
                    },
                    ..old(state)@
                })
            },
    {
        match state.set_pid(name, Some(pid)) {
            Ok(()) => {},
            Err(e) => {
                return Err(e);
            },
        }
        state.set_state(name, ProcessState::Running);
        Ok(())
    }
}

/// The binaries of a list of processes, in its order.
pub open spec fn binaries_of(ps: Seq<ProcessView>) -> Seq<Seq<char>> {
    ps.map_values(|p: ProcessView| p.binary)
}

/// The build flags of a list of processes, one process after the other.
pub open spec fn flags_of(ps: Seq<ProcessView>) -> Seq<Seq<char>>
    decreases ps.len(),
{
    if ps.len() == 0 {
        Seq::empty()
    } else {
        flags_of(ps.drop_last()) + ps.last().cargo_args
    }
}

/// Gives each of `processes` the state `to` in the store.
pub fn mark(state: &mut State, processes: &Vec<Process>, to: ProcessState)
    requires
        old(state).wf(),
    ensures
        final(state).wf(),
        final(state)@ == (StateView {
            store: StoreView {
                processes: mark_all(
                    old(state)@.store.processes,
                    process_names(procs(processes@)),
                    to,
                ),
                ..old(state)@.store
            },
            ..old(state)@
        }),
{
    let ghost names = process_names(procs(processes@));
    let n = processes.len();
    let mut i: usize = 0;
    assert(names.skip(0) =~= names);
    while i < n
        invariant
            n == processes.len(),
            names == process_names(procs(processes@)),
            0 <= i <= n,
            state.wf(),
            state@.project_dir == old(state)@.project_dir,
            state@.target_dir == old(state)@.target_dir,
            state@.current_stack == old(state)@.current_stack,
            state@.store == (StoreView { processes: state@.store.processes, ..old(state)@.store }),
            mark_all(state@.store.processes, names.skip(i as int), to) == mark_all(
                old(state)@.store.processes,
                names,
                to,
            ),
        decreases n - i,
    {
        assert(names.skip(i as int)[0] == processes@[i as int]@.name);
        assert(names.skip(i as int).drop_first() =~= names.skip(i as int + 1));
        state.set_state(processes[i].name.as_str(), to);
        i += 1;
    }
}

} // verus!
