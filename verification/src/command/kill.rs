//! Signals to a process and to its children.

use crate::command::ps::{ps, reported, PsArgs};
use crate::error::{plain, Error};
use crate::text::{decimal, decimal_digits, strs};
use vstd::prelude::*;

verus! {

/// The signal to send.
#[derive(Clone, Copy, Debug, PartialEq, Eq, Structural)]
pub enum KillSignal {
    Kill,
    Term,
}

impl Default for KillSignal {
    fn default() -> (r: KillSignal)
        ensures
            r == KillSignal::Term,
    {
        KillSignal::Term
    }
}

/// The name of a signal.
pub open spec fn signal_name(signal: KillSignal) -> Seq<char> {
    match signal {
        KillSignal::Kill => "KILL"@,
        KillSignal::Term => "TERM"@,
    }
}

impl KillSignal {
    /// The name of the signal.
    pub fn to_string(&self) -> (r: String)
        ensures
            r@ == signal_name(*self),
    {
        match self {
            KillSignal::Kill => "KILL".to_owned(),
            KillSignal::Term => "TERM".to_owned(),
        }
    }
}

/// A signal for a process.
#[derive(Clone, Copy, Debug, PartialEq, Eq)]
pub struct KillArgs {
    pub pid: u32,
    pub signal: KillSignal,
}

/// The processes to signal: the children, then the parent where it is not
/// among them.
pub open spec fn family(children: Seq<u32>, parent: u32) -> Seq<u32> {
    if children.contains(parent) {
        children
    } else {
        children.push(parent)
    }
}

/// The signals that bring down the process `args.pid` and its children:
/// one with `args.signal` for each child that the lines of the process
/// table report, and one for the process itself. Where a line cannot be
/// read, its error.
pub fn kill_parent_and_children(args: KillArgs, lines: &Vec<String>) -> (r: Result<
    Vec<KillArgs>,
    Error,
>)
    ensures
        match reported(strs(lines@), Some(args.pid), lines@.len() as int) {
            Ok(children) => {
                &&& r is Ok
                &&& r->Ok_0@.len() == family(children, args.pid).len()
                &&& forall|k: int|
                    0 <= k < r->Ok_0@.len() ==> (#[trigger] r->Ok_0@[k]).pid == family(
                        children,
                        args.pid,
                    )[k] && r->Ok_0@[k].signal == args.signal
            },
            Err(e) => r is Err && r->Err_0@ == plain(e),
        },
{
    let mut pids = match ps(PsArgs { ppid: Some(args.pid) }, lines) {
        Ok(pids) => pids,
        Err(e) => {
            return Err(e);
        },
    };
    let mut found = false;
    let mut i: usize = 0;
    while i < pids.len()
        invariant
            0 <= i <= pids.len(),
            found == exists|j: int| 0 <= j < i && pids@[j] == args.pid,
        decreases pids.len() - i,
    {
        if pids[i] == args.pid {
            found = true;
        }
        i += 1;
    }
    if !found {
        pids.push(args.pid);
    }
    let mut out: Vec<KillArgs> = Vec::new();
    let mut k: usize = 0;
    while k < pids.len()
        invariant
            0 <= k <= pids.len(),
            out.len() == k,
            forall|j: int|
                0 <= j < k ==> (#[trigger] out@[j]).pid == pids@[j] && out@[j].signal == args.signal,
        decreases pids.len() - k,
    {
        out.push(KillArgs { pid: pids[k], signal: args.signal });
        k += 1;
    }
    Ok(out)
}

/// The arguments of the `kill` command that sends a signal: `-s`, the
/// name of the signal, and the process in decimal.
pub open spec fn kill_command(args: KillArgs) -> Seq<Seq<char>> {
    seq!["-s"@, signal_name(args.signal), decimal_digits(args.pid as nat)]
}

/// The arguments of the `kill` command that sends the signal.
pub fn kill(args: KillArgs) -> (r: Vec<String>)
    ensures
        strs(r@) == kill_command(args),
{
    let mut r: Vec<String> = Vec::new();
    r.push("-s".to_owned());
    r.push(args.signal.to_string());
    r.push(decimal(args.pid as usize));
    assert(strs(r@) =~= kill_command(args));
    r
}

} // verus!
