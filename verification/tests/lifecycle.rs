use jocker::command::cargo::BinaryPackage;
use jocker::common::ProcessState;
use jocker::config::{ConfigDefault, ConfigFile, ConfigProcess, ConfigStack};
use jocker::database::Database;
use jocker::logs::{Logs, LogsArgs};
use jocker::ps::{Ps, PsArgs, PsOutput};
use jocker::start::{Start, StartArgs};
use jocker::state::{RefreshInput, State};
use jocker::stop::{Stop, StopAction, StopArgs};

fn names(v: &[&str]) -> Vec<String> {
    v.iter().map(|s| s.to_string()).collect()
}

fn entry(name: &str) -> (String, ConfigProcess) {
    (
        name.to_owned(),
        ConfigProcess {
            binary: None,
            args: vec![],
            cargo_args: vec![],
            env: vec![],
        },
    )
}

fn config() -> ConfigFile {
    ConfigFile {
        default: Some(ConfigDefault {
            stack: None,
            process: None,
        }),
        stacks: vec![
            (
                "base".to_owned(),
                ConfigStack {
                    inherits: vec![],
                    processes: names(&["eris", "harmonia"]),
                },
            ),
            (
                "full".to_owned(),
                ConfigStack {
                    inherits: names(&["base"]),
                    processes: names(&["ares", "athena"]),
                },
            ),
        ],
        processes: vec![
            entry("eris"),
            entry("harmonia"),
            entry("ares"),
            entry("athena"),
        ],
    }
}

fn open(config: Option<ConfigFile>, stack: Option<&str>) -> State {
    State::new(
        true,
        stack.map(|s| s.to_owned()),
        "/ws",
        "/state",
        Database::new(),
        &RefreshInput {
            tasks: vec![],
            now: 10,
            manifest_ages: vec![],
            config_ages: vec![],
            artifacts: ["eris", "harmonia"]
                .iter()
                .map(|n| BinaryPackage {
                    name: n.to_string(),
                    id: format!("path+file:///ws/{n}"),
                })
                .collect(),
            config,
        },
    )
    .unwrap()
}

/// Starts the named processes as the program does, with a scheduler that
/// hands out one handle after the other.
fn start(state: &mut State, wanted: &[&str], next_pid: &mut usize) -> Vec<String> {
    let start = Start::new(StartArgs {
        processes: names(wanted),
    });
    let processes = start.begin(state).unwrap();
    let mut commands = Vec::new();
    for process in &processes {
        if let Some(launch) = start.run(process, &vec![]) {
            commands.push(launch.command);
            start.started(state, process.name(), *next_pid).unwrap();
            *next_pid += 1;
        }
    }
    commands
}

/// Stops the named processes as the program does; gives the handles that
/// were signalled.
fn stop(state: &mut State, wanted: &[&str]) -> Vec<u32> {
    let stop = Stop::new(StopArgs {
        kill: false,
        processes: names(wanted),
    });
    let mut signalled = Vec::new();
    for process in stop.begin(state).unwrap() {
        match stop.action(&process) {
            StopAction::Skip => continue,
            StopAction::Signal { pid, .. } => signalled.push(pid),
            StopAction::Mark => {}
        }
        stop.stopped(state, process.name());
    }
    signalled
}

fn ps(state: &State, wanted: &[&str]) -> Vec<PsOutput> {
    Ps::new(PsArgs {
        processes: names(wanted),
    })
    .run(state)
    .unwrap()
}

fn logs(state: &State) -> usize {
    let logs = Logs::new(LogsArgs {
        follow: false,
        process_prefix: false,
        tail: false,
        processes: vec![],
    });
    let plan = logs.run(state).unwrap();
    plan.processes
        .iter()
        .filter(|p| {
            logs.fetch(p, plan.max_process_name_len)
                .map(|f| f.is_some())
                .unwrap_or(false)
        })
        .count()
}

#[test]
fn start_log_stop_default() {
    let mut state = open(None, None);
    let mut next_pid = 1;

    start(&mut state, &[], &mut next_pid);
    let ps_running_output = ps(&state, &[]);
    let fetched = logs(&state);
    stop(&mut state, &[]);
    let ps_stopped_output = ps(&state, &[]);

    assert_eq!(&ps_running_output[0].name, "eris");
    assert_eq!(&ps_running_output[0].state, &ProcessState::Running);
    assert_eq!(&ps_running_output[1].name, "harmonia");
    assert_eq!(&ps_running_output[1].state, &ProcessState::Running);
    assert_eq!(ps_running_output.len(), 2);

    assert_eq!(&ps_stopped_output[0].name, "eris");
    assert_eq!(&ps_stopped_output[0].state, &ProcessState::Stopped);
    assert_eq!(&ps_stopped_output[1].name, "harmonia");
    assert_eq!(&ps_stopped_output[1].state, &ProcessState::Stopped);
    assert_eq!(ps_stopped_output.len(), 2);

    assert!(fetched >= 2);
}

#[test]
fn start_log_stop_process_stack() {
    let mut state = open(Some(config()), Some("full"));
    let mut next_pid = 1;

    start(&mut state, &[], &mut next_pid);
    let ps_running_output = ps(&state, &[]);
    let fetched = logs(&state);
    stop(&mut state, &[]);
    let ps_stopped_output = ps(&state, &[]);

    assert_eq!(&ps_running_output[0].name, "ares");
    assert_eq!(&ps_running_output[0].state, &ProcessState::Running);
    assert_eq!(&ps_running_output[1].name, "athena");
    assert_eq!(&ps_running_output[1].state, &ProcessState::Running);
    assert_eq!(&ps_running_output[2].name, "eris");
    assert_eq!(&ps_running_output[2].state, &ProcessState::Running);
    assert_eq!(&ps_running_output[3].name, "harmonia");
    assert_eq!(&ps_running_output[3].state, &ProcessState::Running);
    assert_eq!(ps_running_output.len(), 4);

    assert_eq!(&ps_stopped_output[0].name, "ares");
    assert_eq!(&ps_stopped_output[0].state, &ProcessState::Stopped);
    assert_eq!(&ps_stopped_output[1].name, "athena");
    assert_eq!(&ps_stopped_output[1].state, &ProcessState::Stopped);
    assert_eq!(&ps_stopped_output[2].name, "eris");
    assert_eq!(&ps_stopped_output[2].state, &ProcessState::Stopped);
    assert_eq!(&ps_stopped_output[3].name, "harmonia");
    assert_eq!(&ps_stopped_output[3].state, &ProcessState::Stopped);
    assert_eq!(ps_stopped_output.len(), 4);

    assert!(fetched >= 4);
}

#[test]
fn start_log_stop_process_stack_filter() {
    let mut state = open(Some(config()), Some("full"));
    let mut next_pid = 1;
    let processes = ["athena"];

    start(&mut state, &processes, &mut next_pid);
    let ps_running_output = ps(&state, &processes);
    let fetched = logs(&state);
    stop(&mut state, &processes);
    let ps_stopped_output = ps(&state, &processes);

    assert_eq!(&ps_running_output[0].name, "athena");
    assert_eq!(&ps_running_output[0].state, &ProcessState::Running);
    assert_eq!(ps_running_output.len(), 1);

    assert_eq!(&ps_stopped_output[0].name, "athena");
    assert_eq!(&ps_stopped_output[0].state, &ProcessState::Stopped);
    assert_eq!(ps_stopped_output.len(), 1);

    assert!(fetched >= 1);
    assert!(ps(&state, &[])
        .iter()
        .all(|l| l.state == ProcessState::Stopped && l.pid.is_none()));
}

#[test]
fn start_after_stop() {
    let mut state = open(None, None);
    let mut next_pid = 1;

    start(&mut state, &[], &mut next_pid);
    let ps_run_1 = ps(&state, &[]);
    stop(&mut state, &[]);
    let commands = start(&mut state, &[], &mut next_pid);
    let signalled = stop(&mut state, &[]);
    let ps_run_2 = ps(&state, &[]);

    assert_eq!(&ps_run_1[0].name, "eris");
    assert_eq!(&ps_run_1[0].state, &ProcessState::Running);
    assert_eq!(&ps_run_1[1].name, "harmonia");
    assert_eq!(&ps_run_1[1].state, &ProcessState::Running);
    assert_eq!(ps_run_1.len(), 2);

    assert_eq!(&ps_run_2[0].name, "eris");
    assert_eq!(&ps_run_2[0].state, &ProcessState::Stopped);
    assert_eq!(&ps_run_2[1].name, "harmonia");
    assert_eq!(&ps_run_2[1].state, &ProcessState::Stopped);
    assert_eq!(ps_run_2.len(), 2);

    assert_eq!(
        commands,
        vec!["./target/debug/eris", "./target/debug/harmonia"]
    );
    assert_eq!(signalled, vec![3, 4]);
    assert_eq!(signalled.len(), 2);
}

#[test]
fn start_skips_what_runs() {
    let mut state = open(None, None);
    let mut next_pid = 1;
    start(&mut state, &["eris"], &mut next_pid);
    let second = Start::new(StartArgs { processes: vec![] });
    let processes = second.begin(&mut state).unwrap();
    assert!(second.run(&processes[0], &vec![]).is_none());
    assert!(second.run(&processes[1], &vec![]).is_some());
}
