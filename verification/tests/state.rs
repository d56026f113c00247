use jocker::command::cargo::BinaryPackage;
use jocker::command::pueue::ScheduledTask;
use jocker::common::{Exec, Process, ProcessState, Stack, TaskStatus};
use jocker::config::{ConfigDefault, ConfigFile, ConfigProcess, ConfigStack};
use jocker::database::Database;
use jocker::error::InnerError;
use jocker::ps::{Ps, PsArgs, PsOutput};
use jocker::start::{Start, StartArgs};
use jocker::state::{refresh_due, RefreshInput, State};
use jocker::stop::{Stop, StopAction, StopArgs};

fn artifacts(names: &[&str]) -> Vec<BinaryPackage> {
    names
        .iter()
        .map(|n| BinaryPackage {
            name: n.to_string(),
            id: format!("path+file:///ws/{n}#0.1.0"),
        })
        .collect()
}

fn input(names: &[&str], config: Option<ConfigFile>) -> RefreshInput {
    RefreshInput {
        tasks: vec![],
        now: 1_000,
        manifest_ages: vec![],
        config_ages: vec![],
        artifacts: artifacts(names),
        config,
    }
}

fn process(binary: Option<&str>) -> ConfigProcess {
    ConfigProcess {
        binary: binary.map(|b| b.to_owned()),
        args: vec![],
        cargo_args: vec![],
        env: vec![],
    }
}

fn names(v: &[&str]) -> Vec<String> {
    v.iter().map(|s| s.to_string()).collect()
}

fn full_config() -> ConfigFile {
    ConfigFile {
        default: Some(ConfigDefault {
            stack: Some("full".to_owned()),
            process: None,
        }),
        stacks: vec![
            (
                "base".to_owned(),
                ConfigStack {
                    inherits: vec![],
                    processes: names(&["eris"]),
                },
            ),
            (
                "full".to_owned(),
                ConfigStack {
                    inherits: names(&["base"]),
                    processes: names(&["harmonia"]),
                },
            ),
        ],
        processes: vec![
            ("harmonia".to_owned(), process(None)),
            ("eris".to_owned(), process(None)),
            ("athena".to_owned(), process(None)),
        ],
    }
}

fn setup() -> State {
    State::new(
        true,
        None,
        "/ws",
        "/home/me/.local/state",
        Database::new(),
        &input(&["eris", "harmonia"], None),
    )
    .unwrap()
}

fn lines(state: &State, wanted: &[&str]) -> Vec<PsOutput> {
    Ps::new(PsArgs {
        processes: names(wanted),
    })
    .run(state)
    .unwrap()
}

fn line(name: &str, state: ProcessState, pid: Option<u32>) -> PsOutput {
    PsOutput {
        name: name.to_owned(),
        state,
        pid,
    }
}

#[test]
fn project_id_is_the_head_of_the_digest() {
    assert_eq!(State::get_project_id(""), "e3b0c44298fc1c14");
    assert_eq!(State::get_project_id("abc"), "ba7816bf8f01cfea");
    assert_eq!(State::get_project_id("/ws"), State::get_project_id("/ws"));
    assert_ne!(State::get_project_id("/ws"), State::get_project_id("/ws2"));
    for path in ["", "/ws", "/home/me/a long path/é"] {
        let id = State::get_project_id(path);
        assert_eq!(id.len(), 16);
        assert!(id
            .chars()
            .all(|c| c.is_ascii_digit() || ('a'..='f').contains(&c)));
    }
}

#[test]
fn project_dir_is_under_the_state_home() {
    assert_eq!(
        State::get_project_dir("/home/me/.local/state", "ba7816bf8f01cfea"),
        "/home/me/.local/state/jocker/ba7816bf8f01cfea"
    );
    let state = setup();
    assert_eq!(state.get_target_dir(), "/ws");
    assert_eq!(
        state.get_project_directory(),
        format!("/home/me/.local/state/jocker/{}", State::get_project_id("/ws"))
    );
}

#[test]
fn ps_default() {
    let state = setup();
    let ps_output = lines(&state, &[]);
    assert_eq!(ps_output.iter().filter(|i| &i.name == "eris").count(), 1);
    assert_eq!(
        ps_output.iter().filter(|i| &i.name == "harmonia").count(),
        1
    );
    assert_eq!(ps_output.len(), 2);
    assert_eq!(
        ps_output,
        vec![
            line("eris", ProcessState::Stopped, None),
            line("harmonia", ProcessState::Stopped, None)
        ]
    );
    let by_trait = Ps::new(PsArgs { processes: vec![] }).exec(&state).unwrap();
    assert_eq!(by_trait, ps_output);
}

#[test]
fn ps_filter() {
    let state = setup();
    let ps_output = lines(&state, &["eris"]);
    assert_eq!(ps_output.iter().filter(|i| &i.name == "eris").count(), 1);
    assert_eq!(ps_output.len(), 1);
}

#[test]
fn ps_default_with_stack() {
    let mut state = State::new(
        true,
        None,
        "/ws",
        "/s",
        Database::new(),
        &input(&[], Some(full_config())),
    )
    .unwrap();
    assert_eq!(state.get_current_stack(), Some("full".to_owned()));
    let ps_output = lines(&state, &[]);
    assert_eq!(
        ps_output,
        vec![
            line("eris", ProcessState::Stopped, None),
            line("harmonia", ProcessState::Stopped, None)
        ]
    );
    state.set_current_stack(&Some("base".to_owned())).unwrap();
    assert_eq!(lines(&state, &[]).len(), 1);
    let e = state
        .set_current_stack(&Some("nowhere".to_owned()))
        .unwrap_err();
    assert_eq!(e.inner_error, InnerError::StackNotFound("nowhere".to_owned()));
    assert_eq!(state.get_current_stack(), Some("base".to_owned()));
}

#[test]
fn ps_filter_with_stack() {
    let state = State::new(
        true,
        Some("full".to_owned()),
        "/ws",
        "/s",
        Database::new(),
        &input(&[], Some(full_config())),
    )
    .unwrap();
    let ps_output = lines(&state, &["eris", "athena"]);
    assert_eq!(ps_output.iter().filter(|i| &i.name == "eris").count(), 1);
    assert_eq!(ps_output.iter().filter(|i| &i.name == "athena").count(), 1);
    assert_eq!(ps_output.len(), 2);
    assert_eq!(ps_output[0].name, "athena");
}

#[test]
fn stack_with_inheritance() {
    let state = State::new(
        false,
        None,
        "/ws",
        "/s",
        Database::new(),
        &RefreshInput {
            config_ages: vec![10],
            ..input(&[], Some(full_config()))
        },
    )
    .unwrap();
    let full: Stack = state.get_stack("full").unwrap();
    assert_eq!(full.processes, names(&["harmonia"]));
    assert_eq!(full.inherited_processes, names(&["eris"]));
    assert_eq!(state.get_default_stack(), Some("full".to_owned()));
    let selected = state.filter_processes(&vec![]).unwrap();
    let got: Vec<&str> = selected.iter().map(|p| p.name()).collect();
    assert_eq!(got, vec!["eris", "harmonia"]);
}

#[test]
fn opening_with_a_missing_stack_fails() {
    let r = State::new(
        true,
        Some("nowhere".to_owned()),
        "/ws",
        "/s",
        Database::new(),
        &input(&[], Some(full_config())),
    );
    assert_eq!(
        r.err().unwrap().inner_error,
        InnerError::StackNotFound("nowhere".to_owned())
    );
}

#[test]
fn filter_unknown_name() {
    let state = State::new(
        true,
        None,
        "/ws",
        "/s",
        Database::new(),
        &input(&["y"], None),
    )
    .unwrap();
    let before = state.get_processes();
    let e = state.filter_processes(&names(&["x"])).unwrap_err();
    assert_eq!(e.inner_error, InnerError::ProcessNotFound(names(&["x"])));
    assert_eq!(state.get_processes(), before);
    let e = state.filter_processes(&names(&["x", "y", "z"])).unwrap_err();
    assert_eq!(
        e.inner_error,
        InnerError::ProcessNotFound(names(&["x", "z"]))
    );
    assert_eq!(
        state.filter_processes(&names(&["y", "y"])).unwrap(),
        vec![Process::new("y", "y")]
    );
}

#[test]
fn start_and_stop_a_single_process() {
    let mut state = setup();
    let start = Start::new(StartArgs {
        processes: names(&["eris"]),
    });
    let selected = start.begin(&mut state).unwrap();
    assert_eq!(selected.len(), 1);
    assert_eq!(
        lines(&state, &[]),
        vec![
            line("eris", ProcessState::Building, None),
            line("harmonia", ProcessState::Stopped, None)
        ]
    );
    assert_eq!(start.build(&selected), vec!["build", "--bin=eris"]);
    let launch = start.run(&selected[0], &vec![]).unwrap();
    assert_eq!(launch.command, "./target/debug/eris");
    start.started(&mut state, "eris", 17).unwrap();
    assert_eq!(
        lines(&state, &[]),
        vec![
            line("eris", ProcessState::Running, Some(17)),
            line("harmonia", ProcessState::Stopped, None)
        ]
    );

    let stop = Stop::new(StopArgs {
        kill: false,
        processes: names(&["eris"]),
    });
    let selected = stop.begin(&state).unwrap();
    assert_eq!(
        stop.action(&selected[0]),
        StopAction::Signal {
            pid: 17,
            kill: false
        }
    );
    stop.stopped(&mut state, "eris");
    assert_eq!(
        lines(&state, &[]),
        vec![
            line("eris", ProcessState::Stopped, None),
            line("harmonia", ProcessState::Stopped, None)
        ]
    );
    let selected = stop.begin(&state).unwrap();
    assert_eq!(stop.action(&selected[0]), StopAction::Skip);
}

#[test]
fn start_refuses_large_handle() {
    let mut state = setup();
    let start = Start::new(StartArgs { processes: vec![] });
    start.begin(&mut state).unwrap();
    let e = start.started(&mut state, "eris", 2147483648).unwrap_err();
    assert_eq!(e.inner_error, InnerError::TryFromInt);
    assert_eq!(
        lines(&state, &["eris"]),
        vec![line("eris", ProcessState::Building, None)]
    );
    assert_eq!(
        state.set_pid("eris", Some(2147483648)).unwrap_err().inner_error,
        InnerError::TryFromInt
    );
    state.set_pid("eris", Some(2147483647)).unwrap();
    assert_eq!(lines(&state, &["eris"])[0].pid, Some(2147483647));
    state.set_pid("eris", None).unwrap();
    assert_eq!(lines(&state, &["eris"])[0].pid, None);
}

#[test]
fn failed_build_reverts_to_stopped() {
    let mut state = setup();
    let start = Start::new(StartArgs { processes: vec![] });
    let selected = start.begin(&mut state).unwrap();
    assert!(lines(&state, &[])
        .iter()
        .all(|l| l.state == ProcessState::Building));
    let e = start.build_failed(&mut state, &selected, "error[E0425]".to_owned());
    assert_eq!(
        e.inner_error,
        InnerError::ToolchainFailure("error[E0425]".to_owned())
    );
    assert!(lines(&state, &[])
        .iter()
        .all(|l| l.state == ProcessState::Stopped && l.pid.is_none()));
}

#[test]
fn start_with_unknown_name_changes_nothing() {
    let mut state = setup();
    let start = Start::new(StartArgs {
        processes: names(&["eris", "ghost"]),
    });
    let e = start.begin(&mut state).unwrap_err();
    assert_eq!(e.inner_error, InnerError::ProcessNotFound(names(&["ghost"])));
    assert!(lines(&state, &[])
        .iter()
        .all(|l| l.state == ProcessState::Stopped));
}

#[test]
fn stop_actions() {
    let stop = Stop::new(StopArgs {
        kill: true,
        processes: vec![],
    });
    let mut p = Process::new("p", "p");
    assert_eq!(stop.action(&p), StopAction::Skip);
    p.state = ProcessState::Unknown;
    assert_eq!(stop.action(&p), StopAction::Mark);
    p.pid = Some(4);
    assert_eq!(stop.action(&p), StopAction::Signal { pid: 4, kill: true });
    p.state = ProcessState::Stopped;
    assert_eq!(stop.action(&p), StopAction::Skip);
}

fn running(label: &str, id: usize) -> ScheduledTask {
    ScheduledTask {
        label: label.to_owned(),
        id,
        status: TaskStatus::Running,
    }
}

#[test]
fn reconciliation_after_external_kill() {
    let mut state = setup();
    let start = Start::new(StartArgs {
        processes: names(&["eris"]),
    });
    start.begin(&mut state).unwrap();
    start.started(&mut state, "eris", 5).unwrap();
    let mut seen = input(&["eris", "harmonia"], None);
    seen.tasks = vec![running("eris", 5)];
    state.refresh(false, &seen).unwrap();
    assert_eq!(
        lines(&state, &["eris"]),
        vec![line("eris", ProcessState::Running, Some(5))]
    );
    seen.tasks = vec![];
    state.refresh(false, &seen).unwrap();
    assert_eq!(
        lines(&state, &["eris"]),
        vec![line("eris", ProcessState::Stopped, None)]
    );
}

#[test]
fn stack_validation() {
    let mut state = setup();
    state.set_state("eris", ProcessState::Running);
    let before_processes = state.get_processes();
    let stamp = state.get_elapsed_since_last_config_update(2_000);
    let mut config = full_config();
    config.stacks.push((
        "s1".to_owned(),
        ConfigStack {
            inherits: vec![],
            processes: names(&["ghost"]),
        },
    ));
    let mut bad = input(&["eris", "harmonia"], Some(config));
    bad.tasks = vec![running("eris", 9)];
    bad.now = 2_000;
    let e = state.refresh(true, &bad).unwrap_err();
    assert_eq!(e.inner_error, InnerError::ProcessNotFound(names(&["ghost"])));
    assert_eq!(state.get_processes(), before_processes);
    assert_eq!(state.get_elapsed_since_last_config_update(2_000), stamp);
    assert!(state.get_stack("full").is_err());
    assert!(state.get_default_stack().is_none());
}

#[test]
fn hard_refresh_twice_is_idempotent() {
    let mut state = setup();
    let mut seen = input(&["zeus", "eris"], Some(full_config()));
    seen.tasks = vec![running("eris", 3)];
    state.refresh(true, &seen).unwrap();
    let processes = state.get_processes();
    let binaries = state.get_binaries();
    let full = state.get_stack("full").unwrap();
    let default = state.get_default_stack();
    seen.now = 5_000;
    state.refresh(true, &seen).unwrap();
    assert_eq!(state.get_processes(), processes);
    assert_eq!(state.get_binaries(), binaries);
    assert_eq!(state.get_stack("full").unwrap(), full);
    assert_eq!(state.get_default_stack(), default);
    assert_eq!(state.get_elapsed_since_last_config_update(5_010), 10);
    assert_eq!(state.get_elapsed_since_last_binaries_update(5_010), 10);
    assert_eq!(processes[1].name, "eris");
    assert_eq!(processes[1].pid, Some(3));
    assert_eq!(processes[1].state, ProcessState::Running);
}

#[test]
fn soft_refresh_follows_freshness() {
    let mut state = setup();
    let mut seen = input(&["new"], Some(full_config()));
    seen.now = 1_100;
    seen.manifest_ages = vec![100, 200];
    seen.config_ages = vec![100];
    assert!(!state.needs_to_refresh_binaries(seen.now, &seen.manifest_ages));
    state.refresh(false, &seen).unwrap();
    assert_eq!(state.get_binaries().len(), 2);
    assert_eq!(state.get_processes().len(), 2);
    seen.manifest_ages = vec![99];
    assert!(state.needs_to_refresh_binaries(seen.now, &seen.manifest_ages));
    assert!(!state.needs_to_refresh_config(seen.now, &seen.config_ages));
    state.refresh(false, &seen).unwrap();
    assert_eq!(state.get_binaries().len(), 1);
    assert_eq!(state.get_binaries()[0].name, "new");
    assert_eq!(state.get_processes().len(), 2);
    assert_eq!(state.get_elapsed_since_last_binaries_update(1_100), 0);
    seen.now = 1_200;
    seen.manifest_ages = vec![150];
    seen.config_ages = vec![150];
    state.refresh(false, &seen).unwrap();
    assert_eq!(state.get_processes().len(), 3);
    assert_eq!(state.get_default_stack(), Some("full".to_owned()));
}

#[test]
fn refresh_refuses_unknown_default_stack() {
    let mut state = setup();
    let mut config = full_config();
    config.default = Some(ConfigDefault {
        stack: Some("nowhere".to_owned()),
        process: None,
    });
    let e = state
        .refresh(true, &input(&[], Some(config)))
        .unwrap_err();
    assert_eq!(e.inner_error, InnerError::StackNotFound("nowhere".to_owned()));
    assert_eq!(state.get_processes().len(), 2);
}

#[test]
fn setters_of_the_state() {
    let mut state = setup();
    state
        .set_processes(vec![Process::new("b", "b"), Process::new("a", "a")])
        .unwrap();
    let got: Vec<String> = state.get_processes().into_iter().map(|p| p.name).collect();
    assert_eq!(got, names(&["a", "b"]));
    state
        .set_stacks(&vec![Stack {
            name: "s".to_owned(),
            processes: names(&["a"]),
            inherited_processes: vec![],
        }])
        .unwrap();
    state.set_default_stack(&Some("s".to_owned())).unwrap();
    assert_eq!(state.get_default_stack(), Some("s".to_owned()));
    assert!(state.set_default_stack(&Some("t".to_owned())).is_err());
    state.set_current_stack(&None).unwrap();
    assert_eq!(state.get_current_stack(), Some("s".to_owned()));
    state.set_binaries(&artifacts(&["z", "y"])).unwrap();
    assert_eq!(state.get_binaries()[0].name, "y");
    state.set_binaries_updated_at(50);
    state.set_config_updated_at(60);
    assert_eq!(state.get_elapsed_since_last_binaries_update(100), 50);
    assert_eq!(state.get_elapsed_since_last_config_update(100), 40);
}

#[test]
fn what_a_refresh_is_due_to_read() {
    let mut db = Database::new();
    assert_eq!(refresh_due(&db, true, 100, &vec![], &vec![]), (true, true));
    assert_eq!(refresh_due(&db, false, 100, &vec![], &vec![]), (false, false));
    assert_eq!(refresh_due(&db, false, 100, &vec![99], &vec![100]), (true, false));
    db.set_binaries_updated_at(90);
    db.set_config_updated_at(40);
    assert_eq!(refresh_due(&db, false, 100, &vec![10], &vec![59, 70]), (false, true));
    assert_eq!(refresh_due(&db, false, 100, &vec![9], &vec![60]), (true, false));
}
