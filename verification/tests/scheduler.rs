use jocker::cli::{
    tabled_display_option, LogsArgsCli, PsArgsCli, PsOutputCli, StartArgsCli, StopArgsCli,
};
use jocker::command::cargo::{
    BinaryPackage, Cargo, ExportInfoMinimal, SerializedPackage, TargetInner, TargetKind,
};
use jocker::command::pueue::{Follow, Pueue, Response, ScheduledTask, Signal, Task};
use jocker::common::{Process, ProcessState, TaskStatus};
use jocker::database::Database;
use jocker::error::{lock_error, Error, InnerError};
use jocker::logs::{run, Logs, LogsArgs};
use jocker::ps::{PsArgs, PsOutput};
use jocker::start::StartArgs;
use jocker::state::{RefreshInput, State};
use jocker::stop::StopArgs;
use std::io::Write;

fn names(v: &[&str]) -> Vec<String> {
    v.iter().map(|s| s.to_string()).collect()
}

fn compressed(text: &str) -> Vec<u8> {
    let mut encoder = snap::write::FrameEncoder::new(Vec::new());
    encoder.write_all(text.as_bytes()).unwrap();
    encoder.into_inner().unwrap()
}

#[test]
fn group_and_tasks() {
    let (client, add) = Pueue::new("abc", &names(&["default"]));
    assert_eq!(client.group(), "jocker-abc");
    assert!(add);
    let (_, add) = Pueue::new("abc", &names(&["default", "jocker-abc"]));
    assert!(!add);
    let tasks = vec![
        Task {
            id: 1,
            label: Some("eris".to_owned()),
            group: "jocker-abc".to_owned(),
            status: TaskStatus::Running,
        },
        Task {
            id: 2,
            label: Some("eris".to_owned()),
            group: "default".to_owned(),
            status: TaskStatus::Done,
        },
        Task {
            id: 3,
            label: None,
            group: "jocker-abc".to_owned(),
            status: TaskStatus::Queued,
        },
    ];
    let mine = client.processes(&tasks);
    assert_eq!(
        mine,
        vec![
            ScheduledTask {
                label: "eris".to_owned(),
                id: 1,
                status: TaskStatus::Running
            },
            ScheduledTask {
                label: "NONE".to_owned(),
                id: 3,
                status: TaskStatus::Queued
            },
        ]
    );
    assert!(!client.is_reset(&tasks));
    assert!(client.is_reset(&tasks[1..2].to_vec()));
    assert_eq!(Pueue::process_status(&mine, 3).unwrap(), TaskStatus::Queued);
    assert_eq!(
        Pueue::process_status(&mine, 2).unwrap_err().inner_error,
        InnerError::SchedulerUnavailable("Cannot get status of process".to_owned())
    );
}

#[test]
fn answers() {
    let (client, _) = Pueue::new("abc", &vec![]);
    assert_eq!(client.start(&Response::AddedTask(7)).unwrap(), 7);
    assert!(client.start(&Response::Success("ok".to_owned())).is_err());
    assert!(Response::AddedTask(1).success());
    assert!(Response::Success("".to_owned()).success());
    assert!(!Response::Failure("".to_owned()).success());
    assert!(!Response::Close.success());
    assert!(Pueue::check(&Response::Success("done".to_owned())).is_ok());
    assert_eq!(
        Pueue::check(&Response::Failure("no".to_owned()))
            .unwrap_err()
            .inner_error,
        InnerError::SchedulerUnavailable("Request was refused".to_owned())
    );
    assert_eq!(Pueue::stop(true), Signal::SigKill);
    assert_eq!(Pueue::stop(false), Signal::SigTerm);
    assert!(Pueue::has_started(TaskStatus::Running));
    assert!(!Pueue::has_started(TaskStatus::Queued));
    assert!(Pueue::has_stopped(TaskStatus::Done));
    assert!(!Pueue::has_stopped(TaskStatus::Paused));
}

#[test]
fn log_lines() {
    let response = Response::Log(vec![
        Some(compressed("one\r\ntwo\n\nlast\r")),
        None,
        Some(compressed("é\n")),
    ]);
    assert_eq!(
        Pueue::log(&response, "p > ").unwrap(),
        vec!["p > one", "p > two", "p > ", "p > last\r", "p > é"]
    );
    assert_eq!(
        Pueue::log(&Response::Log(vec![]), "").unwrap(),
        Vec::<String>::new()
    );
    let bad = Response::Log(vec![Some(compressed("fine")), Some(vec![1, 2, 3])]);
    assert_eq!(
        Pueue::log(&bad, "").unwrap_err().inner_error,
        InnerError::SchedulerUnavailable("Log output cannot be decompressed".to_owned())
    );
    let mut encoder = snap::write::FrameEncoder::new(Vec::new());
    encoder.write_all(&[0xff, 0xfe]).unwrap();
    let not_text = Response::Log(vec![Some(encoder.into_inner().unwrap())]);
    assert_eq!(
        Pueue::log(&not_text, "").unwrap_err().inner_error,
        InnerError::Parse("Log output is not UTF-8".to_owned())
    );
    assert!(Pueue::log(&Response::Close, "").is_err());
}

#[test]
fn follow_steps() {
    let stream = Response::Stream(vec!["a\nb".to_owned(), "".to_owned(), "c\n".to_owned()]);
    assert_eq!(
        Pueue::follow(&stream, "x ").unwrap(),
        Follow::Lines(names(&["x a", "x b", "x c"]))
    );
    assert_eq!(Pueue::follow(&Response::Close, "").unwrap(), Follow::Close);
    assert_eq!(
        Pueue::follow(&Response::Failure("gone".to_owned()), "")
            .unwrap_err()
            .inner_error,
        InnerError::SchedulerUnavailable("Failure during logs streaming: gone".to_owned())
    );
    assert_eq!(
        Pueue::follow(&Response::AddedTask(1), "")
            .unwrap_err()
            .inner_error,
        InnerError::SchedulerUnavailable(
            "Received unhandled Response message during logs streaming".to_owned()
        )
    );
}

fn args(follow: bool, process_prefix: bool, tail: bool) -> LogsArgs {
    LogsArgs {
        follow,
        process_prefix,
        tail,
        processes: vec![],
    }
}

#[test]
fn log_fetches() {
    let mut p = Process::new("eris", "eris");
    p.pid = Some(4);
    let f = run(&p, &args(false, true, false), 8).unwrap().unwrap();
    assert_eq!(f.prefix, "eris     > ");
    assert_eq!(f.pid, 4);
    assert_eq!(f.lines, None);
    assert!(!f.follow);
    let f = run(&p, &args(true, false, true), 8).unwrap().unwrap();
    assert_eq!(f.prefix, "");
    assert_eq!(f.lines, Some(0));
    assert!(f.follow);
    let f = run(&p, &args(true, true, false), 2).unwrap().unwrap();
    assert_eq!(f.prefix, "eris > ");
    assert!(run(&p, &args(false, true, true), 8).unwrap().is_none());
    p.pid = None;
    assert!(run(&p, &args(false, true, true), 8).unwrap().is_none());
    assert_eq!(
        run(&p, &args(false, false, false), 8)
            .unwrap_err()
            .inner_error,
        InnerError::SchedulerUnavailable("PID missing for log".to_owned())
    );
}

#[test]
fn logs_plan() {
    let state = State::new(
        true,
        None,
        "/ws",
        "/s",
        Database::new(),
        &RefreshInput {
            tasks: vec![],
            now: 0,
            manifest_ages: vec![],
            config_ages: vec![],
            artifacts: vec![
                BinaryPackage {
                    name: "harmonia".to_owned(),
                    id: "file:///h".to_owned(),
                },
                BinaryPackage {
                    name: "éris".to_owned(),
                    id: "file:///e".to_owned(),
                },
            ],
            config: None,
        },
    )
    .unwrap();
    let logs = Logs::new(args(false, true, false));
    let plan = logs.run(&state).unwrap();
    assert_eq!(plan.processes.len(), 2);
    assert_eq!(plan.max_process_name_len, 8);
    assert_eq!(plan.capacity, 4);
    assert!(logs.fetch(&plan.processes[0], 8).is_err());
    let none = Logs::new(LogsArgs {
        processes: names(&["zeus"]),
        ..args(false, false, false)
    });
    assert!(none.run(&state).is_err());
}

fn package(name: &str, id: &str, kinds: Vec<Vec<TargetKind>>) -> SerializedPackage {
    SerializedPackage {
        name: name.to_owned(),
        id: id.to_owned(),
        targets: kinds
            .into_iter()
            .map(|kind| TargetInner {
                kind,
                name: name.to_owned(),
                bin_name: None,
            })
            .collect(),
    }
}

#[test]
fn discovery_keeps_local_binaries() {
    let info = ExportInfoMinimal {
        packages: vec![
            package(
                "eris",
                "path+file:///ws/eris#0.1.0",
                vec![vec![TargetKind::Lib], vec![TargetKind::Bin]],
            ),
            package(
                "common",
                "path+file:///ws/common#0.1.0",
                vec![vec![TargetKind::Lib, TargetKind::Other("cdylib".to_owned())]],
            ),
            package(
                "serde",
                "registry+https://github.com/rust-lang/crates.io-index#serde@1.0.0",
                vec![vec![TargetKind::Bin]],
            ),
            package(
                "harmonia",
                "PATH+FILE:///ws/harmonia#0.1.0",
                vec![vec![TargetKind::Test, TargetKind::Bin]],
            ),
            package("empty", "path+file:///ws/empty", vec![]),
        ],
    };
    let found = Cargo::metadata(info).unwrap();
    assert_eq!(found.len(), 2);
    assert_eq!(found[0].name, "eris");
    assert_eq!(found[0].id, "path+file:///ws/eris#0.1.0");
    assert_eq!(found[0].targets.len(), 2);
    assert_eq!(found[1].name, "harmonia");
    assert_eq!(found[1].id, "path+file:///ws/harmonia#0.1.0");
    let bin = BinaryPackage::from(package("eris", "path+file:///ws/eris", vec![]));
    assert_eq!(bin.name(), "eris");
    assert_eq!(bin.id, "path+file:///ws/eris");
}

#[test]
fn discovery_refuses_bad_ids() {
    let info = ExportInfoMinimal {
        packages: vec![
            package("a", "path+file:///ws/a", vec![vec![TargetKind::Bin]]),
            package("b", "no url", vec![vec![TargetKind::Bin]]),
            package("c", "neither", vec![]),
        ],
    };
    assert_eq!(
        Cargo::metadata(info).unwrap_err().inner_error,
        InnerError::ToolchainFailure("no url".to_owned())
    );
}

#[test]
fn command_line_conversions() {
    let logs = LogsArgs::from(LogsArgsCli {
        follow: true,
        process_prefix: false,
        tail: true,
        processes: names(&["a"]),
    });
    assert_eq!(
        logs,
        LogsArgs {
            follow: true,
            process_prefix: false,
            tail: true,
            processes: names(&["a"])
        }
    );
    assert_eq!(
        PsArgs::from(PsArgsCli {
            processes: names(&["a", "b"])
        }),
        PsArgs {
            processes: names(&["a", "b"])
        }
    );
    assert_eq!(
        StartArgs::from(StartArgsCli {
            processes: names(&["a"])
        }),
        StartArgs {
            processes: names(&["a"])
        }
    );
    assert_eq!(
        StopArgs::from(StopArgsCli {
            kill: true,
            processes: vec![]
        }),
        StopArgs {
            kill: true,
            processes: vec![]
        }
    );
    let line = PsOutputCli::from(PsOutput {
        name: "eris".to_owned(),
        state: ProcessState::Running,
        pid: Some(3),
    });
    assert_eq!(line.name, "eris");
    assert_eq!(line.state, ProcessState::Running);
    assert_eq!(tabled_display_option(&line.pid), "3");
    assert_eq!(tabled_display_option::<u32>(&None), "");
    assert_eq!(tabled_display_option(&Some("x")), "x");
}

#[test]
fn states_as_words() {
    for (state, word) in [
        (ProcessState::Stopped, "stopped"),
        (ProcessState::Building, "building"),
        (ProcessState::Running, "running"),
        (ProcessState::Unknown, "unknown"),
    ] {
        assert_eq!(state.to_string(), word);
        assert_eq!(ProcessState::try_from(word.to_owned()).unwrap(), state);
    }
    assert_eq!(ProcessState::default(), ProcessState::Stopped);
    assert_eq!(
        ProcessState::try_from("Running".to_owned())
            .unwrap_err()
            .inner_error,
        InnerError::Parse("Running".to_owned())
    );
}

#[test]
fn errors_as_text() {
    let e = Error::new(InnerError::RecursionLoop);
    assert_eq!(e.to_string(), "Recursion loop error");
    assert!(e.debug_context.is_empty());
    let e = e.add_context("first".to_owned());
    let e = Error::with_context(&InnerError::StackNotFound("s".to_owned()), e);
    assert_eq!(
        e.to_string(),
        "Recursion loop error With context:[1] first[2] Stack not found error"
    );
    let mut many = Error::new(InnerError::TryFromInt);
    for i in 0..12 {
        many = many.add_context(format!("c{i}"));
    }
    assert!(many.to_string().ends_with("[10] c9[11] c10[12] c11"));
    assert_eq!(
        lock_error("poisoned".to_owned()).inner_error,
        InnerError::Lock("poisoned".to_owned())
    );
    assert_eq!(
        InnerError::ProcessNotFound(vec![]).to_string(),
        "Process not found error"
    );
}

#[test]
fn process_accessors() {
    let p = Process::from_config(
        "svc".to_owned(),
        jocker::config::ConfigProcess {
            binary: None,
            args: names(&["a"]),
            cargo_args: names(&["b"]),
            env: vec![("K".to_owned(), "V".to_owned())],
        },
    );
    assert_eq!(p.name(), "svc");
    assert_eq!(p.binary(), "svc");
    assert_eq!(p.pid(), &None);
    assert_eq!(p.args(), &names(&["a"])[..]);
    assert_eq!(p.cargo_args(), &names(&["b"])[..]);
    assert_eq!(p.duplicate(), p);
    assert_eq!(Process::new("n", "b").binary(), "b");
}
