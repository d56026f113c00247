use jocker::command::cargo::BinaryPackage;
use jocker::command::pueue::ScheduledTask;
use jocker::common::{Process, ProcessState, Stack, TaskStatus};
use jocker::config::{ConfigDefault, ConfigFile, ConfigProcess, ConfigProcessDefault, ConfigStack};
use jocker::error::InnerError;
use jocker::refresh::{
    elapsed_since, needs_to_refresh, rebuild_processes, reconcile, recurse_inherited_processes,
    resolve_stacks,
};

fn stack(inherits: &[&str], processes: &[&str]) -> ConfigStack {
    ConfigStack {
        inherits: inherits.iter().map(|s| s.to_string()).collect(),
        processes: processes.iter().map(|s| s.to_string()).collect(),
    }
}

fn chain(ancestors: usize) -> Vec<(String, ConfigStack)> {
    let mut table = Vec::new();
    for i in 0..=ancestors {
        let inherits: Vec<String> = if i < ancestors {
            vec![format!("s{}", i + 1)]
        } else {
            vec![]
        };
        table.push((
            format!("s{i}"),
            ConfigStack {
                inherits,
                processes: vec![format!("p{i}")],
            },
        ));
    }
    table
}

fn inherited_of(table: &Vec<(String, ConfigStack)>, at: usize) -> Result<Vec<String>, InnerError> {
    let mut browsed = Vec::new();
    recurse_inherited_processes(0, &table[at].1.inherits, table, &mut browsed, Vec::new())
        .map_err(|e| e.inner_error)
}

#[test]
fn inheritance_of_depth_ten_succeeds() {
    let table = chain(10);
    let inherited = inherited_of(&table, 0).unwrap();
    let expected: Vec<String> = (1..=10).map(|i| format!("p{i}")).collect();
    assert_eq!(inherited, expected);
}

#[test]
fn inheritance_of_depth_eleven_fails() {
    let table = chain(11);
    assert_eq!(
        inherited_of(&table, 0).unwrap_err(),
        InnerError::RecursionDepthExceeded
    );
    assert!(inherited_of(&table, 1).is_ok());
    assert_eq!(
        resolve_stacks(&table).unwrap_err().inner_error,
        InnerError::RecursionDepthExceeded
    );
}

#[test]
fn inheritance_cycle_fails() {
    let table = vec![
        ("A".to_owned(), stack(&["B"], &["a"])),
        ("B".to_owned(), stack(&["A"], &["b"])),
    ];
    assert_eq!(inherited_of(&table, 0).unwrap_err(), InnerError::RecursionLoop);
    assert_eq!(inherited_of(&table, 1).unwrap_err(), InnerError::RecursionLoop);
}

#[test]
fn self_inheritance_fails() {
    let table = vec![("A".to_owned(), stack(&["A"], &["a"]))];
    assert_eq!(inherited_of(&table, 0).unwrap_err(), InnerError::RecursionLoop);
}

#[test]
fn shared_ancestor_is_no_loop() {
    let table = vec![
        ("top".to_owned(), stack(&["left", "right"], &[])),
        ("left".to_owned(), stack(&["base"], &["l"])),
        ("right".to_owned(), stack(&["base"], &["r"])),
        ("base".to_owned(), stack(&[], &["b"])),
    ];
    assert_eq!(inherited_of(&table, 0).unwrap(), vec!["l", "b", "r"]);
    assert_eq!(inherited_of(&table, 1).unwrap(), vec!["b"]);
}

#[test]
fn diamond_inherits_each_process_once() {
    let table = vec![
        ("A".to_owned(), stack(&["B", "C"], &[])),
        ("B".to_owned(), stack(&["D"], &["b"])),
        ("C".to_owned(), stack(&["D"], &["c"])),
        ("D".to_owned(), stack(&[], &["d"])),
    ];
    assert_eq!(inherited_of(&table, 0).unwrap(), vec!["b", "d", "c"]);
    let stacks = resolve_stacks(&table).unwrap();
    assert_eq!(stacks[0].inherited_processes, vec!["b", "d", "c"]);
    assert_eq!(stacks[1].inherited_processes, vec!["d"]);
    assert_eq!(stacks[3].inherited_processes, Vec::<String>::new());
}

#[test]
fn loop_below_a_shared_ancestor_fails() {
    let table = vec![
        ("A".to_owned(), stack(&["B", "C"], &[])),
        ("B".to_owned(), stack(&["D"], &["b"])),
        ("C".to_owned(), stack(&["D"], &["c"])),
        ("D".to_owned(), stack(&["C"], &["d"])),
    ];
    assert_eq!(inherited_of(&table, 0).unwrap_err(), InnerError::RecursionLoop);
    let own = vec![
        ("A".to_owned(), stack(&["B"], &["a"])),
        ("B".to_owned(), stack(&["C"], &["b"])),
        ("C".to_owned(), stack(&["A"], &["c"])),
    ];
    assert_eq!(inherited_of(&own, 0).unwrap_err(), InnerError::RecursionLoop);
}

#[test]
fn missing_stack_fails() {
    let table = vec![("A".to_owned(), stack(&["nowhere"], &["a"]))];
    assert_eq!(
        inherited_of(&table, 0).unwrap_err(),
        InnerError::StackNotFound("nowhere".to_owned())
    );
}

#[test]
fn inherited_is_the_union_over_ancestors() {
    let table = vec![
        ("full".to_owned(), stack(&["base", "extra"], &["harmonia"])),
        ("base".to_owned(), stack(&[], &["eris", "shared"])),
        ("extra".to_owned(), stack(&["deep"], &["shared", "ares"])),
        ("deep".to_owned(), stack(&[], &["athena", "eris"])),
    ];
    let stacks = resolve_stacks(&table).unwrap();
    assert_eq!(stacks.len(), 4);
    assert_eq!(stacks[0].name, "full");
    assert_eq!(stacks[0].processes, vec!["harmonia"]);
    assert_eq!(
        stacks[0].inherited_processes,
        vec!["eris", "shared", "ares", "athena"]
    );
    assert_eq!(stacks[1].inherited_processes, Vec::<String>::new());
    assert_eq!(stacks[2].inherited_processes, vec!["athena", "eris"]);
    assert_eq!(
        stacks[0].get_all_processes(),
        vec!["harmonia", "eris", "shared", "ares", "athena"]
    );
}

#[test]
fn browsed_stacks_come_back_as_they_were() {
    let table = chain(3);
    let mut browsed = vec!["before".to_owned()];
    let got = recurse_inherited_processes(
        0,
        &table[0].1.inherits,
        &table,
        &mut browsed,
        vec!["seed".to_owned()],
    )
    .unwrap();
    assert_eq!(got, vec!["seed", "p1", "p2", "p3"]);
    assert_eq!(browsed, vec!["before"]);
    let mut on_the_way = vec!["s2".to_owned()];
    let e = recurse_inherited_processes(0, &table[0].1.inherits, &table, &mut on_the_way, vec![])
        .unwrap_err();
    assert_eq!(e.inner_error, InnerError::RecursionLoop);
    assert_eq!(on_the_way, vec!["s2"]);
}

fn task(label: &str, id: usize, status: TaskStatus) -> ScheduledTask {
    ScheduledTask {
        label: label.to_owned(),
        id,
        status,
    }
}

#[test]
fn reconcile_follows_the_scheduler() {
    let mut running = Process::new("eris", "eris");
    running.state = ProcessState::Running;
    running.pid = Some(3);
    let processes = vec![
        running,
        Process::new("harmonia", "harmonia"),
        Process::new("ares", "ares"),
        Process::new("athena", "athena"),
    ];
    let tasks = vec![
        task("harmonia", 1, TaskStatus::Done),
        task("harmonia", 7, TaskStatus::Running),
        task("ares", 8, TaskStatus::Queued),
        task("athena", 9, TaskStatus::Paused),
        task("NONE", 10, TaskStatus::Running),
    ];
    let runtime = reconcile(&processes, &tasks).unwrap();
    assert_eq!(
        runtime,
        vec![
            (None, ProcessState::Stopped),
            (Some(7), ProcessState::Running),
            (Some(8), ProcessState::Unknown),
            (Some(9), ProcessState::Stopped),
        ]
    );
}

#[test]
fn reconcile_refuses_large_handles() {
    let processes = vec![Process::new("eris", "eris")];
    let fits = vec![task("eris", 2147483647, TaskStatus::Running)];
    assert_eq!(
        reconcile(&processes, &fits).unwrap(),
        vec![(Some(2147483647), ProcessState::Running)]
    );
    let large = vec![task("eris", 2147483648, TaskStatus::Running)];
    assert_eq!(
        reconcile(&processes, &large).unwrap_err().inner_error,
        InnerError::TryFromInt
    );
    let other = vec![task("other", 2147483648, TaskStatus::Running)];
    assert!(reconcile(&processes, &other).is_ok());
}

#[test]
fn state_mapping() {
    assert_eq!(ProcessState::from(TaskStatus::Running), ProcessState::Running);
    assert_eq!(ProcessState::from(TaskStatus::Paused), ProcessState::Stopped);
    assert_eq!(ProcessState::from(TaskStatus::Done), ProcessState::Stopped);
    assert_eq!(ProcessState::from(TaskStatus::Queued), ProcessState::Unknown);
    assert_eq!(ProcessState::from(TaskStatus::Stashed), ProcessState::Unknown);
    assert_eq!(ProcessState::from(TaskStatus::Locked), ProcessState::Unknown);
}

fn config() -> ConfigFile {
    ConfigFile {
        default: Some(ConfigDefault {
            stack: None,
            process: Some(ConfigProcessDefault {
                cargo_args: vec!["--features".to_owned(), "dev".to_owned()],
            }),
        }),
        stacks: vec![],
        processes: vec![
            (
                "svc".to_owned(),
                ConfigProcess {
                    binary: Some("svc-bin".to_owned()),
                    args: vec!["--port".to_owned(), "${PORT:-8080}".to_owned()],
                    cargo_args: vec!["--release".to_owned()],
                    env: vec![("PORT".to_owned(), "9000".to_owned())],
                },
            ),
            (
                "plain".to_owned(),
                ConfigProcess {
                    binary: None,
                    args: vec![],
                    cargo_args: vec![],
                    env: vec![],
                },
            ),
        ],
    }
}

#[test]
fn rebuild_from_config_keeps_runtime() {
    let mut old = Process::new("plain", "old-binary");
    old.state = ProcessState::Running;
    old.pid = Some(12);
    old.args = vec!["stale".to_owned()];
    let previous = vec![Process::new("gone", "gone"), old];
    let binaries = vec![BinaryPackage {
        name: "ignored".to_owned(),
        id: "file:///x".to_owned(),
    }];
    let rebuilt = rebuild_processes(&Some(config()), &binaries, &previous);
    assert_eq!(rebuilt.len(), 2);
    assert_eq!(rebuilt[0].name, "svc");
    assert_eq!(rebuilt[0].binary, "svc-bin");
    assert_eq!(rebuilt[0].state, ProcessState::Stopped);
    assert_eq!(rebuilt[0].pid, None);
    assert_eq!(rebuilt[0].args, vec!["--port", "${PORT:-8080}"]);
    assert_eq!(rebuilt[0].cargo_args, vec!["--release", "--features", "dev"]);
    assert_eq!(
        rebuilt[0].env,
        vec![("PORT".to_owned(), "9000".to_owned())]
    );
    assert_eq!(rebuilt[1].name, "plain");
    assert_eq!(rebuilt[1].binary, "plain");
    assert_eq!(rebuilt[1].state, ProcessState::Running);
    assert_eq!(rebuilt[1].pid, Some(12));
    assert!(rebuilt[1].args.is_empty());
    assert_eq!(rebuilt[1].cargo_args, vec!["--features", "dev"]);
}

#[test]
fn rebuild_from_artifacts() {
    let binaries = vec![
        BinaryPackage {
            name: "eris".to_owned(),
            id: "file:///e".to_owned(),
        },
        BinaryPackage {
            name: "harmonia".to_owned(),
            id: "file:///h".to_owned(),
        },
    ];
    let mut old = Process::new("eris", "eris");
    old.state = ProcessState::Unknown;
    old.pid = Some(1);
    let rebuilt = rebuild_processes(&None, &binaries, &vec![old.clone()]);
    assert_eq!(rebuilt, vec![old, Process::new("harmonia", "harmonia")]);
}

#[test]
fn freshness() {
    assert!(!needs_to_refresh(&vec![], 100));
    assert!(needs_to_refresh(&vec![500, 99], 100));
    assert!(!needs_to_refresh(&vec![100, 101], 100));
    assert!(!needs_to_refresh(&vec![0], 0));
    assert_eq!(elapsed_since(Some(100), 160), 60);
    assert_eq!(elapsed_since(Some(160), 100), 0);
    assert_eq!(elapsed_since(None, 1_700_000_000), 1_700_000_000);
    assert_eq!(elapsed_since(None, -5), 0);
    assert_eq!(elapsed_since(Some(-10), 5), 15);
    assert_eq!(elapsed_since(Some(-10), -4), 6);
    assert_eq!(elapsed_since(Some(i64::MIN), i64::MAX), i64::MAX as u64);
    assert_eq!(elapsed_since(Some(i64::MIN), -1), i64::MAX as u64);
    assert_eq!(elapsed_since(Some(-1), i64::MAX), i64::MAX as u64);
    assert_eq!(elapsed_since(Some(0), i64::MAX), i64::MAX as u64);
}

#[test]
fn stack_value() {
    let s = Stack {
        name: "s".to_owned(),
        processes: vec!["a".to_owned(), "b".to_owned(), "a".to_owned()],
        inherited_processes: vec!["b".to_owned(), "c".to_owned()],
    };
    assert_eq!(s.get_all_processes(), vec!["a", "b", "c"]);
    assert_eq!(s.duplicate(), s);
}
