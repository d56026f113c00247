use jocker::command::cargo::BinaryPackage;
use jocker::common::{Process, ProcessState, Stack};
use jocker::database::{BinaryPackageSql, Database, ProcessSql};
use jocker::error::InnerError;

fn test_processes() -> Vec<Process> {
    vec![
        Process {
            name: "foo".to_owned(),
            binary: "foo".to_owned(),
            state: ProcessState::Stopped,
            pid: None,
            args: Vec::new(),
            cargo_args: Vec::new(),
            env: Vec::new(),
        },
        Process {
            name: "bar".to_owned(),
            binary: "bar".to_owned(),
            state: ProcessState::Stopped,
            pid: None,
            args: Vec::new(),
            cargo_args: Vec::new(),
            env: Vec::new(),
        },
    ]
}

fn test_stacks() -> Vec<Stack> {
    vec![
        Stack {
            name: "foo".to_owned(),
            processes: vec!["bar".to_owned()],
            inherited_processes: Vec::new(),
        },
        Stack {
            name: "baz".to_owned(),
            processes: vec!["foo".to_owned()],
            inherited_processes: vec!["bar".to_owned()],
        },
    ]
}

#[test]
fn get_set_binaries() {
    let mut db = Database::new();
    let base_url = "file:///tmp/workspace";
    let source_bins = vec![
        BinaryPackage {
            name: "foo".to_owned(),
            id: format!("{base_url}/foo"),
        },
        BinaryPackage {
            name: "bar".to_owned(),
            id: format!("{base_url}/bar"),
        },
        BinaryPackage {
            name: "baz".to_owned(),
            id: format!("{base_url}/baz"),
        },
    ];

    let bins = db.get_binaries();
    assert_eq!(bins.len(), 0);

    db.set_binaries(&source_bins[0..1].to_vec()).unwrap();
    let bins = db.get_binaries();
    assert_eq!(bins.len(), 1);
    assert_eq!(bins[0].name, source_bins[0].name);
    assert_eq!(bins[0].id, source_bins[0].id);

    db.set_binaries(&source_bins[1..2].to_vec()).unwrap();
    let bins = db.get_binaries();
    assert_eq!(bins.len(), 1);
    assert_eq!(bins[0].name, source_bins[1].name);
    assert_eq!(bins[0].id, source_bins[1].id);

    db.set_binaries(&source_bins).unwrap();
    let bins = db.get_binaries();
    assert_eq!(bins.len(), 3);
    assert_eq!(bins[0].name, source_bins[1].name);
    assert_eq!(bins[0].id, source_bins[1].id);
    assert_eq!(bins[1].name, source_bins[2].name);
    assert_eq!(bins[1].id, source_bins[2].id);
    assert_eq!(bins[2].name, source_bins[0].name);
    assert_eq!(bins[2].id, source_bins[0].id);
}

#[test]
fn set_binaries_refuses_a_name_twice() {
    let mut db = Database::new();
    let one = BinaryPackage {
        name: "foo".to_owned(),
        id: "file:///a".to_owned(),
    };
    db.set_binaries(&vec![one.clone()]).unwrap();
    let twice = vec![
        one.clone(),
        BinaryPackage {
            name: "foo".to_owned(),
            id: "file:///b".to_owned(),
        },
    ];
    let e = db.set_binaries(&twice).unwrap_err();
    assert_eq!(
        e.inner_error,
        InnerError::Conflict("artifact name is not unique".to_owned())
    );
    assert_eq!(db.get_binaries(), vec![one]);
}

#[test]
fn get_set_binaries_updated_at() {
    let mut db = Database::new();
    assert!(db.get_binaries_updated_at().is_none());
    let now = 1_700_000_100;
    db.set_binaries_updated_at(now);
    assert_eq!(db.get_binaries_updated_at(), Some(now));
    assert!(db.get_config_updated_at().is_none());
}

#[test]
fn get_set_config_updated_at() {
    let mut db = Database::new();
    assert!(db.get_config_updated_at().is_none());
    let now = 1_700_000_000;
    db.set_config_updated_at(now);
    assert_eq!(db.get_config_updated_at(), Some(now));
    assert!(db.get_binaries_updated_at().is_none());
}

#[test]
fn get_set_default_stack() {
    let mut db = Database::new();

    let stack = db.get_default_stack();
    assert!(stack.is_none());

    let default_stack = None;
    db.set_default_stack(&default_stack).unwrap();
    let stack = db.get_default_stack();
    assert_eq!(stack, default_stack);

    let default_stack = Some("foo".to_owned());
    let err = db.set_default_stack(&default_stack);
    assert!(err.is_err());
    assert_eq!(
        err.unwrap_err().inner_error,
        InnerError::Conflict("foo".to_owned())
    );
    assert!(db.get_default_stack().is_none());

    let processes = test_processes();
    db.set_processes(&processes).unwrap();
    let stacks = test_stacks();
    db.set_stacks(&stacks).unwrap();
    let default_stack = Some("foo".to_owned());
    db.set_default_stack(&default_stack).unwrap();
    let stack = db.get_default_stack();
    assert_eq!(stack, default_stack);

    let default_stack = None;
    db.set_default_stack(&default_stack).unwrap();
    let stack = db.get_default_stack();
    assert_eq!(stack, default_stack);
}

#[test]
fn default_stack_goes_with_the_stacks() {
    let mut db = Database::new();
    db.set_processes(&test_processes()).unwrap();
    db.set_stacks(&test_stacks()).unwrap();
    db.set_default_stack(&Some("foo".to_owned())).unwrap();
    db.set_stacks(&test_stacks()).unwrap();
    assert!(db.get_default_stack().is_none());
}

#[test]
fn get_set_process_properties() {
    let mut db = Database::new();

    let processes = db.get_processes();
    assert!(processes.is_empty());

    let expected_processes = test_processes();
    db.set_processes(&expected_processes).unwrap();
    db.set_process_pid(&expected_processes[0].name, Some(42));
    db.set_process_state(&expected_processes[0].name, ProcessState::Building);
    let processes = db.get_processes();
    assert_eq!(processes.len(), 2);
    assert_eq!(processes[0], expected_processes[1]);
    assert_eq!(processes[1].name, expected_processes[0].name);
    assert_eq!(processes[1].pid(), &Some(42));
    assert_eq!(processes[1].state, ProcessState::Building);

    db.set_process_pid("nobody", Some(7));
    db.set_process_state("nobody", ProcessState::Running);
    assert_eq!(db.get_processes(), processes);
}

#[test]
fn get_set_processes() {
    let mut db = Database::new();

    let processes = db.get_processes();
    assert!(processes.is_empty());

    let expected_processes = test_processes();
    db.set_processes(&expected_processes).unwrap();
    let processes = db.get_processes();
    assert_eq!(processes.len(), 2);
    assert_eq!(processes[0], expected_processes[1]);
    assert_eq!(processes[1], expected_processes[0]);

    db.set_processes(&expected_processes[1..=1].to_vec())
        .unwrap();
    let processes = db.get_processes();
    assert_eq!(processes.len(), 1);
    assert_eq!(processes[0], expected_processes[1]);
}

#[test]
fn set_processes_sorts_by_name() {
    let mut db = Database::new();
    let names = ["b", "ab", "a", "é", "B", "", "abc"];
    let input: Vec<Process> = names.iter().map(|n| Process::new(n, "bin")).collect();
    db.set_processes(&input).unwrap();
    let got: Vec<String> = db.get_processes().into_iter().map(|p| p.name).collect();
    let mut expected: Vec<String> = names.iter().map(|n| n.to_string()).collect();
    expected.sort();
    assert_eq!(got, expected);
    assert_eq!(got, vec!["", "B", "a", "ab", "abc", "b", "é"]);
}

#[test]
fn set_processes_refuses_a_name_twice() {
    let mut db = Database::new();
    db.set_processes(&test_processes()).unwrap();
    let before = db.get_processes();
    let twice = vec![Process::new("x", "x"), Process::new("x", "y")];
    let e = db.set_processes(&twice).unwrap_err();
    assert_eq!(
        e.inner_error,
        InnerError::Conflict("process name is not unique".to_owned())
    );
    assert_eq!(db.get_processes(), before);
}

#[test]
fn get_set_stacks() {
    let mut db = Database::new();

    let stack = db.get_stack("foo").unwrap_err();
    assert!(matches!(stack.inner_error, InnerError::StackNotFound(_)));
    assert_eq!(stack.inner_error, InnerError::StackNotFound("foo".to_owned()));

    let expected_processes = test_processes();
    db.set_processes(&expected_processes).unwrap();
    let expected_stacks = test_stacks();
    db.set_stacks(&expected_stacks).unwrap();
    let stack = db.get_stack("foo").unwrap();
    assert_eq!(&stack.name, "foo");
    assert_eq!(stack.processes, vec!["bar".to_owned()]);
    assert_eq!(stack.inherited_processes, Vec::<String>::new());
    let stack = db.get_stack("baz").unwrap();
    assert_eq!(&stack.name, "baz");
    assert_eq!(stack.processes, vec!["foo".to_owned()]);
    assert_eq!(stack.inherited_processes, vec!["bar".to_owned()]);
    assert_eq!(stack.get_all_processes(), vec!["foo", "bar"]);

    db.set_processes(&expected_processes[1..=1].to_vec())
        .unwrap();
    let processes = db.get_processes();
    assert_eq!(processes.len(), 1);
    assert_eq!(processes[0], expected_processes[1]);

    let stack = db.get_stack("baz").unwrap();
    assert!(stack.processes.is_empty());
    assert!(stack.inherited_processes.is_empty());
}

#[test]
fn set_stacks_checks_processes_first() {
    let mut db = Database::new();
    db.set_processes(&test_processes()).unwrap();
    db.set_stacks(&test_stacks()).unwrap();
    db.set_default_stack(&Some("baz".to_owned())).unwrap();
    let bad = vec![
        Stack {
            name: "ok".to_owned(),
            processes: vec!["foo".to_owned()],
            inherited_processes: vec![],
        },
        Stack {
            name: "s1".to_owned(),
            processes: vec!["ghost".to_owned(), "bar".to_owned()],
            inherited_processes: vec!["phantom".to_owned()],
        },
        Stack {
            name: "s2".to_owned(),
            processes: vec!["other".to_owned()],
            inherited_processes: vec![],
        },
    ];
    let e = db.set_stacks(&bad).unwrap_err();
    assert_eq!(
        e.inner_error,
        InnerError::ProcessNotFound(vec!["ghost".to_owned(), "phantom".to_owned()])
    );
    assert_eq!(db.get_stacks(), test_stacks());
    assert_eq!(db.get_default_stack(), Some("baz".to_owned()));
}

#[test]
fn set_stacks_refuses_a_name_twice() {
    let mut db = Database::new();
    db.set_processes(&test_processes()).unwrap();
    let mut twice = test_stacks();
    twice.push(Stack {
        name: "foo".to_owned(),
        processes: vec![],
        inherited_processes: vec![],
    });
    let e = db.set_stacks(&twice).unwrap_err();
    assert_eq!(
        e.inner_error,
        InnerError::Conflict("stack name is not unique".to_owned())
    );
    assert!(db.get_stacks().is_empty());
}

#[test]
fn duplicate_keeps_the_value() {
    let mut db = Database::new();
    db.set_processes(&test_processes()).unwrap();
    db.set_stacks(&test_stacks()).unwrap();
    db.set_default_stack(&Some("foo".to_owned())).unwrap();
    db.set_config_updated_at(5);
    let copy = db.duplicate();
    assert_eq!(copy.get_processes(), db.get_processes());
    assert_eq!(copy.get_stacks(), db.get_stacks());
    assert_eq!(copy.get_default_stack(), db.get_default_stack());
    assert_eq!(copy.get_config_updated_at(), Some(5));
}

#[test]
fn binary_package_from_row() {
    let ok = BinaryPackage::try_from(BinaryPackageSql {
        name: "foo".to_owned(),
        id: "path+file:///home/me/ws#foo@0.1.0".to_owned(),
    })
    .unwrap();
    assert_eq!(ok.name, "foo");
    assert_eq!(ok.id, "path+file:///home/me/ws#foo@0.1.0");
    let normal = BinaryPackage::try_from(BinaryPackageSql {
        name: "foo".to_owned(),
        id: "HTTP://Example.COM".to_owned(),
    })
    .unwrap();
    assert_eq!(normal.id, "http://example.com/");
    let e = BinaryPackage::try_from(BinaryPackageSql {
        name: "foo".to_owned(),
        id: "not a url".to_owned(),
    })
    .unwrap_err();
    assert_eq!(e.inner_error, InnerError::Parse("not a url".to_owned()));
}

fn row() -> ProcessSql {
    ProcessSql {
        name: "svc".to_owned(),
        binary: "svc-bin".to_owned(),
        state: "running".to_owned(),
        pid: Some(42),
        args: r#"["--port","${PORT}"]"#.to_owned(),
        cargo_args: "[]".to_owned(),
        env: r#"{"Z":"1","A":"2"}"#.to_owned(),
    }
}

#[test]
fn process_from_row() {
    let p = Process::try_from(row()).unwrap();
    assert_eq!(p.name, "svc");
    assert_eq!(p.binary, "svc-bin");
    assert_eq!(p.state, ProcessState::Running);
    assert_eq!(p.pid, Some(42));
    assert_eq!(p.args, vec!["--port", "${PORT}"]);
    assert!(p.cargo_args.is_empty());
    assert_eq!(
        p.env,
        vec![
            ("A".to_owned(), "2".to_owned()),
            ("Z".to_owned(), "1".to_owned())
        ]
    );
}

#[test]
fn process_from_bad_rows() {
    let mut r = row();
    r.state = "healthy".to_owned();
    assert_eq!(
        Process::try_from(r).unwrap_err().inner_error,
        InnerError::Parse("healthy".to_owned())
    );
    let mut r = row();
    r.pid = Some(-1);
    assert_eq!(
        Process::try_from(r).unwrap_err().inner_error,
        InnerError::TryFromInt
    );
    let mut r = row();
    r.pid = Some(4294967296);
    assert_eq!(
        Process::try_from(r).unwrap_err().inner_error,
        InnerError::TryFromInt
    );
    let mut r = row();
    r.args = "{}".to_owned();
    assert_eq!(
        Process::try_from(r).unwrap_err().inner_error,
        InnerError::StateIOError("{}".to_owned())
    );
    let mut r = row();
    r.cargo_args = "[1]".to_owned();
    assert_eq!(
        Process::try_from(r).unwrap_err().inner_error,
        InnerError::StateIOError("[1]".to_owned())
    );
    let mut r = row();
    r.env = "[]".to_owned();
    assert_eq!(
        Process::try_from(r).unwrap_err().inner_error,
        InnerError::StateIOError("[]".to_owned())
    );
}

#[test]
fn row_round_trip() {
    let mut p = Process::new("svc", "bin");
    p.state = ProcessState::Building;
    p.pid = Some(4294967295);
    p.args = vec!["a b".to_owned(), "\"q\"".to_owned()];
    p.cargo_args = vec!["--release".to_owned()];
    p.env = vec![
        ("B".to_owned(), "1".to_owned()),
        ("A".to_owned(), "2".to_owned()),
        ("B".to_owned(), "3".to_owned()),
    ];
    let row = ProcessSql::from(&p).unwrap();
    assert_eq!(row.state, "building");
    assert_eq!(row.pid, Some(4294967295));
    assert_eq!(row.args, r#"["a b","\"q\""]"#);
    assert_eq!(row.cargo_args, r#"["--release"]"#);
    assert_eq!(row.env, r#"{"A":"2","B":"3"}"#);
    let back = Process::try_from(row).unwrap();
    assert_eq!(back.args, p.args);
    assert_eq!(
        back.env,
        vec![
            ("A".to_owned(), "2".to_owned()),
            ("B".to_owned(), "3".to_owned())
        ]
    );
    assert_eq!(back.pid, p.pid);
    assert_eq!(back.state, p.state);
}

#[test]
fn set_stacks_keeps_each_name_once() {
    let mut db = Database::new();
    db.set_processes(&test_processes()).unwrap();
    db.set_stacks(&vec![Stack {
        name: "s".to_owned(),
        processes: vec!["foo".to_owned(), "bar".to_owned(), "foo".to_owned()],
        inherited_processes: vec!["bar".to_owned(), "bar".to_owned()],
    }])
    .unwrap();
    let s = db.get_stack("s").unwrap();
    assert_eq!(s.processes, vec!["foo", "bar"]);
    assert_eq!(s.inherited_processes, vec!["bar"]);
}

#[test]
fn stored_names_ascend() {
    let mut db = Database::new();
    let input: Vec<Process> = ["d", "b", "c", "a"]
        .iter()
        .map(|n| Process::new(n, n))
        .collect();
    db.set_processes(&input).unwrap();
    db.set_process_state("c", ProcessState::Running);
    db.set_process_pid("a", Some(1));
    let names: Vec<String> = db.get_processes().into_iter().map(|p| p.name).collect();
    assert_eq!(names, vec!["a", "b", "c", "d"]);
    assert!(names.windows(2).all(|w| w[0] < w[1]));
}

#[test]
fn stored_environment_is_ordered_by_key() {
    let mut db = Database::new();
    let mut p = Process::new("svc", "svc");
    p.env = vec![
        ("B".to_owned(), "1".to_owned()),
        ("A".to_owned(), "2".to_owned()),
        ("B".to_owned(), "3".to_owned()),
        ("".to_owned(), "4".to_owned()),
    ];
    db.set_processes(&vec![p]).unwrap();
    let stored = db.get_processes();
    assert_eq!(
        stored[0].env,
        vec![
            ("".to_owned(), "4".to_owned()),
            ("A".to_owned(), "2".to_owned()),
            ("B".to_owned(), "3".to_owned()),
        ]
    );
    db.set_process_state("svc", ProcessState::Running);
    assert_eq!(db.get_processes()[0].env, stored[0].env);
}
