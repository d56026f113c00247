use jocker::common::{Process, ProcessState};
use jocker::start::{envsubst, Start, StartArgs};

fn env(pairs: &[(&str, &str)]) -> Vec<(String, String)> {
    pairs
        .iter()
        .map(|(k, v)| (k.to_string(), v.to_string()))
        .collect()
}

#[test]
fn start_test_envsubst() {
    let mut env: Vec<(String, String)> = Vec::new();
    assert_eq!(&envsubst("${FOO:-baz}", &env), "baz");
    env.push(("FOO".to_string(), "BAR".to_string()));
    assert_eq!(&envsubst("FOO", &env), "FOO");
    assert_eq!(&envsubst("${FOO}", &env), "BAR");
    assert_eq!(&envsubst("${FOO:-baz}", &env), "BAR");
}

#[test]
fn envsubst_boundaries() {
    assert_eq!(envsubst("${X:-d}", &env(&[])), "d");
    assert_eq!(envsubst("${X}", &env(&[("X", "v")])), "v");
    assert_eq!(envsubst("X", &env(&[("X", "v")])), "X");
    assert_eq!(envsubst("${X}", &env(&[])), "");
}

#[test]
fn envsubst_empty_value_takes_default() {
    assert_eq!(envsubst("${X:-d}", &env(&[("X", "")])), "d");
    assert_eq!(envsubst("${X}", &env(&[("X", "")])), "");
}

#[test]
fn envsubst_keeps_what_is_no_placeholder() {
    let e = env(&[("A", "1"), ("B_2", "two")]);
    assert_eq!(envsubst("a${A}b${B_2}c", &e), "a1btwoc");
    assert_eq!(envsubst("${A", &e), "${A");
    assert_eq!(envsubst("$A}", &e), "$A}");
    assert_eq!(envsubst("${A B}", &e), "${A B}");
    assert_eq!(envsubst("${a${A}", &e), "${a1");
    assert_eq!(envsubst("${}", &e), "");
    assert_eq!(envsubst("é${A}ü", &e), "é1ü");
    assert_eq!(envsubst("", &e), "");
}

#[test]
fn envsubst_default_forms() {
    let e = env(&[]);
    assert_eq!(envsubst("${X:-a:-b}", &e), "a");
    assert_eq!(envsubst("${X:-}", &e), "");
    assert_eq!(envsubst("${X:-/a/b.c[0]}", &e), "/a/b.c[0]");
    assert_eq!(envsubst("${:-d}", &e), "d");
}

#[test]
fn envsubst_last_entry_counts() {
    assert_eq!(envsubst("${X}", &env(&[("X", "a"), ("X", "b")])), "b");
}

fn svc() -> Process {
    Process {
        name: "svc".to_owned(),
        binary: "svc".to_owned(),
        state: ProcessState::Building,
        pid: None,
        args: vec!["--port".to_owned(), "${PORT:-8080}".to_owned()],
        cargo_args: vec![],
        env: env(&[("PORT", "9000")]),
    }
}

#[test]
fn launch_expands_args_with_merged_env() {
    let start = Start::new(StartArgs { processes: vec![] });
    let launch = start
        .run(&svc(), &env(&[("PORT", "1"), ("HOME", "/h")]))
        .unwrap();
    assert_eq!(launch.label, "svc");
    assert_eq!(launch.command, "./target/debug/svc --port 9000");
    assert_eq!(launch.env, env(&[("PORT", "9000"), ("HOME", "/h")]));
}

#[test]
fn launch_without_env_uses_default() {
    let start = Start::new(StartArgs { processes: vec![] });
    let mut p = svc();
    p.env = vec![];
    p.binary = "other".to_owned();
    let launch = start.run(&p, &vec![]).unwrap();
    assert_eq!(launch.command, "./target/debug/other --port 8080");
    assert!(launch.env.is_empty());
}

#[test]
fn launch_skips_started_process() {
    let start = Start::new(StartArgs { processes: vec![] });
    let mut p = svc();
    p.state = ProcessState::Running;
    assert!(start.run(&p, &vec![]).is_none());
    p.state = ProcessState::Unknown;
    assert!(start.run(&p, &vec![]).is_none());
    p.state = ProcessState::Stopped;
    assert!(start.run(&p, &vec![]).is_some());
}

#[test]
fn build_command_has_each_flag_and_binary_once() {
    let start = Start::new(StartArgs { processes: vec![] });
    let mut a = Process::new("a", "bin_a");
    a.cargo_args = vec!["--release".to_owned(), "-q".to_owned()];
    let mut b = Process::new("b", "bin_b");
    b.cargo_args = vec!["-q".to_owned()];
    let c = Process::new("c", "bin_a");
    let args = start.build(&vec![a, b, c]);
    assert_eq!(
        args,
        vec!["build", "--release", "-q", "--bin=bin_a", "--bin=bin_b"]
    );
}

#[test]
fn launch_environment_sets_each_key_once() {
    let start = Start::new(StartArgs { processes: vec![] });
    let mut p = svc();
    p.env = env(&[("A", "1"), ("B", "2"), ("A", "3")]);
    let launch = start
        .run(&p, &env(&[("B", "0"), ("C", "c"), ("C", "d")]))
        .unwrap();
    assert_eq!(launch.env, env(&[("B", "2"), ("C", "d"), ("A", "3")]));
}
