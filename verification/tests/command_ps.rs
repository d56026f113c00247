use jocker::command::kill::{kill, kill_parent_and_children, KillArgs, KillSignal};
use jocker::command::ps::{ps, PsArgs, PsOutput};
use jocker::error::InnerError;

#[test]
fn test_ps_output_from_str() {
    let output = PsOutput::from_str("1234  4123980").unwrap();
    assert_eq!(output.ppid, 1234);
    assert_eq!(output.pid, 4123980);
}

#[test]
fn ps_output_missing_parts() {
    let e = PsOutput::from_str("   ").unwrap_err();
    assert_eq!(
        e.inner_error,
        InnerError::Parse("Missing ppid part from ps output".to_owned())
    );
    let e = PsOutput::from_str(" 12 ").unwrap_err();
    assert_eq!(
        e.inner_error,
        InnerError::Parse("Missing pid part from ps output".to_owned())
    );
}

#[test]
fn ps_output_bad_numbers() {
    let e = PsOutput::from_str("x12 3").unwrap_err();
    assert_eq!(e.inner_error, InnerError::ParseInt("x12".to_owned()));
    let e = PsOutput::from_str("12 4294967296").unwrap_err();
    assert_eq!(e.inner_error, InnerError::ParseInt("4294967296".to_owned()));
    let ok = PsOutput::from_str("+7\t4294967295 trailing").unwrap();
    assert_eq!(ok.ppid, 7);
    assert_eq!(ok.pid, 4294967295);
}

#[test]
fn ps_filters_children() {
    let lines = vec![
        "1 10".to_owned(),
        "10 11".to_owned(),
        "10 12".to_owned(),
        "2 13".to_owned(),
        "10 11".to_owned(),
    ];
    assert_eq!(ps(PsArgs { ppid: Some(10) }, &lines).unwrap(), vec![11, 12]);
    assert_eq!(
        ps(PsArgs { ppid: None }, &lines).unwrap(),
        vec![10, 11, 12, 13]
    );
    let bad = vec!["1 10".to_owned(), "oops".to_owned()];
    assert!(ps(PsArgs { ppid: None }, &bad).is_err());
}

#[test]
fn kill_family() {
    let lines = vec!["1 10".to_owned(), "10 11".to_owned(), "10 12".to_owned()];
    let signals = kill_parent_and_children(
        KillArgs {
            pid: 10,
            signal: KillSignal::Kill,
        },
        &lines,
    )
    .unwrap();
    let pids: Vec<u32> = signals.iter().map(|s| s.pid).collect();
    assert_eq!(pids, vec![11, 12, 10]);
    assert!(signals.iter().all(|s| s.signal == KillSignal::Kill));
    assert_eq!(
        kill(KillArgs {
            pid: 4123980,
            signal: KillSignal::default()
        }),
        vec!["-s".to_owned(), "TERM".to_owned(), "4123980".to_owned()]
    );
}

#[test]
fn ps_output_splits_at_white_space_only() {
    let ok = PsOutput::from_str("\u{2003}12\u{a0}\u{3000}34\u{85}").unwrap();
    assert_eq!(ok.ppid, 12);
    assert_eq!(ok.pid, 34);
    let ok = PsOutput::from_str("1\u{b}2").unwrap();
    assert_eq!((ok.ppid, ok.pid), (1, 2));
    let e = PsOutput::from_str("12\u{200b}34 5").unwrap_err();
    assert_eq!(e.inner_error, InnerError::ParseInt("12\u{200b}34".to_owned()));
    let e = PsOutput::from_str("1\u{1c}2 3").unwrap_err();
    assert_eq!(e.inner_error, InnerError::ParseInt("1\u{1c}2".to_owned()));
}
