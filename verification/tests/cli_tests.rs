use float_clock::cli::{parse_args, Command, USAGE};

fn argv(list: &[&str]) -> Vec<String> {
    list.iter().map(|s| s.to_string()).collect()
}

#[test]
fn flags_take_values_either_way() {
    let Command::Run(args) = parse_args(&argv(&["--config", "a.toml", "--target=20:29", "--print", "--scale=2"])).unwrap() else {
        panic!("expected a run")
    };
    assert_eq!(args.config.as_deref(), Some("a.toml"));
    assert_eq!(args.target.as_deref(), Some("20:29"));
    assert_eq!(args.scale.as_deref(), Some("2"));
    assert!(args.print);
    assert!(!args.diagnose);
    let Command::Run(args) = parse_args(&argv(&["--offset=a=b"])).unwrap() else {
        panic!("expected a run")
    };
    assert_eq!(args.offset.as_deref(), Some("a=b"));
}

#[test]
fn help_and_version_stop_reading() {
    assert!(matches!(parse_args(&argv(&["-h", "--bogus"])), Ok(Command::Help)));
    assert!(matches!(parse_args(&argv(&["--print", "--version"])), Ok(Command::Version)));
    assert!(USAGE.contains("--render-png <PATH>"));
}

#[test]
fn mistakes_are_named() {
    assert_eq!(parse_args(&argv(&["--bogus=1"])).unwrap_err(), "unrecognised argument: --bogus (try --help)");
    assert_eq!(parse_args(&argv(&["--now"])).unwrap_err(), "--now needs a value after it");
    assert!(matches!(parse_args(&argv(&[])), Ok(Command::Run(_))));
}

#[test]
fn relaunch_markers_are_passed_over() {
    let argv: Vec<String> = vec!["--as-uia".into(), "--print".into(), "--as-elevated".into()];
    match parse_args(&argv) {
        Ok(Command::Run(args)) => assert!(args.print),
        other => panic!("unexpected: {other:?}"),
    }
}
