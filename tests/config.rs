use mesa::{Config, ConfigError, FilterMode};

fn strings(v: &[&str]) -> Vec<String> {
    v.iter().map(|s| s.to_string()).collect()
}

#[test]
fn test_bad_args() {
    let args = vec![];
    let config = Config::new(args);
    assert!(config.is_err());

    let args = vec!["--".to_string()];
    let config = Config::new(args);
    assert!(config.is_err());

    let args = vec!["-i".to_string(), "--".to_string()];
    let config = Config::new(args);
    assert!(config.is_err());
}

#[test]
fn test_config_options() {
    let args: Vec<String> = vec![
        "--database=/this/mesa.data",
        "--output=/that/output.txt",
        "--note=this is just a test",
        "--filter=all",
        "--show=10",
        "--runs=17",
        "--ignore",
        "--dry-run",
        "--",
        "proggy",
        "arg1",
    ].into_iter().map(String::from).collect();
    let config = Config::new(args).unwrap();
    assert_eq!(config.database, "/this/mesa.data");
    assert_eq!(config.output, "/that/output.txt");
    assert_eq!(config.filter, FilterMode::All);
    assert_eq!(config.show, 10);
    assert_eq!(config.runs, 17);
    assert_eq!(config.ignore_failure, true);
    assert_eq!(config.dry_run, true);
    assert_eq!(config.note, "this is just a test");
    assert_eq!(config.executable, "proggy");
    assert_eq!(config.arguments, vec!["arg1"]);
}

#[test]
fn config_defaults() {
    let config = Config::new(strings(&["--", "ls"])).unwrap();
    assert_eq!(config.database, ".mesa.data");
    assert_eq!(config.output, "stdout");
    assert_eq!(config.note, "");
    assert_eq!(config.filter, FilterMode::Exe);
    assert_eq!(config.show, 5);
    assert_eq!(config.runs, 1);
    assert_eq!(config.runs_warmup, 0);
    assert!(!config.ignore_failure);
    assert!(!config.dry_run);
    assert!(!config.verbose);
    assert_eq!(config.executable, "ls");
    assert!(config.arguments.is_empty());
}

#[test]
fn config_short_forms_and_equals_in_value() {
    let config = Config::new(strings(&[
        "-d=a=b", "-o=x.csv", "-f=exact", "-s=+3", "-r=2", "-w=4", "-i", "-v", "--", "p", "--", "q",
    ]))
    .unwrap();
    assert_eq!(config.database, "a=b");
    assert_eq!(config.output, "x.csv");
    assert_eq!(config.filter, FilterMode::Exact);
    assert_eq!(config.show, 3);
    assert_eq!(config.runs, 2);
    assert_eq!(config.runs_warmup, 4);
    assert!(config.ignore_failure);
    assert!(config.verbose);
    assert_eq!(config.executable, "p");
    assert_eq!(config.arguments, vec!["--", "q"]);
}

#[test]
fn config_errors() {
    match Config::new(strings(&["--filter=some", "--", "p"])) {
        Err(ConfigError::UnknownMode(a)) => assert_eq!(a, "--filter=some"),
        other => panic!("unexpected {:?}", other),
    }
    match Config::new(strings(&["--runs=x", "--", "p"])) {
        Err(ConfigError::BadNumber(a)) => assert_eq!(a, "--runs=x"),
        other => panic!("unexpected {:?}", other),
    }
    match Config::new(strings(&["--show=-1", "--", "p"])) {
        Err(ConfigError::BadNumber(a)) => assert_eq!(a, "--show=-1"),
        other => panic!("unexpected {:?}", other),
    }
    match Config::new(strings(&["--bogus", "--", "p"])) {
        Err(ConfigError::UnknownParameter(a)) => assert_eq!(a, "--bogus"),
        other => panic!("unexpected {:?}", other),
    }
    match Config::new(strings(&["--colour=red", "--", "p"])) {
        Err(ConfigError::UnknownParameter(a)) => assert_eq!(a, "--colour=red"),
        other => panic!("unexpected {:?}", other),
    }
    assert!(matches!(Config::new(strings(&["-i", "-h", "--bogus"])), Err(ConfigError::RequestedHelp)));
    match Config::new(strings(&["-i", "p"])) {
        Err(ConfigError::UnknownParameter(a)) => assert_eq!(a, "p"),
        other => panic!("unexpected {:?}", other),
    }
    assert!(matches!(Config::new(strings(&["-i"])), Err(ConfigError::MissingTarget)));
    assert!(matches!(Config::new(strings(&["--"])), Err(ConfigError::MissingTarget)));
}

#[test]
fn config_build_skips_program_name() {
    let config = Config::build(strings(&["mesa", "--runs=3", "--", "make", "all"])).unwrap();
    assert_eq!(config.runs, 3);
    assert_eq!(config.executable, "make");
    assert_eq!(config.arguments, vec!["all"]);
    assert!(matches!(Config::build(vec![]), Err(ConfigError::MissingTarget)));
}

#[test]
fn config_messages_and_help() {
    let e = Config::new(strings(&["--x", "--", "p"])).unwrap_err();
    assert_eq!(e.message(), "Unknown parameter: --x");
    let help = Config::help("mesa");
    assert!(help.starts_with("Usage: mesa [mesa options] -- <program> [program arguments]\n"));
    assert!(help.contains("--filter=<mode>"));
}
