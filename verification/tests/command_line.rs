use hyprlog::cli::{parse_args, settings_for, DaemonCommand, Invocation, RunOptions};
use hyprlog::interval::Interval;
use hyprlog::tables::table_widths;

fn args(list: &[&str]) -> Vec<String> {
    let mut v = vec!["hyprlog".to_string()];
    v.extend(list.iter().map(|a| a.to_string()));
    v
}

fn no_mappings() -> Vec<(String, String)> {
    Vec::new()
}

#[test]
fn no_arguments_runs_with_defaults() {
    match parse_args(&args(&[]), &no_mappings()) {
        Invocation::Run(o) => {
            assert!(!o.full && !o.multi_timeline);
            assert_eq!(o.class_arg, "");
            assert_eq!(o.days, None);
        }
        _ => panic!("expected a run"),
    }
}

#[test]
fn daemon_commands_and_help() {
    assert!(matches!(parse_args(&args(&["--idle"]), &no_mappings()), Invocation::Send(DaemonCommand::Idle)));
    assert!(matches!(parse_args(&args(&["--resume"]), &no_mappings()), Invocation::Send(DaemonCommand::Resume)));
    assert!(matches!(parse_args(&args(&["--help"]), &no_mappings()), Invocation::Help));
    assert!(matches!(parse_args(&args(&["-h", "--full"]), &no_mappings()), Invocation::Help));
    assert!(matches!(parse_args(&args(&["--full", "--idle"]), &no_mappings()), Invocation::UnknownArgument(a) if a == "--idle"));
}

#[test]
fn options_are_gathered() {
    let mappings = vec![("org.mozilla.firefox".to_string(), "firefox".to_string())];
    match parse_args(&args(&["-f", "--multi", "-c", "org.mozilla.firefox", "--days", "3", "-d", "7"]), &mappings) {
        Invocation::Run(o) => {
            assert!(o.full && o.multi_timeline);
            assert_eq!(o.class_arg, "firefox");
            assert_eq!(o.days, Some(7));
        }
        _ => panic!("expected a run"),
    }
    match parse_args(&args(&["--class", "-f"]), &no_mappings()) {
        Invocation::Run(o) => {
            assert!(!o.full);
            assert_eq!(o.class_arg, "-f");
        }
        _ => panic!("expected a run"),
    }
}

#[test]
fn bad_command_lines() {
    assert!(matches!(parse_args(&args(&["--days", "many"]), &no_mappings()), Invocation::InvalidDays));
    assert!(matches!(parse_args(&args(&["--days", "-1"]), &no_mappings()), Invocation::InvalidDays));
    assert!(matches!(parse_args(&args(&["--bogus", "--days", "x"]), &no_mappings()), Invocation::UnknownArgument(a) if a == "--bogus"));
    assert!(matches!(parse_args(&args(&["--class"]), &no_mappings()), Invocation::MissingClass));
    assert!(matches!(parse_args(&args(&["-f", "-d"]), &no_mappings()), Invocation::MissingDays));
}

#[test]
fn table_column_widths() {
    assert_eq!(table_widths(40, 8), (23, 8, 9));
    assert_eq!(table_widths(10, 8), (0, 8, 9));
}

#[test]
fn settings_from_options() {
    let today = Interval::new(1_000, 87_401_000);
    let options = RunOptions { full: true, multi_timeline: false, class_arg: "kitty".to_string(), days: None };
    let mappings = vec![("a".to_string(), "b".to_string())];
    let s = settings_for(today, options, mappings.clone());
    assert!(s.full && !s.multi_timeline);
    assert_eq!(s.class_arg, "kitty");
    assert_eq!(s.class_mappings, mappings);
    assert_eq!(s.focused_interval, today);
    assert_eq!((s.loaded_interval.start, s.loaded_interval.end), (1_000, 1_000));
}
