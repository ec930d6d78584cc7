use wiredock::args::{CliArgs, CliError};
use wiredock::logger::StderrLogger;

fn args(v: &[&str]) -> Vec<String> {
    v.iter().map(|s| s.to_string()).collect()
}

#[test]
fn cli_defaults() {
    let a = CliArgs::parse_slice(&[]).unwrap();
    assert_eq!(a.log_level, 1);
    assert!(!a.help_requested);
}

#[test]
fn cli_reads_levels_and_help() {
    let a = CliArgs::parse_slice(&args(&["--log-level=warn", "-h"])).unwrap();
    assert_eq!(a.log_level, 2);
    assert!(a.help_requested);
    let a = CliArgs::parse_slice(&args(&["--log-level=error", "--log-level=trace", "--help"])).unwrap();
    assert_eq!(a.log_level, 0);
    assert!(a.help_requested);
}

#[test]
fn cli_refuses_unknown_arguments_and_values() {
    match CliArgs::parse_slice(&args(&["--verbose"])) {
        Err(e) => {
            assert!(matches!(e, CliError::Unknown(ref s) if s == "--verbose"));
            assert_eq!(e.to_string(), "unknown argument: --verbose");
        },
        Ok(_) => panic!("accepted"),
    }
    match CliArgs::parse_slice(&args(&["--log-level=loud", "--bogus"])) {
        Err(e) => assert_eq!(e.to_string(), "invalid value: --log-level=loud"),
        Ok(_) => panic!("accepted"),
    }
}

#[test]
fn usage_text_is_the_documented_one() {
    assert!(CliArgs::usage().starts_with("usage: wiredock [--log-level=trace|info|warn|error] [--help]\n"));
}

#[test]
fn logger_filters_by_level() {
    let l = StderrLogger::new(2);
    assert_eq!(l.info_line("hello"), None);
    assert_eq!(l.warn_line("careful"), Some("[WARN ] careful".to_string()));
    assert_eq!(l.error_line("boom"), Some("[ERROR] boom".to_string()));
    let t = StderrLogger::new(0);
    assert_eq!(t.info_line("up"), Some("[INFO ] up".to_string()));
    assert_eq!(t.line(0, "TRACE", "x"), Some("[TRACE] x".to_string()));
}
