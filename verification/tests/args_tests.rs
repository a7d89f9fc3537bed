use head::args::resolve;
use head::config::{ArgError, Filter, Outcome};

#[test]
fn help_long_anywhere_wins() {
    let args = vec!["x".to_string(), "--help".to_string(), "-c".to_string()];
    assert!(matches!(resolve(&args), Outcome::Help));
}

#[test]
fn help_short_wins_over_conflict() {
    let args = vec![
        "-c".to_string(),
        "5".to_string(),
        "-n".to_string(),
        "5".to_string(),
        "-h".to_string(),
    ];
    assert!(matches!(resolve(&args), Outcome::Help));
}

#[test]
fn both_filters_conflict() {
    let args = vec![
        "-c".to_string(),
        "5".to_string(),
        "-n".to_string(),
        "5".to_string(),
        "f".to_string(),
    ];
    assert!(matches!(resolve(&args), Outcome::Fail(ArgError::Conflict)));
}

#[test]
fn no_sources_is_an_error() {
    let args: Vec<String> = vec![];
    assert!(matches!(resolve(&args), Outcome::Fail(ArgError::NoSources)));
}

#[test]
fn flags_without_sources_is_an_error() {
    let args = vec!["-c".to_string(), "5".to_string()];
    assert!(matches!(resolve(&args), Outcome::Fail(ArgError::NoSources)));
}

#[test]
fn conflict_precedes_no_sources() {
    let args = vec![
        "-c".to_string(),
        "5".to_string(),
        "-n".to_string(),
        "5".to_string(),
    ];
    assert!(matches!(resolve(&args), Outcome::Fail(ArgError::Conflict)));
}

#[test]
fn single_source_forces_quiet() {
    let args = vec!["file".to_string()];
    match resolve(&args) {
        Outcome::Run(cfg) => {
            assert!(cfg.quiet);
            assert_eq!(cfg.filter, Filter::Lines(10));
            assert_eq!(cfg.sources, vec!["file".to_string()]);
        }
        _ => panic!("expected a run"),
    }
}

#[test]
fn two_sources_keep_headers_on() {
    let args = vec!["a".to_string(), "b".to_string()];
    match resolve(&args) {
        Outcome::Run(cfg) => {
            assert!(!cfg.quiet);
            assert_eq!(cfg.sources, vec!["a".to_string(), "b".to_string()]);
        }
        _ => panic!("expected a run"),
    }
}

#[test]
fn quiet_flag_is_recognized() {
    let args = vec!["--quiet".to_string(), "a".to_string(), "b".to_string()];
    match resolve(&args) {
        Outcome::Run(cfg) => assert!(cfg.quiet),
        _ => panic!("expected a run"),
    }
}

#[test]
fn short_bytes_option() {
    let args = vec!["-c".to_string(), "5".to_string(), "f".to_string()];
    match resolve(&args) {
        Outcome::Run(cfg) => assert_eq!(cfg.filter, Filter::Bytes(5)),
        _ => panic!("expected a run"),
    }
}

#[test]
fn long_lines_option() {
    let args = vec!["--lines".to_string(), "3".to_string(), "f".to_string()];
    match resolve(&args) {
        Outcome::Run(cfg) => assert_eq!(cfg.filter, Filter::Lines(3)),
        _ => panic!("expected a run"),
    }
}

#[test]
fn bytes_value_must_be_a_numeral() {
    let args = vec!["-c".to_string(), "five".to_string(), "f".to_string()];
    assert!(matches!(resolve(&args), Outcome::Fail(ArgError::BadBytes)));
}

#[test]
fn lines_value_must_be_a_numeral() {
    let args = vec!["-n".to_string(), "-1".to_string(), "f".to_string()];
    assert!(matches!(resolve(&args), Outcome::Fail(ArgError::BadLines)));
}

#[test]
fn missing_bytes_value_is_an_error() {
    let args = vec!["f".to_string(), "-c".to_string()];
    assert!(matches!(resolve(&args), Outcome::Fail(ArgError::BadBytes)));
}

#[test]
fn dash_names_standard_input() {
    let args = vec!["-".to_string()];
    match resolve(&args) {
        Outcome::Run(cfg) => {
            assert_eq!(cfg.sources, vec!["-".to_string()]);
            assert!(cfg.quiet);
        }
        _ => panic!("expected a run"),
    }
}

#[test]
fn sources_keep_their_order() {
    let args = vec![
        "b".to_string(),
        "-q".to_string(),
        "a".to_string(),
        "c".to_string(),
    ];
    match resolve(&args) {
        Outcome::Run(cfg) => {
            assert_eq!(
                cfg.sources,
                vec!["b".to_string(), "a".to_string(), "c".to_string()]
            );
        }
        _ => panic!("expected a run"),
    }
}

#[test]
fn repeated_option_keeps_last_value() {
    let args = vec![
        "-c".to_string(),
        "1".to_string(),
        "-c".to_string(),
        "2".to_string(),
        "f".to_string(),
    ];
    match resolve(&args) {
        Outcome::Run(cfg) => assert_eq!(cfg.filter, Filter::Bytes(2)),
        _ => panic!("expected a run"),
    }
}

#[test]
fn joined_short_bytes_option() {
    let args = vec!["-c=5".to_string(), "f".to_string()];
    match resolve(&args) {
        Outcome::Run(cfg) => assert_eq!(cfg.filter, Filter::Bytes(5)),
        _ => panic!("expected a run"),
    }
}

#[test]
fn joined_long_lines_option() {
    let args = vec!["--lines=3".to_string(), "f".to_string()];
    match resolve(&args) {
        Outcome::Run(cfg) => assert_eq!(cfg.filter, Filter::Lines(3)),
        _ => panic!("expected a run"),
    }
}

#[test]
fn joined_empty_value_is_an_error() {
    let args = vec!["--bytes=".to_string(), "f".to_string()];
    assert!(matches!(resolve(&args), Outcome::Fail(ArgError::BadBytes)));
}

#[test]
fn joined_bad_value_is_an_error() {
    let args = vec!["-n=x".to_string(), "f".to_string()];
    assert!(matches!(resolve(&args), Outcome::Fail(ArgError::BadLines)));
}

#[test]
fn joined_and_separated_options_still_conflict() {
    let args = vec![
        "--bytes=2".to_string(),
        "-n".to_string(),
        "1".to_string(),
        "f".to_string(),
    ];
    assert!(matches!(resolve(&args), Outcome::Fail(ArgError::Conflict)));
}
