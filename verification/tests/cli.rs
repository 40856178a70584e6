use monowrap::arg_parse::{arg_parse, arg_parse_checked, ArgParseResult};
use monowrap::logger::{
    get_logger_log_level_value, print, print_error, Logger, LoggerLogLevel,
};

fn argv(xs: &[&str]) -> Vec<String> {
    xs.iter().map(|x| x.to_string()).collect()
}

#[test]
fn defaults_fill_manifest_scope_and_level() {
    match arg_parse(argv(&["build"])) {
        ArgParseResult::Args(a) => {
            assert_eq!(a.commands, argv(&["build"]));
            assert_eq!(a.manifest, "./monowrap.json");
            assert_eq!(a.scope, argv(&["*"]));
            assert_eq!(a.log_level, LoggerLogLevel::INFO);
        }
        _ => panic!("expected parsed arguments"),
    }
}

#[test]
fn options_are_read() {
    let r = arg_parse(argv(&[
        "build", "test", "-m", "other.json", "-s", "web-*", "--scope", "core", "-l", "DEBUG",
    ]));
    match r {
        ArgParseResult::Args(a) => {
            assert_eq!(a.commands, argv(&["build", "test"]));
            assert_eq!(a.manifest, "other.json");
            assert_eq!(a.scope, argv(&["web-*", "core"]));
            assert_eq!(a.log_level, LoggerLogLevel::DEBUG);
        }
        _ => panic!("expected parsed arguments"),
    }
}

#[test]
fn help_gives_the_usage() {
    match arg_parse(argv(&["-h"])) {
        ArgParseResult::Help(u) => {
            assert!(u.starts_with("Usage: pwr monowrap.eth COMMAND [options]"));
            assert!(u.contains("--help"));
            assert!(u.contains("print this help menu"));
            assert!(u.contains("--log-level"));
        }
        _ => panic!("expected the usage"),
    }
}

#[test]
fn no_command_is_an_error_with_the_usage() {
    match arg_parse(argv(&["-m", "x.json"])) {
        ArgParseResult::Error(e) => {
            assert!(e.starts_with("Error: No command specified\nUsage: pwr monowrap.eth COMMAND [options]"));
        }
        _ => panic!("expected an error"),
    }
}

#[test]
fn unknown_option_is_an_error_with_the_usage() {
    match arg_parse(argv(&["build", "--bogus"])) {
        ArgParseResult::Error(e) => {
            assert!(e.starts_with("Error: Unrecognized option: 'bogus'\nUsage: "));
        }
        _ => panic!("expected an error"),
    }
}

#[test]
fn missing_option_value_is_an_error() {
    match arg_parse(argv(&["build", "-m"])) {
        ArgParseResult::Error(e) => {
            assert!(e.starts_with("Error: Argument to option 'm' missing\n"));
        }
        _ => panic!("expected an error"),
    }
}

#[test]
fn an_unknown_level_is_refused_by_the_checked_parse() {
    assert!(arg_parse_checked(argv(&["build", "-l", "LOUD"])).is_none());
    assert!(matches!(
        arg_parse_checked(argv(&["build", "-l", "WARN"])),
        Some(ArgParseResult::Args(_))
    ));
    // help and a missing command come before the level is read
    assert!(matches!(
        arg_parse_checked(argv(&["-h", "-l", "LOUD"])),
        Some(ArgParseResult::Help(_))
    ));
    assert!(matches!(
        arg_parse_checked(argv(&["-l", "LOUD"])),
        Some(ArgParseResult::Error(_))
    ));
}

#[test]
fn level_names_map_to_levels() {
    assert_eq!(get_logger_log_level_value("DEBUG"), Ok(LoggerLogLevel::DEBUG));
    assert_eq!(get_logger_log_level_value("INFO"), Ok(LoggerLogLevel::INFO));
    assert_eq!(get_logger_log_level_value("WARN"), Ok(LoggerLogLevel::WARN));
    assert_eq!(get_logger_log_level_value("ERROR"), Ok(LoggerLogLevel::ERROR));
    assert_eq!(
        get_logger_log_level_value("info"),
        Err("Invalid key for enum 'LoggerLogLevel': info".to_string())
    );
}

#[test]
fn logger_emits_at_and_above_its_level() {
    let l = Logger::new("monowrap".to_string(), LoggerLogLevel::INFO);
    assert_eq!(l.level, 1);
    assert!(l.debug("hidden".to_string()).is_none());
    let m = l.info("shown".to_string()).unwrap();
    assert_eq!(m.message, "monowrap: INFO - shown");
    assert_eq!(m.level, LoggerLogLevel::INFO);
    assert_eq!(l.warn("w".to_string()).unwrap().message, "monowrap: WARN - w");
    assert_eq!(l.error("e".to_string()).unwrap().message, "monowrap: ERROR - e");
}

#[test]
fn error_logger_emits_only_errors() {
    let l = Logger::new("m".to_string(), LoggerLogLevel::ERROR);
    assert_eq!(l.level, 3);
    assert!(l.debug("x".to_string()).is_none());
    assert!(l.info("x".to_string()).is_none());
    assert!(l.warn("x".to_string()).is_none());
    assert_eq!(l.error("x".to_string()).unwrap().level, LoggerLogLevel::ERROR);
}

#[test]
fn debug_logger_emits_everything() {
    let l = Logger::new("m".to_string(), LoggerLogLevel::DEBUG);
    assert_eq!(l.level, 0);
    assert_eq!(l.debug("x".to_string()).unwrap().message, "m: DEBUG - x");
}

#[test]
fn sub_logger_extends_the_name() {
    let l = Logger::new("monowrap".to_string(), LoggerLogLevel::WARN);
    let sub = l.sub_logger("job".to_string());
    assert_eq!(sub.name, "monowrap.job");
    assert_eq!(sub.level, 2);
    assert_eq!(sub.warn("slow".to_string()).unwrap().message, "monowrap.job: WARN - slow");
}

#[test]
fn print_logs_at_info_and_print_error_at_error() {
    let m = print("hello".to_string());
    assert_eq!(m.message, "hello");
    assert_eq!(m.level, LoggerLogLevel::INFO);
    let e = print_error("bad".to_string());
    assert_eq!(e.message, "bad");
    assert_eq!(e.level, LoggerLogLevel::ERROR);
}
