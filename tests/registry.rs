use simple_cli::argument::{Argument, Value};
use simple_cli::registry::{build_cmd_arguments, parse, strip_arg_prefix, Arguments, CMDError};
use simple_cli::split::split_args;

fn strings(xs: &[&str]) -> Vec<String> {
    xs.iter().map(|s| s.to_string()).collect()
}

fn unexpected(r: Result<(), CMDError>) -> String {
    match r {
        Err(CMDError::UnexpectedArgument(s)) => s,
        other => panic!("expected UnexpectedArgument, got {:?}", other),
    }
}

fn duplicate(r: Result<(), CMDError>) -> String {
    match r {
        Err(CMDError::DuplicateArgument(s)) => s,
        other => panic!("expected DuplicateArgument, got {:?}", other),
    }
}

#[test]
fn strip_prefers_long_prefix() {
    assert_eq!(strip_arg_prefix("--id"), Some("id"));
    assert_eq!(strip_arg_prefix("-id"), Some("id"));
    assert_eq!(strip_arg_prefix("---x"), Some("-x"));
    assert_eq!(strip_arg_prefix("--"), Some(""));
    assert_eq!(strip_arg_prefix("-"), Some(""));
    assert_eq!(strip_arg_prefix("id"), None);
    assert_eq!(strip_arg_prefix(""), None);
}

#[test]
fn token_without_prefix_is_unexpected_with_token() {
    let reg = build_cmd_arguments();
    assert_eq!(unexpected(reg.validate_arg("plain")), "plain");
    assert_eq!(unexpected(reg.validate_arg("id")), "id");
}

#[test]
fn long_and_short_forms_resolve_alike() {
    let reg = build_cmd_arguments();
    assert!(reg.validate_arg("--id").is_ok());
    assert!(reg.validate_arg("-id").is_ok());
    assert!(reg.validate_arg("-daemonize").is_ok());
}

#[test]
fn unknown_name_is_unexpected_with_stripped_name() {
    let reg = build_cmd_arguments();
    assert_eq!(unexpected(reg.validate_arg("--nope")), "nope");
    assert_eq!(unexpected(reg.validate_arg("-nope")), "nope");
    assert_eq!(unexpected(reg.validate_arg("---id")), "-id");
}

#[test]
fn second_use_is_duplicate() {
    let mut reg = build_cmd_arguments();
    assert!(reg.accept_arg("--id").is_ok());
    assert_eq!(duplicate(reg.validate_arg("--id")), "id");
    assert_eq!(duplicate(reg.accept_arg("-id")), "id");
    assert!(reg.accept_arg("--daemonize").is_ok());
}

#[test]
fn accept_records_the_token() {
    let mut reg = build_cmd_arguments();
    assert!(reg.accept_arg("-daemonize").is_ok());
    let d = reg.entries().iter().find(|a| a.name == "daemonize").unwrap();
    match &d.user_value {
        Some(Value::Flag(s)) => assert_eq!(s, "-daemonize"),
        other => panic!("unexpected value {:?}", other),
    }
    let id = reg.entries().iter().find(|a| a.name == "id").unwrap();
    assert!(id.user_value.is_none());
}

#[test]
fn parse_twice_same_flag_is_duplicate() {
    let mut reg = build_cmd_arguments();
    let r = parse(&mut reg, &strings(&["--daemonize", "-daemonize"]));
    assert_eq!(duplicate(r), "daemonize");
}

#[test]
fn parse_stops_at_first_error() {
    let mut reg = build_cmd_arguments();
    let r = parse(&mut reg, &strings(&["--id", "bad", "--daemonize", "--nope"]));
    assert_eq!(unexpected(r), "bad");
    let d = reg.entries().iter().find(|a| a.name == "daemonize").unwrap();
    assert!(d.user_value.is_none());
    let id = reg.entries().iter().find(|a| a.name == "id").unwrap();
    assert!(id.user_value.is_some());
}

#[test]
fn parse_empty_succeeds() {
    let mut reg = build_cmd_arguments();
    assert!(parse(&mut reg, &[]).is_ok());
}

#[test]
fn last_insert_wins_and_entries_sorted() {
    let reg = Arguments::new()
        .insert_arg(Argument::new("zeta"))
        .insert_arg(Argument::new("alpha").help("first"))
        .insert_arg(Argument::new("mid"))
        .insert_arg(Argument::new("alpha").help("second").required(true));
    let names: Vec<&str> = reg.entries().iter().map(|a| a.name.as_str()).collect();
    assert_eq!(names, vec!["alpha", "mid", "zeta"]);
    let alpha = &reg.entries()[0];
    assert_eq!(alpha.help.as_deref(), Some("second"));
    assert!(alpha.required);
}

#[test]
fn entries_use_code_point_order() {
    let reg = Arguments::new()
        .insert_arg(Argument::new("ab"))
        .insert_arg(Argument::new("a"))
        .insert_arg(Argument::new("B"))
        .insert_arg(Argument::new(""))
        .insert_arg(Argument::new("é"));
    let names: Vec<&str> = reg.entries().iter().map(|a| a.name.as_str()).collect();
    assert_eq!(names, vec!["", "B", "a", "ab", "é"]);
}

#[test]
fn argument_builders_set_fields() {
    let a = Argument::new("x");
    assert_eq!(a.name, "x");
    assert!(!a.required && !a.takes_value);
    assert!(a.help.is_none() && a.default_value.is_none() && a.user_value.is_none());
    let a = a.required(true).takes_value(true).help("h");
    assert!(a.required && a.takes_value);
    assert_eq!(a.help.as_deref(), Some("h"));
}

#[test]
fn built_registry_holds_two_definitions() {
    let reg = build_cmd_arguments();
    let names: Vec<&str> = reg.entries().iter().map(|a| a.name.as_str()).collect();
    assert_eq!(names, vec!["daemonize", "id"]);
    let id = &reg.entries()[1];
    assert!(id.required && id.takes_value);
    assert_eq!(id.help.as_deref(), Some("jail ID"));
    let d = &reg.entries()[0];
    assert!(!d.required && !d.takes_value);
    assert_eq!(d.help.as_deref(), Some("Daemonize the jailer before execing"));
}

#[test]
fn scenario_known_arguments_succeed() {
    let mut reg = build_cmd_arguments();
    assert!(parse(&mut reg, &strings(&["--id", "--daemonize"])).is_ok());
}

#[test]
fn scenario_unknown_long_argument() {
    let mut reg = build_cmd_arguments();
    assert_eq!(unexpected(parse(&mut reg, &strings(&["--bogus"]))), "bogus");
}

#[test]
fn scenario_plain_word() {
    let mut reg = build_cmd_arguments();
    assert_eq!(unexpected(parse(&mut reg, &strings(&["plainword"]))), "plainword");
}

#[test]
fn scenario_split_then_validate() {
    let args = strings(&["foo", "--", "--bar"]);
    let (own, fwd) = split_args(&args);
    assert_eq!(own, &strings(&["foo"])[..]);
    assert_eq!(fwd, &strings(&["--bar"])[..]);
    let mut reg = build_cmd_arguments();
    assert_eq!(unexpected(parse(&mut reg, own)), "foo");
}
