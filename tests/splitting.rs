use simple_cli::split::{split_args, wants_help};

fn strings(xs: &[&str]) -> Vec<String> {
    xs.iter().map(|s| s.to_string()).collect()
}

#[test]
fn split_without_separator_keeps_everything() {
    let args = strings(&["--id", "7", "-x"]);
    let (own, fwd) = split_args(&args);
    assert_eq!(own, &args[..]);
    assert!(fwd.is_empty());
}

#[test]
fn split_at_first_separator() {
    let args = strings(&["a", "--", "b", "--", "c"]);
    let (own, fwd) = split_args(&args);
    assert_eq!(own, &strings(&["a"])[..]);
    assert_eq!(fwd, &strings(&["b", "--", "c"])[..]);
}

#[test]
fn split_empty_input() {
    let args: Vec<String> = Vec::new();
    let (own, fwd) = split_args(&args);
    assert!(own.is_empty());
    assert!(fwd.is_empty());
}

#[test]
fn split_separator_first_and_last() {
    let args = strings(&["--", "x"]);
    let (own, fwd) = split_args(&args);
    assert!(own.is_empty());
    assert_eq!(fwd, &strings(&["x"])[..]);
    let args = strings(&["x", "--"]);
    let (own, fwd) = split_args(&args);
    assert_eq!(own, &strings(&["x"])[..]);
    assert!(fwd.is_empty());
}

#[test]
fn split_treats_longer_dashes_as_tokens() {
    let args = strings(&["---", "-", "--x"]);
    let (own, fwd) = split_args(&args);
    assert_eq!(own, &args[..]);
    assert!(fwd.is_empty());
}

#[test]
fn help_flag_is_found() {
    assert!(wants_help(&strings(&["--id", "--help"])));
    assert!(!wants_help(&strings(&["--id", "-help", "--helpx"])));
    assert!(!wants_help(&strings(&[])));
}
