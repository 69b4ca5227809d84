use par_grep::config::{parse_args, parse_thread_count, ArgError, SearchConfig};

fn args(words: &[&str]) -> Vec<String> {
    let mut v = vec![String::from("search")];
    for w in words {
        v.push(w.to_string());
    }
    v
}

fn ok(words: &[&str]) -> SearchConfig {
    match parse_args(&args(words)) {
        Ok(c) => c,
        Err(_) => panic!("command line refused: {:?}", words),
    }
}

#[test]
fn pattern_and_path_with_defaults() {
    let c = ok(&["foo", "src"]);
    assert_eq!(c.pattern, "foo");
    assert_eq!(c.path, "src");
    assert!(!c.recursive);
    assert_eq!(c.num_threads, 2);
}

#[test]
fn short_flags() {
    let c = ok(&["-r", "foo", "-n", "4", "dir"]);
    assert_eq!(c.pattern, "foo");
    assert_eq!(c.path, "dir");
    assert!(c.recursive);
    assert_eq!(c.num_threads, 4);
}

#[test]
fn long_flags() {
    let c = ok(&["foo", "dir", "--recursive", "--num-threads", "7"]);
    assert!(c.recursive);
    assert_eq!(c.num_threads, 7);
}

#[test]
fn later_thread_count_wins() {
    let c = ok(&["-n", "3", "foo", "dir", "-n", "5"]);
    assert_eq!(c.num_threads, 5);
}

#[test]
fn missing_pattern_and_path() {
    assert!(matches!(parse_args(&args(&[])), Err(ArgError::MissingPattern)));
    assert!(matches!(parse_args(&Vec::new()), Err(ArgError::MissingPattern)));
}

#[test]
fn missing_path() {
    assert!(matches!(parse_args(&args(&["foo"])), Err(ArgError::MissingPath)));
    assert!(matches!(parse_args(&args(&["foo", "-r"])), Err(ArgError::MissingPath)));
}

#[test]
fn empty_bare_argument_leaves_slot_open() {
    let c = ok(&["", "foo", "dir"]);
    assert_eq!(c.pattern, "foo");
    assert_eq!(c.path, "dir");
}

#[test]
fn thread_flag_without_value() {
    assert!(matches!(parse_args(&args(&["foo", "dir", "-n"])), Err(ArgError::MissingThreadCount)));
    assert!(matches!(
        parse_args(&args(&["foo", "dir", "--num-threads"])),
        Err(ArgError::MissingThreadCount)
    ));
}

#[test]
fn thread_count_not_an_integer() {
    assert!(matches!(parse_args(&args(&["foo", "dir", "-n", "four"])), Err(ArgError::InvalidThreadCount)));
    assert!(matches!(parse_args(&args(&["foo", "dir", "-n", "-3"])), Err(ArgError::InvalidThreadCount)));
}

#[test]
fn zero_threads_refused() {
    assert!(matches!(parse_args(&args(&["foo", "dir", "-n", "0"])), Err(ArgError::InvalidThreadCount)));
}

#[test]
fn third_positional_refused() {
    match parse_args(&args(&["foo", "dir", "extra"])) {
        Err(ArgError::UnknownArgument(a)) => assert_eq!(a, "extra"),
        _ => panic!("expected an unknown argument"),
    }
}

#[test]
fn thread_count_forms() {
    assert_eq!(parse_thread_count("1"), Some(1));
    assert_eq!(parse_thread_count("+12"), Some(12));
    assert_eq!(parse_thread_count("007"), Some(7));
    assert_eq!(parse_thread_count("18446744073709551615"), Some(usize::MAX));
    assert_eq!(parse_thread_count("18446744073709551616"), None);
    assert_eq!(parse_thread_count("0"), None);
    assert_eq!(parse_thread_count(""), None);
    assert_eq!(parse_thread_count("+"), None);
    assert_eq!(parse_thread_count("++1"), None);
    assert_eq!(parse_thread_count(" 3"), None);
    assert_eq!(parse_thread_count("3x"), None);
}
