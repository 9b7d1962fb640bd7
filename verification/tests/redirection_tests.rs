use shell::redirection::{parse_redirections, redirect_kind};

fn v(items: &[&str]) -> Vec<String> {
    items.iter().map(|s| s.to_string()).collect()
}

#[test]
fn stdout_truncate() {
    let (args, r) = parse_redirections(&v(&["echo", "hi", ">", "out.txt"]));
    assert_eq!(args, v(&["echo", "hi"]));
    assert_eq!(r.stdout.as_deref(), Some("out.txt"));
    assert!(!r.stdout_append);
    assert!(r.stderr.is_none());
}

#[test]
fn stdout_append_and_stderr() {
    let (args, r) = parse_redirections(&v(&["ls", "1>>", "a", "x", "2>", "b"]));
    assert_eq!(args, v(&["ls", "x"]));
    assert_eq!(r.stdout.as_deref(), Some("a"));
    assert!(r.stdout_append);
    assert_eq!(r.stderr.as_deref(), Some("b"));
    assert!(!r.stderr_append);
}

#[test]
fn stderr_append() {
    let (args, r) = parse_redirections(&v(&["cat", "2>>", "err"]));
    assert_eq!(args, v(&["cat"]));
    assert_eq!(r.stderr.as_deref(), Some("err"));
    assert!(r.stderr_append);
}

#[test]
fn later_operator_on_a_stream_overrides() {
    let (args, r) = parse_redirections(&v(&["echo", ">", "a", "1>>", "b", "2>", "c", "2>>", "d"]));
    assert_eq!(args, v(&["echo"]));
    assert_eq!(r.stdout.as_deref(), Some("b"));
    assert!(r.stdout_append);
    assert_eq!(r.stderr.as_deref(), Some("d"));
    assert!(r.stderr_append);
    let (_, r) = parse_redirections(&v(&["echo", ">", "a", ">>", "b"]));
    assert_eq!(r.stdout.as_deref(), Some("b"));
    assert!(r.stdout_append);
    let (_, r) = parse_redirections(&v(&["echo", ">", "a", "1>", "b"]));
    assert_eq!(r.stdout.as_deref(), Some("b"));
    assert!(!r.stdout_append);
}

#[test]
fn first_occurrence_of_an_operator_is_honored() {
    let (args, r) = parse_redirections(&v(&["echo", "x", ">", "a", ">", "b"]));
    assert_eq!(args, v(&["echo", "x"]));
    assert_eq!(r.stdout.as_deref(), Some("a"));
    assert!(!r.stdout_append);
    let (args, r) = parse_redirections(&v(&["cat", "2>>", "e1", "y", "2>>", "e2"]));
    assert_eq!(args, v(&["cat", "y"]));
    assert_eq!(r.stderr.as_deref(), Some("e1"));
    assert!(r.stderr_append);
    let (_, r) = parse_redirections(&v(&["ls", ">", "a", ">>", "b", ">", "c"]));
    assert_eq!(r.stdout.as_deref(), Some("b"));
    assert!(r.stdout_append);
}

#[test]
fn operator_without_file_is_kept() {
    let (args, r) = parse_redirections(&v(&["echo", "x", ">"]));
    assert_eq!(args, v(&["echo", "x", ">"]));
    assert!(r.stdout.is_none());
}

#[test]
fn no_operators_unchanged() {
    let (args, r) = parse_redirections(&v(&["a", "b>", "3>", "c"]));
    assert_eq!(args, v(&["a", "b>", "3>", "c"]));
    assert!(r.stdout.is_none() && r.stderr.is_none());
}

#[test]
fn operator_kinds() {
    assert_eq!(redirect_kind(&">".to_string()), 1);
    assert_eq!(redirect_kind(&"1>".to_string()), 2);
    assert_eq!(redirect_kind(&">>".to_string()), 3);
    assert_eq!(redirect_kind(&"1>>".to_string()), 4);
    assert_eq!(redirect_kind(&"2>".to_string()), 5);
    assert_eq!(redirect_kind(&"2>>".to_string()), 6);
    assert_eq!(redirect_kind(&"<".to_string()), 0);
}
