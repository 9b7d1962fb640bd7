use shell::order::{dedup_sorted, sort_strings, str_le};
use shell::path::{
    candidate_paths, home_from_var, is_exec_mode, join_path, path_dirs, select_executables,
    user_home,
};
use shell::text::{decimal, parse_usize};

fn v(items: &[&str]) -> Vec<String> {
    items.iter().map(|s| s.to_string()).collect()
}

#[test]
fn dirs_of_path() {
    assert_eq!(path_dirs("/bin::/usr/bin:"), v(&["/bin", "/usr/bin"]));
    assert!(path_dirs("").is_empty());
}

#[test]
fn joining_paths() {
    assert_eq!(join_path("/bin", "ls"), "/bin/ls");
    assert_eq!(join_path("/bin/", "ls"), "/bin/ls");
    assert_eq!(join_path("/bin", "/usr/bin/ls"), "/usr/bin/ls");
    assert_eq!(candidate_paths("/a:/b/", "x"), v(&["/a/x", "/b/x"]));
}

#[test]
fn exec_bits() {
    assert!(is_exec_mode(0o755));
    assert!(is_exec_mode(0o001));
    assert!(!is_exec_mode(0o644));
}

#[test]
fn executables_selected_sorted_once() {
    let entries = vec![
        ("gzip".to_string(), true),
        ("git".to_string(), true),
        ("grep".to_string(), false),
        ("ls".to_string(), true),
        ("git".to_string(), true),
    ];
    assert_eq!(select_executables("g", &entries), v(&["git", "gzip"]));
}

#[test]
fn homes() {
    assert_eq!(home_from_var(Some("/h".to_string())).as_deref(), Some("/h"));
    assert_eq!(home_from_var(Some(String::new())), None);
    assert_eq!(home_from_var(None), None);
    assert_eq!(user_home("ann"), "/Users/ann");
}

#[test]
fn ordering_and_sorting() {
    assert!(str_le("a", "b"));
    assert!(str_le("ab", "abc"));
    assert!(!str_le("b", "abc"));
    assert!(str_le("Z", "a"));
    let s = sort_strings(v(&["b", "a", "c", "a"]));
    assert_eq!(s, v(&["a", "a", "b", "c"]));
    assert_eq!(dedup_sorted(s), v(&["a", "b", "c"]));
}

#[test]
fn numbers() {
    assert_eq!(decimal(0), vec!['0']);
    assert_eq!(decimal(1203).iter().collect::<String>(), "1203");
    assert_eq!(parse_usize("42"), Some(42));
    assert_eq!(parse_usize("+7"), Some(7));
    assert_eq!(parse_usize(""), None);
    assert_eq!(parse_usize("+"), None);
    assert_eq!(parse_usize("-1"), None);
    assert_eq!(parse_usize("1a"), None);
    assert_eq!(parse_usize("99999999999999999999999"), None);
    assert_eq!(parse_usize(&usize::MAX.to_string()), Some(usize::MAX));
}
