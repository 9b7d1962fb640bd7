use shell::history::{list, record, render, History};
use shell::jobs::{add_job, list_jobs, reap, JobStatus, JobTable};
use shell::strmap::StrMap;
use shell::vars::{get, is_valid_name};

#[test]
fn variables_set_and_get() {
    let mut vars = StrMap::new();
    assert_eq!(get(&vars, "X"), None);
    shell::vars::set(&mut vars, "X", "1");
    shell::vars::set(&mut vars, "Y", "2");
    assert_eq!(get(&vars, "X").as_deref(), Some("1"));
    shell::vars::set(&mut vars, "X", "3");
    assert_eq!(get(&vars, "X").as_deref(), Some("3"));
    assert_eq!(get(&vars, "Y").as_deref(), Some("2"));
}

#[test]
fn map_remove() {
    let mut m = StrMap::new();
    m.insert("a".to_string(), "1".to_string());
    m.insert("b".to_string(), "2".to_string());
    m.remove("a");
    m.remove("zzz");
    assert_eq!(m.get("a"), None);
    assert_eq!(m.get("b").as_deref(), Some("2"));
}

#[test]
fn variable_names() {
    assert!(is_valid_name("_x1"));
    assert!(is_valid_name("abc_DEF9"));
    assert!(!is_valid_name(""));
    assert!(!is_valid_name("1abc"));
    assert!(!is_valid_name("a-b"));
    assert!(!is_valid_name("é"));
}

#[test]
fn history_records_in_order() {
    let mut h = History::new();
    record(&mut h, "echo a");
    record(&mut h, "ls");
    assert_eq!(list(&h), vec!["echo a", "ls"]);
}

#[test]
fn history_load_skips_empty_lines() {
    let mut h = History::new();
    record(&mut h, "first");
    let added = h.load_lines("a\n\n  \t\nb c\r\nlast");
    assert_eq!(added, 4);
    assert_eq!(list(&h), vec!["first", "a", "  \t", "b c", "last"]);
}

#[test]
fn history_load_keeps_lines_of_spaces() {
    let mut h = History::new();
    record(&mut h, "echo");
    let added = h.load_lines("ls\n   \n\npwd\n");
    assert_eq!(added, 3);
    assert_eq!(list(&h), vec!["echo", "ls", "   ", "pwd"]);
}

#[test]
fn history_save_then_append() {
    let mut h = History::new();
    record(&mut h, "one");
    record(&mut h, "two");
    assert_eq!(h.save_contents(), "one\ntwo\n");
    assert_eq!(h.append_contents(), "one\ntwo\n");
    h.mark_flushed();
    assert_eq!(h.append_contents(), "");
    record(&mut h, "three");
    assert_eq!(h.append_contents(), "three\n");
    h.mark_flushed();
    assert_eq!(h.append_contents(), "");
}

#[test]
fn history_read_back_what_was_saved() {
    let mut h = History::new();
    record(&mut h, "echo 'a b'");
    record(&mut h, "pwd");
    let text = h.save_contents();
    let mut g = History::new();
    assert_eq!(g.load_lines(&text), 2);
    assert_eq!(list(&g), list(&h));
}

#[test]
fn render_lines() {
    assert_eq!(render(&vec![]), "");
    assert_eq!(render(&vec!["x".to_string()]), "x\n");
}

#[test]
fn jobs_numbered_from_one() {
    let mut t = JobTable::new();
    assert_eq!(add_job(&mut t, 100, "sleep 5 &".to_string()), 1);
    assert_eq!(add_job(&mut t, 200, "sleep 9 &".to_string()), 2);
    let jobs = list_jobs(&t);
    assert_eq!(jobs.len(), 2);
    assert_eq!(jobs[0].id, 1);
    assert_eq!(jobs[0].pid, 100);
    assert_eq!(jobs[1].command, "sleep 9 &");
}

#[test]
fn reap_reports_and_drops_finished() {
    let mut t = JobTable::new();
    add_job(&mut t, 100, "a &".to_string());
    add_job(&mut t, 200, "b &".to_string());
    add_job(&mut t, 300, "c &".to_string());
    let snaps = reap(&mut t, &vec![2]);
    assert_eq!(snaps.len(), 3);
    assert!(snaps[0].status == JobStatus::Running);
    assert!(snaps[1].status == JobStatus::Done);
    assert_eq!(snaps[1].id, 2);
    let left = list_jobs(&t);
    assert_eq!(left.iter().map(|j| j.id).collect::<Vec<_>>(), vec![1, 3]);
    assert_eq!(add_job(&mut t, 400, "d &".to_string()), 4);
}
