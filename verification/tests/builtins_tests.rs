use shell::builtins::{
    background_notice, builtins, cd_error_message, echo_output, format_job_line, history_listing,
    is_builtin, job_marker, jobs_report, not_found_message, plan_command, plan_history,
    plan_pipeline, reap_background_jobs, resolve_cd_target, split_pipeline, type_message,
    CommandPlan, HistoryAction,
};
use shell::jobs::{add_job, list_jobs, JobSnapshot, JobStatus, JobTable};

fn v(items: &[&str]) -> Vec<String> {
    items.iter().map(|s| s.to_string()).collect()
}

#[test]
fn builtin_names() {
    for name in ["echo", "exit", "type", "pwd", "cd", "complete", "jobs", "history"] {
        assert!(is_builtin(name));
    }
    assert!(!is_builtin("ls"));
    assert!(!is_builtin("ech"));
    assert_eq!(builtins().len(), 8);
}

#[test]
fn markers() {
    assert_eq!(job_marker(2, 3), "+");
    assert_eq!(job_marker(1, 3), "-");
    assert_eq!(job_marker(0, 3), " ");
    assert_eq!(job_marker(0, 1), "+");
}

#[test]
fn running_job_line() {
    let j = JobSnapshot { id: 1, command: "sleep 10 &".to_string(), status: JobStatus::Running };
    assert_eq!(format_job_line(&j, 0, 1), "[1]+  Running                 sleep 10 &");
}

#[test]
fn done_job_line_drops_ampersand() {
    let j = JobSnapshot { id: 12, command: "sleep 1 & ".to_string(), status: JobStatus::Done };
    assert_eq!(format_job_line(&j, 0, 2), "[12]-  Done                    sleep 1");
}

#[test]
fn reaping_prints_done_lines_only() {
    let mut t = JobTable::new();
    add_job(&mut t, 10, "sleep 100 &".to_string());
    add_job(&mut t, 11, "sleep 1 &".to_string());
    let lines = reap_background_jobs(&mut t, &vec![2]);
    assert_eq!(lines, vec!["[2]+  Done                    sleep 1"]);
    assert_eq!(list_jobs(&t).len(), 1);
    assert!(reap_background_jobs(&mut t, &vec![2]).is_empty());
}

#[test]
fn jobs_lists_everything() {
    let mut t = JobTable::new();
    add_job(&mut t, 10, "a &".to_string());
    add_job(&mut t, 11, "b &".to_string());
    let lines = jobs_report(&mut t, &vec![1]);
    assert_eq!(
        lines,
        vec!["[1]-  Done                    a", "[2]+  Running                 b &"]
    );
    assert_eq!(list_jobs(&t).len(), 1);
}

#[test]
fn echo_joins_with_spaces() {
    assert_eq!(echo_output(&v(&["a", "b c", "d"])), "a b c d");
    assert_eq!(echo_output(&v(&[])), "");
}

#[test]
fn type_messages() {
    assert_eq!(type_message("echo", None), "echo is a shell builtin");
    assert_eq!(type_message("ls", Some("/bin/ls".to_string())), "ls is /bin/ls");
    assert_eq!(type_message("nope", None), "nope: not found");
}

#[test]
fn cd_targets() {
    let home = Some("/home/u".to_string());
    assert_eq!(resolve_cd_target("", home.clone()), None);
    assert_eq!(resolve_cd_target("~", home.clone()).as_deref(), Some("/home/u"));
    assert_eq!(resolve_cd_target("~/src/x", home.clone()).as_deref(), Some("/home/u/src/x"));
    assert_eq!(resolve_cd_target("~/src", None).as_deref(), Some("~/src"));
    assert_eq!(resolve_cd_target("~x", home.clone()).as_deref(), Some("~x"));
    assert_eq!(resolve_cd_target("/tmp", home).as_deref(), Some("/tmp"));
    assert_eq!(cd_error_message("nowhere"), "cd: nowhere: No such file or directory");
}

#[test]
fn messages() {
    assert_eq!(not_found_message("foo"), "foo: command not found");
    assert_eq!(background_notice(1, 4242), "[1] 4242");
}

#[test]
fn history_plans() {
    match plan_history(&v(&["-r", "a", "b"]), 3) {
        HistoryAction::Read(p) => assert_eq!(p, v(&["a", "b"])),
        _ => panic!("expected read"),
    }
    match plan_history(&v(&["-w", "f"]), 3) {
        HistoryAction::Write(p) => assert_eq!(p.as_deref(), Some("f")),
        _ => panic!("expected write"),
    }
    match plan_history(&v(&["-w"]), 3) {
        HistoryAction::Write(p) => assert!(p.is_none()),
        _ => panic!("expected write"),
    }
    match plan_history(&v(&["2"]), 5) {
        HistoryAction::List(s) => assert_eq!(s, 3),
        _ => panic!("expected list"),
    }
    match plan_history(&v(&["+9"]), 5) {
        HistoryAction::List(s) => assert_eq!(s, 0),
        _ => panic!("expected list"),
    }
    match plan_history(&v(&["x"]), 5) {
        HistoryAction::List(s) => assert_eq!(s, 0),
        _ => panic!("expected list"),
    }
    match plan_history(&v(&[]), 5) {
        HistoryAction::List(s) => assert_eq!(s, 0),
        _ => panic!("expected list"),
    }
}

#[test]
fn history_lines_are_numbered() {
    let entries = v(&["echo a", "ls", "pwd"]);
    assert_eq!(history_listing(&entries, 1), vec!["    2  ls", "    3  pwd"]);
    assert!(history_listing(&entries, 3).is_empty());
    let many: Vec<String> = (0..100000).map(|i| i.to_string()).collect();
    assert_eq!(history_listing(&many, 99999), vec!["100000  99999"]);
}

#[test]
fn plan_simple_command() {
    match plan_command("echo hi > out") {
        CommandPlan::Run { args, redirect, background } => {
            assert_eq!(args, v(&["echo", "hi"]));
            assert_eq!(redirect.stdout.as_deref(), Some("out"));
            assert!(!background);
        }
        _ => panic!("expected a command"),
    }
}

#[test]
fn plan_background() {
    match plan_command("sleep 5 &") {
        CommandPlan::Run { args, background, .. } => {
            assert_eq!(args, v(&["sleep", "5"]));
            assert!(background);
        }
        _ => panic!("expected a command"),
    }
    match plan_command("echo \"&\"") {
        CommandPlan::Run { args, background, .. } => {
            assert_eq!(args, v(&["echo", "&"]));
            assert!(!background);
        }
        _ => panic!("expected a command"),
    }
    assert!(matches!(plan_command("&"), CommandPlan::Nothing));
    assert!(matches!(plan_command("  "), CommandPlan::Nothing));
}

#[test]
fn plan_pipeline_split() {
    match plan_command("cat f | grep 'a|b' | wc -l") {
        CommandPlan::Pipeline(segs) => {
            assert_eq!(segs, vec![v(&["cat", "f"]), v(&["grep", "a|b"]), v(&["wc", "-l"])]);
        }
        _ => panic!("expected a pipeline"),
    }
    assert_eq!(split_pipeline(&v(&["|", "a"])), vec![v(&[]), v(&["a"])]);
}

#[test]
fn pipeline_stages() {
    let stages = plan_pipeline(&vec![v(&["ls", "2>", "e"]), v(&["wc"])]).unwrap();
    assert_eq!(stages.len(), 2);
    assert_eq!(stages[0].0, v(&["ls"]));
    assert_eq!(stages[0].1.stderr.as_deref(), Some("e"));
    assert!(plan_pipeline(&vec![v(&["ls"]), v(&[])]).is_none());
    assert!(plan_pipeline(&vec![v(&[">", "x"]), v(&["wc"])]).is_none());
    assert!(plan_pipeline(&vec![v(&["ls"])]).is_none());
}
