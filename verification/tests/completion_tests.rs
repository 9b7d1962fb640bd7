use shell::completion::{
    completion_context, file_target, longest_common_prefix, script_arguments, script_candidates,
    ShellHelper,
};
use shell::completions::{common_prefix, completions, run_complete};

fn v(items: &[&str]) -> Vec<String> {
    items.iter().map(|s| s.to_string()).collect()
}

#[test]
fn candidates_common_prefix() {
    assert_eq!(common_prefix(&v(&[])), "");
    assert_eq!(common_prefix(&v(&["abc"])), "abc");
    assert_eq!(common_prefix(&v(&["abcd", "abce", "abx"])), "ab");
    assert_eq!(common_prefix(&v(&["x", "y"])), "");
    assert_eq!(common_prefix(&v(&["héllo", "hélp"])), "hél");
}

#[test]
fn common_prefix_whole_chars() {
    assert_eq!(common_prefix(&v(&["é", "è"])), "");
    assert_eq!(common_prefix(&v(&["éa", "éb"])), "é");
}

#[test]
fn common_prefix_order_and_push() {
    let words = v(&["interval", "internal", "intern"]);
    let r = common_prefix(&words);
    assert_eq!(r, "inter");
    assert_eq!(common_prefix(&v(&["intern", "interval", "internal", "intern"])), r);
    let mut more = words.clone();
    more.push(r.clone());
    assert_eq!(common_prefix(&more), r);
}

#[test]
fn char_common_prefix() {
    assert_eq!(longest_common_prefix(&v(&[])), "");
    assert_eq!(longest_common_prefix(&v(&["xyz_foo", "xyz_bar", "xyz_b"])), "xyz_");
    assert_eq!(longest_common_prefix(&v(&["é", "è"])), "");
}

#[test]
fn complete_builtin_register_print_remove() {
    let mut reg = completions();
    let out = run_complete(&mut reg, &v(&["-C", "/tmp/c.sh", "git", "cargo"]));
    assert!(out.is_empty());
    let out = run_complete(&mut reg, &v(&["-p", "git", "nope"]));
    assert_eq!(
        out,
        vec!["complete -C '/tmp/c.sh' git", "complete: nope: no completion specification"]
    );
    let out = run_complete(&mut reg, &v(&["-r", "git", "-p", "git"]));
    assert!(out.is_empty());
    let out = run_complete(&mut reg, &v(&["-p", "git", "cargo"]));
    assert_eq!(
        out,
        vec!["complete: git: no completion specification", "complete -C '/tmp/c.sh' cargo"]
    );
    assert!(run_complete(&mut reg, &v(&["-C"])).is_empty());
}

#[test]
fn context_of_a_word() {
    let c = completion_context("ls src/ma", 9);
    assert_eq!(c.before, "ls src/ma");
    assert_eq!(c.word_start, 3);
    assert_eq!(c.head, "ls ");
    assert_eq!(c.partial, "src/ma");
    let c = completion_context("ech", 100);
    assert_eq!(c.word_start, 0);
    assert_eq!(c.partial, "ech");
    let c = completion_context("é x", 4);
    assert_eq!(c.word_start, 3);
    assert_eq!(c.partial, "x");
    let c = completion_context("ab cd", 2);
    assert_eq!(c.before, "ab");
    assert_eq!(c.partial, "ab");
}

#[test]
fn targets() {
    let t = file_target("src/");
    assert_eq!((t.replace_start, t.dir.as_str(), t.filename_part.as_str(), t.trailing_slash), (0, "src", "", true));
    assert_eq!(t.tail, "src/");
    let t = file_target("src/ma");
    assert_eq!((t.replace_start, t.dir.as_str(), t.filename_part.as_str(), t.trailing_slash), (4, "src/", "ma", false));
    assert_eq!(t.tail, "ma");
    let t = file_target("ma");
    assert_eq!((t.replace_start, t.dir.as_str(), t.filename_part.as_str()), (0, ".", "ma"));
    let t = file_target("é/x");
    assert_eq!(t.replace_start, 3);
}

#[test]
fn command_completion_cases() {
    let h = ShellHelper::new();
    let c = h.complete_command("ech", v(&[]));
    assert_eq!(c.candidates[0].replacement, "echo ");
    assert!(!c.bell);
    let c = h.complete_command("xyz_", v(&["xyz_foo", "xyz_fob"]));
    assert_eq!(c.candidates[0].replacement, "xyz_fo");
    let c = h.complete_command("xyz_", v(&["xyz_a", "xyz_b", "xyz_a"]));
    assert!(c.bell);
    assert_eq!(c.listing.as_deref(), Some("xyz_a  xyz_b"));
    assert_eq!(c.candidates[0].replacement, "xyz_");
    let c = h.complete_command("qqq", v(&[]));
    assert!(c.bell);
    assert_eq!(c.candidates[0].replacement, "qqq");
    let c = h.complete_command("e", v(&["env"]));
    assert!(c.bell);
    assert_eq!(c.listing.as_deref(), Some("echo  env  exit"));
}

fn entries(items: &[(&str, bool)]) -> Vec<(String, bool)> {
    items.iter().map(|(n, d)| (n.to_string(), *d)).collect()
}

#[test]
fn file_completion_cases() {
    let mut h = ShellHelper::new();
    let t = file_target("ma");
    let c = h.complete_files("cat ma", 6, 4, &t, &entries(&[("main.rs", false), (".", true), ("lib.rs", false)]));
    assert_eq!(c.start, 4);
    assert_eq!(c.candidates[0].display, "main.rs");
    assert_eq!(c.candidates[0].replacement, "main.rs ");
    let c = h.complete_files("cat ma", 6, 4, &t, &entries(&[("maps", true)]));
    assert_eq!(c.candidates[0].replacement, "maps/");
    let t2 = file_target("src/");
    let c = h.complete_files("cd src/", 7, 3, &t2, &entries(&[("bin", true)]));
    assert_eq!(c.start, 3);
    assert_eq!(c.candidates[0].replacement, "src/bin/");
    let t3 = file_target("a");
    let e = entries(&[("ab1", false), ("ab2", true)]);
    let c = h.complete_files("x a", 3, 2, &t3, &e);
    assert_eq!(c.candidates[0].replacement, "ab");
    assert!(!c.bell);
    let t4 = file_target("ab");
    let c = h.complete_files("x ab", 4, 2, &t4, &e);
    assert!(c.bell);
    assert!(c.listing.is_none());
    let c = h.complete_files("x ab", 4, 2, &t4, &e);
    assert!(c.bell);
    assert_eq!(c.listing.as_deref(), Some("ab1  ab2/"));
    let c = h.complete_files("x zz", 4, 2, &file_target("zz"), &e);
    assert!(c.bell);
    assert_eq!(c.candidates[0].replacement, "zz");
}

#[test]
fn script_completion_cases() {
    let mut h = ShellHelper::new();
    let c = h.complete_from_script("git ch", 6, 4, "ch", script_candidates("checkout\n"));
    assert_eq!(c.candidates[0].replacement, "checkout ");
    let c = h.complete_from_script("git ch", 6, 4, "ch", script_candidates(" cherry \n\nchecklist\n"));
    assert_eq!(c.candidates[0].replacement, "che");
    let c = h.complete_from_script("git c", 5, 4, "c", v(&["cz", "ca"]));
    assert!(c.bell && c.listing.is_none());
    let c = h.complete_from_script("git c", 5, 4, "c", v(&["cz", "ca"]));
    assert_eq!(c.listing.as_deref(), Some("ca  cz"));
    let c = h.complete_from_script("git c", 5, 4, "c", v(&[]));
    assert!(c.bell);
    assert_eq!(c.candidates[0].replacement, "c");
}

#[test]
fn script_words() {
    let (cmd, prev) = script_arguments("git  commit ");
    assert_eq!((cmd.as_str(), prev.as_str()), ("git", "commit"));
    let (cmd, prev) = script_arguments("");
    assert_eq!((cmd.as_str(), prev.as_str()), ("", ""));
    let (cmd, prev) = script_arguments("git ");
    assert_eq!((cmd.as_str(), prev.as_str()), ("git", ""));
}

#[test]
fn script_lcp_in_whole_chars() {
    let mut h = ShellHelper::new();
    let c = h.complete_from_script("x ", 2, 2, "", v(&["é1", "è2"]));
    assert!(c.bell);
    assert_eq!(c.candidates[0].replacement, "");
    let c = h.complete_from_script("x ", 2, 2, "", v(&["éa", "éb"]));
    assert!(!c.bell);
    assert_eq!(c.candidates[0].replacement, "é");
}
