//! The shell's builtin commands: which names are builtins, and what each
//! builtin prints or does, computed from plain values.

use vstd::prelude::*;

use crate::redirection::{
    lemma_parse_without_operators, no_redirect, op_kind, parse_redirections, plain_from,
    spec_parse_redirections, Redirection,
};
use crate::tokenize::{
    lemma_tokenize_space_splits, plain, spec_tokenize, tokenize, tokenize_from, QuoteState,
};
use crate::jobs::{reap, JobSnapshot, JobStatus, JobTable, SnapshotView, JobView, snapshot_of};
use crate::text::{
    dec, decimal, is_prefix, is_ws, join, join_strings, pad_left, pad_right, parse_usize,
    push_spaces, push_str, spaces, spec_parse_usize, starts_with, str_chars,
    str_eq, string_from_chars, strs_view, trim_end, trim_end_char, trim_end_char_vec, trim_end_vec,
};

verus! {

/// All builtin command names.
pub open spec fn builtin_names() -> Seq<Seq<char>> {
    seq![
        "echo"@,
        "exit"@,
        "type"@,
        "pwd"@,
        "cd"@,
        "complete"@,
        "jobs"@,
        "history"@,
    ]
}

/// All builtin command names, in the order `builtin_names` lists them.
pub fn builtins() -> (r: Vec<String>)
    ensures
        strs_view(r@) == builtin_names(),
{
    let mut r: Vec<String> = Vec::new();
    r.push("echo".to_owned());
    r.push("exit".to_owned());
    r.push("type".to_owned());
    r.push("pwd".to_owned());
    r.push("cd".to_owned());
    r.push("complete".to_owned());
    r.push("jobs".to_owned());
    r.push("history".to_owned());
    assert(strs_view(r@) =~= builtin_names());
    r
}

/// Whether `command` names a builtin.
pub fn is_builtin(command: &str) -> (b: bool)
    ensures
        b == builtin_names().contains(command@),
{
    let names = builtins();
    let n = names.len();
    let mut i: usize = 0;
    while i < n
        invariant
            n == names@.len(),
            strs_view(names@) == builtin_names(),
            i <= n,
            forall|k: int| 0 <= k < i ==> builtin_names()[k] != command@,
        decreases n - i,
    {
        if str_eq(names[i].as_str(), command) {
            assert(builtin_names()[i as int] == command@);
            return true;
        }
        i = i + 1;
    }
    false
}

/// The marker of the job at `index` in a list of `len` jobs: `+` for the
/// most recent, `-` for the one before it, a blank for every other.
pub open spec fn marker(index: usize, len: usize) -> Seq<char> {
    if index + 1 == len {
        "+"@
    } else if index + 2 == len {
        "-"@
    } else {
        " "@
    }
}

/// The marker of the job at `index` in a list of `len` jobs (see `marker`).
/// `index + 1`, and `index + 2` unless the first is `len`, must not
/// overflow.
pub fn job_marker(index: usize, len: usize) -> (m: &'static str)
    requires
        index + 1 <= usize::MAX,
        index + 1 == len || index + 2 <= usize::MAX,
    ensures
        m@ == marker(index, len),
{
    if index + 1 == len {
        "+"
    } else if index + 2 == len {
        "-"
    } else {
        " "
    }
}

/// The word shown for a job status.
pub open spec fn status_text(s: JobStatus) -> Seq<char> {
    match s {
        JobStatus::Running => "Running"@,
        JobStatus::Done => "Done"@,
    }
}

/// The command shown for a job: finished jobs lose the trailing `&` (and
/// the whitespace around it) recorded at launch.
pub open spec fn shown_command(s: SnapshotView) -> Seq<char> {
    match s.status {
        JobStatus::Running => s.command,
        JobStatus::Done => trim_end(trim_end_char(trim_end(s.command), '&')),
    }
}

/// The line `jobs` prints for a job: `[id]` and the marker, two spaces, the
/// status padded to 24 characters, then the command.
pub open spec fn job_line(s: SnapshotView, index: usize, len: usize) -> Seq<char> {
    "["@ + dec(s.id as nat) + "]"@ + marker(index, len) + "  "@ + pad_right(status_text(s.status), 24)
        + shown_command(s)
}

/// The line printed for the job at `index` in a list of `len` jobs (the
/// same bounds on `index` as `job_marker`).
pub fn format_job_line(job: &JobSnapshot, index: usize, len: usize) -> (line: String)
    requires
        index + 1 <= usize::MAX,
        index + 1 == len || index + 2 <= usize::MAX,
    ensures
        line@ == job_line(job@, index, len),
{
    let mut v: Vec<char> = Vec::new();
    push_str(&mut v, "[");
    let d = decimal(job.id);
    let ds = string_from_chars(&d);
    push_str(&mut v, ds.as_str());
    push_str(&mut v, "]");
    push_str(&mut v, job_marker(index, len));
    push_str(&mut v, "  ");
    let shown: Vec<char>;
    match job.status {
        JobStatus::Running => {
            push_str(&mut v, "Running");
            proof {
                reveal_strlit("Running");
            }
            push_spaces(&mut v, 17);
            shown = str_chars(job.command.as_str());
        },
        JobStatus::Done => {
            push_str(&mut v, "Done");
            proof {
                reveal_strlit("Done");
            }
            push_spaces(&mut v, 20);
            let c = str_chars(job.command.as_str());
            let a = trim_end_vec(&c);
            let b = trim_end_char_vec(&a, '&');
            shown = trim_end_vec(&b);
        },
    }
    let s = string_from_chars(&shown);
    push_str(&mut v, s.as_str());
    assert(v@ =~= job_line(job@, index, len));
    string_from_chars(&v)
}

/// Reaps finished background jobs (those numbered in `finished`) and returns
/// the lines to print for them, one per finished job, numbered and marked
/// by their place in the whole list. Called before every prompt so that
/// finished jobs are reported without running `jobs`.
pub fn reap_background_jobs(table: &mut JobTable, finished: &Vec<usize>) -> (lines: Vec<String>)
    ensures
        strs_view(lines@) == done_lines(
            old(table)@.jobs.map_values(|j: JobView| snapshot_of(j, finished@)),
            0,
        ),
        final(table)@.jobs == crate::jobs::still_running(old(table)@.jobs, finished@),
        final(table)@.next_id == old(table)@.next_id,
{
    let list = reap(table, finished);
    let len = list.len();
    let ghost sv = list@.map_values(|s: JobSnapshot| s@);
    let mut out: Vec<String> = Vec::new();
    let mut i: usize = 0;
    assert(strs_view(out@) + done_lines(sv, 0) =~= done_lines(sv, 0));
    while i < len
        invariant
            len == list@.len(),
            sv == list@.map_values(|s: JobSnapshot| s@),
            i <= len,
            strs_view(out@) + done_lines(sv, i as int) == done_lines(sv, 0),
        decreases len - i,
    {
        if list[i].status == JobStatus::Done {
            let line = format_job_line(&list[i], i, len);
            proof {
                assert(strs_view(out@.push(line)) =~= strs_view(out@).push(line@));
                assert(strs_view(out@).push(line@) + done_lines(sv, i + 1) =~= strs_view(out@)
                    + done_lines(sv, i as int));
            }
            out.push(line);
        }
        i = i + 1;
    }
    assert(strs_view(out@) + done_lines(sv, len as int) =~= strs_view(out@));
    out
}

/// The lines printed for the finished jobs among `snaps[i..]`, in order.
pub open spec fn done_lines(snaps: Seq<SnapshotView>, i: int) -> Seq<Seq<char>>
    decreases snaps.len() - i,
{
    if i < 0 || i >= snaps.len() {
        Seq::empty()
    } else if snaps[i].status == JobStatus::Done {
        seq![job_line(snaps[i], i as usize, snaps.len() as usize)] + done_lines(snaps, i + 1)
    } else {
        done_lines(snaps, i + 1)
    }
}

} // verus!

verus! {

/// The lines `jobs` prints for the snapshots: one per job, in order.
pub open spec fn all_job_lines(snaps: Seq<SnapshotView>) -> Seq<Seq<char>> {
    Seq::new(snaps.len(), |i: int| job_line(snaps[i], i as usize, snaps.len() as usize))
}

/// The `jobs` builtin: reaps the jobs numbered in `finished` and returns the
/// line of every job, finished ones shown as done one last time.
pub fn jobs_report(table: &mut JobTable, finished: &Vec<usize>) -> (lines: Vec<String>)
    ensures
        strs_view(lines@) == all_job_lines(
            old(table)@.jobs.map_values(|j: JobView| snapshot_of(j, finished@)),
        ),
        final(table)@.jobs == crate::jobs::still_running(old(table)@.jobs, finished@),
        final(table)@.next_id == old(table)@.next_id,
{
    let list = reap(table, finished);
    let len = list.len();
    let ghost sv = list@.map_values(|s: JobSnapshot| s@);
    let mut out: Vec<String> = Vec::new();
    let mut i: usize = 0;
    assert(strs_view(out@) =~= all_job_lines(sv).take(0));
    while i < len
        invariant
            len == list@.len(),
            sv == list@.map_values(|s: JobSnapshot| s@),
            i <= len,
            strs_view(out@) == all_job_lines(sv).take(i as int),
        decreases len - i,
    {
        let line = format_job_line(&list[i], i, len);
        proof {
            assert(sv[i as int] == list@[i as int]@);
            assert(line@ == all_job_lines(sv)[i as int]);
            assert(strs_view(out@.push(line)) =~= strs_view(out@).push(line@));
            assert(all_job_lines(sv).take(i + 1) =~= all_job_lines(sv).take(i as int).push(
                all_job_lines(sv)[i as int],
            ));
        }
        out.push(line);
        i = i + 1;
    }
    assert(all_job_lines(sv).take(len as int) =~= all_job_lines(sv));
    out
}

/// What `echo` prints: its arguments separated by single spaces.
pub fn echo_output(rest: &[String]) -> (out: String)
    ensures
        out@ == join(strs_view(rest@), " "@),
{
    join_strings(rest, " ")
}

/// What `type` prints for `target`, given the executable found for it on
/// `PATH` (consulted only for names that are not builtins).
pub open spec fn spec_type_message(target: Seq<char>, found: Option<Seq<char>>) -> Seq<char> {
    if builtin_names().contains(target) {
        target + " is a shell builtin"@
    } else {
        match found {
            Some(p) => target + " is "@ + p,
            None => target + ": not found"@,
        }
    }
}

/// What `type` prints (see `spec_type_message`).
pub fn type_message(target: &str, found: Option<String>) -> (out: String)
    ensures
        out@ == spec_type_message(target@, crate::redirection::opt_view(found)),
{
    let mut v: Vec<char> = Vec::new();
    push_str(&mut v, target);
    if is_builtin(target) {
        push_str(&mut v, " is a shell builtin");
    } else {
        match found {
            Some(p) => {
                push_str(&mut v, " is ");
                push_str(&mut v, p.as_str());
            },
            None => {
                push_str(&mut v, ": not found");
            },
        }
    }
    string_from_chars(&v)
}

/// The directory `cd` changes to for `target`, given the home directory:
/// none for an empty target (nothing happens); the home directory for `~`
/// and the home directory followed by the rest for `~/...` (the target
/// itself when there is no home directory); the target itself otherwise.
pub open spec fn spec_cd_target(target: Seq<char>, home: Option<Seq<char>>) -> Option<Seq<char>> {
    if target.len() == 0 {
        None
    } else if target == "~"@ {
        match home {
            Some(h) => Some(h),
            None => Some(target),
        }
    } else if is_prefix("~/"@, target) {
        match home {
            Some(h) => Some(h + "/"@ + target.skip(2)),
            None => Some(target),
        }
    } else {
        Some(target)
    }
}

/// The directory `cd` changes to (see `spec_cd_target`).
pub fn resolve_cd_target(target: &str, home: Option<String>) -> (r: Option<String>)
    ensures
        crate::redirection::opt_view(r) == spec_cd_target(
            target@,
            crate::redirection::opt_view(home),
        ),
{
    let c = str_chars(target);
    if c.len() == 0 {
        return None;
    }
    proof {
        reveal_strlit("~");
        reveal_strlit("~/");
    }
    if str_eq(target, "~") {
        return match home {
            Some(h) => Some(h),
            None => Some(target.to_owned()),
        };
    }
    if starts_with(target, "~/") {
        return match home {
            Some(h) => {
                let mut v: Vec<char> = Vec::new();
                push_str(&mut v, h.as_str());
                push_str(&mut v, "/");
                let mut i: usize = 2;
                let ghost base = v@;
                while i < c.len()
                    invariant
                        2 <= i <= c@.len(),
                        v@ == base + c@.subrange(2, i as int),
                    decreases c@.len() - i,
                {
                    v.push(c[i]);
                    i = i + 1;
                    assert(v@ =~= base + c@.subrange(2, i as int));
                }
                assert(c@.subrange(2, c@.len() as int) =~= target@.skip(2));
                Some(string_from_chars(&v))
            },
            None => Some(target.to_owned()),
        };
    }
    Some(target.to_owned())
}

/// What `cd` prints when it cannot change to `target`.
pub fn cd_error_message(target: &str) -> (out: String)
    ensures
        out@ == "cd: "@ + target@ + ": No such file or directory"@,
{
    let mut v: Vec<char> = Vec::new();
    push_str(&mut v, "cd: ");
    push_str(&mut v, target);
    push_str(&mut v, ": No such file or directory");
    string_from_chars(&v)
}

/// What the shell prints for a command it cannot run.
pub fn not_found_message(command: &str) -> (out: String)
    ensures
        out@ == command@ + ": command not found"@,
{
    let mut v: Vec<char> = Vec::new();
    push_str(&mut v, command);
    push_str(&mut v, ": command not found");
    string_from_chars(&v)
}

/// What the shell prints when it starts a background job: `[id] pid`.
pub fn background_notice(id: usize, pid: u32) -> (out: String)
    ensures
        out@ == "["@ + dec(id as nat) + "] "@ + dec(pid as nat),
{
    let mut v: Vec<char> = Vec::new();
    push_str(&mut v, "[");
    let d = decimal(id);
    let ds = string_from_chars(&d);
    push_str(&mut v, ds.as_str());
    push_str(&mut v, "] ");
    let p = decimal(pid as usize);
    let ps = string_from_chars(&p);
    push_str(&mut v, ps.as_str());
    string_from_chars(&v)
}

} // verus!

verus! {

/// What the `history` builtin does.
pub enum HistoryAction {
    /// `history -r <file>...`: append each file's non-empty lines.
    Read(Vec<String>),
    /// `history -w [file]`: write the whole history to the file, if named.
    Write(Option<String>),
    /// List the entries from this index on (0-based), numbered from 1.
    List(usize),
}

/// A history action as plain values.
pub enum HistoryActionView {
    Read(Seq<Seq<char>>),
    Write(Option<Seq<char>>),
    List(nat),
}

impl View for HistoryAction {
    type V = HistoryActionView;

    open spec fn view(&self) -> HistoryActionView {
        match self {
            HistoryAction::Read(v) => HistoryActionView::Read(strs_view(v@)),
            HistoryAction::Write(o) => HistoryActionView::Write(crate::redirection::opt_view(*o)),
            HistoryAction::List(n) => HistoryActionView::List(*n as nat),
        }
    }
}

/// What `history` does with arguments `args` when the history holds `len`
/// entries: `-r` reads the files named after it, `-w` writes to the file
/// named after it; a number `n` lists the last `n` entries (all of them
/// when it is not a number); no argument lists every entry.
pub open spec fn spec_history_action(args: Seq<Seq<char>>, len: nat) -> HistoryActionView {
    if args.len() == 0 {
        HistoryActionView::List(0)
    } else if args[0] == "-r"@ {
        HistoryActionView::Read(args.skip(1))
    } else if args[0] == "-w"@ {
        HistoryActionView::Write(if args.len() > 1 { Some(args[1]) } else { None })
    } else {
        let limit: nat = match spec_parse_usize(args[0]) {
            Some(n) => n as nat,
            None => len,
        };
        HistoryActionView::List(if limit <= len { (len - limit) as nat } else { 0 })
    }
}

/// Decides what the `history` builtin does (see `spec_history_action`).
pub fn plan_history(rest: &[String], len: usize) -> (a: HistoryAction)
    ensures
        a@ == spec_history_action(strs_view(rest@), len as nat),
{
    if rest.len() == 0 {
        return HistoryAction::List(0);
    }
    assert(strs_view(rest@)[0] == rest@[0]@);
    proof {
        reveal_strlit("-r");
        reveal_strlit("-w");
    }
    if str_eq(rest[0].as_str(), "-r") {
        let mut paths: Vec<String> = Vec::new();
        let mut i: usize = 1;
        while i < rest.len()
            invariant
                1 <= i <= rest@.len(),
                strs_view(paths@) == strs_view(rest@).subrange(1, i as int),
            decreases rest@.len() - i,
        {
            let p = rest[i].clone();
            proof {
                assert(p@ == strs_view(rest@)[i as int]);
                assert(strs_view(paths@.push(p)) =~= strs_view(paths@).push(p@));
                assert(strs_view(rest@).subrange(1, i + 1) =~= strs_view(rest@).subrange(
                    1,
                    i as int,
                ).push(p@));
            }
            paths.push(p);
            i = i + 1;
        }
        assert(strs_view(rest@).subrange(1, rest@.len() as int) =~= strs_view(rest@).skip(1));
        return HistoryAction::Read(paths);
    }
    if str_eq(rest[0].as_str(), "-w") {
        if rest.len() > 1 {
            assert(strs_view(rest@)[1] == rest@[1]@);
            return HistoryAction::Write(Some(rest[1].clone()));
        }
        return HistoryAction::Write(None);
    }
    let limit = match parse_usize(rest[0].as_str()) {
        Some(n) => n,
        None => len,
    };
    HistoryAction::List(len.saturating_sub(limit))
}

/// The line `history` prints for the entry at `index`: its number
/// (`index + 1`) right-aligned in five columns, two spaces, the command.
pub open spec fn history_line(index: nat, cmd: Seq<char>) -> Seq<char> {
    pad_left(dec(index + 1), 5) + "  "@ + cmd
}

/// The lines `history` prints for `entries` from index `start` on.
pub open spec fn history_lines(entries: Seq<Seq<char>>, start: nat) -> Seq<Seq<char>> {
    Seq::new(
        if start <= entries.len() { (entries.len() - start) as nat } else { 0 },
        |k: int| history_line((start + k) as nat, entries[start + k]),
    )
}

/// The lines `history` prints, from index `start` on.
pub fn history_listing(entries: &Vec<String>, start: usize) -> (lines: Vec<String>)
    ensures
        strs_view(lines@) == history_lines(strs_view(entries@), start as nat),
{
    let n = entries.len();
    let mut out: Vec<String> = Vec::new();
    let ghost ev = strs_view(entries@);
    let mut i: usize = start;
    if i >= n {
        assert(strs_view(out@) =~= history_lines(ev, start as nat));
        return out;
    }
    while i < n
        invariant
            n == entries@.len(),
            ev == strs_view(entries@),
            start <= i <= n,
            strs_view(out@) == history_lines(ev, start as nat).take(i - start),
        decreases n - i,
    {
        let d = decimal(i + 1);
        let mut v: Vec<char> = Vec::new();
        if d.len() < 5 {
            push_spaces(&mut v, 5 - d.len());
        }
        let ds = string_from_chars(&d);
        push_str(&mut v, ds.as_str());
        push_str(&mut v, "  ");
        push_str(&mut v, entries[i].as_str());
        let line = string_from_chars(&v);
        proof {
            assert(ev[i as int] == entries@[i as int]@);
            assert(line@ =~= history_line(i as nat, ev[i as int]));
            assert(history_lines(ev, start as nat)[i - start] == history_line(i as nat, ev[i as int]));
            assert(strs_view(out@.push(line)) =~= strs_view(out@).push(line@));
            assert(history_lines(ev, start as nat).take(i - start + 1) =~= history_lines(
                ev,
                start as nat,
            ).take(i - start).push(line@));
        }
        out.push(line);
        i = i + 1;
    }
    assert(history_lines(ev, start as nat).take(n - start) =~= history_lines(ev, start as nat));
    out
}

} // verus!

verus! {

/// The `|`-separated segments of `args[i..]`, after the segment `cur` read
/// so far and the segments `acc` before it (empty segments kept).
pub open spec fn segments_from(
    args: Seq<Seq<char>>,
    i: int,
    cur: Seq<Seq<char>>,
    acc: Seq<Seq<Seq<char>>>,
) -> Seq<Seq<Seq<char>>>
    decreases args.len() - i,
{
    if i < 0 || i >= args.len() {
        acc.push(cur)
    } else if args[i] == "|"@ {
        segments_from(args, i + 1, Seq::empty(), acc.push(cur))
    } else {
        segments_from(args, i + 1, cur.push(args[i]), acc)
    }
}

/// The commands of a pipeline: the arguments split at each `|` token.
pub open spec fn spec_segments(args: Seq<Seq<char>>) -> Seq<Seq<Seq<char>>> {
    segments_from(args, 0, Seq::empty(), Seq::empty())
}

/// What a command line asks for.
pub enum CommandPlan {
    /// Nothing to run.
    Nothing,
    /// A pipeline: the arguments of each command, split at `|` tokens.
    Pipeline(Vec<Vec<String>>),
    /// One command with its arguments (the command name first), its
    /// redirections, and whether it runs in the background.
    Run { args: Vec<String>, redirect: Redirection, background: bool },
}

/// A command plan as plain values.
pub enum CommandPlanView {
    Nothing,
    Pipeline(Seq<Seq<Seq<char>>>),
    Run { args: Seq<Seq<char>>, redirect: crate::redirection::RedirectionView, background: bool },
}

/// The views of a sequence of argument lists.
pub open spec fn lists_view(v: Seq<Vec<String>>) -> Seq<Seq<Seq<char>>> {
    v.map_values(|a: Vec<String>| strs_view(a@))
}

impl View for CommandPlan {
    type V = CommandPlanView;

    open spec fn view(&self) -> CommandPlanView {
        match self {
            CommandPlan::Nothing => CommandPlanView::Nothing,
            CommandPlan::Pipeline(s) => CommandPlanView::Pipeline(lists_view(s@)),
            CommandPlan::Run { args, redirect, background } => CommandPlanView::Run {
                args: strs_view(args@),
                redirect: redirect@,
                background: *background,
            },
        }
    }
}

/// What the (already trimmed) command line `input` asks for: nothing for
/// no arguments; a pipeline when some argument is a `|` token (a quoted
/// `|` is an ordinary argument); otherwise one command, with its
/// redirections taken out, run in the background when its last argument is
/// `&` and the line itself ends with `&` (so that `echo "&"` is not).
pub open spec fn spec_plan_command(input: Seq<char>) -> CommandPlanView {
    let args = spec_tokenize(input);
    if args.len() == 0 {
        CommandPlanView::Nothing
    } else if args.contains("|"@) {
        CommandPlanView::Pipeline(spec_segments(args))
    } else {
        let parsed = spec_parse_redirections(args);
        let cmd = parsed.0;
        let t = trim_end(input);
        let background = cmd.len() > 0 && cmd.last() == "&"@ && t.len() > 0 && t.last() == '&';
        let words = if background {
            cmd.drop_last()
        } else {
            cmd
        };
        if words.len() == 0 {
            CommandPlanView::Nothing
        } else {
            CommandPlanView::Run { args: words, redirect: parsed.1, background }
        }
    }
}

fn contains_str(v: &Vec<String>, s: &str) -> (b: bool)
    ensures
        b == strs_view(v@).contains(s@),
{
    let n = v.len();
    let mut i: usize = 0;
    while i < n
        invariant
            n == v@.len(),
            i <= n,
            forall|k: int| 0 <= k < i ==> strs_view(v@)[k] != s@,
        decreases n - i,
    {
        if str_eq(v[i].as_str(), s) {
            assert(strs_view(v@)[i as int] == s@);
            return true;
        }
        i = i + 1;
    }
    false
}

/// Splits arguments at each `|` token (see `spec_segments`).
pub fn split_pipeline(args: &Vec<String>) -> (segs: Vec<Vec<String>>)
    ensures
        lists_view(segs@) == spec_segments(strs_view(args@)),
{
    let ghost a = strs_view(args@);
    let n = args.len();
    let mut segs: Vec<Vec<String>> = Vec::new();
    let mut cur: Vec<String> = Vec::new();
    let mut i: usize = 0;
    proof {
        reveal_strlit("|");
    }
    assert(lists_view(segs@) =~= Seq::<Seq<Seq<char>>>::empty());
    assert(strs_view(cur@) =~= Seq::<Seq<char>>::empty());
    while i < n
        invariant
            n == args@.len(),
            a == strs_view(args@),
            i <= n,
            segments_from(a, i as int, strs_view(cur@), lists_view(segs@)) == spec_segments(a),
        decreases n - i,
    {
        assert(a[i as int] == args@[i as int]@);
        if str_eq(args[i].as_str(), "|") {
            proof {
                assert(lists_view(segs@.push(cur)) =~= lists_view(segs@).push(strs_view(cur@)));
            }
            segs.push(cur);
            cur = Vec::new();
            assert(strs_view(cur@) =~= Seq::<Seq<char>>::empty());
        } else {
            let t = args[i].clone();
            proof {
                assert(strs_view(cur@.push(t)) =~= strs_view(cur@).push(a[i as int]));
            }
            cur.push(t);
        }
        i = i + 1;
    }
    proof {
        assert(lists_view(segs@.push(cur)) =~= lists_view(segs@).push(strs_view(cur@)));
    }
    segs.push(cur);
    segs
}

fn ends_with_amp(input: &str) -> (b: bool)
    ensures
        b == (trim_end(input@).len() > 0 && trim_end(input@).last() == '&'),
{
    let c = str_chars(input);
    let t = trim_end_vec(&c);
    t.len() > 0 && t[t.len() - 1] == '&'
}

/// Decides what a command line asks for (see `spec_plan_command`).
pub fn plan_command(input: &str) -> (p: CommandPlan)
    ensures
        p@ == spec_plan_command(input@),
{
    let args = tokenize(input);
    if args.len() == 0 {
        return CommandPlan::Nothing;
    }
    proof {
        reveal_strlit("|");
        reveal_strlit("&");
    }
    if contains_str(&args, "|") {
        return CommandPlan::Pipeline(split_pipeline(&args));
    }
    let (mut cmd, redirect) = parse_redirections(args.as_slice());
    let n = cmd.len();
    let background = n > 0 && str_eq(cmd[n - 1].as_str(), "&") && ends_with_amp(input);
    proof {
        if n > 0 {
            assert(strs_view(cmd@).last() == cmd@[n - 1]@);
        }
    }
    if background {
        let ghost before = strs_view(cmd@);
        cmd.pop();
        assert(strs_view(cmd@) =~= before.drop_last());
    }
    if cmd.len() == 0 {
        return CommandPlan::Nothing;
    }
    CommandPlan::Run { args: cmd, redirect, background }
}

/// The commands of a pipeline, each with its redirections taken out, or
/// none when some command is empty or there are fewer than two.
pub open spec fn spec_plan_pipeline(segs: Seq<Seq<Seq<char>>>) -> Option<
    Seq<(Seq<Seq<char>>, crate::redirection::RedirectionView)>,
> {
    let parsed = segs.map_values(|s: Seq<Seq<char>>| spec_parse_redirections(s));
    if exists|i: int| 0 <= i < parsed.len() && (#[trigger] parsed[i]).0.len() == 0 {
        None
    } else if segs.len() < 2 {
        None
    } else {
        Some(parsed)
    }
}

/// The stages of a pipeline as plain values.
pub open spec fn stages_view(v: Seq<(Vec<String>, Redirection)>) -> Seq<
    (Seq<Seq<char>>, crate::redirection::RedirectionView),
> {
    v.map_values(|p: (Vec<String>, Redirection)| (strs_view(p.0@), p.1@))
}

/// Prepares the commands of a pipeline (see `spec_plan_pipeline`).
pub fn plan_pipeline(segments: &Vec<Vec<String>>) -> (r: Option<Vec<(Vec<String>, Redirection)>>)
    ensures
        match r {
            Some(v) => spec_plan_pipeline(lists_view(segments@)) == Some(stages_view(v@)),
            None => spec_plan_pipeline(lists_view(segments@)) is None,
        },
{
    let ghost segs = lists_view(segments@);
    let ghost parsed = segs.map_values(|s: Seq<Seq<char>>| spec_parse_redirections(s));
    let n = segments.len();
    let mut out: Vec<(Vec<String>, Redirection)> = Vec::new();
    let mut i: usize = 0;
    assert(stages_view(out@) =~= parsed.take(0));
    while i < n
        invariant
            n == segments@.len(),
            segs == lists_view(segments@),
            parsed == segs.map_values(|s: Seq<Seq<char>>| spec_parse_redirections(s)),
            i <= n,
            stages_view(out@) == parsed.take(i as int),
            forall|k: int| 0 <= k < i ==> (#[trigger] parsed[k]).0.len() > 0,
        decreases n - i,
    {
        let (cmd, redir) = parse_redirections(segments[i].as_slice());
        assert(segs[i as int] == strs_view(segments@[i as int]@));
        if cmd.len() == 0 {
            assert(parsed[i as int].0.len() == 0);
            return None;
        }
        let ghost pv = (strs_view(cmd@), redir@);
        out.push((cmd, redir));
        proof {
            assert(stages_view(out@) =~= parsed.take(i as int).push(pv));
            assert(parsed.take(i + 1) =~= parsed.take(i as int).push(parsed[i as int]));
        }
        i = i + 1;
    }
    assert(parsed.take(n as int) =~= parsed);
    if n < 2 {
        return None;
    }
    Some(out)
}

} // verus!

verus! {

/// Law: a command line that is not a pipeline runs with the redirection
/// parsed from its tokens, whether or not it runs in the background; its
/// arguments are the tokens left by that parse, less the trailing `&` of a
/// background command.
pub proof fn lemma_plan_keeps_redirection(input: Seq<char>)
    ensures
        match spec_plan_command(input) {
            CommandPlanView::Run { args, redirect, background } => {
                &&& redirect == spec_parse_redirections(spec_tokenize(input)).1
                &&& (if background {
                    args.push("&"@)
                } else {
                    args
                }) == spec_parse_redirections(spec_tokenize(input)).0
            },
            _ => true,
        },
{
    let parsed = spec_parse_redirections(spec_tokenize(input));
    if parsed.0.len() > 0 {
        assert(parsed.0.drop_last().push(parsed.0.last()) =~= parsed.0);
    }
}

/// Law: the character after a job's `[number]` in its line is `+` for the
/// last job of the list, `-` for the one before it and a space for every
/// other, whatever the job's status and command.
pub proof fn lemma_job_line_marker(s: SnapshotView, index: usize, len: usize)
    ensures
        job_line(s, index, len)[0] == '[',
        job_line(s, index, len)[dec(s.id as nat).len() + 1int] == ']',
        job_line(s, index, len)[dec(s.id as nat).len() + 2int] == (if index + 1 == len {
            '+'
        } else if index + 2 == len {
            '-'
        } else {
            ' '
        }),
{
    reveal_strlit("[");
    reveal_strlit("]");
    reveal_strlit("+");
    reveal_strlit("-");
    reveal_strlit(" ");
    let d = dec(s.id as nat);
    let l = job_line(s, index, len);
    let m = marker(index, len);
    assert(m.len() == 1);
    assert(l == "["@ + d + "]"@ + m + ("  "@ + pad_right(status_text(s.status), 24)
        + shown_command(s))) by {
        assert(l =~= "["@ + d + "]"@ + m + ("  "@ + pad_right(status_text(s.status), 24)
            + shown_command(s)));
    }
    assert(l[d.len() + 2int] == m[0]);
}

/// `idx` lists, in increasing order, positions from `lo` on of finished
/// jobs, and `lines` holds the line of each of them at its place in the
/// whole list.
pub open spec fn lines_of_done(
    snaps: Seq<SnapshotView>,
    lo: int,
    idx: Seq<int>,
    lines: Seq<Seq<char>>,
) -> bool {
    &&& idx.len() == lines.len()
    &&& forall|k: int|
        0 <= k < idx.len() ==> lo <= #[trigger] idx[k] < snaps.len() && snaps[idx[k]].status
            == JobStatus::Done && lines[k] == job_line(
            snaps[idx[k]],
            idx[k] as usize,
            snaps.len() as usize,
        )
    &&& forall|k1: int, k2: int|
        0 <= k1 < k2 < idx.len() ==> #[trigger] idx[k1] < #[trigger] idx[k2]
    &&& forall|j: int|
        lo <= j < snaps.len() && snaps[j].status == JobStatus::Done ==> #[trigger] idx.contains(j)
}

proof fn lemma_done_lines_from(snaps: Seq<SnapshotView>, i: int)
    requires
        0 <= i <= snaps.len(),
    ensures
        exists|idx: Seq<int>| lines_of_done(snaps, i, idx, done_lines(snaps, i)),
    decreases snaps.len() - i,
{
    if i == snaps.len() {
        assert(lines_of_done(snaps, i, Seq::empty(), done_lines(snaps, i)));
    } else {
        lemma_done_lines_from(snaps, i + 1);
        let rest = done_lines(snaps, i + 1);
        let lo = i + 1;
        let idx = choose|idx: Seq<int>| lines_of_done(snaps, lo, idx, rest);
        if snaps[i].status == JobStatus::Done {
            let idx2 = seq![i] + idx;
            let lines = seq![job_line(snaps[i], i as usize, snaps.len() as usize)] + rest;
            assert(done_lines(snaps, i) == lines);
            assert forall|k: int| 0 <= k < idx2.len() implies i <= #[trigger] idx2[k] < snaps.len()
                && snaps[idx2[k]].status == JobStatus::Done && lines[k] == job_line(
                snaps[idx2[k]],
                idx2[k] as usize,
                snaps.len() as usize,
            ) by {
                if k > 0 {
                    assert(idx2[k] == idx[k - 1] && lines[k] == rest[k - 1]);
                }
            }
            assert forall|k1: int, k2: int| 0 <= k1 < k2 < idx2.len() implies #[trigger] idx2[k1]
                < #[trigger] idx2[k2] by {
                assert(idx2[k2] == idx[k2 - 1]);
                if k1 > 0 {
                    assert(idx2[k1] == idx[k1 - 1]);
                }
            }
            assert forall|j: int|
                i <= j < snaps.len() && snaps[j].status == JobStatus::Done implies
                #[trigger] idx2.contains(j) by {
                if j == i {
                    assert(idx2[0] == i);
                } else {
                    assert(idx.contains(j));
                    let k = choose|k: int| 0 <= k < idx.len() && idx[k] == j;
                    assert(idx2[k + 1] == j);
                }
            }
            assert(lines_of_done(snaps, i, idx2, done_lines(snaps, i)));
        } else {
            assert(done_lines(snaps, i) == rest);
            assert forall|j: int|
                i <= j < snaps.len() && snaps[j].status == JobStatus::Done implies
                #[trigger] idx.contains(j) by {
                assert(j != i);
            }
            assert(lines_of_done(snaps, i, idx, done_lines(snaps, i)));
        }
    }
}

/// Law: the lines printed when finished jobs are reaped are, in list
/// order, one for every finished job and for nothing else, each the line of
/// that job at its place in the whole list of jobs (so its marker is the one
/// `jobs` shows for it).
pub proof fn lemma_done_lines_of_finished_jobs(snaps: Seq<SnapshotView>)
    ensures
        exists|idx: Seq<int>| lines_of_done(snaps, 0, idx, done_lines(snaps, 0)),
{
    lemma_done_lines_from(snaps, 0);
}

/// Law: plain arguments (no quotes, escapes, pipe or redirect operator)
/// followed by ` &` run in the background, the `&` removed, with nothing
/// redirected; without the ` &` (and not already ending in a lone `&`)
/// they run in the foreground.
pub proof fn lemma_plan_trailing_ampersand(a: Seq<char>)
    requires
        plain(a),
        spec_tokenize(a).len() > 0,
        !spec_tokenize(a).contains("|"@),
        plain_from(spec_tokenize(a), 0),
    ensures
        spec_plan_command(a + " &"@) == (CommandPlanView::Run {
            args: spec_tokenize(a),
            redirect: no_redirect(),
            background: true,
        }),
        spec_tokenize(a).last() != "&"@ ==> spec_plan_command(a) == (CommandPlanView::Run {
            args: spec_tokenize(a),
            redirect: no_redirect(),
            background: false,
        }),
{
    reveal_strlit("&");
    reveal_strlit(" &");
    reveal_strlit("|");
    let amp = "&"@;
    let toks = spec_tokenize(a);
    let input = a + " &"@;
    assert(input =~= a + seq![' '] + amp);
    lemma_tokenize_space_splits(a, amp);
    assert(!is_ws('&'));
    assert(tokenize_from(amp, 0, Seq::empty(), Seq::empty(), QuoteState::Unquoted) == tokenize_from(
        amp,
        1,
        Seq::empty(),
        seq!['&'],
        QuoteState::Unquoted,
    ));
    assert(spec_tokenize(amp) == seq![seq!['&']]);
    assert(seq!['&'] =~= amp);
    let all = toks + seq![amp];
    assert(spec_tokenize(input) =~= all);
    assert(op_kind(amp) == 0);
    assert(plain_from(all, 0)) by {
        assert forall|k: int| 0 <= k < all.len() implies op_kind(#[trigger] all[k]) == 0 by {
            if k < toks.len() {
                assert(all[k] == toks[k]);
            }
        }
    }
    assert(!all.contains("|"@)) by {
        if all.contains("|"@) {
            let k = choose|k: int| 0 <= k < all.len() && all[k] == "|"@;
            if k < toks.len() {
                assert(toks[k] == "|"@);
            } else {
                assert(amp[0] != "|"@[0]);
            }
        }
    }
    lemma_parse_without_operators(all);
    assert(input.last() == '&');
    assert(trim_end(input) == input);
    assert(all.drop_last() =~= toks);
    lemma_parse_without_operators(toks);
}

} // verus!

