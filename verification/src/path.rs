//! Searching `PATH`: its directories, the paths a command may be found at,
//! which files count as executable, and the home directory.

use vstd::prelude::*;

use crate::order::{dedup_sorted, sort_strings, strictly_sorted};
use crate::text::{is_prefix, push_str, starts_with, str_chars, string_from_chars, strs_view};

verus! {

/// The non-empty `:`-separated fields of `s` from position `i` on, after
/// the field `cur` read so far and the fields `acc` before it.
pub open spec fn fields_from(s: Seq<char>, i: int, cur: Seq<char>, acc: Seq<Seq<char>>) -> Seq<
    Seq<char>,
>
    decreases s.len() - i,
{
    if i < 0 || i >= s.len() {
        if cur.len() > 0 {
            acc.push(cur)
        } else {
            acc
        }
    } else if s[i] == ':' {
        fields_from(s, i + 1, Seq::empty(), if cur.len() > 0 { acc.push(cur) } else { acc })
    } else {
        fields_from(s, i + 1, cur.push(s[i]), acc)
    }
}

/// The directories a `PATH` value lists: its non-empty `:`-separated fields.
pub open spec fn spec_path_dirs(path_var: Seq<char>) -> Seq<Seq<char>> {
    fields_from(path_var, 0, Seq::empty(), Seq::empty())
}

/// The directories listed in a `PATH` value, in order, empty fields skipped.
pub fn path_dirs(path_var: &str) -> (dirs: Vec<String>)
    ensures
        strs_view(dirs@) == spec_path_dirs(path_var@),
{
    let c = str_chars(path_var);
    let n = c.len();
    let mut dirs: Vec<String> = Vec::new();
    let mut cur: Vec<char> = Vec::new();
    let mut i: usize = 0;
    assert(strs_view(dirs@) =~= Seq::<Seq<char>>::empty());
    while i < n
        invariant
            n == c@.len(),
            c@ == path_var@,
            i <= n,
            fields_from(c@, i as int, cur@, strs_view(dirs@)) == spec_path_dirs(path_var@),
        decreases n - i,
    {
        if c[i] == ':' {
            if cur.len() > 0 {
                let d = string_from_chars(&cur);
                proof {
                    assert(strs_view(dirs@.push(d)) =~= strs_view(dirs@).push(cur@));
                }
                dirs.push(d);
            }
            cur = Vec::new();
        } else {
            cur.push(c[i]);
        }
        i = i + 1;
    }
    if cur.len() > 0 {
        let d = string_from_chars(&cur);
        proof {
            assert(strs_view(dirs@.push(d)) =~= strs_view(dirs@).push(cur@));
        }
        dirs.push(d);
    }
    dirs
}

/// `dir` joined with `name` (`Path::join`): `name` itself when it is
/// absolute, else `dir`, a `/` unless `dir` already ends with one, and
/// `name`.
pub open spec fn spec_join_path(dir: Seq<char>, name: Seq<char>) -> Seq<char> {
    if name.len() > 0 && name[0] == '/' {
        name
    } else if dir.len() > 0 && dir.last() == '/' {
        dir + name
    } else {
        dir + seq!['/'] + name
    }
}

/// `dir` joined with `name` (see `spec_join_path`).
pub fn join_path(dir: &str, name: &str) -> (p: String)
    ensures
        p@ == spec_join_path(dir@, name@),
{
    let d = str_chars(dir);
    let m = str_chars(name);
    if m.len() > 0 && m[0] == '/' {
        return name.to_owned();
    }
    let mut v: Vec<char> = Vec::new();
    push_str(&mut v, dir);
    if !(d.len() > 0 && d[d.len() - 1] == '/') {
        v.push('/');
    }
    push_str(&mut v, name);
    string_from_chars(&v)
}

/// The paths at which `command` is looked for, one per `PATH` directory, in
/// order. The first of them that is an executable file is the command.
pub fn candidate_paths(path_var: &str, command: &str) -> (paths: Vec<String>)
    ensures
        strs_view(paths@) == spec_path_dirs(path_var@).map_values(
            |d: Seq<char>| spec_join_path(d, command@),
        ),
{
    let dirs = path_dirs(path_var);
    let mut paths: Vec<String> = Vec::new();
    let n = dirs.len();
    let mut i: usize = 0;
    let ghost ds = strs_view(dirs@);
    while i < n
        invariant
            n == dirs@.len(),
            ds == strs_view(dirs@),
            i <= n,
            strs_view(paths@) == ds.take(i as int).map_values(
                |d: Seq<char>| spec_join_path(d, command@),
            ),
        decreases n - i,
    {
        let p = join_path(dirs[i].as_str(), command);
        proof {
            assert(ds[i as int] == dirs@[i as int]@);
            assert(strs_view(paths@.push(p)) =~= strs_view(paths@).push(p@));
            assert(ds.take(i + 1) =~= ds.take(i as int).push(ds[i as int]));
            assert(strs_view(paths@.push(p)) =~= ds.take(i + 1).map_values(
                |d: Seq<char>| spec_join_path(d, command@),
            ));
        }
        paths.push(p);
        i = i + 1;
    }
    assert(ds.take(n as int) =~= ds);
    paths
}

/// Whether a file mode has any execute bit set (`mode & 0o111 != 0`).
pub open spec fn spec_exec_mode(mode: u32) -> bool {
    mode & 0o111u32 != 0
}

/// Whether a file with permission bits `mode` counts as executable.
pub fn is_exec_mode(mode: u32) -> (b: bool)
    ensures
        b == spec_exec_mode(mode),
{
    mode & 0o111u32 != 0
}

/// The names of executable files (the entries flagged `true`) that start
/// with `partial`, sorted, each once.
pub fn select_executables(partial: &str, entries: &Vec<(String, bool)>) -> (names: Vec<String>)
    ensures
        strictly_sorted(strs_view(names@)),
        forall|x: Seq<char>|
            strs_view(names@).contains(x) <==> exists|i: int|
                0 <= i < entries@.len() && #[trigger] entries@[i].0@ == x && entries@[i].1
                    && is_prefix(partial@, x),
{
    let mut found: Vec<String> = Vec::new();
    let n = entries.len();
    let mut i: usize = 0;
    while i < n
        invariant
            n == entries@.len(),
            i <= n,
            forall|x: Seq<char>|
                strs_view(found@).contains(x) <==> exists|k: int|
                    0 <= k < i && #[trigger] entries@[k].0@ == x && entries@[k].1 && is_prefix(
                        partial@,
                        x,
                    ),
        decreases n - i,
    {
        let ghost before = strs_view(found@);
        if entries[i].1 && starts_with(entries[i].0.as_str(), partial) {
            let name = entries[i].0.clone();
            found.push(name);
            proof {
                assert(strs_view(found@) =~= before.push(entries@[i as int].0@));
            }
        }
        proof {
            let after = strs_view(found@);
            assert forall|x: Seq<char>| after.contains(x) <==> exists|k: int|
                0 <= k < i + 1 && #[trigger] entries@[k].0@ == x && entries@[k].1 && is_prefix(
                    partial@,
                    x,
                ) by {
                if after.contains(x) {
                    let j = choose|j: int| 0 <= j < after.len() && after[j] == x;
                    if j < before.len() {
                        assert(before.contains(x));
                    } else {
                        assert(entries@[i as int].0@ == x);
                    }
                }
                if exists|k: int|
                    0 <= k < i + 1 && #[trigger] entries@[k].0@ == x && entries@[k].1 && is_prefix(
                        partial@,
                        x,
                    ) {
                    let k = choose|k: int|
                        0 <= k < i + 1 && #[trigger] entries@[k].0@ == x && entries@[k].1
                            && is_prefix(partial@, x);
                    if k < i {
                        assert(before.contains(x));
                        let j = choose|j: int| 0 <= j < before.len() && before[j] == x;
                        assert(after[j] == x);
                    } else {
                        assert(after[after.len() - 1] == x);
                    }
                }
            }
        }
        i = i + 1;
    }
    let sorted = sort_strings(found);
    proof {
        let a = strs_view(found@);
        let b = strs_view(sorted@);
        assert forall|x: Seq<char>| b.contains(x) <==> a.contains(x) by {
            vstd::seq_lib::to_multiset_contains(a, x);
            vstd::seq_lib::to_multiset_contains(b, x);
        }
    }
    dedup_sorted(sorted)
}

/// The home directory named by `HOME`, if that is set and not empty.
pub fn home_from_var(home: Option<String>) -> (r: Option<String>)
    ensures
        r == (match home {
            Some(h) => if h@.len() > 0 {
                Some(h)
            } else {
                None
            },
            None => None,
        }),
{
    match home {
        Some(h) => {
            if !h.as_str().is_empty() {
                Some(h)
            } else {
                None
            }
        },
        None => None,
    }
}

/// The home directory guessed from a user name, `/Users/<user>`.
pub fn user_home(user: &str) -> (p: String)
    ensures
        p@ == "/Users/"@ + user@,
{
    let mut v: Vec<char> = Vec::new();
    push_str(&mut v, "/Users/");
    push_str(&mut v, user);
    string_from_chars(&v)
}

} // verus!
