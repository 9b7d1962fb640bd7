//! Output redirections (`>`, `1>`, `>>`, `1>>`, `2>`, `2>>`) on a token list.

use vstd::prelude::*;

use crate::text::{str_chars, strs_view};

verus! {

/// The stdout/stderr redirect targets parsed from a command line, with
/// whether each is in append mode (`>>`/`1>>`/`2>>`).
pub struct Redirection {
    pub stdout: Option<String>,
    pub stdout_append: bool,
    pub stderr: Option<String>,
    pub stderr_append: bool,
}

/// A redirection as plain values.
pub struct RedirectionView {
    pub stdout: Option<Seq<char>>,
    pub stdout_append: bool,
    pub stderr: Option<Seq<char>>,
    pub stderr_append: bool,
}

/// The characters of an optional string.
pub open spec fn opt_view(o: Option<String>) -> Option<Seq<char>> {
    match o {
        Some(s) => Some(s@),
        None => None,
    }
}

impl View for Redirection {
    type V = RedirectionView;

    open spec fn view(&self) -> RedirectionView {
        RedirectionView {
            stdout: opt_view(self.stdout),
            stdout_append: self.stdout_append,
            stderr: opt_view(self.stderr),
            stderr_append: self.stderr_append,
        }
    }
}

/// No redirection at all.
pub open spec fn no_redirect() -> RedirectionView {
    RedirectionView { stdout: None, stdout_append: false, stderr: None, stderr_append: false }
}

/// Which redirect operator a token is: 1 for `>`, 2 for `1>`, 3 for `>>`,
/// 4 for `1>>`, 5 for `2>`, 6 for `2>>`, 0 for any other token.
pub open spec fn op_kind(a: Seq<char>) -> u8 {
    if a == seq!['>'] {
        1
    } else if a == seq!['1', '>'] {
        2
    } else if a == seq!['>', '>'] {
        3
    } else if a == seq!['1', '>', '>'] {
        4
    } else if a == seq!['2', '>'] {
        5
    } else if a == seq!['2', '>', '>'] {
        6
    } else {
        0
    }
}

/// Operator `kind` redirects stdout.
pub open spec fn to_stdout(kind: u8) -> bool {
    1 <= kind <= 4
}

/// Operator `kind` redirects stderr.
pub open spec fn to_stderr(kind: u8) -> bool {
    kind == 5 || kind == 6
}

/// Operator `kind` appends to its file rather than truncating it.
pub open spec fn appends(kind: u8) -> bool {
    kind == 3 || kind == 4 || kind == 6
}

/// Sends the stream that operator `kind` names to `target`, in that
/// operator's mode, replacing any earlier target of that stream.
pub open spec fn honor(r: RedirectionView, kind: u8, target: Seq<char>) -> RedirectionView {
    if to_stdout(kind) {
        RedirectionView { stdout: Some(target), stdout_append: appends(kind), ..r }
    } else if to_stderr(kind) {
        RedirectionView { stderr: Some(target), stderr_append: appends(kind), ..r }
    } else {
        r
    }
}

/// The tokens from position `i` on, with every redirect operator that has a
/// following filename removed together with that filename, appended to
/// `out`; and the redirection `r` updated with those operators. `seen` holds
/// the operators met so far: a repeated operator is removed with its
/// filename and otherwise ignored.
pub open spec fn parse_from(
    args: Seq<Seq<char>>,
    i: int,
    out: Seq<Seq<char>>,
    r: RedirectionView,
    seen: Seq<u8>,
) -> (Seq<Seq<char>>, RedirectionView)
    decreases args.len() - i,
{
    if i < 0 || i >= args.len() {
        (out, r)
    } else if op_kind(args[i]) != 0 && i + 1 < args.len() {
        let k = op_kind(args[i]);
        if seen.contains(k) {
            parse_from(args, i + 2, out, r, seen)
        } else {
            parse_from(args, i + 2, out, honor(r, k, args[i + 1]), seen.push(k))
        }
    } else {
        parse_from(args, i + 1, out.push(args[i]), r, seen)
    }
}

/// The remaining tokens and the redirection of a whole token list.
pub open spec fn spec_parse_redirections(args: Seq<Seq<char>>) -> (
    Seq<Seq<char>>,
    RedirectionView,
) {
    parse_from(args, 0, Seq::empty(), no_redirect(), Seq::empty())
}

/// Which redirect operator `a` is (see `op_kind`).
pub fn redirect_kind(a: &String) -> (k: u8)
    ensures
        k == op_kind(a@),
{
    let c = str_chars(a.as_str());
    let n = c.len();
    if n == 1 && c[0] == '>' {
        assert(c@ =~= seq!['>']);
        1
    } else if n == 2 && c[0] == '1' && c[1] == '>' {
        assert(c@ =~= seq!['1', '>']);
        assert(a@ != seq!['>']);
        2
    } else if n == 2 && c[0] == '>' && c[1] == '>' {
        assert(c@ =~= seq!['>', '>']);
        assert(a@ != seq!['>'] && a@ != seq!['1', '>']) by {
            assert(seq!['1', '>'][0] == '1');
        }
        3
    } else if n == 3 && c[0] == '1' && c[1] == '>' && c[2] == '>' {
        assert(c@ =~= seq!['1', '>', '>']);
        4
    } else if n == 2 && c[0] == '2' && c[1] == '>' {
        assert(c@ =~= seq!['2', '>']);
        assert(a@ != seq!['1', '>'] && a@ != seq!['>', '>']) by {
            assert(seq!['1', '>'][0] == '1');
            assert(seq!['>', '>'][0] == '>');
        }
        5
    } else if n == 3 && c[0] == '2' && c[1] == '>' && c[2] == '>' {
        assert(c@ =~= seq!['2', '>', '>']);
        assert(a@ != seq!['1', '>', '>']) by {
            assert(seq!['1', '>', '>'][0] == '1');
        }
        6
    } else {
        assert(a@ != seq!['>']) by {
            if a@ == seq!['>'] {
                assert(c@[0] == seq!['>'][0]);
            }
        }
        assert(a@ != seq!['1', '>']) by {
            if a@ == seq!['1', '>'] {
                assert(c@[0] == seq!['1', '>'][0] && c@[1] == seq!['1', '>'][1]);
            }
        }
        assert(a@ != seq!['>', '>']) by {
            if a@ == seq!['>', '>'] {
                assert(c@[0] == seq!['>', '>'][0] && c@[1] == seq!['>', '>'][1]);
            }
        }
        assert(a@ != seq!['1', '>', '>']) by {
            if a@ == seq!['1', '>', '>'] {
                assert(c@[0] == seq!['1', '>', '>'][0] && c@[1] == seq!['1', '>', '>'][1]
                    && c@[2] == seq!['1', '>', '>'][2]);
            }
        }
        assert(a@ != seq!['2', '>']) by {
            if a@ == seq!['2', '>'] {
                assert(c@[0] == seq!['2', '>'][0] && c@[1] == seq!['2', '>'][1]);
            }
        }
        assert(a@ != seq!['2', '>', '>']) by {
            if a@ == seq!['2', '>', '>'] {
                assert(c@[0] == seq!['2', '>', '>'][0] && c@[1] == seq!['2', '>', '>'][1]
                    && c@[2] == seq!['2', '>', '>'][2]);
            }
        }
        0
    }
}

/// Whether operator `k` is among those met so far.
fn seen_kind(seen: &Vec<u8>, k: u8) -> (b: bool)
    ensures
        b == seen@.contains(k),
{
    let n = seen.len();
    let mut i: usize = 0;
    while i < n
        invariant
            n == seen@.len(),
            i <= n,
            forall|j: int| 0 <= j < i ==> seen@[j] != k,
        decreases n - i,
    {
        if seen[i] == k {
            assert(seen@[i as int] == k);
            return true;
        }
        i = i + 1;
    }
    false
}

/// Extracts redirection operators (`>`, `1>`, `2>`, `>>`, `1>>`, `2>>`) from
/// a token list.
///
/// Returns the tokens with each redirect operator and its filename removed,
/// plus the resolved targets. Only the first occurrence of each operator is
/// honored: a repeated operator is removed with its filename and otherwise
/// ignored, while a different operator on the same stream met later
/// replaces the earlier target (`> a >> b` appends to `b`). An operator with
/// no token after it is kept as an ordinary token.
pub fn parse_redirections(args: &[String]) -> (res: (Vec<String>, Redirection))
    ensures
        (strs_view(res.0@), res.1@) == spec_parse_redirections(strs_view(args@)),
{
    let mut out: Vec<String> = Vec::new();
    let mut redir = Redirection {
        stdout: None,
        stdout_append: false,
        stderr: None,
        stderr_append: false,
    };
    let mut seen: Vec<u8> = Vec::new();
    let ghost a = strs_view(args@);
    let n = args.len();
    let mut i: usize = 0;
    assert(strs_view(out@) =~= Seq::<Seq<char>>::empty());
    assert(redir@ == no_redirect());
    assert(seen@ =~= Seq::<u8>::empty());
    while i < n
        invariant
            n == args@.len(),
            a == strs_view(args@),
            i <= n,
            parse_from(a, i as int, strs_view(out@), redir@, seen@) == spec_parse_redirections(a),
        decreases n - i,
    {
        let k = redirect_kind(&args[i]);
        assert(a[i as int] == args@[i as int]@);
        if k != 0 && i + 1 < n {
            assert(a[i + 1] == args@[i + 1]@);
            if !seen_kind(&seen, k) {
                seen.push(k);
                if k <= 4 {
                    redir.stdout = Some(args[i + 1].clone());
                    redir.stdout_append = k == 3 || k == 4;
                } else {
                    redir.stderr = Some(args[i + 1].clone());
                    redir.stderr_append = k == 6;
                }
            }
            i = i + 2;
        } else {
            let t = args[i].clone();
            proof {
                assert(strs_view(out@.push(t)) =~= strs_view(out@).push(a[i as int]));
            }
            out.push(t);
            i = i + 1;
        }
    }
    (out, redir)
}

} // verus!

verus! {

/// No token of `args` from position `i` on is a redirect operator.
pub open spec fn plain_from(args: Seq<Seq<char>>, i: int) -> bool {
    forall|k: int| i <= k < args.len() ==> op_kind(#[trigger] args[k]) == 0
}

proof fn lemma_parse_plain(
    args: Seq<Seq<char>>,
    i: int,
    out: Seq<Seq<char>>,
    r: RedirectionView,
    seen: Seq<u8>,
)
    requires
        0 <= i <= args.len(),
        plain_from(args, i),
    ensures
        parse_from(args, i, out, r, seen) == (out + args.skip(i), r),
    decreases args.len() - i,
{
    if i >= args.len() {
        assert(out + args.skip(i) =~= out);
    } else {
        assert(op_kind(args[i]) == 0);
        lemma_parse_plain(args, i + 1, out.push(args[i]), r, seen);
        assert(out.push(args[i]) + args.skip(i + 1) =~= out + args.skip(i));
    }
}

/// Law: a token list without redirect operators is returned unchanged,
/// with no redirection.
pub proof fn lemma_parse_without_operators(args: Seq<Seq<char>>)
    requires
        plain_from(args, 0),
    ensures
        spec_parse_redirections(args) == (args, no_redirect()),
{
    lemma_parse_plain(args, 0, Seq::empty(), no_redirect(), Seq::empty());
    assert(Seq::<Seq<char>>::empty() + args.skip(0) =~= args);
}

proof fn lemma_prefix_parse(
    all: Seq<Seq<char>>,
    i: int,
    n: int,
    out: Seq<Seq<char>>,
    r: RedirectionView,
    seen: Seq<u8>,
)
    requires
        0 <= i <= n <= all.len(),
        forall|k: int| i <= k < n ==> op_kind(#[trigger] all[k]) == 0,
    ensures
        parse_from(all, i, out, r, seen) == parse_from(all, n, out + all.subrange(i, n), r, seen),
    decreases n - i,
{
    if i == n {
        assert(out + all.subrange(i, n) =~= out);
    } else {
        assert(op_kind(all[i]) == 0);
        lemma_prefix_parse(all, i + 1, n, out.push(all[i]), r, seen);
        assert(out.push(all[i]) + all.subrange(i + 1, n) =~= out + all.subrange(i, n));
    }
}

/// Parsing `args` followed by `tail` reaches the end of `args` with `args`
/// kept and nothing redirected, when `args` holds no operator.
proof fn lemma_plain_prefix(args: Seq<Seq<char>>, tail: Seq<Seq<char>>)
    requires
        plain_from(args, 0),
    ensures
        spec_parse_redirections(args + tail) == parse_from(
            args + tail,
            args.len() as int,
            args,
            no_redirect(),
            Seq::empty(),
        ),
{
    let all = args + tail;
    let n = args.len() as int;
    assert forall|k: int| 0 <= k < n implies op_kind(#[trigger] all[k]) == 0 by {
        assert(all[k] == args[k]);
    }
    lemma_prefix_parse(all, 0, n, Seq::empty(), no_redirect(), Seq::empty());
    assert(Seq::<Seq<char>>::empty() + all.subrange(0, n) =~= args);
}

/// Law: a redirect operator and its filename at the end of a token list
/// without other operators are removed, and the stream it names goes to
/// that file, in the operator's mode.
pub proof fn lemma_parse_trailing_redirect(args: Seq<Seq<char>>, op: Seq<char>, file: Seq<char>)
    requires
        plain_from(args, 0),
        op_kind(op) != 0,
    ensures
        spec_parse_redirections(args + seq![op, file]) == (args, honor(
            no_redirect(),
            op_kind(op),
            file,
        )),
{
    let all = args + seq![op, file];
    let n = args.len() as int;
    lemma_plain_prefix(args, seq![op, file]);
    assert(all[n] == op && all[n + 1] == file);
    assert(!Seq::<u8>::empty().contains(op_kind(op)));
    let r = honor(no_redirect(), op_kind(op), file);
    assert(all.len() == n + 2);
    assert(parse_from(all, n, args, no_redirect(), Seq::empty()) == parse_from(
        all,
        n + 2,
        args,
        r,
        seq![op_kind(op)],
    ));
}

} // verus!

verus! {

/// Law: only the first occurrence of an operator is honored: after the same
/// operator twice, following arguments without operators, its stream goes
/// to the first file, and both operators and their files are removed.
pub proof fn lemma_repeated_operator_first_wins(
    args: Seq<Seq<char>>,
    op: Seq<char>,
    f1: Seq<char>,
    f2: Seq<char>,
)
    requires
        plain_from(args, 0),
        op_kind(op) != 0,
    ensures
        spec_parse_redirections(args + seq![op, f1, op, f2]) == (args, honor(
            no_redirect(),
            op_kind(op),
            f1,
        )),
{
    let all = args + seq![op, f1, op, f2];
    let n = args.len() as int;
    let k = op_kind(op);
    lemma_plain_prefix(args, seq![op, f1, op, f2]);
    assert(all.len() == n + 4);
    assert(all[n] == op && all[n + 1] == f1 && all[n + 2] == op && all[n + 3] == f2);
    let r1 = honor(no_redirect(), k, f1);
    assert(!Seq::<u8>::empty().contains(k));
    assert(seq![k][0] == k);
    assert(parse_from(all, n, args, no_redirect(), Seq::empty()) == parse_from(
        all,
        n + 2,
        args,
        r1,
        seq![k],
    ));
    assert(parse_from(all, n + 2, args, r1, seq![k]) == parse_from(all, n + 4, args, r1, seq![k]));
}

/// Law: two different operators are both honored, in order: the later one
/// decides the target and mode of its stream, so when both name the same
/// stream (`> a >> b`, `> a 1> b`, `2> a 2>> b`) it goes to the second file.
/// Both operators and their files are removed.
pub proof fn lemma_later_operator_overrides(
    args: Seq<Seq<char>>,
    op1: Seq<char>,
    f1: Seq<char>,
    op2: Seq<char>,
    f2: Seq<char>,
)
    requires
        plain_from(args, 0),
        op_kind(op1) != 0,
        op_kind(op2) != 0,
        op_kind(op1) != op_kind(op2),
    ensures
        spec_parse_redirections(args + seq![op1, f1, op2, f2]) == (args, honor(
            honor(no_redirect(), op_kind(op1), f1),
            op_kind(op2),
            f2,
        )),
        to_stdout(op_kind(op1)) == to_stdout(op_kind(op2)) ==> spec_parse_redirections(
            args + seq![op1, f1, op2, f2],
        ).1 == honor(no_redirect(), op_kind(op2), f2),
{
    let all = args + seq![op1, f1, op2, f2];
    let n = args.len() as int;
    let k1 = op_kind(op1);
    let k2 = op_kind(op2);
    lemma_plain_prefix(args, seq![op1, f1, op2, f2]);
    assert(all.len() == n + 4);
    assert(all[n] == op1 && all[n + 1] == f1 && all[n + 2] == op2 && all[n + 3] == f2);
    let r1 = honor(no_redirect(), k1, f1);
    let r2 = honor(r1, k2, f2);
    assert(!Seq::<u8>::empty().contains(k1));
    assert(!seq![k1].contains(k2)) by {
        if seq![k1].contains(k2) {
            let j = choose|j: int| 0 <= j < 1 && seq![k1][j] == k2;
            assert(seq![k1][j] == k1);
        }
    }
    assert(parse_from(all, n, args, no_redirect(), Seq::empty()) == parse_from(
        all,
        n + 2,
        args,
        r1,
        seq![k1],
    ));
    assert(parse_from(all, n + 2, args, r1, seq![k1]) == parse_from(
        all,
        n + 4,
        args,
        r2,
        seq![k1].push(k2),
    ));
}

/// `idx` picks the elements of `out` from `args`, in order, all before
/// position `bound`.
pub open spec fn picks(
    idx: Seq<int>,
    out: Seq<Seq<char>>,
    args: Seq<Seq<char>>,
    bound: int,
) -> bool {
    &&& idx.len() == out.len()
    &&& forall|j: int|
        0 <= j < idx.len() ==> 0 <= #[trigger] idx[j] < bound && out[j] == args[idx[j]]
    &&& forall|j1: int, j2: int|
        0 <= j1 < j2 < idx.len() ==> #[trigger] idx[j1] < #[trigger] idx[j2]
}

/// `f` is the filename that follows a stdout operator in `args`, before
/// position `bound`.
pub open spec fn stdout_target_in(args: Seq<Seq<char>>, f: Seq<char>, bound: int) -> bool {
    exists|j: int|
        0 <= j && j + 1 < bound && #[trigger] to_stdout(op_kind(args[j])) && args[j + 1] == f
}

/// `f` is the filename that follows a stderr operator in `args`, before
/// position `bound`.
pub open spec fn stderr_target_in(args: Seq<Seq<char>>, f: Seq<char>, bound: int) -> bool {
    exists|j: int|
        0 <= j && j + 1 < bound && #[trigger] to_stderr(op_kind(args[j])) && args[j + 1] == f
}

/// What holds of the tokens kept and the redirection found after the first
/// `i` tokens of `args`.
pub open spec fn parsed_upto(
    args: Seq<Seq<char>>,
    i: int,
    out: Seq<Seq<char>>,
    r: RedirectionView,
) -> bool {
    &&& 0 <= i <= args.len()
    &&& r.stdout_append ==> r.stdout is Some
    &&& r.stderr_append ==> r.stderr is Some
    &&& exists|idx: Seq<int>| picks(idx, out, args, i)
    &&& out.len() <= i
    &&& (i - out.len()) % 2 == 0
    &&& r.stdout is Some ==> stdout_target_in(args, r.stdout->0, i)
    &&& r.stderr is Some ==> stderr_target_in(args, r.stderr->0, i)
}

/// The targets found before position `i` are still found before any later
/// position.
proof fn lemma_targets_later(args: Seq<Seq<char>>, r: RedirectionView, i: int, m: int)
    requires
        i <= m,
        r.stdout is Some ==> stdout_target_in(args, r.stdout->0, i),
        r.stderr is Some ==> stderr_target_in(args, r.stderr->0, i),
    ensures
        r.stdout is Some ==> stdout_target_in(args, r.stdout->0, m),
        r.stderr is Some ==> stderr_target_in(args, r.stderr->0, m),
{
    if r.stdout is Some {
        let j = choose|j: int|
            0 <= j && j + 1 < i && #[trigger] to_stdout(op_kind(args[j])) && args[j + 1]
                == r.stdout->0;
        assert(to_stdout(op_kind(args[j])));
    }
    if r.stderr is Some {
        let j = choose|j: int|
            0 <= j && j + 1 < i && #[trigger] to_stderr(op_kind(args[j])) && args[j + 1]
                == r.stderr->0;
        assert(to_stderr(op_kind(args[j])));
    }
}

proof fn lemma_parse_from_shape(
    args: Seq<Seq<char>>,
    i: int,
    out: Seq<Seq<char>>,
    r: RedirectionView,
    seen: Seq<u8>,
)
    requires
        parsed_upto(args, i, out, r),
    ensures
        parsed_upto(
            args,
            args.len() as int,
            parse_from(args, i, out, r, seen).0,
            parse_from(args, i, out, r, seen).1,
        ),
    decreases args.len() - i,
{
    let idx = choose|idx: Seq<int>| picks(idx, out, args, i);
    if i >= args.len() {
    } else if op_kind(args[i]) != 0 && i + 1 < args.len() {
        let k = op_kind(args[i]);
        assert(picks(idx, out, args, i + 2));
        lemma_targets_later(args, r, i, i + 2);
        if seen.contains(k) {
            lemma_parse_from_shape(args, i + 2, out, r, seen);
        } else {
            let r2 = honor(r, k, args[i + 1]);
            if to_stdout(k) {
                assert(stdout_target_in(args, args[i + 1], i + 2));
            }
            if to_stderr(k) {
                assert(stderr_target_in(args, args[i + 1], i + 2));
            }
            assert(parsed_upto(args, i + 2, out, r2));
            lemma_parse_from_shape(args, i + 2, out, r2, seen.push(k));
        }
    } else {
        let out2 = out.push(args[i]);
        let idx2 = idx.push(i);
        assert(picks(idx2, out2, args, i + 1)) by {
            assert forall|j: int| 0 <= j < idx2.len() implies 0 <= #[trigger] idx2[j] < i + 1
                && out2[j] == args[idx2[j]] by {
                if j < idx.len() {
                    assert(idx2[j] == idx[j]);
                }
            }
            assert forall|j1: int, j2: int| 0 <= j1 < j2 < idx2.len() implies #[trigger] idx2[j1]
                < #[trigger] idx2[j2] by {
                assert(idx2[j1] == idx[j1]);
                if j2 < idx.len() {
                    assert(idx2[j2] == idx[j2]);
                }
            }
        }
        lemma_targets_later(args, r, i, i + 1);
        lemma_parse_from_shape(args, i + 1, out2, r, seen);
    }
}

/// Law: what `parse_redirections` leaves is shaped by the operators it
/// removed. An append flag is set only with a target for its stream; the
/// tokens kept are tokens of `args`, in their order; an even number of
/// tokens is removed (each operator with its filename); and each target is
/// the token right after an operator for that stream.
pub proof fn lemma_parse_shape(args: Seq<Seq<char>>)
    ensures
        ({
            let (out, r) = spec_parse_redirections(args);
            &&& r.stdout_append ==> r.stdout is Some
            &&& r.stderr_append ==> r.stderr is Some
            &&& exists|idx: Seq<int>| picks(idx, out, args, args.len() as int)
            &&& out.len() <= args.len()
            &&& (args.len() - out.len()) % 2 == 0
            &&& r.stdout is Some ==> stdout_target_in(args, r.stdout->0, args.len() as int)
            &&& r.stderr is Some ==> stderr_target_in(args, r.stderr->0, args.len() as int)
        }),
{
    let e = Seq::<int>::empty();
    assert(picks(e, Seq::empty(), args, 0));
    assert(parsed_upto(args, 0, Seq::empty(), no_redirect()));
    lemma_parse_from_shape(args, 0, Seq::empty(), no_redirect(), Seq::empty());
}

} // verus!
