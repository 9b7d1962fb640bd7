//! TAB completion: where the word being completed starts, and what to
//! complete it to, for command names, files, and commands with a
//! programmable completion script.

use vstd::prelude::*;
use vstd::utf8::{encode_utf8, is_char_boundary};

use crate::completions::{common_prefix, lcp_of, lemma_lcp_is_longest, prefix_of_all};
use crate::builtins::{builtin_names, builtins};
use crate::order::{
    dedup_sorted, lemma_sorted_of, lemma_sorted_of_finite, lemma_sorted_perm, sort_strings,
    sorted_of, sorted_perm,
};
use crate::text::{
    is_prefix, is_whitespace, is_ws, join, join_strings, push_str, spec_lines, spec_words,
    split_whitespace, starts_with, str_chars, str_eq, string_from_chars, strs_view, take_prefix,
    trimmed_lines, trimmed_non_empty, utf8_len,
};

verus! {

/// The position of the last whitespace character of `s`, or -1.
pub open spec fn last_ws(s: Seq<char>) -> int
    decreases s.len(),
{
    if s.len() == 0 {
        -1
    } else if is_ws(s.last()) {
        s.len() - 1
    } else {
        last_ws(s.drop_last())
    }
}

proof fn lemma_last_ws(s: Seq<char>)
    ensures
        -1 <= last_ws(s) < s.len(),
        last_ws(s) >= 0 ==> is_ws(s[last_ws(s)]),
        forall|k: int| last_ws(s) < k < s.len() ==> !is_ws(#[trigger] s[k]),
    decreases s.len(),
{
    if s.len() > 0 && !is_ws(s.last()) {
        lemma_last_ws(s.drop_last());
        assert forall|k: int| last_ws(s) < k < s.len() implies !is_ws(#[trigger] s[k]) by {
            if k < s.len() - 1 {
                assert(s[k] == s.drop_last()[k]);
            }
        }
    }
}

/// The cursor position clamped to the line's length in bytes.
pub open spec fn clamp_pos(line: Seq<char>, pos: usize) -> int {
    if pos < encode_utf8(line).len() {
        pos as int
    } else {
        encode_utf8(line).len() as int
    }
}

/// The text before the cursor, the word being completed and where it starts.
pub struct WordContext {
    /// The line up to the cursor.
    pub before: String,
    /// The byte position at which the word being completed starts.
    pub word_start: usize,
    /// The text before that word.
    pub head: String,
    /// The word being completed (from the last whitespace before the cursor
    /// up to the cursor).
    pub partial: String,
}

/// Splits the line at the cursor `pos` (a byte position, clamped to the
/// line's length) and finds the word being completed: it starts after the
/// last whitespace before the cursor, or at the start of the line.
/// The cursor must fall on a character boundary, and the whitespace before
/// the word must be a one-byte character.
pub fn completion_context(line: &str, pos: usize) -> (ctx: WordContext)
    requires
        is_char_boundary(encode_utf8(line@), clamp_pos(line@, pos)),
        forall|c: Seq<char>|
            encode_utf8(c) == encode_utf8(line@).take(clamp_pos(line@, pos)) && last_ws(c) >= 0
                ==> (#[trigger] c[last_ws(c)] as u32) < 0x80,
    ensures
        encode_utf8(ctx.before@) == encode_utf8(line@).take(clamp_pos(line@, pos)),
        ctx.head@ == ctx.before@.take(last_ws(ctx.before@) + 1),
        ctx.partial@ == ctx.before@.skip(last_ws(ctx.before@) + 1),
        ctx.word_start == encode_utf8(ctx.head@).len(),
{
    let blen = line.as_bytes().len();
    let p = if pos < blen {
        pos
    } else {
        blen
    };
    let (before_s, _) = line.split_at(p);
    let cs = str_chars(before_s);
    proof {
        lemma_last_ws(cs@);
        assert(encode_utf8(cs@) =~= encode_utf8(line@).take(p as int));
    }
    let n = cs.len();
    let mut k: usize = n;
    while k > 0 && !is_whitespace(cs[k - 1])
        invariant
            k <= n,
            n == cs@.len(),
            forall|m: int| k <= m < n ==> !is_ws(#[trigger] cs@[m]),
        decreases k,
    {
        k = k - 1;
    }
    proof {
        lemma_last_ws(cs@);
        assert(last_ws(cs@) + 1 == k) by {
            let j = last_ws(cs@);
            if j + 1 < k {
                assert(!is_ws(cs@[k - 1]));
                assert(is_ws(cs@[k - 1]));
            } else if j + 1 > k {
                assert(is_ws(cs@[j]));
            }
        }
    }
    let head_c = take_prefix(&cs, k);
    let mut rest: Vec<char> = Vec::new();
    let mut i: usize = k;
    while i < n
        invariant
            n == cs@.len(),
            k <= i <= n,
            rest@ == cs@.subrange(k as int, i as int),
        decreases n - i,
    {
        rest.push(cs[i]);
        i = i + 1;
        assert(rest@ =~= cs@.subrange(k as int, i as int));
    }
    assert(rest@ =~= cs@.skip(k as int));
    let word_start = utf8_len(&cs, k);
    WordContext {
        before: before_s.to_owned(),
        word_start,
        head: string_from_chars(&head_c),
        partial: string_from_chars(&rest),
    }
}

} // verus!

verus! {

/// Longest string that is a prefix of every name, compared character by
/// character; empty when there are no names.
pub fn longest_common_prefix(names: &[String]) -> (r: String)
    ensures
        names@.len() == 0 ==> r@ == Seq::<char>::empty(),
        names@.len() > 0 ==> r@ == lcp_of(strs_view(names@)),
{
    common_prefix(names)
}

} // verus!

verus! {

/// A completion candidate: what is shown and what replaces the word.
pub struct Candidate {
    pub display: String,
    pub replacement: String,
}

/// A candidate as plain values.
pub struct CandidateView {
    pub display: Seq<char>,
    pub replacement: Seq<char>,
}

impl View for Candidate {
    type V = CandidateView;

    open spec fn view(&self) -> CandidateView {
        CandidateView { display: self.display@, replacement: self.replacement@ }
    }
}

/// What TAB does: replace the text from byte position `start` up to the
/// cursor with the candidates, ring the bell or not, and print a listing of
/// the matches or not.
pub struct Completion {
    pub start: usize,
    pub candidates: Vec<Candidate>,
    pub bell: bool,
    pub listing: Option<String>,
}

/// A completion as plain values.
pub struct CompletionView {
    pub start: usize,
    pub candidates: Seq<CandidateView>,
    pub bell: bool,
    pub listing: Option<Seq<char>>,
}

impl View for Completion {
    type V = CompletionView;

    open spec fn view(&self) -> CompletionView {
        CompletionView {
            start: self.start,
            candidates: self.candidates@.map_values(|c: Candidate| c@),
            bell: self.bell,
            listing: crate::redirection::opt_view(self.listing),
        }
    }
}

/// One candidate, as plain values.
pub open spec fn one(display: Seq<char>, replacement: Seq<char>) -> Seq<CandidateView> {
    seq![CandidateView { display, replacement }]
}

/// A completion with a single candidate.
pub open spec fn outcome(
    start: usize,
    display: Seq<char>,
    replacement: Seq<char>,
    bell: bool,
    listing: Option<Seq<char>>,
) -> CompletionView {
    CompletionView { start, candidates: one(display, replacement), bell, listing }
}

fn make(
    start: usize,
    display: String,
    replacement: String,
    bell: bool,
    listing: Option<String>,
) -> (c: Completion)
    ensures
        c@ == outcome(
            start,
            display@,
            replacement@,
            bell,
            crate::redirection::opt_view(listing),
        ),
{
    let mut v: Vec<Candidate> = Vec::new();
    v.push(Candidate { display, replacement });
    let c = Completion { start, candidates: v, bell, listing };
    assert(c@.candidates =~= one(display@, replacement@));
    c
}

/// TAB completion state: the builtin names offered for commands, and the
/// cursor position and line of the last argument completion that rang the
/// bell for several matches (a second TAB on the same unchanged line lists
/// them).
pub struct ShellHelper {
    pub builtins: Vec<String>,
    pub last_arg_complete: Option<(usize, String)>,
}

/// The remembered (cursor, line) key, as plain values.
pub open spec fn key_view(k: Option<(usize, String)>) -> Option<(usize, Seq<char>)> {
    match k {
        Some(p) => Some((p.0, p.1@)),
        None => None,
    }
}

/// The names offered when completing a command name: the builtins that
/// start with `partial`, and the executables found for it.
pub open spec fn command_names(
    builtins: Seq<Seq<char>>,
    partial: Seq<char>,
    executables: Seq<Seq<char>>,
) -> Set<Seq<char>> {
    Set::new(
        |x: Seq<char>| (builtins.contains(x) && is_prefix(partial, x)) || executables.contains(x),
    )
}

/// Command-name completion over the matching names `names` (sorted, each
/// once): none rings the bell and keeps the word; one completes to it with
/// a trailing space; several complete to their longest common prefix when
/// it is longer than the word, and otherwise ring the bell and list them,
/// two spaces apart.
pub open spec fn command_completion(partial: Seq<char>, names: Seq<Seq<char>>) -> CompletionView {
    if names.len() == 0 {
        outcome(0, partial, partial, true, None)
    } else if names.len() == 1 {
        outcome(0, names[0], names[0] + " "@, false, None)
    } else if lcp_of(names) != partial {
        outcome(0, lcp_of(names), lcp_of(names), false, None)
    } else {
        outcome(0, partial, partial, true, Some(join(names, "  "@)))
    }
}

/// The names among `names` that start with `p`, in order.
pub open spec fn prefixed(names: Seq<Seq<char>>, p: Seq<char>) -> Seq<Seq<char>>
    decreases names.len(),
{
    if names.len() == 0 {
        Seq::empty()
    } else if is_prefix(p, names.last()) {
        prefixed(names.drop_last(), p).push(names.last())
    } else {
        prefixed(names.drop_last(), p)
    }
}

proof fn lemma_prefixed_contains(names: Seq<Seq<char>>, p: Seq<char>, x: Seq<char>)
    ensures
        prefixed(names, p).contains(x) <==> (names.contains(x) && is_prefix(p, x)),
    decreases names.len(),
{
    if names.len() > 0 {
        let init = names.drop_last();
        lemma_prefixed_contains(init, p, x);
        let r = prefixed(names, p);
        let r0 = prefixed(init, p);
        if r.contains(x) {
            let j = choose|j: int| 0 <= j < r.len() && r[j] == x;
            if j < r0.len() {
                assert(r0[j] == x);
                assert(r0.contains(x));
                let m = choose|m: int| 0 <= m < init.len() && init[m] == x;
                assert(names[m] == x);
            } else {
                assert(names[names.len() - 1] == x);
            }
        }
        if names.contains(x) && is_prefix(p, x) {
            let m = choose|m: int| 0 <= m < names.len() && names[m] == x;
            if m < names.len() - 1 {
                assert(init[m] == x);
                assert(r0.contains(x));
                let j = choose|j: int| 0 <= j < r0.len() && r0[j] == x;
                assert(r[j] == x);
            } else {
                assert(r[r.len() - 1] == x);
            }
        }
    }
}

impl ShellHelper {
    /// A completion state offering the builtins, with nothing remembered.
    pub fn new() -> (h: Self)
        ensures
            strs_view(h.builtins@) == builtin_names(),
            h.last_arg_complete is None,
    {
        ShellHelper { builtins: builtins(), last_arg_complete: None }
    }

    /// Completes a command name: `partial` is the whole text before the
    /// cursor and `executables` the executables found on `PATH` whose names
    /// start with it.
    pub fn complete_command(&self, partial: &str, executables: Vec<String>) -> (c: Completion)
        ensures
            c@ == command_completion(
                partial@,
                sorted_of(
                    command_names(strs_view(self.builtins@), partial@, strs_view(executables@)),
                ),
            ),
    {
        let ghost bs = strs_view(self.builtins@);
        let ghost es = strs_view(executables@);
        let mut names: Vec<String> = Vec::new();
        let nb = self.builtins.len();
        let mut i: usize = 0;
        assert(strs_view(names@) =~= prefixed(bs.take(0), partial@));
        while i < nb
            invariant
                nb == self.builtins@.len(),
                bs == strs_view(self.builtins@),
                i <= nb,
                strs_view(names@) == prefixed(bs.take(i as int), partial@),
            decreases nb - i,
        {
            assert(bs.take(i + 1).drop_last() =~= bs.take(i as int));
            assert(bs.take(i + 1).last() == bs[i as int]);
            if starts_with(self.builtins[i].as_str(), partial) {
                let b = self.builtins[i].clone();
                proof {
                    assert(strs_view(names@.push(b)) =~= strs_view(names@).push(b@));
                }
                names.push(b);
            }
            i = i + 1;
        }
        assert(bs.take(nb as int) =~= bs);
        let ghost nb_names = strs_view(names@);
        let mut j: usize = 0;
        let ne = executables.len();
        while j < ne
            invariant
                ne == executables@.len(),
                es == strs_view(executables@),
                j <= ne,
                strs_view(names@) == nb_names + es.take(j as int),
            decreases ne - j,
        {
            let e = executables[j].clone();
            proof {
                assert(strs_view(names@.push(e)) =~= strs_view(names@).push(e@));
                assert(es.take(j + 1) =~= es.take(j as int).push(es[j as int]));
                assert(nb_names + es.take(j + 1) =~= (nb_names + es.take(j as int)).push(e@));
            }
            names.push(e);
            j = j + 1;
        }
        assert(es.take(ne as int) =~= es);
        let ghost all = strs_view(names@);
        let sorted = sort_strings(names);
        let uniq = dedup_sorted(sorted);
        proof {
            let u = strs_view(uniq@);
            let set = command_names(bs, partial@, es);
            assert forall|x: Seq<char>| u.to_set().contains(x) == set.contains(x) by {
                vstd::seq_lib::to_multiset_contains(all, x);
                vstd::seq_lib::to_multiset_contains(strs_view(sorted@), x);
                if all.contains(x) {
                    let k = choose|k: int| 0 <= k < all.len() && all[k] == x;
                    if k < nb_names.len() {
                        assert(nb_names.contains(x));
                    } else {
                        assert(es[k - nb_names.len()] == x);
                        assert(es.contains(x));
                    }
                }
                lemma_prefixed_contains(bs, partial@, x);
                if nb_names.contains(x) {
                    let k = choose|k: int| 0 <= k < nb_names.len() && nb_names[k] == x;
                    assert(all[k] == x);
                }
                if es.contains(x) {
                    let k = choose|k: int| 0 <= k < es.len() && es[k] == x;
                    assert(all[nb_names.len() + k] == x);
                }
            }
            assert(u.to_set() =~= set);
            lemma_sorted_of(u);
        }
        self.decide_command(partial, uniq)
    }

    fn decide_command(&self, partial: &str, names: Vec<String>) -> (c: Completion)
        ensures
            c@ == command_completion(partial@, strs_view(names@)),
    {
        let n = names.len();
        if n == 0 {
            return make(0, partial.to_owned(), partial.to_owned(), true, None);
        }
        if n == 1 {
            let name = names[0].clone();
            let mut rep: Vec<char> = Vec::new();
            push_str(&mut rep, name.as_str());
            push_str(&mut rep, " ");
            return make(0, name, string_from_chars(&rep), false, None);
        }
        let lcp = longest_common_prefix(names.as_slice());
        if !str_eq(lcp.as_str(), partial) {
            let lcp2 = lcp.clone();
            return make(0, lcp, lcp2, false, None);
        }
        let listing = join_strings(names.as_slice(), "  ");
        make(0, partial.to_owned(), partial.to_owned(), true, Some(listing))
    }
}

} // verus!

verus! {

/// The position of the last `c` in `s`, or -1.
pub open spec fn last_index_of(s: Seq<char>, c: char) -> int
    decreases s.len(),
{
    if s.len() == 0 {
        -1
    } else if s.last() == c {
        s.len() - 1
    } else {
        last_index_of(s.drop_last(), c)
    }
}

proof fn lemma_last_index_of(s: Seq<char>, c: char)
    ensures
        -1 <= last_index_of(s, c) < s.len(),
        last_index_of(s, c) >= 0 ==> s[last_index_of(s, c)] == c,
        forall|k: int| last_index_of(s, c) < k < s.len() ==> #[trigger] s[k] != c,
        last_index_of(s, c) >= 0 <==> s.contains(c),
    decreases s.len(),
{
    if s.len() > 0 && s.last() != c {
        lemma_last_index_of(s.drop_last(), c);
        assert forall|k: int| last_index_of(s, c) < k < s.len() implies #[trigger] s[k] != c by {
            if k < s.len() - 1 {
                assert(s[k] == s.drop_last()[k]);
            }
        }
        if s.contains(c) {
            let k = choose|k: int| 0 <= k < s.len() && s[k] == c;
            assert(s.drop_last()[k] == c);
        }
        if s.drop_last().contains(c) {
            let k = choose|k: int| 0 <= k < s.drop_last().len() && s.drop_last()[k] == c;
            assert(s[k] == c);
        }
    } else if s.len() > 0 {
        assert(s[s.len() - 1] == c);
    }
}

/// Where file completion looks, for the word being completed.
pub struct FileTarget {
    /// Bytes of the word before the part that is replaced.
    pub replace_start: usize,
    /// The directory whose entries are matched.
    pub dir: String,
    /// The file name prefix to match.
    pub filename_part: String,
    /// Whether the word ends with `/` (its directory's contents are listed,
    /// and the whole word is replaced).
    pub trailing_slash: bool,
    /// The part of the word that is replaced.
    pub tail: String,
}

/// A file target as plain values.
pub struct FileTargetView {
    pub replace_start: usize,
    pub dir: Seq<char>,
    pub filename_part: Seq<char>,
    pub trailing_slash: bool,
    pub tail: Seq<char>,
}

impl View for FileTarget {
    type V = FileTargetView;

    open spec fn view(&self) -> FileTargetView {
        FileTargetView {
            replace_start: self.replace_start,
            dir: self.dir@,
            filename_part: self.filename_part@,
            trailing_slash: self.trailing_slash,
            tail: self.tail@,
        }
    }
}

/// Where to look for files completing `p`: a word ending with `/` lists
/// that directory; a word with a `/` matches the part after the last `/`
/// inside the directory before it; any other word matches in `.`.
pub open spec fn spec_file_target(p: Seq<char>) -> FileTargetView {
    if p.len() > 0 && p.last() == '/' {
        FileTargetView {
            replace_start: 0,
            dir: p.drop_last(),
            filename_part: Seq::empty(),
            trailing_slash: true,
            tail: p,
        }
    } else if last_index_of(p, '/') >= 0 {
        let j = last_index_of(p, '/');
        FileTargetView {
            replace_start: encode_utf8(p.take(j + 1)).len() as usize,
            dir: p.take(j + 1),
            filename_part: p.skip(j + 1),
            trailing_slash: false,
            tail: p.skip(j + 1),
        }
    } else {
        FileTargetView {
            replace_start: 0,
            dir: "."@,
            filename_part: p,
            trailing_slash: false,
            tail: p,
        }
    }
}

fn chars_skip(v: &Vec<char>, k: usize) -> (r: Vec<char>)
    requires
        k <= v@.len(),
    ensures
        r@ == v@.skip(k as int),
{
    let mut r: Vec<char> = Vec::new();
    let mut i: usize = k;
    while i < v.len()
        invariant
            k <= i <= v@.len(),
            r@ == v@.subrange(k as int, i as int),
        decreases v@.len() - i,
    {
        r.push(v[i]);
        i = i + 1;
        assert(r@ =~= v@.subrange(k as int, i as int));
    }
    assert(r@ =~= v@.skip(k as int));
    r
}

/// Where to look for files completing the word `partial` (see
/// `spec_file_target`).
pub fn file_target(partial: &str) -> (t: FileTarget)
    ensures
        t@ == spec_file_target(partial@),
{
    let c = str_chars(partial);
    let n = c.len();
    proof {
        lemma_last_index_of(c@, '/');
    }
    if n > 0 && c[n - 1] == '/' {
        let d = take_prefix(&c, n - 1);
        assert(d@ =~= c@.drop_last());
        return FileTarget {
            replace_start: 0,
            dir: string_from_chars(&d),
            filename_part: String::new(),
            trailing_slash: true,
            tail: partial.to_owned(),
        };
    }
    let mut k: usize = n;
    while k > 0 && c[k - 1] != '/'
        invariant
            k <= n,
            n == c@.len(),
            forall|m: int| k <= m < n ==> #[trigger] c@[m] != '/',
        decreases k,
    {
        k = k - 1;
    }
    proof {
        let j = last_index_of(c@, '/');
        assert(j + 1 == k) by {
            if j + 1 < k {
                assert(c@[k - 1] == '/');
            } else if j + 1 > k {
                assert(c@[j] == '/');
            }
        }
    }
    if k == 0 {
        return FileTarget {
            replace_start: 0,
            dir: ".".to_owned(),
            filename_part: partial.to_owned(),
            trailing_slash: false,
            tail: partial.to_owned(),
        };
    }
    // The encoding of a string fits in memory, so its length is a `usize`.
    let _ = partial.as_bytes().len();
    let rs = utf8_len(&c, k);
    let d = take_prefix(&c, k);
    let f = chars_skip(&c, k);
    FileTarget {
        replace_start: rs,
        dir: string_from_chars(&d),
        filename_part: string_from_chars(&f),
        trailing_slash: false,
        tail: string_from_chars(&f),
    }
}

} // verus!

verus! {

/// A directory entry name matches the file name prefix `f` (`.` and `..`
/// never do).
pub open spec fn name_matches(name: Seq<char>, f: Seq<char>) -> bool {
    name != "."@ && name != ".."@ && is_prefix(f, name)
}

/// The names of the entries that match `f`.
pub open spec fn matching_names(entries: Seq<(String, bool)>, f: Seq<char>) -> Set<Seq<char>> {
    Set::new(
        |x: Seq<char>|
            exists|i: int|
                0 <= i < entries.len() && #[trigger] entries[i].0@ == x && name_matches(x, f),
    )
}

/// Some entry named `x` is a directory.
pub open spec fn is_dir_of(entries: Seq<(String, bool)>, x: Seq<char>) -> bool {
    exists|i: int| 0 <= i < entries.len() && #[trigger] entries[i].0@ == x && entries[i].1
}

/// No two entries have the same name (as in a directory listing).
pub open spec fn distinct_names(entries: Seq<(String, bool)>) -> bool {
    forall|i: int, j: int|
        0 <= i < entries.len() && 0 <= j < entries.len() && i != j ==> entries[i].0@
            != entries[j].0@
}

/// A name as listed: directories get a trailing `/`.
pub open spec fn listed_name(entries: Seq<(String, bool)>, x: Seq<char>) -> Seq<char> {
    if is_dir_of(entries, x) {
        x + "/"@
    } else {
        x
    }
}

/// File completion, given the remembered key `last`, the line, the cursor
/// position, where the word starts, the file target and the entries of the
/// target's directory. Returns the completion and the key remembered next.
///
/// No match rings the bell and keeps the word. One match completes to it,
/// followed by `/` for a directory and a space otherwise. Several matches
/// complete to their longest common prefix when it differs from the typed
/// file name; otherwise the bell rings, and if the previous TAB was on the
/// same line at the same position the matches are listed (sorted, two
/// spaces apart, directories marked with `/`). When the word ends with `/`
/// the replacement includes its directory.
pub open spec fn file_completion(
    last: Option<(usize, Seq<char>)>,
    line: Seq<char>,
    pos: usize,
    word_start: usize,
    t: FileTargetView,
    entries: Seq<(String, bool)>,
) -> (CompletionView, Option<(usize, Seq<char>)>) {
    let start = (word_start + t.replace_start) as usize;
    let ns = sorted_of(matching_names(entries, t.filename_part));
    if ns.len() == 0 {
        (outcome(start, t.tail, t.tail, true, None), last)
    } else if ns.len() > 1 {
        let l = lcp_of(ns);
        if l != t.filename_part {
            let rep = if t.trailing_slash {
                t.dir + "/"@ + l
            } else {
                l
            };
            (outcome(start, l, rep, false, None), last)
        } else {
            let key = Some((pos, line));
            let listing = if last == key {
                Some(join(ns.map_values(|x: Seq<char>| listed_name(entries, x)), "  "@))
            } else {
                None
            };
            (outcome(start, t.tail, t.tail, true, listing), key)
        }
    } else {
        let name = ns[0];
        let suffix = if is_dir_of(entries, name) {
            "/"@
        } else {
            " "@
        };
        let rep = if t.trailing_slash {
            t.dir + "/"@ + name + suffix
        } else {
            name + suffix
        };
        (outcome(start, name, rep, false, None), last)
    }
}

fn dir_flag(entries: &Vec<(String, bool)>, name: &String) -> (b: bool)
    requires
        distinct_names(entries@),
    ensures
        b == is_dir_of(entries@, name@),
{
    let n = entries.len();
    let mut i: usize = 0;
    while i < n
        invariant
            n == entries@.len(),
            i <= n,
            distinct_names(entries@),
            forall|k: int| 0 <= k < i ==> entries@[k].0@ != name@,
        decreases n - i,
    {
        if str_eq(entries[i].0.as_str(), name.as_str()) {
            proof {
                assert(entries@[i as int].0@ == name@);
                if !entries@[i as int].1 && is_dir_of(entries@, name@) {
                    let k = choose|k: int|
                        0 <= k < entries@.len() && #[trigger] entries@[k].0@ == name@
                            && entries@[k].1;
                    assert(k != i);
                }
            }
            return entries[i].1;
        }
        i = i + 1;
    }
    false
}

impl ShellHelper {
    fn same_key(&self, line: &str, pos: usize) -> (b: bool)
        ensures
            b == (key_view(self.last_arg_complete) == Some((pos, line@))),
    {
        match &self.last_arg_complete {
            Some(k) => k.0 == pos && str_eq(k.1.as_str(), line),
            None => false,
        }
    }

    /// Completes a file name argument (see `file_completion`).
    pub fn complete_files(
        &mut self,
        line: &str,
        pos: usize,
        word_start: usize,
        target: &FileTarget,
        entries: &Vec<(String, bool)>,
    ) -> (c: Completion)
        requires
            word_start + target.replace_start <= usize::MAX,
            distinct_names(entries@),
        ensures
            (c@, key_view(final(self).last_arg_complete)) == file_completion(
                key_view(old(self).last_arg_complete),
                line@,
                pos,
                word_start,
                target@,
                entries@,
            ),
            final(self).builtins == old(self).builtins,
    {
        let ghost f = target.filename_part@;
        let mut found: Vec<String> = Vec::new();
        let n = entries.len();
        let mut i: usize = 0;
        proof {
            reveal_strlit(".");
            reveal_strlit("..");
        }
        while i < n
            invariant
                n == entries@.len(),
                f == target.filename_part@,
                i <= n,
                forall|x: Seq<char>|
                    strs_view(found@).contains(x) <==> exists|k: int|
                        0 <= k < i && #[trigger] entries@[k].0@ == x && name_matches(x, f),
            decreases n - i,
        {
            let ghost before = strs_view(found@);
            let name = &entries[i].0;
            let ok = !str_eq(name.as_str(), ".") && !str_eq(name.as_str(), "..") && starts_with(
                name.as_str(),
                target.filename_part.as_str(),
            );
            if ok {
                found.push(name.clone());
            }
            proof {
                let after = strs_view(found@);
                if ok {
                    assert(after =~= before.push(entries@[i as int].0@));
                } else {
                    assert(after =~= before);
                }
                assert forall|x: Seq<char>| after.contains(x) <==> exists|k: int|
                    0 <= k < i + 1 && #[trigger] entries@[k].0@ == x && name_matches(x, f) by {
                    if after.contains(x) {
                        let j = choose|j: int| 0 <= j < after.len() && after[j] == x;
                        if j < before.len() {
                            assert(before.contains(x));
                        } else {
                            assert(entries@[i as int].0@ == x);
                        }
                    }
                    if exists|k: int|
                        0 <= k < i + 1 && #[trigger] entries@[k].0@ == x && name_matches(x, f) {
                        let k = choose|k: int|
                            0 <= k < i + 1 && #[trigger] entries@[k].0@ == x && name_matches(x, f);
                        if k < i {
                            assert(before.contains(x));
                            let j = choose|j: int| 0 <= j < before.len() && before[j] == x;
                            assert(after[j] == x);
                        } else {
                            assert(after[after.len() - 1] == x);
                        }
                    }
                }
            }
            i = i + 1;
        }
        let ghost all = strs_view(found@);
        let sorted = sort_strings(found);
        let ns = dedup_sorted(sorted);
        proof {
            let u = strs_view(ns@);
            let set = matching_names(entries@, f);
            assert forall|x: Seq<char>| u.to_set().contains(x) == set.contains(x) by {
                vstd::seq_lib::to_multiset_contains(all, x);
                vstd::seq_lib::to_multiset_contains(strs_view(sorted@), x);
            }
            assert(u.to_set() =~= set);
            lemma_sorted_of(u);
        }
        let start = word_start + target.replace_start;
        let count = ns.len();
        if count == 0 {
            return make(start, target.tail.clone(), target.tail.clone(), true, None);
        }
        if count > 1 {
            let l = longest_common_prefix(ns.as_slice());
            if !str_eq(l.as_str(), target.filename_part.as_str()) {
                let rep = if target.trailing_slash {
                    let mut v: Vec<char> = Vec::new();
                    push_str(&mut v, target.dir.as_str());
                    push_str(&mut v, "/");
                    push_str(&mut v, l.as_str());
                    string_from_chars(&v)
                } else {
                    l.clone()
                };
                return make(start, l, rep, false, None);
            }
            let listed = self.same_key(line, pos);
            self.last_arg_complete = Some((pos, line.to_owned()));
            let listing = if listed {
                let mut items: Vec<String> = Vec::new();
                let mut k: usize = 0;
                let ghost nv = strs_view(ns@);
                while k < count
                    invariant
                        count == ns@.len(),
                        nv == strs_view(ns@),
                        distinct_names(entries@),
                        k <= count,
                        strs_view(items@) == nv.take(k as int).map_values(
                            |x: Seq<char>| listed_name(entries@, x),
                        ),
                    decreases count - k,
                {
                    let d = dir_flag(entries, &ns[k]);
                    let item = if d {
                        let mut v: Vec<char> = Vec::new();
                        push_str(&mut v, ns[k].as_str());
                        push_str(&mut v, "/");
                        string_from_chars(&v)
                    } else {
                        ns[k].clone()
                    };
                    proof {
                        assert(nv[k as int] == ns@[k as int]@);
                        assert(item@ == listed_name(entries@, nv[k as int]));
                        assert(strs_view(items@.push(item)) =~= strs_view(items@).push(item@));
                        assert(nv.take(k + 1) =~= nv.take(k as int).push(nv[k as int]));
                        assert(nv.take(k + 1).map_values(|x: Seq<char>| listed_name(entries@, x))
                            =~= nv.take(k as int).map_values(
                            |x: Seq<char>| listed_name(entries@, x),
                        ).push(listed_name(entries@, nv[k as int])));
                    }
                    items.push(item);
                    k = k + 1;
                }
                assert(nv.take(count as int) =~= nv);
                Some(join_strings(items.as_slice(), "  "))
            } else {
                None
            };
            return make(start, target.tail.clone(), target.tail.clone(), true, listing);
        }
        let name = ns[0].clone();
        let d = dir_flag(entries, &name);
        let mut v: Vec<char> = Vec::new();
        if target.trailing_slash {
            push_str(&mut v, target.dir.as_str());
            push_str(&mut v, "/");
        }
        push_str(&mut v, name.as_str());
        if d {
            push_str(&mut v, "/");
        } else {
            push_str(&mut v, " ");
        }
        let rep = string_from_chars(&v);
        make(start, name, rep, false, None)
    }
}

} // verus!

verus! {

/// The command a completion script is run for (the first word before the
/// one being completed, or empty), and the word just before the one being
/// completed. The command name itself does not count as that word: when the
/// word being completed is the first argument, the second result is empty.
pub fn script_arguments(head: &str) -> (r: (String, String))
    ensures
        r.0@ == (if spec_words(head@).len() > 0 {
            spec_words(head@)[0]
        } else {
            Seq::empty()
        }),
        r.1@ == (if spec_words(head@).len() >= 2 {
            spec_words(head@).last()
        } else {
            Seq::empty()
        }),
{
    let words = split_whitespace(head);
    let n = words.len();
    if n == 0 {
        (String::new(), String::new())
    } else if n == 1 {
        (words[0].clone(), String::new())
    } else {
        (words[0].clone(), words[n - 1].clone())
    }
}

/// The candidates a completion script printed: its output lines, trimmed,
/// empty ones left out.
pub fn script_candidates(output: &str) -> (r: Vec<String>)
    ensures
        strs_view(r@) == trimmed_non_empty(spec_lines(output@)),
{
    trimmed_lines(output)
}

/// Completion from the candidates a completion script printed. One
/// candidate completes to it with a trailing space. Several complete to
/// their longest common prefix when that is longer (in bytes) than the word;
/// otherwise the bell rings, and if the previous TAB was on the same line
/// at the same position they are listed, sorted, two spaces apart. No
/// candidate rings the bell and keeps the word.
pub open spec fn script_completion(
    last: Option<(usize, Seq<char>)>,
    line: Seq<char>,
    pos: usize,
    word_start: usize,
    partial: Seq<char>,
    cands: Seq<String>,
) -> (CompletionView, Option<(usize, Seq<char>)>) {
    let cs = strs_view(cands);
    if cs.len() == 1 {
        (outcome(word_start, cs[0], cs[0] + " "@, false, None), last)
    } else if cs.len() > 1 {
        let l = lcp_of(cs);
        if encode_utf8(l).len() > encode_utf8(partial).len() {
            (outcome(word_start, l, l, false, None), last)
        } else {
            let key = Some((pos, line));
            let listing = if last == key {
                Some(join(sorted_perm(cs), "  "@))
            } else {
                None
            };
            (outcome(word_start, partial, partial, true, listing), key)
        }
    } else {
        (outcome(word_start, partial, partial, true, None), last)
    }
}

impl ShellHelper {
    /// Completes an argument from the candidates a completion script printed
    /// (see `script_completion`).
    pub fn complete_from_script(
        &mut self,
        line: &str,
        pos: usize,
        word_start: usize,
        partial: &str,
        candidates: Vec<String>,
    ) -> (c: Completion)
        ensures
            (c@, key_view(final(self).last_arg_complete)) == script_completion(
                key_view(old(self).last_arg_complete),
                line@,
                pos,
                word_start,
                partial@,
                candidates@,
            ),
            final(self).builtins == old(self).builtins,
    {
        let n = candidates.len();
        if n == 1 {
            let cand = candidates[0].clone();
            let mut rep: Vec<char> = Vec::new();
            push_str(&mut rep, cand.as_str());
            push_str(&mut rep, " ");
            return make(word_start, cand, string_from_chars(&rep), false, None);
        }
        if n == 0 {
            return make(word_start, partial.to_owned(), partial.to_owned(), true, None);
        }
        let lcp = common_prefix(candidates.as_slice());
        if lcp.as_str().as_bytes().len() > partial.as_bytes().len() {
            let l2 = lcp.clone();
            return make(word_start, lcp, l2, false, None);
        }
        let ghost cs = strs_view(candidates@);
        let sorted = sort_strings(candidates);
        proof {
            lemma_sorted_perm(cs, strs_view(sorted@));
        }
        let listed = self.same_key(line, pos);
        self.last_arg_complete = Some((pos, line.to_owned()));
        let listing = if listed {
            Some(join_strings(sorted.as_slice(), "  "))
        } else {
            None
        };
        make(word_start, partial.to_owned(), partial.to_owned(), true, listing)
    }
}

} // verus!

verus! {

/// Law: when several files match and TAB cannot extend the word, TAB rings
/// the bell; a TAB right after it on the same line at the same position
/// rings the bell again and lists the matches. A TAB after a different
/// completion does not list them.
pub proof fn lemma_file_second_tab_lists(
    last: Option<(usize, Seq<char>)>,
    line: Seq<char>,
    pos: usize,
    word_start: usize,
    t: FileTargetView,
    entries: Seq<(String, bool)>,
)
    requires
        sorted_of(matching_names(entries, t.filename_part)).len() > 1,
        lcp_of(sorted_of(matching_names(entries, t.filename_part))) == t.filename_part,
    ensures
        file_completion(last, line, pos, word_start, t, entries).0.bell,
        last != Some((pos, line)) ==> file_completion(
            last,
            line,
            pos,
            word_start,
            t,
            entries,
        ).0.listing is None,
        file_completion(
            file_completion(last, line, pos, word_start, t, entries).1,
            line,
            pos,
            word_start,
            t,
            entries,
        ).0.listing == Some(
            join(
                sorted_of(matching_names(entries, t.filename_part)).map_values(
                    |x: Seq<char>| listed_name(entries, x),
                ),
                "  "@,
            ),
        ),
{
}

/// Law: when a completion script prints several candidates that do not
/// extend the word, TAB rings the bell; a TAB right after it on the same
/// line at the same position lists them, sorted.
pub proof fn lemma_script_second_tab_lists(
    last: Option<(usize, Seq<char>)>,
    line: Seq<char>,
    pos: usize,
    word_start: usize,
    partial: Seq<char>,
    cands: Seq<String>,
)
    requires
        cands.len() > 1,
        encode_utf8(lcp_of(strs_view(cands))).len() <= encode_utf8(partial).len(),
    ensures
        script_completion(last, line, pos, word_start, partial, cands).0.bell,
        script_completion(
            script_completion(last, line, pos, word_start, partial, cands).1,
            line,
            pos,
            word_start,
            partial,
            cands,
        ).0.listing == Some(join(sorted_perm(strs_view(cands)), "  "@)),
{
}

} // verus!

verus! {

/// The names matching `f` are finitely many, and listed in order by
/// `sorted_of`, each starting with `f`.
proof fn lemma_matching_listed(entries: Seq<(String, bool)>, f: Seq<char>)
    ensures
        sorted_of(matching_names(entries, f)).to_set() == matching_names(entries, f),
        forall|k: int|
            0 <= k < sorted_of(matching_names(entries, f)).len() ==> is_prefix(
                f,
                #[trigger] sorted_of(matching_names(entries, f))[k],
            ),
{
    let m = matching_names(entries, f);
    let all = entries.map_values(|e: (String, bool)| e.0@).to_set();
    assert(m.subset_of(all)) by {
        assert forall|x: Seq<char>| m.contains(x) implies all.contains(x) by {
            let i = choose|i: int|
                0 <= i < entries.len() && #[trigger] entries[i].0@ == x && name_matches(x, f);
            assert(entries.map_values(|e: (String, bool)| e.0@)[i] == x);
        }
    }
    vstd::seq_lib::seq_to_set_is_finite(entries.map_values(|e: (String, bool)| e.0@));
    vstd::set_lib::lemma_set_subset_finite(all, m);
    lemma_sorted_of_finite(m);
    let ns = sorted_of(m);
    assert forall|k: int| 0 <= k < ns.len() implies is_prefix(f, #[trigger] ns[k]) by {
        assert(ns.to_set().contains(ns[k]));
    }
}

/// Law: TAB on a file-name argument never drops what was typed. The text
/// it replaces is the end of the word (the whole word when it ends with
/// `/`, else the part after its last `/`), and its one candidate's
/// replacement starts with that text. When the bell does not ring the
/// replacement is longer than it; when it rings, the text is kept as is.
pub proof fn lemma_file_completion_keeps_word(
    last: Option<(usize, Seq<char>)>,
    line: Seq<char>,
    pos: usize,
    word_start: usize,
    partial: Seq<char>,
    entries: Seq<(String, bool)>,
)
    ensures
        ({
            let t = spec_file_target(partial);
            let c = file_completion(last, line, pos, word_start, t, entries).0;
            &&& c.candidates.len() == 1
            &&& partial == partial.take(partial.len() - t.tail.len()) + t.tail
            &&& is_prefix(t.tail, c.candidates[0].replacement)
            &&& c.bell ==> c.candidates[0].replacement == t.tail
            &&& !c.bell ==> c.candidates[0].replacement.len() > t.tail.len()
        }),
{
    reveal_strlit("/");
    reveal_strlit(" ");
    let t = spec_file_target(partial);
    let f = t.filename_part;
    let c = file_completion(last, line, pos, word_start, t, entries).0;
    let ns = sorted_of(matching_names(entries, f));
    lemma_matching_listed(entries, f);
    if t.trailing_slash {
        assert(partial.drop_last() + "/"@ =~= partial);
        assert(f.len() == 0);
        assert(partial.take(0) + partial =~= partial);
    } else if last_index_of(partial, '/') >= 0 {
        let j = last_index_of(partial, '/');
        lemma_last_index_of(partial, '/');
        assert(partial.take(j + 1) + partial.skip(j + 1) =~= partial);
        assert(partial.take(partial.len() - t.tail.len()) =~= partial.take(j + 1));
    } else {
        assert(partial.take(0) + partial =~= partial);
    }
    assert(t.trailing_slash || t.tail == f);
    assert(t.trailing_slash ==> t.tail == t.dir + "/"@);
    if ns.len() > 1 {
        let l = lcp_of(ns);
        lemma_lcp_is_longest(ns);
        assert(prefix_of_all(ns, f)) by {
            assert forall|k: int| 0 <= k < ns.len() implies f.len() <= (#[trigger] ns[k]).len()
                && ns[k].take(f.len() as int) == f by {
                assert(is_prefix(f, ns[k]));
            }
        }
        assert(f.len() <= l.len());
        assert(is_prefix(f, ns[0]));
        assert(l.len() <= ns[0].len() && ns[0].take(l.len() as int) == l);
        assert(l.take(f.len() as int) =~= f) by {
            assert(l.take(f.len() as int) =~= ns[0].take(l.len() as int).take(f.len() as int));
            assert(ns[0].take(l.len() as int).take(f.len() as int) =~= ns[0].take(f.len() as int));
        }
        if l != f {
            assert(l.len() > f.len()) by {
                if l.len() == f.len() {
                    assert(l =~= l.take(f.len() as int));
                }
            }
            if t.trailing_slash {
                assert((t.dir + "/"@ + l).take(t.tail.len() as int) =~= t.tail);
            }
        }
    } else if ns.len() == 1 {
        let name = ns[0];
        assert(is_prefix(f, name));
        if t.trailing_slash {
            let suffix = if is_dir_of(entries, name) {
                "/"@
            } else {
                " "@
            };
            assert((t.dir + "/"@ + name + suffix).take(t.tail.len() as int) =~= t.tail);
        } else {
            let suffix = if is_dir_of(entries, name) {
                "/"@
            } else {
                " "@
            };
            assert((name + suffix).take(f.len() as int) =~= name.take(f.len() as int));
        }
    }
    assert(is_prefix(t.tail, t.tail)) by {
        assert(t.tail.take(t.tail.len() as int) =~= t.tail);
    }
}

} // verus!

