//! Programmable completions registered with the `complete` builtin, and the
//! longest common prefix of completion candidates.

use vstd::prelude::*;

use crate::strmap::StrMap;
use crate::text::{push_str, str_chars, str_eq, string_from_chars, strs_view, take_prefix};

verus! {

/// The programmable completions of a fresh shell: none. The registry maps a
/// command name to the path of its completer script.
pub fn completions() -> (r: StrMap)
    ensures
        r@ == Map::<Seq<char>, Seq<char>>::empty(),
{
    StrMap::new()
}

/// What the `complete` builtin is doing with the names that follow an option.
pub enum CompleteMode {
    /// Between options.
    Top,
    /// After `-C <script>`: registering that script for each name.
    Register(Seq<char>),
    /// After `-p`: printing the specification of each name.
    Print,
    /// After `-r`: removing the specification of each name.
    Remove,
}

/// The line `complete -p` prints for `name`.
pub open spec fn spec_line(map: Map<Seq<char>, Seq<char>>, name: Seq<char>) -> Seq<char> {
    if map.contains_key(name) {
        "complete -C '"@ + map[name] + "' "@ + name
    } else {
        "complete: "@ + name + ": no completion specification"@
    }
}

/// The registry and printed lines after the `complete` builtin handles
/// `args[i..]` in mode `mode`, starting from `map` and `out`.
///
/// `-C <script>` registers the script for every following name, `-p` prints
/// the specification of every following name, `-r` removes it; a run of
/// names ends at the next argument starting with `-`, which is consumed
/// with it. Other arguments are ignored.
pub open spec fn complete_from(
    args: Seq<Seq<char>>,
    i: int,
    mode: CompleteMode,
    map: Map<Seq<char>, Seq<char>>,
    out: Seq<Seq<char>>,
) -> (Map<Seq<char>, Seq<char>>, Seq<Seq<char>>)
    decreases args.len() - i,
{
    if i < 0 || i >= args.len() {
        (map, out)
    } else {
        let a = args[i];
        match mode {
            CompleteMode::Top => {
                if a == "-C"@ {
                    if i + 1 < args.len() {
                        complete_from(args, i + 2, CompleteMode::Register(args[i + 1]), map, out)
                    } else {
                        (map, out)
                    }
                } else if a == "-p"@ {
                    complete_from(args, i + 1, CompleteMode::Print, map, out)
                } else if a == "-r"@ {
                    complete_from(args, i + 1, CompleteMode::Remove, map, out)
                } else {
                    complete_from(args, i + 1, CompleteMode::Top, map, out)
                }
            },
            CompleteMode::Register(script) => {
                if a.len() > 0 && a[0] == '-' {
                    complete_from(args, i + 1, CompleteMode::Top, map, out)
                } else {
                    complete_from(args, i + 1, mode, map.insert(a, script), out)
                }
            },
            CompleteMode::Print => {
                if a.len() > 0 && a[0] == '-' {
                    complete_from(args, i + 1, CompleteMode::Top, map, out)
                } else {
                    complete_from(args, i + 1, mode, map, out.push(spec_line(map, a)))
                }
            },
            CompleteMode::Remove => {
                if a.len() > 0 && a[0] == '-' {
                    complete_from(args, i + 1, CompleteMode::Top, map, out)
                } else {
                    complete_from(args, i + 1, mode, map.remove(a), out)
                }
            },
        }
    }
}

/// What the `complete` builtin does with arguments `args`.
pub open spec fn spec_complete(args: Seq<Seq<char>>, map: Map<Seq<char>, Seq<char>>) -> (
    Map<Seq<char>, Seq<char>>,
    Seq<Seq<char>>,
) {
    complete_from(args, 0, CompleteMode::Top, map, Seq::empty())
}

fn starts_with_dash(a: &String) -> (b: bool)
    ensures
        b == (a@.len() > 0 && a@[0] == '-'),
{
    let c = str_chars(a.as_str());
    c.len() > 0 && c[0] == '-'
}

fn print_line(registry: &StrMap, name: &String) -> (line: String)
    ensures
        line@ == spec_line(registry@, name@),
{
    let mut v: Vec<char> = Vec::new();
    match registry.get(name.as_str()) {
        Some(script) => {
            push_str(&mut v, "complete -C '");
            push_str(&mut v, script.as_str());
            push_str(&mut v, "' ");
            push_str(&mut v, name.as_str());
        },
        None => {
            push_str(&mut v, "complete: ");
            push_str(&mut v, name.as_str());
            push_str(&mut v, ": no completion specification");
        },
    }
    string_from_chars(&v)
}

/// The `complete` builtin: registers (`-C <script> <name>...`), prints
/// (`-p <name>...`) or removes (`-r <name>...`) completion specifications.
/// Returns the lines to print.
pub fn run_complete(registry: &mut StrMap, rest: &[String]) -> (out: Vec<String>)
    ensures
        (final(registry)@, strs_view(out@)) == spec_complete(strs_view(rest@), old(registry)@),
{
    let ghost args = strs_view(rest@);
    let n = rest.len();
    let mut out: Vec<String> = Vec::new();
    // 0: between options, 1: registering `script`, 2: printing, 3: removing.
    let mut mode: u8 = 0;
    let mut script = String::new();
    let mut i: usize = 0;
    assert(strs_view(out@) =~= Seq::<Seq<char>>::empty());
    while i < n
        invariant
            n == rest@.len(),
            args == strs_view(rest@),
            i <= n,
            mode <= 3,
            complete_from(
                args,
                i as int,
                if mode == 0 {
                    CompleteMode::Top
                } else if mode == 1 {
                    CompleteMode::Register(script@)
                } else if mode == 2 {
                    CompleteMode::Print
                } else {
                    CompleteMode::Remove
                },
                registry@,
                strs_view(out@),
            ) == spec_complete(args, old(registry)@),
        decreases n - i,
    {
        let a = &rest[i];
        assert(args[i as int] == a@);
        if mode == 0 {
            proof {
                reveal_strlit("-C");
                reveal_strlit("-p");
                reveal_strlit("-r");
            }
            if str_eq(a.as_str(), "-C") {
                if i + 1 < n {
                    script = rest[i + 1].clone();
                    mode = 1;
                    i = i + 2;
                } else {
                    i = n;
                }
            } else if str_eq(a.as_str(), "-p") {
                mode = 2;
                i = i + 1;
            } else if str_eq(a.as_str(), "-r") {
                mode = 3;
                i = i + 1;
            } else {
                i = i + 1;
            }
        } else if starts_with_dash(a) {
            mode = 0;
            i = i + 1;
        } else if mode == 1 {
            registry.insert(a.clone(), script.clone());
            i = i + 1;
        } else if mode == 2 {
            let line = print_line(registry, a);
            proof {
                assert(strs_view(out@.push(line)) =~= strs_view(out@).push(line@));
            }
            out.push(line);
            i = i + 1;
        } else {
            registry.remove(a.as_str());
            i = i + 1;
        }
    }
    out
}

} // verus!

verus! {

/// Every word is at least `n` long and begins with the first `n` elements
/// of the first word.
pub open spec fn common_prefix_of<A>(words: Seq<Seq<A>>, n: int) -> bool {
    &&& words.len() > 0
    &&& 0 <= n <= words[0].len()
    &&& forall|k: int|
        0 <= k < words.len() ==> n <= (#[trigger] words[k]).len() && words[k].take(n)
            == words[0].take(n)
}

/// `n` is the length of the longest common prefix of the words.
pub open spec fn longest_common_prefix_len<A>(words: Seq<Seq<A>>, n: int) -> bool {
    &&& common_prefix_of(words, n)
    &&& !common_prefix_of(words, n + 1)
}

/// Longest common prefix of a set of candidate words, compared character
/// by character; empty when there are no words.
pub fn common_prefix(words: &[String]) -> (r: String)
    ensures
        words@.len() == 0 ==> r@ == Seq::<char>::empty(),
        words@.len() > 0 ==> r@ == lcp_of(strs_view(words@)),
{
    if words.len() == 0 {
        return String::new();
    }
    let ghost ws = strs_view(words@);
    let first = str_chars(words[0].as_str());
    assert(first@ == ws[0]);
    let mut end = first.len();
    let count = words.len();
    let mut k: usize = 1;
    proof {
        lemma_common_prefix_one(ws);
    }
    while k < count
        invariant
            count == words@.len(),
            ws == strs_view(words@),
            first@ == ws[0],
            1 <= k <= count,
            end <= first@.len(),
            forall|e: int|
                0 <= e <= first@.len() ==> (common_prefix_of(ws.take(k as int), e) <==> e <= end),
        ensures
            1 <= k <= count,
            end <= first@.len(),
            forall|e: int|
                0 <= e <= first@.len() ==> (common_prefix_of(ws.take(k as int), e) <==> e <= end),
            k < count ==> end == 0,
        decreases count - k,
    {
        let w = str_chars(words[k].as_str());
        assert(w@ == ws[k as int]);
        let max = if end < w.len() {
            end
        } else {
            w.len()
        };
        let mut i: usize = 0;
        while i < max && first[i] == w[i]
            invariant
                max <= end,
                max <= w@.len(),
                end <= first@.len(),
                i <= max,
                forall|j: int| 0 <= j < i ==> first@[j] == w@[j],
            decreases max - i,
        {
            i = i + 1;
        }
        proof {
            lemma_common_prefix_step(ws, k as int, end as int, i as int);
        }
        end = i;
        k = k + 1;
        if end == 0 {
            break;
        }
    }
    proof {
        lemma_common_prefix_found(ws, k as int, end as int);
    }
    let r = take_prefix(&first, end);
    string_from_chars(&r)
}

/// With the first word alone, every length up to its own is a common prefix.
proof fn lemma_common_prefix_one<A>(ws: Seq<Seq<A>>)
    requires
        ws.len() > 0,
    ensures
        forall|e: int|
            0 <= e <= ws[0].len() ==> (common_prefix_of(ws.take(1), e) <==> e <= ws[0].len()),
{
    assert forall|e: int| 0 <= e <= ws[0].len() implies common_prefix_of(ws.take(1), e) by {
        assert forall|m: int| 0 <= m < ws.take(1).len() implies e <= (
        #[trigger] ws.take(1)[m]).len() && ws.take(1)[m].take(e) == ws.take(1)[0].take(e) by {
            assert(m == 0);
        }
    }
}

/// Taking in word `k`: when the common prefixes of the first `k` words are
/// the lengths up to `end`, and word `k` agrees with the first word on its
/// first `i` elements and differs at element `i` (unless one of the two, or
/// `end`, stops there), the common prefixes of the first `k + 1` words are
/// the lengths up to `i`.
proof fn lemma_common_prefix_step<A>(ws: Seq<Seq<A>>, k: int, end: int, i: int)
    requires
        1 <= k < ws.len(),
        0 <= i <= end <= ws[0].len(),
        i <= ws[k].len(),
        forall|e: int| 0 <= e <= ws[0].len() ==> (common_prefix_of(ws.take(k), e) <==> e <= end),
        forall|j: int| 0 <= j < i ==> ws[0][j] == ws[k][j],
        i < end && i < ws[k].len() ==> ws[0][i] != ws[k][i],
    ensures
        forall|e: int|
            0 <= e <= ws[0].len() ==> (#[trigger] common_prefix_of(ws.take(k + 1), e) <==> e <= i),
{
    let first = ws[0];
    let w = ws[k];
    let t0 = ws.take(k);
    let t1 = ws.take(k + 1);
    assert(t0[0] == first && t1[0] == first);
    assert forall|e: int| 0 <= e <= first.len() implies (common_prefix_of(t1, e) <==> e <= i) by {
        if common_prefix_of(t1, e) {
            assert forall|m: int| 0 <= m < t0.len() implies e <= (#[trigger] t0[m]).len()
                && t0[m].take(e) == t0[0].take(e) by {
                assert(t0[m] == t1[m]);
            }
            assert(common_prefix_of(t0, e));
            assert(e <= end);
            assert(t1[k] == w);
            assert(e <= w.len());
            if e > i {
                assert(first[i] != w[i]);
                assert(w.take(e)[i] == first.take(e)[i]);
            }
        }
        if e <= i {
            assert(common_prefix_of(t0, e));
            assert forall|m: int| 0 <= m < t1.len() implies e <= (#[trigger] t1[m]).len()
                && t1[m].take(e) == t1[0].take(e) by {
                if m < k {
                    assert(t0[m] == t1[m]);
                } else {
                    assert(t1[m] == w);
                    assert(w.take(e) =~= first.take(e));
                }
            }
        }
    }
}

/// When the common prefixes of the first `k` words are the lengths up to
/// `end`, and either all the words are taken in or `end` is 0, the first
/// `end` elements of the first word are the longest common prefix.
proof fn lemma_common_prefix_found<A>(ws: Seq<Seq<A>>, k: int, end: int)
    requires
        1 <= k <= ws.len(),
        0 <= end <= ws[0].len(),
        forall|e: int| 0 <= e <= ws[0].len() ==> (common_prefix_of(ws.take(k), e) <==> e <= end),
        k < ws.len() ==> end == 0,
    ensures
        ws[0].take(end) == lcp_of(ws),
{
    let t = ws.take(k);
    if k == ws.len() {
        assert(t =~= ws);
    }
    assert(common_prefix_of(t, end));
    assert forall|m: int| 0 <= m < ws.len() implies end <= (#[trigger] ws[m]).len()
        && ws[m].take(end) == ws[0].take(end) by {
        if m < k {
            assert(t[m] == ws[m]);
        } else {
            assert(ws[m].take(0) =~= ws[0].take(0));
        }
    }
    assert(common_prefix_of(ws, end));
    if common_prefix_of(ws, end + 1) {
        assert forall|m: int| 0 <= m < t.len() implies end + 1 <= (#[trigger] t[m]).len()
            && t[m].take(end + 1) == t[0].take(end + 1) by {
            assert(t[m] == ws[m]);
        }
        assert(common_prefix_of(t, end + 1));
    }
    assert(longest_common_prefix_len(ws, end));
    let c = choose|n: int| longest_common_prefix_len(ws, n);
    lemma_longest_unique(ws, c, end);
}

} // verus!

verus! {

/// A common prefix of all the words is also one when shortened.
pub proof fn lemma_common_prefix_shorter<A>(words: Seq<Seq<A>>, n: int, e: int)
    requires
        common_prefix_of(words, n),
        0 <= e <= n,
    ensures
        common_prefix_of(words, e),
{
    assert forall|k: int| 0 <= k < words.len() implies e <= (#[trigger] words[k]).len()
        && words[k].take(e) == words[0].take(e) by {
        assert(words[k].take(n).take(e) =~= words[k].take(e));
        assert(words[0].take(n).take(e) =~= words[0].take(e));
    }
}

/// The length of the longest common prefix is unique.
pub proof fn lemma_longest_unique<A>(words: Seq<Seq<A>>, n: int, m: int)
    requires
        longest_common_prefix_len(words, n),
        longest_common_prefix_len(words, m),
    ensures
        n == m,
{
    if n < m {
        lemma_common_prefix_shorter(words, m, n + 1);
    } else if m < n {
        lemma_common_prefix_shorter(words, n, m + 1);
    }
}

/// The longest common prefix of the words (which must not be none).
pub open spec fn lcp_of<A>(words: Seq<Seq<A>>) -> Seq<A> {
    words[0].take(choose|n: int| longest_common_prefix_len(words, n))
}


/// Some length below `m + 1` is the longest common prefix length, when
/// `m + 1` is not a common prefix length and `m` is at most the first
/// word's length.
proof fn lemma_longest_below<A>(words: Seq<Seq<A>>, m: int)
    requires
        words.len() > 0,
        0 <= m <= words[0].len(),
        !common_prefix_of(words, m + 1),
    ensures
        exists|n: int| longest_common_prefix_len(words, n),
    decreases m,
{
    if common_prefix_of(words, m) {
        assert(longest_common_prefix_len(words, m));
    } else {
        if m == 0 {
            assert forall|k: int| 0 <= k < words.len() implies 0 <= (#[trigger] words[k]).len()
                && words[k].take(0) == words[0].take(0) by {
                assert(words[k].take(0) =~= words[0].take(0));
            }
        }
        lemma_longest_below(words, m - 1);
    }
}

/// Words that are not none have a longest common prefix.
pub proof fn lemma_longest_exists<A>(words: Seq<Seq<A>>)
    requires
        words.len() > 0,
    ensures
        exists|n: int| longest_common_prefix_len(words, n),
        longest_common_prefix_len(words, lcp_of(words).len() as int),
        lcp_of(words) == words[0].take(lcp_of(words).len() as int),
{
    lemma_longest_below(words, words[0].len() as int);
    let n = choose|n: int| longest_common_prefix_len(words, n);
    assert(lcp_of(words) == words[0].take(n));
}

/// `p` is a prefix of every word.
pub open spec fn prefix_of_all<A>(words: Seq<Seq<A>>, p: Seq<A>) -> bool {
    forall|k: int|
        0 <= k < words.len() ==> p.len() <= (#[trigger] words[k]).len() && words[k].take(
            p.len() as int,
        ) == p
}

/// Law: the longest common prefix of some words (not none) is a prefix of
/// every one of them, and every sequence that is a prefix of all of them is
/// no longer than it.
pub proof fn lemma_lcp_is_longest<A>(words: Seq<Seq<A>>)
    requires
        words.len() > 0,
    ensures
        prefix_of_all(words, lcp_of(words)),
        forall|p: Seq<A>| #[trigger] prefix_of_all(words, p) ==> p.len() <= lcp_of(words).len(),
{
    lemma_longest_exists(words);
    let n = lcp_of(words).len() as int;
    assert forall|p: Seq<A>| #[trigger] prefix_of_all(words, p) implies p.len() <= n by {
        assert(p.len() <= words[0].len() && words[0].take(p.len() as int) == p);
        assert(common_prefix_of(words, p.len() as int));
        if p.len() > n {
            lemma_common_prefix_shorter(words, p.len() as int, n + 1);
        }
    }
}

/// Every word of `w2` being one of `w1`, a common prefix length of `w1` is
/// one of `w2`.
proof fn lemma_common_prefix_subset<A>(w1: Seq<Seq<A>>, w2: Seq<Seq<A>>, n: int)
    requires
        w2.len() > 0,
        forall|x: Seq<A>| w2.contains(x) ==> w1.contains(x),
        common_prefix_of(w1, n),
    ensures
        common_prefix_of(w2, n),
{
    assert(w2.contains(w2[0]));
    let j0 = choose|j: int| 0 <= j < w1.len() && w1[j] == w2[0];
    assert(n <= w1[j0].len() && w1[j0].take(n) == w1[0].take(n));
    assert forall|k: int| 0 <= k < w2.len() implies n <= (#[trigger] w2[k]).len() && w2[k].take(n)
        == w2[0].take(n) by {
        assert(w2.contains(w2[k]));
        let j = choose|j: int| 0 <= j < w1.len() && w1[j] == w2[k];
        assert(n <= w1[j].len() && w1[j].take(n) == w1[0].take(n));
    }
}

/// Law: the longest common prefix does not depend on the order of the words,
/// nor on how often each occurs: two lists (not none) with the same elements
/// have the same longest common prefix.
pub proof fn lemma_lcp_order_independent<A>(w1: Seq<Seq<A>>, w2: Seq<Seq<A>>)
    requires
        w1.len() > 0,
        w2.len() > 0,
        forall|x: Seq<A>| w1.contains(x) <==> w2.contains(x),
    ensures
        lcp_of(w1) == lcp_of(w2),
{
    lemma_longest_exists(w1);
    lemma_longest_exists(w2);
    let n = lcp_of(w1).len() as int;
    let m = lcp_of(w2).len() as int;
    lemma_common_prefix_subset(w1, w2, n);
    lemma_common_prefix_subset(w2, w1, m);
    if common_prefix_of(w2, n + 1) {
        lemma_common_prefix_subset(w2, w1, n + 1);
    }
    lemma_longest_unique(w2, n, m);
    assert(w1.contains(w2[0]));
    let j = choose|j: int| 0 <= j < w1.len() && w1[j] == w2[0];
    assert(w1[j].take(n) == w1[0].take(n));
}

/// Law: adding the longest common prefix of some words (not none) to them
/// leaves their longest common prefix unchanged.
pub proof fn lemma_lcp_push_lcp<A>(words: Seq<Seq<A>>)
    requires
        words.len() > 0,
    ensures
        lcp_of(words.push(lcp_of(words))) == lcp_of(words),
{
    lemma_longest_exists(words);
    let r = lcp_of(words);
    let n = r.len() as int;
    let w2 = words.push(r);
    assert(w2[0] == words[0]);
    assert forall|k: int| 0 <= k < w2.len() implies n <= (#[trigger] w2[k]).len() && w2[k].take(n)
        == w2[0].take(n) by {
        if k < words.len() {
            assert(w2[k] == words[k]);
        } else {
            assert(w2[k] == r);
            assert(r.take(n) =~= r);
        }
    }
    assert(common_prefix_of(w2, n));
    assert(w2[words.len() as int] == r);
    assert(!common_prefix_of(w2, n + 1));
    lemma_longest_exists(w2);
    lemma_longest_unique(w2, n, lcp_of(w2).len() as int);
}

} // verus!

verus! {

/// Law: after `complete -C <script> <name>`, `complete -p <name>` prints
/// `complete -C '<script>' <name>` (for a name not starting with `-`).
pub proof fn lemma_register_then_print(
    map: Map<Seq<char>, Seq<char>>,
    script: Seq<char>,
    name: Seq<char>,
)
    requires
        name.len() > 0,
        name[0] != '-',
    ensures
        spec_complete(seq!["-p"@, name], spec_complete(seq!["-C"@, script, name], map).0).1
            == seq!["complete -C '"@ + script + "' "@ + name],
{
    reveal_strlit("-C");
    reveal_strlit("-p");
    reveal_strlit("-r");
    let a1 = seq!["-C"@, script, name];
    assert(a1[0] == "-C"@);
    assert(complete_from(a1, 3, CompleteMode::Register(script), map.insert(name, script), Seq::empty())
        == (map.insert(name, script), Seq::<Seq<char>>::empty()));
    assert(complete_from(a1, 2, CompleteMode::Register(script), map, Seq::empty()) == complete_from(
        a1,
        3,
        CompleteMode::Register(script),
        map.insert(name, script),
        Seq::empty(),
    ));
    let m2 = map.insert(name, script);
    let a2 = seq!["-p"@, name];
    assert(a2[0] == "-p"@);
    assert("-p"@[1] != "-C"@[1]);
    assert(a2[0] != "-C"@);
    assert(complete_from(a2, 2, CompleteMode::Print, m2, seq![spec_line(m2, name)]) == (
        m2,
        seq![spec_line(m2, name)],
    ));
    assert(Seq::<Seq<char>>::empty().push(spec_line(m2, name)) =~= seq![spec_line(m2, name)]);
    assert(complete_from(a2, 1, CompleteMode::Print, m2, Seq::empty()) == complete_from(
        a2,
        2,
        CompleteMode::Print,
        m2,
        seq![spec_line(m2, name)],
    ));
}

/// Law: after `complete -r <name>`, `complete -p <name>` reports that there
/// is no completion specification (for a name not starting with `-`).
pub proof fn lemma_remove_then_print(map: Map<Seq<char>, Seq<char>>, name: Seq<char>)
    requires
        name.len() > 0,
        name[0] != '-',
    ensures
        spec_complete(seq!["-p"@, name], spec_complete(seq!["-r"@, name], map).0).1 == seq![
            "complete: "@ + name + ": no completion specification"@,
        ],
{
    reveal_strlit("-C");
    reveal_strlit("-p");
    reveal_strlit("-r");
    let a1 = seq!["-r"@, name];
    assert(a1[0] == "-r"@);
    assert("-r"@[1] != "-C"@[1] && "-r"@[1] != "-p"@[1]);
    assert(a1[0] != "-C"@ && a1[0] != "-p"@);
    assert(complete_from(a1, 2, CompleteMode::Remove, map.remove(name), Seq::empty()) == (
        map.remove(name),
        Seq::<Seq<char>>::empty(),
    ));
    assert(complete_from(a1, 1, CompleteMode::Remove, map, Seq::empty()) == complete_from(
        a1,
        2,
        CompleteMode::Remove,
        map.remove(name),
        Seq::empty(),
    ));
    let m2 = map.remove(name);
    let a2 = seq!["-p"@, name];
    assert(a2[0] == "-p"@);
    assert("-p"@[1] != "-C"@[1]);
    assert(a2[0] != "-C"@);
    assert(complete_from(a2, 2, CompleteMode::Print, m2, seq![spec_line(m2, name)]) == (
        m2,
        seq![spec_line(m2, name)],
    ));
    assert(Seq::<Seq<char>>::empty().push(spec_line(m2, name)) =~= seq![spec_line(m2, name)]);
    assert(complete_from(a2, 1, CompleteMode::Print, m2, Seq::empty()) == complete_from(
        a2,
        2,
        CompleteMode::Print,
        m2,
        seq![spec_line(m2, name)],
    ));
}

} // verus!

verus! {

/// The arguments from position `i` on are names not starting with `-`.
pub open spec fn names_from(args: Seq<Seq<char>>, i: int) -> bool {
    forall|k: int| i <= k < args.len() ==> (#[trigger] args[k]).len() > 0 && args[k][0] != '-'
}

/// The words from position `i` on are the word at `i` and those after it.
proof fn lemma_skip_contains(args: Seq<Seq<char>>, i: int)
    requires
        0 <= i < args.len(),
    ensures
        forall|x: Seq<char>|
            #[trigger] args.skip(i).contains(x) <==> (x == args[i] || args.skip(i + 1).contains(
                x,
            )),
{
    let all = args.skip(i);
    let rest = args.skip(i + 1);
    assert forall|x: Seq<char>| #[trigger] all.contains(x) <==> (x == args[i] || rest.contains(
        x,
    )) by {
        if all.contains(x) {
            let j = choose|j: int| 0 <= j < all.len() && all[j] == x;
            if j > 0 {
                assert(rest[j - 1] == x);
            }
        }
        if rest.contains(x) {
            let j = choose|j: int| 0 <= j < rest.len() && rest[j] == x;
            assert(all[j + 1] == x);
        }
        if x == args[i] {
            assert(all[0] == x);
        }
    }
}

proof fn lemma_remove_names(
    args: Seq<Seq<char>>,
    i: int,
    map: Map<Seq<char>, Seq<char>>,
    out: Seq<Seq<char>>,
)
    requires
        0 <= i <= args.len(),
        names_from(args, i),
    ensures
        complete_from(args, i, CompleteMode::Remove, map, out) == (
            map.remove_keys(args.skip(i).to_set()),
            out,
        ),
    decreases args.len() - i,
{
    if i == args.len() {
        assert(map.remove_keys(args.skip(i).to_set()) =~= map);
    } else {
        let a = args[i];
        assert(a.len() > 0 && a[0] != '-');
        lemma_remove_names(args, i + 1, map.remove(a), out);
        assert(map.remove(a).remove_keys(args.skip(i + 1).to_set()) =~= map.remove_keys(
            args.skip(i).to_set(),
        )) by {
            lemma_skip_contains(args, i);
        }
    }
}

proof fn lemma_register_names(
    args: Seq<Seq<char>>,
    i: int,
    script: Seq<char>,
    map: Map<Seq<char>, Seq<char>>,
    out: Seq<Seq<char>>,
)
    requires
        0 <= i <= args.len(),
        names_from(args, i),
    ensures
        complete_from(args, i, CompleteMode::Register(script), map, out) == (
            map.union_prefer_right(Map::new(|x: Seq<char>| args.skip(i).contains(x), |x| script)),
            out,
        ),
    decreases args.len() - i,
{
    let m = Map::new(|x: Seq<char>| args.skip(i).contains(x), |x: Seq<char>| script);
    if i == args.len() {
        assert(map.union_prefer_right(m) =~= map);
    } else {
        let a = args[i];
        assert(a.len() > 0 && a[0] != '-');
        lemma_register_names(args, i + 1, script, map.insert(a, script), out);
        let m1 = Map::new(|x: Seq<char>| args.skip(i + 1).contains(x), |x: Seq<char>| script);
        lemma_skip_contains(args, i);
        assert(map.insert(a, script).union_prefer_right(m1) =~= map.union_prefer_right(m));
    }
}

/// Law: `complete -r n1 ... nk` (names not starting with `-`) removes the
/// specification of every one of the names, keeps every other one as it
/// was, and prints nothing.
pub proof fn lemma_remove_every_name(map: Map<Seq<char>, Seq<char>>, names: Seq<Seq<char>>)
    requires
        names_from(names, 0),
    ensures
        spec_complete(seq!["-r"@] + names, map) == (
            map.remove_keys(names.to_set()),
            Seq::<Seq<char>>::empty(),
        ),
{
    reveal_strlit("-C");
    reveal_strlit("-p");
    reveal_strlit("-r");
    let args = seq!["-r"@] + names;
    assert(args[0] == "-r"@);
    assert("-r"@[1] != "-C"@[1] && "-r"@[1] != "-p"@[1]);
    assert(args[0] != "-C"@ && args[0] != "-p"@);
    assert forall|k: int| 1 <= k < args.len() implies (#[trigger] args[k]).len() > 0 && args[k][0]
        != '-' by {
        assert(args[k] == names[k - 1]);
    }
    lemma_remove_names(args, 1, map, Seq::empty());
    assert(args.skip(1) =~= names);
}

/// Law: `complete -C <script> n1 ... nk` (names not starting with `-`)
/// registers the script for every one of the names, keeps every other
/// specification as it was, and prints nothing.
pub proof fn lemma_register_every_name(
    map: Map<Seq<char>, Seq<char>>,
    script: Seq<char>,
    names: Seq<Seq<char>>,
)
    requires
        names_from(names, 0),
    ensures
        spec_complete(seq!["-C"@, script] + names, map) == (
            map.union_prefer_right(Map::new(|x: Seq<char>| names.contains(x), |x| script)),
            Seq::<Seq<char>>::empty(),
        ),
{
    reveal_strlit("-C");
    let args = seq!["-C"@, script] + names;
    assert(args[0] == "-C"@ && args[1] == script);
    assert forall|k: int| 2 <= k < args.len() implies (#[trigger] args[k]).len() > 0 && args[k][0]
        != '-' by {
        assert(args[k] == names[k - 2]);
    }
    lemma_register_names(args, 2, script, map, Seq::empty());
    assert(args.skip(2) =~= names);
}

proof fn lemma_print_names(
    args: Seq<Seq<char>>,
    i: int,
    map: Map<Seq<char>, Seq<char>>,
    out: Seq<Seq<char>>,
)
    requires
        0 <= i <= args.len(),
        names_from(args, i),
    ensures
        complete_from(args, i, CompleteMode::Print, map, out) == (
            map,
            out + args.skip(i).map_values(|n: Seq<char>| spec_line(map, n)),
        ),
    decreases args.len() - i,
{
    let lines = args.skip(i).map_values(|n: Seq<char>| spec_line(map, n));
    if i == args.len() {
        assert(out + lines =~= out);
    } else {
        let a = args[i];
        assert(a.len() > 0 && a[0] != '-');
        lemma_print_names(args, i + 1, map, out.push(spec_line(map, a)));
        assert(out.push(spec_line(map, a)) + args.skip(i + 1).map_values(
            |n: Seq<char>| spec_line(map, n),
        ) =~= out + lines);
    }
}

/// Law: `complete -p n1 ... nk` (names not starting with `-`) prints one
/// line per name, in order, and changes no specification: the line names
/// the script registered for the name, or says that it has none.
pub proof fn lemma_print_every_name(map: Map<Seq<char>, Seq<char>>, names: Seq<Seq<char>>)
    requires
        names_from(names, 0),
    ensures
        spec_complete(seq!["-p"@] + names, map).0 == map,
        spec_complete(seq!["-p"@] + names, map).1.len() == names.len(),
        forall|k: int|
            0 <= k < names.len() ==> spec_complete(seq!["-p"@] + names, map).1[k] == (
            if map.contains_key(#[trigger] names[k]) {
                "complete -C '"@ + map[names[k]] + "' "@ + names[k]
            } else {
                "complete: "@ + names[k] + ": no completion specification"@
            }),
{
    reveal_strlit("-C");
    reveal_strlit("-p");
    let args = seq!["-p"@] + names;
    assert(args[0] == "-p"@);
    assert("-p"@[1] != "-C"@[1]);
    assert(args[0] != "-C"@);
    assert forall|k: int| 1 <= k < args.len() implies (#[trigger] args[k]).len() > 0 && args[k][0]
        != '-' by {
        assert(args[k] == names[k - 1]);
    }
    lemma_print_names(args, 1, map, Seq::empty());
    assert(args.skip(1) =~= names);
    assert(Seq::<Seq<char>>::empty() + names.map_values(|n: Seq<char>| spec_line(map, n))
        =~= names.map_values(|n: Seq<char>| spec_line(map, n)));
}

} // verus!

