//! Splitting a command line into arguments.

use vstd::prelude::*;

use crate::text::{is_whitespace, is_ws, str_chars, string_from_chars, strs_view};

verus! {

/// Which kind of quote the tokenizer is inside.
#[derive(PartialEq, Eq, Structural, Clone, Copy)]
pub enum QuoteState {
    Unquoted,
    Single,
    Double,
}

/// Appends the argument being built, unless it is empty.
pub open spec fn flush(args: Seq<Seq<char>>, cur: Seq<char>) -> Seq<Seq<char>> {
    if cur.len() > 0 {
        args.push(cur)
    } else {
        args
    }
}

/// The arguments of `s`, given the state reached before position `i`:
/// the finished arguments `args`, the argument being built `cur`, and the
/// quote state `q`.
///
/// - Inside single quotes every character up to the closing `'` is literal.
/// - Inside double quotes every character up to the closing `"` is literal,
///   except that `\"` and `\\` stand for `"` and `\`.
/// - Outside quotes, `'` and `"` open a quote, `\` makes the next character
///   literal (a final lone `\` is dropped), and whitespace ends the argument.
pub open spec fn tokenize_from(
    s: Seq<char>,
    i: int,
    args: Seq<Seq<char>>,
    cur: Seq<char>,
    q: QuoteState,
) -> Seq<Seq<char>>
    decreases s.len() - i,
{
    if i < 0 || i >= s.len() {
        flush(args, cur)
    } else {
        let ch = s[i];
        match q {
            QuoteState::Single => {
                if ch == '\'' {
                    tokenize_from(s, i + 1, args, cur, QuoteState::Unquoted)
                } else {
                    tokenize_from(s, i + 1, args, cur.push(ch), QuoteState::Single)
                }
            },
            QuoteState::Double => {
                if ch == '"' {
                    tokenize_from(s, i + 1, args, cur, QuoteState::Unquoted)
                } else if ch == '\\' && i + 1 < s.len() && (s[i + 1] == '"' || s[i + 1] == '\\') {
                    tokenize_from(s, i + 2, args, cur.push(s[i + 1]), QuoteState::Double)
                } else {
                    tokenize_from(s, i + 1, args, cur.push(ch), QuoteState::Double)
                }
            },
            QuoteState::Unquoted => {
                if ch == '\'' {
                    tokenize_from(s, i + 1, args, cur, QuoteState::Single)
                } else if ch == '"' {
                    tokenize_from(s, i + 1, args, cur, QuoteState::Double)
                } else if ch == '\\' {
                    if i + 1 < s.len() {
                        tokenize_from(s, i + 2, args, cur.push(s[i + 1]), QuoteState::Unquoted)
                    } else {
                        tokenize_from(s, i + 1, args, cur, QuoteState::Unquoted)
                    }
                } else if is_ws(ch) {
                    tokenize_from(s, i + 1, flush(args, cur), Seq::empty(), QuoteState::Unquoted)
                } else {
                    tokenize_from(s, i + 1, args, cur.push(ch), QuoteState::Unquoted)
                }
            },
        }
    }
}

/// The arguments of a whole command line.
pub open spec fn spec_tokenize(s: Seq<char>) -> Seq<Seq<char>> {
    tokenize_from(s, 0, Seq::empty(), Seq::empty(), QuoteState::Unquoted)
}

/// Splits a command line into arguments, honoring single and double quotes
/// and backslash escapes (see `tokenize_from` for the rules).
pub fn tokenize(input: &str) -> (args: Vec<String>)
    ensures
        strs_view(args@) == spec_tokenize(input@),
{
    let chars = str_chars(input);
    let n = chars.len();
    let mut args: Vec<String> = Vec::new();
    let mut current: Vec<char> = Vec::new();
    let mut quote = QuoteState::Unquoted;
    let mut i: usize = 0;
    assert(strs_view(args@) =~= Seq::<Seq<char>>::empty());
    while i < n
        invariant
            n == chars@.len(),
            chars@ == input@,
            i <= n,
            tokenize_from(chars@, i as int, strs_view(args@), current@, quote) == spec_tokenize(
                input@,
            ),
        decreases n - i,
    {
        let ch = chars[i];
        match quote {
            QuoteState::Single => {
                if ch == '\'' {
                    quote = QuoteState::Unquoted;
                } else {
                    current.push(ch);
                }
                i = i + 1;
            },
            QuoteState::Double => {
                if ch == '"' {
                    quote = QuoteState::Unquoted;
                    i = i + 1;
                } else if ch == '\\' && i + 1 < n && (chars[i + 1] == '"' || chars[i + 1] == '\\') {
                    current.push(chars[i + 1]);
                    i = i + 2;
                } else {
                    current.push(ch);
                    i = i + 1;
                }
            },
            QuoteState::Unquoted => {
                if ch == '\'' {
                    quote = QuoteState::Single;
                    i = i + 1;
                } else if ch == '"' {
                    quote = QuoteState::Double;
                    i = i + 1;
                } else if ch == '\\' {
                    if i + 1 < n {
                        current.push(chars[i + 1]);
                        i = i + 2;
                    } else {
                        i = i + 1;
                    }
                } else if is_whitespace(ch) {
                    if current.len() > 0 {
                        let word = string_from_chars(&current);
                        proof {
                            assert(strs_view(args@.push(word)) =~= strs_view(args@).push(current@));
                        }
                        args.push(word);
                        current = Vec::new();
                    } else {
                        assert(current@ =~= Seq::<char>::empty());
                    }
                    i = i + 1;
                } else {
                    current.push(ch);
                    i = i + 1;
                }
            },
        }
    }
    if current.len() > 0 {
        let word = string_from_chars(&current);
        proof {
            assert(strs_view(args@.push(word)) =~= strs_view(args@).push(current@));
        }
        args.push(word);
    }
    args
}

} // verus!

verus! {

/// Every element of `v` is non-empty.
pub open spec fn all_nonempty(v: Seq<Seq<char>>) -> bool {
    forall|k: int| 0 <= k < v.len() ==> #[trigger] v[k].len() > 0
}

proof fn lemma_tokenize_from_nonempty(
    s: Seq<char>,
    i: int,
    args: Seq<Seq<char>>,
    cur: Seq<char>,
    q: QuoteState,
)
    requires
        all_nonempty(args),
    ensures
        all_nonempty(tokenize_from(s, i, args, cur, q)),
    decreases s.len() - i,
{
    assert forall|k: int| 0 <= k < flush(args, cur).len() implies #[trigger] flush(args, cur)[k].len()
        > 0 by {
        if k < args.len() {
            assert(flush(args, cur)[k] == args[k]);
        }
    }
    assert(all_nonempty(flush(args, cur)));
    if i < 0 || i >= s.len() {
    } else {
        let ch = s[i];
        match q {
            QuoteState::Single => {
                if ch == '\'' {
                    lemma_tokenize_from_nonempty(s, i + 1, args, cur, QuoteState::Unquoted);
                } else {
                    lemma_tokenize_from_nonempty(s, i + 1, args, cur.push(ch), QuoteState::Single);
                }
            },
            QuoteState::Double => {
                if ch == '"' {
                    lemma_tokenize_from_nonempty(s, i + 1, args, cur, QuoteState::Unquoted);
                } else if ch == '\\' && i + 1 < s.len() && (s[i + 1] == '"' || s[i + 1] == '\\') {
                    lemma_tokenize_from_nonempty(
                        s,
                        i + 2,
                        args,
                        cur.push(s[i + 1]),
                        QuoteState::Double,
                    );
                } else {
                    lemma_tokenize_from_nonempty(s, i + 1, args, cur.push(ch), QuoteState::Double);
                }
            },
            QuoteState::Unquoted => {
                if ch == '\'' {
                    lemma_tokenize_from_nonempty(s, i + 1, args, cur, QuoteState::Single);
                } else if ch == '"' {
                    lemma_tokenize_from_nonempty(s, i + 1, args, cur, QuoteState::Double);
                } else if ch == '\\' {
                    if i + 1 < s.len() {
                        lemma_tokenize_from_nonempty(
                            s,
                            i + 2,
                            args,
                            cur.push(s[i + 1]),
                            QuoteState::Unquoted,
                        );
                    } else {
                        lemma_tokenize_from_nonempty(s, i + 1, args, cur, QuoteState::Unquoted);
                    }
                } else if is_ws(ch) {
                    lemma_tokenize_from_nonempty(
                        s,
                        i + 1,
                        flush(args, cur),
                        Seq::empty(),
                        QuoteState::Unquoted,
                    );
                } else {
                    lemma_tokenize_from_nonempty(
                        s,
                        i + 1,
                        args,
                        cur.push(ch),
                        QuoteState::Unquoted,
                    );
                }
            },
        }
    }
}

/// Law: tokenizing never yields an empty argument (empty quotes
/// contribute nothing, and runs of whitespace do not produce arguments).
pub proof fn lemma_tokenize_no_empty_args(s: Seq<char>)
    ensures
        all_nonempty(spec_tokenize(s)),
{
    lemma_tokenize_from_nonempty(s, 0, Seq::empty(), Seq::empty(), QuoteState::Unquoted);
}

proof fn lemma_quoted_rest(w: Seq<char>, quote: char, q: QuoteState, j: int)
    requires
        q == QuoteState::Single && quote == '\'' || q == QuoteState::Double && quote == '"',
        0 <= j <= w.len(),
        w.len() > 0,
        !w.contains(quote),
        !w.contains('\\'),
    ensures
        tokenize_from(seq![quote] + w + seq![quote], j + 1, Seq::empty(), w.take(j), q) == seq![
            w,
        ],
    decreases w.len() - j,
{
    let s = seq![quote] + w + seq![quote];
    assert(s.len() == w.len() + 2);
    if j < w.len() {
        assert(s[j + 1] == w[j]);
        assert(w.take(j).push(w[j]) =~= w.take(j + 1));
        assert(w[j] != quote) by {
            if w[j] == quote {
                assert(w.contains(quote));
            }
        }
        assert(w[j] != '\\') by {
            if w[j] == '\\' {
                assert(w.contains('\\'));
            }
        }
        lemma_quoted_rest(w, quote, q, j + 1);
        assert(tokenize_from(s, j + 1, Seq::empty(), w.take(j), q) == tokenize_from(
            s,
            j + 2,
            Seq::empty(),
            w.take(j + 1),
            q,
        ));
    } else {
        assert(s[j + 1] == quote);
        assert(w.take(j) =~= w);
        assert(tokenize_from(s, j + 2, Seq::empty(), w, QuoteState::Unquoted) == flush(
            Seq::<Seq<char>>::empty(),
            w,
        ));
        assert(flush(Seq::<Seq<char>>::empty(), w) =~= seq![w]);
    }
}

/// Law: a non-empty word holding no quote character of its kind and no
/// backslash, wrapped in single or in double quotes, is one argument equal
/// to the word, spaces and the other kind of quote included.
pub proof fn lemma_tokenize_quoted_word(w: Seq<char>, quote: char)
    requires
        quote == '\'' || quote == '"',
        w.len() > 0,
        !w.contains(quote),
        !w.contains('\\'),
    ensures
        spec_tokenize(seq![quote] + w + seq![quote]) == seq![w],
{
    let q = if quote == '\'' {
        QuoteState::Single
    } else {
        QuoteState::Double
    };
    let s = seq![quote] + w + seq![quote];
    assert(s[0] == quote);
    assert(w.take(0) =~= Seq::<char>::empty());
    lemma_quoted_rest(w, quote, q, 0);
}

} // verus!

verus! {

proof fn lemma_tokenize_acc(
    s: Seq<char>,
    i: int,
    args: Seq<Seq<char>>,
    cur: Seq<char>,
    q: QuoteState,
)
    ensures
        tokenize_from(s, i, args, cur, q) == args + tokenize_from(s, i, Seq::empty(), cur, q),
    decreases s.len() - i,
{
    let e = Seq::<Seq<char>>::empty();
    if i < 0 || i >= s.len() {
        assert(flush(args, cur) =~= args + flush(e, cur));
    } else {
        let ch = s[i];
        match q {
            QuoteState::Single => {
                if ch == '\'' {
                    lemma_tokenize_acc(s, i + 1, args, cur, QuoteState::Unquoted);
                    lemma_tokenize_acc(s, i + 1, e, cur, QuoteState::Unquoted);
                } else {
                    lemma_tokenize_acc(s, i + 1, args, cur.push(ch), QuoteState::Single);
                    lemma_tokenize_acc(s, i + 1, e, cur.push(ch), QuoteState::Single);
                }
            },
            QuoteState::Double => {
                if ch == '"' {
                    lemma_tokenize_acc(s, i + 1, args, cur, QuoteState::Unquoted);
                    lemma_tokenize_acc(s, i + 1, e, cur, QuoteState::Unquoted);
                } else if ch == '\\' && i + 1 < s.len() && (s[i + 1] == '"' || s[i + 1] == '\\') {
                    lemma_tokenize_acc(s, i + 2, args, cur.push(s[i + 1]), QuoteState::Double);
                    lemma_tokenize_acc(s, i + 2, e, cur.push(s[i + 1]), QuoteState::Double);
                } else {
                    lemma_tokenize_acc(s, i + 1, args, cur.push(ch), QuoteState::Double);
                    lemma_tokenize_acc(s, i + 1, e, cur.push(ch), QuoteState::Double);
                }
            },
            QuoteState::Unquoted => {
                if ch == '\'' {
                    lemma_tokenize_acc(s, i + 1, args, cur, QuoteState::Single);
                    lemma_tokenize_acc(s, i + 1, e, cur, QuoteState::Single);
                } else if ch == '"' {
                    lemma_tokenize_acc(s, i + 1, args, cur, QuoteState::Double);
                    lemma_tokenize_acc(s, i + 1, e, cur, QuoteState::Double);
                } else if ch == '\\' {
                    if i + 1 < s.len() {
                        lemma_tokenize_acc(s, i + 2, args, cur.push(s[i + 1]), QuoteState::Unquoted);
                        lemma_tokenize_acc(s, i + 2, e, cur.push(s[i + 1]), QuoteState::Unquoted);
                    } else {
                        lemma_tokenize_acc(s, i + 1, args, cur, QuoteState::Unquoted);
                        lemma_tokenize_acc(s, i + 1, e, cur, QuoteState::Unquoted);
                    }
                } else if is_ws(ch) {
                    let f = flush(args, cur);
                    let f0 = flush(e, cur);
                    lemma_tokenize_acc(s, i + 1, f, Seq::empty(), QuoteState::Unquoted);
                    lemma_tokenize_acc(s, i + 1, f0, Seq::empty(), QuoteState::Unquoted);
                    assert(f =~= args + f0);
                    assert(f + tokenize_from(s, i + 1, e, Seq::empty(), QuoteState::Unquoted) =~= args
                        + (f0 + tokenize_from(s, i + 1, e, Seq::empty(), QuoteState::Unquoted)));
                } else {
                    lemma_tokenize_acc(s, i + 1, args, cur.push(ch), QuoteState::Unquoted);
                    lemma_tokenize_acc(s, i + 1, e, cur.push(ch), QuoteState::Unquoted);
                }
            },
        }
    }
}

proof fn lemma_tokenize_shift(
    s: Seq<char>,
    d: int,
    i: int,
    args: Seq<Seq<char>>,
    cur: Seq<char>,
    q: QuoteState,
)
    requires
        0 <= d <= s.len(),
        0 <= i,
    ensures
        tokenize_from(s, d + i, args, cur, q) == tokenize_from(s.skip(d), i, args, cur, q),
    decreases s.len() - d - i,
{
    let t = s.skip(d);
    if d + i < s.len() {
        assert(t[i] == s[d + i]);
        if d + i + 1 < s.len() {
            assert(t[i + 1] == s[d + i + 1]);
        }
        let ch = s[d + i];
        match q {
            QuoteState::Single => {
                if ch == '\'' {
                    lemma_tokenize_shift(s, d, i + 1, args, cur, QuoteState::Unquoted);
                } else {
                    lemma_tokenize_shift(s, d, i + 1, args, cur.push(ch), QuoteState::Single);
                }
            },
            QuoteState::Double => {
                if ch == '"' {
                    lemma_tokenize_shift(s, d, i + 1, args, cur, QuoteState::Unquoted);
                } else if ch == '\\' && d + i + 1 < s.len() && (s[d + i + 1] == '"' || s[d + i + 1]
                    == '\\') {
                    lemma_tokenize_shift(s, d, i + 2, args, cur.push(s[d + i + 1]), QuoteState::Double);
                } else {
                    lemma_tokenize_shift(s, d, i + 1, args, cur.push(ch), QuoteState::Double);
                }
            },
            QuoteState::Unquoted => {
                if ch == '\'' {
                    lemma_tokenize_shift(s, d, i + 1, args, cur, QuoteState::Single);
                } else if ch == '"' {
                    lemma_tokenize_shift(s, d, i + 1, args, cur, QuoteState::Double);
                } else if ch == '\\' {
                    if d + i + 1 < s.len() {
                        lemma_tokenize_shift(
                            s,
                            d,
                            i + 2,
                            args,
                            cur.push(s[d + i + 1]),
                            QuoteState::Unquoted,
                        );
                    } else {
                        lemma_tokenize_shift(s, d, i + 1, args, cur, QuoteState::Unquoted);
                    }
                } else if is_ws(ch) {
                    lemma_tokenize_shift(
                        s,
                        d,
                        i + 1,
                        flush(args, cur),
                        Seq::empty(),
                        QuoteState::Unquoted,
                    );
                } else {
                    lemma_tokenize_shift(s, d, i + 1, args, cur.push(ch), QuoteState::Unquoted);
                }
            },
        }
    }
}

/// No quote or backslash character in `a`.
pub open spec fn plain(a: Seq<char>) -> bool {
    !a.contains('\'') && !a.contains('"') && !a.contains('\\')
}

/// The finished arguments and the argument being built after reading the
/// plain text `a` from position `i`, starting outside quotes.
pub open spec fn run_plain(a: Seq<char>, i: int, args: Seq<Seq<char>>, cur: Seq<char>) -> (
    Seq<Seq<char>>,
    Seq<char>,
)
    decreases a.len() - i,
{
    if i < 0 || i >= a.len() {
        (args, cur)
    } else if is_ws(a[i]) {
        run_plain(a, i + 1, flush(args, cur), Seq::empty())
    } else {
        run_plain(a, i + 1, args, cur.push(a[i]))
    }
}

proof fn lemma_plain_prefix(
    s: Seq<char>,
    a: Seq<char>,
    i: int,
    args: Seq<Seq<char>>,
    cur: Seq<char>,
)
    requires
        0 <= i <= a.len() <= s.len(),
        forall|k: int| 0 <= k < a.len() ==> s[k] == a[k],
        plain(a),
    ensures
        tokenize_from(s, i, args, cur, QuoteState::Unquoted) == tokenize_from(
            s,
            a.len() as int,
            run_plain(a, i, args, cur).0,
            run_plain(a, i, args, cur).1,
            QuoteState::Unquoted,
        ),
    decreases a.len() - i,
{
    if i < a.len() {
        let ch = a[i];
        assert(s[i] == ch);
        assert(ch != '\'' && ch != '"' && ch != '\\') by {
            if ch == '\'' || ch == '"' || ch == '\\' {
                assert(a.contains(ch));
            }
        }
        if is_ws(ch) {
            lemma_plain_prefix(s, a, i + 1, flush(args, cur), Seq::empty());
        } else {
            lemma_plain_prefix(s, a, i + 1, args, cur.push(ch));
        }
    }
}

/// Law: whitespace outside quotes delimits arguments: for a text `a`
/// without quotes or backslashes, the arguments of `a`, a space, then any
/// text `b`, are the arguments of `a` followed by those of `b`.
pub proof fn lemma_tokenize_space_splits(a: Seq<char>, b: Seq<char>)
    requires
        plain(a),
    ensures
        spec_tokenize(a + seq![' '] + b) == spec_tokenize(a) + spec_tokenize(b),
{
    let s = a + seq![' '] + b;
    let n = a.len() as int;
    let e = Seq::<Seq<char>>::empty();
    let rp = run_plain(a, 0, e, Seq::empty());
    lemma_plain_prefix(a, a, 0, e, Seq::empty());
    assert forall|k: int| 0 <= k < n implies s[k] == a[k] by {}
    lemma_plain_prefix(s, a, 0, e, Seq::empty());
    assert(s[n] == ' ');
    assert(is_ws(' '));
    let f = flush(rp.0, rp.1);
    assert(tokenize_from(s, n, rp.0, rp.1, QuoteState::Unquoted) == tokenize_from(
        s,
        n + 1,
        f,
        Seq::empty(),
        QuoteState::Unquoted,
    ));
    lemma_tokenize_acc(s, n + 1, f, Seq::empty(), QuoteState::Unquoted);
    lemma_tokenize_shift(s, n + 1, 0, e, Seq::empty(), QuoteState::Unquoted);
    assert(s.skip(n + 1) =~= b);
}

/// A word: no quote, backslash or whitespace character.
pub open spec fn bare_word(a: Seq<char>) -> bool {
    plain(a) && forall|k: int| 0 <= k < a.len() ==> !is_ws(#[trigger] a[k])
}

proof fn lemma_run_bare_word(a: Seq<char>, i: int, args: Seq<Seq<char>>, cur: Seq<char>)
    requires
        0 <= i <= a.len(),
        bare_word(a),
    ensures
        run_plain(a, i, args, cur) == (args, cur + a.skip(i)),
    decreases a.len() - i,
{
    if i == a.len() {
        assert(cur + a.skip(i) =~= cur);
    } else {
        assert(!is_ws(a[i]));
        lemma_run_bare_word(a, i + 1, args, cur.push(a[i]));
        assert(cur.push(a[i]) + a.skip(i + 1) =~= cur + a.skip(i));
    }
}

/// Law: outside quotes a backslash makes the character after it part of
/// the word, whatever that character is (a letter, a space, a quote, a
/// backslash), and the backslash itself is dropped: `u\cv` for words `u`
/// and `v` is the single argument `u`, `c`, `v`.
pub proof fn lemma_tokenize_backslash_escape(u: Seq<char>, c: char, v: Seq<char>)
    requires
        bare_word(u),
        bare_word(v),
    ensures
        spec_tokenize(u + seq!['\\', c] + v) == seq![u.push(c) + v],
{
    let s = u + seq!['\\', c] + v;
    let n = u.len() as int;
    let e = Seq::<Seq<char>>::empty();
    assert forall|k: int| 0 <= k < n implies s[k] == u[k] by {}
    lemma_plain_prefix(s, u, 0, e, Seq::empty());
    lemma_run_bare_word(u, 0, e, Seq::empty());
    assert(Seq::<char>::empty() + u.skip(0) =~= u);
    assert(s[n] == '\\' && s[n + 1] == c);
    assert(tokenize_from(s, n, e, u, QuoteState::Unquoted) == tokenize_from(
        s,
        n + 2,
        e,
        u.push(c),
        QuoteState::Unquoted,
    ));
    lemma_tokenize_shift(s, n + 2, 0, e, u.push(c), QuoteState::Unquoted);
    assert(s.skip(n + 2) =~= v);
    lemma_plain_prefix(v, v, 0, e, u.push(c));
    lemma_run_bare_word(v, 0, e, u.push(c));
    assert(v.skip(0) =~= v);
    assert(flush(e, u.push(c) + v) =~= seq![u.push(c) + v]);
}

} // verus!

