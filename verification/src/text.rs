//! Character-level helpers shared by the shell's modules.

use vstd::prelude::*;

verus! {

/// Copies the characters of a string slice into a vector.
pub fn str_chars(s: &str) -> (v: Vec<char>)
    ensures
        v@ == s@,
{
    let mut v: Vec<char> = Vec::new();
    for c in it: s.chars()
        invariant
            v@ == it.seq().take(it.index()),
    {
        v.push(c);
    }
    v
}

/// Builds a `String` from characters by `Iterator::collect` into
/// `<String as FromIterator<&char>>::from_iter`. Trusted: the contract
/// claims that the string holds exactly the characters of `v`, in order.
#[verifier::external_body]
pub fn string_from_chars(v: &Vec<char>) -> (s: String)
    ensures
        s@ == v@,
{
    v.iter().collect()
}

} // verus!

verus! {

/// Unicode `White_Space` property, as `char::is_whitespace` tests it.
pub open spec fn is_ws(c: char) -> bool {
    let u = c as u32;
    ||| (0x9 <= u && u <= 0xd)
    ||| u == 0x20
    ||| u == 0x85
    ||| u == 0xa0
    ||| u == 0x1680
    ||| (0x2000 <= u && u <= 0x200a)
    ||| u == 0x2028
    ||| u == 0x2029
    ||| u == 0x202f
    ||| u == 0x205f
    ||| u == 0x3000
}

/// Whether `c` is a whitespace character (same set as `char::is_whitespace`).
pub fn is_whitespace(c: char) -> (b: bool)
    ensures
        b == is_ws(c),
{
    let u = c as u32;
    (0x9 <= u && u <= 0xd) || u == 0x20 || u == 0x85 || u == 0xa0 || u == 0x1680 || (0x2000
        <= u && u <= 0x200a) || u == 0x2028 || u == 0x2029 || u == 0x202f || u == 0x205f || u
        == 0x3000
}

/// The character views of a sequence of strings.
pub open spec fn strs_view(v: Seq<String>) -> Seq<Seq<char>> {
    v.map_values(|s: String| s@)
}

} // verus!

verus! {

/// Whether two character sequences are equal.
pub fn chars_eq(a: &Vec<char>, b: &Vec<char>) -> (r: bool)
    ensures
        r == (a@ == b@),
{
    if a.len() != b.len() {
        return false;
    }
    let n = a.len();
    let mut i: usize = 0;
    while i < n
        invariant
            n == a@.len(),
            n == b@.len(),
            i <= n,
            forall|k: int| 0 <= k < i ==> a@[k] == b@[k],
        decreases n - i,
    {
        if a[i] != b[i] {
            return false;
        }
        i = i + 1;
    }
    assert(a@ =~= b@);
    true
}

/// Whether two string slices hold the same characters.
pub fn str_eq(a: &str, b: &str) -> (r: bool)
    ensures
        r == (a@ == b@),
{
    let x = str_chars(a);
    let y = str_chars(b);
    chars_eq(&x, &y)
}

/// Whether `p` is a prefix of `s`.
pub open spec fn is_prefix(p: Seq<char>, s: Seq<char>) -> bool {
    p.len() <= s.len() && s.take(p.len() as int) == p
}

/// Whether the string `s` starts with `p` (`str::starts_with`).
pub fn starts_with(s: &str, p: &str) -> (r: bool)
    ensures
        r == is_prefix(p@, s@),
{
    let x = str_chars(s);
    let y = str_chars(p);
    if y.len() > x.len() {
        return false;
    }
    let n = y.len();
    let mut i: usize = 0;
    while i < n
        invariant
            n == y@.len(),
            n <= x@.len(),
            x@ == s@,
            y@ == p@,
            i <= n,
            forall|k: int| 0 <= k < i ==> x@[k] == y@[k],
        decreases n - i,
    {
        if x[i] != y[i] {
            proof {
                if is_prefix(p@, s@) {
                    assert(x@.take(n as int)[i as int] == x@[i as int]);
                    assert(x@.take(n as int)[i as int] == y@[i as int]);
                }
            }
            return false;
        }
        i = i + 1;
    }
    assert(x@.take(n as int) =~= y@);
    true
}

/// An owned copy of a string slice.
pub fn owned(s: &str) -> (r: String)
    ensures
        r@ == s@,
{
    s.to_owned()
}

} // verus!

verus! {

/// Appends the characters of `s` to `v`.
pub fn push_str(v: &mut Vec<char>, s: &str)
    ensures
        final(v)@ == old(v)@ + s@,
{
    let c = str_chars(s);
    let n = c.len();
    let mut i: usize = 0;
    while i < n
        invariant
            n == c@.len(),
            i <= n,
            v@ == old(v)@ + c@.take(i as int),
        decreases n - i,
    {
        v.push(c[i]);
        i = i + 1;
        assert(c@.take(i as int) =~= c@.take(i - 1).push(c@[i - 1]));
    }
    assert(c@.take(n as int) =~= c@);
}

/// Removes one trailing carriage return.
pub open spec fn strip_cr(s: Seq<char>) -> Seq<char> {
    if s.len() > 0 && s.last() == '\r' {
        s.drop_last()
    } else {
        s
    }
}

/// The lines of `s` from position `i` on (`str::lines`): pieces ended by
/// `\n` (a `\r` just before the `\n` is dropped), then the last piece if it
/// is not empty. `cur` is the piece read so far and `acc` the lines before.
pub open spec fn lines_from(s: Seq<char>, i: int, cur: Seq<char>, acc: Seq<Seq<char>>) -> Seq<
    Seq<char>,
>
    decreases s.len() - i,
{
    if i < 0 || i >= s.len() {
        if cur.len() > 0 {
            acc.push(cur)
        } else {
            acc
        }
    } else if s[i] == '\n' {
        lines_from(s, i + 1, Seq::empty(), acc.push(strip_cr(cur)))
    } else {
        lines_from(s, i + 1, cur.push(s[i]), acc)
    }
}

/// The lines of a text, as `str::lines` yields them.
pub open spec fn spec_lines(s: Seq<char>) -> Seq<Seq<char>> {
    lines_from(s, 0, Seq::empty(), Seq::empty())
}

/// The lines of a text (`str::lines`), as character vectors.
pub fn lines(s: &str) -> (r: Vec<Vec<char>>)
    ensures
        r@.map_values(|l: Vec<char>| l@) == spec_lines(s@),
{
    let c = str_chars(s);
    let n = c.len();
    let mut out: Vec<Vec<char>> = Vec::new();
    let mut cur: Vec<char> = Vec::new();
    let mut i: usize = 0;
    assert(out@.map_values(|l: Vec<char>| l@) =~= Seq::<Seq<char>>::empty());
    while i < n
        invariant
            n == c@.len(),
            c@ == s@,
            i <= n,
            lines_from(c@, i as int, cur@, out@.map_values(|l: Vec<char>| l@)) == spec_lines(s@),
        decreases n - i,
    {
        if c[i] == '\n' {
            let mut piece = cur;
            let k = piece.len();
            if k > 0 && piece[k - 1] == '\r' {
                piece.pop();
            }
            assert(piece@ == strip_cr(cur@));
            proof {
                assert(out@.push(piece).map_values(|l: Vec<char>| l@) =~= out@.map_values(
                    |l: Vec<char>| l@,
                ).push(piece@));
            }
            out.push(piece);
            cur = Vec::new();
        } else {
            cur.push(c[i]);
        }
        i = i + 1;
    }
    if cur.len() > 0 {
        proof {
            assert(out@.push(cur).map_values(|l: Vec<char>| l@) =~= out@.map_values(
                |l: Vec<char>| l@,
            ).push(cur@));
        }
        out.push(cur);
    }
    out
}

} // verus!

verus! {

/// The decimal digit for `d` (`0 <= d < 10`).
pub open spec fn digit(d: nat) -> char {
    if d == 0 { '0' }
    else if d == 1 { '1' }
    else if d == 2 { '2' }
    else if d == 3 { '3' }
    else if d == 4 { '4' }
    else if d == 5 { '5' }
    else if d == 6 { '6' }
    else if d == 7 { '7' }
    else if d == 8 { '8' }
    else { '9' }
}

/// The decimal representation of `n`, without leading zeros.
pub open spec fn dec(n: nat) -> Seq<char>
    decreases n,
{
    if n < 10 {
        seq![digit(n)]
    } else {
        dec(n / 10).push(digit(n % 10))
    }
}

fn digit_char(d: usize) -> (c: char)
    requires
        d < 10,
    ensures
        c == digit(d as nat),
{
    if d == 0 { '0' }
    else if d == 1 { '1' }
    else if d == 2 { '2' }
    else if d == 3 { '3' }
    else if d == 4 { '4' }
    else if d == 5 { '5' }
    else if d == 6 { '6' }
    else if d == 7 { '7' }
    else if d == 8 { '8' }
    else { '9' }
}

/// The decimal representation of `n` (`n.to_string()`).
pub fn decimal(n: usize) -> (r: Vec<char>)
    ensures
        r@ == dec(n as nat),
    decreases n,
{
    if n < 10 {
        let mut v = Vec::new();
        v.push(digit_char(n));
        assert(v@ =~= seq![digit(n as nat)]);
        v
    } else {
        let mut v = decimal(n / 10);
        v.push(digit_char(n % 10));
        v
    }
}

/// `k` spaces.
pub open spec fn spaces(k: nat) -> Seq<char> {
    Seq::new(k, |i: int| ' ')
}

/// `s` padded on the right with spaces to `width` characters (`{:<width}`).
pub open spec fn pad_right(s: Seq<char>, width: nat) -> Seq<char> {
    if s.len() < width {
        s + spaces((width - s.len()) as nat)
    } else {
        s
    }
}

/// `s` padded on the left with spaces to `width` characters (`{:>width}`).
pub open spec fn pad_left(s: Seq<char>, width: nat) -> Seq<char> {
    if s.len() < width {
        spaces((width - s.len()) as nat) + s
    } else {
        s
    }
}

/// Appends `k` spaces to `v`.
pub fn push_spaces(v: &mut Vec<char>, k: usize)
    ensures
        final(v)@ == old(v)@ + spaces(k as nat),
{
    let mut i: usize = 0;
    while i < k
        invariant
            i <= k,
            v@ == old(v)@ + spaces(i as nat),
        decreases k - i,
    {
        v.push(' ');
        i = i + 1;
        assert(old(v)@ + spaces(i as nat) =~= (old(v)@ + spaces((i - 1) as nat)).push(' '));
    }
}

/// `s` without trailing whitespace (`str::trim_end`).
pub open spec fn trim_end(s: Seq<char>) -> Seq<char>
    decreases s.len(),
{
    if s.len() > 0 && is_ws(s.last()) {
        trim_end(s.drop_last())
    } else {
        s
    }
}

/// `s` without leading whitespace (`str::trim_start`).
pub open spec fn trim_start(s: Seq<char>) -> Seq<char>
    decreases s.len(),
{
    if s.len() > 0 && is_ws(s[0]) {
        trim_start(s.drop_first())
    } else {
        s
    }
}

/// `s` without leading and trailing whitespace (`str::trim`).
pub open spec fn trim(s: Seq<char>) -> Seq<char> {
    trim_end(trim_start(s))
}

/// `s` without trailing copies of `c` (`str::trim_end_matches(c)`).
pub open spec fn trim_end_char(s: Seq<char>, c: char) -> Seq<char>
    decreases s.len(),
{
    if s.len() > 0 && s.last() == c {
        trim_end_char(s.drop_last(), c)
    } else {
        s
    }
}

/// Removes trailing whitespace.
pub fn trim_end_vec(v: &Vec<char>) -> (r: Vec<char>)
    ensures
        r@ == trim_end(v@),
{
    let mut k = v.len();
    assert(v@.take(k as int) =~= v@);
    while k > 0 && is_whitespace(v[k - 1])
        invariant
            k <= v@.len(),
            trim_end(v@.take(k as int)) == trim_end(v@),
        decreases k,
    {
        assert(v@.take(k as int).drop_last() =~= v@.take(k - 1));
        k = k - 1;
    }
    take_prefix(v, k)
}

/// Removes trailing copies of `c`.
pub fn trim_end_char_vec(v: &Vec<char>, c: char) -> (r: Vec<char>)
    ensures
        r@ == trim_end_char(v@, c),
{
    let mut k = v.len();
    assert(v@.take(k as int) =~= v@);
    while k > 0 && v[k - 1] == c
        invariant
            k <= v@.len(),
            trim_end_char(v@.take(k as int), c) == trim_end_char(v@, c),
        decreases k,
    {
        assert(v@.take(k as int).drop_last() =~= v@.take(k - 1));
        k = k - 1;
    }
    take_prefix(v, k)
}

/// Removes leading and trailing whitespace.
pub fn trim_vec(v: &Vec<char>) -> (r: Vec<char>)
    ensures
        r@ == trim(v@),
{
    let n = v.len();
    let mut k: usize = 0;
    assert(v@.skip(0) =~= v@);
    while k < n && is_whitespace(v[k])
        invariant
            n == v@.len(),
            k <= n,
            trim_start(v@.skip(k as int)) == trim_start(v@),
        decreases n - k,
    {
        assert(v@.skip(k as int).drop_first() =~= v@.skip(k + 1));
        k = k + 1;
    }
    let mut rest: Vec<char> = Vec::new();
    let mut i: usize = k;
    while i < n
        invariant
            n == v@.len(),
            k <= i <= n,
            rest@ == v@.subrange(k as int, i as int),
        decreases n - i,
    {
        rest.push(v[i]);
        i = i + 1;
        assert(rest@ =~= v@.subrange(k as int, i as int));
    }
    assert(rest@ =~= v@.skip(k as int));
    trim_end_vec(&rest)
}

/// The first `k` characters of `v`.
pub fn take_prefix(v: &Vec<char>, k: usize) -> (r: Vec<char>)
    requires
        k <= v@.len(),
    ensures
        r@ == v@.take(k as int),
{
    let mut r: Vec<char> = Vec::new();
    let mut i: usize = 0;
    while i < k
        invariant
            k <= v@.len(),
            i <= k,
            r@ == v@.take(i as int),
        decreases k - i,
    {
        r.push(v[i]);
        i = i + 1;
        assert(r@ =~= v@.take(i as int));
    }
    r
}

/// The words joined, with `sep` between each two.
pub open spec fn join(words: Seq<Seq<char>>, sep: Seq<char>) -> Seq<char>
    decreases words.len(),
{
    if words.len() == 0 {
        Seq::empty()
    } else if words.len() == 1 {
        words[0]
    } else {
        join(words.drop_last(), sep) + sep + words.last()
    }
}

/// Joins strings with a separator (`[String]::join`).
pub fn join_strings(words: &[String], sep: &str) -> (r: String)
    ensures
        r@ == join(strs_view(words@), sep@),
{
    let mut out: Vec<char> = Vec::new();
    let n = words.len();
    let ghost w = strs_view(words@);
    let mut i: usize = 0;
    assert(w.take(0) =~= Seq::<Seq<char>>::empty());
    while i < n
        invariant
            n == words@.len(),
            w == strs_view(words@),
            i <= n,
            out@ == join(w.take(i as int), sep@),
        decreases n - i,
    {
        if i > 0 {
            push_str(&mut out, sep);
        }
        push_str(&mut out, words[i].as_str());
        assert(w.take(i + 1).drop_last() =~= w.take(i as int));
        assert(w.take(i + 1).last() == words@[i as int]@);
        proof {
            if i == 0 {
                assert(w.take(1)[0] == words@[0]@);
                assert(out@ =~= w.take(1)[0]);
            }
        }
        i = i + 1;
    }
    assert(w.take(n as int) =~= w);
    string_from_chars(&out)
}

} // verus!

verus! {

/// The UTF-8 encoding of `a + b` is that of `a` followed by that of `b`.
pub proof fn lemma_encode_concat(a: Seq<char>, b: Seq<char>)
    ensures
        vstd::utf8::encode_utf8(a + b) == vstd::utf8::encode_utf8(a) + vstd::utf8::encode_utf8(b),
    decreases a.len(),
{
    if a.len() == 0 {
        assert(a + b =~= b);
        assert(vstd::utf8::encode_utf8(a) =~= Seq::<u8>::empty());
        assert(Seq::<u8>::empty() + vstd::utf8::encode_utf8(b) =~= vstd::utf8::encode_utf8(b));
    } else {
        lemma_encode_concat(a.drop_first(), b);
        assert((a + b).drop_first() =~= a.drop_first() + b);
        assert((a + b)[0] == a[0]);
        assert(vstd::utf8::encode_utf8(a + b) =~= vstd::utf8::encode_utf8(a)
            + vstd::utf8::encode_utf8(b));
    }
}

/// The number of bytes of the UTF-8 encoding of `c`.
pub fn char_utf8_len(c: char) -> (n: usize)
    ensures
        n == vstd::utf8::encode_scalar(c as u32).len(),
{
    proof {
        vstd::utf8::char_is_scalar(c);
    }
    let u = c as u32;
    if u <= 0x7f {
        1
    } else if u <= 0x7ff {
        2
    } else if u <= 0xffff {
        3
    } else {
        4
    }
}

/// The number of bytes of the UTF-8 encoding of the first `k` characters.
pub fn utf8_len(cs: &Vec<char>, k: usize) -> (n: usize)
    requires
        k <= cs@.len(),
        vstd::utf8::encode_utf8(cs@).len() <= usize::MAX,
    ensures
        n == vstd::utf8::encode_utf8(cs@.take(k as int)).len(),
{
    let mut n: usize = 0;
    let mut i: usize = 0;
    proof {
        lemma_encode_concat(cs@.take(k as int), cs@.skip(k as int));
        assert(cs@.take(k as int) + cs@.skip(k as int) =~= cs@);
        assert(cs@.take(0) =~= Seq::<char>::empty());
    }
    while i < k
        invariant
            k <= cs@.len(),
            i <= k,
            n == vstd::utf8::encode_utf8(cs@.take(i as int)).len(),
            vstd::utf8::encode_utf8(cs@.take(k as int)).len() <= usize::MAX,
        decreases k - i,
    {
        proof {
            lemma_encode_concat(cs@.take(i as int), seq![cs@[i as int]]);
            assert(cs@.take(i + 1) =~= cs@.take(i as int) + seq![cs@[i as int]]);
            lemma_encode_concat(cs@.take(i + 1), cs@.subrange(i + 1, k as int));
            assert(cs@.take(i + 1) + cs@.subrange(i + 1, k as int) =~= cs@.take(k as int));
            assert(vstd::utf8::encode_utf8(seq![cs@[i as int]]) =~= vstd::utf8::encode_scalar(
                cs@[i as int] as u32,
            )) by {
                let one = seq![cs@[i as int]];
                assert(one.drop_first() =~= Seq::<char>::empty());
                assert(one[0] == cs@[i as int]);
                assert(vstd::utf8::encode_utf8(one.drop_first()) =~= Seq::<u8>::empty());
                assert(vstd::utf8::encode_utf8(one) == vstd::utf8::encode_scalar(one[0] as u32)
                    + vstd::utf8::encode_utf8(one.drop_first()));
            }
        }
        let w = char_utf8_len(cs[i]);
        n = n + w;
        i = i + 1;
    }
    n
}

} // verus!

verus! {

/// The whitespace-separated words of `s` from position `i` on, after the
/// word `cur` read so far and the words `acc` before it.
pub open spec fn words_from(s: Seq<char>, i: int, cur: Seq<char>, acc: Seq<Seq<char>>) -> Seq<
    Seq<char>,
>
    decreases s.len() - i,
{
    if i < 0 || i >= s.len() {
        if cur.len() > 0 {
            acc.push(cur)
        } else {
            acc
        }
    } else if is_ws(s[i]) {
        words_from(s, i + 1, Seq::empty(), if cur.len() > 0 { acc.push(cur) } else { acc })
    } else {
        words_from(s, i + 1, cur.push(s[i]), acc)
    }
}

/// The whitespace-separated words of `s` (`str::split_whitespace`).
pub open spec fn spec_words(s: Seq<char>) -> Seq<Seq<char>> {
    words_from(s, 0, Seq::empty(), Seq::empty())
}

/// The whitespace-separated words of `s`.
pub fn split_whitespace(s: &str) -> (words: Vec<String>)
    ensures
        strs_view(words@) == spec_words(s@),
{
    let c = str_chars(s);
    let n = c.len();
    let mut words: Vec<String> = Vec::new();
    let mut cur: Vec<char> = Vec::new();
    let mut i: usize = 0;
    assert(strs_view(words@) =~= Seq::<Seq<char>>::empty());
    while i < n
        invariant
            n == c@.len(),
            c@ == s@,
            i <= n,
            words_from(c@, i as int, cur@, strs_view(words@)) == spec_words(s@),
        decreases n - i,
    {
        if is_whitespace(c[i]) {
            if cur.len() > 0 {
                let w = string_from_chars(&cur);
                proof {
                    assert(strs_view(words@.push(w)) =~= strs_view(words@).push(cur@));
                }
                words.push(w);
            }
            cur = Vec::new();
        } else {
            cur.push(c[i]);
        }
        i = i + 1;
    }
    if cur.len() > 0 {
        let w = string_from_chars(&cur);
        proof {
            assert(strs_view(words@.push(w)) =~= strs_view(words@).push(cur@));
        }
        words.push(w);
    }
    words
}

/// The lines, trimmed, without the empty ones.
pub open spec fn trimmed_non_empty(ls: Seq<Seq<char>>) -> Seq<Seq<char>>
    decreases ls.len(),
{
    if ls.len() == 0 {
        Seq::empty()
    } else if trim(ls.last()).len() == 0 {
        trimmed_non_empty(ls.drop_last())
    } else {
        trimmed_non_empty(ls.drop_last()).push(trim(ls.last()))
    }
}

/// The lines of `text`, each trimmed, the empty ones left out.
pub fn trimmed_lines(text: &str) -> (r: Vec<String>)
    ensures
        strs_view(r@) == trimmed_non_empty(spec_lines(text@)),
{
    let ls = lines(text);
    let ghost lv = ls@.map_values(|l: Vec<char>| l@);
    let n = ls.len();
    let mut out: Vec<String> = Vec::new();
    let mut i: usize = 0;
    assert(strs_view(out@) =~= trimmed_non_empty(lv.take(0)));
    while i < n
        invariant
            n == ls@.len(),
            lv == ls@.map_values(|l: Vec<char>| l@),
            i <= n,
            strs_view(out@) == trimmed_non_empty(lv.take(i as int)),
        decreases n - i,
    {
        assert(lv.take(i + 1).drop_last() =~= lv.take(i as int));
        assert(lv.take(i + 1).last() == ls@[i as int]@);
        let t = trim_vec(&ls[i]);
        if t.len() > 0 {
            let s = string_from_chars(&t);
            proof {
                assert(strs_view(out@.push(s)) =~= strs_view(out@).push(t@));
            }
            out.push(s);
        }
        i = i + 1;
    }
    assert(lv.take(n as int) =~= lv);
    out
}

} // verus!

verus! {

/// The value of a character that is a decimal digit.
pub open spec fn digit_value(c: char) -> nat {
    ((c as u32) - ('0' as u32)) as nat
}

/// Every character is a decimal digit.
pub open spec fn all_digits(s: Seq<char>) -> bool {
    forall|i: int| 0 <= i < s.len() ==> '0' <= #[trigger] s[i] && s[i] <= '9'
}

/// The number the decimal digits `s` spell.
pub open spec fn digits_value(s: Seq<char>) -> nat
    decreases s.len(),
{
    if s.len() == 0 {
        0
    } else {
        digits_value(s.drop_last()) * 10 + digit_value(s.last())
    }
}

/// The digits of a `usize` literal as `str::parse::<usize>` reads them: the
/// text after an optional leading `+`.
pub open spec fn unsigned_digits(s: Seq<char>) -> Seq<char> {
    if s.len() > 0 && s[0] == '+' {
        s.drop_first()
    } else {
        s
    }
}

/// What `str::parse::<usize>` gives: the number, when `s` is an optional
/// `+` followed by at least one decimal digit and the number fits.
pub open spec fn spec_parse_usize(s: Seq<char>) -> Option<usize> {
    let d = unsigned_digits(s);
    if d.len() > 0 && all_digits(d) && digits_value(d) <= usize::MAX {
        Some(digits_value(d) as usize)
    } else {
        None
    }
}

proof fn lemma_digits_value_grows(s: Seq<char>, k: int)
    requires
        all_digits(s),
        0 <= k <= s.len(),
    ensures
        digits_value(s.take(k)) <= digits_value(s),
    decreases s.len() - k,
{
    if k < s.len() {
        lemma_digits_value_grows(s, k + 1);
        assert(s.take(k + 1).drop_last() =~= s.take(k));
        assert('0' <= s[k] && s[k] <= '9');
    } else {
        assert(s.take(k) =~= s);
    }
}

/// Parses a `usize` as `str::parse::<usize>` does (see `spec_parse_usize`).
pub fn parse_usize(s: &str) -> (r: Option<usize>)
    ensures
        r == spec_parse_usize(s@),
{
    let c = str_chars(s);
    let start: usize = if c.len() > 0 && c[0] == '+' {
        1
    } else {
        0
    };
    let n = c.len();
    let ghost d = unsigned_digits(s@);
    assert(d =~= c@.skip(start as int));
    if start == n {
        return None;
    }
    let mut v: usize = 0;
    let mut i: usize = start;
    assert(d.take(0) =~= Seq::<char>::empty());
    while i < n
        invariant
            n == c@.len(),
            start <= i <= n,
            d == c@.skip(start as int),
            d == unsigned_digits(s@),
            c@ == s@,
            all_digits(d.take(i - start)),
            v as nat == digits_value(d.take(i - start)),
        decreases n - i,
    {
        let ch = c[i];
        assert(d[i - start] == ch);
        if !('0' <= ch && ch <= '9') {
            proof {
                assert(!all_digits(d));
            }
            return None;
        }
        let dv = (ch as u32 - '0' as u32) as usize;
        assert(d.take(i - start + 1).drop_last() =~= d.take(i - start));
        assert(all_digits(d.take(i - start + 1)));
        match v.checked_mul(10) {
            Some(m) => {
                match m.checked_add(dv) {
                    Some(v2) => {
                        v = v2;
                    },
                    None => {
                        proof {
                            if all_digits(d) {
                                lemma_digits_value_grows(d, i - start + 1);
                            }
                        }
                        return None;
                    },
                }
            },
            None => {
                proof {
                    if all_digits(d) {
                        lemma_digits_value_grows(d, i - start + 1);
                        assert(digits_value(d.take(i - start + 1)) >= v * 10) by (nonlinear_arith)
                            requires
                                digits_value(d.take(i - start + 1)) == v * 10 + digit_value(ch),
                        ;
                    }
                }
                return None;
            },
        }
        i = i + 1;
    }
    assert(d.take(n - start) =~= d);
    Some(v)
}

} // verus!
