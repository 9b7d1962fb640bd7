//! The order of strings (`Ord for String`: character by character, by code
//! point, a prefix before its extensions), and sorting by it.

use vstd::prelude::*;

use crate::text::{str_chars, strs_view};

verus! {

broadcast use vstd::seq_lib::group_to_multiset_ensures;

/// `a` comes before `b` or equals it.
pub open spec fn lex_le(a: Seq<char>, b: Seq<char>) -> bool
    decreases a.len(),
{
    if a.len() == 0 {
        true
    } else if b.len() == 0 {
        false
    } else if a[0] != b[0] {
        (a[0] as u32) < (b[0] as u32)
    } else {
        lex_le(a.drop_first(), b.drop_first())
    }
}

/// `a` comes strictly before `b`.
pub open spec fn lex_lt(a: Seq<char>, b: Seq<char>) -> bool {
    lex_le(a, b) && a != b
}

pub proof fn lemma_lex_refl(a: Seq<char>)
    ensures
        lex_le(a, a),
    decreases a.len(),
{
    if a.len() > 0 {
        lemma_lex_refl(a.drop_first());
    }
}

pub proof fn lemma_lex_total(a: Seq<char>, b: Seq<char>)
    ensures
        lex_le(a, b) || lex_le(b, a),
    decreases a.len(),
{
    if a.len() > 0 && b.len() > 0 && a[0] == b[0] {
        lemma_lex_total(a.drop_first(), b.drop_first());
    } else if a.len() > 0 && b.len() > 0 {
        vstd::utf8::char_u32_cast(a[0], a[0] as u32);
        vstd::utf8::char_u32_cast(b[0], b[0] as u32);
    }
}

pub proof fn lemma_lex_antisym(a: Seq<char>, b: Seq<char>)
    requires
        lex_le(a, b),
        lex_le(b, a),
    ensures
        a == b,
    decreases a.len(),
{
    if a.len() == 0 {
        assert(b.len() == 0);
        assert(a =~= b);
    } else {
        assert(b.len() > 0);
        lemma_lex_antisym(a.drop_first(), b.drop_first());
        assert(a =~= seq![a[0]] + a.drop_first());
        assert(b =~= seq![b[0]] + b.drop_first());
    }
}

pub proof fn lemma_lex_trans(a: Seq<char>, b: Seq<char>, c: Seq<char>)
    requires
        lex_le(a, b),
        lex_le(b, c),
    ensures
        lex_le(a, c),
    decreases a.len(),
{
    if a.len() > 0 && b.len() > 0 && c.len() > 0 && a[0] == b[0] && b[0] == c[0] {
        lemma_lex_trans(a.drop_first(), b.drop_first(), c.drop_first());
    }
}

} // verus!

verus! {

/// Whether `a` comes before `b` or equals it (`a <= b` on strings).
pub fn str_le(a: &str, b: &str) -> (r: bool)
    ensures
        r == lex_le(a@, b@),
{
    let x = str_chars(a);
    let y = str_chars(b);
    let mut i: usize = 0;
    assert(x@.skip(0) =~= x@);
    assert(y@.skip(0) =~= y@);
    while i < x.len() && i < y.len() && x[i] == y[i]
        invariant
            i <= x@.len(),
            i <= y@.len(),
            lex_le(x@.skip(i as int), y@.skip(i as int)) == lex_le(a@, b@),
            x@ == a@,
            y@ == b@,
        decreases x@.len() - i,
    {
        assert(x@.skip(i as int).drop_first() =~= x@.skip(i + 1));
        assert(y@.skip(i as int).drop_first() =~= y@.skip(i + 1));
        i = i + 1;
    }
    if i == x.len() {
        true
    } else if i == y.len() {
        false
    } else {
        (x[i] as u32) < (y[i] as u32)
    }
}

/// The sequence is in order.
pub open spec fn sorted(s: Seq<Seq<char>>) -> bool {
    forall|i: int, j: int| 0 <= i < j < s.len() ==> lex_le(#[trigger] s[i], #[trigger] s[j])
}

/// The sequence is in strictly increasing order (so without repeats).
pub open spec fn strictly_sorted(s: Seq<Seq<char>>) -> bool {
    forall|i: int, j: int| 0 <= i < j < s.len() ==> lex_lt(#[trigger] s[i], #[trigger] s[j])
}

/// The strings in order, equal strings keeping their relative order
/// (`slice::sort`).
pub fn sort_strings(v: Vec<String>) -> (r: Vec<String>)
    ensures
        sorted(strs_view(r@)),
        strs_view(r@).to_multiset() == strs_view(v@).to_multiset(),
{
    let ghost input = strs_view(v@);
    let mut out: Vec<String> = Vec::new();
    let n = v.len();
    let mut i: usize = 0;
    assert(input.take(0) =~= Seq::<Seq<char>>::empty());
    assert(strs_view(out@) =~= Seq::<Seq<char>>::empty());
    while i < n
        invariant
            n == v@.len(),
            input == strs_view(v@),
            i <= n,
            sorted(strs_view(out@)),
            strs_view(out@).to_multiset() == input.take(i as int).to_multiset(),
        decreases n - i,
    {
        let x = v[i].clone();
        let m = out.len();
        let mut k: usize = 0;
        while k < m && str_le(out[k].as_str(), x.as_str())
            invariant
                m == out@.len(),
                k <= m,
                forall|p: int| 0 <= p < k ==> lex_le(#[trigger] strs_view(out@)[p], x@),
            decreases m - k,
        {
            k = k + 1;
        }
        let ghost before = strs_view(out@);
        proof {
            if k < m {
                lemma_lex_total(before[k as int], x@);
            }
        }
        out.insert(k, x);
        proof {
            let after = strs_view(out@);
            assert(after =~= before.insert(k as int, x@));
            assert forall|p: int, q: int| 0 <= p < q < after.len() implies lex_le(
                #[trigger] after[p],
                #[trigger] after[q],
            ) by {
                if q < k {
                    assert(after[p] == before[p] && after[q] == before[q]);
                } else if q == k {
                    assert(after[p] == before[p]);
                } else if p < k {
                    assert(after[p] == before[p] && after[q] == before[q - 1]);
                    assert(lex_le(before[p], x@));
                    lemma_lex_refl(before[k as int]);
                    assert(lex_le(before[k as int], before[q - 1]));
                    lemma_lex_trans(x@, before[k as int], before[q - 1]);
                    lemma_lex_trans(before[p], x@, before[q - 1]);
                } else if p == k {
                    assert(after[q] == before[q - 1]);
                    lemma_lex_refl(before[k as int]);
                    assert(lex_le(before[k as int], before[q - 1]));
                    lemma_lex_trans(x@, before[k as int], before[q - 1]);
                } else {
                    assert(after[p] == before[p - 1] && after[q] == before[q - 1]);
                }
            }
            vstd::seq_lib::to_multiset_insert(before, k as int, x@);
            assert(input.take(i + 1) =~= input.take(i as int).push(input[i as int]));
            assert(input[i as int] == x@);
        }
        i = i + 1;
    }
    assert(input.take(n as int) =~= input);
    out
}

/// The strings of an ordered list, each repeat of the string before it
/// removed (`Vec::dedup` on a sorted vector).
pub fn dedup_sorted(v: Vec<String>) -> (r: Vec<String>)
    requires
        sorted(strs_view(v@)),
    ensures
        strictly_sorted(strs_view(r@)),
        forall|x: Seq<char>| strs_view(r@).contains(x) <==> strs_view(v@).contains(x),
{
    let ghost input = strs_view(v@);
    let mut out: Vec<String> = Vec::new();
    let n = v.len();
    let mut i: usize = 0;
    while i < n
        invariant
            n == v@.len(),
            input == strs_view(v@),
            sorted(input),
            i <= n,
            strictly_sorted(strs_view(out@)),
            forall|x: Seq<char>|
                strs_view(out@).contains(x) <==> input.take(i as int).contains(x),
            i > 0 ==> out@.len() > 0 && strs_view(out@).last() == input[i - 1],
            out@.len() <= i,
        decreases n - i,
    {
        let ghost before = strs_view(out@);
        let x = v[i].clone();
        let fresh = if out.len() == 0 {
            true
        } else {
            let l = out.len() - 1;
            !(crate::text::str_eq(out[l].as_str(), x.as_str()))
        };
        if fresh {
            out.push(x);
        }
        proof {
            let after = strs_view(out@);
            let t1 = input.take(i + 1);
            assert(t1 =~= input.take(i as int).push(input[i as int]));
            if fresh {
                assert(after =~= before.push(x@));
                assert forall|p: int, q: int| 0 <= p < q < after.len() implies lex_lt(
                    #[trigger] after[p],
                    #[trigger] after[q],
                ) by {
                    if q == before.len() {
                        assert(after[p] == before[p]);
                        assert(after[q] == x@);
                        assert(i > 0);
                        assert(x@ == input[i as int]);
                        assert(lex_le(input[i - 1], input[i as int]));
                        assert(before.last() != x@);
                        if p == before.len() - 1 {
                            assert(before[p] == before.last());
                        } else {
                            {
                                assert(lex_lt(before[p], before.last()));
                                lemma_lex_trans(before[p], before.last(), x@);
                                if before[p] == x@ {
                                    lemma_lex_antisym(before[p], before.last());
                                }
                            }
                        }
                    } else {
                        assert(after[p] == before[p] && after[q] == before[q]);
                    }
                }
                assert forall|y: Seq<char>| after.contains(y) <==> t1.contains(y) by {
                    if after.contains(y) {
                        let j = choose|j: int| 0 <= j < after.len() && after[j] == y;
                        if j < before.len() {
                            assert(before.contains(y));
                            assert(input.take(i as int).contains(y));
                            let jj = choose|jj: int|
                                0 <= jj < input.take(i as int).len() && input.take(i as int)[jj]
                                    == y;
                            assert(t1[jj] == y);
                        } else {
                            assert(t1[i as int] == y);
                        }
                    }
                    if t1.contains(y) {
                        let j = choose|j: int| 0 <= j < t1.len() && t1[j] == y;
                        if j < i {
                            assert(input.take(i as int)[j] == y);
                            assert(before.contains(y));
                            let jj = choose|jj: int| 0 <= jj < before.len() && before[jj] == y;
                            assert(after[jj] == y);
                        } else {
                            assert(after[before.len() as int] == y);
                        }
                    }
                }
            } else {
                assert(x@ == before.last());
                assert forall|y: Seq<char>| before.contains(y) <==> t1.contains(y) by {
                    if before.contains(y) {
                        let jj = choose|jj: int|
                            0 <= jj < input.take(i as int).len() && input.take(i as int)[jj] == y;
                        assert(t1[jj] == y);
                    }
                    if t1.contains(y) {
                        let j = choose|j: int| 0 <= j < t1.len() && t1[j] == y;
                        if j < i {
                            assert(input.take(i as int)[j] == y);
                        } else {
                            assert(before[before.len() - 1] == y);
                        }
                    }
                }
            }
        }
        i = i + 1;
    }
    assert(input.take(n as int) =~= input);
    out
}

} // verus!

verus! {

/// The strictly increasing sequence holding exactly the strings of `s`.
pub open spec fn sorted_of(s: Set<Seq<char>>) -> Seq<Seq<char>> {
    choose|t: Seq<Seq<char>>| strictly_sorted(t) && t.to_set() == s
}

/// Two strictly increasing sequences holding the same strings are equal.
pub proof fn lemma_strictly_sorted_unique(a: Seq<Seq<char>>, b: Seq<Seq<char>>)
    requires
        strictly_sorted(a),
        strictly_sorted(b),
        forall|x: Seq<char>| a.contains(x) <==> b.contains(x),
    ensures
        a == b,
    decreases a.len(),
{
    if a.len() == 0 {
        if b.len() > 0 {
            assert(b.contains(b[0]));
        }
        assert(a =~= b);
    } else {
        assert(a.contains(a[0]));
        assert(b.len() > 0);
        assert(b.contains(b[0]));
        let k = choose|k: int| 0 <= k < b.len() && b[k] == a[0];
        let m = choose|m: int| 0 <= m < a.len() && a[m] == b[0];
        if k > 0 {
            assert(lex_lt(b[0], b[k]));
            if m > 0 {
                assert(lex_lt(a[0], a[m]));
                lemma_lex_antisym(a[0], b[0]);
            }
        }
        assert(a[0] == b[0]);
        let a1 = a.drop_first();
        let b1 = b.drop_first();
        assert forall|i: int, j: int| 0 <= i < j < a1.len() implies lex_lt(
            #[trigger] a1[i],
            #[trigger] a1[j],
        ) by {
            assert(a1[i] == a[i + 1] && a1[j] == a[j + 1]);
        }
        assert forall|i: int, j: int| 0 <= i < j < b1.len() implies lex_lt(
            #[trigger] b1[i],
            #[trigger] b1[j],
        ) by {
            assert(b1[i] == b[i + 1] && b1[j] == b[j + 1]);
        }
        assert forall|x: Seq<char>| a1.contains(x) <==> b1.contains(x) by {
            if a1.contains(x) {
                let i = choose|i: int| 0 <= i < a1.len() && a1[i] == x;
                assert(a[i + 1] == x);
                assert(lex_lt(a[0], a[i + 1]));
                assert(a.contains(x));
                let j = choose|j: int| 0 <= j < b.len() && b[j] == x;
                assert(j != 0);
                assert(b1[j - 1] == x);
            }
            if b1.contains(x) {
                let i = choose|i: int| 0 <= i < b1.len() && b1[i] == x;
                assert(b[i + 1] == x);
                assert(lex_lt(b[0], b[i + 1]));
                assert(b.contains(x));
                let j = choose|j: int| 0 <= j < a.len() && a[j] == x;
                assert(j != 0);
                assert(a1[j - 1] == x);
            }
        }
        lemma_strictly_sorted_unique(a1, b1);
        assert(a =~= seq![a[0]] + a1);
        assert(b =~= seq![b[0]] + b1);
    }
}

/// A strictly increasing sequence is the one `sorted_of` picks for its
/// strings.
pub proof fn lemma_sorted_of(t: Seq<Seq<char>>)
    requires
        strictly_sorted(t),
    ensures
        sorted_of(t.to_set()) == t,
{
    let u = sorted_of(t.to_set());
    assert(strictly_sorted(u) && u.to_set() == t.to_set());
    assert forall|x: Seq<char>| u.contains(x) <==> t.contains(x) by {
        assert(u.to_set().contains(x) == u.contains(x));
        assert(t.to_set().contains(x) == t.contains(x));
    }
    lemma_strictly_sorted_unique(u, t);
}

} // verus!

verus! {

/// The sequence of the strings of `s` in order, repeats kept.
pub open spec fn sorted_perm(s: Seq<Seq<char>>) -> Seq<Seq<char>> {
    choose|t: Seq<Seq<char>>| sorted(t) && t.to_multiset() == s.to_multiset()
}

/// Two ordered sequences holding the same strings the same number of times
/// are equal.
pub proof fn lemma_sorted_perm_unique(a: Seq<Seq<char>>, b: Seq<Seq<char>>)
    requires
        sorted(a),
        sorted(b),
        a.to_multiset() == b.to_multiset(),
    ensures
        a == b,
    decreases a.len(),
{
    vstd::seq_lib::to_multiset_len(a);
    vstd::seq_lib::to_multiset_len(b);
    if a.len() == 0 {
        assert(a =~= b);
    } else {
        let x = a.last();
        let y = b.last();
        vstd::seq_lib::to_multiset_contains(a, x);
        vstd::seq_lib::to_multiset_contains(b, x);
        vstd::seq_lib::to_multiset_contains(a, y);
        vstd::seq_lib::to_multiset_contains(b, y);
        let i = choose|i: int| 0 <= i < b.len() && b[i] == x;
        let j = choose|j: int| 0 <= j < a.len() && a[j] == y;
        if i < b.len() - 1 {
            assert(lex_le(b[i], b[b.len() - 1]));
        } else {
            lemma_lex_refl(x);
        }
        if j < a.len() - 1 {
            assert(lex_le(a[j], a[a.len() - 1]));
        } else {
            lemma_lex_refl(y);
        }
        lemma_lex_antisym(x, y);
        let a1 = a.drop_last();
        let b1 = b.drop_last();
        assert(a =~= a1.push(x));
        assert(b =~= b1.push(x));
        vstd::seq_lib::to_multiset_build(a1, x);
        vstd::seq_lib::to_multiset_build(b1, x);
        assert(a1.to_multiset() =~= b1.to_multiset()) by {
            assert(a1.to_multiset().insert(x) == b1.to_multiset().insert(x));
            assert forall|z: Seq<char>| a1.to_multiset().count(z) == b1.to_multiset().count(z) by {
                assert(a1.to_multiset().insert(x).count(z) == b1.to_multiset().insert(x).count(z));
            }
        }
        assert forall|p: int, q: int| 0 <= p < q < a1.len() implies lex_le(
            #[trigger] a1[p],
            #[trigger] a1[q],
        ) by {
            assert(a1[p] == a[p] && a1[q] == a[q]);
        }
        assert forall|p: int, q: int| 0 <= p < q < b1.len() implies lex_le(
            #[trigger] b1[p],
            #[trigger] b1[q],
        ) by {
            assert(b1[p] == b[p] && b1[q] == b[q]);
        }
        lemma_sorted_perm_unique(a1, b1);
    }
}

/// An ordered sequence is the one `sorted_perm` picks for its strings.
pub proof fn lemma_sorted_perm(s: Seq<Seq<char>>, t: Seq<Seq<char>>)
    requires
        sorted(t),
        t.to_multiset() == s.to_multiset(),
    ensures
        sorted_perm(s) == t,
{
    let u = sorted_perm(s);
    assert(sorted(u) && u.to_multiset() == s.to_multiset());
    lemma_sorted_perm_unique(u, t);
}

} // verus!

verus! {

/// `x` put into the ordered sequence `t` at its place.
pub open spec fn insert_sorted(t: Seq<Seq<char>>, x: Seq<char>) -> Seq<Seq<char>>
    decreases t.len(),
{
    if t.len() == 0 {
        seq![x]
    } else if lex_lt(x, t[0]) {
        seq![x] + t
    } else {
        seq![t[0]] + insert_sorted(t.drop_first(), x)
    }
}

proof fn lemma_lex_lt_trans(a: Seq<char>, b: Seq<char>, c: Seq<char>)
    requires
        lex_lt(a, b),
        lex_lt(b, c),
    ensures
        lex_lt(a, c),
{
    lemma_lex_trans(a, b, c);
    if a == c {
        lemma_lex_antisym(a, b);
    }
}

proof fn lemma_insert_sorted(t: Seq<Seq<char>>, x: Seq<char>)
    requires
        strictly_sorted(t),
        !t.contains(x),
    ensures
        strictly_sorted(insert_sorted(t, x)),
        forall|y: Seq<char>|
            #[trigger] insert_sorted(t, x).contains(y) <==> (t.contains(y) || y == x),
    decreases t.len(),
{
    let r = insert_sorted(t, x);
    if t.len() == 0 {
        assert(r[0] == x);
    } else if lex_lt(x, t[0]) {
        assert forall|i: int, j: int| 0 <= i < j < r.len() implies lex_lt(
            #[trigger] r[i],
            #[trigger] r[j],
        ) by {
            if i == 0 {
                if j > 1 {
                    lemma_lex_lt_trans(x, t[0], t[j - 1]);
                }
            } else {
                assert(r[i] == t[i - 1] && r[j] == t[j - 1]);
            }
        }
        assert forall|y: Seq<char>| #[trigger] r.contains(y) <==> (t.contains(y) || y == x) by {
            if r.contains(y) {
                let k = choose|k: int| 0 <= k < r.len() && r[k] == y;
                if k > 0 {
                    assert(t[k - 1] == y);
                }
            }
            if t.contains(y) {
                let k = choose|k: int| 0 <= k < t.len() && t[k] == y;
                assert(r[k + 1] == y);
            }
            if y == x {
                assert(r[0] == x);
            }
        }
    } else {
        let t1 = t.drop_first();
        assert forall|i: int, j: int| 0 <= i < j < t1.len() implies lex_lt(
            #[trigger] t1[i],
            #[trigger] t1[j],
        ) by {
            assert(t1[i] == t[i + 1] && t1[j] == t[j + 1]);
        }
        assert(!t1.contains(x)) by {
            if t1.contains(x) {
                let k = choose|k: int| 0 <= k < t1.len() && t1[k] == x;
                assert(t[k + 1] == x);
            }
        }
        lemma_insert_sorted(t1, x);
        let r1 = insert_sorted(t1, x);
        lemma_lex_total(x, t[0]);
        assert(t[0] != x) by {
            if t[0] == x {
                assert(t.contains(x));
            }
        }
        assert(lex_lt(t[0], x));
        assert forall|i: int, j: int| 0 <= i < j < r.len() implies lex_lt(
            #[trigger] r[i],
            #[trigger] r[j],
        ) by {
            if i == 0 {
                assert(r[j] == r1[j - 1]);
                assert(r1.contains(r1[j - 1]));
                if r1[j - 1] != x {
                    assert(t1.contains(r1[j - 1]));
                    let k = choose|k: int| 0 <= k < t1.len() && t1[k] == r1[j - 1];
                    assert(t[k + 1] == r1[j - 1]);
                }
            } else {
                assert(r[i] == r1[i - 1] && r[j] == r1[j - 1]);
            }
        }
        assert forall|y: Seq<char>| #[trigger] r.contains(y) <==> (t.contains(y) || y == x) by {
            if r.contains(y) {
                let k = choose|k: int| 0 <= k < r.len() && r[k] == y;
                if k > 0 {
                    assert(r1[k - 1] == y);
                    assert(r1.contains(y));
                    if t1.contains(y) {
                        let m = choose|m: int| 0 <= m < t1.len() && t1[m] == y;
                        assert(t[m + 1] == y);
                    }
                }
            }
            if t.contains(y) {
                let k = choose|k: int| 0 <= k < t.len() && t[k] == y;
                if k > 0 {
                    assert(t1[k - 1] == y);
                    assert(r1.contains(y));
                    let m = choose|m: int| 0 <= m < r1.len() && r1[m] == y;
                    assert(r[m + 1] == y);
                } else {
                    assert(r[0] == y);
                }
            }
            if y == x {
                assert(r1.contains(x));
                let m = choose|m: int| 0 <= m < r1.len() && r1[m] == x;
                assert(r[m + 1] == x);
            }
        }
    }
}

/// Every finite set of strings has an ordered sequence holding exactly its
/// strings, each once; `sorted_of` is that sequence.
pub proof fn lemma_sorted_of_finite(s: Set<Seq<char>>)
    requires
        s.finite(),
    ensures
        strictly_sorted(sorted_of(s)),
        sorted_of(s).to_set() == s,
    decreases s.len(),
{
    if s.len() == 0 {
        vstd::set_lib::lemma_set_empty_equivalency_len(s);
        let e = Seq::<Seq<char>>::empty();
        assert(e.to_set() =~= s);
        assert(strictly_sorted(e));
    } else {
        vstd::set::axiom_set_choose_len(s);
        let x = s.choose();
        let s1 = s.remove(x);
        vstd::set::axiom_set_remove_finite(s, x);
        vstd::set::axiom_set_remove_len(s, x);
        lemma_sorted_of_finite(s1);
        let t = sorted_of(s1);
        assert(!t.contains(x)) by {
            assert(t.to_set().contains(x) == t.contains(x));
        }
        lemma_insert_sorted(t, x);
        let r = insert_sorted(t, x);
        assert(r.to_set() =~= s) by {
            assert forall|y: Seq<char>| r.to_set().contains(y) <==> s.contains(y) by {
                assert(r.to_set().contains(y) == r.contains(y));
                assert(t.to_set().contains(y) == t.contains(y));
            }
        }
    }
}

} // verus!

