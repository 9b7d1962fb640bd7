//! The command history: the lines entered, and how many of them have already
//! been written to a history file.

use vstd::prelude::*;

use crate::text::{lines, lines_from, push_str, spec_lines, string_from_chars, strip_cr, strs_view};

verus! {

/// The recorded command lines, most recent last, and how many of them have
/// been written to a history file by `history -w` / `history -a`.
pub struct History {
    entries: Vec<String>,
    flushed: usize,
}

/// A history as plain values.
pub struct HistoryView {
    pub entries: Seq<Seq<char>>,
    pub flushed: nat,
}

impl View for History {
    type V = HistoryView;

    closed spec fn view(&self) -> HistoryView {
        HistoryView { entries: strs_view(self.entries@), flushed: self.flushed as nat }
    }
}

/// The lines that are not empty, in order.
pub open spec fn non_empty(ls: Seq<Seq<char>>) -> Seq<Seq<char>>
    decreases ls.len(),
{
    if ls.len() == 0 {
        Seq::empty()
    } else if ls.last().len() == 0 {
        non_empty(ls.drop_last())
    } else {
        non_empty(ls.drop_last()).push(ls.last())
    }
}

/// The text of a history file holding `entries`: one entry per line, each
/// followed by a newline.
pub open spec fn spec_render(entries: Seq<Seq<char>>) -> Seq<char>
    decreases entries.len(),
{
    if entries.len() == 0 {
        Seq::empty()
    } else {
        spec_render(entries.drop_last()) + entries.last() + seq!['\n']
    }
}

/// The entries not yet written to a history file.
pub open spec fn pending(h: HistoryView) -> Seq<Seq<char>> {
    if h.flushed <= h.entries.len() {
        h.entries.skip(h.flushed as int)
    } else {
        Seq::empty()
    }
}

impl History {
    /// An empty history.
    pub fn new() -> (h: Self)
        ensures
            h@.entries == Seq::<Seq<char>>::empty(),
            h@.flushed == 0,
    {
        let h = History { entries: Vec::new(), flushed: 0 };
        assert(h@.entries =~= Seq::<Seq<char>>::empty());
        h
    }

    /// Appends every non-empty line of `content` to the history, in order
    /// (like bash's `history -r` on a file holding `content`); empty lines
    /// are skipped, and a line of spaces is kept. Returns the number of
    /// entries added.
    pub fn load_lines(&mut self, content: &str) -> (added: usize)
        ensures
            final(self)@.entries == old(self)@.entries + non_empty(spec_lines(content@)),
            final(self)@.flushed == old(self)@.flushed,
            added == non_empty(spec_lines(content@)).len(),
    {
        let ls = lines(content);
        let ghost lv = ls@.map_values(|l: Vec<char>| l@);
        let ghost start = strs_view(self.entries@);
        let n = ls.len();
        let mut added: usize = 0;
        let mut i: usize = 0;
        assert(lv.take(0) =~= Seq::<Seq<char>>::empty());
        assert(start + Seq::<Seq<char>>::empty() =~= start);
        while i < n
            invariant
                n == ls@.len(),
                lv == ls@.map_values(|l: Vec<char>| l@),
                i <= n,
                strs_view(self.entries@) == start + non_empty(lv.take(i as int)),
                added == non_empty(lv.take(i as int)).len(),
                added <= i,
                self.flushed == old(self).flushed,
            decreases n - i,
        {
            assert(lv.take(i + 1).drop_last() =~= lv.take(i as int));
            assert(lv.take(i + 1).last() == ls@[i as int]@);
            if ls[i].len() > 0 {
                let line = string_from_chars(&ls[i]);
                proof {
                    assert(strs_view(self.entries@.push(line)) =~= strs_view(self.entries@).push(
                        line@,
                    ));
                }
                self.entries.push(line);
                added = added + 1;
            }
            i = i + 1;
        }
        assert(lv.take(n as int) =~= lv);
        added
    }

    /// The text `history -w` writes: every entry.
    pub fn save_contents(&self) -> (text: String)
        ensures
            text@ == spec_render(self@.entries),
    {
        render(&self.entries)
    }

    /// The text `history -a` appends: the entries not yet written.
    pub fn append_contents(&self) -> (text: String)
        ensures
            text@ == spec_render(pending(self@)),
    {
        let n = self.entries.len();
        let start = if self.flushed < n {
            self.flushed
        } else {
            n
        };
        let mut rest: Vec<String> = Vec::new();
        let mut i: usize = start;
        assert(strs_view(rest@) =~= strs_view(self.entries@).subrange(start as int, start as int));
        while i < n
            invariant
                n == self.entries@.len(),
                start <= i <= n,
                strs_view(rest@) == strs_view(self.entries@).subrange(start as int, i as int),
            decreases n - i,
        {
            let e = self.entries[i].clone();
            proof {
                assert(e@ == strs_view(self.entries@)[i as int]);
                assert(strs_view(rest@.push(e)) =~= strs_view(rest@).push(e@));
                assert(strs_view(self.entries@).subrange(start as int, i as int).push(e@)
                    =~= strs_view(self.entries@).subrange(
                    start as int,
                    i + 1,
                ));
            }
            rest.push(e);
            i = i + 1;
        }
        assert(strs_view(self.entries@).subrange(start as int, n as int) =~= pending(self@));
        render(&rest)
    }

    /// Marks every entry as written to a history file (after a successful
    /// `history -w` or `history -a`).
    pub fn mark_flushed(&mut self)
        ensures
            final(self)@.entries == old(self)@.entries,
            final(self)@.flushed == old(self)@.entries.len(),
    {
        self.flushed = self.entries.len();
    }
}

/// Records a command line as it was entered.
pub fn record(history: &mut History, line: &str)
    ensures
        final(history)@.entries == old(history)@.entries.push(line@),
        final(history)@.flushed == old(history)@.flushed,
{
    let s = line.to_owned();
    proof {
        assert(strs_view(history.entries@.push(s)) =~= strs_view(history.entries@).push(line@));
    }
    history.entries.push(s);
}

/// The recorded command lines, most recent last.
pub fn list(history: &History) -> (r: Vec<String>)
    ensures
        strs_view(r@) == history@.entries,
{
    history.entries.clone()
}

/// Formats history entries as one command per line, each with a trailing
/// newline.
pub fn render(entries: &Vec<String>) -> (text: String)
    ensures
        text@ == spec_render(strs_view(entries@)),
{
    let mut content: Vec<char> = Vec::new();
    let n = entries.len();
    let mut i: usize = 0;
    let ghost ev = strs_view(entries@);
    assert(ev.take(0) =~= Seq::<Seq<char>>::empty());
    while i < n
        invariant
            n == entries@.len(),
            ev == strs_view(entries@),
            i <= n,
            content@ == spec_render(ev.take(i as int)),
        decreases n - i,
    {
        push_str(&mut content, entries[i].as_str());
        content.push('\n');
        assert(ev.take(i + 1).drop_last() =~= ev.take(i as int));
        i = i + 1;
    }
    assert(ev.take(n as int) =~= ev);
    string_from_chars(&content)
}

} // verus!

verus! {

proof fn lemma_render_concat(a: Seq<Seq<char>>, b: Seq<Seq<char>>)
    ensures
        spec_render(a + b) == spec_render(a) + spec_render(b),
    decreases b.len(),
{
    if b.len() == 0 {
        assert(a + b =~= a);
        assert(spec_render(a) + spec_render(b) =~= spec_render(a));
    } else {
        lemma_render_concat(a, b.drop_last());
        assert((a + b).drop_last() =~= a + b.drop_last());
        assert((a + b).last() == b.last());
        assert(spec_render(a + b) =~= spec_render(a) + spec_render(b));
    }
}

/// Law: what `history -w` wrote for the first `flushed` entries, followed by
/// what `history -a` appends afterwards, is the whole history, each entry
/// once and in order.
pub proof fn lemma_save_then_append(h: HistoryView)
    requires
        h.flushed <= h.entries.len(),
    ensures
        spec_render(h.entries.take(h.flushed as int)) + spec_render(pending(h)) == spec_render(
            h.entries,
        ),
{
    lemma_render_concat(h.entries.take(h.flushed as int), h.entries.skip(h.flushed as int));
    assert(h.entries.take(h.flushed as int) + h.entries.skip(h.flushed as int) =~= h.entries);
}

/// Law: once every entry is marked written, `history -a` appends nothing.
pub proof fn lemma_nothing_pending_after_flush(h: HistoryView)
    requires
        h.flushed == h.entries.len(),
    ensures
        spec_render(pending(h)) == Seq::<char>::empty(),
{
    assert(pending(h) =~= Seq::<Seq<char>>::empty());
}

proof fn lemma_lines_shift(s: Seq<char>, d: int, i: int, c: Seq<char>, a: Seq<Seq<char>>)
    requires
        0 <= d <= s.len(),
        0 <= i,
    ensures
        lines_from(s, d + i, c, a) == lines_from(s.skip(d), i, c, a),
    decreases s.len() - d - i,
{
    if d + i >= s.len() {
    } else {
        assert(s.skip(d)[i] == s[d + i]);
        if s[d + i] == '\n' {
            lemma_lines_shift(s, d, i + 1, Seq::empty(), a.push(strip_cr(c)));
        } else {
            lemma_lines_shift(s, d, i + 1, c.push(s[d + i]), a);
        }
    }
}

proof fn lemma_lines_segment(s: Seq<char>, i: int, j: int, c: Seq<char>, a: Seq<Seq<char>>)
    requires
        0 <= i <= j <= s.len(),
        forall|k: int| i <= k < j ==> s[k] != '\n',
    ensures
        lines_from(s, i, c, a) == lines_from(s, j, c + s.subrange(i, j), a),
    decreases j - i,
{
    if i == j {
        assert(c + s.subrange(i, j) =~= c);
    } else {
        lemma_lines_segment(s, i + 1, j, c.push(s[i]), a);
        assert(c.push(s[i]) + s.subrange(i + 1, j) =~= c + s.subrange(i, j));
    }
}

/// Every entry can be written on a line of its own and read back as is:
/// no newline in it, no carriage return at its end, and not empty.
pub open spec fn line_safe(e: Seq<char>) -> bool {
    &&& !e.contains('\n')
    &&& !(e.len() > 0 && e.last() == '\r')
    &&& e.len() > 0
}

proof fn lemma_lines_of_render(es: Seq<Seq<char>>, a: Seq<Seq<char>>)
    requires
        forall|k: int| 0 <= k < es.len() ==> line_safe(#[trigger] es[k]),
    ensures
        lines_from(spec_render(es), 0, Seq::empty(), a) == a + es,
    decreases es.len(),
{
    if es.len() == 0 {
        assert(a + es =~= a);
    } else {
        let first = es[0];
        let rest = es.skip(1);
        lemma_render_concat(seq![first], rest);
        assert(seq![first] + rest =~= es);
        assert(spec_render(seq![first]) =~= first + seq!['\n']) by {
            assert(seq![first].drop_last() =~= Seq::<Seq<char>>::empty());
            assert(spec_render(Seq::<Seq<char>>::empty()) =~= Seq::<char>::empty());
            assert(seq![first].last() == first);
            assert(Seq::<char>::empty() + first =~= first);
        }
        let t = spec_render(es);
        let k = first.len() as int;
        assert(line_safe(es[0]));
        assert(t =~= first + seq!['\n'] + spec_render(rest));
        assert forall|m: int| 0 <= m < k implies t[m] != '\n' by {
            assert(t[m] == first[m]);
            if first[m] == '\n' {
                assert(first.contains('\n'));
            }
        }
        lemma_lines_segment(t, 0, k, Seq::empty(), a);
        assert(Seq::<char>::empty() + t.subrange(0, k) =~= first);
        assert(t[k] == '\n');
        assert(strip_cr(first) == first);
        lemma_lines_shift(t, k + 1, 0, Seq::empty(), a.push(first));
        assert(t.skip(k + 1) =~= spec_render(rest));
        lemma_lines_of_render(rest, a.push(first));
        assert(a.push(first) + rest =~= a + es);
    }
}

proof fn lemma_non_empty_all(es: Seq<Seq<char>>)
    requires
        forall|k: int| 0 <= k < es.len() ==> line_safe(#[trigger] es[k]),
    ensures
        non_empty(es) == es,
    decreases es.len(),
{
    if es.len() > 0 {
        assert(line_safe(es[es.len() - 1]));
        lemma_non_empty_all(es.drop_last());
        assert(es.drop_last().push(es.last()) =~= es);
    }
}

/// Law: loading the text that `history -w` writes gives back every entry,
/// in order, when no entry holds a newline, ends with a carriage return, or
/// is empty.
pub proof fn lemma_load_reads_back_save(es: Seq<Seq<char>>)
    requires
        forall|k: int| 0 <= k < es.len() ==> line_safe(#[trigger] es[k]),
    ensures
        non_empty(spec_lines(spec_render(es))) == es,
{
    lemma_lines_of_render(es, Seq::empty());
    assert(Seq::<Seq<char>>::empty() + es =~= es);
    lemma_non_empty_all(es);
}

} // verus!
