//! Laws of the dictionaries, the passes and the formatter.
use vstd::prelude::*;
use crate::dictionary::{learn, wrap};
use crate::format::{
    blank, consume, entry_body, entry_split_from, filtered, flushed, format_from, format_text,
    has_date, header,
};
use crate::passes::parens_from;
use crate::text::{
    is_white, lemma_line_end_bounds, lemma_trim_idempotent, lemma_trim_start_fixed, line_end, trim,
    trim_end, word_char, word_run,
};

verus! {

/// Looking the same term up twice learns it once: an unknown term is
/// recorded by the first lookup, and the second lookup finds that one entry
/// and adds none. Both lookups give the same result, which for an unknown
/// term is the trimmed term itself, not its placeholder.
pub proof fn lemma_learning_idempotent(m: Map<Seq<char>, Seq<char>>, term: Seq<char>)
    ensures
        ({
            let k = trim(term);
            let (r1, m1) = learn(m, term);
            let (r2, m2) = learn(m1, term);
            &&& m2 == m1
            &&& r2 == r1
            &&& m1.dom() == m.dom().insert(k)
            &&& m1.contains_key(k)
            &&& !m.contains_key(k) ==> r1 == k && r2 == k && m1 == m.insert(k, wrap(k))
            &&& m.contains_key(k) ==> m1 == m
        }),
{
    let k = trim(term);
    if m.contains_key(k) {
        assert(m.dom().insert(k) =~= m.dom());
    } else {
        assert(m.insert(k, wrap(k)).dom() =~= m.dom().insert(k));
    }
}

/// A term and its trimmed form resolve to the same entry, with the same
/// result and the same dictionary after the lookup.
pub proof fn lemma_trim_normalization(m: Map<Seq<char>, Seq<char>>, term: Seq<char>)
    ensures
        learn(m, term) == learn(m, trim(term)),
{
    lemma_trim_idempotent(term);
}

/// A named-entry line followed at once by a date-header line: the entry the
/// first line opens is written out whole, with a blank line after it, and
/// then the header; no entry stays open.
pub proof fn lemma_header_flush(out: Seq<char>, cur: Seq<char>, named: Seq<char>, date: Seq<char>)
    requires
        trim(named).len() > 0,
        !filtered(trim(named)),
        !has_date(trim(named)),
        entry_split_from(trim(named), 1) is Some,
        trim(date).len() > 0,
        !filtered(trim(date)),
        has_date(trim(date)),
    ensures
        ({
            let body = entry_body(trim(named), entry_split_from(trim(named), 1)->0);
            let (o1, c1) = consume(out, cur, named);
            let (o2, c2) = consume(o1, c1, date);
            &&& c1 == body
            &&& o1 == flushed(out, cur)
            &&& o2 == flushed(out, cur) + body + blank() + header(trim(date))
            &&& c2.len() == 0
        }),
{
}

/// A line that is a lone dash or starts with `Rs.`, once trimmed, changes
/// nothing: it is not written, and an open entry stays open as it was.
pub proof fn lemma_filtered_line_skipped(out: Seq<char>, cur: Seq<char>, l: Seq<char>)
    requires
        filtered(trim(l)),
    ensures
        consume(out, cur, l) == (out, cur),
{
}

proof fn lemma_word_run_of_word(s: Seq<char>, w: Seq<char>, k: int)
    requires
        s == seq!['('] + w + seq![')'],
        forall|i: int| 0 <= i < w.len() ==> word_char(#[trigger] w[i]),
        !word_char(')'),
        1 <= k <= w.len() + 1,
    ensures
        word_run(s, k) == w.len() + 1,
    decreases w.len() + 1 - k,
{
    if k <= w.len() {
        assert(s[k] == w[k - 1]);
        lemma_word_run_of_word(s, w, k + 1);
    } else {
        assert(s[k] == ')');
    }
}

/// A parenthesized word with no entry in the dictionary comes out of the
/// parenthetical pass as it went in, and a placeholder is recorded for it.
pub proof fn lemma_parenthetical_round_trip(m: Map<Seq<char>, Seq<char>>, w: Seq<char>)
    requires
        w.len() > 0,
        forall|i: int| 0 <= i < w.len() ==> word_char(#[trigger] w[i]) && !is_white(w[i]),
        !word_char(')'),
        !m.contains_key(w),
    ensures
        parens_from(m, seq!['('] + w + seq![')'], 0) == (seq!['('] + w + seq![')'], m.insert(
            w,
            wrap(w),
        )),
{
    let s = seq!['('] + w + seq![')'];
    assert(s[0] == '(');
    lemma_word_run_of_word(s, w, 1);
    assert(s.subrange(1, w.len() as int + 1) =~= w);
    lemma_trim_start_fixed(w);
    assert(trim_end(w) == w);
    assert(trim(w) == w);
    let m2 = m.insert(w, wrap(w));
    assert(parens_from(m2, s, w.len() as int + 2) == (Seq::<char>::empty(), m2));
    assert(seq!['('] + w + seq![')'] + Seq::<char>::empty() =~= s);
}

/// What a line that continues an open entry adds to it: nothing for an
/// empty or left-out line, otherwise a space and the trimmed line.
pub open spec fn appended(t: Seq<char>) -> Seq<char> {
    if t.len() == 0 || filtered(t) {
        seq![]
    } else {
        seq![' '] + t
    }
}

/// Whether a trimmed line continues an open entry: it is empty, left out,
/// or neither a date header nor a named entry.
pub open spec fn continues(t: Seq<char>) -> bool {
    t.len() == 0 || filtered(t) || (!has_date(t) && entry_split_from(t, 1) is None)
}

/// Whether every line of `s` from the line that starts at `i` continues an
/// open entry.
pub open spec fn continues_from(s: Seq<char>, i: int) -> bool
    decreases s.len() - i,
{
    if i < 0 || i > s.len() {
        true
    } else {
        let e = line_end(s, i);
        proof {
            lemma_line_end_bounds(s, i);
        }
        continues(trim(s.subrange(i, e))) && (e < s.len() ==> continues_from(s, e + 1))
    }
}

/// What the lines of `s` from the line that starts at `i` add to an open
/// entry, in order.
pub open spec fn appended_from(s: Seq<char>, i: int) -> Seq<char>
    decreases s.len() - i,
{
    if i < 0 || i > s.len() {
        seq![]
    } else {
        let e = line_end(s, i);
        proof {
            lemma_line_end_bounds(s, i);
        }
        let a = appended(trim(s.subrange(i, e)));
        if e < s.len() {
            a + appended_from(s, e + 1)
        } else {
            a
        }
    }
}

proof fn lemma_line_end_at(s: Seq<char>, i: int, j: int)
    requires
        0 <= i <= j <= s.len(),
        forall|k: int| i <= k < j ==> #[trigger] s[k] != '\n',
        j == s.len() || s[j] == '\n',
    ensures
        line_end(s, i) == j,
    decreases j - i,
{
    if i < j {
        lemma_line_end_at(s, i + 1, j);
    }
}

/// The formatter from a position depends only on the text from there on.
proof fn lemma_format_suffix(
    s1: Seq<char>,
    i1: int,
    s2: Seq<char>,
    i2: int,
    out: Seq<char>,
    cur: Seq<char>,
)
    requires
        0 <= i1 <= s1.len(),
        0 <= i2 <= s2.len(),
        s1.subrange(i1, s1.len() as int) == s2.subrange(i2, s2.len() as int),
    ensures
        format_from(s1, i1, out, cur) == format_from(s2, i2, out, cur),
    decreases s1.len() - i1,
{
    let t1 = s1.subrange(i1, s1.len() as int);
    let t2 = s2.subrange(i2, s2.len() as int);
    assert(t1.len() == t2.len());
    lemma_line_end_bounds(s1, i1);
    let e1 = line_end(s1, i1);
    let d = e1 - i1;
    assert forall|k: int| i2 <= k < i2 + d implies #[trigger] s2[k] != '\n' by {
        assert(s2[k] == t2[k - i2]);
        assert(s1[k - i2 + i1] == t1[k - i2]);
    }
    if e1 < s1.len() {
        assert(s2[i2 + d] == t2[d]);
        assert(s1[e1] == t1[d]);
    }
    lemma_line_end_at(s2, i2, i2 + d);
    assert(s1.subrange(i1, e1) =~= t1.subrange(0, d));
    assert(s2.subrange(i2, i2 + d) =~= t2.subrange(0, d));
    let (o2, c2) = consume(out, cur, s1.subrange(i1, e1));
    if e1 < s1.len() {
        assert(s1.subrange(e1 + 1, s1.len() as int) =~= t1.subrange(d + 1, t1.len() as int));
        assert(s2.subrange(i2 + d + 1, s2.len() as int) =~= t2.subrange(d + 1, t2.len() as int));
        lemma_format_suffix(s1, e1 + 1, s2, i2 + d + 1, o2, c2);
    }
}

proof fn lemma_format_skip_inserted(
    a: Seq<char>,
    f: Seq<char>,
    b: Seq<char>,
    i: int,
    out: Seq<char>,
    cur: Seq<char>,
)
    requires
        a.len() == 0 || a.last() == '\n',
        forall|k: int| 0 <= k < f.len() ==> #[trigger] f[k] != '\n',
        filtered(trim(f)),
        0 <= i <= a.len(),
    ensures
        format_from(a + f + seq!['\n'] + b, i, out, cur) == format_from(a + b, i, out, cur),
    decreases a.len() - i,
{
    let s2 = a + f + seq!['\n'] + b;
    let s1 = a + b;
    if i < a.len() {
        lemma_line_end_bounds(a, i);
        let e = line_end(a, i);
        assert(e < a.len()) by {
            if e == a.len() {
                assert(a[a.len() - 1] != '\n');
            }
        }
        assert forall|k: int| i <= k < e implies #[trigger] s1[k] != '\n' by {
            assert(s1[k] == a[k]);
        }
        assert forall|k: int| i <= k < e implies #[trigger] s2[k] != '\n' by {
            assert(s2[k] == a[k]);
        }
        assert(s1[e] == a[e]);
        assert(s2[e] == a[e]);
        lemma_line_end_at(s1, i, e);
        lemma_line_end_at(s2, i, e);
        assert(s1.subrange(i, e) =~= a.subrange(i, e));
        assert(s2.subrange(i, e) =~= a.subrange(i, e));
        let (o2, c2) = consume(out, cur, a.subrange(i, e));
        lemma_format_skip_inserted(a, f, b, e + 1, o2, c2);
    } else {
        let j = a.len() + f.len() as int;
        assert forall|k: int| i <= k < j implies #[trigger] s2[k] != '\n' by {
            assert(s2[k] == f[k - i]);
        }
        assert(s2[j] == '\n');
        lemma_line_end_at(s2, i, j);
        assert(s2.subrange(i, j) =~= f);
        assert(consume(out, cur, f) == (out, cur));
        assert(s2.subrange(j + 1, s2.len() as int) =~= b);
        assert(s1.subrange(i, s1.len() as int) =~= b);
        lemma_format_suffix(s2, j + 1, s1, i, out, cur);
    }
}

/// A left-out line (a lone dash, or a line that starts with `Rs.`, once
/// trimmed) put anywhere between the lines of a text leaves the message as
/// it was: the line is not written and does not close an open entry.
pub proof fn lemma_filtered_line_ignored(a: Seq<char>, f: Seq<char>, b: Seq<char>)
    requires
        a.len() == 0 || a.last() == '\n',
        forall|k: int| 0 <= k < f.len() ==> #[trigger] f[k] != '\n',
        filtered(trim(f)),
    ensures
        format_text(a + f + seq!['\n'] + b) == format_text(a + b),
{
    lemma_format_skip_inserted(a, f, b, 0, seq![], seq![]);
}

proof fn lemma_format_continues(s: Seq<char>, i: int, out: Seq<char>, cur: Seq<char>)
    requires
        0 <= i <= s.len(),
        cur.len() > 0,
        continues_from(s, i),
    ensures
        format_from(s, i, out, cur) == out + cur + appended_from(s, i) + blank(),
    decreases s.len() - i,
{
    lemma_line_end_bounds(s, i);
    let e = line_end(s, i);
    let t = trim(s.subrange(i, e));
    assert(cur + seq![' '] + t =~= cur + (seq![' '] + t));
    assert(cur + seq![] =~= cur);
    assert(consume(out, cur, s.subrange(i, e)) == (out, cur + appended(t)));
    if e < s.len() {
        lemma_format_continues(s, e + 1, out, cur + appended(t));
        assert(out + (cur + appended(t)) + appended_from(s, e + 1) + blank() =~= out + cur + (
        appended(t) + appended_from(s, e + 1)) + blank());
    } else {
        assert(flushed(out, cur + appended(t)) =~= out + cur + appended(t) + blank());
    }
}

/// A named-entry line followed by lines that continue it gives one entry:
/// its body, then each continuing line in input order, trimmed, after
/// exactly one space, then a blank line.
pub proof fn lemma_continuation_order(n: Seq<char>, c: Seq<char>)
    requires
        forall|k: int| 0 <= k < n.len() ==> #[trigger] n[k] != '\n',
        trim(n).len() > 0,
        !filtered(trim(n)),
        !has_date(trim(n)),
        entry_split_from(trim(n), 1) is Some,
        continues_from(c, 0),
    ensures
        format_text(n + seq!['\n'] + c) == entry_body(trim(n), entry_split_from(trim(n), 1)->0)
            + appended_from(c, 0) + blank(),
{
    let s = n + seq!['\n'] + c;
    let body = entry_body(trim(n), entry_split_from(trim(n), 1)->0);
    assert forall|k: int| 0 <= k < n.len() implies #[trigger] s[k] != '\n' by {
        assert(s[k] == n[k]);
    }
    assert(s[n.len() as int] == '\n');
    lemma_line_end_at(s, 0, n.len() as int);
    assert(s.subrange(0, n.len() as int) =~= n);
    assert(consume(seq![], seq![], n) == (Seq::<char>::empty(), body));
    assert(format_text(s) == format_from(s, n.len() as int + 1, seq![], body));
    assert(s.subrange(n.len() as int + 1, s.len() as int) =~= c);
    assert(c.subrange(0, c.len() as int) =~= c);
    lemma_format_suffix(s, n.len() as int + 1, c, 0, seq![], body);
    lemma_format_continues(c, 0, seq![], body);
    assert(Seq::<char>::empty() + body =~= body);
}

/// A named-entry line followed at once by a date-header line gives the
/// entry, a blank line, then the header: the entry once, before the header.
pub proof fn lemma_header_after_entry(n: Seq<char>, h: Seq<char>)
    requires
        forall|k: int| 0 <= k < n.len() ==> #[trigger] n[k] != '\n',
        forall|k: int| 0 <= k < h.len() ==> #[trigger] h[k] != '\n',
        trim(n).len() > 0,
        !filtered(trim(n)),
        !has_date(trim(n)),
        entry_split_from(trim(n), 1) is Some,
        trim(h).len() > 0,
        !filtered(trim(h)),
        has_date(trim(h)),
    ensures
        format_text(n + seq!['\n'] + h) == entry_body(trim(n), entry_split_from(trim(n), 1)->0)
            + blank() + header(trim(h)),
{
    let s = n + seq!['\n'] + h;
    let body = entry_body(trim(n), entry_split_from(trim(n), 1)->0);
    assert forall|k: int| 0 <= k < n.len() implies #[trigger] s[k] != '\n' by {
        assert(s[k] == n[k]);
    }
    assert forall|k: int| n.len() as int + 1 <= k < s.len() implies #[trigger] s[k] != '\n' by {
        assert(s[k] == h[k - n.len() - 1]);
    }
    assert(s[n.len() as int] == '\n');
    lemma_line_end_at(s, 0, n.len() as int);
    lemma_line_end_at(s, n.len() as int + 1, s.len() as int);
    assert(s.subrange(0, n.len() as int) =~= n);
    assert(s.subrange(n.len() as int + 1, s.len() as int) =~= h);
    lemma_header_flush(seq![], seq![], n, h);
    let (o2, c2) = consume(seq![], body, h);
    assert(format_from(s, n.len() as int + 1, seq![], body) == flushed(o2, c2));
    assert(format_text(s) == format_from(s, n.len() as int + 1, seq![], body));
    assert(Seq::<char>::empty() + body + blank() =~= body + blank());
}

} // verus!
