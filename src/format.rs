//! The entry formatter: a line-by-line state machine that groups translated
//! text into bold entries under calendar-marked date headers.
use vstd::prelude::*;
use crate::passes::{is_sep, paren_at};
use crate::text::{
    chars_of, digit_end, digit_run, extend, find_line_end, decimal_digit, is_decimal_digit,
    lemma_line_end_bounds, line_end, slice, string_of, trim, trim_chars, word_end, word_run,
    ws_end, ws_run,
};

verus! {

/// Whether a date `dddd-dd-dd` (`d` a decimal digit) starts at `i` in `t`.
pub open spec fn date_at(t: Seq<char>, i: int) -> bool {
    &&& 0 <= i
    &&& i + 10 <= t.len()
    &&& decimal_digit(t[i]) && decimal_digit(t[i + 1]) && decimal_digit(t[i + 2]) && decimal_digit(t[i + 3])
    &&& t[i + 4] == '-'
    &&& decimal_digit(t[i + 5]) && decimal_digit(t[i + 6])
    &&& t[i + 7] == '-'
    &&& decimal_digit(t[i + 8]) && decimal_digit(t[i + 9])
}

/// Whether the line `t` holds a date anywhere: it is then a date header.
pub open spec fn has_date(t: Seq<char>) -> bool {
    exists|i: int| date_at(t, i)
}

/// Whether, from position `n` of `t`, white space and digits lead to a
/// separator.
pub open spec fn entry_tail_at(t: Seq<char>, n: int) -> bool {
    let j = digit_run(t, ws_run(t, n));
    j < t.len() && is_sep(t[j])
}

/// The length of the shortest name part, at least `n` long, of a named-entry
/// line `t`: a name, an optional draw number, a separator, the rest.
pub open spec fn entry_split_from(t: Seq<char>, n: int) -> Option<int>
    decreases t.len() - n,
{
    if n < 1 || n >= t.len() {
        None
    } else if entry_tail_at(t, n) {
        Some(n)
    } else {
        entry_split_from(t, n + 1)
    }
}

/// Bold emphasis marks.
pub open spec fn bold() -> Seq<char> {
    seq!['*', '*']
}

/// `s` from position `i` with each parenthesized word set in bold, the
/// parentheses kept.
pub open spec fn emphasize_from(s: Seq<char>, i: int) -> Seq<char>
    decreases s.len() - i,
{
    if i < 0 || i >= s.len() {
        seq![]
    } else if paren_at(s, i) {
        let q = word_run(s, i + 1);
        seq!['('] + bold() + s.subrange(i + 1, q) + bold() + seq![')'] + emphasize_from(s, q + 1)
    } else {
        seq![s[i]] + emphasize_from(s, i + 1)
    }
}

/// The label of the named entry `t` whose name part is `n` long: the trimmed
/// name, then a space and the draw number where there is one.
pub open spec fn entry_label(t: Seq<char>, n: int) -> Seq<char> {
    let i = ws_run(t, n);
    let draw = t.subrange(i, digit_run(t, i));
    let name = trim(t.subrange(0, n));
    if draw.len() == 0 {
        name
    } else {
        name + seq![' '] + draw
    }
}

/// The text of the named entry `t` after its separator, trimmed.
pub open spec fn entry_rest(t: Seq<char>, n: int) -> Seq<char> {
    trim(t.subrange(digit_run(t, ws_run(t, n)) + 1, t.len() as int))
}

/// The body that a named-entry line starts: `**label**: rest`, with the
/// parenthesized words of the rest in bold.
pub open spec fn entry_body(t: Seq<char>, n: int) -> Seq<char> {
    bold() + entry_label(t, n) + bold() + seq![':', ' '] + emphasize_from(entry_rest(t, n), 0)
}

/// A blank line after a block.
pub open spec fn blank() -> Seq<char> {
    seq!['\n', '\n']
}

/// A date header as it is written: a blank line, then the line in bold after
/// a calendar mark, then a blank line.
pub open spec fn header(t: Seq<char>) -> Seq<char> {
    seq!['\n', '\u{1f4c5}', ' '] + bold() + t + bold() + blank()
}

/// `out` after the entry `cur`, if one is open, is written out.
pub open spec fn flushed(out: Seq<char>, cur: Seq<char>) -> Seq<char> {
    if cur.len() > 0 {
        out + cur + blank()
    } else {
        out
    }
}

/// Whether a trimmed line is left out: an amount line starting with `Rs.`,
/// or a lone dash.
pub open spec fn filtered(t: Seq<char>) -> bool {
    (t.len() >= 3 && t.subrange(0, 3) == seq!['R', 's', '.']) || t == seq!['-']
}

/// One step of the formatter on the line `l`, from the output written so far
/// and the open entry (empty when none is open) to the same pair after it.
pub open spec fn consume(out: Seq<char>, cur: Seq<char>, l: Seq<char>) -> (Seq<char>, Seq<char>) {
    let t = trim(l);
    if t.len() == 0 || filtered(t) {
        (out, cur)
    } else if has_date(t) {
        (flushed(out, cur) + header(t), seq![])
    } else {
        match entry_split_from(t, 1) {
            Some(n) => (flushed(out, cur), entry_body(t, n)),
            None => if cur.len() > 0 {
                (out, cur + seq![' '] + t)
            } else {
                (out + t + blank(), seq![])
            },
        }
    }
}

/// The formatter on the lines of `s` from the line that starts at `i`, in
/// the state `out`, `cur`; the open entry is written out at the end.
pub open spec fn format_from(s: Seq<char>, i: int, out: Seq<char>, cur: Seq<char>) -> Seq<char>
    decreases s.len() - i,
{
    if i < 0 || i > s.len() {
        flushed(out, cur)
    } else {
        let e = line_end(s, i);
        proof {
            lemma_line_end_bounds(s, i);
        }
        let (o2, c2) = consume(out, cur, s.subrange(i, e));
        if e < s.len() {
            format_from(s, e + 1, o2, c2)
        } else {
            flushed(o2, c2)
        }
    }
}

/// The formatted message for the text `s`.
pub open spec fn format_text(s: Seq<char>) -> Seq<char> {
    format_from(s, 0, seq![], seq![])
}

fn date_here(t: &Vec<char>, i: usize) -> (r: bool)
    requires
        i + 10 <= t.len(),
    ensures
        r == date_at(t@, i as int),
{
    is_decimal_digit(t[i]) && is_decimal_digit(t[i + 1]) && is_decimal_digit(t[i + 2]) && is_decimal_digit(
        t[i + 3],
    ) && t[i + 4] == '-' && is_decimal_digit(t[i + 5]) && is_decimal_digit(t[i + 6]) && t[i + 7] == '-'
        && is_decimal_digit(t[i + 8]) && is_decimal_digit(t[i + 9])
}

fn contains_date(t: &Vec<char>) -> (r: bool)
    ensures
        r == has_date(t@),
{
    if t.len() < 10 {
        return false;
    }
    let mut i: usize = 0;
    while i <= t.len() - 10
        invariant
            t.len() >= 10,
            i <= t.len() - 9,
            forall|j: int| 0 <= j < i ==> !date_at(t@, j),
        decreases t.len() - 9 - i,
    {
        if date_here(t, i) {
            return true;
        }
        i = i + 1;
    }
    false
}

fn entry_split(t: &Vec<char>) -> (r: Option<usize>)
    ensures
        r matches Some(n) ==> entry_split_from(t@, 1) == Some(n as int) && 1 <= n < t.len()
            && entry_tail_at(t@, n as int),
        r is None ==> entry_split_from(t@, 1) is None,
{
    let mut n: usize = 1;
    while n < t.len()
        invariant
            1 <= n,
            n < t.len() ==> entry_split_from(t@, 1) == entry_split_from(t@, n as int),
            n >= t.len() ==> entry_split_from(t@, 1) is None,
        decreases t.len() - n,
    {
        let i = ws_end(t, n);
        let j = digit_end(t, i);
        if j < t.len() && (t[j] == ':' || t[j] == '-') {
            return Some(n);
        }
        n = n + 1;
    }
    None
}

fn emphasize(s: &Vec<char>) -> (r: Vec<char>)
    ensures
        r@ == emphasize_from(s@, 0),
{
    let mut out: Vec<char> = Vec::new();
    let mut i: usize = 0;
    while i < s.len()
        invariant
            i <= s.len(),
            out@ + emphasize_from(s@, i as int) == emphasize_from(s@, 0),
        decreases s.len() - i,
    {
        let ghost out0 = out@;
        let mut q: usize = i;
        if s[i] == '(' {
            q = word_end(s, i + 1);
        }
        if s[i] == '(' && q > i + 1 && q < s.len() && s[q] == ')' {
            let word = slice(s, i + 1, q);
            out.push('(');
            out.push('*');
            out.push('*');
            extend(&mut out, &word);
            out.push('*');
            out.push('*');
            out.push(')');
            proof {
                let r = emphasize_from(s@, q + 1);
                assert(out0 + (seq!['('] + bold() + word@ + bold() + seq![')'] + r) == out@ + r);
            }
            i = q + 1;
        } else {
            out.push(s[i]);
            proof {
                let r = emphasize_from(s@, i + 1);
                assert(out0 + (seq![s@[i as int]] + r) == out@ + r);
            }
            i = i + 1;
        }
    }
    out
}

fn entry_body_of(t: &Vec<char>, n: usize) -> (r: Vec<char>)
    requires
        1 <= n < t.len(),
        entry_tail_at(t@, n as int),
    ensures
        r@ == entry_body(t@, n as int),
{
    let i = ws_end(t, n);
    let j = digit_end(t, i);
    let name = trim_chars(&slice(t, 0, n));
    let draw = slice(t, i, j);
    let rest = trim_chars(&slice(t, j + 1, t.len()));
    let mut r: Vec<char> = Vec::new();
    r.push('*');
    r.push('*');
    extend(&mut r, &name);
    if draw.len() > 0 {
        r.push(' ');
        extend(&mut r, &draw);
    }
    r.push('*');
    r.push('*');
    r.push(':');
    r.push(' ');
    let e = emphasize(&rest);
    extend(&mut r, &e);
    assert(r@ == entry_body(t@, n as int));
    r
}

fn push_blank(out: &mut Vec<char>)
    ensures
        final(out)@ == old(out)@ + blank(),
{
    out.push('\n');
    out.push('\n');
}

fn flush(out: &mut Vec<char>, cur: &mut Vec<char>)
    ensures
        final(out)@ == flushed(old(out)@, old(cur)@),
        final(cur)@ == Seq::<char>::empty(),
{
    if cur.len() > 0 {
        extend(out, cur);
        push_blank(out);
    }
    *cur = Vec::new();
}

fn is_filtered(t: &Vec<char>) -> (r: bool)
    ensures
        r == filtered(t@),
{
    let amount = t.len() >= 3 && t[0] == 'R' && t[1] == 's' && t[2] == '.';
    let dash = t.len() == 1 && t[0] == '-';
    proof {
        if t.len() >= 3 {
            let p = t@.subrange(0, 3);
            assert(p[0] == t@[0] && p[1] == t@[1] && p[2] == t@[2]);
            if amount {
                assert(p =~= seq!['R', 's', '.']);
            }
        }
        if dash {
            assert(t@ =~= seq!['-']);
        }
        if t@ == seq!['-'] {
            assert(t@[0] == '-');
        }
    }
    amount || dash
}

fn consume_line(out: &mut Vec<char>, cur: &mut Vec<char>, l: &Vec<char>)
    ensures
        (final(out)@, final(cur)@) == consume(old(out)@, old(cur)@, l@),
{
    let t = trim_chars(l);
    if t.len() == 0 || is_filtered(&t) {
        return;
    }
    if contains_date(&t) {
        flush(out, cur);
        out.push('\n');
        out.push('\u{1f4c5}');
        out.push(' ');
        out.push('*');
        out.push('*');
        extend(out, &t);
        out.push('*');
        out.push('*');
        push_blank(out);
        return;
    }
    match entry_split(&t) {
        Some(n) => {
            flush(out, cur);
            *cur = entry_body_of(&t, n);
        },
        None => {
            if cur.len() > 0 {
                cur.push(' ');
                extend(cur, &t);
            } else {
                extend(out, &t);
                push_blank(out);
            }
        },
    }
}

/// Formats translated lottery text into a message. Lines are trimmed; empty
/// lines, lines that start with `Rs.` and lone dashes are skipped. A line that
/// holds a date `dddd-dd-dd` closes the open entry and is written as a
/// header. A line of the shape `name [draw]: rest` (or with `-`) closes the
/// open entry and opens `**name draw**: rest`. Any other line continues the
/// open entry after a space, or, with none open, is written alone. Each entry
/// and each lone line is followed by a blank line.
pub fn format_lottery_output(raw: &str) -> (r: String)
    ensures
        r@ == format_text(raw@),
{
    let sv = chars_of(raw);
    let s = &sv;
    let ghost full = format_text(s@);
    let mut out: Vec<char> = Vec::new();
    let mut cur: Vec<char> = Vec::new();
    let mut i: usize = 0;
    let mut done = false;
    while !done
        invariant
            i <= s.len(),
            full == format_text(s@),
            !done ==> format_from(s@, i as int, out@, cur@) == full,
            done ==> out@ == full,
        decreases s.len() - i + (if done {
            0int
        } else {
            1int
        }),
    {
        let e = find_line_end(s, i);
        let line = slice(s, i, e);
        consume_line(&mut out, &mut cur, &line);
        if e < s.len() {
            i = e + 1;
        } else {
            flush(&mut out, &mut cur);
            done = true;
        }
    }
    string_of(&out)
}

} // verus!
