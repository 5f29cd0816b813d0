//! The three substitution passes applied to pasted text before formatting:
//! lottery names at line starts, the unit word, and parenthesized terms.
use vstd::prelude::*;
use crate::dictionary::{learn, Dictionary};
use crate::text::{
    chars_of, digit_end, digit_run, extend, find_line_end, decimal_digit, is_decimal_digit, is_word,
    lemma_line_end_bounds, line_end, slice, string_of, word_char, word_end, word_run, ws_end,
    ws_run,
};

verus! {

/// A character that may stand in a lottery name: an ASCII letter, a space or
/// a full stop.
pub open spec fn is_name_char(c: char) -> bool {
    ('a' <= c && c <= 'z') || ('A' <= c && c <= 'Z') || c == ' ' || c == '.'
}

/// A separator after a name: a colon or a hyphen.
pub open spec fn is_sep(c: char) -> bool {
    c == ':' || c == '-'
}

/// Whether the line `s`, from position `n` on, holds an optional draw number
/// (white space, then digits), then white space, then a separator.
pub open spec fn name_tail_at(s: Seq<char>, n: int) -> bool {
    let i = ws_run(s, n);
    let k = ws_run(s, digit_run(s, i));
    (i < s.len() && is_sep(s[i])) || (n < i < s.len() && decimal_digit(s[i]) && k < s.len() && is_sep(
        s[k],
    ))
}

/// The length of the shortest leading name segment of the line `s` that is
/// at least `n` long and is followed by a draw number and a separator.
pub open spec fn lead_name_from(s: Seq<char>, n: int) -> Option<int>
    decreases s.len() + 1 - n,
{
    if n < 1 || n > s.len() || !is_name_char(s[n - 1]) {
        None
    } else if name_tail_at(s, n) {
        Some(n)
    } else {
        lead_name_from(s, n + 1)
    }
}

/// The line `l` with its leading name segment, if it has one, replaced by the
/// name's translation; and the mapping after the lookup.
pub open spec fn name_line(m: Map<Seq<char>, Seq<char>>, l: Seq<char>) -> (Seq<char>, Map<
    Seq<char>,
    Seq<char>,
>) {
    match lead_name_from(l, 1) {
        Some(n) => {
            let (t, m2) = learn(m, l.subrange(0, n));
            (t + l.subrange(n, l.len() as int), m2)
        },
        None => (l, m),
    }
}

/// The name pass over the lines of `s` from the line that starts at `i`.
pub open spec fn names_from(m: Map<Seq<char>, Seq<char>>, s: Seq<char>, i: int) -> (Seq<
    char,
>, Map<Seq<char>, Seq<char>>)
    decreases s.len() - i,
{
    if i < 0 || i > s.len() {
        (seq![], m)
    } else {
        let e = line_end(s, i);
        proof {
            lemma_line_end_bounds(s, i);
        }
        let (t, m2) = name_line(m, s.subrange(i, e));
        if e < s.len() {
            let (r, m3) = names_from(m2, s, e + 1);
            (t + seq!['\n'] + r, m3)
        } else {
            (t, m2)
        }
    }
}

/// The word that the unit pass replaces.
pub open spec fn unit_word() -> Seq<char> {
    seq!['l', 'a', 'k', 'h', 's']
}

/// The localized unit word that replaces it.
pub open spec fn local_unit_word() -> Seq<char> {
    seq!['\u{dbd}', '\u{d9a}', '\u{dca}', '\u{dc2}']
}

/// Whether the unit word stands at `i` in `s` as a whole word.
pub open spec fn unit_at(s: Seq<char>, i: int) -> bool {
    &&& 0 <= i
    &&& i + 5 <= s.len()
    &&& s.subrange(i, i + 5) == unit_word()
    &&& (i == 0 || !word_char(s[i - 1]))
    &&& (i + 5 == s.len() || !word_char(s[i + 5]))
}

/// The unit pass over `s` from position `i`.
pub open spec fn localize_from(s: Seq<char>, i: int) -> Seq<char>
    decreases s.len() - i,
{
    if i < 0 || i >= s.len() {
        seq![]
    } else if unit_at(s, i) {
        local_unit_word() + localize_from(s, i + 5)
    } else {
        seq![s[i]] + localize_from(s, i + 1)
    }
}

/// Whether a parenthesized word, `(` then word characters then `)`, starts
/// at `i` in `s`.
pub open spec fn paren_at(s: Seq<char>, i: int) -> bool {
    &&& 0 <= i < s.len()
    &&& s[i] == '('
    &&& word_run(s, i + 1) > i + 1
    &&& word_run(s, i + 1) < s.len()
    &&& s[word_run(s, i + 1)] == ')'
}

/// The parenthetical pass over `s` from position `i`: each parenthesized
/// word, left to right, has its word replaced by its translation.
pub open spec fn parens_from(m: Map<Seq<char>, Seq<char>>, s: Seq<char>, i: int) -> (Seq<
    char,
>, Map<Seq<char>, Seq<char>>)
    decreases s.len() - i,
{
    if i < 0 || i >= s.len() {
        (seq![], m)
    } else if paren_at(s, i) {
        let q = word_run(s, i + 1);
        let (t, m2) = learn(m, s.subrange(i + 1, q));
        let (r, m3) = parens_from(m2, s, q + 1);
        (seq!['('] + t + seq![')'] + r, m3)
    } else {
        let (r, m2) = parens_from(m, s, i + 1);
        (seq![s[i]] + r, m2)
    }
}

fn is_name_char_exec(c: char) -> (r: bool)
    ensures
        r == is_name_char(c),
{
    ('a' <= c && c <= 'z') || ('A' <= c && c <= 'Z') || c == ' ' || c == '.'
}

fn is_sep_exec(c: char) -> (r: bool)
    ensures
        r == is_sep(c),
{
    c == ':' || c == '-'
}

fn name_tail(l: &Vec<char>, n: usize) -> (r: bool)
    requires
        n <= l.len(),
    ensures
        r == name_tail_at(l@, n as int),
{
    let i = ws_end(l, n);
    let j = digit_end(l, i);
    let k = ws_end(l, j);
    (i < l.len() && is_sep_exec(l[i])) || (n < i && i < l.len() && is_decimal_digit(l[i]) && k
        < l.len() && is_sep_exec(l[k]))
}

/// The length of the leading name segment of a line, if it has one.
fn lead_name_len(l: &Vec<char>) -> (r: Option<usize>)
    ensures
        r matches Some(n) ==> lead_name_from(l@, 1) == Some(n as int) && 1 <= n <= l.len(),
        r is None ==> lead_name_from(l@, 1) is None,
{
    let mut k: usize = 0;
    while k < l.len()
        invariant
            k <= l.len(),
            lead_name_from(l@, 1) == lead_name_from(l@, k + 1),
        decreases l.len() - k,
    {
        if !is_name_char_exec(l[k]) {
            return None;
        }
        if name_tail(l, k + 1) {
            return Some(k + 1);
        }
        k = k + 1;
    }
    None
}

fn translate_name_line(l: &Vec<char>, dict: &mut Dictionary) -> (r: Vec<char>)
    requires
        old(dict).wf(),
    ensures
        final(dict).wf(),
        (r@, final(dict)@) == name_line(old(dict)@, l@),
{
    match lead_name_len(l) {
        Some(n) => {
            let name = slice(l, 0, n);
            let mut t = dict.translate_chars(&name);
            let rest = slice(l, n, l.len());
            extend(&mut t, &rest);
            t
        },
        None => {
            let r = slice(l, 0, l.len());
            assert(l@.subrange(0, l.len() as int) == l@);
            r
        },
    }
}

/// The name pass: on each line of `input` that starts with a name segment
/// (ASCII letters, spaces and full stops), then an optional draw number and a
/// separator, the shortest such segment is replaced by its translation in
/// `dict`. Other lines, and the rest of each line, are kept as they are.
pub fn translate_names(input: &str, dict: &mut Dictionary) -> (r: String)
    requires
        old(dict).wf(),
    ensures
        final(dict).wf(),
        (r@, final(dict)@) == names_from(old(dict)@, input@, 0),
{
    let sv = chars_of(input);
    let s = &sv;
    let ghost m0 = dict@;
    let ghost full = names_from(m0, s@, 0);
    let mut out: Vec<char> = Vec::new();
    let mut i: usize = 0;
    let mut done = false;
    while !done
        invariant
            dict.wf(),
            i <= s.len(),
            full == names_from(m0, s@, 0),
            !done ==> out@ + names_from(dict@, s@, i as int).0 == full.0 && names_from(
                dict@,
                s@,
                i as int,
            ).1 == full.1,
            done ==> out@ == full.0 && dict@ == full.1,
        decreases s.len() - i + (if done {
            0int
        } else {
            1int
        }),
    {
        let ghost before = dict@;
        let ghost out0 = out@;
        let e = find_line_end(s, i);
        let line = slice(s, i, e);
        let t = translate_name_line(&line, dict);
        extend(&mut out, &t);
        if e < s.len() {
            out.push('\n');
            proof {
                let r = names_from(dict@, s@, e + 1);
                assert(out0 + (t@ + seq!['\n'] + r.0) == out@ + r.0);
            }
            i = e + 1;
        } else {
            done = true;
        }
    }
    string_of(&out)
}

fn unit_here(s: &Vec<char>, i: usize) -> (r: bool)
    requires
        i < s.len(),
    ensures
        r == unit_at(s@, i as int),
{
    if s.len() - i < 5 {
        return false;
    }
    let m = s[i] == 'l' && s[i + 1] == 'a' && s[i + 2] == 'k' && s[i + 3] == 'h' && s[i + 4]
        == 's';
    proof {
        let w = s@.subrange(i as int, i + 5);
        assert(w[0] == s@[i as int] && w[1] == s@[i + 1] && w[2] == s@[i + 2] && w[3] == s@[i
            + 3] && w[4] == s@[i + 4]);
        if m {
            assert(w =~= unit_word());
        }
    }
    if !m {
        return false;
    }
    let before = i == 0 || !is_word(s[i - 1]);
    let after = i + 5 == s.len() || !is_word(s[i + 5]);
    before && after
}

fn localize_chars(s: &Vec<char>) -> (r: Vec<char>)
    ensures
        r@ == localize_from(s@, 0),
{
    let mut out: Vec<char> = Vec::new();
    let mut i: usize = 0;
    while i < s.len()
        invariant
            i <= s.len(),
            out@ + localize_from(s@, i as int) == localize_from(s@, 0),
        decreases s.len() - i,
    {
        let ghost out0 = out@;
        if unit_here(s, i) {
            out.push('\u{dbd}');
            out.push('\u{d9a}');
            out.push('\u{dca}');
            out.push('\u{dc2}');
            proof {
                assert(out@ == out0 + local_unit_word());
                assert(out0 + (local_unit_word() + localize_from(s@, i + 5)) == out@
                    + localize_from(s@, i + 5));
            }
            i = i + 5;
        } else {
            out.push(s[i]);
            proof {
                assert(out0 + (seq![s@[i as int]] + localize_from(s@, i + 1)) == out@
                    + localize_from(s@, i + 1));
            }
            i = i + 1;
        }
    }
    out
}

/// The unit pass: every whole-word `lakhs` (not preceded or followed by a
/// word character) becomes the localized unit word. No dictionary is used.
pub fn localize_units(input: &str) -> (r: String)
    ensures
        r@ == localize_from(input@, 0),
{
    let sv = chars_of(input);
    let s = &sv;
    let r = localize_chars(&s);
    string_of(&r)
}

/// The parenthetical pass: every parenthesized word, left to right, has its
/// word replaced by its translation in `dict`; the parentheses are kept.
pub fn translate_parentheticals(input: &str, dict: &mut Dictionary) -> (r: String)
    requires
        old(dict).wf(),
    ensures
        final(dict).wf(),
        (r@, final(dict)@) == parens_from(old(dict)@, input@, 0),
{
    let sv = chars_of(input);
    let s = &sv;
    let ghost m0 = dict@;
    let ghost full = parens_from(m0, s@, 0);
    let mut out: Vec<char> = Vec::new();
    let mut i: usize = 0;
    while i < s.len()
        invariant
            dict.wf(),
            i <= s.len(),
            full == parens_from(m0, s@, 0),
            out@ + parens_from(dict@, s@, i as int).0 == full.0,
            parens_from(dict@, s@, i as int).1 == full.1,
        decreases s.len() - i,
    {
        let ghost out0 = out@;
        let mut q: usize = i;
        if s[i] == '(' {
            q = word_end(s, i + 1);
        }
        if s[i] == '(' && q > i + 1 && q < s.len() && s[q] == ')' {
            let word = slice(s, i + 1, q);
            let t = dict.translate_chars(&word);
            out.push('(');
            extend(&mut out, &t);
            out.push(')');
            proof {
                let r = parens_from(dict@, s@, q + 1);
                assert(out0 + (seq!['('] + t@ + seq![')'] + r.0) == out@ + r.0);
            }
            i = q + 1;
        } else {
            out.push(s[i]);
            proof {
                let r = parens_from(dict@, s@, i + 1);
                assert(out0 + (seq![s@[i as int]] + r.0) == out@ + r.0);
            }
            i = i + 1;
        }
    }
    string_of(&out)
}

} // verus!
