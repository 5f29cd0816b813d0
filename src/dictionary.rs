//! A learned term dictionary: a mapping from trimmed terms to translations
//! that records every unknown term with a marked placeholder.
use vstd::prelude::*;
use crate::text::{chars_of, string_of, trim, trim_chars, views};

verus! {

/// The marker that opens a placeholder translation.
pub open spec fn open_marker() -> Seq<char> {
    seq!['<', '<', '<']
}

/// The marker that closes a placeholder translation.
pub open spec fn close_marker() -> Seq<char> {
    seq!['>', '>', '>']
}

/// The placeholder stored for a term that has no translation yet.
pub open spec fn wrap(k: Seq<char>) -> Seq<char> {
    open_marker() + k + close_marker()
}

/// Whether a stored translation is still a placeholder.
pub open spec fn marked(v: Seq<char>) -> bool {
    v.len() >= 3 && v.subrange(0, 3) == open_marker()
}

/// One lookup of `term` in the mapping `m`: the stored translation of the
/// trimmed term when there is one and it is not the term's placeholder;
/// otherwise the trimmed term itself, with a placeholder recorded for it if
/// none was. Gives the result and the mapping after it.
pub open spec fn learn(m: Map<Seq<char>, Seq<char>>, term: Seq<char>) -> (Seq<char>, Map<
    Seq<char>,
    Seq<char>,
>) {
    let k = trim(term);
    if m.contains_key(k) && m[k] != wrap(k) {
        (m[k], m)
    } else if m.contains_key(k) {
        (k, m)
    } else {
        (k, m.insert(k, wrap(k)))
    }
}

/// The mapping that a list of pairs with distinct keys describes.
pub open spec fn model(e: Seq<(Seq<char>, Seq<char>)>) -> Map<Seq<char>, Seq<char>>
    decreases e.len(),
{
    if e.len() == 0 {
        Map::empty()
    } else {
        model(e.drop_last()).insert(e.last().0, e.last().1)
    }
}

pub open spec fn keys_distinct(e: Seq<(Seq<char>, Seq<char>)>) -> bool {
    forall|i: int, j: int| 0 <= i < j < e.len() ==> #[trigger] e[i].0 != #[trigger] e[j].0
}

proof fn lemma_model_has(e: Seq<(Seq<char>, Seq<char>)>, i: int)
    requires
        keys_distinct(e),
        0 <= i < e.len(),
    ensures
        model(e).contains_key(e[i].0),
        model(e)[e[i].0] == e[i].1,
    decreases e.len(),
{
    if i < e.len() - 1 {
        assert(e.drop_last()[i] == e[i]);
        assert(e[i].0 != e[e.len() - 1].0);
        lemma_model_has(e.drop_last(), i);
    }
}

proof fn lemma_model_domain(e: Seq<(Seq<char>, Seq<char>)>, k: Seq<char>)
    ensures
        model(e).contains_key(k) <==> exists|i: int| 0 <= i < e.len() && #[trigger] e[i].0 == k,
    decreases e.len(),
{
    if e.len() > 0 {
        lemma_model_domain(e.drop_last(), k);
        if model(e).contains_key(k) && k != e.last().0 {
            let i = choose|i: int| 0 <= i < e.len() - 1 && #[trigger] e.drop_last()[i].0 == k;
            assert(e[i].0 == k);
        }
        if exists|i: int| 0 <= i < e.len() && #[trigger] e[i].0 == k {
            let i = choose|i: int| 0 <= i < e.len() && #[trigger] e[i].0 == k;
            if i < e.len() - 1 {
                assert(e.drop_last()[i].0 == k);
            }
        }
    }
}

/// A term dictionary. Every key is stored trimmed, and no two entries share
/// a key.
pub struct Dictionary {
    entries: Vec<(String, String)>,
}

impl Dictionary {
    /// The entries, as pairs of character sequences, in the order they were
    /// added.
    pub closed spec fn pairs(&self) -> Seq<(Seq<char>, Seq<char>)> {
        self.entries@.map_values(|p: (String, String)| (p.0@, p.1@))
    }

    /// Well-formedness: keys are distinct and stored trimmed.
    pub closed spec fn wf(&self) -> bool {
        &&& keys_distinct(self.pairs())
        &&& forall|i: int| 0 <= i < self.pairs().len() ==> trim(#[trigger] self.pairs()[i].0) == self.pairs()[i].0
    }

    /// An empty dictionary.
    pub fn new() -> (d: Dictionary)
        ensures
            d.wf(),
            d@ == Map::<Seq<char>, Seq<char>>::empty(),
    {
        let d = Dictionary { entries: Vec::new() };
        assert(d.pairs().len() == 0);
        d
    }

    /// Index of the entry whose key is `k`, if any.
    fn find(&self, k: &String) -> (r: Option<usize>)
        requires
            self.wf(),
        ensures
            r is Some ==> r->0 < self.pairs().len() && self.pairs()[r->0 as int].0 == k@,
            r is None ==> !self@.contains_key(k@),
    {
        let mut i: usize = 0;
        while i < self.entries.len()
            invariant
                i <= self.entries.len(),
                forall|j: int| 0 <= j < i ==> #[trigger] self.pairs()[j].0 != k@,
            decreases self.entries.len() - i,
        {
            if self.entries[i].0 == *k {
                return Some(i);
            }
            i = i + 1;
        }
        proof {
            lemma_model_domain(self.pairs(), k@);
        }
        None
    }

    /// Adds the entry `k -> v` for a trimmed key that is not present.
    fn add(&mut self, k: String, v: String)
        requires
            old(self).wf(),
            trim(k@) == k@,
            !old(self)@.contains_key(k@),
        ensures
            final(self).wf(),
            final(self)@ == old(self)@.insert(k@, v@),
    {
        proof {
            lemma_model_domain(self.pairs(), k@);
        }
        let ghost kv = k@;
        let ghost vv = v@;
        self.entries.push((k, v));
        proof {
            assert(self.pairs() == old(self).pairs().push((kv, vv)));
            assert(self.pairs().drop_last() == old(self).pairs());
        }
    }

    /// The translation of a term given as characters: see [`learn`].
    pub fn translate_chars(&mut self, term: &Vec<char>) -> (r: Vec<char>)
        requires
            old(self).wf(),
        ensures
            final(self).wf(),
            (r@, final(self)@) == learn(old(self)@, term@),
    {
        let kc = trim_chars(term);
        let k = string_of(&kc);
        let mut w: Vec<char> = Vec::new();
        w.push('<');
        w.push('<');
        w.push('<');
        crate::text::extend(&mut w, &kc);
        w.push('>');
        w.push('>');
        w.push('>');
        assert(w@ == wrap(kc@));
        let placeholder = string_of(&w);
        match self.find(&k) {
            Some(i) => {
                proof {
                    lemma_model_has(self.pairs(), i as int);
                }
                if self.entries[i].1 == placeholder {
                    kc
                } else {
                    chars_of(self.entries[i].1.as_str())
                }
            },
            None => {
                proof {
                    crate::text::lemma_trim_idempotent(term@);
                }
                self.add(k, placeholder);
                kc
            },
        }
    }

    /// The translation of `key`. The key is trimmed; a stored translation is
    /// returned as it is stored. An unknown key is recorded with the
    /// placeholder `<<<key>>>`; for it, and for a key whose stored value is
    /// still that placeholder, the trimmed key itself is returned.
    pub fn translate(&mut self, key: &str) -> (r: String)
        requires
            old(self).wf(),
        ensures
            final(self).wf(),
            (r@, final(self)@) == learn(old(self)@, key@),
    {
        let term = chars_of(key);
        let r = self.translate_chars(&term);
        string_of(&r)
    }

    /// Adds a stored entry, as read back from storage: the key is trimmed,
    /// and an entry whose trimmed key is already present is ignored, so the
    /// first of several is kept.
    pub fn insert_stored(&mut self, key: &str, value: &str)
        requires
            old(self).wf(),
        ensures
            final(self).wf(),
            old(self)@.contains_key(trim(key@)) ==> final(self)@ == old(self)@,
            !old(self)@.contains_key(trim(key@)) ==> final(self)@ == old(self)@.insert(
                trim(key@),
                value@,
            ),
    {
        let kc = trim_chars(&chars_of(key));
        let k = string_of(&kc);
        match self.find(&k) {
            Some(i) => {
                proof {
                    lemma_model_has(self.pairs(), i as int);
                }
            },
            None => {
                proof {
                    crate::text::lemma_trim_idempotent(key@);
                }
                self.add(k, string_of(&chars_of(value)));
            },
        }
    }

    /// Every entry of the dictionary, each once, as (key, translation).
    pub fn entries(&self) -> (r: Vec<(String, String)>)
        requires
            self.wf(),
        ensures
            forall|i: int|
                0 <= i < r.len() ==> self@.contains_key(#[trigger] r@[i].0@) && self@[r@[i].0@]
                    == r@[i].1@,
            forall|k: Seq<char>|
                #[trigger] self@.contains_key(k) ==> exists|i: int|
                    0 <= i < r.len() && #[trigger] r@[i].0@ == k,
            forall|i: int, j: int| 0 <= i < j < r.len() ==> #[trigger] r@[i].0@ != #[trigger] r@[j].0@,
    {
        let mut r: Vec<(String, String)> = Vec::new();
        let mut i: usize = 0;
        while i < self.entries.len()
            invariant
                self.wf(),
                i <= self.entries.len(),
                r.len() == i,
                forall|j: int| 0 <= j < i ==> (#[trigger] r@[j].0@, r@[j].1@) == self.pairs()[j],
            decreases self.entries.len() - i,
        {
            let k = self.entries[i].0.clone();
            let v = self.entries[i].1.clone();
            r.push((k, v));
            i = i + 1;
        }
        proof {
            assert forall|i: int| 0 <= i < r.len() implies self@.contains_key(
                #[trigger] r@[i].0@,
            ) && self@[r@[i].0@] == r@[i].1@ by {
                lemma_model_has(self.pairs(), i);
            }
            assert forall|k: Seq<char>| #[trigger] self@.contains_key(k) implies exists|i: int|
                0 <= i < r.len() && #[trigger] r@[i].0@ == k by {
                lemma_model_domain(self.pairs(), k);
                let i = choose|i: int| 0 <= i < self.pairs().len() && #[trigger] self.pairs()[i].0 == k;
                assert(r@[i].0@ == k);
            }
            assert forall|i: int, j: int| 0 <= i < j < r.len() implies #[trigger] r@[i].0@ != #[trigger] r@[j].0@ by {
                assert(self.pairs()[i].0 != self.pairs()[j].0);
            }
        }
        r
    }

    /// The keys whose translation is still a placeholder, each once.
    pub fn unresolved(&self) -> (r: Vec<String>)
        requires
            self.wf(),
        ensures
            forall|k: Seq<char>|
                #[trigger] views(r@).contains(k) <==> (self@.contains_key(k)
                    && marked(self@[k])),
            views(r@).no_duplicates(),
    {
        let mut r: Vec<String> = Vec::new();
        let mut i: usize = 0;
        while i < self.entries.len()
            invariant
                self.wf(),
                i <= self.entries.len(),
                forall|k: Seq<char>|
                    #[trigger] views(r@).contains(k) <==> exists|j: int|
                        0 <= j < i && self.pairs()[j].0 == k && marked(self.pairs()[j].1),
                views(r@).no_duplicates(),
            decreases self.entries.len() - i,
        {
            let v = &self.entries[i].1;
            let vc = chars_of(v.as_str());
            if vc.len() >= 3 && vc[0] == '<' && vc[1] == '<' && vc[2] == '<' {
                let ghost before = views(r@);
                let k = self.entries[i].0.clone();
                r.push(k);
                proof {
                    assert(vc@.subrange(0, 3) == open_marker());
                    let after = views(r@);
                    assert(after == before.push(self.pairs()[i as int].0));
                    assert forall|k: Seq<char>| #[trigger] after.contains(k) <==> exists|j: int|
                        0 <= j < i + 1 && self.pairs()[j].0 == k && marked(self.pairs()[j].1) by {
                        if after.contains(k) && k != self.pairs()[i as int].0 {
                            let t = choose|t: int| 0 <= t < after.len() && after[t] == k;
                            assert(before[t] == k);
                        }
                        if k == self.pairs()[i as int].0 {
                            assert(after[after.len() - 1] == k);
                        } else if before.contains(k) {
                            let t = choose|t: int| 0 <= t < before.len() && before[t] == k;
                            assert(after[t] == k);
                        }
                    }
                    assert forall|a: int, b: int| 0 <= a < after.len() && 0 <= b < after.len() && a != b
                        implies after[a] != after[b] by {
                        if b == after.len() - 1 || a == after.len() - 1 {
                            let o = if b == after.len() - 1 { a } else { b };
                            assert(before[o] == after[o]);
                            assert(before.contains(before[o]));
                            let j = choose|j: int|
                                0 <= j < i && self.pairs()[j].0 == before[o] && marked(self.pairs()[j].1);
                            assert(self.pairs()[j].0 != self.pairs()[i as int].0);
                        } else {
                            assert(before[a] == after[a]);
                            assert(before[b] == after[b]);
                        }
                    }
                }
            } else {
                proof {
                    if vc@.len() >= 3 && vc@.subrange(0, 3) == open_marker() {
                        assert(vc@[0] == vc@.subrange(0, 3)[0]);
                        assert(vc@[1] == vc@.subrange(0, 3)[1]);
                        assert(vc@[2] == vc@.subrange(0, 3)[2]);
                    }
                }
            }
            i = i + 1;
        }
        proof {
            assert forall|k: Seq<char>|
                #[trigger] views(r@).contains(k) <==> (self@.contains_key(k)
                    && marked(self@[k])) by {
                lemma_model_domain(self.pairs(), k);
                if self@.contains_key(k) {
                    let j = choose|j: int| 0 <= j < self.pairs().len() && #[trigger] self.pairs()[j].0 == k;
                    lemma_model_has(self.pairs(), j);
                }
                if exists|j: int| 0 <= j < i && self.pairs()[j].0 == k && marked(self.pairs()[j].1) {
                    let j = choose|j: int| 0 <= j < i && self.pairs()[j].0 == k && marked(self.pairs()[j].1);
                    lemma_model_has(self.pairs(), j);
                }
            }
        }
        r
    }
}

impl View for Dictionary {
    type V = Map<Seq<char>, Seq<char>>;

    closed spec fn view(&self) -> Map<Seq<char>, Seq<char>> {
        model(self.pairs())
    }
}

} // verus!
