use vstd::prelude::*;

use crate::text::{append, strings_view};
use crate::tree::{build_tree, pairs_view, Flat};

verus! {

/// Whether `t` is the text of some entry of `f`.
pub open spec fn has_value(f: Flat, t: Seq<char>) -> bool {
    exists|i: int| 0 <= i < f.len() && #[trigger] f[i].1 == t
}

/// Whether `v` is one of `texts`.
pub fn contains_text(texts: &Vec<String>, v: &String) -> (r: bool)
    ensures
        r == strings_view(texts@).contains(v@),
{
    let mut j: usize = 0;
    while j < texts.len()
        invariant
            j <= texts@.len(),
            forall|x: int| 0 <= x < j ==> texts@[x]@ != v@,
        decreases texts@.len() - j,
    {
        if texts[j] == *v {
            assert(strings_view(texts@)[j as int] == v@);
            return true;
        }
        j = j + 1;
    }
    assert(forall|x: int| 0 <= x < texts@.len() ==> strings_view(texts@)[x] != v@);
    false
}

/// The distinct texts of a flat mapping, each once, in the order of their
/// first occurrence. Texts are compared exactly, character by character.
pub fn unique_texts(flat: &Vec<(String, String)>) -> (r: Vec<String>)
    ensures
        strings_view(r@).no_duplicates(),
        forall|t: Seq<char>| #[trigger] strings_view(r@).contains(t) <==> has_value(pairs_view(flat@), t),
{
    let ghost f = pairs_view(flat@);
    let mut out: Vec<String> = Vec::new();
    let mut i: usize = 0;
    while i < flat.len()
        invariant
            f == pairs_view(flat@),
            i <= flat@.len(),
            strings_view(out@).no_duplicates(),
            forall|t: Seq<char>|
                #[trigger] strings_view(out@).contains(t) <==> has_value(f.subrange(0, i as int), t),
        decreases flat@.len() - i,
    {
        let v = &flat[i].1;
        let seen = contains_text(&out, v);
        let ghost before = strings_view(out@);
        if !seen {
            out.push(v.clone());
            assert(strings_view(out@) =~= before.push(v@));
            assert forall|a: int, b: int| 0 <= a < b < strings_view(out@).len() implies strings_view(
                out@,
            )[a] != strings_view(out@)[b] by {
                if b == before.len() {
                    assert(out@[a]@ == before[a]);
                }
            }
        }
        assert forall|t: Seq<char>| #[trigger] strings_view(out@).contains(t) <==> has_value(
            f.subrange(0, i + 1),
            t,
        ) by {
            let g = f.subrange(0, i + 1);
            let h = f.subrange(0, i as int);
            assert(g[i as int].1 == v@);
            assert(forall|x: int| 0 <= x < i ==> g[x] == h[x]);
            assert(!seen ==> strings_view(out@) == before.push(v@));
            assert(seen ==> strings_view(out@) == before);
            assert(before.contains(t) <==> has_value(h, t));
            if has_value(g, t) {
                let x = choose|x: int| 0 <= x < g.len() && #[trigger] g[x].1 == t;
                if x < i {
                    assert(h[x].1 == t);
                    assert(before.contains(t));
                    let y = choose|y: int| 0 <= y < before.len() && before[y] == t;
                    assert(strings_view(out@)[y] == t);
                } else if seen {
                    assert(strings_view(out@).contains(t));
                } else {
                    assert(strings_view(out@)[before.len() as int] == t);
                }
            }
            if strings_view(out@).contains(t) {
                if before.contains(t) {
                    let x = choose|x: int|
                        0 <= x < i && #[trigger] f.subrange(0, i as int)[x].1 == t;
                    assert(g[x].1 == t);
                } else {
                    let y = choose|y: int| 0 <= y < strings_view(out@).len() && strings_view(out@)[y] == t;
                    assert(y == before.len());
                    assert(g[i as int].1 == t);
                }
            }
        }
        i = i + 1;
    }
    assert(f.subrange(0, i as int) =~= f);
    out
}

/// The map that a list of source/translation pairs stands for.
pub open spec fn map_of(f: Flat) -> Map<Seq<char>, Seq<char>>
    decreases f.len(),
{
    if f.len() == 0 {
        Map::empty()
    } else {
        map_of(f.drop_last()).insert(f.last().0, f.last().1)
    }
}

/// No two pairs share a first component.
pub open spec fn keys_unique(f: Flat) -> bool {
    forall|a: int, b: int| 0 <= a < b < f.len() ==> f[a].0 != f[b].0
}

proof fn lemma_map_of(f: Flat)
    requires
        keys_unique(f),
    ensures
        forall|k: Seq<char>|
            #[trigger] map_of(f).contains_key(k) <==> exists|i: int| 0 <= i < f.len() && f[i].0 == k,
        forall|i: int| 0 <= i < f.len() ==> #[trigger] map_of(f)[f[i].0] == f[i].1,
    decreases f.len(),
{
    if f.len() > 0 {
        let p = f.drop_last();
        lemma_map_of(p);
        assert forall|k: Seq<char>| #[trigger] map_of(f).contains_key(k) <==> exists|i: int|
            0 <= i < f.len() && f[i].0 == k by {
            if map_of(f).contains_key(k) && k != f.last().0 {
                assert(map_of(p).contains_key(k));
                let i = choose|i: int| 0 <= i < p.len() && p[i].0 == k;
                assert(f[i].0 == k);
            }
            if exists|i: int| 0 <= i < f.len() && f[i].0 == k {
                let i = choose|i: int| 0 <= i < f.len() && f[i].0 == k;
                if i < p.len() {
                    assert(p[i].0 == k);
                    assert(map_of(p).contains_key(k));
                }
            }
            if k == f.last().0 {
                assert(f[f.len() - 1].0 == k);
            }
        }
        assert forall|i: int| 0 <= i < f.len() implies #[trigger] map_of(f)[f[i].0] == f[i].1 by {
            if i < p.len() {
                assert(p[i] == f[i]);
                assert(f[i].0 != f.last().0);
                assert(map_of(p)[p[i].0] == p[i].1);
            }
        }
    }
}

/// The translations gathered for one document and one target language:
/// at most one per source text.
pub struct LanguageCache {
    entries: Vec<(String, String)>,
}

impl LanguageCache {
    /// Source text to translated text.
    pub closed spec fn view(&self) -> Map<Seq<char>, Seq<char>> {
        map_of(pairs_view(self.entries@))
    }

    pub closed spec fn wf(&self) -> bool {
        keys_unique(pairs_view(self.entries@))
    }

    pub fn new() -> (r: LanguageCache)
        ensures
            r.wf(),
            r@ == Map::<Seq<char>, Seq<char>>::empty(),
    {
        let r = LanguageCache { entries: Vec::new() };
        assert(pairs_view(r.entries@) =~= Seq::<(Seq<char>, Seq<char>)>::empty());
        r
    }

    fn position(&self, src: &String) -> (r: Option<usize>)
        requires
            self.wf(),
        ensures
            match r {
                Some(j) => j < self.entries@.len() && self.entries@[j as int].0@ == src@,
                None => !self@.contains_key(src@),
            },
    {
        proof {
            lemma_map_of(pairs_view(self.entries@));
        }
        let mut j: usize = 0;
        while j < self.entries.len()
            invariant
                j <= self.entries@.len(),
                forall|x: int| 0 <= x < j ==> self.entries@[x].0@ != src@,
            decreases self.entries@.len() - j,
        {
            if self.entries[j].0 == *src {
                return Some(j);
            }
            j = j + 1;
        }
        assert(forall|x: int|
            0 <= x < self.entries@.len() ==> pairs_view(self.entries@)[x].0 != src@);
        None
    }

    /// The translation recorded for `src`, if any.
    pub fn get(&self, src: &String) -> (r: Option<String>)
        requires
            self.wf(),
        ensures
            r is Some == self@.contains_key(src@),
            r is Some ==> r->0@ == self@[src@],
    {
        proof {
            lemma_map_of(pairs_view(self.entries@));
        }
        match self.position(src) {
            Some(j) => {
                assert(pairs_view(self.entries@)[j as int].0 == src@);
                Some(self.entries[j].1.clone())
            },
            None => None,
        }
    }

    /// Records the translation of `src`. Recording a text a second time
    /// changes nothing: the first translation stays.
    pub fn insert(&mut self, src: String, translated: String)
        requires
            old(self).wf(),
        ensures
            final(self).wf(),
            final(self)@ == if old(self)@.contains_key(src@) {
                old(self)@
            } else {
                old(self)@.insert(src@, translated@)
            },
    {
        match self.position(&src) {
            Some(j) => {
                proof {
                    lemma_map_of(pairs_view(self.entries@));
                    assert(pairs_view(self.entries@)[j as int].0 == src@);
                }
            },
            None => {
                let ghost before = pairs_view(self.entries@);
                proof {
                    lemma_map_of(before);
                }
                self.entries.push((src, translated));
                let ghost after = pairs_view(self.entries@);
                assert(after.drop_last() =~= before);
                assert forall|a: int, b: int| 0 <= a < b < after.len() implies after[a].0
                    != after[b].0 by {
                    if b == before.len() {
                        assert(before[a].0 == after[a].0);
                        assert(after[b].0 == src@);
                        if before[a].0 == src@ {
                            assert(map_of(before).contains_key(src@));
                        }
                    } else {
                        assert(before[a].0 == after[a].0);
                        assert(before[b].0 == after[b].0);
                    }
                }
            },
        }
    }
}

/// The translation of `t` by `m`, or `t` itself when `m` has none.
pub open spec fn lookup_or(m: Map<Seq<char>, Seq<char>>, t: Seq<char>) -> Seq<char> {
    if m.contains_key(t) {
        m[t]
    } else {
        t
    }
}

/// Each entry keeps its key; its text is replaced by its translation.
pub open spec fn translate_spec(f: Flat, m: Map<Seq<char>, Seq<char>>) -> Flat {
    Seq::new(f.len(), |i: int| (f[i].0, lookup_or(m, f[i].1)))
}

/// The translated flat mapping of a document: every entry keeps its key and
/// takes the cached translation of its text, or the text itself when the
/// cache has none.
pub fn translate_flat(flat: &Vec<(String, String)>, cache: &LanguageCache) -> (r: Vec<(String, String)>)
    requires
        cache.wf(),
    ensures
        pairs_view(r@) == translate_spec(pairs_view(flat@), cache@),
{
    let ghost f = pairs_view(flat@);
    let mut out: Vec<(String, String)> = Vec::new();
    let mut i: usize = 0;
    while i < flat.len()
        invariant
            f == pairs_view(flat@),
            cache.wf(),
            i <= flat@.len(),
            pairs_view(out@) =~= translate_spec(f, cache@).subrange(0, i as int),
        decreases flat@.len() - i,
    {
        let text = match cache.get(&flat[i].1) {
            Some(t) => t,
            None => flat[i].1.clone(),
        };
        let ghost before = out@;
        out.push((flat[i].0.clone(), text));
        assert(pairs_view(out@) =~= pairs_view(before).push(translate_spec(f, cache@)[i as int]));
        i = i + 1;
    }
    out
}

/// What a single call of the translation backend came to.
#[derive(Debug)]
pub enum FetchOutcome {
    Translated(String),
    Fallback { text: String, reason: String },
}

/// The text that an outcome stands for.
pub open spec fn outcome_text(o: FetchOutcome) -> Seq<char> {
    match o {
        FetchOutcome::Translated(t) => t@,
        FetchOutcome::Fallback { text, .. } => text@,
    }
}

impl FetchOutcome {
    /// The outcome of asking for the translation of `text`, given the
    /// backend's reply: the translated text when the reply carried one, else
    /// the source text, with the transport error (or the missing field) as
    /// the reason.
    pub fn from_reply(text: &String, reply: Result<Option<String>, String>) -> (r: FetchOutcome)
        ensures
            match reply {
                Ok(Some(t)) => r == FetchOutcome::Translated(t),
                Ok(None) => r is Fallback && r->text@ == text@,
                Err(e) => r == (FetchOutcome::Fallback { text: r->text, reason: e })
                    && r->text@ == text@,
            },
    {
        match reply {
            Ok(Some(t)) => FetchOutcome::Translated(t),
            Ok(None) => {
                let mut reason = String::new();
                reason.push('n');
                reason.push('o');
                reason.push(' ');
                reason.push('t');
                reason.push('e');
                reason.push('x');
                reason.push('t');
                FetchOutcome::Fallback { text: text.clone(), reason }
            },
            Err(e) => FetchOutcome::Fallback { text: text.clone(), reason: e },
        }
    }

    /// The text to record: the translation, or the source text on a fallback.
    pub fn into_text(self) -> (r: String)
        ensures
            r@ == outcome_text(self),
    {
        match self {
            FetchOutcome::Translated(t) => t,
            FetchOutcome::Fallback { text, .. } => text,
        }
    }
}

/// The authorization header value for a bearer token; none for an empty
/// token.
pub fn bearer_header(token: &String) -> (r: Option<String>)
    ensures
        token@.len() == 0 ==> r is None,
        token@.len() > 0 ==> r is Some && r->0@ == seq!['B', 'e', 'a', 'r', 'e', 'r', ' '] + token@,
{
    if token.as_str().unicode_len() == 0 {
        None
    } else {
        let mut h = String::new();
        h.push('B');
        h.push('e');
        h.push('a');
        h.push('r');
        h.push('e');
        h.push('r');
        h.push(' ');
        append(&mut h, token);
        Some(h)
    }
}

/// When the backend failed for every text, so that each recorded
/// translation is its own source text, translating a flat mapping leaves it
/// unchanged, and so does the document rebuilt from it.
pub proof fn lemma_fallback_identity(f: Flat, m: Map<Seq<char>, Seq<char>>)
    requires
        forall|t: Seq<char>| #[trigger] m.contains_key(t) ==> m[t] == t,
    ensures
        translate_spec(f, m) == f,
        build_tree(translate_spec(f, m)) == build_tree(f),
{
    assert(translate_spec(f, m) =~= f);
}

/// Entries that share a source text share its translation: a text that
/// stands at several keys is translated once and used at all of them.
pub proof fn lemma_shared_text_shared_translation(
    f: Flat,
    m: Map<Seq<char>, Seq<char>>,
    a: int,
    b: int,
)
    requires
        0 <= a < f.len(),
        0 <= b < f.len(),
        f[a].1 == f[b].1,
    ensures
        translate_spec(f, m)[a].1 == translate_spec(f, m)[b].1,
{
}

} // verus!
