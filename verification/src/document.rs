//! The document indexer: one file's text turned into a table of stemmed
//! terms and their occurrence counts.

use vstd::prelude::*;
use crate::chars::string_of_chars;
use crate::lang::{detect_language, spec_detect_lang, LangTag, StopConfig};
use crate::lexer::{spec_next_token, spec_tokens, spec_trim, Lexer};
use crate::stemmer::{spec_stem, Stem};

verus! {

broadcast use vstd::seq_lib::group_filter_ensures;

/// Why one file stays out of the index; the build skips the file and goes
/// on.
#[derive(Clone, Copy, PartialEq, Eq, Structural, Debug)]
pub enum IndexError {
    UnsupportedLanguage,
}

/// One indexed file: its path, its stemmed-term counts, the number of
/// surviving tokens, and its detected language.
#[derive(Debug, Clone, PartialEq, Eq)]
pub struct Document {
    pub file_path: String,
    pub terms: Vec<(String, usize)>,
    pub term_count: usize,
    pub language: LangTag,
}

/// First match in a term table, by the term's characters.
pub open spec fn lookup(s: Seq<(String, usize)>, t: Seq<char>) -> Option<usize>
    decreases s.len(),
{
    if s.len() == 0 {
        None
    } else if s[0].0@ == t {
        Some(s[0].1)
    } else {
        lookup(s.drop_first(), t)
    }
}

pub open spec fn keys_of(s: Seq<(String, usize)>) -> Seq<Seq<char>> {
    s.map(|_i: int, e: (String, usize)| e.0@)
}

pub open spec fn keys_distinct(s: Seq<(String, usize)>) -> bool {
    forall|i: int, j: int| 0 <= i < j < s.len() ==> s[i].0@ != s[j].0@
}

pub open spec fn sum_counts(s: Seq<(String, usize)>) -> nat
    decreases s.len(),
{
    if s.len() == 0 {
        0
    } else {
        (sum_counts(s.drop_last()) + s.last().1) as nat
    }
}

/// The tokens that survive the stop-word filter.
pub open spec fn spec_filtered(toks: Seq<Seq<char>>, stop: Seq<Seq<char>>) -> Seq<Seq<char>> {
    toks.filter(|t: Seq<char>| !stop.contains(t))
}

/// The surviving tokens, each replaced by its stem.
pub open spec fn spec_stemmed(toks: Seq<Seq<char>>, stop: Seq<Seq<char>>, lang: LangTag) -> Seq<
    Seq<char>,
> {
    spec_filtered(toks, stop).map(|_i: int, t: Seq<char>| spec_stem(lang, t))
}

/// The surviving tokens of a whole text.
pub open spec fn spec_survivors(text: Seq<char>, stop: Seq<Seq<char>>) -> Seq<Seq<char>> {
    spec_filtered(spec_tokens(text), stop)
}

/// How often stem `t` occurs among the text's surviving stemmed tokens.
pub open spec fn spec_occurrences(
    text: Seq<char>,
    stop: Seq<Seq<char>>,
    lang: LangTag,
    t: Seq<char>,
) -> nat {
    spec_stemmed(spec_tokens(text), stop, lang).to_multiset().count(t)
}

/// Each distinct element of `s`, in order of first appearance.
pub open spec fn first_seen(s: Seq<Seq<char>>) -> Seq<Seq<char>>
    decreases s.len(),
{
    if s.len() == 0 {
        Seq::empty()
    } else {
        let p = first_seen(s.drop_last());
        if s.drop_last().contains(s.last()) {
            p
        } else {
            p.push(s.last())
        }
    }
}

impl Document {
    /// The table is well formed: distinct keys, positive counts, and a
    /// total that the counts add up to.
    pub open spec fn wf(self) -> bool {
        &&& keys_distinct(self.terms@)
        &&& forall|i: int| 0 <= i < self.terms@.len() ==> (#[trigger] self.terms@[i]).1 >= 1
        &&& self.term_count == sum_counts(self.terms@)
    }

    /// Occurrences of stem `t` in this document, zero when absent.
    pub open spec fn occ(self, t: Seq<char>) -> nat {
        match lookup(self.terms@, t) {
            Some(c) => c as nat,
            None => 0,
        }
    }

    /// The term table as plain values.
    pub open spec fn terms_view(self) -> Seq<(Seq<char>, nat)> {
        self.terms@.map(|_i: int, e: (String, usize)| (e.0@, e.1 as nat))
    }
}

pub proof fn lemma_lookup_first(s: Seq<(String, usize)>, i: int)
    requires
        keys_distinct(s),
        0 <= i < s.len(),
    ensures
        lookup(s, s[i].0@) == Some(s[i].1),
    decreases s.len(),
{
    if i > 0 {
        assert(s[0].0@ != s[i].0@);
        assert forall|x: int, y: int| 0 <= x < y < s.drop_first().len() implies s.drop_first()[x].0@
            != s.drop_first()[y].0@ by {
            assert(s.drop_first()[x] == s[x + 1] && s.drop_first()[y] == s[y + 1]);
        }
        assert(s.drop_first()[i - 1] == s[i]);
        lemma_lookup_first(s.drop_first(), i - 1);
    }
}

pub proof fn lemma_lookup_absent(s: Seq<(String, usize)>, t: Seq<char>)
    ensures
        (lookup(s, t) is None) <==> !keys_of(s).contains(t),
    decreases s.len(),
{
    if s.len() > 0 {
        lemma_lookup_absent(s.drop_first(), t);
        assert(keys_of(s.drop_first()) =~= keys_of(s).drop_first());
        if s[0].0@ == t {
            assert(keys_of(s)[0] == t);
        } else {
            if keys_of(s).contains(t) {
                let j = choose|j: int| 0 <= j < keys_of(s).len() && keys_of(s)[j] == t;
                assert(keys_of(s).drop_first()[j - 1] == t);
            }
            if keys_of(s).drop_first().contains(t) {
                let j = choose|j: int|
                    0 <= j < keys_of(s).drop_first().len() && keys_of(s).drop_first()[j] == t;
                assert(keys_of(s)[j + 1] == t);
            }
        }
    }
}

pub proof fn lemma_lookup_push(s: Seq<(String, usize)>, e: (String, usize), t: Seq<char>)
    ensures
        lookup(s.push(e), t) == (if lookup(s, t) is Some {
            lookup(s, t)
        } else if e.0@ == t {
            Some(e.1)
        } else {
            None
        }),
    decreases s.len(),
{
    if s.len() == 0 {
        assert(s.push(e)[0] == e);
        assert(s.push(e).drop_first() =~= Seq::<(String, usize)>::empty());
        assert(lookup(Seq::<(String, usize)>::empty(), t) is None);
        assert(lookup(s, t) is None);
        if e.0@ == t {
            assert(lookup(s.push(e), t) == Some(e.1));
        } else {
            assert(lookup(s.push(e), t) == lookup(s.push(e).drop_first(), t));
        }
    } else {
        assert(s.push(e)[0] == s[0]);
        assert(s.push(e).drop_first() =~= s.drop_first().push(e));
        lemma_lookup_push(s.drop_first(), e, t);
    }
}

pub proof fn lemma_lookup_update(s: Seq<(String, usize)>, i: int, e: (String, usize), t: Seq<char>)
    requires
        keys_distinct(s),
        0 <= i < s.len(),
        e.0@ == s[i].0@,
    ensures
        lookup(s.update(i, e), t) == (if t == s[i].0@ {
            Some(e.1)
        } else {
            lookup(s, t)
        }),
    decreases s.len(),
{
    if i == 0 {
        assert(s.update(0, e)[0] == e);
        assert(s.update(0, e).drop_first() =~= s.drop_first());
        if t == s[0].0@ {
        } else {
        }
    } else {
        assert(s.update(i, e)[0] == s[0]);
        assert(s.update(i, e).drop_first() =~= s.drop_first().update(i - 1, e));
        assert forall|x: int, y: int| 0 <= x < y < s.drop_first().len() implies s.drop_first()[x].0@
            != s.drop_first()[y].0@ by {
            assert(s.drop_first()[x] == s[x + 1] && s.drop_first()[y] == s[y + 1]);
        }
        assert(s.drop_first()[i - 1] == s[i]);
        lemma_lookup_update(s.drop_first(), i - 1, e, t);
        if t == s[i].0@ {
            assert(s[0].0@ != s[i].0@);
        }
    }
}

pub proof fn lemma_sum_push(s: Seq<(String, usize)>, e: (String, usize))
    ensures
        sum_counts(s.push(e)) == sum_counts(s) + e.1,
{
    assert(s.push(e).drop_last() =~= s);
}

pub proof fn lemma_sum_update(s: Seq<(String, usize)>, i: int, e: (String, usize))
    requires
        0 <= i < s.len(),
    ensures
        sum_counts(s.update(i, e)) + s[i].1 == sum_counts(s) + e.1,
    decreases s.len(),
{
    if i == s.len() - 1 {
        assert(s.update(i, e).drop_last() =~= s.drop_last());
        assert(s.update(i, e).last() == e);
    } else {
        assert(s.update(i, e).drop_last() =~= s.drop_last().update(i, e));
        assert(s.update(i, e).last() == s.last());
        lemma_sum_update(s.drop_last(), i, e);
    }
}

/// Each count in a well-formed table is at most the total.
pub proof fn lemma_count_le_sum(s: Seq<(String, usize)>, i: int)
    requires
        0 <= i < s.len(),
    ensures
        s[i].1 <= sum_counts(s),
    decreases s.len(),
{
    if i == s.len() - 1 {
    } else {
        lemma_count_le_sum(s.drop_last(), i);
    }
}

pub(crate) fn find_key(terms: &Vec<(String, usize)>, k: &String) -> (r: Option<usize>)
    ensures
        match r {
            Some(i) => i < terms@.len() && terms@[i as int].0@ == k@,
            None => forall|j: int| 0 <= j < terms@.len() ==> (#[trigger] terms@[j]).0@ != k@,
        },
{
    let mut i: usize = 0;
    while i < terms.len()
        invariant
            i <= terms@.len(),
            forall|j: int| 0 <= j < i ==> (#[trigger] terms@[j]).0@ != k@,
        decreases terms@.len() - i,
    {
        if terms[i].0 == *k {
            return Some(i);
        }
        i = i + 1;
    }
    None
}

impl Document {
    /// Index one file's decoded text: detect its language, reject an
    /// unsupported one, drop that language's stop words, stem every
    /// surviving token and count the stems. The term table lists stems in
    /// order of first appearance, each with its occurrence count; the
    /// term count is the number of surviving tokens.
    pub fn from_file(path: &String, text: &Vec<char>, cfg: &StopConfig) -> (r: Result<
        Document,
        IndexError,
    >)
        ensures
            ({
                let lang = spec_detect_lang(text@);
                let stop = cfg.spec_words(lang);
                match r {
                    Ok(d) => {
                        &&& lang.spec_supported()
                        &&& d.wf()
                        &&& d.file_path@ == path@
                        &&& d.language == lang
                        &&& d.term_count == spec_survivors(text@, stop).len()
                        &&& (forall|t: Seq<char>|
                            d.occ(t) == spec_occurrences(text@, stop, lang, t))
                        &&& keys_of(d.terms@) == first_seen(
                            spec_stemmed(spec_tokens(text@), stop, lang),
                        )
                    },
                    Err(e) => e == IndexError::UnsupportedLanguage && !lang.spec_supported(),
                }
            }),
    {
        broadcast use vstd::seq_lib::group_to_multiset_ensures;
        broadcast use Seq::lemma_filter_push;

        let as_string = string_of_chars(text);
        let lang = detect_language(&as_string);
        if !lang.supported() {
            return Err(IndexError::UnsupportedLanguage);
        }
        let stemmer = Stem::from_lang(lang);
        let ghost stop = cfg.spec_words(lang);
        let mut lexer = Lexer::new(text.as_slice());
        let mut terms: Vec<(String, usize)> = Vec::new();
        let mut term_count: usize = 0;
        let ghost toks: Seq<Seq<char>> = Seq::empty();
        let mut more = true;
        proof {
            assert(text@.len() <= usize::MAX) by {
                assert(vstd::std_specs::vec::spec_vec_len(text) == text@.len());
            }
            assert(toks + spec_tokens(lexer@) =~= spec_tokens(text@));
            assert(spec_filtered(toks, stop) =~= Seq::<Seq<char>>::empty());
            assert(spec_stemmed(toks, stop, lang) =~= Seq::<Seq<char>>::empty());
            assert(keys_of(terms@) =~= Seq::<Seq<char>>::empty());
        }
        while more
            invariant
                lexer.wf(),
                stemmer.tag() == lang,
                lang == spec_detect_lang(text@),
                lang.spec_supported(),
                stop == cfg.spec_words(lang),
                text@.len() <= usize::MAX,
                more ==> spec_tokens(text@) == toks + spec_tokens(lexer@),
                !more ==> spec_tokens(text@) == toks,
                toks.len() + lexer@.len() <= text@.len(),
                term_count == spec_filtered(toks, stop).len(),
                sum_counts(terms@) == term_count,
                keys_distinct(terms@),
                forall|i: int|
                    0 <= i < terms@.len() ==> 1 <= (#[trigger] terms@[i]).1 <= term_count,
                forall|t: Seq<char>|
                    (match lookup(terms@, t) {
                        Some(c) => c as nat,
                        None => 0,
                    }) == spec_stemmed(toks, stop, lang).to_multiset().count(t),
                keys_of(terms@) == first_seen(spec_stemmed(toks, stop, lang)),
            decreases lexer@.len() + (if more {
                1int
            } else {
                0int
            }),
        {
            let ghost lex0 = lexer@;
            let next = lexer.next_token();
            match next {
                None => {
                    more = false;
                }
                Some(tok) => {
                    let ghost toks0 = toks;
                    let ghost tr = spec_next_token(lex0)->Some_0;
                    proof {
                        toks = toks.push(tok@);
                        assert(spec_tokens(lex0) == seq![tr.0] + spec_tokens(tr.1));
                        assert(toks0 + spec_tokens(lex0) =~= toks + spec_tokens(lexer@));
                        crate::lexer::lemma_next_token_shrinks(lex0);
                        assert(toks == toks0.push(tok@));
                        assert(spec_filtered(toks, stop) == if !stop.contains(tok@) {
                            spec_filtered(toks0, stop).push(tok@)
                        } else {
                            spec_filtered(toks0, stop)
                        });
                    }
                    if !cfg.is_stop(lang, &tok) {
                        let ghost filt0 = spec_filtered(toks0, stop);
                        let ghost stm0 = spec_stemmed(toks0, stop, lang);
                        proof {
                            assert(spec_filtered(toks, stop) == filt0.push(tok@));
                            assert(spec_stemmed(toks, stop, lang) =~= stm0.push(
                                spec_stem(lang, tok@),
                            ));
                        }
                        term_count = term_count + 1;
                        let stem_tok = stemmer.stem(&tok);
                        let ghost st = spec_stem(lang, tok@);
                        let ghost terms0 = terms@;
                        match find_key(&terms, &stem_tok) {
                            Some(i) => {
                                proof {
                                    lemma_lookup_first(terms0, i as int);
                                    assert(stm0.to_multiset().count(st) > 0);
                                    assert(stm0.contains(st));
                                    assert(first_seen(stm0.push(st)) == first_seen(stm0)) by {
                                        assert(stm0.push(st).drop_last() =~= stm0);
                                    }
                                    lemma_count_le_sum(terms0, i as int);
                                }
                                let c = terms[i].1;
                                let k = terms[i].0.clone();
                                terms[i] = (k, c + 1);
                                proof {
                                    lemma_sum_update(terms0, i as int, terms@[i as int]);
                                    assert forall|t: Seq<char>|
                                        (match lookup(terms@, t) {
                                            Some(cc) => cc as nat,
                                            None => 0,
                                        }) == spec_stemmed(toks, stop, lang).to_multiset().count(
                                        t,
                                    ) by {
                                        lemma_lookup_update(
                                            terms0,
                                            i as int,
                                            terms@[i as int],
                                            t,
                                        );
                                    }
                                    assert(keys_of(terms@) =~= keys_of(terms0));
                                    assert forall|x: int, y: int|
                                        0 <= x < y < terms@.len() implies terms@[x].0@
                                        != terms@[y].0@ by {
                                        assert(keys_of(terms@)[x] == terms@[x].0@);
                                        assert(keys_of(terms0)[x] == terms0[x].0@);
                                        assert(keys_of(terms@)[y] == terms@[y].0@);
                                        assert(keys_of(terms0)[y] == terms0[y].0@);
                                    }
                                }
                            }
                            None => {
                                proof {
                                    lemma_lookup_absent(terms0, st);
                                    assert(!keys_of(terms0).contains(st)) by {
                                        if keys_of(terms0).contains(st) {
                                            let j = choose|j: int|
                                                0 <= j < keys_of(terms0).len() && keys_of(
                                                    terms0,
                                                )[j] == st;
                                            assert(terms0[j].0@ == st);
                                        }
                                    }
                                    assert(lookup(terms0, st) is None);
                                    assert(stm0.to_multiset().count(st) == 0);
                                    assert(!stm0.contains(st));
                                    assert(first_seen(stm0.push(st)) == first_seen(stm0).push(
                                        st,
                                    )) by {
                                        assert(stm0.push(st).drop_last() =~= stm0);
                                    }
                                }
                                terms.push((stem_tok, 1));
                                proof {
                                    lemma_sum_push(terms0, terms@.last());
                                    assert forall|t: Seq<char>|
                                        (match lookup(terms@, t) {
                                            Some(cc) => cc as nat,
                                            None => 0,
                                        }) == spec_stemmed(toks, stop, lang).to_multiset().count(
                                        t,
                                    ) by {
                                        lemma_lookup_push(terms0, terms@.last(), t);
                                    }
                                    assert(keys_of(terms@) =~= keys_of(terms0).push(st));
                                    assert forall|x: int, y: int|
                                        0 <= x < y < terms@.len() implies terms@[x].0@
                                        != terms@[y].0@ by {
                                        if y < terms0.len() {
                                        } else {
                                            assert(keys_of(terms0)[x] == terms0[x].0@);
                                            assert(!keys_of(terms0).contains(st));
                                        }
                                    }
                                }
                            }
                        }
                    } else {
                        proof {
                            assert(spec_stemmed(toks, stop, lang) =~= spec_stemmed(
                                toks0,
                                stop,
                                lang,
                            ));
                        }
                    }
                }
            }
        }
        Ok(Document { file_path: path.clone(), terms, term_count, language: lang })
    }

    /// The term frequency of `term` as an exact fraction: its occurrence
    /// count over the document's surviving token count. Zero occurrences
    /// for a term never seen; always at most one as a fraction.
    pub fn tf(&self, term: &String) -> (r: (usize, usize))
        requires
            self.wf(),
        ensures
            r.0 == self.occ(term@),
            r.1 == self.term_count,
            r.0 <= r.1,
    {
        let ghost terms0 = self.terms@;
        match find_key(&self.terms, term) {
            Some(i) => {
                proof {
                    lemma_lookup_first(terms0, i as int);
                    lemma_count_le_sum(terms0, i as int);
                }
                (self.terms[i].1, self.term_count)
            }
            None => {
                proof {
                    lemma_lookup_absent(terms0, term@);
                    if keys_of(terms0).contains(term@) {
                        let j = choose|j: int|
                            0 <= j < keys_of(terms0).len() && keys_of(terms0)[j] == term@;
                        assert(terms0[j].0@ == term@);
                    }
                }
                (0, self.term_count)
            }
        }
    }
}

/// Indexing is a function of the text, the stop words and the language:
/// two well-formed documents with the same key order and the same counts
/// have the very same term table.
pub proof fn lemma_indexing_deterministic(d1: Document, d2: Document)
    requires
        d1.wf(),
        d2.wf(),
        keys_of(d1.terms@) == keys_of(d2.terms@),
        forall|t: Seq<char>| d1.occ(t) == d2.occ(t),
    ensures
        d1.terms_view() == d2.terms_view(),
{
    assert(keys_of(d1.terms@).len() == d1.terms@.len());
    assert(keys_of(d2.terms@).len() == d2.terms@.len());
    assert forall|i: int| 0 <= i < d1.terms@.len() implies d1.terms_view()[i]
        == d2.terms_view()[i] by {
        assert(keys_of(d1.terms@)[i] == d1.terms@[i].0@);
        assert(keys_of(d2.terms@)[i] == d2.terms@[i].0@);
        lemma_lookup_first(d1.terms@, i);
        lemma_lookup_first(d2.terms@, i);
        assert(d1.occ(d1.terms@[i].0@) == d1.terms@[i].1 as nat);
        assert(d2.occ(d2.terms@[i].0@) == d2.terms@[i].1 as nat);
    }
    assert(d1.terms_view() =~= d2.terms_view());
}

} // verus!
