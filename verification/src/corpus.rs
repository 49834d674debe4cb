//! The corpus: every indexed document, the corpus-wide document
//! frequencies, and TF-IDF ranking.

use vstd::prelude::*;
use crate::document::{find_key, keys_distinct, keys_of, lookup, Document};
use crate::lang::LangTag;
use crate::lexer::{spec_next_token, spec_tokens, spec_trim, Lexer};
use crate::codec::{
    doc_model, docs_models, enc_doc, enc_docs, enc_entries, enc_entry, enc_num, enc_snapshot,
    enc_str, entries_view, lemma_model_sum_entries, lemma_parse_snapshot_enc, models_bounded,
    parse_doc_ex, parse_num_ex, push_num, push_str, spec_parse_doc, spec_parse_docs,
    spec_parse_num, spec_parse_snapshot, spec_restore, valid_doc, valid_models, DocModel,
};
use crate::chars::chars_of_string;
use crate::lang::spec_tag_from_id;
use crate::chars::string_of_chars;
use crate::document::sum_counts;
use crate::logten::{lemma_ip_le_19, lemma_frac_ub, lemma_log10_mono, log10_fixed, spec_log10, bit_weight};
use crate::stemmer::{spec_stem, Stem};

verus! {

broadcast use vstd::seq_lib::group_filter_ensures;

/// Whether a document's term table has the term at all.
pub open spec fn has_term(d: Document, t: Seq<char>) -> bool {
    lookup(d.terms@, t) is Some
}

/// In how many of the documents the term occurs: its document frequency.
pub open spec fn df_count(docs: Seq<Document>, t: Seq<char>) -> nat
    decreases docs.len(),
{
    if docs.len() == 0 {
        0
    } else {
        (df_count(docs.drop_last(), t) + (if has_term(docs.last(), t) {
            1nat
        } else {
            0nat
        })) as nat
    }
}

/// The document stored under a path, if any.
pub open spec fn doc_at(docs: Seq<Document>, p: Seq<char>) -> Option<Document>
    decreases docs.len(),
{
    if docs.len() == 0 {
        None
    } else if docs[0].file_path@ == p {
        Some(docs[0])
    } else {
        doc_at(docs.drop_first(), p)
    }
}

proof fn lemma_df_le_len(docs: Seq<Document>, t: Seq<char>)
    ensures
        df_count(docs, t) <= docs.len(),
    decreases docs.len(),
{
    if docs.len() > 0 {
        lemma_df_le_len(docs.drop_last(), t);
    }
}

proof fn lemma_take_push_contains(keys: Seq<Seq<char>>, j: int, t: Seq<char>)
    requires
        0 <= j < keys.len(),
    ensures
        keys.take(j + 1).contains(t) == (keys.take(j).contains(t) || keys[j] == t),
{
    assert(keys.take(j + 1) =~= keys.take(j).push(keys[j]));
    if keys.take(j + 1).contains(t) {
        let ii = choose|ii: int| 0 <= ii < j + 1 && (#[trigger] keys.take(j + 1)[ii]) == t;
        if ii < j {
            assert(keys.take(j)[ii] == t);
        }
    }
    if keys.take(j).contains(t) {
        let ii = choose|ii: int| 0 <= ii < j && (#[trigger] keys.take(j)[ii]) == t;
        assert(keys.take(j + 1)[ii] == t);
    }
    if keys[j] == t {
        assert(keys.take(j + 1)[j] == t);
    }
}

/// The aggregate index over one folder of documents.
pub struct Corpus {
    pub docs: Vec<Document>,
    doc_freq: Vec<(String, usize)>,
    language: LangTag,
}

impl Corpus {
    /// The stored documents, in insertion order.
    pub closed spec fn spec_docs(self) -> Seq<Document> {
        self.docs@
    }

    /// The corpus-wide language, the one query stemming uses.
    pub closed spec fn spec_language(self) -> LangTag {
        self.language
    }

    /// The recorded document frequency of a term, zero when absent.
    pub closed spec fn spec_df(self, t: Seq<char>) -> nat {
        match lookup(self.doc_freq@, t) {
            Some(c) => c as nat,
            None => 0,
        }
    }

    /// The index is well formed: at least one well-formed document per
    /// path, paths distinct, and the frequency table counting exactly the
    /// documents that hold each term.
    pub closed spec fn wf(self) -> bool {
        &&& self.docs@.len() >= 1
        &&& (forall|i: int| 0 <= i < self.docs@.len() ==> (#[trigger] self.docs@[i]).wf())
        &&& (forall|i: int, j: int|
            0 <= i < j < self.docs@.len() ==> self.docs@[i].file_path@ != self.docs@[j].file_path@)
        &&& keys_distinct(self.doc_freq@)
        &&& (forall|t: Seq<char>| self.spec_df(t) == df_count(self.docs@, t))
        &&& self.language == self.docs@[0].language
    }

    pub fn language(&self) -> (r: LangTag)
        ensures
            r == self.spec_language(),
    {
        self.language
    }

    /// The recorded document frequency of a term, zero when absent.
    pub fn df_of(&self, term: &String) -> (r: usize)
        requires
            self.wf(),
        ensures
            r == self.spec_df(term@),
    {
        match find_key(&self.doc_freq, term) {
            Some(k) => {
                proof {
                    crate::document::lemma_lookup_first(self.doc_freq@, k as int);
                }
                self.doc_freq[k].1
            }
            None => {
                proof {
                    crate::document::lemma_lookup_absent(self.doc_freq@, term@);
                    if keys_of(self.doc_freq@).contains(term@) {
                        let j = choose|j: int|
                            0 <= j < keys_of(self.doc_freq@).len() && keys_of(
                                self.doc_freq@,
                            )[j] == term@;
                        assert(self.doc_freq@[j].0@ == term@);
                    }
                }
                0
            }
        }
    }

    /// Aggregate indexed documents into a corpus: insert each document
    /// under its path and count, for every term, the documents that hold
    /// it; the corpus language is the first document's. The result does
    /// not depend on the order the documents arrive in (see
    /// `lemma_df_order_independent`), only the stored order does.
    pub fn from_documents(docs: Vec<Document>) -> (c: Corpus)
        requires
            docs@.len() >= 1,
            forall|i: int| 0 <= i < docs@.len() ==> (#[trigger] docs@[i]).wf(),
            forall|i: int, j: int|
                0 <= i < j < docs@.len() ==> docs@[i].file_path@ != docs@[j].file_path@,
        ensures
            c.wf(),
            c.spec_docs() == docs@,
            c.spec_language() == docs@[0].language,
            forall|t: Seq<char>| c.spec_df(t) == df_count(docs@, t),
    {
        let mut doc_freq: Vec<(String, usize)> = Vec::new();
        let mut i: usize = 0;
        proof {
            assert(docs@.take(0) =~= Seq::<Document>::empty());
        }
        while i < docs.len()
            invariant
                i <= docs@.len(),
                forall|k: int| 0 <= k < docs@.len() ==> (#[trigger] docs@[k]).wf(),
                keys_distinct(doc_freq@),
                forall|k: int|
                    0 <= k < doc_freq@.len() ==> 1 <= (#[trigger] doc_freq@[k]).1 <= i,
                forall|t: Seq<char>|
                    (match lookup(doc_freq@, t) {
                        Some(c) => c as nat,
                        None => 0,
                    }) == df_count(docs@.take(i as int), t),
            decreases docs@.len() - i,
        {
            let d = &docs[i];
            let ghost keys = keys_of(d.terms@);
            let mut j: usize = 0;
            proof {
                assert(keys.take(0) =~= Seq::<Seq<char>>::empty());
            }
            while j < d.terms.len()
                invariant
                    i < docs@.len(),
                    j <= d.terms@.len(),
                    d == docs@[i as int],
                    d.wf(),
                    keys == keys_of(d.terms@),
                    keys_distinct(doc_freq@),
                    forall|k: int|
                        0 <= k < doc_freq@.len() ==> 1 <= (#[trigger] doc_freq@[k]).1 <= i + 1,
                    forall|t: Seq<char>|
                        (match lookup(doc_freq@, t) {
                            Some(c) => c as nat,
                            None => 0,
                        }) == df_count(docs@.take(i as int), t) + (if keys.take(
                            j as int,
                        ).contains(t) {
                            1nat
                        } else {
                            0nat
                        }),
                decreases d.terms@.len() - j,
            {
                let term = d.terms[j].0.clone();
                let ghost df0 = doc_freq@;
                proof {
                    assert(keys[j as int] == term@);
                    assert(!keys.take(j as int).contains(term@)) by {
                        if keys.take(j as int).contains(term@) {
                            let x = choose|x: int|
                                0 <= x < j && keys.take(j as int)[x] == term@;
                            assert(keys[x] == d.terms@[x].0@);
                            assert(d.terms@[x].0@ == d.terms@[j as int].0@);
                        }
                    }
                    assert(df_count(docs@.take(i as int), term@)
                        <= docs@.take(i as int).len()) by {
                        lemma_df_le_len(docs@.take(i as int), term@);
                    }
                }
                match find_key(&doc_freq, &term) {
                    Some(k) => {
                        proof {
                            crate::document::lemma_lookup_first(df0, k as int);
                        }
                        let c = doc_freq[k].1;
                        let key = doc_freq[k].0.clone();
                        doc_freq[k] = (key, c + 1);
                        proof {
                            assert forall|t: Seq<char>|
                                (match lookup(doc_freq@, t) {
                                    Some(cc) => cc as nat,
                                    None => 0,
                                }) == df_count(docs@.take(i as int), t) + (if keys.take(
                                j as int + 1,
                            ).contains(t) {
                                1nat
                            } else {
                                0nat
                            }) by {
                                assert((match lookup(df0, t) {
                                    Some(cc) => cc as nat,
                                    None => 0,
                                }) == df_count(docs@.take(i as int), t) + (if keys.take(
                                    j as int,
                                ).contains(t) {
                                    1nat
                                } else {
                                    0nat
                                }));
                                crate::document::lemma_lookup_update(
                                    df0,
                                    k as int,
                                    doc_freq@[k as int],
                                    t,
                                );
                                lemma_take_push_contains(keys, j as int, t);
                            }
                            assert(keys_of(doc_freq@) =~= keys_of(df0));
                            assert forall|x: int, y: int|
                                0 <= x < y < doc_freq@.len() implies doc_freq@[x].0@
                                != doc_freq@[y].0@ by {
                                assert(keys_of(doc_freq@)[x] == doc_freq@[x].0@);
                                assert(keys_of(df0)[x] == df0[x].0@);
                                assert(keys_of(doc_freq@)[y] == doc_freq@[y].0@);
                                assert(keys_of(df0)[y] == df0[y].0@);
                            }
                        }
                    }
                    None => {
                        doc_freq.push((term, 1));
                        proof {
                            assert forall|t: Seq<char>|
                                (match lookup(doc_freq@, t) {
                                    Some(cc) => cc as nat,
                                    None => 0,
                                }) == df_count(docs@.take(i as int), t) + (if keys.take(
                                j as int + 1,
                            ).contains(t) {
                                1nat
                            } else {
                                0nat
                            }) by {
                                assert((match lookup(df0, t) {
                                    Some(cc) => cc as nat,
                                    None => 0,
                                }) == df_count(docs@.take(i as int), t) + (if keys.take(
                                    j as int,
                                ).contains(t) {
                                    1nat
                                } else {
                                    0nat
                                }));
                                crate::document::lemma_lookup_push(df0, doc_freq@.last(), t);
                                lemma_take_push_contains(keys, j as int, t);
                                crate::document::lemma_lookup_absent(df0, t);
                                if t == term@ {
                                    if keys_of(df0).contains(term@) {
                                        let w = choose|w: int|
                                            0 <= w < keys_of(df0).len() && keys_of(df0)[w]
                                                == term@;
                                        assert(df0[w].0@ == term@);
                                    }
                                    assert(lookup(df0, term@) is None);
                                }
                            }
                            assert forall|x: int, y: int|
                                0 <= x < y < doc_freq@.len() implies doc_freq@[x].0@
                                != doc_freq@[y].0@ by {
                                if y == doc_freq@.len() - 1 {
                                    assert(doc_freq@[y].0@ == term@);
                                    assert(df0[x].0@ != term@);
                                    assert(doc_freq@[x] == df0[x]);
                                }
                            }
                        }
                    }
                }
                j = j + 1;
            }
            proof {
                let ghost prev = docs@.take(i as int);
                assert(docs@.take(i as int + 1).drop_last() =~= prev);
                assert(docs@.take(i as int + 1).last() == docs@[i as int]);
                assert forall|t: Seq<char>| #![trigger lookup(doc_freq@, t)]
                    (match lookup(doc_freq@, t) {
                        Some(c) => c as nat,
                        None => 0,
                    }) == df_count(docs@.take(i as int + 1), t) by {
                    crate::document::lemma_lookup_absent(docs@[i as int].terms@, t);
                    if keys.contains(t) {
                        assert(has_term(docs@[i as int], t));
                    } else {
                        assert(!has_term(docs@[i as int], t));
                    }
                    assert(keys.take(j as int) =~= keys);
                }
            }
            i = i + 1;
        }
        proof {
            assert(docs@.take(docs@.len() as int) =~= docs@);
        }
        let language = docs[0].language;
        Corpus { docs, doc_freq, language }
    }

    /// The scaled inverse document frequency of a term:
    /// `SCALE * log10(doc_count / max(df, 1))`, in units of 1/65536.
    pub closed spec fn spec_idf(self, t: Seq<char>) -> nat {
        spec_log10(
            self.docs@.len(),
            if self.spec_df(t) == 0 {
                1
            } else {
                self.spec_df(t)
            },
        )
    }

    fn idf(&self, term: &String) -> (r: u64)
        requires
            self.wf(),
        ensures
            r == self.spec_idf(term@),
            r < 1310720,
    {
        proof {
            assert(self.spec_df(term@) == df_count(self.docs@, term@));
            lemma_df_le_len(self.docs@, term@);
            assert(vstd::std_specs::vec::spec_vec_len(&self.docs) == self.docs@.len());
        }
        let n: u64 = self.docs.len() as u64;
        let df: usize = match find_key(&self.doc_freq, term) {
            Some(k) => {
                proof {
                    crate::document::lemma_lookup_first(self.doc_freq@, k as int);
                }
                self.doc_freq[k].1
            }
            None => {
                proof {
                    crate::document::lemma_lookup_absent(self.doc_freq@, term@);
                    if keys_of(self.doc_freq@).contains(term@) {
                        let j = choose|j: int|
                            0 <= j < keys_of(self.doc_freq@).len() && keys_of(
                                self.doc_freq@,
                            )[j] == term@;
                        assert(self.doc_freq@[j].0@ == term@);
                    }
                }
                0
            }
        };
        let d: u64 = if df == 0 {
            1
        } else {
            df as u64
        };
        proof {
            lemma_ip_le_19(n as nat, d as nat);
            lemma_frac_ub(n as nat, d as nat * crate::logten::pow10(
                crate::logten::ip_steps(n as nat, d as nat),
            ), 16);
            assert(bit_weight(16) == 65536) by {
                reveal_with_fuel(bit_weight, 17);
            }
        }
        log10_fixed(n, d)
    }
}

/// `idf` never moves against popularity: a term in at least as many
/// documents has at most the inverse document frequency of a rarer term.
pub proof fn lemma_idf_monotone(c: Corpus, t1: Seq<char>, t2: Seq<char>)
    requires
        c.wf(),
        c.spec_df(t1) >= c.spec_df(t2),
    ensures
        c.spec_idf(t1) <= c.spec_idf(t2),
{
    let n = c.docs@.len();
    let d1: nat = if c.spec_df(t1) == 0 {
        1
    } else {
        c.spec_df(t1)
    };
    let d2: nat = if c.spec_df(t2) == 0 {
        1
    } else {
        c.spec_df(t2)
    };
    lemma_df_le_len(c.docs@, t1);
    lemma_df_le_len(c.docs@, t2);
    assert(c.spec_df(t1) == df_count(c.docs@, t1));
    assert(c.spec_df(t2) == df_count(c.docs@, t2));
    assert(d2 <= d1);
    assert(n * d2 <= n * d1) by (nonlinear_arith)
        requires
            d2 <= d1,
            n >= 0,
    ;
    lemma_log10_mono(n, d1, n, d2);
}

/// Document frequency is a function of the multiset of documents alone:
/// any arrival order — any split across workers — yields the same counts.
pub proof fn lemma_df_order_independent(d1: Seq<Document>, d2: Seq<Document>, t: Seq<char>)
    requires
        d1.to_multiset() == d2.to_multiset(),
    ensures
        df_count(d1, t) == df_count(d2, t),
    decreases d1.len(),
{
    broadcast use vstd::seq_lib::group_to_multiset_ensures;

    d1.to_multiset_ensures();
    d2.to_multiset_ensures();
    if d1.len() == 0 {
        assert(d2.len() == 0);
    } else {
        let x = d1.last();
        assert(d1.drop_last().push(x) =~= d1);
        assert(d1.to_multiset().count(x) > 0);
        assert(d2.to_multiset().count(x) > 0);
        assert(d2.contains(x));
        let j = choose|j: int| 0 <= j < d2.len() && d2[j] == x;
        assert(d1.drop_last().to_multiset() =~= d2.remove(j).to_multiset()) by {
            assert(d1.drop_last().to_multiset() == d1.to_multiset().remove(x));
            assert(d2.remove(j).to_multiset() == d2.to_multiset().remove(d2[j]));
        }
        lemma_df_order_independent(d1.drop_last(), d2.remove(j), t);
        lemma_df_remove(d2, j, t);
    }
}

proof fn lemma_df_remove(docs: Seq<Document>, j: int, t: Seq<char>)
    requires
        0 <= j < docs.len(),
    ensures
        df_count(docs, t) == df_count(docs.remove(j), t) + (if has_term(docs[j], t) {
            1nat
        } else {
            0nat
        }),
    decreases docs.len(),
{
    if j == docs.len() - 1 {
        assert(docs.remove(j) =~= docs.drop_last());
    } else {
        assert(docs.remove(j).drop_last() =~= docs.drop_last().remove(j));
        assert(docs.remove(j).last() == docs.last());
        lemma_df_remove(docs.drop_last(), j, t);
    }
}

/// The path-to-document view is a function of the multiset of documents
/// alone, as long as paths are distinct.
pub proof fn lemma_docs_order_independent(d1: Seq<Document>, d2: Seq<Document>, p: Seq<char>)
    requires
        d1.to_multiset() == d2.to_multiset(),
        forall|i: int, j: int| 0 <= i < j < d1.len() ==> d1[i].file_path@ != d1[j].file_path@,
    ensures
        doc_at(d1, p) == doc_at(d2, p),
    decreases d1.len(),
{
    broadcast use vstd::seq_lib::group_to_multiset_ensures;

    d1.to_multiset_ensures();
    d2.to_multiset_ensures();
    if d1.len() == 0 {
        assert(d2.len() == 0);
    } else {
        let x = d1.last();
        assert(d1.drop_last().push(x) =~= d1);
        assert(d1.to_multiset().count(x) > 0);
        assert(d2.to_multiset().count(x) > 0);
        assert(d2.contains(x));
        let j = choose|j: int| 0 <= j < d2.len() && d2[j] == x;
        assert(d1.drop_last().to_multiset() =~= d2.remove(j).to_multiset()) by {
            assert(d1.drop_last().to_multiset() == d1.to_multiset().remove(x));
            assert(d2.remove(j).to_multiset() == d2.to_multiset().remove(d2[j]));
        }
        assert forall|a: int, b: int|
            0 <= a < b < d1.drop_last().len() implies d1.drop_last()[a].file_path@
            != d1.drop_last()[b].file_path@ by {
            assert(d1[a] == d1.drop_last()[a] && d1[b] == d1.drop_last()[b]);
        }
        lemma_docs_order_independent(d1.drop_last(), d2.remove(j), p);
        assert forall|a: int|
            0 <= a < d1.drop_last().len() implies (#[trigger] d1.drop_last()[a]).file_path@
            != x.file_path@ by {
            assert(d1[a] == d1.drop_last()[a]);
            assert(d1[a].file_path@ != d1[d1.len() - 1].file_path@);
        }
        assert forall|a: int|
            p == x.file_path@ && 0 <= a < d2.remove(j).len() implies (#[trigger] d2.remove(
                j,
            )[a]).file_path@ != x.file_path@ by {
            let e = d2.remove(j)[a];
            assert(d2.remove(j).contains(e));
            d2.remove(j).to_multiset_ensures();
            d1.drop_last().to_multiset_ensures();
            assert(d2.remove(j).to_multiset().count(e) > 0);
            assert(d1.drop_last().to_multiset().count(e) > 0);
            assert(d1.drop_last().contains(e));
            let idx = choose|idx: int|
                0 <= idx < d1.drop_last().len() && d1.drop_last()[idx] == e;
            assert(d1.drop_last()[idx].file_path@ != x.file_path@);
        }
        lemma_doc_at_insert(d2.remove(j), j, x, p);
        assert(d2.remove(j).insert(j, x) =~= d2);
        lemma_doc_at_push(d1.drop_last(), x, p);
        if p == x.file_path@ {
            lemma_doc_at_none(d1.drop_last(), p, x.file_path@);
        }
    }
}

/// Appending a document only answers for its own path, and only when that
/// path was absent.
proof fn lemma_doc_at_push(docs: Seq<Document>, x: Document, p: Seq<char>)
    ensures
        doc_at(docs.push(x), p) == (if doc_at(docs, p) is Some {
            doc_at(docs, p)
        } else if p == x.file_path@ {
            Some(x)
        } else {
            None
        }),
    decreases docs.len(),
{
    if docs.len() == 0 {
        assert(docs.push(x)[0] == x);
        assert(docs.push(x).drop_first() =~= Seq::<Document>::empty());
    } else {
        assert(docs.push(x)[0] == docs[0]);
        assert(docs.push(x).drop_first() =~= docs.drop_first().push(x));
        lemma_doc_at_push(docs.drop_first(), x, p);
    }
}

/// Looking up a path not held by `x` ignores an insertion of `x`; looking
/// up `x`'s own path finds `x` when no other document has that path.
proof fn lemma_doc_at_insert(docs: Seq<Document>, j: int, x: Document, p: Seq<char>)
    requires
        0 <= j <= docs.len(),
        p == x.file_path@ ==> forall|i: int|
            0 <= i < docs.len() ==> (#[trigger] docs[i]).file_path@ != x.file_path@,
    ensures
        doc_at(docs.insert(j, x), p) == (if p == x.file_path@ {
            Some(x)
        } else {
            doc_at(docs, p)
        }),
    decreases docs.len(), j,
{
    let s = docs.insert(j, x);
    if j == 0 {
        assert(s[0] == x);
        assert(s.drop_first() =~= docs);
    } else {
        assert(s[0] == docs[0]);
        assert(s.drop_first() =~= docs.drop_first().insert(j - 1, x));
        assert forall|i: int|
            p == x.file_path@ && 0 <= i < docs.drop_first().len() implies (
        #[trigger] docs.drop_first()[i]).file_path@ != x.file_path@ by {
            assert(docs.drop_first()[i] == docs[i + 1]);
        }
        lemma_doc_at_insert(docs.drop_first(), j - 1, x, p);
        if p == x.file_path@ {
            assert(docs[0].file_path@ != p);
        }
    }
}

proof fn lemma_doc_at_none(docs: Seq<Document>, p: Seq<char>, q: Seq<char>)
    requires
        forall|i: int| 0 <= i < docs.len() ==> (#[trigger] docs[i]).file_path@ != q,
        p == q,
    ensures
        doc_at(docs, p) is None,
    decreases docs.len(),
{
    if docs.len() > 0 {
        assert forall|i: int|
            0 <= i < docs.drop_first().len() implies (#[trigger] docs.drop_first()[i]).file_path@
            != q by {
            assert(docs.drop_first()[i] == docs[i + 1]);
        }
        lemma_doc_at_none(docs.drop_first(), p, q);
    }
}

proof fn lemma_doc_at_found(docs: Seq<Document>, j: int, p: Seq<char>)
    requires
        0 <= j < docs.len(),
        docs[j].file_path@ == p,
        forall|i: int, k: int| 0 <= i < k < docs.len() ==> docs[i].file_path@ != docs[k].file_path@,
    ensures
        doc_at(docs, p) == Some(docs[j]),
    decreases docs.len(),
{
    if j > 0 {
        assert(docs[0].file_path@ != p);
        assert forall|i: int, k: int|
            0 <= i < k < docs.drop_first().len() implies docs.drop_first()[i].file_path@
            != docs.drop_first()[k].file_path@ by {
            assert(docs.drop_first()[i] == docs[i + 1] && docs.drop_first()[k] == docs[k + 1]);
        }
        assert(docs.drop_first()[j - 1] == docs[j]);
        lemma_doc_at_found(docs.drop_first(), j - 1, p);
    }
}

/// A document's score for a query: an exact fraction. `num` is the sum,
/// over the stemmed query tokens, of occurrence count times scaled inverse
/// document frequency (saturating in 64 bits); `den` is the document's
/// surviving token count. The real-valued score is `num / (SCALE * den)`.
#[derive(Clone, Copy, PartialEq, Eq, Structural, Debug)]
pub struct Score {
    pub num: u64,
    pub den: u64,
}

pub open spec fn den1(s: Score) -> nat {
    if s.den == 0 {
        1nat
    } else {
        s.den as nat
    }
}

/// Strict comparison of two scores as exact fractions.
pub open spec fn score_lt(a: Score, b: Score) -> bool {
    (a.num as nat) * den1(b) < (b.num as nat) * den1(a)
}

fn score_lt_ex(a: &Score, b: &Score) -> (r: bool)
    ensures
        r == score_lt(*a, *b),
{
    let da: u128 = if a.den == 0 {
        1
    } else {
        a.den as u128
    };
    let db: u128 = if b.den == 0 {
        1
    } else {
        b.den as u128
    };
    proof {
        assert((a.num as nat) * (db as nat) < 0x1_0000_0000_0000_0000_0000_0000_0000_0000)
            by (nonlinear_arith)
            requires
                a.num <= 0xffff_ffff_ffff_ffff,
                db <= 0xffff_ffff_ffff_ffff,
        ;
        assert((b.num as nat) * (da as nat) < 0x1_0000_0000_0000_0000_0000_0000_0000_0000)
            by (nonlinear_arith)
            requires
                b.num <= 0xffff_ffff_ffff_ffff,
                da <= 0xffff_ffff_ffff_ffff,
        ;
    }
    (a.num as u128) * db < (b.num as u128) * da
}

/// If `a` is no better than `b` and `b` is beaten by `c`, then `a` is
/// beaten by `c`: the fraction order is transitive.
proof fn lemma_score_lt_step(a: Score, b: Score, c: Score)
    requires
        !score_lt(b, a),
        score_lt(b, c),
    ensures
        score_lt(a, c),
{
    let an = a.num as nat;
    let bn = b.num as nat;
    let cn = c.num as nat;
    assert(an * den1(c) < cn * den1(a)) by (nonlinear_arith)
        requires
            bn * den1(a) >= an * den1(b),
            bn * den1(c) < cn * den1(b),
            den1(a) >= 1,
            den1(b) >= 1,
            den1(c) >= 1,
    ;
}

pub open spec fn sat_add64(a: nat, b: nat) -> nat {
    if a + b > u64::MAX {
        u64::MAX as nat
    } else {
        a + b
    }
}

pub open spec fn sat_mul64(a: nat, b: nat) -> nat {
    if a * b > u64::MAX {
        u64::MAX as nat
    } else {
        a * b
    }
}

/// The score numerator of one document for a stemmed query: the sum over
/// the query's stemmed tokens of occurrences times scaled idf, saturating
/// in 64 bits.
pub open spec fn spec_score_num(c: Corpus, d: Document, stems: Seq<Seq<char>>) -> nat
    decreases stems.len(),
{
    if stems.len() == 0 {
        0
    } else {
        sat_add64(
            spec_score_num(c, d, stems.drop_last()),
            sat_mul64(d.occ(stems.last()), c.spec_idf(stems.last())),
        )
    }
}

pub open spec fn pairs_view(s: Seq<(String, Score)>) -> Seq<(Seq<char>, Score)> {
    s.map(|_i: int, e: (String, Score)| (e.0@, e.1))
}

/// Every document of the corpus scored against a stemmed query, in the
/// corpus's document order.
pub open spec fn spec_scored(c: Corpus, stems: Seq<Seq<char>>) -> Seq<(Seq<char>, Score)> {
    c.spec_docs().map(
        |_i: int, d: Document|
            (
                d.file_path@,
                Score { num: spec_score_num(c, d, stems) as u64, den: d.term_count as u64 },
            ),
    )
}

/// Insert into a descending list: after everything not worse, before the
/// first strictly worse entry, so equal scores keep their arrival order.
pub open spec fn insert_desc(
    x: (Seq<char>, Score),
    s: Seq<(Seq<char>, Score)>,
) -> Seq<(Seq<char>, Score)>
    decreases s.len(),
{
    if s.len() == 0 {
        seq![x]
    } else if score_lt(s[0].1, x.1) {
        seq![x] + s
    } else {
        seq![s[0]] + insert_desc(x, s.drop_first())
    }
}

/// Stable insertion sort, descending by score.
pub open spec fn sort_desc(s: Seq<(Seq<char>, Score)>) -> Seq<(Seq<char>, Score)>
    decreases s.len(),
{
    if s.len() == 0 {
        s
    } else {
        insert_desc(s.last(), sort_desc(s.drop_last()))
    }
}

pub open spec fn sorted_desc(s: Seq<(Seq<char>, Score)>) -> bool {
    forall|i: int, j: int| 0 <= i < j < s.len() ==> !score_lt(s[i].1, s[j].1)
}

/// What a search returns: every document with a positive score, best
/// first, ties in document order.
pub open spec fn spec_classify(c: Corpus, q: Seq<char>) -> Seq<(Seq<char>, Score)> {
    let stems = spec_tokens(q).map(|_i: int, t: Seq<char>| spec_stem(c.spec_language(), t));
    sort_desc(spec_scored(c, stems)).filter(|p: (Seq<char>, Score)| p.1.num > 0)
}

/// Ranking is deterministic: two runs of `classify` on one corpus and one
/// query return the same ordered list — the contract pins the list down to
/// the order, ties resolved by document order.
pub proof fn lemma_classify_deterministic(
    c: Corpus,
    q: Seq<char>,
    r1: Seq<(Seq<char>, Score)>,
    r2: Seq<(Seq<char>, Score)>,
)
    requires
        r1 == spec_classify(c, q),
        r2 == spec_classify(c, q),
    ensures
        r1 == r2,
{
}

proof fn lemma_insert_desc_at(x: (Seq<char>, Score), s: Seq<(Seq<char>, Score)>, pos: int)
    requires
        0 <= pos <= s.len(),
        forall|k: int| 0 <= k < pos ==> !score_lt((#[trigger] s[k]).1, x.1),
        pos < s.len() ==> score_lt(s[pos].1, x.1),
    ensures
        insert_desc(x, s) == s.take(pos) + seq![x] + s.skip(pos),
    decreases s.len(),
{
    if s.len() == 0 {
        assert(insert_desc(x, s) =~= s.take(pos) + seq![x] + s.skip(pos));
    } else if pos == 0 {
        assert(score_lt(s[0].1, x.1));
        assert(insert_desc(x, s) =~= s.take(0) + seq![x] + s.skip(0));
    } else {
        assert(!score_lt(s[0].1, x.1));
        assert forall|k: int| 0 <= k < pos - 1 implies !score_lt(
            (#[trigger] s.drop_first()[k]).1,
            x.1,
        ) by {
            assert(s.drop_first()[k] == s[k + 1]);
        }
        if pos - 1 < s.drop_first().len() {
            assert(s.drop_first()[pos - 1] == s[pos]);
        }
        lemma_insert_desc_at(x, s.drop_first(), pos - 1);
        assert(s.take(pos) + seq![x] + s.skip(pos) =~= seq![s[0]] + (s.drop_first().take(pos - 1)
            + seq![x] + s.drop_first().skip(pos - 1)));
    }
}

fn insert_sorted(v: &mut Vec<(String, Score)>, x: (String, Score))
    requires
        sorted_desc(pairs_view(old(v)@)),
    ensures
        pairs_view(final(v)@) == insert_desc((x.0@, x.1), pairs_view(old(v)@)),
        sorted_desc(pairs_view(final(v)@)),
{
    let ghost s0 = pairs_view(v@);
    let mut pos: usize = 0;
    while pos < v.len() && !score_lt_ex(&v[pos].1, &x.1)
        invariant
            pos <= v@.len(),
            v@ == old(v)@,
            forall|k: int| 0 <= k < pos ==> !score_lt((#[trigger] s0[k]).1, x.1),
        decreases v@.len() - pos,
    {
        proof {
            assert(s0[pos as int].1 == v@[pos as int].1);
        }
        pos = pos + 1;
    }
    proof {
        if pos < v@.len() {
            assert(s0[pos as int].1 == v@[pos as int].1);
            assert(score_lt(s0[pos as int].1, x.1));
        }
        lemma_insert_desc_at((x.0@, x.1), s0, pos as int);
    }
    v.insert(pos, x);
    proof {
        assert(pairs_view(v@) =~= s0.take(pos as int) + seq![(x.0@, x.1)] + s0.skip(pos as int));
        let r = pairs_view(v@);
        assert forall|i: int, j: int| 0 <= i < j < r.len() implies !score_lt(r[i].1, r[j].1) by {
            if i < pos && j < pos {
                assert(r[i] == s0[i] && r[j] == s0[j]);
            } else if i < pos && j == pos {
                assert(r[i] == s0[i]);
            } else if i < pos && j > pos {
                assert(r[i] == s0[i] && r[j] == s0[j - 1]);
            } else if i == pos && j > pos {
                assert(r[j] == s0[j - 1]);
                assert(!score_lt(s0[pos as int - 1].1, x.1) || pos == 0);
                assert(score_lt(s0[pos as int].1, x.1));
                lemma_score_lt_step(s0[j - 1].1, s0[pos as int].1, x.1);
            } else {
                assert(r[i] == s0[i - 1] && r[j] == s0[j - 1]);
            }
        }
    }
}

impl Corpus {
    fn score_num(&self, d: &Document, stems: &Vec<String>) -> (r: u64)
        requires
            self.wf(),
            d.wf(),
        ensures
            r as nat == spec_score_num(*self, *d, stems.deep_view()),
    {
        let mut num: u64 = 0;
        let mut j: usize = 0;
        proof {
            assert(stems.deep_view().take(0) =~= Seq::<Seq<char>>::empty());
        }
        while j < stems.len()
            invariant
                self.wf(),
                d.wf(),
                j <= stems@.len(),
                num as nat == spec_score_num(*self, *d, stems.deep_view().take(j as int)),
            decreases stems@.len() - j,
        {
            let occ = d.tf(&stems[j]).0;
            let idf_v = self.idf(&stems[j]);
            let prod: u64 = match (occ as u64).checked_mul(idf_v) {
                Some(p) => p,
                None => u64::MAX,
            };
            num = num.saturating_add(prod);
            proof {
                let dv = stems.deep_view();
                assert(dv.take(j as int + 1).drop_last() =~= dv.take(j as int));
                assert(dv.take(j as int + 1).last() == dv[j as int]);
                assert(dv[j as int] == stems@[j as int]@);
            }
            j = j + 1;
        }
        proof {
            assert(stems.deep_view().take(stems@.len() as int) =~= stems.deep_view());
        }
        num
    }

    /// Rank every document of the corpus against a free-text query: stem
    /// the query's tokens with the corpus language, score each document by
    /// TF-IDF, sort descending (stable, so ties keep document order) and
    /// drop everything with a zero score.
    pub fn classify(&self, terms: Lexer) -> (r: Vec<(String, Score)>)
        requires
            self.wf(),
            terms.wf(),
        ensures
            pairs_view(r@) == spec_classify(*self, terms@),
            sorted_desc(pairs_view(r@)),
            forall|k: int| 0 <= k < r@.len() ==> (#[trigger] pairs_view(r@)[k]).1.num > 0,
    {
        let ghost q = terms@;
        let mut lex = terms;
        let mut toks: Vec<String> = Vec::new();
        let mut more = true;
        proof {
            assert(toks.deep_view() + spec_tokens(lex@) =~= spec_tokens(q));
        }
        while more
            invariant
                lex.wf(),
                more ==> spec_tokens(q) == toks.deep_view() + spec_tokens(lex@),
                !more ==> spec_tokens(q) == toks.deep_view(),
            decreases lex@.len() + (if more {
                1int
            } else {
                0int
            }),
        {
            let ghost lex0 = lex@;
            match lex.next_token() {
                None => {
                    more = false;
                }
                Some(tok) => {
                    proof {
                        crate::lexer::lemma_next_token_shrinks(lex0);
                    }
                    let ghost tv0 = toks.deep_view();
                    toks.push(tok);
                    proof {
                        assert(toks.deep_view() =~= tv0.push(
                            spec_next_token(lex0)->Some_0.0,
                        ));
                        assert(tv0 + spec_tokens(lex0) =~= toks.deep_view() + spec_tokens(lex@));
                    }
                }
            }
        }
        let stemmer = Stem::from_lang(self.language);
        let ghost lang = self.spec_language();
        let mut stems: Vec<String> = Vec::new();
        let mut j: usize = 0;
        let ghost stems_spec = spec_tokens(q).map(
            |_i: int, t: Seq<char>| spec_stem(lang, t),
        );
        while j < toks.len()
            invariant
                j <= toks@.len(),
                stemmer.tag() == lang,
                toks.deep_view() == spec_tokens(q),
                stems_spec == spec_tokens(q).map(|_i: int, t: Seq<char>| spec_stem(lang, t)),
                stems.deep_view() == stems_spec.take(j as int),
            decreases toks@.len() - j,
        {
            let st = stemmer.stem(&toks[j]);
            let ghost sv0 = stems.deep_view();
            stems.push(st);
            proof {
                assert(toks.deep_view()[j as int] == toks@[j as int]@);
                assert(stems.deep_view() =~= sv0.push(spec_stem(lang, toks@[j as int]@)));
                assert(stems.deep_view() =~= stems_spec.take(j as int + 1));
            }
            j = j + 1;
        }
        proof {
            assert(stems.deep_view() =~= stems_spec);
        }
        let mut scored: Vec<(String, Score)> = Vec::new();
        let mut i: usize = 0;
        proof {
            assert(pairs_view(scored@) =~= spec_scored(*self, stems_spec).take(0));
        }
        while i < self.docs.len()
            invariant
                self.wf(),
                i <= self.docs@.len(),
                stems.deep_view() == stems_spec,
                pairs_view(scored@) == spec_scored(*self, stems_spec).take(i as int),
            decreases self.docs@.len() - i,
        {
            let num = self.score_num(&self.docs[i], &stems);
            let den = self.docs[i].term_count as u64;
            let ghost pv0 = pairs_view(scored@);
            scored.push((self.docs[i].file_path.clone(), Score { num, den }));
            proof {
                assert(pairs_view(scored@) =~= pv0.push(
                    (
                        self.docs@[i as int].file_path@,
                        Score {
                            num: spec_score_num(*self, self.docs@[i as int], stems_spec) as u64,
                            den: self.docs@[i as int].term_count as u64,
                        },
                    ),
                ));
                assert(spec_scored(*self, stems_spec).take(i as int + 1) =~= spec_scored(
                    *self,
                    stems_spec,
                ).take(i as int).push(spec_scored(*self, stems_spec)[i as int]));
            }
            i = i + 1;
        }
        proof {
            assert(spec_scored(*self, stems_spec).take(self.docs@.len() as int) =~= spec_scored(
                *self,
                stems_spec,
            ));
        }
        let mut sorted_v: Vec<(String, Score)> = Vec::new();
        let mut k: usize = 0;
        let ghost sc = pairs_view(scored@);
        proof {
            assert(sc.take(0) =~= Seq::<(Seq<char>, Score)>::empty());
        }
        while k < scored.len()
            invariant
                k <= scored@.len(),
                sc == pairs_view(scored@),
                pairs_view(sorted_v@) == sort_desc(sc.take(k as int)),
                sorted_desc(pairs_view(sorted_v@)),
            decreases scored@.len() - k,
        {
            let item = (scored[k].0.clone(), scored[k].1);
            proof {
                assert((item.0@, item.1) == sc[k as int]);
                assert(sc.take(k as int + 1).drop_last() =~= sc.take(k as int));
                assert(sc.take(k as int + 1).last() == sc[k as int]);
            }
            insert_sorted(&mut sorted_v, item);
            k = k + 1;
        }
        proof {
            assert(sc.take(scored@.len() as int) =~= sc);
        }
        let mut out: Vec<(String, Score)> = Vec::new();
        let mut m: usize = 0;
        let ghost sv = pairs_view(sorted_v@);
        proof {
            assert(sv.take(0) =~= Seq::<(Seq<char>, Score)>::empty());
            assert(pairs_view(out@) =~= sv.take(0).filter(
                |p: (Seq<char>, Score)| p.1.num > 0,
            ));
        }
        while m < sorted_v.len()
            invariant
                m <= sorted_v@.len(),
                sv == pairs_view(sorted_v@),
                sorted_desc(sv),
                pairs_view(out@) == sv.take(m as int).filter(
                    |p: (Seq<char>, Score)| p.1.num > 0,
                ),
                sorted_desc(pairs_view(out@)),
                forall|k2: int|
                    0 <= k2 < pairs_view(out@).len() ==> (#[trigger] pairs_view(
                        out@,
                    )[k2]).1.num > 0,
                forall|k2: int, k3: int|
                    0 <= k2 < pairs_view(out@).len() && m <= k3 < sv.len() ==> !score_lt(
                        (#[trigger] pairs_view(out@)[k2]).1,
                        (#[trigger] sv[k3]).1,
                    ),
            decreases sorted_v@.len() - m,
        {
            broadcast use Seq::lemma_filter_push;

            let keep = sorted_v[m].1.num > 0;
            proof {
                assert(sv.take(m as int + 1).drop_last() =~= sv.take(m as int));
                assert(sv.take(m as int + 1).last() == sv[m as int]);
                assert(sv.take(m as int + 1) == sv.take(m as int).push(sv[m as int]));
            }
            if keep {
                let item = (sorted_v[m].0.clone(), sorted_v[m].1);
                let ghost ov0 = pairs_view(out@);
                proof {
                    assert((item.0@, item.1) == sv[m as int]);
                }
                out.push(item);
                proof {
                    assert(pairs_view(out@) =~= ov0.push(sv[m as int]));
                }
            }
            m = m + 1;
        }
        proof {
            assert(sv.take(sorted_v@.len() as int) =~= sv);
        }
        out
    }
}

impl Corpus {
    /// Write the corpus to its snapshot text.
    #[verifier::rlimit(100)]
    pub fn snapshot(&self) -> (r: String)
        requires
            self.wf(),
        ensures
            r@ == enc_snapshot(docs_models(self.spec_docs())),
    {
        let mut out: Vec<char> = Vec::new();
        proof {
            assert(vstd::std_specs::vec::spec_vec_len(&self.docs) == self.docs@.len());
        }
        push_num(&mut out, self.docs.len() as u64);
        let ghost head = out@;
        let mut i: usize = 0;
        proof {
            assert(docs_models(self.spec_docs()).take(0) =~= Seq::<DocModel>::empty());
            assert(out@ =~= head + enc_docs(docs_models(self.spec_docs()).take(0)));
        }
        while i < self.docs.len()
            invariant
                self.wf(),
                i <= self.docs@.len(),
                head == enc_num(self.docs@.len() as nat),
                out@ == head + enc_docs(docs_models(self.spec_docs()).take(i as int)),
            decreases self.docs@.len() - i,
        {
            let d = &self.docs[i];
            let ghost m = doc_model(self.docs@[i as int]);
            let ghost before = out@;
            push_str(&mut out, &d.file_path);
            push_num(&mut out, d.language.id());
            proof {
                assert(vstd::std_specs::vec::spec_vec_len(&d.terms) == d.terms@.len());
            }
            push_num(&mut out, d.terms.len() as u64);
            let mut j: usize = 0;
            let ghost dhead = out@;
            proof {
                assert(m.terms.take(0) =~= Seq::<(Seq<char>, nat)>::empty());
                assert(out@ =~= dhead + enc_entries(m.terms.take(0)));
            }
            while j < d.terms.len()
                invariant
                    j <= d.terms@.len(),
                    d == self.docs@[i as int],
                    m == doc_model(self.docs@[i as int]),
                    m.terms.len() == d.terms@.len(),
                    out@ == dhead + enc_entries(m.terms.take(j as int)),
                decreases d.terms@.len() - j,
            {
                let ghost before_e = out@;
                push_str(&mut out, &d.terms[j].0);
                proof {
                    assert(d.terms@[j as int].1 <= sum_counts(d.terms@)) by {
                        crate::document::lemma_count_le_sum(d.terms@, j as int);
                    }
                }
                push_num(&mut out, d.terms[j].1 as u64);
                proof {
                    assert(m.terms[j as int] == (d.terms@[j as int].0@, d.terms@[j as int].1 as nat));
                    assert(out@ =~= before_e + enc_entry(m.terms[j as int]));
                    assert(m.terms.take(j as int + 1).drop_last() =~= m.terms.take(j as int));
                    assert(m.terms.take(j as int + 1).last() == m.terms[j as int]);
                    assert(out@ =~= dhead + enc_entries(m.terms.take(j as int + 1)));
                }
                j = j + 1;
            }
            proof {
                assert(m.terms.take(d.terms@.len() as int) =~= m.terms);
                assert(out@ =~= before + enc_doc(m));
                let ms = docs_models(self.spec_docs());
                assert(ms.take(i as int + 1).drop_last() =~= ms.take(i as int));
                assert(ms.take(i as int + 1).last() == ms[i as int]);
                assert(out@ =~= head + enc_docs(ms.take(i as int + 1)));
            }
            i = i + 1;
        }
        proof {
            let ms = docs_models(self.spec_docs());
            assert(ms.take(self.docs@.len() as int) =~= ms);
        }
        string_of_chars(&out)
    }
}


proof fn lemma_lookup_by_view(s1: Seq<(String, usize)>, s2: Seq<(String, usize)>, t: Seq<char>)
    requires
        entries_view(s1) == entries_view(s2),
    ensures
        lookup(s1, t) == lookup(s2, t),
    decreases s1.len(),
{
    assert(entries_view(s1).len() == s1.len());
    assert(entries_view(s2).len() == s2.len());
    if s1.len() > 0 {
        assert(entries_view(s1)[0] == (s1[0].0@, s1[0].1 as nat));
        assert(entries_view(s2)[0] == (s2[0].0@, s2[0].1 as nat));
        assert(entries_view(s1.drop_first()) =~= entries_view(s1).drop_first());
        assert(entries_view(s2.drop_first()) =~= entries_view(s2).drop_first());
        lemma_lookup_by_view(s1.drop_first(), s2.drop_first(), t);
    }
}

/// A term that occurs in every document weighs nothing: its inverse
/// document frequency is exactly zero, so no query containing only such
/// terms can give any document a positive score.
pub proof fn lemma_idf_ubiquitous(c: Corpus, t: Seq<char>)
    requires
        c.wf(),
        c.spec_df(t) == c.spec_docs().len(),
    ensures
        c.spec_idf(t) == 0,
{
    crate::logten::lemma_log10_one(c.spec_docs().len());
}

/// Document frequencies depend only on the documents' stored content, not
/// on which strings carry it: together with `lemma_snapshot_roundtrip`,
/// a restored corpus counts every term exactly as the stored one did.
pub proof fn lemma_df_by_models(d1: Seq<Document>, d2: Seq<Document>, t: Seq<char>)
    requires
        docs_models(d1) == docs_models(d2),
    ensures
        df_count(d1, t) == df_count(d2, t),
    decreases d1.len(),
{
    assert(docs_models(d1).len() == d1.len());
    assert(docs_models(d2).len() == d2.len());
    if d1.len() > 0 {
        let a = d1.last();
        let b = d2.last();
        assert(docs_models(d1).last() == doc_model(a));
        assert(docs_models(d2).last() == doc_model(b));
        assert(entries_view(a.terms@) =~= doc_model(a).terms) by {
            assert(entries_view(a.terms@) =~= a.terms_view());
        }
        assert(entries_view(b.terms@) =~= doc_model(b).terms) by {
            assert(entries_view(b.terms@) =~= b.terms_view());
        }
        lemma_lookup_by_view(a.terms@, b.terms@, t);
        assert(docs_models(d1.drop_last()) =~= docs_models(d1).drop_last());
        assert(docs_models(d2.drop_last()) =~= docs_models(d2).drop_last());
        lemma_df_by_models(d1.drop_last(), d2.drop_last(), t);
    }
}

impl Corpus {
    /// Read a corpus back from its snapshot text: parse the stored
    /// documents, hold them to the reader's checks, and rebuild the
    /// frequency table from them. A text that does not parse, or whose
    /// documents the checks refuse, restores nothing.
    pub fn from_snapshot(text: &String) -> (r: Option<Corpus>)
        ensures
            match spec_restore(text@) {
                Some(ms) => ({
                    &&& r matches Some(c)
                    &&& c.wf()
                    &&& docs_models(c.spec_docs()) == ms
                    &&& c.spec_language() == spec_tag_from_id(ms[0].lang)
                }),
                None => r is None,
            },
    {
        let s = chars_of_string(text);
        proof {
            assert(vstd::std_specs::vec::spec_vec_len(&s) == s@.len());
        }
        let (k, p0) = match parse_num_ex(&s, 0) {
            Some(v) => v,
            None => {
                proof {
                    assert(s@.skip(0) =~= text@);
                }
                return None;
            }
        };
        proof {
            assert(s@.skip(0) =~= text@);
        }
        let mut docs: Vec<Document> = Vec::new();
        let mut pos: usize = p0;
        let mut di: u64 = 0;
        proof {
            assert(docs_models(docs@) =~= Seq::<DocModel>::empty());
        }
        while di < k
            invariant
                di <= k,
                p0 <= pos <= s@.len(),
                s@ == text@,
                docs@.len() == di,
                spec_parse_num(text@) == Some((k as nat, s@.skip(p0 as int))),
                forall|i: int| 0 <= i < docs@.len() ==> (#[trigger] docs@[i]).wf(),
                forall|i: int|
                    0 <= i < docs@.len() ==> valid_doc(doc_model(#[trigger] docs@[i])),
                forall|i: int, j: int|
                    0 <= i < j < docs@.len() ==> docs@[i].file_path@ != docs@[j].file_path@,
                match spec_parse_docs(s@.skip(pos as int), (k - di) as nat) {
                    Some(tail) => spec_parse_docs(s@.skip(p0 as int), k as nat) == Some(
                        ((docs_models(docs@) + tail.0), tail.1),
                    ),
                    None => spec_parse_docs(s@.skip(p0 as int), k as nat) is None,
                },
            decreases k - di,
        {
            let ghost done = docs_models(docs@);
            let (doc, p1) = match parse_doc_ex(&s, pos) {
                Some(v) => v,
                None => {
                    proof {
                        match spec_parse_docs(s@.skip(pos as int), (k - di) as nat) {
                            Some(tail) => {
                                let mm = spec_parse_doc(s@.skip(pos as int))->Some_0;
                                let full = done + tail.0;
                                assert(tail.0[0] == mm.0);
                                assert(full[done.len() as int] == mm.0);
                                assert(!valid_models(full));
                            }
                            None => {}
                        }
                    }
                    return None;
                }
            };
            let ghost mm0 = spec_parse_doc(s@.skip(pos as int))->Some_0.0;
            // a path seen twice refuses the snapshot
            let mut dup = false;
            let mut ix: usize = 0;
            while ix < docs.len()
                invariant
                    ix <= docs@.len(),
                    dup ==> (exists|i: int|
                        0 <= i < docs@.len() && (#[trigger] docs@[i]).file_path@
                            == doc.file_path@),
                    !dup ==> (forall|i: int|
                        0 <= i < ix ==> (#[trigger] docs@[i]).file_path@ != doc.file_path@),
                decreases docs@.len() - ix,
            {
                if docs[ix].file_path == doc.file_path {
                    dup = true;
                    proof {
                        assert(docs@[ix as int].file_path@ == doc.file_path@);
                    }
                }
                ix = ix + 1;
            }
            if dup {
                proof {
                    match spec_parse_docs(s@.skip(pos as int), (k - di) as nat) {
                        Some(tail) => {
                            let full = done + tail.0;
                            assert(tail.0[0] == mm0);
                            assert(full[done.len() as int] == mm0);
                            let i = choose|i: int|
                                0 <= i < docs@.len() && (#[trigger] docs@[i]).file_path@
                                    == doc.file_path@;
                            assert(full[i] == doc_model(docs@[i]));
                            assert(full[i].path == mm0.path);
                            assert(!valid_models(full));
                        }
                        None => {}
                    }
                }
                return None;
            }
            let ghost docs0 = docs@;
            docs.push(doc);
            pos = p1;
            di = di + 1;
            proof {
                assert(docs_models(docs@) =~= done.push(doc_model(docs@.last())));
                assert forall|i: int, j: int|
                    0 <= i < j < docs@.len() implies docs@[i].file_path@
                    != docs@[j].file_path@ by {
                    if j == docs@.len() - 1 {
                        assert(docs0[i].file_path@ != docs@[j].file_path@);
                    }
                }
                match spec_parse_docs(s@.skip(pos as int), (k - di) as nat) {
                    Some(tail) => {
                        assert(done + (seq![doc_model(docs@.last())] + tail.0) =~= docs_models(
                            docs@,
                        ) + tail.0);
                    }
                    None => {}
                }
            }
        }
        proof {
            assert(spec_parse_docs(s@.skip(pos as int), 0) == Some(
                (Seq::<DocModel>::empty(), s@.skip(pos as int)),
            ));
            assert(docs_models(docs@) + Seq::<DocModel>::empty() =~= docs_models(docs@));
        }
        if pos != s.len() {
            proof {
                assert(s@.skip(pos as int).len() != 0);
            }
            return None;
        }
        proof {
            assert(s@.skip(pos as int).len() == 0);
        }
        if docs.len() == 0 {
            return None;
        }
        let c = Corpus::from_documents(docs);
        proof {
            let ms = spec_parse_snapshot(text@)->Some_0;
            assert(valid_models(ms));
            assert(ms[0] == doc_model(c.spec_docs()[0]));
            assert(c.spec_docs()[0].language.spec_id() == ms[0].lang);
            assert(spec_tag_from_id(c.spec_docs()[0].language.spec_id())
                == c.spec_docs()[0].language);
        }
        Some(c)
    }
}

/// The cache round-trips: the snapshot text of a well-formed corpus
/// restores exactly its documents — paths, term tables and languages —
/// and with them, through `from_documents`, the same document frequencies
/// and the same corpus language. The bounds asked for only say that the
/// stored lengths fit in 64 bits, which holds of any corpus a machine
/// built.
pub proof fn lemma_snapshot_roundtrip(c: Corpus)
    requires
        c.wf(),
        models_bounded(docs_models(c.spec_docs())),
    ensures
        spec_restore(enc_snapshot(docs_models(c.spec_docs()))) == Some(
            docs_models(c.spec_docs()),
        ),
{
    let ms = docs_models(c.spec_docs());
    lemma_parse_snapshot_enc(ms);
    assert forall|i: int| 0 <= i < ms.len() implies valid_doc(#[trigger] ms[i]) by {
        let d = c.spec_docs()[i];
        assert(d.wf());
        assert(ms[i] == doc_model(d));
        assert(entries_view(d.terms@) =~= d.terms_view());
        lemma_model_sum_entries(d.terms@);
        assert forall|x: int, y: int|
            0 <= x < y < ms[i].terms.len() implies ms[i].terms[x].0 != ms[i].terms[y].0 by {
            assert(ms[i].terms[x] == (d.terms@[x].0@, d.terms@[x].1 as nat));
            assert(ms[i].terms[y] == (d.terms@[y].0@, d.terms@[y].1 as nat));
        }
        assert forall|x: int| 0 <= x < ms[i].terms.len() implies 1 <= (
        #[trigger] ms[i].terms[x]).1 <= usize::MAX by {
            assert(ms[i].terms[x] == (d.terms@[x].0@, d.terms@[x].1 as nat));
        }
    }
    assert forall|i: int, j: int| 0 <= i < j < ms.len() implies ms[i].path != ms[j].path by {
        assert(ms[i].path == c.spec_docs()[i].file_path@);
        assert(ms[j].path == c.spec_docs()[j].file_path@);
    }
    assert(valid_models(ms));
}

} // verus!
