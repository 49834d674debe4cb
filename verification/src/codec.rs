//! The cache snapshot: a corpus written to text and read back.
//!
//! The format is length-prefixed and self-delimiting: a number is its
//! decimal digits closed by `;`, a string is its character count followed
//! by exactly that many characters. A snapshot holds the document count
//! and then each document: path, language key, term count of the table,
//! and the table's entries. Document frequencies are not stored: reading
//! a snapshot rebuilds them from the documents, which `from_documents`
//! pins to the same values the stored corpus had.

use vstd::prelude::*;
use crate::chars::{chars_of_string, string_of_chars};
use crate::document::{sum_counts, Document};

verus! {

broadcast use vstd::seq_lib::group_seq_lib_default;

/// The decimal digit characters.
pub open spec fn digit_char(d: int) -> char {
    ((48 + d) as u8) as char
}

pub open spec fn is_digit(c: char) -> bool {
    48 <= c as u32 <= 57
}

pub open spec fn dval(c: char) -> nat {
    (c as u32 - 48) as nat
}

/// The decimal digits of `n`, most significant first.
pub open spec fn enc_nat(n: nat) -> Seq<char>
    decreases n,
{
    if n < 10 {
        seq![digit_char(n as int)]
    } else {
        enc_nat(n / 10).push(digit_char((n % 10) as int))
    }
}

/// A number token: digits closed by a semicolon.
pub open spec fn enc_num(n: nat) -> Seq<char> {
    enc_nat(n) + seq![';']
}

/// A string token: the length, then the characters themselves.
pub open spec fn enc_str(s: Seq<char>) -> Seq<char> {
    enc_num(s.len()) + s
}

pub open spec fn enc_entry(e: (Seq<char>, nat)) -> Seq<char> {
    enc_str(e.0) + enc_num(e.1)
}

pub open spec fn enc_entries(s: Seq<(Seq<char>, nat)>) -> Seq<char>
    decreases s.len(),
{
    if s.len() == 0 {
        Seq::empty()
    } else {
        enc_entries(s.drop_last()) + enc_entry(s.last())
    }
}

/// What the snapshot keeps of one document.
#[verifier::ext_equal]
pub ghost struct DocModel {
    pub path: Seq<char>,
    pub lang: int,
    pub terms: Seq<(Seq<char>, nat)>,
}

pub open spec fn doc_model(d: Document) -> DocModel {
    DocModel { path: d.file_path@, lang: d.language.spec_id(), terms: d.terms_view() }
}

pub open spec fn docs_models(ds: Seq<Document>) -> Seq<DocModel> {
    ds.map(|_i: int, d: Document| doc_model(d))
}

pub open spec fn enc_doc(m: DocModel) -> Seq<char> {
    enc_str(m.path) + enc_num(m.lang as nat) + enc_num(m.terms.len()) + enc_entries(m.terms)
}

pub open spec fn enc_docs(ms: Seq<DocModel>) -> Seq<char>
    decreases ms.len(),
{
    if ms.len() == 0 {
        Seq::empty()
    } else {
        enc_docs(ms.drop_last()) + enc_doc(ms.last())
    }
}

/// The whole snapshot: the document count, then the documents.
pub open spec fn enc_snapshot(ms: Seq<DocModel>) -> Seq<char> {
    enc_num(ms.len()) + enc_docs(ms)
}

pub(crate) fn push_digits(out: &mut Vec<char>, n: u64)
    ensures
        final(out)@ == old(out)@ + enc_nat(n as nat),
    decreases n,
{
    if n < 10 {
        out.push((48 + n as u8) as char);
        proof {
            assert(final(out)@ =~= old(out)@ + enc_nat(n as nat));
        }
    } else {
        push_digits(out, n / 10);
        out.push((48 + (n % 10) as u8) as char);
        proof {
            assert(final(out)@ =~= old(out)@ + enc_nat(n as nat));
        }
    }
}

pub(crate) fn push_num(out: &mut Vec<char>, n: u64)
    ensures
        final(out)@ == old(out)@ + enc_num(n as nat),
{
    push_digits(out, n);
    out.push(';');
    proof {
        assert(final(out)@ =~= old(out)@ + enc_num(n as nat));
    }
}

pub(crate) fn push_str(out: &mut Vec<char>, s: &String)
    ensures
        final(out)@ == old(out)@ + enc_str(s@),
{
    let cs = chars_of_string(s);
    proof {
        assert(vstd::std_specs::vec::spec_vec_len(&cs) == cs@.len());
    }
    push_num(out, cs.len() as u64);
    let mut i: usize = 0;
    let ghost mid = out@;
    while i < cs.len()
        invariant
            i <= cs@.len(),
            cs@ == s@,
            out@ == mid + cs@.take(i as int),
        decreases cs@.len() - i,
    {
        out.push(cs[i]);
        proof {
            assert(out@ =~= mid + cs@.take(i as int + 1));
        }
        i = i + 1;
    }
    proof {
        assert(cs@.take(cs@.len() as int) =~= cs@);
        assert(out@ =~= old(out)@ + enc_str(s@));
    }
}

/// Parse decimal digits from the front, closing at `;`; numbers above
/// the 64-bit range are rejected.
pub open spec fn spec_parse_digits(s: Seq<char>, acc: nat) -> Option<(nat, Seq<char>)>
    decreases s.len(),
{
    if s.len() == 0 {
        None
    } else if s[0] == ';' {
        Some((acc, s.drop_first()))
    } else if is_digit(s[0]) {
        if 10 * acc + dval(s[0]) > 0xffff_ffff_ffff_ffff {
            None
        } else {
            spec_parse_digits(s.drop_first(), 10 * acc + dval(s[0]))
        }
    } else {
        None
    }
}

pub open spec fn spec_parse_num(s: Seq<char>) -> Option<(nat, Seq<char>)> {
    spec_parse_digits(s, 0)
}

pub open spec fn spec_parse_str(s: Seq<char>) -> Option<(Seq<char>, Seq<char>)> {
    match spec_parse_num(s) {
        None => None,
        Some(nr) => if nr.1.len() >= nr.0 {
            Some((nr.1.take(nr.0 as int), nr.1.skip(nr.0 as int)))
        } else {
            None
        },
    }
}

pub open spec fn spec_parse_entries(s: Seq<char>, k: nat) -> Option<
    (Seq<(Seq<char>, nat)>, Seq<char>),
>
    decreases k,
{
    if k == 0 {
        Some((Seq::empty(), s))
    } else {
        match spec_parse_str(s) {
            None => None,
            Some(tr) => match spec_parse_num(tr.1) {
                None => None,
                Some(cr) => match spec_parse_entries(cr.1, (k - 1) as nat) {
                    None => None,
                    Some(er) => Some((seq![(tr.0, cr.0)] + er.0, er.1)),
                },
            },
        }
    }
}

pub open spec fn spec_parse_doc(s: Seq<char>) -> Option<(DocModel, Seq<char>)> {
    match spec_parse_str(s) {
        None => None,
        Some(pr) => match spec_parse_num(pr.1) {
            None => None,
            Some(lr) => match spec_parse_num(lr.1) {
                None => None,
                Some(kr) => match spec_parse_entries(kr.1, kr.0) {
                    None => None,
                    Some(er) => Some(
                        (DocModel { path: pr.0, lang: lr.0 as int, terms: er.0 }, er.1),
                    ),
                },
            },
        },
    }
}

pub open spec fn spec_parse_docs(s: Seq<char>, k: nat) -> Option<(Seq<DocModel>, Seq<char>)>
    decreases k,
{
    if k == 0 {
        Some((Seq::empty(), s))
    } else {
        match spec_parse_doc(s) {
            None => None,
            Some(dr) => match spec_parse_docs(dr.1, (k - 1) as nat) {
                None => None,
                Some(rr) => Some((seq![dr.0] + rr.0, rr.1)),
            },
        }
    }
}

/// The models a snapshot text holds, if it parses completely.
pub open spec fn spec_parse_snapshot(s: Seq<char>) -> Option<Seq<DocModel>> {
    match spec_parse_num(s) {
        None => None,
        Some(kr) => match spec_parse_docs(kr.1, kr.0) {
            None => None,
            Some(dr) => if dr.1.len() == 0 {
                Some(dr.0)
            } else {
                None
            },
        },
    }
}

/// A stored document the reader accepts: distinct keys, positive counts,
/// everything within the machine's sizes.
pub open spec fn valid_doc(m: DocModel) -> bool {
    &&& (forall|i: int, j: int| 0 <= i < j < m.terms.len() ==> m.terms[i].0 != m.terms[j].0)
    &&& (forall|i: int|
        0 <= i < m.terms.len() ==> 1 <= (#[trigger] m.terms[i]).1 <= usize::MAX)
    &&& model_sum(m.terms) <= usize::MAX
    &&& 0 <= m.lang <= 3
}

pub open spec fn model_sum(terms: Seq<(Seq<char>, nat)>) -> nat
    decreases terms.len(),
{
    if terms.len() == 0 {
        0
    } else {
        model_sum(terms.drop_last()) + terms.last().1
    }
}

pub open spec fn valid_models(ms: Seq<DocModel>) -> bool {
    &&& ms.len() >= 1
    &&& (forall|i: int| 0 <= i < ms.len() ==> valid_doc(#[trigger] ms[i]))
    &&& (forall|i: int, j: int| 0 <= i < j < ms.len() ==> ms[i].path != ms[j].path)
}

/// What reading a snapshot restores: the stored documents, when the text
/// parses and the reader accepts them.
pub open spec fn spec_restore(s: Seq<char>) -> Option<Seq<DocModel>> {
    match spec_parse_snapshot(s) {
        None => None,
        Some(ms) => if valid_models(ms) {
            Some(ms)
        } else {
            None
        },
    }
}

proof fn lemma_digit_char(d: int)
    requires
        0 <= d <= 9,
    ensures
        is_digit(digit_char(d)),
        dval(digit_char(d)) == d,
        digit_char(d) != ';',
{
}

/// Parsing walks over encoded digits, folding them into the accumulator.
proof fn lemma_parse_digits_enc(n: nat, tail: Seq<char>, acc: nat)
    requires
        acc * crate::logten::pow10(enc_nat(n).len()) + n <= 0xffff_ffff_ffff_ffff,
    ensures
        spec_parse_digits(enc_nat(n) + tail, acc) == spec_parse_digits(
            tail,
            acc * crate::logten::pow10(enc_nat(n).len()) + n,
        ),
    decreases n,
{
    let p10 = crate::logten::pow10(enc_nat(n).len());
    if n < 10 {
        lemma_digit_char(n as int);
        let s = enc_nat(n) + tail;
        assert(s[0] == digit_char(n as int));
        assert(s.drop_first() =~= tail);
        assert(crate::logten::pow10(1) == 10) by {
            reveal_with_fuel(crate::logten::pow10, 3);
        }
        assert(10 * acc + n == acc * 10 + n) by (nonlinear_arith);
    } else {
        let d = (n % 10) as int;
        vstd::arithmetic::div_mod::lemma_fundamental_div_mod(n as int, 10);
        lemma_digit_char(d);
        let hd = enc_nat(n / 10);
        assert(enc_nat(n) + tail =~= hd + (seq![digit_char(d)] + tail));
        let lp = crate::logten::pow10(hd.len());
        assert(crate::logten::pow10(hd.len() + 1) == 10 * lp);
        assert(enc_nat(n).len() == hd.len() + 1);
        let x_ih = acc * lp + n / 10;
        assert(10 * x_ih + d == acc * (10 * lp) + n) by (nonlinear_arith)
            requires
                x_ih == acc * lp + n / 10,
                n == 10 * (n / 10) + n % 10,
                d == n % 10,
        ;
        assert(crate::logten::pow10(1) == 10) by {
            reveal_with_fuel(crate::logten::pow10, 3);
        }
        assert(10 * x_ih + n % 10 <= 0xffff_ffff_ffff_ffff) by (nonlinear_arith)
            requires
                acc * (10 * lp) + n <= 0xffff_ffff_ffff_ffff,
                10 * x_ih + n % 10 == acc * (10 * lp) + n,
        ;
        assert(x_ih <= 0xffff_ffff_ffff_ffff);
        lemma_parse_digits_enc(n / 10, seq![digit_char(d)] + tail, acc);
        let s2 = seq![digit_char(d)] + tail;
        assert(s2[0] == digit_char(d));
        assert(s2.drop_first() =~= tail);
        assert(10 * x_ih + dval(digit_char(d)) <= 0xffff_ffff_ffff_ffff);
        assert(spec_parse_digits(s2, x_ih) == spec_parse_digits(tail, (10 * x_ih + d) as nat));
    }
}

/// An encoded number parses back to itself.
proof fn lemma_parse_num_enc(n: nat, rest: Seq<char>)
    requires
        n <= 0xffff_ffff_ffff_ffff,
    ensures
        spec_parse_num(enc_num(n) + rest) == Some((n, rest)),
{
    assert(enc_num(n) + rest =~= enc_nat(n) + (seq![';'] + rest));
    assert(0 * crate::logten::pow10(enc_nat(n).len()) + n == n) by (nonlinear_arith);
    lemma_parse_digits_enc(n, seq![';'] + rest, 0);
    let s2 = seq![';'] + rest;
    assert(s2[0] == ';');
    assert(s2.drop_first() =~= rest);
}

/// An encoded string parses back to itself.
proof fn lemma_parse_str_enc(t: Seq<char>, rest: Seq<char>)
    requires
        t.len() <= 0xffff_ffff_ffff_ffff,
    ensures
        spec_parse_str(enc_str(t) + rest) == Some((t, rest)),
{
    assert(enc_str(t) + rest =~= enc_num(t.len()) + (t + rest));
    lemma_parse_num_enc(t.len(), t + rest);
    assert((t + rest).take(t.len() as int) =~= t);
    assert((t + rest).skip(t.len() as int) =~= rest);
}

proof fn lemma_enc_entries_first(es: Seq<(Seq<char>, nat)>)
    requires
        es.len() > 0,
    ensures
        enc_entries(es) == enc_entry(es.first()) + enc_entries(es.drop_first()),
    decreases es.len(),
{
    if es.len() == 1 {
        assert(es.drop_last() =~= Seq::<(Seq<char>, nat)>::empty());
        assert(es.drop_first() =~= Seq::<(Seq<char>, nat)>::empty());
        assert(enc_entries(es) =~= enc_entry(es.first()) + enc_entries(es.drop_first()));
    } else {
        lemma_enc_entries_first(es.drop_last());
        assert(es.drop_last().first() == es.first());
        assert(es.drop_last().drop_first() =~= es.drop_first().drop_last());
        assert(es.drop_first().last() == es.last());
        assert(enc_entries(es) == enc_entries(es.drop_last()) + enc_entry(es.last()));
        assert(enc_entry(es.first()) + enc_entries(es.drop_first()) =~= enc_entries(es));
    }
}

pub open spec fn entries_bounded(es: Seq<(Seq<char>, nat)>) -> bool {
    forall|i: int|
        0 <= i < es.len() ==> (#[trigger] es[i]).0.len() <= 0xffff_ffff_ffff_ffff && es[i].1
            <= 0xffff_ffff_ffff_ffff
}

/// Encoded term tables parse back to themselves.
proof fn lemma_parse_entries_enc(es: Seq<(Seq<char>, nat)>, rest: Seq<char>)
    requires
        entries_bounded(es),
    ensures
        spec_parse_entries(enc_entries(es) + rest, es.len()) == Some((es, rest)),
    decreases es.len(),
{
    if es.len() == 0 {
        assert(enc_entries(es) + rest =~= rest);
    } else {
        lemma_enc_entries_first(es);
        let e0 = es.first();
        let tail_es = es.drop_first();
        assert(enc_entries(es) + rest =~= enc_str(e0.0) + (enc_num(e0.1) + (enc_entries(tail_es)
            + rest)));
        lemma_parse_str_enc(e0.0, enc_num(e0.1) + (enc_entries(tail_es) + rest));
        lemma_parse_num_enc(e0.1, enc_entries(tail_es) + rest);
        assert forall|i: int| 0 <= i < tail_es.len() implies (#[trigger] tail_es[i]).0.len()
            <= 0xffff_ffff_ffff_ffff && tail_es[i].1 <= 0xffff_ffff_ffff_ffff by {
            assert(tail_es[i] == es[i + 1]);
        }
        lemma_parse_entries_enc(tail_es, rest);
        assert(seq![(e0.0, e0.1)] + tail_es =~= es);
    }
}

proof fn lemma_enc_docs_first(ms: Seq<DocModel>)
    requires
        ms.len() > 0,
    ensures
        enc_docs(ms) == enc_doc(ms.first()) + enc_docs(ms.drop_first()),
    decreases ms.len(),
{
    if ms.len() == 1 {
        assert(ms.drop_last() =~= Seq::<DocModel>::empty());
        assert(ms.drop_first() =~= Seq::<DocModel>::empty());
        assert(enc_docs(ms) =~= enc_doc(ms.first()) + enc_docs(ms.drop_first()));
    } else {
        lemma_enc_docs_first(ms.drop_last());
        assert(ms.drop_last().first() == ms.first());
        assert(ms.drop_last().drop_first() =~= ms.drop_first().drop_last());
        assert(ms.drop_first().last() == ms.last());
        assert(enc_docs(ms) == enc_docs(ms.drop_last()) + enc_doc(ms.last()));
        assert(enc_doc(ms.first()) + enc_docs(ms.drop_first()) =~= enc_docs(ms));
    }
}

pub open spec fn models_bounded(ms: Seq<DocModel>) -> bool {
    &&& ms.len() <= 0xffff_ffff_ffff_ffff
    &&& (forall|i: int|
        0 <= i < ms.len() ==> (#[trigger] ms[i]).path.len() <= 0xffff_ffff_ffff_ffff
            && 0 <= ms[i].lang <= 0xffff_ffff_ffff_ffff && ms[i].terms.len()
            <= 0xffff_ffff_ffff_ffff && entries_bounded(ms[i].terms))
}

/// An encoded document parses back to itself.
proof fn lemma_parse_doc_enc(m: DocModel, rest: Seq<char>)
    requires
        m.path.len() <= 0xffff_ffff_ffff_ffff,
        0 <= m.lang <= 0xffff_ffff_ffff_ffff,
        m.terms.len() <= 0xffff_ffff_ffff_ffff,
        entries_bounded(m.terms),
    ensures
        spec_parse_doc(enc_doc(m) + rest) == Some((m, rest)),
{
    assert(enc_doc(m) + rest =~= enc_str(m.path) + (enc_num(m.lang as nat) + (enc_num(
        m.terms.len(),
    ) + (enc_entries(m.terms) + rest))));
    lemma_parse_str_enc(
        m.path,
        enc_num(m.lang as nat) + (enc_num(m.terms.len()) + (enc_entries(m.terms) + rest)),
    );
    lemma_parse_num_enc(
        m.lang as nat,
        enc_num(m.terms.len()) + (enc_entries(m.terms) + rest),
    );
    lemma_parse_num_enc(m.terms.len(), enc_entries(m.terms) + rest);
    lemma_parse_entries_enc(m.terms, rest);
}

/// Encoded document lists parse back to themselves.
proof fn lemma_parse_docs_enc(ms: Seq<DocModel>, rest: Seq<char>)
    requires
        models_bounded(ms),
    ensures
        spec_parse_docs(enc_docs(ms) + rest, ms.len()) == Some((ms, rest)),
    decreases ms.len(),
{
    if ms.len() == 0 {
        assert(enc_docs(ms) + rest =~= rest);
    } else {
        lemma_enc_docs_first(ms);
        let m0 = ms.first();
        let tail_ms = ms.drop_first();
        assert(enc_docs(ms) + rest =~= enc_doc(m0) + (enc_docs(tail_ms) + rest));
        lemma_parse_doc_enc(m0, enc_docs(tail_ms) + rest);
        assert forall|i: int| 0 <= i < tail_ms.len() implies (#[trigger] tail_ms[i]).path.len()
            <= 0xffff_ffff_ffff_ffff && 0 <= tail_ms[i].lang <= 0xffff_ffff_ffff_ffff
            && tail_ms[i].terms.len() <= 0xffff_ffff_ffff_ffff && entries_bounded(
            tail_ms[i].terms,
        ) by {
            assert(tail_ms[i] == ms[i + 1]);
        }
        lemma_parse_docs_enc(tail_ms, rest);
        assert(seq![m0] + tail_ms =~= ms);
    }
}

/// The snapshot text of any bounded document list parses back to exactly
/// that list.
pub proof fn lemma_parse_snapshot_enc(ms: Seq<DocModel>)
    requires
        models_bounded(ms),
    ensures
        spec_parse_snapshot(enc_snapshot(ms)) == Some(ms),
{
    assert(enc_snapshot(ms) =~= enc_num(ms.len()) + (enc_docs(ms) + Seq::<char>::empty()));
    lemma_parse_num_enc(ms.len(), enc_docs(ms) + Seq::<char>::empty());
    assert(enc_docs(ms) + Seq::<char>::empty() =~= enc_docs(ms));
    lemma_parse_docs_enc(ms, Seq::<char>::empty());
}

pub open spec fn entries_view(tv: Seq<(String, usize)>) -> Seq<(Seq<char>, nat)> {
    tv.map(|_i: int, e: (String, usize)| (e.0@, e.1 as nat))
}

proof fn lemma_model_sum_take(es: Seq<(Seq<char>, nat)>, j: int)
    requires
        0 <= j <= es.len(),
    ensures
        model_sum(es.take(j)) <= model_sum(es),
    decreases es.len(),
{
    if j < es.len() {
        if es.len() > 0 {
            assert(es.drop_last().take(j) =~= es.take(j));
            lemma_model_sum_take(es.drop_last(), j);
        }
    } else {
        assert(es.take(j) =~= es);
    }
}

pub(crate) proof fn lemma_model_sum_entries(tv: Seq<(String, usize)>)
    ensures
        model_sum(entries_view(tv)) == crate::document::sum_counts(tv),
    decreases tv.len(),
{
    if tv.len() > 0 {
        lemma_model_sum_entries(tv.drop_last());
        assert(entries_view(tv).drop_last() =~= entries_view(tv.drop_last()));
        assert(entries_view(tv).last() == (tv.last().0@, tv.last().1 as nat));
    }
}

pub(crate) fn parse_num_ex(s: &Vec<char>, pos: usize) -> (r: Option<(u64, usize)>)
    requires
        pos <= s@.len(),
    ensures
        match r {
            Some(vp) => pos < vp.1 <= s@.len() && spec_parse_num(s@.skip(pos as int)) == Some(
                ((vp.0 as nat), s@.skip(vp.1 as int)),
            ),
            None => spec_parse_num(s@.skip(pos as int)) is None,
        },
{
    let mut i: usize = pos;
    let mut acc: u64 = 0;
    while i < s.len()
        invariant
            pos <= i <= s@.len(),
            spec_parse_digits(s@.skip(pos as int), 0) == spec_parse_digits(
                s@.skip(i as int),
                acc as nat,
            ),
        decreases s@.len() - i,
    {
        let c = s[i];
        proof {
            assert(s@.skip(i as int)[0] == s@[i as int]);
            assert(s@.skip(i as int).drop_first() =~= s@.skip(i as int + 1));
        }
        if c == ';' {
            return Some((acc, i + 1));
        }
        let cu = c as u32;
        if 48 <= cu && cu <= 57 {
            let d = (cu - 48) as u64;
            let stepped = match acc.checked_mul(10) {
                Some(m) => m.checked_add(d),
                None => None,
            };
            match stepped {
                Some(v) => {
                    acc = v;
                }
                None => {
                    return None;
                }
            }
        } else {
            return None;
        }
        i = i + 1;
    }
    proof {
        assert(s@.skip(i as int) =~= Seq::<char>::empty());
    }
    None
}

pub(crate) fn parse_str_ex(s: &Vec<char>, pos: usize) -> (r: Option<(String, usize)>)
    requires
        pos <= s@.len(),
    ensures
        match r {
            Some(tp) => pos < tp.1 <= s@.len() && spec_parse_str(s@.skip(pos as int)) == Some(
                (tp.0@, s@.skip(tp.1 as int)),
            ),
            None => spec_parse_str(s@.skip(pos as int)) is None,
        },
{
    let np = parse_num_ex(s, pos);
    match np {
        None => None,
        Some((n, p1)) => {
            let rem = s.len() - p1;
            proof {
                assert(s@.skip(p1 as int).len() == rem);
            }
            if n > rem as u64 {
                return None;
            }
            let nn = n as usize;
            let mut buf: Vec<char> = Vec::new();
            let mut k: usize = 0;
            while k < nn
                invariant
                    k <= nn,
                    p1 + nn <= s@.len(),
                    buf@ == s@.subrange(p1 as int, p1 + k),
                decreases nn - k,
            {
                buf.push(s[p1 + k]);
                proof {
                    assert(buf@ =~= s@.subrange(p1 as int, p1 + k + 1));
                }
                k = k + 1;
            }
            proof {
                assert(buf@ =~= s@.skip(p1 as int).take(nn as int));
                assert(s@.skip(p1 as int).skip(nn as int) =~= s@.skip(p1 + nn));
            }
            Some((string_of_chars(&buf), p1 + nn))
        }
    }
}

/// Parse and check one stored term table: `k` entries with distinct keys,
/// counts at least one, and a total that fits the machine.
fn parse_entries_ex(s: &Vec<char>, pos: usize, k: u64) -> (r: Option<
    (Vec<(String, usize)>, usize, usize),
>)
    requires
        pos <= s@.len(),
    ensures
        match r {
            Some(tp) => ({
                &&& pos <= tp.2 <= s@.len()
                &&& spec_parse_entries(s@.skip(pos as int), k as nat) matches Some(ee)
                    && ee.1 == s@.skip(tp.2 as int) && entries_view(tp.0@) == ee.0
                &&& crate::document::keys_distinct(tp.0@)
                &&& (forall|i: int|
                    0 <= i < tp.0@.len() ==> 1 <= (#[trigger] tp.0@[i]).1)
                &&& tp.1 == crate::document::sum_counts(tp.0@)
                &&& crate::document::sum_counts(tp.0@) <= usize::MAX
            }),
            None => (match spec_parse_entries(s@.skip(pos as int), k as nat) {
                Some(ee) => !(forall|i: int, j: int|
                    0 <= i < j < ee.0.len() ==> ee.0[i].0 != ee.0[j].0) || !(forall|i: int|
                    0 <= i < ee.0.len() ==> 1 <= (#[trigger] ee.0[i]).1 <= usize::MAX)
                    || model_sum(ee.0) > usize::MAX,
                None => true,
            }),
        },
{
    let mut terms: Vec<(String, usize)> = Vec::new();
    let mut sum: usize = 0;
    let mut pos_c: usize = pos;
    let mut di: u64 = 0;
    proof {
        assert(entries_view(terms@) =~= Seq::<(Seq<char>, nat)>::empty());
    }
    while di < k
        invariant
            di <= k,
            pos <= pos_c <= s@.len(),
            crate::document::keys_distinct(terms@),
            forall|i: int| 0 <= i < terms@.len() ==> 1 <= (#[trigger] terms@[i]).1,
            sum == crate::document::sum_counts(terms@),
            model_sum(entries_view(terms@)) == sum,
            match spec_parse_entries(s@.skip(pos_c as int), (k - di) as nat) {
                Some(tail) => spec_parse_entries(s@.skip(pos as int), k as nat) == Some(
                    ((entries_view(terms@) + tail.0), tail.1),
                ),
                None => spec_parse_entries(s@.skip(pos as int), k as nat) is None,
            },
        decreases k - di,
    {
        let ghost done = entries_view(terms@);
        let tr = parse_str_ex(s, pos_c);
        let (t, p1) = match tr {
            Some(tp) => tp,
            None => {
                return None;
            }
        };
        let cr = parse_num_ex(s, p1);
        let (c, p2) = match cr {
            Some(cp) => cp,
            None => {
                return None;
            }
        };
        proof {
            let tail_full = spec_parse_entries(s@.skip(pos_c as int), (k - di) as nat);
            assert(spec_parse_str(s@.skip(pos_c as int)) == Some((t@, s@.skip(p1 as int))));
            assert(spec_parse_num(s@.skip(p1 as int)) == Some((c as nat, s@.skip(p2 as int))));
        }
        // the stored counts must be positive and fit the machine's sizes
        if c == 0 || c > usize::MAX as u64 {
            proof {
                lemma_entry_bad(s@, pos as int, pos_c as int, k as nat, di as nat, terms@, t@, c as nat, p2 as int);
            }
            return None;
        }
        let cc = c as usize;
        if crate::document::find_key(&terms, &t).is_some() {
            proof {
                lemma_entry_bad(s@, pos as int, pos_c as int, k as nat, di as nat, terms@, t@, c as nat, p2 as int);
            }
            return None;
        }
        let new_sum = match sum.checked_add(cc) {
            Some(v) => v,
            None => {
                proof {
                    lemma_entry_bad(s@, pos as int, pos_c as int, k as nat, di as nat, terms@, t@, c as nat, p2 as int);
                }
                return None;
            }
        };
        let ghost terms0 = terms@;
        terms.push((t, cc));
        sum = new_sum;
        pos_c = p2;
        di = di + 1;
        proof {
            crate::document::lemma_sum_push(terms0, terms@.last());
            assert(entries_view(terms@) =~= done.push((terms@.last().0@, cc as nat)));
            assert(model_sum(entries_view(terms@)) == model_sum(done) + cc) by {
                assert(entries_view(terms@).drop_last() =~= done);
            }
            assert forall|x: int, y: int| 0 <= x < y < terms@.len() implies terms@[x].0@
                != terms@[y].0@ by {
                if y == terms@.len() - 1 {
                    assert(terms0[x].0@ != terms@[y].0@);
                }
            }
            let prev_tail = spec_parse_entries(s@.skip(pos_c as int), (k - di + 1) as nat);
            assert(spec_parse_entries(s@.skip(pos as int), k as nat) == (match spec_parse_entries(
                s@.skip(pos_c as int),
                (k - di) as nat,
            ) {
                Some(tail) => Some(((entries_view(terms@) + tail.0), tail.1)),
                None => spec_parse_entries(s@.skip(pos as int), k as nat),
            })) by {
                match spec_parse_entries(s@.skip(pos_c as int), (k - di) as nat) {
                    Some(tail) => {
                        assert(done + (seq![(terms@.last().0@, cc as nat)] + tail.0)
                            =~= entries_view(terms@) + tail.0);
                    }
                    None => {}
                }
            }
            if spec_parse_entries(s@.skip(pos_c as int), (k - di) as nat) is None {
                assert(spec_parse_entries(s@.skip(pos as int), k as nat) is None);
            }
        }
    }
    proof {
        assert(spec_parse_entries(s@.skip(pos_c as int), 0) == Some(
            (Seq::<(Seq<char>, nat)>::empty(), s@.skip(pos_c as int)),
        ));
        assert(entries_view(terms@) + Seq::<(Seq<char>, nat)>::empty() =~= entries_view(terms@));
    }
    Some((terms, sum, pos_c))
}

/// When a parsed entry fails a check, the whole stored table is invalid.
proof fn lemma_entry_bad(
    s: Seq<char>,
    pos: int,
    pos_c: int,
    k: nat,
    di: nat,
    terms: Seq<(String, usize)>,
    t: Seq<char>,
    c: nat,
    p2: int,
)
    requires
        di < k,
        0 <= pos <= s.len(),
        0 <= pos_c <= s.len(),
        0 <= p2 <= s.len(),
        spec_parse_str(s.skip(pos_c)) matches Some(tp) && tp.0 == t && spec_parse_num(tp.1)
            == Some((c, s.skip(p2))),
        crate::document::keys_distinct(terms),
        forall|i: int| 0 <= i < terms.len() ==> 1 <= (#[trigger] terms[i]).1,
        crate::document::sum_counts(terms) <= usize::MAX,
        model_sum(entries_view(terms)) == crate::document::sum_counts(terms),
        match spec_parse_entries(s.skip(pos_c), (k - di) as nat) {
            Some(tail) => spec_parse_entries(s.skip(pos), k) == Some(
                ((entries_view(terms) + tail.0), tail.1),
            ),
            None => spec_parse_entries(s.skip(pos), k) is None,
        },
        c == 0 || c > usize::MAX || (exists|i: int|
            0 <= i < terms.len() && (#[trigger] terms[i]).0@ == t) || crate::document::sum_counts(
            terms,
        ) + c > usize::MAX,
    ensures
        match spec_parse_entries(s.skip(pos), k) {
            Some(ee) => !(forall|i: int, j: int|
                0 <= i < j < ee.0.len() ==> ee.0[i].0 != ee.0[j].0) || !(forall|i: int|
                0 <= i < ee.0.len() ==> 1 <= (#[trigger] ee.0[i]).1 <= usize::MAX) || model_sum(
                ee.0,
            ) > usize::MAX,
            None => true,
        },
{
    match spec_parse_entries(s.skip(pos_c), (k - di) as nat) {
        Some(tail) => {
            let full = entries_view(terms) + tail.0;
            let n0 = terms.len() as int;
            assert(tail.0.len() > 0 && tail.0[0] == (t, c)) by {
                assert((k - di) as nat != 0);
            }
            assert(full[n0] == (t, c));
            if c == 0 || c > usize::MAX {
                assert(!(1 <= full[n0].1 <= usize::MAX));
            } else if exists|i: int| 0 <= i < terms.len() && (#[trigger] terms[i]).0@ == t {
                let i = choose|i: int| 0 <= i < terms.len() && (#[trigger] terms[i]).0@ == t;
                assert(full[i] == (terms[i].0@, terms[i].1 as nat));
                assert(full[i].0 == full[n0].0);
            } else {
                assert(model_sum(full.take(n0 + 1)) > usize::MAX) by {
                    assert(full.take(n0 + 1).drop_last() =~= entries_view(terms));
                    assert(full.take(n0 + 1).last() == (t, c));
                }
                lemma_model_sum_take(full, n0 + 1);
            }
        }
        None => {}
    }
}

/// Parse one stored document and hold it to the reader's checks.
pub(crate) fn parse_doc_ex(s: &Vec<char>, pos: usize) -> (r: Option<(Document, usize)>)
    requires
        pos <= s@.len(),
    ensures
        match r {
            Some(dp) => ({
                &&& pos <= dp.1 <= s@.len()
                &&& spec_parse_doc(s@.skip(pos as int)) matches Some(mm) && mm.1 == s@.skip(
                    dp.1 as int,
                ) && doc_model(dp.0) == mm.0 && valid_doc(mm.0)
                &&& dp.0.wf()
            }),
            None => (match spec_parse_doc(s@.skip(pos as int)) {
                Some(mm) => !valid_doc(mm.0),
                None => true,
            }),
        },
{
    let pr = match parse_str_ex(s, pos) {
        Some(v) => v,
        None => {
            return None;
        }
    };
    let lr = match parse_num_ex(s, pr.1) {
        Some(v) => v,
        None => {
            return None;
        }
    };
    let kr = match parse_num_ex(s, lr.1) {
        Some(v) => v,
        None => {
            return None;
        }
    };
    if lr.0 > 3 {
        return None;
    }
    let er = match parse_entries_ex(s, kr.1, kr.0) {
        Some(v) => v,
        None => {
            return None;
        }
    };
    let (terms, sum, pend) = er;
    let doc = Document {
        file_path: pr.0,
        terms,
        term_count: sum,
        language: crate::lang::LangTag::from_id(lr.0),
    };
    proof {
        let mm = spec_parse_doc(s@.skip(pos as int))->Some_0;
        assert(doc.terms_view() =~= entries_view(doc.terms@));
        assert(crate::lang::spec_tag_from_id(lr.0 as int).spec_id() == lr.0 as int);
        assert(doc_model(doc) =~= mm.0);
        lemma_model_sum_entries(doc.terms@);
        assert(model_sum(mm.0.terms) == sum);
    }
    Some((doc, pend))
}

} // verus!
