//! The tokenizer: splits a character sequence into lower-cased word tokens,
//! number tokens and single symbol tokens.

use vstd::prelude::*;
use vstd::slice::slice_to_vec;
use crate::chars::{alpha_char, lower_char, numeric_char, string_of_chars, white_char};

verus! {

/// The two maximal-run token classes.
#[derive(Clone, Copy, PartialEq, Eq, Structural, Debug)]
pub enum CharKind {
    Alphabetic,
    Numeric,
}

pub open spec fn is_word_char(k: CharKind, c: char) -> bool {
    match k {
        CharKind::Alphabetic => alpha_char(c),
        CharKind::Numeric => numeric_char(c),
    }
}

/// The input with its leading white space removed.
pub open spec fn spec_trim(s: Seq<char>) -> Seq<char>
    decreases s.len(),
{
    if s.len() > 0 && white_char(s[0]) {
        spec_trim(s.drop_first())
    } else {
        s
    }
}

/// Length of the maximal leading run of characters of class `k`.
pub open spec fn spec_run_len(s: Seq<char>, k: CharKind) -> nat
    decreases s.len(),
{
    if s.len() > 0 && is_word_char(k, s[0]) {
        1 + spec_run_len(s.drop_first(), k)
    } else {
        0
    }
}

pub open spec fn lower_all(s: Seq<char>) -> Seq<char> {
    s.map(|_i: int, c: char| lower_char(c))
}

/// The next token of `s` and the input left after it: a lower-cased maximal
/// alphabetic run, a lower-cased maximal numeric run, or one symbol
/// character taken as it stands.
pub open spec fn spec_next_token(s: Seq<char>) -> Option<(Seq<char>, Seq<char>)> {
    let t = spec_trim(s);
    if t.len() == 0 {
        None
    } else if alpha_char(t[0]) {
        let n = spec_run_len(t, CharKind::Alphabetic) as int;
        Some((lower_all(t.take(n)), t.skip(n)))
    } else if numeric_char(t[0]) {
        let n = spec_run_len(t, CharKind::Numeric) as int;
        Some((lower_all(t.take(n)), t.skip(n)))
    } else {
        Some((t.take(1), t.skip(1)))
    }
}

proof fn lemma_trim_len(s: Seq<char>)
    ensures
        spec_trim(s).len() <= s.len(),
    decreases s.len(),
{
    if s.len() > 0 && white_char(s[0]) {
        lemma_trim_len(s.drop_first());
    }
}

proof fn lemma_run_len_le(s: Seq<char>, k: CharKind)
    ensures
        spec_run_len(s, k) <= s.len(),
    decreases s.len(),
{
    if s.len() > 0 && is_word_char(k, s[0]) {
        lemma_run_len_le(s.drop_first(), k);
    }
}

/// Every character inside the maximal run is of the run's class.
proof fn lemma_run_chars(s: Seq<char>, k: CharKind)
    ensures
        forall|j: int| 0 <= j < spec_run_len(s, k) ==> is_word_char(k, s[j]),
    decreases s.len(),
{
    if s.len() > 0 && is_word_char(k, s[0]) {
        lemma_run_chars(s.drop_first(), k);
        lemma_run_len_le(s.drop_first(), k);
        assert forall|j: int| 0 <= j < spec_run_len(s, k) implies is_word_char(k, s[j]) by {
            if j > 0 {
                assert(is_word_char(k, s.drop_first()[j - 1]));
                assert(s.drop_first()[j - 1] == s[j]);
            }
        }
    }
}

/// The run length is the unique cut: `n` characters of the class, then the
/// end of the input or a character of another class.
proof fn lemma_run_len_exact(s: Seq<char>, k: CharKind, n: int)
    requires
        0 <= n <= s.len(),
        forall|j: int| 0 <= j < n ==> is_word_char(k, #[trigger] s[j]),
        n == s.len() || !is_word_char(k, s[n]),
    ensures
        spec_run_len(s, k) == n,
    decreases s.len(),
{
    if n == 0 {
    } else {
        assert(is_word_char(k, s[0]));
        assert forall|j: int| 0 <= j < n - 1 implies is_word_char(k, #[trigger] s.drop_first()[j]) by {
            assert(s.drop_first()[j] == s[j + 1]);
        }
        if n < s.len() {
            assert(s.drop_first()[n - 1] == s[n]);
        }
        lemma_run_len_exact(s.drop_first(), k, n - 1);
    }
}

/// The sequence of all tokens of `s`, in order.
pub open spec fn spec_tokens(s: Seq<char>) -> Seq<Seq<char>>
    decreases s.len(),
    via spec_tokens_dec
{
    match spec_next_token(s) {
        None => Seq::empty(),
        Some(tr) => seq![tr.0] + spec_tokens(tr.1),
    }
}

#[via_fn]
proof fn spec_tokens_dec(s: Seq<char>) {
    lemma_trim_len(s);
    let t = spec_trim(s);
    if t.len() > 0 {
        lemma_run_len_le(t, CharKind::Alphabetic);
        lemma_run_len_le(t, CharKind::Numeric);
    }
}

/// The tokenizer over a fixed buffer of characters; `self@` is the input
/// not yet consumed.
pub struct Lexer {
    query: Vec<char>,
    pos: usize,
}

impl View for Lexer {
    type V = Seq<char>;

    closed spec fn view(&self) -> Seq<char> {
        self.query@.skip(self.pos as int)
    }
}

impl Lexer {
    pub closed spec fn wf(&self) -> bool {
        self.pos <= self.query.len()
    }

    pub fn new(query: &[char]) -> (l: Lexer)
        ensures
            l.wf(),
            l@ == query@,
    {
        let l = Lexer { query: slice_to_vec(query), pos: 0 };
        proof {
            assert(l@ =~= query@);
        }
        l
    }

    pub fn trim(&mut self)
        requires
            old(self).wf(),
        ensures
            final(self).wf(),
            final(self)@ == spec_trim(old(self)@),
    {
        while self.pos < self.query.len() && self.query[self.pos].is_whitespace()
            invariant
                self.wf(),
                self.query == old(self).query,
                spec_trim(self@) == spec_trim(old(self)@),
            decreases self.query.len() - self.pos,
        {
            proof {
                assert(self@[0] == self.query@[self.pos as int]);
                assert(self@.drop_first() =~= self.query@.skip(self.pos as int + 1));
            }
            self.pos = self.pos + 1;
        }
    }

    /// Consume the maximal leading run of class `kind` and return it
    /// lower-cased.
    pub fn chop_by(&mut self, kind: CharKind) -> (r: String)
        requires
            old(self).wf(),
        ensures
            final(self).wf(),
            r@ == lower_all(old(self)@.take(spec_run_len(old(self)@, kind) as int)),
            final(self)@ == old(self)@.skip(spec_run_len(old(self)@, kind) as int),
    {
        let ghost start = self.pos as int;
        let ghost s0 = self@;
        let mut buf: Vec<char> = Vec::new();
        while self.pos < self.query.len() && check_kind(kind, self.query[self.pos])
            invariant
                self.wf(),
                self.query == old(self).query,
                start == old(self).pos,
                start <= self.pos <= self.query.len(),
                s0 == old(self)@,
                forall|j: int|
                    start <= j < self.pos ==> is_word_char(kind, #[trigger] self.query@[j]),
                buf@ == lower_all(s0.take(self.pos - start)),
            decreases self.query.len() - self.pos,
        {
            let c = self.query[self.pos];
            buf.push(c.to_ascii_lowercase());
            self.pos = self.pos + 1;
            proof {
                assert(s0.take(self.pos - start) =~= s0.take(self.pos - 1 - start).push(
                    self.query@[self.pos - 1],
                ));
                assert(buf@ =~= lower_all(s0.take(self.pos - start)));
            }
        }
        proof {
            let n = self.pos - start;
            assert forall|j: int| 0 <= j < n implies is_word_char(kind, #[trigger] s0[j]) by {
                assert(s0[j] == self.query@[start + j]);
            }
            if self.pos < self.query.len() {
                assert(s0[n] == self.query@[self.pos as int]);
            }
            lemma_run_len_exact(s0, kind, n);
            assert(final(self)@ =~= s0.skip(n));
        }
        string_of_chars(&buf)
    }

    /// The next token, or `None` once the input is exhausted.
    pub fn next_token(&mut self) -> (r: Option<String>)
        requires
            old(self).wf(),
        ensures
            final(self).wf(),
            match spec_next_token(old(self)@) {
                None => r is None && final(self)@ == spec_trim(old(self)@),
                Some(tr) => ({
                    &&& r matches Some(tok)
                    &&& tok@ == tr.0
                    &&& final(self)@ == tr.1
                }),
            },
    {
        self.trim();
        if self.pos == self.query.len() {
            proof {
                assert(self@.len() == 0);
            }
            return None;
        }
        let c = self.query[self.pos];
        proof {
            assert(self@[0] == c);
        }
        if c.is_alphabetic() {
            Some(self.chop_by(CharKind::Alphabetic))
        } else if c.is_numeric() {
            Some(self.chop_by(CharKind::Numeric))
        } else {
            let mut buf: Vec<char> = Vec::new();
            buf.push(c);
            let ghost t = self@;
            self.pos = self.pos + 1;
            proof {
                assert(buf@ =~= t.take(1));
                assert(final(self)@ =~= t.skip(1));
            }
            Some(string_of_chars(&buf))
        }
    }
}

/// A token takes at least one character: what is left is strictly shorter.
pub proof fn lemma_next_token_shrinks(s: Seq<char>)
    ensures
        match spec_next_token(s) {
            None => spec_trim(s).len() == 0,
            Some(tr) => tr.1.len() < s.len() && tr.0.len() >= 1,
        },
{
    lemma_trim_len(s);
    let t = spec_trim(s);
    if t.len() > 0 {
        lemma_run_len_le(t, CharKind::Alphabetic);
        lemma_run_len_le(t, CharKind::Numeric);
    }
}

/// What tokenization keeps of one character: word and number characters
/// are lower-cased, symbol characters stand as they are.
pub open spec fn canon_char(c: char) -> char {
    if alpha_char(c) || numeric_char(c) {
        lower_char(c)
    } else {
        c
    }
}

/// The input without its white space, each kept character canonized.
pub open spec fn despace(s: Seq<char>) -> Seq<char>
    decreases s.len(),
{
    if s.len() == 0 {
        Seq::empty()
    } else if white_char(s.first()) {
        despace(s.drop_first())
    } else {
        seq![canon_char(s.first())] + despace(s.drop_first())
    }
}

/// All tokens of a text, concatenated.
pub open spec fn cat_toks(ts: Seq<Seq<char>>) -> Seq<char>
    decreases ts.len(),
{
    if ts.len() == 0 {
        Seq::empty()
    } else {
        ts.first() + cat_toks(ts.drop_first())
    }
}

proof fn lemma_trim_first(s: Seq<char>)
    ensures
        spec_trim(s).len() > 0 ==> !white_char(spec_trim(s).first()),
    decreases s.len(),
{
    if s.len() > 0 && white_char(s[0]) {
        lemma_trim_first(s.drop_first());
    }
}

proof fn lemma_despace_trim(s: Seq<char>)
    ensures
        despace(s) == despace(spec_trim(s)),
    decreases s.len(),
{
    if s.len() > 0 && white_char(s[0]) {
        lemma_despace_trim(s.drop_first());
    }
}

/// Consuming a run of `n` word or number characters takes exactly their
/// lower-cased images out of `despace`.
proof fn lemma_despace_run(t: Seq<char>, k: CharKind, n: int)
    requires
        0 <= n <= t.len(),
        forall|j: int| 0 <= j < n ==> is_word_char(k, #[trigger] t[j]),
    ensures
        despace(t) == lower_all(t.take(n)) + despace(t.skip(n)),
    decreases n,
{
    if n == 0 {
        assert(t.take(0) =~= Seq::empty());
        assert(lower_all(t.take(0)) =~= Seq::empty());
        assert(t.skip(0) =~= t);
        assert(despace(t) =~= lower_all(t.take(0)) + despace(t.skip(0)));
    } else {
        assert(is_word_char(k, t[0]));
        let d = t.drop_first();
        assert forall|j: int| 0 <= j < n - 1 implies is_word_char(k, #[trigger] d[j]) by {
            assert(d[j] == t[j + 1]);
        }
        lemma_despace_run(d, k, n - 1);
        assert(lower_all(t.take(n)) =~= seq![lower_char(t[0])] + lower_all(d.take(n - 1)));
        assert(t.skip(n) =~= d.skip(n - 1));
        assert(despace(t) == seq![canon_char(t[0])] + despace(d));
        assert(despace(t) =~= lower_all(t.take(n)) + despace(t.skip(n)));
    }
}

/// The tokenizer reconstructs its input: the tokens of a text, concatenated
/// in order, are exactly the text's non-white-space characters, with word
/// and number characters lower-cased.
pub proof fn lemma_tokens_reconstruct(s: Seq<char>)
    ensures
        cat_toks(spec_tokens(s)) == despace(s),
    decreases s.len(),
{
    lemma_despace_trim(s);
    lemma_trim_len(s);
    lemma_trim_first(s);
    let t = spec_trim(s);
    if t.len() == 0 {
    } else {
        let ts = spec_tokens(s);
        if alpha_char(t[0]) {
            let n = spec_run_len(t, CharKind::Alphabetic) as int;
            lemma_run_len_le(t, CharKind::Alphabetic);
            lemma_run_chars(t, CharKind::Alphabetic);
            lemma_despace_run(t, CharKind::Alphabetic, n);
            lemma_tokens_reconstruct(t.skip(n));
            assert(ts.drop_first() =~= spec_tokens(t.skip(n)));
            assert(cat_toks(ts) =~= despace(s));
        } else if numeric_char(t[0]) {
            let n = spec_run_len(t, CharKind::Numeric) as int;
            lemma_run_len_le(t, CharKind::Numeric);
            lemma_run_chars(t, CharKind::Numeric);
            lemma_despace_run(t, CharKind::Numeric, n);
            lemma_tokens_reconstruct(t.skip(n));
            assert(ts.drop_first() =~= spec_tokens(t.skip(n)));
            assert(cat_toks(ts) =~= despace(s));
        } else {
            assert(despace(t) == seq![canon_char(t[0])] + despace(t.drop_first()));
            assert(t.take(1) =~= seq![canon_char(t[0])]);
            assert(t.skip(1) =~= t.drop_first());
            lemma_tokens_reconstruct(t.skip(1));
            assert(ts.drop_first() =~= spec_tokens(t.skip(1)));
            assert(cat_toks(ts) =~= despace(s));
        }
    }
}

fn check_kind(k: CharKind, c: char) -> (r: bool)
    ensures
        r == is_word_char(k, c),
{
    match k {
        CharKind::Alphabetic => c.is_alphabetic(),
        CharKind::Numeric => c.is_numeric(),
    }
}

} // verus!
