//! Language tags, language detection, and stop-word lists.
//!
//! The engine supports three languages; everything else is rejected at
//! indexing time. Detection itself is done by the `whatlang` crate behind
//! one trusted wrapper; deciding what to make of its answer is verified
//! code here.

use vstd::prelude::*;
use vstd::string::StringExecFns;

verus! {

/// A detected language: the three supported ones, or anything else.
#[derive(Clone, Copy, PartialEq, Eq, Structural, Debug, Hash)]
pub enum LangTag {
    Eng,
    Spa,
    Por,
    Other,
}

impl LangTag {
    /// Only English, Spanish and Portuguese are indexed.
    pub open spec fn spec_supported(self) -> bool {
        self != LangTag::Other
    }

    #[verifier::when_used_as_spec(spec_supported)]
    pub fn supported(self) -> (r: bool)
        ensures
            r == self.spec_supported(),
    {
        match self {
            LangTag::Other => false,
            _ => true,
        }
    }

    /// A small numeric key for each tag, used to index named results.
    pub open spec fn spec_id(self) -> int {
        match self {
            LangTag::Eng => 0,
            LangTag::Spa => 1,
            LangTag::Por => 2,
            LangTag::Other => 3,
        }
    }

    pub fn id(self) -> (r: u64)
        ensures
            r == self.spec_id(),
    {
        match self {
            LangTag::Eng => 0,
            LangTag::Spa => 1,
            LangTag::Por => 2,
            LangTag::Other => 3,
        }
    }

    pub fn from_id(id: u64) -> (r: LangTag)
        ensures
            r == spec_tag_from_id(id as int),
    {
        if id == 0 {
            LangTag::Eng
        } else if id == 1 {
            LangTag::Spa
        } else if id == 2 {
            LangTag::Por
        } else {
            LangTag::Other
        }
    }
}

pub open spec fn spec_tag_from_id(id: int) -> LangTag {
    if id == 0 {
        LangTag::Eng
    } else if id == 1 {
        LangTag::Spa
    } else if id == 2 {
        LangTag::Por
    } else {
        LangTag::Other
    }
}

/// What language detection reports for a text: an ISO 639-3 code and
/// whether the call finds the detection reliable; `None` when it cannot
/// tell at all. A function of the text alone.
pub uninterp spec fn detected_of(text: Seq<char>) -> Option<(Seq<char>, bool)>;

pub open spec fn code_view(r: Option<(String, bool)>) -> Option<(Seq<char>, bool)> {
    match r {
        None => None,
        Some(p) => Some((p.0@, p.1)),
    }
}

/// Relies on `whatlang::detect`, `Info::lang`, `Lang::code` and
/// `Info::is_reliable`: detection is a pure function of the text, returning
/// a language and a confidence verdict.
#[verifier::external_body]
fn detect_code(text: &String) -> (r: Option<(String, bool)>)
    ensures
        code_view(r) == detected_of(text@),
{
    whatlang::detect(text).map(|info| (info.lang().code().to_string(), info.is_reliable()))
}

/// The tag a detection code names: `eng`, `spa` or `por`, all else `Other`.
pub open spec fn tag_of_code(code: Seq<char>) -> LangTag {
    if code == seq!['e', 'n', 'g'] {
        LangTag::Eng
    } else if code == seq!['s', 'p', 'a'] {
        LangTag::Spa
    } else if code == seq!['p', 'o', 'r'] {
        LangTag::Por
    } else {
        LangTag::Other
    }
}

/// The language the indexer assigns to a text: the detected language when
/// detection answers and is reliable, English otherwise.
pub open spec fn spec_detect_lang(text: Seq<char>) -> LangTag {
    match detected_of(text) {
        None => LangTag::Eng,
        Some(p) => if !p.1 {
            LangTag::Eng
        } else {
            tag_of_code(p.0)
        },
    }
}

fn tag_of_code_ex(code: &String) -> (t: LangTag)
    ensures
        t == tag_of_code(code@),
{
    proof {
        reveal_strlit("eng");
        reveal_strlit("spa");
        reveal_strlit("por");
        assert("eng"@ =~= seq!['e', 'n', 'g']);
        assert("spa"@ =~= seq!['s', 'p', 'a']);
        assert("por"@ =~= seq!['p', 'o', 'r']);
    }
    let eng: String = String::from_str("eng");
    let spa: String = String::from_str("spa");
    let por: String = String::from_str("por");
    if *code == eng {
        LangTag::Eng
    } else if *code == spa {
        LangTag::Spa
    } else if *code == por {
        LangTag::Por
    } else {
        LangTag::Other
    }
}

/// Detect a text's language; an unreliable or missing answer falls back to
/// English.
pub fn detect_language(text: &String) -> (t: LangTag)
    ensures
        t == spec_detect_lang(text@),
{
    match detect_code(text) {
        None => LangTag::Eng,
        Some((code, reliable)) => {
            if !reliable {
                LangTag::Eng
            } else {
                tag_of_code_ex(&code)
            }
        },
    }
}

/// Index of the first newline in `s`, or `s.len()` if there is none.
pub open spec fn find_nl(s: Seq<char>) -> nat
    decreases s.len(),
{
    if s.len() == 0 {
        0
    } else if s[0] == '\n' {
        0
    } else {
        1 + find_nl(s.drop_first())
    }
}

pub proof fn lemma_find_nl_le(s: Seq<char>)
    ensures
        find_nl(s) <= s.len(),
    decreases s.len(),
{
    if s.len() > 0 && s[0] != '\n' {
        lemma_find_nl_le(s.drop_first());
    }
}

/// A line with one trailing carriage return removed.
pub open spec fn strip_cr(line: Seq<char>) -> Seq<char> {
    if line.len() > 0 && line.last() == '\r' {
        line.drop_last()
    } else {
        line
    }
}

/// The lines of a text, as `str::lines` cuts them: split at `'\n'`, one
/// trailing `'\r'` removed per line, no empty line after a final newline.
pub open spec fn spec_lines(s: Seq<char>) -> Seq<Seq<char>>
    decreases s.len(),
    via spec_lines_dec
{
    if s.len() == 0 {
        Seq::empty()
    } else {
        let i = find_nl(s) as int;
        if i == s.len() {
            seq![strip_cr(s)]
        } else {
            seq![strip_cr(s.take(i))] + spec_lines(s.skip(i + 1))
        }
    }
}

#[via_fn]
proof fn spec_lines_dec(s: Seq<char>) {
    lemma_find_nl_le(s);
}

/// A line of characters none of which is a newline has no earlier cut.
proof fn lemma_find_nl_none(line: Seq<char>)
    requires
        forall|j: int| 0 <= j < line.len() ==> line[j] != '\n',
    ensures
        find_nl(line) == line.len(),
    decreases line.len(),
{
    if line.len() > 0 {
        assert forall|j: int| 0 <= j < line.drop_first().len() implies line.drop_first()[j]
            != '\n' by {
            assert(line.drop_first()[j] == line[j + 1]);
        }
        lemma_find_nl_none(line.drop_first());
    }
}

proof fn lemma_find_nl_prefix(line: Seq<char>, rest: Seq<char>)
    requires
        forall|j: int| 0 <= j < line.len() ==> line[j] != '\n',
        rest.len() > 0,
        rest[0] == '\n',
    ensures
        find_nl(line + rest) == line.len(),
    decreases line.len(),
{
    if line.len() == 0 {
        assert(line + rest =~= rest);
    } else {
        assert((line + rest)[0] == line[0]);
        assert forall|j: int| 0 <= j < line.drop_first().len() implies line.drop_first()[j]
            != '\n' by {
            assert(line.drop_first()[j] == line[j + 1]);
        }
        lemma_find_nl_prefix(line.drop_first(), rest);
        assert((line + rest).drop_first() =~= line.drop_first() + rest);
    }
}

/// Cutting one full line off the front of the text.
proof fn lemma_lines_cons(line: Seq<char>, rest: Seq<char>)
    requires
        forall|j: int| 0 <= j < line.len() ==> line[j] != '\n',
    ensures
        spec_lines(line + seq!['\n'] + rest) == seq![strip_cr(line)] + spec_lines(rest),
{
    let s = line + seq!['\n'] + rest;
    assert(s =~= line + (seq!['\n'] + rest));
    lemma_find_nl_prefix(line, seq!['\n'] + rest);
    let i = find_nl(s) as int;
    assert(i == line.len());
    assert(i < s.len());
    assert(s.take(i) =~= line);
    assert(s.skip(i + 1) =~= rest);
}

/// The last line, when the text does not end in a newline.
proof fn lemma_lines_tail(line: Seq<char>)
    requires
        forall|j: int| 0 <= j < line.len() ==> line[j] != '\n',
        line.len() > 0,
    ensures
        spec_lines(line) == seq![strip_cr(line)],
{
    lemma_find_nl_none(line);
}

/// Split a stop-word file's content into its lines, as the resource format
/// has it: one word per newline-terminated line.
pub fn parse_stop_words(content: &Vec<char>) -> (r: Vec<String>)
    ensures
        r.deep_view() == spec_lines(content@),
{
    let mut out: Vec<String> = Vec::new();
    let mut cur: Vec<char> = Vec::new();
    let mut i: usize = 0;
    proof {
        assert(cur@ + content@.skip(0) =~= content@);
        assert(out.deep_view() + spec_lines(content@) =~= spec_lines(content@));
    }
    while i < content.len()
        invariant
            i <= content.len(),
            cur.len() <= i,
            forall|j: int| 0 <= j < cur@.len() ==> cur@[j] != '\n',
            spec_lines(content@) == out.deep_view() + spec_lines(cur@ + content@.skip(i as int)),
        decreases content.len() - i,
    {
        let c = content[i];
        let ghost rest0 = content@.skip(i as int);
        let ghost cur0 = cur@;
        let ghost out0 = out.deep_view();
        if c == '\n' {
            proof {
                assert(cur0 + rest0 =~= cur0 + seq!['\n'] + content@.skip(i as int + 1));
                lemma_lines_cons(cur0, content@.skip(i as int + 1));
            }
            if cur.len() > 0 && cur[cur.len() - 1] == '\r' {
                let _ = cur.pop();
                proof {
                    assert(cur@ =~= strip_cr(cur0));
                }
            }
            proof {
                assert(cur@ == strip_cr(cur0));
            }
            let line = crate::chars::string_of_chars(&cur);
            out.push(line);
            cur.clear();
            proof {
                assert(out.deep_view() =~= out0.push(strip_cr(cur0)));
                assert(out0 + (seq![strip_cr(cur0)] + spec_lines(content@.skip(i as int + 1)))
                    =~= out.deep_view() + spec_lines(content@.skip(i as int + 1)));
                assert(cur@ + content@.skip(i as int + 1) =~= content@.skip(i as int + 1));
            }
        } else {
            cur.push(c);
            proof {
                assert(cur@ + content@.skip(i as int + 1) =~= cur0 + rest0);
            }
        }
        i = i + 1;
    }
    proof {
        assert(content@.skip(i as int) =~= Seq::<char>::empty());
        assert(cur@ + content@.skip(i as int) =~= cur@);
    }
    if cur.len() > 0 {
        let ghost cur0 = cur@;
        proof {
            lemma_lines_tail(cur0);
        }
        if cur[cur.len() - 1] == '\r' {
            let _ = cur.pop();
            proof {
                assert(cur@ =~= strip_cr(cur0));
            }
        }
        proof {
            assert(cur@ == strip_cr(cur0));
        }
        let line = crate::chars::string_of_chars(&cur);
        out.push(line);
    }
    out
}

/// The stop-word lists of the three supported languages, loaded once at
/// start-up and handed to the indexer.
pub struct StopConfig {
    pub eng: Vec<String>,
    pub spa: Vec<String>,
    pub por: Vec<String>,
}

impl StopConfig {
    /// The stop words for a language; no other tag has any.
    pub open spec fn spec_words(self, lang: LangTag) -> Seq<Seq<char>> {
        match lang {
            LangTag::Eng => self.eng.deep_view(),
            LangTag::Spa => self.spa.deep_view(),
            LangTag::Por => self.por.deep_view(),
            LangTag::Other => Seq::empty(),
        }
    }

    /// Whether `w` is a stop word of `lang`.
    pub fn is_stop(&self, lang: LangTag, w: &String) -> (r: bool)
        ensures
            r == self.spec_words(lang).contains(w@),
    {
        match lang {
            LangTag::Eng => contains_word(&self.eng, w),
            LangTag::Spa => contains_word(&self.spa, w),
            LangTag::Por => contains_word(&self.por, w),
            LangTag::Other => false,
        }
    }
}

fn contains_word(ws: &Vec<String>, w: &String) -> (r: bool)
    ensures
        r == ws.deep_view().contains(w@),
{
    let mut i: usize = 0;
    while i < ws.len()
        invariant
            i <= ws.len(),
            forall|j: int| 0 <= j < i ==> ws.deep_view()[j] != w@,
        decreases ws.len() - i,
    {
        if ws[i] == *w {
            proof {
                assert(ws.deep_view()[i as int] == w@);
            }
            return true;
        }
        i = i + 1;
    }
    proof {
        assert(forall|j: int| 0 <= j < ws.deep_view().len() ==> ws.deep_view()[j] != w@);
    }
    false
}

} // verus!
