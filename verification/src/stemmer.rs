//! Stemming, behind the `rust_stemmers` Snowball implementations.

use vstd::prelude::*;
use crate::lang::LangTag;

verus! {

#[verifier::external_type_specification]
#[verifier::external_body]
pub struct ExStemmer(rust_stemmers::Stemmer);

/// The Snowball stem of a term: a pure function of the language (by its
/// tag key) and the characters of the term.
pub uninterp spec fn stem_of(lang_id: int, term: Seq<char>) -> Seq<char>;

/// What `Stem::stem` returns: the Snowball stem for a supported language,
/// the term unchanged for any other tag.
pub open spec fn spec_stem(lang: LangTag, term: Seq<char>) -> Seq<char> {
    if lang.spec_supported() {
        stem_of(lang.spec_id(), term)
    } else {
        term
    }
}

/// A stemming function fixed to one language.
pub struct Stem {
    lang: LangTag,
    stemmer: Option<rust_stemmers::Stemmer>,
}

impl Stem {
    /// The language this stemmer was built for.
    pub closed spec fn tag(&self) -> LangTag {
        self.lang
    }

    /// Relies on `rust_stemmers::Stemmer::create`: the English, Spanish and
    /// Portuguese Snowball stemmers back the three supported tags, one arm
    /// each; any other tag gets no stemmer and stems to identity.
    #[verifier::external_body]
    pub fn from_lang(lang: LangTag) -> (s: Stem)
        ensures
            s.tag() == lang,
    {
        let stemmer = match lang {
            LangTag::Eng => Some(rust_stemmers::Stemmer::create(rust_stemmers::Algorithm::English)),
            LangTag::Spa => Some(rust_stemmers::Stemmer::create(rust_stemmers::Algorithm::Spanish)),
            LangTag::Por => Some(rust_stemmers::Stemmer::create(rust_stemmers::Algorithm::Portuguese)),
            LangTag::Other => None,
        };
        Stem { lang, stemmer }
    }

    /// Relies on `rust_stemmers::Stemmer::stem`: the Snowball stem is a
    /// function of the algorithm and the input characters alone; with no
    /// stemmer the term passes through unchanged.
    #[verifier::external_body]
    pub fn stem(&self, term: &String) -> (r: String)
        ensures
            self.tag().spec_supported() ==> r@ == stem_of(self.tag().spec_id(), term@),
            !self.tag().spec_supported() ==> r@ == term@,
    {
        match &self.stemmer {
            None => term.clone(),
            Some(st) => st.stem(term).to_string(),
        }
    }
}

} // verus!
