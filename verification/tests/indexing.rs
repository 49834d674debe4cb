use textrank::document::{Document, IndexError};
use textrank::lang::{detect_language, parse_stop_words, LangTag, StopConfig};
use textrank::stemmer::Stem;

fn chars(s: &str) -> Vec<char> {
    s.chars().collect()
}

fn english_stop_config() -> StopConfig {
    StopConfig {
        eng: parse_stop_words(&chars("the\na\nis\nare\nto\nnot\nno\nthere\n")),
        spa: Vec::new(),
        por: Vec::new(),
    }
}

#[test]
fn parse_stop_words_splits_lines() {
    let words = parse_stop_words(&chars("a\nb\r\nc"));
    assert_eq!(words, vec!["a".to_string(), "b".to_string(), "c".to_string()]);
    let trailing = parse_stop_words(&chars("one\ntwo\n"));
    assert_eq!(trailing, vec!["one".to_string(), "two".to_string()]);
    assert_eq!(parse_stop_words(&chars("")), Vec::<String>::new());
}

#[test]
fn english_stemming_reduces_words() {
    let stem = Stem::from_lang(LangTag::Eng);
    assert_eq!(stem.stem(&"fruitlessly".to_string()), "fruitless");
    assert_eq!(stem.stem(&"running".to_string()), "run");
}

#[test]
fn unknown_tag_stems_to_identity() {
    let stem = Stem::from_lang(LangTag::Other);
    assert_eq!(stem.stem(&"running".to_string()), "running");
}

#[test]
fn detects_english_reliably() {
    let text = "There is no reason not to learn Esperanto.".to_string();
    assert_eq!(detect_language(&text), LangTag::Eng);
}

#[test]
fn detects_spanish() {
    let text = "La biblioteca de la ciudad guarda muchos libros antiguos y revistas viejas."
        .to_string();
    assert_eq!(detect_language(&text), LangTag::Spa);
}

#[test]
fn indexes_counts_and_skips_stop_words() {
    let cfg = english_stop_config();
    let path = "a.txt".to_string();
    let doc = Document::from_file(&path, &chars("the cat sat and the cat ran"), &cfg).unwrap();
    assert_eq!(doc.file_path, "a.txt");
    assert_eq!(doc.language, LangTag::Eng);
    // "the" is dropped twice: five tokens survive
    assert_eq!(doc.term_count, 5);
    assert_eq!(doc.tf(&"cat".to_string()), (2, 5));
    assert_eq!(doc.tf(&"sat".to_string()), (1, 5));
    assert_eq!(doc.tf(&"the".to_string()), (0, 5));
    assert_eq!(doc.tf(&"dog".to_string()), (0, 5));
}

#[test]
fn indexing_twice_gives_identical_tables() {
    let cfg = english_stop_config();
    let path = "a.txt".to_string();
    let text = chars("the cat sat on the mat");
    let d1 = Document::from_file(&path, &text, &cfg).unwrap();
    let d2 = Document::from_file(&path, &text, &cfg).unwrap();
    assert_eq!(d1.terms, d2.terms);
    assert_eq!(d1.term_count, d2.term_count);
    assert_eq!(d1.language, d2.language);
}

#[test]
fn rejects_unsupported_language() {
    let cfg = english_stop_config();
    let path = "r.txt".to_string();
    let text = chars(
        "Это очень длинный текст на русском языке, который система совсем не поддерживает.",
    );
    let r = Document::from_file(&path, &text, &cfg);
    assert_eq!(r, Err(IndexError::UnsupportedLanguage));
}

#[test]
fn tf_is_a_fraction_at_most_one() {
    let cfg = english_stop_config();
    let path = "b.txt".to_string();
    let doc = Document::from_file(&path, &chars("cat cat cat"), &cfg).unwrap();
    let (num, den) = doc.tf(&"cat".to_string());
    assert!(num <= den);
    assert_eq!((num, den), (3, 3));
}
