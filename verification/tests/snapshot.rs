use textrank::corpus::Corpus;
use textrank::document::Document;
use textrank::lang::{parse_stop_words, StopConfig};

fn chars(s: &str) -> Vec<char> {
    s.chars().collect()
}

fn doc(path: &str, text: &str) -> Document {
    let cfg = StopConfig {
        eng: parse_stop_words(&chars("the\na\nis\n")),
        spa: Vec::new(),
        por: Vec::new(),
    };
    Document::from_file(&path.to_string(), &chars(text), &cfg).unwrap()
}

fn built_corpus() -> Corpus {
    Corpus::from_documents(vec![
        doc("a.txt", "the cat sat"),
        doc("b.txt", "the cat ran fast"),
        doc("c.txt", "dogs bark"),
    ])
}

#[test]
fn snapshot_roundtrips_docs_frequencies_and_language() {
    let corpus = built_corpus();
    let text = corpus.snapshot();
    let restored = Corpus::from_snapshot(&text).unwrap();
    assert_eq!(restored.docs, corpus.docs);
    assert_eq!(restored.language(), corpus.language());
    for term in ["cat", "sat", "ran", "fast", "dog", "bark", "the", "unseen"] {
        assert_eq!(restored.df_of(&term.to_string()), corpus.df_of(&term.to_string()));
    }
}

#[test]
fn snapshot_of_restored_corpus_is_identical() {
    let corpus = built_corpus();
    let text = corpus.snapshot();
    let restored = Corpus::from_snapshot(&text).unwrap();
    assert_eq!(restored.snapshot(), text);
}

#[test]
fn corrupt_snapshots_are_refused() {
    assert!(Corpus::from_snapshot(&"".to_string()).is_none());
    assert!(Corpus::from_snapshot(&"hello".to_string()).is_none());
    assert!(Corpus::from_snapshot(&"2;".to_string()).is_none());
    // an empty corpus is never stored, so it is not read back either
    assert!(Corpus::from_snapshot(&"0;".to_string()).is_none());
    // trailing bytes after a well-formed snapshot are refused
    let good = built_corpus().snapshot();
    let mut bad = good.clone();
    bad.push('x');
    assert!(Corpus::from_snapshot(&bad).is_none());
    assert!(Corpus::from_snapshot(&good).is_some());
}

#[test]
fn snapshot_refuses_duplicate_paths() {
    // 2 documents under one path: "1;" is the char count of path "p";
    // each document is path, language key, entry count
    let text = "2;1;p0;0;1;p0;0;".to_string();
    assert!(Corpus::from_snapshot(&text).is_none());
}
