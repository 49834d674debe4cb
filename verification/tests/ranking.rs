use textrank::corpus::{Corpus, Score};
use textrank::document::Document;
use textrank::lang::{parse_stop_words, StopConfig};
use textrank::lexer::Lexer;
use textrank::logten::log10_fixed;

fn chars(s: &str) -> Vec<char> {
    s.chars().collect()
}

fn english_stop_config() -> StopConfig {
    StopConfig {
        eng: parse_stop_words(&chars("the\na\nis\n")),
        spa: Vec::new(),
        por: Vec::new(),
    }
}

fn doc(path: &str, text: &str) -> Document {
    let cfg = english_stop_config();
    Document::from_file(&path.to_string(), &chars(text), &cfg).unwrap()
}

fn classify(corpus: &Corpus, query: &str) -> Vec<(String, Score)> {
    let q = chars(query);
    corpus.classify(Lexer::new(&q))
}

fn three_file_corpus() -> Corpus {
    Corpus::from_documents(vec![
        doc("a.txt", "the cat sat"),
        doc("b.txt", "the cat ran fast"),
        doc("c.txt", "dogs bark"),
    ])
}

#[test]
fn log10_fixed_exact_decades() {
    assert_eq!(log10_fixed(1, 1), 0);
    assert_eq!(log10_fixed(10, 1), 65536);
    assert_eq!(log10_fixed(100, 1), 131072);
    assert_eq!(log10_fixed(1000, 10), 131072);
}

#[test]
fn log10_fixed_is_monotone_and_positive_between_decades() {
    let half = log10_fixed(3, 2);
    assert!(half > 0);
    assert!(half < 65536);
    assert!(log10_fixed(2, 1) <= log10_fixed(3, 1));
    // 16 binary digits of log10(2) = 0.30102999...
    let two = log10_fixed(2, 1);
    assert!(19726 <= two && two <= 19729);
}

#[test]
fn matching_documents_outrank_non_matching() {
    let corpus = three_file_corpus();
    let hits = classify(&corpus, "cat");
    let paths: Vec<&str> = hits.iter().map(|p| p.0.as_str()).collect();
    assert_eq!(paths, vec!["a.txt", "b.txt"]);
    assert!(hits.iter().all(|p| p.1.num > 0));
}

#[test]
fn empty_query_returns_nothing() {
    let corpus = three_file_corpus();
    assert_eq!(classify(&corpus, ""), Vec::<(String, Score)>::new());
    assert_eq!(classify(&corpus, "   "), Vec::<(String, Score)>::new());
}

#[test]
fn all_stop_word_query_returns_nothing() {
    let corpus = three_file_corpus();
    // the stop-word filter removed "the" from every term table, so the
    // query scores zero in every document
    assert_eq!(classify(&corpus, "the"), Vec::<(String, Score)>::new());
}

#[test]
fn classify_is_deterministic() {
    let corpus = three_file_corpus();
    assert_eq!(classify(&corpus, "cat ran"), classify(&corpus, "cat ran"));
}

#[test]
fn aggregation_ignores_arrival_order() {
    let c1 = three_file_corpus();
    let c2 = Corpus::from_documents(vec![
        doc("c.txt", "dogs bark"),
        doc("a.txt", "the cat sat"),
        doc("b.txt", "the cat ran fast"),
    ]);
    for term in ["cat", "sat", "ran", "fast", "dogs", "bark", "unseen"] {
        assert_eq!(c1.df_of(&term.to_string()), c2.df_of(&term.to_string()));
    }
    let mut h1 = classify(&c1, "cat");
    let mut h2 = classify(&c2, "cat");
    h1.sort_by(|a, b| a.0.cmp(&b.0));
    h2.sort_by(|a, b| a.0.cmp(&b.0));
    assert_eq!(h1, h2);
}

#[test]
fn document_frequency_counts_documents_not_occurrences() {
    let corpus = Corpus::from_documents(vec![
        doc("a.txt", "cat cat cat"),
        doc("b.txt", "cat dog"),
    ]);
    assert_eq!(corpus.df_of(&"cat".to_string()), 2);
    assert_eq!(corpus.df_of(&"dog".to_string()), 1);
    assert_eq!(corpus.df_of(&"fish".to_string()), 0);
}

#[test]
fn rarer_terms_weigh_at_least_as_much() {
    let corpus = Corpus::from_documents(vec![
        doc("a.txt", "cat dog"),
        doc("b.txt", "cat bird"),
        doc("c.txt", "cat mouse"),
    ]);
    // df(cat) = 3, df(dog) = 1: a query for the rare term scores higher in
    // its document than a query for the common one.
    let common = classify(&corpus, "cat");
    let rare = classify(&corpus, "dog");
    assert_eq!(common.len(), 0); // idf of a term in every document is zero
    assert_eq!(rare.len(), 1);
    assert_eq!(rare[0].0, "a.txt");
}

#[test]
fn query_terms_are_stemmed_like_documents() {
    let corpus = Corpus::from_documents(vec![
        doc("a.txt", "running quickly"),
        doc("b.txt", "dogs bark"),
    ]);
    let hits = classify(&corpus, "runs");
    assert_eq!(hits.len(), 1);
    assert_eq!(hits[0].0, "a.txt");
}
