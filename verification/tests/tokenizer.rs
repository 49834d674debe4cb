use textrank::lexer::{CharKind, Lexer};

fn tokens_of(s: &str) -> Vec<String> {
    let cs: Vec<char> = s.chars().collect();
    let mut lex = Lexer::new(&cs);
    let mut out = Vec::new();
    while let Some(t) = lex.next_token() {
        out.push(t);
    }
    out
}

#[test]
fn splits_words_numbers_and_symbols() {
    assert_eq!(tokens_of("Hello, World! 42"), vec!["hello", ",", "world", "!", "42"]);
}

#[test]
fn empty_input_has_no_tokens() {
    assert_eq!(tokens_of(""), Vec::<String>::new());
    assert_eq!(tokens_of("   \t\n  "), Vec::<String>::new());
}

#[test]
fn runs_do_not_mix_classes() {
    assert_eq!(tokens_of("abc123"), vec!["abc", "123"]);
    assert_eq!(tokens_of("x2y"), vec!["x", "2", "y"]);
}

#[test]
fn tokens_never_span_whitespace() {
    assert_eq!(tokens_of("one  two\tthree"), vec!["one", "two", "three"]);
}

#[test]
fn reconstructs_non_whitespace_text() {
    let input = "The Quick 99 brown-fox!";
    let expected: String = input
        .chars()
        .filter(|c| !c.is_whitespace())
        .map(|c| if c.is_alphabetic() || c.is_numeric() { c.to_ascii_lowercase() } else { c })
        .collect();
    let got: String = tokens_of(input).concat();
    assert_eq!(got, expected);
}

#[test]
fn chop_by_takes_maximal_lowercased_run() {
    let cs: Vec<char> = "ABCdef42".chars().collect();
    let mut lex = Lexer::new(&cs);
    let run = lex.chop_by(CharKind::Alphabetic);
    assert_eq!(run, "abcdef");
    let digits = lex.chop_by(CharKind::Numeric);
    assert_eq!(digits, "42");
}

#[test]
fn trim_only_drops_leading_whitespace() {
    let cs: Vec<char> = "  a b".chars().collect();
    let mut lex = Lexer::new(&cs);
    lex.trim();
    assert_eq!(lex.next_token(), Some("a".to_string()));
    assert_eq!(lex.next_token(), Some("b".to_string()));
    assert_eq!(lex.next_token(), None);
}

#[test]
fn lowercasing_is_ascii_only() {
    // the lexer lower-cases with to_ascii_lowercase: non-ASCII letters stay
    assert_eq!(tokens_of("Ø"), vec!["Ø"]);
    assert_eq!(tokens_of("#A#"), vec!["#", "a", "#"]);
}
