use search_core::text::{tokenize, tokenize_to_string};

#[test]
fn tokenize_lowercases_and_splits() {
    let toks = tokenize("Rust Systems PROGRAMMING");
    assert_eq!(toks, vec!["rust".to_string(), "systems".to_string(), "programming".to_string()]);
}

#[test]
fn tokenize_collapses_whitespace_runs() {
    let toks = tokenize("  Rust\t\nSystems  programming ");
    assert_eq!(toks, vec!["rust".to_string(), "systems".to_string(), "programming".to_string()]);
}

#[test]
fn tokenize_empty_and_blank() {
    assert_eq!(tokenize(""), Vec::<String>::new());
    assert_eq!(tokenize(" \t \n "), Vec::<String>::new());
}

#[test]
fn tokenize_keeps_punctuation_and_non_ascii() {
    let toks = tokenize("Café, Münster!");
    assert_eq!(toks, vec!["café,".to_string(), "münster!".to_string()]);
}

#[test]
fn tokenize_idempotent_on_concrete_inputs() {
    for s in ["  Hello   WORLD ", "a B  c", "", "mixed\tCASE text", "éé ÉÉ"] {
        let once = tokenize(s);
        let joined = tokenize_to_string(&once);
        let twice = tokenize(&joined);
        assert_eq!(once, twice);
    }
}

#[test]
fn tokenize_to_string_joins_with_single_spaces() {
    let terms = vec!["one".to_string(), "two".to_string(), "three".to_string()];
    assert_eq!(tokenize_to_string(&terms), "one two three".to_string());
    assert_eq!(tokenize_to_string(&Vec::new()), String::new());
}

#[test]
fn tokenize_folds_non_ascii_uppercase() {
    assert_eq!(tokenize("CAFÉ Straße"), vec!["café".to_string(), "straße".to_string()]);
}

#[test]
fn tokenize_splits_on_unicode_whitespace() {
    let toks = tokenize("a\u{00A0}b\u{2003}c");
    assert_eq!(toks, vec!["a".to_string(), "b".to_string(), "c".to_string()]);
}
