use wikidex::analyzer::{clean_text, tokenize, tokenize_with_positions};

#[test]
fn tokenize_lowercases_and_stems() {
    let text = String::from("Hello hello world");
    let tokens = tokenize(&text);
    assert_eq!(tokens, vec!["hello".to_string(), "hello".to_string(), "world".to_string()]);
}

#[test]
fn tokenize_applies_english_stemmer() {
    let text = String::from("fruitlessly");
    let tokens = tokenize(&text);
    assert_eq!(tokens, vec!["fruitless".to_string()]);
}

#[test]
fn tokenize_splits_on_non_alphanumerics() {
    let text = String::from("cat,dog;42 bird");
    let tokens = tokenize(&text);
    assert_eq!(
        tokens,
        vec!["cat".to_string(), "dog".to_string(), "42".to_string(), "bird".to_string()]
    );
}

#[test]
fn tokenize_empty_text() {
    let text = String::new();
    let tokens = tokenize(&text);
    assert_eq!(tokens.len(), 0);
}

#[test]
fn clean_strips_non_ascii_and_folds_case() {
    let text = String::from("CafX\u{e9} Bar");
    let cleaned = clean_text(&text);
    // the e-acute disappears; letters fold to lowercase
    assert_eq!(cleaned, b"cafx bar".to_vec());
}

#[test]
fn non_ascii_does_not_reach_tokens() {
    // non-ASCII bytes interleaved with ASCII: they vanish before
    // segmentation, and positions index the cleaned text
    let text = String::from("caf\u{e9} bar");
    let tokens = tokenize(&text);
    assert_eq!(tokens, vec!["caf".to_string(), "bar".to_string()]);
    let twp = tokenize_with_positions(&text);
    // cleaned text is "caf bar": "caf" at 0, "bar" at 4
    assert_eq!(twp.len(), 2);
    assert_eq!(twp[0].0, "caf".to_string());
    assert_eq!(twp[0].1, vec![0usize]);
    assert_eq!(twp[1].0, "bar".to_string());
    assert_eq!(twp[1].1, vec![4usize]);
}

#[test]
fn positions_are_offsets_into_cleaned_text() {
    let text = String::from("Hello hello world");
    let twp = tokenize_with_positions(&text);
    assert_eq!(twp.len(), 2);
    assert_eq!(twp[0].0, "hello".to_string());
    assert_eq!(twp[0].1, vec![0usize, 6usize]);
    assert_eq!(twp[1].0, "world".to_string());
    assert_eq!(twp[1].1, vec![12usize]);
}

#[test]
fn reanalyzing_joined_tokens_is_stable() {
    // one application of analysis reaches a fixed point on clean input
    let text = String::from("hello hello world");
    let tokens = tokenize(&text);
    let joined = tokens.join(" ");
    let again = tokenize(&joined);
    assert_eq!(tokens, again);
}
