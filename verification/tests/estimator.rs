use tokenx_rs::{
    estimate_token_count, estimate_token_count_with_options, CharsPerToken, EstimationOptions,
    DEFAULT_CHARS_PER_TOKEN,
};

#[test]
fn empty_string() {
    assert_eq!(estimate_token_count(""), 0);
}

#[test]
fn pure_whitespace() {
    assert_eq!(estimate_token_count("   "), 0);
    assert_eq!(estimate_token_count("\t\n"), 0);
}

#[test]
fn pure_cjk() {
    assert_eq!(estimate_token_count("你好世界"), 4);
}

#[test]
fn pure_punctuation() {
    assert_eq!(estimate_token_count("..."), 1);
    assert_eq!(estimate_token_count(","), 1);
}

#[test]
fn numeric_string() {
    assert_eq!(estimate_token_count("12345"), 1);
    assert_eq!(estimate_token_count("3.14"), 3);
}

#[test]
fn short_words() {
    assert_eq!(estimate_token_count("Hi Bob"), 2);
}

#[test]
fn mixed_content() {
    let count = estimate_token_count("Hello, world!");
    assert!(count >= 2, "Expected at least 2 tokens, got {count}");
}

#[test]
fn german_text() {
    let count = estimate_token_count("Ärgerlich");
    assert!(count > 0);
}

#[test]
fn french_text() {
    let count = estimate_token_count("résumé");
    assert!(count > 0);
}

#[test]
fn english_sentence() {
    let count = estimate_token_count("The quick brown fox jumps over the lazy dog");
    assert!(count >= 9, "Expected at least 9 tokens, got {count}");
}

#[test]
fn default_chars_per_token_constant() {
    assert_eq!(DEFAULT_CHARS_PER_TOKEN as f64, 6.0);
}

#[test]
fn underscore_identifiers() {
    let count = estimate_token_count("process_items");
    assert_eq!(count, 13); // 1 per char (not alphanumeric due to _)
}

#[test]
fn custom_options() {
    let opts = EstimationOptions {
        default_chars_per_token: CharsPerToken { chars: 4, tokens: 1 },
        language_configs: vec![],
    };
    let count = estimate_token_count_with_options("abcdefgh", &opts);
    // ceil(8 / 4.0) = 2
    assert_eq!(count, 2);
}
