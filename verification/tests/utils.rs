use tokenx_rs::{
    is_within_token_limit, slice_by_tokens, split_by_tokens, split_by_tokens_with_options,
    SplitOptions,
};

#[test]
fn within_limit_basic() {
    assert!(is_within_token_limit("Hello", 100));
    assert!(!is_within_token_limit("Hello", 0));
}

#[test]
fn slice_empty() {
    assert_eq!(slice_by_tokens("", 0, None), "");
}

#[test]
fn slice_full_range() {
    let text = "Hello world";
    let sliced = slice_by_tokens(text, 0, None);
    assert_eq!(sliced, text);
}

#[test]
fn slice_negative_start() {
    let text = "one two three four five";
    let sliced = slice_by_tokens(text, -2, None);
    assert!(!sliced.is_empty());
}

#[test]
fn slice_inverted_range() {
    assert_eq!(slice_by_tokens("hello world", 5, Some(2)), "");
}

#[test]
fn split_basic() {
    let chunks = split_by_tokens("one two three four five six", 2);
    assert!(
        chunks.len() >= 2,
        "Expected multiple chunks, got {}",
        chunks.len()
    );
}

#[test]
fn split_empty() {
    assert!(split_by_tokens("", 5).is_empty());
}

#[test]
fn split_zero_chunk_size() {
    assert!(split_by_tokens("hello", 0).is_empty());
}

#[test]
fn split_with_overlap() {
    let opts = SplitOptions {
        overlap: 1,
        ..Default::default()
    };
    let chunks =
        split_by_tokens_with_options("one two three four five six seven eight", 3, &opts);
    assert!(chunks.len() >= 2);
    // With overlap, chunks should share some content.
}
