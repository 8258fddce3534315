//! Fast token count estimation for LLMs without a full tokenizer.
//!
//! A single pass over the text classifies each character and groups runs of
//! characters of one kind (whitespace, punctuation, word) into segments; each
//! segment is scored by type, and the estimate is the sum of the scores.
//! Language-specific diacritics adjust the characters-per-token ratio.
use vstd::prelude::*;

pub mod chars;
pub mod config;
pub mod estimator;
pub mod laws;
pub mod segments;
pub mod utils;
pub mod words;

pub use config::{
    is_french, is_german, is_spanish, default_language_configs, CharsPerToken, EstimationOptions,
    LanguageConfig, SplitOptions, DEFAULT_CHARS_PER_TOKEN,
};
pub use estimator::{estimate_token_count, estimate_token_count_with_options};
pub use utils::{
    checked_split_by_tokens_with_options, is_within_token_limit,
    is_within_token_limit_with_options, slice_by_tokens, slice_by_tokens_with_options,
    split_by_tokens, split_by_tokens_with_options,
};

verus! {

} // verus!
