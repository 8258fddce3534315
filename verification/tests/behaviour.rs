use tokenx_rs::chars::{
    is_alphanumeric_latin, is_ascii_digit, is_cjk, is_punctuation, is_whitespace, split_classify,
    utf8_width, SplitKind,
};
use tokenx_rs::estimator::text_byte_len;
use tokenx_rs::words::split_words;
use tokenx_rs::{
    checked_split_by_tokens_with_options, default_language_configs, estimate_token_count,
    estimate_token_count_with_options, is_french, is_german, is_spanish, is_within_token_limit,
    is_within_token_limit_with_options, slice_by_tokens, slice_by_tokens_with_options,
    split_by_tokens, split_by_tokens_with_options, CharsPerToken, EstimationOptions,
    LanguageConfig, SplitOptions,
};

fn all_chars() -> impl Iterator<Item = char> {
    (0u32..=0x10FFFF).filter_map(char::from_u32)
}

#[test]
fn whitespace_matches_std() {
    for c in all_chars() {
        assert_eq!(is_whitespace(c), c.is_whitespace(), "{:?}", c);
    }
}

#[test]
fn ascii_classes_match_std() {
    for c in all_chars() {
        assert_eq!(is_ascii_digit(c), c.is_ascii_digit(), "{:?}", c);
        let latin1_letter = matches!(c, '\u{00C0}'..='\u{00D6}' | '\u{00D8}'..='\u{00F6}' | '\u{00F8}'..='\u{00FF}');
        assert_eq!(
            is_alphanumeric_latin(c),
            c.is_ascii_alphanumeric() || latin1_letter,
            "{:?}",
            c
        );
        assert_eq!(utf8_width(c), c.len_utf8(), "{:?}", c);
    }
}

#[test]
fn classification_examples() {
    assert_eq!(split_classify(' '), SplitKind::Whitespace);
    assert_eq!(split_classify('\u{3000}'), SplitKind::Whitespace);
    assert_eq!(split_classify('-'), SplitKind::Punctuation);
    assert_eq!(split_classify('\u{201C}'), SplitKind::Punctuation);
    assert_eq!(split_classify('_'), SplitKind::Word);
    assert_eq!(split_classify('\u{4E2D}'), SplitKind::Word);
    assert!(is_cjk('\u{AC00}'));
    assert!(!is_cjk('a'));
    assert!(is_punctuation('~'));
    assert!(!is_punctuation('_'));
}

#[test]
fn default_matchers_follow_the_predicates() {
    let configs = default_language_configs();
    assert_eq!(configs.len(), 2);
    assert_eq!(configs[0].chars_per_token, CharsPerToken { chars: 3, tokens: 1 });
    assert_eq!(configs[1].chars_per_token, CharsPerToken { chars: 7, tokens: 2 });
    for c in all_chars().take(0x2000) {
        let in_first = configs[0].matcher.iter().any(|&(lo, hi)| lo <= c && c <= hi);
        let in_second = configs[1].matcher.iter().any(|&(lo, hi)| lo <= c && c <= hi);
        assert_eq!(in_first, is_german(c) || is_french(c), "{:?}", c);
        assert_eq!(in_second, is_spanish(c), "{:?}", c);
    }
    assert!(is_german('ß') && is_french('œ') && is_spanish('ñ'));
    assert!(!is_german('a') && !is_french('ñ') && !is_spanish('ä'));
}

#[test]
fn run_scores() {
    // punctuation: one token up to three bytes, then half the bytes rounded up
    assert_eq!(estimate_token_count("!!!"), 1);
    assert_eq!(estimate_token_count("...."), 2);
    assert_eq!(estimate_token_count("......."), 4);
    assert_eq!(estimate_token_count("\u{201C}\u{201D}"), 3);
    // words
    assert_eq!(estimate_token_count("000123"), 1);
    assert_eq!(estimate_token_count("abcdefg"), 2);
    assert_eq!(estimate_token_count("漢字テスト"), 5);
    assert_eq!(estimate_token_count("a_b"), 1);
    assert_eq!(estimate_token_count("Hello, world!"), 4);
    assert_eq!(estimate_token_count("Hello 你好 Bonjour"), 5);
}

#[test]
fn language_ratios() {
    // German umlauts: 3 characters per token
    assert_eq!(estimate_token_count("ääää"), 3);
    // Spanish: 3.5 characters per token
    assert_eq!(estimate_token_count("ññññ"), 3);
    // French ligature outside Latin-1: scored by ratio, not per character
    assert_eq!(estimate_token_count("xœyz"), 2);
    // the first matching character decides: Spanish before German
    assert_eq!(estimate_token_count("ñääää"), 3);
    assert_eq!(estimate_token_count("äññññ"), 4);
}

#[test]
fn custom_language_config() {
    let opts = EstimationOptions {
        default_chars_per_token: CharsPerToken { chars: 6, tokens: 1 },
        language_configs: vec![
            LanguageConfig {
                matcher: vec![('x', 'x')],
                chars_per_token: CharsPerToken { chars: 1, tokens: 1 },
            },
            LanguageConfig {
                matcher: vec![('w', 'z')],
                chars_per_token: CharsPerToken { chars: 2, tokens: 1 },
            },
        ],
    };
    assert_eq!(estimate_token_count_with_options("xyzw", &opts), 4);
    assert_eq!(estimate_token_count_with_options("yzwx", &opts), 2);
    assert_eq!(estimate_token_count_with_options("abcd", &opts), 1);
    assert!(is_within_token_limit_with_options("xyzw", 4, &opts));
    assert!(!is_within_token_limit_with_options("xyzw", 3, &opts));
}

#[test]
fn ratio_without_tokens() {
    let opts = EstimationOptions {
        default_chars_per_token: CharsPerToken { chars: 1, tokens: 0 },
        language_configs: vec![],
    };
    assert_eq!(estimate_token_count_with_options("abcdefgh", &opts), 0);
    assert_eq!(estimate_token_count_with_options("abcdefgh, 12 x_yz", &opts), 6);
}

#[test]
fn estimate_is_additive_at_run_boundaries() {
    let a = "Hello, world! ";
    let b = "foo-bar";
    let joined = format!("{a}{b}");
    assert_eq!(
        estimate_token_count(&joined),
        estimate_token_count(a) + estimate_token_count(b)
    );
    // a cut inside a word is not a run boundary
    assert_eq!(estimate_token_count("abcd"), 1);
    assert_eq!(estimate_token_count("ab") + estimate_token_count("cd"), 2);
}

#[test]
fn zero_exactly_for_whitespace() {
    assert_eq!(estimate_token_count("\u{3000}\u{2003}\u{85} \t"), 0);
    assert!(estimate_token_count(" \u{3000}x ") > 0);
}

#[test]
fn estimate_within_byte_length() {
    for text in ["", "a", "Hello, world!", "漢字", "ääää", "process_items", "...."] {
        assert!(estimate_token_count(text) <= text_byte_len(text));
        assert_eq!(text_byte_len(text), text.len());
    }
}

#[test]
fn within_limit_matches_estimate() {
    let text = "The quick brown fox";
    let n = estimate_token_count(text);
    assert!(is_within_token_limit(text, n));
    assert!(!is_within_token_limit(text, n - 1));
}

#[test]
fn words_are_cut_after_whitespace() {
    let words = split_words("a  b\nc");
    assert_eq!(words, vec!["a ".to_string(), " ".to_string(), "b\n".to_string(), "c".to_string()]);
    assert_eq!(words.concat(), "a  b\nc");
    assert!(split_words("").is_empty());
    assert_eq!(split_words("xyz"), vec!["xyz".to_string()]);
}

#[test]
fn slice_examples() {
    let text = "one two three four five";
    assert_eq!(slice_by_tokens(text, -2, None), "four five");
    assert_eq!(slice_by_tokens(text, 1, Some(3)), "two three ");
    assert_eq!(slice_by_tokens(text, 0, Some(-1)), "one two three four ");
    assert_eq!(slice_by_tokens(text, isize::MIN, None), text);
    assert_eq!(slice_by_tokens(text, 0, Some(isize::MAX)), text);
    assert_eq!(slice_by_tokens(text, 5, None), "");
    assert_eq!(slice_by_tokens("   ", 0, None), "");
    // leading whitespace is not part of any token
    assert_eq!(slice_by_tokens(" a b ", 0, None), "a b ");
    let opts = EstimationOptions::default();
    assert_eq!(slice_by_tokens_with_options(text, 4, None, &opts), "five");
}

#[test]
fn slice_is_a_substring() {
    let text = "alpha beta, gamma delta epsilon";
    for start in -6..6 {
        for end in -6..6 {
            let s = slice_by_tokens(text, start, Some(end));
            assert!(text.contains(s.as_str()));
        }
    }
}

#[test]
fn split_examples() {
    assert_eq!(
        split_by_tokens("one two three four five six", 2),
        vec!["one two ", "three four ", "five six"]
    );
    let opts = SplitOptions { overlap: 1, ..Default::default() };
    assert_eq!(
        split_by_tokens_with_options("one two three four five six seven eight", 3, &opts),
        vec!["one two three ", "three four five ", "five six seven ", "seven eight"]
    );
}

#[test]
fn split_covers_text_without_overlap() {
    let text = "a bb ccc dddd eeeee ffffff ggggggg, hh! ii";
    for n in 1..8 {
        let chunks = split_by_tokens(text, n);
        assert_eq!(chunks.concat(), text);
        let last = chunks.len() - 1;
        for (k, c) in chunks.iter().enumerate() {
            assert!(!c.is_empty());
            if k < last {
                assert!(estimate_token_count(c) >= n);
            }
        }
    }
}

#[test]
fn split_overlap_that_never_advances() {
    let opts = SplitOptions { overlap: 1, ..Default::default() };
    assert_eq!(checked_split_by_tokens_with_options("one two", 1, &opts), None);
    assert_eq!(
        checked_split_by_tokens_with_options("one two three", 2, &opts),
        Some(vec!["one two ".to_string(), "two three".to_string()])
    );
    assert_eq!(checked_split_by_tokens_with_options("", 1, &opts), Some(vec![]));
    assert_eq!(checked_split_by_tokens_with_options("x", 0, &opts), Some(vec![]));
}
