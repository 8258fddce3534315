//! Core token estimation: a single pass that groups characters into runs of
//! one kind and scores each run.
use vstd::prelude::*;

use crate::chars::{
    is_alphanumeric_latin, is_ascii_digit, is_cjk, lemma_utf8_len_concat, lemma_utf8_len_ge_len,
    lemma_utf8_len_push, split_classify, split_kind, utf8_len, utf8_width, SplitKind,
};
use crate::config::{
    default_options, detect_language, lemma_default_options_valid, ranges_contain,
    CharsPerToken, EstimationOptions, LanguageRule,
};
use crate::segments::{
    all_alphanumeric_latin, all_ascii_digits, has_cjk, last_run_len,
    lemma_detect_language_in_rules, lemma_last_run_len_bounds, lemma_last_run_push,
    lemma_last_run_shape, lemma_segment_push, lemma_segment_single, lemma_token_estimate_concat,
    lemma_token_estimate_le_utf8_len,
    punctuation_score, ratio_tokens, run_score, segment_language, segment_score, token_estimate,
    word_score,
};

verus! {

/// Whether one of `ranges` contains `c`.
pub fn in_ranges(ranges: &Vec<(char, char)>, c: char) -> (r: bool)
    ensures
        r == ranges_contain(ranges@, c),
{
    let mut i: usize = 0;
    while i < ranges.len()
        invariant
            i <= ranges@.len(),
            forall|j: int| 0 <= j < i ==> !(#[trigger] ranges@[j].0 <= c && c <= ranges@[j].1),
        decreases ranges@.len() - i,
    {
        let (lo, hi) = ranges[i];
        if lo <= c && c <= hi {
            return true;
        }
        i = i + 1;
    }
    false
}

/// The ratio of the first language configuration whose matcher accepts `c`.
pub fn detect_language_cpt(c: char, options: &EstimationOptions) -> (r: Option<CharsPerToken>)
    ensures
        r == detect_language(options@.rules, c),
{
    let ghost rules = options@.rules;
    let mut i: usize = 0;
    assert(rules.skip(0) =~= rules);
    while i < options.language_configs.len()
        invariant
            i <= options.language_configs@.len(),
            rules == options@.rules,
            rules.len() == options.language_configs@.len(),
            detect_language(rules, c) == detect_language(rules.skip(i as int), c),
        decreases options.language_configs@.len() - i,
    {
        let lc = &options.language_configs[i];
        assert(rules.skip(i as int)[0] == lc@);
        assert(rules.skip(i as int).drop_first() =~= rules.skip(i + 1));
        if in_ranges(&lc.matcher, c) {
            return Some(lc.chars_per_token);
        }
        i = i + 1;
    }
    assert(rules.skip(i as int) =~= Seq::<LanguageRule>::empty());
    None
}

/// `bytes` divided by the ratio, rounded up.
fn tokens_for_bytes(bytes: usize, r: CharsPerToken) -> (n: usize)
    requires
        r.is_valid(),
        ratio_tokens(bytes as nat, r) <= usize::MAX,
    ensures
        n == ratio_tokens(bytes as nat, r),
{
    let b = bytes as u128;
    let t = r.tokens as u128;
    let c = r.chars as u128;
    assert(b * t <= 0xffff_ffff_ffff_ffffu128 * 0xffff_ffff_ffff_ffffu128) by (nonlinear_arith)
        requires
            b <= 0xffff_ffff_ffff_ffffu128,
            t <= 0xffff_ffff_ffff_ffffu128,
    ;
    let num = b * t + (c - 1);
    let q = num / c;
    q as usize
}

/// Score of a word run from its measurements.
fn score_word(
    byte_len: usize,
    char_count: usize,
    has_cjk: bool,
    all_alphanum: bool,
    all_digits: bool,
    lang_cpt: Option<CharsPerToken>,
    default_cpt: CharsPerToken,
) -> (n: usize)
    requires
        default_cpt.is_valid(),
        lang_cpt matches Some(r) ==> r.is_valid(),
        word_score(
            byte_len as nat,
            char_count as nat,
            has_cjk,
            all_alphanum,
            all_digits,
            lang_cpt,
            default_cpt,
        ) <= usize::MAX,
    ensures
        n == word_score(
            byte_len as nat,
            char_count as nat,
            has_cjk,
            all_alphanum,
            all_digits,
            lang_cpt,
            default_cpt,
        ),
{
    if has_cjk {
        return char_count;
    }
    if all_digits {
        return 1;
    }
    if byte_len <= 3 {
        return 1;
    }
    if all_alphanum || lang_cpt.is_some() {
        let cpt = match lang_cpt {
            Some(r) => r,
            None => default_cpt,
        };
        return tokens_for_bytes(byte_len, cpt);
    }
    char_count
}

/// Score of a punctuation run of `byte_len` bytes.
fn score_punctuation(byte_len: usize) -> (n: usize)
    ensures
        n == punctuation_score(byte_len as nat),
{
    if byte_len <= 3 {
        1
    } else {
        byte_len / 2 + byte_len % 2
    }
}

/// Score of a run of kind `kind` from its measurements.
fn score_run(
    kind: SplitKind,
    byte_len: usize,
    char_count: usize,
    has_cjk: bool,
    all_alphanum: bool,
    all_digits: bool,
    lang_cpt: Option<CharsPerToken>,
    default_cpt: CharsPerToken,
) -> (n: usize)
    requires
        default_cpt.is_valid(),
        lang_cpt matches Some(r) ==> r.is_valid(),
        run_score(
            kind,
            byte_len as nat,
            char_count as nat,
            has_cjk,
            all_alphanum,
            all_digits,
            lang_cpt,
            default_cpt,
        ) <= usize::MAX,
    ensures
        n == run_score(
            kind,
            byte_len as nat,
            char_count as nat,
            has_cjk,
            all_alphanum,
            all_digits,
            lang_cpt,
            default_cpt,
        ),
{
    match kind {
        SplitKind::Whitespace => 0,
        SplitKind::Punctuation => score_punctuation(byte_len),
        SplitKind::Word => score_word(
            byte_len,
            char_count,
            has_cjk,
            all_alphanum,
            all_digits,
            lang_cpt,
            default_cpt,
        ),
    }
}

/// Estimates the number of tokens in `text` using custom options.
///
/// The estimate is the sum, over the maximal runs of characters of one kind
/// (whitespace, punctuation, word), of each run's score.
pub fn estimate_token_count_with_options(text: &str, options: &EstimationOptions) -> (n: usize)
    requires
        options@.is_valid(),
        token_estimate(text@, options@) <= usize::MAX,
    ensures
        n == token_estimate(text@, options@),
{
    let ghost s = text@;
    let ghost opts = options@;
    // the byte length of a `str` fits in a `usize`
    let _ = text_byte_len(text);
    if text.is_empty() {
        return 0;
    }
    let mut total_tokens: usize = 0;

    let mut seg_split_kind = SplitKind::Word;
    let mut seg_byte_len: usize = 0;
    let mut seg_char_count: usize = 0;
    let mut seg_has_cjk = false;
    let mut seg_all_alphanum = true;
    let mut seg_all_digits = true;
    let mut seg_lang_cpt: Option<CharsPerToken> = None;
    let mut in_segment = false;

    let default_cpt = options.default_chars_per_token;

    for c in it: text.chars()
        invariant
            s == text@,
            opts == options@,
            opts.is_valid(),
            token_estimate(s, opts) <= usize::MAX,
            utf8_len(s) <= usize::MAX,
            default_cpt == opts.default_ratio,
            it.seq() == s,
            s.len() > 0,
            in_segment == (it.index() > 0),
            it.index() == 0 ==> total_tokens == 0,
            it.index() > 0 ==> ({
                let p = s.take(it.index());
                let k = last_run_len(p);
                let seg = p.skip(p.len() - k);
                &&& seg_char_count == k
                &&& seg_split_kind == split_kind(p.last())
                &&& total_tokens == token_estimate(p.take(p.len() - k), opts)
                &&& seg_byte_len == utf8_len(seg)
                &&& seg_split_kind == SplitKind::Word ==> {
                    &&& seg_has_cjk == has_cjk(seg)
                    &&& seg_all_alphanum == all_alphanumeric_latin(seg)
                    &&& seg_all_digits == all_ascii_digits(seg)
                    &&& seg_lang_cpt == segment_language(seg, opts.rules)
                }
                &&& seg_lang_cpt matches Some(r) ==> r.is_valid()
            }),
    {
        let ghost i = it.index();
        let ghost p = s.take(i);
        let ghost p2 = s.take(i + 1);
        assert(c == s[i]);
        assert(p2 =~= p.push(c));
        proof {
            lemma_last_run_push(p, c);
            lemma_last_run_len_bounds(p);
        }
        let kind = split_classify(c);

        if in_segment && kind == seg_split_kind {
            proof {
                let k = last_run_len(p);
                let seg = p.skip(p.len() - k);
                assert(p2.skip(p2.len() - (k + 1)) =~= seg.push(c));
                assert(p2.take(p2.len() - (k + 1)) =~= p.take(p.len() - k));
                lemma_utf8_len_push(seg, c);
                assert(s =~= p.take(p.len() - k) + seg.push(c) + s.skip(i + 1));
                lemma_utf8_len_concat(p.take(p.len() - k), seg.push(c));
                lemma_utf8_len_concat(p.take(p.len() - k) + seg.push(c), s.skip(i + 1));
                lemma_utf8_len_ge_len(seg.push(c));
            }
            seg_byte_len = seg_byte_len + utf8_width(c);
            seg_char_count = seg_char_count + 1;
            if kind == SplitKind::Word {
                if is_cjk(c) {
                    seg_has_cjk = true;
                }
                if !is_alphanumeric_latin(c) {
                    seg_all_alphanum = false;
                    seg_all_digits = false;
                } else if !is_ascii_digit(c) {
                    seg_all_digits = false;
                }
                if seg_lang_cpt.is_none() {
                    seg_lang_cpt = detect_language_cpt(c, options);
                }
                proof {
                    let k = last_run_len(p);
                    lemma_segment_push(p.skip(p.len() - k), c, opts.rules);
                    lemma_detect_language_in_rules(opts.rules, c);
                }
            }
        } else {
            if in_segment {
                proof {
                    let k = last_run_len(p);
                    let seg = p.skip(p.len() - k);
                    lemma_last_run_shape(p);
                    assert(seg[0] == p[p.len() - k]);
                    assert(token_estimate(p, opts) == token_estimate(p.take(p.len() - k), opts)
                        + segment_score(seg, opts));
                    assert(s =~= p + s.skip(i));
                    assert(s.skip(i)[0] == c);
                    lemma_token_estimate_concat(p, s.skip(i), opts);
                }
                total_tokens = total_tokens + score_run(
                    seg_split_kind,
                    seg_byte_len,
                    seg_char_count,
                    seg_has_cjk,
                    seg_all_alphanum,
                    seg_all_digits,
                    seg_lang_cpt,
                    default_cpt,
                );
            }
            proof {
                assert(p2.skip(i) =~= seq![c]);
                assert(p2.take(i) =~= p);
                lemma_segment_single(c, opts.rules);
                lemma_utf8_len_push(Seq::<char>::empty(), c);
                assert(Seq::<char>::empty().push(c) =~= seq![c]);
                lemma_detect_language_in_rules(opts.rules, c);
                if i == 0 {
                    assert(p =~= Seq::<char>::empty());
                }
            }
            seg_split_kind = kind;
            seg_byte_len = utf8_width(c);
            seg_char_count = 1;
            seg_has_cjk = kind == SplitKind::Word && is_cjk(c);
            seg_all_alphanum = kind != SplitKind::Word || is_alphanumeric_latin(c);
            seg_all_digits = kind == SplitKind::Word && is_ascii_digit(c);
            seg_lang_cpt = if kind == SplitKind::Word {
                detect_language_cpt(c, options)
            } else {
                None
            };
            in_segment = true;
        }
    }
    proof {
        assert(s.take(s.len() as int) =~= s);
        lemma_last_run_shape(s);
        lemma_last_run_len_bounds(s);
        let k = last_run_len(s);
        assert(s.skip(s.len() - k)[0] == s[s.len() - k]);
    }
    if in_segment {
        total_tokens = total_tokens + score_run(
            seg_split_kind,
            seg_byte_len,
            seg_char_count,
            seg_has_cjk,
            seg_all_alphanum,
            seg_all_digits,
            seg_lang_cpt,
            default_cpt,
        );
    }
    total_tokens
}

/// Number of bytes of the UTF-8 encoding of `text`.
pub fn text_byte_len(text: &str) -> (n: usize)
    ensures
        n == utf8_len(text@),
{
    text.as_bytes().len()
}

/// Estimates the number of tokens in `text` using default options.
pub fn estimate_token_count(text: &str) -> (n: usize)
    ensures
        n == token_estimate(text@, default_options()),
{
    let options = EstimationOptions::default();
    // the byte length of a `str` fits in a `usize`
    let _ = text_byte_len(text);
    proof {
        lemma_default_options_valid();
        lemma_token_estimate_le_utf8_len(text@, default_options());
    }
    estimate_token_count_with_options(text, &options)
}

} // verus!
