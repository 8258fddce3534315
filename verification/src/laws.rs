//! Properties of the estimator and of the utilities that hold for every input.
use vstd::prelude::*;

use vstd::seq_lib::lemma_flatten_concat;

use crate::chars::{
    lemma_utf8_len_push, spec_is_alphanumeric_latin, spec_is_ascii_digit, spec_is_cjk,
    spec_is_whitespace, split_kind, utf8_len, SplitKind,
};
use crate::config::{
    default_options, detect_language, lemma_default_rules_match, CharsPerToken, LanguageRule,
    OptionsModel,
};
use crate::segments::{
    all_alphanumeric_latin, all_ascii_digits, has_cjk, lemma_last_run_unique,
    lemma_token_estimate_concat, lemma_token_estimate_zero_iff_whitespace, segment_language,
    segment_score,
    token_estimate,
};
use crate::utils::{
    rewind_start, chunk_end, chunks_from, lemma_chunk_end_bounds, lemma_next_chunk_start_bounds,
    next_chunk_start, token_chunks, lemma_sum_estimates_concat, lemma_sum_estimates_subrange,
    lemma_words_in_span_past_end,
    resolve_token_index, token_slice, words_in_span,
};
use crate::words::{
    lemma_estimate_of_words, lemma_flatten_last, lemma_words_of, sum_estimates, well_cut,
    words_of,
};

verus! {

/// A text made of one run of characters of one kind is scored as that run:
/// whitespace is free, punctuation costs one token up to three bytes and half
/// its bytes (rounded up) beyond, and a word is scored by `word_score`.
pub proof fn law_single_run_estimate(s: Seq<char>, opts: OptionsModel)
    requires
        s.len() > 0,
        forall|j: int| 0 <= j < s.len() ==> #[trigger] split_kind(s[j]) == split_kind(s[0]),
    ensures
        token_estimate(s, opts) == segment_score(s, opts),
{
    assert(split_kind(s[s.len() - 1]) == split_kind(s[0]));
    lemma_last_run_unique(s, s.len() as int);
    assert(s.take(0) =~= Seq::<char>::empty());
    assert(s.skip(0) =~= s);
    assert(token_estimate(s.take(0), opts) == 0);
    assert(token_estimate(s, opts) == token_estimate(s.take(0), opts) + segment_score(
        s.skip(0),
        opts,
    ));
}

/// Sums of estimates of word prefixes only grow.
proof fn lemma_sum_prefix_monotone(ws: Seq<Seq<char>>, opts: OptionsModel, i: int, j: int)
    requires
        0 <= i <= j <= ws.len(),
    ensures
        sum_estimates(ws.take(i), opts) <= sum_estimates(ws.take(j), opts),
{
    assert(ws.take(j) =~= ws.take(i) + ws.subrange(i, j));
    lemma_sum_estimates_concat(ws.take(i), ws.subrange(i, j), opts);
}

/// Every word is kept when every word's span meets the range.
proof fn lemma_words_in_span_all(
    ws: Seq<Seq<char>>,
    opts: OptionsModel,
    start: int,
    end: int,
    before: int,
)
    requires
        forall|j: int|
            0 <= j < ws.len() ==> before + sum_estimates(#[trigger] ws.take(j + 1), opts) > start
                && before + sum_estimates(ws.take(j), opts) < end,
    ensures
        words_in_span(ws, opts, start, end, before) == ws.flatten(),
    decreases ws.len(),
{
    if ws.len() > 0 {
        let w = ws[0];
        let rest = ws.drop_first();
        let after = before + token_estimate(w, opts);
        assert(ws.take(1) =~= seq![w]);
        assert(seq![w].drop_last() =~= Seq::<Seq<char>>::empty());
        assert(ws.take(0) =~= Seq::<Seq<char>>::empty());
        assert(sum_estimates(ws.take(1), opts) == token_estimate(w, opts));
        assert forall|j: int| 0 <= j < rest.len() implies after + sum_estimates(
            #[trigger] rest.take(j + 1),
            opts,
        ) > start && after + sum_estimates(rest.take(j), opts) < end by {
            assert(ws.take(j + 2) =~= seq![w] + rest.take(j + 1));
            assert(ws.take(j + 1) =~= seq![w] + rest.take(j));
            lemma_sum_estimates_concat(seq![w], rest.take(j + 1), opts);
            lemma_sum_estimates_concat(seq![w], rest.take(j), opts);
            assert(ws.take((j + 1) + 1) == ws.take(j + 2));
        }
        lemma_words_in_span_all(rest, opts, start, end, after);
    }
}

/// The full token range of a text that neither starts nor ends with whitespace
/// slices out the whole text (when every ratio counts some tokens).
pub proof fn law_full_slice_is_text(s: Seq<char>, opts: OptionsModel)
    requires
        opts.is_valid(),
        opts.counts_tokens(),
        s.len() > 0,
        !spec_is_whitespace(s[0]),
        !spec_is_whitespace(s.last()),
    ensures
        token_slice(s, opts, 0, None) == s,
{
    let ws = words_of(s);
    lemma_words_of(s);
    lemma_estimate_of_words(ws, opts);
    lemma_token_estimate_zero_iff_whitespace(s, opts);
    let total = token_estimate(s, opts) as int;
    assert(total > 0);
    assert(resolve_token_index(0, total) == 0);
    // the first word starts with the text's first character
    assert(ws.flatten() == ws[0] + ws.drop_first().flatten());
    assert(ws[0][0] == s[0]);
    lemma_token_estimate_zero_iff_whitespace(ws[0], opts);
    assert(token_estimate(ws[0], opts) > 0);
    // the last word ends with the text's last character
    lemma_flatten_last(ws);
    lemma_token_estimate_zero_iff_whitespace(ws.last(), opts);
    assert(token_estimate(ws.last(), opts) > 0);
    let n = ws.len() as int;
    assert(ws.take(n) =~= ws);
    assert(ws.take(n - 1) =~= ws.drop_last());
    assert forall|j: int|
        0 <= j < ws.len() implies 0 + sum_estimates(#[trigger] ws.take(j + 1), opts) > 0 && 0
        + sum_estimates(ws.take(j), opts) < total by {
        lemma_sum_prefix_monotone(ws, opts, 1, j + 1);
        lemma_sum_prefix_monotone(ws, opts, j, n - 1);
        assert(ws.take(1) =~= seq![ws[0]]);
        assert(seq![ws[0]].drop_last() =~= Seq::<Seq<char>>::empty());
        assert(ws.take(0) =~= Seq::<Seq<char>>::empty());
    }
    lemma_words_in_span_all(ws, opts, 0, total, 0);
}

/// Once a kept word lies past the range's start, the kept words that follow
/// form a prefix.
proof fn lemma_words_in_span_prefix(
    ws: Seq<Seq<char>>,
    opts: OptionsModel,
    start: int,
    end: int,
    before: int,
) -> (q: int)
    requires
        before > start,
    ensures
        0 <= q <= ws.len(),
        words_in_span(ws, opts, start, end, before) == ws.take(q).flatten(),
    decreases ws.len(),
{
    if ws.len() == 0 || before >= end {
        if before >= end {
            lemma_words_in_span_past_end(ws, opts, start, end, before);
        }
        assert(ws.take(0) =~= Seq::<Seq<char>>::empty());
        0
    } else {
        let rest = ws.drop_first();
        let after = before + token_estimate(ws[0], opts);
        let q1 = lemma_words_in_span_prefix(rest, opts, start, end, after);
        assert(ws.take(q1 + 1) =~= seq![ws[0]] + rest.take(q1));
        lemma_flatten_concat(seq![ws[0]], rest.take(q1));
        seq![ws[0]].lemma_flatten_one_element();
        q1 + 1
    }
}

/// The kept words are consecutive.
proof fn lemma_words_in_span_interval(
    ws: Seq<Seq<char>>,
    opts: OptionsModel,
    start: int,
    end: int,
    before: int,
) -> (pq: (int, int))
    ensures
        0 <= pq.0 <= pq.1 <= ws.len(),
        words_in_span(ws, opts, start, end, before) == ws.subrange(pq.0, pq.1).flatten(),
    decreases ws.len(),
{
    if ws.len() == 0 {
        assert(ws.subrange(0, 0) =~= Seq::<Seq<char>>::empty());
        (0, 0)
    } else {
        let rest = ws.drop_first();
        let after = before + token_estimate(ws[0], opts);
        if after > start && before < end {
            let q1 = lemma_words_in_span_prefix(rest, opts, start, end, after);
            assert(ws.subrange(0, q1 + 1) =~= seq![ws[0]] + rest.take(q1));
            lemma_flatten_concat(seq![ws[0]], rest.take(q1));
            seq![ws[0]].lemma_flatten_one_element();
            (0, q1 + 1)
        } else {
            let (p1, q1) = lemma_words_in_span_interval(rest, opts, start, end, after);
            assert(ws.subrange(p1 + 1, q1 + 1) =~= rest.subrange(p1, q1));
            assert(words_in_span(ws, opts, start, end, before) =~= words_in_span(
                rest,
                opts,
                start,
                end,
                after,
            ));
            (p1 + 1, q1 + 1)
        }
    }
}

/// A token slice is a contiguous piece of the text.
pub proof fn law_slice_is_substring(
    s: Seq<char>,
    opts: OptionsModel,
    start: int,
    end: Option<int>,
)
    ensures
        exists|i: int, k: int|
            0 <= i <= k <= s.len() && #[trigger] s.subrange(i, k) == token_slice(
                s,
                opts,
                start,
                end,
            ),
{
    let r = token_slice(s, opts, start, end);
    if r.len() == 0 {
        assert(s.subrange(0, 0) =~= r);
    } else {
        let total = token_estimate(s, opts) as int;
        let a = resolve_token_index(start, total);
        let b = match end {
            Some(e) => resolve_token_index(e, total),
            None => total,
        };
        let ws = words_of(s);
        lemma_words_of(s);
        let (p, q) = lemma_words_in_span_interval(ws, opts, a, b, 0);
        assert(ws =~= ws.take(p) + ws.subrange(p, q) + ws.skip(q));
        lemma_flatten_concat(ws.take(p) + ws.subrange(p, q), ws.skip(q));
        lemma_flatten_concat(ws.take(p), ws.subrange(p, q));
        let i = ws.take(p).flatten().len() as int;
        let k = i + ws.subrange(p, q).flatten().len();
        assert(s.subrange(i, k) =~= ws.subrange(p, q).flatten());
    }
}

/// Without an overlap, the chunks from word `i` on put together give the words
/// from `i` on.
proof fn lemma_chunks_from_flatten(ws: Seq<Seq<char>>, opts: OptionsModel, i: int, tpc: int)
    requires
        tpc > 0,
        0 <= i <= ws.len(),
    ensures
        chunks_from(ws, opts, i, tpc, 0).flatten() == ws.skip(i).flatten(),
    decreases ws.len() - i,
{
    if i == ws.len() {
        assert(ws.skip(i) =~= Seq::<Seq<char>>::empty());
        assert(chunks_from(ws, opts, i, tpc, 0) =~= Seq::<Seq<char>>::empty());
    } else {
        lemma_chunk_end_bounds(ws, opts, i, tpc, 0);
        let e = chunk_end(ws, opts, i, tpc, 0);
        lemma_chunks_from_flatten(ws, opts, e, tpc);
        let first = ws.subrange(i, e).flatten();
        let rest = chunks_from(ws, opts, e, tpc, 0);
        assert(chunks_from(ws, opts, i, tpc, 0) == seq![first] + rest);
        lemma_flatten_concat(seq![first], rest);
        seq![first].lemma_flatten_one_element();
        assert(ws.skip(i) =~= ws.subrange(i, e) + ws.skip(e));
        lemma_flatten_concat(ws.subrange(i, e), ws.skip(e));
    }
}

/// Without an overlap, the chunks put together give the text back.
pub proof fn law_chunks_cover_text(s: Seq<char>, opts: OptionsModel, tokens_per_chunk: int)
    requires
        tokens_per_chunk > 0,
    ensures
        token_chunks(s, opts, tokens_per_chunk, 0).flatten() == s,
{
    if s.len() > 0 {
        let ws = words_of(s);
        lemma_words_of(s);
        lemma_chunks_from_flatten(ws, opts, 0, tokens_per_chunk);
        assert(ws.skip(0) =~= ws);
    } else {
        assert(token_chunks(s, opts, tokens_per_chunk, 0) =~= Seq::<Seq<char>>::empty());
        assert(Seq::<Seq<char>>::empty().flatten() =~= s);
    }
}

/// Every chunk from word `i` on is non-empty.
proof fn lemma_chunks_from_nonempty(
    ws: Seq<Seq<char>>,
    opts: OptionsModel,
    i: int,
    tpc: int,
    overlap: int,
)
    requires
        tpc > 0,
        0 <= i <= ws.len(),
        forall|m: int| 0 <= m < ws.len() ==> #[trigger] ws[m].len() > 0,
    ensures
        forall|k: int|
            0 <= k < chunks_from(ws, opts, i, tpc, overlap).len() ==> #[trigger] chunks_from(
                ws,
                opts,
                i,
                tpc,
                overlap,
            )[k].len() > 0,
    decreases ws.len() - i,
{
    if i < ws.len() {
        lemma_chunk_end_bounds(ws, opts, i, tpc, 0);
        lemma_next_chunk_start_bounds(ws, opts, i, tpc, overlap);
        let e = chunk_end(ws, opts, i, tpc, 0);
        let next = next_chunk_start(ws, opts, i, tpc, overlap);
        let sub = ws.subrange(i, e);
        assert(sub.flatten() == sub[0] + sub.drop_first().flatten());
        assert(sub[0] == ws[i]);
        let all = chunks_from(ws, opts, i, tpc, overlap);
        if i < next {
            lemma_chunks_from_nonempty(ws, opts, next, tpc, overlap);
            let rest = chunks_from(ws, opts, next, tpc, overlap);
            assert forall|k: int| 0 <= k < all.len() implies #[trigger] all[k].len() > 0 by {
                if k > 0 {
                    assert(all[k] == rest[k - 1]);
                }
            }
        }
    }
}

/// Chunks are never empty.
pub proof fn law_chunks_nonempty(
    s: Seq<char>,
    opts: OptionsModel,
    tokens_per_chunk: int,
    overlap: int,
)
    requires
        tokens_per_chunk >= 0,
    ensures
        forall|k: int|
            0 <= k < token_chunks(s, opts, tokens_per_chunk, overlap).len() ==> (
            #[trigger] token_chunks(s, opts, tokens_per_chunk, overlap)[k]).len() > 0,
{
    if s.len() > 0 && tokens_per_chunk > 0 {
        lemma_words_of(s);
        lemma_chunks_from_nonempty(words_of(s), opts, 0, tokens_per_chunk, overlap);
    }
}

/// A chunk that stops before the last word holds at least the asked-for tokens.
proof fn lemma_chunk_end_sum(ws: Seq<Seq<char>>, opts: OptionsModel, i: int, tpc: int, acc: int)
    requires
        0 <= i <= ws.len(),
    ensures
        chunk_end(ws, opts, i, tpc, acc) < ws.len() ==> acc + sum_estimates(
            ws.subrange(i, chunk_end(ws, opts, i, tpc, acc)),
            opts,
        ) >= tpc,
    decreases ws.len() - i,
{
    if i < ws.len() && acc < tpc {
        let acc2 = acc + token_estimate(ws[i], opts);
        lemma_chunk_end_sum(ws, opts, i + 1, tpc, acc2);
        lemma_chunk_end_bounds(ws, opts, i + 1, tpc, acc2);
        let e = chunk_end(ws, opts, i + 1, tpc, acc2);
        lemma_sum_estimates_subrange(ws, opts, i + 1, e);
    } else {
        assert(ws.subrange(i, i) =~= Seq::<Seq<char>>::empty());
    }
}

/// A run of words cut from a well-cut list is well cut.
proof fn lemma_well_cut_subrange(ws: Seq<Seq<char>>, a: int, b: int)
    requires
        well_cut(ws),
        0 <= a <= b <= ws.len(),
    ensures
        well_cut(ws.subrange(a, b)),
{
    let sub = ws.subrange(a, b);
    assert forall|i: int| 0 <= i < sub.len() implies #[trigger] sub[i].len() > 0 by {
        assert(sub[i] == ws[a + i]);
    }
    assert forall|i: int, j: int|
        0 <= i < sub.len() && 0 <= j < sub[i].len() - 1 implies !spec_is_whitespace(
        #[trigger] sub[i][j],
    ) by {
        assert(sub[i] == ws[a + i]);
    }
    assert forall|i: int| 0 <= i < sub.len() - 1 implies spec_is_whitespace(
        #[trigger] sub[i].last(),
    ) by {
        assert(sub[i] == ws[a + i]);
    }
}

proof fn lemma_chunks_from_sizes(
    ws: Seq<Seq<char>>,
    opts: OptionsModel,
    i: int,
    tpc: int,
    overlap: int,
)
    requires
        well_cut(ws),
        0 <= i <= ws.len(),
    ensures
        forall|k: int|
            0 <= k < chunks_from(ws, opts, i, tpc, overlap).len() - 1 ==> token_estimate(
                #[trigger] chunks_from(ws, opts, i, tpc, overlap)[k],
                opts,
            ) >= tpc,
    decreases ws.len() - i,
{
    if i < ws.len() {
        lemma_chunk_end_bounds(ws, opts, i, tpc, 0);
        lemma_next_chunk_start_bounds(ws, opts, i, tpc, overlap);
        let e = chunk_end(ws, opts, i, tpc, 0);
        let next = next_chunk_start(ws, opts, i, tpc, overlap);
        let all = chunks_from(ws, opts, i, tpc, overlap);
        if i < next && next < ws.len() {
            lemma_chunks_from_sizes(ws, opts, next, tpc, overlap);
            let rest = chunks_from(ws, opts, next, tpc, overlap);
            assert(e < ws.len());
            lemma_chunk_end_sum(ws, opts, i, tpc, 0);
            lemma_well_cut_subrange(ws, i, e);
            lemma_estimate_of_words(ws.subrange(i, e), opts);
            assert forall|k: int| 0 <= k < all.len() - 1 implies token_estimate(
                #[trigger] all[k],
                opts,
            ) >= tpc by {
                if k > 0 {
                    assert(all[k] == rest[k - 1]);
                }
            }
        } else if i < next {
            assert(chunks_from(ws, opts, next, tpc, overlap) =~= Seq::<Seq<char>>::empty());
        }
    }
}

/// Every chunk but the last holds at least `tokens_per_chunk` tokens.
pub proof fn law_chunks_reach_size(
    s: Seq<char>,
    opts: OptionsModel,
    tokens_per_chunk: int,
    overlap: int,
)
    ensures
        forall|k: int|
            0 <= k < token_chunks(s, opts, tokens_per_chunk, overlap).len() - 1 ==> token_estimate(
                #[trigger] token_chunks(s, opts, tokens_per_chunk, overlap)[k],
                opts,
            ) >= tokens_per_chunk,
{
    if s.len() > 0 && tokens_per_chunk > 0 {
        lemma_words_of(s);
        lemma_chunks_from_sizes(words_of(s), opts, 0, tokens_per_chunk, overlap);
    }
}

/// The estimate of a text is the sum of the estimates of its words.
pub proof fn law_estimate_is_sum_over_words(s: Seq<char>, opts: OptionsModel)
    ensures
        token_estimate(s, opts) == sum_estimates(words_of(s), opts),
{
    lemma_words_of(s);
    lemma_estimate_of_words(words_of(s), opts);
}

/// A text of CJK characters (none of them whitespace) costs one token per
/// character.
pub proof fn law_cjk_text(s: Seq<char>, opts: OptionsModel)
    requires
        s.len() > 0,
        forall|j: int|
            0 <= j < s.len() ==> #[trigger] spec_is_cjk(s[j]) && !spec_is_whitespace(s[j]),
    ensures
        token_estimate(s, opts) == s.len(),
{
    assert forall|j: int| 0 <= j < s.len() implies #[trigger] split_kind(s[j])
        == SplitKind::Word by {
        assert(spec_is_cjk(s[j]));
    }
    assert(split_kind(s[0]) == SplitKind::Word);
    law_single_run_estimate(s, opts);
    assert(spec_is_cjk(s[0]));
    assert(has_cjk(s));
}

/// A run of ASCII digits is one token.
pub proof fn law_digit_run(s: Seq<char>, opts: OptionsModel)
    requires
        s.len() > 0,
        forall|j: int| 0 <= j < s.len() ==> #[trigger] spec_is_ascii_digit(s[j]),
    ensures
        token_estimate(s, opts) == 1,
{
    assert forall|j: int| 0 <= j < s.len() implies #[trigger] split_kind(s[j])
        == SplitKind::Word by {
        assert(spec_is_ascii_digit(s[j]));
    }
    assert(split_kind(s[0]) == SplitKind::Word);
    law_single_run_estimate(s, opts);
    assert forall|j: int| 0 <= j < s.len() implies !#[trigger] spec_is_cjk(s[j]) by {
        assert(spec_is_ascii_digit(s[j]));
    }
    assert(all_ascii_digits(s));
}

/// With an overlap, a chunk that is followed by more words and has more than
/// one word is followed by a chunk that starts inside it: the two share at
/// least one word.
pub proof fn law_overlap_steps_back(
    ws: Seq<Seq<char>>,
    opts: OptionsModel,
    i: int,
    tokens_per_chunk: int,
    overlap: int,
)
    requires
        0 <= i < ws.len(),
        overlap > 0,
        chunk_end(ws, opts, i, tokens_per_chunk, 0) < ws.len(),
        chunk_end(ws, opts, i, tokens_per_chunk, 0) > i,
    ensures
        next_chunk_start(ws, opts, i, tokens_per_chunk, overlap) < chunk_end(
            ws,
            opts,
            i,
            tokens_per_chunk,
            0,
        ),
{
    let e = chunk_end(ws, opts, i, tokens_per_chunk, 0);
    crate::utils::lemma_rewind_start_bounds(
        ws,
        opts,
        i,
        e - 1,
        overlap,
        token_estimate(ws[e - 1], opts) as int,
    );
    assert(rewind_start(ws, opts, i, e, overlap, 0) == rewind_start(
        ws,
        opts,
        i,
        e - 1,
        overlap,
        token_estimate(ws[e - 1], opts) as int,
    ));
}

/// A word run of at most three bytes without CJK is one token.
pub proof fn law_short_word(s: Seq<char>, opts: OptionsModel)
    requires
        s.len() > 0,
        crate::chars::utf8_len(s) <= 3,
        forall|j: int| 0 <= j < s.len() ==> #[trigger] split_kind(s[j]) == SplitKind::Word,
        !has_cjk(s),
    ensures
        token_estimate(s, opts) == 1,
{
    law_single_run_estimate(s, opts);
}

proof fn lemma_chunk_end_minimal(
    ws: Seq<Seq<char>>,
    opts: OptionsModel,
    i: int,
    tpc: int,
    acc: int,
)
    requires
        0 <= i < ws.len(),
        acc < tpc,
    ensures
        chunk_end(ws, opts, i, tpc, acc) > i,
        acc + sum_estimates(ws.subrange(i, chunk_end(ws, opts, i, tpc, acc) - 1), opts) < tpc,
    decreases ws.len() - i,
{
    let acc2 = acc + token_estimate(ws[i], opts);
    let e = chunk_end(ws, opts, i, tpc, acc);
    lemma_chunk_end_bounds(ws, opts, i + 1, tpc, acc2);
    if i + 1 < ws.len() && acc2 < tpc {
        lemma_chunk_end_minimal(ws, opts, i + 1, tpc, acc2);
        lemma_sum_estimates_subrange(ws, opts, i + 1, e - 1);
    } else {
        assert(e == i + 1);
        assert(ws.subrange(i, i) =~= Seq::<Seq<char>>::empty());
    }
}

/// A chunk takes at least one word, and before its last word it still held
/// fewer than `tokens_per_chunk` tokens: chunks are as short as the size allows.
pub proof fn law_chunk_is_minimal(
    ws: Seq<Seq<char>>,
    opts: OptionsModel,
    i: int,
    tokens_per_chunk: int,
)
    requires
        0 <= i < ws.len(),
        tokens_per_chunk > 0,
    ensures
        chunk_end(ws, opts, i, tokens_per_chunk, 0) > i,
        sum_estimates(
            ws.subrange(i, chunk_end(ws, opts, i, tokens_per_chunk, 0) - 1),
            opts,
        ) < tokens_per_chunk,
{
    lemma_chunk_end_minimal(ws, opts, i, tokens_per_chunk, 0);
}

/// Stepping back from `j` with `acc` tokens covered (the words `j..e`), where
/// the words `j + 1..e` held fewer than `overlap` tokens.
proof fn lemma_rewind_covers_overlap(
    ws: Seq<Seq<char>>,
    opts: OptionsModel,
    lo: int,
    j: int,
    e: int,
    overlap: int,
    acc: int,
)
    requires
        0 <= lo <= j <= e <= ws.len(),
        acc == sum_estimates(ws.subrange(j, e), opts),
        j == e || sum_estimates(ws.subrange(j + 1, e), opts) < overlap,
    ensures
        ({
            let r = rewind_start(ws, opts, lo, j, overlap, acc);
            &&& lo <= r <= j
            &&& (j > lo && acc < overlap ==> r < j)
            &&& (r == lo || sum_estimates(ws.subrange(r, e), opts) >= overlap)
            &&& (r == e || sum_estimates(ws.subrange(r + 1, e), opts) < overlap)
        }),
    decreases j - lo,
{
    if j > lo && acc < overlap {
        lemma_sum_estimates_subrange(ws, opts, j, e);
        let acc2 = acc + token_estimate(ws[j - 1], opts);
        lemma_rewind_covers_overlap(ws, opts, lo, j - 1, e, overlap, acc2);
    }
}

/// With an overlap of `overlap > 0` tokens, a chunk `i..e` (in words) that
/// ends before the last word is followed by a chunk that starts at a word `n`
/// inside it, stepped back over at least `overlap` tokens unless it reached
/// the chunk's start, and over no more words than needed: the words `n + 1..e`
/// hold fewer than `overlap` tokens.
pub proof fn law_overlap_step_back(
    ws: Seq<Seq<char>>,
    opts: OptionsModel,
    i: int,
    tokens_per_chunk: int,
    overlap: int,
)
    requires
        0 <= i < ws.len(),
        tokens_per_chunk > 0,
        overlap > 0,
        chunk_end(ws, opts, i, tokens_per_chunk, 0) < ws.len(),
    ensures
        ({
            let e = chunk_end(ws, opts, i, tokens_per_chunk, 0);
            let n = next_chunk_start(ws, opts, i, tokens_per_chunk, overlap);
            &&& i <= n < e
            &&& (n == i || sum_estimates(ws.subrange(n, e), opts) >= overlap)
            &&& sum_estimates(ws.subrange(n + 1, e), opts) < overlap
        }),
{
    lemma_chunk_end_bounds(ws, opts, i, tokens_per_chunk, 0);
    let e = chunk_end(ws, opts, i, tokens_per_chunk, 0);
    assert(ws.subrange(e, e) =~= Seq::<Seq<char>>::empty());
    assert(sum_estimates(Seq::<Seq<char>>::empty(), opts) == 0);
    lemma_rewind_covers_overlap(ws, opts, i, e, e, overlap, 0);
}

/// The punctuation class: the printable ASCII characters that are neither
/// letters, digits nor `_`, and the typographic quotes U+2018, U+2019, U+201C,
/// U+201D and U+201E.
pub proof fn law_punctuation_class(c: char)
    ensures
        split_kind(c) == SplitKind::Punctuation <==> {
            ||| ('!' <= c && c <= '~' && !('0' <= c && c <= '9') && !('A' <= c && c <= 'Z') && !(
            'a' <= c && c <= 'z') && c != '_')
            ||| c == '\u{2018}' || c == '\u{2019}' || c == '\u{201C}' || c == '\u{201D}' || c
                == '\u{201E}'
        },
{
}

/// An apostrophe between two pieces of text that do not touch it with
/// punctuation is a token of its own and cuts the text there: "don't" costs
/// the tokens of "don", one, and those of "t".
pub proof fn law_apostrophe_splits(a: Seq<char>, b: Seq<char>, opts: OptionsModel)
    requires
        a.len() > 0 ==> split_kind(a.last()) != SplitKind::Punctuation,
        b.len() > 0 ==> split_kind(b[0]) != SplitKind::Punctuation,
    ensures
        token_estimate(a + seq!['\''] + b, opts) == token_estimate(a, opts) + 1 + token_estimate(
            b,
            opts,
        ),
{
    let q = seq!['\''];
    law_punctuation_class('\'');
    assert(split_kind(q[0]) == SplitKind::Punctuation);
    law_single_run_estimate(q, opts);
    lemma_utf8_len_push(Seq::<char>::empty(), '\'');
    assert(Seq::<char>::empty().push('\'') =~= q);
    assert(utf8_len(Seq::<char>::empty()) == 0);
    assert(token_estimate(q, opts) == 1);
    lemma_token_estimate_concat(a, q, opts);
    assert((a + q).last() == '\'');
    lemma_token_estimate_concat(a + q, b, opts);
}

/// The language ratio of a segment is that of its first character that some
/// rule matches, and there is none when no character is matched.
proof fn lemma_segment_language_first_match(seg: Seq<char>, rules: Seq<LanguageRule>, i: int)
    requires
        0 <= i <= seg.len(),
        forall|j: int| 0 <= j < i ==> #[trigger] detect_language(rules, seg[j]) is None,
        i < seg.len() ==> detect_language(rules, seg[i]) is Some,
    ensures
        segment_language(seg, rules) == if i < seg.len() {
            detect_language(rules, seg[i])
        } else {
            None
        },
    decreases seg.len(),
{
    if seg.len() > 0 {
        let t = seg.drop_last();
        if i < seg.len() - 1 {
            assert(forall|j: int| 0 <= j < i ==> t[j] == seg[j]);
            assert(t[i] == seg[i]);
            lemma_segment_language_first_match(t, rules, i);
        } else {
            assert(forall|j: int| 0 <= j < t.len() ==> t[j] == seg[j]);
            lemma_segment_language_first_match(t, rules, t.len() as int);
        }
    }
}

/// Measurements of a word that the scoring laws below rely on.
proof fn lemma_word_facts(s: Seq<char>)
    requires
        s.len() > 0,
    ensures
        (forall|j: int| 0 <= j < s.len() ==> !#[trigger] spec_is_cjk(s[j])) ==> !has_cjk(s),
        (exists|j: int| 0 <= j < s.len() && !#[trigger] spec_is_ascii_digit(s[j]))
            ==> !all_ascii_digits(s),
        (exists|j: int| 0 <= j < s.len() && !#[trigger] spec_is_alphanumeric_latin(s[j]))
            ==> !all_alphanumeric_latin(s),
{
    if exists|j: int| 0 <= j < s.len() && !#[trigger] spec_is_ascii_digit(s[j]) {
        let j = choose|j: int| 0 <= j < s.len() && !#[trigger] spec_is_ascii_digit(s[j]);
        assert(!spec_is_ascii_digit(s[j]));
    }
    if exists|j: int| 0 <= j < s.len() && !#[trigger] spec_is_alphanumeric_latin(s[j]) {
        let j = choose|j: int| 0 <= j < s.len() && !#[trigger] spec_is_alphanumeric_latin(s[j]);
        assert(!spec_is_alphanumeric_latin(s[j]));
    }
}

/// A word (no whitespace, no punctuation) of more than three UTF-8 bytes,
/// without CJK, with a character that is not a Latin letter or ASCII digit and
/// with no character that a language rule matches costs one token per
/// character, whatever its length in bytes ("Привет" costs 6, "что" 3).
pub proof fn law_other_word_costs_chars(s: Seq<char>, opts: OptionsModel)
    requires
        s.len() > 0,
        utf8_len(s) > 3,
        forall|j: int| 0 <= j < s.len() ==> #[trigger] split_kind(s[j]) == SplitKind::Word,
        forall|j: int| 0 <= j < s.len() ==> !#[trigger] spec_is_cjk(s[j]),
        exists|j: int| 0 <= j < s.len() && !#[trigger] spec_is_alphanumeric_latin(s[j]),
        forall|j: int| 0 <= j < s.len() ==> #[trigger] detect_language(opts.rules, s[j]) is None,
    ensures
        token_estimate(s, opts) == s.len(),
{
    assert(split_kind(s[0]) == SplitKind::Word);
    law_single_run_estimate(s, opts);
    let j = choose|j: int| 0 <= j < s.len() && !#[trigger] spec_is_alphanumeric_latin(s[j]);
    assert(!spec_is_ascii_digit(s[j]));
    lemma_word_facts(s);
    lemma_segment_language_first_match(s, opts.rules, s.len() as int);
}

/// A word of more than three UTF-8 bytes, without CJK and not all digits,
/// whose first character that a language rule matches (at `i`) gets the ratio
/// `r = chars / tokens`, costs its bytes divided by that ratio, rounded up
/// ("Österreich" costs ceil(11 / 3) = 4, "für" ceil(4 / 3) = 2).
pub proof fn law_language_word_costs_ratio(
    s: Seq<char>,
    opts: OptionsModel,
    i: int,
    r: CharsPerToken,
)
    requires
        0 <= i < s.len(),
        r.chars > 0,
        utf8_len(s) > 3,
        forall|j: int| 0 <= j < s.len() ==> #[trigger] split_kind(s[j]) == SplitKind::Word,
        forall|j: int| 0 <= j < s.len() ==> !#[trigger] spec_is_cjk(s[j]),
        exists|j: int| 0 <= j < s.len() && !#[trigger] spec_is_ascii_digit(s[j]),
        forall|j: int| 0 <= j < i ==> #[trigger] detect_language(opts.rules, s[j]) is None,
        detect_language(opts.rules, s[i]) == Some(r),
    ensures
        token_estimate(s, opts) == (utf8_len(s) * r.tokens + r.chars - 1) / (r.chars as int),
{
    assert(split_kind(s[0]) == SplitKind::Word);
    law_single_run_estimate(s, opts);
    lemma_word_facts(s);
    lemma_segment_language_first_match(s, opts.rules, i);
}

/// A word of more than three UTF-8 bytes made of Latin letters and ASCII
/// digits, not all digits, with no character that a language rule matches,
/// costs its bytes divided by the default ratio, rounded up.
pub proof fn law_latin_word_costs_default_ratio(s: Seq<char>, opts: OptionsModel)
    requires
        s.len() > 0,
        opts.default_ratio.chars > 0,
        utf8_len(s) > 3,
        forall|j: int| 0 <= j < s.len() ==> #[trigger] spec_is_alphanumeric_latin(s[j]),
        exists|j: int| 0 <= j < s.len() && !#[trigger] spec_is_ascii_digit(s[j]),
        forall|j: int| 0 <= j < s.len() ==> #[trigger] detect_language(opts.rules, s[j]) is None,
    ensures
        token_estimate(s, opts) == (utf8_len(s) * opts.default_ratio.tokens
            + opts.default_ratio.chars - 1) / (opts.default_ratio.chars as int),
{
    assert forall|j: int| 0 <= j < s.len() implies #[trigger] split_kind(s[j]) == SplitKind::Word by {
        assert(spec_is_alphanumeric_latin(s[j]));
    }
    assert forall|j: int| 0 <= j < s.len() implies !#[trigger] spec_is_cjk(s[j]) by {
        assert(spec_is_alphanumeric_latin(s[j]));
    }
    assert(split_kind(s[0]) == SplitKind::Word);
    law_single_run_estimate(s, opts);
    lemma_word_facts(s);
    lemma_segment_language_first_match(s, opts.rules, s.len() as int);
}

/// The built-in language detection: the German umlauts and sharp s
/// (a, o, u with umlaut and sharp s, both cases) and the French accented
/// letters, cedilla and ligatures get 3 characters per token; the Spanish
/// letters that are not French (acute a, i, o, u and n with tilde, both cases)
/// get 3.5; every other character gets no language ratio.
pub proof fn law_default_language_detection(c: char)
    ensures
        detect_language(default_options().rules, c) == if {
            // German
            ||| c == '\u{E4}' || c == '\u{C4}' || c == '\u{F6}' || c == '\u{D6}' || c == '\u{FC}'
            ||| c == '\u{DC}' || c == '\u{DF}' || c == '\u{1E9E}'
            // French
            ||| c == '\u{E9}' || c == '\u{C9}' || c == '\u{E8}' || c == '\u{C8}' || c == '\u{EA}'
            ||| c == '\u{CA}' || c == '\u{EB}' || c == '\u{CB}' || c == '\u{E0}' || c == '\u{C0}'
            ||| c == '\u{E2}' || c == '\u{C2}' || c == '\u{EE}' || c == '\u{CE}' || c == '\u{EF}'
            ||| c == '\u{CF}' || c == '\u{F4}' || c == '\u{D4}' || c == '\u{FB}' || c == '\u{DB}'
            ||| c == '\u{F9}' || c == '\u{D9}' || c == '\u{FF}' || c == '\u{178}' || c == '\u{E7}'
            ||| c == '\u{C7}' || c == '\u{153}' || c == '\u{152}' || c == '\u{E6}' || c == '\u{C6}'
        } {
            Some(CharsPerToken { chars: 3, tokens: 1 })
        } else if {
            ||| c == '\u{E1}' || c == '\u{C1}' || c == '\u{ED}' || c == '\u{CD}' || c == '\u{F3}'
            ||| c == '\u{D3}' || c == '\u{FA}' || c == '\u{DA}' || c == '\u{F1}' || c == '\u{D1}'
        } {
            Some(CharsPerToken { chars: 7, tokens: 2 })
        } else {
            None
        },
{
    lemma_default_rules_match(c);
    let rules = default_options().rules;
    let rest = rules.drop_first();
    assert(rules[0].ranges == crate::config::german_french_ranges());
    assert(rest[0] == rules[1]);
    assert(rest[0].ranges == crate::config::spanish_ranges());
    assert(rest.drop_first() =~= Seq::<LanguageRule>::empty());
    assert(detect_language(rest.drop_first(), c) == None::<CharsPerToken>);
    if crate::config::ranges_contain(rules[0].ranges, c) {
        assert(detect_language(rules, c) == Some(CharsPerToken { chars: 3, tokens: 1 }));
    } else if crate::config::ranges_contain(rest[0].ranges, c) {
        assert(detect_language(rules, c) == detect_language(rest, c));
        assert(detect_language(rules, c) == Some(CharsPerToken { chars: 7, tokens: 2 }));
    } else {
        assert(detect_language(rules, c) == detect_language(rest, c));
        assert(detect_language(rest, c) == detect_language(rest.drop_first(), c));
    }
}

/// The whitespace class is the Unicode `White_Space` property: U+0009..=U+000D,
/// space, U+0085, U+00A0, U+1680, U+2000..=U+200A, U+2028, U+2029, U+202F,
/// U+205F and U+3000.
pub proof fn law_whitespace_class(c: char)
    ensures
        split_kind(c) == SplitKind::Whitespace <==> {
            ||| ('\u{9}' <= c && c <= '\u{D}') || c == '\u{20}' || c == '\u{85}' || c == '\u{A0}'
            ||| c == '\u{1680}' || ('\u{2000}' <= c && c <= '\u{200A}') || c == '\u{2028}'
            ||| c == '\u{2029}' || c == '\u{202F}' || c == '\u{205F}' || c == '\u{3000}'
        },
{
}

/// A run of punctuation costs one token up to three bytes, and half its bytes
/// rounded up beyond ("..." costs 1, "...." 2, "......." 4).
pub proof fn law_punctuation_run(s: Seq<char>, opts: OptionsModel)
    requires
        s.len() > 0,
        forall|j: int| 0 <= j < s.len() ==> #[trigger] split_kind(s[j]) == SplitKind::Punctuation,
    ensures
        token_estimate(s, opts) == if utf8_len(s) <= 3 {
            1
        } else {
            (utf8_len(s) + 1) / 2
        },
{
    assert(split_kind(s[0]) == SplitKind::Punctuation);
    law_single_run_estimate(s, opts);
}

/// A negative start counts from the end: starting `k` tokens before the end
/// slices as starting at token `total - k`.
pub proof fn law_negative_start_counts_from_end(
    s: Seq<char>,
    opts: OptionsModel,
    k: int,
    end: Option<int>,
)
    requires
        0 < k <= token_estimate(s, opts),
    ensures
        token_slice(s, opts, -k, end) == token_slice(
            s,
            opts,
            token_estimate(s, opts) - k,
            end,
        ),
{
}

/// Latin alphanumerics are the ASCII letters and digits and the Latin-1
/// characters U+00C0..=U+00FF other than the signs U+00D7 and U+00F7; digits
/// are exactly `0`..=`9`.
pub proof fn law_latin_classes(c: char)
    ensures
        spec_is_alphanumeric_latin(c) <==> {
            ||| ('0' <= c && c <= '9') || ('A' <= c && c <= 'Z') || ('a' <= c && c <= 'z')
            ||| ('\u{C0}' <= c && c <= '\u{FF}' && c != '\u{D7}' && c != '\u{F7}')
        },
        spec_is_ascii_digit(c) <==> ('0' <= c && c <= '9'),
        spec_is_ascii_digit(c) ==> spec_is_alphanumeric_latin(c),
{
}

} // verus!
