//! Utility functions built on top of the token estimator.
use vstd::prelude::*;

use crate::config::{
    default_options, lemma_default_options_valid, EstimationOptions, OptionsModel, SplitOptions,
};
use crate::estimator::{estimate_token_count_with_options, text_byte_len};
use crate::segments::{lemma_token_estimate_le_utf8_len, token_estimate};
use crate::words::{
    lemma_estimate_of_words, lemma_words_of, split_words, sum_estimates, views, words_of,
};

verus! {

/// Returns `true` if the estimated token count of `text` (with custom options) is at most `limit`.
pub fn is_within_token_limit_with_options(
    text: &str,
    limit: usize,
    options: &EstimationOptions,
) -> (r: bool)
    requires
        options@.is_valid(),
        token_estimate(text@, options@) <= usize::MAX,
    ensures
        r == (token_estimate(text@, options@) <= limit),
{
    estimate_token_count_with_options(text, options) <= limit
}

/// The default options bound the estimate of any text by its byte length.
proof fn lemma_default_estimate_fits(s: Seq<char>)
    requires
        crate::chars::utf8_len(s) <= usize::MAX,
    ensures
        default_options().is_valid(),
        token_estimate(s, default_options()) <= usize::MAX,
{
    lemma_default_options_valid();
    lemma_token_estimate_le_utf8_len(s, default_options());
}

/// Returns `true` if the estimated token count of `text` is at most `limit`.
pub fn is_within_token_limit(text: &str, limit: usize) -> (r: bool)
    ensures
        r == (token_estimate(text@, default_options()) <= limit),
{
    // the byte length of a `str` fits in a `usize`
    let _ = text_byte_len(text);
    proof {
        lemma_default_estimate_fits(text@);
    }
    is_within_token_limit_with_options(text, limit, &EstimationOptions::default())
}

/// Sums of estimates of prefixes of a word list grow word by word.
pub proof fn lemma_sum_estimates_prefix(ws: Seq<Seq<char>>, opts: OptionsModel, j: int)
    requires
        0 <= j <= ws.len(),
    ensures
        sum_estimates(ws.take(j), opts) <= sum_estimates(ws, opts),
        j < ws.len() ==> sum_estimates(ws.take(j + 1), opts) == sum_estimates(ws.take(j), opts)
            + token_estimate(ws[j], opts),
    decreases ws.len() - j,
{
    if j < ws.len() {
        assert(ws.take(j + 1).drop_last() =~= ws.take(j));
        lemma_sum_estimates_prefix(ws, opts, j + 1);
    } else {
        assert(ws.take(j) =~= ws);
    }
}

/// A position given in tokens, negative positions counting from the end,
/// clamped to `0..=total`.
pub open spec fn resolve_token_index(idx: int, total: int) -> int {
    if idx < 0 {
        if total + idx > 0 {
            total + idx
        } else {
            0
        }
    } else if idx < total {
        idx
    } else {
        total
    }
}

/// The words, after `before` tokens, whose token span `[before, before +
/// estimate)` meets `start..end` (a word of no tokens meets it when `before`
/// lies strictly inside), put together.
pub open spec fn words_in_span(
    ws: Seq<Seq<char>>,
    opts: OptionsModel,
    start: int,
    end: int,
    before: int,
) -> Seq<char>
    decreases ws.len(),
{
    if ws.len() == 0 {
        seq![]
    } else {
        let after = before + token_estimate(ws[0], opts);
        (if after > start && before < end {
            ws[0]
        } else {
            seq![]
        }) + words_in_span(ws.drop_first(), opts, start, end, after)
    }
}

/// What `slice_by_tokens` returns: the words of `s` that meet the resolved
/// token range, or nothing when the text has no tokens or the range is empty.
pub open spec fn token_slice(
    s: Seq<char>,
    opts: OptionsModel,
    start: int,
    end: Option<int>,
) -> Seq<char> {
    let total = token_estimate(s, opts) as int;
    let a = resolve_token_index(start, total);
    let b = match end {
        Some(e) => resolve_token_index(e, total),
        None => total,
    };
    if s.len() == 0 || total == 0 || a >= b {
        seq![]
    } else {
        words_in_span(words_of(s), opts, a, b, 0)
    }
}

/// Words that start at or after the end of the range contribute nothing.
pub proof fn lemma_words_in_span_past_end(
    ws: Seq<Seq<char>>,
    opts: OptionsModel,
    start: int,
    end: int,
    before: int,
)
    requires
        before >= end,
    ensures
        words_in_span(ws, opts, start, end, before) == Seq::<char>::empty(),
    decreases ws.len(),
{
    if ws.len() > 0 {
        lemma_words_in_span_past_end(
            ws.drop_first(),
            opts,
            start,
            end,
            before + token_estimate(ws[0], opts),
        );
        assert(words_in_span(ws, opts, start, end, before) =~= Seq::<char>::empty());
    }
}

fn resolve(idx: isize, total: usize) -> (r: usize)
    ensures
        r == resolve_token_index(idx as int, total as int),
{
    if idx < 0 {
        let back = (-(idx + 1)) as usize + 1;
        if back >= total {
            0
        } else {
            total - back
        }
    } else if (idx as usize) < total {
        idx as usize
    } else {
        total
    }
}

/// Extracts a substring from `text` by estimated token positions, with custom
/// estimation options.
///
/// `start` is the token index to begin at (0-based) and `end` the exclusive
/// upper token index (`None` means the end). Negative values count from the
/// end. The text is walked word by word: a word is kept when its token span
/// meets the range.
pub fn slice_by_tokens_with_options(
    text: &str,
    start: isize,
    end: Option<isize>,
    options: &EstimationOptions,
) -> (r: String)
    requires
        options@.is_valid(),
        token_estimate(text@, options@) <= usize::MAX,
    ensures
        r@ == token_slice(
            text@,
            options@,
            start as int,
            match end {
                Some(e) => Some(e as int),
                None => None,
            },
        ),
{
    let ghost s = text@;
    let ghost opts = options@;
    if text.is_empty() {
        return String::new();
    }
    let total = estimate_token_count_with_options(text, options);
    if total == 0 {
        return String::new();
    }
    let abs_start = resolve(start, total);
    let abs_end = match end {
        Some(e) => resolve(e, total),
        None => total,
    };
    if abs_start >= abs_end {
        return String::new();
    }
    let words = split_words(text);
    let ghost ws = views(words@);
    proof {
        lemma_words_of(s);
        lemma_estimate_of_words(ws, opts);
        assert(ws.skip(0) =~= ws);
        assert(ws.take(0) =~= Seq::<Seq<char>>::empty());
    }
    let ghost lo = abs_start as int;
    let ghost hi = abs_end as int;
    let mut result = String::new();
    let mut current_token: usize = 0;
    let mut j: usize = 0;
    while j < words.len()
        invariant_except_break
            j <= words@.len(),
        invariant
            ws == views(words@),
            ws.len() == words@.len(),
            opts == options@,
            opts.is_valid(),
            sum_estimates(ws, opts) == total,
            current_token == sum_estimates(ws.take(j as int), opts),
            lo == abs_start,
            hi == abs_end,
            result@ + words_in_span(ws.skip(j as int), opts, lo, hi, current_token as int)
                == words_in_span(ws, opts, lo, hi, 0),
        ensures
            result@ == words_in_span(ws, opts, lo, hi, 0),
        decreases words@.len() - j,
    {
        proof {
            lemma_sum_estimates_prefix(ws, opts, j as int);
            lemma_sum_estimates_prefix(ws, opts, j + 1);
        }
        let word = words[j].as_str();
        assert(word@ == ws[j as int]);
        let word_tokens = estimate_token_count_with_options(word, options);
        let word_end = current_token + word_tokens;
        let ghost before = result@;
        assert(ws.skip(j as int)[0] == ws[j as int]);
        assert(ws.skip(j as int).drop_first() =~= ws.skip(j + 1));
        if word_end > abs_start && current_token < abs_end {
            result.append(word);
        }
        proof {
            let rest = words_in_span(ws.skip(j + 1), opts, lo, hi, word_end as int);
            if word_end > abs_start && current_token < abs_end {
                assert(before + (ws[j as int] + rest) =~= result@ + rest);
            } else {
                assert(before + (Seq::<char>::empty() + rest) =~= result@ + rest);
            }
        }
        current_token = word_end;
        j = j + 1;
        if current_token >= abs_end {
            proof {
                lemma_words_in_span_past_end(ws.skip(j as int), opts, lo, hi, current_token as int);
                assert(result@ + Seq::<char>::empty() =~= result@);
            }
            break;
        }
    }
    result
}

/// Extracts a substring from `text` by estimated token positions, with the
/// default options (see [`slice_by_tokens_with_options`]).
pub fn slice_by_tokens(text: &str, start: isize, end: Option<isize>) -> (r: String)
    ensures
        r@ == token_slice(
            text@,
            default_options(),
            start as int,
            match end {
                Some(e) => Some(e as int),
                None => None,
            },
        ),
{
    // the byte length of a `str` fits in a `usize`
    let _ = text_byte_len(text);
    proof {
        lemma_default_estimate_fits(text@);
    }
    slice_by_tokens_with_options(text, start, end, &EstimationOptions::default())
}

/// Index after the words taken into a chunk that starts at word `i` with `acc`
/// tokens already in it: words are added while the chunk has fewer than
/// `tokens_per_chunk` tokens.
pub open spec fn chunk_end(
    ws: Seq<Seq<char>>,
    opts: OptionsModel,
    i: int,
    tokens_per_chunk: int,
    acc: int,
) -> int
    decreases ws.len() - i,
{
    if i < 0 || i >= ws.len() || acc >= tokens_per_chunk {
        i
    } else {
        chunk_end(ws, opts, i + 1, tokens_per_chunk, acc + token_estimate(ws[i], opts))
    }
}

/// Index reached by stepping back from word `j` (but not before word `lo`),
/// with `acc` tokens already stepped over, until `overlap` tokens are covered.
pub open spec fn rewind_start(
    ws: Seq<Seq<char>>,
    opts: OptionsModel,
    lo: int,
    j: int,
    overlap: int,
    acc: int,
) -> int
    decreases j - lo,
{
    if j <= lo || acc >= overlap {
        j
    } else {
        rewind_start(ws, opts, lo, j - 1, overlap, acc + token_estimate(ws[j - 1], opts))
    }
}

/// Where the chunk after the one that starts at word `i` starts: at the end
/// of this chunk, or, with an overlap and words left, stepped back by at least
/// `overlap` tokens (never before `i`).
pub open spec fn next_chunk_start(
    ws: Seq<Seq<char>>,
    opts: OptionsModel,
    i: int,
    tokens_per_chunk: int,
    overlap: int,
) -> int {
    let e = chunk_end(ws, opts, i, tokens_per_chunk, 0);
    if overlap > 0 && e < ws.len() {
        rewind_start(ws, opts, i, e, overlap, 0)
    } else {
        e
    }
}

pub proof fn lemma_chunk_end_bounds(
    ws: Seq<Seq<char>>,
    opts: OptionsModel,
    i: int,
    tokens_per_chunk: int,
    acc: int,
)
    requires
        0 <= i <= ws.len(),
    ensures
        i <= chunk_end(ws, opts, i, tokens_per_chunk, acc) <= ws.len(),
        i < ws.len() && acc < tokens_per_chunk ==> i < chunk_end(
            ws,
            opts,
            i,
            tokens_per_chunk,
            acc,
        ),
    decreases ws.len() - i,
{
    if i < ws.len() && acc < tokens_per_chunk {
        lemma_chunk_end_bounds(
            ws,
            opts,
            i + 1,
            tokens_per_chunk,
            acc + token_estimate(ws[i], opts),
        );
    }
}

pub proof fn lemma_rewind_start_bounds(
    ws: Seq<Seq<char>>,
    opts: OptionsModel,
    lo: int,
    j: int,
    overlap: int,
    acc: int,
)
    requires
        lo <= j,
    ensures
        lo <= rewind_start(ws, opts, lo, j, overlap, acc) <= j,
    decreases j - lo,
{
    if j > lo && acc < overlap {
        lemma_rewind_start_bounds(
            ws,
            opts,
            lo,
            j - 1,
            overlap,
            acc + token_estimate(ws[j - 1], opts),
        );
    }
}

pub proof fn lemma_next_chunk_start_bounds(
    ws: Seq<Seq<char>>,
    opts: OptionsModel,
    i: int,
    tokens_per_chunk: int,
    overlap: int,
)
    requires
        0 <= i <= ws.len(),
    ensures
        i <= next_chunk_start(ws, opts, i, tokens_per_chunk, overlap) <= ws.len(),
{
    lemma_chunk_end_bounds(ws, opts, i, tokens_per_chunk, 0);
    let e = chunk_end(ws, opts, i, tokens_per_chunk, 0);
    lemma_rewind_start_bounds(ws, opts, i, e, overlap, 0);
}

/// The chunks from word `i` on: each chunk is the words from its start to its
/// end put together. Should the next start not move forward, the list stops.
pub open spec fn chunks_from(
    ws: Seq<Seq<char>>,
    opts: OptionsModel,
    i: int,
    tokens_per_chunk: int,
    overlap: int,
) -> Seq<Seq<char>>
    decreases ws.len() - i,
{
    if i < 0 || i >= ws.len() {
        seq![]
    } else {
        let e = chunk_end(ws, opts, i, tokens_per_chunk, 0);
        let next = next_chunk_start(ws, opts, i, tokens_per_chunk, overlap);
        proof {
            lemma_next_chunk_start_bounds(ws, opts, i, tokens_per_chunk, overlap);
        }
        seq![ws.subrange(i, e).flatten()] + if i < next {
            chunks_from(ws, opts, next, tokens_per_chunk, overlap)
        } else {
            seq![]
        }
    }
}

/// From word `i` on, every chunk's successor starts further on.
pub open spec fn split_progresses(
    ws: Seq<Seq<char>>,
    opts: OptionsModel,
    i: int,
    tokens_per_chunk: int,
    overlap: int,
) -> bool
    decreases ws.len() - i,
{
    if i < 0 || i >= ws.len() {
        true
    } else {
        let next = next_chunk_start(ws, opts, i, tokens_per_chunk, overlap);
        proof {
            lemma_next_chunk_start_bounds(ws, opts, i, tokens_per_chunk, overlap);
        }
        i < next && split_progresses(ws, opts, next, tokens_per_chunk, overlap)
    }
}

/// Whether chunking `s` comes to an end: without an overlap it always does;
/// with one, it does when no step back returns to the start of its chunk.
pub open spec fn split_terminates(
    s: Seq<char>,
    opts: OptionsModel,
    tokens_per_chunk: int,
    overlap: int,
) -> bool {
    s.len() == 0 || tokens_per_chunk == 0 || split_progresses(
        words_of(s),
        opts,
        0,
        tokens_per_chunk,
        overlap,
    )
}

/// What `split_by_tokens_with_options` returns.
pub open spec fn token_chunks(
    s: Seq<char>,
    opts: OptionsModel,
    tokens_per_chunk: int,
    overlap: int,
) -> Seq<Seq<char>> {
    if s.len() == 0 || tokens_per_chunk == 0 {
        seq![]
    } else {
        chunks_from(words_of(s), opts, 0, tokens_per_chunk, overlap)
    }
}

/// The estimates of the words, put together.
pub proof fn lemma_sum_estimates_concat(x: Seq<Seq<char>>, y: Seq<Seq<char>>, opts: OptionsModel)
    ensures
        sum_estimates(x + y, opts) == sum_estimates(x, opts) + sum_estimates(y, opts),
    decreases y.len(),
{
    if y.len() == 0 {
        assert(x + y =~= x);
    } else {
        assert((x + y).drop_last() =~= x + y.drop_last());
        lemma_sum_estimates_concat(x, y.drop_last(), opts);
    }
}

/// A run of words has no more tokens than all of them.
pub proof fn lemma_sum_estimates_subrange(ws: Seq<Seq<char>>, opts: OptionsModel, a: int, b: int)
    requires
        0 <= a <= b <= ws.len(),
    ensures
        sum_estimates(ws.subrange(a, b), opts) <= sum_estimates(ws, opts),
        b < ws.len() ==> sum_estimates(ws.subrange(a, b + 1), opts) == sum_estimates(
            ws.subrange(a, b),
            opts,
        ) + token_estimate(ws[b], opts),
        a > 0 ==> sum_estimates(ws.subrange(a - 1, b), opts) == token_estimate(ws[a - 1], opts)
            + sum_estimates(ws.subrange(a, b), opts),
{
    assert(ws =~= ws.take(a) + ws.subrange(a, b) + ws.skip(b));
    lemma_sum_estimates_concat(ws.take(a) + ws.subrange(a, b), ws.skip(b), opts);
    lemma_sum_estimates_concat(ws.take(a), ws.subrange(a, b), opts);
    if b < ws.len() {
        assert(ws.subrange(a, b + 1).drop_last() =~= ws.subrange(a, b));
    }
    if a > 0 {
        assert(ws.subrange(a - 1, b) =~= seq![ws[a - 1]] + ws.subrange(a, b));
        lemma_sum_estimates_concat(seq![ws[a - 1]], ws.subrange(a, b), opts);
        assert(seq![ws[a - 1]].drop_last() =~= Seq::<Seq<char>>::empty());
        assert(sum_estimates(Seq::<Seq<char>>::empty(), opts) == 0);
        assert(sum_estimates(seq![ws[a - 1]], opts) == token_estimate(ws[a - 1], opts));
    }
}

/// Splits `text` into chunks of about `tokens_per_chunk` tokens, or returns
/// `None` when the overlap would send chunking back to the start of a chunk
/// (there the chunking never comes to an end).
///
/// Words are added to a chunk while it holds fewer than `tokens_per_chunk`
/// tokens. With an overlap, the next chunk starts back from the chunk's end by
/// at least `overlap` tokens (never before the chunk's start).
pub fn checked_split_by_tokens_with_options(
    text: &str,
    tokens_per_chunk: usize,
    options: &SplitOptions,
) -> (r: Option<Vec<String>>)
    requires
        options.estimation@.is_valid(),
        token_estimate(text@, options.estimation@) <= usize::MAX,
    ensures
        r is Some <==> split_terminates(
            text@,
            options.estimation@,
            tokens_per_chunk as int,
            options.overlap as int,
        ),
        r matches Some(v) ==> views(v@) == token_chunks(
            text@,
            options.estimation@,
            tokens_per_chunk as int,
            options.overlap as int,
        ),
{
    let ghost s = text@;
    let ghost opts = options.estimation@;
    let ghost tpc = tokens_per_chunk as int;
    let ghost ov = options.overlap as int;
    if text.is_empty() || tokens_per_chunk == 0 {
        return Some(Vec::new());
    }
    let words = split_words(text);
    let ghost ws = views(words@);
    proof {
        lemma_words_of(s);
        lemma_estimate_of_words(ws, opts);
    }
    let n = words.len();
    let mut word_tokens: Vec<usize> = Vec::new();
    let mut k: usize = 0;
    while k < n
        invariant
            n == words@.len(),
            ws == views(words@),
            ws.len() == n,
            opts == options.estimation@,
            opts.is_valid(),
            sum_estimates(ws, opts) <= usize::MAX,
            k <= n,
            word_tokens@.len() == k,
            forall|m: int| 0 <= m < k ==> word_tokens@[m] == token_estimate(#[trigger] ws[m], opts),
        decreases n - k,
    {
        proof {
            lemma_sum_estimates_prefix(ws, opts, k as int);
            lemma_sum_estimates_prefix(ws, opts, k + 1);
        }
        let word = words[k].as_str();
        let t = estimate_token_count_with_options(word, &options.estimation);
        word_tokens.push(t);
        k = k + 1;
    }

    let mut chunks: Vec<String> = Vec::new();
    let mut i: usize = 0;
    while i < n
        invariant
            n == words@.len(),
            ws == views(words@),
            ws.len() == n,
            opts == options.estimation@,
            tpc == tokens_per_chunk,
            tpc > 0,
            ov == options.overlap,
            sum_estimates(ws, opts) <= usize::MAX,
            word_tokens@.len() == n,
            forall|m: int|
                0 <= m < n ==> word_tokens@[m] == token_estimate(#[trigger] ws[m], opts),
            forall|m: int| 0 <= m < n ==> #[trigger] ws[m].len() > 0,
            i <= n,
            ws == words_of(s),
            s == text@,
            s.len() > 0,
            views(chunks@) + chunks_from(ws, opts, i as int, tpc, ov) == chunks_from(
                ws,
                opts,
                0,
                tpc,
                ov,
            ),
            split_progresses(ws, opts, 0, tpc, ov) == split_progresses(ws, opts, i as int, tpc, ov),
        decreases n - i,
    {
        let start_i = i;
        let ghost st = start_i as int;
        let ghost progresses_here = split_progresses(ws, opts, start_i as int, tpc, ov);
        assert(split_progresses(ws, opts, 0, tpc, ov) == progresses_here);
        let mut chunk = String::new();
        let mut chunk_tokens: usize = 0;
        proof {
            assert(ws.subrange(start_i as int, start_i as int) =~= Seq::<Seq<char>>::empty());
            assert(chunk@ =~= ws.subrange(start_i as int, start_i as int).flatten());
        }
        while i < n && chunk_tokens < tokens_per_chunk
            invariant
                n == words@.len(),
                ws == views(words@),
                ws.len() == n,
                sum_estimates(ws, opts) <= usize::MAX,
                word_tokens@.len() == n,
                forall|m: int|
                0 <= m < n ==> word_tokens@[m] == token_estimate(#[trigger] ws[m], opts),
                start_i <= i <= n,
                chunk@ == ws.subrange(start_i as int, i as int).flatten(),
                chunk_tokens == sum_estimates(ws.subrange(start_i as int, i as int), opts),
                st == start_i,
                chunk_end(ws, opts, st, tpc, 0) == chunk_end(
                    ws,
                    opts,
                    i as int,
                    tpc,
                    chunk_tokens as int,
                ),
                tpc == tokens_per_chunk,
            decreases n - i,
        {
            proof {
                lemma_sum_estimates_subrange(ws, opts, start_i as int, i as int);
                lemma_sum_estimates_subrange(ws, opts, start_i as int, i + 1);
                broadcast use Seq::lemma_flatten_push;
                assert(ws.subrange(st, i + 1) =~= ws.subrange(st, i as int).push(ws[i as int]));
            }
            let word = words[i].as_str();
            chunk.append(word);
            chunk_tokens = chunk_tokens + word_tokens[i];
            i = i + 1;
        }
        let ghost e = i as int;
        proof {
            lemma_chunk_end_bounds(ws, opts, start_i as int, tpc, 0);
            assert(e == chunk_end(ws, opts, start_i as int, tpc, 0));
            assert(e > start_i);
            broadcast use Seq::lemma_flatten_push;
            let sub = ws.subrange(start_i as int, e);
            assert(sub =~= sub.drop_last().push(sub.last()));
            assert(sub.last() == ws[e - 1]);
        }
        let ghost done = chunk@;
        let ghost before = views(chunks@);
        if !chunk.as_str().is_empty() {
            chunks.push(chunk);
        }
        assert(views(chunks@) =~= before.push(done));
        if options.overlap > 0 && i < n {
            let mut overlap_tokens: usize = 0;
            let mut rewind: usize = 0;
            let mut j = i;
            proof {
                assert(ws.subrange(j as int, e) =~= Seq::<Seq<char>>::empty());
            }
            while j > start_i && overlap_tokens < options.overlap
                invariant
                    n == words@.len(),
                    ws.len() == n,
                    sum_estimates(ws, opts) <= usize::MAX,
                    word_tokens@.len() == n,
                    forall|m: int|
                0 <= m < n ==> word_tokens@[m] == token_estimate(#[trigger] ws[m], opts),
                    start_i <= j <= i,
                    i == e,
                    e <= n,
                    rewind == i - j,
                    overlap_tokens == sum_estimates(ws.subrange(j as int, e), opts),
                    st == start_i,
                    rewind_start(ws, opts, st, e, ov, 0) == rewind_start(
                        ws,
                        opts,
                        st,
                        j as int,
                        ov,
                        overlap_tokens as int,
                    ),
                    ov == options.overlap,
                decreases j,
            {
                proof {
                    lemma_sum_estimates_subrange(ws, opts, j as int, e);
                    lemma_sum_estimates_subrange(ws, opts, j - 1, e);
                }
                j = j - 1;
                overlap_tokens = overlap_tokens + word_tokens[j];
                rewind = rewind + 1;
            }
            i = i - rewind;
        }
        proof {
            assert(i == next_chunk_start(ws, opts, start_i as int, tpc, ov));
            lemma_next_chunk_start_bounds(ws, opts, start_i as int, tpc, ov);
        }
        if i <= start_i {
            assert(!progresses_here);
            assert(ws == words_of(s));
            assert(s.len() > 0);
            assert(!split_terminates(s, opts, tpc, ov));
            return None;
        }
        proof {
            let rest = chunks_from(ws, opts, i as int, tpc, ov);
            assert(chunks_from(ws, opts, st, tpc, ov) == seq![done] + rest);
            assert(before + chunks_from(ws, opts, st, tpc, ov) =~= views(chunks@) + rest);
        }
    }
    proof {
        assert(views(chunks@) + chunks_from(ws, opts, i as int, tpc, ov) =~= views(chunks@));
    }
    Some(chunks)
}

/// Splits `text` into chunks of about `tokens_per_chunk` tokens, with custom
/// split options (including overlap); see
/// [`checked_split_by_tokens_with_options`] for the rule. The chunking must
/// come to an end (`split_terminates`): without an overlap it always does.
pub fn split_by_tokens_with_options(
    text: &str,
    tokens_per_chunk: usize,
    options: &SplitOptions,
) -> (r: Vec<String>)
    requires
        options.estimation@.is_valid(),
        token_estimate(text@, options.estimation@) <= usize::MAX,
        split_terminates(
            text@,
            options.estimation@,
            tokens_per_chunk as int,
            options.overlap as int,
        ),
    ensures
        views(r@) == token_chunks(
            text@,
            options.estimation@,
            tokens_per_chunk as int,
            options.overlap as int,
        ),
{
    match checked_split_by_tokens_with_options(text, tokens_per_chunk, options) {
        Some(chunks) => chunks,
        None => {
            proof {
                assert(false);
            }
            Vec::new()
        },
    }
}

/// Without an overlap, every chunk's successor starts at the chunk's end,
/// after at least one word.
pub proof fn lemma_split_progresses_without_overlap(
    ws: Seq<Seq<char>>,
    opts: OptionsModel,
    i: int,
    tokens_per_chunk: int,
)
    requires
        tokens_per_chunk > 0,
        0 <= i <= ws.len(),
    ensures
        split_progresses(ws, opts, i, tokens_per_chunk, 0),
    decreases ws.len() - i,
{
    if i < ws.len() {
        lemma_chunk_end_bounds(ws, opts, i, tokens_per_chunk, 0);
        let next = next_chunk_start(ws, opts, i, tokens_per_chunk, 0);
        lemma_split_progresses_without_overlap(ws, opts, next, tokens_per_chunk);
    }
}

/// Splits `text` into chunks of approximately `tokens_per_chunk` tokens each,
/// with the default options and no overlap.
pub fn split_by_tokens(text: &str, tokens_per_chunk: usize) -> (r: Vec<String>)
    ensures
        views(r@) == token_chunks(text@, default_options(), tokens_per_chunk as int, 0),
{
    // the byte length of a `str` fits in a `usize`
    let _ = text_byte_len(text);
    let options = SplitOptions::default();
    proof {
        lemma_default_estimate_fits(text@);
        if text@.len() > 0 && tokens_per_chunk > 0 {
            lemma_words_of(text@);
            lemma_split_progresses_without_overlap(
                words_of(text@),
                default_options(),
                0,
                tokens_per_chunk as int,
            );
        }
    }
    split_by_tokens_with_options(text, tokens_per_chunk, &options)
}

} // verus!
