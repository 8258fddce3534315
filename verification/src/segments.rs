//! The mathematical model of an estimate: a text is cut into maximal runs of
//! characters of one kind, and the estimate is the sum of the runs' scores.
use vstd::prelude::*;

use crate::chars::{
    lemma_utf8_len_concat, lemma_utf8_len_ge_len, spec_is_alphanumeric_latin, spec_is_ascii_digit,
    spec_is_cjk, spec_is_whitespace, split_kind, utf8_len, SplitKind,
};
use crate::config::{detect_language, ranges_contain, CharsPerToken, LanguageRule, OptionsModel};

verus! {

/// Length of the maximal run of characters of one kind at the end of `s`.
pub open spec fn last_run_len(s: Seq<char>) -> nat
    decreases s.len(),
{
    if s.len() == 0 {
        0
    } else if s.len() >= 2 && split_kind(s[s.len() - 2]) == split_kind(s.last()) {
        last_run_len(s.drop_last()) + 1
    } else {
        1
    }
}

/// Some character of the segment is CJK.
pub open spec fn has_cjk(seg: Seq<char>) -> bool {
    exists|i: int| 0 <= i < seg.len() && #[trigger] spec_is_cjk(seg[i])
}

/// Every character of the segment is a Latin letter or an ASCII digit.
pub open spec fn all_alphanumeric_latin(seg: Seq<char>) -> bool {
    forall|i: int| 0 <= i < seg.len() ==> #[trigger] spec_is_alphanumeric_latin(seg[i])
}

/// Every character of the segment is an ASCII digit.
pub open spec fn all_ascii_digits(seg: Seq<char>) -> bool {
    forall|i: int| 0 <= i < seg.len() ==> #[trigger] spec_is_ascii_digit(seg[i])
}

/// The ratio of the first character of the segment that some rule matches.
pub open spec fn segment_language(seg: Seq<char>, rules: Seq<LanguageRule>) -> Option<
    CharsPerToken,
>
    decreases seg.len(),
{
    if seg.len() == 0 {
        None
    } else {
        match segment_language(seg.drop_last(), rules) {
            Some(r) => Some(r),
            None => detect_language(rules, seg.last()),
        }
    }
}

/// `bytes` divided by the ratio `chars / tokens`, rounded up.
pub open spec fn ratio_tokens(bytes: nat, r: CharsPerToken) -> nat {
    ((bytes * r.tokens + r.chars - 1) / (r.chars as int)) as nat
}

/// Score of a run of word characters.
pub open spec fn word_score(
    bytes: nat,
    count: nat,
    cjk: bool,
    alphanumeric: bool,
    digits: bool,
    lang: Option<CharsPerToken>,
    default_ratio: CharsPerToken,
) -> nat {
    if cjk {
        count
    } else if digits {
        1
    } else if bytes <= 3 {
        1
    } else if alphanumeric || lang is Some {
        ratio_tokens(
            bytes,
            match lang {
                Some(r) => r,
                None => default_ratio,
            },
        )
    } else {
        count
    }
}

/// Score of a run of punctuation: one token up to three bytes, else half the
/// bytes rounded up.
pub open spec fn punctuation_score(bytes: nat) -> nat {
    if bytes <= 3 {
        1
    } else {
        ((bytes + 1) / 2) as nat
    }
}

/// Score of a run of characters of kind `kind` from its measurements; the
/// flags and the language matter for word runs only.
pub open spec fn run_score(
    kind: SplitKind,
    bytes: nat,
    count: nat,
    cjk: bool,
    alphanumeric: bool,
    digits: bool,
    lang: Option<CharsPerToken>,
    default_ratio: CharsPerToken,
) -> nat {
    match kind {
        SplitKind::Whitespace => 0,
        SplitKind::Punctuation => punctuation_score(bytes),
        SplitKind::Word => word_score(bytes, count, cjk, alphanumeric, digits, lang, default_ratio),
    }
}

/// Score of a (non-empty) run of characters of one kind.
pub open spec fn segment_score(seg: Seq<char>, opts: OptionsModel) -> nat {
    run_score(
        split_kind(seg[0]),
        utf8_len(seg),
        seg.len(),
        has_cjk(seg),
        all_alphanumeric_latin(seg),
        all_ascii_digits(seg),
        segment_language(seg, opts.rules),
        opts.default_ratio,
    )
}

/// The token estimate of a text: the sum of the scores of its maximal runs of
/// characters of one kind.
pub open spec fn token_estimate(s: Seq<char>, opts: OptionsModel) -> nat
    decreases s.len(),
{
    if s.len() == 0 {
        0
    } else {
        proof {
            lemma_last_run_len_bounds(s);
        }
        let k = last_run_len(s);
        token_estimate(s.take(s.len() - k), opts) + segment_score(s.skip(s.len() - k), opts)
    }
}

pub proof fn lemma_last_run_len_bounds(s: Seq<char>)
    ensures
        s.len() > 0 ==> 1 <= last_run_len(s) <= s.len(),
        s.len() == 0 ==> last_run_len(s) == 0,
    decreases s.len(),
{
    if s.len() >= 2 {
        lemma_last_run_len_bounds(s.drop_last());
    }
}

/// The last run is made of characters of the last character's kind, and the
/// character before it (if any) has another kind.
pub proof fn lemma_last_run_shape(s: Seq<char>)
    requires
        s.len() > 0,
    ensures
        forall|j: int|
            s.len() - last_run_len(s) <= j < s.len() ==> #[trigger] split_kind(s[j]) == split_kind(
                s.last(),
            ),
        last_run_len(s) < s.len() ==> split_kind(s[s.len() - last_run_len(s) - 1]) != split_kind(
            s.last(),
        ),
    decreases s.len(),
{
    lemma_last_run_len_bounds(s);
    if s.len() >= 2 && split_kind(s[s.len() - 2]) == split_kind(s.last()) {
        let t = s.drop_last();
        lemma_last_run_shape(t);
        lemma_last_run_len_bounds(t);
        assert forall|j: int|
            s.len() - last_run_len(s) <= j < s.len() implies #[trigger] split_kind(s[j])
            == split_kind(s.last()) by {
            if j < s.len() - 1 {
                assert(s[j] == t[j]);
                assert(split_kind(t[j]) == split_kind(t.last()));
            }
        }
        if last_run_len(s) < s.len() {
            assert(s[s.len() - last_run_len(s) - 1] == t[t.len() - last_run_len(t) - 1]);
        }
    }
}

/// A run length that has the shape of the last run is the last run's length.
pub proof fn lemma_last_run_unique(s: Seq<char>, k: int)
    requires
        1 <= k <= s.len(),
        forall|j: int| s.len() - k <= j < s.len() ==> #[trigger] split_kind(s[j]) == split_kind(
            s.last(),
        ),
        k < s.len() ==> split_kind(s[s.len() - k - 1]) != split_kind(s.last()),
    ensures
        last_run_len(s) == k,
    decreases s.len(),
{
    if k > 1 {
        let t = s.drop_last();
        assert(split_kind(s[s.len() - 2]) == split_kind(s.last()));
        assert forall|j: int| t.len() - (k - 1) <= j < t.len() implies #[trigger] split_kind(t[j])
            == split_kind(t.last()) by {
            assert(split_kind(s[j]) == split_kind(s.last()));
        }
        if k - 1 < t.len() {
            assert(t[t.len() - (k - 1) - 1] == s[s.len() - k - 1]);
        }
        lemma_last_run_unique(t, k - 1);
    } else if s.len() >= 2 {
        assert(split_kind(s[s.len() - 2]) != split_kind(s.last()));
    }
}

/// Appending a character extends the last run when the kinds agree, and starts
/// a new run otherwise.
pub proof fn lemma_last_run_push(s: Seq<char>, c: char)
    ensures
        last_run_len(s.push(c)) == if s.len() > 0 && split_kind(s.last()) == split_kind(c) {
            last_run_len(s) + 1
        } else {
            1
        },
{
    let t = s.push(c);
    assert(t.drop_last() =~= s);
    if s.len() > 0 {
        assert(t[t.len() - 2] == s.last());
    }
}

/// Cutting between `a` and `b` does not split a run of word or punctuation
/// characters: one side is empty, the kinds differ, or the cut is in whitespace.
pub open spec fn cut_between_runs(a: Seq<char>, b: Seq<char>) -> bool {
    ||| a.len() == 0
    ||| b.len() == 0
    ||| split_kind(a.last()) != split_kind(b[0])
    ||| split_kind(a.last()) == SplitKind::Whitespace
}

pub proof fn lemma_token_estimate_concat(a: Seq<char>, b: Seq<char>, opts: OptionsModel)
    requires
        cut_between_runs(a, b),
    ensures
        token_estimate(a + b, opts) == token_estimate(a, opts) + token_estimate(b, opts),
    decreases b.len(),
{
    let s = a + b;
    let n = s.len() as int;
    let al = a.len() as int;
    let bl = b.len() as int;
    if bl == 0 {
        assert(s =~= a);
        return;
    }
    lemma_last_run_len_bounds(b);
    lemma_last_run_shape(b);
    let kb = last_run_len(b) as int;
    assert(s.last() == b.last());
    if kb < bl {
        assert forall|j: int| n - kb <= j < n implies #[trigger] split_kind(s[j]) == split_kind(
            s.last(),
        ) by {
            assert(s[j] == b[j - al]);
        }
        assert(s[n - kb - 1] == b[bl - kb - 1]);
        lemma_last_run_unique(s, kb);
        let b1 = b.take(bl - kb);
        assert(s.take(n - kb) =~= a + b1);
        assert(s.skip(n - kb) =~= b.skip(bl - kb));
        assert(b1[0] == b[0]);
        lemma_token_estimate_concat(a, b1, opts);
    } else {
        assert(split_kind(b[0]) == split_kind(b.last()));
        if al == 0 || split_kind(a.last()) != split_kind(b.last()) {
            assert forall|j: int| n - bl <= j < n implies #[trigger] split_kind(s[j]) == split_kind(
                s.last(),
            ) by {
                assert(s[j] == b[j - al]);
            }
            if al > 0 {
                assert(s[n - bl - 1] == a.last());
            }
            lemma_last_run_unique(s, bl);
            assert(s.take(n - bl) =~= a);
            assert(s.skip(n - bl) =~= b);
            assert(b.take(0) =~= Seq::<char>::empty());
            assert(b.skip(0) =~= b);
        } else {
            lemma_last_run_len_bounds(a);
            lemma_last_run_shape(a);
            let ka = last_run_len(a) as int;
            assert forall|j: int| n - bl - ka <= j < n implies #[trigger] split_kind(s[j])
                == split_kind(s.last()) by {
                if j < al {
                    assert(s[j] == a[j]);
                    assert(split_kind(a[j]) == split_kind(a.last()));
                } else {
                    assert(s[j] == b[j - al]);
                }
            }
            if ka < al {
                assert(s[n - bl - ka - 1] == a[al - ka - 1]);
            }
            lemma_last_run_unique(s, bl + ka);
            assert(s.take(n - bl - ka) =~= a.take(al - ka));
            assert(s.skip(n - bl - ka)[0] == a[al - ka]);
            assert(a.skip(al - ka)[0] == a[al - ka]);
            assert(split_kind(a[al - ka]) == SplitKind::Whitespace);
            assert(segment_score(s.skip(n - bl - ka), opts) == 0);
            assert(segment_score(a.skip(al - ka), opts) == 0);
            assert(b.take(0) =~= Seq::<char>::empty());
            assert(b.skip(0) =~= b);
            assert(segment_score(b, opts) == 0);
            assert(token_estimate(a, opts) == token_estimate(a.take(al - ka), opts));
            assert(token_estimate(s, opts) == token_estimate(a.take(al - ka), opts));
        }
    }
}

/// How the measurements of a run change when a character is appended.
pub proof fn lemma_segment_push(seg: Seq<char>, c: char, rules: Seq<LanguageRule>)
    ensures
        has_cjk(seg.push(c)) == (has_cjk(seg) || spec_is_cjk(c)),
        all_alphanumeric_latin(seg.push(c)) == (all_alphanumeric_latin(seg)
            && spec_is_alphanumeric_latin(c)),
        all_ascii_digits(seg.push(c)) == (all_ascii_digits(seg) && spec_is_ascii_digit(c)),
        segment_language(seg.push(c), rules) == match segment_language(seg, rules) {
            Some(r) => Some(r),
            None => detect_language(rules, c),
        },
{
    let t = seg.push(c);
    assert(t.drop_last() =~= seg);
    assert(t.last() == c);
    if has_cjk(seg) {
        let i = choose|i: int| 0 <= i < seg.len() && #[trigger] spec_is_cjk(seg[i]);
        assert(t[i] == seg[i]);
    }
    if spec_is_cjk(c) {
        assert(spec_is_cjk(t[t.len() - 1]));
    }
    if has_cjk(t) {
        let i = choose|i: int| 0 <= i < t.len() && #[trigger] spec_is_cjk(t[i]);
        if i < seg.len() {
            assert(t[i] == seg[i]);
        }
    }
    assert(all_alphanumeric_latin(t) ==> spec_is_alphanumeric_latin(t[t.len() - 1]));
    assert(all_ascii_digits(t) ==> spec_is_ascii_digit(t[t.len() - 1]));
    if all_alphanumeric_latin(t) {
        assert forall|i: int| 0 <= i < seg.len() implies #[trigger] spec_is_alphanumeric_latin(
            seg[i],
        ) by {
            assert(t[i] == seg[i]);
        }
    }
    if all_ascii_digits(t) {
        assert forall|i: int| 0 <= i < seg.len() implies #[trigger] spec_is_ascii_digit(
            seg[i],
        ) by {
            assert(t[i] == seg[i]);
        }
    }
    if all_alphanumeric_latin(seg) && spec_is_alphanumeric_latin(c) {
        assert forall|i: int| 0 <= i < t.len() implies #[trigger] spec_is_alphanumeric_latin(
            t[i],
        ) by {
            if i < seg.len() {
                assert(t[i] == seg[i]);
            }
        }
    }
    if all_ascii_digits(seg) && spec_is_ascii_digit(c) {
        assert forall|i: int| 0 <= i < t.len() implies #[trigger] spec_is_ascii_digit(t[i]) by {
            if i < seg.len() {
                assert(t[i] == seg[i]);
            }
        }
    }
}

/// The measurements of a run of one character.
pub proof fn lemma_segment_single(c: char, rules: Seq<LanguageRule>)
    ensures
        has_cjk(seq![c]) == spec_is_cjk(c),
        all_alphanumeric_latin(seq![c]) == spec_is_alphanumeric_latin(c),
        all_ascii_digits(seq![c]) == spec_is_ascii_digit(c),
        segment_language(seq![c], rules) == detect_language(rules, c),
{
    lemma_segment_push(Seq::<char>::empty(), c, rules);
    assert(Seq::<char>::empty().push(c) =~= seq![c]);
    assert(!has_cjk(Seq::<char>::empty()));
}

/// A detected language ratio is the ratio of one of the rules.
pub proof fn lemma_detect_language_in_rules(rules: Seq<LanguageRule>, c: char)
    ensures
        detect_language(rules, c) matches Some(r) ==> exists|i: int|
            0 <= i < rules.len() && #[trigger] rules[i].ratio == r,
    decreases rules.len(),
{
    if rules.len() > 0 && !ranges_contain(rules[0].ranges, c) {
        lemma_detect_language_in_rules(rules.drop_first(), c);
        if let Some(r) = detect_language(rules, c) {
            let i = choose|i: int|
                0 <= i < rules.drop_first().len() && #[trigger] rules.drop_first()[i].ratio == r;
            assert(rules[i + 1].ratio == r);
        }
    } else if rules.len() > 0 {
        assert(rules[0].ratio == detect_language(rules, c).unwrap());
    }
}

/// A segment's language ratio is the ratio of one of the rules.
pub proof fn lemma_segment_language_in_rules(seg: Seq<char>, rules: Seq<LanguageRule>)
    ensures
        segment_language(seg, rules) matches Some(r) ==> exists|i: int|
            0 <= i < rules.len() && #[trigger] rules[i].ratio == r,
    decreases seg.len(),
{
    if seg.len() > 0 {
        lemma_segment_language_in_rules(seg.drop_last(), rules);
        lemma_detect_language_in_rules(rules, seg.last());
    }
}

proof fn lemma_ratio_tokens_bounds(bytes: nat, r: CharsPerToken)
    requires
        r.is_valid(),
    ensures
        bytes >= 1 && r.counts_tokens() ==> ratio_tokens(bytes, r) >= 1,
        r.at_least_one_char() ==> ratio_tokens(bytes, r) <= bytes,
{
    let b = bytes as int;
    let t = r.tokens as int;
    let c = r.chars as int;
    assert(b >= 1 && t >= 1 ==> (b * t + c - 1) / c >= 1) by (nonlinear_arith)
        requires
            t >= 0,
            c >= 1,
    ;
    assert(t <= c ==> (b * t + c - 1) / c <= b) by (nonlinear_arith)
        requires
            t >= 0,
            c >= 1,
            b >= 0,
    ;
}

/// A whitespace run scores nothing; when every ratio counts some tokens, any
/// other run scores at least one token; and with at least one character per
/// token no run scores more than its bytes.
pub proof fn lemma_segment_score_bounds(seg: Seq<char>, opts: OptionsModel)
    requires
        seg.len() > 0,
        opts.is_valid(),
    ensures
        split_kind(seg[0]) == SplitKind::Whitespace ==> segment_score(seg, opts) == 0,
        split_kind(seg[0]) != SplitKind::Whitespace && opts.counts_tokens() ==> segment_score(
            seg,
            opts,
        ) >= 1,
        opts.at_least_one_char() ==> segment_score(seg, opts) <= utf8_len(seg),
{
    lemma_utf8_len_ge_len(seg);
    let bytes = utf8_len(seg);
    lemma_segment_language_in_rules(seg, opts.rules);
    let r = match segment_language(seg, opts.rules) {
        Some(r) => r,
        None => opts.default_ratio,
    };
    if let Some(l) = segment_language(seg, opts.rules) {
        let i = choose|i: int| 0 <= i < opts.rules.len() && #[trigger] opts.rules[i].ratio == l;
        assert(opts.rules[i].ratio.is_valid());
        assert(opts.at_least_one_char() ==> opts.rules[i].ratio.at_least_one_char());
        assert(opts.counts_tokens() ==> opts.rules[i].ratio.counts_tokens());
    }
    lemma_ratio_tokens_bounds(bytes, r);
}

/// With at least one character per token, the estimate never exceeds the
/// text's length in UTF-8 bytes.
pub proof fn lemma_token_estimate_le_utf8_len(s: Seq<char>, opts: OptionsModel)
    requires
        opts.is_valid(),
        opts.at_least_one_char(),
    ensures
        token_estimate(s, opts) <= utf8_len(s),
    decreases s.len(),
{
    if s.len() > 0 {
        lemma_last_run_len_bounds(s);
        let k = last_run_len(s);
        let head = s.take(s.len() - k);
        let seg = s.skip(s.len() - k);
        lemma_token_estimate_le_utf8_len(head, opts);
        lemma_segment_score_bounds(seg, opts);
        assert(s =~= head + seg);
        lemma_utf8_len_concat(head, seg);
    }
}

/// When every ratio counts some tokens, the estimate is zero exactly when the
/// text is all whitespace.
pub proof fn lemma_token_estimate_zero_iff_whitespace(s: Seq<char>, opts: OptionsModel)
    requires
        opts.is_valid(),
        opts.counts_tokens(),
    ensures
        token_estimate(s, opts) == 0 <==> forall|i: int|
            0 <= i < s.len() ==> #[trigger] spec_is_whitespace(s[i]),
    decreases s.len(),
{
    if s.len() > 0 {
        lemma_last_run_len_bounds(s);
        lemma_last_run_shape(s);
        let k = last_run_len(s);
        let head = s.take(s.len() - k);
        let seg = s.skip(s.len() - k);
        lemma_token_estimate_zero_iff_whitespace(head, opts);
        lemma_segment_score_bounds(seg, opts);
        assert(seg[0] == s[s.len() - k]);
        if forall|i: int| 0 <= i < s.len() ==> #[trigger] spec_is_whitespace(s[i]) {
            assert(spec_is_whitespace(s[s.len() - k]));
            assert forall|i: int| 0 <= i < head.len() implies #[trigger] spec_is_whitespace(
                head[i],
            ) by {
                assert(head[i] == s[i]);
            }
        }
        if token_estimate(s, opts) == 0 {
            assert(split_kind(seg[0]) == SplitKind::Whitespace);
            assert forall|i: int| 0 <= i < s.len() implies #[trigger] spec_is_whitespace(s[i]) by {
                if i < s.len() - k {
                    assert(head[i] == s[i]);
                } else {
                    assert(split_kind(s[i]) == split_kind(s.last()));
                    assert(split_kind(s[s.len() - k]) == split_kind(s.last()));
                }
            }
        }
    }
}

} // verus!
