//! Cutting a text into words that each end with their whitespace character,
//! as `str::split_inclusive(char::is_whitespace)` does.
use vstd::prelude::*;

use crate::chars::{is_whitespace, spec_is_whitespace, SplitKind, split_kind};
use crate::config::OptionsModel;
use crate::segments::{cut_between_runs, lemma_token_estimate_concat, token_estimate};

verus! {

/// The words of `s`: a word starts at the beginning of the text or right after
/// a whitespace character, and runs up to and including the next whitespace
/// character (or to the end of the text).
pub open spec fn words_of(s: Seq<char>) -> Seq<Seq<char>>
    decreases s.len(),
{
    if s.len() == 0 {
        seq![]
    } else {
        let ws = words_of(s.drop_last());
        if s.len() == 1 || spec_is_whitespace(s[s.len() - 2]) {
            ws.push(seq![s.last()])
        } else {
            ws.update(ws.len() - 1, ws.last().push(s.last()))
        }
    }
}

/// The shape of a word list: words are non-empty, only a word's last
/// character may be whitespace, and every word but the last ends with one.
pub open spec fn well_cut(ws: Seq<Seq<char>>) -> bool {
    &&& forall|i: int| 0 <= i < ws.len() ==> #[trigger] ws[i].len() > 0
    &&& forall|i: int, j: int|
        0 <= i < ws.len() && 0 <= j < ws[i].len() - 1 ==> !spec_is_whitespace(#[trigger] ws[i][j])
    &&& forall|i: int| 0 <= i < ws.len() - 1 ==> spec_is_whitespace(#[trigger] ws[i].last())
}

/// The words of a text put back together give the text, and they are cut
/// exactly after each whitespace character.
pub proof fn lemma_words_of(s: Seq<char>)
    ensures
        words_of(s).flatten() == s,
        well_cut(words_of(s)),
        words_of(s).len() == 0 <==> s.len() == 0,
        s.len() > 0 ==> (spec_is_whitespace(s.last()) <==> spec_is_whitespace(
            words_of(s).last().last(),
        )),
    decreases s.len(),
{
    broadcast use Seq::lemma_flatten_push;

    if s.len() > 0 {
        let t = s.drop_last();
        let c = s.last();
        let ws = words_of(t);
        lemma_words_of(t);
        assert(t.push(c) =~= s);
        if s.len() == 1 || spec_is_whitespace(s[s.len() - 2]) {
            let r = ws.push(seq![c]);
            assert(r.flatten() =~= ws.flatten() + seq![c]);
            if s.len() >= 2 {
                assert(t.last() == s[s.len() - 2]);
            }
            assert forall|i: int| 0 <= i < r.len() - 1 implies spec_is_whitespace(
                #[trigger] r[i].last(),
            ) by {
                if i < ws.len() - 1 {
                    assert(r[i] == ws[i]);
                } else {
                    assert(r[i] == ws.last());
                }
            }
            assert forall|i: int, j: int|
                0 <= i < r.len() && 0 <= j < r[i].len() - 1 implies !spec_is_whitespace(
                #[trigger] r[i][j],
            ) by {
                assert(r[i] == ws[i]);
            }
            assert forall|i: int| 0 <= i < r.len() implies #[trigger] r[i].len() > 0 by {
                if i < ws.len() {
                    assert(r[i] == ws[i]);
                }
            }
        } else {
            let last = ws.last();
            let r = ws.update(ws.len() - 1, last.push(c));
            assert(ws =~= ws.drop_last().push(last));
            assert(r =~= ws.drop_last().push(last.push(c)));
            assert(r.flatten() =~= ws.drop_last().flatten() + last.push(c));
            assert(ws.flatten() =~= ws.drop_last().flatten() + last);
            assert(t.last() == s[s.len() - 2]);
            assert(last.last() == t.last());
            assert forall|i: int| 0 <= i < r.len() - 1 implies spec_is_whitespace(
                #[trigger] r[i].last(),
            ) by {
                assert(r[i] == ws[i]);
            }
            assert forall|i: int, j: int|
                0 <= i < r.len() && 0 <= j < r[i].len() - 1 implies !spec_is_whitespace(
                #[trigger] r[i][j],
            ) by {
                if i < r.len() - 1 {
                    assert(r[i] == ws[i]);
                } else {
                    assert(r[i] == last.push(c));
                    if j < last.len() - 1 {
                        assert(r[i][j] == ws[ws.len() - 1][j]);
                    } else {
                        assert(r[i][j] == last.last());
                    }
                }
            }
            assert forall|i: int| 0 <= i < r.len() implies #[trigger] r[i].len() > 0 by {
                if i < r.len() - 1 {
                    assert(r[i] == ws[i]);
                }
            }
        }
    }
}

/// Sum of the estimates of the words.
pub open spec fn sum_estimates(ws: Seq<Seq<char>>, opts: OptionsModel) -> nat
    decreases ws.len(),
{
    if ws.len() == 0 {
        0
    } else {
        sum_estimates(ws.drop_last(), opts) + token_estimate(ws.last(), opts)
    }
}

/// The estimate of a well-cut word list put together is the sum of the
/// estimates of its words.
pub proof fn lemma_estimate_of_words(ws: Seq<Seq<char>>, opts: OptionsModel)
    requires
        well_cut(ws),
    ensures
        token_estimate(ws.flatten(), opts) == sum_estimates(ws, opts),
    decreases ws.len(),
{
    broadcast use Seq::lemma_flatten_push;

    if ws.len() > 0 {
        let init = ws.drop_last();
        assert(ws =~= init.push(ws.last()));
        assert(well_cut(init)) by {
            assert forall|i: int, j: int|
                0 <= i < init.len() && 0 <= j < init[i].len() - 1 implies !spec_is_whitespace(
                #[trigger] init[i][j],
            ) by {
                assert(init[i] == ws[i]);
            }
            assert forall|i: int| 0 <= i < init.len() implies #[trigger] init[i].len() > 0 by {
                assert(init[i] == ws[i]);
            }
            assert forall|i: int| 0 <= i < init.len() - 1 implies spec_is_whitespace(
                #[trigger] init[i].last(),
            ) by {
                assert(init[i] == ws[i]);
            }
        }
        lemma_estimate_of_words(init, opts);
        let f = init.flatten();
        if init.len() > 0 {
            lemma_flatten_last(init);
            assert(spec_is_whitespace(init[init.len() - 1].last()));
            assert(split_kind(f.last()) == SplitKind::Whitespace);
        }
        assert(cut_between_runs(f, ws.last()));
        lemma_token_estimate_concat(f, ws.last(), opts);
    }
}

/// The last character of a flattened list with a non-empty last element.
pub proof fn lemma_flatten_last(ws: Seq<Seq<char>>)
    requires
        ws.len() > 0,
        ws.last().len() > 0,
    ensures
        ws.flatten().len() > 0,
        ws.flatten().last() == ws.last().last(),
{
    broadcast use Seq::lemma_flatten_push;

    assert(ws =~= ws.drop_last().push(ws.last()));
    assert(ws.flatten() =~= ws.drop_last().flatten() + ws.last());
}

/// Appends `c` to `s` by `String::push`, which appends the given character to
/// the end of the string.
#[verifier::external_body]
fn push_char(s: &mut String, c: char)
    ensures
        final(s)@ == old(s)@.push(c),
{
    s.push(c);
}

/// The views of a list of strings.
pub open spec fn views(v: Seq<String>) -> Seq<Seq<char>> {
    v.map_values(|w: String| w@)
}

/// Splits `text` after each whitespace character, keeping the whitespace at
/// the end of its word.
pub fn split_words(text: &str) -> (ws: Vec<String>)
    ensures
        views(ws@) == words_of(text@),
{
    let ghost s = text@;
    let mut out: Vec<String> = Vec::new();
    let mut cur = String::new();
    for c in it: text.chars()
        invariant
            s == text@,
            it.seq() == s,
            cur@.len() == 0 <==> (it.index() == 0 || spec_is_whitespace(s[it.index() - 1])),
            words_of(s.take(it.index())) == if cur@.len() == 0 {
                views(out@)
            } else {
                views(out@).push(cur@)
            },
    {
        let ghost i = it.index();
        let ghost p = s.take(i);
        assert(s.take(i + 1) =~= p.push(c));
        assert(s.take(i + 1).drop_last() =~= p);
        assert(c == s[i]);
        proof {
            if i >= 1 {
                assert(s.take(i + 1)[i - 1] == s[i - 1]);
            }
        }
        let ghost before = views(out@);
        let ghost old_cur = cur@;
        push_char(&mut cur, c);
        proof {
            if old_cur.len() == 0 {
                assert(cur@ =~= seq![c]);
            } else {
                assert(before.push(old_cur).update(before.len() as int, old_cur.push(c))
                    =~= before.push(cur@));
            }
        }
        if is_whitespace(c) {
            let done = cur;
            cur = String::new();
            out.push(done);
            assert(views(out@) =~= before.push(done@));
        }
    }
    assert(s.take(s.len() as int) =~= s);
    if !cur.as_str().is_empty() {
        let ghost before = views(out@);
        out.push(cur);
        assert(views(out@) =~= before.push(cur@));
    }
    out
}

} // verus!
