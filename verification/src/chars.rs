//! Character classes that drive segmentation and scoring.
use vstd::prelude::*;
use vstd::utf8::encode_utf8;

verus! {

/// How a character takes part in segmentation: maximal runs of characters of
/// one kind form the segments that are scored.
#[derive(Clone, Copy, Debug, PartialEq, Eq, Structural)]
pub enum SplitKind {
    Whitespace,
    Punctuation,
    Word,
}

/// The Unicode `White_Space` property.
pub open spec fn spec_is_whitespace(c: char) -> bool {
    ||| ('\u{9}' <= c && c <= '\u{D}')
    ||| c == ' '
    ||| c == '\u{85}'
    ||| c == '\u{A0}'
    ||| c == '\u{1680}'
    ||| ('\u{2000}' <= c && c <= '\u{200A}')
    ||| c == '\u{2028}'
    ||| c == '\u{2029}'
    ||| c == '\u{202F}'
    ||| c == '\u{205F}'
    ||| c == '\u{3000}'
}

/// Whether `c` has the Unicode `White_Space` property (the property that
/// `char::is_whitespace` tests).
pub fn is_whitespace(c: char) -> (r: bool)
    ensures
        r == spec_is_whitespace(c),
{
    ('\u{9}' <= c && c <= '\u{D}') || c == ' ' || c == '\u{85}' || c == '\u{A0}' || c
        == '\u{1680}' || ('\u{2000}' <= c && c <= '\u{200A}') || c == '\u{2028}' || c
        == '\u{2029}' || c == '\u{202F}' || c == '\u{205F}' || c == '\u{3000}'
}

/// CJK ideographs, kana, hangul and the related symbol and form blocks.
pub open spec fn spec_is_cjk(c: char) -> bool {
    ||| ('\u{4E00}' <= c && c <= '\u{9FFF}')
    ||| ('\u{3400}' <= c && c <= '\u{4DBF}')
    ||| ('\u{3000}' <= c && c <= '\u{303F}')
    ||| ('\u{FF00}' <= c && c <= '\u{FFEF}')
    ||| ('\u{30A0}' <= c && c <= '\u{30FF}')
    ||| ('\u{2E80}' <= c && c <= '\u{2EFF}')
    ||| ('\u{31C0}' <= c && c <= '\u{31EF}')
    ||| ('\u{3200}' <= c && c <= '\u{32FF}')
    ||| ('\u{3300}' <= c && c <= '\u{33FF}')
    ||| ('\u{AC00}' <= c && c <= '\u{D7AF}')
    ||| ('\u{1100}' <= c && c <= '\u{11FF}')
    ||| ('\u{3130}' <= c && c <= '\u{318F}')
    ||| ('\u{A960}' <= c && c <= '\u{A97F}')
    ||| ('\u{D7B0}' <= c && c <= '\u{D7FF}')
}

pub fn is_cjk(c: char) -> (r: bool)
    ensures
        r == spec_is_cjk(c),
{
    ('\u{4E00}' <= c && c <= '\u{9FFF}') || ('\u{3400}' <= c && c <= '\u{4DBF}') || ('\u{3000}'
        <= c && c <= '\u{303F}') || ('\u{FF00}' <= c && c <= '\u{FFEF}') || ('\u{30A0}' <= c && c
        <= '\u{30FF}') || ('\u{2E80}' <= c && c <= '\u{2EFF}') || ('\u{31C0}' <= c && c
        <= '\u{31EF}') || ('\u{3200}' <= c && c <= '\u{32FF}') || ('\u{3300}' <= c && c
        <= '\u{33FF}') || ('\u{AC00}' <= c && c <= '\u{D7AF}') || ('\u{1100}' <= c && c
        <= '\u{11FF}') || ('\u{3130}' <= c && c <= '\u{318F}') || ('\u{A960}' <= c && c
        <= '\u{A97F}') || ('\u{D7B0}' <= c && c <= '\u{D7FF}')
}

/// ASCII punctuation and symbols, and the typographic quotation marks
/// U+201E, U+201C, U+201D, U+2018 and U+2019.
pub open spec fn spec_is_punctuation(c: char) -> bool {
    ||| c == '.' || c == ',' || c == '!' || c == '?' || c == ';' || c == '\'' || c == '"'
    ||| c == '\u{201E}' || c == '\u{201C}' || c == '\u{201D}' || c == '\u{2018}' || c == '\u{2019}'
    ||| c == '-' || c == '(' || c == ')' || c == '{' || c == '}' || c == '[' || c == ']'
    ||| c == '<' || c == '>' || c == ':' || c == '/' || c == '\\' || c == '|' || c == '@'
    ||| c == '#' || c == '$' || c == '%' || c == '^' || c == '&' || c == '*' || c == '+'
    ||| c == '=' || c == '`' || c == '~'
}

pub fn is_punctuation(c: char) -> (r: bool)
    ensures
        r == spec_is_punctuation(c),
{
    c == '.' || c == ',' || c == '!' || c == '?' || c == ';' || c == '\'' || c == '"' || c
        == '\u{201E}' || c == '\u{201C}' || c == '\u{201D}' || c == '\u{2018}' || c == '\u{2019}'
        || c == '-' || c == '(' || c == ')' || c == '{' || c == '}' || c == '[' || c == ']' || c
        == '<' || c == '>' || c == ':' || c == '/' || c == '\\' || c == '|' || c == '@' || c
        == '#' || c == '$' || c == '%' || c == '^' || c == '&' || c == '*' || c == '+' || c
        == '=' || c == '`' || c == '~'
}

/// The ASCII decimal digits `0`..=`9`.
pub open spec fn spec_is_ascii_digit(c: char) -> bool {
    '0' <= c && c <= '9'
}

pub fn is_ascii_digit(c: char) -> (r: bool)
    ensures
        r == spec_is_ascii_digit(c),
{
    '0' <= c && c <= '9'
}

/// ASCII letters and digits, and the Latin-1 letters U+00C0..=U+00FF except
/// U+00D7 and U+00F7.
pub open spec fn spec_is_alphanumeric_latin(c: char) -> bool {
    ||| ('0' <= c && c <= '9')
    ||| ('A' <= c && c <= 'Z')
    ||| ('a' <= c && c <= 'z')
    ||| ('\u{C0}' <= c && c <= '\u{D6}')
    ||| ('\u{D8}' <= c && c <= '\u{F6}')
    ||| ('\u{F8}' <= c && c <= '\u{FF}')
}

pub fn is_alphanumeric_latin(c: char) -> (r: bool)
    ensures
        r == spec_is_alphanumeric_latin(c),
{
    ('0' <= c && c <= '9') || ('A' <= c && c <= 'Z') || ('a' <= c && c <= 'z') || ('\u{C0}' <= c
        && c <= '\u{D6}') || ('\u{D8}' <= c && c <= '\u{F6}') || ('\u{F8}' <= c && c <= '\u{FF}')
}

/// Whitespace first, then punctuation; every other character is part of a word.
pub open spec fn split_kind(c: char) -> SplitKind {
    if spec_is_whitespace(c) {
        SplitKind::Whitespace
    } else if spec_is_punctuation(c) {
        SplitKind::Punctuation
    } else {
        SplitKind::Word
    }
}

pub fn split_classify(c: char) -> (k: SplitKind)
    ensures
        k == split_kind(c),
{
    if is_whitespace(c) {
        SplitKind::Whitespace
    } else if is_punctuation(c) {
        SplitKind::Punctuation
    } else {
        SplitKind::Word
    }
}

/// Number of bytes of the UTF-8 encoding of `c`.
pub open spec fn spec_utf8_width(c: char) -> nat {
    if (c as u32) < 0x80 {
        1
    } else if (c as u32) < 0x800 {
        2
    } else if (c as u32) < 0x10000 {
        3
    } else {
        4
    }
}

/// Number of bytes of the UTF-8 encoding of `c` (what `char::len_utf8` returns).
pub fn utf8_width(c: char) -> (n: usize)
    ensures
        n == spec_utf8_width(c),
        1 <= n <= 4,
{
    let u = c as u32;
    if u < 0x80 {
        1
    } else if u < 0x800 {
        2
    } else if u < 0x10000 {
        3
    } else {
        4
    }
}

/// Number of bytes of the UTF-8 encoding of a character sequence.
pub open spec fn utf8_len(s: Seq<char>) -> nat {
    encode_utf8(s).len()
}

pub proof fn lemma_utf8_width(c: char)
    ensures
        vstd::utf8::encode_scalar(c as u32).len() == spec_utf8_width(c),
{
    vstd::utf8::char_is_scalar(c);
}

pub proof fn lemma_encode_utf8_concat(a: Seq<char>, b: Seq<char>)
    ensures
        encode_utf8(a + b) == encode_utf8(a) + encode_utf8(b),
    decreases a.len(),
{
    if a.len() == 0 {
        assert(a + b =~= b);
        assert(encode_utf8(a) + encode_utf8(b) =~= encode_utf8(b));
    } else {
        lemma_encode_utf8_concat(a.drop_first(), b);
        assert((a + b).drop_first() =~= a.drop_first() + b);
        assert((a + b)[0] == a[0]);
        assert(encode_utf8(a + b) =~= encode_utf8(a) + encode_utf8(b));
    }
}

/// The byte length is additive over concatenation.
pub proof fn lemma_utf8_len_concat(a: Seq<char>, b: Seq<char>)
    ensures
        utf8_len(a + b) == utf8_len(a) + utf8_len(b),
{
    lemma_encode_utf8_concat(a, b);
}

pub proof fn lemma_utf8_len_push(s: Seq<char>, c: char)
    ensures
        utf8_len(s.push(c)) == utf8_len(s) + spec_utf8_width(c),
{
    lemma_encode_utf8_concat(s, seq![c]);
    assert(s.push(c) =~= s + seq![c]);
    lemma_utf8_width(c);
    assert(seq![c].drop_first() =~= Seq::<char>::empty());
    assert(encode_utf8(seq![c]) =~= vstd::utf8::encode_scalar(c as u32) + encode_utf8(
        Seq::<char>::empty(),
    ));
}

/// Every character takes at least one byte.
pub proof fn lemma_utf8_len_ge_len(s: Seq<char>)
    ensures
        utf8_len(s) >= s.len(),
    decreases s.len(),
{
    if s.len() > 0 {
        lemma_utf8_len_ge_len(s.drop_last());
        lemma_utf8_len_push(s.drop_last(), s.last());
        assert(s.drop_last().push(s.last()) =~= s);
    }
}

} // verus!
