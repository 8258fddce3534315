//! Configuration types for token estimation.
use vstd::prelude::*;

verus! {

/// Average number of characters per token for general English/Latin text.
pub const DEFAULT_CHARS_PER_TOKEN: u64 = 6;

/// An exact characters-per-token ratio: `chars` characters make `tokens`
/// tokens (3.5 characters per token is `chars: 7, tokens: 2`).
#[derive(Clone, Copy, Debug, PartialEq, Eq)]
pub struct CharsPerToken {
    pub chars: u64,
    pub tokens: u64,
}

impl CharsPerToken {
    /// A ratio is usable when its character count is positive (no tokens
    /// per character is an unbounded ratio: words then cost nothing).
    pub open spec fn is_valid(self) -> bool {
        self.chars > 0
    }

    /// Some tokens per character.
    pub open spec fn counts_tokens(self) -> bool {
        self.tokens > 0
    }

    /// At least one character per token.
    pub open spec fn at_least_one_char(self) -> bool {
        self.tokens <= self.chars
    }

    pub fn new(chars: u64, tokens: u64) -> (r: CharsPerToken)
        ensures
            r.chars == chars,
            r.tokens == tokens,
    {
        CharsPerToken { chars, tokens }
    }
}

/// A language-specific rule that adjusts characters-per-token when matched.
///
/// `matcher` lists inclusive character ranges. When a character of a word
/// segment falls in one of them, the segment uses `chars_per_token` instead of
/// the default ratio.
#[derive(Clone, Debug)]
pub struct LanguageConfig {
    pub matcher: Vec<(char, char)>,
    pub chars_per_token: CharsPerToken,
}

/// What a [`LanguageConfig`] says: its ranges and its ratio.
pub struct LanguageRule {
    pub ranges: Seq<(char, char)>,
    pub ratio: CharsPerToken,
}

impl View for LanguageConfig {
    type V = LanguageRule;

    open spec fn view(&self) -> LanguageRule {
        LanguageRule { ranges: self.matcher@, ratio: self.chars_per_token }
    }
}

/// Options for `estimate_token_count_with_options`.
#[derive(Clone, Debug)]
pub struct EstimationOptions {
    /// Fallback characters-per-token ratio when no language matches.
    pub default_chars_per_token: CharsPerToken,
    /// Language-specific overrides, checked in order.
    pub language_configs: Vec<LanguageConfig>,
}

/// What [`EstimationOptions`] say: the default ratio and the rules in order.
pub struct OptionsModel {
    pub default_ratio: CharsPerToken,
    pub rules: Seq<LanguageRule>,
}

impl View for EstimationOptions {
    type V = OptionsModel;

    open spec fn view(&self) -> OptionsModel {
        OptionsModel {
            default_ratio: self.default_chars_per_token,
            rules: self.language_configs@.map_values(|lc: LanguageConfig| lc@),
        }
    }
}

impl OptionsModel {
    /// Every ratio in the options has a positive character count.
    pub open spec fn is_valid(self) -> bool {
        &&& self.default_ratio.is_valid()
        &&& forall|i: int| 0 <= i < self.rules.len() ==> #[trigger] self.rules[i].ratio.is_valid()
    }

    /// Every ratio in the options has a positive token count.
    pub open spec fn counts_tokens(self) -> bool {
        &&& self.default_ratio.counts_tokens()
        &&& forall|i: int|
            0 <= i < self.rules.len() ==> #[trigger] self.rules[i].ratio.counts_tokens()
    }

    /// Every ratio in the options counts at least one character per token.
    pub open spec fn at_least_one_char(self) -> bool {
        &&& self.default_ratio.at_least_one_char()
        &&& forall|i: int|
            0 <= i < self.rules.len() ==> #[trigger] self.rules[i].ratio.at_least_one_char()
    }
}

/// Options for `split_by_tokens_with_options`.
#[derive(Clone, Debug)]
pub struct SplitOptions {
    /// Base estimation options.
    pub estimation: EstimationOptions,
    /// Number of overlapping tokens between consecutive chunks.
    pub overlap: usize,
}

/// Whether one of `ranges` contains `c`.
pub open spec fn ranges_contain(ranges: Seq<(char, char)>, c: char) -> bool {
    exists|i: int| 0 <= i < ranges.len() && #[trigger] ranges[i].0 <= c && c <= ranges[i].1
}

/// The ratio of the first rule whose ranges contain `c`, if any.
pub open spec fn detect_language(rules: Seq<LanguageRule>, c: char) -> Option<CharsPerToken>
    decreases rules.len(),
{
    if rules.len() == 0 {
        None
    } else if ranges_contain(rules[0].ranges, c) {
        Some(rules[0].ratio)
    } else {
        detect_language(rules.drop_first(), c)
    }
}

/// German diacritics: a, o, u with umlaut (both cases) and sharp s (both cases).
pub open spec fn spec_is_german(c: char) -> bool {
    c == '\u{E4}' || c == '\u{C4}' || c == '\u{F6}' || c == '\u{D6}' || c == '\u{FC}' || c
        == '\u{DC}' || c == '\u{DF}' || c == '\u{1E9E}'
}

/// Returns `true` if `c` is a German diacritic character.
pub fn is_german(c: char) -> (r: bool)
    ensures
        r == spec_is_german(c),
{
    c == '\u{E4}' || c == '\u{C4}' || c == '\u{F6}' || c == '\u{D6}' || c == '\u{FC}' || c
        == '\u{DC}' || c == '\u{DF}' || c == '\u{1E9E}'
}

/// French diacritics: accented e, a, i, o, u, y, cedilla and the ligatures
/// oe and ae, in both cases.
pub open spec fn spec_is_french(c: char) -> bool {
    ||| c == '\u{E9}' || c == '\u{C9}' || c == '\u{E8}' || c == '\u{C8}' || c == '\u{EA}'
    ||| c == '\u{CA}' || c == '\u{EB}' || c == '\u{CB}' || c == '\u{E0}' || c == '\u{C0}'
    ||| c == '\u{E2}' || c == '\u{C2}' || c == '\u{EE}' || c == '\u{CE}' || c == '\u{EF}'
    ||| c == '\u{CF}' || c == '\u{F4}' || c == '\u{D4}' || c == '\u{FB}' || c == '\u{DB}'
    ||| c == '\u{F9}' || c == '\u{D9}' || c == '\u{FC}' || c == '\u{DC}' || c == '\u{FF}'
    ||| c == '\u{178}' || c == '\u{E7}' || c == '\u{C7}' || c == '\u{153}' || c == '\u{152}'
    ||| c == '\u{E6}' || c == '\u{C6}'
}

/// Returns `true` if `c` is a French diacritic character.
pub fn is_french(c: char) -> (r: bool)
    ensures
        r == spec_is_french(c),
{
    c == '\u{E9}' || c == '\u{C9}' || c == '\u{E8}' || c == '\u{C8}' || c == '\u{EA}' || c
        == '\u{CA}' || c == '\u{EB}' || c == '\u{CB}' || c == '\u{E0}' || c == '\u{C0}' || c
        == '\u{E2}' || c == '\u{C2}' || c == '\u{EE}' || c == '\u{CE}' || c == '\u{EF}' || c
        == '\u{CF}' || c == '\u{F4}' || c == '\u{D4}' || c == '\u{FB}' || c == '\u{DB}' || c
        == '\u{F9}' || c == '\u{D9}' || c == '\u{FC}' || c == '\u{DC}' || c == '\u{FF}' || c
        == '\u{178}' || c == '\u{E7}' || c == '\u{C7}' || c == '\u{153}' || c == '\u{152}' || c
        == '\u{E6}' || c == '\u{C6}'
}

/// Spanish diacritics: acute a, e, i, o, u, u with diaeresis and n with tilde,
/// in both cases.
pub open spec fn spec_is_spanish(c: char) -> bool {
    c == '\u{E1}' || c == '\u{C1}' || c == '\u{E9}' || c == '\u{C9}' || c == '\u{ED}' || c
        == '\u{CD}' || c == '\u{F3}' || c == '\u{D3}' || c == '\u{FA}' || c == '\u{DA}' || c
        == '\u{FC}' || c == '\u{DC}' || c == '\u{F1}' || c == '\u{D1}'
}

/// Returns `true` if `c` is a Spanish diacritic character.
pub fn is_spanish(c: char) -> (r: bool)
    ensures
        r == spec_is_spanish(c),
{
    c == '\u{E1}' || c == '\u{C1}' || c == '\u{E9}' || c == '\u{C9}' || c == '\u{ED}' || c
        == '\u{CD}' || c == '\u{F3}' || c == '\u{D3}' || c == '\u{FA}' || c == '\u{DA}' || c
        == '\u{FC}' || c == '\u{DC}' || c == '\u{F1}' || c == '\u{D1}'
}

/// Ranges of the German and French diacritics, in ascending order.
pub open spec fn german_french_ranges() -> Seq<(char, char)> {
    seq![('\u{C0}', '\u{C0}'), ('\u{C2}', '\u{C2}'), ('\u{C4}', '\u{C4}'), ('\u{C6}', '\u{CB}'),
         ('\u{CE}', '\u{CF}'), ('\u{D4}', '\u{D4}'), ('\u{D6}', '\u{D6}'), ('\u{D9}', '\u{D9}'),
         ('\u{DB}', '\u{DC}'), ('\u{DF}', '\u{E0}'), ('\u{E2}', '\u{E2}'), ('\u{E4}', '\u{E4}'),
         ('\u{E6}', '\u{EB}'), ('\u{EE}', '\u{EF}'), ('\u{F4}', '\u{F4}'), ('\u{F6}', '\u{F6}'),
         ('\u{F9}', '\u{F9}'), ('\u{FB}', '\u{FC}'), ('\u{FF}', '\u{FF}'), ('\u{152}', '\u{153}'),
         ('\u{178}', '\u{178}'), ('\u{1E9E}', '\u{1E9E}')]
}

/// Ranges of the Spanish diacritics, in ascending order.
pub open spec fn spanish_ranges() -> Seq<(char, char)> {
    seq![('\u{C1}', '\u{C1}'), ('\u{C9}', '\u{C9}'), ('\u{CD}', '\u{CD}'), ('\u{D1}', '\u{D1}'),
         ('\u{D3}', '\u{D3}'), ('\u{DA}', '\u{DA}'), ('\u{DC}', '\u{DC}'), ('\u{E1}', '\u{E1}'),
         ('\u{E9}', '\u{E9}'), ('\u{ED}', '\u{ED}'), ('\u{F1}', '\u{F1}'), ('\u{F3}', '\u{F3}'),
         ('\u{FA}', '\u{FA}'), ('\u{FC}', '\u{FC}')]
}

/// The built-in rules: German or French diacritics at 3 characters per token,
/// Spanish diacritics at 3.5 characters per token.
pub open spec fn default_rules() -> Seq<LanguageRule> {
    seq![
        LanguageRule {
            ranges: german_french_ranges(),
            ratio: CharsPerToken { chars: 3, tokens: 1 },
        },
        LanguageRule { ranges: spanish_ranges(), ratio: CharsPerToken { chars: 7, tokens: 2 } },
    ]
}

/// The default options: 6 characters per token and the built-in rules.
pub open spec fn default_options() -> OptionsModel {
    OptionsModel {
        default_ratio: CharsPerToken { chars: DEFAULT_CHARS_PER_TOKEN, tokens: 1 },
        rules: default_rules(),
    }
}

/// Returns the default language configurations (German and French, then Spanish).
pub fn default_language_configs() -> (v: Vec<LanguageConfig>)
    ensures
        v@.map_values(|lc: LanguageConfig| lc@) == default_rules(),
{
    let german_french = LanguageConfig {
        matcher: vec![('\u{C0}', '\u{C0}'), ('\u{C2}', '\u{C2}'), ('\u{C4}', '\u{C4}'),
             ('\u{C6}', '\u{CB}'), ('\u{CE}', '\u{CF}'), ('\u{D4}', '\u{D4}'),
             ('\u{D6}', '\u{D6}'), ('\u{D9}', '\u{D9}'), ('\u{DB}', '\u{DC}'),
             ('\u{DF}', '\u{E0}'), ('\u{E2}', '\u{E2}'), ('\u{E4}', '\u{E4}'),
             ('\u{E6}', '\u{EB}'), ('\u{EE}', '\u{EF}'), ('\u{F4}', '\u{F4}'),
             ('\u{F6}', '\u{F6}'), ('\u{F9}', '\u{F9}'), ('\u{FB}', '\u{FC}'),
             ('\u{FF}', '\u{FF}'), ('\u{152}', '\u{153}'), ('\u{178}', '\u{178}'),
             ('\u{1E9E}', '\u{1E9E}')],
        chars_per_token: CharsPerToken { chars: 3, tokens: 1 },
    };
    let spanish = LanguageConfig {
        matcher: vec![('\u{C1}', '\u{C1}'), ('\u{C9}', '\u{C9}'), ('\u{CD}', '\u{CD}'),
             ('\u{D1}', '\u{D1}'), ('\u{D3}', '\u{D3}'), ('\u{DA}', '\u{DA}'),
             ('\u{DC}', '\u{DC}'), ('\u{E1}', '\u{E1}'), ('\u{E9}', '\u{E9}'),
             ('\u{ED}', '\u{ED}'), ('\u{F1}', '\u{F1}'), ('\u{F3}', '\u{F3}'),
             ('\u{FA}', '\u{FA}'), ('\u{FC}', '\u{FC}')],
        chars_per_token: CharsPerToken { chars: 7, tokens: 2 },
    };
    let v = vec![german_french, spanish];
    assert(v@.map_values(|lc: LanguageConfig| lc@) =~= default_rules());
    v
}

impl Default for EstimationOptions {
    fn default() -> (r: EstimationOptions)
        ensures
            r@ == default_options(),
    {
        EstimationOptions {
            default_chars_per_token: CharsPerToken { chars: DEFAULT_CHARS_PER_TOKEN, tokens: 1 },
            language_configs: default_language_configs(),
        }
    }
}

impl Default for SplitOptions {
    fn default() -> (r: SplitOptions)
        ensures
            r.estimation@ == default_options(),
            r.overlap == 0,
    {
        SplitOptions { estimation: EstimationOptions::default(), overlap: 0 }
    }
}

/// The built-in German/French rule matches exactly the German or French
/// diacritics, and the Spanish rule exactly the Spanish ones.
pub proof fn lemma_default_rules_match(c: char)
    ensures
        ranges_contain(german_french_ranges(), c) <==> spec_is_german(c) || spec_is_french(c),
        ranges_contain(spanish_ranges(), c) <==> spec_is_spanish(c),
{
    let gf = german_french_ranges();
    let sp = spanish_ranges();
    if spec_is_german(c) || spec_is_french(c) {
        assert((gf[0].0 <= c && c <= gf[0].1) || (gf[1].0 <= c && c <= gf[1].1)
            || (gf[2].0 <= c && c <= gf[2].1) || (gf[3].0 <= c && c <= gf[3].1)
            || (gf[4].0 <= c && c <= gf[4].1) || (gf[5].0 <= c && c <= gf[5].1)
            || (gf[6].0 <= c && c <= gf[6].1) || (gf[7].0 <= c && c <= gf[7].1)
            || (gf[8].0 <= c && c <= gf[8].1) || (gf[9].0 <= c && c <= gf[9].1)
            || (gf[10].0 <= c && c <= gf[10].1) || (gf[11].0 <= c && c <= gf[11].1)
            || (gf[12].0 <= c && c <= gf[12].1) || (gf[13].0 <= c && c <= gf[13].1)
            || (gf[14].0 <= c && c <= gf[14].1) || (gf[15].0 <= c && c <= gf[15].1)
            || (gf[16].0 <= c && c <= gf[16].1) || (gf[17].0 <= c && c <= gf[17].1)
            || (gf[18].0 <= c && c <= gf[18].1) || (gf[19].0 <= c && c <= gf[19].1)
            || (gf[20].0 <= c && c <= gf[20].1) || (gf[21].0 <= c && c <= gf[21].1));
    }
    if spec_is_spanish(c) {
        assert((sp[0].0 <= c && c <= sp[0].1) || (sp[1].0 <= c && c <= sp[1].1)
            || (sp[2].0 <= c && c <= sp[2].1) || (sp[3].0 <= c && c <= sp[3].1)
            || (sp[4].0 <= c && c <= sp[4].1) || (sp[5].0 <= c && c <= sp[5].1)
            || (sp[6].0 <= c && c <= sp[6].1) || (sp[7].0 <= c && c <= sp[7].1)
            || (sp[8].0 <= c && c <= sp[8].1) || (sp[9].0 <= c && c <= sp[9].1)
            || (sp[10].0 <= c && c <= sp[10].1) || (sp[11].0 <= c && c <= sp[11].1)
            || (sp[12].0 <= c && c <= sp[12].1) || (sp[13].0 <= c && c <= sp[13].1));
    }
}

/// The default options have valid ratios, with some tokens and at least one
/// character per token.
pub proof fn lemma_default_options_valid()
    ensures
        default_options().is_valid(),
        default_options().counts_tokens(),
        default_options().at_least_one_char(),
{
}

} // verus!
