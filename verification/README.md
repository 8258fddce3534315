# tokenx_rs

Fast heuristic token-count estimation for LLM prompts, without a vocabulary,
written in Verus with its behaviour stated and proved.

A single pass over the text classifies each character (whitespace,
punctuation, word) and groups maximal runs of one kind into segments. Each
segment is scored: whitespace is free, punctuation costs one token up to three
bytes and half its bytes (rounded up) beyond, and a word costs one token per
character if it holds CJK, one token if it is a digit run or at most three
bytes long, its bytes divided by the characters-per-token ratio (rounded up)
if it is Latin alphanumeric or holds a language diacritic, and one token per
character otherwise. Ratios are exact fractions (`CharsPerToken`), and a
language rule matches characters by inclusive ranges.

Layout of `src/`:

- `chars.rs`: character classes and UTF-8 widths.
- `config.rs`: ratios, language rules, options and their defaults.
- `segments.rs`: the mathematical model of an estimate and its lemmas.
- `estimator.rs`: the single-pass estimator.
- `words.rs`: cutting a text into words after each whitespace character.
- `utils.rs`: token limits, slicing and chunking by tokens.
- `laws.rs`: properties that hold for every input.
