# pizza_analysis_pinyin

Chinese-to-pinyin analysis, verified with Verus.

- `src/dict.rs` — the syllable table, the pinyin alphabet, and per-character
  readings (primary reading, all readings, polyphones, homophones) taken from
  the `pinyin` crate.
- `src/alphabet.rs` — re-segmentation of ASCII letter runs as pinyin
  (forward / reverse maximum matching).
- `src/config.rs` — tokenizer configuration and its validation.
- `src/rules.rs` — user overrides of character and phrase readings, with
  longest-phrase matching.
- `src/normalizer.rs` — in-place conversion of Chinese characters to pinyin.
- `src/tokenizer.rs` — the pinyin tokenizer; its result is specified exactly
  by `tokenize_spec`, down to which terms borrow their text (syllables from
  the table, Chinese characters and ASCII runs from the input, unless
  lower-casing or trimming changed them). Laws proved there: every term is
  non-empty, each token starts no later than it ends and ends within the
  text, positions start at 0 and rise by at most one, no two tokens share
  term and position (nor term alone with `remove_duplicate_term`), terms are
  trimmed when trimming is on, and no term holds an ASCII upper-case letter
  when lower-casing is on.
- `src/text.rs` — character-level helpers (ASCII case, white space, UTF-8
  widths, trimming).
- `app/` — glue to the `pizza-engine` analysis traits and registration.
