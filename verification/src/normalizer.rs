//! Pinyin normalizer: converts the Chinese characters of a text to their
//! pinyin before tokenization. Other characters are passed through.
//!
//! - **Full pinyin** (default): `"刘德华"` → `"liu de hua"`
//! - **Joined**: `"刘德华"` → `"liudehua"`
//! - **First letter**: `"刘德华"` → `"ldh"`

use vstd::prelude::*;
use vstd::string::StrSliceExecFns;

use crate::dict::{lemma_syllable_table, primary_of, PinyinDict};
use crate::text::{ascii_lower_seq, is_white_space, lower_chars, str_chars, string_from_chars, white_space};

verus! {

/// A CJK unified ideograph in `U+4E00..=U+9FA5`.
pub open spec fn is_chinese_char(c: char) -> bool {
    '\u{4E00}' <= c && c <= '\u{9FA5}'
}

/// Whether `c` lies in `U+4E00..=U+9FA5`.
pub fn is_chinese(c: char) -> (r: bool)
    ensures
        r == is_chinese_char(c),
{
    '\u{4E00}' <= c && c <= '\u{9FA5}'
}

/// Output mode for the pinyin normalizer.
#[derive(Debug, Clone, Copy, PartialEq, Eq, Structural)]
pub enum PinyinNormalizeMode {
    /// Space-separated full pinyin: `"刘德华"` → `"liu de hua"`
    FullPinyin,
    /// Joined full pinyin (no separator): `"刘德华"` → `"liudehua"`
    JoinedPinyin,
    /// First letters only: `"刘德华"` → `"ldh"`
    FirstLetter,
}

/// Configuration for [`PinyinNormalizer`].
#[derive(Debug, Clone, Copy)]
pub struct PinyinNormalizeConfig {
    /// Output mode.
    pub mode: PinyinNormalizeMode,
    /// Separator between pinyin syllables (only used in `FullPinyin` mode).
    pub separator: &'static str,
    /// Lowercase the output.
    pub lowercase: bool,
}

impl Default for PinyinNormalizeConfig {
    fn default() -> (r: Self)
        ensures
            r.mode == PinyinNormalizeMode::FullPinyin,
            r.separator@ == seq![' '],
            r.lowercase,
    {
        proof {
            reveal_strlit(" ");
        }
        Self { mode: PinyinNormalizeMode::FullPinyin, separator: " ", lowercase: true }
    }
}

/// Normalizer that converts Chinese characters to pinyin in-place.
///
/// Use this as a pre-tokenization step in an analysis chain. Non-Chinese
/// characters (ASCII, punctuation, etc.) are preserved as-is.
#[derive(Debug)]
pub struct PinyinNormalizer {
    config: PinyinNormalizeConfig,
}

impl Clone for PinyinNormalizer {
    /// A normalizer with the same configuration.
    fn clone(&self) -> (r: Self)
        ensures
            r.spec_config() == self.spec_config(),
    {
        PinyinNormalizer { config: self.config }
    }
}

/// One step of the conversion, after reading `c`: the output so far,
/// whether it ends in a pinyin (or an unknown Chinese character), and
/// whether it ends in a character of a word (neither Chinese nor white
/// space). In full-pinyin mode the separator goes between a pinyin and a
/// neighbour that is not white space.
pub open spec fn normalize_step(
    mode: PinyinNormalizeMode,
    sep: Seq<char>,
    out: Seq<char>,
    after_pinyin: bool,
    after_word: bool,
    c: char,
) -> (Seq<char>, bool, bool) {
    if is_chinese_char(c) {
        match mode {
            PinyinNormalizeMode::FullPinyin => {
                let o = if after_pinyin || after_word {
                    out + sep
                } else {
                    out
                };
                match primary_of(c) {
                    Some(p) => (o + p, true, false),
                    None => (o.push(c), true, false),
                }
            },
            PinyinNormalizeMode::JoinedPinyin => (
                match primary_of(c) {
                    Some(p) => out + p,
                    None => out.push(c),
                },
                false,
                false,
            ),
            PinyinNormalizeMode::FirstLetter => (
                match primary_of(c) {
                    Some(p) => out.push(p[0]),
                    None => out.push(c),
                },
                false,
                false,
            ),
        }
    } else {
        let o = if after_pinyin && mode == PinyinNormalizeMode::FullPinyin && !is_white_space(c) {
            out + sep
        } else {
            out
        };
        (o.push(c), false, !is_white_space(c))
    }
}

/// The conversion of `s`, before lower-casing.
pub open spec fn normalize_fold(mode: PinyinNormalizeMode, sep: Seq<char>, s: Seq<char>) -> (
    Seq<char>,
    bool,
    bool,
)
    decreases s.len(),
{
    if s.len() == 0 {
        (seq![], false, false)
    } else {
        let prev = normalize_fold(mode, sep, s.drop_last());
        normalize_step(mode, sep, prev.0, prev.1, prev.2, s.last())
    }
}

/// Some character of `s` is Chinese.
pub open spec fn has_chinese(s: Seq<char>) -> bool {
    exists|i: int| 0 <= i < s.len() && is_chinese_char(#[trigger] s[i])
}

/// What normalizing `s` gives under `cfg`.
pub open spec fn normalize_spec(cfg: PinyinNormalizeConfig, s: Seq<char>) -> Seq<char> {
    let converted = if has_chinese(s) {
        normalize_fold(cfg.mode, cfg.separator@, s).0
    } else {
        s
    };
    if cfg.lowercase {
        ascii_lower_seq(converted)
    } else {
        converted
    }
}

impl PinyinNormalizer {
    pub closed spec fn spec_config(&self) -> PinyinNormalizeConfig {
        self.config
    }

    pub fn new(config: PinyinNormalizeConfig) -> (r: Self)
        ensures
            r.spec_config() == config,
    {
        Self { config }
    }

    /// Create a normalizer with default config (full pinyin, space-separated).
    pub fn with_defaults() -> (r: Self)
        ensures
            r.spec_config().mode == PinyinNormalizeMode::FullPinyin,
            r.spec_config().separator@ == seq![' '],
            r.spec_config().lowercase,
    {
        Self::new(PinyinNormalizeConfig::default())
    }

    /// Convert the Chinese characters of `text` to pinyin, in place.
    pub fn normalize(&self, text: &mut String)
        ensures
            final(text)@ == normalize_spec(self.spec_config(), old(text)@),
    {
        let chars = str_chars(text.as_str());
        let mut found = false;
        let mut i: usize = 0;
        while i < chars.len()
            invariant
                i <= chars.len(),
                found == exists|j: int| 0 <= j < i && is_chinese_char(#[trigger] chars@[j]),
            decreases chars.len() - i,
        {
            if is_chinese(chars[i]) {
                found = true;
            }
            i = i + 1;
        }
        if !found {
            if self.config.lowercase {
                let lowered = lower_chars(&chars);
                *text = string_from_chars(lowered.as_slice());
            }
            return;
        }
        let sep = str_chars(self.config.separator);
        let mode = self.config.mode;
        let mut out: Vec<char> = Vec::new();
        let mut after_pinyin = false;
        let mut after_word = false;
        let mut k: usize = 0;
        while k < chars.len()
            invariant
                k <= chars.len(),
                sep@ == self.config.separator@,
                mode == self.config.mode,
                (out@, after_pinyin, after_word) == normalize_fold(mode, sep@, chars@.take(k as int)),
            decreases chars.len() - k,
        {
            let c = chars[k];
            assert(chars@.take(k + 1).drop_last() == chars@.take(k as int));
            if is_chinese(c) {
                match mode {
                    PinyinNormalizeMode::FullPinyin => {
                        if after_pinyin || after_word {
                            push_all(&mut out, &sep);
                        }
                        match PinyinDict::primary(c) {
                            Some(pinyin) => {
                                let p = str_chars(pinyin);
                                push_all(&mut out, &p);
                            },
                            None => {
                                out.push(c);
                            },
                        }
                        after_pinyin = true;
                    },
                    PinyinNormalizeMode::JoinedPinyin => {
                        match PinyinDict::primary(c) {
                            Some(pinyin) => {
                                let p = str_chars(pinyin);
                                push_all(&mut out, &p);
                            },
                            None => {
                                out.push(c);
                            },
                        }
                        after_pinyin = false;
                    },
                    PinyinNormalizeMode::FirstLetter => {
                        match PinyinDict::primary_id(c) {
                            Some(id) => {
                                proof {
                                    lemma_syllable_table();
                                }
                                let pinyin = id.as_str();
                                assert(pinyin@.len() > 0);
                                out.push(pinyin.get_char(0));
                            },
                            None => {
                                out.push(c);
                            },
                        }
                        after_pinyin = false;
                    },
                }
                after_word = false;
            } else {
                let ws = white_space(c);
                if after_pinyin && mode == PinyinNormalizeMode::FullPinyin && !ws {
                    push_all(&mut out, &sep);
                }
                out.push(c);
                after_pinyin = false;
                after_word = !ws;
            }
            k = k + 1;
        }
        assert(chars@.take(chars.len() as int) == chars@);
        if self.config.lowercase {
            let lowered = lower_chars(&out);
            *text = string_from_chars(lowered.as_slice());
        } else {
            *text = string_from_chars(out.as_slice());
        }
    }
}

/// Appends all of `src` to `dst`.
pub(crate) fn push_all(dst: &mut Vec<char>, src: &Vec<char>)
    ensures
        final(dst)@ == old(dst)@ + src@,
{
    let mut i: usize = 0;
    while i < src.len()
        invariant
            i <= src.len(),
            dst@ == old(dst)@ + src@.take(i as int),
        decreases src.len() - i,
    {
        dst.push(src[i]);
        assert(src@.take(i + 1) == src@.take(i as int).push(src@[i as int]));
        i = i + 1;
    }
    assert(src@.take(src.len() as int) == src@);
}

/// Law: a text without Chinese characters comes out unchanged, but for
/// ASCII lower-casing when the normalizer lower-cases.
pub proof fn lemma_non_chinese_passthrough(cfg: PinyinNormalizeConfig, s: Seq<char>)
    requires
        !has_chinese(s),
    ensures
        normalize_spec(cfg, s) == (if cfg.lowercase {
            ascii_lower_seq(s)
        } else {
            s
        }),
{
}

proof fn lemma_fold_sep_unused(mode: PinyinNormalizeMode, a: Seq<char>, b: Seq<char>, s: Seq<char>)
    requires
        mode != PinyinNormalizeMode::FullPinyin,
    ensures
        normalize_fold(mode, a, s) == normalize_fold(mode, b, s),
    decreases s.len(),
{
    if s.len() > 0 {
        lemma_fold_sep_unused(mode, a, b, s.drop_last());
    }
}

/// Law: the separator matters only in full-pinyin mode; in the other modes
/// two configurations that differ only in it give the same output.
pub proof fn lemma_separator_only_in_full_pinyin(
    cfg1: PinyinNormalizeConfig,
    cfg2: PinyinNormalizeConfig,
    s: Seq<char>,
)
    requires
        cfg1.mode == cfg2.mode,
        cfg1.mode != PinyinNormalizeMode::FullPinyin,
        cfg1.lowercase == cfg2.lowercase,
    ensures
        normalize_spec(cfg1, s) == normalize_spec(cfg2, s),
{
    lemma_fold_sep_unused(cfg1.mode, cfg1.separator@, cfg2.separator@, s);
}

proof fn lemma_fold_first_letter_len(sep: Seq<char>, s: Seq<char>)
    ensures
        normalize_fold(PinyinNormalizeMode::FirstLetter, sep, s).0.len() == s.len(),
    decreases s.len(),
{
    if s.len() > 0 {
        lemma_fold_first_letter_len(sep, s.drop_last());
    }
}

/// Law: in first-letter mode every character gives exactly one character,
/// so the output is as long as the input.
pub proof fn lemma_first_letter_keeps_length(cfg: PinyinNormalizeConfig, s: Seq<char>)
    requires
        cfg.mode == PinyinNormalizeMode::FirstLetter,
    ensures
        normalize_spec(cfg, s).len() == s.len(),
{
    lemma_fold_first_letter_len(cfg.separator@, s);
}

/// What first-letter mode makes of one character: the first letter of a
/// Chinese character's primary reading, any other character unchanged.
pub open spec fn first_letter_char(c: char) -> char {
    if is_chinese_char(c) {
        match primary_of(c) {
            Some(p) => p[0],
            None => c,
        }
    } else {
        c
    }
}

proof fn lemma_fold_first_letter_chars(sep: Seq<char>, s: Seq<char>)
    ensures
        normalize_fold(PinyinNormalizeMode::FirstLetter, sep, s).0 == s.map_values(
            |c: char| first_letter_char(c),
        ),
    decreases s.len(),
{
    if s.len() > 0 {
        lemma_fold_first_letter_chars(sep, s.drop_last());
        assert(s.map_values(|c: char| first_letter_char(c)) =~= s.drop_last().map_values(
            |c: char| first_letter_char(c),
        ).push(first_letter_char(s.last())));
    } else {
        assert(s.map_values(|c: char| first_letter_char(c)) =~= Seq::<char>::empty());
    }
}

/// Law: first-letter mode works character by character: each Chinese
/// character with a primary reading becomes that reading's first letter,
/// every other character stays, and the result is ASCII-lowered when the
/// normalizer lower-cases.
pub proof fn lemma_first_letter_per_char(cfg: PinyinNormalizeConfig, s: Seq<char>)
    requires
        cfg.mode == PinyinNormalizeMode::FirstLetter,
    ensures
        normalize_spec(cfg, s) == (if cfg.lowercase {
            ascii_lower_seq(s.map_values(|c: char| first_letter_char(c)))
        } else {
            s.map_values(|c: char| first_letter_char(c))
        }),
{
    lemma_fold_first_letter_chars(cfg.separator@, s);
    if !has_chinese(s) {
        assert(s.map_values(|c: char| first_letter_char(c)) =~= s);
    }
}

/// No character of `s` is Chinese.
proof fn lemma_no_chinese_from_ascii(s: Seq<char>)
    requires
        crate::text::all_ascii(s),
    ensures
        !has_chinese(s),
{
    assert forall|i: int| 0 <= i < s.len() implies !is_chinese_char(#[trigger] s[i]) by {
        assert(crate::text::is_ascii_char(s[i]));
    }
}

/// A primary reading is ASCII.
proof fn lemma_primary_ascii(c: char)
    requires
        primary_of(c) is Some,
    ensures
        crate::text::all_ascii(primary_of(c)->0),
        primary_of(c)->0.len() > 0,
{
    lemma_syllable_table();
    let p = crate::dict::pinyin_primary(c)->0;
    crate::dict::lemma_first_index(crate::dict::syllables(), crate::dict::v_form(p));
}

proof fn lemma_fold_no_chinese(mode: PinyinNormalizeMode, sep: Seq<char>, s: Seq<char>)
    requires
        !has_chinese(sep),
        forall|i: int| 0 <= i < s.len() && is_chinese_char(#[trigger] s[i]) ==> primary_of(s[i]) is Some,
    ensures
        !has_chinese(normalize_fold(mode, sep, s).0),
    decreases s.len(),
{
    if s.len() > 0 {
        let d = s.drop_last();
        assert forall|i: int| 0 <= i < d.len() && is_chinese_char(#[trigger] d[i]) implies primary_of(d[i]) is Some by {
            assert(d[i] == s[i]);
        }
        lemma_fold_no_chinese(mode, sep, d);
        let prev = normalize_fold(mode, sep, d);
        let c = s.last();
        let out = normalize_fold(mode, sep, s).0;
        if is_chinese_char(c) {
            lemma_primary_ascii(c);
            lemma_no_chinese_from_ascii(primary_of(c)->0);
        }
        assert forall|i: int| 0 <= i < out.len() implies !is_chinese_char(#[trigger] out[i]) by {
            let o1 = prev.0 + sep;
            if i < prev.0.len() {
                assert(out[i] == prev.0[i]);
            } else if i < o1.len() && out.len() >= o1.len() && out.subrange(0, o1.len() as int) == o1 {
                assert(out[i] == o1[i]);
                assert(o1[i] == sep[i - prev.0.len()]);
            }
        }
    }
}

/// Law: when every Chinese character of the text has a reading and the
/// separator holds no Chinese character, normalizing a second time changes
/// nothing.
pub proof fn lemma_normalize_idempotent(cfg: PinyinNormalizeConfig, s: Seq<char>)
    requires
        !has_chinese(cfg.separator@),
        forall|i: int| 0 <= i < s.len() && is_chinese_char(#[trigger] s[i]) ==> primary_of(s[i]) is Some,
    ensures
        normalize_spec(cfg, normalize_spec(cfg, s)) == normalize_spec(cfg, s),
{
    let converted = if has_chinese(s) {
        lemma_fold_no_chinese(cfg.mode, cfg.separator@, s);
        normalize_fold(cfg.mode, cfg.separator@, s).0
    } else {
        s
    };
    let out = normalize_spec(cfg, s);
    assert(!has_chinese(out)) by {
        if cfg.lowercase {
            assert forall|i: int| 0 <= i < out.len() implies !is_chinese_char(#[trigger] out[i]) by {
                assert(out[i] == crate::text::ascii_lower(converted[i]));
                assert(!is_chinese_char(converted[i]));
            }
        }
    }
    if cfg.lowercase {
        assert(ascii_lower_seq(out) =~= out) by {
            assert forall|i: int| 0 <= i < out.len() implies #[trigger] ascii_lower_seq(out)[i] == out[i] by {
                assert(out[i] == crate::text::ascii_lower(converted[i]));
            }
        }
    }
}

} // verus!
