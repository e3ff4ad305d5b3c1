//! Configuration for [`crate::PinyinTokenizer`]: which kinds of token to
//! emit, and how to normalize them.

use vstd::prelude::*;

verus! {

/// What [`PinyinConfig::validate`] reports when every output kind is off.
pub const INVALID_CONFIG_MESSAGE: &'static str =
    "pinyin config error: can't disable separate_first_letter, first_letter, full_pinyin, joined_full_pinyin and separate_chinese at the same time.";

#[derive(Debug, Clone, Copy)]
pub struct PinyinConfig {
    /// Lowercase every emitted term.
    pub lowercase: bool,
    /// Trim leading/trailing whitespace from every emitted term.
    pub trim_whitespace: bool,
    /// Emit non-Chinese characters (ASCII letters / digits) as tokens.
    pub keep_none_chinese: bool,
    /// Include non-Chinese characters in the joined first-letter token.
    pub keep_none_chinese_in_first_letter: bool,
    /// Include non-Chinese characters in the joined full-pinyin token.
    pub keep_none_chinese_in_joined_full_pinyin: bool,
    /// Emit the original input as a token.
    pub keep_original: bool,
    /// Emit the joined first letters (e.g. `刘德华` -> `ldh`) as a token.
    pub keep_first_letter: bool,
    /// Emit each first letter as a separate token (e.g. `刘德华` -> `l`, `d`, `h`).
    pub keep_separate_first_letter: bool,
    /// Keep consecutive non-Chinese characters in a single token instead of
    /// splitting them character by character.
    pub keep_none_chinese_together: bool,
    /// Re-segment a chunk of consecutive ASCII letters as if it were pinyin
    /// (`liudehua` -> `liu`, `de`, `hua`).
    pub none_chinese_pinyin_tokenize: bool,
    /// Max length of the joined first-letter token. `0` disables truncation.
    pub limit_first_letter_length: usize,
    /// Emit each character's full pinyin (e.g. `刘` -> `liu`).
    pub keep_full_pinyin: bool,
    /// Emit a single joined full-pinyin token (e.g. `刘德华` -> `liudehua`).
    pub keep_joined_full_pinyin: bool,
    /// Drop duplicate terms regardless of position.
    pub remove_duplicate_term: bool,
    /// Use fixed (1-char) offsets when re-tokenizing ASCII pinyin strings.
    pub fixed_pinyin_offset: bool,
    /// When true (default), do not attach real offsets to pinyin tokens
    /// (relaxed-offset mode).
    pub ignore_pinyin_offset: bool,
    /// Emit each Chinese character as its own token alongside its pinyin.
    pub keep_separate_chinese: bool,
}

impl PinyinConfig {
    /// At least one output kind is enabled.
    pub open spec fn is_valid(&self) -> bool {
        self.keep_first_letter || self.keep_separate_first_letter || self.keep_full_pinyin
            || self.keep_joined_full_pinyin || self.keep_separate_chinese
    }

    /// The configuration that [`Default::default`] gives.
    pub open spec fn is_default(&self) -> bool {
        &&& self.lowercase
        &&& self.trim_whitespace
        &&& self.keep_none_chinese
        &&& self.keep_none_chinese_in_first_letter
        &&& !self.keep_none_chinese_in_joined_full_pinyin
        &&& !self.keep_original
        &&& self.keep_first_letter
        &&& !self.keep_separate_first_letter
        &&& self.keep_none_chinese_together
        &&& self.none_chinese_pinyin_tokenize
        &&& self.limit_first_letter_length == 16
        &&& self.keep_full_pinyin
        &&& !self.keep_joined_full_pinyin
        &&& !self.remove_duplicate_term
        &&& !self.fixed_pinyin_offset
        &&& self.ignore_pinyin_offset
        &&& !self.keep_separate_chinese
    }

    /// Validate the configuration — at least one output kind must be enabled.
    pub fn validate(&self) -> (r: Result<(), &'static str>)
        ensures
            r is Ok <==> self.is_valid(),
            r matches Err(m) ==> m == INVALID_CONFIG_MESSAGE,
    {
        if !(self.keep_first_letter || self.keep_separate_first_letter || self.keep_full_pinyin
            || self.keep_joined_full_pinyin || self.keep_separate_chinese) {
            return Err(INVALID_CONFIG_MESSAGE);
        }
        Ok(())
    }
}

impl Default for PinyinConfig {
    fn default() -> (r: Self)
        ensures
            r.is_default(),
    {
        Self {
            lowercase: true,
            trim_whitespace: true,
            keep_none_chinese: true,
            keep_none_chinese_in_first_letter: true,
            keep_none_chinese_in_joined_full_pinyin: false,
            keep_original: false,
            keep_first_letter: true,
            keep_separate_first_letter: false,
            keep_none_chinese_together: true,
            none_chinese_pinyin_tokenize: true,
            limit_first_letter_length: 16,
            keep_full_pinyin: true,
            keep_joined_full_pinyin: false,
            remove_duplicate_term: false,
            fixed_pinyin_offset: false,
            ignore_pinyin_offset: true,
            keep_separate_chinese: false,
        }
    }
}

/// Law: the default configuration is valid.
pub proof fn lemma_default_config_valid(c: PinyinConfig)
    requires
        c.is_default(),
    ensures
        c.is_valid(),
{
}

} // verus!
