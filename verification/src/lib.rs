//! Chinese-to-pinyin analysis: a pinyin dictionary, a pinyin-string
//! segmenter, a normalizer, user rules and a tokenizer.

pub mod alphabet;
pub mod config;
pub mod dict;
pub mod normalizer;
pub mod rules;
pub mod text;
pub mod tokenizer;

pub use config::PinyinConfig;
pub use dict::{PinyinDict, SyllableId};
pub use normalizer::{PinyinNormalizeConfig, PinyinNormalizeMode, PinyinNormalizer};
pub use rules::{Reading, Rules};
pub use tokenizer::{PinyinTokenizer, Term, Token};

/// The alphabet re-segmentation helper, for callers that want the pinyin
/// max-matching outside the tokenizer.
pub use alphabet::walk as segment_pinyin_alphabet;
