use pizza_analysis_pinyin::config::INVALID_CONFIG_MESSAGE;
use pizza_analysis_pinyin::PinyinConfig;

#[test]
fn default_matches_documented_values() {
    let c = PinyinConfig::default();
    assert!(c.lowercase && c.trim_whitespace && c.keep_none_chinese);
    assert!(c.keep_none_chinese_in_first_letter && !c.keep_none_chinese_in_joined_full_pinyin);
    assert!(!c.keep_original && c.keep_first_letter && !c.keep_separate_first_letter);
    assert!(c.keep_none_chinese_together && c.none_chinese_pinyin_tokenize);
    assert_eq!(c.limit_first_letter_length, 16);
    assert!(c.keep_full_pinyin && !c.keep_joined_full_pinyin && !c.remove_duplicate_term);
    assert!(!c.fixed_pinyin_offset && c.ignore_pinyin_offset && !c.keep_separate_chinese);
}

#[test]
fn validate_error_carries_message() {
    let cfg = PinyinConfig {
        keep_first_letter: false,
        keep_separate_first_letter: false,
        keep_full_pinyin: false,
        keep_joined_full_pinyin: false,
        keep_separate_chinese: false,
        ..PinyinConfig::default()
    };
    assert_eq!(cfg.validate(), Err(INVALID_CONFIG_MESSAGE));
}

#[test]
fn any_single_output_kind_is_enough() {
    let none = PinyinConfig {
        keep_first_letter: false,
        keep_separate_first_letter: false,
        keep_full_pinyin: false,
        keep_joined_full_pinyin: false,
        keep_separate_chinese: false,
        ..PinyinConfig::default()
    };
    let mut a = none.clone();
    a.keep_separate_chinese = true;
    assert!(a.validate().is_ok());
    let mut b = none.clone();
    b.keep_joined_full_pinyin = true;
    assert!(b.validate().is_ok());
    let mut c = none;
    c.keep_separate_first_letter = true;
    assert!(c.validate().is_ok());
}
