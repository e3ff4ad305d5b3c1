use pizza_analysis_pinyin::{PinyinNormalizeConfig, PinyinNormalizeMode, PinyinNormalizer};

#[test]
fn test_full_pinyin() {
    let n = PinyinNormalizer::new(PinyinNormalizeConfig {
        mode: PinyinNormalizeMode::FullPinyin,
        separator: " ",
        lowercase: true,
    });
    let mut text = String::from("刘德华");
    n.normalize(&mut text);
    assert_eq!(text, "liu de hua");
}

#[test]
fn test_joined_pinyin() {
    let n = PinyinNormalizer::new(PinyinNormalizeConfig {
        mode: PinyinNormalizeMode::JoinedPinyin,
        separator: " ",
        lowercase: true,
    });
    let mut text = String::from("刘德华");
    n.normalize(&mut text);
    assert_eq!(text, "liudehua");
}

#[test]
fn test_first_letter() {
    let n = PinyinNormalizer::new(PinyinNormalizeConfig {
        mode: PinyinNormalizeMode::FirstLetter,
        separator: "",
        lowercase: true,
    });
    let mut text = String::from("刘德华");
    n.normalize(&mut text);
    assert_eq!(text, "ldh");
}

#[test]
fn test_mixed_content() {
    let n = PinyinNormalizer::with_defaults();
    let mut text = String::from("hello刘德华world");
    n.normalize(&mut text);
    assert_eq!(text, "hello liu de hua world");
}

#[test]
fn test_pure_ascii_unchanged() {
    let n = PinyinNormalizer::with_defaults();
    let mut text = String::from("hello world");
    n.normalize(&mut text);
    assert_eq!(text, "hello world");
}

#[test]
fn ascii_only_text_is_lowered() {
    let n = PinyinNormalizer::with_defaults();
    let mut text = String::from("Hello World");
    n.normalize(&mut text);
    assert_eq!(text, "hello world");
}

#[test]
fn no_lowercasing_keeps_case() {
    let n = PinyinNormalizer::new(PinyinNormalizeConfig {
        mode: PinyinNormalizeMode::FullPinyin,
        separator: "-",
        lowercase: false,
    });
    let mut text = String::from("Hi刘德华");
    n.normalize(&mut text);
    assert_eq!(text, "Hi-liu-de-hua");
}

#[test]
fn whitespace_after_pinyin_needs_no_separator() {
    let n = PinyinNormalizer::with_defaults();
    let mut text = String::from("刘 德");
    n.normalize(&mut text);
    assert_eq!(text, "liu de");
}

#[test]
fn separator_unused_outside_full_pinyin() {
    for sep in ["", " ", "--"] {
        let n = PinyinNormalizer::new(PinyinNormalizeConfig {
            mode: PinyinNormalizeMode::JoinedPinyin,
            separator: sep,
            lowercase: true,
        });
        let mut text = String::from("中国 人");
        n.normalize(&mut text);
        assert_eq!(text, "zhongguo ren");
    }
}

#[test]
fn first_letter_mode_keeps_length() {
    let n = PinyinNormalizer::new(PinyinNormalizeConfig {
        mode: PinyinNormalizeMode::FirstLetter,
        separator: " ",
        lowercase: true,
    });
    let mut text = String::from("我爱ABC中国");
    let before = text.chars().count();
    n.normalize(&mut text);
    assert_eq!(text, "waabczg");
    assert_eq!(text.chars().count(), before);
}

#[test]
fn default_config_is_full_pinyin_with_space() {
    let cfg = PinyinNormalizeConfig::default();
    assert_eq!(cfg.mode, PinyinNormalizeMode::FullPinyin);
    assert_eq!(cfg.separator, " ");
    assert!(cfg.lowercase);
}
