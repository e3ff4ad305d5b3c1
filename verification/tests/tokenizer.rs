use pizza_analysis_pinyin::Term;
use pizza_analysis_pinyin::{PinyinConfig, PinyinTokenizer, Rules, Token};

fn terms(toks: &[Token]) -> Vec<String> {
    toks.iter().map(|t| t.term.as_str().to_string()).collect()
}

#[test]
fn default_config_liudehua() {
    let tk = PinyinTokenizer::with_defaults();
    let t = tk.tokenize("刘德华");
    let ts = terms(&t);
    assert!(ts.contains(&"liu".to_string()));
    assert!(ts.contains(&"de".to_string()));
    assert!(ts.contains(&"hua".to_string()));
    assert!(ts.contains(&"ldh".to_string()));
}

#[test]
fn separate_first_letter_only() {
    let cfg = PinyinConfig {
        keep_first_letter: false,
        keep_separate_first_letter: true,
        keep_full_pinyin: false,
        ..PinyinConfig::default()
    };
    let tk = PinyinTokenizer::new(cfg);
    let t = tk.tokenize("刘德华");
    let ts = terms(&t);
    assert_eq!(ts, vec!["l", "d", "h"]);
}

#[test]
fn joined_full_pinyin() {
    let cfg = PinyinConfig {
        keep_first_letter: false,
        keep_full_pinyin: false,
        keep_joined_full_pinyin: true,
        ..PinyinConfig::default()
    };
    let tk = PinyinTokenizer::new(cfg);
    let t = tk.tokenize("刘德华");
    assert!(terms(&t).contains(&"liudehua".to_string()));
}

#[test]
fn rules_phrase_overrides_polyphone() {
    let rules = Rules::new().with_phrase("银行", &["yin", "hang"]);
    let tk = PinyinTokenizer::with_defaults().with_rules(rules);
    let t = tk.tokenize("银行家");
    let ts = terms(&t);
    assert!(ts.contains(&"hang".to_string()));
    assert!(ts.contains(&"yin".to_string()));
    assert!(ts.contains(&"jia".to_string()));
}

#[test]
fn rules_char_override() {
    let rules = Rules::new().with_char('重', &["chong"]);
    let tk = PinyinTokenizer::with_defaults().with_rules(rules);
    let t = tk.tokenize("重");
    assert!(terms(&t).contains(&"chong".to_string()));
}

fn triples(toks: &[Token]) -> Vec<(String, u32, u32, u32)> {
    toks.iter().map(|t| (t.term.as_str().to_string(), t.start_offset, t.end_offset, t.position)).collect()
}

#[test]
fn default_tokens_exactly() {
    let tk = PinyinTokenizer::with_defaults();
    let t = tk.tokenize("刘德华");
    assert_eq!(
        triples(&t),
        vec![
            ("liu".to_string(), 0, 3, 0),
            ("ldh".to_string(), 0, 3, 0),
            ("de".to_string(), 3, 6, 1),
            ("hua".to_string(), 6, 9, 2),
        ]
    );
}

#[test]
fn ascii_run_is_resegmented_with_offsets() {
    let tk = PinyinTokenizer::with_defaults();
    let t = tk.tokenize("liudehua");
    assert_eq!(
        triples(&t),
        vec![
            ("liu".to_string(), 0, 3, 0),
            ("liudehua".to_string(), 0, 8, 0),
            ("de".to_string(), 3, 5, 1),
            ("hua".to_string(), 5, 8, 2),
        ]
    );
}

#[test]
fn fixed_pinyin_offsets_advance_one_char() {
    let cfg = PinyinConfig { fixed_pinyin_offset: true, keep_first_letter: false, ..PinyinConfig::default() };
    let tk = PinyinTokenizer::new(cfg);
    let t = tk.tokenize("liudehua");
    assert_eq!(
        triples(&t),
        vec![
            ("liu".to_string(), 0, 1, 0),
            ("de".to_string(), 1, 2, 1),
            ("hua".to_string(), 2, 3, 2),
        ]
    );
}

#[test]
fn mixed_text_with_andy_lau() {
    let tk = PinyinTokenizer::with_defaults();
    let ts = terms(&tk.tokenize("刘德华 Andy Lau"));
    for want in ["liu", "de", "hua", "andy", "lau", "ldhandylau"] {
        assert!(ts.contains(&want.to_string()), "missing {}", want);
    }
}

#[test]
fn keep_original_is_lowered() {
    let cfg = PinyinConfig { keep_original: true, ..PinyinConfig::default() };
    let tk = PinyinTokenizer::new(cfg);
    let ts = terms(&tk.tokenize("ABC中"));
    assert!(ts.contains(&"abc中".to_string()));
    assert!(!ts.iter().any(|s| s.chars().any(|c| c.is_ascii_uppercase())));
}

#[test]
fn tokenizer_without_lowercasing_keeps_case() {
    let cfg = PinyinConfig {
        lowercase: false,
        none_chinese_pinyin_tokenize: false,
        keep_first_letter: false,
        ..PinyinConfig::default()
    };
    let tk = PinyinTokenizer::new(cfg);
    assert_eq!(terms(&tk.tokenize("Hi")), vec!["Hi"]);
}

#[test]
fn remove_duplicate_term_drops_repeats() {
    let cfg = PinyinConfig { remove_duplicate_term: true, keep_first_letter: false, ..PinyinConfig::default() };
    let tk = PinyinTokenizer::new(cfg);
    let ts = terms(&tk.tokenize("好好"));
    assert_eq!(ts, vec!["hao"]);
    let cfg2 = PinyinConfig { keep_first_letter: false, ..PinyinConfig::default() };
    let ts2 = terms(&PinyinTokenizer::new(cfg2).tokenize("好好"));
    assert_eq!(ts2, vec!["hao", "hao"]);
}

#[test]
fn first_letter_is_cut_to_the_limit() {
    let cfg = PinyinConfig { keep_full_pinyin: false, limit_first_letter_length: 2, ..PinyinConfig::default() };
    let tk = PinyinTokenizer::new(cfg);
    assert_eq!(terms(&tk.tokenize("刘德华")), vec!["ld"]);
    let cfg0 = PinyinConfig { keep_full_pinyin: false, limit_first_letter_length: 0, ..PinyinConfig::default() };
    let ts0 = terms(&PinyinTokenizer::new(cfg0).tokenize("中华人民共和国万岁万岁万岁万岁万岁"));
    assert_eq!(ts0[0].len(), 17);
}

#[test]
fn separate_chinese_and_letters() {
    let cfg = PinyinConfig {
        keep_separate_chinese: true,
        keep_separate_first_letter: true,
        keep_first_letter: false,
        ..PinyinConfig::default()
    };
    let tk = PinyinTokenizer::new(cfg);
    assert_eq!(
        triples(&tk.tokenize("刘")),
        vec![
            ("l".to_string(), 0, 3, 0),
            ("liu".to_string(), 0, 3, 0),
            ("刘".to_string(), 0, 3, 0),
        ]
    );
}

#[test]
fn ascii_letters_one_by_one() {
    let cfg = PinyinConfig { keep_none_chinese_together: false, keep_first_letter: false, ..PinyinConfig::default() };
    let tk = PinyinTokenizer::new(cfg);
    assert_eq!(
        triples(&tk.tokenize("ab")),
        vec![("a".to_string(), 0, 1, 0), ("b".to_string(), 1, 2, 1)]
    );
}

#[test]
fn empty_and_blank_text() {
    let tk = PinyinTokenizer::with_defaults();
    assert!(tk.tokenize("").is_empty());
    assert!(tk.tokenize("   ").is_empty());
}

#[test]
fn token_laws_hold_on_samples() {
    let cfgs = vec![
        PinyinConfig::default(),
        PinyinConfig { keep_original: true, keep_joined_full_pinyin: true, keep_separate_chinese: true, ..PinyinConfig::default() },
        PinyinConfig { remove_duplicate_term: true, keep_separate_first_letter: true, ..PinyinConfig::default() },
        PinyinConfig { fixed_pinyin_offset: true, keep_none_chinese_together: false, ..PinyinConfig::default() },
    ];
    let texts = ["刘德华 Andy Lau", "好好学习天天向上", "liudehua", "Hello中国World 123", "我爱北京天安门！ok"];
    for cfg in cfgs {
        let dedup = cfg.remove_duplicate_term;
        let tk = PinyinTokenizer::new(cfg);
        for text in texts {
            let t = tk.tokenize(text);
            if let Some(first) = t.first() {
                assert_eq!(first.position, 0);
            }
            for w in t.windows(2) {
                assert!(w[1].position == w[0].position || w[1].position == w[0].position + 1);
            }
            for tok in &t {
                assert!(!tok.term.as_str().is_empty());
                assert!(tok.start_offset <= tok.end_offset);
            }
            for i in 0..t.len() {
                for j in i + 1..t.len() {
                    if t[i].term.as_str() == t[j].term.as_str() {
                        assert!(!dedup);
                        assert_ne!(t[i].position, t[j].position);
                    }
                }
            }
        }
    }
}

#[test]
fn tokenizer_accessors() {
    let rules = Rules::new().with_char('重', &["chong"]);
    let tk = PinyinTokenizer::with_defaults().with_rules(rules);
    assert!(tk.config().keep_full_pinyin);
    assert!(!tk.rules().is_empty());
    let tk2 = tk.clone();
    assert_eq!(terms(&tk2.tokenize("重")), terms(&tk.tokenize("重")));
}

#[test]
fn keep_original_lowers_unicode_letters() {
    let cfg = PinyinConfig { keep_original: true, keep_first_letter: false, ..PinyinConfig::default() };
    let tk = PinyinTokenizer::new(cfg);
    let ts = terms(&tk.tokenize("ÄB中"));
    assert!(ts.contains(&"äb中".to_string()));
}

#[test]
fn can_tokenize_checks_rule_readings() {
    let plain = PinyinTokenizer::with_defaults()
        .with_rules(Rules::new().with_char('重', &["ê"]));
    assert!(plain.can_tokenize("重"));
    let cfg = PinyinConfig { keep_separate_first_letter: true, ..PinyinConfig::default() };
    let sep = PinyinTokenizer::new(cfg).with_rules(Rules::new().with_char('重', &["ê"]));
    assert!(!sep.can_tokenize("重"));
    assert!(sep.can_tokenize("中"));
    assert!(sep.can_tokenize(""));
}

#[test]
fn separate_chinese_borrows_from_input() {
    let cfg = PinyinConfig {
        keep_separate_chinese: true,
        ..PinyinConfig::default()
    };
    let tk = PinyinTokenizer::new(cfg);
    let text = String::from("刘德华");
    let t = tk.tokenize(&text);
    let has_borrowed_input = t.iter().any(|tk| {
        matches!(tk.term, Term::Borrowed(s) if s.as_ptr() >= text.as_ptr()
                 && (s.as_ptr() as usize) < text.as_ptr() as usize + text.len())
    });
    assert!(has_borrowed_input, "no token borrowed from input");
}

#[test]
fn syllables_are_borrowed_static() {
    let tk = PinyinTokenizer::with_defaults();
    let t = tk.tokenize("刘");
    let liu = t.iter().find(|tk| tk.term.as_str() == "liu").unwrap();
    assert!(matches!(liu.term, Term::Borrowed(_)));
}

#[test]
fn pinyin_runs_split_other_runs_stay_whole() {
    let tk = PinyinTokenizer::with_defaults();
    let ts = terms(&tk.tokenize("woaini hello"));
    for want in ["wo", "ai", "ni", "hello"] {
        assert!(ts.contains(&want.to_string()), "missing {}", want);
    }
    assert!(!ts.contains(&"he".to_string()));
}

#[test]
fn lowered_ascii_pieces_are_owned_others_borrowed() {
    let tk = PinyinTokenizer::with_defaults();
    let t = tk.tokenize("LiuDehua");
    let liu = t.iter().find(|tk| tk.term.as_str() == "liu").unwrap();
    assert!(matches!(liu.term, Term::Owned(_)));
    let hua = t.iter().find(|tk| tk.term.as_str() == "hua").unwrap();
    assert!(matches!(hua.term, Term::Borrowed(_)));
}

#[test]
fn lowercasing_leaves_no_ascii_upper_in_mixed_text() {
    let cfg = PinyinConfig { keep_original: true, ..PinyinConfig::default() };
    let tk = PinyinTokenizer::new(cfg);
    let t = tk.tokenize("Éric LIU 刘");
    assert!(!t.is_empty());
    for tok in &t {
        assert!(!tok.term.as_str().chars().any(|c| c.is_ascii_uppercase()), "{}", tok.term.as_str());
    }
    assert!(terms(&t).contains(&"éric liu 刘".to_string()));
}

#[test]
fn joined_pinyin_is_owned_original_is_borrowed() {
    let cfg = PinyinConfig {
        keep_original: true,
        keep_joined_full_pinyin: true,
        keep_first_letter: false,
        ..PinyinConfig::default()
    };
    let tk = PinyinTokenizer::new(cfg);
    let t = tk.tokenize("刘德");
    let joined = t.iter().find(|tk| tk.term.as_str() == "liude").unwrap();
    assert!(matches!(joined.term, Term::Owned(_)));
    let orig = t.iter().find(|tk| tk.term.as_str() == "刘德").unwrap();
    assert!(matches!(orig.term, Term::Borrowed(_)));
}

#[test]
fn cloned_token_keeps_term_and_borrow() {
    let tk = PinyinTokenizer::with_defaults();
    let t = tk.tokenize("刘");
    let liu = t.iter().find(|tk| tk.term.as_str() == "liu").unwrap();
    let c = liu.clone();
    assert_eq!(c.term.as_str(), "liu");
    assert!(matches!(c.term, Term::Borrowed(_)));
    assert_eq!((c.start_offset, c.end_offset, c.position), (liu.start_offset, liu.end_offset, liu.position));
}
