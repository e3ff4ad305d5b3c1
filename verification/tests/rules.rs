use pizza_analysis_pinyin::{Reading, Rules};

#[test]
fn char_override_applies() {
    let r = Rules::new().with_char('刘', &["LIU"]);
    let v = r.char_readings('刘').unwrap();
    assert_eq!(v[0].as_str(), "LIU");
}

#[test]
fn phrase_override_matches_longest() {
    let r = Rules::new()
        .with_phrase("银行", &["yin", "hang"])
        .with_phrase("银", &["yin"]);
    let chars: Vec<char> = "银行家".chars().collect();
    let hit = r.match_phrase(&chars, 0).unwrap();
    assert_eq!(hit.char_len, 2);
    assert_eq!(hit.readings[0].as_str(), "yin");
    assert_eq!(hit.readings[1].as_str(), "hang");
}

#[test]
fn no_match_for_other_text() {
    let r = Rules::new().with_phrase("银行", &["yin", "hang"]);
    let chars: Vec<char> = "你好".chars().collect();
    assert!(r.match_phrase(&chars, 0).is_none());
}

#[test]
fn known_syllables_are_interned() {
    let r = Rules::new().with_char('重', &["chong", "Zzz"]);
    let v = r.char_readings('重').unwrap();
    assert!(matches!(v[0], Reading::Static("chong")));
    assert!(matches!(&v[1], Reading::Owned(s) if s == "Zzz"));
    assert_eq!(v[1].first_letter(), b'Z');
}

#[test]
fn empty_override_removes_char_rule() {
    let mut r = Rules::new();
    r.override_char('重', &["chong"]).override_char('长', &["zhang"]);
    assert!(r.char_readings('长').is_some());
    r.override_char('重', &[]);
    assert!(r.char_readings('重').is_none());
    assert!(r.char_readings('长').is_some());
}

#[test]
fn mismatched_phrase_is_ignored() {
    let r = Rules::new().with_phrase("银行", &["yin"]).with_phrase("", &[]);
    assert!(r.is_empty());
    let chars: Vec<char> = "银行".chars().collect();
    assert!(r.match_phrase(&chars, 0).is_none());
}

#[test]
fn later_phrase_override_wins() {
    let r = Rules::new()
        .with_phrase("银行", &["yin", "xing"])
        .with_phrase("银行", &["yin", "hang"]);
    let chars: Vec<char> = "去银行".chars().collect();
    let hit = r.match_phrase(&chars, 1).unwrap();
    assert_eq!(hit.char_len, 2);
    assert_eq!(hit.readings[1].as_str(), "hang");
    assert!(r.match_phrase(&chars, 0).is_none());
    assert!(r.match_phrase(&chars, 3).is_none());
}

#[test]
fn phrase_too_long_for_the_rest_does_not_match() {
    let r = Rules::new().with_phrase("银行家", &["yin", "hang", "jia"]);
    let chars: Vec<char> = "银行".chars().collect();
    assert!(r.match_phrase(&chars, 0).is_none());
}

#[test]
fn cloned_rules_keep_overrides() {
    let r = Rules::new().with_char('刘', &["liu"]).with_phrase("银行", &["yin", "hang"]);
    let c = r.clone();
    assert_eq!(c.char_readings('刘').unwrap()[0].as_str(), "liu");
    let chars: Vec<char> = "银行".chars().collect();
    assert_eq!(c.match_phrase(&chars, 0).unwrap().char_len, 2);
    assert!(!c.is_empty());
    assert!(Rules::default().is_empty());
}

fn sid(s: &str) -> u16 {
    pizza_analysis_pinyin::PinyinDict::syllable_id(s).unwrap().0
}

#[test]
fn phrase_table_loads_first_entry_and_keeps_existing() {
    let keys = ["银行", "行长", "银行", "好"];
    let data = [sid("yin"), sid("hang"), sid("hang"), sid("zhang"), sid("yin"), sid("xing")];
    let ptr = [0u32, 2, 4, 6, 6];
    let r = Rules::new()
        .with_phrase("行长", &["xing", "zhang"])
        .with_phrase_table(&keys, &ptr, &data);
    let yh: Vec<char> = "银行".chars().collect();
    let hit = r.match_phrase(&yh, 0).unwrap();
    assert_eq!(hit.char_len, 2);
    assert_eq!(hit.readings[0].as_str(), "yin");
    assert_eq!(hit.readings[1].as_str(), "hang");
    assert!(matches!(hit.readings[1], Reading::Static("hang")));
    let hz: Vec<char> = "行长".chars().collect();
    let hit2 = r.match_phrase(&hz, 0).unwrap();
    assert_eq!(hit2.readings[0].as_str(), "xing");
    let hao: Vec<char> = "好".chars().collect();
    assert!(r.match_phrase(&hao, 0).is_none());
}

#[test]
fn empty_phrase_table_changes_nothing() {
    let r = Rules::new().with_phrase_table(&[], &[0], &[]);
    assert!(r.is_empty());
}

#[test]
fn reading_from_str_interns_known_syllables() {
    let r = Reading::from("liu");
    assert!(matches!(r, Reading::Static(_)));
    assert_eq!(r.as_str(), "liu");
    let o = Reading::from("LIU");
    assert!(matches!(o, Reading::Owned(_)));
    assert_eq!(o.as_str(), "LIU");
    let c = o.clone();
    assert!(matches!(c, Reading::Owned(_)));
    assert_eq!(c.as_str(), "LIU");
}
