use pizza_analysis_pinyin::dict::ids_from_readings;
use pizza_analysis_pinyin::{PinyinDict, SyllableId};

#[test]
fn primary_is_correct() {
    assert_eq!(PinyinDict::primary('刘'), Some("liu"));
    assert_eq!(PinyinDict::primary('德'), Some("de"));
    assert_eq!(PinyinDict::primary('华'), Some("hua"));
    assert_eq!(PinyinDict::primary('A'), None);
}

#[test]
fn polyphone_readings() {
    let rs: Vec<&str> = PinyinDict::readings('中');
    assert!(rs.contains(&"zhong"));
    assert!(rs.len() >= 1);
    let rs2: Vec<&str> = PinyinDict::readings('行');
    assert!(rs2.contains(&"xing") || rs2.contains(&"hang"));
    assert!(rs2.len() >= 2);
}

#[test]
fn homophone_lookup() {
    let liu = PinyinDict::homophones("liu");
    assert!(liu.contains(&'刘'));
    assert!(PinyinDict::homophones("doesnotexist").is_empty());
}

#[test]
fn alphabet_membership() {
    assert!(PinyinDict::is_alphabet_syllable("liu"));
    assert!(PinyinDict::is_alphabet_syllable("zhuang"));
    assert!(!PinyinDict::is_alphabet_syllable("xyz"));
}

#[test]
fn readings_start_with_primary() {
    for c in ['中', '行', '刘', '重', '长', '乐'] {
        let rs = PinyinDict::readings(c);
        assert_eq!(rs.first().copied(), PinyinDict::primary(c));
        let ids = PinyinDict::reading_ids(c);
        assert_eq!(ids.first().copied(), PinyinDict::primary_id(c));
    }
}

#[test]
fn readings_are_listed_once() {
    for c in ['中', '行', '长', '乐', '还'] {
        let ids = PinyinDict::reading_ids(c);
        for i in 0..ids.len() {
            for j in i + 1..ids.len() {
                assert_ne!(ids[i], ids[j]);
            }
        }
    }
}

#[test]
fn readings_outside_range_are_empty() {
    assert!(PinyinDict::readings('A').is_empty());
    assert!(PinyinDict::reading_ids('😊').is_empty());
    assert!(PinyinDict::primary_id('\u{4DFF}').is_none());
}

#[test]
fn polyphone_flags() {
    assert!(PinyinDict::is_polyphone('行'));
    assert!(!PinyinDict::is_polyphone('刘'));
    assert!(!PinyinDict::is_polyphone('x'));
}

#[test]
fn homophones_all_read_as_the_syllable() {
    let id = PinyinDict::syllable_id("hua").unwrap();
    let hs = PinyinDict::homophones("hua");
    assert!(hs.contains(&'华'));
    assert!(hs.windows(2).all(|w| w[0] < w[1]));
    for c in hs {
        assert!(PinyinDict::reading_ids(c).contains(&id));
    }
}

#[test]
fn syllable_ids_round_trip() {
    let id = PinyinDict::syllable_id("zhong").unwrap();
    assert_eq!(id.as_str(), "zhong");
    assert_eq!(id.first_letter(), b'z');
    assert_eq!(PinyinDict::syllable_id("xyz"), None);
    assert_eq!(PinyinDict::syllable_id(""), None);
}

#[test]
fn all_syllables_are_sorted_and_known() {
    let all = PinyinDict::all_syllables();
    assert!(all.len() > 400);
    assert!(all.windows(2).all(|w| w[0] < w[1]));
    for (i, s) in all.iter().enumerate() {
        assert_eq!(PinyinDict::syllable_id(s), Some(SyllableId(i as u16)));
        assert!(!s.is_empty());
        assert!(s.bytes().all(|b| b.is_ascii_lowercase()));
    }
}

#[test]
fn alphabet_holds_initials() {
    assert!(PinyinDict::is_alphabet_syllable("zh"));
    assert!(PinyinDict::is_alphabet_syllable("lv"));
    assert!(!PinyinDict::is_alphabet_syllable("Liu"));
    assert!(!PinyinDict::is_alphabet_syllable(""));
}

#[test]
fn ids_from_readings_keeps_known_once() {
    let zhong = PinyinDict::syllable_id("zhong").unwrap();
    let hang = PinyinDict::syllable_id("hang").unwrap();
    let ids = ids_from_readings(&["zhong", "xyz", "zhong", "hang"]);
    assert_eq!(ids, vec![zhong, hang]);
    assert!(ids_from_readings(&[]).is_empty());
}

#[test]
fn u_umlaut_is_written_v() {
    assert_eq!(PinyinDict::primary('绿'), Some("lv"));
    assert_eq!(PinyinDict::primary('女'), Some("nv"));
    assert!(PinyinDict::readings('绿').iter().all(|r| r.is_ascii()));
    assert!(PinyinDict::homophones("lv").contains(&'绿'));
    assert_eq!(PinyinDict::syllable_id("lü"), None);
}
