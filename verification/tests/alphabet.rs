use pizza_analysis_pinyin::alphabet::{walk, walk_into};
use pizza_analysis_pinyin::segment_pinyin_alphabet;

#[test]
fn splits_known_pinyin_string() {
    let r = walk("liudehua");
    assert_eq!(r, vec!["liu", "de", "hua"]);
}

#[test]
fn keeps_unknown_chunks() {
    let r = walk("andy");
    assert_eq!(r, vec!["an", "d", "y"]);
}

#[test]
fn mixed_separator() {
    let r = walk("liu de");
    assert_eq!(r, vec!["liu", " ", "de"]);
}

#[test]
fn handles_uppercase() {
    let r = walk("LiuDeHua");
    assert_eq!(r, vec!["liu", "de", "hua"]);
}

#[test]
fn walk_into_borrows_lowered_buffer() {
    let mut buf = String::from("leftover");
    let r = walk_into("ZhongGuo", &mut buf);
    assert_eq!(r, vec!["zhong", "guo"]);
    assert_eq!(buf, "zhongguo");
}

#[test]
fn walk_empty_text_gives_nothing() {
    assert!(walk("").is_empty());
}

#[test]
fn walk_single_letter_chunks_stay_whole() {
    assert_eq!(walk("a1b"), vec!["a", "1", "b"]);
}

#[test]
fn walk_digit_runs_are_one_piece() {
    assert_eq!(walk("liu123de"), vec!["liu", "123", "de"]);
}

#[test]
fn walk_pieces_reassemble_to_lowered_input() {
    for text in ["liudehua", "XiAnRen", "andy lau", "zhuangzhuang", "qwrtz", "a-b-c"] {
        let pieces = walk(text);
        assert!(pieces.iter().all(|p| !p.is_empty()));
        assert_eq!(pieces.concat(), text.to_ascii_lowercase());
    }
}

#[test]
fn reexported_segmenter_is_walk() {
    assert_eq!(segment_pinyin_alphabet("woaini"), walk("woaini"));
}
