//! The bundled pinyin dictionary.
//!
//! Readings of the characters of the CJK Unified Ideographs block
//! (`U+4E00..U+A000`) come from the `pinyin` crate; they are mapped onto
//! [`SYLLABLES`], a sorted table of plain (toneless, lowercase) syllables,
//! so that a reading can be stored as a compact [`SyllableId`].
//! [`ALPHABET_NAMES`] is the syllable alphabet used to re-segment strings of
//! ASCII letters as pinyin.

use pinyin::{ToPinyin, ToPinyinMulti};
use vstd::prelude::*;
use vstd::string::StrSliceExecFns;

use crate::text::{all_ascii, char_from_u32, str_chars, str_eq, string_from_chars};

verus! {

/// First code point covered by the dictionary.
pub const CJK_START: u32 = 0x4E00;

/// One past the last code point covered by the dictionary.
pub const CJK_END_EXCL: u32 = 0xA000;

/// Number of entries of [`SYLLABLES`].
pub const SYLLABLE_COUNT: usize = 440;

/// Every plain syllable the dictionary knows, sorted, in ASCII (`ü` is
/// written `v`).
pub const SYLLABLES: [&'static str; 440] = [
    "a", "ai", "an", "ang", "ao", "b", "ba", "bai", "ban", "bang", "bao", "bei", "ben", "beng",
    "bi", "bian", "biao", "bie", "bin", "bing", "bo", "bu", "c", "ca", "cai", "can", "cang",
    "cao", "ce", "cen", "ceng", "ch", "cha", "chai", "chan", "chang", "chao", "che", "chen",
    "cheng", "chi", "chong", "chou", "chu", "chua", "chuai", "chuan", "chuang", "chui", "chun",
    "chuo", "ci", "cong", "cou", "cu", "cuan", "cui", "cun", "cuo", "d", "da", "dai", "dan",
    "dang", "dao", "de", "dei", "den", "deng", "di", "dia", "dian", "diao", "die", "ding",
    "diu", "dong", "dou", "du", "duan", "dui", "dun", "duo", "e", "ei", "en", "eng", "er", "f",
    "fa", "fan", "fang", "fei", "fen", "feng", "fiao", "fo", "fou", "fu", "g", "ga", "gai",
    "gan", "gang", "gao", "ge", "gei", "gen", "geng", "gong", "gou", "gu", "gua", "guai",
    "guan", "guang", "gui", "gun", "guo", "h", "ha", "hai", "han", "hang", "hao", "he", "hei",
    "hen", "heng", "hm", "hng", "hong", "hou", "hu", "hua", "huai", "huan", "huang", "hui",
    "hun", "huo", "j", "ji", "jia", "jian", "jiang", "jiao", "jie", "jin", "jing", "jiong",
    "jiu", "ju", "juan", "jue", "jun", "k", "ka", "kai", "kan", "kang", "kao", "ke", "kei",
    "ken", "keng", "kong", "kou", "ku", "kua", "kuai", "kuan", "kuang", "kui", "kun", "kuo",
    "l", "la", "lai", "lan", "lang", "lao", "le", "lei", "len", "leng", "li", "lia", "lian",
    "liang", "liao", "lie", "lin", "ling", "liu", "lo", "long", "lou", "lu", "luan", "lun",
    "luo", "lv", "lve", "m", "ma", "mai", "man", "mang", "mao", "me", "mei", "men", "meng",
    "mi", "mian", "miao", "mie", "min", "ming", "miu", "mo", "mou", "mu", "n", "na", "nai",
    "nan", "nang", "nao", "ne", "nei", "nen", "neng", "ng", "ni", "nian", "niang", "niao",
    "nie", "nin", "ning", "niu", "nong", "nou", "nu", "nuan", "nun", "nuo", "nv", "nve", "o",
    "ou", "p", "pa", "pai", "pan", "pang", "pao", "pei", "pen", "peng", "pi", "pian", "piao",
    "pie", "pin", "ping", "po", "pou", "pu", "q", "qi", "qia", "qian", "qiang", "qiao", "qie",
    "qin", "qing", "qiong", "qiu", "qu", "quan", "que", "qun", "r", "ran", "rang", "rao", "re",
    "ren", "reng", "ri", "rong", "rou", "ru", "rua", "ruan", "rui", "run", "ruo", "s", "sa",
    "sai", "san", "sang", "sao", "se", "sen", "seng", "sh", "sha", "shai", "shan", "shang",
    "shao", "she", "shei", "shen", "sheng", "shi", "shou", "shu", "shua", "shuai", "shuan",
    "shuang", "shui", "shun", "shuo", "si", "song", "sou", "su", "suan", "sui", "sun", "suo",
    "t", "ta", "tai", "tan", "tang", "tao", "te", "tei", "teng", "ti", "tian", "tiao", "tie",
    "ting", "tong", "tou", "tu", "tuan", "tui", "tun", "tuo", "w", "wa", "wai", "wan", "wang",
    "wei", "wen", "weng", "wo", "wu", "x", "xi", "xia", "xian", "xiang", "xiao", "xie", "xin",
    "xing", "xiong", "xiu", "xu", "xuan", "xue", "xun", "y", "ya", "yan", "yang", "yao", "ye",
    "yi", "yin", "ying", "yo", "yong", "you", "yu", "yuan", "yue", "yun", "z", "za", "zai",
    "zan", "zang", "zao", "ze", "zei", "zen", "zeng", "zh", "zha", "zhai", "zhan", "zhang",
    "zhao", "zhe", "zhei", "zhen", "zheng", "zhi", "zhong", "zhou", "zhu", "zhua", "zhuai",
    "zhuan", "zhuang", "zhui", "zhun", "zhuo", "zi", "zong", "zou", "zu", "zuan", "zui", "zun",
    "zuo",
];

/// Number of entries of [`ALPHABET_NAMES`].
pub const ALPHABET_COUNT: usize = 440;

/// The pinyin alphabet used by the ASCII re-segmenter, sorted: every plain
/// ASCII syllable plus the initials that may stand alone.
pub const ALPHABET_NAMES: [&'static str; 440] = [
    "a", "ai", "an", "ang", "ao", "b", "ba", "bai", "ban", "bang", "bao", "bei", "ben", "beng",
    "bi", "bian", "biao", "bie", "bin", "bing", "bo", "bu", "c", "ca", "cai", "can", "cang",
    "cao", "ce", "cen", "ceng", "ch", "cha", "chai", "chan", "chang", "chao", "che", "chen",
    "cheng", "chi", "chong", "chou", "chu", "chua", "chuai", "chuan", "chuang", "chui", "chun",
    "chuo", "ci", "cong", "cou", "cu", "cuan", "cui", "cun", "cuo", "d", "da", "dai", "dan",
    "dang", "dao", "de", "dei", "den", "deng", "di", "dia", "dian", "diao", "die", "ding",
    "diu", "dong", "dou", "du", "duan", "dui", "dun", "duo", "e", "ei", "en", "eng", "er", "f",
    "fa", "fan", "fang", "fei", "fen", "feng", "fiao", "fo", "fou", "fu", "g", "ga", "gai",
    "gan", "gang", "gao", "ge", "gei", "gen", "geng", "gong", "gou", "gu", "gua", "guai",
    "guan", "guang", "gui", "gun", "guo", "h", "ha", "hai", "han", "hang", "hao", "he", "hei",
    "hen", "heng", "hm", "hng", "hong", "hou", "hu", "hua", "huai", "huan", "huang", "hui",
    "hun", "huo", "j", "ji", "jia", "jian", "jiang", "jiao", "jie", "jin", "jing", "jiong",
    "jiu", "ju", "juan", "jue", "jun", "k", "ka", "kai", "kan", "kang", "kao", "ke", "kei",
    "ken", "keng", "kong", "kou", "ku", "kua", "kuai", "kuan", "kuang", "kui", "kun", "kuo",
    "l", "la", "lai", "lan", "lang", "lao", "le", "lei", "len", "leng", "li", "lia", "lian",
    "liang", "liao", "lie", "lin", "ling", "liu", "lo", "long", "lou", "lu", "luan", "lun",
    "luo", "lv", "lve", "m", "ma", "mai", "man", "mang", "mao", "me", "mei", "men", "meng",
    "mi", "mian", "miao", "mie", "min", "ming", "miu", "mo", "mou", "mu", "n", "na", "nai",
    "nan", "nang", "nao", "ne", "nei", "nen", "neng", "ng", "ni", "nian", "niang", "niao",
    "nie", "nin", "ning", "niu", "nong", "nou", "nu", "nuan", "nun", "nuo", "nv", "nve", "o",
    "ou", "p", "pa", "pai", "pan", "pang", "pao", "pei", "pen", "peng", "pi", "pian", "piao",
    "pie", "pin", "ping", "po", "pou", "pu", "q", "qi", "qia", "qian", "qiang", "qiao", "qie",
    "qin", "qing", "qiong", "qiu", "qu", "quan", "que", "qun", "r", "ran", "rang", "rao", "re",
    "ren", "reng", "ri", "rong", "rou", "ru", "rua", "ruan", "rui", "run", "ruo", "s", "sa",
    "sai", "san", "sang", "sao", "se", "sen", "seng", "sh", "sha", "shai", "shan", "shang",
    "shao", "she", "shei", "shen", "sheng", "shi", "shou", "shu", "shua", "shuai", "shuan",
    "shuang", "shui", "shun", "shuo", "si", "song", "sou", "su", "suan", "sui", "sun", "suo",
    "t", "ta", "tai", "tan", "tang", "tao", "te", "tei", "teng", "ti", "tian", "tiao", "tie",
    "ting", "tong", "tou", "tu", "tuan", "tui", "tun", "tuo", "w", "wa", "wai", "wan", "wang",
    "wei", "wen", "weng", "wo", "wu", "x", "xi", "xia", "xian", "xiang", "xiao", "xie", "xin",
    "xing", "xiong", "xiu", "xu", "xuan", "xue", "xun", "y", "ya", "yan", "yang", "yao", "ye",
    "yi", "yin", "ying", "yo", "yong", "you", "yu", "yuan", "yue", "yun", "z", "za", "zai",
    "zan", "zang", "zao", "ze", "zei", "zen", "zeng", "zh", "zha", "zhai", "zhan", "zhang",
    "zhao", "zhe", "zhei", "zhen", "zheng", "zhi", "zhong", "zhou", "zhu", "zhua", "zhuai",
    "zhuan", "zhuang", "zhui", "zhun", "zhuo", "zi", "zong", "zou", "zu", "zuan", "zui", "zun",
    "zuo",
];

/// The syllable table as sequences of characters.
pub open spec fn syllables() -> Seq<Seq<char>> {
    Seq::new(440, |i: int| SYLLABLES[i]@)
}

/// The alphabet as sequences of characters.
pub open spec fn alphabet() -> Seq<Seq<char>> {
    Seq::new(440, |i: int| ALPHABET_NAMES[i]@)
}

/// Every character of `s` is a lower-case ASCII letter.
pub open spec fn lower_letters(s: Seq<char>) -> bool {
    forall|j: int| 0 <= j < s.len() ==> 'a' <= #[trigger] s[j] && s[j] <= 'z'
}

/// Every syllable is non-empty, is all ASCII, and is made of lower-case
/// letters only.
pub proof fn lemma_syllable_table()
    ensures
        forall|i: int|
            0 <= i < 440 ==> #[trigger] syllables()[i].len() > 0 && 'a' <= syllables()[i][0]
                && syllables()[i][0] <= 'z' && all_ascii(syllables()[i]) && lower_letters(
                syllables()[i],
            ),
{
    assert forall|i: int| 0 <= i < 440 implies #[trigger] syllables()[i].len() > 0 && 'a'
        <= syllables()[i][0] && syllables()[i][0] <= 'z' && all_ascii(syllables()[i])
        && lower_letters(syllables()[i]) by {
        reveal_strlit("a");
        reveal_strlit("ai");
        reveal_strlit("an");
        reveal_strlit("ang");
        reveal_strlit("ao");
        reveal_strlit("b");
        reveal_strlit("ba");
        reveal_strlit("bai");
        reveal_strlit("ban");
        reveal_strlit("bang");
        reveal_strlit("bao");
        reveal_strlit("bei");
        reveal_strlit("ben");
        reveal_strlit("beng");
        reveal_strlit("bi");
        reveal_strlit("bian");
        reveal_strlit("biao");
        reveal_strlit("bie");
        reveal_strlit("bin");
        reveal_strlit("bing");
        reveal_strlit("bo");
        reveal_strlit("bu");
        reveal_strlit("c");
        reveal_strlit("ca");
        reveal_strlit("cai");
        reveal_strlit("can");
        reveal_strlit("cang");
        reveal_strlit("cao");
        reveal_strlit("ce");
        reveal_strlit("cen");
        reveal_strlit("ceng");
        reveal_strlit("ch");
        reveal_strlit("cha");
        reveal_strlit("chai");
        reveal_strlit("chan");
        reveal_strlit("chang");
        reveal_strlit("chao");
        reveal_strlit("che");
        reveal_strlit("chen");
        reveal_strlit("cheng");
        reveal_strlit("chi");
        reveal_strlit("chong");
        reveal_strlit("chou");
        reveal_strlit("chu");
        reveal_strlit("chua");
        reveal_strlit("chuai");
        reveal_strlit("chuan");
        reveal_strlit("chuang");
        reveal_strlit("chui");
        reveal_strlit("chun");
        reveal_strlit("chuo");
        reveal_strlit("ci");
        reveal_strlit("cong");
        reveal_strlit("cou");
        reveal_strlit("cu");
        reveal_strlit("cuan");
        reveal_strlit("cui");
        reveal_strlit("cun");
        reveal_strlit("cuo");
        reveal_strlit("d");
        reveal_strlit("da");
        reveal_strlit("dai");
        reveal_strlit("dan");
        reveal_strlit("dang");
        reveal_strlit("dao");
        reveal_strlit("de");
        reveal_strlit("dei");
        reveal_strlit("den");
        reveal_strlit("deng");
        reveal_strlit("di");
        reveal_strlit("dia");
        reveal_strlit("dian");
        reveal_strlit("diao");
        reveal_strlit("die");
        reveal_strlit("ding");
        reveal_strlit("diu");
        reveal_strlit("dong");
        reveal_strlit("dou");
        reveal_strlit("du");
        reveal_strlit("duan");
        reveal_strlit("dui");
        reveal_strlit("dun");
        reveal_strlit("duo");
        reveal_strlit("e");
        reveal_strlit("ei");
        reveal_strlit("en");
        reveal_strlit("eng");
        reveal_strlit("er");
        reveal_strlit("f");
        reveal_strlit("fa");
        reveal_strlit("fan");
        reveal_strlit("fang");
        reveal_strlit("fei");
        reveal_strlit("fen");
        reveal_strlit("feng");
        reveal_strlit("fiao");
        reveal_strlit("fo");
        reveal_strlit("fou");
        reveal_strlit("fu");
        reveal_strlit("g");
        reveal_strlit("ga");
        reveal_strlit("gai");
        reveal_strlit("gan");
        reveal_strlit("gang");
        reveal_strlit("gao");
        reveal_strlit("ge");
        reveal_strlit("gei");
        reveal_strlit("gen");
        reveal_strlit("geng");
        reveal_strlit("gong");
        reveal_strlit("gou");
        reveal_strlit("gu");
        reveal_strlit("gua");
        reveal_strlit("guai");
        reveal_strlit("guan");
        reveal_strlit("guang");
        reveal_strlit("gui");
        reveal_strlit("gun");
        reveal_strlit("guo");
        reveal_strlit("h");
        reveal_strlit("ha");
        reveal_strlit("hai");
        reveal_strlit("han");
        reveal_strlit("hang");
        reveal_strlit("hao");
        reveal_strlit("he");
        reveal_strlit("hei");
        reveal_strlit("hen");
        reveal_strlit("heng");
        reveal_strlit("hm");
        reveal_strlit("hng");
        reveal_strlit("hong");
        reveal_strlit("hou");
        reveal_strlit("hu");
        reveal_strlit("hua");
        reveal_strlit("huai");
        reveal_strlit("huan");
        reveal_strlit("huang");
        reveal_strlit("hui");
        reveal_strlit("hun");
        reveal_strlit("huo");
        reveal_strlit("j");
        reveal_strlit("ji");
        reveal_strlit("jia");
        reveal_strlit("jian");
        reveal_strlit("jiang");
        reveal_strlit("jiao");
        reveal_strlit("jie");
        reveal_strlit("jin");
        reveal_strlit("jing");
        reveal_strlit("jiong");
        reveal_strlit("jiu");
        reveal_strlit("ju");
        reveal_strlit("juan");
        reveal_strlit("jue");
        reveal_strlit("jun");
        reveal_strlit("k");
        reveal_strlit("ka");
        reveal_strlit("kai");
        reveal_strlit("kan");
        reveal_strlit("kang");
        reveal_strlit("kao");
        reveal_strlit("ke");
        reveal_strlit("kei");
        reveal_strlit("ken");
        reveal_strlit("keng");
        reveal_strlit("kong");
        reveal_strlit("kou");
        reveal_strlit("ku");
        reveal_strlit("kua");
        reveal_strlit("kuai");
        reveal_strlit("kuan");
        reveal_strlit("kuang");
        reveal_strlit("kui");
        reveal_strlit("kun");
        reveal_strlit("kuo");
        reveal_strlit("l");
        reveal_strlit("la");
        reveal_strlit("lai");
        reveal_strlit("lan");
        reveal_strlit("lang");
        reveal_strlit("lao");
        reveal_strlit("le");
        reveal_strlit("lei");
        reveal_strlit("len");
        reveal_strlit("leng");
        reveal_strlit("li");
        reveal_strlit("lia");
        reveal_strlit("lian");
        reveal_strlit("liang");
        reveal_strlit("liao");
        reveal_strlit("lie");
        reveal_strlit("lin");
        reveal_strlit("ling");
        reveal_strlit("liu");
        reveal_strlit("lo");
        reveal_strlit("long");
        reveal_strlit("lou");
        reveal_strlit("lu");
        reveal_strlit("luan");
        reveal_strlit("lun");
        reveal_strlit("luo");
        reveal_strlit("lv");
        reveal_strlit("lve");
        reveal_strlit("m");
        reveal_strlit("ma");
        reveal_strlit("mai");
        reveal_strlit("man");
        reveal_strlit("mang");
        reveal_strlit("mao");
        reveal_strlit("me");
        reveal_strlit("mei");
        reveal_strlit("men");
        reveal_strlit("meng");
        reveal_strlit("mi");
        reveal_strlit("mian");
        reveal_strlit("miao");
        reveal_strlit("mie");
        reveal_strlit("min");
        reveal_strlit("ming");
        reveal_strlit("miu");
        reveal_strlit("mo");
        reveal_strlit("mou");
        reveal_strlit("mu");
        reveal_strlit("n");
        reveal_strlit("na");
        reveal_strlit("nai");
        reveal_strlit("nan");
        reveal_strlit("nang");
        reveal_strlit("nao");
        reveal_strlit("ne");
        reveal_strlit("nei");
        reveal_strlit("nen");
        reveal_strlit("neng");
        reveal_strlit("ng");
        reveal_strlit("ni");
        reveal_strlit("nian");
        reveal_strlit("niang");
        reveal_strlit("niao");
        reveal_strlit("nie");
        reveal_strlit("nin");
        reveal_strlit("ning");
        reveal_strlit("niu");
        reveal_strlit("nong");
        reveal_strlit("nou");
        reveal_strlit("nu");
        reveal_strlit("nuan");
        reveal_strlit("nun");
        reveal_strlit("nuo");
        reveal_strlit("nv");
        reveal_strlit("nve");
        reveal_strlit("o");
        reveal_strlit("ou");
        reveal_strlit("p");
        reveal_strlit("pa");
        reveal_strlit("pai");
        reveal_strlit("pan");
        reveal_strlit("pang");
        reveal_strlit("pao");
        reveal_strlit("pei");
        reveal_strlit("pen");
        reveal_strlit("peng");
        reveal_strlit("pi");
        reveal_strlit("pian");
        reveal_strlit("piao");
        reveal_strlit("pie");
        reveal_strlit("pin");
        reveal_strlit("ping");
        reveal_strlit("po");
        reveal_strlit("pou");
        reveal_strlit("pu");
        reveal_strlit("q");
        reveal_strlit("qi");
        reveal_strlit("qia");
        reveal_strlit("qian");
        reveal_strlit("qiang");
        reveal_strlit("qiao");
        reveal_strlit("qie");
        reveal_strlit("qin");
        reveal_strlit("qing");
        reveal_strlit("qiong");
        reveal_strlit("qiu");
        reveal_strlit("qu");
        reveal_strlit("quan");
        reveal_strlit("que");
        reveal_strlit("qun");
        reveal_strlit("r");
        reveal_strlit("ran");
        reveal_strlit("rang");
        reveal_strlit("rao");
        reveal_strlit("re");
        reveal_strlit("ren");
        reveal_strlit("reng");
        reveal_strlit("ri");
        reveal_strlit("rong");
        reveal_strlit("rou");
        reveal_strlit("ru");
        reveal_strlit("rua");
        reveal_strlit("ruan");
        reveal_strlit("rui");
        reveal_strlit("run");
        reveal_strlit("ruo");
        reveal_strlit("s");
        reveal_strlit("sa");
        reveal_strlit("sai");
        reveal_strlit("san");
        reveal_strlit("sang");
        reveal_strlit("sao");
        reveal_strlit("se");
        reveal_strlit("sen");
        reveal_strlit("seng");
        reveal_strlit("sh");
        reveal_strlit("sha");
        reveal_strlit("shai");
        reveal_strlit("shan");
        reveal_strlit("shang");
        reveal_strlit("shao");
        reveal_strlit("she");
        reveal_strlit("shei");
        reveal_strlit("shen");
        reveal_strlit("sheng");
        reveal_strlit("shi");
        reveal_strlit("shou");
        reveal_strlit("shu");
        reveal_strlit("shua");
        reveal_strlit("shuai");
        reveal_strlit("shuan");
        reveal_strlit("shuang");
        reveal_strlit("shui");
        reveal_strlit("shun");
        reveal_strlit("shuo");
        reveal_strlit("si");
        reveal_strlit("song");
        reveal_strlit("sou");
        reveal_strlit("su");
        reveal_strlit("suan");
        reveal_strlit("sui");
        reveal_strlit("sun");
        reveal_strlit("suo");
        reveal_strlit("t");
        reveal_strlit("ta");
        reveal_strlit("tai");
        reveal_strlit("tan");
        reveal_strlit("tang");
        reveal_strlit("tao");
        reveal_strlit("te");
        reveal_strlit("tei");
        reveal_strlit("teng");
        reveal_strlit("ti");
        reveal_strlit("tian");
        reveal_strlit("tiao");
        reveal_strlit("tie");
        reveal_strlit("ting");
        reveal_strlit("tong");
        reveal_strlit("tou");
        reveal_strlit("tu");
        reveal_strlit("tuan");
        reveal_strlit("tui");
        reveal_strlit("tun");
        reveal_strlit("tuo");
        reveal_strlit("w");
        reveal_strlit("wa");
        reveal_strlit("wai");
        reveal_strlit("wan");
        reveal_strlit("wang");
        reveal_strlit("wei");
        reveal_strlit("wen");
        reveal_strlit("weng");
        reveal_strlit("wo");
        reveal_strlit("wu");
        reveal_strlit("x");
        reveal_strlit("xi");
        reveal_strlit("xia");
        reveal_strlit("xian");
        reveal_strlit("xiang");
        reveal_strlit("xiao");
        reveal_strlit("xie");
        reveal_strlit("xin");
        reveal_strlit("xing");
        reveal_strlit("xiong");
        reveal_strlit("xiu");
        reveal_strlit("xu");
        reveal_strlit("xuan");
        reveal_strlit("xue");
        reveal_strlit("xun");
        reveal_strlit("y");
        reveal_strlit("ya");
        reveal_strlit("yan");
        reveal_strlit("yang");
        reveal_strlit("yao");
        reveal_strlit("ye");
        reveal_strlit("yi");
        reveal_strlit("yin");
        reveal_strlit("ying");
        reveal_strlit("yo");
        reveal_strlit("yong");
        reveal_strlit("you");
        reveal_strlit("yu");
        reveal_strlit("yuan");
        reveal_strlit("yue");
        reveal_strlit("yun");
        reveal_strlit("z");
        reveal_strlit("za");
        reveal_strlit("zai");
        reveal_strlit("zan");
        reveal_strlit("zang");
        reveal_strlit("zao");
        reveal_strlit("ze");
        reveal_strlit("zei");
        reveal_strlit("zen");
        reveal_strlit("zeng");
        reveal_strlit("zh");
        reveal_strlit("zha");
        reveal_strlit("zhai");
        reveal_strlit("zhan");
        reveal_strlit("zhang");
        reveal_strlit("zhao");
        reveal_strlit("zhe");
        reveal_strlit("zhei");
        reveal_strlit("zhen");
        reveal_strlit("zheng");
        reveal_strlit("zhi");
        reveal_strlit("zhong");
        reveal_strlit("zhou");
        reveal_strlit("zhu");
        reveal_strlit("zhua");
        reveal_strlit("zhuai");
        reveal_strlit("zhuan");
        reveal_strlit("zhuang");
        reveal_strlit("zhui");
        reveal_strlit("zhun");
        reveal_strlit("zhuo");
        reveal_strlit("zi");
        reveal_strlit("zong");
        reveal_strlit("zou");
        reveal_strlit("zu");
        reveal_strlit("zuan");
        reveal_strlit("zui");
        reveal_strlit("zun");
        reveal_strlit("zuo");
    }
}

/// `a` comes before `b` in code point order (the order of `str`).
pub open spec fn precedes(a: Seq<char>, b: Seq<char>) -> bool
    decreases a.len(),
{
    if a.len() == 0 {
        b.len() > 0
    } else if b.len() == 0 {
        false
    } else if a[0] != b[0] {
        (a[0] as u32) < (b[0] as u32)
    } else {
        precedes(a.drop_first(), b.drop_first())
    }
}

pub proof fn lemma_precedes_trans(a: Seq<char>, b: Seq<char>, c: Seq<char>)
    requires
        precedes(a, b),
        precedes(b, c),
    ensures
        precedes(a, c),
    decreases a.len(),
{
    if a.len() > 0 && b.len() > 0 && c.len() > 0 && a[0] == b[0] && b[0] == c[0] {
        lemma_precedes_trans(a.drop_first(), b.drop_first(), c.drop_first());
    }
}

pub proof fn lemma_precedes_ne(a: Seq<char>, b: Seq<char>)
    requires
        precedes(a, b),
    ensures
        a != b,
    decreases a.len(),
{
    if a.len() > 0 && b.len() > 0 && a[0] == b[0] {
        lemma_precedes_ne(a.drop_first(), b.drop_first());
    }
}

proof fn lemma_syllables_ordered_0()
    ensures
        forall|i: int| 0 <= i < 40 ==> #[trigger] precedes(syllables()[i], syllables()[i + 1]),
{
    reveal_strlit("a");
    reveal_strlit("ai");
    reveal_strlit("an");
    reveal_strlit("ang");
    reveal_strlit("ao");
    reveal_strlit("b");
    reveal_strlit("ba");
    reveal_strlit("bai");
    reveal_strlit("ban");
    reveal_strlit("bang");
    reveal_strlit("bao");
    reveal_strlit("bei");
    reveal_strlit("ben");
    reveal_strlit("beng");
    reveal_strlit("bi");
    reveal_strlit("bian");
    reveal_strlit("biao");
    reveal_strlit("bie");
    reveal_strlit("bin");
    reveal_strlit("bing");
    reveal_strlit("bo");
    reveal_strlit("bu");
    reveal_strlit("c");
    reveal_strlit("ca");
    reveal_strlit("cai");
    reveal_strlit("can");
    reveal_strlit("cang");
    reveal_strlit("cao");
    reveal_strlit("ce");
    reveal_strlit("cen");
    reveal_strlit("ceng");
    reveal_strlit("ch");
    reveal_strlit("cha");
    reveal_strlit("chai");
    reveal_strlit("chan");
    reveal_strlit("chang");
    reveal_strlit("chao");
    reveal_strlit("che");
    reveal_strlit("chen");
    reveal_strlit("cheng");
    reveal_strlit("chi");
    reveal_with_fuel(precedes, 8);
    assert(precedes(syllables()[0], syllables()[1]));
    assert(precedes(syllables()[1], syllables()[2]));
    assert(precedes(syllables()[2], syllables()[3]));
    assert(precedes(syllables()[3], syllables()[4]));
    assert(precedes(syllables()[4], syllables()[5]));
    assert(precedes(syllables()[5], syllables()[6]));
    assert(precedes(syllables()[6], syllables()[7]));
    assert(precedes(syllables()[7], syllables()[8]));
    assert(precedes(syllables()[8], syllables()[9]));
    assert(precedes(syllables()[9], syllables()[10]));
    assert(precedes(syllables()[10], syllables()[11]));
    assert(precedes(syllables()[11], syllables()[12]));
    assert(precedes(syllables()[12], syllables()[13]));
    assert(precedes(syllables()[13], syllables()[14]));
    assert(precedes(syllables()[14], syllables()[15]));
    assert(precedes(syllables()[15], syllables()[16]));
    assert(precedes(syllables()[16], syllables()[17]));
    assert(precedes(syllables()[17], syllables()[18]));
    assert(precedes(syllables()[18], syllables()[19]));
    assert(precedes(syllables()[19], syllables()[20]));
    assert(precedes(syllables()[20], syllables()[21]));
    assert(precedes(syllables()[21], syllables()[22]));
    assert(precedes(syllables()[22], syllables()[23]));
    assert(precedes(syllables()[23], syllables()[24]));
    assert(precedes(syllables()[24], syllables()[25]));
    assert(precedes(syllables()[25], syllables()[26]));
    assert(precedes(syllables()[26], syllables()[27]));
    assert(precedes(syllables()[27], syllables()[28]));
    assert(precedes(syllables()[28], syllables()[29]));
    assert(precedes(syllables()[29], syllables()[30]));
    assert(precedes(syllables()[30], syllables()[31]));
    assert(precedes(syllables()[31], syllables()[32]));
    assert(precedes(syllables()[32], syllables()[33]));
    assert(precedes(syllables()[33], syllables()[34]));
    assert(precedes(syllables()[34], syllables()[35]));
    assert(precedes(syllables()[35], syllables()[36]));
    assert(precedes(syllables()[36], syllables()[37]));
    assert(precedes(syllables()[37], syllables()[38]));
    assert(precedes(syllables()[38], syllables()[39]));
    assert(precedes(syllables()[39], syllables()[40]));
}

proof fn lemma_syllables_ordered_40()
    ensures
        forall|i: int| 40 <= i < 80 ==> #[trigger] precedes(syllables()[i], syllables()[i + 1]),
{
    reveal_strlit("chi");
    reveal_strlit("chong");
    reveal_strlit("chou");
    reveal_strlit("chu");
    reveal_strlit("chua");
    reveal_strlit("chuai");
    reveal_strlit("chuan");
    reveal_strlit("chuang");
    reveal_strlit("chui");
    reveal_strlit("chun");
    reveal_strlit("chuo");
    reveal_strlit("ci");
    reveal_strlit("cong");
    reveal_strlit("cou");
    reveal_strlit("cu");
    reveal_strlit("cuan");
    reveal_strlit("cui");
    reveal_strlit("cun");
    reveal_strlit("cuo");
    reveal_strlit("d");
    reveal_strlit("da");
    reveal_strlit("dai");
    reveal_strlit("dan");
    reveal_strlit("dang");
    reveal_strlit("dao");
    reveal_strlit("de");
    reveal_strlit("dei");
    reveal_strlit("den");
    reveal_strlit("deng");
    reveal_strlit("di");
    reveal_strlit("dia");
    reveal_strlit("dian");
    reveal_strlit("diao");
    reveal_strlit("die");
    reveal_strlit("ding");
    reveal_strlit("diu");
    reveal_strlit("dong");
    reveal_strlit("dou");
    reveal_strlit("du");
    reveal_strlit("duan");
    reveal_strlit("dui");
    reveal_with_fuel(precedes, 8);
    assert(precedes(syllables()[40], syllables()[41]));
    assert(precedes(syllables()[41], syllables()[42]));
    assert(precedes(syllables()[42], syllables()[43]));
    assert(precedes(syllables()[43], syllables()[44]));
    assert(precedes(syllables()[44], syllables()[45]));
    assert(precedes(syllables()[45], syllables()[46]));
    assert(precedes(syllables()[46], syllables()[47]));
    assert(precedes(syllables()[47], syllables()[48]));
    assert(precedes(syllables()[48], syllables()[49]));
    assert(precedes(syllables()[49], syllables()[50]));
    assert(precedes(syllables()[50], syllables()[51]));
    assert(precedes(syllables()[51], syllables()[52]));
    assert(precedes(syllables()[52], syllables()[53]));
    assert(precedes(syllables()[53], syllables()[54]));
    assert(precedes(syllables()[54], syllables()[55]));
    assert(precedes(syllables()[55], syllables()[56]));
    assert(precedes(syllables()[56], syllables()[57]));
    assert(precedes(syllables()[57], syllables()[58]));
    assert(precedes(syllables()[58], syllables()[59]));
    assert(precedes(syllables()[59], syllables()[60]));
    assert(precedes(syllables()[60], syllables()[61]));
    assert(precedes(syllables()[61], syllables()[62]));
    assert(precedes(syllables()[62], syllables()[63]));
    assert(precedes(syllables()[63], syllables()[64]));
    assert(precedes(syllables()[64], syllables()[65]));
    assert(precedes(syllables()[65], syllables()[66]));
    assert(precedes(syllables()[66], syllables()[67]));
    assert(precedes(syllables()[67], syllables()[68]));
    assert(precedes(syllables()[68], syllables()[69]));
    assert(precedes(syllables()[69], syllables()[70]));
    assert(precedes(syllables()[70], syllables()[71]));
    assert(precedes(syllables()[71], syllables()[72]));
    assert(precedes(syllables()[72], syllables()[73]));
    assert(precedes(syllables()[73], syllables()[74]));
    assert(precedes(syllables()[74], syllables()[75]));
    assert(precedes(syllables()[75], syllables()[76]));
    assert(precedes(syllables()[76], syllables()[77]));
    assert(precedes(syllables()[77], syllables()[78]));
    assert(precedes(syllables()[78], syllables()[79]));
    assert(precedes(syllables()[79], syllables()[80]));
}

proof fn lemma_syllables_ordered_80()
    ensures
        forall|i: int| 80 <= i < 120 ==> #[trigger] precedes(syllables()[i], syllables()[i + 1]),
{
    reveal_strlit("dui");
    reveal_strlit("dun");
    reveal_strlit("duo");
    reveal_strlit("e");
    reveal_strlit("ei");
    reveal_strlit("en");
    reveal_strlit("eng");
    reveal_strlit("er");
    reveal_strlit("f");
    reveal_strlit("fa");
    reveal_strlit("fan");
    reveal_strlit("fang");
    reveal_strlit("fei");
    reveal_strlit("fen");
    reveal_strlit("feng");
    reveal_strlit("fiao");
    reveal_strlit("fo");
    reveal_strlit("fou");
    reveal_strlit("fu");
    reveal_strlit("g");
    reveal_strlit("ga");
    reveal_strlit("gai");
    reveal_strlit("gan");
    reveal_strlit("gang");
    reveal_strlit("gao");
    reveal_strlit("ge");
    reveal_strlit("gei");
    reveal_strlit("gen");
    reveal_strlit("geng");
    reveal_strlit("gong");
    reveal_strlit("gou");
    reveal_strlit("gu");
    reveal_strlit("gua");
    reveal_strlit("guai");
    reveal_strlit("guan");
    reveal_strlit("guang");
    reveal_strlit("gui");
    reveal_strlit("gun");
    reveal_strlit("guo");
    reveal_strlit("h");
    reveal_strlit("ha");
    reveal_with_fuel(precedes, 8);
    assert(precedes(syllables()[80], syllables()[81]));
    assert(precedes(syllables()[81], syllables()[82]));
    assert(precedes(syllables()[82], syllables()[83]));
    assert(precedes(syllables()[83], syllables()[84]));
    assert(precedes(syllables()[84], syllables()[85]));
    assert(precedes(syllables()[85], syllables()[86]));
    assert(precedes(syllables()[86], syllables()[87]));
    assert(precedes(syllables()[87], syllables()[88]));
    assert(precedes(syllables()[88], syllables()[89]));
    assert(precedes(syllables()[89], syllables()[90]));
    assert(precedes(syllables()[90], syllables()[91]));
    assert(precedes(syllables()[91], syllables()[92]));
    assert(precedes(syllables()[92], syllables()[93]));
    assert(precedes(syllables()[93], syllables()[94]));
    assert(precedes(syllables()[94], syllables()[95]));
    assert(precedes(syllables()[95], syllables()[96]));
    assert(precedes(syllables()[96], syllables()[97]));
    assert(precedes(syllables()[97], syllables()[98]));
    assert(precedes(syllables()[98], syllables()[99]));
    assert(precedes(syllables()[99], syllables()[100]));
    assert(precedes(syllables()[100], syllables()[101]));
    assert(precedes(syllables()[101], syllables()[102]));
    assert(precedes(syllables()[102], syllables()[103]));
    assert(precedes(syllables()[103], syllables()[104]));
    assert(precedes(syllables()[104], syllables()[105]));
    assert(precedes(syllables()[105], syllables()[106]));
    assert(precedes(syllables()[106], syllables()[107]));
    assert(precedes(syllables()[107], syllables()[108]));
    assert(precedes(syllables()[108], syllables()[109]));
    assert(precedes(syllables()[109], syllables()[110]));
    assert(precedes(syllables()[110], syllables()[111]));
    assert(precedes(syllables()[111], syllables()[112]));
    assert(precedes(syllables()[112], syllables()[113]));
    assert(precedes(syllables()[113], syllables()[114]));
    assert(precedes(syllables()[114], syllables()[115]));
    assert(precedes(syllables()[115], syllables()[116]));
    assert(precedes(syllables()[116], syllables()[117]));
    assert(precedes(syllables()[117], syllables()[118]));
    assert(precedes(syllables()[118], syllables()[119]));
    assert(precedes(syllables()[119], syllables()[120]));
}

proof fn lemma_syllables_ordered_120()
    ensures
        forall|i: int| 120 <= i < 160 ==> #[trigger] precedes(syllables()[i], syllables()[i + 1]),
{
    reveal_strlit("ha");
    reveal_strlit("hai");
    reveal_strlit("han");
    reveal_strlit("hang");
    reveal_strlit("hao");
    reveal_strlit("he");
    reveal_strlit("hei");
    reveal_strlit("hen");
    reveal_strlit("heng");
    reveal_strlit("hm");
    reveal_strlit("hng");
    reveal_strlit("hong");
    reveal_strlit("hou");
    reveal_strlit("hu");
    reveal_strlit("hua");
    reveal_strlit("huai");
    reveal_strlit("huan");
    reveal_strlit("huang");
    reveal_strlit("hui");
    reveal_strlit("hun");
    reveal_strlit("huo");
    reveal_strlit("j");
    reveal_strlit("ji");
    reveal_strlit("jia");
    reveal_strlit("jian");
    reveal_strlit("jiang");
    reveal_strlit("jiao");
    reveal_strlit("jie");
    reveal_strlit("jin");
    reveal_strlit("jing");
    reveal_strlit("jiong");
    reveal_strlit("jiu");
    reveal_strlit("ju");
    reveal_strlit("juan");
    reveal_strlit("jue");
    reveal_strlit("jun");
    reveal_strlit("k");
    reveal_strlit("ka");
    reveal_strlit("kai");
    reveal_strlit("kan");
    reveal_strlit("kang");
    reveal_with_fuel(precedes, 8);
    assert(precedes(syllables()[120], syllables()[121]));
    assert(precedes(syllables()[121], syllables()[122]));
    assert(precedes(syllables()[122], syllables()[123]));
    assert(precedes(syllables()[123], syllables()[124]));
    assert(precedes(syllables()[124], syllables()[125]));
    assert(precedes(syllables()[125], syllables()[126]));
    assert(precedes(syllables()[126], syllables()[127]));
    assert(precedes(syllables()[127], syllables()[128]));
    assert(precedes(syllables()[128], syllables()[129]));
    assert(precedes(syllables()[129], syllables()[130]));
    assert(precedes(syllables()[130], syllables()[131]));
    assert(precedes(syllables()[131], syllables()[132]));
    assert(precedes(syllables()[132], syllables()[133]));
    assert(precedes(syllables()[133], syllables()[134]));
    assert(precedes(syllables()[134], syllables()[135]));
    assert(precedes(syllables()[135], syllables()[136]));
    assert(precedes(syllables()[136], syllables()[137]));
    assert(precedes(syllables()[137], syllables()[138]));
    assert(precedes(syllables()[138], syllables()[139]));
    assert(precedes(syllables()[139], syllables()[140]));
    assert(precedes(syllables()[140], syllables()[141]));
    assert(precedes(syllables()[141], syllables()[142]));
    assert(precedes(syllables()[142], syllables()[143]));
    assert(precedes(syllables()[143], syllables()[144]));
    assert(precedes(syllables()[144], syllables()[145]));
    assert(precedes(syllables()[145], syllables()[146]));
    assert(precedes(syllables()[146], syllables()[147]));
    assert(precedes(syllables()[147], syllables()[148]));
    assert(precedes(syllables()[148], syllables()[149]));
    assert(precedes(syllables()[149], syllables()[150]));
    assert(precedes(syllables()[150], syllables()[151]));
    assert(precedes(syllables()[151], syllables()[152]));
    assert(precedes(syllables()[152], syllables()[153]));
    assert(precedes(syllables()[153], syllables()[154]));
    assert(precedes(syllables()[154], syllables()[155]));
    assert(precedes(syllables()[155], syllables()[156]));
    assert(precedes(syllables()[156], syllables()[157]));
    assert(precedes(syllables()[157], syllables()[158]));
    assert(precedes(syllables()[158], syllables()[159]));
    assert(precedes(syllables()[159], syllables()[160]));
}

proof fn lemma_syllables_ordered_160()
    ensures
        forall|i: int| 160 <= i < 200 ==> #[trigger] precedes(syllables()[i], syllables()[i + 1]),
{
    reveal_strlit("kang");
    reveal_strlit("kao");
    reveal_strlit("ke");
    reveal_strlit("kei");
    reveal_strlit("ken");
    reveal_strlit("keng");
    reveal_strlit("kong");
    reveal_strlit("kou");
    reveal_strlit("ku");
    reveal_strlit("kua");
    reveal_strlit("kuai");
    reveal_strlit("kuan");
    reveal_strlit("kuang");
    reveal_strlit("kui");
    reveal_strlit("kun");
    reveal_strlit("kuo");
    reveal_strlit("l");
    reveal_strlit("la");
    reveal_strlit("lai");
    reveal_strlit("lan");
    reveal_strlit("lang");
    reveal_strlit("lao");
    reveal_strlit("le");
    reveal_strlit("lei");
    reveal_strlit("len");
    reveal_strlit("leng");
    reveal_strlit("li");
    reveal_strlit("lia");
    reveal_strlit("lian");
    reveal_strlit("liang");
    reveal_strlit("liao");
    reveal_strlit("lie");
    reveal_strlit("lin");
    reveal_strlit("ling");
    reveal_strlit("liu");
    reveal_strlit("lo");
    reveal_strlit("long");
    reveal_strlit("lou");
    reveal_strlit("lu");
    reveal_strlit("luan");
    reveal_strlit("lun");
    reveal_with_fuel(precedes, 8);
    assert(precedes(syllables()[160], syllables()[161]));
    assert(precedes(syllables()[161], syllables()[162]));
    assert(precedes(syllables()[162], syllables()[163]));
    assert(precedes(syllables()[163], syllables()[164]));
    assert(precedes(syllables()[164], syllables()[165]));
    assert(precedes(syllables()[165], syllables()[166]));
    assert(precedes(syllables()[166], syllables()[167]));
    assert(precedes(syllables()[167], syllables()[168]));
    assert(precedes(syllables()[168], syllables()[169]));
    assert(precedes(syllables()[169], syllables()[170]));
    assert(precedes(syllables()[170], syllables()[171]));
    assert(precedes(syllables()[171], syllables()[172]));
    assert(precedes(syllables()[172], syllables()[173]));
    assert(precedes(syllables()[173], syllables()[174]));
    assert(precedes(syllables()[174], syllables()[175]));
    assert(precedes(syllables()[175], syllables()[176]));
    assert(precedes(syllables()[176], syllables()[177]));
    assert(precedes(syllables()[177], syllables()[178]));
    assert(precedes(syllables()[178], syllables()[179]));
    assert(precedes(syllables()[179], syllables()[180]));
    assert(precedes(syllables()[180], syllables()[181]));
    assert(precedes(syllables()[181], syllables()[182]));
    assert(precedes(syllables()[182], syllables()[183]));
    assert(precedes(syllables()[183], syllables()[184]));
    assert(precedes(syllables()[184], syllables()[185]));
    assert(precedes(syllables()[185], syllables()[186]));
    assert(precedes(syllables()[186], syllables()[187]));
    assert(precedes(syllables()[187], syllables()[188]));
    assert(precedes(syllables()[188], syllables()[189]));
    assert(precedes(syllables()[189], syllables()[190]));
    assert(precedes(syllables()[190], syllables()[191]));
    assert(precedes(syllables()[191], syllables()[192]));
    assert(precedes(syllables()[192], syllables()[193]));
    assert(precedes(syllables()[193], syllables()[194]));
    assert(precedes(syllables()[194], syllables()[195]));
    assert(precedes(syllables()[195], syllables()[196]));
    assert(precedes(syllables()[196], syllables()[197]));
    assert(precedes(syllables()[197], syllables()[198]));
    assert(precedes(syllables()[198], syllables()[199]));
    assert(precedes(syllables()[199], syllables()[200]));
}

proof fn lemma_syllables_ordered_200()
    ensures
        forall|i: int| 200 <= i < 240 ==> #[trigger] precedes(syllables()[i], syllables()[i + 1]),
{
    reveal_strlit("lun");
    reveal_strlit("luo");
    reveal_strlit("lv");
    reveal_strlit("lve");
    reveal_strlit("m");
    reveal_strlit("ma");
    reveal_strlit("mai");
    reveal_strlit("man");
    reveal_strlit("mang");
    reveal_strlit("mao");
    reveal_strlit("me");
    reveal_strlit("mei");
    reveal_strlit("men");
    reveal_strlit("meng");
    reveal_strlit("mi");
    reveal_strlit("mian");
    reveal_strlit("miao");
    reveal_strlit("mie");
    reveal_strlit("min");
    reveal_strlit("ming");
    reveal_strlit("miu");
    reveal_strlit("mo");
    reveal_strlit("mou");
    reveal_strlit("mu");
    reveal_strlit("n");
    reveal_strlit("na");
    reveal_strlit("nai");
    reveal_strlit("nan");
    reveal_strlit("nang");
    reveal_strlit("nao");
    reveal_strlit("ne");
    reveal_strlit("nei");
    reveal_strlit("nen");
    reveal_strlit("neng");
    reveal_strlit("ng");
    reveal_strlit("ni");
    reveal_strlit("nian");
    reveal_strlit("niang");
    reveal_strlit("niao");
    reveal_strlit("nie");
    reveal_strlit("nin");
    reveal_with_fuel(precedes, 8);
    assert(precedes(syllables()[200], syllables()[201]));
    assert(precedes(syllables()[201], syllables()[202]));
    assert(precedes(syllables()[202], syllables()[203]));
    assert(precedes(syllables()[203], syllables()[204]));
    assert(precedes(syllables()[204], syllables()[205]));
    assert(precedes(syllables()[205], syllables()[206]));
    assert(precedes(syllables()[206], syllables()[207]));
    assert(precedes(syllables()[207], syllables()[208]));
    assert(precedes(syllables()[208], syllables()[209]));
    assert(precedes(syllables()[209], syllables()[210]));
    assert(precedes(syllables()[210], syllables()[211]));
    assert(precedes(syllables()[211], syllables()[212]));
    assert(precedes(syllables()[212], syllables()[213]));
    assert(precedes(syllables()[213], syllables()[214]));
    assert(precedes(syllables()[214], syllables()[215]));
    assert(precedes(syllables()[215], syllables()[216]));
    assert(precedes(syllables()[216], syllables()[217]));
    assert(precedes(syllables()[217], syllables()[218]));
    assert(precedes(syllables()[218], syllables()[219]));
    assert(precedes(syllables()[219], syllables()[220]));
    assert(precedes(syllables()[220], syllables()[221]));
    assert(precedes(syllables()[221], syllables()[222]));
    assert(precedes(syllables()[222], syllables()[223]));
    assert(precedes(syllables()[223], syllables()[224]));
    assert(precedes(syllables()[224], syllables()[225]));
    assert(precedes(syllables()[225], syllables()[226]));
    assert(precedes(syllables()[226], syllables()[227]));
    assert(precedes(syllables()[227], syllables()[228]));
    assert(precedes(syllables()[228], syllables()[229]));
    assert(precedes(syllables()[229], syllables()[230]));
    assert(precedes(syllables()[230], syllables()[231]));
    assert(precedes(syllables()[231], syllables()[232]));
    assert(precedes(syllables()[232], syllables()[233]));
    assert(precedes(syllables()[233], syllables()[234]));
    assert(precedes(syllables()[234], syllables()[235]));
    assert(precedes(syllables()[235], syllables()[236]));
    assert(precedes(syllables()[236], syllables()[237]));
    assert(precedes(syllables()[237], syllables()[238]));
    assert(precedes(syllables()[238], syllables()[239]));
    assert(precedes(syllables()[239], syllables()[240]));
}

proof fn lemma_syllables_ordered_240()
    ensures
        forall|i: int| 240 <= i < 280 ==> #[trigger] precedes(syllables()[i], syllables()[i + 1]),
{
    reveal_strlit("nin");
    reveal_strlit("ning");
    reveal_strlit("niu");
    reveal_strlit("nong");
    reveal_strlit("nou");
    reveal_strlit("nu");
    reveal_strlit("nuan");
    reveal_strlit("nun");
    reveal_strlit("nuo");
    reveal_strlit("nv");
    reveal_strlit("nve");
    reveal_strlit("o");
    reveal_strlit("ou");
    reveal_strlit("p");
    reveal_strlit("pa");
    reveal_strlit("pai");
    reveal_strlit("pan");
    reveal_strlit("pang");
    reveal_strlit("pao");
    reveal_strlit("pei");
    reveal_strlit("pen");
    reveal_strlit("peng");
    reveal_strlit("pi");
    reveal_strlit("pian");
    reveal_strlit("piao");
    reveal_strlit("pie");
    reveal_strlit("pin");
    reveal_strlit("ping");
    reveal_strlit("po");
    reveal_strlit("pou");
    reveal_strlit("pu");
    reveal_strlit("q");
    reveal_strlit("qi");
    reveal_strlit("qia");
    reveal_strlit("qian");
    reveal_strlit("qiang");
    reveal_strlit("qiao");
    reveal_strlit("qie");
    reveal_strlit("qin");
    reveal_strlit("qing");
    reveal_strlit("qiong");
    reveal_with_fuel(precedes, 8);
    assert(precedes(syllables()[240], syllables()[241]));
    assert(precedes(syllables()[241], syllables()[242]));
    assert(precedes(syllables()[242], syllables()[243]));
    assert(precedes(syllables()[243], syllables()[244]));
    assert(precedes(syllables()[244], syllables()[245]));
    assert(precedes(syllables()[245], syllables()[246]));
    assert(precedes(syllables()[246], syllables()[247]));
    assert(precedes(syllables()[247], syllables()[248]));
    assert(precedes(syllables()[248], syllables()[249]));
    assert(precedes(syllables()[249], syllables()[250]));
    assert(precedes(syllables()[250], syllables()[251]));
    assert(precedes(syllables()[251], syllables()[252]));
    assert(precedes(syllables()[252], syllables()[253]));
    assert(precedes(syllables()[253], syllables()[254]));
    assert(precedes(syllables()[254], syllables()[255]));
    assert(precedes(syllables()[255], syllables()[256]));
    assert(precedes(syllables()[256], syllables()[257]));
    assert(precedes(syllables()[257], syllables()[258]));
    assert(precedes(syllables()[258], syllables()[259]));
    assert(precedes(syllables()[259], syllables()[260]));
    assert(precedes(syllables()[260], syllables()[261]));
    assert(precedes(syllables()[261], syllables()[262]));
    assert(precedes(syllables()[262], syllables()[263]));
    assert(precedes(syllables()[263], syllables()[264]));
    assert(precedes(syllables()[264], syllables()[265]));
    assert(precedes(syllables()[265], syllables()[266]));
    assert(precedes(syllables()[266], syllables()[267]));
    assert(precedes(syllables()[267], syllables()[268]));
    assert(precedes(syllables()[268], syllables()[269]));
    assert(precedes(syllables()[269], syllables()[270]));
    assert(precedes(syllables()[270], syllables()[271]));
    assert(precedes(syllables()[271], syllables()[272]));
    assert(precedes(syllables()[272], syllables()[273]));
    assert(precedes(syllables()[273], syllables()[274]));
    assert(precedes(syllables()[274], syllables()[275]));
    assert(precedes(syllables()[275], syllables()[276]));
    assert(precedes(syllables()[276], syllables()[277]));
    assert(precedes(syllables()[277], syllables()[278]));
    assert(precedes(syllables()[278], syllables()[279]));
    assert(precedes(syllables()[279], syllables()[280]));
}

proof fn lemma_syllables_ordered_280()
    ensures
        forall|i: int| 280 <= i < 320 ==> #[trigger] precedes(syllables()[i], syllables()[i + 1]),
{
    reveal_strlit("qiong");
    reveal_strlit("qiu");
    reveal_strlit("qu");
    reveal_strlit("quan");
    reveal_strlit("que");
    reveal_strlit("qun");
    reveal_strlit("r");
    reveal_strlit("ran");
    reveal_strlit("rang");
    reveal_strlit("rao");
    reveal_strlit("re");
    reveal_strlit("ren");
    reveal_strlit("reng");
    reveal_strlit("ri");
    reveal_strlit("rong");
    reveal_strlit("rou");
    reveal_strlit("ru");
    reveal_strlit("rua");
    reveal_strlit("ruan");
    reveal_strlit("rui");
    reveal_strlit("run");
    reveal_strlit("ruo");
    reveal_strlit("s");
    reveal_strlit("sa");
    reveal_strlit("sai");
    reveal_strlit("san");
    reveal_strlit("sang");
    reveal_strlit("sao");
    reveal_strlit("se");
    reveal_strlit("sen");
    reveal_strlit("seng");
    reveal_strlit("sh");
    reveal_strlit("sha");
    reveal_strlit("shai");
    reveal_strlit("shan");
    reveal_strlit("shang");
    reveal_strlit("shao");
    reveal_strlit("she");
    reveal_strlit("shei");
    reveal_strlit("shen");
    reveal_strlit("sheng");
    reveal_with_fuel(precedes, 8);
    assert(precedes(syllables()[280], syllables()[281]));
    assert(precedes(syllables()[281], syllables()[282]));
    assert(precedes(syllables()[282], syllables()[283]));
    assert(precedes(syllables()[283], syllables()[284]));
    assert(precedes(syllables()[284], syllables()[285]));
    assert(precedes(syllables()[285], syllables()[286]));
    assert(precedes(syllables()[286], syllables()[287]));
    assert(precedes(syllables()[287], syllables()[288]));
    assert(precedes(syllables()[288], syllables()[289]));
    assert(precedes(syllables()[289], syllables()[290]));
    assert(precedes(syllables()[290], syllables()[291]));
    assert(precedes(syllables()[291], syllables()[292]));
    assert(precedes(syllables()[292], syllables()[293]));
    assert(precedes(syllables()[293], syllables()[294]));
    assert(precedes(syllables()[294], syllables()[295]));
    assert(precedes(syllables()[295], syllables()[296]));
    assert(precedes(syllables()[296], syllables()[297]));
    assert(precedes(syllables()[297], syllables()[298]));
    assert(precedes(syllables()[298], syllables()[299]));
    assert(precedes(syllables()[299], syllables()[300]));
    assert(precedes(syllables()[300], syllables()[301]));
    assert(precedes(syllables()[301], syllables()[302]));
    assert(precedes(syllables()[302], syllables()[303]));
    assert(precedes(syllables()[303], syllables()[304]));
    assert(precedes(syllables()[304], syllables()[305]));
    assert(precedes(syllables()[305], syllables()[306]));
    assert(precedes(syllables()[306], syllables()[307]));
    assert(precedes(syllables()[307], syllables()[308]));
    assert(precedes(syllables()[308], syllables()[309]));
    assert(precedes(syllables()[309], syllables()[310]));
    assert(precedes(syllables()[310], syllables()[311]));
    assert(precedes(syllables()[311], syllables()[312]));
    assert(precedes(syllables()[312], syllables()[313]));
    assert(precedes(syllables()[313], syllables()[314]));
    assert(precedes(syllables()[314], syllables()[315]));
    assert(precedes(syllables()[315], syllables()[316]));
    assert(precedes(syllables()[316], syllables()[317]));
    assert(precedes(syllables()[317], syllables()[318]));
    assert(precedes(syllables()[318], syllables()[319]));
    assert(precedes(syllables()[319], syllables()[320]));
}

proof fn lemma_syllables_ordered_320()
    ensures
        forall|i: int| 320 <= i < 360 ==> #[trigger] precedes(syllables()[i], syllables()[i + 1]),
{
    reveal_strlit("sheng");
    reveal_strlit("shi");
    reveal_strlit("shou");
    reveal_strlit("shu");
    reveal_strlit("shua");
    reveal_strlit("shuai");
    reveal_strlit("shuan");
    reveal_strlit("shuang");
    reveal_strlit("shui");
    reveal_strlit("shun");
    reveal_strlit("shuo");
    reveal_strlit("si");
    reveal_strlit("song");
    reveal_strlit("sou");
    reveal_strlit("su");
    reveal_strlit("suan");
    reveal_strlit("sui");
    reveal_strlit("sun");
    reveal_strlit("suo");
    reveal_strlit("t");
    reveal_strlit("ta");
    reveal_strlit("tai");
    reveal_strlit("tan");
    reveal_strlit("tang");
    reveal_strlit("tao");
    reveal_strlit("te");
    reveal_strlit("tei");
    reveal_strlit("teng");
    reveal_strlit("ti");
    reveal_strlit("tian");
    reveal_strlit("tiao");
    reveal_strlit("tie");
    reveal_strlit("ting");
    reveal_strlit("tong");
    reveal_strlit("tou");
    reveal_strlit("tu");
    reveal_strlit("tuan");
    reveal_strlit("tui");
    reveal_strlit("tun");
    reveal_strlit("tuo");
    reveal_strlit("w");
    reveal_with_fuel(precedes, 8);
    assert(precedes(syllables()[320], syllables()[321]));
    assert(precedes(syllables()[321], syllables()[322]));
    assert(precedes(syllables()[322], syllables()[323]));
    assert(precedes(syllables()[323], syllables()[324]));
    assert(precedes(syllables()[324], syllables()[325]));
    assert(precedes(syllables()[325], syllables()[326]));
    assert(precedes(syllables()[326], syllables()[327]));
    assert(precedes(syllables()[327], syllables()[328]));
    assert(precedes(syllables()[328], syllables()[329]));
    assert(precedes(syllables()[329], syllables()[330]));
    assert(precedes(syllables()[330], syllables()[331]));
    assert(precedes(syllables()[331], syllables()[332]));
    assert(precedes(syllables()[332], syllables()[333]));
    assert(precedes(syllables()[333], syllables()[334]));
    assert(precedes(syllables()[334], syllables()[335]));
    assert(precedes(syllables()[335], syllables()[336]));
    assert(precedes(syllables()[336], syllables()[337]));
    assert(precedes(syllables()[337], syllables()[338]));
    assert(precedes(syllables()[338], syllables()[339]));
    assert(precedes(syllables()[339], syllables()[340]));
    assert(precedes(syllables()[340], syllables()[341]));
    assert(precedes(syllables()[341], syllables()[342]));
    assert(precedes(syllables()[342], syllables()[343]));
    assert(precedes(syllables()[343], syllables()[344]));
    assert(precedes(syllables()[344], syllables()[345]));
    assert(precedes(syllables()[345], syllables()[346]));
    assert(precedes(syllables()[346], syllables()[347]));
    assert(precedes(syllables()[347], syllables()[348]));
    assert(precedes(syllables()[348], syllables()[349]));
    assert(precedes(syllables()[349], syllables()[350]));
    assert(precedes(syllables()[350], syllables()[351]));
    assert(precedes(syllables()[351], syllables()[352]));
    assert(precedes(syllables()[352], syllables()[353]));
    assert(precedes(syllables()[353], syllables()[354]));
    assert(precedes(syllables()[354], syllables()[355]));
    assert(precedes(syllables()[355], syllables()[356]));
    assert(precedes(syllables()[356], syllables()[357]));
    assert(precedes(syllables()[357], syllables()[358]));
    assert(precedes(syllables()[358], syllables()[359]));
    assert(precedes(syllables()[359], syllables()[360]));
}

proof fn lemma_syllables_ordered_360()
    ensures
        forall|i: int| 360 <= i < 400 ==> #[trigger] precedes(syllables()[i], syllables()[i + 1]),
{
    reveal_strlit("w");
    reveal_strlit("wa");
    reveal_strlit("wai");
    reveal_strlit("wan");
    reveal_strlit("wang");
    reveal_strlit("wei");
    reveal_strlit("wen");
    reveal_strlit("weng");
    reveal_strlit("wo");
    reveal_strlit("wu");
    reveal_strlit("x");
    reveal_strlit("xi");
    reveal_strlit("xia");
    reveal_strlit("xian");
    reveal_strlit("xiang");
    reveal_strlit("xiao");
    reveal_strlit("xie");
    reveal_strlit("xin");
    reveal_strlit("xing");
    reveal_strlit("xiong");
    reveal_strlit("xiu");
    reveal_strlit("xu");
    reveal_strlit("xuan");
    reveal_strlit("xue");
    reveal_strlit("xun");
    reveal_strlit("y");
    reveal_strlit("ya");
    reveal_strlit("yan");
    reveal_strlit("yang");
    reveal_strlit("yao");
    reveal_strlit("ye");
    reveal_strlit("yi");
    reveal_strlit("yin");
    reveal_strlit("ying");
    reveal_strlit("yo");
    reveal_strlit("yong");
    reveal_strlit("you");
    reveal_strlit("yu");
    reveal_strlit("yuan");
    reveal_strlit("yue");
    reveal_strlit("yun");
    reveal_with_fuel(precedes, 8);
    assert(precedes(syllables()[360], syllables()[361]));
    assert(precedes(syllables()[361], syllables()[362]));
    assert(precedes(syllables()[362], syllables()[363]));
    assert(precedes(syllables()[363], syllables()[364]));
    assert(precedes(syllables()[364], syllables()[365]));
    assert(precedes(syllables()[365], syllables()[366]));
    assert(precedes(syllables()[366], syllables()[367]));
    assert(precedes(syllables()[367], syllables()[368]));
    assert(precedes(syllables()[368], syllables()[369]));
    assert(precedes(syllables()[369], syllables()[370]));
    assert(precedes(syllables()[370], syllables()[371]));
    assert(precedes(syllables()[371], syllables()[372]));
    assert(precedes(syllables()[372], syllables()[373]));
    assert(precedes(syllables()[373], syllables()[374]));
    assert(precedes(syllables()[374], syllables()[375]));
    assert(precedes(syllables()[375], syllables()[376]));
    assert(precedes(syllables()[376], syllables()[377]));
    assert(precedes(syllables()[377], syllables()[378]));
    assert(precedes(syllables()[378], syllables()[379]));
    assert(precedes(syllables()[379], syllables()[380]));
    assert(precedes(syllables()[380], syllables()[381]));
    assert(precedes(syllables()[381], syllables()[382]));
    assert(precedes(syllables()[382], syllables()[383]));
    assert(precedes(syllables()[383], syllables()[384]));
    assert(precedes(syllables()[384], syllables()[385]));
    assert(precedes(syllables()[385], syllables()[386]));
    assert(precedes(syllables()[386], syllables()[387]));
    assert(precedes(syllables()[387], syllables()[388]));
    assert(precedes(syllables()[388], syllables()[389]));
    assert(precedes(syllables()[389], syllables()[390]));
    assert(precedes(syllables()[390], syllables()[391]));
    assert(precedes(syllables()[391], syllables()[392]));
    assert(precedes(syllables()[392], syllables()[393]));
    assert(precedes(syllables()[393], syllables()[394]));
    assert(precedes(syllables()[394], syllables()[395]));
    assert(precedes(syllables()[395], syllables()[396]));
    assert(precedes(syllables()[396], syllables()[397]));
    assert(precedes(syllables()[397], syllables()[398]));
    assert(precedes(syllables()[398], syllables()[399]));
    assert(precedes(syllables()[399], syllables()[400]));
}

proof fn lemma_syllables_ordered_400()
    ensures
        forall|i: int| 400 <= i < 439 ==> #[trigger] precedes(syllables()[i], syllables()[i + 1]),
{
    reveal_strlit("yun");
    reveal_strlit("z");
    reveal_strlit("za");
    reveal_strlit("zai");
    reveal_strlit("zan");
    reveal_strlit("zang");
    reveal_strlit("zao");
    reveal_strlit("ze");
    reveal_strlit("zei");
    reveal_strlit("zen");
    reveal_strlit("zeng");
    reveal_strlit("zh");
    reveal_strlit("zha");
    reveal_strlit("zhai");
    reveal_strlit("zhan");
    reveal_strlit("zhang");
    reveal_strlit("zhao");
    reveal_strlit("zhe");
    reveal_strlit("zhei");
    reveal_strlit("zhen");
    reveal_strlit("zheng");
    reveal_strlit("zhi");
    reveal_strlit("zhong");
    reveal_strlit("zhou");
    reveal_strlit("zhu");
    reveal_strlit("zhua");
    reveal_strlit("zhuai");
    reveal_strlit("zhuan");
    reveal_strlit("zhuang");
    reveal_strlit("zhui");
    reveal_strlit("zhun");
    reveal_strlit("zhuo");
    reveal_strlit("zi");
    reveal_strlit("zong");
    reveal_strlit("zou");
    reveal_strlit("zu");
    reveal_strlit("zuan");
    reveal_strlit("zui");
    reveal_strlit("zun");
    reveal_strlit("zuo");
    reveal_with_fuel(precedes, 8);
    assert(precedes(syllables()[400], syllables()[401]));
    assert(precedes(syllables()[401], syllables()[402]));
    assert(precedes(syllables()[402], syllables()[403]));
    assert(precedes(syllables()[403], syllables()[404]));
    assert(precedes(syllables()[404], syllables()[405]));
    assert(precedes(syllables()[405], syllables()[406]));
    assert(precedes(syllables()[406], syllables()[407]));
    assert(precedes(syllables()[407], syllables()[408]));
    assert(precedes(syllables()[408], syllables()[409]));
    assert(precedes(syllables()[409], syllables()[410]));
    assert(precedes(syllables()[410], syllables()[411]));
    assert(precedes(syllables()[411], syllables()[412]));
    assert(precedes(syllables()[412], syllables()[413]));
    assert(precedes(syllables()[413], syllables()[414]));
    assert(precedes(syllables()[414], syllables()[415]));
    assert(precedes(syllables()[415], syllables()[416]));
    assert(precedes(syllables()[416], syllables()[417]));
    assert(precedes(syllables()[417], syllables()[418]));
    assert(precedes(syllables()[418], syllables()[419]));
    assert(precedes(syllables()[419], syllables()[420]));
    assert(precedes(syllables()[420], syllables()[421]));
    assert(precedes(syllables()[421], syllables()[422]));
    assert(precedes(syllables()[422], syllables()[423]));
    assert(precedes(syllables()[423], syllables()[424]));
    assert(precedes(syllables()[424], syllables()[425]));
    assert(precedes(syllables()[425], syllables()[426]));
    assert(precedes(syllables()[426], syllables()[427]));
    assert(precedes(syllables()[427], syllables()[428]));
    assert(precedes(syllables()[428], syllables()[429]));
    assert(precedes(syllables()[429], syllables()[430]));
    assert(precedes(syllables()[430], syllables()[431]));
    assert(precedes(syllables()[431], syllables()[432]));
    assert(precedes(syllables()[432], syllables()[433]));
    assert(precedes(syllables()[433], syllables()[434]));
    assert(precedes(syllables()[434], syllables()[435]));
    assert(precedes(syllables()[435], syllables()[436]));
    assert(precedes(syllables()[436], syllables()[437]));
    assert(precedes(syllables()[437], syllables()[438]));
    assert(precedes(syllables()[438], syllables()[439]));
}

proof fn lemma_syllables_adjacent()
    ensures
        forall|i: int| 0 <= i < 439 ==> #[trigger] precedes(syllables()[i], syllables()[i + 1]),
{
    lemma_syllables_ordered_0();
    lemma_syllables_ordered_40();
    lemma_syllables_ordered_80();
    lemma_syllables_ordered_120();
    lemma_syllables_ordered_160();
    lemma_syllables_ordered_200();
    lemma_syllables_ordered_240();
    lemma_syllables_ordered_280();
    lemma_syllables_ordered_320();
    lemma_syllables_ordered_360();
    lemma_syllables_ordered_400();
}

proof fn lemma_syllables_ordered_from(i: int, j: int)
    requires
        0 <= i < j < 440,
    ensures
        precedes(syllables()[i], syllables()[j]),
    decreases j - i,
{
    lemma_syllables_adjacent();
    if j > i + 1 {
        lemma_syllables_ordered_from(i, j - 1);
        let m = j - 1;
        assert(precedes(syllables()[m], syllables()[m + 1]));
        assert(m + 1 == j);
        lemma_precedes_trans(syllables()[i], syllables()[m], syllables()[j]);
    } else {
        let m = i;
        assert(precedes(syllables()[m], syllables()[m + 1]));
        assert(m + 1 == j);
    }
}

/// The syllable table is strictly sorted.
pub proof fn lemma_syllables_sorted()
    ensures
        forall|i: int, j: int|
            0 <= i < j < 440 ==> precedes(#[trigger] syllables()[i], #[trigger] syllables()[j]),
{
    assert forall|i: int, j: int| 0 <= i < j < 440 implies precedes(
        #[trigger] syllables()[i],
        #[trigger] syllables()[j],
    ) by {
        lemma_syllables_ordered_from(i, j);
    }
}

/// Law: the text of a valid id is found at that id, so looking it up gives
/// the id back.
pub proof fn lemma_syllable_round_trip(id: SyllableId)
    requires
        id.valid(),
    ensures
        syllable_index(id.text()) == Some(id.0 as int),
{
    let k = id.0 as int;
    lemma_first_index(syllables(), id.text());
    lemma_syllables_sorted();
    let f = syllable_index(id.text());
    assert(syllables().contains(id.text())) by {
        assert(syllables()[k] == id.text());
    }
    let j = f->0;
    if j < k {
        lemma_precedes_ne(syllables()[j], syllables()[k]);
    } else if j > k {
        lemma_precedes_ne(syllables()[k], syllables()[j]);
    }
}

/// First index of `x` in `t`.
pub open spec fn first_index(t: Seq<Seq<char>>, x: Seq<char>) -> Option<int>
    decreases t.len(),
{
    if t.len() == 0 {
        None
    } else {
        match first_index(t.drop_last(), x) {
            Some(i) => Some(i),
            None => if t.last() == x {
                Some(t.len() - 1)
            } else {
                None
            },
        }
    }
}

pub proof fn lemma_first_index(t: Seq<Seq<char>>, x: Seq<char>)
    ensures
        first_index(t, x) matches Some(i) ==> 0 <= i < t.len() && t[i] == x && forall|j: int|
            0 <= j < i ==> t[j] != x,
        first_index(t, x) is None <==> !t.contains(x),
    decreases t.len(),
{
    if t.len() > 0 {
        lemma_first_index(t.drop_last(), x);
        if first_index(t.drop_last(), x) is None && t.last() != x {
            assert forall|j: int| 0 <= j < t.len() implies t[j] != x by {
                if j < t.len() - 1 {
                    assert(t[j] == t.drop_last()[j]);
                    assert(!t.drop_last().contains(x));
                }
            }
        }
        if first_index(t.drop_last(), x) is None {
            assert(!t.drop_last().contains(x));
            assert forall|j: int| 0 <= j < t.len() - 1 implies t[j] != x by {
                assert(t[j] == t.drop_last()[j]);
            }
        }
        if first_index(t.drop_last(), x) is Some {
            let i = first_index(t.drop_last(), x)->0;
            assert(t[i] == t.drop_last()[i]);
            assert forall|j: int| 0 <= j < i implies t[j] != x by {
                assert(t[j] == t.drop_last()[j]);
            }
        }
    }
}

/// Index in [`SYLLABLES`] of the syllable `x`.
pub open spec fn syllable_index(x: Seq<char>) -> Option<int> {
    first_index(syllables(), x)
}

/// The code point of `c` lies in the range the dictionary covers.
pub open spec fn in_dict_range(c: char) -> bool {
    CJK_START <= (c as u32) && (c as u32) < CJK_END_EXCL
}

/// The plain readings that `pinyin::ToPinyinMulti::to_pinyin_multi` gives
/// `c`, in the crate's order; empty when the crate has no reading for it.
pub uninterp spec fn pinyin_readings(c: char) -> Seq<Seq<char>>;

/// The plain reading that `pinyin::ToPinyin::to_pinyin` gives `c`.
pub uninterp spec fn pinyin_primary(c: char) -> Option<Seq<char>>;

/// Calls `pinyin::ToPinyin::to_pinyin` on `c` and takes the plain style.
/// The contract claims that the result is a function of `c` alone, named by
/// [`pinyin_primary`]; what that reading is for a given character is left
/// to the crate's data.
#[verifier::external_body]
fn crate_primary(c: char) -> (r: Option<&'static str>)
    ensures
        r matches Some(s) ==> pinyin_primary(c) == Some(s@),
        r is None ==> pinyin_primary(c) is None,
{
    match c.to_pinyin() {
        Some(p) => Some(p.plain()),
        None => None,
    }
}

/// Calls `pinyin::ToPinyinMulti::to_pinyin_multi` on `c` and takes the plain
/// style of every reading. The contract claims that the result is named by
/// [`pinyin_readings`], and, as the crate's source shows (both methods read
/// the same first entry of the character's data), that the first reading is
/// the one `to_pinyin` gives and that there is none exactly when
/// `to_pinyin` gives none.
#[verifier::external_body]
fn crate_readings(c: char) -> (r: Vec<&'static str>)
    ensures
        r@.map_values(|s: &'static str| s@) == pinyin_readings(c),
        r@.len() > 0 ==> pinyin_primary(c) == Some(r@[0]@),
        r@.len() == 0 ==> pinyin_primary(c) is None,
{
    match c.to_pinyin_multi() {
        Some(m) => {
            let mut v = Vec::new();
            for p in m {
                v.push(p.plain());
            }
            v
        },
        None => Vec::new(),
    }
}

/// A unique id into [`SYLLABLES`].
#[derive(Debug, Copy, Clone, PartialEq, Eq, Structural, Hash, PartialOrd, Ord)]
pub struct SyllableId(pub u16);

impl SyllableId {
    /// The id points into the syllable table.
    pub open spec fn valid(self) -> bool {
        (self.0 as int) < SYLLABLE_COUNT
    }

    /// The syllable this id stands for.
    pub open spec fn text(self) -> Seq<char> {
        syllables()[self.0 as int]
    }

    /// Look up the plain (no-tone, lowercase) syllable text.
    pub fn as_str(self) -> (r: &'static str)
        requires
            self.valid(),
        ensures
            r@ == self.text(),
    {
        SYLLABLES[self.0 as usize]
    }

    /// First letter of the syllable as an ASCII byte (e.g. `'l'` for `"liu"`).
    pub fn first_letter(self) -> (r: u8)
        requires
            self.valid(),
        ensures
            r == self.text()[0] as u32,
            97 <= r <= 122,
    {
        proof {
            lemma_syllable_table();
            assert(syllables()[self.0 as int].len() > 0);
        }
        let s = self.as_str();
        let c = s.get_char(0);
        c as u8
    }
}

/// Index of `name` in [`SYLLABLES`], by a scan of the table.
fn syllable_lookup(name: &str) -> (r: Option<u16>)
    ensures
        r matches Some(i) ==> syllable_index(name@) == Some(i as int),
        r is None ==> syllable_index(name@) is None,
{
    proof {
        lemma_first_index(syllables(), name@);
    }
    let mut i: usize = 0;
    while i < SYLLABLE_COUNT
        invariant
            i <= SYLLABLE_COUNT,
            forall|j: int| 0 <= j < i ==> syllables()[j] != name@,
            syllable_index(name@) matches Some(k) ==> 0 <= k < syllables().len() && syllables()[k]
                == name@ && forall|j: int| 0 <= j < k ==> syllables()[j] != name@,
            syllable_index(name@) is None <==> !syllables().contains(name@),
        decreases SYLLABLE_COUNT - i,
    {
        if str_eq(SYLLABLES[i], name) {
            assert(syllables()[i as int] == name@);
            return Some(i as u16);
        }
        i = i + 1;
    }
    None
}

/// `s` with `ü` written `v`, as the syllable table writes it.
pub open spec fn v_form(s: Seq<char>) -> Seq<char> {
    s.map_values(|c: char| if c == 'ü' { 'v' } else { c })
}

/// `s` with `ü` written `v`.
fn v_form_string(s: &str) -> (r: String)
    ensures
        r@ == v_form(s@),
{
    let chars = str_chars(s);
    let mut out: Vec<char> = Vec::new();
    let mut i: usize = 0;
    while i < chars.len()
        invariant
            i <= chars.len(),
            out@ == v_form(chars@.take(i as int)),
        decreases chars.len() - i,
    {
        let c = chars[i];
        out.push(if c == 'ü' { 'v' } else { c });
        assert(chars@.take(i + 1) == chars@.take(i as int).push(c));
        assert(out@ =~= v_form(chars@.take(i + 1)));
        i = i + 1;
    }
    assert(chars@.take(chars.len() as int) == chars@);
    string_from_chars(out.as_slice())
}

/// Ids of the syllables among `rs` that the table knows (with `ü` written
/// `v`), in order, each kept
/// once (at its first occurrence).
pub open spec fn ids_of_readings(rs: Seq<Seq<char>>) -> Seq<SyllableId>
    decreases rs.len(),
{
    if rs.len() == 0 {
        Seq::empty()
    } else {
        let prev = ids_of_readings(rs.drop_last());
        match syllable_index(v_form(rs.last())) {
            Some(i) => if prev.contains(SyllableId(i as u16)) {
                prev
            } else {
                prev.push(SyllableId(i as u16))
            },
            None => prev,
        }
    }
}

/// Primary syllable of `c`: the first reading the crate gives, as an id.
pub open spec fn primary_id_of(c: char) -> Option<SyllableId> {
    if in_dict_range(c) {
        match pinyin_primary(c) {
            Some(p) => match syllable_index(v_form(p)) {
                Some(i) => Some(SyllableId(i as u16)),
                None => None,
            },
            None => None,
        }
    } else {
        None
    }
}

/// Text of the primary syllable of `c`.
pub open spec fn primary_of(c: char) -> Option<Seq<char>> {
    match primary_id_of(c) {
        Some(id) => Some(id.text()),
        None => None,
    }
}

/// Every known reading of `c`: primary first, then the alternates in the
/// crate's order, without repetition; none when `c` has no primary reading.
pub open spec fn reading_ids_of(c: char) -> Seq<SyllableId> {
    if in_dict_range(c) && primary_id_of(c) is Some {
        ids_of_readings(pinyin_readings(c))
    } else {
        Seq::empty()
    }
}

/// `c` has more than one known reading.
pub open spec fn is_polyphone_char(c: char) -> bool {
    reading_ids_of(c).len() > 1
}

/// Every character of the covered range, in code point order, that has the
/// syllable `id` among its readings; only the first `n` code points are
/// looked at.
pub open spec fn homophones_upto(id: SyllableId, n: nat) -> Seq<char>
    decreases n,
{
    if n == 0 {
        Seq::empty()
    } else {
        let prev = homophones_upto(id, (n - 1) as nat);
        let c = ((CJK_START + n - 1) as u32) as char;
        if reading_ids_of(c).contains(id) {
            prev.push(c)
        } else {
            prev
        }
    }
}

/// Every character that reads as the syllable `name`; empty when `name` is
/// not a known syllable.
pub open spec fn homophones_of(name: Seq<char>) -> Seq<char> {
    match syllable_index(name) {
        Some(i) => homophones_upto(SyllableId(i as u16), (CJK_END_EXCL - CJK_START) as nat),
        None => Seq::empty(),
    }
}

pub proof fn lemma_ids_valid(rs: Seq<Seq<char>>)
    ensures
        forall|k: int| 0 <= k < ids_of_readings(rs).len() ==> (#[trigger] ids_of_readings(rs)[k]).valid(),
    decreases rs.len(),
{
    if rs.len() > 0 {
        let prev = ids_of_readings(rs.drop_last());
        lemma_ids_valid(rs.drop_last());
        lemma_first_index(syllables(), v_form(rs.last()));
        match syllable_index(v_form(rs.last())) {
            Some(i) => {
                assert(0 <= i < SYLLABLE_COUNT);
                assert(SyllableId(i as u16).valid());
                assert forall|k: int| 0 <= k < prev.push(SyllableId(i as u16)).len() implies (
                #[trigger] prev.push(SyllableId(i as u16))[k]).valid() by {
                    if k < prev.len() {
                        assert(prev.push(SyllableId(i as u16))[k] == prev[k]);
                    }
                }
            },
            None => {},
        }
    }
}

/// The first reading, when the table knows it, comes first.
pub proof fn lemma_ids_first(rs: Seq<Seq<char>>)
    requires
        rs.len() > 0,
        syllable_index(v_form(rs[0])) is Some,
    ensures
        ids_of_readings(rs).len() > 0,
        ids_of_readings(rs)[0] == SyllableId(syllable_index(v_form(rs[0]))->0 as u16),
    decreases rs.len(),
{
    if rs.len() > 1 {
        let d = rs.drop_last();
        assert(d[0] == rs[0]);
        lemma_ids_first(d);
    } else {
        assert(rs.drop_last().len() == 0);
        assert(ids_of_readings(rs.drop_last()) == Seq::<SyllableId>::empty());
        assert(rs.last() == rs[0]);
        assert(!Seq::<SyllableId>::empty().contains(SyllableId(syllable_index(v_form(rs[0]))->0 as u16)));
    }
}

/// No id is listed twice.
pub proof fn lemma_ids_distinct(rs: Seq<Seq<char>>)
    ensures
        forall|i: int, j: int|
            0 <= i < j < ids_of_readings(rs).len() ==> (#[trigger] ids_of_readings(rs)[i])
                != (#[trigger] ids_of_readings(rs)[j]),
    decreases rs.len(),
{
    if rs.len() > 0 {
        let prev = ids_of_readings(rs.drop_last());
        lemma_ids_distinct(rs.drop_last());
        let cur = ids_of_readings(rs);
        assert forall|i: int, j: int| 0 <= i < j < cur.len() implies (#[trigger] cur[i]) != (
        #[trigger] cur[j]) by {
            if j < prev.len() {
                assert(cur[i] == prev[i] && cur[j] == prev[j]);
            } else {
                assert(cur[i] == prev[i]);
                assert(prev.contains(prev[i]));
            }
        }
    }
}

/// The ids of the readings in `rs` that the syllable table knows, in
/// order, each kept once (at its first occurrence). This is how the readings
/// the `pinyin` crate gives a character become [`PinyinDict::reading_ids`].
pub fn ids_from_readings(rs: &[&str]) -> (r: Vec<SyllableId>)
    ensures
        r@ == ids_of_readings(rs@.map_values(|s: &str| s@)),
        forall|k: int| 0 <= k < r@.len() ==> (#[trigger] r@[k]).valid(),
        forall|i: int, j: int| 0 <= i < j < r@.len() ==> (#[trigger] r@[i]) != (#[trigger] r@[j]),
{
    let ghost views = rs@.map_values(|s: &str| s@);
    let mut out: Vec<SyllableId> = Vec::new();
    let mut i: usize = 0;
    while i < rs.len()
        invariant
            i <= rs.len(),
            views == rs@.map_values(|s: &str| s@),
            out@ == ids_of_readings(views.take(i as int)),
        decreases rs.len() - i,
    {
        assert(views.take(i + 1).drop_last() == views.take(i as int));
        assert(views.take(i + 1).last() == rs@[i as int]@);
        let name = v_form_string(rs[i]);
        match syllable_lookup(name.as_str()) {
            Some(k) => {
                let id = SyllableId(k);
                if !contains_id(&out, id) {
                    out.push(id);
                }
            },
            None => {},
        }
        i = i + 1;
    }
    assert(views.take(rs.len() as int) == views);
    proof {
        lemma_ids_valid(views);
        lemma_ids_distinct(views);
    }
    out
}

fn contains_id(v: &Vec<SyllableId>, id: SyllableId) -> (r: bool)
    ensures
        r == v@.contains(id),
{
    let mut i: usize = 0;
    while i < v.len()
        invariant
            i <= v.len(),
            forall|j: int| 0 <= j < i ==> v@[j] != id,
        decreases v.len() - i,
    {
        if v[i].0 == id.0 {
            assert(v@[i as int] == id);
            return true;
        }
        i = i + 1;
    }
    false
}

pub proof fn lemma_homophones_upto(id: SyllableId, n: nat, c: char)
    requires
        n <= CJK_END_EXCL - CJK_START,
    ensures
        homophones_upto(id, n).contains(c) <==> (CJK_START <= (c as u32) < CJK_START + n
            && reading_ids_of(c).contains(id)),
    decreases n,
{
    if n > 0 {
        let prev = homophones_upto(id, (n - 1) as nat);
        let v = (CJK_START + n - 1) as u32;
        let d = v as char;
        lemma_homophones_upto(id, (n - 1) as nat, c);
        vstd::utf8::char_u32_cast(c, c as u32);
        assert(d as u32 == v);
        if reading_ids_of(d).contains(id) {
            assert(prev.push(d)[prev.len() as int] == d);
            if prev.push(d).contains(c) {
                let k = choose|k: int| 0 <= k < prev.push(d).len() && prev.push(d)[k] == c;
                if k < prev.len() {
                    assert(prev[k] == c);
                }
            }
            if prev.contains(c) {
                let k = choose|k: int| 0 <= k < prev.len() && prev[k] == c;
                assert(prev.push(d)[k] == c);
            }
        }
    }
}

proof fn lemma_homophones_upto_increasing(id: SyllableId, n: nat)
    requires
        n <= CJK_END_EXCL - CJK_START,
    ensures
        forall|k: int|
            0 <= k < homophones_upto(id, n).len() ==> CJK_START <= (#[trigger] homophones_upto(id, n)[k]
                as u32) < CJK_START + n,
        forall|i: int, j: int|
            0 <= i < j < homophones_upto(id, n).len() ==> (homophones_upto(id, n)[i] as u32) < (
            homophones_upto(id, n)[j] as u32),
    decreases n,
{
    if n > 0 {
        let prev = homophones_upto(id, (n - 1) as nat);
        lemma_homophones_upto_increasing(id, (n - 1) as nat);
        let v = (CJK_START + n - 1) as u32;
        let d = v as char;
        assert(d as u32 == v);
        let cur = homophones_upto(id, n);
        assert forall|k: int| 0 <= k < cur.len() implies CJK_START <= (#[trigger] cur[k] as u32)
            < CJK_START + n by {
            if k < prev.len() {
                assert(cur[k] == prev[k]);
            }
        }
        assert forall|i: int, j: int| 0 <= i < j < cur.len() implies (cur[i] as u32) < (
        cur[j] as u32) by {
            assert(cur[i] == prev[i]);
            if j < prev.len() {
                assert(cur[j] == prev[j]);
            } else {
                assert(CJK_START <= (prev[i] as u32) < CJK_START + n - 1);
            }
        }
    }
}

/// Law: the homophones of a syllable come in strictly increasing code point
/// order.
pub proof fn lemma_homophones_increasing(name: Seq<char>)
    ensures
        forall|i: int, j: int|
            0 <= i < j < homophones_of(name).len() ==> (homophones_of(name)[i] as u32) < (
            homophones_of(name)[j] as u32),
{
    match syllable_index(name) {
        Some(i) => lemma_homophones_upto_increasing(
            SyllableId(i as u16),
            (CJK_END_EXCL - CJK_START) as nat,
        ),
        None => {},
    }
}

/// Law: a character is among the homophones of `name` exactly when `name`
/// is a known syllable, the character lies in the covered range, and it has
/// that syllable among its readings.
pub proof fn lemma_homophones_members(name: Seq<char>, c: char)
    ensures
        homophones_of(name).contains(c) <==> (in_dict_range(c) && match syllable_index(name) {
            Some(i) => reading_ids_of(c).contains(SyllableId(i as u16)),
            None => false,
        }),
{
    match syllable_index(name) {
        Some(i) => lemma_homophones_upto(
            SyllableId(i as u16),
            (CJK_END_EXCL - CJK_START) as nat,
            c,
        ),
        None => {},
    }
}

/// Read-only accessor namespace for the bundled pinyin tables.
pub struct PinyinDict;

impl PinyinDict {
    /// Primary syllable id for a character. Returns `None` for characters
    /// outside the bundled range or with no known reading.
    pub fn primary_id(c: char) -> (r: Option<SyllableId>)
        ensures
            r == primary_id_of(c),
            r matches Some(id) ==> id.valid(),
    {
        let cp = c as u32;
        if cp < CJK_START || cp >= CJK_END_EXCL {
            return None;
        }
        match crate_primary(c) {
            Some(p) => match syllable_lookup(v_form_string(p).as_str()) {
                Some(i) => {
                    proof {
                        lemma_first_index(syllables(), v_form(p@));
                    }
                    Some(SyllableId(i))
                },
                None => None,
            },
            None => None,
        }
    }

    /// Plain (no-tone, lowercase) primary pinyin of `c`, e.g. `'刘'` → `"liu"`.
    pub fn primary(c: char) -> (r: Option<&'static str>)
        ensures
            r matches Some(s) ==> primary_of(c) == Some(s@),
            r is None ==> primary_of(c) is None,
    {
        match Self::primary_id(c) {
            Some(id) => Some(id.as_str()),
            None => None,
        }
    }

    /// Every known reading of `c` (primary first, then polyphone alternates
    /// in source order).
    pub fn readings(c: char) -> (r: Vec<&'static str>)
        ensures
            r@.len() == reading_ids_of(c).len(),
            forall|k: int| 0 <= k < r@.len() ==> (#[trigger] r@[k])@ == reading_ids_of(c)[k].text(),
            primary_of(c) matches Some(p) ==> r@.len() > 0 && r@[0]@ == p,
            r@.len() > 0 <==> primary_of(c) is Some,
            forall|i: int, j: int| 0 <= i < j < r@.len() ==> (#[trigger] r@[i])@ != (#[trigger] r@[j])@,
    {
        let ids = Self::reading_ids(c);
        proof {
            lemma_syllables_sorted();
            assert forall|i: int, j: int| 0 <= i < j < ids@.len() implies ids@[i].text() != ids@[j].text() by {
                if ids@[i].0 < ids@[j].0 {
                    lemma_precedes_ne(syllables()[ids@[i].0 as int], syllables()[ids@[j].0 as int]);
                } else {
                    assert(ids@[i].0 != ids@[j].0);
                    lemma_precedes_ne(syllables()[ids@[j].0 as int], syllables()[ids@[i].0 as int]);
                }
            }
        }
        let mut out: Vec<&'static str> = Vec::new();
        let mut i: usize = 0;
        while i < ids.len()
            invariant
                i <= ids.len(),
                ids@ == reading_ids_of(c),
                forall|k: int| 0 <= k < ids@.len() ==> (#[trigger] ids@[k]).valid(),
                out@.len() == i,
                forall|k: int| 0 <= k < i ==> (#[trigger] out@[k])@ == ids@[k].text(),
            decreases ids.len() - i,
        {
            out.push(ids[i].as_str());
            i = i + 1;
        }
        out
    }

    /// Same as [`PinyinDict::readings`] but returns syllable ids.
    pub fn reading_ids(c: char) -> (r: Vec<SyllableId>)
        ensures
            r@ == reading_ids_of(c),
            forall|k: int| 0 <= k < r@.len() ==> (#[trigger] r@[k]).valid(),
            primary_id_of(c) matches Some(id) ==> r@.len() > 0 && r@[0] == id,
            r@.len() > 0 <==> primary_id_of(c) is Some,
            forall|i: int, j: int| 0 <= i < j < r@.len() ==> (#[trigger] r@[i]) != (#[trigger] r@[j]),
    {
        let cp = c as u32;
        if cp < CJK_START || cp >= CJK_END_EXCL {
            return Vec::new();
        }
        if Self::primary_id(c).is_none() {
            return Vec::new();
        }
        let rs = crate_readings(c);
        let r = ids_from_readings(rs.as_slice());
        proof {
            let views = rs@.map_values(|s: &'static str| s@);
            assert(views == rs@.map_values(|s: &str| s@));
            if primary_id_of(c) is Some {
                assert(views[0] == rs@[0]@);
                lemma_ids_first(views);
            }
        }
        r
    }

    /// Whether `c` has more than one known reading (a 多音字).
    pub fn is_polyphone(c: char) -> (r: bool)
        ensures
            r == is_polyphone_char(c),
            r == (reading_ids_of(c).len() >= 2),
    {
        match Self::primary_id(c) {
            Some(_) => Self::reading_ids(c).len() > 1,
            None => false,
        }
    }

    /// Reverse lookup: every character that reads as the given syllable
    /// (homophones, 同音字), in code point order. Empty for unknown
    /// syllables.
    pub fn homophones(syllable: &str) -> (r: Vec<char>)
        ensures
            r@ == homophones_of(syllable@),
            forall|i: int, j: int| 0 <= i < j < r@.len() ==> (r@[i] as u32) < (r@[j] as u32),
    {
        proof {
            lemma_homophones_increasing(syllable@);
        }
        match syllable_lookup(syllable) {
            Some(i) => homophone_chars(SyllableId(i)),
            None => Vec::new(),
        }
    }

    /// Resolve a syllable text to a [`SyllableId`].
    pub fn syllable_id(name: &str) -> (r: Option<SyllableId>)
        ensures
            r matches Some(id) ==> syllable_index(name@) == Some(id.0 as int) && id.valid()
                && id.text() == name@,
            r is None ==> syllable_index(name@) is None,
            r is None <==> !syllables().contains(name@),
    {
        proof {
            lemma_first_index(syllables(), name@);
        }
        match syllable_lookup(name) {
            Some(i) => Some(SyllableId(i)),
            None => None,
        }
    }

    /// All known plain syllables, sorted alphabetically.
    pub fn all_syllables() -> (r: &'static [&'static str])
        ensures
            r@.map_values(|s: &'static str| s@) == syllables(),
            forall|i: int, j: int| 0 <= i < j < r@.len() ==> precedes(r@[i]@, r@[j]@),
            forall|i: int|
                0 <= i < r@.len() ==> (#[trigger] r@[i])@.len() > 0 && all_ascii(r@[i]@)
                    && lower_letters(r@[i]@),
    {
        let r: &'static [&'static str] = &SYLLABLES;
        assert(r@.map_values(|s: &'static str| s@) == syllables());
        proof {
            lemma_syllable_table();
            assert forall|i: int| 0 <= i < r@.len() implies (#[trigger] r@[i])@.len() > 0 && all_ascii(
                r@[i]@,
            ) && lower_letters(r@[i]@) by {
                assert(r@[i]@ == syllables()[i]);
            }
            lemma_syllables_sorted();
            assert forall|i: int, j: int| 0 <= i < j < r@.len() implies precedes(r@[i]@, r@[j]@) by {
                assert(r@[i]@ == syllables()[i]);
                assert(r@[j]@ == syllables()[j]);
            }
        }
        r
    }

    /// Is `text` a valid pinyin alphabet syllable (used by the alphabet
    /// re-segmenter)?
    pub fn is_alphabet_syllable(text: &str) -> (r: bool)
        ensures
            r == alphabet().contains(text@),
    {
        let mut i: usize = 0;
        while i < ALPHABET_COUNT
            invariant
                i <= ALPHABET_COUNT,
                forall|j: int| 0 <= j < i ==> alphabet()[j] != text@,
            decreases ALPHABET_COUNT - i,
        {
            if str_eq(ALPHABET_NAMES[i], text) {
                assert(alphabet()[i as int] == text@);
                return true;
            }
            i = i + 1;
        }
        false
    }
}

/// Every character of the covered range that reads as `id`.
fn homophone_chars(id: SyllableId) -> (r: Vec<char>)
    ensures
        r@ == homophones_upto(id, (CJK_END_EXCL - CJK_START) as nat),
{
    let mut out: Vec<char> = Vec::new();
    let mut cp: u32 = CJK_START;
    while cp < CJK_END_EXCL
        invariant
            CJK_START <= cp <= CJK_END_EXCL,
            out@ == homophones_upto(id, (cp - CJK_START) as nat),
        decreases CJK_END_EXCL - cp,
    {
        match char_from_u32(cp) {
            Some(c) => {
                proof {
                    vstd::utf8::char_u32_cast(c, cp);
                }
                let ids = PinyinDict::reading_ids(c);
                if contains_id(&ids, id) {
                    out.push(c);
                }
            },
            None => {},
        }
        cp = cp + 1;
    }
    out
}

} // verus!
