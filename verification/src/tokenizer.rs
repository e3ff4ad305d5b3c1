//! The pinyin tokenizer.
//!
//! A single pass over the characters of the input emits, per Chinese
//! character, its first letter and/or full pinyin and/or the character
//! itself, and per run of ASCII characters either the run whole or, when
//! re-segmenting, each chunk of letters that reads as whole pinyin
//! syllables cut into them and every other chunk whole (`liudehua` gives
//! `liu`, `de`, `hua`; `Andy Lau` gives `andy`, `lau`); joined tokens (the
//! original text, the joined full pinyin, the joined first letters) follow.
//! Terms borrow from the input or the syllable table where they can, and
//! are owned where lower-casing, trimming or joining made them new, or where
//! a rule's reading is itself owned. Terms are lower-cased and
//! trimmed as configured and de-duplicated through a 64-bit FNV-1a hash; the
//! candidates are then ordered by position (stably) and their positions
//! renumbered from 0.
//!
//! Readings come from, in order of precedence, the phrase overrides of the
//! [`Rules`], its char overrides, and the dictionary's primary reading.

use std::collections::HashSet;
use vstd::prelude::*;
use vstd::string::StrSliceExecFns;

use crate::alphabet::{span_view, token_segments, token_segments_chars, Span};
use crate::config::PinyinConfig;
use crate::dict::{lemma_syllable_table, primary_of, PinyinDict};
use crate::normalizer::{is_chinese, is_chinese_char};
use crate::rules::{longest_phrase_at, Reading, Rules};
use crate::text::{
    all_ascii, ascii_lower_seq, has_ascii_upper, is_ascii_alnum, is_ascii_char, lower_chars, str_chars,
    string_from_chars, trim_chars, trim_seq, utf8_len, utf8_width, char_utf8_width,
};

verus! {

broadcast use vstd::std_specs::hash::group_hash_axioms;

/// The lowercase of `s` as `str::to_lowercase` gives it (Unicode case
/// mapping).
pub uninterp spec fn unicode_lowercase(s: Seq<char>) -> Seq<char>;

/// `str::to_lowercase`. The contract claims that the result is a function of
/// the text alone, named by [`unicode_lowercase`]; as the documentation's
/// definition of the mapping gives, that an ASCII text is lowered letter by
/// letter, and that the result holds no ASCII upper-case letter (the
/// lowercase mapping of every character is lower-case or uncased).
#[verifier::external_body]
fn to_lowercase(s: &str) -> (r: String)
    ensures
        r@ == unicode_lowercase(s@),
        all_ascii(s@) ==> r@ == ascii_lower_seq(s@),
        !has_ascii_upper(r@),
{
    s.to_lowercase()
}

/// The text of a token: borrowed (from the input text or from the
/// syllable table) wherever it is a slice of one, owned otherwise.
#[derive(Debug)]
pub enum Term<'a> {
    Borrowed(&'a str),
    Owned(String),
}

impl<'a> Term<'a> {
    /// The characters of the term.
    pub open spec fn view(&self) -> Seq<char> {
        match self {
            Term::Borrowed(s) => s@,
            Term::Owned(s) => s@,
        }
    }

    /// The term as a string slice.
    pub fn as_str(&self) -> (r: &str)
        ensures
            r@ == self.view(),
    {
        match self {
            Term::Borrowed(s) => s,
            Term::Owned(s) => s.as_str(),
        }
    }

}

impl<'a> Clone for Term<'a> {
    /// The same term: a borrowed text stays borrowed, an owned text is
    /// copied.
    fn clone(&self) -> (r: Self)
        ensures
            r == *self,
    {
        match self {
            Term::Borrowed(s) => Term::Borrowed(*s),
            Term::Owned(s) => Term::Owned(s.clone()),
        }
    }
}

/// A token emitted by [`PinyinTokenizer::tokenize`].
#[derive(Debug)]
pub struct Token<'a> {
    pub term: Term<'a>,
    pub start_offset: u32,
    pub end_offset: u32,
    pub position: u32,
}

impl<'a> Clone for Token<'a> {
    /// The same token.
    fn clone(&self) -> (r: Self)
        ensures
            r == *self,
    {
        Token {
            term: self.term.clone(),
            start_offset: self.start_offset,
            end_offset: self.end_offset,
            position: self.position,
        }
    }
}

/// A token as plain values; `borrowed` tells whether its term borrows (from
/// the input text or the syllable table) rather than owns its text.
pub struct TokenView {
    pub term: Seq<char>,
    pub borrowed: bool,
    pub start_offset: int,
    pub end_offset: int,
    pub position: int,
}

impl<'a> Token<'a> {
    pub open spec fn view(&self) -> TokenView {
        TokenView {
            term: self.term.view(),
            borrowed: self.term is Borrowed,
            start_offset: self.start_offset as int,
            end_offset: self.end_offset as int,
            position: self.position as int,
        }
    }
}

/// FNV-1a 64-bit offset basis.
pub const FNV_OFFSET: u64 = 0xcbf29ce484222325;

/// FNV-1a 64-bit prime.
pub const FNV_PRIME: u64 = 0x100000001b3;

/// One FNV-1a round.
pub open spec fn fnv_step(h: u64, b: u8) -> u64 {
    vstd::wrapping::u64_specs::wrapping_mul(h ^ (b as u64), FNV_PRIME)
}

/// FNV-1a hash of `bytes`.
pub open spec fn fnv_of(bytes: Seq<u8>) -> u64
    decreases bytes.len(),
{
    if bytes.len() == 0 {
        FNV_OFFSET
    } else {
        fnv_step(fnv_of(bytes.drop_last()), bytes.last())
    }
}

/// Little-endian bytes of `x`.
pub open spec fn le_bytes(x: u32) -> Seq<u8> {
    seq![(x & 0xff) as u8, ((x >> 8) & 0xff) as u8, ((x >> 16) & 0xff) as u8, ((x >> 24) & 0xff) as u8]
}

/// FNV-1a of the bytes of `term` followed by those of `extra`.
pub open spec fn fnv_term(term: Seq<char>, extra: u32) -> u64 {
    fnv_of(vstd::utf8::encode_utf8(term) + le_bytes(extra))
}

/// FNV-1a 64-bit hash of `bytes` followed by the little-endian bytes of
/// `extra`.
fn fnv1a_hash(bytes: &[u8], extra: u32) -> (r: u64)
    ensures
        r == fnv_of(bytes@ + le_bytes(extra)),
{
    let mut h: u64 = FNV_OFFSET;
    let mut i: usize = 0;
    let ghost all = bytes@ + le_bytes(extra);
    while i < bytes.len()
        invariant
            i <= bytes.len(),
            all == bytes@ + le_bytes(extra),
            h == fnv_of(all.take(i as int)),
        decreases bytes.len() - i,
    {
        assert(all.take(i + 1).drop_last() == all.take(i as int));
        h = (h ^ bytes[i] as u64).wrapping_mul(FNV_PRIME);
        i = i + 1;
    }
    let eb: [u8; 4] = [
        (extra & 0xff) as u8,
        ((extra >> 8) & 0xff) as u8,
        ((extra >> 16) & 0xff) as u8,
        ((extra >> 24) & 0xff) as u8,
    ];
    let mut k: usize = 0;
    while k < 4
        invariant
            k <= 4,
            all == bytes@ + le_bytes(extra),
            eb@ == le_bytes(extra),
            h == fnv_of(all.take(bytes.len() + k)),
        decreases 4 - k,
    {
        assert(all.take(bytes.len() + k + 1).drop_last() == all.take(bytes.len() + k));
        assert(all[bytes.len() + k] == eb@[k as int]);
        h = (h ^ eb[k] as u64).wrapping_mul(FNV_PRIME);
        k = k + 1;
    }
    assert(all.take(bytes.len() + 4) == all);
    h
}

/// A candidate token, before ordering and renumbering.
pub struct CandView {
    pub term: Seq<char>,
    pub borrowed: bool,
    pub start: int,
    pub end: int,
    pub position: int,
}

/// Internal candidate.
pub struct Candidate<'a> {
    term: Term<'a>,
    start_offset: u32,
    end_offset: u32,
    position: u32,
}

impl<'a> Candidate<'a> {
    pub closed spec fn view(&self) -> CandView {
        CandView {
            term: self.term.view(),
            borrowed: self.term is Borrowed,
            start: self.start_offset as int,
            end: self.end_offset as int,
            position: self.position as int,
        }
    }
}

/// The views of `v`.
pub open spec fn cand_views<'a>(v: Seq<Candidate<'a>>) -> Seq<CandView> {
    v.map_values(|c: Candidate<'a>| c.view())
}

/// A term as it is kept: lower-cased when so configured and it holds an
/// ASCII upper-case letter (letter by letter when it is all ASCII, by the
/// Unicode case mapping otherwise), then trimmed when so configured.
pub open spec fn normalize_term(cfg: PinyinConfig, term: Seq<char>) -> Seq<char> {
    let t = if cfg.lowercase && has_ascii_upper(term) {
        if all_ascii(term) {
            ascii_lower_seq(term)
        } else {
            unicode_lowercase(term)
        }
    } else {
        term
    };
    if cfg.trim_whitespace {
        trim_seq(t)
    } else {
        t
    }
}

/// The de-duplication key of a kept term: its hash, with the position mixed
/// in unless duplicates are removed regardless of position.
pub open spec fn dedup_key(cfg: PinyinConfig, term: Seq<char>, position: int) -> u64 {
    fnv_term(
        term,
        if cfg.remove_duplicate_term {
            0
        } else {
            position as u32
        },
    )
}

/// The candidates so far and the hashes seen.
pub struct Emitted {
    pub cands: Seq<CandView>,
    pub seen: Set<u64>,
}

/// Offer a candidate: it is normalized, dropped when empty or when its key
/// was seen, else kept. `src` tells whether `term` borrows its text; the
/// kept term still borrows exactly when normalizing left it unchanged.
#[verifier::opaque]
pub open spec fn offer(
    cfg: PinyinConfig,
    e: Emitted,
    term: Seq<char>,
    src: bool,
    start: int,
    end: int,
    position: int,
) -> Emitted {
    let t = normalize_term(cfg, term);
    if t.len() == 0 {
        e
    } else if e.seen.contains(dedup_key(cfg, t, position)) {
        e
    } else {
        Emitted {
            cands: e.cands.push(CandView { term: t, borrowed: src && t == term, start, end, position }),
            seen: e.seen.insert(dedup_key(cfg, t, position)),
        }
    }
}

/// Whether `s` holds an ASCII upper-case letter.
fn any_ascii_upper(s: &Vec<char>) -> (r: bool)
    ensures
        r == has_ascii_upper(s@),
{
    let mut i: usize = 0;
    while i < s.len()
        invariant
            i <= s.len(),
            forall|j: int| 0 <= j < i ==> !('A' <= #[trigger] s@[j] && s@[j] <= 'Z'),
        decreases s.len() - i,
    {
        if 'A' <= s[i] && s[i] <= 'Z' {
            return true;
        }
        i = i + 1;
    }
    false
}

/// A trimmed sequence as long as the original is the original.
proof fn lemma_trim_same_len(s: Seq<char>)
    requires
        trim_seq(s).len() == s.len(),
    ensures
        trim_seq(s) == s,
{
    crate::text::lemma_trim_start_bounds(s);
    crate::text::lemma_trim_end_bounds(s);
    if s.len() > 0 {
        assert(trim_seq(s) =~= s);
    } else {
        assert(trim_seq(s) =~= s);
    }
}

/// Offer a candidate to `cands` / `seen`. A term that lower-casing or
/// trimming changes becomes owned; any other keeps its borrow.
fn push_candidate<'a>(
    cfg: &PinyinConfig,
    cands: &mut Vec<Candidate<'a>>,
    seen: &mut HashSet<u64>,
    term: Term<'a>,
    start_offset: u32,
    end_offset: u32,
    position: u32,
)
    ensures
        (Emitted { cands: cand_views(final(cands)@), seen: final(seen)@ }) == offer(
            *cfg,
            Emitted { cands: cand_views(old(cands)@), seen: old(seen)@ },
            term.view(),
            term is Borrowed,
            start_offset as int,
            end_offset as int,
            position as int,
        ),
        cfg.lowercase ==> !has_ascii_upper(normalize_term(*cfg, term.view())),
        cfg.lowercase && emitted_lower(Emitted { cands: cand_views(old(cands)@), seen: old(seen)@ })
            ==> emitted_lower(Emitted { cands: cand_views(final(cands)@), seen: final(seen)@ }),
{
    proof {
        reveal(offer);
    }
    let ghost tv0 = term.view();
    let ghost b0 = term is Borrowed;
    let ghost e0 = Emitted { cands: cand_views(cands@), seen: seen@ };
    let mut t = term;
    if cfg.lowercase {
        let chars = str_chars(t.as_str());
        if any_ascii_upper(&chars) {
            let lowered = to_lowercase(t.as_str());
            t = Term::Owned(lowered);
        }
    }
    let ghost tv1 = t.view();
    if cfg.trim_whitespace {
        let chars = str_chars(t.as_str());
        let trimmed = trim_chars(chars.as_slice());
        if trimmed.len() != chars.len() {
            t = Term::Owned(string_from_chars(trimmed.as_slice()));
        } else {
            proof {
                lemma_trim_same_len(chars@);
            }
        }
    }
    proof {
        assert(t.view() == normalize_term(*cfg, tv0));
        if cfg.lowercase && has_ascii_upper(tv0) {
            assert(!has_ascii_upper(tv1));
            if cfg.trim_whitespace {
                lemma_trim_no_upper(tv1);
            }
            assert(t.view() != tv0);
        }
        assert((t is Borrowed) == (b0 && t.view() == tv0));
        if cfg.lowercase {
            assert(!has_ascii_upper(tv1));
            if cfg.trim_whitespace {
                lemma_trim_no_upper(tv1);
            }
            assert(!has_ascii_upper(normalize_term(*cfg, tv0)));
            if emitted_lower(e0) {
                lemma_offer_lower_kept(*cfg, e0, tv0, b0, start_offset as int, end_offset as int, position as int);
            }
        }
    }
    let len = str_chars(t.as_str()).len();
    if len == 0 {
        return;
    }
    let extra: u32 = if cfg.remove_duplicate_term {
        0
    } else {
        position
    };
    let hash = fnv1a_hash(t.as_str().as_bytes(), extra);
    let ghost old_views = cand_views(cands@);
    let ghost old_seen = seen@;
    if !seen.insert(hash) {
        assert(seen@ =~= old_seen);
        return;
    }
    let ghost tv = t.view();
    let ghost tb = t is Borrowed;
    cands.push(Candidate { term: t, start_offset, end_offset, position });
    assert(cand_views(cands@) =~= old_views.push(
        CandView {
            term: tv,
            borrowed: tb,
            start: start_offset as int,
            end: end_offset as int,
            position: position as int,
        },
    ));
}

/// Byte offset of the character at index `i`.
pub open spec fn byte_offset(chars: Seq<char>, i: int) -> int {
    utf8_len(chars.take(i)) as int
}

/// Per-character readings from the phrase overrides of `m`, for
/// `chars[i..]`: greedily, the longest phrase at a position covers its
/// characters and matching resumes after it; a position no phrase starts at
/// gets `None`.
pub open spec fn phrase_overlay(m: Map<Seq<char>, Seq<Reading>>, chars: Seq<char>, i: int) -> Seq<
    Option<Reading>,
>
    decreases chars.len() - i,
{
    if i >= chars.len() {
        seq![]
    } else {
        match longest_phrase_at(m, chars, i) {
            Some(p) => if p.len() > 0 {
                Seq::new(p.len(), |k: int| Some(m[p][k])) + phrase_overlay(m, chars, i + p.len())
            } else {
                seq![None] + phrase_overlay(m, chars, i + 1)
            },
            None => seq![None] + phrase_overlay(m, chars, i + 1),
        }
    }
}

/// The reading the rules supply for the character `c` at index `i`, if
/// they supply one: the phrase overlay first, then the char override's
/// first reading. An empty reading counts as none (`Some(None)`).
pub open spec fn rule_reading_at(rules: Rules, ov: Seq<Option<Reading>>, c: char, i: int) -> Option<
    Option<Seq<char>>,
> {
    match ov[i] {
        Some(r) => Some(
            if r.text().len() == 0 {
                None
            } else {
                Some(r.text())
            },
        ),
        None => if rules.char_map().contains_key(c) {
            let rs = rules.char_map()[c];
            Some(
                if rs.len() > 0 && rs[0].text().len() > 0 {
                    Some(rs[0].text())
                } else {
                    None
                },
            )
        } else {
            None
        },
    }
}

/// The reading used for the Chinese character `c` at index `i`: the rules'
/// one when they supply one, else the dictionary's primary reading.
pub open spec fn reading_at(rules: Rules, ov: Seq<Option<Reading>>, c: char, i: int) -> Option<
    Seq<char>,
> {
    match rule_reading_at(rules, ov, c, i) {
        Some(x) => x,
        None => match primary_of(c) {
            Some(p) => if p.len() == 0 {
                None
            } else {
                Some(p)
            },
            None => None,
        },
    }
}

/// Whether the reading used for the Chinese character `c` at index `i`
/// borrows from the syllable table: a reading of the rules does when it is
/// interned, the dictionary's always does.
pub open spec fn reading_borrowed_at(rules: Rules, ov: Seq<Option<Reading>>, c: char, i: int) -> bool {
    match ov[i] {
        Some(r) => r is Static,
        None => if rules.char_map().contains_key(c) {
            let rs = rules.char_map()[c];
            rs.len() > 0 && rs[0] is Static
        } else {
            true
        },
    }
}

/// The tokenizer's state after a prefix of the characters.
pub struct TokState {
    pub out: Emitted,
    pub first_letters: Seq<u8>,
    pub joined: Seq<char>,
    pub position: int,
    pub buf_byte_start: int,
    pub buf_byte_end: int,
    pub buf_char_start: int,
    pub buf_char_end: int,
}

/// The run of ASCII characters waiting to be emitted is not empty.
pub open spec fn buffer_active(st: TokState) -> bool {
    st.buf_byte_start < st.buf_byte_end
}

/// Offer a candidate from state `st`.
pub open spec fn offer_st(
    cfg: PinyinConfig,
    st: TokState,
    term: Seq<char>,
    src: bool,
    start: int,
    end: int,
    position: int,
) -> TokState {
    TokState { out: offer(cfg, st.out, term, src, start, end, position), ..st }
}

/// A piece of the pending run borrows from the input unless lower-casing
/// changes it.
pub open spec fn piece_borrowed(cfg: PinyinConfig, raw: Seq<char>, span: (int, int)) -> bool {
    !(cfg.lowercase && has_ascii_upper(raw.subrange(span.0, span.1)))
}

/// The pieces of the pending run, up to the `k`-th, offered in turn, with
/// the character index the next piece starts at.
pub open spec fn flush_pieces(cfg: PinyinConfig, chars: Seq<char>, st: TokState, k: int) -> (TokState, int)
    decreases k,
{
    if k <= 0 {
        (st, st.buf_char_start)
    } else {
        let prev = flush_pieces(cfg, chars, st, k - 1);
        let raw = chars.subrange(st.buf_char_start, st.buf_char_end);
        let low = ascii_lower_seq(raw);
        let span = token_segments(low)[k - 1];
        let term = if cfg.lowercase {
            low.subrange(span.0, span.1)
        } else {
            raw.subrange(span.0, span.1)
        };
        let cur = prev.1;
        let end_char = if cfg.fixed_pinyin_offset {
            cur + 1
        } else {
            cur + (span.1 - span.0)
        };
        let p = prev.0.position + 1;
        (
            offer_st(
                cfg,
                TokState { position: p, ..prev.0 },
                term,
                piece_borrowed(cfg, raw, span),
                byte_offset(chars, cur),
                byte_offset(chars, end_char),
                p,
            ),
            end_char,
        )
    }
}

/// Emit the pending run of ASCII characters: cut into its tokenizer
/// pieces ([`token_segments`]), or whole.
#[verifier::opaque]
pub open spec fn flush(cfg: PinyinConfig, chars: Seq<char>, st: TokState) -> TokState {
    if !cfg.keep_none_chinese {
        st
    } else if cfg.none_chinese_pinyin_tokenize {
        let low = ascii_lower_seq(chars.subrange(st.buf_char_start, st.buf_char_end));
        flush_pieces(cfg, chars, st, token_segments(low).len() as int).0
    } else if cfg.keep_first_letter || cfg.keep_separate_first_letter || cfg.keep_full_pinyin
        || !cfg.keep_none_chinese_in_joined_full_pinyin {
        let p = st.position + 1;
        offer_st(
            cfg,
            TokState { position: p, ..st },
            chars.subrange(st.buf_char_start, st.buf_char_end),
            true,
            byte_offset(chars, st.buf_char_start),
            byte_offset(chars, st.buf_char_end),
            p,
        )
    } else {
        st
    }
}

/// The Chinese character at index `i`.
#[verifier::opaque]
pub open spec fn chinese_step(
    cfg: PinyinConfig,
    rules: Rules,
    chars: Seq<char>,
    ov: Seq<Option<Reading>>,
    st: TokState,
    i: int,
) -> TokState {
    let c = chars[i];
    let s = byte_offset(chars, i);
    let e = byte_offset(chars, i + 1);
    let b = reading_borrowed_at(rules, ov, c, i);
    match reading_at(rules, ov, c, i) {
        Some(p) => {
            let bytes = vstd::utf8::encode_utf8(p);
            let st1 = TokState { first_letters: st.first_letters.push(bytes[0]), ..st };
            let sep = cfg.keep_separate_first_letter && bytes.len() > 1;
            let st2 = if sep {
                let q = st1.position + 1;
                offer_st(cfg, TokState { position: q, ..st1 }, seq![p[0]], b, s, e, q)
            } else {
                st1
            };
            let st3 = if cfg.keep_full_pinyin {
                let q = if sep {
                    st2.position
                } else {
                    st2.position + 1
                };
                offer_st(cfg, TokState { position: q, ..st2 }, p, b, s, e, q)
            } else {
                st2
            };
            let st4 = if cfg.keep_separate_chinese {
                offer_st(cfg, st3, seq![c], true, s, e, st3.position)
            } else {
                st3
            };
            if cfg.keep_joined_full_pinyin {
                TokState { joined: st4.joined + p, ..st4 }
            } else {
                st4
            }
        },
        None => if cfg.keep_separate_chinese {
            offer_st(cfg, st, seq![c], true, s, e, st.position)
        } else {
            st
        },
    }
}

/// The character at index `i`.
pub open spec fn step(
    cfg: PinyinConfig,
    rules: Rules,
    chars: Seq<char>,
    ov: Seq<Option<Reading>>,
    st: TokState,
    i: int,
) -> TokState {
    let c = chars[i];
    let off = byte_offset(chars, i);
    if is_ascii_char(c) {
        let st0 = if !buffer_active(st) {
            TokState { buf_byte_start: off, buf_char_start: i, ..st }
        } else {
            st
        };
        if is_ascii_alnum(c) {
            let st1 = if cfg.keep_none_chinese {
                if cfg.keep_none_chinese_together {
                    TokState { buf_byte_end: off + 1, buf_char_end: i + 1, ..st0 }
                } else {
                    let p = st0.position + 1;
                    offer_st(
                        cfg,
                        TokState { position: p, ..st0 },
                        seq![c],
                        true,
                        off,
                        byte_offset(chars, i + 1),
                        st0.buf_char_start + 1,
                    )
                }
            } else {
                st0
            };
            let st2 = if cfg.keep_none_chinese_in_first_letter {
                TokState { first_letters: st1.first_letters.push((c as u32) as u8), ..st1 }
            } else {
                st1
            };
            if cfg.keep_none_chinese_in_joined_full_pinyin {
                TokState { joined: st2.joined.push(c), ..st2 }
            } else {
                st2
            }
        } else {
            st0
        }
    } else {
        let st0 = if buffer_active(st) {
            let f = flush(cfg, chars, st);
            TokState { buf_byte_start: 0, buf_byte_end: 0, ..f }
        } else {
            st
        };
        if is_chinese_char(c) {
            chinese_step(cfg, rules, chars, ov, st0, i)
        } else {
            st0
        }
    }
}

/// The state before any character.
pub open spec fn initial_state() -> TokState {
    TokState {
        out: Emitted { cands: seq![], seen: Set::empty() },
        first_letters: seq![],
        joined: seq![],
        position: 0,
        buf_byte_start: 0,
        buf_byte_end: 0,
        buf_char_start: 0,
        buf_char_end: 0,
    }
}

/// The state after the first `n` characters.
pub open spec fn run_chars(cfg: PinyinConfig, rules: Rules, chars: Seq<char>, ov: Seq<Option<Reading>>, n: int) -> TokState
    decreases n,
{
    if n <= 0 {
        initial_state()
    } else {
        step(cfg, rules, chars, ov, run_chars(cfg, rules, chars, ov, n - 1), n - 1)
    }
}

/// ASCII lower-casing of one byte.
pub open spec fn lower_byte(b: u8) -> u8 {
    if 65 <= b <= 90 {
        (b + 32) as u8
    } else {
        b
    }
}

/// The joined first-letter term: the first letters, cut to the limit when
/// one is set, lower-cased when so configured, each byte as a character.
pub open spec fn first_letter_term(cfg: PinyinConfig, fl: Seq<u8>) -> Seq<char> {
    let lim = cfg.limit_first_letter_length as int;
    let take = if lim > 0 && fl.len() > lim {
        lim
    } else {
        fl.len() as int
    };
    Seq::new(
        take as nat,
        |k: int|
            (if cfg.lowercase {
                lower_byte(fl[k])
            } else {
                fl[k]
            }) as char,
    )
}

/// The candidates after the last character: the pending run, then the
/// original text, the joined full pinyin and the joined first letters.
pub open spec fn finish(cfg: PinyinConfig, chars: Seq<char>, st: TokState) -> Emitted {
    let st1 = if buffer_active(st) {
        flush(cfg, chars, st)
    } else {
        st
    };
    let total = utf8_len(chars) as int;
    let e1 = if cfg.keep_original {
        offer(cfg, st1.out, chars, true, 0, total, 1)
    } else {
        st1.out
    };
    let e2 = if cfg.keep_joined_full_pinyin && st1.joined.len() > 0 {
        offer(cfg, e1, st1.joined, false, 0, total, 1)
    } else {
        e1
    };
    if cfg.keep_first_letter && st1.first_letters.len() > 0 {
        let s = first_letter_term(cfg, st1.first_letters);
        if !(cfg.keep_separate_first_letter && s.len() <= 1) {
            offer(cfg, e2, s, false, 0, (utf8_len(s) as u32) as int, 1)
        } else {
            e2
        }
    } else {
        e2
    }
}

/// `s` with `x` put after the last element whose position is not greater
/// than that of `x` (scanning from the end).
pub open spec fn insert_by_position(s: Seq<CandView>, x: CandView) -> Seq<CandView>
    decreases s.len(),
{
    if s.len() == 0 {
        seq![x]
    } else if s.last().position <= x.position {
        s.push(x)
    } else {
        insert_by_position(s.drop_last(), x).push(s.last())
    }
}

/// Stable sort by position.
pub open spec fn sort_by_position(s: Seq<CandView>) -> Seq<CandView>
    decreases s.len(),
{
    if s.len() == 0 {
        s
    } else {
        insert_by_position(sort_by_position(s.drop_last()), s.last())
    }
}

/// Renumbering: the tokens so far, the last position seen (`-1` at
/// first) and the current emitted position.
pub open spec fn renumber_state(s: Seq<CandView>) -> (Seq<TokenView>, int, int)
    decreases s.len(),
{
    if s.len() == 0 {
        (seq![], -1, 0)
    } else {
        let prev = renumber_state(s.drop_last());
        let x = s.last();
        let (last, emit) = if x.position > prev.1 {
            (
                x.position,
                if prev.1 >= 0 {
                    prev.2 + 1
                } else {
                    prev.2
                },
            )
        } else {
            (prev.1, prev.2)
        };
        (
            prev.0.push(
                TokenView {
                    term: x.term,
                    borrowed: x.borrowed,
                    start_offset: x.start,
                    end_offset: x.end,
                    position: emit,
                },
            ),
            last,
            emit,
        )
    }
}

/// Where [`insert_by_position`] puts `x` into `s`.
pub open spec fn insert_index(s: Seq<CandView>, x: CandView) -> int
    decreases s.len(),
{
    if s.len() == 0 {
        0
    } else if s.last().position <= x.position {
        s.len() as int
    } else {
        insert_index(s.drop_last(), x)
    }
}

pub proof fn lemma_insert_at(s: Seq<CandView>, x: CandView)
    ensures
        0 <= insert_index(s, x) <= s.len(),
        insert_by_position(s, x) == s.take(insert_index(s, x)).push(x) + s.skip(insert_index(s, x)),
    decreases s.len(),
{
    if s.len() == 0 {
        assert(s.take(0).push(x) + s.skip(0) =~= seq![x]);
    } else if s.last().position <= x.position {
        assert(s.take(s.len() as int).push(x) + s.skip(s.len() as int) =~= s.push(x));
    } else {
        let d = s.drop_last();
        lemma_insert_at(d, x);
        let j = insert_index(d, x);
        assert((d.take(j).push(x) + d.skip(j)).push(s.last()) =~= s.take(j).push(x) + s.skip(j));
    }
}

/// The index in `s` of the element that [`sort_by_position`] puts at `i`.
pub open spec fn sort_source(s: Seq<CandView>, i: int) -> int
    decreases s.len(),
{
    if s.len() == 0 {
        0
    } else {
        let j = insert_index(sort_by_position(s.drop_last()), s.last());
        if i == j {
            s.len() - 1
        } else if i < j {
            sort_source(s.drop_last(), i)
        } else {
            sort_source(s.drop_last(), i - 1)
        }
    }
}

/// Sorting rearranges: every element of the result comes from its own
/// index of the input.
pub proof fn lemma_sort_source(s: Seq<CandView>)
    ensures
        sort_by_position(s).len() == s.len(),
        forall|i: int|
            0 <= i < s.len() ==> 0 <= #[trigger] sort_source(s, i) < s.len() && sort_by_position(s)[i]
                == s[sort_source(s, i)],
        forall|i: int, k: int|
            0 <= i < k < s.len() ==> #[trigger] sort_source(s, i) != #[trigger] sort_source(s, k),
    decreases s.len(),
{
    if s.len() > 0 {
        let d = s.drop_last();
        let x = s.last();
        let a = sort_by_position(d);
        lemma_sort_source(d);
        lemma_insert_at(a, x);
        let j = insert_index(a, x);
        let r = sort_by_position(s);
        assert(r == a.take(j).push(x) + a.skip(j));
        assert forall|i: int| 0 <= i < s.len() implies 0 <= #[trigger] sort_source(s, i) < s.len()
            && r[i] == s[sort_source(s, i)] by {
            if i < j {
                assert(r[i] == a[i]);
                assert(sort_source(s, i) == sort_source(d, i));
            } else if i == j {
                assert(r[i] == x);
            } else {
                assert(r[i] == a[i - 1]);
                assert(sort_source(s, i) == sort_source(d, i - 1));
            }
        }
        assert forall|i: int, k: int| 0 <= i < k < s.len() implies #[trigger] sort_source(s, i)
            != #[trigger] sort_source(s, k) by {
            let si = if i < j {
                sort_source(d, i)
            } else if i == j {
                d.len() as int
            } else {
                sort_source(d, i - 1)
            };
            let sk = if k < j {
                sort_source(d, k)
            } else if k == j {
                d.len() as int
            } else {
                sort_source(d, k - 1)
            };
            assert(sort_source(s, i) == si);
            assert(sort_source(s, k) == sk);
            if i != j && k != j {
                let ii = if i < j {
                    i
                } else {
                    i - 1
                };
                let kk = if k < j {
                    k
                } else {
                    k - 1
                };
                assert(ii < kk);
                assert(sort_source(d, ii) != sort_source(d, kk));
            } else if i == j {
                let kk = k - 1;
                assert(0 <= sort_source(d, kk) < d.len());
            } else {
                assert(0 <= sort_source(d, i) < d.len());
            }
        }
    }
}

pub proof fn lemma_insert_index_bounds(s: Seq<CandView>, x: CandView)
    ensures
        0 <= insert_index(s, x) <= s.len(),
        insert_index(s, x) > 0 ==> s[insert_index(s, x) - 1].position <= x.position,
        forall|k: int| insert_index(s, x) <= k < s.len() ==> #[trigger] s[k].position > x.position,
    decreases s.len(),
{
    if s.len() > 0 && !(s.last().position <= x.position) {
        let d = s.drop_last();
        lemma_insert_index_bounds(d, x);
        assert forall|k: int| insert_index(s, x) <= k < s.len() implies #[trigger] s[k].position
            > x.position by {
            if k < d.len() {
                assert(s[k] == d[k]);
            }
        }
        if insert_index(d, x) > 0 {
            assert(s[insert_index(d, x) - 1] == d[insert_index(d, x) - 1]);
        }
    }
}

/// Positions do not go down along `s`.
pub open spec fn sorted_by_position(s: Seq<CandView>) -> bool {
    forall|i: int, j: int|
        0 <= i <= j < s.len() ==> (#[trigger] s[i]).position <= (#[trigger] s[j]).position
}

/// The sort orders by position.
pub proof fn lemma_sort_sorted(s: Seq<CandView>)
    ensures
        sorted_by_position(sort_by_position(s)),
    decreases s.len(),
{
    if s.len() > 0 {
        let d = s.drop_last();
        let x = s.last();
        let a = sort_by_position(d);
        lemma_sort_sorted(d);
        lemma_insert_at(a, x);
        lemma_insert_index_bounds(a, x);
        let j = insert_index(a, x);
        let r = sort_by_position(s);
        assert(r == a.take(j).push(x) + a.skip(j));
        assert forall|i: int, k: int| 0 <= i <= k < r.len() implies (#[trigger] r[i]).position <= (
        #[trigger] r[k]).position by {
            if i < j {
                assert(r[i] == a[i]);
                assert(a[i].position <= a[j - 1].position);
            } else if i == j {
                assert(r[i] == x);
            } else {
                assert(r[i] == a[i - 1]);
            }
            if k < j {
                assert(r[k] == a[k]);
            } else if k == j {
                assert(r[k] == x);
            } else {
                assert(r[k] == a[k - 1]);
            }
        }
    }
}

/// On candidates sorted by position, none below 0, renumbering keeps the
/// order of positions and maps equal positions, and only those, to equal
/// positions.
pub proof fn lemma_renumber_sorted(s: Seq<CandView>)
    requires
        sorted_by_position(s),
        forall|i: int| 0 <= i < s.len() ==> (#[trigger] s[i]).position >= 0,
    ensures
        s.len() > 0 ==> renumber_state(s).1 == s.last().position,
        forall|i: int, k: int|
            0 <= i <= k < s.len() ==> (#[trigger] renumber_state(s).0[i]).position <= (
            #[trigger] renumber_state(s).0[k]).position,
        forall|i: int, k: int|
            0 <= i < k < s.len() ==> ((#[trigger] renumber_state(s).0[i]).position == (
            #[trigger] renumber_state(s).0[k]).position <==> s[i].position == s[k].position),
    decreases s.len(),
{
    if s.len() > 0 {
        let d = s.drop_last();
        let n = d.len() as int;
        assert forall|i: int, j: int| 0 <= i <= j < d.len() implies (#[trigger] d[i]).position <= (
        #[trigger] d[j]).position by {
            assert(d[i] == s[i] && d[j] == s[j]);
        }
        assert forall|i: int| 0 <= i < d.len() implies (#[trigger] d[i]).position >= 0 by {
            assert(d[i] == s[i]);
        }
        lemma_renumber_sorted(d);
        lemma_renumber(d);
        lemma_renumber(s);
        lemma_renumber_bound(d);
        let out = renumber_state(s).0;
        let prev = renumber_state(d).0;
        assert(out == prev.push(out.last()));
        assert forall|k: int| 0 <= k < n implies #[trigger] out[k] == prev[k] by {}
        if n > 0 {
            assert(d.last() == s[n - 1]);
            assert(s[n - 1].position <= s[n].position);
        }
        assert forall|i: int, k: int| 0 <= i <= k < s.len() implies (#[trigger] out[i]).position <= (
        #[trigger] out[k]).position by {
            if k < n {
                assert(out[i] == prev[i] && out[k] == prev[k]);
            } else if i < n {
                assert(out[i] == prev[i]);
                assert(prev[i].position <= prev[n - 1].position);
            }
        }
        assert forall|i: int, k: int| 0 <= i < k < s.len() implies ((#[trigger] out[i]).position == (
        #[trigger] out[k]).position <==> s[i].position == s[k].position) by {
            assert(out[i] == prev[i]);
            assert(s[i] == d[i]);
            if k < n {
                assert(out[k] == prev[k]);
                assert(s[k] == d[k]);
            } else {
                assert(prev[i].position <= prev[n - 1].position);
                assert(s[i].position <= s[n - 1].position);
                if i < n - 1 {
                    assert(prev[i].position == prev[n - 1].position <==> d[i].position == d[n - 1].position);
                }
            }
        }
    }
}

/// Renumbering keeps each candidate's term and offsets, starts at
/// position 0 and goes up by at most one at a time.
pub proof fn lemma_renumber(s: Seq<CandView>)
    ensures
        renumber_state(s).0.len() == s.len(),
        s.len() > 0 ==> renumber_state(s).0[0].position == 0,
        s.len() > 0 ==> renumber_state(s).2 == renumber_state(s).0.last().position,
        forall|k: int|
            0 <= k < s.len() ==> {
                &&& (#[trigger] renumber_state(s).0[k]).term == s[k].term
                &&& renumber_state(s).0[k].start_offset == s[k].start
                &&& renumber_state(s).0[k].end_offset == s[k].end
            },
        forall|k: int|
            0 <= k < s.len() - 1 ==> {
                ||| #[trigger] renumber_state(s).0[k + 1].position == renumber_state(s).0[k].position
                ||| renumber_state(s).0[k + 1].position == renumber_state(s).0[k].position + 1
            },
    decreases s.len(),
{
    if s.len() > 0 {
        let d = s.drop_last();
        lemma_renumber(d);
        lemma_renumber_bound(d);
        let out = renumber_state(s).0;
        let prev = renumber_state(d).0;
        assert(out == prev.push(out.last()));
        assert forall|k: int| 0 <= k < s.len() implies {
            &&& (#[trigger] renumber_state(s).0[k]).term == s[k].term
            &&& renumber_state(s).0[k].start_offset == s[k].start
            &&& renumber_state(s).0[k].end_offset == s[k].end
        } by {
            if k < d.len() {
                assert(out[k] == prev[k]);
                assert(s[k] == d[k]);
            }
        }
        assert forall|k: int| 0 <= k < s.len() - 1 implies {
            ||| #[trigger] renumber_state(s).0[k + 1].position == renumber_state(s).0[k].position
            ||| renumber_state(s).0[k + 1].position == renumber_state(s).0[k].position + 1
        } by {
            assert(out[k] == prev[k]);
            if k + 1 < d.len() {
                assert(out[k + 1] == prev[k + 1]);
            }
        }
        if d.len() == 0 {
            assert(renumber_state(d).1 == -1);
        }
    }
}

/// What [`PinyinTokenizer::tokenize`] returns for `text`.
pub open spec fn tokenize_spec(cfg: PinyinConfig, rules: Rules, text: Seq<char>) -> Seq<TokenView> {
    if text.len() == 0 {
        seq![]
    } else {
        let ov = phrase_overlay(rules.phrase_map(), text, 0);
        let st = run_chars(cfg, rules, text, ov, text.len() as int);
        renumber_state(sort_by_position(finish(cfg, text, st).cands)).0
    }
}

/// The candidates that [`tokenize_spec`] orders and renumbers.
pub open spec fn tokenize_cands(cfg: PinyinConfig, rules: Rules, text: Seq<char>) -> Seq<CandView> {
    let ov = phrase_overlay(rules.phrase_map(), text, 0);
    finish(cfg, text, run_chars(cfg, rules, text, ov, text.len() as int)).cands
}

proof fn lemma_tokenize_parts(cfg: PinyinConfig, rules: Rules, text: Seq<char>)
    ensures
        emitted_ok(
            cfg,
            finish(
                cfg,
                text,
                run_chars(cfg, rules, text, phrase_overlay(rules.phrase_map(), text, 0), text.len() as int),
            ),
        ),
        text.len() > 0 ==> tokenize_spec(cfg, rules, text) == renumber_state(
            sort_by_position(tokenize_cands(cfg, rules, text)),
        ).0,
        text.len() == 0 ==> tokenize_spec(cfg, rules, text).len() == 0,
{
    let ov = phrase_overlay(rules.phrase_map(), text, 0);
    let n = text.len() as int;
    lemma_run_ok(cfg, rules, text, ov, n);
    lemma_run_inv(cfg, rules, text, ov, n);
    lemma_finish_ok(cfg, text, run_chars(cfg, rules, text, ov, n));
}

/// Law: no token has an empty term, and no token's start offset comes
/// after its end offset.
pub proof fn lemma_tokens_well_formed(cfg: PinyinConfig, rules: Rules, text: Seq<char>)
    ensures
        forall|k: int|
            0 <= k < tokenize_spec(cfg, rules, text).len() ==> {
                &&& (#[trigger] tokenize_spec(cfg, rules, text)[k]).term.len() > 0
                &&& tokenize_spec(cfg, rules, text)[k].start_offset <= tokenize_spec(
                    cfg,
                    rules,
                    text,
                )[k].end_offset
            },
{
    lemma_tokenize_parts(cfg, rules, text);
    if text.len() > 0 {
        let c = tokenize_cands(cfg, rules, text);
        lemma_sort_source(c);
        lemma_renumber(sort_by_position(c));
        assert forall|k: int| 0 <= k < tokenize_spec(cfg, rules, text).len() implies {
            &&& (#[trigger] tokenize_spec(cfg, rules, text)[k]).term.len() > 0
            &&& tokenize_spec(cfg, rules, text)[k].start_offset <= tokenize_spec(
                cfg,
                rules,
                text,
            )[k].end_offset
        } by {
            let src = sort_source(c, k);
            assert(sort_by_position(c)[k] == c[src]);
        }
    }
}

/// Law: no token ends after the end of the text (for a text whose length
/// fits the 32-bit offsets).
pub proof fn lemma_token_ends_within_text(cfg: PinyinConfig, rules: Rules, text: Seq<char>)
    requires
        utf8_len(text) <= 0xFFFF_FFFF,
    ensures
        forall|k: int|
            0 <= k < tokenize_spec(cfg, rules, text).len() ==> (#[trigger] tokenize_spec(
                cfg,
                rules,
                text,
            )[k]).end_offset <= utf8_len(text),
{
    lemma_tokenize_parts(cfg, rules, text);
    if text.len() > 0 {
        let ov = phrase_overlay(rules.phrase_map(), text, 0);
        let n = text.len() as int;
        lemma_run_within(cfg, rules, text, ov, n);
        lemma_run_inv(cfg, rules, text, ov, n);
        lemma_finish_within(cfg, text, run_chars(cfg, rules, text, ov, n));
        let c = tokenize_cands(cfg, rules, text);
        lemma_sort_source(c);
        lemma_renumber(sort_by_position(c));
        assert forall|k: int| 0 <= k < tokenize_spec(cfg, rules, text).len() implies (
        #[trigger] tokenize_spec(cfg, rules, text)[k]).end_offset <= utf8_len(text) by {
            assert(sort_by_position(c)[k] == c[sort_source(c, k)]);
        }
    }
}

/// Law: with `trim_whitespace` on, every token's term is its own trimmed
/// form.
pub proof fn lemma_terms_trimmed(cfg: PinyinConfig, rules: Rules, text: Seq<char>)
    requires
        cfg.trim_whitespace,
    ensures
        forall|k: int|
            0 <= k < tokenize_spec(cfg, rules, text).len() ==> trim_seq(
                #[trigger] tokenize_spec(cfg, rules, text)[k].term,
            ) == tokenize_spec(cfg, rules, text)[k].term,
{
    lemma_tokenize_parts(cfg, rules, text);
    if text.len() > 0 {
        let c = tokenize_cands(cfg, rules, text);
        lemma_sort_source(c);
        lemma_renumber(sort_by_position(c));
        assert forall|k: int| 0 <= k < tokenize_spec(cfg, rules, text).len() implies trim_seq(
            #[trigger] tokenize_spec(cfg, rules, text)[k].term,
        ) == tokenize_spec(cfg, rules, text)[k].term by {
            assert(sort_by_position(c)[k] == c[sort_source(c, k)]);
        }
    }
}

/// Law: token positions start at 0 and, from one token to the next, stay
/// or go up by one.
pub proof fn lemma_token_positions(cfg: PinyinConfig, rules: Rules, text: Seq<char>)
    ensures
        tokenize_spec(cfg, rules, text).len() > 0 ==> tokenize_spec(cfg, rules, text)[0].position
            == 0,
        forall|k: int|
            0 <= k < tokenize_spec(cfg, rules, text).len() - 1 ==> {
                ||| #[trigger] tokenize_spec(cfg, rules, text)[k + 1].position == tokenize_spec(
                    cfg,
                    rules,
                    text,
                )[k].position
                ||| tokenize_spec(cfg, rules, text)[k + 1].position == tokenize_spec(
                    cfg,
                    rules,
                    text,
                )[k].position + 1
            },
{
    lemma_tokenize_parts(cfg, rules, text);
    if text.len() > 0 {
        let c = tokenize_cands(cfg, rules, text);
        lemma_sort_source(c);
        lemma_renumber(sort_by_position(c));
    }
}

/// Law: with `remove_duplicate_term` set, no two tokens share a term.
pub proof fn lemma_no_duplicate_terms(cfg: PinyinConfig, rules: Rules, text: Seq<char>)
    requires
        cfg.remove_duplicate_term,
    ensures
        forall|i: int, j: int|
            0 <= i < j < tokenize_spec(cfg, rules, text).len() ==> (#[trigger] tokenize_spec(
                cfg,
                rules,
                text,
            )[i]).term != (#[trigger] tokenize_spec(cfg, rules, text)[j]).term,
{
    lemma_tokenize_parts(cfg, rules, text);
    if text.len() > 0 {
        let c = tokenize_cands(cfg, rules, text);
        let t = tokenize_spec(cfg, rules, text);
        lemma_sort_source(c);
        lemma_renumber(sort_by_position(c));
        assert forall|i: int, j: int| 0 <= i < j < t.len() implies (#[trigger] t[i]).term != (
        #[trigger] t[j]).term by {
            let si = sort_source(c, i);
            let sj = sort_source(c, j);
            assert(sort_by_position(c)[i] == c[si]);
            assert(sort_by_position(c)[j] == c[sj]);
            assert(si != sj);
            if si < sj {
                assert(cand_key(cfg, c[si]) != cand_key(cfg, c[sj]));
            } else {
                assert(cand_key(cfg, c[sj]) != cand_key(cfg, c[si]));
            }
        }
    }
}

/// Law: no two tokens at the same position share a term.
pub proof fn lemma_no_duplicate_at_position(cfg: PinyinConfig, rules: Rules, text: Seq<char>)
    ensures
        forall|i: int, j: int|
            0 <= i < j < tokenize_spec(cfg, rules, text).len() && (#[trigger] tokenize_spec(
                cfg,
                rules,
                text,
            )[i]).term == (#[trigger] tokenize_spec(cfg, rules, text)[j]).term
                ==> tokenize_spec(cfg, rules, text)[i].position != tokenize_spec(
                cfg,
                rules,
                text,
            )[j].position,
{
    lemma_tokenize_parts(cfg, rules, text);
    if text.len() > 0 {
        let c = tokenize_cands(cfg, rules, text);
        let sc = sort_by_position(c);
        let t = tokenize_spec(cfg, rules, text);
        lemma_sort_source(c);
        lemma_sort_sorted(c);
        assert forall|i: int| 0 <= i < sc.len() implies (#[trigger] sc[i]).position >= 0 by {
            assert(sc[i] == c[sort_source(c, i)]);
        }
        lemma_renumber_sorted(sc);
        lemma_renumber(sc);
        assert forall|i: int, j: int|
            0 <= i < j < t.len() && (#[trigger] t[i]).term == (#[trigger] t[j]).term implies t[i].position
            != t[j].position by {
            let si = sort_source(c, i);
            let sj = sort_source(c, j);
            assert(sc[i] == c[si]);
            assert(sc[j] == c[sj]);
            assert(si != sj);
            if t[i].position == t[j].position {
                assert(sc[i].position == sc[j].position);
                if si < sj {
                    assert(cand_key(cfg, c[si]) != cand_key(cfg, c[sj]));
                } else {
                    assert(cand_key(cfg, c[sj]) != cand_key(cfg, c[si]));
                }
            }
        }
    }
}

proof fn lemma_overlay_empty(m: Map<Seq<char>, Seq<Reading>>, chars: Seq<char>, j: int)
    requires
        m == Map::<Seq<char>, Seq<Reading>>::empty(),
        0 <= j <= chars.len(),
    ensures
        phrase_overlay(m, chars, j).len() == chars.len() - j,
        forall|k: int| 0 <= k < chars.len() - j ==> #[trigger] phrase_overlay(m, chars, j)[k] is None,
    decreases chars.len() - j,
{
    if j < chars.len() {
        assert(!exists|p: Seq<char>| crate::rules::is_longest_at(m, chars, j, p));
        lemma_overlay_empty(m, chars, j + 1);
        let rest = phrase_overlay(m, chars, j + 1);
        assert(phrase_overlay(m, chars, j) == seq![None] + rest);
        assert forall|k: int| 0 <= k < chars.len() - j implies #[trigger] phrase_overlay(m, chars, j)[k]
            is None by {
            if k > 0 {
                assert(phrase_overlay(m, chars, j)[k] == rest[k - 1]);
            }
        }
    }
}

/// Law: with no rules, every Chinese character is read as the dictionary's
/// primary reading.
pub proof fn lemma_no_rules_reads_dictionary(rules: Rules, chars: Seq<char>, i: int)
    requires
        rules.char_map() == Map::<char, Seq<Reading>>::empty(),
        rules.phrase_map() == Map::<Seq<char>, Seq<Reading>>::empty(),
        0 <= i < chars.len(),
    ensures
        reading_at(rules, phrase_overlay(rules.phrase_map(), chars, 0), chars[i], i) == primary_of(
            chars[i],
        ),
{
    lemma_overlay_empty(rules.phrase_map(), chars, 0);
    lemma_syllable_table();
    match crate::dict::pinyin_primary(chars[i]) {
        Some(p) => {
            crate::dict::lemma_first_index(crate::dict::syllables(), crate::dict::v_form(p));
            match crate::dict::syllable_index(crate::dict::v_form(p)) {
                Some(k) => {
                    assert(crate::dict::syllables()[k].len() > 0);
                },
                None => {},
            }
        },
        None => {},
    }
}

/// Law: with lower-casing on, an ASCII text gives no token with an
/// upper-case letter.
pub proof fn lemma_lowercase_ascii_text(cfg: PinyinConfig, rules: Rules, text: Seq<char>)
    requires
        cfg.lowercase,
        all_ascii(text),
    ensures
        forall|k: int|
            0 <= k < tokenize_spec(cfg, rules, text).len() ==> !has_ascii_upper(
                #[trigger] tokenize_spec(cfg, rules, text)[k].term,
            ),
{
    lemma_tokenize_parts(cfg, rules, text);
    if text.len() > 0 {
        let ov = phrase_overlay(rules.phrase_map(), text, 0);
        let n = text.len() as int;
        lemma_run_lower(cfg, rules, text, ov, n);
        lemma_run_inv(cfg, rules, text, ov, n);
        lemma_finish_lower(cfg, text, run_chars(cfg, rules, text, ov, n));
        lemma_tokens_lower(cfg, rules, text);
    }
}

/// The tokens carry the candidates' terms: when no candidate's term holds
/// an ASCII upper-case letter, no token's term does.
proof fn lemma_tokens_lower(cfg: PinyinConfig, rules: Rules, text: Seq<char>)
    requires
        text.len() > 0,
        emitted_lower(
            finish(
                cfg,
                text,
                run_chars(cfg, rules, text, phrase_overlay(rules.phrase_map(), text, 0), text.len() as int),
            ),
        ),
    ensures
        forall|k: int|
            0 <= k < tokenize_spec(cfg, rules, text).len() ==> !has_ascii_upper(
                #[trigger] tokenize_spec(cfg, rules, text)[k].term,
            ),
{
    lemma_tokenize_parts(cfg, rules, text);
    let c = tokenize_cands(cfg, rules, text);
    lemma_sort_source(c);
    lemma_renumber(sort_by_position(c));
    assert forall|k: int| 0 <= k < tokenize_spec(cfg, rules, text).len() implies !has_ascii_upper(
        #[trigger] tokenize_spec(cfg, rules, text)[k].term,
    ) by {
        assert(sort_by_position(c)[k] == c[sort_source(c, k)]);
    }
}

/// Bounds that hold of the state after the first `i` characters.
pub open spec fn state_inv(cfg: PinyinConfig, chars: Seq<char>, st: TokState, i: int) -> bool {
    &&& buffer_active(st) ==> cfg.keep_none_chinese && cfg.keep_none_chinese_together
    &&& 0 <= st.position <= i
    &&& st.first_letters.len() <= i
    &&& buffer_active(st) ==> st.position <= st.buf_char_start
    &&& 0 <= st.buf_char_start <= i
    &&& 0 <= st.buf_char_end <= i
    &&& 0 <= st.buf_byte_start <= byte_offset(chars, i)
    &&& 0 <= st.buf_byte_end <= byte_offset(chars, i)
    &&& buffer_active(st) ==> {
        &&& st.buf_char_start < st.buf_char_end
        &&& st.buf_byte_start == byte_offset(chars, st.buf_char_start)
        &&& st.buf_byte_end == byte_offset(chars, st.buf_char_end)
        &&& forall|k: int| st.buf_char_start <= k < i ==> is_ascii_char(#[trigger] chars[k])
    }
}

pub proof fn lemma_byte_offset_step(chars: Seq<char>, i: int)
    requires
        0 <= i < chars.len(),
    ensures
        byte_offset(chars, i + 1) == byte_offset(chars, i) + utf8_width(chars[i]),
{
    assert(chars.take(i + 1).drop_last() == chars.take(i));
}

pub proof fn lemma_byte_offset_mono(chars: Seq<char>, i: int, j: int)
    requires
        0 <= i <= j <= chars.len(),
    ensures
        byte_offset(chars, i) <= byte_offset(chars, j),
    decreases j - i,
{
    if i < j {
        lemma_byte_offset_mono(chars, i, j - 1);
        lemma_byte_offset_step(chars, j - 1);
    }
}

pub proof fn lemma_byte_offset_total(chars: Seq<char>)
    ensures
        byte_offset(chars, chars.len() as int) == utf8_len(chars),
{
    assert(chars.take(chars.len() as int) == chars);
}

/// Offering a candidate changes only the candidates.
pub proof fn lemma_offer_st(cfg: PinyinConfig, st: TokState, term: Seq<char>, b: bool, s: int, e: int, p: int)
    ensures
        offer_st(cfg, st, term, b, s, e, p).position == st.position,
        offer_st(cfg, st, term, b, s, e, p).buf_byte_start == st.buf_byte_start,
        offer_st(cfg, st, term, b, s, e, p).buf_byte_end == st.buf_byte_end,
        offer_st(cfg, st, term, b, s, e, p).buf_char_start == st.buf_char_start,
        offer_st(cfg, st, term, b, s, e, p).buf_char_end == st.buf_char_end,
{
}

/// After `k` pieces of the pending run: the position went up by `k`, the
/// buffer is as it was, and the next piece starts where the `k`-th ended
/// (or `k` characters in, with fixed offsets).
pub proof fn lemma_flush_pieces(cfg: PinyinConfig, chars: Seq<char>, st: TokState, k: int)
    requires
        0 <= st.buf_char_start < st.buf_char_end <= chars.len(),
        0 <= k <= token_segments(ascii_lower_seq(chars.subrange(st.buf_char_start, st.buf_char_end))).len(),
    ensures
        ({
            let r = flush_pieces(cfg, chars, st, k);
            let spans = token_segments(ascii_lower_seq(chars.subrange(st.buf_char_start, st.buf_char_end)));
            &&& r.0.position == st.position + k
            &&& r.0.buf_byte_start == st.buf_byte_start
            &&& r.0.buf_byte_end == st.buf_byte_end
            &&& r.0.buf_char_start == st.buf_char_start
            &&& r.0.buf_char_end == st.buf_char_end
            &&& r.0.first_letters == st.first_letters
            &&& r.0.joined == st.joined
            &&& r.1 == (if cfg.fixed_pinyin_offset {
                st.buf_char_start + k
            } else if k == 0 {
                st.buf_char_start
            } else {
                st.buf_char_start + spans[k - 1].1
            })
        }),
    decreases k,
{
    let low = ascii_lower_seq(chars.subrange(st.buf_char_start, st.buf_char_end));
    let spans = token_segments(low);
    crate::alphabet::lemma_token_segments_tile(low);
    crate::alphabet::lemma_tiles_chain(spans, 0, low.len() as int);
    if k > 0 {
        lemma_flush_pieces(cfg, chars, st, k - 1);
        if k > 1 {
            assert(spans[k - 1].0 == spans[k - 2].1);
        }
    }
}

/// Emitting the pending run adds at most one position per character of
/// the run and leaves the buffer fields alone.
pub proof fn lemma_flush(cfg: PinyinConfig, chars: Seq<char>, st: TokState)
    requires
        0 <= st.buf_char_start < st.buf_char_end <= chars.len(),
    ensures
        st.position <= flush(cfg, chars, st).position <= st.position + (st.buf_char_end
            - st.buf_char_start),
        flush(cfg, chars, st).buf_char_start == st.buf_char_start,
        flush(cfg, chars, st).buf_char_end == st.buf_char_end,
        flush(cfg, chars, st).first_letters == st.first_letters,
        flush(cfg, chars, st).joined == st.joined,
{
    let low = ascii_lower_seq(chars.subrange(st.buf_char_start, st.buf_char_end));
    let spans = token_segments(low);
    crate::alphabet::lemma_token_segments_tile(low);
    crate::alphabet::lemma_tiles_chain(spans, 0, low.len() as int);
    lemma_flush_pieces(cfg, chars, st, spans.len() as int);
    reveal(flush);
}

/// Law: emitting the pending run moves the position on by one per token it
/// offers: by the number of pieces when the run is re-segmented, by one when
/// it is emitted whole, and not at all when non-Chinese text is dropped.
pub proof fn lemma_flush_position(cfg: PinyinConfig, chars: Seq<char>, st: TokState)
    requires
        0 <= st.buf_char_start < st.buf_char_end <= chars.len(),
    ensures
        flush(cfg, chars, st).position == st.position + (if !cfg.keep_none_chinese {
            0
        } else if cfg.none_chinese_pinyin_tokenize {
            token_segments(ascii_lower_seq(chars.subrange(st.buf_char_start, st.buf_char_end))).len() as int
        } else if cfg.keep_first_letter || cfg.keep_separate_first_letter || cfg.keep_full_pinyin
            || !cfg.keep_none_chinese_in_joined_full_pinyin {
            1
        } else {
            0
        }),
{
    reveal(flush);
    let low = ascii_lower_seq(chars.subrange(st.buf_char_start, st.buf_char_end));
    crate::alphabet::lemma_token_segments_tile(low);
    crate::alphabet::lemma_tiles_chain(token_segments(low), 0, low.len() as int);
    lemma_flush_pieces(cfg, chars, st, token_segments(low).len() as int);
}

/// The Chinese step adds at most one position and leaves the buffer
/// fields alone.
pub proof fn lemma_chinese_step(
    cfg: PinyinConfig,
    rules: Rules,
    chars: Seq<char>,
    ov: Seq<Option<Reading>>,
    st: TokState,
    i: int,
)
    ensures
        ({
            let r = chinese_step(cfg, rules, chars, ov, st, i);
            &&& st.position <= r.position <= st.position + 1
            &&& r.first_letters.len() <= st.first_letters.len() + 1
            &&& r.buf_byte_start == st.buf_byte_start
            &&& r.buf_byte_end == st.buf_byte_end
            &&& r.buf_char_start == st.buf_char_start
            &&& r.buf_char_end == st.buf_char_end
        }),
{
    reveal(chinese_step);
}

/// The step keeps the bounds.
pub proof fn lemma_step_inv(
    cfg: PinyinConfig,
    rules: Rules,
    chars: Seq<char>,
    ov: Seq<Option<Reading>>,
    st: TokState,
    i: int,
)
    requires
        0 <= i < chars.len(),
        state_inv(cfg, chars, st, i),
    ensures
        state_inv(cfg, chars, step(cfg, rules, chars, ov, st, i), i + 1),
{
    let c = chars[i];
    lemma_byte_offset_step(chars, i);
    lemma_byte_offset_mono(chars, i, i + 1);
    if is_ascii_char(c) {
        lemma_ascii_step_inv(cfg, rules, chars, ov, st, i);
    } else {
        if buffer_active(st) {
            lemma_flush(cfg, chars, st);
            let f = flush(cfg, chars, st);
            let st0 = TokState { buf_byte_start: 0, buf_byte_end: 0, ..f };
            assert(state_inv(cfg, chars, st0, i + 1));
            if is_chinese_char(c) {
                lemma_chinese_step(cfg, rules, chars, ov, st0, i);
            }
        } else {
            assert(state_inv(cfg, chars, st, i + 1));
            if is_chinese_char(c) {
                lemma_chinese_step(cfg, rules, chars, ov, st, i);
            }
        }
    }
}

proof fn lemma_ascii_step_inv(
    cfg: PinyinConfig,
    rules: Rules,
    chars: Seq<char>,
    ov: Seq<Option<Reading>>,
    st: TokState,
    i: int,
)
    requires
        0 <= i < chars.len(),
        state_inv(cfg, chars, st, i),
        is_ascii_char(chars[i]),
        byte_offset(chars, i + 1) == byte_offset(chars, i) + 1,
    ensures
        state_inv(cfg, chars, step(cfg, rules, chars, ov, st, i), i + 1),
{
    let c = chars[i];
    let off = byte_offset(chars, i);
    let st0 = if !buffer_active(st) {
        TokState { buf_byte_start: off, buf_char_start: i, ..st }
    } else {
        st
    };
    assert(state_inv(cfg, chars, st0, i + 1));
    if buffer_active(st) {
        lemma_byte_offset_mono(chars, st.buf_char_start, i);
    }
    if is_ascii_alnum(c) {
        let st1 = if cfg.keep_none_chinese {
            if cfg.keep_none_chinese_together {
                let t = TokState { buf_byte_end: off + 1, buf_char_end: i + 1, ..st0 };
                assert(state_inv(cfg, chars, t, i + 1));
                t
            } else {
                let p = st0.position + 1;
                let t = offer_st(
                    cfg,
                    TokState { position: p, ..st0 },
                    seq![c],
                    true,
                    off,
                    byte_offset(chars, i + 1),
                    st0.buf_char_start + 1,
                );
                lemma_offer_st(
                    cfg,
                    TokState { position: p, ..st0 },
                    seq![c],
                    true,
                    off,
                    byte_offset(chars, i + 1),
                    st0.buf_char_start + 1,
                );
                assert(!buffer_active(st0) ==> state_inv(cfg, chars, t, i + 1));
                assert(buffer_active(st0) ==> state_inv(cfg, chars, t, i + 1));
                t
            }
        } else {
            st0
        };
        assert(state_inv(cfg, chars, st1, i + 1));
    }
}

/// The bounds hold of every prefix.
pub proof fn lemma_run_inv(
    cfg: PinyinConfig,
    rules: Rules,
    chars: Seq<char>,
    ov: Seq<Option<Reading>>,
    n: int,
)
    requires
        0 <= n <= chars.len(),
    ensures
        state_inv(cfg, chars, run_chars(cfg, rules, chars, ov, n), n),
    decreases n,
{
    if n > 0 {
        lemma_run_inv(cfg, rules, chars, ov, n - 1);
        lemma_step_inv(cfg, rules, chars, ov, run_chars(cfg, rules, chars, ov, n - 1), n - 1);
    } else {
        assert(byte_offset(chars, 0) == 0) by {
            assert(chars.take(0).len() == 0);
        }
    }
}

/// The key a kept candidate was recorded under.
pub open spec fn cand_key(cfg: PinyinConfig, c: CandView) -> u64 {
    dedup_key(cfg, c.term, c.position)
}

/// What holds of the candidates kept so far: each has a non-empty term and
/// a start offset not after its end offset, its key was recorded, and no
/// two share a key.
pub open spec fn emitted_ok(cfg: PinyinConfig, e: Emitted) -> bool {
    &&& forall|i: int|
        0 <= i < e.cands.len() ==> {
            &&& (#[trigger] e.cands[i]).term.len() > 0
            &&& e.cands[i].start <= e.cands[i].end
            &&& e.cands[i].position >= 0
            &&& e.seen.contains(cand_key(cfg, e.cands[i]))
            &&& cfg.trim_whitespace ==> trim_seq(e.cands[i].term) == e.cands[i].term
        }
    &&& forall|i: int, j: int|
        0 <= i < j < e.cands.len() ==> cand_key(cfg, #[trigger] e.cands[i]) != cand_key(
            cfg,
            #[trigger] e.cands[j],
        )
}

/// Trimming twice trims once.
pub proof fn lemma_trim_idempotent(s: Seq<char>)
    ensures
        trim_seq(trim_seq(s)) == trim_seq(s),
{
    crate::text::lemma_trim_start_bounds(s);
    crate::text::lemma_trim_end_bounds(s);
    crate::text::lemma_trim_indices_ordered(s);
    let t = trim_seq(s);
    if t.len() == 0 {
        assert(trim_seq(t) =~= t);
    } else {
        let a = crate::text::trim_start_index(s);
        let b = crate::text::trim_end_index(s);
        assert(t[0] == s[a]);
        assert(t.last() == s[b - 1]);
        assert(crate::text::trim_start_index(t) == 0);
        assert(crate::text::trim_end_index(t) == t.len());
        assert(trim_seq(t) =~= t);
    }
}

/// Offering a candidate whose start is not after its end, at a position
/// not below 0, keeps [`emitted_ok`].
pub proof fn lemma_offer_ok(cfg: PinyinConfig, e: Emitted, term: Seq<char>, s: int, end: int, p: int)
    requires
        emitted_ok(cfg, e),
        s <= end,
        p >= 0,
    ensures
        forall|b: bool| emitted_ok(cfg, #[trigger] offer(cfg, e, term, b, s, end, p)),
{
    reveal(offer);
    assert forall|b: bool| emitted_ok(cfg, #[trigger] offer(cfg, e, term, b, s, end, p)) by {
        lemma_offer_ok_src(cfg, e, term, b, s, end, p);
    }
}

proof fn lemma_offer_ok_src(cfg: PinyinConfig, e: Emitted, term: Seq<char>, b: bool, s: int, end: int, p: int)
    requires
        emitted_ok(cfg, e),
        s <= end,
        p >= 0,
    ensures
        emitted_ok(cfg, offer(cfg, e, term, b, s, end, p)),
{
    reveal(offer);
    let t = normalize_term(cfg, term);
    let r = offer(cfg, e, term, b, s, end, p);
    if cfg.trim_whitespace {
        let t0 = if cfg.lowercase && has_ascii_upper(term) {
            if all_ascii(term) {
                ascii_lower_seq(term)
            } else {
                unicode_lowercase(term)
            }
        } else {
            term
        };
        lemma_trim_idempotent(t0);
    }
    if t.len() > 0 && !e.seen.contains(dedup_key(cfg, t, p)) {
        let x = CandView { term: t, borrowed: b && t == term, start: s, end, position: p };
        assert(cand_key(cfg, x) == dedup_key(cfg, t, p));
        assert forall|i: int| 0 <= i < r.cands.len() implies {
            &&& (#[trigger] r.cands[i]).term.len() > 0
            &&& r.cands[i].start <= r.cands[i].end
            &&& r.cands[i].position >= 0
            &&& r.seen.contains(cand_key(cfg, r.cands[i]))
            &&& cfg.trim_whitespace ==> trim_seq(r.cands[i].term) == r.cands[i].term
        } by {
            if i < e.cands.len() {
                assert(r.cands[i] == e.cands[i]);
            }
        }
        assert forall|i: int, j: int| 0 <= i < j < r.cands.len() implies cand_key(
            cfg,
            #[trigger] r.cands[i],
        ) != cand_key(cfg, #[trigger] r.cands[j]) by {
            assert(r.cands[i] == e.cands[i]);
            if j < e.cands.len() {
                assert(r.cands[j] == e.cands[j]);
            } else {
                assert(e.seen.contains(cand_key(cfg, e.cands[i])));
            }
        }
    }
}

/// The pieces of the pending run keep [`emitted_ok`].
pub proof fn lemma_flush_pieces_ok(cfg: PinyinConfig, chars: Seq<char>, st: TokState, k: int)
    requires
        0 <= st.buf_char_start < st.buf_char_end <= chars.len(),
        0 <= k <= token_segments(ascii_lower_seq(chars.subrange(st.buf_char_start, st.buf_char_end))).len(),
        emitted_ok(cfg, st.out),
        st.position >= 0,
    ensures
        emitted_ok(cfg, flush_pieces(cfg, chars, st, k).0.out),
    decreases k,
{
    if k > 0 {
        let low = ascii_lower_seq(chars.subrange(st.buf_char_start, st.buf_char_end));
        let spans = token_segments(low);
        crate::alphabet::lemma_token_segments_tile(low);
        crate::alphabet::lemma_tiles_chain(spans, 0, low.len() as int);
        crate::alphabet::lemma_tiles_within(spans, 0, low.len() as int);
        lemma_flush_pieces_ok(cfg, chars, st, k - 1);
        lemma_flush_pieces(cfg, chars, st, k - 1);
        let prev = flush_pieces(cfg, chars, st, k - 1);
        let span = spans[k - 1];
        let cur = prev.1;
        let end_char = if cfg.fixed_pinyin_offset {
            cur + 1
        } else {
            cur + (span.1 - span.0)
        };
        if k > 1 {
            assert(spans[k - 1].0 == spans[k - 2].1);
        }
        assert(st.buf_char_start <= cur <= end_char <= st.buf_char_end);
        lemma_byte_offset_mono(chars, cur, end_char);
        let raw = chars.subrange(st.buf_char_start, st.buf_char_end);
        let term = if cfg.lowercase {
            low.subrange(span.0, span.1)
        } else {
            raw.subrange(span.0, span.1)
        };
        let p = prev.0.position + 1;
        lemma_offer_ok(
            cfg,
            prev.0.out,
            term,
            byte_offset(chars, cur),
            byte_offset(chars, end_char),
            p,
        );
    }
}

/// Emitting the pending run keeps [`emitted_ok`].
pub proof fn lemma_flush_ok(cfg: PinyinConfig, chars: Seq<char>, st: TokState)
    requires
        0 <= st.buf_char_start < st.buf_char_end <= chars.len(),
        emitted_ok(cfg, st.out),
        st.position >= 0,
    ensures
        emitted_ok(cfg, flush(cfg, chars, st).out),
{
    reveal(flush);
    let low = ascii_lower_seq(chars.subrange(st.buf_char_start, st.buf_char_end));
    lemma_flush_pieces_ok(cfg, chars, st, token_segments(low).len() as int);
    lemma_byte_offset_mono(chars, st.buf_char_start, st.buf_char_end);
    let p = st.position + 1;
    lemma_offer_ok(
        cfg,
        st.out,
        chars.subrange(st.buf_char_start, st.buf_char_end),
        byte_offset(chars, st.buf_char_start),
        byte_offset(chars, st.buf_char_end),
        p,
    );
}

/// The Chinese step keeps [`emitted_ok`].
pub proof fn lemma_chinese_step_ok(
    cfg: PinyinConfig,
    rules: Rules,
    chars: Seq<char>,
    ov: Seq<Option<Reading>>,
    st: TokState,
    i: int,
)
    requires
        0 <= i < chars.len(),
        emitted_ok(cfg, st.out),
        st.position >= 0,
    ensures
        emitted_ok(cfg, chinese_step(cfg, rules, chars, ov, st, i).out),
{
    reveal(chinese_step);
    let c = chars[i];
    let s = byte_offset(chars, i);
    let e = byte_offset(chars, i + 1);
    lemma_byte_offset_mono(chars, i, i + 1);
    match reading_at(rules, ov, c, i) {
        Some(p) => {
            let bytes = vstd::utf8::encode_utf8(p);
            let st1 = TokState { first_letters: st.first_letters.push(bytes[0]), ..st };
            let sep = cfg.keep_separate_first_letter && bytes.len() > 1;
            let q1 = st1.position + 1;
            lemma_offer_ok(cfg, st1.out, seq![p[0]], s, e, q1);
            let st2 = if sep {
                offer_st(cfg, TokState { position: q1, ..st1 }, seq![p[0]], reading_borrowed_at(rules, ov, c, i), s, e, q1)
            } else {
                st1
            };
            let q2 = if sep {
                st2.position
            } else {
                st2.position + 1
            };
            lemma_offer_ok(cfg, st2.out, p, s, e, q2);
            let st3 = if cfg.keep_full_pinyin {
                offer_st(cfg, TokState { position: q2, ..st2 }, p, reading_borrowed_at(rules, ov, c, i), s, e, q2)
            } else {
                st2
            };
            lemma_offer_ok(cfg, st3.out, seq![c], s, e, st3.position);
        },
        None => {
            lemma_offer_ok(cfg, st.out, seq![c], s, e, st.position);
        },
    }
}

/// The step keeps [`emitted_ok`].
pub proof fn lemma_step_ok(
    cfg: PinyinConfig,
    rules: Rules,
    chars: Seq<char>,
    ov: Seq<Option<Reading>>,
    st: TokState,
    i: int,
)
    requires
        0 <= i < chars.len(),
        state_inv(cfg, chars, st, i),
        emitted_ok(cfg, st.out),
    ensures
        emitted_ok(cfg, step(cfg, rules, chars, ov, st, i).out),
{
    let c = chars[i];
    let off = byte_offset(chars, i);
    lemma_byte_offset_mono(chars, i, i + 1);
    if is_ascii_char(c) {
        let st0 = if !buffer_active(st) {
            TokState { buf_byte_start: off, buf_char_start: i, ..st }
        } else {
            st
        };
        let p = st0.position + 1;
        lemma_offer_ok(cfg, st0.out, seq![c], off, byte_offset(chars, i + 1), st0.buf_char_start + 1);
    } else {
        if buffer_active(st) {
            lemma_flush_ok(cfg, chars, st);
            lemma_flush(cfg, chars, st);
            let f = flush(cfg, chars, st);
            let st0 = TokState { buf_byte_start: 0, buf_byte_end: 0, ..f };
            lemma_chinese_step_ok(cfg, rules, chars, ov, st0, i);
        } else {
            lemma_chinese_step_ok(cfg, rules, chars, ov, st, i);
        }
    }
}

/// Every prefix keeps [`emitted_ok`].
pub proof fn lemma_run_ok(cfg: PinyinConfig, rules: Rules, chars: Seq<char>, ov: Seq<Option<Reading>>, n: int)
    requires
        0 <= n <= chars.len(),
    ensures
        emitted_ok(cfg, run_chars(cfg, rules, chars, ov, n).out),
    decreases n,
{
    if n > 0 {
        lemma_run_ok(cfg, rules, chars, ov, n - 1);
        lemma_run_inv(cfg, rules, chars, ov, n - 1);
        lemma_step_ok(cfg, rules, chars, ov, run_chars(cfg, rules, chars, ov, n - 1), n - 1);
    }
}

/// What follows the last character keeps [`emitted_ok`].
pub proof fn lemma_finish_ok(cfg: PinyinConfig, chars: Seq<char>, st: TokState)
    requires
        state_inv(cfg, chars, st, chars.len() as int),
        emitted_ok(cfg, st.out),
    ensures
        emitted_ok(cfg, finish(cfg, chars, st)),
{
    let st1 = if buffer_active(st) {
        lemma_flush_ok(cfg, chars, st);
        lemma_flush(cfg, chars, st);
        flush(cfg, chars, st)
    } else {
        st
    };
    let total = utf8_len(chars) as int;
    lemma_offer_ok(cfg, st1.out, chars, 0, total, 1);
    let e1 = if cfg.keep_original {
        offer(cfg, st1.out, chars, true, 0, total, 1)
    } else {
        st1.out
    };
    lemma_offer_ok(cfg, e1, st1.joined, 0, total, 1);
    let e2 = if cfg.keep_joined_full_pinyin && st1.joined.len() > 0 {
        offer(cfg, e1, st1.joined, false, 0, total, 1)
    } else {
        e1
    };
    let s = first_letter_term(cfg, st1.first_letters);
    lemma_offer_ok(cfg, e2, s, 0, (utf8_len(s) as u32) as int, 1);
}

/// No kept candidate holds an ASCII upper-case letter.
pub open spec fn emitted_lower(e: Emitted) -> bool {
    forall|i: int| 0 <= i < e.cands.len() ==> !has_ascii_upper(#[trigger] e.cands[i].term)
}

/// Lower-casing an ASCII term leaves no upper-case letter, and trimming
/// keeps that.
pub proof fn lemma_normalize_lower(cfg: PinyinConfig, term: Seq<char>)
    requires
        cfg.lowercase,
        all_ascii(term),
    ensures
        !has_ascii_upper(normalize_term(cfg, term)),
{
    let t = if has_ascii_upper(term) {
        ascii_lower_seq(term)
    } else {
        term
    };
    assert(!has_ascii_upper(t)) by {
        if has_ascii_upper(term) {
            assert forall|i: int| 0 <= i < t.len() implies !('A' <= #[trigger] t[i] && t[i] <= 'Z') by {
                assert(t[i] == crate::text::ascii_lower(term[i]));
            }
        }
    }
    lemma_trim_no_upper(t);
}

/// Trimming a text with no ASCII upper-case letter leaves none.
proof fn lemma_trim_no_upper(t: Seq<char>)
    requires
        !has_ascii_upper(t),
    ensures
        !has_ascii_upper(trim_seq(t)),
{
    crate::text::lemma_trim_start_bounds(t);
    crate::text::lemma_trim_end_bounds(t);
    let r = trim_seq(t);
    assert forall|i: int| 0 <= i < r.len() implies !('A' <= #[trigger] r[i] && r[i] <= 'Z') by {
        assert(r[i] == t[crate::text::trim_start_index(t) + i]);
    }
}

/// Offering an ASCII term under lower-casing keeps [`emitted_lower`].
pub proof fn lemma_offer_lower(cfg: PinyinConfig, e: Emitted, term: Seq<char>, s: int, end: int, p: int)
    requires
        cfg.lowercase,
        all_ascii(term),
        emitted_lower(e),
    ensures
        forall|b: bool| emitted_lower(#[trigger] offer(cfg, e, term, b, s, end, p)),
{
    lemma_normalize_lower(cfg, term);
    assert forall|b: bool| emitted_lower(#[trigger] offer(cfg, e, term, b, s, end, p)) by {
        lemma_offer_lower_kept(cfg, e, term, b, s, end, p);
    }
}

/// Offering a term that normalizes to one with no ASCII upper-case letter
/// keeps [`emitted_lower`].
pub proof fn lemma_offer_lower_kept(
    cfg: PinyinConfig,
    e: Emitted,
    term: Seq<char>,
    b: bool,
    s: int,
    end: int,
    p: int,
)
    requires
        !has_ascii_upper(normalize_term(cfg, term)),
        emitted_lower(e),
    ensures
        emitted_lower(offer(cfg, e, term, b, s, end, p)),
{
    reveal(offer);
    let r = offer(cfg, e, term, b, s, end, p);
    assert forall|i: int| 0 <= i < r.cands.len() implies !has_ascii_upper(#[trigger] r.cands[i].term) by {
        if i < e.cands.len() {
            assert(r.cands[i] == e.cands[i]);
        }
    }
}

/// For an ASCII text under lower-casing: no kept term has an upper-case
/// letter, and the joined pinyin and the first letters are ASCII.
pub open spec fn lower_state(st: TokState) -> bool {
    &&& emitted_lower(st.out)
    &&& all_ascii(st.joined)
    &&& forall|k: int| 0 <= k < st.first_letters.len() ==> #[trigger] st.first_letters[k] < 128
}

pub proof fn lemma_flush_pieces_lower(cfg: PinyinConfig, chars: Seq<char>, st: TokState, k: int)
    requires
        cfg.lowercase,
        all_ascii(chars),
        0 <= st.buf_char_start < st.buf_char_end <= chars.len(),
        0 <= k <= token_segments(ascii_lower_seq(chars.subrange(st.buf_char_start, st.buf_char_end))).len(),
        lower_state(st),
    ensures
        lower_state(flush_pieces(cfg, chars, st, k).0),
    decreases k,
{
    if k > 0 {
        let raw = chars.subrange(st.buf_char_start, st.buf_char_end);
        let low = ascii_lower_seq(raw);
        let spans = token_segments(low);
        crate::alphabet::lemma_token_segments_tile(low);
        crate::alphabet::lemma_tiles_within(spans, 0, low.len() as int);
        lemma_flush_pieces_lower(cfg, chars, st, k - 1);
        lemma_flush_pieces(cfg, chars, st, k - 1);
        let prev = flush_pieces(cfg, chars, st, k - 1);
        let span = spans[k - 1];
        let term = low.subrange(span.0, span.1);
        assert(all_ascii(term)) by {
            assert forall|i: int| 0 <= i < term.len() implies crate::text::is_ascii_char(#[trigger] term[i]) by {
                assert(term[i] == low[span.0 + i]);
                assert(low[span.0 + i] == crate::text::ascii_lower(raw[span.0 + i]));
                assert(raw[span.0 + i] == chars[st.buf_char_start + span.0 + i]);
            }
        }
        let cur = prev.1;
        let end_char = if cfg.fixed_pinyin_offset {
            cur + 1
        } else {
            cur + (span.1 - span.0)
        };
        let p = prev.0.position + 1;
        lemma_offer_lower(
            cfg,
            prev.0.out,
            term,
            byte_offset(chars, cur),
            byte_offset(chars, end_char),
            p,
        );
    }
}

pub proof fn lemma_flush_lower(cfg: PinyinConfig, chars: Seq<char>, st: TokState)
    requires
        cfg.lowercase,
        all_ascii(chars),
        0 <= st.buf_char_start < st.buf_char_end <= chars.len(),
        lower_state(st),
    ensures
        lower_state(flush(cfg, chars, st)),
{
    reveal(flush);
    let raw = chars.subrange(st.buf_char_start, st.buf_char_end);
    let low = ascii_lower_seq(raw);
    lemma_flush_pieces_lower(cfg, chars, st, token_segments(low).len() as int);
    assert(all_ascii(raw)) by {
        assert forall|i: int| 0 <= i < raw.len() implies crate::text::is_ascii_char(#[trigger] raw[i]) by {
            assert(raw[i] == chars[st.buf_char_start + i]);
        }
    }
    let p = st.position + 1;
    lemma_offer_lower(
        cfg,
        st.out,
        raw,
        byte_offset(chars, st.buf_char_start),
        byte_offset(chars, st.buf_char_end),
        p,
    );
}

pub proof fn lemma_step_lower(
    cfg: PinyinConfig,
    rules: Rules,
    chars: Seq<char>,
    ov: Seq<Option<Reading>>,
    st: TokState,
    i: int,
)
    requires
        cfg.lowercase,
        all_ascii(chars),
        0 <= i < chars.len(),
        state_inv(cfg, chars, st, i),
        lower_state(st),
    ensures
        lower_state(step(cfg, rules, chars, ov, st, i)),
{
    let c = chars[i];
    assert(is_ascii_char(c));
    let off = byte_offset(chars, i);
    let st0 = if !buffer_active(st) {
        TokState { buf_byte_start: off, buf_char_start: i, ..st }
    } else {
        st
    };
    assert(all_ascii(seq![c])) by {
        assert forall|j: int| 0 <= j < seq![c].len() implies is_ascii_char(#[trigger] seq![c][j]) by {}
    }
    let p = st0.position + 1;
    lemma_offer_lower(cfg, st0.out, seq![c], off, byte_offset(chars, i + 1), st0.buf_char_start + 1);
    let st1 = if cfg.keep_none_chinese {
        if cfg.keep_none_chinese_together {
            TokState { buf_byte_end: off + 1, buf_char_end: i + 1, ..st0 }
        } else {
            offer_st(
                cfg,
                TokState { position: p, ..st0 },
                seq![c],
                true,
                off,
                byte_offset(chars, i + 1),
                st0.buf_char_start + 1,
            )
        }
    } else {
        st0
    };
    let u = c as u32;
    assert((u as u8) == u) by (bit_vector)
        requires
            u < 128,
    ;
    let fl = st1.first_letters.push(u as u8);
    assert forall|k: int| 0 <= k < fl.len() implies #[trigger] fl[k] < 128 by {
        if k < st1.first_letters.len() {
            assert(fl[k] == st1.first_letters[k]);
        }
    }
    let st2 = if cfg.keep_none_chinese_in_first_letter {
        TokState { first_letters: fl, ..st1 }
    } else {
        st1
    };
    let jn = st2.joined.push(c);
    assert(all_ascii(jn)) by {
        assert forall|k: int| 0 <= k < jn.len() implies is_ascii_char(#[trigger] jn[k]) by {
            if k < st2.joined.len() {
                assert(jn[k] == st2.joined[k]);
            }
        }
    }
}

pub proof fn lemma_run_lower(cfg: PinyinConfig, rules: Rules, chars: Seq<char>, ov: Seq<Option<Reading>>, n: int)
    requires
        cfg.lowercase,
        all_ascii(chars),
        0 <= n <= chars.len(),
    ensures
        lower_state(run_chars(cfg, rules, chars, ov, n)),
    decreases n,
{
    if n > 0 {
        lemma_run_lower(cfg, rules, chars, ov, n - 1);
        lemma_run_inv(cfg, rules, chars, ov, n - 1);
        lemma_step_lower(cfg, rules, chars, ov, run_chars(cfg, rules, chars, ov, n - 1), n - 1);
    } else {
        assert(all_ascii(initial_state().joined)) by {
            assert forall|k: int| 0 <= k < initial_state().joined.len() implies is_ascii_char(
                #[trigger] initial_state().joined[k],
            ) by {}
        }
    }
}

pub proof fn lemma_finish_lower(cfg: PinyinConfig, chars: Seq<char>, st: TokState)
    requires
        cfg.lowercase,
        all_ascii(chars),
        state_inv(cfg, chars, st, chars.len() as int),
        lower_state(st),
    ensures
        emitted_lower(finish(cfg, chars, st)),
{
    let st1 = if buffer_active(st) {
        lemma_flush_lower(cfg, chars, st);
        flush(cfg, chars, st)
    } else {
        st
    };
    let total = utf8_len(chars) as int;
    lemma_offer_lower(cfg, st1.out, chars, 0, total, 1);
    let e1 = if cfg.keep_original {
        offer(cfg, st1.out, chars, true, 0, total, 1)
    } else {
        st1.out
    };
    lemma_offer_lower(cfg, e1, st1.joined, 0, total, 1);
    let e2 = if cfg.keep_joined_full_pinyin && st1.joined.len() > 0 {
        offer(cfg, e1, st1.joined, false, 0, total, 1)
    } else {
        e1
    };
    let fl = st1.first_letters;
    let s = first_letter_term(cfg, fl);
    assert(all_ascii(s)) by {
        assert forall|k: int| 0 <= k < s.len() implies is_ascii_char(#[trigger] s[k]) by {
            assert(fl[k] < 128);
            assert(lower_byte(fl[k]) < 128);
        }
    }
    lemma_offer_lower(cfg, e2, s, 0, (utf8_len(s) as u32) as int, 1);
}

/// `t` stands in `chars` between indices `lo` and `hi`, as it is there.
pub open spec fn is_stretch(chars: Seq<char>, t: Seq<char>, lo: int, hi: int) -> bool {
    exists|a: int, b: int| 0 <= lo <= a <= b <= hi <= chars.len() && t == chars.subrange(a, b)
}

/// `after` keeps the candidates of `before` and adds only candidates whose
/// terms stand in `chars` between `lo` and `hi`.
pub open spec fn adds_stretches(chars: Seq<char>, before: Emitted, after: Emitted, lo: int, hi: int) -> bool {
    &&& before.cands.len() <= after.cands.len()
    &&& forall|i: int| 0 <= i < before.cands.len() ==> #[trigger] after.cands[i] == before.cands[i]
    &&& forall|i: int|
        before.cands.len() <= i < after.cands.len() ==> is_stretch(chars, #[trigger] after.cands[i].term, lo, hi)
}

/// With lower-casing off, offering a stretch of `chars` adds at most that
/// stretch, trimmed: a stretch again.
proof fn lemma_offer_stretch(
    cfg: PinyinConfig,
    e: Emitted,
    term: Seq<char>,
    b: bool,
    s: int,
    end: int,
    p: int,
    chars: Seq<char>,
    lo: int,
    hi: int,
)
    requires
        !cfg.lowercase,
        is_stretch(chars, term, lo, hi),
    ensures
        adds_stretches(chars, e, offer(cfg, e, term, b, s, end, p), lo, hi),
{
    reveal(offer);
    let (a0, b0) = choose|a: int, b: int|
        0 <= lo <= a <= b <= hi <= chars.len() && term == chars.subrange(a, b);
    let t = normalize_term(cfg, term);
    assert(is_stretch(chars, t, lo, hi)) by {
        if cfg.trim_whitespace {
            crate::text::lemma_trim_start_bounds(term);
            crate::text::lemma_trim_end_bounds(term);
            let ts = crate::text::trim_start_index(term);
            let te = crate::text::trim_end_index(term);
            assert(t == trim_seq(term));
            if te <= ts {
                assert(t =~= chars.subrange(a0, a0));
            } else {
                assert(t == term.subrange(ts, te));
                assert(t =~= chars.subrange(a0 + ts, a0 + te));
            }
        } else {
            assert(t == chars.subrange(a0, b0));
        }
    }
    let r = offer(cfg, e, term, b, s, end, p);
    assert forall|i: int| e.cands.len() <= i < r.cands.len() implies is_stretch(
        chars,
        #[trigger] r.cands[i].term,
        lo,
        hi,
    ) by {
        assert(r.cands[i].term == t);
    }
}

/// Adding stretches twice adds stretches.
proof fn lemma_adds_stretches_trans(chars: Seq<char>, e1: Emitted, e2: Emitted, e3: Emitted, lo: int, hi: int)
    requires
        adds_stretches(chars, e1, e2, lo, hi),
        adds_stretches(chars, e2, e3, lo, hi),
    ensures
        adds_stretches(chars, e1, e3, lo, hi),
{
    assert forall|i: int| e1.cands.len() <= i < e3.cands.len() implies is_stretch(
        chars,
        #[trigger] e3.cands[i].term,
        lo,
        hi,
    ) by {
        if i < e2.cands.len() {
            assert(e3.cands[i] == e2.cands[i]);
        }
    }
}

/// Stretches between `lo` and `hi` are stretches of any wider range.
proof fn lemma_adds_stretches_widen(chars: Seq<char>, e1: Emitted, e2: Emitted, lo: int, hi: int, lo2: int, hi2: int)
    requires
        adds_stretches(chars, e1, e2, lo, hi),
        0 <= lo2 <= lo,
        hi <= hi2 <= chars.len(),
    ensures
        adds_stretches(chars, e1, e2, lo2, hi2),
{
    assert forall|i: int| e1.cands.len() <= i < e2.cands.len() implies is_stretch(
        chars,
        #[trigger] e2.cands[i].term,
        lo2,
        hi2,
    ) by {
        let (a, b) = choose|a: int, b: int|
            0 <= lo <= a <= b <= hi <= chars.len() && e2.cands[i].term == chars.subrange(a, b);
    }
}

proof fn lemma_flush_pieces_stretch(cfg: PinyinConfig, chars: Seq<char>, st: TokState, k: int)
    requires
        !cfg.lowercase,
        0 <= st.buf_char_start < st.buf_char_end <= chars.len(),
        0 <= k <= token_segments(ascii_lower_seq(chars.subrange(st.buf_char_start, st.buf_char_end))).len(),
    ensures
        adds_stretches(chars, st.out, flush_pieces(cfg, chars, st, k).0.out, st.buf_char_start, st.buf_char_end),
        flush_pieces(cfg, chars, st, k).0.joined == st.joined,
        flush_pieces(cfg, chars, st, k).0.first_letters == st.first_letters,
    decreases k,
{
    if k > 0 {
        let raw = chars.subrange(st.buf_char_start, st.buf_char_end);
        let low = ascii_lower_seq(raw);
        let spans = token_segments(low);
        crate::alphabet::lemma_token_segments_tile(low);
        crate::alphabet::lemma_tiles_within(spans, 0, low.len() as int);
        lemma_flush_pieces_stretch(cfg, chars, st, k - 1);
        let prev = flush_pieces(cfg, chars, st, k - 1);
        let span = spans[k - 1];
        let term = raw.subrange(span.0, span.1);
        assert(term =~= chars.subrange(st.buf_char_start + span.0, st.buf_char_start + span.1));
        let cur = prev.1;
        let end_char = if cfg.fixed_pinyin_offset {
            cur + 1
        } else {
            cur + (span.1 - span.0)
        };
        let p = prev.0.position + 1;
        lemma_offer_stretch(
            cfg,
            prev.0.out,
            term,
            piece_borrowed(cfg, raw, span),
            byte_offset(chars, cur),
            byte_offset(chars, end_char),
            p,
            chars,
            st.buf_char_start,
            st.buf_char_end,
        );
        lemma_adds_stretches_trans(
            chars,
            st.out,
            prev.0.out,
            flush_pieces(cfg, chars, st, k).0.out,
            st.buf_char_start,
            st.buf_char_end,
        );
    } else {
        assert(adds_stretches(chars, st.out, st.out, st.buf_char_start, st.buf_char_end));
    }
}

/// Law: with lower-casing off, every term emitted for a run of ASCII
/// characters (the run whole, or each of its pieces) stands in the input
/// within that run, in the input's own case; the candidates before stay.
pub proof fn lemma_flush_keeps_case(cfg: PinyinConfig, chars: Seq<char>, st: TokState)
    requires
        !cfg.lowercase,
        0 <= st.buf_char_start < st.buf_char_end <= chars.len(),
    ensures
        adds_stretches(chars, st.out, flush(cfg, chars, st).out, st.buf_char_start, st.buf_char_end),
        flush(cfg, chars, st).joined == st.joined,
        flush(cfg, chars, st).first_letters == st.first_letters,
{
    reveal(flush);
    let raw = chars.subrange(st.buf_char_start, st.buf_char_end);
    let low = ascii_lower_seq(raw);
    lemma_flush_pieces_stretch(cfg, chars, st, token_segments(low).len() as int);
    lemma_offer_stretch(
        cfg,
        st.out,
        raw,
        true,
        byte_offset(chars, st.buf_char_start),
        byte_offset(chars, st.buf_char_end),
        st.position + 1,
        chars,
        st.buf_char_start,
        st.buf_char_end,
    );
    if !cfg.keep_none_chinese || (!cfg.none_chinese_pinyin_tokenize && !(cfg.keep_first_letter
        || cfg.keep_separate_first_letter || cfg.keep_full_pinyin
        || !cfg.keep_none_chinese_in_joined_full_pinyin)) {
        assert(adds_stretches(chars, st.out, st.out, st.buf_char_start, st.buf_char_end));
    }
}

/// For an ASCII text with lower-casing off, where neither the joined full
/// pinyin nor the joined first letters take in non-Chinese characters: every
/// kept term stands in the text, and the joined pinyin and the first letters
/// that would be emitted are empty.
pub open spec fn case_kept_state(cfg: PinyinConfig, chars: Seq<char>, st: TokState) -> bool {
    &&& adds_stretches(chars, Emitted { cands: seq![], seen: Set::empty() }, st.out, 0, chars.len() as int)
    &&& cfg.keep_joined_full_pinyin ==> st.joined.len() == 0
    &&& cfg.keep_first_letter ==> st.first_letters.len() == 0
}

proof fn lemma_run_case_kept(cfg: PinyinConfig, rules: Rules, chars: Seq<char>, ov: Seq<Option<Reading>>, n: int)
    requires
        !cfg.lowercase,
        all_ascii(chars),
        !cfg.keep_joined_full_pinyin || !cfg.keep_none_chinese_in_joined_full_pinyin,
        !cfg.keep_first_letter || !cfg.keep_none_chinese_in_first_letter,
        0 <= n <= chars.len(),
    ensures
        case_kept_state(cfg, chars, run_chars(cfg, rules, chars, ov, n)),
    decreases n,
{
    let e0 = Emitted { cands: seq![], seen: Set::empty() };
    if n > 0 {
        lemma_run_case_kept(cfg, rules, chars, ov, n - 1);
        let st = run_chars(cfg, rules, chars, ov, n - 1);
        let i = n - 1;
        let c = chars[i];
        assert(is_ascii_char(c));
        let off = byte_offset(chars, i);
        let st0 = if !buffer_active(st) {
            TokState { buf_byte_start: off, buf_char_start: i, ..st }
        } else {
            st
        };
        assert(seq![c] =~= chars.subrange(i, i + 1));
        lemma_offer_stretch(
            cfg,
            st0.out,
            seq![c],
            true,
            off,
            byte_offset(chars, i + 1),
            st0.buf_char_start + 1,
            chars,
            0,
            chars.len() as int,
        );
        lemma_adds_stretches_trans(
            chars,
            e0,
            st0.out,
            offer(cfg, st0.out, seq![c], true, off, byte_offset(chars, i + 1), st0.buf_char_start + 1),
            0,
            chars.len() as int,
        );
    }
}

/// Law: for an ASCII text with lower-casing off, where neither the joined
/// full pinyin nor the joined first letters take in non-Chinese characters,
/// every token's term stands in the text as it is there: no letter changes
/// case.
pub proof fn lemma_ascii_text_keeps_case(cfg: PinyinConfig, rules: Rules, text: Seq<char>)
    requires
        !cfg.lowercase,
        all_ascii(text),
        !cfg.keep_joined_full_pinyin || !cfg.keep_none_chinese_in_joined_full_pinyin,
        !cfg.keep_first_letter || !cfg.keep_none_chinese_in_first_letter,
    ensures
        forall|k: int|
            0 <= k < tokenize_spec(cfg, rules, text).len() ==> is_stretch(
                text,
                #[trigger] tokenize_spec(cfg, rules, text)[k].term,
                0,
                text.len() as int,
            ),
{
    lemma_tokenize_parts(cfg, rules, text);
    if text.len() > 0 {
        let ov = phrase_overlay(rules.phrase_map(), text, 0);
        let n = text.len() as int;
        let len = text.len() as int;
        let e0 = Emitted { cands: seq![], seen: Set::empty() };
        lemma_run_case_kept(cfg, rules, text, ov, n);
        lemma_run_inv(cfg, rules, text, ov, n);
        let st = run_chars(cfg, rules, text, ov, n);
        let st1 = if buffer_active(st) {
            lemma_flush_keeps_case(cfg, text, st);
            lemma_adds_stretches_widen(text, st.out, flush(cfg, text, st).out, st.buf_char_start, st.buf_char_end, 0, len);
            lemma_adds_stretches_trans(text, e0, st.out, flush(cfg, text, st).out, 0, len);
            flush(cfg, text, st)
        } else {
            st
        };
        let total = utf8_len(text) as int;
        assert(text =~= text.subrange(0, len));
        lemma_offer_stretch(cfg, st1.out, text, true, 0, total, 1, text, 0, len);
        let e1 = if cfg.keep_original {
            lemma_adds_stretches_trans(text, e0, st1.out, offer(cfg, st1.out, text, true, 0, total, 1), 0, len);
            offer(cfg, st1.out, text, true, 0, total, 1)
        } else {
            st1.out
        };
        assert(finish(cfg, text, st) == e1);
        let c = tokenize_cands(cfg, rules, text);
        lemma_sort_source(c);
        lemma_renumber(sort_by_position(c));
        assert forall|k: int| 0 <= k < tokenize_spec(cfg, rules, text).len() implies is_stretch(
            text,
            #[trigger] tokenize_spec(cfg, rules, text)[k].term,
            0,
            len,
        ) by {
            assert(sort_by_position(c)[k] == c[sort_source(c, k)]);
            assert(is_stretch(text, c[sort_source(c, k)].term, 0, len));
        }
    }
}

/// The readings of the Chinese characters among the first `n` of `chars`,
/// one after another (a character without a reading adds nothing).
pub open spec fn chinese_readings(rules: Rules, chars: Seq<char>, ov: Seq<Option<Reading>>, n: int) -> Seq<char>
    decreases n,
{
    if n <= 0 {
        seq![]
    } else {
        let prev = chinese_readings(rules, chars, ov, n - 1);
        let c = chars[n - 1];
        if is_chinese_char(c) {
            match reading_at(rules, ov, c, n - 1) {
                Some(p) => prev + p,
                None => prev,
            }
        } else {
            prev
        }
    }
}

/// Law: when the joined full pinyin takes in no non-Chinese character, it
/// is, after any prefix of the text, exactly the readings of that prefix's
/// Chinese characters, in order.
pub proof fn lemma_joined_is_chinese_readings(
    cfg: PinyinConfig,
    rules: Rules,
    chars: Seq<char>,
    ov: Seq<Option<Reading>>,
    n: int,
)
    requires
        cfg.keep_joined_full_pinyin,
        !cfg.keep_none_chinese_in_joined_full_pinyin,
        0 <= n <= chars.len(),
    ensures
        run_chars(cfg, rules, chars, ov, n).joined == chinese_readings(rules, chars, ov, n),
    decreases n,
{
    if n > 0 {
        lemma_joined_is_chinese_readings(cfg, rules, chars, ov, n - 1);
        lemma_run_inv(cfg, rules, chars, ov, n - 1);
        let st = run_chars(cfg, rules, chars, ov, n - 1);
        let i = n - 1;
        let c = chars[i];
        if is_ascii_char(c) {
            assert(!is_chinese_char(c));
        } else {
            if buffer_active(st) {
                lemma_flush_joined(cfg, chars, st);
            }
            reveal(chinese_step);
        }
    }
}

/// What the joined full pinyin holds after the first `n` characters: for
/// each Chinese character its reading (when joined pinyin is kept), for each
/// ASCII letter or digit the character itself (when non-Chinese characters
/// go into it), nothing for any other character.
pub open spec fn joined_text(cfg: PinyinConfig, rules: Rules, chars: Seq<char>, ov: Seq<Option<Reading>>, n: int) -> Seq<
    char,
>
    decreases n,
{
    if n <= 0 {
        seq![]
    } else {
        let prev = joined_text(cfg, rules, chars, ov, n - 1);
        let c = chars[n - 1];
        if is_chinese_char(c) && cfg.keep_joined_full_pinyin {
            match reading_at(rules, ov, c, n - 1) {
                Some(p) => prev + p,
                None => prev,
            }
        } else if is_ascii_alnum(c) && cfg.keep_none_chinese_in_joined_full_pinyin {
            prev.push(c)
        } else {
            prev
        }
    }
}

/// What the first letters hold after the first `n` characters: for each
/// Chinese character with a reading, the first byte of that reading; for each
/// ASCII letter or digit, the character (when non-Chinese characters go into
/// the first letters); nothing for any other character.
pub open spec fn first_letters_text(
    cfg: PinyinConfig,
    rules: Rules,
    chars: Seq<char>,
    ov: Seq<Option<Reading>>,
    n: int,
) -> Seq<u8>
    decreases n,
{
    if n <= 0 {
        seq![]
    } else {
        let prev = first_letters_text(cfg, rules, chars, ov, n - 1);
        let c = chars[n - 1];
        if is_chinese_char(c) {
            match reading_at(rules, ov, c, n - 1) {
                Some(p) => prev.push(vstd::utf8::encode_utf8(p)[0]),
                None => prev,
            }
        } else if is_ascii_alnum(c) && cfg.keep_none_chinese_in_first_letter {
            prev.push((c as u32) as u8)
        } else {
            prev
        }
    }
}

/// Law: after any prefix of the text, the joined full pinyin is
/// [`joined_text`] and the first letters are [`first_letters_text`] of that
/// prefix: each setting lets in exactly the characters it names.
pub proof fn lemma_joined_and_first_letters(
    cfg: PinyinConfig,
    rules: Rules,
    chars: Seq<char>,
    ov: Seq<Option<Reading>>,
    n: int,
)
    requires
        0 <= n <= chars.len(),
    ensures
        run_chars(cfg, rules, chars, ov, n).joined == joined_text(cfg, rules, chars, ov, n),
        run_chars(cfg, rules, chars, ov, n).first_letters == first_letters_text(cfg, rules, chars, ov, n),
    decreases n,
{
    if n > 0 {
        lemma_joined_and_first_letters(cfg, rules, chars, ov, n - 1);
        let st = run_chars(cfg, rules, chars, ov, n - 1);
        let i = n - 1;
        let c = chars[i];
        if is_ascii_char(c) {
            assert(!is_chinese_char(c));
        } else {
            assert(!is_ascii_alnum(c));
            if buffer_active(st) {
                lemma_flush_joined(cfg, chars, st);
            }
            reveal(chinese_step);
        }
    }
}

/// Emitting the pending run leaves the joined pinyin and the first letters
/// as they are.
proof fn lemma_flush_joined(cfg: PinyinConfig, chars: Seq<char>, st: TokState)
    ensures
        flush(cfg, chars, st).joined == st.joined,
        flush(cfg, chars, st).first_letters == st.first_letters,
{
    reveal(flush);
    let low = ascii_lower_seq(chars.subrange(st.buf_char_start, st.buf_char_end));
    lemma_flush_pieces_joined(cfg, chars, st, token_segments(low).len() as int);
}

proof fn lemma_flush_pieces_joined(cfg: PinyinConfig, chars: Seq<char>, st: TokState, k: int)
    ensures
        flush_pieces(cfg, chars, st, k).0.joined == st.joined,
        flush_pieces(cfg, chars, st, k).0.first_letters == st.first_letters,
    decreases k,
{
    if k > 0 {
        lemma_flush_pieces_joined(cfg, chars, st, k - 1);
    }
}

/// Bytes that the first letters take once written as characters: one for
/// an ASCII byte, two for any other.
pub open spec fn fl_bytes(fl: Seq<u8>) -> nat
    decreases fl.len(),
{
    if fl.len() == 0 {
        0
    } else {
        fl_bytes(fl.drop_last()) + (if fl.last() < 128 {
            1nat
        } else {
            2nat
        })
    }
}

/// No kept candidate ends after `bound`.
pub open spec fn ends_within(e: Emitted, bound: int) -> bool {
    forall|i: int| 0 <= i < e.cands.len() ==> (#[trigger] e.cands[i]).end <= bound
}

pub proof fn lemma_offer_within(
    cfg: PinyinConfig,
    e: Emitted,
    term: Seq<char>,
    s: int,
    end: int,
    p: int,
    bound: int,
)
    requires
        ends_within(e, bound),
        end <= bound,
    ensures
        forall|b: bool| ends_within(#[trigger] offer(cfg, e, term, b, s, end, p), bound),
{
    reveal(offer);
    assert forall|b: bool| ends_within(#[trigger] offer(cfg, e, term, b, s, end, p), bound) by {
        let r = offer(cfg, e, term, b, s, end, p);
        assert forall|i: int| 0 <= i < r.cands.len() implies (#[trigger] r.cands[i]).end <= bound by {
            if i < e.cands.len() {
                assert(r.cands[i] == e.cands[i]);
            }
        }
    }
}

pub proof fn lemma_flush_pieces_within(cfg: PinyinConfig, chars: Seq<char>, st: TokState, k: int)
    requires
        0 <= st.buf_char_start < st.buf_char_end <= chars.len(),
        0 <= k <= token_segments(ascii_lower_seq(chars.subrange(st.buf_char_start, st.buf_char_end))).len(),
        ends_within(st.out, utf8_len(chars) as int),
    ensures
        ends_within(flush_pieces(cfg, chars, st, k).0.out, utf8_len(chars) as int),
    decreases k,
{
    if k > 0 {
        let low = ascii_lower_seq(chars.subrange(st.buf_char_start, st.buf_char_end));
        let spans = token_segments(low);
        crate::alphabet::lemma_token_segments_tile(low);
        crate::alphabet::lemma_tiles_chain(spans, 0, low.len() as int);
        crate::alphabet::lemma_tiles_within(spans, 0, low.len() as int);
        lemma_flush_pieces_within(cfg, chars, st, k - 1);
        lemma_flush_pieces(cfg, chars, st, k - 1);
        let prev = flush_pieces(cfg, chars, st, k - 1);
        let span = spans[k - 1];
        let cur = prev.1;
        let end_char = if cfg.fixed_pinyin_offset {
            cur + 1
        } else {
            cur + (span.1 - span.0)
        };
        if k > 1 {
            assert(spans[k - 1].0 == spans[k - 2].1);
        }
        assert(st.buf_char_start <= cur <= end_char <= st.buf_char_end);
        lemma_byte_offset_mono(chars, end_char, chars.len() as int);
        lemma_byte_offset_total(chars);
        let raw = chars.subrange(st.buf_char_start, st.buf_char_end);
        let term = if cfg.lowercase {
            low.subrange(span.0, span.1)
        } else {
            raw.subrange(span.0, span.1)
        };
        lemma_offer_within(
            cfg,
            prev.0.out,
            term,
            byte_offset(chars, cur),
            byte_offset(chars, end_char),
            prev.0.position + 1,
            utf8_len(chars) as int,
        );
    }
}

pub proof fn lemma_flush_within(cfg: PinyinConfig, chars: Seq<char>, st: TokState)
    requires
        0 <= st.buf_char_start < st.buf_char_end <= chars.len(),
        ends_within(st.out, utf8_len(chars) as int),
    ensures
        ends_within(flush(cfg, chars, st).out, utf8_len(chars) as int),
{
    reveal(flush);
    let low = ascii_lower_seq(chars.subrange(st.buf_char_start, st.buf_char_end));
    lemma_flush_pieces_within(cfg, chars, st, token_segments(low).len() as int);
    lemma_byte_offset_mono(chars, st.buf_char_end, chars.len() as int);
    lemma_byte_offset_total(chars);
    lemma_offer_within(
        cfg,
        st.out,
        chars.subrange(st.buf_char_start, st.buf_char_end),
        byte_offset(chars, st.buf_char_start),
        byte_offset(chars, st.buf_char_end),
        st.position + 1,
        utf8_len(chars) as int,
    );
}

/// A Chinese character takes three bytes.
proof fn lemma_chinese_width(c: char)
    requires
        is_chinese_char(c),
    ensures
        utf8_width(c) == 3,
{
}

pub proof fn lemma_step_within(
    cfg: PinyinConfig,
    rules: Rules,
    chars: Seq<char>,
    ov: Seq<Option<Reading>>,
    st: TokState,
    i: int,
)
    requires
        0 <= i < chars.len(),
        state_inv(cfg, chars, st, i),
        ends_within(st.out, utf8_len(chars) as int),
        fl_bytes(st.first_letters) <= byte_offset(chars, i),
    ensures
        ends_within(step(cfg, rules, chars, ov, st, i).out, utf8_len(chars) as int),
        fl_bytes(step(cfg, rules, chars, ov, st, i).first_letters) <= byte_offset(chars, i + 1),
{
    let c = chars[i];
    let off = byte_offset(chars, i);
    let total = utf8_len(chars) as int;
    lemma_byte_offset_step(chars, i);
    lemma_byte_offset_mono(chars, i + 1, chars.len() as int);
    lemma_byte_offset_total(chars);
    if is_ascii_char(c) {
        let st0 = if !buffer_active(st) {
            TokState { buf_byte_start: off, buf_char_start: i, ..st }
        } else {
            st
        };
        lemma_offer_within(cfg, st0.out, seq![c], off, byte_offset(chars, i + 1), st0.buf_char_start + 1, total);
        let u = c as u32;
        assert((u as u8) == u) by (bit_vector)
            requires
                u < 128,
        ;
        let fl = st.first_letters.push(u as u8);
        assert(fl.drop_last() == st.first_letters);
    } else {
        let st0 = if buffer_active(st) {
            lemma_flush_within(cfg, chars, st);
            lemma_flush(cfg, chars, st);
            let f = flush(cfg, chars, st);
            TokState { buf_byte_start: 0, buf_byte_end: 0, ..f }
        } else {
            st
        };
        if is_chinese_char(c) {
            lemma_chinese_width(c);
            reveal(chinese_step);
            let s0 = byte_offset(chars, i);
            let e0 = byte_offset(chars, i + 1);
            match reading_at(rules, ov, c, i) {
                Some(p) => {
                    let bytes = vstd::utf8::encode_utf8(p);
                    let st1 = TokState { first_letters: st0.first_letters.push(bytes[0]), ..st0 };
                    assert(st1.first_letters.drop_last() == st0.first_letters);
                    let sep = cfg.keep_separate_first_letter && bytes.len() > 1;
                    let q1 = st1.position + 1;
                    lemma_offer_within(cfg, st1.out, seq![p[0]], s0, e0, q1, total);
                    let st2 = if sep {
                        offer_st(cfg, TokState { position: q1, ..st1 }, seq![p[0]], reading_borrowed_at(rules, ov, c, i), s0, e0, q1)
                    } else {
                        st1
                    };
                    let q2 = if sep {
                        st2.position
                    } else {
                        st2.position + 1
                    };
                    lemma_offer_within(cfg, st2.out, p, s0, e0, q2, total);
                    let st3 = if cfg.keep_full_pinyin {
                        offer_st(cfg, TokState { position: q2, ..st2 }, p, reading_borrowed_at(rules, ov, c, i), s0, e0, q2)
                    } else {
                        st2
                    };
                    lemma_offer_within(cfg, st3.out, seq![c], s0, e0, st3.position, total);
                },
                None => {
                    lemma_offer_within(cfg, st0.out, seq![c], s0, e0, st0.position, total);
                },
            }
        }
    }
}

pub proof fn lemma_run_within(cfg: PinyinConfig, rules: Rules, chars: Seq<char>, ov: Seq<Option<Reading>>, n: int)
    requires
        0 <= n <= chars.len(),
    ensures
        ends_within(run_chars(cfg, rules, chars, ov, n).out, utf8_len(chars) as int),
        fl_bytes(run_chars(cfg, rules, chars, ov, n).first_letters) <= byte_offset(chars, n),
    decreases n,
{
    if n > 0 {
        lemma_run_within(cfg, rules, chars, ov, n - 1);
        lemma_run_inv(cfg, rules, chars, ov, n - 1);
        lemma_step_within(cfg, rules, chars, ov, run_chars(cfg, rules, chars, ov, n - 1), n - 1);
    }
}

/// The joined first-letter term takes no more bytes than the first letters.
proof fn lemma_first_letter_term_len(cfg: PinyinConfig, fl: Seq<u8>, n: int)
    requires
        0 <= n <= fl.len(),
    ensures
        utf8_len(
            Seq::new(
                n as nat,
                |k: int|
                    (if cfg.lowercase {
                        lower_byte(fl[k])
                    } else {
                        fl[k]
                    }) as char,
            ),
        ) <= fl_bytes(fl.take(n)),
    decreases n,
{
    let f = |k: int|
        (if cfg.lowercase {
            lower_byte(fl[k])
        } else {
            fl[k]
        }) as char;
    if n > 0 {
        lemma_first_letter_term_len(cfg, fl, n - 1);
        let sq = Seq::new(n as nat, f);
        assert(sq.drop_last() =~= Seq::new((n - 1) as nat, f));
        assert(fl.take(n).drop_last() =~= fl.take(n - 1));
        let b = if cfg.lowercase {
            lower_byte(fl[n - 1])
        } else {
            fl[n - 1]
        };
        assert((b < 128) == (fl[n - 1] < 128));
        assert((b as char) as u32 == b as u32);
    } else {
        assert(fl.take(0).len() == 0);
    }
}

proof fn lemma_fl_bytes_prefix(fl: Seq<u8>, n: int)
    requires
        0 <= n <= fl.len(),
    ensures
        fl_bytes(fl.take(n)) <= fl_bytes(fl),
    decreases fl.len() - n,
{
    if n < fl.len() {
        lemma_fl_bytes_prefix(fl, n + 1);
        assert(fl.take(n + 1).drop_last() == fl.take(n));
    } else {
        assert(fl.take(n) == fl);
    }
}

pub proof fn lemma_finish_within(cfg: PinyinConfig, chars: Seq<char>, st: TokState)
    requires
        state_inv(cfg, chars, st, chars.len() as int),
        ends_within(st.out, utf8_len(chars) as int),
        fl_bytes(st.first_letters) <= byte_offset(chars, chars.len() as int),
        utf8_len(chars) <= 0xFFFF_FFFF,
    ensures
        ends_within(finish(cfg, chars, st), utf8_len(chars) as int),
{
    let total = utf8_len(chars) as int;
    lemma_byte_offset_total(chars);
    let st1 = if buffer_active(st) {
        lemma_flush_within(cfg, chars, st);
        lemma_flush(cfg, chars, st);
        flush(cfg, chars, st)
    } else {
        st
    };
    lemma_offer_within(cfg, st1.out, chars, 0, total, 1, total);
    let e1 = if cfg.keep_original {
        offer(cfg, st1.out, chars, true, 0, total, 1)
    } else {
        st1.out
    };
    lemma_offer_within(cfg, e1, st1.joined, 0, total, 1, total);
    let e2 = if cfg.keep_joined_full_pinyin && st1.joined.len() > 0 {
        offer(cfg, e1, st1.joined, false, 0, total, 1)
    } else {
        e1
    };
    let fl = st1.first_letters;
    let s = first_letter_term(cfg, fl);
    let lim = cfg.limit_first_letter_length as int;
    let take = if lim > 0 && fl.len() > lim {
        lim
    } else {
        fl.len() as int
    };
    lemma_first_letter_term_len(cfg, fl, take);
    lemma_fl_bytes_prefix(fl, take);
    assert(utf8_len(s) <= total);
    lemma_offer_within(cfg, e2, s, 0, (utf8_len(s) as u32) as int, 1, total);
}

/// The overlay with its references followed.
pub open spec fn overlay_view(v: Seq<Option<&Reading>>) -> Seq<Option<Reading>> {
    v.map_values(|o: Option<&Reading>| match o {
        Some(r) => Some(*r),
        None => None,
    })
}

pub proof fn lemma_overlay_len(m: Map<Seq<char>, Seq<Reading>>, chars: Seq<char>, i: int)
    requires
        0 <= i <= chars.len(),
    ensures
        phrase_overlay(m, chars, i).len() == chars.len() - i,
    decreases chars.len() - i,
{
    if i < chars.len() {
        match longest_phrase_at(m, chars, i) {
            Some(p) => if p.len() > 0 {
                let q = choose|q: Seq<char>| crate::rules::is_longest_at(m, chars, i, q);
                assert(crate::rules::is_longest_at(m, chars, i, q));
                lemma_overlay_len(m, chars, i + p.len());
            } else {
                lemma_overlay_len(m, chars, i + 1);
            },
            None => lemma_overlay_len(m, chars, i + 1),
        }
    }
}

/// Byte offset of every character index, and of the end.
fn byte_offsets(chars: &Vec<char>) -> (r: Vec<u32>)
    requires
        utf8_len(chars@) <= 0xFFFF_FFFF,
    ensures
        r@.len() == chars@.len() + 1,
        forall|i: int| 0 <= i <= chars@.len() ==> #[trigger] r@[i] as int == byte_offset(chars@, i),
{
    let mut r: Vec<u32> = Vec::new();
    let mut b: u32 = 0;
    let mut i: usize = 0;
    proof {
        lemma_byte_offset_total(chars@);
    }
    while i < chars.len()
        invariant
            i <= chars.len(),
            utf8_len(chars@) <= 0xFFFF_FFFF,
            byte_offset(chars@, chars@.len() as int) == utf8_len(chars@),
            b as int == byte_offset(chars@, i as int),
            r@.len() == i,
            forall|k: int| 0 <= k < i ==> #[trigger] r@[k] as int == byte_offset(chars@, k),
        decreases chars.len() - i,
    {
        r.push(b);
        proof {
            lemma_byte_offset_step(chars@, i as int);
            lemma_byte_offset_mono(chars@, i + 1, chars@.len() as int);
        }
        b = b + char_utf8_width(chars[i]) as u32;
        i = i + 1;
    }
    r.push(b);
    r
}

/// The tokenizer's working state.
pub struct ExecState<'a> {
    cands: Vec<Candidate<'a>>,
    seen: HashSet<u64>,
    first_letters: Vec<u8>,
    joined: Vec<char>,
    position: u32,
    buf_byte_start: usize,
    buf_byte_end: usize,
    buf_char_start: usize,
    buf_char_end: usize,
}

impl<'a> ExecState<'a> {
    pub closed spec fn view(&self) -> TokState {
        TokState {
            out: Emitted { cands: cand_views(self.cands@), seen: self.seen@ },
            first_letters: self.first_letters@,
            joined: self.joined@,
            position: self.position as int,
            buf_byte_start: self.buf_byte_start as int,
            buf_byte_end: self.buf_byte_end as int,
            buf_char_start: self.buf_char_start as int,
            buf_char_end: self.buf_char_end as int,
        }
    }
}

/// What the tokenizer reads besides its state: the characters, their byte
/// offsets and the phrase overlay.
pub open spec fn inputs_ok(chars: Seq<char>, offs: Seq<u32>, ov: Seq<Option<Reading>>) -> bool {
    &&& offsets_ok(chars, offs)
    &&& ov.len() == chars.len()
}

/// `offs` holds the byte offset of every character index, and of the end.
pub open spec fn offsets_ok(chars: Seq<char>, offs: Seq<u32>) -> bool {
    &&& utf8_len(chars) <= 0xFFFF_FFFF
    &&& offs.len() == chars.len() + 1
    &&& forall|i: int| 0 <= i <= chars.len() ==> #[trigger] offs[i] as int == byte_offset(chars, i)
}

/// `s[a..b]` as a vector.
fn copy_range(s: &[char], a: usize, b: usize) -> (r: Vec<char>)
    requires
        a <= b <= s@.len(),
    ensures
        r@ == s@.subrange(a as int, b as int),
{
    let mut v: Vec<char> = Vec::new();
    let mut k: usize = a;
    while k < b
        invariant
            a <= k <= b <= s@.len(),
            v@ == s@.subrange(a as int, k as int),
        decreases b - k,
    {
        v.push(s[k]);
        k = k + 1;
    }
    v
}

/// ASCII letter or digit.
fn ascii_alnum(c: char) -> (r: bool)
    ensures
        r == is_ascii_alnum(c),
{
    ('a' <= c && c <= 'z') || ('A' <= c && c <= 'Z') || ('0' <= c && c <= '9')
}

pub proof fn lemma_utf8_len_ge(s: Seq<char>)
    ensures
        s.len() <= utf8_len(s),
    decreases s.len(),
{
    if s.len() > 0 {
        lemma_utf8_len_ge(s.drop_last());
    }
}

/// The UTF-8 length of a prefix is at most that of the whole.
pub proof fn lemma_utf8_len_prefix(s: Seq<char>, n: int)
    requires
        0 <= n <= s.len(),
    ensures
        utf8_len(s.take(n)) <= utf8_len(s),
    decreases s.len() - n,
{
    if n < s.len() {
        lemma_utf8_len_prefix(s, n + 1);
        assert(s.take(n + 1).drop_last() == s.take(n));
    } else {
        assert(s.take(n) == s);
    }
}

/// The readings that the rules supply begin with an ASCII character
/// wherever a separate first letter is taken from them.
pub open spec fn rule_readings_ascii_led(cfg: PinyinConfig, rules: Rules, chars: Seq<char>) -> bool {
    cfg.keep_separate_first_letter ==> forall|i: int|
        0 <= i < chars.len() && is_chinese_char(chars[i]) ==> match #[trigger] rule_reading_at(
            rules,
            phrase_overlay(rules.phrase_map(), chars, 0),
            chars[i],
            i,
        ) {
            Some(Some(p)) => is_ascii_char(p[0]),
            _ => true,
        }
}

/// Pinyin tokenizer with [`PinyinConfig`] + optional [`Rules`] overlay.
pub struct PinyinTokenizer {
    config: PinyinConfig,
    rules: Rules,
}

impl Clone for PinyinTokenizer {
    /// A copy with the same configuration and the same rules.
    fn clone(&self) -> (r: Self)
        ensures
            r.spec_config() == self.spec_config(),
            r.spec_rules().char_map() == self.spec_rules().char_map(),
            r.spec_rules().phrase_map() == self.spec_rules().phrase_map(),
            self.wf() ==> r.wf(),
    {
        PinyinTokenizer { config: self.config, rules: self.rules.clone() }
    }
}

impl PinyinTokenizer {
    pub closed spec fn spec_config(&self) -> PinyinConfig {
        self.config
    }

    pub closed spec fn spec_rules(&self) -> Rules {
        self.rules
    }

    /// The configuration is valid and the rules are well formed.
    pub open spec fn wf(&self) -> bool {
        self.spec_config().is_valid() && self.spec_rules().wf()
    }

    /// Construct with the given configuration and no extra rules. The
    /// configuration must be valid (some output kind enabled).
    pub fn new(config: PinyinConfig) -> (r: Self)
        requires
            config.is_valid(),
        ensures
            r.wf(),
            r.spec_config() == config,
            r.spec_rules().char_map() == Map::<char, Seq<Reading>>::empty(),
            r.spec_rules().phrase_map() == Map::<Seq<char>, Seq<Reading>>::empty(),
    {
        Self { config, rules: Rules::new() }
    }

    /// Construct with the default configuration.
    pub fn with_defaults() -> (r: Self)
        ensures
            r.wf(),
            r.spec_config().is_default(),
            r.spec_rules().char_map() == Map::<char, Seq<Reading>>::empty(),
            r.spec_rules().phrase_map() == Map::<Seq<char>, Seq<Reading>>::empty(),
    {
        Self::new(PinyinConfig::default())
    }

    /// Attach custom [`Rules`] (chainable).
    pub fn with_rules(self, rules: Rules) -> (r: Self)
        requires
            rules.wf(),
        ensures
            r.spec_config() == self.spec_config(),
            r.spec_rules() == rules,
    {
        let mut s = self;
        s.rules = rules;
        s
    }

    /// Borrow the active rules (read-only).
    pub fn rules(&self) -> (r: &Rules)
        ensures
            *r == self.spec_rules(),
    {
        &self.rules
    }

    /// Borrow the configuration.
    pub fn config(&self) -> (r: &PinyinConfig)
        ensures
            *r == self.spec_config(),
    {
        &self.config
    }

    /// Per-character readings from the phrase overrides.
    fn phrase_overlay_exec<'r>(&'r self, chars: &Vec<char>) -> (r: Vec<Option<&'r Reading>>)
        requires
            self.rules.wf(),
        ensures
            overlay_view(r@) == phrase_overlay(self.rules.phrase_map(), chars@, 0),
    {
        let ghost m = self.rules.phrase_map();
        let any_rules = !self.rules.is_empty();
        let mut out: Vec<Option<&'r Reading>> = Vec::new();
        let mut i: usize = 0;
        while i < chars.len()
            invariant
                i <= chars.len(),
                self.rules.wf(),
                m == self.rules.phrase_map(),
                !any_rules ==> m == Map::<Seq<char>, Seq<Reading>>::empty(),
                overlay_view(out@) + phrase_overlay(m, chars@, i as int) == phrase_overlay(
                    m,
                    chars@,
                    0,
                ),
            decreases chars.len() - i,
        {
            let ghost before = overlay_view(out@);
            if any_rules {
                match self.rules.match_phrase(chars.as_slice(), i) {
                    Some(hit) => {
                        let ghost p = chars@.subrange(i as int, i + hit.char_len);
                        let mut k: usize = 0;
                        while k < hit.char_len
                            invariant
                                k <= hit.char_len,
                                hit.readings@.len() == hit.char_len,
                                overlay_view(out@) == before + Seq::new(
                                    k as nat,
                                    |j: int| Some(hit.readings@[j]),
                                ),
                            decreases hit.char_len - k,
                        {
                            let ghost prev = overlay_view(out@);
                            out.push(Some(&hit.readings[k]));
                            assert(overlay_view(out@) =~= prev.push(Some(hit.readings@[k as int])));
                            assert(overlay_view(out@) =~= before + Seq::new(
                                (k + 1) as nat,
                                |j: int| Some(hit.readings@[j]),
                            ));
                            k = k + 1;
                        }
                        assert(phrase_overlay(m, chars@, i as int) == Seq::new(
                            p.len(),
                            |j: int| Some(m[p][j]),
                        ) + phrase_overlay(m, chars@, i + p.len()));
                        assert(Seq::new(p.len(), |j: int| Some(m[p][j])) =~= Seq::new(
                            hit.char_len as nat,
                            |j: int| Some(hit.readings@[j]),
                        ));
                        i = i + hit.char_len;
                    },
                    None => {
                        out.push(None);
                        assert(overlay_view(out@) =~= before + seq![None]);
                        i = i + 1;
                    },
                }
            } else {
                out.push(None);
                assert(overlay_view(out@) =~= before + seq![None]);
                i = i + 1;
            }
        }
        assert(phrase_overlay(m, chars@, i as int) == Seq::<Option<Reading>>::empty());
        out
    }

    /// The reading used for the Chinese character `c` at index `i`, borrowed
    /// from the syllable table when it is one of its entries.
    fn resolve_reading(&self, c: char, ov: &Vec<Option<&Reading>>, i: usize) -> (r: Option<
        Term<'static>,
    >)
        requires
            i < ov@.len(),
        ensures
            r matches Some(t) ==> reading_at(self.rules, overlay_view(ov@), c, i as int) == Some(
                t.view(),
            ),
            r matches Some(t) ==> (t is Borrowed <==> reading_borrowed_at(
                self.rules,
                overlay_view(ov@),
                c,
                i as int,
            )),
            r is None ==> reading_at(self.rules, overlay_view(ov@), c, i as int) is None,
    {
        let found: Option<&Reading> = match ov[i] {
            Some(r) => Some(r),
            None => match self.rules.char_readings(c) {
                Some(rs) => {
                    if rs.len() > 0 {
                        Some(&rs[0])
                    } else {
                        None
                    }
                },
                None => None,
            },
        };
        match found {
            Some(r) => {
                if r.as_str().is_empty() {
                    None
                } else {
                    match r {
                        Reading::Static(s) => Some(Term::Borrowed(*s)),
                        Reading::Owned(s) => Some(Term::Owned(s.clone())),
                    }
                }
            },
            None => {
                if ov[i].is_none() && self.rules.char_readings(c).is_some() {
                    None
                } else {
                    match PinyinDict::primary(c) {
                        Some(s) => {
                            if s.is_empty() {
                                None
                            } else {
                                Some(Term::Borrowed(s))
                            }
                        },
                        None => None,
                    }
                }
            },
        }
    }

    /// Tokenize `text`. Offsets are byte offsets into `text`; positions are
    /// renumbered from 0 after a stable sort by position. Each token's view,
    /// whether its term borrows included, is the one [`tokenize_spec`] gives.
    pub fn tokenize<'a>(&self, text: &'a str) -> (r: Vec<Token<'a>>)
        requires
            self.wf(),
            utf8_len(text@) <= 0xFFFF_FFFF,
            rule_readings_ascii_led(self.spec_config(), self.spec_rules(), text@),
        ensures
            r@.len() == tokenize_spec(self.spec_config(), self.spec_rules(), text@).len(),
            forall|k: int|
                0 <= k < r@.len() ==> #[trigger] r@[k]@ == tokenize_spec(
                    self.spec_config(),
                    self.spec_rules(),
                    text@,
                )[k],
            self.spec_config().lowercase ==> forall|k: int|
                0 <= k < r@.len() ==> !has_ascii_upper(#[trigger] r@[k]@.term),
    {
        let chars = str_chars(text);
        if chars.len() == 0 {
            return Vec::new();
        }
        let offs = byte_offsets(&chars);
        let ov = self.phrase_overlay_exec(&chars);
        let ghost ovv = overlay_view(ov@);
        proof {
            lemma_overlay_len(self.rules.phrase_map(), chars@, 0);
        }
        let mut st = ExecState {
            cands: Vec::new(),
            seen: HashSet::new(),
            first_letters: Vec::new(),
            joined: Vec::new(),
            position: 0,
            buf_byte_start: 0,
            buf_byte_end: 0,
            buf_char_start: 0,
            buf_char_end: 0,
        };
        assert(st.view() == initial_state()) by {
            assert(cand_views(st.cands@) =~= Seq::<CandView>::empty());
        }
        let mut i: usize = 0;
        while i < chars.len()
            invariant
                i <= chars@.len(),
                chars@ == text@,
                inputs_ok(chars@, offs@, ovv),
                ovv == overlay_view(ov@),
                ovv == phrase_overlay(self.rules.phrase_map(), chars@, 0),
                st.view() == run_chars(self.config, self.rules, chars@, ovv, i as int),
                self.config.lowercase ==> emitted_lower(st.view().out),
            decreases chars.len() - i,
        {
            proof {
                lemma_run_inv(self.config, self.rules, chars@, ovv, i as int);
            }
            self.step_exec(text, &chars, &offs, &ov, &mut st, i);
            i = i + 1;
        }
        proof {
            lemma_run_inv(self.config, self.rules, chars@, ovv, chars@.len() as int);
        }
        self.finish_exec(text, &chars, &offs, &mut st);
        proof {
            if self.config.lowercase {
                let fin = finish(self.config, chars@, run_chars(self.config, self.rules, chars@, ovv, chars@.len() as int));
                assert(fin.cands == cand_views(st.cands@));
                assert(emitted_lower(st.view().out));
                assert forall|k: int| 0 <= k < fin.cands.len() implies !has_ascii_upper(
                    #[trigger] fin.cands[k].term,
                ) by {
                    assert(fin.cands[k] == st.view().out.cands[k]);
                }
                lemma_tokens_lower(self.config, self.rules, text@);
            }
        }
        let sorted = sort_candidates(st.cands);
        let r = renumber(&sorted);
        assert forall|k: int| 0 <= k < r@.len() implies self.config.lowercase ==> !has_ascii_upper(
            #[trigger] r@[k]@.term,
        ) by {
            let ts = tokenize_spec(self.config, self.rules, text@);
            assert(r@[k]@ == ts[k]);
            if self.config.lowercase {
                assert(!has_ascii_upper(ts[k].term));
            }
        }
        r
    }

    /// Whether [`PinyinTokenizer::tokenize`] accepts `text`: its UTF-8
    /// encoding has at most `0xFFFF_FFFF` bytes (offsets are 32-bit), and,
    /// when separate first letters are kept, every reading that the rules
    /// supply for a Chinese character of `text` begins with an ASCII
    /// character (its first letter is its first byte).
    pub fn can_tokenize(&self, text: &str) -> (r: bool)
        requires
            self.wf(),
        ensures
            r == (utf8_len(text@) <= 0xFFFF_FFFF && rule_readings_ascii_led(
                self.spec_config(),
                self.spec_rules(),
                text@,
            )),
    {
        let chars = str_chars(text);
        let mut total: u64 = 0;
        let mut k: usize = 0;
        while k < chars.len()
            invariant
                k <= chars.len(),
                chars@ == text@,
                total == utf8_len(chars@.take(k as int)),
                total <= 0xFFFF_FFFF,
            decreases chars.len() - k,
        {
            assert(chars@.take(k + 1).drop_last() == chars@.take(k as int));
            assert(chars@.take(k + 1).last() == chars@[k as int]);
            total = total + char_utf8_width(chars[k]) as u64;
            if total > 0xFFFF_FFFF {
                proof {
                    lemma_utf8_len_prefix(chars@, k + 1);
                }
                return false;
            }
            k = k + 1;
        }
        assert(chars@.take(chars.len() as int) == chars@);
        if !self.config.keep_separate_first_letter {
            return true;
        }
        let ov = self.phrase_overlay_exec(&chars);
        let ghost ovv = overlay_view(ov@);
        proof {
            lemma_overlay_len(self.rules.phrase_map(), chars@, 0);
        }
        let mut i: usize = 0;
        while i < chars.len()
            invariant
                i <= chars.len(),
                chars@ == text@,
                utf8_len(text@) <= 0xFFFF_FFFF,
                self.config.keep_separate_first_letter,
                ovv == overlay_view(ov@),
                ovv == phrase_overlay(self.rules.phrase_map(), chars@, 0),
                ovv.len() == chars@.len(),
                forall|j: int|
                    0 <= j < i && is_chinese_char(chars@[j]) ==> match #[trigger] rule_reading_at(
                        self.rules,
                        ovv,
                        chars@[j],
                        j,
                    ) {
                        Some(Some(p)) => is_ascii_char(p[0]),
                        _ => true,
                    },
            decreases chars.len() - i,
        {
            let c = chars[i];
            if is_chinese(c) {
                match self.rule_lead(c, &ov, i) {
                    Some(first) => {
                        if !((first as u32) < 128) {
                            proof {
                                let rr = rule_reading_at(
                                    self.rules,
                                    phrase_overlay(self.rules.phrase_map(), chars@, 0),
                                    chars@[i as int],
                                    i as int,
                                );
                                assert(rr == rule_reading_at(self.rules, ovv, c, i as int));
                                assert(!is_ascii_char(first));
                                assert(rr matches Some(Some(p)) && !is_ascii_char(p[0]));
                                assert(is_chinese_char(chars@[i as int]));
                            }
                            return false;
                        }
                    },
                    None => {},
                }
            }
            i = i + 1;
        }
        true
    }

    /// The first character of the reading that the rules supply for the
    /// character `c` at index `i`, if they supply a non-empty one.
    fn rule_lead(&self, c: char, ov: &Vec<Option<&Reading>>, i: usize) -> (r: Option<char>)
        requires
            i < ov@.len(),
        ensures
            r matches Some(f) ==> rule_reading_at(self.rules, overlay_view(ov@), c, i as int) matches Some(
                Some(p),
            ) && p.len() > 0 && p[0] == f,
            r is None ==> !(rule_reading_at(self.rules, overlay_view(ov@), c, i as int) is Some
                && rule_reading_at(self.rules, overlay_view(ov@), c, i as int)->0 is Some),
    {
        match ov[i] {
            Some(r) => {
                let s = r.as_str();
                if s.is_empty() {
                    None
                } else {
                    Some(s.get_char(0))
                }
            },
            None => match self.rules.char_readings(c) {
                Some(rs) => {
                    if rs.len() > 0 {
                        let s = rs[0].as_str();
                        if s.is_empty() {
                            None
                        } else {
                            Some(s.get_char(0))
                        }
                    } else {
                        None
                    }
                },
                None => None,
            },
        }
    }

    /// Emit what follows the last character: the pending run, the original
    /// text, the joined full pinyin and the joined first letters.
    fn finish_exec<'a>(&self, text: &'a str, chars: &Vec<char>, offs: &Vec<u32>, st: &mut ExecState<'a>)
        requires
            chars@ == text@,
            offsets_ok(chars@, offs@),
            state_inv(self.config, chars@, old(st).view(), chars@.len() as int),
        ensures
            cand_views(final(st).cands@) == finish(self.config, chars@, old(st).view()).cands,
            self.config.lowercase && emitted_lower(old(st).view().out) ==> emitted_lower(final(st).view().out),
    {
        proof {
            lemma_utf8_len_ge(chars@);
            lemma_byte_offset_total(chars@);
        }
        if st.buf_byte_start < st.buf_byte_end {
            self.flush_exec(text, chars, offs, st);
            proof {
                lemma_flush(self.config, chars@, old(st).view());
            }
        }
        let ghost st1 = st.view();
        let n = chars.len();
        let total = offs[n];
        if self.config.keep_original {
            push_candidate(&self.config, &mut st.cands, &mut st.seen, Term::Borrowed(text), 0, total, 1);
        }
        let ghost e1 = Emitted { cands: cand_views(st.cands@), seen: st.seen@ };
        if self.config.keep_joined_full_pinyin && st.joined.len() > 0 {
            let t = Term::Owned(string_from_chars(st.joined.as_slice()));
            assert(t.view() == st1.joined);
            push_candidate(&self.config, &mut st.cands, &mut st.seen, t, 0, total, 1);
        }
        if self.config.keep_first_letter && st.first_letters.len() > 0 {
            let lim = self.config.limit_first_letter_length;
            let fl_len = st.first_letters.len();
            let take = if lim > 0 && fl_len > lim {
                lim
            } else {
                fl_len
            };
            let ghost fl = st1.first_letters;
            let ghost lowercase = self.config.lowercase;
            let mut s: Vec<char> = Vec::new();
            let mut k: usize = 0;
            while k < take
                invariant
                    k <= take <= fl_len,
                    fl_len == fl.len(),
                    fl == st.first_letters@,
                    lowercase == self.config.lowercase,
                    s@ == Seq::new(
                        k as nat,
                        |j: int|
                            (if lowercase {
                                lower_byte(fl[j])
                            } else {
                                fl[j]
                            }) as char,
                    ),
                decreases take - k,
            {
                let b = st.first_letters[k];
                let c = if self.config.lowercase {
                    lower_u8(b)
                } else {
                    b
                };
                let ghost prev = s@;
                s.push(c as char);
                assert(s@ =~= Seq::new(
                    (k + 1) as nat,
                    |j: int|
                        (if lowercase {
                            lower_byte(fl[j])
                        } else {
                            fl[j]
                        }) as char,
                ));
                k = k + 1;
            }
            assert(s@ == first_letter_term(self.config, fl));
            if !(self.config.keep_separate_first_letter && s.len() <= 1) {
                let len = utf8_len_u32(&s);
                let t = Term::Owned(string_from_chars(s.as_slice()));
                push_candidate(&self.config, &mut st.cands, &mut st.seen, t, 0, len, 1);
            }
        }
    }

    /// Emit the pending run of ASCII characters.
    fn flush_exec<'a>(&self, text: &'a str, chars: &Vec<char>, offs: &Vec<u32>, st: &mut ExecState<'a>)
        requires
            chars@ == text@,
            offsets_ok(chars@, offs@),
            old(st).buf_char_start < old(st).buf_char_end <= chars@.len(),
            old(st).position <= old(st).buf_char_start,
        ensures
            final(st).view() == flush(self.config, chars@, old(st).view()),
            final(st).buf_byte_start == old(st).buf_byte_start,
            final(st).buf_byte_end == old(st).buf_byte_end,
            self.config.lowercase && emitted_lower(old(st).view().out) ==> emitted_lower(final(st).view().out),
    {
        proof {
            reveal(flush);
            lemma_utf8_len_ge(chars@);
        }
        if !self.config.keep_none_chinese {
            return;
        }
        let ghost st0 = st.view();
        let bcs = st.buf_char_start;
        let bce = st.buf_char_end;
        let raw = copy_range(chars.as_slice(), bcs, bce);
        if self.config.none_chinese_pinyin_tokenize {
            let low = lower_chars(raw.as_slice());
            let spans = token_segments_chars(low.as_slice());
            proof {
                crate::alphabet::lemma_token_segments_tile(low@);
                crate::alphabet::lemma_tiles_chain(token_segments(low@), 0, low@.len() as int);
                crate::alphabet::lemma_tiles_within(token_segments(low@), 0, low@.len() as int);
            }
            self.flush_pieces_exec(text, chars, offs, st, &raw, &low, &spans);
        } else if self.config.keep_first_letter || self.config.keep_separate_first_letter
            || self.config.keep_full_pinyin || !self.config.keep_none_chinese_in_joined_full_pinyin {
            st.position = st.position + 1;
            let t = Term::Borrowed(text.substring_char(bcs, bce));
            push_candidate(
                &self.config,
                &mut st.cands,
                &mut st.seen,
                t,
                offs[bcs],
                offs[bce],
                st.position,
            );
        }
    }

    /// Emit the pieces of the pending run.
    #[verifier::spinoff_prover]
    #[verifier::rlimit(40)]
    fn flush_pieces_exec<'a>(
        &self,
        text: &'a str,
        chars: &Vec<char>,
        offs: &Vec<u32>,
        st: &mut ExecState<'a>,
        raw: &Vec<char>,
        low: &Vec<char>,
        spans: &Vec<Span>,
    )
        requires
            chars@ == text@,
            offsets_ok(chars@, offs@),
            old(st).buf_char_start < old(st).buf_char_end <= chars@.len(),
            old(st).position <= old(st).buf_char_start,
            raw@ == chars@.subrange(old(st).buf_char_start as int, old(st).buf_char_end as int),
            low@ == ascii_lower_seq(raw@),
            span_view(spans@) == token_segments(low@),
        ensures
            final(st).view() == flush_pieces(
                self.config,
                chars@,
                old(st).view(),
                spans@.len() as int,
            ).0,
            final(st).buf_byte_start == old(st).buf_byte_start,
            final(st).buf_byte_end == old(st).buf_byte_end,
            self.config.lowercase && emitted_lower(old(st).view().out) ==> emitted_lower(final(st).view().out),
    {
        proof {
            lemma_utf8_len_ge(chars@);
            crate::alphabet::lemma_token_segments_tile(low@);
            crate::alphabet::lemma_tiles_chain(token_segments(low@), 0, low@.len() as int);
            crate::alphabet::lemma_tiles_within(token_segments(low@), 0, low@.len() as int);
        }
        let ghost st0 = st.view();
        let bcs = st.buf_char_start;
        let bce = st.buf_char_end;
        let mut cur: usize = bcs;
        let mut k: usize = 0;
        while k < spans.len()
            invariant
                chars@ == text@,
                offsets_ok(chars@, offs@),
                chars@.len() <= 0xFFFF_FFFF,
                0 <= st0.buf_char_start < st0.buf_char_end <= chars@.len(),
                st0.position <= st0.buf_char_start,
                bcs == st0.buf_char_start,
                bce == st0.buf_char_end,
                raw@ == chars@.subrange(bcs as int, bce as int),
                low@ == ascii_lower_seq(raw@),
                span_view(spans@) == token_segments(low@),
                spans@.len() <= low@.len(),
                forall|j: int|
                    0 <= j < token_segments(low@).len() ==> 0 <= (#[trigger] token_segments(
                        low@,
                    )[j]).0 <= token_segments(low@)[j].1 <= low@.len(),
                k <= spans@.len(),
                st.view() == flush_pieces(self.config, chars@, st0, k as int).0,
                cur as int == flush_pieces(self.config, chars@, st0, k as int).1,
                st.buf_byte_start == st0.buf_byte_start,
                st.buf_byte_end == st0.buf_byte_end,
                self.config.lowercase && emitted_lower(st0.out) ==> emitted_lower(st.view().out),
            decreases spans.len() - k,
        {
            proof {
                lemma_flush_pieces(self.config, chars@, st0, k as int);
                lemma_flush_pieces(self.config, chars@, st0, k + 1);
            }
            let (a, b) = spans[k];
            assert(span_view(spans@)[k as int] == (a as int, b as int));
            let raw_piece = copy_range(raw.as_slice(), a, b);
            let term = if self.config.lowercase && any_ascii_upper(&raw_piece) {
                Term::Owned(string_from_chars(copy_range(low.as_slice(), a, b).as_slice()))
            } else {
                proof {
                    assert(chars@.subrange(bcs + a, bcs + b) =~= raw@.subrange(a as int, b as int));
                    if self.config.lowercase {
                        assert(low@.subrange(a as int, b as int) =~= raw@.subrange(a as int, b as int));
                    }
                }
                Term::Borrowed(text.substring_char(bcs + a, bcs + b))
            };
            let end_char = if self.config.fixed_pinyin_offset {
                cur + 1
            } else {
                cur + (b - a)
            };
            st.position = st.position + 1;
            push_candidate(
                &self.config,
                &mut st.cands,
                &mut st.seen,
                term,
                offs[cur],
                offs[end_char],
                st.position,
            );
            cur = end_char;
            k = k + 1;
        }
    }

    /// The character at index `i`.
    fn step_exec<'a>(
        &self,
        text: &'a str,
        chars: &Vec<char>,
        offs: &Vec<u32>,
        ov: &Vec<Option<&Reading>>,
        st: &mut ExecState<'a>,
        i: usize,
    )
        requires
            chars@ == text@,
            i < chars@.len(),
            inputs_ok(chars@, offs@, overlay_view(ov@)),
            state_inv(self.config, chars@, old(st).view(), i as int),
        ensures
            final(st).view() == step(
                self.config,
                self.rules,
                chars@,
                overlay_view(ov@),
                old(st).view(),
                i as int,
            ),
            self.config.lowercase && emitted_lower(old(st).view().out) ==> emitted_lower(final(st).view().out),
    {
        proof {
            lemma_utf8_len_ge(chars@);
            lemma_byte_offset_step(chars@, i as int);
        }
        proof {
            lemma_byte_offset_mono(chars@, i as int, chars@.len() as int);
            lemma_byte_offset_total(chars@);
        }
        let c = chars[i];
        let byte_idx = offs[i] as usize;
        if (c as u32) < 128 {
            if !(st.buf_byte_start < st.buf_byte_end) {
                st.buf_byte_start = byte_idx;
                st.buf_char_start = i;
            }
            if ascii_alnum(c) {
                if self.config.keep_none_chinese {
                    if self.config.keep_none_chinese_together {
                        assert(byte_idx + 1 == offs@[i + 1] as int);
                        st.buf_byte_end = byte_idx + 1;
                        st.buf_char_end = i + 1;
                    } else {
                        st.position = st.position + 1;
                        let t = Term::Borrowed(text.substring_char(i, i + 1));
                        assert(t.view() =~= seq![c]);
                        let p = st.buf_char_start as u32 + 1;
                        push_candidate(&self.config, &mut st.cands, &mut st.seen, t, offs[i], offs[i + 1], p);
                    }
                }
                if self.config.keep_none_chinese_in_first_letter {
                    st.first_letters.push((c as u32) as u8);
                }
                if self.config.keep_none_chinese_in_joined_full_pinyin {
                    st.joined.push(c);
                }
            }
        } else {
            if st.buf_byte_start < st.buf_byte_end {
                self.flush_exec(text, chars, offs, st);
                proof {
                    lemma_flush(self.config, chars@, old(st).view());
                }
                st.buf_byte_start = 0;
                st.buf_byte_end = 0;
            }
            if is_chinese(c) {
                self.chinese_exec(text, chars, offs, ov, st, i);
            }
        }
    }

    /// The Chinese character at index `i`.
    fn chinese_exec<'a>(
        &self,
        text: &'a str,
        chars: &Vec<char>,
        offs: &Vec<u32>,
        ov: &Vec<Option<&Reading>>,
        st: &mut ExecState<'a>,
        i: usize,
    )
        requires
            chars@ == text@,
            i < chars@.len(),
            inputs_ok(chars@, offs@, overlay_view(ov@)),
            old(st).view().position <= i,
        ensures
            final(st).view() == chinese_step(
                self.config,
                self.rules,
                chars@,
                overlay_view(ov@),
                old(st).view(),
                i as int,
            ),
            self.config.lowercase && emitted_lower(old(st).view().out) ==> emitted_lower(final(st).view().out),
    {
        proof {
            reveal(chinese_step);
            lemma_utf8_len_ge(chars@);
        }
        let c = chars[i];
        let s_off = offs[i];
        let e_off = offs[i + 1];
        let reading = self.resolve_reading(c, ov, i);
        match reading {
            Some(term) => {
                let s: &str = term.as_str();
                proof {
                    crate::rules::lemma_encode_nonempty(s@);
                }
                let bytes = s.as_bytes();
                let fl = bytes[0];
                st.first_letters.push(fl);
                let sep = self.config.keep_separate_first_letter && s.len() > 1;
                if sep {
                    st.position = st.position + 1;
                    let first: Term<'static> = match &term {
                        Term::Borrowed(b) => Term::Borrowed(b.substring_char(0, 1)),
                        Term::Owned(o) => Term::Owned(o.as_str().substring_char(0, 1).to_string()),
                    };
                    assert(first.view() =~= seq![term.view()[0]]);
                    push_candidate(&self.config, &mut st.cands, &mut st.seen, first, s_off, e_off, st.position);
                }
                if self.config.keep_full_pinyin {
                    if !sep {
                        st.position = st.position + 1;
                    }
                    let full = term.clone();
                    push_candidate(&self.config, &mut st.cands, &mut st.seen, full, s_off, e_off, st.position);
                }
                if self.config.keep_separate_chinese {
                    let t = Term::Borrowed(text.substring_char(i, i + 1));
                    assert(t.view() =~= seq![c]);
                    push_candidate(&self.config, &mut st.cands, &mut st.seen, t, s_off, e_off, st.position);
                }
                if self.config.keep_joined_full_pinyin {
                    let p = str_chars(term.as_str());
                    crate::normalizer::push_all(&mut st.joined, &p);
                }
            },
            None => {
                if self.config.keep_separate_chinese {
                    let t = Term::Borrowed(text.substring_char(i, i + 1));
                    assert(t.view() =~= seq![c]);
                    push_candidate(&self.config, &mut st.cands, &mut st.seen, t, s_off, e_off, st.position);
                }
            },
        }
    }
}

/// ASCII lower-casing of one byte.
fn lower_u8(b: u8) -> (r: u8)
    ensures
        r == lower_byte(b),
{
    if 65 <= b && b <= 90 {
        b + 32
    } else {
        b
    }
}

/// Number of bytes of the UTF-8 encoding of `s`, cut to 32 bits.
fn utf8_len_u32(s: &Vec<char>) -> (r: u32)
    requires
        s@.len() <= 0xFFFF_FFFF,
    ensures
        r == utf8_len(s@) as u32,
{
    let mut total: u64 = 0;
    let mut i: usize = 0;
    while i < s.len()
        invariant
            i <= s.len(),
            s@.len() <= 0xFFFF_FFFF,
            total == utf8_len(s@.take(i as int)),
            total <= 4 * i,
        decreases s.len() - i,
    {
        assert(s@.take(i + 1).drop_last() == s@.take(i as int));
        total = total + char_utf8_width(s[i]) as u64;
        i = i + 1;
    }
    assert(s@.take(s.len() as int) == s@);
    total as u32
}

/// `s` with `x` put in at `j`, where every element from `j` on comes after
/// `x` and the one before `j` (if any) does not.
pub proof fn lemma_insert_by_position(s: Seq<CandView>, x: CandView, j: int)
    requires
        0 <= j <= s.len(),
        forall|k: int| j <= k < s.len() ==> #[trigger] s[k].position > x.position,
        j > 0 ==> s[j - 1].position <= x.position,
    ensures
        insert_by_position(s, x) == s.take(j).push(x) + s.skip(j),
    decreases s.len(),
{
    if s.len() == 0 {
        assert(s.take(j).push(x) + s.skip(j) =~= seq![x]);
    } else if s.last().position <= x.position {
        assert(s.take(j).push(x) + s.skip(j) =~= s.push(x));
    } else {
        let d = s.drop_last();
        lemma_insert_by_position(d, x, j);
        assert((d.take(j).push(x) + d.skip(j)).push(s.last()) =~= s.take(j).push(x) + s.skip(j));
    }
}

/// Stable sort of the candidates by position.
fn sort_candidates<'a>(v: Vec<Candidate<'a>>) -> (r: Vec<Candidate<'a>>)
    ensures
        cand_views(r@) == sort_by_position(cand_views(v@)),
{
    let ghost views = cand_views(v@);
    let total = v.len();
    let mut v = v;
    let mut rev: Vec<Candidate<'a>> = Vec::new();
    while v.len() > 0
        invariant
            cand_views(v@) + cand_views(rev@).reverse() == views,
        decreases v.len(),
    {
        let ghost before_v = cand_views(v@);
        let ghost before_r = cand_views(rev@);
        let x = v.pop().unwrap();
        rev.push(x);
        assert(cand_views(v@) =~= before_v.drop_last());
        assert(cand_views(rev@) =~= before_r.push(x.view()));
        assert(cand_views(rev@).reverse() =~= seq![x.view()] + before_r.reverse());
        assert(before_v =~= cand_views(v@).push(x.view()));
    }
    assert(cand_views(rev@).reverse() =~= views);
    let mut out: Vec<Candidate<'a>> = Vec::new();
    let mut done: usize = 0;
    while rev.len() > 0
        invariant
            views.len() == total,
            done + rev@.len() == views.len(),
            cand_views(rev@).reverse() == views.skip(done as int),
            cand_views(out@) == sort_by_position(views.take(done as int)),
        decreases rev.len(),
    {
        let ghost before_r = cand_views(rev@);
        let x = rev.pop().unwrap();
        assert(cand_views(rev@) =~= before_r.drop_last());
        assert(x.view() == views[done as int]) by {
            assert(before_r.reverse()[0] == before_r.last());
            assert(views.skip(done as int)[0] == views[done as int]);
        }
        assert(cand_views(rev@).reverse() =~= views.skip(done + 1)) by {
            assert(before_r.reverse() =~= seq![x.view()] + cand_views(rev@).reverse());
            assert(views.skip(done + 1) =~= views.skip(done as int).drop_first());
        }
        let ghost sorted = cand_views(out@);
        let mut j: usize = out.len();
        while j > 0 && out[j - 1].position > x.position
            invariant
                j <= out@.len(),
                cand_views(out@) == sorted,
                forall|k: int| j <= k < sorted.len() ==> #[trigger] sorted[k].position > x.position,
            decreases j,
        {
            j = j - 1;
        }
        proof {
            lemma_insert_by_position(sorted, x.view(), j as int);
            assert(views.take(done + 1).drop_last() =~= views.take(done as int));
        }
        out.insert(j, x);
        assert(cand_views(out@) =~= sorted.take(j as int).push(x.view()) + sorted.skip(j as int));
        done = done + 1;
    }
    assert(views.take(views.len() as int) =~= views);
    out
}

pub proof fn lemma_renumber_bound(s: Seq<CandView>)
    ensures
        renumber_state(s).1 >= -1,
        renumber_state(s).1 == -1 ==> renumber_state(s).2 == 0,
        renumber_state(s).1 >= 0 ==> renumber_state(s).2 <= renumber_state(s).1,
        renumber_state(s).0.len() == s.len(),
    decreases s.len(),
{
    if s.len() > 0 {
        lemma_renumber_bound(s.drop_last());
    }
}

/// Renumber the positions of the sorted candidates from 0.
fn renumber<'a>(v: &Vec<Candidate<'a>>) -> (r: Vec<Token<'a>>)
    requires
        forall|k: int| 0 <= k < v@.len() ==> 0 <= #[trigger] v@[k].view().position,
    ensures
        r@.len() == renumber_state(cand_views(v@)).0.len(),
        forall|k: int| 0 <= k < r@.len() ==> #[trigger] r@[k]@ == renumber_state(cand_views(v@)).0[k],
{
    let ghost views = cand_views(v@);
    let mut out: Vec<Token<'a>> = Vec::new();
    let mut last_pos: i64 = -1;
    let mut emit_pos: u32 = 0;
    let mut k: usize = 0;
    while k < v.len()
        invariant
            k <= v@.len(),
            views == cand_views(v@),
            last_pos as int == renumber_state(views.take(k as int)).1,
            emit_pos as int == renumber_state(views.take(k as int)).2,
            out@.len() == k,
            forall|j: int|
                0 <= j < k ==> #[trigger] out@[j]@ == renumber_state(views.take(k as int)).0[j],
        decreases v.len() - k,
    {
        proof {
            lemma_renumber_bound(views.take(k as int));
            assert(views.take(k + 1).drop_last() =~= views.take(k as int));
        }
        let item = &v[k];
        if (item.position as i64) > last_pos {
            if last_pos >= 0 {
                emit_pos = emit_pos + 1;
            }
            last_pos = item.position as i64;
        }
        out.push(
            Token {
                term: item.term.clone(),
                start_offset: item.start_offset,
                end_offset: item.end_offset,
                position: emit_pos,
            },
        );
        k = k + 1;
    }
    assert(views.take(v.len() as int) =~= views);
    proof {
        lemma_renumber_bound(views);
    }
    out
}

} // verus!
