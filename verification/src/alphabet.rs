//! Re-segment a chunk of ASCII letters as a sequence of pinyin syllables.
//!
//! The input is lower-cased and cut into maximal runs of letters and of
//! non-letters. A run of one character stays whole; any other run is cut by
//! forward maximum matching against the syllable alphabet and, when that
//! gives more than one piece, also by reverse maximum matching; the result
//! with fewer pieces wins (forward on a tie). Stretches that match nothing
//! are kept as single pieces.

use vstd::prelude::*;
use vstd::string::StrSliceExecFns;

use crate::dict::{alphabet, ALPHABET_COUNT, ALPHABET_NAMES};
use crate::text::{
    all_ascii, ascii_lower_seq, is_ascii_alpha, lower_chars, str_chars, string_from_chars,
};

verus! {

/// Longest syllable the matchers try.
pub const PINYIN_MAX_LENGTH: usize = 6;

/// A piece of a character sequence, as a half-open index range.
pub type Span = (usize, usize);

/// Spans as pairs of integers.
pub open spec fn span_view(v: Seq<Span>) -> Seq<(int, int)> {
    v.map_values(|p: Span| (p.0 as int, p.1 as int))
}

/// `t[a..b]` is a syllable of the alphabet.
pub open spec fn is_alphabet_piece(t: Seq<char>, a: int, b: int) -> bool {
    alphabet().contains(t.subrange(a, b))
}

/// Largest `k` in `1..=w` such that `t[start..start + k]` is a syllable;
/// `0` when there is none.
pub open spec fn longest_forward(t: Seq<char>, start: int, w: int) -> int
    decreases w,
{
    if w <= 0 {
        0
    } else if is_alphabet_piece(t, start, start + w) {
        w
    } else {
        longest_forward(t, start, w - 1)
    }
}

/// Largest `k` in `1..=w` such that `t[end - k..end]` is a syllable; `0`
/// when there is none.
pub open spec fn longest_backward(t: Seq<char>, end: int, w: int) -> int
    decreases w,
{
    if w <= 0 {
        0
    } else if is_alphabet_piece(t, end - w, end) {
        w
    } else {
        longest_backward(t, end, w - 1)
    }
}

/// The matching window at a position: at most [`PINYIN_MAX_LENGTH`]
/// characters, and no more than `room`.
pub open spec fn window(room: int) -> int {
    if room < PINYIN_MAX_LENGTH {
        room
    } else {
        PINYIN_MAX_LENGTH as int
    }
}

/// Forward maximum matching of `t[start..hi]`, where `pending` is the start
/// of a stretch that matched nothing so far.
pub open spec fn forward_from(t: Seq<char>, hi: int, start: int, pending: Option<int>) -> Seq<
    (int, int),
>
    decreases (if hi > start {
        hi - start
    } else {
        0
    }),
{
    if start >= hi {
        match pending {
            Some(a) => seq![(a, hi)],
            None => seq![],
        }
    } else {
        let m = longest_forward(t, start, window(hi - start));
        if m > 0 {
            let flushed = match pending {
                Some(a) => seq![(a, start)],
                None => seq![],
            };
            flushed + seq![(start, start + m)] + forward_from(t, hi, start + m, None)
        } else {
            forward_from(
                t,
                hi,
                start + 1,
                match pending {
                    Some(a) => Some(a),
                    None => Some(start),
                },
            )
        }
    }
}

/// Reverse maximum matching of `t[lo..end]`, pieces listed from right to
/// left, where `pending` is the end of a stretch that matched nothing so
/// far.
pub open spec fn backward_from(t: Seq<char>, lo: int, end: int, pending: Option<int>) -> Seq<
    (int, int),
>
    decreases (if end > lo {
        end - lo
    } else {
        0
    }),
{
    if end <= lo {
        match pending {
            Some(b) => seq![(lo, b)],
            None => seq![],
        }
    } else {
        let m = longest_backward(t, end, window(end - lo));
        if m > 0 {
            let flushed = match pending {
                Some(b) => seq![(end, b)],
                None => seq![],
            };
            flushed + seq![(end - m, end)] + backward_from(t, lo, end - m, None)
        } else {
            backward_from(
                t,
                lo,
                end - 1,
                match pending {
                    Some(b) => Some(b),
                    None => Some(end),
                },
            )
        }
    }
}

/// Forward maximum matching of the chunk `t[lo..hi]`.
pub open spec fn forward_match(t: Seq<char>, lo: int, hi: int) -> Seq<(int, int)> {
    forward_from(t, hi, lo, None)
}

/// Reverse maximum matching of the chunk `t[lo..hi]`, left to right.
pub open spec fn backward_match(t: Seq<char>, lo: int, hi: int) -> Seq<(int, int)> {
    backward_from(t, lo, hi, None).reverse()
}

/// Pieces of one chunk `t[lo..hi]`: the chunk itself when it is one
/// character long, else the forward result when it is a single piece, else
/// whichever of the forward and reverse results has fewer pieces (forward on
/// a tie).
pub open spec fn segment_chunk(t: Seq<char>, lo: int, hi: int) -> Seq<(int, int)> {
    if hi - lo == 1 {
        seq![(lo, hi)]
    } else {
        let f = forward_match(t, lo, hi);
        if f.len() == 1 {
            f
        } else {
            let b = backward_match(t, lo, hi);
            if f.len() <= b.len() {
                f
            } else {
                b
            }
        }
    }
}

/// Maximal runs of ASCII letters and of other characters, in order.
pub open spec fn letter_runs(t: Seq<char>) -> Seq<(int, int)>
    decreases t.len(),
{
    if t.len() == 0 {
        seq![]
    } else {
        let r = letter_runs(t.drop_last());
        let n = t.len() - 1;
        if r.len() > 0 && is_ascii_alpha(t[n]) == is_ascii_alpha(t[n - 1]) {
            r.update(r.len() - 1, (r.last().0, n + 1))
        } else {
            r.push((n, n + 1))
        }
    }
}

/// Pieces of every chunk of `runs`, in order.
pub open spec fn segment_runs(t: Seq<char>, runs: Seq<(int, int)>) -> Seq<(int, int)>
    decreases runs.len(),
{
    if runs.len() == 0 {
        seq![]
    } else {
        segment_runs(t, runs.drop_last()) + segment_chunk(t, runs.last().0, runs.last().1)
    }
}

/// Pieces of an (already lower-cased) character sequence.
#[verifier::opaque]
pub open spec fn pinyin_segments(t: Seq<char>) -> Seq<(int, int)> {
    segment_runs(t, letter_runs(t))
}

/// A bare initial of the alphabet (`b`, `c`, `ch`, `d`, ..., `zh`): it
/// stands for the start of a syllable, not a whole one.
pub open spec fn is_bare_initial(p: Seq<char>) -> bool {
    ||| p.len() == 1 && (p[0] == 'b' || p[0] == 'c' || p[0] == 'd' || p[0] == 'f' || p[0] == 'g'
        || p[0] == 'h' || p[0] == 'j' || p[0] == 'k' || p[0] == 'l' || p[0] == 'p' || p[0] == 'q'
        || p[0] == 'r' || p[0] == 's' || p[0] == 't' || p[0] == 'w' || p[0] == 'x' || p[0] == 'y'
        || p[0] == 'z')
    ||| p.len() == 2 && p[1] == 'h' && (p[0] == 'c' || p[0] == 's' || p[0] == 'z')
}

/// `t[a..b]` is a whole pinyin syllable: in the alphabet, and not a bare
/// initial.
pub open spec fn is_whole_syllable(t: Seq<char>, a: int, b: int) -> bool {
    is_alphabet_piece(t, a, b) && !is_bare_initial(t.subrange(a, b))
}

/// Every piece of `s` is a whole syllable of `t`.
pub open spec fn all_whole_syllables(t: Seq<char>, s: Seq<(int, int)>) -> bool {
    forall|k: int| 0 <= k < s.len() ==> is_whole_syllable(t, (#[trigger] s[k]).0, s[k].1)
}

/// Pieces of one chunk for the tokenizer: its pinyin pieces when every one
/// is a whole syllable (the chunk reads as pinyin), else the chunk whole.
pub open spec fn token_chunk(t: Seq<char>, lo: int, hi: int) -> Seq<(int, int)> {
    let s = segment_chunk(t, lo, hi);
    if all_whole_syllables(t, s) {
        s
    } else {
        seq![(lo, hi)]
    }
}

/// Tokenizer pieces of every chunk of `runs`, in order.
pub open spec fn token_runs(t: Seq<char>, runs: Seq<(int, int)>) -> Seq<(int, int)>
    decreases runs.len(),
{
    if runs.len() == 0 {
        seq![]
    } else {
        token_runs(t, runs.drop_last()) + token_chunk(t, runs.last().0, runs.last().1)
    }
}

/// Pieces of an (already lower-cased) ASCII run for the tokenizer: a chunk
/// of letters that reads as pinyin is cut into its syllables, any other
/// chunk stays whole.
#[verifier::opaque]
pub open spec fn token_segments(t: Seq<char>) -> Seq<(int, int)> {
    token_runs(t, letter_runs(t))
}

/// The texts of `spans` within `t`.
pub open spec fn span_texts(t: Seq<char>, spans: Seq<(int, int)>) -> Seq<Seq<char>> {
    spans.map_values(|p: (int, int)| t.subrange(p.0, p.1))
}

/// What [`walk`] returns for `text`.
pub open spec fn walk_spec(text: Seq<char>) -> Seq<Seq<char>> {
    span_texts(ascii_lower_seq(text), pinyin_segments(ascii_lower_seq(text)))
}

pub proof fn lemma_longest_forward_bounds(t: Seq<char>, start: int, w: int)
    ensures
        0 <= longest_forward(t, start, w),
        w >= 0 ==> longest_forward(t, start, w) <= w,
        longest_forward(t, start, w) > 0 ==> is_alphabet_piece(
            t,
            start,
            start + longest_forward(t, start, w),
        ),
    decreases w,
{
    if w > 0 {
        lemma_longest_forward_bounds(t, start, w - 1);
    }
}

pub proof fn lemma_longest_backward_bounds(t: Seq<char>, end: int, w: int)
    ensures
        0 <= longest_backward(t, end, w),
        w >= 0 ==> longest_backward(t, end, w) <= w,
    decreases w,
{
    if w > 0 {
        lemma_longest_backward_bounds(t, end, w - 1);
    }
}

/// `e` reads exactly as `t[a..b]`.
fn str_matches(e: &str, t: &[char], a: usize, b: usize) -> (r: bool)
    requires
        a <= b <= t.len(),
    ensures
        r == (e@ == t@.subrange(a as int, b as int)),
{
    let n = e.unicode_len();
    if n != b - a {
        return false;
    }
    let mut k: usize = 0;
    while k < n
        invariant
            n == e@.len(),
            n == b - a,
            a <= b <= t.len(),
            k <= n,
            forall|j: int| 0 <= j < k ==> e@[j] == t@[a + j],
        decreases n - k,
    {
        if e.get_char(k) != t[a + k] {
            assert(e@[k as int] != t@.subrange(a as int, b as int)[k as int]);
            return false;
        }
        k = k + 1;
    }
    assert(e@ == t@.subrange(a as int, b as int));
    true
}

/// `t[a..b]` is a syllable of the alphabet.
fn is_alphabet_chars(t: &[char], a: usize, b: usize) -> (r: bool)
    requires
        a <= b <= t.len(),
    ensures
        r == is_alphabet_piece(t@, a as int, b as int),
{
    let mut i: usize = 0;
    while i < ALPHABET_COUNT
        invariant
            i <= ALPHABET_COUNT,
            a <= b <= t.len(),
            forall|j: int| 0 <= j < i ==> alphabet()[j] != t@.subrange(a as int, b as int),
        decreases ALPHABET_COUNT - i,
    {
        if str_matches(ALPHABET_NAMES[i], t, a, b) {
            assert(alphabet()[i as int] == t@.subrange(a as int, b as int));
            return true;
        }
        i = i + 1;
    }
    false
}

/// Longest syllable starting at `start` within a window of `w` characters.
fn longest_forward_at(t: &[char], start: usize, w: usize) -> (m: usize)
    requires
        start + w <= t.len(),
    ensures
        m == longest_forward(t@, start as int, w as int),
{
    let mut k: usize = w;
    while k > 0
        invariant
            k <= w,
            start + w <= t.len(),
            longest_forward(t@, start as int, w as int) == longest_forward(
                t@,
                start as int,
                k as int,
            ),
        decreases k,
    {
        if is_alphabet_chars(t, start, start + k) {
            return k;
        }
        k = k - 1;
    }
    0
}

/// Longest syllable ending at `end` within a window of `w` characters.
fn longest_backward_at(t: &[char], end: usize, w: usize) -> (m: usize)
    requires
        w <= end <= t.len(),
    ensures
        m == longest_backward(t@, end as int, w as int),
{
    let mut k: usize = w;
    while k > 0
        invariant
            k <= w <= end <= t.len(),
            longest_backward(t@, end as int, w as int) == longest_backward(
                t@,
                end as int,
                k as int,
            ),
        decreases k,
    {
        if is_alphabet_chars(t, end - k, end) {
            return k;
        }
        k = k - 1;
    }
    0
}

/// Forward maximum matching of `t[lo..hi]`.
fn positive_max_match(t: &[char], lo: usize, hi: usize) -> (r: Vec<Span>)
    requires
        lo <= hi <= t.len(),
    ensures
        span_view(r@) == forward_match(t@, lo as int, hi as int),
{
    let mut out: Vec<Span> = Vec::new();
    let mut no_match_start: Option<usize> = None;
    let mut start: usize = lo;
    while start < hi
        invariant
            lo <= start <= hi <= t.len(),
            no_match_start matches Some(a) ==> lo <= a < start,
            span_view(out@) + forward_from(
                t@,
                hi as int,
                start as int,
                match no_match_start {
                    Some(a) => Some(a as int),
                    None => None,
                },
            ) == forward_match(t@, lo as int, hi as int),
        decreases hi - start,
    {
        let w: usize = if hi - start < PINYIN_MAX_LENGTH {
            hi - start
        } else {
            PINYIN_MAX_LENGTH
        };
        let m = longest_forward_at(t, start, w);
        proof {
            lemma_longest_forward_bounds(t@, start as int, w as int);
        }
        let ghost pending = match no_match_start {
            Some(a) => Some(a as int),
            None => None,
        };
        let ghost old_out = span_view(out@);
        if m > 0 {
            match no_match_start {
                Some(a) => {
                    out.push((a, start));
                },
                None => {},
            }
            out.push((start, start + m));
            proof {
                let flushed = match pending {
                    Some(a) => seq![(a, start as int)],
                    None => Seq::<(int, int)>::empty(),
                };
                assert(span_view(out@) == old_out + flushed + seq![(start as int, start + m)]);
                assert(forward_from(t@, hi as int, start as int, pending) == flushed + seq![
                    (start as int, start + m),
                ] + forward_from(t@, hi as int, start + m, None));
            }
            no_match_start = None;
            start = start + m;
        } else {
            if no_match_start.is_none() {
                no_match_start = Some(start);
            }
            start = start + 1;
        }
    }
    let ghost pending = match no_match_start {
        Some(a) => Some(a as int),
        None => None,
    };
    let ghost old_out = span_view(out@);
    match no_match_start {
        Some(a) => {
            out.push((a, hi));
            assert(span_view(out@) == old_out + seq![(a as int, hi as int)]);
        },
        None => {},
    }
    out
}

/// Reverse maximum matching of `t[lo..hi]`, pieces left to right.
fn reverse_max_match(t: &[char], lo: usize, hi: usize) -> (r: Vec<Span>)
    requires
        lo <= hi <= t.len(),
    ensures
        span_view(r@) == backward_match(t@, lo as int, hi as int),
{
    let mut out: Vec<Span> = Vec::new();
    let mut no_match_end: Option<usize> = None;
    let mut end: usize = hi;
    while end > lo
        invariant
            lo <= end <= hi <= t.len(),
            no_match_end matches Some(b) ==> end < b <= hi,
            span_view(out@) + backward_from(
                t@,
                lo as int,
                end as int,
                match no_match_end {
                    Some(b) => Some(b as int),
                    None => None,
                },
            ) == backward_from(t@, lo as int, hi as int, None),
        decreases end - lo,
    {
        let w: usize = if end - lo < PINYIN_MAX_LENGTH {
            end - lo
        } else {
            PINYIN_MAX_LENGTH
        };
        let m = longest_backward_at(t, end, w);
        proof {
            lemma_longest_backward_bounds(t@, end as int, w as int);
        }
        let ghost pending = match no_match_end {
            Some(b) => Some(b as int),
            None => None,
        };
        let ghost old_out = span_view(out@);
        if m > 0 {
            match no_match_end {
                Some(b) => {
                    out.push((end, b));
                },
                None => {},
            }
            out.push((end - m, end));
            proof {
                let flushed = match pending {
                    Some(b) => seq![(end as int, b)],
                    None => Seq::<(int, int)>::empty(),
                };
                assert(span_view(out@) == old_out + flushed + seq![(end - m, end as int)]);
                assert(backward_from(t@, lo as int, end as int, pending) == flushed + seq![
                    (end - m, end as int),
                ] + backward_from(t@, lo as int, end - m, None));
            }
            no_match_end = None;
            end = end - m;
        } else {
            if no_match_end.is_none() {
                no_match_end = Some(end);
            }
            end = end - 1;
        }
    }
    let ghost old_out = span_view(out@);
    match no_match_end {
        Some(b) => {
            out.push((lo, b));
            assert(span_view(out@) == old_out + seq![(lo as int, b as int)]);
        },
        None => {},
    }
    let ghost forward_order = span_view(out@);
    let r = reverse_spans(out);
    r
}

/// The spans of `v` in reverse order.
fn reverse_spans(v: Vec<Span>) -> (r: Vec<Span>)
    ensures
        span_view(r@) == span_view(v@).reverse(),
{
    let mut r: Vec<Span> = Vec::new();
    let mut i: usize = v.len();
    while i > 0
        invariant
            i <= v.len(),
            span_view(r@) == span_view(v@).subrange(i as int, v.len() as int).reverse(),
        decreases i,
    {
        i = i - 1;
        let ghost before = span_view(r@);
        r.push(v[i]);
        assert(span_view(v@).subrange(i as int, v.len() as int).reverse() =~= span_view(v@).subrange(
            i + 1,
            v.len() as int,
        ).reverse().push(span_view(v@)[i as int]));
        assert(span_view(r@) =~= before.push(span_view(v@)[i as int]));
    }
    r
}

/// Maximal runs of ASCII letters and of other characters.
fn split_by_non_letter(t: &[char]) -> (r: Vec<Span>)
    ensures
        span_view(r@) == letter_runs(t@),
{
    let mut chunks: Vec<Span> = Vec::new();
    let mut start: usize = 0;
    let mut last_letter = true;
    let mut i: usize = 0;
    while i < t.len()
        invariant
            i <= t.len(),
            start <= i,
            i == 0 ==> start == 0 && chunks@.len() == 0,
            i > 0 ==> start < i && last_letter == is_ascii_alpha(t@[i - 1]) && letter_runs(
                t@.take(i as int),
            ) == span_view(chunks@).push((start as int, i as int)),
            i > 0 ==> chunks@.len() == 0 || chunks@.last().1 == start,
        decreases t.len() - i,
    {
        let is_letter = is_alpha_char(t[i]);
        let ghost old_chunks = span_view(chunks@);
        let ghost old_start = start;
        assert(t@.take(i + 1).drop_last() == t@.take(i as int));
        if is_letter != last_letter && i > start {
            chunks.push((start, i));
            start = i;
        }
        proof {
            if i > 0 {
                let r = letter_runs(t@.take(i as int));
                assert(r.len() > 0);
                assert(r.last() == (old_start as int, i as int));
                if is_letter == last_letter {
                    assert(letter_runs(t@.take(i + 1)) == r.update(
                        r.len() - 1,
                        (old_start as int, i + 1),
                    ));
                    assert(r.update(r.len() - 1, (old_start as int, i + 1)) == old_chunks.push(
                        (old_start as int, i + 1),
                    ));
                } else {
                    assert(span_view(chunks@) == old_chunks.push((old_start as int, i as int)));
                }
            } else {
                assert(letter_runs(t@.take(0)) == Seq::<(int, int)>::empty());
            }
        }
        last_letter = is_letter;
        i = i + 1;
    }
    if start < t.len() {
        chunks.push((start, t.len()));
        assert(t@.take(t.len() as int) == t@);
    } else {
        assert(t@.len() == 0);
    }
    chunks
}

/// ASCII letter test.
fn is_alpha_char(c: char) -> (r: bool)
    ensures
        r == is_ascii_alpha(c),
{
    ('a' <= c && c <= 'z') || ('A' <= c && c <= 'Z')
}

/// Pieces of one chunk.
fn segment_chunk_exec(t: &[char], lo: usize, hi: usize) -> (r: Vec<Span>)
    requires
        lo <= hi <= t.len(),
    ensures
        span_view(r@) == segment_chunk(t@, lo as int, hi as int),
{
    if hi - lo == 1 {
        let mut v: Vec<Span> = Vec::new();
        v.push((lo, hi));
        return v;
    }
    let forward = positive_max_match(t, lo, hi);
    if forward.len() == 1 {
        return forward;
    }
    let backward = reverse_max_match(t, lo, hi);
    if forward.len() <= backward.len() {
        forward
    } else {
        backward
    }
}

/// Pieces of a lower-cased character sequence.
pub(crate) fn seg_pinyin_chars(t: &[char]) -> (r: Vec<Span>)
    ensures
        span_view(r@) == pinyin_segments(t@),
{
    proof {
        reveal(pinyin_segments);
    }
    let groups = split_by_non_letter(t);
    proof {
        lemma_runs_tile(t@);
        lemma_tiles_within(letter_runs(t@), 0, t@.len() as int);
    }
    let mut out: Vec<Span> = Vec::new();
    let mut g: usize = 0;
    while g < groups.len()
        invariant
            g <= groups.len(),
            span_view(groups@) == letter_runs(t@),
            forall|k: int|
                0 <= k < letter_runs(t@).len() ==> 0 <= (#[trigger] letter_runs(t@)[k]).0
                    <= letter_runs(t@)[k].1 <= t@.len(),
            span_view(out@) == segment_runs(t@, span_view(groups@).take(g as int)),
        decreases groups.len() - g,
    {
        let (lo, hi) = groups[g];
        assert(span_view(groups@)[g as int] == (lo as int, hi as int));
        let pieces = segment_chunk_exec(t, lo, hi);
        let ghost before = span_view(out@);
        let mut k: usize = 0;
        while k < pieces.len()
            invariant
                k <= pieces.len(),
                span_view(out@) == before + span_view(pieces@).take(k as int),
            decreases pieces.len() - k,
        {
            let ghost prev = span_view(out@);
            out.push(pieces[k]);
            assert(span_view(pieces@).take(k + 1) == span_view(pieces@).take(k as int).push(
                span_view(pieces@)[k as int],
            ));
            assert(span_view(out@) =~= prev.push(span_view(pieces@)[k as int]));
            k = k + 1;
        }
        assert(span_view(pieces@).take(pieces.len() as int) == span_view(pieces@));
        assert(span_view(groups@).take(g + 1).drop_last() == span_view(groups@).take(g as int));
        g = g + 1;
    }
    assert(span_view(groups@).take(groups.len() as int) == span_view(groups@));
    out
}

/// `t[a..b]` is a bare initial.
fn bare_initial_chars(t: &[char], a: usize, b: usize) -> (r: bool)
    requires
        a <= b <= t.len(),
    ensures
        r == is_bare_initial(t@.subrange(a as int, b as int)),
{
    if b - a == 1 {
        let c = t[a];
        c == 'b' || c == 'c' || c == 'd' || c == 'f' || c == 'g' || c == 'h' || c == 'j' || c == 'k'
            || c == 'l' || c == 'p' || c == 'q' || c == 'r' || c == 's' || c == 't' || c == 'w'
            || c == 'x' || c == 'y' || c == 'z'
    } else if b - a == 2 {
        let c = t[a];
        t[a + 1] == 'h' && (c == 'c' || c == 's' || c == 'z')
    } else {
        false
    }
}

/// Pieces of one chunk for the tokenizer.
fn token_chunk_exec(t: &[char], lo: usize, hi: usize) -> (r: Vec<Span>)
    requires
        lo < hi <= t.len(),
    ensures
        span_view(r@) == token_chunk(t@, lo as int, hi as int),
{
    let pieces = segment_chunk_exec(t, lo, hi);
    proof {
        lemma_chunk_tiles(t@, lo as int, hi as int);
        lemma_tiles_within(segment_chunk(t@, lo as int, hi as int), lo as int, hi as int);
    }
    let ghost sv = span_view(pieces@);
    let mut k: usize = 0;
    while k < pieces.len()
        invariant
            k <= pieces.len(),
            lo < hi <= t.len(),
            sv == span_view(pieces@),
            sv == segment_chunk(t@, lo as int, hi as int),
            forall|j: int| 0 <= j < sv.len() ==> lo <= (#[trigger] sv[j]).0 < sv[j].1 <= hi,
            forall|j: int| 0 <= j < k ==> is_whole_syllable(t@, (#[trigger] sv[j]).0, sv[j].1),
        decreases pieces.len() - k,
    {
        let (a, b) = pieces[k];
        assert(sv[k as int] == (a as int, b as int));
        if !is_alphabet_chars(t, a, b) || bare_initial_chars(t, a, b) {
            let mut v: Vec<Span> = Vec::new();
            v.push((lo, hi));
            assert(!all_whole_syllables(t@, sv));
            assert(span_view(v@) =~= seq![(lo as int, hi as int)]);
            return v;
        }
        k = k + 1;
    }
    pieces
}

/// Pieces of a lower-cased ASCII run for the tokenizer.
pub(crate) fn token_segments_chars(t: &[char]) -> (r: Vec<Span>)
    ensures
        span_view(r@) == token_segments(t@),
{
    proof {
        reveal(token_segments);
    }
    let groups = split_by_non_letter(t);
    proof {
        lemma_runs_tile(t@);
        lemma_tiles_within(letter_runs(t@), 0, t@.len() as int);
    }
    let mut out: Vec<Span> = Vec::new();
    let mut g: usize = 0;
    while g < groups.len()
        invariant
            g <= groups.len(),
            span_view(groups@) == letter_runs(t@),
            forall|k: int|
                0 <= k < letter_runs(t@).len() ==> 0 <= (#[trigger] letter_runs(t@)[k]).0
                    < letter_runs(t@)[k].1 <= t@.len(),
            span_view(out@) == token_runs(t@, span_view(groups@).take(g as int)),
        decreases groups.len() - g,
    {
        let (lo, hi) = groups[g];
        assert(span_view(groups@)[g as int] == (lo as int, hi as int));
        let pieces = token_chunk_exec(t, lo, hi);
        let ghost before = span_view(out@);
        let mut k: usize = 0;
        while k < pieces.len()
            invariant
                k <= pieces.len(),
                span_view(out@) == before + span_view(pieces@).take(k as int),
            decreases pieces.len() - k,
        {
            let ghost prev = span_view(out@);
            out.push(pieces[k]);
            assert(span_view(pieces@).take(k + 1) == span_view(pieces@).take(k as int).push(
                span_view(pieces@)[k as int],
            ));
            assert(span_view(out@) =~= prev.push(span_view(pieces@)[k as int]));
            k = k + 1;
        }
        assert(span_view(pieces@).take(pieces.len() as int) == span_view(pieces@));
        assert(span_view(groups@).take(g + 1).drop_last() == span_view(groups@).take(g as int));
        g = g + 1;
    }
    assert(span_view(groups@).take(groups.len() as int) == span_view(groups@));
    out
}

/// Split `text` into pinyin-like sub-strings via forward+reverse max matching
/// against the bundled syllable alphabet. The text is lower-cased first.
pub fn walk(text: &str) -> (r: Vec<String>)
    requires
        all_ascii(text@),
    ensures
        r@.len() == walk_spec(text@).len(),
        forall|k: int| 0 <= k < r@.len() ==> (#[trigger] r@[k])@ == walk_spec(text@)[k],
{
    let chars = str_chars(text);
    let lowered = lower_chars(&chars);
    let spans = seg_pinyin_chars(&lowered);
    let ghost low = lowered@;
    proof {
        lemma_segments_within(low);
    }
    let mut out: Vec<String> = Vec::new();
    let mut k: usize = 0;
    while k < spans.len()
        invariant
            k <= spans.len(),
            low == lowered@,
            low == ascii_lower_seq(text@),
            span_view(spans@) == pinyin_segments(low),
            forall|j: int|
                0 <= j < pinyin_segments(low).len() ==> 0 <= (#[trigger] pinyin_segments(low)[j]).0
                    <= pinyin_segments(low)[j].1 <= low.len(),
            out@.len() == k,
            forall|j: int|
                0 <= j < k ==> (#[trigger] out@[j])@ == span_texts(low, pinyin_segments(low))[j],
        decreases spans.len() - k,
    {
        let (a, b) = spans[k];
        assert(span_view(spans@)[k as int] == (a as int, b as int));
        let piece = string_from_chars(&lowered.as_slice()[a..b]);
        out.push(piece);
        k = k + 1;
    }
    out
}

/// Zero-copy variant of [`walk`]: `out` receives the lower-cased text and
/// the pieces are returned as sub-slices of it.
pub fn walk_into<'b>(text: &str, out: &'b mut String) -> (r: Vec<&'b str>)
    requires
        all_ascii(text@),
    ensures
        final(out)@ == ascii_lower_seq(text@),
        r@.len() == walk_spec(text@).len(),
        forall|k: int| 0 <= k < r@.len() ==> (#[trigger] r@[k])@ == walk_spec(text@)[k],
{
    let chars = str_chars(text);
    let lowered = lower_chars(&chars);
    *out = string_from_chars(lowered.as_slice());
    let spans = seg_pinyin_chars(&lowered);
    let ghost low = lowered@;
    proof {
        lemma_segments_within(low);
        assert forall|i: int| 0 <= i < low.len() implies '\0' <= #[trigger] low[i] <= '\u{7f}' by {
            assert(low[i] == crate::text::ascii_lower(text@[i]));
            assert(crate::text::is_ascii_char(text@[i]));
        }
    }
    let shared: &'b String = out;
    let lowered_str: &'b str = shared.as_str();
    let mut pieces: Vec<&'b str> = Vec::new();
    let mut k: usize = 0;
    while k < spans.len()
        invariant
            k <= spans.len(),
            low == lowered@,
            low == ascii_lower_seq(text@),
            lowered_str@ == low,
            vstd::string::is_ascii(lowered_str),
            span_view(spans@) == pinyin_segments(low),
            forall|j: int|
                0 <= j < pinyin_segments(low).len() ==> 0 <= (#[trigger] pinyin_segments(low)[j]).0
                    <= pinyin_segments(low)[j].1 <= low.len(),
            pieces@.len() == k,
            forall|j: int|
                0 <= j < k ==> (#[trigger] pieces@[j])@ == span_texts(low, pinyin_segments(low))[j],
        decreases spans.len() - k,
    {
        let (a, b) = spans[k];
        assert(span_view(spans@)[k as int] == (a as int, b as int));
        let piece = lowered_str.substring_ascii(a, b);
        pieces.push(piece);
        k = k + 1;
    }
    pieces
}

/// `s` cuts `[lo, hi)` into consecutive non-empty pieces, left to right.
pub open spec fn tiles(s: Seq<(int, int)>, lo: int, hi: int) -> bool
    decreases s.len(),
{
    if s.len() == 0 {
        lo == hi
    } else {
        s.last().1 == hi && s.last().0 < hi && tiles(s.drop_last(), lo, s.last().0)
    }
}

/// Consecutive pieces of a tiling meet, the first starts at `lo`, and
/// there are no more pieces than characters.
pub proof fn lemma_tiles_chain(s: Seq<(int, int)>, lo: int, hi: int)
    requires
        tiles(s, lo, hi),
    ensures
        s.len() <= hi - lo,
        s.len() > 0 ==> s[0].0 == lo && s.last().1 == hi,
        forall|k: int| 0 < k < s.len() ==> #[trigger] s[k].0 == s[k - 1].1,
    decreases s.len(),
{
    if s.len() > 0 {
        let d = s.drop_last();
        lemma_tiles_chain(d, lo, s.last().0);
        lemma_tiles_within(d, lo, s.last().0);
        assert forall|k: int| 0 < k < s.len() implies #[trigger] s[k].0 == s[k - 1].1 by {
            if k < s.len() - 1 {
                assert(s[k] == d[k] && s[k - 1] == d[k - 1]);
            } else {
                if d.len() > 0 {
                    assert(s[k - 1] == d.last());
                }
            }
        }
        assert(tiles(d, lo, s.last().0));
        if d.len() == 0 {
            assert(lo == s.last().0);
        } else {
            assert(s[0] == d[0]);
        }
    }
}

/// The concatenation of all of `ss`.
pub open spec fn concat_all(ss: Seq<Seq<char>>) -> Seq<char>
    decreases ss.len(),
{
    if ss.len() == 0 {
        seq![]
    } else {
        concat_all(ss.drop_last()) + ss.last()
    }
}

pub proof fn lemma_tiles_within(s: Seq<(int, int)>, lo: int, hi: int)
    requires
        tiles(s, lo, hi),
    ensures
        lo <= hi,
        forall|k: int| 0 <= k < s.len() ==> lo <= (#[trigger] s[k]).0 < s[k].1 <= hi,
    decreases s.len(),
{
    if s.len() > 0 {
        lemma_tiles_within(s.drop_last(), lo, s.last().0);
        assert forall|k: int| 0 <= k < s.len() implies lo <= (#[trigger] s[k]).0 < s[k].1 <= hi by {
            if k < s.len() - 1 {
                assert(s[k] == s.drop_last()[k]);
            }
        }
    }
}

pub proof fn lemma_tiles_concat(a: Seq<(int, int)>, b: Seq<(int, int)>, lo: int, mid: int, hi: int)
    requires
        tiles(a, lo, mid),
        tiles(b, mid, hi),
    ensures
        tiles(a + b, lo, hi),
    decreases b.len(),
{
    if b.len() == 0 {
        assert(a + b == a);
    } else {
        lemma_tiles_concat(a, b.drop_last(), lo, mid, b.last().0);
        assert((a + b).drop_last() == a + b.drop_last());
        assert((a + b).last() == b.last());
    }
}

pub proof fn lemma_tiles_single(a: int, b: int)
    requires
        a < b,
    ensures
        tiles(seq![(a, b)], a, b),
{
    reveal_with_fuel(tiles, 2);
    assert(seq![(a, b)].drop_last() == Seq::<(int, int)>::empty());
}

pub proof fn lemma_reverse_concat(x: Seq<(int, int)>, y: Seq<(int, int)>)
    ensures
        (x + y).reverse() == y.reverse() + x.reverse(),
{
    assert((x + y).reverse() =~= y.reverse() + x.reverse());
}

pub proof fn lemma_forward_tiles(t: Seq<char>, hi: int, start: int, pending: Option<int>)
    requires
        start <= hi,
        pending matches Some(a) ==> a < start,
    ensures
        tiles(
            forward_from(t, hi, start, pending),
            match pending {
                Some(a) => a,
                None => start,
            },
            hi,
        ),
    decreases hi - start,
{
    let p = match pending {
        Some(a) => a,
        None => start,
    };
    if start >= hi {
        match pending {
            Some(a) => lemma_tiles_single(a, hi),
            None => {},
        }
    } else {
        let w = window(hi - start);
        let m = longest_forward(t, start, w);
        lemma_longest_forward_bounds(t, start, w);
        if m > 0 {
            let flushed = match pending {
                Some(a) => seq![(a, start)],
                None => Seq::<(int, int)>::empty(),
            };
            let rest = forward_from(t, hi, start + m, None);
            lemma_forward_tiles(t, hi, start + m, None);
            lemma_tiles_single(start, start + m);
            match pending {
                Some(a) => lemma_tiles_single(a, start),
                None => {},
            }
            lemma_tiles_concat(flushed, seq![(start, start + m)], p, start, start + m);
            lemma_tiles_concat(flushed + seq![(start, start + m)], rest, p, start + m, hi);
        } else {
            let next = match pending {
                Some(a) => Some(a),
                None => Some(start),
            };
            lemma_forward_tiles(t, hi, start + 1, next);
        }
    }
}

pub proof fn lemma_backward_tiles(t: Seq<char>, lo: int, end: int, pending: Option<int>)
    requires
        lo <= end,
        pending matches Some(b) ==> end < b,
    ensures
        tiles(
            backward_from(t, lo, end, pending).reverse(),
            lo,
            match pending {
                Some(b) => b,
                None => end,
            },
        ),
    decreases end - lo,
{
    let q = match pending {
        Some(b) => b,
        None => end,
    };
    if end <= lo {
        match pending {
            Some(b) => {
                lemma_tiles_single(lo, b);
                assert(seq![(lo, b)].reverse() =~= seq![(lo, b)]);
            },
            None => {
                assert(Seq::<(int, int)>::empty().reverse() =~= Seq::<(int, int)>::empty());
            },
        }
    } else {
        let w = window(end - lo);
        let m = longest_backward(t, end, w);
        lemma_longest_backward_bounds(t, end, w);
        if m > 0 {
            let flushed = match pending {
                Some(b) => seq![(end, b)],
                None => Seq::<(int, int)>::empty(),
            };
            let seg = seq![(end - m, end)];
            let rest = backward_from(t, lo, end - m, None);
            lemma_backward_tiles(t, lo, end - m, None);
            lemma_tiles_single(end - m, end);
            assert(seg.reverse() =~= seg);
            match pending {
                Some(b) => {
                    lemma_tiles_single(end, b);
                    assert(flushed.reverse() =~= flushed);
                },
                None => {
                    assert(flushed.reverse() =~= flushed);
                },
            }
            lemma_reverse_concat(flushed + seg, rest);
            lemma_reverse_concat(flushed, seg);
            lemma_tiles_concat(rest.reverse(), seg, lo, end - m, end);
            lemma_tiles_concat(rest.reverse() + seg, flushed.reverse(), lo, end, q);
            assert((flushed + seg + rest).reverse() == rest.reverse() + seg + flushed.reverse());
        } else {
            let next = match pending {
                Some(b) => Some(b),
                None => Some(end),
            };
            lemma_backward_tiles(t, lo, end - 1, next);
        }
    }
}

pub proof fn lemma_chunk_tiles(t: Seq<char>, lo: int, hi: int)
    requires
        lo < hi,
    ensures
        tiles(segment_chunk(t, lo, hi), lo, hi),
{
    if hi - lo == 1 {
        lemma_tiles_single(lo, hi);
    } else {
        lemma_forward_tiles(t, hi, lo, None);
        lemma_backward_tiles(t, lo, hi, None);
    }
}

pub proof fn lemma_runs_tile(t: Seq<char>)
    ensures
        tiles(letter_runs(t), 0, t.len() as int),
    decreases t.len(),
{
    if t.len() > 0 {
        let r = letter_runs(t.drop_last());
        let n = t.len() - 1;
        lemma_runs_tile(t.drop_last());
        if r.len() > 0 && is_ascii_alpha(t[n]) == is_ascii_alpha(t[n - 1]) {
            let u = r.update(r.len() - 1, (r.last().0, n + 1));
            assert(u.drop_last() == r.drop_last());
        } else {
            assert(r.push((n, n + 1)).drop_last() == r);
        }
    }
}

pub proof fn lemma_segment_runs_tiles(t: Seq<char>, runs: Seq<(int, int)>, lo: int, hi: int)
    requires
        tiles(runs, lo, hi),
    ensures
        tiles(segment_runs(t, runs), lo, hi),
    decreases runs.len(),
{
    if runs.len() > 0 {
        lemma_segment_runs_tiles(t, runs.drop_last(), lo, runs.last().0);
        lemma_chunk_tiles(t, runs.last().0, runs.last().1);
        lemma_tiles_concat(
            segment_runs(t, runs.drop_last()),
            segment_chunk(t, runs.last().0, runs.last().1),
            lo,
            runs.last().0,
            hi,
        );
    }
}

/// The pieces of a sequence cut it into consecutive non-empty parts.
pub proof fn lemma_segments_tile(t: Seq<char>)
    ensures
        tiles(pinyin_segments(t), 0, t.len() as int),
{
    reveal(pinyin_segments);
    lemma_runs_tile(t);
    lemma_segment_runs_tiles(t, letter_runs(t), 0, t.len() as int);
}

/// Every piece lies within the sequence.
pub proof fn lemma_segments_within(t: Seq<char>)
    ensures
        forall|j: int|
            0 <= j < pinyin_segments(t).len() ==> 0 <= (#[trigger] pinyin_segments(t)[j]).0
                <= pinyin_segments(t)[j].1 <= t.len(),
{
    lemma_segments_tile(t);
    lemma_tiles_within(pinyin_segments(t), 0, t.len() as int);
}

pub proof fn lemma_tiles_concat_texts(t: Seq<char>, s: Seq<(int, int)>, lo: int, hi: int)
    requires
        tiles(s, lo, hi),
        0 <= lo,
        hi <= t.len(),
    ensures
        concat_all(span_texts(t, s)) == t.subrange(lo, hi),
    decreases s.len(),
{
    if s.len() == 0 {
        assert(t.subrange(lo, hi) =~= Seq::<char>::empty());
    } else {
        lemma_tiles_within(s, lo, hi);
        lemma_tiles_concat_texts(t, s.drop_last(), lo, s.last().0);
        assert(span_texts(t, s).drop_last() == span_texts(t, s.drop_last()));
        assert(t.subrange(lo, hi) =~= t.subrange(lo, s.last().0) + t.subrange(s.last().0, hi));
    }
}

pub proof fn lemma_token_chunk_tiles(t: Seq<char>, lo: int, hi: int)
    requires
        lo < hi,
    ensures
        tiles(token_chunk(t, lo, hi), lo, hi),
{
    lemma_chunk_tiles(t, lo, hi);
    lemma_tiles_single(lo, hi);
}

pub proof fn lemma_token_runs_tiles(t: Seq<char>, runs: Seq<(int, int)>, lo: int, hi: int)
    requires
        tiles(runs, lo, hi),
    ensures
        tiles(token_runs(t, runs), lo, hi),
    decreases runs.len(),
{
    if runs.len() > 0 {
        lemma_token_runs_tiles(t, runs.drop_last(), lo, runs.last().0);
        lemma_token_chunk_tiles(t, runs.last().0, runs.last().1);
        lemma_tiles_concat(
            token_runs(t, runs.drop_last()),
            token_chunk(t, runs.last().0, runs.last().1),
            lo,
            runs.last().0,
            hi,
        );
    }
}

/// The tokenizer's pieces cut a sequence into consecutive non-empty parts.
pub proof fn lemma_token_segments_tile(t: Seq<char>)
    ensures
        tiles(token_segments(t), 0, t.len() as int),
{
    reveal(token_segments);
    lemma_runs_tile(t);
    lemma_token_runs_tiles(t, letter_runs(t), 0, t.len() as int);
}

/// Law: [`walk`] ignores case (it gives the same pieces for a text and for
/// its lower-cased form), and no piece holds an upper-case letter.
pub proof fn lemma_walk_ignores_case(text: Seq<char>)
    ensures
        walk_spec(ascii_lower_seq(text)) == walk_spec(text),
        forall|k: int|
            0 <= k < walk_spec(text).len() ==> !crate::text::has_ascii_upper(
                #[trigger] walk_spec(text)[k],
            ),
{
    let low = ascii_lower_seq(text);
    assert forall|i: int| 0 <= i < low.len() implies !('A' <= #[trigger] low[i] && low[i] <= 'Z') by {
        assert(low[i] == crate::text::ascii_lower(text[i]));
    }
    assert(ascii_lower_seq(low) =~= low) by {
        assert forall|i: int| 0 <= i < low.len() implies #[trigger] ascii_lower_seq(low)[i] == low[i] by {
            assert(!('A' <= low[i] && low[i] <= 'Z'));
        }
    }
    lemma_segments_within(low);
    assert forall|k: int| 0 <= k < walk_spec(text).len() implies !crate::text::has_ascii_upper(
        #[trigger] walk_spec(text)[k],
    ) by {
        let sp = pinyin_segments(low)[k];
        let piece = walk_spec(text)[k];
        assert(piece == low.subrange(sp.0, sp.1));
        assert forall|j: int| 0 <= j < piece.len() implies !('A' <= #[trigger] piece[j] && piece[j] <= 'Z') by {
            assert(piece[j] == low[sp.0 + j]);
        }
    }
}

/// Law: the runs cut a sequence into consecutive non-empty parts, each all
/// ASCII letters or all other characters, and neighbouring runs differ in
/// that respect (every run is as long as it can be).
pub proof fn lemma_letter_runs_maximal(t: Seq<char>)
    ensures
        tiles(letter_runs(t), 0, t.len() as int),
        forall|k: int, j: int|
            0 <= k < letter_runs(t).len() && letter_runs(t)[k].0 <= j < letter_runs(t)[k].1
                ==> is_ascii_alpha(#[trigger] t[j]) == is_ascii_alpha(t[(#[trigger] letter_runs(t)[k]).0]),
        forall|k: int|
            0 < k < letter_runs(t).len() ==> is_ascii_alpha(t[(#[trigger] letter_runs(t)[k]).0])
                != is_ascii_alpha(t[letter_runs(t)[k - 1].0]),
    decreases t.len(),
{
    lemma_runs_tile(t);
    if t.len() > 0 {
        let d = t.drop_last();
        let r = letter_runs(d);
        let n = t.len() - 1;
        lemma_letter_runs_maximal(d);
        lemma_tiles_chain(r, 0, n);
        lemma_tiles_within(r, 0, n);
        let cur = letter_runs(t);
        assert forall|j: int| 0 <= j < n implies #[trigger] d[j] == t[j] by {}
        if r.len() > 0 && is_ascii_alpha(t[n]) == is_ascii_alpha(t[n - 1]) {
            let last = r.len() - 1;
            assert(cur == r.update(last, (r.last().0, n + 1)));
            assert forall|k: int, j: int|
                0 <= k < cur.len() && cur[k].0 <= j < cur[k].1 implies is_ascii_alpha(#[trigger] t[j])
                == is_ascii_alpha(t[(#[trigger] cur[k]).0]) by {
                if k < last {
                    assert(cur[k] == r[k]);
                    assert(t[j] == d[j]);
                    assert(t[r[k].0] == d[r[k].0]);
                } else {
                    assert(cur[k].0 == r[last].0);
                    assert(t[r[last].0] == d[r[last].0]);
                    if j < n {
                        assert(t[j] == d[j]);
                        assert(r[last].0 <= j < r[last].1);
                    } else {
                        assert(t[n - 1] == d[n - 1]);
                        assert(r[last].0 <= n - 1 < r[last].1);
                    }
                }
            }
            assert forall|k: int| 0 < k < cur.len() implies is_ascii_alpha(t[(#[trigger] cur[k]).0])
                != is_ascii_alpha(t[cur[k - 1].0]) by {
                assert(cur[k].0 == r[k].0);
                assert(cur[k - 1].0 == r[k - 1].0);
                assert(t[r[k].0] == d[r[k].0]);
                assert(t[r[k - 1].0] == d[r[k - 1].0]);
            }
        } else {
            assert(cur == r.push((n, n + 1)));
            assert forall|k: int, j: int|
                0 <= k < cur.len() && cur[k].0 <= j < cur[k].1 implies is_ascii_alpha(#[trigger] t[j])
                == is_ascii_alpha(t[(#[trigger] cur[k]).0]) by {
                if k < r.len() {
                    assert(cur[k] == r[k]);
                    assert(t[j] == d[j]);
                    assert(t[r[k].0] == d[r[k].0]);
                }
            }
            assert forall|k: int| 0 < k < cur.len() implies is_ascii_alpha(t[(#[trigger] cur[k]).0])
                != is_ascii_alpha(t[cur[k - 1].0]) by {
                if k < r.len() {
                    assert(cur[k] == r[k] && cur[k - 1] == r[k - 1]);
                    assert(t[r[k].0] == d[r[k].0]);
                    assert(t[r[k - 1].0] == d[r[k - 1].0]);
                } else {
                    let last = r.len() - 1;
                    assert(cur[k - 1] == r[last]);
                    assert(r[last].1 == n);
                    assert(r[last].0 <= n - 1 < r[last].1);
                    assert(t[n - 1] == d[n - 1]);
                    assert(t[r[last].0] == d[r[last].0]);
                }
            }
        }
    }
}

/// `t[a..b]` is the longest syllable that starts at `a` within the window
/// that forward matching uses before `hi`.
pub open spec fn fwd_matched(t: Seq<char>, hi: int, a: int, b: int) -> bool {
    a < b && b - a == longest_forward(t, a, window(hi - a))
}

/// No syllable starts anywhere in `t[a..b]` (within the forward window).
pub open spec fn fwd_unmatched(t: Seq<char>, hi: int, a: int, b: int) -> bool {
    a < b && forall|p: int| a <= p < b ==> #[trigger] longest_forward(t, p, window(hi - p)) == 0
}

/// Every piece is a longest match or a stretch that matches nothing, and no
/// two such stretches are neighbours.
pub open spec fn fwd_pieces_ok(t: Seq<char>, hi: int, s: Seq<(int, int)>) -> bool {
    &&& forall|k: int|
        0 <= k < s.len() ==> fwd_matched(t, hi, (#[trigger] s[k]).0, s[k].1) || fwd_unmatched(
            t,
            hi,
            s[k].0,
            s[k].1,
        )
    &&& forall|k: int|
        0 < k < s.len() ==> fwd_matched(t, hi, (#[trigger] s[k]).0, s[k].1) || fwd_matched(
            t,
            hi,
            s[k - 1].0,
            s[k - 1].1,
        )
    &&& s.len() > 0 ==> fwd_matched(t, hi, s[0].0, s[0].1) || fwd_unmatched(t, hi, s[0].0, s[0].1)
}

proof fn lemma_fwd_concat(t: Seq<char>, hi: int, x: Seq<(int, int)>, y: Seq<(int, int)>)
    requires
        fwd_pieces_ok(t, hi, x),
        fwd_pieces_ok(t, hi, y),
        x.len() > 0 && y.len() > 0 ==> fwd_matched(t, hi, x.last().0, x.last().1) || fwd_matched(
            t,
            hi,
            y[0].0,
            y[0].1,
        ),
    ensures
        fwd_pieces_ok(t, hi, x + y),
{
    let z = x + y;
    assert forall|k: int| 0 <= k < z.len() implies fwd_matched(t, hi, (#[trigger] z[k]).0, z[k].1)
        || fwd_unmatched(t, hi, z[k].0, z[k].1) by {
        if k < x.len() {
            assert(z[k] == x[k]);
        } else {
            assert(z[k] == y[k - x.len()]);
        }
    }
    assert forall|k: int| 0 < k < z.len() implies fwd_matched(t, hi, (#[trigger] z[k]).0, z[k].1)
        || fwd_matched(t, hi, z[k - 1].0, z[k - 1].1) by {
        if k < x.len() {
            assert(z[k] == x[k] && z[k - 1] == x[k - 1]);
        } else if k == x.len() {
            assert(z[k] == y[0] && z[k - 1] == x.last());
        } else {
            assert(z[k] == y[k - x.len()] && z[k - 1] == y[k - 1 - x.len()]);
        }
    }
}

proof fn lemma_forward_from_ok(t: Seq<char>, hi: int, start: int, pending: Option<int>)
    requires
        start <= hi,
        pending matches Some(a) ==> a < start && forall|p: int|
            a <= p < start ==> #[trigger] longest_forward(t, p, window(hi - p)) == 0,
    ensures
        fwd_pieces_ok(t, hi, forward_from(t, hi, start, pending)),
    decreases hi - start,
{
    if start >= hi {
        match pending {
            Some(a) => {
                let s = seq![(a, hi)];
                assert(fwd_unmatched(t, hi, a, hi));
                assert(s[0] == (a, hi));
            },
            None => {},
        }
    } else {
        let w = window(hi - start);
        let m = longest_forward(t, start, w);
        lemma_longest_forward_bounds(t, start, w);
        if m > 0 {
            let flushed = match pending {
                Some(a) => seq![(a, start)],
                None => Seq::<(int, int)>::empty(),
            };
            let mid = seq![(start, start + m)];
            lemma_forward_from_ok(t, hi, start + m, None);
            assert(fwd_matched(t, hi, start, start + m));
            assert(fwd_pieces_ok(t, hi, mid)) by {
                assert(mid[0] == (start, start + m));
            }
            assert(fwd_pieces_ok(t, hi, flushed)) by {
                match pending {
                    Some(a) => {
                        assert(flushed[0] == (a, start));
                        assert(fwd_unmatched(t, hi, a, start));
                    },
                    None => {},
                }
            }
            lemma_fwd_concat(t, hi, flushed, mid);
            let rest = forward_from(t, hi, start + m, None);
            assert((flushed + mid).last() == (start, start + m));
            lemma_fwd_concat(t, hi, flushed + mid, rest);
        } else {
            let next = match pending {
                Some(a) => Some(a),
                None => Some(start),
            };
            let a = next->0;
            assert forall|p: int| a <= p < start + 1 implies #[trigger] longest_forward(
                t,
                p,
                window(hi - p),
            ) == 0 by {
                if p == start {
                } else {
                    assert(pending is Some);
                }
            }
            lemma_forward_from_ok(t, hi, start + 1, next);
        }
    }
}

/// Law: in forward maximum matching of a chunk, every piece is either the
/// longest syllable starting where it starts (within the window), or a
/// stretch at no position of which any syllable starts; no two such
/// stretches are neighbours.
pub proof fn lemma_forward_match_maximal(t: Seq<char>, lo: int, hi: int)
    requires
        lo <= hi,
    ensures
        fwd_pieces_ok(t, hi, forward_match(t, lo, hi)),
{
    lemma_forward_from_ok(t, hi, lo, None);
}

/// `t[a..b]` is the longest syllable that ends at `b` within the window
/// that reverse matching uses after `lo`.
pub open spec fn bwd_matched(t: Seq<char>, lo: int, a: int, b: int) -> bool {
    a < b && b - a == longest_backward(t, b, window(b - lo))
}

/// No syllable ends anywhere in `t[a..b]` (within the reverse window).
pub open spec fn bwd_unmatched(t: Seq<char>, lo: int, a: int, b: int) -> bool {
    a < b && forall|e: int| a < e <= b ==> #[trigger] longest_backward(t, e, window(e - lo)) == 0
}

/// Every piece is a longest match or a stretch that matches nothing, and no
/// two such stretches are neighbours.
pub open spec fn bwd_pieces_ok(t: Seq<char>, lo: int, s: Seq<(int, int)>) -> bool {
    &&& forall|k: int|
        0 <= k < s.len() ==> bwd_matched(t, lo, (#[trigger] s[k]).0, s[k].1) || bwd_unmatched(
            t,
            lo,
            s[k].0,
            s[k].1,
        )
    &&& forall|k: int|
        0 < k < s.len() ==> bwd_matched(t, lo, (#[trigger] s[k]).0, s[k].1) || bwd_matched(
            t,
            lo,
            s[k - 1].0,
            s[k - 1].1,
        )
    &&& s.len() > 0 ==> bwd_matched(t, lo, s[0].0, s[0].1) || bwd_unmatched(t, lo, s[0].0, s[0].1)
}

proof fn lemma_bwd_concat(t: Seq<char>, lo: int, x: Seq<(int, int)>, y: Seq<(int, int)>)
    requires
        bwd_pieces_ok(t, lo, x),
        bwd_pieces_ok(t, lo, y),
        x.len() > 0 && y.len() > 0 ==> bwd_matched(t, lo, x.last().0, x.last().1) || bwd_matched(
            t,
            lo,
            y[0].0,
            y[0].1,
        ),
    ensures
        bwd_pieces_ok(t, lo, x + y),
{
    let z = x + y;
    assert forall|k: int| 0 <= k < z.len() implies bwd_matched(t, lo, (#[trigger] z[k]).0, z[k].1)
        || bwd_unmatched(t, lo, z[k].0, z[k].1) by {
        if k < x.len() {
            assert(z[k] == x[k]);
        } else {
            assert(z[k] == y[k - x.len()]);
        }
    }
    assert forall|k: int| 0 < k < z.len() implies bwd_matched(t, lo, (#[trigger] z[k]).0, z[k].1)
        || bwd_matched(t, lo, z[k - 1].0, z[k - 1].1) by {
        if k < x.len() {
            assert(z[k] == x[k] && z[k - 1] == x[k - 1]);
        } else if k == x.len() {
            assert(z[k] == y[0] && z[k - 1] == x.last());
        } else {
            assert(z[k] == y[k - x.len()] && z[k - 1] == y[k - 1 - x.len()]);
        }
    }
}

proof fn lemma_backward_from_ok(t: Seq<char>, lo: int, end: int, pending: Option<int>)
    requires
        lo <= end,
        pending matches Some(b) ==> end < b && forall|e: int|
            end < e <= b ==> #[trigger] longest_backward(t, e, window(e - lo)) == 0,
    ensures
        bwd_pieces_ok(t, lo, backward_from(t, lo, end, pending)),
    decreases end - lo,
{
    if end <= lo {
        match pending {
            Some(b) => {
                let s = seq![(lo, b)];
                assert(bwd_unmatched(t, lo, lo, b));
                assert(s[0] == (lo, b));
            },
            None => {},
        }
    } else {
        let w = window(end - lo);
        let m = longest_backward(t, end, w);
        lemma_longest_backward_bounds(t, end, w);
        if m > 0 {
            let flushed = match pending {
                Some(b) => seq![(end, b)],
                None => Seq::<(int, int)>::empty(),
            };
            let mid = seq![(end - m, end)];
            assert(window(end - lo) <= end - lo);
            lemma_backward_from_ok(t, lo, end - m, None);
            assert(bwd_matched(t, lo, end - m, end));
            assert(bwd_pieces_ok(t, lo, mid)) by {
                assert(mid[0] == (end - m, end));
            }
            assert(bwd_pieces_ok(t, lo, flushed)) by {
                match pending {
                    Some(b) => {
                        assert(flushed[0] == (end, b));
                        assert(bwd_unmatched(t, lo, end, b));
                    },
                    None => {},
                }
            }
            lemma_bwd_concat(t, lo, flushed, mid);
            let rest = backward_from(t, lo, end - m, None);
            assert((flushed + mid).last() == (end - m, end));
            lemma_bwd_concat(t, lo, flushed + mid, rest);
        } else {
            let next = match pending {
                Some(b) => Some(b),
                None => Some(end),
            };
            let b = next->0;
            assert forall|e: int| end - 1 < e <= b implies #[trigger] longest_backward(
                t,
                e,
                window(e - lo),
            ) == 0 by {
                if e == end {
                } else {
                    assert(pending is Some);
                }
            }
            lemma_backward_from_ok(t, lo, end - 1, next);
        }
    }
}

/// Law: in reverse maximum matching of a chunk (pieces in text order),
/// every piece is either the longest syllable ending where it ends (within
/// the window), or a stretch at no end position of which any syllable
/// ends; no two such stretches are neighbours.
pub proof fn lemma_backward_match_maximal(t: Seq<char>, lo: int, hi: int)
    requires
        lo <= hi,
    ensures
        bwd_pieces_ok(t, lo, backward_match(t, lo, hi)),
{
    lemma_backward_from_ok(t, lo, hi, None);
    let s = backward_from(t, lo, hi, None);
    let r = s.reverse();
    let n = s.len();
    assert forall|k: int| 0 <= k < r.len() implies bwd_matched(t, lo, (#[trigger] r[k]).0, r[k].1)
        || bwd_unmatched(t, lo, r[k].0, r[k].1) by {
        assert(r[k] == s[n - 1 - k]);
    }
    assert forall|k: int| 0 < k < r.len() implies bwd_matched(t, lo, (#[trigger] r[k]).0, r[k].1)
        || bwd_matched(t, lo, r[k - 1].0, r[k - 1].1) by {
        assert(r[k] == s[n - 1 - k]);
        assert(r[k - 1] == s[n - k]);
    }
    if r.len() > 0 {
        assert(r[0] == s[n - 1]);
    }
}

/// Law: the pieces of a text are those of its maximal letter and non-letter
/// runs, run by run and in order; a run of one character is one piece, any
/// other run gets the forward matching when that is one piece, else the
/// fewer pieces of forward and reverse matching, forward on a tie.
pub proof fn lemma_segments_by_run(t: Seq<char>)
    ensures
        pinyin_segments(t) == segment_runs(t, letter_runs(t)),
        forall|lo: int, hi: int|
            #[trigger] segment_chunk(t, lo, hi) == (if hi - lo == 1 {
                seq![(lo, hi)]
            } else if forward_match(t, lo, hi).len() == 1 {
                forward_match(t, lo, hi)
            } else if forward_match(t, lo, hi).len() <= backward_match(t, lo, hi).len() {
                forward_match(t, lo, hi)
            } else {
                backward_match(t, lo, hi)
            }),
{
    reveal(pinyin_segments);
}

/// Law: the pieces that [`walk`] returns, put back together, give the
/// lower-cased input, and none of them is empty.
pub proof fn lemma_walk_reassembles(text: Seq<char>)
    ensures
        concat_all(walk_spec(text)) == ascii_lower_seq(text),
        forall|k: int| 0 <= k < walk_spec(text).len() ==> (#[trigger] walk_spec(text)[k]).len() > 0,
{
    let low = ascii_lower_seq(text);
    lemma_segments_tile(low);
    lemma_tiles_within(pinyin_segments(low), 0, low.len() as int);
    lemma_tiles_concat_texts(low, pinyin_segments(low), 0, low.len() as int);
    assert(low.subrange(0, low.len() as int) == low);
}

} // verus!
