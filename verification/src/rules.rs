//! User-extensible rule overlays.
//!
//! [`Rules`] lets callers customise the pinyin output without rebuilding the
//! dictionary:
//!
//! - **char overrides** — force one or more readings for a single character
//!   (e.g. for a proper noun: `'重' → ["chong"]`).
//! - **phrase overrides** — replace the per-character readings inside a
//!   matching Chinese substring (e.g. `"银行" → ["yin", "hang"]`).
//!
//! Phrase matching is longest-match; phrases are kept in a hash map keyed by
//! their first character, each bucket sorted by descending length, so the
//! per-position scan stays cheap.

use vstd::prelude::*;

use crate::dict::{syllable_index, syllables, PinyinDict, SyllableId, SYLLABLE_COUNT};
use crate::text::str_chars;

verus! {

/// Either a borrowed `&'static str` from the bundled dictionary, or an owned
/// override supplied by the user.
#[derive(Debug)]
pub enum Reading {
    /// Points into the bundled syllable table — zero allocation.
    Static(&'static str),
    /// User-supplied. Allocated string.
    Owned(String),
}

impl Clone for Reading {
    /// The same reading: a borrowed syllable stays borrowed, an owned text is
    /// copied.
    fn clone(&self) -> (r: Self)
        ensures
            r == *self,
    {
        match self {
            Reading::Static(s) => Reading::Static(*s),
            Reading::Owned(s) => Reading::Owned(s.clone()),
        }
    }
}

impl Reading {
    /// The text of the reading.
    pub open spec fn text(&self) -> Seq<char> {
        match self {
            Reading::Static(s) => s@,
            Reading::Owned(s) => s@,
        }
    }

    pub fn as_str(&self) -> (r: &str)
        ensures
            r@ == self.text(),
    {
        match self {
            Reading::Static(s) => s,
            Reading::Owned(s) => s.as_str(),
        }
    }

    /// First byte of the UTF-8 encoding of the reading.
    pub fn first_letter(&self) -> (r: u8)
        requires
            self.text().len() > 0,
        ensures
            r == vstd::utf8::encode_utf8(self.text())[0],
    {
        let s = self.as_str();
        proof {
            vstd::utf8::encode_utf8_first_scalar(s@);
            lemma_encode_nonempty(s@);
        }
        let b = s.as_bytes();
        b[0]
    }

    /// The reading for `s`: the bundled syllable when `s` is one, else an
    /// owned copy.
    fn from_str(s: &str) -> (r: Reading)
        ensures
            is_interned(r, s@),
    {
        proof {
            crate::dict::lemma_first_index(crate::dict::syllables(), s@);
        }
        match PinyinDict::syllable_id(s) {
            Some(id) => Reading::Static(id.as_str()),
            None => Reading::Owned(String::from_str(s)),
        }
    }
}

impl<'s> From<&'s str> for Reading {
    /// The reading for `s`: the bundled syllable when `s` is one, else an
    /// owned copy.
    fn from(s: &'s str) -> (r: Self)
        ensures
            is_interned(r, s@),
    {
        Reading::from_str(s)
    }
}

/// `From<&str>` states its result by its own contract ([`is_interned`]): an
/// owned copy has no spec value to name, so the generic `from_spec` law is
/// not claimed.
impl<'s> vstd::std_specs::convert::FromSpecImpl<&'s str> for Reading {
    open spec fn obeys_from_spec() -> bool {
        false
    }

    open spec fn from_spec(s: &'s str) -> Self {
        choose|r: Reading| is_interned(r, s@)
    }
}

pub proof fn lemma_encode_nonempty(s: Seq<char>)
    requires
        s.len() > 0,
    ensures
        vstd::utf8::encode_utf8(s).len() > 0,
{
    vstd::utf8::encode_utf8_first_scalar(s);
    if vstd::utf8::encode_utf8(s).len() == 0 {
        assert(!vstd::utf8::valid_first_scalar(vstd::utf8::encode_utf8(s)));
    }
}

/// `r` is how a rule stores the reading text `s`: its text is `s`, and it
/// borrows from the syllable table exactly when `s` is a bundled syllable.
pub open spec fn is_interned(r: Reading, s: Seq<char>) -> bool {
    &&& r.text() == s
    &&& (r is Static <==> syllable_index(s) is Some)
}

/// `rs` stores the reading texts `ss`, one for one.
pub open spec fn all_interned(rs: Seq<Reading>, ss: Seq<Seq<char>>) -> bool {
    &&& rs.len() == ss.len()
    &&& forall|k: int| 0 <= k < rs.len() ==> is_interned(#[trigger] rs[k], ss[k])
}

/// The readings of `readings`, each interned.
fn intern_all(readings: &[&str]) -> (r: Vec<Reading>)
    ensures
        all_interned(r@, readings@.map_values(|s: &str| s@)),
{
    let mut v: Vec<Reading> = Vec::new();
    let mut i: usize = 0;
    while i < readings.len()
        invariant
            i <= readings.len(),
            v@.len() == i,
            forall|k: int| 0 <= k < i ==> is_interned(#[trigger] v@[k], readings@[k]@),
        decreases readings.len() - i,
    {
        v.push(Reading::from_str(readings[i]));
        i = i + 1;
    }
    v
}

/// Match record for a phrase override hit.
#[derive(Debug)]
pub struct PhraseHit<'r> {
    /// Number of characters this hit covers (≥ 1).
    pub char_len: usize,
    /// Per-character readings the user wants emitted for the hit's range.
    pub readings: &'r [Reading],
}

impl<'r> Clone for PhraseHit<'r> {
    /// The same hit, borrowing the same readings.
    fn clone(&self) -> (r: Self)
        ensures
            r == *self,
    {
        PhraseHit { char_len: self.char_len, readings: self.readings }
    }
}

/// A phrase override: the phrase's characters and one reading per
/// character.
#[derive(Debug)]
pub struct PhraseEntry {
    phrase: Vec<char>,
    readings: Vec<Reading>,
}

impl Clone for PhraseEntry {
    /// An entry with the same phrase and the same readings.
    fn clone(&self) -> (r: Self)
        ensures
            r.phrase_view() == self.phrase_view(),
            r.readings_view() == self.readings_view(),
    {
        PhraseEntry { phrase: self.phrase.clone(), readings: self.readings.clone() }
    }
}

impl PhraseEntry {
    pub closed spec fn phrase_view(&self) -> Seq<char> {
        self.phrase@
    }

    pub closed spec fn readings_view(&self) -> Seq<Reading> {
        self.readings@
    }
}

/// Char overrides keyed by character (a `hashbrown::HashMap`).
#[verifier::external_body]
#[derive(Debug)]
pub struct CharOverrides {
    map: hashbrown::HashMap<char, Vec<Reading>>,
}

/// Phrase buckets keyed by the phrase's first character (a
/// `hashbrown::HashMap`).
#[verifier::external_body]
#[derive(Debug)]
pub struct PhraseIndex {
    map: hashbrown::HashMap<char, Vec<PhraseEntry>>,
}

/// What a [`CharOverrides`] map holds.
pub uninterp spec fn char_overrides_contents(m: CharOverrides) -> Map<char, Seq<Reading>>;

/// What a [`PhraseIndex`] map holds.
pub uninterp spec fn phrase_index_contents(m: PhraseIndex) -> Map<char, Seq<PhraseEntry>>;

impl Clone for CharOverrides {
    /// `Clone for hashbrown::HashMap`: a map with the same contents.
    #[verifier::external_body]
    fn clone(&self) -> (r: Self)
        ensures
            char_overrides_contents(r) == char_overrides_contents(*self),
    {
        CharOverrides { map: self.map.clone() }
    }
}

/// `a` and `b` hold the same phrases with the same readings, entry by entry.
pub open spec fn same_entries(a: Seq<PhraseEntry>, b: Seq<PhraseEntry>) -> bool {
    &&& a.len() == b.len()
    &&& forall|i: int|
        #![trigger a[i]]
        #![trigger b[i]]
        0 <= i < a.len() ==> a[i].phrase_view() == b[i].phrase_view() && a[i].readings_view()
            == b[i].readings_view()
}

/// `m` and `n` have the same keys and, under each key, the same entries.
pub open spec fn same_buckets(m: Map<char, Seq<PhraseEntry>>, n: Map<char, Seq<PhraseEntry>>) -> bool {
    &&& m.dom() == n.dom()
    &&& forall|k: char| #[trigger] m.contains_key(k) ==> same_entries(m[k], n[k])
}

impl Clone for PhraseIndex {
    /// `Clone for hashbrown::HashMap`: the same keys, each bucket cloned
    /// entry by entry (see `Clone for PhraseEntry`).
    #[verifier::external_body]
    fn clone(&self) -> (r: Self)
        ensures
            same_buckets(phrase_index_contents(*self), phrase_index_contents(r)),
    {
        PhraseIndex { map: self.map.clone() }
    }
}

/// `hashbrown::HashMap::new`: an empty map.
#[verifier::external_body]
fn char_overrides_new() -> (r: CharOverrides)
    ensures
        char_overrides_contents(r).dom() == Set::<char>::empty(),
{
    CharOverrides { map: hashbrown::HashMap::new() }
}

/// `hashbrown::HashMap::insert`: `c` now maps to `v`, other keys keep their
/// values.
#[verifier::external_body]
fn char_overrides_insert(m: &mut CharOverrides, c: char, v: Vec<Reading>)
    ensures
        char_overrides_contents(*final(m)) == char_overrides_contents(*old(m)).insert(c, v@),
{
    m.map.insert(c, v);
}

/// `hashbrown::HashMap::remove`: `c` no longer has a value, other keys keep
/// theirs.
#[verifier::external_body]
fn char_overrides_remove(m: &mut CharOverrides, c: char)
    ensures
        char_overrides_contents(*final(m)) == char_overrides_contents(*old(m)).remove(c),
{
    m.map.remove(&c);
}

/// `hashbrown::HashMap::get`: the value of `c`, if any.
#[verifier::external_body]
fn char_overrides_get(m: &CharOverrides, c: char) -> (r: Option<&Vec<Reading>>)
    ensures
        r matches Some(v) ==> char_overrides_contents(*m).contains_key(c) && v@
            == char_overrides_contents(*m)[c],
        r is None ==> !char_overrides_contents(*m).contains_key(c),
{
    m.map.get(&c)
}

/// `hashbrown::HashMap::is_empty`: the map holds no key.
#[verifier::external_body]
fn char_overrides_is_empty(m: &CharOverrides) -> (r: bool)
    ensures
        r <==> char_overrides_contents(*m).dom() == Set::<char>::empty(),
{
    m.map.is_empty()
}

/// `hashbrown::HashMap::new`: an empty map.
#[verifier::external_body]
fn phrase_index_new() -> (r: PhraseIndex)
    ensures
        phrase_index_contents(r).dom() == Set::<char>::empty(),
{
    PhraseIndex { map: hashbrown::HashMap::new() }
}

/// `hashbrown::HashMap::insert`: `c` now maps to `v`, other keys keep their
/// values.
#[verifier::external_body]
fn phrase_index_insert(m: &mut PhraseIndex, c: char, v: Vec<PhraseEntry>)
    ensures
        phrase_index_contents(*final(m)) == phrase_index_contents(*old(m)).insert(c, v@),
{
    m.map.insert(c, v);
}

/// `hashbrown::HashMap::remove`: returns the value of `c`, if any, and
/// removes it; other keys keep theirs.
#[verifier::external_body]
fn phrase_index_remove(m: &mut PhraseIndex, c: char) -> (r: Option<Vec<PhraseEntry>>)
    ensures
        phrase_index_contents(*final(m)) == phrase_index_contents(*old(m)).remove(c),
        r matches Some(v) ==> phrase_index_contents(*old(m)).contains_key(c) && v@
            == phrase_index_contents(*old(m))[c],
        r is None ==> !phrase_index_contents(*old(m)).contains_key(c),
{
    m.map.remove(&c)
}

/// `hashbrown::HashMap::get`: the value of `c`, if any.
#[verifier::external_body]
fn phrase_index_get(m: &PhraseIndex, c: char) -> (r: Option<&Vec<PhraseEntry>>)
    ensures
        r matches Some(v) ==> phrase_index_contents(*m).contains_key(c) && v@
            == phrase_index_contents(*m)[c],
        r is None ==> !phrase_index_contents(*m).contains_key(c),
{
    m.map.get(&c)
}

/// `hashbrown::HashMap::is_empty`: the map holds no key.
#[verifier::external_body]
fn phrase_index_is_empty(m: &PhraseIndex) -> (r: bool)
    ensures
        r <==> phrase_index_contents(*m).dom() == Set::<char>::empty(),
{
    m.map.is_empty()
}

/// Index of the first entry of `b` whose phrase is `q`.
pub open spec fn find_entry(b: Seq<PhraseEntry>, q: Seq<char>) -> Option<int>
    decreases b.len(),
{
    if b.len() == 0 {
        None
    } else {
        match find_entry(b.drop_last(), q) {
            Some(i) => Some(i),
            None => if b.last().phrase_view() == q {
                Some(b.len() - 1)
            } else {
                None
            },
        }
    }
}

pub proof fn lemma_find_entry(b: Seq<PhraseEntry>, q: Seq<char>)
    ensures
        find_entry(b, q) matches Some(i) ==> 0 <= i < b.len() && b[i].phrase_view() == q
            && forall|j: int| 0 <= j < i ==> b[j].phrase_view() != q,
        find_entry(b, q) is None ==> forall|j: int| 0 <= j < b.len() ==> b[j].phrase_view() != q,
    decreases b.len(),
{
    if b.len() > 0 {
        lemma_find_entry(b.drop_last(), q);
        assert forall|j: int| 0 <= j < b.len() - 1 implies b[j] == b.drop_last()[j] by {}
    }
}

/// The first entry whose phrase is `q` is at `i`.
pub proof fn lemma_find_entry_at(b: Seq<PhraseEntry>, q: Seq<char>, i: int)
    requires
        0 <= i < b.len(),
        b[i].phrase_view() == q,
        forall|j: int| 0 <= j < i ==> b[j].phrase_view() != q,
    ensures
        find_entry(b, q) == Some(i),
{
    lemma_find_entry(b, q);
    match find_entry(b, q) {
        Some(k) => {
            if k < i {
            } else if k > i {
            }
        },
        None => {},
    }
}

/// A bucket is well formed for key `k`: it is not empty, every phrase is non-empty, starts
/// with `k`, has one reading per character, and phrases come in order of
/// non-increasing length.
pub open spec fn bucket_wf(k: char, b: Seq<PhraseEntry>) -> bool {
    &&& b.len() > 0
    &&& forall|i: int|
        0 <= i < b.len() ==> (#[trigger] b[i]).phrase_view().len() > 0 && b[i].phrase_view()[0]
            == k && b[i].readings_view().len() == b[i].phrase_view().len()
    &&& forall|i: int, j: int|
        0 <= i < j < b.len() ==> (#[trigger] b[i]).phrase_view().len() >= (
        #[trigger] b[j]).phrase_view().len()
}

/// `chars[start..]` begins with `p`.
pub open spec fn is_prefix_at(chars: Seq<char>, start: int, p: Seq<char>) -> bool {
    start + p.len() <= chars.len() && chars.subrange(start, start + p.len()) == p
}

/// `p` is the longest phrase of `m` that `chars[start..]` begins with.
pub open spec fn is_longest_at(m: Map<Seq<char>, Seq<Reading>>, chars: Seq<char>, start: int, p: Seq<
    char,
>) -> bool {
    &&& m.contains_key(p)
    &&& is_prefix_at(chars, start, p)
    &&& forall|q: Seq<char>| #[trigger] m.contains_key(q) && is_prefix_at(chars, start, q) ==> q.len() <= p.len()
}

/// The longest phrase of `m` that `chars[start..]` begins with, if any.
pub open spec fn longest_phrase_at(m: Map<Seq<char>, Seq<Reading>>, chars: Seq<char>, start: int) -> Option<
    Seq<char>,
> {
    if exists|p: Seq<char>| is_longest_at(m, chars, start, p) {
        Some(choose|p: Seq<char>| is_longest_at(m, chars, start, p))
    } else {
        None
    }
}

pub proof fn lemma_longest_unique(m: Map<Seq<char>, Seq<Reading>>, chars: Seq<char>, start: int, p: Seq<char>)
    requires
        is_longest_at(m, chars, start, p),
    ensures
        longest_phrase_at(m, chars, start) == Some(p),
{
    let q = choose|q: Seq<char>| is_longest_at(m, chars, start, q);
    assert(q.len() <= p.len());
    assert(p.len() <= q.len());
    assert(q == chars.subrange(start, start + q.len()));
}

/// Per-character and per-phrase reading overrides.
#[derive(Debug)]
pub struct Rules {
    char_overrides: CharOverrides,
    phrase_index: PhraseIndex,
}

impl Rules {
    /// The char overrides: character to readings.
    pub closed spec fn char_map(&self) -> Map<char, Seq<Reading>> {
        char_overrides_contents(self.char_overrides)
    }

    /// The phrase buckets: first character to phrase entries.
    pub closed spec fn buckets(&self) -> Map<char, Seq<PhraseEntry>> {
        phrase_index_contents(self.phrase_index)
    }

    /// The phrase overrides: phrase to readings.
    pub open spec fn phrase_map(&self) -> Map<Seq<char>, Seq<Reading>> {
        phrases_of(self.buckets())
    }

    /// The rules are well formed: char overrides are never empty, and every
    /// phrase bucket is well formed for its key.
    pub open spec fn wf(&self) -> bool {
        &&& forall|c: char| #[trigger]
            self.char_map().contains_key(c) ==> self.char_map()[c].len() > 0
        &&& forall|k: char| #[trigger]
            self.buckets().contains_key(k) ==> bucket_wf(k, self.buckets()[k])
    }

    pub fn new() -> (r: Self)
        ensures
            r.wf(),
            r.char_map() == Map::<char, Seq<Reading>>::empty(),
            r.phrase_map() == Map::<Seq<char>, Seq<Reading>>::empty(),
    {
        let r = Rules { char_overrides: char_overrides_new(), phrase_index: phrase_index_new() };
        assert(r.char_map() =~= Map::<char, Seq<Reading>>::empty());
        assert(r.buckets() =~= Map::<char, Seq<PhraseEntry>>::empty());
        assert(r.phrase_map() =~= Map::<Seq<char>, Seq<Reading>>::empty());
        r
    }

    /// Override the readings for a single character. The first reading
    /// becomes the new primary; subsequent ones are alternates. An empty
    /// list removes the override.
    pub fn override_char(&mut self, c: char, readings: &[&str]) -> (r: &mut Self)
        requires
            old(self).wf(),
        ensures
            r.wf(),
            r.phrase_map() == old(self).phrase_map(),
            readings.len() == 0 ==> r.char_map() == old(self).char_map().remove(c),
            readings.len() > 0 ==> r.char_map().dom() == old(self).char_map().dom().insert(c),
            readings.len() > 0 ==> all_interned(r.char_map()[c], readings@.map_values(|s: &str| s@)),
            forall|d: char|
                d != c && #[trigger] old(self).char_map().contains_key(d) ==> r.char_map()[d]
                    == old(self).char_map()[d],
            *final(self) == *final(r),
    {
        let v = intern_all(readings);
        let ghost old_map = self.char_map();
        let ghost old_b = self.buckets();
        if v.len() > 0 {
            let ghost vv = v@;
            char_overrides_insert(&mut self.char_overrides, c, v);
            assert(self.char_map() == old_map.insert(c, vv));
            assert(self.char_map().dom() =~= old_map.dom().insert(c));
            assert forall|d: char| #[trigger]
                self.char_map().contains_key(d) implies self.char_map()[d].len() > 0 by {
                if d != c {
                    assert(old_map.contains_key(d));
                }
            }
        } else {
            char_overrides_remove(&mut self.char_overrides, c);
            assert(self.char_map() == old_map.remove(c));
            assert forall|d: char| #[trigger]
                self.char_map().contains_key(d) implies self.char_map()[d].len() > 0 by {
                assert(old_map.contains_key(d));
            }
        }
        assert(self.buckets() == old_b);
        assert(forall|k: char| #[trigger]
            self.buckets().contains_key(k) ==> bucket_wf(k, self.buckets()[k]));
        self
    }

    /// Override the readings inside a Chinese substring. The number of
    /// readings must equal the number of characters in `phrase`; otherwise
    /// the entry is silently ignored. A later override of the same phrase
    /// replaces the earlier one.
    pub fn override_phrase(&mut self, phrase: &str, readings: &[&str]) -> (r: &mut Self)
        requires
            old(self).wf(),
        ensures
            r.wf(),
            r.char_map() == old(self).char_map(),
            (phrase@.len() == 0 || phrase@.len() != readings@.len()) ==> r.phrase_map()
                == old(self).phrase_map(),
            (phrase@.len() > 0 && phrase@.len() == readings@.len()) ==> {
                &&& r.phrase_map().dom() == old(self).phrase_map().dom().insert(phrase@)
                &&& all_interned(r.phrase_map()[phrase@], readings@.map_values(|s: &str| s@))
                &&& forall|q: Seq<char>|
                    q != phrase@ && #[trigger] old(self).phrase_map().contains_key(q)
                        ==> r.phrase_map()[q] == old(self).phrase_map()[q]
            },
            *final(self) == *final(r),
    {
        let chars = str_chars(phrase);
        if chars.len() == 0 || chars.len() != readings.len() {
            return self;
        }
        let first = chars[0];
        let entry_readings = intern_all(readings);
        let entry = PhraseEntry { phrase: chars, readings: entry_readings };
        let ghost old_buckets = self.buckets();
        let ghost old_map = self.phrase_map();
        let ghost old_chars = self.char_map();
        let ghost p = phrase@;
        let bucket = match phrase_index_remove(&mut self.phrase_index, first) {
            Some(b) => b,
            None => Vec::new(),
        };
        let ghost old_bucket = bucket@;
        let ghost e = entry;
        let new_bucket = place_entry(bucket, entry, first);
        let ghost nb = new_bucket@;
        phrase_index_insert(&mut self.phrase_index, first, new_bucket);
        proof {
            assert(self.buckets() == old_buckets.insert(first, nb));
            assert(old_bucket.len() > 0 ==> old_buckets.contains_key(first) && old_buckets[first]
                == old_bucket);
            assert(old_bucket.len() == 0 ==> !old_buckets.contains_key(first));
            lemma_phrase_map_after_place(old_buckets, first, old_bucket, nb, e);
            assert(self.char_map() == old_chars);
            assert forall|k: char| #[trigger] self.buckets().contains_key(k) implies bucket_wf(
                k,
                self.buckets()[k],
            ) by {
                if k != first {
                    assert(old_buckets.contains_key(k));
                }
            }
        }
        self
    }

    /// Builder-style variant of [`Rules::override_char`].
    pub fn with_char(self, c: char, readings: &[&str]) -> (r: Self)
        requires
            self.wf(),
        ensures
            r.wf(),
            r.phrase_map() == self.phrase_map(),
            readings.len() == 0 ==> r.char_map() == self.char_map().remove(c),
            readings.len() > 0 ==> r.char_map().dom() == self.char_map().dom().insert(c),
            readings.len() > 0 ==> all_interned(
                r.char_map()[c],
                readings@.map_values(|s: &str| s@),
            ),
            forall|d: char|
                d != c && #[trigger] self.char_map().contains_key(d) ==> r.char_map()[d]
                    == self.char_map()[d],
    {
        let mut s = self;
        s.override_char(c, readings);
        s
    }

    /// Builder-style variant of [`Rules::override_phrase`].
    pub fn with_phrase(self, phrase: &str, readings: &[&str]) -> (r: Self)
        requires
            self.wf(),
        ensures
            r.wf(),
            r.char_map() == self.char_map(),
            (phrase@.len() == 0 || phrase@.len() != readings@.len()) ==> r.phrase_map()
                == self.phrase_map(),
            (phrase@.len() > 0 && phrase@.len() == readings@.len()) ==> {
                &&& r.phrase_map().dom() == self.phrase_map().dom().insert(phrase@)
                &&& all_interned(r.phrase_map()[phrase@], readings@.map_values(|s: &str| s@))
                &&& forall|q: Seq<char>|
                    q != phrase@ && #[trigger] self.phrase_map().contains_key(q)
                        ==> r.phrase_map()[q] == self.phrase_map()[q]
            },
    {
        let mut s = self;
        s.override_phrase(phrase, readings);
        s
    }

    /// Whether any rules are configured.
    pub fn is_empty(&self) -> (r: bool)
        requires
            self.wf(),
        ensures
            r <==> (self.char_map() == Map::<char, Seq<Reading>>::empty() && self.phrase_map()
                == Map::<Seq<char>, Seq<Reading>>::empty()),
    {
        let a = char_overrides_is_empty(&self.char_overrides);
        let b = phrase_index_is_empty(&self.phrase_index);
        proof {
            if a {
                assert(self.char_map() =~= Map::<char, Seq<Reading>>::empty());
            } else {
                assert(self.char_map() != Map::<char, Seq<Reading>>::empty());
            }
            if b {
                assert(self.buckets() =~= Map::<char, Seq<PhraseEntry>>::empty());
                assert(self.phrase_map() =~= Map::<Seq<char>, Seq<Reading>>::empty());
            } else {
                let k = choose|k: char| self.buckets().contains_key(k);
                assert(self.buckets().dom().contains(k)) by {
                    assert(self.buckets() != Map::<char, Seq<PhraseEntry>>::empty());
                    if !exists|k: char| self.buckets().contains_key(k) {
                        assert(self.buckets() =~= Map::<char, Seq<PhraseEntry>>::empty());
                    }
                }
                let bk = self.buckets()[k];
                let q = bk[0].phrase_view();
                lemma_find_entry(bk, q);
                assert(self.phrase_map().contains_key(q));
            }
        }
        a && b
    }

    /// Apply char-level overrides. Returns `None` if no override is set; the
    /// caller falls back to the bundled dictionary.
    pub fn char_readings(&self, c: char) -> (r: Option<&[Reading]>)
        ensures
            r matches Some(v) ==> self.char_map().contains_key(c) && v@ == self.char_map()[c],
            r is None ==> !self.char_map().contains_key(c),
    {
        match char_overrides_get(&self.char_overrides, c) {
            Some(v) => Some(v.as_slice()),
            None => None,
        }
    }

    /// Try to match the longest phrase override starting at character `start`
    /// of `chars`. Returns the matched length (in chars) and the readings
    /// slice, or `None`.
    pub fn match_phrase<'r>(&'r self, chars: &[char], start: usize) -> (r: Option<PhraseHit<'r>>)
        requires
            self.wf(),
        ensures
            r is None ==> forall|q: Seq<char>| #[trigger]
                self.phrase_map().contains_key(q) ==> !is_prefix_at(chars@, start as int, q),
            r is None ==> longest_phrase_at(self.phrase_map(), chars@, start as int) is None,
            r matches Some(hit) ==> longest_phrase_at(self.phrase_map(), chars@, start as int) == Some(
                chars@.subrange(start as int, start + hit.char_len),
            ),
            r matches Some(hit) ==> {
                let p = chars@.subrange(start as int, start + hit.char_len);
                &&& hit.char_len > 0
                &&& start + hit.char_len <= chars@.len()
                &&& self.phrase_map().contains_key(p)
                &&& hit.readings@ == self.phrase_map()[p]
                &&& hit.readings@.len() == hit.char_len
                &&& forall|q: Seq<char>| #[trigger]
                    self.phrase_map().contains_key(q) && is_prefix_at(chars@, start as int, q)
                        ==> q.len() <= hit.char_len
            },
    {
        if start >= chars.len() {
            return None;
        }
        let first = chars[start];
        let bucket = match phrase_index_get(&self.phrase_index, first) {
            Some(b) => b,
            None => {
                proof {
                    assert forall|q: Seq<char>| #[trigger]
                        self.phrase_map().contains_key(q) implies !is_prefix_at(
                        chars@,
                        start as int,
                        q,
                    ) by {
                        if is_prefix_at(chars@, start as int, q) {
                            assert(q[0] == chars@.subrange(start as int, start + q.len())[0]);
                        }
                    }
                }
                return None;
            },
        };
        let ghost b = bucket@;
        assert(self.buckets().contains_key(first));
        assert(bucket_wf(first, b));
        let mut i: usize = 0;
        while i < bucket.len()
            invariant
                i <= bucket.len(),
                b == bucket@,
                start < chars.len(),
                first == chars@[start as int],
                bucket_wf(first, b),
                self.buckets().contains_key(first),
                self.buckets()[first] == b,
                forall|j: int| 0 <= j < i ==> !is_prefix_at(chars@, start as int, #[trigger] b[j].phrase_view()),
            decreases bucket.len() - i,
        {
            let entry = &bucket[i];
            let plen = entry.phrase.len();
            if plen <= chars.len() - start && chars_match_at(chars, start, &entry.phrase) {
                proof {
                    let p = b[i as int].phrase_view();
                    lemma_find_entry(b, p);
                    assert(p == chars@.subrange(start as int, start + plen));
                    assert(find_entry(b, p) == Some(i as int)) by {
                        let k = find_entry(b, p)->0;
                        if k < i {
                            assert(!is_prefix_at(chars@, start as int, b[k].phrase_view()));
                        }
                    }
                    assert forall|q: Seq<char>| #[trigger]
                        self.phrase_map().contains_key(q) && is_prefix_at(
                        chars@,
                        start as int,
                        q,
                    ) implies q.len() <= plen by {
                        assert(q[0] == chars@.subrange(start as int, start + q.len())[0]);
                        assert(self.buckets()[q[0]] == b);
                        lemma_find_entry(b, q);
                        let k = find_entry(b, q)->0;
                        assert(b[k].phrase_view() == q);
                        if k < i {
                            assert(!is_prefix_at(chars@, start as int, b[k].phrase_view()));
                        } else if k > i {
                            assert(b[i as int].phrase_view().len() >= b[k].phrase_view().len());
                        }
                    }
                }
                proof {
                    lemma_longest_unique(
                        self.phrase_map(),
                        chars@,
                        start as int,
                        chars@.subrange(start as int, start + plen),
                    );
                }
                return Some(PhraseHit { char_len: plen, readings: entry.readings.as_slice() });
            }
            i = i + 1;
        }
        proof {
            assert forall|q: Seq<char>| #[trigger]
                self.phrase_map().contains_key(q) implies !is_prefix_at(chars@, start as int, q) by {
                if is_prefix_at(chars@, start as int, q) {
                    assert(q[0] == chars@.subrange(start as int, start + q.len())[0]);
                    assert(self.buckets()[q[0]] == b);
                    lemma_find_entry(b, q);
                    let k = find_entry(b, q)->0;
                    assert(b[k].phrase_view() == q);
                    assert(!is_prefix_at(chars@, start as int, b[k].phrase_view()));
                }
            }
        }
        None
    }
}

/// The texts of the syllables `ids` stand for.
pub open spec fn id_texts(ids: Seq<u16>) -> Seq<Seq<char>> {
    ids.map_values(|id: u16| syllables()[id as int])
}

/// Entry `i` of a phrase table: key `i` with the syllable ids
/// `data[ptr[i]..ptr[i + 1]]`.
pub open spec fn table_entry(keys: Seq<Seq<char>>, ptr: Seq<u32>, data: Seq<u16>, i: int) -> (
    Seq<char>,
    Seq<u16>,
) {
    (keys[i], data.subrange(ptr[i] as int, ptr[i + 1] as int))
}

/// The phrases that the first `n` entries of a phrase table add to rules
/// whose phrases are `taken`, with the texts of their readings: an entry is
/// added when its key has one id per character and no earlier entry or
/// existing phrase has that key.
pub open spec fn table_phrases(
    keys: Seq<Seq<char>>,
    ptr: Seq<u32>,
    data: Seq<u16>,
    taken: Set<Seq<char>>,
    n: int,
) -> Map<Seq<char>, Seq<Seq<char>>>
    decreases n,
{
    if n <= 0 {
        Map::empty()
    } else {
        let prev = table_phrases(keys, ptr, data, taken, n - 1);
        let (p, ids) = table_entry(keys, ptr, data, n - 1);
        if p.len() == ids.len() && !taken.contains(p) && !prev.contains_key(p) {
            prev.insert(p, id_texts(ids))
        } else {
            prev
        }
    }
}

/// A phrase table can be loaded: every key has its id range, in bounds, and
/// every key with one id per character is non-empty and has valid ids.
pub open spec fn table_ok(keys: Seq<Seq<char>>, ptr: Seq<u32>, data: Seq<u16>) -> bool {
    &&& keys.len() + 1 <= ptr.len()
    &&& forall|i: int|
        0 <= i < keys.len() ==> #[trigger] ptr[i] <= ptr[i + 1] && ptr[i + 1] <= data.len()
    &&& forall|i: int|
        0 <= i < keys.len() && (#[trigger] keys[i]).len() == ptr[i + 1] - ptr[i] ==> {
            &&& keys[i].len() > 0
            &&& forall|k: int| ptr[i] <= k < ptr[i + 1] ==> (#[trigger] data[k] as int) < SYLLABLE_COUNT
        }
}

impl Rules {
    /// Load a phrase table (keys, and for key `i` the syllable ids
    /// `data[ptr[i]..ptr[i + 1]]`) as phrase overrides. Keys whose id count
    /// differs from their character count are skipped; a phrase that already
    /// has readings, from the rules or from an earlier entry, keeps them.
    pub fn with_phrase_table(self, keys: &[&str], ptr: &[u32], data: &[u16]) -> (r: Self)
        requires
            self.wf(),
            table_ok(keys@.map_values(|s: &str| s@), ptr@, data@),
        ensures
            r.wf(),
            r.char_map() == self.char_map(),
            ({
                let t = table_phrases(
                    keys@.map_values(|s: &str| s@),
                    ptr@,
                    data@,
                    self.phrase_map().dom(),
                    keys@.len() as int,
                );
                &&& r.phrase_map().dom() == self.phrase_map().dom() + t.dom()
                &&& forall|q: Seq<char>| #[trigger]
                    self.phrase_map().contains_key(q) ==> r.phrase_map()[q] == self.phrase_map()[q]
                &&& forall|q: Seq<char>| #[trigger]
                    t.contains_key(q) ==> all_interned(r.phrase_map()[q], t[q])
            }),
    {
        let ghost ks = keys@.map_values(|s: &str| s@);
        let ghost taken = self.phrase_map().dom();
        let ghost old_map = self.phrase_map();
        let mut rules = self;
        let mut i: usize = 0;
        while i < keys.len()
            invariant
                i <= keys@.len(),
                ks == keys@.map_values(|s: &str| s@),
                table_ok(ks, ptr@, data@),
                taken == old_map.dom(),
                rules.wf(),
                rules.char_map() == self.char_map(),
                ({
                    let t = table_phrases(ks, ptr@, data@, taken, i as int);
                    &&& rules.phrase_map().dom() == taken + t.dom()
                    &&& forall|q: Seq<char>| #[trigger]
                        old_map.contains_key(q) ==> rules.phrase_map()[q] == old_map[q]
                    &&& forall|q: Seq<char>| #[trigger]
                        t.contains_key(q) ==> all_interned(rules.phrase_map()[q], t[q])
                }),
            decreases keys.len() - i,
        {
            let ghost t = table_phrases(ks, ptr@, data@, taken, i as int);
            let start = ptr[i] as usize;
            let end = ptr[i + 1] as usize;
            assert(ptr@[i as int] <= ptr@[i + 1] && ptr@[i + 1] <= data@.len());
            let chars = str_chars(keys[i]);
            assert(chars@ == ks[i as int]);
            if chars.len() == end - start {
                let mut texts: Vec<&str> = Vec::new();
                let mut k: usize = start;
                while k < end
                    invariant
                        start <= k <= end <= data@.len(),
                        forall|m: int| start <= m < end ==> (#[trigger] data@[m] as int) < SYLLABLE_COUNT,
                        texts@.map_values(|s: &str| s@) == id_texts(data@.subrange(start as int, k as int)),
                    decreases end - k,
                {
                    let ghost before = texts@.map_values(|s: &str| s@);
                    texts.push(SyllableId(data[k]).as_str());
                    assert(texts@.map_values(|s: &str| s@) =~= before.push(syllables()[data@[k as int] as int]));
                    assert(data@.subrange(start as int, k + 1) =~= data@.subrange(start as int, k as int).push(data@[k as int]));
                    k = k + 1;
                }
                let present = match rules.match_phrase(chars.as_slice(), 0) {
                    Some(hit) => hit.char_len == chars.len(),
                    None => false,
                };
                proof {
                    let p = chars@;
                    assert(is_prefix_at(p, 0, p)) by {
                        assert(p.subrange(0, p.len() as int) =~= p);
                    }
                    assert(present == rules.phrase_map().contains_key(p)) by {
                        if rules.phrase_map().contains_key(p) {
                            assert(is_prefix_at(p, 0, p));
                        }
                        if present {
                            assert(p.subrange(0, p.len() as int) =~= p);
                        }
                    }
                }
                if !present {
                    let ghost before = rules.phrase_map();
                    assert(keys@[i as int]@ == chars@);
                    assert(texts@.len() == chars@.len());
                    rules.override_phrase(keys[i], texts.as_slice());
                    proof {
                        let p = chars@;
                        let ids = data@.subrange(start as int, end as int);
                        let t2 = t.insert(p, id_texts(ids));
                        assert(table_entry(ks, ptr@, data@, i as int) == (p, ids));
                        assert(!taken.contains(p));
                        assert(!t.contains_key(p));
                        assert(table_phrases(ks, ptr@, data@, taken, i + 1) == t2);
                        assert(rules.phrase_map().dom() =~= taken + t2.dom());
                        assert forall|q: Seq<char>| #[trigger] old_map.contains_key(q) implies rules.phrase_map()[q]
                            == old_map[q] by {
                            assert(before.contains_key(q));
                        }
                        assert forall|q: Seq<char>| #[trigger] t2.contains_key(q) implies all_interned(
                            rules.phrase_map()[q],
                            t2[q],
                        ) by {
                            if q != p {
                                assert(t.contains_key(q));
                                assert(before.contains_key(q));
                            }
                        }
                    }
                } else {
                    proof {
                        let p = chars@;
                        let ids = data@.subrange(start as int, end as int);
                        assert(table_entry(ks, ptr@, data@, i as int) == (p, ids));
                        assert(table_phrases(ks, ptr@, data@, taken, i + 1) == t);
                    }
                }
            } else {
                proof {
                    let ids = data@.subrange(start as int, end as int);
                    assert(table_entry(ks, ptr@, data@, i as int) == (chars@, ids));
                    assert(table_phrases(ks, ptr@, data@, taken, i + 1) == t);
                }
            }
            i = i + 1;
        }
        rules
    }
}

impl Clone for Rules {
    /// A copy holding the same overrides.
    fn clone(&self) -> (r: Self)
        ensures
            r.char_map() == self.char_map(),
            r.phrase_map() == self.phrase_map(),
            self.wf() ==> r.wf(),
    {
        let r = Rules {
            char_overrides: self.char_overrides.clone(),
            phrase_index: self.phrase_index.clone(),
        };
        proof {
            lemma_same_buckets(self.buckets(), r.buckets());
            if self.wf() {
                assert forall|k: char| #[trigger] r.buckets().contains_key(k) implies bucket_wf(
                    k,
                    r.buckets()[k],
                ) by {
                    assert(self.buckets().contains_key(k));
                    assert(bucket_wf(k, self.buckets()[k]));
                }
                assert(r.char_map() == self.char_map());
                assert(forall|c: char| #[trigger]
                    r.char_map().contains_key(c) ==> r.char_map()[c].len() > 0);
            }
        }
        r
    }
}

proof fn lemma_find_entry_same(a: Seq<PhraseEntry>, b: Seq<PhraseEntry>, q: Seq<char>)
    requires
        same_entries(a, b),
    ensures
        find_entry(a, q) == find_entry(b, q),
    decreases a.len(),
{
    if a.len() > 0 {
        assert forall|i: int| 0 <= i < a.len() - 1 implies a.drop_last()[i] == a[i] && b.drop_last()[i]
            == b[i] by {}
        lemma_find_entry_same(a.drop_last(), b.drop_last(), q);
        assert(a.last() == a[a.len() - 1]);
        assert(b.last() == b[b.len() - 1]);
    }
}

/// Buckets with the same entries hold the same phrase overrides, and each is
/// well formed exactly when its counterpart is.
proof fn lemma_same_buckets(m: Map<char, Seq<PhraseEntry>>, n: Map<char, Seq<PhraseEntry>>)
    requires
        same_buckets(m, n),
    ensures
        phrases_of(m) == phrases_of(n),
        forall|k: char| #[trigger] m.contains_key(k) ==> (bucket_wf(k, m[k]) <==> bucket_wf(k, n[k])),
{
    let pm = phrases_of(m);
    let pn = phrases_of(n);
    assert forall|q: Seq<char>| #[trigger] pm.contains_key(q) == pn.contains_key(q) && (
    pm.contains_key(q) ==> pm[q] == pn[q]) by {
        if q.len() > 0 && m.contains_key(q[0]) {
            let a = m[q[0]];
            let b = n[q[0]];
            lemma_find_entry_same(a, b, q);
            if let Some(k) = find_entry(a, q) {
                lemma_find_entry(a, q);
                assert(a[k].readings_view() == b[k].readings_view());
            }
        }
    }
    assert(pm =~= pn);
    assert forall|k: char| #[trigger] m.contains_key(k) implies (bucket_wf(k, m[k]) <==> bucket_wf(
        k,
        n[k],
    )) by {
        let a = m[k];
        let b = n[k];
        assert(same_entries(a, b));
    }
}

impl Default for Rules {
    fn default() -> (r: Self)
        ensures
            r.wf(),
            r.char_map() == Map::<char, Seq<Reading>>::empty(),
            r.phrase_map() == Map::<Seq<char>, Seq<Reading>>::empty(),
    {
        Rules::new()
    }
}

/// The first entry of `b` whose phrase is `q`.
pub open spec fn entry_of(b: Seq<PhraseEntry>, q: Seq<char>) -> Option<PhraseEntry> {
    match find_entry(b, q) {
        Some(k) => Some(b[k]),
        None => None,
    }
}

/// The phrase overrides that `buckets` hold.
pub open spec fn phrases_of(buckets: Map<char, Seq<PhraseEntry>>) -> Map<Seq<char>, Seq<Reading>> {
    Map::new(
        |q: Seq<char>|
            q.len() > 0 && buckets.contains_key(q[0]) && entry_of(buckets[q[0]], q) is Some,
        |q: Seq<char>| entry_of(buckets[q[0]], q)->0.readings_view(),
    )
}

/// `bucket` with `entry` put in: it replaces the entry of the same phrase,
/// or goes after the last phrase at least as long.
fn place_entry(bucket: Vec<PhraseEntry>, entry: PhraseEntry, first: char) -> (r: Vec<
    PhraseEntry,
>)
    requires
        bucket@.len() > 0 ==> bucket_wf(first, bucket@),
        entry.phrase_view().len() > 0,
        entry.phrase_view()[0] == first,
        entry.readings_view().len() == entry.phrase_view().len(),
    ensures
        bucket_wf(first, r@),
        forall|q: Seq<char>|
            #[trigger] entry_of(r@, q) == (if q == entry.phrase_view() {
                Some(entry)
            } else {
                entry_of(bucket@, q)
            }),
{
    let mut bucket = bucket;
    let ghost old_bucket = bucket@;
    let ghost p = entry.phrase_view();
    let ghost e = entry;
    match position_of(&bucket, &entry.phrase) {
        Some(i) => {
            bucket.set(i, entry);
            proof {
                assert(bucket_wf(first, bucket@));
                assert forall|q: Seq<char>|
                    #[trigger] entry_of(bucket@, q) == (if q == p {
                        Some(e)
                    } else {
                        entry_of(old_bucket, q)
                    }) by {
                    lemma_find_entry(old_bucket, q);
                    if q == p {
                        lemma_find_entry_at(bucket@, q, i as int);
                    } else {
                        lemma_find_entry_unchanged(old_bucket, bucket@, q);
                        lemma_find_entry(bucket@, q);
                    }
                }
            }
        },
        None => {
            let j = insertion_index(&bucket, entry.phrase.len());
            bucket.insert(j, entry);
            proof {
                assert(bucket@.len() > 0);
                assert forall|a: int, b: int|
                    0 <= a < b < bucket@.len() implies (#[trigger] bucket@[a]).phrase_view().len()
                    >= (#[trigger] bucket@[b]).phrase_view().len() by {
                    if old_bucket.len() > 0 {
                        if a < j && b < j {
                            assert(bucket@[a] == old_bucket[a] && bucket@[b] == old_bucket[b]);
                        } else if a < j && b == j {
                            assert(bucket@[a] == old_bucket[a]);
                        } else if a < j {
                            assert(bucket@[a] == old_bucket[a] && bucket@[b] == old_bucket[b - 1]);
                        } else if a == j {
                            assert(bucket@[b] == old_bucket[b - 1]);
                            assert(old_bucket[j as int].phrase_view().len() < p.len());
                            if b - 1 > j {
                                assert(old_bucket[j as int].phrase_view().len() >= old_bucket[b
                                    - 1].phrase_view().len());
                            }
                        } else {
                            assert(bucket@[a] == old_bucket[a - 1] && bucket@[b] == old_bucket[b - 1]);
                        }
                    }
                }
                assert forall|a: int| 0 <= a < bucket@.len() implies (
                #[trigger] bucket@[a]).phrase_view().len() > 0 && bucket@[a].phrase_view()[0]
                    == first && bucket@[a].readings_view().len()
                    == bucket@[a].phrase_view().len() by {
                    if a < j {
                        assert(bucket@[a] == old_bucket[a]);
                    } else if a > j {
                        assert(bucket@[a] == old_bucket[a - 1]);
                    }
                }
                assert forall|q: Seq<char>|
                    #[trigger] entry_of(bucket@, q) == (if q == p {
                        Some(e)
                    } else {
                        entry_of(old_bucket, q)
                    }) by {
                    lemma_find_entry(old_bucket, q);
                    lemma_find_entry(bucket@, q);
                    if q == p {
                        assert forall|m: int| 0 <= m < j implies bucket@[m].phrase_view() != q by {
                            assert(bucket@[m] == old_bucket[m]);
                        }
                        lemma_find_entry_at(bucket@, q, j as int);
                    } else {
                        match find_entry(old_bucket, q) {
                            Some(k) => {
                                let k2 = if k < j {
                                    k
                                } else {
                                    k + 1
                                };
                                assert(bucket@[k2] == old_bucket[k]);
                                assert forall|m: int| 0 <= m < k2 implies bucket@[m].phrase_view()
                                    != q by {
                                    if m < j {
                                        assert(bucket@[m] == old_bucket[m]);
                                    } else if m > j {
                                        assert(bucket@[m] == old_bucket[m - 1]);
                                    }
                                }
                                lemma_find_entry_at(bucket@, q, k2);
                            },
                            None => {
                                if find_entry(bucket@, q) is Some {
                                    let m = find_entry(bucket@, q)->0;
                                    if m < j {
                                        assert(bucket@[m] == old_bucket[m]);
                                    } else if m > j {
                                        assert(bucket@[m] == old_bucket[m - 1]);
                                    }
                                }
                            },
                        }
                    }
                }
            }
        },
    }
    bucket
}

/// The phrase overrides after a bucket is replaced by one with `e` put in.
proof fn lemma_phrase_map_after_place(
    old_buckets: Map<char, Seq<PhraseEntry>>,
    first: char,
    old_bucket: Seq<PhraseEntry>,
    nb: Seq<PhraseEntry>,
    e: PhraseEntry,
)
    requires
        e.phrase_view().len() > 0,
        e.phrase_view()[0] == first,
        old_bucket.len() > 0 ==> old_buckets.contains_key(first) && old_buckets[first] == old_bucket,
        old_bucket.len() == 0 ==> !old_buckets.contains_key(first),
        forall|q: Seq<char>|
            #[trigger] entry_of(nb, q) == (if q == e.phrase_view() {
                Some(e)
            } else {
                entry_of(old_bucket, q)
            }),
    ensures
        phrases_of(old_buckets.insert(first, nb)).dom() == phrases_of(old_buckets).dom().insert(
            e.phrase_view(),
        ),
        phrases_of(old_buckets.insert(first, nb))[e.phrase_view()] == e.readings_view(),
        forall|q: Seq<char>|
            q != e.phrase_view() && #[trigger] phrases_of(old_buckets).contains_key(q)
                ==> phrases_of(old_buckets.insert(first, nb))[q] == phrases_of(old_buckets)[q],
{
    let nbs = old_buckets.insert(first, nb);
    let p = e.phrase_view();
    assert(entry_of(nb, p) == Some(e));
    assert forall|q: Seq<char>| #[trigger]
        phrases_of(nbs).dom().contains(q) == phrases_of(old_buckets).dom().insert(p).contains(q) by {
        if q.len() > 0 && q[0] == first && q != p {
            assert(entry_of(nb, q) == entry_of(old_bucket, q));
            if old_bucket.len() == 0 {
                lemma_find_entry(old_bucket, q);
            }
        }
    }
    assert(phrases_of(nbs).dom() =~= phrases_of(old_buckets).dom().insert(p));
    assert forall|q: Seq<char>|
        q != p && #[trigger] phrases_of(old_buckets).contains_key(q) implies phrases_of(nbs)[q]
        == phrases_of(old_buckets)[q] by {
        if q[0] == first {
            assert(entry_of(nb, q) == entry_of(old_bucket, q));
        }
    }
}

/// Entries other than those with phrase `p` are found where they were when
/// only the entry with phrase `p` changed.
proof fn lemma_find_entry_unchanged(a: Seq<PhraseEntry>, b: Seq<PhraseEntry>, q: Seq<char>)
    requires
        a.len() == b.len(),
        forall|j: int|
            0 <= j < a.len() ==> (a[j].phrase_view() == q) == (b[j].phrase_view() == q),
        forall|j: int| 0 <= j < a.len() && a[j].phrase_view() == q ==> a[j] == b[j],
    ensures
        find_entry(a, q) == find_entry(b, q),
    decreases a.len(),
{
    if a.len() > 0 {
        lemma_find_entry_unchanged(a.drop_last(), b.drop_last(), q);
    }
}

/// Index of the entry of `bucket` whose phrase is `p`, if any.
fn position_of(bucket: &Vec<PhraseEntry>, p: &Vec<char>) -> (r: Option<usize>)
    ensures
        r matches Some(i) ==> i < bucket@.len() && bucket@[i as int].phrase_view() == p@ && forall|
            j: int,
        | 0 <= j < i ==> bucket@[j].phrase_view() != p@,
        r is None ==> forall|j: int| 0 <= j < bucket@.len() ==> bucket@[j].phrase_view() != p@,
{
    let mut i: usize = 0;
    while i < bucket.len()
        invariant
            i <= bucket.len(),
            forall|j: int| 0 <= j < i ==> bucket@[j].phrase_view() != p@,
        decreases bucket.len() - i,
    {
        if chars_eq(&bucket[i].phrase, p) {
            return Some(i);
        }
        i = i + 1;
    }
    None
}

/// Where a phrase of `len` characters goes so that lengths stay
/// non-increasing and it comes after every phrase of the same length.
fn insertion_index(bucket: &Vec<PhraseEntry>, len: usize) -> (r: usize)
    ensures
        r <= bucket@.len(),
        forall|j: int| 0 <= j < r ==> bucket@[j].phrase_view().len() >= len,
        r < bucket@.len() ==> bucket@[r as int].phrase_view().len() < len,
{
    let mut i: usize = 0;
    while i < bucket.len()
        invariant
            i <= bucket.len(),
            forall|j: int| 0 <= j < i ==> bucket@[j].phrase_view().len() >= len,
        decreases bucket.len() - i,
    {
        if bucket[i].phrase.len() < len {
            return i;
        }
        i = i + 1;
    }
    i
}

/// `a` and `b` hold the same characters.
fn chars_eq(a: &Vec<char>, b: &Vec<char>) -> (r: bool)
    ensures
        r == (a@ == b@),
{
    if a.len() != b.len() {
        return false;
    }
    let mut i: usize = 0;
    while i < a.len()
        invariant
            a.len() == b.len(),
            i <= a.len(),
            forall|j: int| 0 <= j < i ==> a@[j] == b@[j],
        decreases a.len() - i,
    {
        if a[i] != b[i] {
            return false;
        }
        i = i + 1;
    }
    assert(a@ =~= b@);
    true
}

/// `chars[start..start + p.len()]` is `p`.
fn chars_match_at(chars: &[char], start: usize, p: &Vec<char>) -> (r: bool)
    requires
        start + p.len() <= chars.len(),
    ensures
        r == (chars@.subrange(start as int, start + p.len()) == p@),
{
    let mut i: usize = 0;
    while i < p.len()
        invariant
            start + p.len() <= chars.len(),
            i <= p.len(),
            forall|j: int| 0 <= j < i ==> chars@[start + j] == p@[j],
        decreases p.len() - i,
    {
        if chars[start + i] != p[i] {
            assert(chars@.subrange(start as int, start + p.len())[i as int] != p@[i as int]);
            return false;
        }
        i = i + 1;
    }
    assert(chars@.subrange(start as int, start + p.len()) =~= p@);
    true
}

} // verus!
