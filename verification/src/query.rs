//! Filters for maps: words for texts, ranges for numbers, bounds for the
//! length, and a mode.
use crate::local::LocalBeatmap;
use crate::measure::Real32;
use crate::text::{
    chars_of, contains_char, contains_str, join, join2, join3, strip_end, trim, CharClass,
};
#[allow(unused_imports)]
use crate::text::{contains_text, join_texts, strip_back, texts, trim_text};
#[allow(unused_imports)]
use crate::trusted::full_lower;
use crate::trusted::to_lower_full;
use vstd::prelude::*;
use vstd::string::*;

verus! {

/// The bits of the ends of the sliders for stars, approach rate, circle size,
/// overall difficulty, drain rate and tempo: 12, 11, 10, 11, 10 and 350. All
/// begin at zero.
pub const STARS_MAX_BITS: u32 = 0x4140_0000;

pub const AR_MAX_BITS: u32 = 0x4130_0000;

pub const CS_MAX_BITS: u32 = 0x4120_0000;

pub const OD_MAX_BITS: u32 = 0x4130_0000;

pub const HP_MAX_BITS: u32 = 0x4120_0000;

pub const BPM_MAX_BITS: u32 = 0x43af_0000;

/// A range that a number must lie in, ends included, unless it is switched
/// off.
#[derive(Clone, Copy, Debug, PartialEq, Eq, Structural)]
pub struct RangeFilter {
    pub enabled: bool,
    pub min: Real32,
    pub max: Real32,
}

/// Whether a range lets a number through. A missing number passes only where
/// the range is switched off.
pub open spec fn in_range(range: RangeFilter, value: Option<Real32>) -> bool {
    !range.enabled || match value {
        Some(v) => range.min.at_most(v) && v.at_most(range.max),
        None => false,
    }
}

/// The text of a number: two decimals, without zeros at the end.
pub open spec fn number_text(v: Real32) -> Seq<char> {
    strip_back(strip_back(v.fixed_text(), CharClass::Zero), CharClass::Dot)
}

/// The text of a number.
pub fn trim_number(v: Real32) -> (r: String)
    ensures
        r@ == number_text(v),
{
    strip_end(&strip_end(&v.fixed(), CharClass::Zero), CharClass::Dot)
}

/// The search words for a range: a bound for each end that is not that of the
/// slider, or else the lower one.
pub open spec fn range_words(range: RangeFilter, key: Seq<char>, full_max: Real32) -> Seq<
    Seq<char>,
> {
    if !range.enabled {
        seq![]
    } else {
        let low = key + ">="@ + number_text(range.min);
        let high = key + "<="@ + number_text(range.max);
        if (Real32 { bits: 0 }).below(range.min) {
            if range.max.below(full_max) {
                seq![low, high]
            } else {
                seq![low]
            }
        } else if range.max.below(full_max) {
            seq![high]
        } else {
            seq![low]
        }
    }
}

impl RangeFilter {
    /// A range from `min` to `max`, switched off.
    pub fn new(min: Real32, max: Real32) -> (r: Self)
        ensures
            r == (RangeFilter { enabled: false, min, max }),
    {
        RangeFilter { enabled: false, min, max }
    }

    /// Whether the range lets a number through.
    pub fn matches(&self, value: Option<Real32>) -> (r: bool)
        ensures
            r == in_range(*self, value),
    {
        if !self.enabled {
            return true;
        }
        match value {
            Some(v) => self.min.le(v) && v.le(self.max),
            None => false,
        }
    }

    /// Appends the search words for the range.
    pub fn tokens(&self, tokens: &mut Vec<String>, key: &str, full_max: Real32)
        ensures
            texts(final(tokens)@) == texts(old(tokens)@) + range_words(*self, key@, full_max),
    {
        let ghost before = texts(tokens@);
        if !self.enabled {
            assert(texts(tokens@) =~= before + seq![]);
            return ;
        }
        let zero = Real32 { bits: 0 };
        let low = zero.lt(self.min);
        let high = self.max.lt(full_max);
        if low || !high {
            tokens.push(join3(key, ">=", &trim_number(self.min)));
        }
        if high {
            tokens.push(join3(key, "<=", &trim_number(self.max)));
        }
        assert(texts(tokens@) =~= before + range_words(*self, key@, full_max));
    }
}

/// The mode to show.
#[derive(Clone, Copy, Debug, PartialEq, Eq, Structural)]
pub enum ModeFilter {
    Osu,
    Any,
    Taiko,
    Catch,
    Mania,
}

impl Default for ModeFilter {
    fn default() -> (r: Self)
        ensures
            r == ModeFilter::Osu,
    {
        ModeFilter::Osu
    }
}

/// Whether a mode is the one to show. A missing mode is the standard one.
pub open spec fn mode_matches(filter: ModeFilter, mode: Option<u8>) -> bool {
    match filter {
        ModeFilter::Any => true,
        ModeFilter::Osu => mode is None || mode == Some(0u8),
        ModeFilter::Taiko => mode == Some(1u8),
        ModeFilter::Catch => mode == Some(2u8),
        ModeFilter::Mania => mode == Some(3u8),
    }
}

impl ModeFilter {
    /// All modes, in the order in which they are offered.
    pub fn all() -> (r: Vec<ModeFilter>)
        ensures
            r@ == seq![
                ModeFilter::Osu,
                ModeFilter::Any,
                ModeFilter::Taiko,
                ModeFilter::Catch,
                ModeFilter::Mania,
            ],
    {
        let mut r: Vec<ModeFilter> = Vec::new();
        r.push(ModeFilter::Osu);
        r.push(ModeFilter::Any);
        r.push(ModeFilter::Taiko);
        r.push(ModeFilter::Catch);
        r.push(ModeFilter::Mania);
        r
    }

    /// The label of the mode.
    pub fn label(self) -> (r: &'static str)
        ensures
            r@ == (match self {
                ModeFilter::Osu => "osu! (standard)"@,
                ModeFilter::Any => "Any mode"@,
                ModeFilter::Taiko => "taiko"@,
                ModeFilter::Catch => "catch"@,
                ModeFilter::Mania => "mania"@,
            }),
    {
        match self {
            ModeFilter::Osu => "osu! (standard)",
            ModeFilter::Any => "Any mode",
            ModeFilter::Taiko => "taiko",
            ModeFilter::Catch => "catch",
            ModeFilter::Mania => "mania",
        }
    }

    /// The search word for the mode, unless any will do.
    pub open spec fn word(self) -> Option<Seq<char>> {
        match self {
            ModeFilter::Osu => Some("osu"@),
            ModeFilter::Any => None,
            ModeFilter::Taiko => Some("taiko"@),
            ModeFilter::Catch => Some("catch"@),
            ModeFilter::Mania => Some("mania"@),
        }
    }

    /// The search word for the mode.
    pub fn token(self) -> (r: Option<&'static str>)
        ensures
            match r {
                Some(t) => self.word() == Some(t@),
                None => self.word() is None,
            },
    {
        match self {
            ModeFilter::Osu => Some("osu"),
            ModeFilter::Any => None,
            ModeFilter::Taiko => Some("taiko"),
            ModeFilter::Catch => Some("catch"),
            ModeFilter::Mania => Some("mania"),
        }
    }

    /// Whether a mode is the one to show.
    pub fn matches(self, mode: Option<u8>) -> (r: bool)
        ensures
            r == mode_matches(self, mode),
    {
        match (self, mode) {
            (ModeFilter::Any, _) => true,
            (ModeFilter::Osu, None) => true,
            (ModeFilter::Osu, Some(m)) => m == 0,
            (ModeFilter::Taiko, Some(m)) => m == 1,
            (ModeFilter::Catch, Some(m)) => m == 2,
            (ModeFilter::Mania, Some(m)) => m == 3,
            _ => false,
        }
    }
}

/// A bound that is typed in: its text, and the number that the text without
/// white space around it writes, if it writes one.
#[derive(Debug)]
pub struct TypedBound {
    pub text: String,
    pub value: Option<Real32>,
}

impl Clone for TypedBound {
    fn clone(&self) -> (r: Self)
        ensures
            r == *self,
    {
        TypedBound { text: self.text.clone(), value: self.value }
    }
}

/// The bound, unless nothing was typed in, or no finite number.
pub open spec fn bound_of(b: TypedBound) -> Option<Real32> {
    if trim_text(b.text@).len() == 0 {
        None
    } else {
        match b.value {
            Some(v) => if v.finite() {
                Some(v)
            } else {
                None
            },
            None => None,
        }
    }
}

impl TypedBound {
    /// A bound that nothing was typed in for.
    pub fn blank() -> (r: Self)
        ensures
            r.text@ == ""@,
            r.value is None,
    {
        TypedBound { text: "".to_owned(), value: None }
    }

    /// The bound, if there is one.
    pub fn parse_bound(&self) -> (r: Option<Real32>)
        ensures
            r == bound_of(*self),
    {
        if chars_of(&trim(&self.text)).len() == 0 {
            return None;
        }
        match self.value {
            Some(v) => if v.is_finite() {
                Some(v)
            } else {
                None
            },
            None => None,
        }
    }

    /// Whether nothing was typed in, or a number.
    pub open spec fn valid(self) -> bool {
        trim_text(self.text@).len() == 0 || bound_of(self) is Some
    }

    fn is_valid(&self) -> (r: bool)
        ensures
            r == self.valid(),
    {
        chars_of(&trim(&self.text)).len() == 0 || self.parse_bound().is_some()
    }
}

/// All filters.
#[derive(Debug)]
pub struct BeatmapFilters {
    pub artist: String,
    pub title: String,
    pub mapper: String,
    pub difficulty: String,
    pub tag: String,
    pub length_min: TypedBound,
    pub length_max: TypedBound,
    pub stars: RangeFilter,
    pub ar: RangeFilter,
    pub cs: RangeFilter,
    pub od: RangeFilter,
    pub hp: RangeFilter,
    pub bpm: RangeFilter,
    pub mode: ModeFilter,
}

impl Clone for BeatmapFilters {
    fn clone(&self) -> (r: Self)
        ensures
            r == *self,
    {
        BeatmapFilters {
            artist: self.artist.clone(),
            title: self.title.clone(),
            mapper: self.mapper.clone(),
            difficulty: self.difficulty.clone(),
            tag: self.tag.clone(),
            length_min: self.length_min.clone(),
            length_max: self.length_max.clone(),
            stars: self.stars,
            ar: self.ar,
            cs: self.cs,
            od: self.od,
            hp: self.hp,
            bpm: self.bpm,
            mode: self.mode,
        }
    }
}

/// Whether a text holds the words, in any case of letters. No words are held
/// by every text.
pub open spec fn holds_words(text: Seq<char>, words: Seq<char>) -> bool {
    trim_text(words).len() == 0 || contains_text(full_lower(text), full_lower(trim_text(words)))
}

/// Whether a text holds the words, in any case of letters.
pub fn contains(haystack: &str, needle: &str) -> (r: bool)
    ensures
        r == holds_words(haystack@, needle@),
{
    let words = trim(needle);
    if chars_of(&words).len() == 0 {
        return true;
    }
    contains_str(&to_lower_full(haystack), &to_lower_full(&words))
}

/// Whether a length lies within the bounds. A missing length passes only where
/// there are none.
pub open spec fn length_within(
    length: Option<Real32>,
    min: Option<Real32>,
    max: Option<Real32>,
) -> bool {
    (min is None && max is None) || match length {
        None => false,
        Some(l) => {
            &&& min is None || min->0.at_most(l)
            &&& max is None || l.at_most(max->0)
        },
    }
}

/// Whether a length lies within the bounds.
pub fn within_length(length: Option<Real32>, min: &TypedBound, max: &TypedBound) -> (r: bool)
    ensures
        r == length_within(length, bound_of(*min), bound_of(*max)),
{
    let min = min.parse_bound();
    let max = max.parse_bound();
    if min.is_none() && max.is_none() {
        return true;
    }
    let length = match length {
        Some(l) => l,
        None => return false,
    };
    let low = match min {
        Some(m) => m.le(length),
        None => true,
    };
    let high = match max {
        Some(m) => length.le(m),
        None => true,
    };
    low && high
}

/// Whether the filters let a map through.
pub open spec fn filters_match(f: BeatmapFilters, map: LocalBeatmap) -> bool {
    &&& holds_words(map.artist@, f.artist@)
    &&& holds_words(map.title@, f.title@)
    &&& holds_words(map.creator@, f.mapper@)
    &&& holds_words(map.version@, f.difficulty@)
    &&& holds_words(map.tags@, f.tag@)
    &&& length_within(map.length_seconds, bound_of(f.length_min), bound_of(f.length_max))
    &&& in_range(f.stars, map.stars)
    &&& in_range(f.ar, map.ar)
    &&& in_range(f.cs, map.cs)
    &&& in_range(f.od, map.od)
    &&& in_range(f.hp, map.hp)
    &&& in_range(f.bpm, map.bpm)
    &&& mode_matches(f.mode, map.mode)
}

/// One, if so.
pub open spec fn one_if(b: bool) -> nat {
    if b {
        1
    } else {
        0
    }
}

/// How many texts are given.
pub open spec fn words_given(f: BeatmapFilters) -> nat {
    one_if(is_given(f.artist@)) + one_if(is_given(f.title@)) + one_if(is_given(f.mapper@)) + one_if(
        is_given(f.difficulty@),
    ) + one_if(is_given(f.tag@))
}

/// Whether a text is not blank.
#[verifier::opaque]
pub open spec fn is_given(s: Seq<char>) -> bool {
    trim_text(s).len() > 0
}

/// How many ranges are switched on.
pub open spec fn ranges_on(f: BeatmapFilters) -> nat {
    one_if(f.stars.enabled) + one_if(f.ar.enabled) + one_if(f.cs.enabled) + one_if(f.od.enabled)
        + one_if(f.hp.enabled) + one_if(f.bpm.enabled)
}

/// How many filters are in use: the texts, the ranges, the length, the mode.
pub open spec fn active_filters(f: BeatmapFilters) -> nat {
    words_given(f) + ranges_on(f) + one_if(
        bound_of(f.length_min) is Some || bound_of(f.length_max) is Some,
    ) + one_if(f.mode != ModeFilter::Any)
}

/// A text as a search word: in quotes where it holds a space, a slash or a
/// quote, with a backslash before quotes.
pub open spec fn quoted(s: Seq<char>) -> Seq<char> {
    if s.contains(' ') || s.contains('/') || s.contains('"') {
        "\""@ + escaped(s) + "\""@
    } else {
        s
    }
}

/// `s` with a backslash before every quote.
pub open spec fn escaped(s: Seq<char>) -> Seq<char>
    decreases s.len(),
{
    if s.len() == 0 {
        seq![]
    } else if s.last() == '"' {
        escaped(s.drop_last()).push('\\').push('"')
    } else {
        escaped(s.drop_last()).push(s.last())
    }
}

/// The search word for a text, unless it is blank.
pub open spec fn text_words(key: Seq<char>, value: Seq<char>) -> Seq<Seq<char>> {
    if trim_text(value).len() == 0 {
        seq![]
    } else {
        seq![key + "="@ + quoted(trim_text(value))]
    }
}

/// The search word for a bound of the length, if there is one.
pub open spec fn length_words(op: Seq<char>, bound: Option<Real32>) -> Seq<Seq<char>> {
    match bound {
        Some(b) => seq!["length"@ + op + number_text(b)],
        None => seq![],
    }
}

/// The search word for a mode, unless any will do.
pub open spec fn mode_words(mode: ModeFilter) -> Seq<Seq<char>> {
    match mode.word() {
        Some(w) => seq!["mode="@ + w],
        None => seq![],
    }
}

/// The search words for the filters.
pub open spec fn search_words(f: BeatmapFilters) -> Seq<Seq<char>> {
    text_words("artist"@, f.artist@) + text_words("title"@, f.title@) + text_words(
        "creator"@,
        f.mapper@,
    ) + text_words("difficulty"@, f.difficulty@) + text_words("tag"@, f.tag@) + length_words(
        ">="@,
        bound_of(f.length_min),
    ) + length_words("<="@, bound_of(f.length_max)) + range_words(f.stars, "stars"@, (Real32 { bits: STARS_MAX_BITS }))
        + range_words(f.ar, "ar"@, (Real32 { bits: AR_MAX_BITS })) + range_words(f.cs, "cs"@, (Real32 { bits: CS_MAX_BITS })) + range_words(
        f.od,
        "od"@,
        (Real32 { bits: OD_MAX_BITS }),
    ) + range_words(f.hp, "hp"@, (Real32 { bits: HP_MAX_BITS })) + range_words(f.bpm, "bpm"@, (Real32 { bits: BPM_MAX_BITS })) + mode_words(f.mode)
}

/// A text as a search word.
pub fn quote_if_needed(value: &str) -> (r: String)
    ensures
        r@ == quoted(value@),
{
    if contains_char(value, ' ') || contains_char(value, '/') || contains_char(value, '"') {
        let cs = chars_of(value);
        let mut body = String::new();
        let mut i: usize = 0;
        assert(cs@.take(0) =~= seq![]);
        assert(body@ =~= seq![]);
        while i < cs.len()
            invariant
                i <= cs@.len(),
                cs@ == value@,
                body@ == escaped(cs@.take(i as int)),
            decreases cs@.len() - i,
        {
            assert(cs@.take(i as int + 1).drop_last() =~= cs@.take(i as int));
            if cs[i] == '"' {
                body.push('\\');
            }
            body.push(cs[i]);
            i = i + 1;
        }
        assert(cs@.take(i as int) =~= cs@);
        join3("\"", &body, "\"")
    } else {
        value.to_owned()
    }
}

/// Appends the search word for a text, unless it is blank.
pub fn push_text_token(tokens: &mut Vec<String>, key: &str, value: &str)
    ensures
        texts(final(tokens)@) == texts(old(tokens)@) + text_words(key@, value@),
{
    let ghost before = texts(tokens@);
    let word = trim(value);
    if chars_of(&word).len() > 0 {
        tokens.push(join3(key, "=", &quote_if_needed(&word)));
    }
    assert(texts(tokens@) =~= before + text_words(key@, value@));
}

/// One, if so.
fn count(b: bool) -> (n: usize)
    ensures
        n == one_if(b),
        n <= 1,
{
    if b {
        1
    } else {
        0
    }
}

/// One, if the text is not blank.
fn given(s: &str) -> (n: usize)
    ensures
        n == one_if(is_given(s@)),
        n <= 1,
{
    reveal(is_given);
    count(chars_of(&trim(s)).len() > 0)
}

impl BeatmapFilters {
    /// No filters but the standard mode, with the sliders at their ends.
    pub fn with_full_ranges() -> (r: Self)
        ensures
            is_full(r),
            r.mode == ModeFilter::Osu,
    {
        let zero = Real32 { bits: 0 };
        BeatmapFilters {
            artist: "".to_owned(),
            title: "".to_owned(),
            mapper: "".to_owned(),
            difficulty: "".to_owned(),
            tag: "".to_owned(),
            length_min: TypedBound::blank(),
            length_max: TypedBound::blank(),
            stars: RangeFilter::new(zero, Real32 { bits: STARS_MAX_BITS }),
            ar: RangeFilter::new(zero, Real32 { bits: AR_MAX_BITS }),
            cs: RangeFilter::new(zero, Real32 { bits: CS_MAX_BITS }),
            od: RangeFilter::new(zero, Real32 { bits: OD_MAX_BITS }),
            hp: RangeFilter::new(zero, Real32 { bits: HP_MAX_BITS }),
            bpm: RangeFilter::new(zero, Real32 { bits: BPM_MAX_BITS }),
            mode: ModeFilter::Osu,
        }
    }

    /// Whether the filters let a map through.
    pub fn matches_local(&self, map: &LocalBeatmap) -> (r: bool)
        ensures
            r == filters_match(*self, *map),
    {
        contains(&map.artist, &self.artist) && contains(&map.title, &self.title) && contains(
            &map.creator,
            &self.mapper,
        ) && contains(&map.version, &self.difficulty) && contains(&map.tags, &self.tag)
            && within_length(map.length_seconds, &self.length_min, &self.length_max)
            && self.stars.matches(map.stars) && self.ar.matches(map.ar) && self.cs.matches(map.cs)
            && self.od.matches(map.od) && self.hp.matches(map.hp) && self.bpm.matches(map.bpm)
            && self.mode.matches(map.mode)
    }

    /// How many filters are in use.
    pub fn active_count(&self) -> (n: usize)
        ensures
            n == active_filters(*self),
    {
        let words: usize = given(&self.artist) + given(&self.title) + given(&self.mapper) + given(
            &self.difficulty,
        ) + given(&self.tag);
        let ranges: usize = count(self.stars.enabled) + count(self.ar.enabled) + count(
            self.cs.enabled,
        ) + count(self.od.enabled) + count(self.hp.enabled) + count(self.bpm.enabled);
        let length = self.length_min.parse_bound().is_some()
            || self.length_max.parse_bound().is_some();
        words + ranges + count(length) + count(self.mode != ModeFilter::Any)
    }

    /// Takes all filters back, and shows any mode.
    pub fn clear_all(&mut self)
        ensures
            is_full(*final(self)),
            final(self).mode == ModeFilter::Any,
    {
        let mut fresh = BeatmapFilters::with_full_ranges();
        fresh.mode = ModeFilter::Any;
        *self = fresh;
    }

    /// Whether the bounds of the length are blank or numbers.
    pub fn length_valid(&self) -> (r: bool)
        ensures
            r == (self.length_min.valid() && self.length_max.valid()),
    {
        self.length_min.is_valid() && self.length_max.is_valid()
    }

    /// The filters as a search for the osu! website.
    pub fn to_osu_search(&self) -> (r: String)
        ensures
            r@ == join_texts(search_words(*self), " "@),
    {
        let mut tokens: Vec<String> = Vec::new();
        assert(texts(tokens@) =~= seq![]);
        push_text_token(&mut tokens, "artist", &self.artist);
        push_text_token(&mut tokens, "title", &self.title);
        push_text_token(&mut tokens, "creator", &self.mapper);
        push_text_token(&mut tokens, "difficulty", &self.difficulty);
        push_text_token(&mut tokens, "tag", &self.tag);
        let ghost before = texts(tokens@);
        if let Some(min) = self.length_min.parse_bound() {
            tokens.push(join3("length", ">=", &trim_number(min)));
        }
        assert(texts(tokens@) =~= before + length_words(">="@, bound_of(self.length_min)));
        let ghost before = texts(tokens@);
        if let Some(max) = self.length_max.parse_bound() {
            tokens.push(join3("length", "<=", &trim_number(max)));
        }
        assert(texts(tokens@) =~= before + length_words("<="@, bound_of(self.length_max)));
        self.stars.tokens(&mut tokens, "stars", Real32 { bits: STARS_MAX_BITS });
        self.ar.tokens(&mut tokens, "ar", Real32 { bits: AR_MAX_BITS });
        self.cs.tokens(&mut tokens, "cs", Real32 { bits: CS_MAX_BITS });
        self.od.tokens(&mut tokens, "od", Real32 { bits: OD_MAX_BITS });
        self.hp.tokens(&mut tokens, "hp", Real32 { bits: HP_MAX_BITS });
        self.bpm.tokens(&mut tokens, "bpm", Real32 { bits: BPM_MAX_BITS });
        let ghost before = texts(tokens@);
        if let Some(mode) = self.mode.token() {
            tokens.push(join2("mode=", mode));
        }
        assert(texts(tokens@) =~= before + mode_words(self.mode));
        assert(texts(tokens@) =~= search_words(*self));
        join(&tokens, " ")
    }
}

/// Whether no words and no bounds are given, and all ranges are switched off
/// with the sliders at their ends.
pub open spec fn is_full(f: BeatmapFilters) -> bool {
    let zero = Real32 { bits: 0 };
    &&& f.artist@ == ""@ && f.title@ == ""@ && f.mapper@ == ""@
    &&& f.difficulty@ == ""@ && f.tag@ == ""@
    &&& f.length_min.text@ == ""@ && f.length_min.value is None
    &&& f.length_max.text@ == ""@ && f.length_max.value is None
    &&& f.stars == (RangeFilter { enabled: false, min: zero, max: Real32 { bits: STARS_MAX_BITS } })
    &&& f.ar == (RangeFilter { enabled: false, min: zero, max: Real32 { bits: AR_MAX_BITS } })
    &&& f.cs == (RangeFilter { enabled: false, min: zero, max: Real32 { bits: CS_MAX_BITS } })
    &&& f.od == (RangeFilter { enabled: false, min: zero, max: Real32 { bits: OD_MAX_BITS } })
    &&& f.hp == (RangeFilter { enabled: false, min: zero, max: Real32 { bits: HP_MAX_BITS } })
    &&& f.bpm == (RangeFilter { enabled: false, min: zero, max: Real32 { bits: BPM_MAX_BITS } })
}

proof fn lemma_blank()
    ensures
        trim_text(""@).len() == 0,
{
    reveal_strlit("");
    assert(""@.len() == 0);
}

/// Without filters every map of the mode passes. Once all filters are taken
/// back, none is in use and every map passes.
pub proof fn law_no_filters(f: BeatmapFilters, map: LocalBeatmap)
    requires
        is_full(f),
    ensures
        filters_match(f, map) == mode_matches(f.mode, map.mode),
        f.mode == ModeFilter::Any ==> filters_match(f, map) && active_filters(f) == 0,
        active_filters(f) == one_if(f.mode != ModeFilter::Any),
        search_words(f) == mode_words(f.mode),
{
    lemma_blank();
    reveal(is_given);
    assert(search_words(f) =~= mode_words(f.mode));
}

/// Filters are combined: a map that one of them does not let through is not
/// shown, whatever the others say.
pub proof fn law_every_filter_counts(f: BeatmapFilters, map: LocalBeatmap)
    requires
        ({
            ||| !holds_words(map.artist@, f.artist@)
            ||| !holds_words(map.title@, f.title@)
            ||| !holds_words(map.creator@, f.mapper@)
            ||| !holds_words(map.version@, f.difficulty@)
            ||| !holds_words(map.tags@, f.tag@)
            ||| !length_within(
                map.length_seconds,
                bound_of(f.length_min),
                bound_of(f.length_max),
            )
            ||| !in_range(f.stars, map.stars)
            ||| !in_range(f.ar, map.ar)
            ||| !in_range(f.cs, map.cs)
            ||| !in_range(f.od, map.od)
            ||| !in_range(f.hp, map.hp)
            ||| !in_range(f.bpm, map.bpm)
            ||| !mode_matches(f.mode, map.mode)
        }),
    ensures
        !filters_match(f, map),
{
}

/// A map without a number passes no range that is switched on.
pub proof fn law_missing_numbers_never_match(range: RangeFilter)
    requires
        range.enabled,
    ensures
        !in_range(range, None),
{
}

/// A range that is switched on lets exactly the numbers through that are neither
/// below its lower end nor above its upper end. One that is switched off lets
/// everything through.
pub proof fn law_range_ends(range: RangeFilter, v: Real32)
    ensures
        !range.enabled ==> in_range(range, Some(v)) && in_range(range, None),
        range.enabled && v.below(range.min) ==> !in_range(range, Some(v)),
        range.enabled && range.max.below(v) ==> !in_range(range, Some(v)),
        range.enabled && v.nan() ==> !in_range(range, Some(v)),
        !v.nan() && !range.min.nan() && !range.max.nan() && !v.below(range.min) && !range.max.below(
            v,
        ) ==> in_range(range, Some(v)),
{
}

/// A narrower range lets nothing through that a wider one does not.
pub proof fn law_narrower_ranges(a: RangeFilter, b: RangeFilter, v: Option<Real32>)
    requires
        a.enabled,
        b.min.at_most(a.min),
        a.max.at_most(b.max),
        in_range(a, v),
    ensures
        in_range(b, v),
        v is Some,
{
}

/// The bounds of the length: each is kept by itself, a map without a length
/// passes only without bounds, and without bounds every map passes.
pub proof fn law_length_bounds(l: Real32, min: Real32, max: Real32)
    requires
        !l.nan() && !min.nan() && !max.nan(),
    ensures
        length_within(None, None, None) && length_within(Some(l), None, None),
        !length_within(None, Some(min), None) && !length_within(None, None, Some(max)),
        !length_within(None, Some(min), Some(max)),
        length_within(Some(l), Some(min), None) <==> !l.below(min),
        length_within(Some(l), None, Some(max)) <==> !max.below(l),
        length_within(Some(l), Some(min), Some(max)) <==> !l.below(min) && !max.below(l),
{
}

/// A bound counts where something is typed in that is a finite number, and
/// nothing else does.
pub proof fn law_typed_bounds(b: TypedBound)
    ensures
        trim_text(b.text@).len() == 0 ==> bound_of(b) is None && b.valid(),
        trim_text(b.text@).len() > 0 && b.value is Some && b.value->0.finite() ==> bound_of(b)
            == b.value && b.valid(),
        trim_text(b.text@).len() > 0 && (b.value is None || !b.value->0.finite()) ==> bound_of(
            b,
        ) is None && !b.valid(),
{
}

/// Every map passes where any mode may be; a map of a known mode passes one of
/// the other filters and no second one. A map that says nothing of its mode is
/// one for the standard mode.
pub proof fn law_modes_part_maps(filter: ModeFilter, mode: Option<u8>)
    ensures
        mode_matches(ModeFilter::Any, mode),
        filter == ModeFilter::Osu ==> (mode_matches(filter, mode) <==> mode is None || mode->0 == 0),
        filter == ModeFilter::Taiko ==> (mode_matches(filter, mode) <==> mode is Some && mode->0
            == 1),
        filter == ModeFilter::Catch ==> (mode_matches(filter, mode) <==> mode is Some && mode->0
            == 2),
        filter == ModeFilter::Mania ==> (mode_matches(filter, mode) <==> mode is Some && mode->0
            == 3),
        filter != ModeFilter::Any && mode_matches(filter, mode) ==> forall|other: ModeFilter|
            other != ModeFilter::Any && #[trigger] mode_matches(other, mode) ==> other == filter,
{
}

/// Words are found wherever they stand in a text, whatever the case and whatever
/// white space is around them, and nowhere else. Blank words are found in every
/// text.
pub proof fn law_words_are_found(text: Seq<char>, words: Seq<char>, a: Seq<char>, b: Seq<char>)
    ensures
        trim_text(words).len() == 0 ==> holds_words(text, words),
        full_lower(text) == a + full_lower(trim_text(words)) + b ==> holds_words(text, words),
        trim_text(words).len() > 0 && full_lower(text).len() < full_lower(trim_text(words)).len()
            ==> !holds_words(text, words),
        trim_text(words).len() > 0 && holds_words(text, words) ==> exists|x: Seq<char>, y: Seq<char>|
            full_lower(text) == #[trigger] (x + full_lower(trim_text(words)) + y),
{
    let t = full_lower(text);
    let w = full_lower(trim_text(words));
    if t == a + w + b {
        assert(t.subrange(a.len() as int, (a.len() + w.len()) as int) =~= w);
        assert(crate::text::occurs_at(t, w, a.len() as int));
    }
    if trim_text(words).len() > 0 && holds_words(text, words) {
        let i = choose|i: int| crate::text::occurs_at(t, w, i);
        let x = t.take(i);
        let y = t.skip(i + w.len());
        assert(t =~= x + w + y) by {
            assert forall|j: int| 0 <= j < t.len() implies t[j] == (x + w + y)[j] by {
                if i <= j < i + w.len() {
                    assert(t.subrange(i, i + w.len())[j - i] == t[j]);
                }
            }
        }
    }
}

/// A map that is shown has every number that a range asks for, within its ends;
/// its length is within the bounds, its mode is the wanted one, and each of its
/// texts holds the words that are asked of it.
pub proof fn law_shown_maps(f: BeatmapFilters, map: LocalBeatmap)
    requires
        filters_match(f, map),
    ensures
        f.stars.enabled ==> map.stars is Some && f.stars.min.at_most(map.stars->0)
            && map.stars->0.at_most(f.stars.max),
        f.ar.enabled ==> map.ar is Some && f.ar.min.at_most(map.ar->0) && map.ar->0.at_most(
            f.ar.max,
        ),
        f.cs.enabled ==> map.cs is Some && f.cs.min.at_most(map.cs->0) && map.cs->0.at_most(
            f.cs.max,
        ),
        f.od.enabled ==> map.od is Some && f.od.min.at_most(map.od->0) && map.od->0.at_most(
            f.od.max,
        ),
        f.hp.enabled ==> map.hp is Some && f.hp.min.at_most(map.hp->0) && map.hp->0.at_most(
            f.hp.max,
        ),
        f.bpm.enabled ==> map.bpm is Some && f.bpm.min.at_most(map.bpm->0) && map.bpm->0.at_most(
            f.bpm.max,
        ),
        bound_of(f.length_min) is Some ==> map.length_seconds is Some && bound_of(
            f.length_min,
        )->0.at_most(map.length_seconds->0),
        bound_of(f.length_max) is Some ==> map.length_seconds is Some
            && map.length_seconds->0.at_most(bound_of(f.length_max)->0),
        f.mode == ModeFilter::Osu ==> map.mode is None || map.mode == Some(0u8),
        f.mode == ModeFilter::Taiko ==> map.mode == Some(1u8),
        f.mode == ModeFilter::Catch ==> map.mode == Some(2u8),
        f.mode == ModeFilter::Mania ==> map.mode == Some(3u8),
        trim_text(f.artist@).len() > 0 ==> contains_text(
            full_lower(map.artist@),
            full_lower(trim_text(f.artist@)),
        ),
        trim_text(f.title@).len() > 0 ==> contains_text(
            full_lower(map.title@),
            full_lower(trim_text(f.title@)),
        ),
        trim_text(f.mapper@).len() > 0 ==> contains_text(
            full_lower(map.creator@),
            full_lower(trim_text(f.mapper@)),
        ),
        trim_text(f.difficulty@).len() > 0 ==> contains_text(
            full_lower(map.version@),
            full_lower(trim_text(f.difficulty@)),
        ),
        trim_text(f.tag@).len() > 0 ==> contains_text(
            full_lower(map.tags@),
            full_lower(trim_text(f.tag@)),
        ),
{
}

/// A map that every filter by itself lets through is shown: where it is not, one
/// of them stands against it.
pub proof fn law_hidden_maps(f: BeatmapFilters, map: LocalBeatmap)
    requires
        !filters_match(f, map),
    ensures
        ({
            ||| f.stars.enabled && !in_range(f.stars, map.stars)
            ||| f.ar.enabled && !in_range(f.ar, map.ar)
            ||| f.cs.enabled && !in_range(f.cs, map.cs)
            ||| f.od.enabled && !in_range(f.od, map.od)
            ||| f.hp.enabled && !in_range(f.hp, map.hp)
            ||| f.bpm.enabled && !in_range(f.bpm, map.bpm)
            ||| !length_within(map.length_seconds, bound_of(f.length_min), bound_of(f.length_max))
            ||| f.mode != ModeFilter::Any && !mode_matches(f.mode, map.mode)
            ||| trim_text(f.artist@).len() > 0 && !holds_words(map.artist@, f.artist@)
            ||| trim_text(f.title@).len() > 0 && !holds_words(map.title@, f.title@)
            ||| trim_text(f.mapper@).len() > 0 && !holds_words(map.creator@, f.mapper@)
            ||| trim_text(f.difficulty@).len() > 0 && !holds_words(map.version@, f.difficulty@)
            ||| trim_text(f.tag@).len() > 0 && !holds_words(map.tags@, f.tag@)
        }),
{
}

/// No filter counts as in use if and only if none is.
pub proof fn law_filters_in_use(f: BeatmapFilters)
    ensures
        active_filters(f) == 0 <==> ({
            &&& trim_text(f.artist@).len() == 0 && trim_text(f.title@).len() == 0
            &&& trim_text(f.mapper@).len() == 0 && trim_text(f.difficulty@).len() == 0
            &&& trim_text(f.tag@).len() == 0
            &&& !f.stars.enabled && !f.ar.enabled && !f.cs.enabled
            &&& !f.od.enabled && !f.hp.enabled && !f.bpm.enabled
            &&& bound_of(f.length_min) is None && bound_of(f.length_max) is None
            &&& f.mode == ModeFilter::Any
        }),
        active_filters(f) <= 13,
{
    reveal(is_given);
}

/// Switching on one range more makes the count one more.
pub proof fn law_one_more_range(f: BeatmapFilters, g: BeatmapFilters)
    requires
        ({
            ||| g == (BeatmapFilters { stars: g.stars, ..f }) && g.stars.enabled && !f.stars.enabled
            ||| g == (BeatmapFilters { ar: g.ar, ..f }) && g.ar.enabled && !f.ar.enabled
            ||| g == (BeatmapFilters { cs: g.cs, ..f }) && g.cs.enabled && !f.cs.enabled
            ||| g == (BeatmapFilters { od: g.od, ..f }) && g.od.enabled && !f.od.enabled
            ||| g == (BeatmapFilters { hp: g.hp, ..f }) && g.hp.enabled && !f.hp.enabled
            ||| g == (BeatmapFilters { bpm: g.bpm, ..f }) && g.bpm.enabled && !f.bpm.enabled
        }),
    ensures
        active_filters(g) == active_filters(f) + 1,
{
}

/// Of a range the words for a search say its lower end where that is above zero,
/// and its upper end where that is below the end of the scale; where neither is,
/// the lower end alone.
pub proof fn law_range_words(range: RangeFilter, key: Seq<char>, full_max: Real32)
    ensures
        !range.enabled ==> range_words(range, key, full_max).len() == 0,
        range.enabled ==> 1 <= range_words(range, key, full_max).len() <= 2,
        range.enabled ==> (range_words(range, key, full_max).contains(
            key + "<="@ + number_text(range.max),
        ) <==> range.max.below(full_max)),
        range.enabled ==> (range_words(range, key, full_max).contains(
            key + ">="@ + number_text(range.min),
        ) <==> (Real32 { bits: 0 }).below(range.min) || !range.max.below(full_max)),
{
    reveal_strlit("<=");
    reveal_strlit(">=");
    let words = range_words(range, key, full_max);
    let low = key + ">="@ + number_text(range.min);
    let high = key + "<="@ + number_text(range.max);
    assert(low[key.len() as int] == '>');
    assert(high[key.len() as int] == '<');
    if range.enabled {
        assert(words[0] == low || words[0] == high);
        if words.len() == 2 {
            assert(words[0] == low && words[1] == high);
        }
    }
}

/// A value for a search stands in quotes where it holds a space, a slash or a
/// quote, and only there.
pub proof fn law_quoted_values(s: Seq<char>)
    ensures
        !s.contains(' ') && !s.contains('/') && !s.contains('"') ==> quoted(s) == s,
        s.contains(' ') || s.contains('/') || s.contains('"') ==> quoted(s).len() >= s.len() + 2
            && quoted(s)[0] == '"' && quoted(s).last() == '"',
        !s.contains('"') ==> escaped(s) == s,
        !s.contains('"') && (s.contains(' ') || s.contains('/')) ==> quoted(s) == seq!['"'] + s
            + seq!['"'],
    decreases s.len(),
{
    reveal_strlit("\"");
    lemma_escaped_len(s);
    if !s.contains('"') {
        lemma_escaped_same(s);
        assert("\""@ + s + "\""@ =~= seq!['"'] + s + seq!['"']);
    }
}

proof fn lemma_escaped_len(s: Seq<char>)
    ensures
        escaped(s).len() >= s.len(),
    decreases s.len(),
{
    if s.len() > 0 {
        lemma_escaped_len(s.drop_last());
    }
}

proof fn lemma_escaped_same(s: Seq<char>)
    requires
        !s.contains('"'),
    ensures
        escaped(s) == s,
    decreases s.len(),
{
    if s.len() > 0 {
        assert(s.last() != '"') by {
            assert(s.contains(s[s.len() - 1]));
        }
        assert(!s.drop_last().contains('"'));
        lemma_escaped_same(s.drop_last());
        assert(s.drop_last().push(s.last()) =~= s);
    } else {
        assert(escaped(s) =~= s);
    }
}

/// In a value for a search every quote has a backslash before it, and nothing
/// else changes: the backslashes that are put in are as many as the quotes.
pub proof fn law_escaped_quotes(a: Seq<char>, b: Seq<char>)
    ensures
        escaped(a + b) == escaped(a) + escaped(b),
        escaped(seq!['"']) == seq!['\\', '"'],
        forall|c: char| c != '"' ==> #[trigger] escaped(seq![c]) == seq![c],
    decreases b.len(),
{
    reveal_with_fuel(escaped, 2);
    assert(seq!['"'].drop_last() =~= Seq::<char>::empty());
    assert(escaped(seq!['"']) =~= seq!['\\', '"']);
    assert forall|c: char| c != '"' implies #[trigger] escaped(seq![c]) == seq![c] by {
        assert(seq![c].drop_last() =~= Seq::<char>::empty());
        assert(escaped(seq![c]) =~= seq![c]);
    }
    if b.len() == 0 {
        assert(a + b =~= a);
        assert(escaped(a) + escaped(b) =~= escaped(a));
    } else {
        law_escaped_quotes(a, b.drop_last());
        assert((a + b).drop_last() =~= a + b.drop_last());
        assert(escaped(a + b) =~= escaped(a) + escaped(b));
    }
}

/// A search says every word that is asked for under the name of its field, the
/// bounds of the length and the mode.
pub proof fn law_search_words(f: BeatmapFilters)
    ensures
        trim_text(f.artist@).len() > 0 ==> search_words(f).contains(
            "artist"@ + "="@ + quoted(trim_text(f.artist@)),
        ),
        trim_text(f.title@).len() > 0 ==> search_words(f).contains(
            "title"@ + "="@ + quoted(trim_text(f.title@)),
        ),
        trim_text(f.mapper@).len() > 0 ==> search_words(f).contains(
            "creator"@ + "="@ + quoted(trim_text(f.mapper@)),
        ),
        trim_text(f.difficulty@).len() > 0 ==> search_words(f).contains(
            "difficulty"@ + "="@ + quoted(trim_text(f.difficulty@)),
        ),
        trim_text(f.tag@).len() > 0 ==> search_words(f).contains(
            "tag"@ + "="@ + quoted(trim_text(f.tag@)),
        ),
        bound_of(f.length_min) matches Some(b) ==> search_words(f).contains(
            "length"@ + ">="@ + number_text(b),
        ),
        bound_of(f.length_max) matches Some(b) ==> search_words(f).contains(
            "length"@ + "<="@ + number_text(b),
        ),
        f.mode == ModeFilter::Osu ==> search_words(f).contains("mode="@ + "osu"@),
        f.mode == ModeFilter::Taiko ==> search_words(f).contains("mode="@ + "taiko"@),
        f.mode == ModeFilter::Catch ==> search_words(f).contains("mode="@ + "catch"@),
        f.mode == ModeFilter::Mania ==> search_words(f).contains("mode="@ + "mania"@),
{
    let w1 = text_words("artist"@, f.artist@);
    let w2 = text_words("title"@, f.title@);
    let w3 = text_words("creator"@, f.mapper@);
    let w4 = text_words("difficulty"@, f.difficulty@);
    let w5 = text_words("tag"@, f.tag@);
    let w6 = length_words(">="@, bound_of(f.length_min));
    let w7 = length_words("<="@, bound_of(f.length_max));
    let w8 = range_words(f.stars, "stars"@, (Real32 { bits: STARS_MAX_BITS }));
    let w9 = range_words(f.ar, "ar"@, (Real32 { bits: AR_MAX_BITS }));
    let w10 = range_words(f.cs, "cs"@, (Real32 { bits: CS_MAX_BITS }));
    let w11 = range_words(f.od, "od"@, (Real32 { bits: OD_MAX_BITS }));
    let w12 = range_words(f.hp, "hp"@, (Real32 { bits: HP_MAX_BITS }));
    let w13 = range_words(f.bpm, "bpm"@, (Real32 { bits: BPM_MAX_BITS }));
    let w14 = mode_words(f.mode);
    let p2 = w1 + w2;
    let p3 = p2 + w3;
    let p4 = p3 + w4;
    let p5 = p4 + w5;
    let p6 = p5 + w6;
    let p7 = p6 + w7;
    let p8 = p7 + w8;
    let p9 = p8 + w9;
    let p10 = p9 + w10;
    let p11 = p10 + w11;
    let p12 = p11 + w12;
    let p13 = p12 + w13;
    lemma_words_of_both(w1, w2);
    lemma_words_of_both(p2, w3);
    lemma_words_of_both(p3, w4);
    lemma_words_of_both(p4, w5);
    lemma_words_of_both(p5, w6);
    lemma_words_of_both(p6, w7);
    lemma_words_of_both(p7, w8);
    lemma_words_of_both(p8, w9);
    lemma_words_of_both(p9, w10);
    lemma_words_of_both(p10, w11);
    lemma_words_of_both(p11, w12);
    lemma_words_of_both(p12, w13);
    lemma_words_of_both(p13, w14);
    assert(search_words(f) == p13 + w14);
    lemma_text_words("artist"@, f.artist@);
    lemma_text_words("title"@, f.title@);
    lemma_text_words("creator"@, f.mapper@);
    lemma_text_words("difficulty"@, f.difficulty@);
    lemma_text_words("tag"@, f.tag@);
    lemma_length_words(">="@, bound_of(f.length_min));
    lemma_length_words("<="@, bound_of(f.length_max));
    if f.mode != ModeFilter::Any {
        assert(w14.contains(w14[0]));
    }
}

proof fn lemma_text_words(key: Seq<char>, value: Seq<char>)
    ensures
        trim_text(value).len() > 0 ==> text_words(key, value).contains(
            key + "="@ + quoted(trim_text(value)),
        ),
{
    if trim_text(value).len() > 0 {
        assert(text_words(key, value)[0] == key + "="@ + quoted(trim_text(value)));
    }
}

proof fn lemma_length_words(op: Seq<char>, bound: Option<Real32>)
    ensures
        bound matches Some(b) ==> length_words(op, bound).contains(
            "length"@ + op + number_text(b),
        ),
{
    if bound is Some {
        assert(length_words(op, bound)[0] == "length"@ + op + number_text(bound->0));
    }
}

proof fn lemma_words_of_both(a: Seq<Seq<char>>, b: Seq<Seq<char>>)
    ensures
        forall|w: Seq<char>| a.contains(w) || b.contains(w) ==> #[trigger] (a + b).contains(w),
{
    assert forall|w: Seq<char>| a.contains(w) || b.contains(w) implies #[trigger] (a
        + b).contains(w) by {
        if a.contains(w) {
            let i = choose|i: int| 0 <= i < a.len() && a[i] == w;
            assert((a + b)[i] == w);
        } else {
            let i = choose|i: int| 0 <= i < b.len() && b[i] == w;
            assert((a + b)[a.len() + i] == w);
        }
    }
}

} // verus!
