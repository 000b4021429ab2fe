//! The texts that maps, modes, numbers and the course of the work are shown
//! as, and the choice of the maps to show or to delete.
use crate::local::LocalBeatmap;
use crate::measure::Real32;
#[allow(unused_imports)]
use crate::number::{decimal, is_digit, pad_front};
use crate::number::{decimal_text, decimal_usize, pad};
#[allow(unused_imports)]
use crate::query::{bound_of, filters_match, number_text};
use crate::query::{trim_number, BeatmapFilters, ModeFilter};
use crate::text::{chars_of, join, join2, join3};
#[allow(unused_imports)]
use crate::text::{join_texts, texts};
use vstd::prelude::*;
use vstd::string::*;

verus! {

// ---- modes ----

/// The kinds of maps by mode.
#[derive(Clone, Copy, Debug, PartialEq, Eq, Structural)]
pub enum ModeKind {
    Std,
    Taiko,
    Catch,
    Mania,
    Unknown,
}

/// The kind of a mode. No mode means the standard one.
pub open spec fn kind_of(mode: Option<u8>) -> ModeKind {
    match mode {
        None => ModeKind::Std,
        Some(m) => if m == 0 {
            ModeKind::Std
        } else if m == 1 {
            ModeKind::Taiko
        } else if m == 2 {
            ModeKind::Catch
        } else if m == 3 {
            ModeKind::Mania
        } else {
            ModeKind::Unknown
        },
    }
}

/// The kind of a mode.
pub fn mode_kind(mode: Option<u8>) -> (r: ModeKind)
    ensures
        r == kind_of(mode),
{
    match mode {
        None => ModeKind::Std,
        Some(m) => if m == 0 {
            ModeKind::Std
        } else if m == 1 {
            ModeKind::Taiko
        } else if m == 2 {
            ModeKind::Catch
        } else if m == 3 {
            ModeKind::Mania
        } else {
            ModeKind::Unknown
        },
    }
}

/// The name of a mode.
pub fn mode_label(mode: Option<u8>) -> (r: &'static str)
    ensures
        r@ == (match kind_of(mode) {
            ModeKind::Std => "osu!std"@,
            ModeKind::Taiko => "Taiko"@,
            ModeKind::Catch => "Catch"@,
            ModeKind::Mania => "Mania"@,
            ModeKind::Unknown => "Unknown"@,
        }),
{
    match mode_kind(mode) {
        ModeKind::Std => "osu!std",
        ModeKind::Taiko => "Taiko",
        ModeKind::Catch => "Catch",
        ModeKind::Mania => "Mania",
        ModeKind::Unknown => "Unknown",
    }
}

/// How many maps there are of each kind.
#[derive(Clone, Copy, Debug, PartialEq, Eq, Structural)]
pub struct ModeCounts {
    pub std: usize,
    pub taiko: usize,
    pub catch: usize,
    pub mania: usize,
    pub unknown: usize,
    pub with_mode_field: usize,
    pub total: usize,
}

/// How many maps are of a kind.
pub open spec fn maps_of_kind(maps: Seq<LocalBeatmap>, kind: ModeKind) -> nat
    decreases maps.len(),
{
    if maps.len() == 0 {
        0
    } else {
        maps_of_kind(maps.drop_last(), kind) + (if kind_of(maps.last().mode) == kind {
            1nat
        } else {
            0
        })
    }
}

/// How many maps declare a mode.
pub open spec fn maps_with_field(maps: Seq<LocalBeatmap>) -> nat
    decreases maps.len(),
{
    if maps.len() == 0 {
        0
    } else {
        maps_with_field(maps.drop_last()) + (if maps.last().has_mode_field {
            1nat
        } else {
            0
        })
    }
}

/// Counts the maps of each kind.
pub fn count_modes(maps: &Vec<LocalBeatmap>) -> (r: ModeCounts)
    ensures
        r.std == maps_of_kind(maps@, ModeKind::Std),
        r.taiko == maps_of_kind(maps@, ModeKind::Taiko),
        r.catch == maps_of_kind(maps@, ModeKind::Catch),
        r.mania == maps_of_kind(maps@, ModeKind::Mania),
        r.unknown == maps_of_kind(maps@, ModeKind::Unknown),
        r.with_mode_field == maps_with_field(maps@),
        r.total == maps@.len(),
{
    let n: usize = maps.len();
    let mut r = ModeCounts {
        std: 0,
        taiko: 0,
        catch: 0,
        mania: 0,
        unknown: 0,
        with_mode_field: 0,
        total: n,
    };
    let mut i: usize = 0;
    while i < n
        invariant
            i <= n,
            n == maps@.len(),
            r.std == maps_of_kind(maps@.take(i as int), ModeKind::Std) <= i,
            r.taiko == maps_of_kind(maps@.take(i as int), ModeKind::Taiko) <= i,
            r.catch == maps_of_kind(maps@.take(i as int), ModeKind::Catch) <= i,
            r.mania == maps_of_kind(maps@.take(i as int), ModeKind::Mania) <= i,
            r.unknown == maps_of_kind(maps@.take(i as int), ModeKind::Unknown) <= i,
            r.with_mode_field == maps_with_field(maps@.take(i as int)) <= i,
            r.total == maps@.len(),
        decreases n - i,
    {
        assert(maps@.take(i as int + 1).drop_last() =~= maps@.take(i as int));
        if maps[i].has_mode_field {
            r.with_mode_field = r.with_mode_field + 1;
        }
        match mode_kind(maps[i].mode) {
            ModeKind::Std => r.std = r.std + 1,
            ModeKind::Taiko => r.taiko = r.taiko + 1,
            ModeKind::Catch => r.catch = r.catch + 1,
            ModeKind::Mania => r.mania = r.mania + 1,
            ModeKind::Unknown => r.unknown = r.unknown + 1,
        }
        i = i + 1;
    }
    assert(maps@.take(i as int) =~= maps@);
    r
}

/// Every map is of one kind: the counts add up to all maps.
pub proof fn law_modes_add_up(maps: Seq<LocalBeatmap>)
    ensures
        maps_of_kind(maps, ModeKind::Std) + maps_of_kind(maps, ModeKind::Taiko) + maps_of_kind(
            maps,
            ModeKind::Catch,
        ) + maps_of_kind(maps, ModeKind::Mania) + maps_of_kind(maps, ModeKind::Unknown)
            == maps.len(),
    decreases maps.len(),
{
    if maps.len() > 0 {
        law_modes_add_up(maps.drop_last());
    }
}

/// The modes whose maps are to be deleted.
#[derive(Clone, Copy, Debug, PartialEq, Eq, Structural)]
pub struct DeleteModeSelection {
    pub taiko: bool,
    pub catch: bool,
    pub mania: bool,
}

/// Whether the maps of a mode are to be deleted.
pub open spec fn mode_chosen(selection: DeleteModeSelection, mode: Option<u8>) -> bool {
    match kind_of(mode) {
        ModeKind::Taiko => selection.taiko,
        ModeKind::Catch => selection.catch,
        ModeKind::Mania => selection.mania,
        _ => false,
    }
}

/// How many maps are to be deleted.
pub open spec fn chosen_count(selection: DeleteModeSelection, maps: Seq<LocalBeatmap>) -> nat
    decreases maps.len(),
{
    if maps.len() == 0 {
        0
    } else {
        chosen_count(selection, maps.drop_last()) + (if mode_chosen(selection, maps.last().mode) {
            1nat
        } else {
            0
        })
    }
}

impl DeleteModeSelection {
    /// Whether a mode is chosen.
    pub fn any(&self) -> (r: bool)
        ensures
            r == (self.taiko || self.catch || self.mania),
    {
        self.taiko || self.catch || self.mania
    }

    /// Whether the maps of a mode are to be deleted.
    pub fn matches(&self, mode: Option<u8>) -> (r: bool)
        ensures
            r == mode_chosen(*self, mode),
    {
        match mode_kind(mode) {
            ModeKind::Taiko => self.taiko,
            ModeKind::Catch => self.catch,
            ModeKind::Mania => self.mania,
            _ => false,
        }
    }

    /// How many maps are to be deleted.
    pub fn count(&self, maps: &Vec<LocalBeatmap>) -> (r: usize)
        ensures
            r == chosen_count(*self, maps@),
    {
        let n: usize = maps.len();
        let mut r: usize = 0;
        let mut i: usize = 0;
        while i < n
            invariant
                i <= n,
                n == maps@.len(),
                r == chosen_count(*self, maps@.take(i as int)),
                r <= i,
            decreases n - i,
        {
            assert(maps@.take(i as int + 1).drop_last() =~= maps@.take(i as int));
            if self.matches(maps[i].mode) {
                r = r + 1;
            }
            i = i + 1;
        }
        assert(maps@.take(i as int) =~= maps@);
        r
    }
}

/// Whether a map is for the standard mode.
pub open spec fn is_std(map: LocalBeatmap) -> bool {
    kind_of(map.mode) == ModeKind::Std
}

/// Whether a map is for the standard mode.
pub fn is_osu_std(map: &LocalBeatmap) -> (r: bool)
    ensures
        r == is_std(*map),
{
    mode_kind(map.mode) == ModeKind::Std
}

/// A map of the standard mode is never among those to be deleted.
pub proof fn law_std_maps_are_never_deleted(selection: DeleteModeSelection, map: LocalBeatmap)
    requires
        is_std(map),
    ensures
        !mode_chosen(selection, map.mode),
{
}

/// Whether a map is shown.
pub open spec fn visible(filters: BeatmapFilters, only_osu_std: bool, map: LocalBeatmap) -> bool {
    (!only_osu_std || is_std(map)) && filters_match(filters, map)
}

/// Whether a map is shown.
pub fn matches_visible_filters(
    filters: &BeatmapFilters,
    only_osu_std: bool,
    map: &LocalBeatmap,
) -> (r: bool)
    ensures
        r == visible(*filters, only_osu_std, *map),
{
    (!only_osu_std || is_osu_std(map)) && filters.matches_local(map)
}

/// How many maps are shown.
pub open spec fn visible_count(
    filters: BeatmapFilters,
    only_osu_std: bool,
    maps: Seq<LocalBeatmap>,
) -> nat
    decreases maps.len(),
{
    if maps.len() == 0 {
        0
    } else {
        visible_count(filters, only_osu_std, maps.drop_last()) + (if visible(
            filters,
            only_osu_std,
            maps.last(),
        ) {
            1nat
        } else {
            0
        })
    }
}

/// How many maps are shown.
pub fn count_visible(
    filters: &BeatmapFilters,
    only_osu_std: bool,
    maps: &Vec<LocalBeatmap>,
) -> (r: usize)
    ensures
        r == visible_count(*filters, only_osu_std, maps@),
        r <= maps@.len(),
{
    let n: usize = maps.len();
    let mut r: usize = 0;
    let mut i: usize = 0;
    while i < n
        invariant
            i <= n,
            n == maps@.len(),
            r == visible_count(*filters, only_osu_std, maps@.take(i as int)),
            r <= i,
        decreases n - i,
    {
        assert(maps@.take(i as int + 1).drop_last() =~= maps@.take(i as int));
        if matches_visible_filters(filters, only_osu_std, &maps[i]) {
            r = r + 1;
        }
        i = i + 1;
    }
    assert(maps@.take(i as int) =~= maps@);
    r
}

/// The places of the maps that are shown, in order.
pub open spec fn visible_places(
    filters: BeatmapFilters,
    only_osu_std: bool,
    maps: Seq<LocalBeatmap>,
) -> Seq<usize>
    decreases maps.len(),
{
    if maps.len() == 0 {
        seq![]
    } else {
        let rest = visible_places(filters, only_osu_std, maps.drop_last());
        if visible(filters, only_osu_std, maps.last()) {
            rest.push((maps.len() - 1) as usize)
        } else {
            rest
        }
    }
}

/// The places of the maps that are shown.
pub fn filter_maps(
    filters: &BeatmapFilters,
    only_osu_std: bool,
    maps: &Vec<LocalBeatmap>,
) -> (r: Vec<usize>)
    ensures
        r@ == visible_places(*filters, only_osu_std, maps@),
{
    let n: usize = maps.len();
    let mut r: Vec<usize> = Vec::new();
    let mut i: usize = 0;
    while i < n
        invariant
            i <= n,
            n == maps@.len(),
            r@ == visible_places(*filters, only_osu_std, maps@.take(i as int)),
        decreases n - i,
    {
        assert(maps@.take(i as int + 1).drop_last() =~= maps@.take(i as int));
        if matches_visible_filters(filters, only_osu_std, &maps[i]) {
            r.push(i);
        }
        i = i + 1;
    }
    assert(maps@.take(i as int) =~= maps@);
    r
}

/// The maps that are shown are those that every filter lets through: each is
/// listed once, in the order of the maps, and no other is listed.
pub proof fn law_visible_places(filters: BeatmapFilters, only_osu_std: bool, maps: Seq<LocalBeatmap>)
    requires
        maps.len() <= usize::MAX,
    ensures
        visible_places(filters, only_osu_std, maps).len() == visible_count(
            filters,
            only_osu_std,
            maps,
        ),
        forall|k: int|
            0 <= k < visible_places(filters, only_osu_std, maps).len() ==> {
                let p = #[trigger] visible_places(filters, only_osu_std, maps)[k];
                p < maps.len() && visible(filters, only_osu_std, maps[p as int])
            },
        forall|k: int, l: int|
            0 <= k < l < visible_places(filters, only_osu_std, maps).len()
                ==> #[trigger] visible_places(filters, only_osu_std, maps)[k]
                < #[trigger] visible_places(filters, only_osu_std, maps)[l],
        forall|i: int|
            0 <= i < maps.len() && visible(filters, only_osu_std, #[trigger] maps[i])
                ==> visible_places(filters, only_osu_std, maps).contains(i as usize),
    decreases maps.len(),
{
    if maps.len() > 0 {
        let before = maps.drop_last();
        law_visible_places(filters, only_osu_std, before);
        let rest = visible_places(filters, only_osu_std, before);
        let all = visible_places(filters, only_osu_std, maps);
        assert forall|k: int| 0 <= k < all.len() implies {
            let p = #[trigger] all[k];
            p < maps.len() && visible(filters, only_osu_std, maps[p as int])
        } by {
            if k < rest.len() {
                assert(all[k] == rest[k]);
                assert(before[rest[k] as int] == maps[rest[k] as int]);
            }
        }
        assert forall|k: int, l: int| 0 <= k < l < all.len() implies #[trigger] all[k]
            < #[trigger] all[l] by {
            assert(all[k] == rest[k]);
            if l < rest.len() {
                assert(all[l] == rest[l]);
            }
        }
        assert forall|i: int|
            0 <= i < maps.len() && visible(
                filters,
                only_osu_std,
                #[trigger] maps[i],
            ) implies all.contains(i as usize) by {
            if i < before.len() {
                assert(before[i] == maps[i]);
                let k = rest.index_of(i as usize);
                assert(rest[k] == i as usize);
                assert(all[k] == i as usize);
            } else {
                assert(all[all.len() - 1] == i as usize);
            }
        }
    }
}

// ---- numbers ----

/// The text of a length of whole seconds: minutes, and seconds in two digits.
pub open spec fn duration_text(seconds: nat) -> Seq<char> {
    decimal(seconds / 60) + ":"@ + pad_front(decimal(seconds % 60), '0', 2)
}

/// The text of a length of whole seconds.
pub fn format_duration(seconds: u32) -> (r: String)
    ensures
        r@ == duration_text(seconds as nat),
{
    join3(
        &decimal_text((seconds / 60) as u64),
        ":",
        &pad(&decimal_text((seconds % 60) as u64), '0', 2),
    )
}

/// The text of a number that is rounded to hundredths.
pub fn format_number(rounded: Real32) -> (r: String)
    ensures
        r@ == number_text(rounded),
{
    trim_number(rounded)
}

/// The text of a number that may be missing.
pub fn optional_number(rounded: Option<Real32>) -> (r: String)
    ensures
        r@ == (match rounded {
            Some(v) => number_text(v),
            None => "\u{2014}"@,
        }),
{
    match rounded {
        Some(v) => format_number(v),
        None => "\u{2014}".to_owned(),
    }
}

/// A part of a text that holds only digits, or none.
#[derive(Debug)]
pub struct TextChunk {
    pub text: String,
    pub is_number: bool,
}

/// The view of a [`TextChunk`].
#[verifier::ext_equal]
pub struct ChunkView {
    pub text: Seq<char>,
    pub is_number: bool,
}

/// The views of chunks.
pub open spec fn chunks_view(v: Seq<TextChunk>) -> Seq<ChunkView> {
    Seq::new(v.len(), |i: int| ChunkView { text: v[i].text@, is_number: v[i].is_number })
}

/// The texts of chunks, one after the other.
pub open spec fn chunks_text(chunks: Seq<ChunkView>) -> Seq<char>
    decreases chunks.len(),
{
    if chunks.len() == 0 {
        seq![]
    } else {
        chunks_text(chunks.drop_last()) + chunks.last().text
    }
}

/// Whether a chunk is not empty and holds digits only, or none.
pub open spec fn is_chunk(chunk: ChunkView) -> bool {
    chunk.text.len() > 0 && forall|i: int|
        0 <= i < chunk.text.len() ==> is_digit(#[trigger] chunk.text[i]) == chunk.is_number
}

/// Whether numbers and other texts take turns.
pub open spec fn alternating(chunks: Seq<ChunkView>) -> bool {
    forall|i: int, j: int|
        0 <= i < chunks.len() && j == i + 1 && j < chunks.len() ==> (
        #[trigger] chunks[i]).is_number != (#[trigger] chunks[j]).is_number
}

/// Whether a text is made of these chunks: the numbers in it, and what stands
/// between them.
pub open spec fn chunks_of(chunks: Seq<ChunkView>, text: Seq<char>) -> bool {
    &&& chunks_text(chunks) == text
    &&& forall|i: int| 0 <= i < chunks.len() ==> is_chunk(#[trigger] chunks[i])
    &&& alternating(chunks)
}

/// Parts a text into the numbers in it and what stands between them.
pub fn number_chunks(text: &str) -> (r: Vec<TextChunk>)
    ensures
        chunks_of(chunks_view(r@), text@),
{
    let cs: Vec<char> = chars_of(text);
    let mut r: Vec<TextChunk> = Vec::new();
    let mut chunk = String::new();
    let mut chunk_is_number = false;
    let mut i: usize = 0;
    assert(chunks_view(r@) =~= seq![]);
    assert(chunks_text(seq![]) + chunk@ =~= cs@.take(0));
    while i < cs.len()
        invariant
            i <= cs@.len(),
            cs@ == text@,
            chunks_text(chunks_view(r@)) + chunk@ == cs@.take(i as int),
            chunks_of(chunks_view(r@), chunks_text(chunks_view(r@))),
            chunk@.len() > 0 <==> i > 0,
            i == 0 ==> r@.len() == 0,
            forall|k: int|
                0 <= k < chunk@.len() ==> is_digit(#[trigger] chunk@[k]) == chunk_is_number,
            r@.len() > 0 ==> r@.last().is_number != chunk_is_number,
        decreases cs@.len() - i,
    {
        let c: char = cs[i];
        let is_number = '0' <= c && c <= '9';
        let ghost known = chunks_view(r@);
        let ghost part = chunk@;
        assert(cs@.take(i as int + 1) =~= cs@.take(i as int).push(c));
        if i > 0 && is_number != chunk_is_number {
            r.push(TextChunk { text: chunk, is_number: chunk_is_number });
            chunk = String::new();
            proof {
                let now = chunks_view(r@);
                let added = ChunkView { text: part, is_number: chunk_is_number };
                assert(now =~= known.push(added));
                assert(now.drop_last() =~= known);
                assert(chunks_text(now) + chunk@ =~= chunks_text(known) + part);
                assert forall|k: int| 0 <= k < now.len() implies is_chunk(#[trigger] now[k]) by {
                    if k < known.len() {
                        assert(now[k] == known[k]);
                    }
                }
                assert forall|k: int, l: int|
                    0 <= k < now.len() && l == k + 1 && l < now.len() implies (
                #[trigger] now[k]).is_number != (#[trigger] now[l]).is_number by {
                    assert(now[k] == known[k]);
                    if l < known.len() {
                        assert(now[l] == known[l]);
                    }
                }
            }
        }
        let ghost rest = chunk@;
        chunk.push(c);
        chunk_is_number = is_number;
        assert(chunks_text(chunks_view(r@)) + chunk@ =~= (chunks_text(chunks_view(r@))
            + rest).push(c));
        i = i + 1;
    }
    assert(cs@.take(i as int) =~= cs@);
    let ghost known = chunks_view(r@);
    let ghost part = chunk@;
    if i > 0 {
        r.push(TextChunk { text: chunk, is_number: chunk_is_number });
        proof {
            let now = chunks_view(r@);
            let added = ChunkView { text: part, is_number: chunk_is_number };
            assert(now =~= known.push(added));
            assert(now.drop_last() =~= known);
            assert forall|k: int| 0 <= k < now.len() implies is_chunk(#[trigger] now[k]) by {
                if k < known.len() {
                    assert(now[k] == known[k]);
                }
            }
            assert forall|k: int, l: int|
                0 <= k < now.len() && l == k + 1 && l < now.len() implies (
            #[trigger] now[k]).is_number != (#[trigger] now[l]).is_number by {
                assert(now[k] == known[k]);
                if l < known.len() {
                    assert(now[l] == known[l]);
                }
            }
        }
    } else {
        assert(chunks_text(known) + part =~= chunks_text(known));
    }
    r
}

// ---- maps ----

/// The numbers of a map as they are shown: rounded to hundredths, and the
/// length in whole seconds.
#[derive(Clone, Copy, Debug, PartialEq, Eq, Structural)]
pub struct ShownNumbers {
    pub stars: Option<Real32>,
    pub ar: Option<Real32>,
    pub cs: Option<Real32>,
    pub od: Option<Real32>,
    pub hp: Option<Real32>,
    pub bpm: Option<Real32>,
    pub length: Option<u32>,
}

/// What a map can be searched by and labelled with.
#[derive(Clone, Copy, Debug, PartialEq, Eq, Structural)]
pub enum SearchField {
    StarRating,
    ApproachRate,
    CircleSize,
    OverallDifficulty,
    HpDrain,
    Bpm,
    Length,
    Circles,
    Sliders,
    Keys,
    Mode,
    Words,
}

/// A number between two texts, if there is a number.
pub open spec fn number_label(before: Seq<char>, v: Option<Real32>, behind: Seq<char>) -> Option<
    Seq<char>,
> {
    match v {
        Some(n) => Some(before + number_text(n) + behind),
        None => None,
    }
}

/// The text of a field of a map.
pub open spec fn field_label(map: LocalBeatmap, shown: ShownNumbers, field: SearchField) -> Option<
    Seq<char>,
> {
    match field {
        SearchField::StarRating => number_label("*"@, shown.stars, ""@),
        SearchField::ApproachRate => number_label("AR "@, shown.ar, ""@),
        SearchField::CircleSize => number_label("CS "@, shown.cs, ""@),
        SearchField::OverallDifficulty => number_label("OD "@, shown.od, ""@),
        SearchField::HpDrain => number_label("HP "@, shown.hp, ""@),
        SearchField::Bpm => number_label(""@, shown.bpm, " BPM"@),
        SearchField::Length => match shown.length {
            Some(seconds) => Some(duration_text(seconds as nat) + " length"@),
            None => None,
        },
        SearchField::Circles => Some(decimal(map.circles as nat) + " circles"@),
        SearchField::Sliders => Some(decimal(map.sliders as nat) + " sliders"@),
        SearchField::Keys => number_label(""@, shown.cs, "K"@),
        SearchField::Mode => match map.mode {
            Some(m) => Some("mode "@ + decimal(m as nat)),
            None => None,
        },
        SearchField::Words => None,
    }
}

fn labelled(before: &str, v: Option<Real32>, behind: &str) -> (r: Option<String>)
    ensures
        r is Some == v is Some,
        r matches Some(t) ==> Some(t@) == number_label(before@, v, behind@),
{
    match v {
        Some(n) => Some(join3(before, &format_number(n), behind)),
        None => None,
    }
}

/// The text of a field of a map, if the map has it.
pub fn label_value_for_field(map: &LocalBeatmap, shown: &ShownNumbers, field: SearchField) -> (r:
    Option<String>)
    ensures
        match r {
            Some(t) => field_label(*map, *shown, field) == Some(t@),
            None => field_label(*map, *shown, field) is None,
        },
{
    match field {
        SearchField::StarRating => labelled("*", shown.stars, ""),
        SearchField::ApproachRate => labelled("AR ", shown.ar, ""),
        SearchField::CircleSize => labelled("CS ", shown.cs, ""),
        SearchField::OverallDifficulty => labelled("OD ", shown.od, ""),
        SearchField::HpDrain => labelled("HP ", shown.hp, ""),
        SearchField::Bpm => labelled("", shown.bpm, " BPM"),
        SearchField::Length => match shown.length {
            Some(seconds) => Some(join2(&format_duration(seconds), " length")),
            None => None,
        },
        SearchField::Circles => Some(join2(&decimal_text(map.circles as u64), " circles")),
        SearchField::Sliders => Some(join2(&decimal_text(map.sliders as u64), " sliders")),
        SearchField::Keys => labelled("", shown.cs, "K"),
        SearchField::Mode => match map.mode {
            Some(m) => Some(join2("mode ", &decimal_text(m as u64))),
            None => None,
        },
        SearchField::Words => None,
    }
}

/// A field, if it is in use.
pub open spec fn field_if(used: bool, field: SearchField) -> Seq<SearchField> {
    if used {
        seq![field]
    } else {
        seq![]
    }
}

/// The fields that filters are in use for.
pub open spec fn fields_in_use(f: BeatmapFilters) -> Seq<SearchField> {
    field_if(f.stars.enabled, SearchField::StarRating) + field_if(
        f.ar.enabled,
        SearchField::ApproachRate,
    ) + field_if(f.cs.enabled, SearchField::CircleSize) + field_if(
        f.od.enabled,
        SearchField::OverallDifficulty,
    ) + field_if(f.hp.enabled, SearchField::HpDrain) + field_if(f.bpm.enabled, SearchField::Bpm)
        + field_if(
        bound_of(f.length_min) is Some || bound_of(f.length_max) is Some,
        SearchField::Length,
    ) + field_if(f.mode != ModeFilter::Any, SearchField::Mode)
}

fn add_field(fields: &mut Vec<SearchField>, used: bool, field: SearchField)
    ensures
        final(fields)@ == old(fields)@ + field_if(used, field),
{
    if used {
        fields.push(field);
    }
    assert(fields@ =~= old(fields)@ + field_if(used, field));
}

/// The fields that filters are in use for.
pub fn active_fields(f: &BeatmapFilters) -> (r: Vec<SearchField>)
    ensures
        r@ == fields_in_use(*f),
{
    let mut r: Vec<SearchField> = Vec::new();
    assert(r@ =~= seq![]);
    add_field(&mut r, f.stars.enabled, SearchField::StarRating);
    add_field(&mut r, f.ar.enabled, SearchField::ApproachRate);
    add_field(&mut r, f.cs.enabled, SearchField::CircleSize);
    add_field(&mut r, f.od.enabled, SearchField::OverallDifficulty);
    add_field(&mut r, f.hp.enabled, SearchField::HpDrain);
    add_field(&mut r, f.bpm.enabled, SearchField::Bpm);
    let length = f.length_min.parse_bound().is_some() || f.length_max.parse_bound().is_some();
    add_field(&mut r, length, SearchField::Length);
    add_field(&mut r, f.mode != ModeFilter::Any, SearchField::Mode);
    assert(r@ =~= fields_in_use(*f));
    r
}

/// The texts of the fields that a map has.
pub open spec fn field_labels(
    map: LocalBeatmap,
    shown: ShownNumbers,
    fields: Seq<SearchField>,
) -> Seq<Seq<char>>
    decreases fields.len(),
{
    if fields.len() == 0 {
        seq![]
    } else {
        let rest = field_labels(map, shown, fields.drop_last());
        match field_label(map, shown, fields.last()) {
            Some(t) => rest.push(t),
            None => rest,
        }
    }
}

/// The texts behind the title of a map: those of the fields in use, or else
/// the stars.
pub open spec fn result_fields(
    map: LocalBeatmap,
    shown: ShownNumbers,
    fields: Seq<SearchField>,
) -> Seq<Seq<char>> {
    let used = field_labels(map, shown, fields);
    if used.len() == 0 {
        field_labels(map, shown, seq![SearchField::StarRating])
    } else {
        used
    }
}

/// The text of a map in a list.
pub open spec fn result_label(
    map: LocalBeatmap,
    shown: ShownNumbers,
    fields: Seq<SearchField>,
) -> Seq<char> {
    let title = map.artist@ + " - "@ + map.title@;
    let behind = result_fields(map, shown, fields);
    if behind.len() == 0 {
        title
    } else {
        title + " ("@ + join_texts(behind, ", "@) + ")"@
    }
}

fn labels_for(map: &LocalBeatmap, shown: &ShownNumbers, fields: &Vec<SearchField>) -> (r: Vec<
    String,
>)
    ensures
        texts(r@) == field_labels(*map, *shown, fields@),
{
    let mut r: Vec<String> = Vec::new();
    let mut i: usize = 0;
    assert(texts(r@) =~= seq![]);
    while i < fields.len()
        invariant
            i <= fields@.len(),
            texts(r@) == field_labels(*map, *shown, fields@.take(i as int)),
        decreases fields@.len() - i,
    {
        assert(fields@.take(i as int + 1).drop_last() =~= fields@.take(i as int));
        let ghost before = texts(r@);
        if let Some(t) = label_value_for_field(map, shown, fields[i]) {
            r.push(t);
            assert(texts(r@) =~= before.push(t@));
        }
        i = i + 1;
    }
    assert(fields@.take(i as int) =~= fields@);
    r
}

/// The text of a map in a list, with the fields that filters are in use for.
pub fn map_result_label(map: &LocalBeatmap, shown: &ShownNumbers, filters: &BeatmapFilters) -> (r:
    String)
    ensures
        r@ == result_label(*map, *shown, fields_in_use(*filters)),
{
    let mut fields = labels_for(map, shown, &active_fields(filters));
    assert(texts(fields@).len() == fields@.len());
    if fields.len() == 0 {
        let mut stars: Vec<SearchField> = Vec::new();
        stars.push(SearchField::StarRating);
        assert(stars@ =~= seq![SearchField::StarRating]);
        fields = labels_for(map, shown, &stars);
    }
    assert(texts(fields@).len() == fields@.len());
    let title = join3(&map.artist, " - ", &map.title);
    if fields.len() == 0 {
        title
    } else {
        join2(&join3(&title, " (", &join(&fields, ", ")), ")")
    }
}

/// A text, if there is one.
pub open spec fn text_if(t: Option<Seq<char>>) -> Seq<Seq<char>> {
    match t {
        Some(s) => seq![s],
        None => seq![],
    }
}

/// The details of a map: who mapped it, its version, stars, tempo and length.
pub open spec fn details(map: LocalBeatmap, shown: ShownNumbers) -> Seq<Seq<char>> {
    seq!["mapped by "@ + map.creator@, map.version@] + text_if(
        number_label(""@, shown.stars, "\u{2605}"@),
    ) + text_if(number_label(""@, shown.bpm, " BPM"@)) + text_if(
        match shown.length {
            Some(seconds) => Some(duration_text(seconds as nat)),
            None => None,
        },
    )
}

/// The details of a map in one line.
pub fn compact_map_details(map: &LocalBeatmap, shown: &ShownNumbers) -> (r: String)
    ensures
        r@ == join_texts(details(*map, *shown), "  \u{b7}  "@),
{
    let mut parts: Vec<String> = Vec::new();
    parts.push(join2("mapped by ", &map.creator));
    parts.push(map.version.clone());
    assert(texts(parts@) =~= seq!["mapped by "@ + map.creator@, map.version@]);
    let ghost before = texts(parts@);
    if let Some(t) = labelled("", shown.stars, "\u{2605}") {
        parts.push(t);
    }
    assert(texts(parts@) =~= before + text_if(number_label(""@, shown.stars, "\u{2605}"@)));
    let ghost before = texts(parts@);
    if let Some(t) = labelled("", shown.bpm, " BPM") {
        parts.push(t);
    }
    assert(texts(parts@) =~= before + text_if(number_label(""@, shown.bpm, " BPM"@)));
    let ghost before = texts(parts@);
    if let Some(seconds) = shown.length {
        parts.push(format_duration(seconds));
    }
    assert(texts(parts@) =~= details(*map, *shown));
    join(&parts, "  \u{b7}  ")
}

// ---- the course of the work ----

/// The text on a scan that goes on.
pub open spec fn progress_text(scanned_maps: nat, matched_maps: nat) -> Seq<char> {
    "Maps read: "@ + pad_front(decimal(scanned_maps), ' ', 6) + " | Current filters: "@ + pad_front(
        decimal(matched_maps),
        ' ',
        6,
    )
}

/// The text on a scan that goes on: how many maps were read and how many of
/// them are shown, each at least six characters wide.
pub fn scan_progress_status(scanned_maps: usize, matched_maps: usize) -> (r: String)
    ensures
        r@ == progress_text(scanned_maps as nat, matched_maps as nat),
{
    join2(
        &join3(
            "Maps read: ",
            &pad(&decimal_usize(scanned_maps), ' ', 6),
            " | Current filters: ",
        ),
        &pad(&decimal_usize(matched_maps), ' ', 6),
    )
}

/// The label of a collection of `n` maps.
pub open spec fn collection_text(name: Seq<char>, n: nat) -> Seq<char> {
    name + " ("@ + decimal(n) + (if n == 1 {
        " map)"@
    } else {
        " maps)"@
    })
}

/// The label of a collection of `n` maps.
pub fn collection_label(name: &str, n: usize) -> (r: String)
    ensures
        r@ == collection_text(name@, n as nat),
{
    let count = join3(name, " (", &decimal_usize(n));
    if n == 1 {
        join2(&count, " map)")
    } else {
        join2(&count, " maps)")
    }
}

/// How many maps of a collection are listed.
pub const COLLECTION_ROWS: usize = 200;

/// How many maps of a collection of `n` are not listed.
pub fn rows_beyond(n: usize) -> (r: usize)
    ensures
        r == (if n > COLLECTION_ROWS {
            n - COLLECTION_ROWS
        } else {
            0
        }),
{
    n.saturating_sub(COLLECTION_ROWS)
}

/// What is to be confirmed before it is done.
#[derive(Debug)]
pub enum DeleteIntent {
    Collection(String),
    NonStdModes(usize),
    RestoreBackup,
}

/// A question before something is deleted or replaced.
#[derive(Debug)]
pub struct Confirmation {
    pub title: String,
    pub message: String,
    pub confirm_label: String,
}

/// The question before something is deleted or replaced.
pub fn confirmation(intent: &DeleteIntent) -> (r: Confirmation)
    ensures
        match *intent {
            DeleteIntent::Collection(name) => {
                &&& r.title@ == "Delete collection?"@
                &&& r.message@ == "Delete collection \""@ + name@ + "\"? This cannot be undone."@
                &&& r.confirm_label@ == "Delete"@
            },
            DeleteIntent::NonStdModes(count) => {
                &&& r.title@ == "Delete non-std maps?"@
                &&& r.message@ == "Permanently delete "@ + decimal(count as nat)
                    + " .osu file(s) from disk? This cannot be undone."@
                &&& r.confirm_label@ == "Delete files"@
            },
            DeleteIntent::RestoreBackup => {
                &&& r.title@ == "Restore collection backup?"@
                &&& r.message@
                    == "Restore collection.db from collection.db.bak? Collections saved since the last write will be lost."@
                &&& r.confirm_label@ == "Restore"@
            },
        },
{
    match intent {
        DeleteIntent::Collection(name) => Confirmation {
            title: "Delete collection?".to_owned(),
            message: join3("Delete collection \"", name, "\"? This cannot be undone."),
            confirm_label: "Delete".to_owned(),
        },
        DeleteIntent::NonStdModes(count) => Confirmation {
            title: "Delete non-std maps?".to_owned(),
            message: join3(
                "Permanently delete ",
                &decimal_usize(*count),
                " .osu file(s) from disk? This cannot be undone.",
            ),
            confirm_label: "Delete files".to_owned(),
        },
        DeleteIntent::RestoreBackup => Confirmation {
            title: "Restore collection backup?".to_owned(),
            message:
                "Restore collection.db from collection.db.bak? Collections saved since the last write will be lost.".to_owned(),
            confirm_label: "Restore".to_owned(),
        },
    }
}

// ---- what the counts and the labels say ----

/// The modes by their numbers: taiko is one, catch two, mania three; a map without
/// a mode, or with mode zero, is one for the standard mode.
pub proof fn law_mode_numbers(selection: DeleteModeSelection, map: LocalBeatmap)
    ensures
        is_std(map) <==> map.mode is None || map.mode->0 == 0,
        map.mode == Some(1u8) ==> (mode_chosen(selection, map.mode) <==> selection.taiko),
        map.mode == Some(2u8) ==> (mode_chosen(selection, map.mode) <==> selection.catch),
        map.mode == Some(3u8) ==> (mode_chosen(selection, map.mode) <==> selection.mania),
        map.mode is None || map.mode->0 == 0 || map.mode->0 > 3 ==> !mode_chosen(
            selection,
            map.mode,
        ),
{
}

/// One map more counts for its kind and no other, for the modes to delete where
/// its mode is chosen, and as shown where it is.
pub proof fn law_counts_grow(
    maps: Seq<LocalBeatmap>,
    map: LocalBeatmap,
    kind: ModeKind,
    selection: DeleteModeSelection,
    filters: BeatmapFilters,
    only_osu_std: bool,
)
    ensures
        maps_of_kind(seq![], kind) == 0 && maps_with_field(seq![]) == 0,
        chosen_count(selection, seq![]) == 0 && visible_count(filters, only_osu_std, seq![]) == 0,
        maps_of_kind(maps.push(map), kind) == maps_of_kind(maps, kind) + (if kind_of(map.mode)
            == kind {
            1int
        } else {
            0
        }),
        maps_with_field(maps.push(map)) == maps_with_field(maps) + (if map.has_mode_field {
            1int
        } else {
            0
        }),
        chosen_count(selection, maps.push(map)) == chosen_count(selection, maps) + (if (map.mode
            == Some(1u8) && selection.taiko) || (map.mode == Some(2u8) && selection.catch) || (
        map.mode == Some(3u8) && selection.mania) {
            1int
        } else {
            0
        }),
        visible_count(filters, only_osu_std, maps.push(map)) == visible_count(
            filters,
            only_osu_std,
            maps,
        ) + (if visible(filters, only_osu_std, map) {
            1int
        } else {
            0
        }),
{
    assert(maps.push(map).drop_last() =~= maps);
}

/// Where only the standard mode is shown, no map of another mode is; else the
/// filters alone decide.
pub proof fn law_only_standard(filters: BeatmapFilters, map: LocalBeatmap)
    ensures
        visible(filters, false, map) <==> filters_match(filters, map),
        visible(filters, true, map) <==> filters_match(filters, map) && (map.mode is None || map.mode
            == Some(0u8)),
{
}

/// A duration is its minutes, a colon and its seconds in two digits.
pub proof fn law_durations(minutes: nat, seconds: nat)
    requires
        seconds < 60,
    ensures
        seconds >= 10 ==> duration_text(60 * minutes + seconds) == decimal(minutes) + seq![':']
            + decimal(seconds),
        seconds < 10 ==> duration_text(60 * minutes + seconds) == decimal(minutes) + seq![':', '0']
            + decimal(seconds),
{
    reveal_strlit(":");
    let n = 60 * minutes + seconds;
    assert(n / 60 == minutes && n % 60 == seconds);
    reveal_with_fuel(decimal, 3);
    assert(":"@ =~= seq![':']);
    if seconds < 10 {
        let d = decimal(seconds);
        assert(d.len() == 1);
        assert(pad_front(d, '0', 2) =~= seq!['0'] + d);
        assert(duration_text(n) =~= decimal(minutes) + seq![':', '0'] + d);
    } else {
        assert(decimal(seconds).len() == 2);
    }
}

/// The fields that a result shows are those that a filter is set for, each once.
pub proof fn law_fields_in_use(f: BeatmapFilters, field: SearchField)
    ensures
        fields_in_use(f).contains(SearchField::StarRating) <==> f.stars.enabled,
        fields_in_use(f).contains(SearchField::ApproachRate) <==> f.ar.enabled,
        fields_in_use(f).contains(SearchField::CircleSize) <==> f.cs.enabled,
        fields_in_use(f).contains(SearchField::OverallDifficulty) <==> f.od.enabled,
        fields_in_use(f).contains(SearchField::HpDrain) <==> f.hp.enabled,
        fields_in_use(f).contains(SearchField::Bpm) <==> f.bpm.enabled,
        fields_in_use(f).contains(SearchField::Length) <==> bound_of(f.length_min) is Some
            || bound_of(f.length_max) is Some,
        fields_in_use(f).contains(SearchField::Mode) <==> f.mode != ModeFilter::Any,
        fields_in_use(f).no_duplicates(),
{
    let p1 = field_if(f.stars.enabled, SearchField::StarRating);
    let p2 = p1 + field_if(f.ar.enabled, SearchField::ApproachRate);
    let p3 = p2 + field_if(f.cs.enabled, SearchField::CircleSize);
    let p4 = p3 + field_if(f.od.enabled, SearchField::OverallDifficulty);
    let p5 = p4 + field_if(f.hp.enabled, SearchField::HpDrain);
    let p6 = p5 + field_if(f.bpm.enabled, SearchField::Bpm);
    let p7 = p6 + field_if(
        bound_of(f.length_min) is Some || bound_of(f.length_max) is Some,
        SearchField::Length,
    );
    let none = Seq::<SearchField>::empty();
    assert(none + p1 =~= p1);
    lemma_one_field_more(none, f.stars.enabled, SearchField::StarRating);
    lemma_one_field_more(p1, f.ar.enabled, SearchField::ApproachRate);
    lemma_one_field_more(p2, f.cs.enabled, SearchField::CircleSize);
    lemma_one_field_more(p3, f.od.enabled, SearchField::OverallDifficulty);
    lemma_one_field_more(p4, f.hp.enabled, SearchField::HpDrain);
    lemma_one_field_more(p5, f.bpm.enabled, SearchField::Bpm);
    lemma_one_field_more(
        p6,
        bound_of(f.length_min) is Some || bound_of(f.length_max) is Some,
        SearchField::Length,
    );
    lemma_one_field_more(p7, f.mode != ModeFilter::Any, SearchField::Mode);
}

proof fn lemma_one_field_more(front: Seq<SearchField>, used: bool, field: SearchField)
    ensures
        forall|x: SearchField| #[trigger]
            (front + field_if(used, field)).contains(x) <==> front.contains(x) || (used && x
                == field),
        front.no_duplicates() && !front.contains(field) ==> (front + field_if(
            used,
            field,
        )).no_duplicates(),
{
    let all = front + field_if(used, field);
    assert forall|x: SearchField| #[trigger] all.contains(x) <==> front.contains(x) || (used && x
        == field) by {
        if front.contains(x) {
            let i = choose|i: int| 0 <= i < front.len() && front[i] == x;
            assert(all[i] == x);
        }
        if used && x == field {
            assert(all[front.len() as int] == x);
        }
        if all.contains(x) {
            let i = choose|i: int| 0 <= i < all.len() && all[i] == x;
            if i < front.len() {
                assert(front[i] == x);
            }
        }
    }
    if front.no_duplicates() && !front.contains(field) {
        assert forall|i: int, j: int|
            0 <= i < all.len() && 0 <= j < all.len() && i != j implies all[i] != all[j] by {
            if i < front.len() {
                assert(front.contains(front[i]));
            }
            if j < front.len() {
                assert(front.contains(front[j]));
            }
        }
    }
}

/// Each field shows the number that it is named for, and nothing where the map
/// does not have it.
pub proof fn law_field_labels(map: LocalBeatmap, shown: ShownNumbers, n: Real32)
    ensures
        shown.stars == Some(n) ==> field_label(map, shown, SearchField::StarRating) == Some(
            "*"@ + number_text(n) + ""@,
        ),
        shown.ar == Some(n) ==> field_label(map, shown, SearchField::ApproachRate) == Some(
            "AR "@ + number_text(n) + ""@,
        ),
        shown.cs == Some(n) ==> field_label(map, shown, SearchField::CircleSize) == Some(
            "CS "@ + number_text(n) + ""@,
        ),
        shown.od == Some(n) ==> field_label(map, shown, SearchField::OverallDifficulty) == Some(
            "OD "@ + number_text(n) + ""@,
        ),
        shown.hp == Some(n) ==> field_label(map, shown, SearchField::HpDrain) == Some(
            "HP "@ + number_text(n) + ""@,
        ),
        shown.bpm == Some(n) ==> field_label(map, shown, SearchField::Bpm) == Some(
            ""@ + number_text(n) + " BPM"@,
        ),
        shown.stars is None ==> field_label(map, shown, SearchField::StarRating) is None,
        shown.bpm is None ==> field_label(map, shown, SearchField::Bpm) is None,
        shown.length is None ==> field_label(map, shown, SearchField::Length) is None,
        shown.length matches Some(s) ==> field_label(map, shown, SearchField::Length) == Some(
            duration_text(s as nat) + " length"@,
        ),
        map.mode matches Some(m) ==> field_label(map, shown, SearchField::Mode) == Some(
            "mode "@ + decimal(m as nat),
        ),
{
}

/// A result shows the title and, in brackets, the fields in use that the map has;
/// where it has none of them, its stars.
pub proof fn law_result_labels(
    map: LocalBeatmap,
    shown: ShownNumbers,
    fields: Seq<SearchField>,
    field: SearchField,
)
    ensures
        field_label(map, shown, field) is Some ==> field_labels(map, shown, fields.push(field))
            == field_labels(map, shown, fields).push(field_label(map, shown, field)->0),
        field_label(map, shown, field) is None ==> field_labels(map, shown, fields.push(field))
            == field_labels(map, shown, fields),
        result_fields(map, shown, fields).len() == 0 ==> result_label(map, shown, fields)
            == map.artist@ + " - "@ + map.title@,
        result_fields(map, shown, fields).len() > 0 ==> result_label(map, shown, fields)
            == map.artist@ + " - "@ + map.title@ + " ("@ + join_texts(
            result_fields(map, shown, fields),
            ", "@,
        ) + ")"@,
        field_labels(map, shown, fields).len() > 0 ==> result_fields(map, shown, fields)
            == field_labels(map, shown, fields),
        field_labels(map, shown, fields).len() == 0 && shown.stars is None ==> result_fields(
            map,
            shown,
            fields,
        ).len() == 0,
{
    assert(fields.push(field).drop_last() =~= fields);
    let one = seq![SearchField::StarRating];
    reveal_with_fuel(field_labels, 2);
    assert(one.drop_last() =~= Seq::<SearchField>::empty());
    assert(one.last() == SearchField::StarRating);
}

} // verus!
