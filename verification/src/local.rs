//! Local beatmaps: what a `.osu` file says, the sets that maps form, and the
//! files that a map lacks.
use crate::events::{header, split_event_line};
#[allow(unused_imports)]
use crate::events::{fields_of, is_header};
use crate::measure::Real32;
use crate::number::{parse_signed, parse_unsigned};
#[allow(unused_imports)]
use crate::number::{is_digit, parse_int, parse_nat};
use crate::order::{place, Place};
#[allow(unused_imports)]
use crate::order::{lemma_text_less_total, lemma_text_less_transitive, text_less};
use crate::text::{
    chars_of, join2, lines, same_text, split_on, split_once, starts_with, strip_ends, text_between,
    to_lower, trim, CharClass,
};
#[allow(unused_imports)]
use crate::text::{
    has_prefix, lines_text, lower_text, split_once_text, split_text, strip_both, texts, trim_text,
};
use crate::trusted::{lossy, md5_hex, path_extension};
#[allow(unused_imports)]
use crate::trusted::{lossy_text, may_have_extension, md5_text};
use vstd::prelude::*;
use vstd::string::*;

verus! {

/// A path: its text, the name of the file it ends with, and two keys. A key
/// holds the parts of a path, joined by NUL characters, so that two paths are
/// the same, or stand in order, as their keys do.
#[derive(Debug, PartialEq, Eq)]
pub struct FilePath {
    pub text: String,
    pub key: String,
    /// The last part, where it is a name in Unicode.
    pub file_name: Option<String>,
    /// The key of the folder that holds it.
    pub parent: Option<String>,
}

/// A copy of a string that may be missing.
pub fn copy_text(s: &Option<String>) -> (r: Option<String>)
    ensures
        r == *s,
{
    match s {
        Some(t) => Some(t.clone()),
        None => None,
    }
}

impl Clone for FilePath {
    fn clone(&self) -> (r: Self)
        ensures
            r == *self,
    {
        FilePath {
            text: self.text.clone(),
            key: self.key.clone(),
            file_name: copy_text(&self.file_name),
            parent: copy_text(&self.parent),
        }
    }
}

impl Default for FilePath {
    fn default() -> (r: Self)
        ensures
            r.text@ == ""@,
            r.key@ == ""@,
            r.file_name is None,
            r.parent is None,
    {
        FilePath { text: "".to_owned(), key: "".to_owned(), file_name: None, parent: None }
    }
}

/// A difficulty of a beatmap set.
#[derive(Debug, PartialEq, Eq)]
pub struct LocalBeatmap {
    pub path: FilePath,
    pub folder: FilePath,
    pub md5: String,
    pub beatmap_id: Option<i64>,
    pub beatmapset_id: Option<i64>,
    pub artist: String,
    pub title: String,
    pub source: String,
    pub creator: String,
    pub version: String,
    pub tags: String,
    pub audio_filename: Option<String>,
    pub background_filename: Option<String>,
    /// Whether the file has a `Mode` field at all.
    pub has_mode_field: bool,
    pub mode: Option<u8>,
    pub ar: Option<Real32>,
    pub cs: Option<Real32>,
    pub od: Option<Real32>,
    pub hp: Option<Real32>,
    pub stars: Option<Real32>,
    pub bpm: Option<Real32>,
    pub length_seconds: Option<Real32>,
    pub circles: u32,
    pub sliders: u32,
}

impl Clone for LocalBeatmap {
    fn clone(&self) -> (r: Self)
        ensures
            r == *self,
    {
        LocalBeatmap {
            path: self.path.clone(),
            folder: self.folder.clone(),
            md5: self.md5.clone(),
            beatmap_id: self.beatmap_id,
            beatmapset_id: self.beatmapset_id,
            artist: self.artist.clone(),
            title: self.title.clone(),
            source: self.source.clone(),
            creator: self.creator.clone(),
            version: self.version.clone(),
            tags: self.tags.clone(),
            audio_filename: copy_text(&self.audio_filename),
            background_filename: copy_text(&self.background_filename),
            has_mode_field: self.has_mode_field,
            mode: self.mode,
            ar: self.ar,
            cs: self.cs,
            od: self.od,
            hp: self.hp,
            stars: self.stars,
            bpm: self.bpm,
            length_seconds: self.length_seconds,
            circles: self.circles,
            sliders: self.sliders,
        }
    }
}

impl Default for LocalBeatmap {
    fn default() -> (r: Self)
        ensures
            r.path.key@ == ""@ && r.folder.key@ == ""@ && r.md5@ == ""@,
            r.path.file_name is None,
            r.beatmap_id is None && r.beatmapset_id is None,
            r.artist@ == ""@ && r.title@ == ""@ && r.source@ == ""@,
            r.creator@ == ""@ && r.version@ == ""@ && r.tags@ == ""@,
            r.audio_filename is None && r.background_filename is None,
            !r.has_mode_field && r.mode is None,
            r.ar is None && r.cs is None && r.od is None && r.hp is None,
            r.stars is None && r.bpm is None && r.length_seconds is None,
            r.circles == 0 && r.sliders == 0,
    {
        LocalBeatmap {
            path: FilePath::default(),
            folder: FilePath::default(),
            md5: "".to_owned(),
            beatmap_id: None,
            beatmapset_id: None,
            artist: "".to_owned(),
            title: "".to_owned(),
            source: "".to_owned(),
            creator: "".to_owned(),
            version: "".to_owned(),
            tags: "".to_owned(),
            audio_filename: None,
            background_filename: None,
            has_mode_field: false,
            mode: None,
            ar: None,
            cs: None,
            od: None,
            hp: None,
            stars: None,
            bpm: None,
            length_seconds: None,
            circles: 0,
            sliders: 0,
        }
    }
}

/// The label of a map: artist, title and version.
pub open spec fn map_label(map: LocalBeatmap) -> Seq<char> {
    map.artist@ + " - "@ + map.title@ + " ["@ + map.version@ + "]"@
}

impl LocalBeatmap {
    /// The label of the map: artist, title and version.
    pub fn label(&self) -> (r: String)
        ensures
            r@ == map_label(*self),
    {
        let mut r = self.artist.clone();
        r.append(" - ");
        r.append(&self.title);
        r.append(" [");
        r.append(&self.version);
        r.append("]");
        r
    }
}

/// The maps of one set in one folder.
#[derive(Debug)]
pub struct LocalBeatmapSet {
    pub beatmapset_id: Option<i64>,
    pub folder: FilePath,
    pub maps: Vec<LocalBeatmap>,
}

/// How bad an issue is.
#[derive(Clone, Copy, Debug, PartialEq, Eq, Structural)]
pub enum RepairSeverity {
    MissingRequiredFile,
    ParseWarning,
}

/// Something wrong with a beatmap file.
#[derive(Debug, PartialEq, Eq)]
pub struct RepairIssue {
    pub beatmap: FilePath,
    pub message: String,
    pub severity: RepairSeverity,
}

impl Clone for RepairIssue {
    fn clone(&self) -> (r: Self)
        ensures
            r == *self,
    {
        RepairIssue {
            beatmap: self.beatmap.clone(),
            message: self.message.clone(),
            severity: self.severity,
        }
    }
}

/// The result of a scan.
#[derive(Debug)]
pub struct LibraryScan {
    pub sets: Vec<LocalBeatmapSet>,
    pub maps: Vec<LocalBeatmap>,
    pub problems: Vec<RepairIssue>,
}

impl Default for LibraryScan {
    fn default() -> (r: Self)
        ensures
            r.sets@.len() == 0,
            r.maps@.len() == 0,
            r.problems@.len() == 0,
    {
        LibraryScan { sets: Vec::new(), maps: Vec::new(), problems: Vec::new() }
    }
}

// ---- lines of a `.osu` file ----

/// Whether a trimmed line is neither empty, nor a comment, nor a header.
pub open spec fn is_content(line: Seq<char>) -> bool {
    line.len() > 0 && !has_prefix(line, "//"@) && !is_header(line)
}

/// The section that a line behind `all` stands in: the name in the last
/// header, as written.
pub open spec fn section_behind(all: Seq<Seq<char>>) -> Seq<char>
    decreases all.len(),
{
    if all.len() == 0 {
        ""@
    } else {
        let t = trim_text(all.last());
        if t.len() > 0 && !has_prefix(t, "//"@) && is_header(t) {
            t.subrange(1, t.len() - 1)
        } else {
            section_behind(all.drop_last())
        }
    }
}

/// Whether the last line of `all` is a content line of the section `name`.
pub open spec fn content_of(all: Seq<Seq<char>>, name: Seq<char>) -> bool {
    is_content(trim_text(all.last())) && section_behind(all.drop_last()) == name
}

/// The key and the value that a content line sets.
pub open spec fn key_value(line: Seq<char>) -> Option<(Seq<char>, Seq<char>)> {
    match split_once_text(line, ':') {
        Some((k, v)) => Some((trim_text(k), trim_text(v))),
        None => None,
    }
}

/// The value that the last content line with the key `key` sets.
pub open spec fn osu_value(all: Seq<Seq<char>>, key: Seq<char>) -> Option<Seq<char>>
    decreases all.len(),
{
    if all.len() == 0 {
        None
    } else {
        let t = trim_text(all.last());
        match key_value(t) {
            Some((k, v)) => if is_content(t) && k == key {
                Some(v)
            } else {
                osu_value(all.drop_last(), key)
            },
            None => osu_value(all.drop_last(), key),
        }
    }
}

/// Whether an event line sets the background: its first field is `0` or
/// `background`.
pub open spec fn background_event(line: Seq<char>) -> bool {
    let head = lower_text(trim_text(split_text(line, ',')[0]));
    head == "0"@ || head == "background"@
}

/// The third field of an event line.
pub open spec fn third_field(line: Seq<char>) -> Option<Seq<char>> {
    if fields_of(line).len() > 2 {
        Some(fields_of(line)[2])
    } else {
        None
    }
}

/// The third field of the last background event.
pub open spec fn background_field(all: Seq<Seq<char>>) -> Option<Seq<char>>
    decreases all.len(),
{
    if all.len() == 0 {
        None
    } else if content_of(all, "Events"@) && background_event(trim_text(all.last())) {
        third_field(trim_text(all.last()))
    } else {
        background_field(all.drop_last())
    }
}

/// The second field of a timing point.
pub open spec fn beat_length_field(line: Seq<char>) -> Option<Seq<char>> {
    if split_text(line, ',').len() > 1 {
        Some(split_text(line, ',')[1])
    } else {
        None
    }
}

/// The second fields of the timing points, in order.
pub open spec fn beat_length_fields(all: Seq<Seq<char>>) -> Seq<Seq<char>>
    decreases all.len(),
{
    if all.len() == 0 {
        seq![]
    } else {
        let rest = beat_length_fields(all.drop_last());
        if content_of(all, "TimingPoints"@) {
            match beat_length_field(trim_text(all.last())) {
                Some(f) => rest.push(f),
                None => rest,
            }
        } else {
            rest
        }
    }
}

/// The time and the type of a hit object: its third and fourth field.
pub open spec fn hit_object(line: Seq<char>) -> Option<(int, int)> {
    let fields = split_text(line, ',');
    if fields.len() < 4 {
        None
    } else {
        match (
            parse_int(fields[2], i32::MIN as int, i32::MAX as int),
            parse_int(fields[3], i32::MIN as int, i32::MAX as int),
        ) {
            (Some(time), Some(kind)) => Some((time, kind)),
            _ => None,
        }
    }
}

/// The hit object in the last line of `all`, if it is one.
pub open spec fn last_hit_object(all: Seq<Seq<char>>) -> Option<(int, int)> {
    if content_of(all, "HitObjects"@) {
        hit_object(trim_text(all.last()))
    } else {
        None
    }
}

/// The latest time of a hit object.
pub open spec fn last_time(all: Seq<Seq<char>>) -> Option<int>
    decreases all.len(),
{
    if all.len() == 0 {
        None
    } else {
        match (last_hit_object(all), last_time(all.drop_last())) {
            (Some((time, kind)), Some(before)) => Some(
                if before > time {
                    before
                } else {
                    time
                },
            ),
            (Some((time, kind)), None) => Some(time),
            (None, before) => before,
        }
    }
}

/// Whether the type of a hit object has the bit `bit` set.
pub open spec fn has_bit(kind: int, bit: i32) -> bool {
    (kind as i32) & bit != 0
}

/// How many hit objects have the bit `bit` set in their type.
pub open spec fn count_objects(all: Seq<Seq<char>>, bit: i32) -> nat
    decreases all.len(),
{
    if all.len() == 0 {
        0
    } else {
        let rest = count_objects(all.drop_last(), bit);
        match last_hit_object(all) {
            Some((time, kind)) => if has_bit(kind, bit) {
                rest + 1
            } else {
                rest
            },
            None => rest,
        }
    }
}

/// Whether a value in double quotes or without names an image that can be
/// repaired, where `extension` is the extension of the unquoted value.
pub open spec fn repairable_with(value: Seq<char>, extension: Option<Seq<char>>) -> bool {
    let v = unquoted(value);
    v.len() > 0 && v != "0"@ && match extension {
        Some(e) => image_extension(lower_text(e)),
        None => false,
    }
}

/// A value without white space and quotes around it.
pub open spec fn unquoted(value: Seq<char>) -> Seq<char> {
    trim_text(strip_both(trim_text(value), CharClass::Quote))
}

/// The extensions of background images.
pub open spec fn image_extension(e: Seq<char>) -> bool {
    e == "jpg"@ || e == "jpeg"@ || e == "png"@ || e == "webp"@ || e == "bmp"@
}

/// Whether `r` may be what a background event makes of its third field: the
/// field, where its extension is that of an image. Of some names with colons or
/// backslashes it depends on the platform what their extension is.
pub open spec fn background_of(field: Option<Seq<char>>, r: Option<String>) -> bool {
    match field {
        None => r is None,
        Some(f) => background_kept(f, r),
    }
}

/// Whether `r` is what a background event makes of its third field, for a
/// possible extension.
pub open spec fn background_kept(field: Seq<char>, r: Option<String>) -> bool {
    exists|e: Option<Seq<char>>| background_with(field, e, r)
}

/// Whether `r` is what a background event makes of its third field, if `e` is
/// the extension.
pub open spec fn background_with(
    field: Seq<char>,
    e: Option<Seq<char>>,
    r: Option<String>,
) -> bool {
    may_have_extension(unquoted(field), e) && opt_text(r) == (if repairable_with(field, e) {
        Some(field)
    } else {
        None
    })
}

/// Whether an event line sets the background.
pub fn is_background_event(line: &str) -> (r: bool)
    ensures
        r == background_event(line@),
{
    let parts = split_on(line, ',');
    proof {
        lemma_split_some(line@, ',');
    }
    assert(texts(parts@).len() == parts@.len());
    assert(texts(parts@)[0] == parts@[0]@);
    let head = to_lower(&trim(&parts[0]));
    same_text(&head, "0") || same_text(&head, "background")
}

proof fn lemma_split_some(s: Seq<char>, c: char)
    ensures
        split_text(s, c).len() > 0,
{
}

/// Whether a value names an image that can be repaired, where `extension` is
/// the extension of the unquoted value.
pub fn repairable(value: &str, extension: Option<&str>) -> (r: bool)
    ensures
        r == repairable_with(
            value@,
            match extension {
                Some(e) => Some(e@),
                None => None,
            },
        ),
{
    let v = trim(&strip_ends(&trim(value), CharClass::Quote));
    if chars_of(&v).len() == 0 || same_text(&v, "0") {
        return false;
    }
    match extension {
        Some(e) => {
            let low = to_lower(e);
            same_text(&low, "jpg") || same_text(&low, "jpeg") || same_text(&low, "png")
                || same_text(&low, "webp") || same_text(&low, "bmp")
        },
        None => false,
    }
}

/// Whether a value names an image that can be repaired.
pub fn is_repairable_asset_filename(value: &str) -> (r: bool)
    ensures
        exists|e: Option<Seq<char>>| #[trigger]
            may_have_extension(unquoted(value@), e) && r == repairable_with(value@, e),
{
    let v = trim(&strip_ends(&trim(value), CharClass::Quote));
    let extension = path_extension(&v);
    let ghost e = opt_text(extension);
    assert(may_have_extension(unquoted(value@), e));
    match extension {
        Some(x) => repairable(value, Some(&x)),
        None => repairable(value, None),
    }
}

proof fn lemma_background_of(field: Seq<char>, e: Option<Seq<char>>, r: Option<String>)
    requires
        background_with(field, e, r),
    ensures
        background_of(Some(field), r),
{
}

/// The name of the image that a background event sets.
pub fn parse_event_filename(line: &str) -> (r: Option<String>)
    ensures
        background_of(third_field(line@), r),
{
    let fields = split_event_line(line);
    assert(texts(fields@).len() == fields@.len());
    if fields.len() <= 2 {
        return None;
    }
    assert(texts(fields@)[2] == fields@[2]@);
    let field = fields[2].clone();
    assert(fields_of(line@)[2] == field@);
    let ok = is_repairable_asset_filename(&field);
    let ghost e = choose|e: Option<Seq<char>>| #[trigger]
        may_have_extension(unquoted(field@), e) && ok == repairable_with(field@, e);
    let r = if ok {
        Some(field)
    } else {
        None
    };
    proof {
        lemma_background_of(field@, e, r);
    }
    assert(third_field(line@) == Some(field@));
    r
}

/// The time and the type of a hit object.
pub fn parse_hit_object(line: &str) -> (r: Option<(i32, i32)>)
    ensures
        match r {
            Some((time, kind)) => hit_object(line@) == Some((time as int, kind as int)),
            None => hit_object(line@) is None,
        },
{
    let fields = split_on(line, ',');
    assert(texts(fields@).len() == fields@.len());
    if fields.len() < 4 {
        return None;
    }
    assert(texts(fields@)[2] == fields@[2]@ && texts(fields@)[3] == fields@[3]@);
    match (
        parse_signed(&fields[2], i32::MIN as i64, i32::MAX as i64),
        parse_signed(&fields[3], i32::MIN as i64, i32::MAX as i64),
    ) {
        (Some(time), Some(kind)) => Some((time as i32, kind as i32)),
        _ => None,
    }
}

/// The positive identifier that a value writes.
pub open spec fn positive_id(value: Option<Seq<char>>) -> Option<int> {
    match value {
        Some(v) => match parse_int(v, i64::MIN as int, i64::MAX as int) {
            Some(n) => if n > 0 {
                Some(n)
            } else {
                None
            },
            None => None,
        },
        None => None,
    }
}

/// The view of a string that may be missing.
pub open spec fn opt_text(s: Option<String>) -> Option<Seq<char>> {
    match s {
        Some(t) => Some(t@),
        None => None,
    }
}

/// An integer that may be missing, as a mathematical one.
pub open spec fn opt_int(n: Option<i64>) -> Option<int> {
    match n {
        Some(v) => Some(v as int),
        None => None,
    }
}

/// The positive identifier that a value writes.
pub fn parse_i64(value: &Option<String>) -> (r: Option<i64>)
    ensures
        opt_int(r) == positive_id(opt_text(*value)),
{
    match value {
        Some(v) => match parse_signed(v, i64::MIN, i64::MAX) {
            Some(n) => if n > 0 {
                Some(n)
            } else {
                None
            },
            None => None,
        },
        None => None,
    }
}

/// The byte that a value writes.
pub open spec fn byte_value(value: Option<Seq<char>>) -> Option<nat> {
    match value {
        Some(v) => parse_nat(v, u8::MAX as nat),
        None => None,
    }
}

/// The byte that a value writes.
pub fn parse_u8(value: &Option<String>) -> (r: Option<u8>)
    ensures
        match r {
            Some(n) => byte_value(opt_text(*value)) == Some(n as nat),
            None => byte_value(opt_text(*value)) is None,
        },
{
    match value {
        Some(v) => match parse_unsigned(v, u8::MAX as u64) {
            Some(n) => Some(n as u8),
            None => None,
        },
        None => None,
    }
}

/// The digits with which `s` begins.
pub open spec fn leading_digits(s: Seq<char>) -> Seq<char>
    decreases s.len(),
{
    if s.len() > 0 && is_digit(s[0]) {
        seq![s[0]] + leading_digits(s.drop_first())
    } else {
        seq![]
    }
}

/// The identifier of the set with which the name of a folder begins.
pub open spec fn folder_id(name: Option<Seq<char>>) -> Option<int> {
    match name {
        Some(n) => positive_id(Some(leading_digits(trim_text(n)))),
        None => None,
    }
}

proof fn lemma_leading_digits(s: Seq<char>, k: int)
    requires
        0 <= k <= s.len(),
        forall|i: int| 0 <= i < k ==> is_digit(s[i]),
        k == s.len() || !is_digit(s[k]),
    ensures
        leading_digits(s) == s.take(k),
    decreases k,
{
    if k > 0 {
        let t = s.drop_first();
        assert forall|i: int| 0 <= i < k - 1 implies is_digit(t[i]) by {
            assert(t[i] == s[i + 1]);
        }
        lemma_leading_digits(t, k - 1);
        assert(seq![s[0]] + t.take(k - 1) =~= s.take(k));
    } else {
        assert(s.take(0) =~= seq![]);
    }
}

/// The identifier of the set with which the name of a folder begins.
pub fn parse_folder_set_id(folder: &FilePath) -> (r: Option<i64>)
    ensures
        opt_int(r) == folder_id(opt_text(folder.file_name)),
{
    match &folder.file_name {
        None => None,
        Some(name) => {
            let cs = chars_of(&trim(name));
            let mut k: usize = 0;
            while k < cs.len() && '0' <= cs[k] && cs[k] <= '9'
                invariant
                    k <= cs@.len(),
                    forall|i: int| 0 <= i < k ==> is_digit(cs@[i]),
                decreases cs@.len() - k,
            {
                k = k + 1;
            }
            proof {
                lemma_leading_digits(cs@, k as int);
                assert(cs@.subrange(0, k as int) =~= cs@.take(k as int));
            }
            parse_i64(&Some(text_between(&cs, 0, k)))
        },
    }
}

/// What a `.osu` file says, with its decimal numbers as they are written.
#[derive(Debug)]
pub struct ParsedOsu {
    pub md5: String,
    pub beatmap_id: Option<i64>,
    pub beatmapset_id: Option<i64>,
    pub artist: String,
    pub title: String,
    pub source: String,
    pub creator: String,
    pub version: String,
    pub tags: String,
    pub audio_filename: Option<String>,
    pub background_filename: Option<String>,
    pub has_mode_field: bool,
    pub mode: Option<u8>,
    pub ar: Option<String>,
    pub cs: Option<String>,
    pub od: Option<String>,
    pub hp: Option<String>,
    /// The beat lengths of the timing points, in order.
    pub beat_lengths: Vec<String>,
    /// The time of the last hit object, in milliseconds.
    pub last_object_time: Option<i32>,
    pub circles: u32,
    pub sliders: u32,
}

/// A text, or the empty one.
pub open spec fn or_empty(s: Option<Seq<char>>) -> Seq<char> {
    match s {
        Some(t) => t,
        None => ""@,
    }
}

/// Whether `r` says what the lines of a `.osu` file say. Circles and sliders are
/// counted in 32 bits, and anew beyond them.
pub open spec fn says(r: ParsedOsu, all: Seq<Seq<char>>) -> bool {
    &&& opt_int(r.beatmap_id) == positive_id(osu_value(all, "BeatmapID"@))
    &&& opt_int(r.beatmapset_id) == positive_id(osu_value(all, "BeatmapSetID"@))
    &&& r.artist@ == or_empty(osu_value(all, "Artist"@))
    &&& r.title@ == or_empty(osu_value(all, "Title"@))
    &&& r.source@ == or_empty(osu_value(all, "Source"@))
    &&& r.creator@ == or_empty(osu_value(all, "Creator"@))
    &&& r.version@ == or_empty(osu_value(all, "Version"@))
    &&& r.tags@ == or_empty(osu_value(all, "Tags"@))
    &&& opt_text(r.audio_filename) == osu_value(all, "AudioFilename"@)
    &&& background_of(background_field(all), r.background_filename)
    &&& r.has_mode_field == osu_value(all, "Mode"@) is Some
    &&& match r.mode {
        Some(m) => byte_value(osu_value(all, "Mode"@)) == Some(m as nat),
        None => byte_value(osu_value(all, "Mode"@)) is None,
    }
    &&& opt_text(r.ar) == osu_value(all, "ApproachRate"@)
    &&& opt_text(r.cs) == osu_value(all, "CircleSize"@)
    &&& opt_text(r.od) == osu_value(all, "OverallDifficulty"@)
    &&& opt_text(r.hp) == osu_value(all, "HPDrainRate"@)
    &&& texts(r.beat_lengths@) == beat_length_fields(all)
    &&& match r.last_object_time {
        Some(t) => last_time(all) == Some(t as int),
        None => last_time(all) is None,
    }
    &&& r.circles == count_objects(all, 1) % 0x1_0000_0000
    &&& r.sliders == count_objects(all, 2) % 0x1_0000_0000
}

/// `slot`, or `value` where `key` is the one that is looked for.
fn kept(slot: Option<String>, key: &str, value: &str, wanted: &str) -> (r: Option<String>)
    ensures
        opt_text(r) == (if key@ == wanted@ {
            Some(value@)
        } else {
            opt_text(slot)
        }),
{
    if same_text(key, wanted) {
        Some(value.to_owned())
    } else {
        slot
    }
}

/// The text, or the empty one.
fn text_or_empty(s: Option<String>) -> (r: String)
    ensures
        r@ == or_empty(opt_text(s)),
{
    match s {
        Some(t) => t,
        None => "".to_owned(),
    }
}

/// The values of the keys that are looked for.
struct OsuValues {
    beatmap_id: Option<String>,
    beatmapset_id: Option<String>,
    artist: Option<String>,
    title: Option<String>,
    source: Option<String>,
    creator: Option<String>,
    version: Option<String>,
    tags: Option<String>,
    audio_filename: Option<String>,
    mode: Option<String>,
    ar: Option<String>,
    cs: Option<String>,
    od: Option<String>,
    hp: Option<String>,
}

impl OsuValues {
    /// The values are those that the lines set.
    spec fn of_lines(self, all: Seq<Seq<char>>) -> bool {
        &&& opt_text(self.beatmap_id) == osu_value(all, "BeatmapID"@)
        &&& opt_text(self.beatmapset_id) == osu_value(all, "BeatmapSetID"@)
        &&& opt_text(self.artist) == osu_value(all, "Artist"@)
        &&& opt_text(self.title) == osu_value(all, "Title"@)
        &&& opt_text(self.source) == osu_value(all, "Source"@)
        &&& opt_text(self.creator) == osu_value(all, "Creator"@)
        &&& opt_text(self.version) == osu_value(all, "Version"@)
        &&& opt_text(self.tags) == osu_value(all, "Tags"@)
        &&& opt_text(self.audio_filename) == osu_value(all, "AudioFilename"@)
        &&& opt_text(self.mode) == osu_value(all, "Mode"@)
        &&& opt_text(self.ar) == osu_value(all, "ApproachRate"@)
        &&& opt_text(self.cs) == osu_value(all, "CircleSize"@)
        &&& opt_text(self.od) == osu_value(all, "OverallDifficulty"@)
        &&& opt_text(self.hp) == osu_value(all, "HPDrainRate"@)
    }

    fn none() -> (r: Self)
        ensures
            r.of_lines(seq![]),
    {
        OsuValues {
            beatmap_id: None,
            beatmapset_id: None,
            artist: None,
            title: None,
            source: None,
            creator: None,
            version: None,
            tags: None,
            audio_filename: None,
            mode: None,
            ar: None,
            cs: None,
            od: None,
            hp: None,
        }
    }

    /// The values after one more content line.
    fn after_line(self, line: &str, Ghost(all): Ghost<Seq<Seq<char>>>) -> (r: Self)
        requires
            all.len() > 0,
            trim_text(all.last()) == line@,
            is_content(line@),
            self.of_lines(all.drop_last()),
        ensures
            r.of_lines(all),
    {
        match split_once(line, ':') {
            None => self,
            Some((key, value)) => {
                let key = trim(&key);
                let value = trim(&value);
                OsuValues {
                    beatmap_id: kept(self.beatmap_id, &key, &value, "BeatmapID"),
                    beatmapset_id: kept(self.beatmapset_id, &key, &value, "BeatmapSetID"),
                    artist: kept(self.artist, &key, &value, "Artist"),
                    title: kept(self.title, &key, &value, "Title"),
                    source: kept(self.source, &key, &value, "Source"),
                    creator: kept(self.creator, &key, &value, "Creator"),
                    version: kept(self.version, &key, &value, "Version"),
                    tags: kept(self.tags, &key, &value, "Tags"),
                    audio_filename: kept(self.audio_filename, &key, &value, "AudioFilename"),
                    mode: kept(self.mode, &key, &value, "Mode"),
                    ar: kept(self.ar, &key, &value, "ApproachRate"),
                    cs: kept(self.cs, &key, &value, "CircleSize"),
                    od: kept(self.od, &key, &value, "OverallDifficulty"),
                    hp: kept(self.hp, &key, &value, "HPDrainRate"),
                }
            },
        }
    }
}

/// The second field of a timing point.
fn second_field(line: &str) -> (r: Option<String>)
    ensures
        opt_text(r) == beat_length_field(line@),
{
    let parts = split_on(line, ',');
    assert(texts(parts@).len() == parts@.len());
    if parts.len() > 1 {
        assert(texts(parts@)[1] == parts@[1]@);
        Some(parts[1].clone())
    } else {
        None
    }
}

/// Reads a `.osu` file.
pub fn parse_osu(bytes: &[u8]) -> (r: ParsedOsu)
    ensures
        r.md5@ == md5_text(bytes@),
        says(r, lines_text(lossy_text(bytes@))),
{
    let md5 = md5_hex(bytes);
    let text = lossy(bytes);
    let mut r = parse_osu_text(&text);
    r.md5 = md5;
    r
}

/// Reads the text of a `.osu` file. The checksum stays empty.
#[verifier::rlimit(30)]
pub fn parse_osu_text(text: &str) -> (r: ParsedOsu)
    ensures
        r.md5@ == ""@,
        says(r, lines_text(text@)),
{
    let all = lines(text);
    let ghost seqs = texts(all@);
    let mut section = "".to_owned();
    let mut values = OsuValues::none();
    let mut background_filename: Option<String> = None;
    let mut beat_lengths: Vec<String> = Vec::new();
    let mut last_object_time: Option<i32> = None;
    let mut circles: u32 = 0;
    let mut sliders: u32 = 0;
    let mut i: usize = 0;
    proof {
        assert(seqs.take(0) =~= seq![]);
        assert(texts(beat_lengths@) =~= seq![]);
    }
    while i < all.len()
        invariant
            i <= all@.len(),
            seqs == texts(all@),
            section@ == section_behind(seqs.take(i as int)),
            values.of_lines(seqs.take(i as int)),
            background_of(background_field(seqs.take(i as int)), background_filename),
            texts(beat_lengths@) == beat_length_fields(seqs.take(i as int)),
            match last_object_time {
                Some(t) => last_time(seqs.take(i as int)) == Some(t as int),
                None => last_time(seqs.take(i as int)) is None,
            },
            circles == count_objects(seqs.take(i as int), 1) % 0x1_0000_0000,
            sliders == count_objects(seqs.take(i as int), 2) % 0x1_0000_0000,
        decreases all@.len() - i,
    {
        let line = trim(&all[i]);
        let ghost here = seqs.take(i as int + 1);
        proof {
            assert(here.drop_last() =~= seqs.take(i as int));
            assert(here.last() == all@[i as int]@);
        }
        i = i + 1;
        let cs = chars_of(&line);
        if cs.len() == 0 || starts_with(&line, "//") {
            continue ;
        }
        if header(&line) {
            proof {
                reveal_strlit("//");
                assert("//"@.len() == 2);
                if cs@.len() == 1 {
                    assert(cs@[0] == '[' && cs@.last() == ']');
                }
            }
            section = text_between(&cs, 1, cs.len() - 1);
            continue ;
        }
        assert(is_content(line@));
        let in_events = same_text(&section, "Events");
        if in_events && is_background_event(&line) {
            background_filename = parse_event_filename(&line);
        }
        let in_timing = same_text(&section, "TimingPoints");
        if in_timing {
            if let Some(field) = second_field(&line) {
                let ghost before = texts(beat_lengths@);
                beat_lengths.push(field);
                assert(texts(beat_lengths@) =~= before.push(field@));
            }
        }
        let in_objects = same_text(&section, "HitObjects");
        if in_objects {
            if let Some((time, kind)) = parse_hit_object(&line) {
                last_object_time = match last_object_time {
                    Some(before) => if before > time {
                        Some(before)
                    } else {
                        Some(time)
                    },
                    None => Some(time),
                };
                if kind & 1 != 0 {
                    circles = circles.wrapping_add(1);
                }
                if kind & 2 != 0 {
                    sliders = sliders.wrapping_add(1);
                }
            }
        }
        values = values.after_line(&line, Ghost(here));
    }
    assert(seqs.take(i as int) =~= seqs);
    ParsedOsu {
        md5: "".to_owned(),
        beatmap_id: parse_i64(&values.beatmap_id),
        beatmapset_id: parse_i64(&values.beatmapset_id),
        artist: text_or_empty(values.artist),
        title: text_or_empty(values.title),
        source: text_or_empty(values.source),
        creator: text_or_empty(values.creator),
        version: text_or_empty(values.version),
        tags: text_or_empty(values.tags),
        audio_filename: values.audio_filename,
        background_filename,
        has_mode_field: values.mode.is_some(),
        mode: parse_u8(&values.mode),
        ar: values.ar,
        cs: values.cs,
        od: values.od,
        hp: values.hp,
        beat_lengths,
        last_object_time,
        circles,
        sliders,
    }
}

/// The numbers of a map that floating-point arithmetic gives.
#[derive(Clone, Copy, Debug, PartialEq, Eq, Structural)]
pub struct OsuNumbers {
    pub ar: Option<Real32>,
    pub cs: Option<Real32>,
    pub od: Option<Real32>,
    pub hp: Option<Real32>,
    pub stars: Option<Real32>,
    pub bpm: Option<Real32>,
    pub length_seconds: Option<Real32>,
}

/// The first positive one of the beat lengths, in the order of the timing
/// points: the tempo is that of this one.
pub open spec fn first_positive(lengths: Seq<Option<Real32>>) -> Option<Real32>
    decreases lengths.len(),
{
    if lengths.len() == 0 {
        None
    } else {
        match lengths[0] {
            Some(x) => if (Real32 { bits: 0 }).below(x) {
                Some(x)
            } else {
                first_positive(lengths.drop_first())
            },
            None => first_positive(lengths.drop_first()),
        }
    }
}

/// The first positive one of the beat lengths.
pub fn first_beat_length(lengths: &Vec<Option<Real32>>) -> (r: Option<Real32>)
    ensures
        r == first_positive(lengths@),
{
    let zero = Real32 { bits: 0 };
    let mut i: usize = 0;
    assert(lengths@.skip(0) =~= lengths@);
    while i < lengths.len()
        invariant
            i <= lengths@.len(),
            zero == (Real32 { bits: 0 }),
            first_positive(lengths@.skip(i as int)) == first_positive(lengths@),
        decreases lengths@.len() - i,
    {
        assert(lengths@.skip(i as int).drop_first() =~= lengths@.skip(i as int + 1));
        if let Some(x) = lengths[i] {
            if zero.lt(x) {
                return Some(x);
            }
        }
        i = i + 1;
    }
    None
}

/// The identifier of the set: the one in the file, or else the one with which
/// the name of the folder begins.
pub open spec fn set_id_of(parsed: ParsedOsu, folder: FilePath) -> Option<int> {
    match parsed.beatmapset_id {
        Some(id) => Some(id as int),
        None => folder_id(opt_text(folder.file_name)),
    }
}

/// The map that a `.osu` file describes.
pub fn assemble_map(
    path: FilePath,
    folder: FilePath,
    parsed: ParsedOsu,
    numbers: OsuNumbers,
) -> (r: LocalBeatmap)
    ensures
        opt_int(r.beatmapset_id) == set_id_of(parsed, folder),
        r == (LocalBeatmap {
            path,
            folder,
            md5: parsed.md5,
            beatmap_id: parsed.beatmap_id,
            beatmapset_id: r.beatmapset_id,
            artist: parsed.artist,
            title: parsed.title,
            source: parsed.source,
            creator: parsed.creator,
            version: parsed.version,
            tags: parsed.tags,
            audio_filename: parsed.audio_filename,
            background_filename: parsed.background_filename,
            has_mode_field: parsed.has_mode_field,
            mode: parsed.mode,
            ar: numbers.ar,
            cs: numbers.cs,
            od: numbers.od,
            hp: numbers.hp,
            stars: numbers.stars,
            bpm: numbers.bpm,
            length_seconds: numbers.length_seconds,
            circles: parsed.circles,
            sliders: parsed.sliders,
        }),
{
    let beatmapset_id: Option<i64> = match parsed.beatmapset_id {
        Some(id) => Some(id),
        None => parse_folder_set_id(&folder),
    };
    LocalBeatmap {
        path,
        folder,
        md5: parsed.md5,
        beatmap_id: parsed.beatmap_id,
        beatmapset_id,
        artist: parsed.artist,
        title: parsed.title,
        source: parsed.source,
        creator: parsed.creator,
        version: parsed.version,
        tags: parsed.tags,
        audio_filename: parsed.audio_filename,
        background_filename: parsed.background_filename,
        has_mode_field: parsed.has_mode_field,
        mode: parsed.mode,
        ar: numbers.ar,
        cs: numbers.cs,
        od: numbers.od,
        hp: numbers.hp,
        stars: numbers.stars,
        bpm: numbers.bpm,
        length_seconds: numbers.length_seconds,
        circles: parsed.circles,
        sliders: parsed.sliders,
    }
}

/// The view of a [`RepairIssue`].
#[verifier::ext_equal]
pub struct IssueView {
    pub beatmap: FilePath,
    pub message: Seq<char>,
    pub severity: RepairSeverity,
}

impl View for RepairIssue {
    type V = IssueView;

    open spec fn view(&self) -> IssueView {
        IssueView { beatmap: self.beatmap, message: self.message@, severity: self.severity }
    }
}

/// The views of a list of issues.
pub open spec fn issues_view(v: Seq<RepairIssue>) -> Seq<IssueView> {
    Seq::new(v.len(), |i: int| v[i]@)
}

/// The issue that a file named by the map is not there.
pub open spec fn missing_file(map: LocalBeatmap, prefix: Seq<char>, name: Seq<char>) -> IssueView {
    IssueView {
        beatmap: map.path,
        message: prefix + name,
        severity: RepairSeverity::MissingRequiredFile,
    }
}

/// The issues of a map: its audio file, then its background file, where it
/// names one that does not exist.
pub open spec fn issues_of(
    map: LocalBeatmap,
    audio_exists: bool,
    background_exists: bool,
) -> Seq<IssueView> {
    let audio = match map.audio_filename {
        Some(a) => if audio_exists {
            seq![]
        } else {
            seq![missing_file(map, "Missing audio file: "@, a@)]
        },
        None => seq![],
    };
    match map.background_filename {
        Some(b) => if background_exists {
            audio
        } else {
            audio.push(missing_file(map, "Missing background file: "@, b@))
        },
        None => audio,
    }
}

/// The issues of a map, where it is known whether the files that it names
/// exist.
pub fn find_repair_issues(map: &LocalBeatmap, audio_exists: bool, background_exists: bool) -> (r:
    Vec<RepairIssue>)
    ensures
        issues_view(r@) == issues_of(*map, audio_exists, background_exists),
{
    let mut issues: Vec<RepairIssue> = Vec::new();
    assert(issues_view(issues@) =~= seq![]);
    if let Some(audio) = &map.audio_filename {
        if !audio_exists {
            issues.push(
                RepairIssue {
                    beatmap: map.path.clone(),
                    message: join2("Missing audio file: ", audio),
                    severity: RepairSeverity::MissingRequiredFile,
                },
            );
            assert(issues_view(issues@) =~= seq![
                missing_file(*map, "Missing audio file: "@, audio@),
            ]);
        }
    }
    let ghost before = issues_view(issues@);
    if let Some(background) = &map.background_filename {
        if !background_exists {
            issues.push(
                RepairIssue {
                    beatmap: map.path.clone(),
                    message: join2("Missing background file: ", background),
                    severity: RepairSeverity::MissingRequiredFile,
                },
            );
            assert(issues_view(issues@) =~= before.push(
                missing_file(*map, "Missing background file: "@, background@),
            ));
        }
    }
    issues
}

// ---- sets ----

/// What the maps of a set share.
#[verifier::ext_equal]
pub struct SetKey {
    pub id: Option<i64>,
    pub folder: Seq<char>,
}

/// Whether one identifier comes before another: none comes first.
pub open spec fn id_less(a: Option<i64>, b: Option<i64>) -> bool {
    match (a, b) {
        (None, Some(y)) => true,
        (Some(x), Some(y)) => x < y,
        _ => false,
    }
}

/// Whether one set comes before another: by identifier, then by folder.
pub open spec fn key_less(a: SetKey, b: SetKey) -> bool {
    id_less(a.id, b.id) || (a.id == b.id && text_less(a.folder, b.folder))
}

/// The set that a map belongs to.
pub open spec fn key_of_map(map: LocalBeatmap) -> SetKey {
    SetKey { id: map.beatmapset_id, folder: map.folder.key@ }
}

/// What the maps of a set share.
pub open spec fn key_of_set(set: LocalBeatmapSet) -> SetKey {
    SetKey { id: set.beatmapset_id, folder: set.folder.key@ }
}

/// The maps of the set `key`, in order.
pub open spec fn maps_of_key(maps: Seq<LocalBeatmap>, key: SetKey) -> Seq<LocalBeatmap>
    decreases maps.len(),
{
    if maps.len() == 0 {
        seq![]
    } else {
        let rest = maps_of_key(maps.drop_last(), key);
        if key_of_map(maps.last()) == key {
            rest.push(maps.last())
        } else {
            rest
        }
    }
}

/// Whether the sets stand in strictly ascending order.
pub open spec fn sets_ascend(sets: Seq<LocalBeatmapSet>) -> bool {
    forall|i: int, j: int|
        0 <= i < j < sets.len() ==> key_less(
            key_of_set(#[trigger] sets[i]),
            key_of_set(#[trigger] sets[j]),
        )
}

/// Whether `sets` are the sets that `maps` form: in ascending order, each with
/// the maps that belong to it, in their order, and none without maps.
pub open spec fn sets_of(sets: Seq<LocalBeatmapSet>, maps: Seq<LocalBeatmap>) -> bool {
    &&& sets_ascend(sets)
    &&& forall|i: int|
        0 <= i < sets.len() ==> (#[trigger] sets[i]).maps@ == maps_of_key(
            maps,
            key_of_set(sets[i]),
        ) && sets[i].maps@.len() > 0 && sets[i].folder == sets[i].maps@[0].folder
    &&& forall|m: int| 0 <= m < maps.len() ==> has_set(sets, key_of_map(#[trigger] maps[m]))
}

/// Whether one of the sets has the key `key`.
pub open spec fn has_set(sets: Seq<LocalBeatmapSet>, key: SetKey) -> bool {
    exists|i: int| 0 <= i < sets.len() && key_of_set(#[trigger] sets[i]) == key
}

proof fn lemma_key_less(a: SetKey, b: SetKey, c: SetKey)
    ensures
        a != b ==> key_less(a, b) || key_less(b, a),
        !(key_less(a, b) && key_less(b, a)),
        !key_less(a, a),
        key_less(a, b) && key_less(b, c) ==> key_less(a, c),
{
    lemma_text_less_total(a.folder, b.folder);
    lemma_text_less_total(a.folder, a.folder);
    if text_less(a.folder, b.folder) && text_less(b.folder, c.folder) {
        lemma_text_less_transitive(a.folder, b.folder, c.folder);
    }
    if a.id == b.id && a.folder == b.folder {
        assert(a == b);
    }
}

/// How the set that a map belongs to stands to a set.
fn place_in_sets(map: &LocalBeatmap, set: &LocalBeatmapSet) -> (r: Place)
    ensures
        r == Place::Before <==> key_less(key_of_map(*map), key_of_set(*set)),
        r == Place::Same <==> key_of_map(*map) == key_of_set(*set),
{
    proof {
        lemma_key_less(key_of_map(*map), key_of_set(*set), key_of_set(*set));
        lemma_text_less_total(map.folder.key@, set.folder.key@);
    }
    match (map.beatmapset_id, set.beatmapset_id) {
        (None, Some(y)) => Place::Before,
        (Some(x), None) => Place::After,
        (Some(x), Some(y)) => if x < y {
            Place::Before
        } else if x > y {
            Place::After
        } else {
            place(&map.folder.key, &set.folder.key)
        },
        (None, None) => place(&map.folder.key, &set.folder.key),
    }
}

/// The first position whose set is not before the one that the map belongs to.
fn set_position(sets: &Vec<LocalBeatmapSet>, map: &LocalBeatmap) -> (k: usize)
    requires
        sets_ascend(sets@),
    ensures
        k <= sets@.len(),
        forall|i: int|
            0 <= i < k ==> key_less(key_of_set(#[trigger] sets@[i]), key_of_map(*map)),
        forall|i: int|
            k <= i < sets@.len() ==> !key_less(key_of_set(#[trigger] sets@[i]), key_of_map(*map)),
{
    let mut lo: usize = 0;
    let mut hi: usize = sets.len();
    let ghost key = key_of_map(*map);
    while lo < hi
        invariant
            sets_ascend(sets@),
            key == key_of_map(*map),
            lo <= hi <= sets@.len(),
            forall|i: int| 0 <= i < lo ==> key_less(key_of_set(#[trigger] sets@[i]), key),
            forall|i: int|
                hi <= i < sets@.len() ==> !key_less(key_of_set(#[trigger] sets@[i]), key),
        decreases hi - lo,
    {
        let mid: usize = lo + (hi - lo) / 2;
        let p = place_in_sets(map, &sets[mid]);
        let ghost at = key_of_set(sets@[mid as int]);
        proof {
            lemma_key_less(at, key, key);
        }
        if p == Place::After {
            proof {
                assert forall|i: int| 0 <= i < mid + 1 implies key_less(
                    key_of_set(#[trigger] sets@[i]),
                    key,
                ) by {
                    if i < mid {
                        lemma_key_less(key_of_set(sets@[i]), at, key);
                    }
                }
            }
            lo = mid + 1;
        } else {
            proof {
                assert forall|i: int| mid <= i < sets@.len() implies !key_less(
                    key_of_set(#[trigger] sets@[i]),
                    key,
                ) by {
                    if mid < i {
                        lemma_key_less(at, key_of_set(sets@[i]), key);
                    }
                }
            }
            hi = mid;
        }
    }
    lo
}

/// A set that is not there yet has no maps yet.
proof fn lemma_no_maps(sets: Seq<LocalBeatmapSet>, maps: Seq<LocalBeatmap>, key: SetKey, n: int)
    requires
        sets_of(sets, maps),
        !has_set(sets, key),
        0 <= n <= maps.len(),
    ensures
        maps_of_key(maps.take(n), key).len() == 0,
    decreases n,
{
    if n > 0 {
        lemma_no_maps(sets, maps, key, n - 1);
        assert(maps.take(n).drop_last() =~= maps.take(n - 1));
        assert(maps.take(n).last() == maps[n - 1]);
        assert(has_set(sets, key_of_map(maps[n - 1])));
    }
}

/// Adds a map to the set that it belongs to.
fn add_to_sets(sets: &mut Vec<LocalBeatmapSet>, map: &LocalBeatmap, Ghost(maps): Ghost<
    Seq<LocalBeatmap>,
>)
    requires
        sets_of(old(sets)@, maps),
    ensures
        sets_of(final(sets)@, maps.push(*map)),
{
    let ghost before = sets@;
    let ghost key = key_of_map(*map);
    let ghost all = maps.push(*map);
    assert(all.drop_last() =~= maps);
    let k: usize = set_position(sets, map);
    let found = k < sets.len() && place_in_sets(map, &sets[k]) == Place::Same;
    if found {
        sets[k].maps.push(map.clone());
        proof {
            assert(key_of_set(before[k as int]) == key);
            assert forall|i: int| 0 <= i < sets@.len() implies key_of_set(#[trigger] sets@[i])
                == key_of_set(before[i]) by {}
            assert(sets_ascend(sets@)) by {
                assert forall|i: int, j: int| 0 <= i < j < sets@.len() implies key_less(
                    key_of_set(#[trigger] sets@[i]),
                    key_of_set(#[trigger] sets@[j]),
                ) by {
                    assert(key_less(key_of_set(before[i]), key_of_set(before[j])));
                }
            }
            assert forall|i: int| 0 <= i < sets@.len() implies (#[trigger] sets@[i]).maps@
                == maps_of_key(all, key_of_set(sets@[i])) && sets@[i].maps@.len() > 0
                && sets@[i].folder == sets@[i].maps@[0].folder by {
                assert(before[i].maps@ == maps_of_key(maps, key_of_set(before[i])));
                lemma_key_less(key, key, key);
                if i < k {
                    assert(key_less(key_of_set(before[i]), key_of_set(before[k as int])));
                } else if i > k {
                    assert(key_less(key_of_set(before[k as int]), key_of_set(before[i])));
                }
            }
            assert forall|m: int| 0 <= m < all.len() implies has_set(
                sets@,
                key_of_map(#[trigger] all[m]),
            ) by {
                if m < maps.len() {
                    assert(has_set(before, key_of_map(maps[m])));
                    let i = choose|i: int|
                        0 <= i < before.len() && key_of_set(#[trigger] before[i]) == key_of_map(
                            maps[m],
                        );
                    assert(key_of_set(sets@[i]) == key_of_map(all[m]));
                } else {
                    assert(key_of_set(sets@[k as int]) == key);
                }
            }
        }
    } else {
        proof {
            assert(!has_set(before, key)) by {
                if has_set(before, key) {
                    let i = choose|i: int|
                        0 <= i < before.len() && key_of_set(#[trigger] before[i]) == key;
                    lemma_key_less(key, key, key);
                    if i > k {
                        assert(key_less(key_of_set(before[k as int]), key_of_set(before[i])));
                    }
                }
            }
            lemma_no_maps(before, maps, key, maps.len() as int);
            assert(maps.take(maps.len() as int) =~= maps);
        }
        let mut own: Vec<LocalBeatmap> = Vec::new();
        own.push(map.clone());
        let set = LocalBeatmapSet {
            beatmapset_id: map.beatmapset_id,
            folder: map.folder.clone(),
            maps: own,
        };
        sets.insert(k, set);
        proof {
            assert(own@ =~= maps_of_key(all, key));
            assert forall|i: int| 0 <= i < sets@.len() implies #[trigger] sets@[i] == (if i < k {
                before[i]
            } else if i == k {
                set
            } else {
                before[i - 1]
            }) by {}
            assert(key_of_set(set) == key);
            assert(sets_ascend(sets@)) by {
                assert forall|i: int, j: int| 0 <= i < j < sets@.len() implies key_less(
                    key_of_set(#[trigger] sets@[i]),
                    key_of_set(#[trigger] sets@[j]),
                ) by {
                    if i == k {
                        let x = key_of_set(before[j - 1]);
                        lemma_key_less(x, key, key);
                        if x == key {
                            assert(has_set(before, key));
                        }
                    } else if j == k {
                        assert(key_less(key_of_set(before[i]), key));
                    } else {
                        let a = if i < k {
                            i
                        } else {
                            i - 1
                        };
                        let b = if j < k {
                            j
                        } else {
                            j - 1
                        };
                        assert(key_less(key_of_set(before[a]), key_of_set(before[b])));
                    }
                }
            }
            assert forall|i: int| 0 <= i < sets@.len() implies (#[trigger] sets@[i]).maps@
                == maps_of_key(all, key_of_set(sets@[i])) && sets@[i].maps@.len() > 0
                && sets@[i].folder == sets@[i].maps@[0].folder by {
                if i != k {
                    let a = if i < k {
                        i
                    } else {
                        i - 1
                    };
                    assert(before[a].maps@ == maps_of_key(maps, key_of_set(before[a])));
                    if key_of_set(before[a]) == key {
                        assert(has_set(before, key));
                    }
                }
            }
            assert forall|m: int| 0 <= m < all.len() implies has_set(
                sets@,
                key_of_map(#[trigger] all[m]),
            ) by {
                if m < maps.len() {
                    assert(has_set(before, key_of_map(maps[m])));
                    let i = choose|i: int|
                        0 <= i < before.len() && key_of_set(#[trigger] before[i]) == key_of_map(
                            maps[m],
                        );
                    let a = if i < k {
                        i
                    } else {
                        i + 1
                    };
                    assert(key_of_set(sets@[a]) == key_of_map(all[m]));
                } else {
                    assert(key_of_set(sets@[k as int]) == key);
                }
            }
        }
    }
}

/// The sets that the maps form.
pub fn build_sets(maps: &Vec<LocalBeatmap>) -> (sets: Vec<LocalBeatmapSet>)
    ensures
        sets_of(sets@, maps@),
{
    let mut sets: Vec<LocalBeatmapSet> = Vec::new();
    let mut i: usize = 0;
    assert(maps@.take(0) =~= seq![]);
    while i < maps.len()
        invariant
            i <= maps@.len(),
            sets_of(sets@, maps@.take(i as int)),
        decreases maps@.len() - i,
    {
        let ghost part = maps@.take(i as int);
        add_to_sets(&mut sets, &maps[i], Ghost(part));
        assert(part.push(maps@[i as int]) =~= maps@.take(i as int + 1));
        i = i + 1;
    }
    assert(maps@.take(i as int) =~= maps@);
    sets
}

/// Whether a map is in one of the sets.
pub open spec fn in_a_set(sets: Seq<LocalBeatmapSet>, map: LocalBeatmap) -> bool {
    exists|i: int| 0 <= i < sets.len() && (#[trigger] sets[i]).maps@.contains(map)
}

/// Every map is in exactly one of the sets, and nothing else is in one.
pub proof fn law_sets_partition_maps(sets: Seq<LocalBeatmapSet>, maps: Seq<LocalBeatmap>)
    requires
        sets_of(sets, maps),
    ensures
        forall|m: int|
            0 <= m < maps.len() ==> in_a_set(sets, #[trigger] maps[m]),
        forall|i: int, j: int, m: int|
            0 <= i < sets.len() && 0 <= j < sets.len() && 0 <= m < maps.len()
                && #[trigger] sets[i].maps@.contains(maps[m]) && #[trigger] sets[j].maps@.contains(
                maps[m],
            ) ==> i == j,
        forall|i: int, n: int|
            0 <= i < sets.len() && 0 <= n < sets[i].maps@.len() ==> maps.contains(
                #[trigger] sets[i].maps@[n],
            ),
{
    assert forall|m: int| 0 <= m < maps.len() implies in_a_set(sets, #[trigger] maps[m]) by {
        let key = key_of_map(maps[m]);
        assert(has_set(sets, key));
        let i = choose|i: int| 0 <= i < sets.len() && key_of_set(#[trigger] sets[i]) == key;
        lemma_in_key(maps, m);
        assert(sets[i].maps@.contains(maps[m]));
    }
    assert forall|i: int, j: int, m: int|
        0 <= i < sets.len() && 0 <= j < sets.len() && 0 <= m < maps.len()
            && #[trigger] sets[i].maps@.contains(maps[m]) && #[trigger] sets[j].maps@.contains(
            maps[m],
        ) implies i == j by {
        lemma_key_members(maps, key_of_set(sets[i]));
        lemma_key_members(maps, key_of_set(sets[j]));
        lemma_key_less(key_of_set(sets[i]), key_of_set(sets[i]), key_of_set(sets[i]));
        if i < j {
            assert(key_less(key_of_set(sets[i]), key_of_set(sets[j])));
        } else if j < i {
            assert(key_less(key_of_set(sets[j]), key_of_set(sets[i])));
        }
    }
    assert forall|i: int, n: int|
        0 <= i < sets.len() && 0 <= n < sets[i].maps@.len() implies maps.contains(
        #[trigger] sets[i].maps@[n],
    ) by {
        lemma_key_members(maps, key_of_set(sets[i]));
    }
}

proof fn lemma_in_key(maps: Seq<LocalBeatmap>, m: int)
    requires
        0 <= m < maps.len(),
    ensures
        maps_of_key(maps, key_of_map(maps[m])).contains(maps[m]),
    decreases maps.len(),
{
    let key = key_of_map(maps[m]);
    let rest = maps_of_key(maps.drop_last(), key);
    if m == maps.len() - 1 {
        assert(maps_of_key(maps, key)[rest.len() as int] == maps[m]);
    } else {
        assert(maps.drop_last()[m] == maps[m]);
        lemma_in_key(maps.drop_last(), m);
        let j = choose|j: int| 0 <= j < rest.len() && rest[j] == maps[m];
        assert(maps_of_key(maps, key)[j] == maps[m]);
    }
}

proof fn lemma_key_members(maps: Seq<LocalBeatmap>, key: SetKey)
    ensures
        forall|n: int|
            0 <= n < maps_of_key(maps, key).len() ==> key_of_map(
                #[trigger] maps_of_key(maps, key)[n],
            ) == key && maps.contains(maps_of_key(maps, key)[n]),
    decreases maps.len(),
{
    if maps.len() > 0 {
        let init = maps.drop_last();
        lemma_key_members(init, key);
        let rest = maps_of_key(init, key);
        assert forall|n: int| 0 <= n < maps_of_key(maps, key).len() implies key_of_map(
            #[trigger] maps_of_key(maps, key)[n],
        ) == key && maps.contains(maps_of_key(maps, key)[n]) by {
            if n < rest.len() {
                assert(init.contains(rest[n]));
                let j = choose|j: int| 0 <= j < init.len() && init[j] == rest[n];
                assert(maps[j] == rest[n]);
            } else {
                assert(maps[maps.len() - 1] == maps_of_key(maps, key)[n]);
            }
        }
    }
}

// ---- what a file says, line by line ----

/// A header begins a section, which goes on until the next one. Blank lines,
/// comments and all other lines leave the section as it is.
pub proof fn law_sections(all: Seq<Seq<char>>, name: Seq<char>, raw: Seq<char>)
    ensures
        section_behind(Seq::empty()) == Seq::<char>::empty(),
        trim_text(raw) == seq!['['] + name + seq![']'] ==> section_behind(all.push(raw)) == name,
        trim_text(raw).len() == 0 || trim_text(raw)[0] != '[' || trim_text(raw).last() != ']'
            ==> section_behind(all.push(raw)) == section_behind(all),
{
    reveal_strlit("");
    reveal_strlit("//");
    assert(""@ =~= Seq::<char>::empty());
    assert(all.push(raw).drop_last() =~= all);
    let t = trim_text(raw);
    if t == seq!['['] + name + seq![']'] {
        assert(t[0] == '[');
        if has_prefix(t, "//"@) {
            assert(t.take(2)[0] == t[0]);
        }
        assert(t.subrange(1, t.len() - 1) =~= name);
    }
}

/// Whether a line can say something: it is not blank, no comment and no header.
proof fn lemma_content(t: Seq<char>)
    requires
        t.len() > 0,
        !(t.len() > 1 && t[0] == '/' && t[1] == '/'),
        !(t[0] == '[' && t.last() == ']'),
    ensures
        is_content(t),
{
    reveal_strlit("//");
    if has_prefix(t, "//"@) {
        assert(t.take(2)[0] == '/' && t.take(2)[1] == '/');
    }
}

proof fn lemma_no_content(t: Seq<char>)
    requires
        t.len() == 0 || (t.len() > 1 && t[0] == '/' && t[1] == '/') || (t[0] == '[' && t.last()
            == ']'),
    ensures
        !is_content(t),
{
    reveal_strlit("//");
    if t.len() > 1 && t[0] == '/' && t[1] == '/' {
        assert(t.take(2) =~= "//"@);
    }
}

/// Blank lines and comments say nothing: a file says the same with them as
/// without them.
pub proof fn law_comments_say_nothing(r: ParsedOsu, all: Seq<Seq<char>>, raw: Seq<char>)
    requires
        says(r, all),
        trim_text(raw).len() == 0 || (trim_text(raw).len() > 1 && trim_text(raw)[0] == '/'
            && trim_text(raw)[1] == '/'),
    ensures
        says(r, all.push(raw)),
        section_behind(all.push(raw)) == section_behind(all),
{
    reveal_strlit("//");
    let t = trim_text(raw);
    lemma_no_content(t);
    let more = all.push(raw);
    assert(more.drop_last() =~= all);
    if t.len() > 1 {
        assert(t[0] == '/');
    }
    assert forall|key: Seq<char>| #[trigger] osu_value(more, key) == osu_value(all, key) by {}
    assert(last_hit_object(more) is None);
}

/// A line with a key, a colon and a value says the value of that key, from then
/// on, and leaves every other key as it was.
pub proof fn law_key_lines(
    all: Seq<Seq<char>>,
    raw: Seq<char>,
    k: Seq<char>,
    v: Seq<char>,
    key: Seq<char>,
)
    requires
        trim_text(raw) == k + seq![':'] + v,
        !k.contains(':'),
        !(k.len() > 1 && k[0] == '/' && k[1] == '/'),
        !(k.len() > 0 && k[0] == '['),
    ensures
        trim_text(k) == key ==> osu_value(all.push(raw), key) == Some(trim_text(v)),
        trim_text(k) != key ==> osu_value(all.push(raw), key) == osu_value(all, key),
{
    let t = trim_text(raw);
    assert(all.push(raw).drop_last() =~= all);
    crate::text::law_split(k, ':', v);
    if k.len() > 0 {
        assert(t[0] == k[0]);
        if k.len() > 1 {
            assert(t[1] == k[1]);
        } else {
            assert(t[1] == ':');
        }
    } else {
        assert(t[0] == ':');
    }
    lemma_content(t);
}

/// The texts of a map are those that its file gives last under the names of the
/// fields; a line for one of them changes that one and no other.
pub proof fn law_metadata(
    r: ParsedOsu,
    s: ParsedOsu,
    all: Seq<Seq<char>>,
    raw: Seq<char>,
    k: Seq<char>,
    v: Seq<char>,
)
    requires
        says(r, all),
        says(s, all.push(raw)),
        trim_text(raw) == k + seq![':'] + v,
        trim_text(k) == k && trim_text(v) == v,
        !k.contains(':'),
        !(k.len() > 1 && k[0] == '/' && k[1] == '/'),
        !(k.len() > 0 && k[0] == '['),
    ensures
        s.artist@ == (if k == "Artist"@ { v } else { r.artist@ }),
        s.title@ == (if k == "Title"@ { v } else { r.title@ }),
        s.source@ == (if k == "Source"@ { v } else { r.source@ }),
        s.creator@ == (if k == "Creator"@ { v } else { r.creator@ }),
        s.version@ == (if k == "Version"@ { v } else { r.version@ }),
        s.tags@ == (if k == "Tags"@ { v } else { r.tags@ }),
        opt_text(s.audio_filename) == (if k == "AudioFilename"@ {
            Some(v)
        } else {
            opt_text(r.audio_filename)
        }),
        opt_text(s.ar) == (if k == "ApproachRate"@ { Some(v) } else { opt_text(r.ar) }),
        opt_text(s.cs) == (if k == "CircleSize"@ { Some(v) } else { opt_text(r.cs) }),
        opt_text(s.od) == (if k == "OverallDifficulty"@ { Some(v) } else { opt_text(r.od) }),
        opt_text(s.hp) == (if k == "HPDrainRate"@ { Some(v) } else { opt_text(r.hp) }),
        s.has_mode_field == (k == "Mode"@ || r.has_mode_field),
        k == "Mode"@ ==> (forall|n: u8|
            v == #[trigger] crate::number::decimal(n as nat) ==> s.mode == Some(n)),
        k != "Mode"@ ==> s.mode == r.mode,
        k == "BeatmapID"@ ==> (forall|n: i64|
            v == #[trigger] crate::number::decimal_int(n as int) ==> s.beatmap_id == (if n > 0 {
                Some(n)
            } else {
                None
            })),
        k != "BeatmapID"@ ==> s.beatmap_id == r.beatmap_id,
        k == "BeatmapSetID"@ ==> (forall|n: i64|
            v == #[trigger] crate::number::decimal_int(n as int) ==> s.beatmapset_id == (if n > 0 {
                Some(n)
            } else {
                None
            })),
        k != "BeatmapSetID"@ ==> s.beatmapset_id == r.beatmapset_id,
{
    law_key_lines(all, raw, k, v, "Artist"@);
    law_key_lines(all, raw, k, v, "Title"@);
    law_key_lines(all, raw, k, v, "Source"@);
    law_key_lines(all, raw, k, v, "Creator"@);
    law_key_lines(all, raw, k, v, "Version"@);
    law_key_lines(all, raw, k, v, "Tags"@);
    law_key_lines(all, raw, k, v, "AudioFilename"@);
    law_key_lines(all, raw, k, v, "ApproachRate"@);
    law_key_lines(all, raw, k, v, "CircleSize"@);
    law_key_lines(all, raw, k, v, "OverallDifficulty"@);
    law_key_lines(all, raw, k, v, "HPDrainRate"@);
    law_key_lines(all, raw, k, v, "Mode"@);
    law_key_lines(all, raw, k, v, "BeatmapID"@);
    law_key_lines(all, raw, k, v, "BeatmapSetID"@);
    if k == "Mode"@ {
        assert forall|n: u8| v == #[trigger] crate::number::decimal(n as nat) implies s.mode == Some(
            n,
        ) by {
            crate::number::law_written_numbers_are_read(n as int, 0, 255);
        }
    }
    if k == "BeatmapID"@ {
        assert forall|n: i64| v == #[trigger] crate::number::decimal_int(n as int) implies
            s.beatmap_id == (if n > 0 {
            Some(n)
        } else {
            None
        }) by {
            crate::number::law_written_numbers_are_read(
                n as int,
                i64::MIN as int,
                i64::MAX as int,
            );
        }
    }
    if k == "BeatmapSetID"@ {
        assert forall|n: i64| v == #[trigger] crate::number::decimal_int(n as int) implies
            s.beatmapset_id == (if n > 0 {
            Some(n)
        } else {
            None
        }) by {
            crate::number::law_written_numbers_are_read(
                n as int,
                i64::MIN as int,
                i64::MAX as int,
            );
        }
    }
}

/// A line is one for the background if its first field is the digit zero or the
/// word for it, in whatever case; lines for videos, breaks, sprites and samples
/// are not.
pub proof fn law_background_events(head: Seq<char>, rest: Seq<char>)
    requires
        !head.contains(','),
    ensures
        trim_text(head) == seq!['0'] || lower_text(trim_text(head)) == "background"@
            ==> background_event(head + seq![','] + rest) && background_event(head),
        background_event(head + seq![','] + rest) ==> trim_text(head) == seq!['0'] || lower_text(
            trim_text(head),
        ) == "background"@,
        trim_text(head) == "1"@ || trim_text(head) == "2"@ || lower_text(trim_text(head))
            == "video"@ || lower_text(trim_text(head)) == "sprite"@ || lower_text(trim_text(head))
            == "sample"@ ==> !background_event(head + seq![','] + rest),
{
    reveal_strlit("0");
    reveal_strlit("1");
    reveal_strlit("2");
    reveal_strlit("background");
    reveal_strlit("video");
    reveal_strlit("sprite");
    reveal_strlit("sample");
    crate::text::law_split(head, ',', rest);
    let t = trim_text(head);
    let h = lower_text(t);
    assert(h.len() == t.len());
    assert(lower_text(seq!['0']) =~= "0"@);
    assert("0"@ =~= seq!['0']);
    assert("0"@[0] == '0' && "1"@[0] == '1' && "2"@[0] == '2');
    assert("background"@.len() == 10 && "video"@.len() == 5);
    assert("sprite"@.len() == 6 && "sample"@.len() == 6);
    if h == "0"@ {
        assert(h[0] == '0');
        assert(t =~= seq!['0']);
    }
    if t == "1"@ || t == "2"@ {
        assert(h[0] == t[0]);
    }
    assert((seq![head] + split_text(rest, ','))[0] == head);
}

/// The background of a map is the image that the last background line under
/// Events names, whether the line begins with the digit or the word, and whatever
/// stands behind the name.
pub proof fn law_background_of_map(
    r: ParsedOsu,
    all: Seq<Seq<char>>,
    raw: Seq<char>,
    head: Seq<char>,
    time: Seq<char>,
    stem: Seq<char>,
    ext: Seq<char>,
    rest: Seq<char>,
)
    requires
        says(r, all.push(raw)),
        section_behind(all) == "Events"@,
        trim_text(raw) == head + seq![','] + time + seq![',', '"'] + (stem + seq!['.'] + ext)
            + seq!['"'] + rest,
        head == seq!['0'] || lower_text(head) == "background"@,
        !time.contains(',') && !time.contains('"'),
        rest.len() > 0 ==> rest[0] == ',',
        stem.len() > 0 && !crate::text::is_space(stem[0]),
        !ext.contains('.'),
        lower_text(ext) == "jpg"@ || lower_text(ext) == "jpeg"@ || lower_text(ext) == "png"@
            || lower_text(ext) == "webp"@ || lower_text(ext) == "bmp"@,
        forall|i: int|
            0 <= i < stem.len() ==> #[trigger] stem[i] != '"' && stem[i] != '/' && stem[i] != '\\'
                && stem[i] != ':',
    ensures
        opt_text(r.background_filename) == Some(stem + seq!['.'] + ext),
{
    let more = all.push(raw);
    assert(more.drop_last() =~= all);
    let name = stem + seq!['.'] + ext;
    let line = trim_text(raw);
    lemma_ext_chars(ext);
    lemma_head_chars(head);
    let tail = seq!['"'] + name + seq!['"'] + rest;
    let middle = time + seq![','] + tail;
    assert(line =~= head + seq![','] + middle);
    assert(line[0] == head[0]);
    lemma_content(line);
    law_background_events(head, middle);
    assert(trim_text(head) == head);
    assert forall|i: int| 0 <= i < name.len() implies #[trigger] name[i] != '"' && name[i] != '/'
        && name[i] != '\\' && name[i] != ':' by {
        if i < stem.len() {
            assert(name[i] == stem[i]);
        } else if i > stem.len() {
            assert(name[i] == ext[i - stem.len() - 1]);
        }
    }
    assert(!name.contains('"'));
    crate::events::law_event_fields(head, name, middle);
    crate::events::law_event_fields(time, name, tail);
    let behind = if rest.len() > 0 {
        rest.drop_first()
    } else {
        rest
    };
    crate::events::law_event_fields(time, name, behind);
    if rest.len() > 0 {
        assert(tail =~= seq!['"'] + name + seq!['"', ','] + behind);
        assert(fields_of(tail)[0] == trim_text(name));
    } else {
        assert(tail =~= seq!['"'] + name + seq!['"']);
        assert(fields_of(tail)[0] == trim_text(name));
    }
    assert(fields_of(line) == seq![trim_text(head)] + (seq![trim_text(time)] + fields_of(tail)));
    assert(fields_of(tail).len() > 0) by {
        if rest.len() > 0 {
            assert(fields_of(tail) == seq![trim_text(name)] + fields_of(behind));
        }
    }
    assert(fields_of(line)[2] == fields_of(tail)[0]);
    assert(name.last() == ext.last());
    assert(trim_text(name) == name);
    assert(third_field(line) == Some(name));
    assert(content_of(more, "Events"@));
    assert(background_field(more) == Some(name));
    lemma_repairable_name(stem, ext);
    assert(background_kept(name, r.background_filename));
}

/// What the extensions of images are made of.
proof fn lemma_ext_chars(ext: Seq<char>)
    requires
        lower_text(ext) == "jpg"@ || lower_text(ext) == "jpeg"@ || lower_text(ext) == "png"@
            || lower_text(ext) == "webp"@ || lower_text(ext) == "bmp"@,
    ensures
        ext.len() > 0,
        forall|i: int|
            0 <= i < ext.len() ==> #[trigger] ext[i] != '"' && ext[i] != '/' && ext[i] != '\\'
                && ext[i] != ':' && !crate::text::is_space(ext[i]),
{
    reveal_strlit("jpg");
    reveal_strlit("jpeg");
    reveal_strlit("png");
    reveal_strlit("webp");
    reveal_strlit("bmp");
    let low = lower_text(ext);
    assert(low.len() == ext.len());
    assert forall|i: int| 0 <= i < low.len() implies 'a' <= #[trigger] low[i] <= 'z' by {}
    assert forall|i: int| 0 <= i < ext.len() implies #[trigger] ext[i] != '"' && ext[i] != '/'
        && ext[i] != '\\' && ext[i] != ':' && !crate::text::is_space(ext[i]) by {
        assert('a' <= low[i] <= 'z');
        crate::text::law_lower_case(ext, i);
    }
}

proof fn lemma_head_chars(head: Seq<char>)
    requires
        head == seq!['0'] || lower_text(head) == "background"@,
    ensures
        head.len() > 0,
        head[0] != '/' && head[0] != '[',
        !head.contains(',') && !head.contains('"'),
        !crate::text::is_space(head[0]) && !crate::text::is_space(head.last()),
{
    reveal_strlit("background");
    if head != seq!['0'] {
        let low = lower_text(head);
        assert(low.len() == head.len());
        assert forall|i: int| 0 <= i < low.len() implies 'a' <= #[trigger] low[i] <= 'z' by {}
        assert forall|i: int| 0 <= i < head.len() implies #[trigger] head[i] != ',' && head[i] != '"'
            && head[i] != '/' && head[i] != '[' && !crate::text::is_space(head[i]) by {
            assert('a' <= low[i] <= 'z');
            crate::text::law_lower_case(head, i);
        }
    }
}

/// A plain name of an image is one that can be repaired.
proof fn lemma_repairable_name(stem: Seq<char>, ext: Seq<char>)
    requires
        stem.len() > 0 && !crate::text::is_space(stem[0]),
        !ext.contains('.'),
        lower_text(ext) == "jpg"@ || lower_text(ext) == "jpeg"@ || lower_text(ext) == "png"@
            || lower_text(ext) == "webp"@ || lower_text(ext) == "bmp"@,
        forall|i: int|
            0 <= i < stem.len() ==> #[trigger] stem[i] != '"' && stem[i] != '/' && stem[i] != '\\'
                && stem[i] != ':',
    ensures
        forall|e: Option<Seq<char>>| #[trigger]
            may_have_extension(unquoted(stem + seq!['.'] + ext), e) ==> repairable_with(
                stem + seq!['.'] + ext,
                e,
            ),
{
    let name = stem + seq!['.'] + ext;
    let n = stem.len() as int;
    lemma_ext_chars(ext);
    assert(name[0] == stem[0] && name.last() == ext.last());
    assert(name[0] != '"' && name.last() != '"');
    assert(unquoted(name) == name);
    assert forall|i: int| 0 <= i < name.len() implies #[trigger] name[i] != '/' && name[i] != '\\'
        && name[i] != ':' by {
        if i < n {
            assert(name[i] == stem[i]);
        } else if i > n {
            assert(name[i] == ext[i - n - 1]);
        }
    }
    assert forall|i: int| n < i < name.len() implies name[i] != '.' by {
        assert(ext.contains(ext[i - n - 1]));
    }
    crate::text::lemma_last_of(name, '.', n);
    crate::text::lemma_last_of(name, '/', -1);
    crate::text::lemma_last_of(name, '\\', -1);
    assert(name.skip(0) =~= name);
    assert(name.skip(n + 1) =~= ext);
    reveal_strlit(".");
    reveal_strlit("..");
    reveal_strlit("0");
    assert(name.len() >= 3);
    assert(crate::trusted::last_part(name) == name);
    assert(!name.contains(':'));
    assert(!crate::trusted::begins_share(name));
    assert(crate::trusted::plain_name(name));
}

/// Lines outside of the Events and lines for anything else leave the background
/// as it is.
pub proof fn law_other_lines_keep_background(
    all: Seq<Seq<char>>,
    raw: Seq<char>,
    head: Seq<char>,
    rest: Seq<char>,
)
    requires
        section_behind(all) != "Events"@ || (trim_text(raw) == head + seq![','] + rest
            && !head.contains(',') && trim_text(head) != seq!['0'] && lower_text(trim_text(head))
            != "background"@),
    ensures
        background_field(all.push(raw)) == background_field(all),
{
    assert(all.push(raw).drop_last() =~= all);
    if section_behind(all) == "Events"@ {
        law_background_events(head, rest);
    }
}

/// A line under TimingPoints gives its second field, and no other line gives
/// one.
pub proof fn law_timing_lines(
    all: Seq<Seq<char>>,
    raw: Seq<char>,
    a: Seq<char>,
    b: Seq<char>,
    rest: Seq<char>,
)
    requires
        trim_text(raw) == a + seq![','] + b + rest,
        rest.len() > 0 ==> rest[0] == ',',
        !a.contains(',') && !b.contains(','),
        a.len() > 0 && a[0] != '/' && a[0] != '[',
    ensures
        section_behind(all) == "TimingPoints"@ ==> beat_length_fields(all.push(raw))
            == beat_length_fields(all).push(b),
        section_behind(all) != "TimingPoints"@ ==> beat_length_fields(all.push(raw))
            == beat_length_fields(all),
{
    let t = trim_text(raw);
    assert(all.push(raw).drop_last() =~= all);
    assert(t[0] == a[0]);
    lemma_content(t);
    assert(t =~= a + seq![','] + (b + rest));
    crate::text::law_split(a, ',', b + rest);
    if rest.len() > 0 {
        assert(b + rest =~= b + seq![','] + rest.drop_first());
        crate::text::law_split(b, ',', rest.drop_first());
    } else {
        assert(b + rest =~= b);
        crate::text::law_split(b, ',', rest);
    }
    assert(split_text(t, ',')[1] == split_text(b + rest, ',')[0]);
}

/// The time and the kind of a hit object are the numbers in its third and fourth
/// fields.
pub proof fn law_hit_object_fields(
    x: Seq<char>,
    y: Seq<char>,
    time: i32,
    kind: i32,
    rest: Seq<char>,
)
    requires
        !x.contains(',') && !y.contains(','),
        rest.len() > 0 ==> rest[0] == ',',
    ensures
        hit_object(
            x + seq![','] + y + seq![','] + crate::number::decimal_int(time as int) + seq![',']
                + crate::number::decimal_int(kind as int) + rest,
        ) == Some((time as int, kind as int)),
{
    let t = crate::number::decimal_int(time as int);
    let k = crate::number::decimal_int(kind as int);
    lemma_no_comma(time as int);
    lemma_no_comma(kind as int);
    crate::number::law_written_numbers_are_read(time as int, i32::MIN as int, i32::MAX as int);
    crate::number::law_written_numbers_are_read(kind as int, i32::MIN as int, i32::MAX as int);
    lemma_four_fields(x, y, t, k, rest);
}

/// The third and the fourth of the fields between commas.
proof fn lemma_four_fields(
    x: Seq<char>,
    y: Seq<char>,
    t: Seq<char>,
    k: Seq<char>,
    rest: Seq<char>,
)
    requires
        !x.contains(',') && !y.contains(',') && !t.contains(',') && !k.contains(','),
        rest.len() > 0 ==> rest[0] == ',',
    ensures
        ({
            let f = split_text(
                x + seq![','] + y + seq![','] + t + seq![','] + k + rest,
                ',',
            );
            f.len() >= 4 && f[2] == t && f[3] == k
        }),
{
    let c = seq![','];
    let l3 = k + rest;
    let l2 = t + c + l3;
    let l1 = y + c + l2;
    let line = x + c + y + c + t + c + k + rest;
    assert(line =~= x + c + l1);
    let f3 = split_text(l3, ',');
    assert(f3.len() > 0 && f3[0] == k) by {
        if rest.len() > 0 {
            assert(l3 =~= k + c + rest.drop_first());
            crate::text::law_split(k, ',', rest.drop_first());
        } else {
            assert(l3 =~= k);
            crate::text::law_split(k, ',', rest);
        }
    }
    let f2 = split_text(l2, ',');
    assert(f2 == seq![t] + f3) by {
        crate::text::law_split(t, ',', l3);
    }
    let f1 = split_text(l1, ',');
    assert(f1 == seq![y] + f2) by {
        crate::text::law_split(y, ',', l2);
    }
    let f = split_text(line, ',');
    assert(f == seq![x] + f1) by {
        crate::text::law_split(x, ',', l1);
    }
}

proof fn lemma_no_comma(n: int)
    ensures
        !crate::number::decimal_int(n).contains(','),
{
    let a = (if n < 0 {
        -n
    } else {
        n
    }) as nat;
    crate::number::law_decimal_round_trip(a);
    let d = crate::number::decimal(a);
    assert forall|i: int| 0 <= i < d.len() implies d[i] != ',' by {
        assert(is_digit(d[i]));
    }
    let s = crate::number::decimal_int(n);
    assert forall|i: int| 0 <= i < s.len() implies s[i] != ',' by {
        if n < 0 && i > 0 {
            assert(s[i] == d[i - 1]);
        }
    }
}

/// A line under HitObjects is counted as a circle where its kind is odd and as a
/// slider where half its kind is, and the time of the last object is the greatest
/// of all.
pub proof fn law_hit_object_lines(
    r: ParsedOsu,
    s: ParsedOsu,
    all: Seq<Seq<char>>,
    raw: Seq<char>,
    time: i32,
    kind: i32,
)
    requires
        says(r, all),
        says(s, all.push(raw)),
        section_behind(all) == "HitObjects"@,
        trim_text(raw).len() > 0 && trim_text(raw)[0] != '/' && trim_text(raw)[0] != '[',
        hit_object(trim_text(raw)) == Some((time as int, kind as int)),
        kind >= 0,
    ensures
        s.circles == (r.circles + (if kind % 2 == 1 { 1int } else { 0 })) % 0x1_0000_0000,
        s.sliders == (r.sliders + (if kind / 2 % 2 == 1 { 1int } else { 0 })) % 0x1_0000_0000,
        s.last_object_time is Some,
        s.last_object_time->0 >= time,
        r.last_object_time is None ==> s.last_object_time->0 == time,
        r.last_object_time is Some ==> s.last_object_time->0 >= r.last_object_time->0 && (
        s.last_object_time->0 == time || s.last_object_time->0 == r.last_object_time->0),
{
    let t = trim_text(raw);
    assert(all.push(raw).drop_last() =~= all);
    lemma_content(t);
    assert(kind & 1 != 0 <==> kind % 2 == 1) by (bit_vector)
        requires
            kind >= 0,
    ;
    assert(kind & 2 != 0 <==> kind / 2 % 2 == 1) by (bit_vector)
        requires
            kind >= 0,
    ;
}

/// Lines outside of the HitObjects, and lines under them that are no objects,
/// change neither the counts nor the time.
pub proof fn law_other_lines_keep_objects(
    r: ParsedOsu,
    s: ParsedOsu,
    all: Seq<Seq<char>>,
    raw: Seq<char>,
)
    requires
        says(r, all),
        says(s, all.push(raw)),
        section_behind(all) != "HitObjects"@ || hit_object(trim_text(raw)) is None,
    ensures
        s.circles == r.circles && s.sliders == r.sliders && s.last_object_time
            == r.last_object_time,
{
    assert(all.push(raw).drop_last() =~= all);
}

/// The beat length of a map is the first one that is above zero: those before it
/// are not.
pub proof fn law_first_beat_length(lengths: Seq<Option<Real32>>, i: int)
    requires
        -1 <= i < lengths.len(),
        i >= 0 ==> lengths[i] is Some && (Real32 { bits: 0 }).below(lengths[i]->0),
        forall|j: int|
            0 <= j < (if i >= 0 { i } else { lengths.len() as int }) ==> (#[trigger] lengths[j]) is None
                || !(Real32 { bits: 0 }).below(lengths[j]->0),
    ensures
        first_positive(lengths) == (if i >= 0 {
            lengths[i]
        } else {
            None
        }),
    decreases lengths.len(),
{
    if lengths.len() > 0 && i != 0 {
        let t = lengths.drop_first();
        assert(lengths[0] is None || !(Real32 { bits: 0 }).below(lengths[0]->0));
        let k = if i > 0 {
            i - 1
        } else {
            -1
        };
        assert forall|j: int| 0 <= j < (if k >= 0 { k } else { t.len() as int }) implies (
        #[trigger] t[j]) is None || !(Real32 { bits: 0 }).below(t[j]->0) by {
            assert(t[j] == lengths[j + 1]);
        }
        law_first_beat_length(t, k);
    }
}

proof fn lemma_digits_in_front(d: Seq<char>, rest: Seq<char>)
    requires
        crate::number::all_digits(d),
        rest.len() > 0 ==> !is_digit(rest[0]),
    ensures
        leading_digits(d + rest) == d,
    decreases d.len(),
{
    if d.len() == 0 {
        assert(d + rest =~= rest);
        assert(leading_digits(rest) =~= d);
    } else {
        let t = d.drop_first();
        assert((d + rest).drop_first() =~= t + rest);
        assert forall|i: int| 0 <= i < t.len() implies is_digit(t[i]) by {
            assert(t[i] == d[i + 1]);
        }
        assert(is_digit(d[0]));
        lemma_digits_in_front(t, rest);
        assert(seq![d[0]] + t =~= d);
    }
}

/// A folder whose name begins with a number has that number for its set; a name
/// that begins otherwise gives none. What the file itself says comes first.
pub proof fn law_set_of_folder(n: nat, rest: Seq<char>, name: Seq<char>)
    requires
        rest.len() > 0 ==> !is_digit(rest[0]) && !crate::text::is_space(rest.last()),
    ensures
        0 < n <= i64::MAX ==> folder_id(Some(crate::number::decimal(n) + rest)) == Some(n as int),
        n == 0 || n > i64::MAX ==> folder_id(Some(crate::number::decimal(n) + rest)) is None,
        folder_id(None) is None,
        trim_text(name).len() == 0 || !is_digit(trim_text(name)[0]) ==> folder_id(Some(name)) is None,
{
    let d = crate::number::decimal(n);
    let s = d + rest;
    crate::number::law_decimal_round_trip(n);
    crate::number::law_written_numbers_are_read(n as int, i64::MIN as int, i64::MAX as int);
    assert(is_digit(d[0]));
    assert(is_digit(d[d.len() - 1]));
    assert(s[0] == d[0]);
    assert(s.last() == (if rest.len() > 0 {
        rest.last()
    } else {
        d.last()
    }));
    assert(trim_text(s) == s);
    lemma_digits_in_front(d, rest);
    assert(trim_text(d) == d);
    assert(crate::number::decimal_int(n as int) == d);
}

/// What the file says of its set comes before what the folder says.
pub proof fn law_set_of_file(parsed: ParsedOsu, folder: FilePath)
    ensures
        parsed.beatmapset_id is Some ==> set_id_of(parsed, folder) == Some(
            parsed.beatmapset_id->0 as int,
        ),
        parsed.beatmapset_id is None ==> set_id_of(parsed, folder) == folder_id(
            opt_text(folder.file_name),
        ),
{
}

// ---- missing files ----

/// A file that a map names and that is not there is reported, whether or not the
/// other one is there, with the word for what it is and its name; a file that is
/// there, or that the map does not name, is not.
pub proof fn law_missing_files_are_reported(
    map: LocalBeatmap,
    audio_exists: bool,
    background_exists: bool,
)
    ensures
        map.audio_filename is Some && !audio_exists ==> issues_of(
            map,
            audio_exists,
            background_exists,
        ).contains(
            IssueView {
                beatmap: map.path,
                message: "Missing audio file: "@ + map.audio_filename->0@,
                severity: RepairSeverity::MissingRequiredFile,
            },
        ),
        map.background_filename is Some && !background_exists ==> issues_of(
            map,
            audio_exists,
            background_exists,
        ).contains(
            IssueView {
                beatmap: map.path,
                message: "Missing background file: "@ + map.background_filename->0@,
                severity: RepairSeverity::MissingRequiredFile,
            },
        ),
        issues_of(map, audio_exists, background_exists).len() == (if map.audio_filename is Some
            && !audio_exists {
            1int
        } else {
            0
        }) + (if map.background_filename is Some && !background_exists {
            1int
        } else {
            0
        }),
{
    let all = issues_of(map, audio_exists, background_exists);
    if map.background_filename is Some && !background_exists {
        assert(all.contains(all[all.len() - 1]));
    }
    if map.audio_filename is Some && !audio_exists {
        assert(all.contains(all[0]));
    }
}

// ---- sets ----

/// Sets stand in the order of their identifiers, those without one first, and
/// where they have the same in the order of their folders.
pub proof fn law_order_of_sets(
    sets: Seq<LocalBeatmapSet>,
    maps: Seq<LocalBeatmap>,
    i: int,
    j: int,
)
    requires
        sets_of(sets, maps),
        0 <= i < j < sets.len(),
    ensures
        sets[i].beatmapset_id is Some ==> sets[j].beatmapset_id is Some
            && sets[i].beatmapset_id->0 <= sets[j].beatmapset_id->0,
        sets[i].beatmapset_id == sets[j].beatmapset_id ==> text_less(
            sets[i].folder.key@,
            sets[j].folder.key@,
        ),
{
    assert(key_less(key_of_set(sets[i]), key_of_set(sets[j])));
}

/// Only images can be repaired: the extension is one of theirs, and the value is
/// more than a zero.
pub proof fn law_only_images_are_repaired(value: Seq<char>, extension: Option<Seq<char>>)
    ensures
        repairable_with(value, extension) ==> extension is Some && (lower_text(extension->0)
            == "jpg"@ || lower_text(extension->0) == "jpeg"@ || lower_text(extension->0) == "png"@
            || lower_text(extension->0) == "webp"@ || lower_text(extension->0) == "bmp"@),
        unquoted(value).len() == 0 || unquoted(value) == seq!['0'] ==> !repairable_with(
            value,
            extension,
        ),
{
    reveal_strlit("0");
    assert("0"@ =~= seq!['0']);
}

/// A line with fewer than three fields names no file.
pub proof fn law_short_lines_name_nothing(line: Seq<char>)
    ensures
        fields_of(line).len() <= 2 ==> third_field(line) is None,
        fields_of(line).len() >= 3 ==> third_field(line) == Some(fields_of(line)[2]),
{
}

} // verus!
