//! The plan for a folder: every file that is to be reported, with what is to
//! be done with it.
use crate::events::{events_section, is_hitsound_name, key_of, parse_event_assets, EventUse};
#[allow(unused_imports)]
use crate::events::{asset_key, event_assets, events_body, hitsound_name};
use crate::local::LocalBeatmap;
use crate::number::decimal_text;
#[allow(unused_imports)]
use crate::number::decimal;
use crate::order::TextSet;
use crate::shrink::{
    SetAsset, SetShrinkReport, ShrinkAction, ShrinkAssetKind, ShrinkCache, ShrinkOptions,
    AUDIO_REENCODE_ABOVE_BPS, IMAGE_MAX_WIDTH, JPEG_MIN_BYTES, PNG_MIN_BYTES, SKIN_JPEG_MIN_BYTES,
    SKIN_PNG_MIN_BYTES, VIDEO_MAX_HEIGHT,
};
#[allow(unused_imports)]
use crate::shrink::{
    already_shrunk, assets_view, settings_text, shrunk, work_count, ActionView, AssetView,
    RecordView,
};
use crate::text::{chars_of, same_text, to_lower};
#[allow(unused_imports)]
use crate::text::{lines_text, lower_text, texts};
use vstd::prelude::*;
use vstd::string::*;

verus! {

// ---- what a set refers to ----

/// The keys of the files that the difficulties and the storyboard of a set
/// refer to.
#[derive(Debug)]
pub struct SetReferences {
    pub audio: TextSet,
    pub backgrounds: TextSet,
    pub videos: TextSet,
    pub sprites: TextSet,
    /// Sounds of the storyboard: protected, and never orphans.
    pub samples: TextSet,
}

/// The view of [`SetReferences`].
#[verifier::ext_equal]
pub struct RefsView {
    pub audio: Set<Seq<char>>,
    pub backgrounds: Set<Seq<char>>,
    pub videos: Set<Seq<char>>,
    pub sprites: Set<Seq<char>>,
    pub samples: Set<Seq<char>>,
}

impl View for SetReferences {
    type V = RefsView;

    open spec fn view(&self) -> RefsView {
        RefsView {
            audio: self.audio@,
            backgrounds: self.backgrounds@,
            videos: self.videos@,
            sprites: self.sprites@,
            samples: self.samples@,
        }
    }
}

impl SetReferences {
    /// The sets are in order.
    pub open spec fn wf(self) -> bool {
        &&& self.audio.wf()
        &&& self.backgrounds.wf()
        &&& self.videos.wf()
        &&& self.sprites.wf()
        &&& self.samples.wf()
    }
}

/// The keys of the audio files that the maps name.
pub open spec fn audio_keys(maps: Seq<LocalBeatmap>) -> Set<Seq<char>> {
    Set::new(|key: Seq<char>| names_audio(maps, key))
}

/// Whether one of the maps names its audio file so.
pub open spec fn names_audio(maps: Seq<LocalBeatmap>, key: Seq<char>) -> bool {
    exists|i: int|
        0 <= i < maps.len() && (#[trigger] maps[i]).audio_filename is Some && asset_key(
            maps[i].audio_filename->0@,
        ) == key
}

/// The keys of the background files that the maps name.
pub open spec fn background_keys(maps: Seq<LocalBeatmap>) -> Set<Seq<char>> {
    Set::new(|key: Seq<char>| names_background(maps, key))
}

/// Whether one of the maps names its background file so.
pub open spec fn names_background(maps: Seq<LocalBeatmap>, key: Seq<char>) -> bool {
    exists|i: int|
        0 <= i < maps.len() && (#[trigger] maps[i]).background_filename is Some && asset_key(
            maps[i].background_filename->0@,
        ) == key
}

/// The keys of the files that the events in a text name for `u`.
pub open spec fn text_assets(text: Seq<char>, u: EventUse) -> Set<Seq<char>> {
    event_assets(lines_text(events_body(lines_text(text), false)), u)
}

/// The keys of the files that the events in the texts name for `u`.
pub open spec fn source_assets(sources: Seq<Seq<char>>, u: EventUse) -> Set<Seq<char>>
    decreases sources.len(),
{
    if sources.len() == 0 {
        Set::empty()
    } else {
        source_assets(sources.drop_last(), u).union(text_assets(sources.last(), u))
    }
}

/// What the maps and the texts of their beatmap and storyboard files refer to.
pub open spec fn references_of(maps: Seq<LocalBeatmap>, sources: Seq<Seq<char>>) -> RefsView {
    RefsView {
        audio: audio_keys(maps),
        backgrounds: background_keys(maps),
        videos: source_assets(sources, EventUse::Video),
        sprites: source_assets(sources, EventUse::Sprite),
        samples: source_assets(sources, EventUse::Sample),
    }
}

/// Whether a file with this extension is a storyboard.
pub fn is_storyboard_file(extension: Option<&str>) -> (r: bool)
    ensures
        r == (extension is Some && lower_text(extension->0@) == lower_text("osb"@)),
{
    match extension {
        Some(e) => crate::text::same_ignoring_case(e, "osb"),
        None => false,
    }
}

/// What the maps and the texts of their beatmap and storyboard files refer to.
pub fn collect_references(maps: &Vec<LocalBeatmap>, sources: &Vec<String>) -> (r: SetReferences)
    ensures
        r.wf(),
        r@ == references_of(maps@, texts(sources@)),
{
    let mut audio = TextSet::new();
    let mut backgrounds = TextSet::new();
    let mut videos = TextSet::new();
    let mut sprites = TextSet::new();
    let mut samples = TextSet::new();
    let mut i: usize = 0;
    assert(audio@ =~= audio_keys(maps@.take(0)));
    assert(backgrounds@ =~= background_keys(maps@.take(0)));
    while i < maps.len()
        invariant
            i <= maps@.len(),
            audio.wf() && backgrounds.wf(),
            audio@ == audio_keys(maps@.take(i as int)),
            backgrounds@ == background_keys(maps@.take(i as int)),
        decreases maps@.len() - i,
    {
        let ghost before = maps@.take(i as int);
        let ghost here = maps@.take(i as int + 1);
        if let Some(name) = &maps[i].audio_filename {
            audio.insert(key_of(name));
        }
        if let Some(name) = &maps[i].background_filename {
            backgrounds.insert(key_of(name));
        }
        proof {
            assert(here.last() == maps@[i as int]);
            assert(here.drop_last() =~= before);
            lemma_map_keys_step(here);
            assert(audio@ =~= audio_keys(here));
            assert(backgrounds@ =~= background_keys(here));
        }
        i = i + 1;
    }
    assert(maps@.take(i as int) =~= maps@);
    let ghost all = texts(sources@);
    let mut j: usize = 0;
    assert(all.take(0) =~= seq![]);
    while j < sources.len()
        invariant
            j <= sources@.len(),
            all == texts(sources@),
            videos.wf() && sprites.wf() && samples.wf(),
            videos@ == source_assets(all.take(j as int), EventUse::Video),
            sprites@ == source_assets(all.take(j as int), EventUse::Sprite),
            samples@ == source_assets(all.take(j as int), EventUse::Sample),
        decreases sources@.len() - j,
    {
        let found = parse_event_assets(&events_section(&sources[j]));
        proof {
            assert(all.take(j as int + 1).drop_last() =~= all.take(j as int));
            assert(all.take(j as int + 1).last() == sources@[j as int]@);
        }
        videos.add_all(&found.0);
        sprites.add_all(&found.1);
        samples.add_all(&found.2);
        j = j + 1;
    }
    assert(all.take(j as int) =~= all);
    SetReferences { audio, backgrounds, videos, sprites, samples }
}

/// One map more names at most one audio file and one background file more.
proof fn lemma_map_keys_step(maps: Seq<LocalBeatmap>)
    requires
        maps.len() > 0,
    ensures
        forall|key: Seq<char>| #[trigger]
            names_audio(maps, key) <==> names_audio(maps.drop_last(), key) || (
            maps.last().audio_filename is Some && asset_key(maps.last().audio_filename->0@)
                == key),
        forall|key: Seq<char>| #[trigger]
            names_background(maps, key) <==> names_background(maps.drop_last(), key) || (
            maps.last().background_filename is Some && asset_key(
                maps.last().background_filename->0@,
            ) == key),
{
    let init = maps.drop_last();
    assert forall|key: Seq<char>| #[trigger]
        names_audio(maps, key) <==> names_audio(init, key) || (maps.last().audio_filename is Some
            && asset_key(maps.last().audio_filename->0@) == key) by {
        if names_audio(maps, key) {
            let i = choose|i: int|
                0 <= i < maps.len() && (#[trigger] maps[i]).audio_filename is Some && asset_key(
                    maps[i].audio_filename->0@,
                ) == key;
            if i < init.len() {
                assert(init[i] == maps[i]);
            }
        }
        if names_audio(init, key) {
            let i = choose|i: int|
                0 <= i < init.len() && (#[trigger] init[i]).audio_filename is Some && asset_key(
                    init[i].audio_filename->0@,
                ) == key;
            assert(maps[i] == init[i]);
        }
    }
    assert forall|key: Seq<char>| #[trigger]
        names_background(maps, key) <==> names_background(init, key) || (
        maps.last().background_filename is Some && asset_key(maps.last().background_filename->0@)
            == key) by {
        if names_background(maps, key) {
            let i = choose|i: int|
                0 <= i < maps.len() && (#[trigger] maps[i]).background_filename is Some
                    && asset_key(maps[i].background_filename->0@) == key;
            if i < init.len() {
                assert(init[i] == maps[i]);
            }
        }
        if names_background(init, key) {
            let i = choose|i: int|
                0 <= i < init.len() && (#[trigger] init[i]).background_filename is Some
                    && asset_key(init[i].background_filename->0@) == key;
            assert(maps[i] == init[i]);
        }
    }
}

// ---- files ----

/// What a probe of a media file tells. The duration is the bits of a double.
#[derive(Debug)]
pub struct MediaProbe {
    pub codec: String,
    pub width: u32,
    pub height: u32,
    pub bitrate: Option<u64>,
    pub duration: u64,
    pub has_audio: bool,
}

/// Whether the double with these bits is above zero.
pub open spec fn positive_double(bits: u64) -> bool {
    0 < bits && bits <= 0x7ff0_0000_0000_0000
}

/// Whether the double with these bits is above zero.
pub fn is_significant(bits: u64) -> (r: bool)
    ensures
        r == positive_double(bits),
{
    0 < bits && bits <= 0x7ff0_0000_0000_0000
}

/// What floating-point arithmetic makes of a file and its probe: bitrate,
/// sizes after an encoding, and the size of an image scaled to the largest
/// width.
#[derive(Clone, Copy, Debug, PartialEq, Eq, Structural)]
pub struct Estimates {
    /// The bits of the file for each second of its duration.
    pub container_bps: u64,
    /// The size of the song at the target bitrate.
    pub audio: u64,
    /// The size of the video at no more than the largest height.
    pub video: u64,
    /// The size of the image after an encoding.
    pub image: u64,
    /// The size of the image of a skin after an encoding.
    pub skin: u64,
    pub scaled_width: u32,
    pub scaled_height: u32,
}

/// A file of a folder.
#[derive(Debug)]
pub struct FileFacts {
    pub path: String,
    pub name: String,
    pub extension: String,
    pub bytes: u64,
    pub mtime: u64,
    pub probe: Option<MediaProbe>,
    pub dimensions: Option<(u32, u32)>,
    pub estimates: Estimates,
}

/// Extensions of audio files, in lower case.
pub open spec fn audio_ext(e: Seq<char>) -> bool {
    ||| e == "mp3"@
    ||| e == "ogg"@
    ||| e == "wav"@
    ||| e == "flac"@
    ||| e == "m4a"@
    ||| e == "aac"@
    ||| e == "opus"@
    ||| e == "wma"@
}

/// Whether this is the extension of an audio file, in lower case.
pub fn is_audio_ext(e: &str) -> (r: bool)
    ensures
        r == audio_ext(e@),
{
    same_text(e, "mp3") || same_text(e, "ogg") || same_text(e, "wav") || same_text(e, "flac")
        || same_text(e, "m4a") || same_text(e, "aac") || same_text(e, "opus") || same_text(e, "wma")
}

/// Extensions of images, in lower case.
pub open spec fn image_ext(e: Seq<char>) -> bool {
    ||| e == "jpg"@
    ||| e == "jpeg"@
    ||| e == "png"@
    ||| e == "bmp"@
    ||| e == "tif"@
    ||| e == "tiff"@
    ||| e == "webp"@
    ||| e == "gif"@
    ||| e == "ico"@
}

/// Whether this is the extension of an image, in lower case.
pub fn is_image_ext(e: &str) -> (r: bool)
    ensures
        r == image_ext(e@),
{
    same_text(e, "jpg") || same_text(e, "jpeg") || same_text(e, "png") || same_text(e, "bmp")
        || same_text(e, "tif") || same_text(e, "tiff") || same_text(e, "webp") || same_text(
        e,
        "gif",
    ) || same_text(e, "ico")
}

/// Extensions of videos, in lower case.
pub open spec fn video_ext(e: Seq<char>) -> bool {
    ||| e == "mp4"@
    ||| e == "avi"@
    ||| e == "flv"@
    ||| e == "mov"@
    ||| e == "mkv"@
    ||| e == "wmv"@
    ||| e == "mpg"@
    ||| e == "mpeg"@
    ||| e == "m2ts"@
    ||| e == "webm"@
}

/// Whether this is the extension of a video, in lower case.
pub fn is_video_ext(e: &str) -> (r: bool)
    ensures
        r == video_ext(e@),
{
    same_text(e, "mp4") || same_text(e, "avi") || same_text(e, "flv") || same_text(e, "mov")
        || same_text(e, "mkv") || same_text(e, "wmv") || same_text(e, "mpg") || same_text(e, "mpeg")
        || same_text(e, "m2ts") || same_text(e, "webm")
}

/// Extensions of beatmaps, storyboards, configuration and archives, in lower
/// case.
pub open spec fn kept_ext(e: Seq<char>) -> bool {
    ||| e == "osu"@
    ||| e == "osb"@
    ||| e == "ini"@
    ||| e == "osz"@
    ||| e == "osk"@
}

fn is_kept_ext(e: &str) -> (r: bool)
    ensures
        r == kept_ext(e@),
{
    same_text(e, "osu") || same_text(e, "osb") || same_text(e, "ini") || same_text(e, "osz")
        || same_text(e, "osk")
}

/// What a file is to the set that it lies with.
#[derive(Clone, Copy, Debug, PartialEq, Eq, Structural)]
pub enum AssetRole {
    /// Not reported at all.
    Hidden,
    Song,
    Background,
    Video,
    Sprite,
    Sample,
    Hitsound,
    Orphan,
}

/// What a file is to the set that it lies with. Hidden and empty files,
/// beatmaps, storyboards, configuration, archives and whatever is no media file
/// are not reported. Audio files with the name of a hitsound are played without
/// being named anywhere, so that they are no orphans.
pub open spec fn role_of(
    refs: RefsView,
    name: Seq<char>,
    extension: Seq<char>,
    bytes: u64,
) -> AssetRole {
    let key = asset_key(name);
    let e = lower_text(extension);
    if (name.len() > 0 && name[0] == '.') || bytes == 0 || kept_ext(e) {
        AssetRole::Hidden
    } else if refs.audio.contains(key) {
        AssetRole::Song
    } else if refs.backgrounds.contains(key) {
        AssetRole::Background
    } else if refs.videos.contains(key) {
        AssetRole::Video
    } else if refs.sprites.contains(key) {
        AssetRole::Sprite
    } else if refs.samples.contains(key) {
        AssetRole::Sample
    } else if e == "wav"@ || (audio_ext(e) && hitsound_name(name)) {
        AssetRole::Hitsound
    } else if audio_ext(e) || image_ext(e) || video_ext(e) {
        AssetRole::Orphan
    } else {
        AssetRole::Hidden
    }
}

/// What a file is to the set that it lies with.
pub fn asset_role(refs: &SetReferences, name: &str, extension: &str, bytes: u64) -> (r: AssetRole)
    requires
        refs.wf(),
    ensures
        r == role_of(refs@, name@, extension@, bytes),
{
    let cs = chars_of(name);
    let e = to_lower(extension);
    if (cs.len() > 0 && cs[0] == '.') || bytes == 0 || is_kept_ext(&e) {
        return AssetRole::Hidden;
    }
    let key = key_of(name);
    if refs.audio.contains(&key) {
        AssetRole::Song
    } else if refs.backgrounds.contains(&key) {
        AssetRole::Background
    } else if refs.videos.contains(&key) {
        AssetRole::Video
    } else if refs.sprites.contains(&key) {
        AssetRole::Sprite
    } else if refs.samples.contains(&key) {
        AssetRole::Sample
    } else if same_text(&e, "wav") || (is_audio_ext(&e) && is_hitsound_name(name)) {
        AssetRole::Hitsound
    } else if is_audio_ext(&e) || is_image_ext(&e) || is_video_ext(&e) {
        AssetRole::Orphan
    } else {
        AssetRole::Hidden
    }
}

// ---- plans for single files ----

/// A file that is left as it is, for a reason.
pub open spec fn skipped(
    name: Seq<char>,
    bytes: u64,
    kind: ShrinkAssetKind,
    reason: Seq<char>,
) -> AssetView {
    AssetView {
        name,
        bytes,
        kind,
        action: ActionView::Skip { reason },
        est_bytes: bytes,
        note: reason,
    }
}

/// A file that is left as it is, for a reason.
pub fn skip_asset(name: &str, bytes: u64, kind: ShrinkAssetKind, reason: &str) -> (r: SetAsset)
    ensures
        r@ == skipped(name@, bytes, kind, reason@),
{
    SetAsset {
        name: name.to_owned(),
        bytes,
        kind,
        action: ShrinkAction::Skip { reason: reason.to_owned() },
        est_bytes: bytes,
        note: reason.to_owned(),
    }
}

/// The plan after a look at the records: an encoding that they say was done
/// already is skipped; any other plan stays as it is.
pub open spec fn after_records(
    path: Seq<char>,
    bytes: u64,
    mtime: u64,
    asset: AssetView,
    records: Map<Seq<char>, RecordView>,
    settings: Seq<char>,
) -> AssetView {
    if asset.action.reencode() && shrunk(records, path, bytes, mtime, asset.action, settings) {
        AssetView {
            action: ActionView::Skip { reason: already_shrunk() },
            est_bytes: bytes,
            note: "already shrunk — skipping"@,
            ..asset
        }
    } else {
        asset
    }
}

/// The plan after a look at the records.
pub fn maybe_cached(
    path: &str,
    bytes: u64,
    mtime: u64,
    asset: SetAsset,
    shrink_cache: &ShrinkCache,
    settings: &str,
) -> (r: SetAsset)
    requires
        shrink_cache.wf(),
    ensures
        r@ == after_records(path@, bytes, mtime, asset@, shrink_cache@, settings@),
{
    if asset.action.is_reencode() && shrink_cache.is_shrunk(
        path,
        bytes,
        mtime,
        &asset.action,
        settings,
    ) {
        SetAsset {
            name: asset.name,
            bytes: asset.bytes,
            kind: asset.kind,
            action: ShrinkAction::Skip { reason: "already shrunk".to_owned() },
            est_bytes: bytes,
            note: "already shrunk — skipping".to_owned(),
        }
    } else {
        asset
    }
}

/// The bitrate of a song: the one that the probe tells or, where it tells
/// none, the bits of the file for each second.
pub open spec fn source_bps(probe: MediaProbe, est: Estimates) -> u64 {
    match probe.bitrate {
        Some(b) => b,
        None => if positive_double(probe.duration) {
            est.container_bps
        } else {
            0
        },
    }
}

/// The plan for the audio of a song. Only MP3 and Ogg files can keep their
/// name, and with it the beatmaps that name them.
pub open spec fn song_plan(
    name: Seq<char>,
    bytes: u64,
    e: Seq<char>,
    probe: Option<MediaProbe>,
    est: Estimates,
) -> AssetView {
    let kind = ShrinkAssetKind::SongAudio;
    if e != "mp3"@ && e != "ogg"@ {
        skipped(name, bytes, kind, "unsupported container (only mp3/ogg)"@)
    } else {
        match probe {
            None => skipped(name, bytes, kind, "could not probe audio"@),
            Some(p) => {
                let bps = source_bps(p, est);
                if bps <= AUDIO_REENCODE_ABOVE_BPS || !positive_double(p.duration) {
                    skipped(name, bytes, kind, "already ≤192k"@)
                } else if e == "mp3"@ {
                    AssetView {
                        name,
                        bytes,
                        kind,
                        action: ActionView::Mp3Cbr192,
                        est_bytes: est.audio,
                        note: decimal((bps / 1000) as nat) + " kbps → 192k"@,
                    }
                } else {
                    AssetView {
                        name,
                        bytes,
                        kind,
                        action: ActionView::OggQ6,
                        est_bytes: est.audio,
                        note: decimal((bps / 1000) as nat) + " kbps → ~192k"@,
                    }
                }
            },
        }
    }
}

/// The plan for the audio of a song.
pub fn plan_song_audio(
    name: &str,
    bytes: u64,
    e: &str,
    probe: &Option<MediaProbe>,
    est: Estimates,
) -> (r: SetAsset)
    ensures
        r@ == song_plan(name@, bytes, e@, *probe, est),
{
    let kind = ShrinkAssetKind::SongAudio;
    let is_mp3 = same_text(e, "mp3");
    if !is_mp3 && !same_text(e, "ogg") {
        return skip_asset(name, bytes, kind, "unsupported container (only mp3/ogg)");
    }
    let probe = match probe {
        Some(p) => p,
        None => return skip_asset(name, bytes, kind, "could not probe audio"),
    };
    let bps: u64 = match probe.bitrate {
        Some(b) => b,
        None => if is_significant(probe.duration) {
            est.container_bps
        } else {
            0
        },
    };
    if bps <= AUDIO_REENCODE_ABOVE_BPS || !is_significant(probe.duration) {
        return skip_asset(name, bytes, kind, "already ≤192k");
    }
    let mut note = decimal_text(bps / 1000);
    let action = if is_mp3 {
        note.append(" kbps → 192k");
        ShrinkAction::Mp3Cbr192
    } else {
        note.append(" kbps → ~192k");
        ShrinkAction::OggQ6
    };
    SetAsset { name: name.to_owned(), bytes, kind, action, est_bytes: est.audio, note }
}

/// The plan for a background video. Only MP4 files can keep their name.
pub open spec fn video_plan(
    name: Seq<char>,
    bytes: u64,
    e: Seq<char>,
    probe: Option<MediaProbe>,
    est: Estimates,
    options: ShrinkOptions,
) -> AssetView {
    let kind = ShrinkAssetKind::Video;
    if options.remove_videos {
        AssetView {
            name,
            bytes,
            kind,
            action: ActionView::RemoveVideo,
            est_bytes: 0,
            note: "deleted · game shows background instead"@,
        }
    } else if e != "mp4"@ {
        skipped(name, bytes, kind, "unsupported container (only mp4)"@)
    } else {
        match probe {
            None => skipped(name, bytes, kind, "could not probe video"@),
            Some(p) => if p.codec@ == "h264"@ && p.height <= VIDEO_MAX_HEIGHT && !p.has_audio
                && p.width != 0 {
                skipped(name, bytes, kind, "already H.264 ≤720p"@)
            } else {
                AssetView {
                    name,
                    bytes,
                    kind,
                    action: ActionView::Video720pH264,
                    est_bytes: est.video,
                    note: decimal(p.width as nat) + "x"@ + decimal(p.height as nat) + " "@
                        + p.codec@ + " → 720p H.264"@,
                }
            },
        }
    }
}

/// The plan for a background video.
pub fn plan_video(
    name: &str,
    bytes: u64,
    e: &str,
    probe: &Option<MediaProbe>,
    est: Estimates,
    options: &ShrinkOptions,
) -> (r: SetAsset)
    ensures
        r@ == video_plan(name@, bytes, e@, *probe, est, *options),
{
    let kind = ShrinkAssetKind::Video;
    if options.remove_videos {
        return SetAsset {
            name: name.to_owned(),
            bytes,
            kind,
            action: ShrinkAction::RemoveVideo,
            est_bytes: 0,
            note: "deleted · game shows background instead".to_owned(),
        };
    }
    if !same_text(e, "mp4") {
        return skip_asset(name, bytes, kind, "unsupported container (only mp4)");
    }
    let probe = match probe {
        Some(p) => p,
        None => return skip_asset(name, bytes, kind, "could not probe video"),
    };
    let needs_work = !same_text(&probe.codec, "h264") || probe.height > VIDEO_MAX_HEIGHT
        || probe.has_audio || probe.width == 0;
    if !needs_work {
        return skip_asset(name, bytes, kind, "already H.264 ≤720p");
    }
    let mut note = decimal_text(probe.width as u64);
    note.append("x");
    note.append(&decimal_text(probe.height as u64));
    note.append(" ");
    note.append(&probe.codec);
    note.append(" → 720p H.264");
    SetAsset {
        name: name.to_owned(),
        bytes,
        kind,
        action: ShrinkAction::Video720pH264,
        est_bytes: est.video,
        note,
    }
}

/// The size that an image gets, as a text.
pub open spec fn scaled_text(width: u32, est: Estimates) -> Seq<char> {
    if width > IMAGE_MAX_WIDTH {
        decimal(est.scaled_width as nat) + "x"@ + decimal(est.scaled_height as nat)
    } else {
        "same size"@
    }
}

/// The plan for an image: it is encoded anew where it is too wide or too big.
pub open spec fn image_plan(
    name: Seq<char>,
    bytes: u64,
    e: Seq<char>,
    dimensions: Option<(u32, u32)>,
    est: Estimates,
) -> AssetView {
    let kind = ShrinkAssetKind::Image;
    if e == "gif"@ {
        skipped(name, bytes, kind, "animated — keep as-is"@)
    } else if !(e == "jpg"@ || e == "jpeg"@ || e == "png"@ || e == "bmp"@ || e == "webp"@) {
        skipped(name, bytes, kind, "unsupported image type"@)
    } else {
        match dimensions {
            None => skipped(name, bytes, kind, "could not read image"@),
            Some((w, h)) => if w == 0 || h == 0 {
                skipped(name, bytes, kind, "could not read image"@)
            } else if w <= IMAGE_MAX_WIDTH && bytes <= (if e == "png"@ {
                PNG_MIN_BYTES
            } else {
                JPEG_MIN_BYTES
            }) {
                skipped(name, bytes, kind, "already efficient"@)
            } else {
                AssetView {
                    name,
                    bytes,
                    kind,
                    action: ActionView::ImageReencode,
                    est_bytes: est.image,
                    note: decimal(w as nat) + "x"@ + decimal(h as nat) + " → "@ + scaled_text(
                        w,
                        est,
                    ),
                }
            },
        }
    }
}

/// The size that an image gets, as a text.
pub fn scale_note(width: u32, est: Estimates) -> (r: String)
    ensures
        r@ == scaled_text(width, est),
{
    if width > IMAGE_MAX_WIDTH {
        let mut r = decimal_text(est.scaled_width as u64);
        r.append("x");
        r.append(&decimal_text(est.scaled_height as u64));
        r
    } else {
        "same size".to_owned()
    }
}

/// The plan for an image.
pub fn plan_image(
    name: &str,
    bytes: u64,
    e: &str,
    dimensions: Option<(u32, u32)>,
    est: Estimates,
) -> (r: SetAsset)
    ensures
        r@ == image_plan(name@, bytes, e@, dimensions, est),
{
    let kind = ShrinkAssetKind::Image;
    if same_text(e, "gif") {
        return skip_asset(name, bytes, kind, "animated — keep as-is");
    }
    let is_png = same_text(e, "png");
    if !(same_text(e, "jpg") || same_text(e, "jpeg") || is_png || same_text(e, "bmp") || same_text(
        e,
        "webp",
    )) {
        return skip_asset(name, bytes, kind, "unsupported image type");
    }
    let (w, h): (u32, u32) = match dimensions {
        Some(d) => d,
        None => return skip_asset(name, bytes, kind, "could not read image"),
    };
    if w == 0 || h == 0 {
        return skip_asset(name, bytes, kind, "could not read image");
    }
    let limit: u64 = if is_png {
        PNG_MIN_BYTES
    } else {
        JPEG_MIN_BYTES
    };
    if w <= IMAGE_MAX_WIDTH && bytes <= limit {
        return skip_asset(name, bytes, kind, "already efficient");
    }
    let mut note = decimal_text(w as u64);
    note.append("x");
    note.append(&decimal_text(h as u64));
    note.append(" → ");
    note.append(&scale_note(w, est));
    SetAsset {
        name: name.to_owned(),
        bytes,
        kind,
        action: ShrinkAction::ImageReencode,
        est_bytes: est.image,
        note,
    }
}

/// The plan for a media file that nothing refers to.
pub open spec fn orphan_plan(name: Seq<char>, bytes: u64, options: ShrinkOptions) -> AssetView {
    AssetView {
        name,
        bytes,
        kind: ShrinkAssetKind::Orphan,
        action: if options.delete_orphans {
            ActionView::DeleteOrphan
        } else {
            ActionView::Skip { reason: "unreferenced"@ }
        },
        est_bytes: if options.delete_orphans {
            0
        } else {
            bytes
        },
        note: "nothing references this file"@,
    }
}

/// The plan for a file of a set, if it is reported.
pub open spec fn set_plan(
    refs: RefsView,
    f: FileFacts,
    options: ShrinkOptions,
    records: Map<Seq<char>, RecordView>,
) -> Option<AssetView> {
    let e = lower_text(f.extension@);
    let settings = settings_text(options);
    match role_of(refs, f.name@, f.extension@, f.bytes) {
        AssetRole::Hidden => None,
        AssetRole::Song => Some(
            after_records(
                f.path@,
                f.bytes,
                f.mtime,
                song_plan(f.name@, f.bytes, e, f.probe, f.estimates),
                records,
                settings,
            ),
        ),
        AssetRole::Background => Some(
            after_records(
                f.path@,
                f.bytes,
                f.mtime,
                image_plan(f.name@, f.bytes, e, f.dimensions, f.estimates),
                records,
                settings,
            ),
        ),
        AssetRole::Video => Some(
            after_records(
                f.path@,
                f.bytes,
                f.mtime,
                video_plan(f.name@, f.bytes, e, f.probe, f.estimates, options),
                records,
                settings,
            ),
        ),
        AssetRole::Sprite => Some(
            after_records(
                f.path@,
                f.bytes,
                f.mtime,
                image_plan(f.name@, f.bytes, e, f.dimensions, f.estimates),
                records,
                settings,
            ),
        ),
        AssetRole::Sample => Some(
            skipped(f.name@, f.bytes, ShrinkAssetKind::Protected, "storyboard sample"@),
        ),
        AssetRole::Hitsound => Some(
            skipped(f.name@, f.bytes, ShrinkAssetKind::Protected, "hitsound"@),
        ),
        AssetRole::Orphan => Some(orphan_plan(f.name@, f.bytes, options)),
    }
}

/// The plan for a file of a set, if it is reported.
pub fn plan_set_file(
    refs: &SetReferences,
    f: &FileFacts,
    options: &ShrinkOptions,
    shrink_cache: &ShrinkCache,
) -> (r: Option<SetAsset>)
    requires
        refs.wf(),
        shrink_cache.wf(),
    ensures
        match r {
            Some(asset) => set_plan(refs@, *f, *options, shrink_cache@) == Some(asset@),
            None => set_plan(refs@, *f, *options, shrink_cache@) is None,
        },
{
    let role = asset_role(refs, &f.name, &f.extension, f.bytes);
    let e = to_lower(&f.extension);
    let settings = options.fingerprint();
    let plan = match role {
        AssetRole::Hidden => return None,
        AssetRole::Song => plan_song_audio(&f.name, f.bytes, &e, &f.probe, f.estimates),
        AssetRole::Background => plan_image(&f.name, f.bytes, &e, f.dimensions, f.estimates),
        AssetRole::Video => plan_video(&f.name, f.bytes, &e, &f.probe, f.estimates, options),
        AssetRole::Sprite => plan_image(&f.name, f.bytes, &e, f.dimensions, f.estimates),
        AssetRole::Sample => return Some(
            skip_asset(&f.name, f.bytes, ShrinkAssetKind::Protected, "storyboard sample"),
        ),
        AssetRole::Hitsound => return Some(
            skip_asset(&f.name, f.bytes, ShrinkAssetKind::Protected, "hitsound"),
        ),
        AssetRole::Orphan => {
            let (action, est_bytes): (ShrinkAction, u64) = if options.delete_orphans {
                (ShrinkAction::DeleteOrphan, 0)
            } else {
                (ShrinkAction::Skip { reason: "unreferenced".to_owned() }, f.bytes)
            };
            return Some(
                SetAsset {
                    name: f.name.clone(),
                    bytes: f.bytes,
                    kind: ShrinkAssetKind::Orphan,
                    action,
                    est_bytes,
                    note: "nothing references this file".to_owned(),
                },
            );
        },
    };
    Some(maybe_cached(&f.path, f.bytes, f.mtime, plan, shrink_cache, &settings))
}

/// The plan for a file of a skin, if it is reported: images that are big
/// enough are encoded anew; configuration and sounds are protected.
pub open spec fn skin_plan(
    f: FileFacts,
    options: ShrinkOptions,
    records: Map<Seq<char>, RecordView>,
) -> Option<AssetView> {
    let e = lower_text(f.extension@);
    if (f.name@.len() > 0 && f.name@[0] == '.') || f.bytes == 0 {
        None
    } else if e == "png"@ || e == "jpg"@ || e == "jpeg"@ {
        let limit = if e == "png"@ {
            SKIN_PNG_MIN_BYTES
        } else {
            SKIN_JPEG_MIN_BYTES
        };
        if f.bytes <= limit {
            Some(skipped(f.name@, f.bytes, ShrinkAssetKind::Image, "already small"@))
        } else {
            Some(
                after_records(
                    f.path@,
                    f.bytes,
                    f.mtime,
                    AssetView {
                        name: f.name@,
                        bytes: f.bytes,
                        kind: ShrinkAssetKind::Image,
                        action: ActionView::SkinImageReencode,
                        est_bytes: f.estimates.skin,
                        note: if e == "png"@ {
                            "lossless re-encode, same pixels"@
                        } else {
                            "quality pass, same pixels"@
                        },
                    },
                    records,
                    settings_text(options),
                ),
            )
        }
    } else if e == "ini"@ {
        Some(skipped(f.name@, f.bytes, ShrinkAssetKind::Protected, "skin config"@))
    } else if e == "wav"@ || e == "mp3"@ || e == "ogg"@ {
        Some(skipped(f.name@, f.bytes, ShrinkAssetKind::Protected, "skin sound"@))
    } else {
        None
    }
}

/// The plan for a file of a skin, if it is reported.
pub fn plan_skin_file(f: &FileFacts, options: &ShrinkOptions, shrink_cache: &ShrinkCache) -> (r:
    Option<SetAsset>)
    requires
        shrink_cache.wf(),
    ensures
        match r {
            Some(asset) => skin_plan(*f, *options, shrink_cache@) == Some(asset@),
            None => skin_plan(*f, *options, shrink_cache@) is None,
        },
{
    let cs = chars_of(&f.name);
    if (cs.len() > 0 && cs[0] == '.') || f.bytes == 0 {
        return None;
    }
    let e = to_lower(&f.extension);
    let is_png = same_text(&e, "png");
    if is_png || same_text(&e, "jpg") || same_text(&e, "jpeg") {
        let limit: u64 = if is_png {
            SKIN_PNG_MIN_BYTES
        } else {
            SKIN_JPEG_MIN_BYTES
        };
        if f.bytes <= limit {
            return Some(skip_asset(&f.name, f.bytes, ShrinkAssetKind::Image, "already small"));
        }
        let note = if is_png {
            "lossless re-encode, same pixels".to_owned()
        } else {
            "quality pass, same pixels".to_owned()
        };
        let asset = SetAsset {
            name: f.name.clone(),
            bytes: f.bytes,
            kind: ShrinkAssetKind::Image,
            action: ShrinkAction::SkinImageReencode,
            est_bytes: f.estimates.skin,
            note,
        };
        let settings = options.fingerprint();
        return Some(maybe_cached(&f.path, f.bytes, f.mtime, asset, shrink_cache, &settings));
    }
    if same_text(&e, "ini") {
        return Some(skip_asset(&f.name, f.bytes, ShrinkAssetKind::Protected, "skin config"));
    }
    if same_text(&e, "wav") || same_text(&e, "mp3") || same_text(&e, "ogg") {
        return Some(skip_asset(&f.name, f.bytes, ShrinkAssetKind::Protected, "skin sound"));
    }
    None
}

// ---- reports ----

/// The list with one file more, if there is one.
pub open spec fn with_asset(list: Seq<AssetView>, asset: Option<AssetView>) -> Seq<AssetView> {
    match asset {
        Some(a) => list.push(a),
        None => list,
    }
}

/// The plans for the files of a set, in their order.
pub open spec fn set_plans(
    refs: RefsView,
    files: Seq<FileFacts>,
    options: ShrinkOptions,
    records: Map<Seq<char>, RecordView>,
) -> Seq<AssetView>
    decreases files.len(),
{
    if files.len() == 0 {
        seq![]
    } else {
        with_asset(
            set_plans(refs, files.drop_last(), options, records),
            set_plan(refs, files.last(), options, records),
        )
    }
}

/// The plans for the files of a skin, in their order.
pub open spec fn skin_plans(
    files: Seq<FileFacts>,
    options: ShrinkOptions,
    records: Map<Seq<char>, RecordView>,
) -> Seq<AssetView>
    decreases files.len(),
{
    if files.len() == 0 {
        seq![]
    } else {
        with_asset(
            skin_plans(files.drop_last(), options, records),
            skin_plan(files.last(), options, records),
        )
    }
}

/// The plans for the files of a set.
pub fn plan_set(
    refs: &SetReferences,
    files: &Vec<FileFacts>,
    options: &ShrinkOptions,
    shrink_cache: &ShrinkCache,
) -> (r: Vec<SetAsset>)
    requires
        refs.wf(),
        shrink_cache.wf(),
    ensures
        assets_view(r@) == set_plans(refs@, files@, *options, shrink_cache@),
{
    let mut r: Vec<SetAsset> = Vec::new();
    let mut i: usize = 0;
    assert(files@.take(0) =~= seq![]);
    assert(assets_view(r@) =~= seq![]);
    while i < files.len()
        invariant
            refs.wf(),
            shrink_cache.wf(),
            i <= files@.len(),
            assets_view(r@) == set_plans(refs@, files@.take(i as int), *options, shrink_cache@),
        decreases files@.len() - i,
    {
        assert(files@.take(i as int + 1).drop_last() =~= files@.take(i as int));
        let ghost before = assets_view(r@);
        if let Some(asset) = plan_set_file(refs, &files[i], options, shrink_cache) {
            r.push(asset);
            assert(assets_view(r@) =~= before.push(asset@));
        }
        i = i + 1;
    }
    assert(files@.take(i as int) =~= files@);
    r
}

/// The plans for the files of a skin.
pub fn plan_skin(files: &Vec<FileFacts>, options: &ShrinkOptions, shrink_cache: &ShrinkCache) -> (r:
    Vec<SetAsset>)
    requires
        shrink_cache.wf(),
    ensures
        assets_view(r@) == skin_plans(files@, *options, shrink_cache@),
{
    let mut r: Vec<SetAsset> = Vec::new();
    let mut i: usize = 0;
    assert(files@.take(0) =~= seq![]);
    assert(assets_view(r@) =~= seq![]);
    while i < files.len()
        invariant
            shrink_cache.wf(),
            i <= files@.len(),
            assets_view(r@) == skin_plans(files@.take(i as int), *options, shrink_cache@),
        decreases files@.len() - i,
    {
        assert(files@.take(i as int + 1).drop_last() =~= files@.take(i as int));
        let ghost before = assets_view(r@);
        if let Some(asset) = plan_skin_file(&files[i], options, shrink_cache) {
            r.push(asset);
            assert(assets_view(r@) =~= before.push(asset@));
        }
        i = i + 1;
    }
    assert(files@.take(i as int) =~= files@);
    r
}

/// The number of files in front that are at least as big as `bytes`.
pub open spec fn bigger_in_front(list: Seq<AssetView>, bytes: u64) -> nat
    decreases list.len(),
{
    if list.len() == 0 || list[0].bytes < bytes {
        0
    } else {
        1 + bigger_in_front(list.drop_first(), bytes)
    }
}

/// The files by size, the biggest first; of the same size, in their order.
pub open spec fn by_size(list: Seq<AssetView>) -> Seq<AssetView>
    decreases list.len(),
{
    if list.len() == 0 {
        seq![]
    } else {
        let rest = by_size(list.drop_last());
        rest.insert(bigger_in_front(rest, list.last().bytes) as int, list.last())
    }
}

proof fn lemma_bigger_in_front(list: Seq<AssetView>, bytes: u64, k: int)
    requires
        0 <= k <= list.len(),
        forall|i: int| 0 <= i < k ==> (#[trigger] list[i]).bytes >= bytes,
        k == list.len() || list[k].bytes < bytes,
    ensures
        bigger_in_front(list, bytes) == k,
    decreases list.len(),
{
    if list.len() > 0 && list[0].bytes >= bytes {
        let t = list.drop_first();
        assert forall|i: int| 0 <= i < k - 1 implies (#[trigger] t[i]).bytes >= bytes by {
            assert(t[i] == list[i + 1]);
        }
        lemma_bigger_in_front(t, bytes, k - 1);
    } else if k > 0 {
        assert(list[0].bytes >= bytes);
    }
}

proof fn lemma_bigger_bound(list: Seq<AssetView>, bytes: u64)
    ensures
        bigger_in_front(list, bytes) <= list.len(),
    decreases list.len(),
{
    if list.len() > 0 && list[0].bytes >= bytes {
        lemma_bigger_bound(list.drop_first(), bytes);
    }
}

/// Puts the files in order of size.
fn sort_by_size(list: Vec<SetAsset>) -> (r: Vec<SetAsset>)
    ensures
        assets_view(r@) == by_size(assets_view(list@)),
{
    let ghost all = assets_view(list@);
    let n: usize = list.len();
    let mut list = list;
    let mut reversed: Vec<SetAsset> = Vec::new();
    while list.len() > 0
        invariant
            all.len() == n,
            list@.len() + reversed@.len() == n,
            assets_view(list@) == all.take(list@.len() as int),
            forall|i: int|
                0 <= i < reversed@.len() ==> (#[trigger] reversed@[i])@ == all[n - 1 - i],
        decreases list@.len(),
    {
        let ghost before = list@;
        if let Some(asset) = list.pop() {
            proof {
                assert(assets_view(before)[before.len() - 1] == asset@);
                assert(assets_view(list@) =~= all.take(list@.len() as int));
            }
            reversed.push(asset);
        }
    }
    let mut r: Vec<SetAsset> = Vec::new();
    assert(all.take(0) =~= seq![]);
    assert(assets_view(r@) =~= seq![]);
    while reversed.len() > 0
        invariant
            all.len() == n,
            reversed@.len() <= n,
            forall|i: int|
                0 <= i < reversed@.len() ==> (#[trigger] reversed@[i])@ == all[n - 1 - i],
            assets_view(r@) == by_size(all.take(n - reversed@.len())),
        decreases reversed@.len(),
    {
        let ghost done = n - reversed@.len();
        let ghost last = reversed@[reversed@.len() - 1];
        if let Some(asset) = reversed.pop() {
            assert(asset@ == all[done]);
            let mut k: usize = 0;
            while k < r.len() && r[k].bytes >= asset.bytes
                invariant
                    k <= r@.len(),
                    forall|i: int| 0 <= i < k ==> (#[trigger] assets_view(r@)[i]).bytes >= asset.bytes,
                decreases r@.len() - k,
            {
                assert(assets_view(r@)[k as int] == r@[k as int]@);
                k = k + 1;
            }
            let ghost before = assets_view(r@);
            proof {
                if k < r@.len() {
                    assert(before[k as int] == r@[k as int]@);
                }
                lemma_bigger_in_front(before, asset.bytes, k as int);
                assert(all.take(done + 1).drop_last() =~= all.take(done));
                assert(all.take(done + 1).last() == asset@);
            }
            r.insert(k, asset);
            assert(assets_view(r@) =~= before.insert(k as int, asset@));
        }
    }
    assert(all.take(n as int) =~= all);
    r
}

/// The sum of the sizes.
pub open spec fn sum_bytes(list: Seq<AssetView>) -> nat
    decreases list.len(),
{
    if list.len() == 0 {
        0
    } else {
        sum_bytes(list.drop_last()) + list.last().bytes as nat
    }
}

/// The sum of the expected sizes.
pub open spec fn sum_est(list: Seq<AssetView>) -> nat
    decreases list.len(),
{
    if list.len() == 0 {
        0
    } else {
        sum_est(list.drop_last()) + list.last().est_bytes as nat
    }
}

proof fn lemma_sums_insert(list: Seq<AssetView>, k: int, a: AssetView)
    requires
        0 <= k <= list.len(),
    ensures
        sum_bytes(list.insert(k, a)) == sum_bytes(list) + a.bytes,
        sum_est(list.insert(k, a)) == sum_est(list) + a.est_bytes,
        work_count(list.insert(k, a)) == work_count(list) + (if a.action.work() {
            1nat
        } else {
            0
        }),
    decreases list.len(),
{
    let n = list.insert(k, a);
    if k == list.len() {
        assert(n.drop_last() =~= list);
    } else {
        assert(n.drop_last() =~= list.drop_last().insert(k, a));
        assert(n.last() == list.last());
        lemma_sums_insert(list.drop_last(), k, a);
    }
}

/// Putting files in order keeps the sums of their sizes and the number of
/// those that there is anything to do with.
pub proof fn law_order_keeps_sums(list: Seq<AssetView>)
    ensures
        by_size(list).len() == list.len(),
        sum_bytes(by_size(list)) == sum_bytes(list),
        sum_est(by_size(list)) == sum_est(list),
        work_count(by_size(list)) == work_count(list),
    decreases list.len(),
{
    if list.len() > 0 {
        let rest = by_size(list.drop_last());
        law_order_keeps_sums(list.drop_last());
        lemma_bigger_bound(rest, list.last().bytes);
        lemma_sums_insert(
            rest,
            bigger_in_front(rest, list.last().bytes) as int,
            list.last(),
        );
    }
}

/// In a report the files stand by size, the biggest first.
pub proof fn law_report_order(list: Seq<AssetView>)
    ensures
        forall|i: int, j: int|
            0 <= i < j < by_size(list).len() ==> (#[trigger] by_size(list)[i]).bytes >= (
            #[trigger] by_size(list)[j]).bytes,
        by_size(list).to_multiset() == list.to_multiset(),
    decreases list.len(),
{
    broadcast use vstd::seq_lib::group_to_multiset_ensures;

    if list.len() > 0 {
        let init = list.drop_last();
        let rest = by_size(init);
        let a = list.last();
        law_report_order(init);
        lemma_bigger_bound(rest, a.bytes);
        lemma_bigger_meaning(rest, a.bytes);
        let k = bigger_in_front(rest, a.bytes) as int;
        let n = rest.insert(k, a);
        assert forall|i: int, j: int| 0 <= i < j < n.len() implies (#[trigger] n[i]).bytes >= (
        #[trigger] n[j]).bytes by {
            let x = if i < k {
                i
            } else {
                i - 1
            };
            let y = if j < k {
                j
            } else {
                j - 1
            };
            if i == k {
                assert(n[j] == rest[j - 1]);
                if k < j - 1 {
                    assert(rest[k].bytes >= rest[j - 1].bytes);
                }
            } else if j == k {
                assert(n[i] == rest[i]);
            } else {
                assert(n[i] == rest[x] && n[j] == rest[y]);
            }
        }
        assert(list =~= init.push(a));
        vstd::seq_lib::to_multiset_insert(rest, k, a);
    }
}

proof fn lemma_bigger_meaning(list: Seq<AssetView>, bytes: u64)
    ensures
        forall|i: int|
            0 <= i < bigger_in_front(list, bytes) ==> (#[trigger] list[i]).bytes >= bytes,
        bigger_in_front(list, bytes) < list.len() ==> list[bigger_in_front(
            list,
            bytes,
        ) as int].bytes < bytes,
    decreases list.len(),
{
    if list.len() > 0 && list[0].bytes >= bytes {
        let t = list.drop_first();
        lemma_bigger_meaning(t, bytes);
        lemma_bigger_bound(t, bytes);
        assert forall|i: int| 0 <= i < bigger_in_front(list, bytes) implies (
        #[trigger] list[i]).bytes >= bytes by {
            if i > 0 {
                assert(list[i] == t[i - 1]);
            }
        }
    }
}

proof fn lemma_sums_prefix(list: Seq<AssetView>, k: int)
    requires
        0 <= k <= list.len(),
    ensures
        sum_bytes(list.take(k)) <= sum_bytes(list),
        sum_est(list.take(k)) <= sum_est(list),
    decreases list.len() - k,
{
    if k < list.len() {
        lemma_sums_prefix(list, k + 1);
        assert(list.take(k + 1).drop_last() =~= list.take(k));
    } else {
        assert(list.take(k) =~= list);
    }
}

/// The report on a folder with these plans.
pub fn report_of(folder: String, label: String, plans: Vec<SetAsset>) -> (r: SetShrinkReport)
    requires
        sum_bytes(assets_view(plans@)) <= u64::MAX,
        sum_est(assets_view(plans@)) <= u64::MAX,
    ensures
        r.folder == folder,
        r.label == label,
        assets_view(r.assets@) == by_size(assets_view(plans@)),
        r.total_in == sum_bytes(assets_view(plans@)),
        r.total_est == sum_est(assets_view(plans@)),
{
    let assets = sort_by_size(plans);
    let ghost all = assets_view(assets@);
    proof {
        law_order_keeps_sums(assets_view(plans@));
    }
    let mut total_in: u64 = 0;
    let mut total_est: u64 = 0;
    let mut i: usize = 0;
    assert(all.take(0) =~= seq![]);
    while i < assets.len()
        invariant
            i <= assets@.len(),
            all == assets_view(assets@),
            sum_bytes(all) <= u64::MAX,
            sum_est(all) <= u64::MAX,
            total_in == sum_bytes(all.take(i as int)),
            total_est == sum_est(all.take(i as int)),
        decreases assets@.len() - i,
    {
        proof {
            assert(all.take(i as int + 1).drop_last() =~= all.take(i as int));
            assert(all.take(i as int + 1).last() == assets@[i as int]@);
            lemma_sums_prefix(all, i as int + 1);
        }
        total_in = total_in + assets[i].bytes;
        total_est = total_est + assets[i].est_bytes;
        i = i + 1;
    }
    assert(all.take(i as int) =~= all);
    SetShrinkReport { folder, label, assets, total_in, total_est }
}

/// Whether the sums of the sizes fit their 64 bits.
pub open spec fn sums_fit(list: Seq<AssetView>) -> bool {
    sum_bytes(list) <= u64::MAX && sum_est(list) <= u64::MAX
}

/// Whether the sums of the sizes fit their 64 bits.
fn totals_fit(plans: &Vec<SetAsset>) -> (r: bool)
    ensures
        r == sums_fit(assets_view(plans@)),
{
    let ghost all = assets_view(plans@);
    let mut sum_in: u64 = 0;
    let mut sum_out: u64 = 0;
    let mut i: usize = 0;
    assert(all.take(0) =~= seq![]);
    while i < plans.len()
        invariant
            i <= plans@.len(),
            all == assets_view(plans@),
            sum_in == sum_bytes(all.take(i as int)),
            sum_out == sum_est(all.take(i as int)),
        decreases plans@.len() - i,
    {
        proof {
            assert(all.take(i as int + 1).drop_last() =~= all.take(i as int));
            assert(all.take(i as int + 1).last() == plans@[i as int]@);
            lemma_sums_prefix(all, i as int + 1);
        }
        match (sum_in.checked_add(plans[i].bytes), sum_out.checked_add(plans[i].est_bytes)) {
            (Some(a), Some(b)) => {
                sum_in = a;
                sum_out = b;
            },
            _ => return false,
        }
        i = i + 1;
    }
    assert(all.take(i as int) =~= all);
    true
}

/// Whether `r` is the report on a folder with these plans: the files by size,
/// and the sums.
pub open spec fn reports(
    r: SetShrinkReport,
    folder: String,
    label: String,
    plans: Seq<AssetView>,
) -> bool {
    &&& r.folder == folder
    &&& r.label == label
    &&& assets_view(r.assets@) == by_size(plans)
    &&& r.total_in == sum_bytes(plans)
    &&& r.total_est == sum_est(plans)
}

/// The report on the folder of a set, unless the sums of the sizes do not fit
/// their 64 bits.
pub fn analyze_set(
    folder: String,
    label: String,
    refs: &SetReferences,
    files: &Vec<FileFacts>,
    options: &ShrinkOptions,
    shrink_cache: &ShrinkCache,
) -> (r: Option<SetShrinkReport>)
    requires
        refs.wf(),
        shrink_cache.wf(),
    ensures
        match r {
            Some(report) => sums_fit(set_plans(refs@, files@, *options, shrink_cache@)) && reports(
                report,
                folder,
                label,
                set_plans(refs@, files@, *options, shrink_cache@),
            ),
            None => !sums_fit(set_plans(refs@, files@, *options, shrink_cache@)),
        },
{
    let plans = plan_set(refs, files, options, shrink_cache);
    if totals_fit(&plans) {
        Some(report_of(folder, label, plans))
    } else {
        None
    }
}

/// The report on the folder of a skin, unless the sums of the sizes do not fit
/// their 64 bits.
pub fn analyze_skin(
    folder: String,
    label: String,
    files: &Vec<FileFacts>,
    options: &ShrinkOptions,
    shrink_cache: &ShrinkCache,
) -> (r: Option<SetShrinkReport>)
    requires
        shrink_cache.wf(),
    ensures
        match r {
            Some(report) => sums_fit(skin_plans(files@, *options, shrink_cache@)) && reports(
                report,
                folder,
                label,
                skin_plans(files@, *options, shrink_cache@),
            ),
            None => !sums_fit(skin_plans(files@, *options, shrink_cache@)),
        },
{
    let plans = plan_skin(files, options, shrink_cache);
    if totals_fit(&plans) {
        Some(report_of(folder, label, plans))
    } else {
        None
    }
}

/// Sums over reports: bytes, expected bytes, files that there is anything to
/// do with.
pub open spec fn total_in(reports: Seq<SetShrinkReport>) -> nat
    decreases reports.len(),
{
    if reports.len() == 0 {
        0
    } else {
        total_in(reports.drop_last()) + reports.last().total_in as nat
    }
}

pub open spec fn total_est(reports: Seq<SetShrinkReport>) -> nat
    decreases reports.len(),
{
    if reports.len() == 0 {
        0
    } else {
        total_est(reports.drop_last()) + reports.last().total_est as nat
    }
}

pub open spec fn total_work(reports: Seq<SetShrinkReport>) -> nat
    decreases reports.len(),
{
    if reports.len() == 0 {
        0
    } else {
        total_work(reports.drop_last()) + work_count(assets_view(reports.last().assets@))
    }
}

proof fn lemma_totals_prefix(reports: Seq<SetShrinkReport>, k: int)
    requires
        0 <= k <= reports.len(),
    ensures
        total_in(reports.take(k)) <= total_in(reports),
        total_est(reports.take(k)) <= total_est(reports),
        total_work(reports.take(k)) <= total_work(reports),
    decreases reports.len() - k,
{
    if k < reports.len() {
        lemma_totals_prefix(reports, k + 1);
        assert(reports.take(k + 1).drop_last() =~= reports.take(k));
    } else {
        assert(reports.take(k) =~= reports);
    }
}

/// The bytes, the expected bytes and the files that there is anything to do
/// with, over all reports. The sums must fit their bits.
pub fn summarize(reports: &Vec<SetShrinkReport>) -> (r: (u64, u64, usize))
    requires
        total_in(reports@) <= u64::MAX,
        total_est(reports@) <= u64::MAX,
        total_work(reports@) <= usize::MAX,
    ensures
        r.0 == total_in(reports@),
        r.1 == total_est(reports@),
        r.2 == total_work(reports@),
{
    let mut sum_in: u64 = 0;
    let mut sum_est: u64 = 0;
    let mut items: usize = 0;
    let mut i: usize = 0;
    assert(reports@.take(0) =~= seq![]);
    while i < reports.len()
        invariant
            i <= reports@.len(),
            total_in(reports@) <= u64::MAX,
            total_est(reports@) <= u64::MAX,
            total_work(reports@) <= usize::MAX,
            sum_in == total_in(reports@.take(i as int)),
            sum_est == total_est(reports@.take(i as int)),
            items == total_work(reports@.take(i as int)),
        decreases reports@.len() - i,
    {
        proof {
            assert(reports@.take(i as int + 1).drop_last() =~= reports@.take(i as int));
            assert(reports@.take(i as int + 1).last() == reports@[i as int]);
            lemma_totals_prefix(reports@, i as int + 1);
        }
        sum_in = sum_in + reports[i].total_in;
        sum_est = sum_est + reports[i].total_est;
        items = items + reports[i].work_items();
        i = i + 1;
    }
    assert(reports@.take(i as int) =~= reports@);
    (sum_in, sum_est, items)
}

/// A plan keeps the name and the size of its file. Sounds of the storyboard
/// and hitsounds are protected and left alone, whatever the options; nothing is
/// deleted without the option for it; beatmaps, storyboards and configuration
/// are not in a report.
pub proof fn law_set_plan_is_safe(
    refs: RefsView,
    f: FileFacts,
    options: ShrinkOptions,
    records: Map<Seq<char>, RecordView>,
)
    ensures
        match set_plan(refs, f, options, records) {
            None => true,
            Some(a) => {
                let role = role_of(refs, f.name@, f.extension@, f.bytes);
                &&& a.name == f.name@
                &&& a.bytes == f.bytes
                &&& !kept_ext(lower_text(f.extension@))
                &&& role == AssetRole::Sample || role == AssetRole::Hitsound ==> a.kind
                    == ShrinkAssetKind::Protected && !a.action.work()
                &&& a.action is DeleteOrphan ==> options.delete_orphans && role == AssetRole::Orphan
                &&& a.action is RemoveVideo ==> options.remove_videos && role == AssetRole::Video
                &&& a.kind == ShrinkAssetKind::Protected ==> !a.action.work()
                &&& !a.action.work() ==> a.est_bytes == a.bytes
            },
        },
{
}

/// A plan for a skin keeps the name and the size of its file, and never
/// touches configuration or sounds.
pub proof fn law_skin_plan_is_safe(
    f: FileFacts,
    options: ShrinkOptions,
    records: Map<Seq<char>, RecordView>,
)
    ensures
        match skin_plan(f, options, records) {
            None => true,
            Some(a) => {
                &&& a.name == f.name@
                &&& a.bytes == f.bytes
                &&& a.action.work() ==> a.action is SkinImageReencode && a.kind
                    == ShrinkAssetKind::Image
                &&& a.kind == ShrinkAssetKind::Protected ==> !a.action.work()
                &&& !a.action.work() ==> a.est_bytes == a.bytes
            },
        },
{
}

/// Where there is nothing to do with any file of a set, nothing is expected to
/// be saved.
pub proof fn law_no_work_saves_nothing(
    refs: RefsView,
    files: Seq<FileFacts>,
    options: ShrinkOptions,
    records: Map<Seq<char>, RecordView>,
)
    requires
        work_count(set_plans(refs, files, options, records)) == 0,
    ensures
        sum_est(set_plans(refs, files, options, records)) == sum_bytes(
            set_plans(refs, files, options, records),
        ),
    decreases files.len(),
{
    if files.len() > 0 {
        let init = set_plans(refs, files.drop_last(), options, records);
        let all = set_plans(refs, files, options, records);
        law_set_plan_is_safe(refs, files.last(), options, records);
        match set_plan(refs, files.last(), options, records) {
            Some(a) => {
                assert(all.drop_last() =~= init);
            },
            None => {},
        }
        law_no_work_saves_nothing(refs, files.drop_last(), options, records);
    }
}

/// What a list says of its files, but for what is to be done with them: their
/// names, their sizes and their kinds.
pub open spec fn listed(list: Seq<AssetView>) -> Seq<(Seq<char>, u64, ShrinkAssetKind)> {
    Seq::new(list.len(), |i: int| (list[i].name, list[i].bytes, list[i].kind))
}

/// Whether two lists speak of the same files, whatever was measured of them.
pub open spec fn same_files(a: Seq<FileFacts>, b: Seq<FileFacts>) -> bool {
    &&& a.len() == b.len()
    &&& forall|i: int|
        0 <= i < a.len() ==> (#[trigger] a[i]).name@ == b[i].name@ && a[i].extension@
            == b[i].extension@ && a[i].bytes == b[i].bytes
}

/// What a report calls a file of a set.
pub open spec fn kind_of_role(role: AssetRole) -> ShrinkAssetKind {
    match role {
        AssetRole::Song => ShrinkAssetKind::SongAudio,
        AssetRole::Background | AssetRole::Sprite => ShrinkAssetKind::Image,
        AssetRole::Video => ShrinkAssetKind::Video,
        AssetRole::Orphan => ShrinkAssetKind::Orphan,
        AssetRole::Sample | AssetRole::Hitsound | AssetRole::Hidden => ShrinkAssetKind::Protected,
    }
}

/// Whether a file of a set is reported, and as what, goes by its role alone.
proof fn lemma_set_plan_listed(
    refs: RefsView,
    f: FileFacts,
    options: ShrinkOptions,
    records: Map<Seq<char>, RecordView>,
)
    ensures
        match set_plan(refs, f, options, records) {
            None => role_of(refs, f.name@, f.extension@, f.bytes) == AssetRole::Hidden,
            Some(p) => {
                let role = role_of(refs, f.name@, f.extension@, f.bytes);
                role != AssetRole::Hidden && p.name == f.name@ && p.bytes == f.bytes && p.kind
                    == kind_of_role(role)
            },
        },
{
}

/// Where a file comes in a list goes by the sizes alone.
proof fn lemma_bigger_listed(a: Seq<AssetView>, b: Seq<AssetView>, bytes: u64)
    requires
        listed(a) == listed(b),
    ensures
        bigger_in_front(a, bytes) == bigger_in_front(b, bytes),
    decreases a.len(),
{
    assert(listed(a).len() == a.len());
    assert(listed(b).len() == b.len());
    if a.len() > 0 {
        assert(listed(a)[0] == listed(b)[0]);
        let s = a.drop_first();
        let t = b.drop_first();
        assert(listed(s) =~= listed(a).drop_first());
        assert(listed(t) =~= listed(b).drop_first());
        lemma_bigger_listed(s, t, bytes);
    }
}

/// What is to be done with files decides nothing of their order.
proof fn lemma_by_size_listed(a: Seq<AssetView>, b: Seq<AssetView>)
    requires
        listed(a) == listed(b),
    ensures
        listed(by_size(a)) == listed(by_size(b)),
    decreases a.len(),
{
    assert(listed(a).len() == a.len());
    assert(listed(b).len() == b.len());
    if a.len() > 0 {
        let s = a.drop_last();
        let t = b.drop_last();
        assert(listed(a).last() == listed(b).last());
        assert(a.last().bytes == b.last().bytes);
        assert(listed(s) =~= listed(a).drop_last());
        assert(listed(t) =~= listed(b).drop_last());
        lemma_by_size_listed(s, t);
        let x = by_size(s);
        let y = by_size(t);
        lemma_bigger_listed(x, y, a.last().bytes);
        lemma_bigger_bound(x, a.last().bytes);
        assert(listed(x).len() == x.len());
        assert(listed(y).len() == y.len());
        let k = bigger_in_front(x, a.last().bytes) as int;
        assert(listed(x.insert(k, a.last())) =~= listed(x).insert(k, listed(a).last()));
        assert(listed(y.insert(k, b.last())) =~= listed(y).insert(k, listed(b).last()));
    }
}

/// Options and records never change which files the analysis of a set lists,
/// nor does what was measured of the files: a report has the same files, with the
/// same sizes and kinds, in the same order.
pub proof fn law_options_keep_files_of_set(
    refs: RefsView,
    a: Seq<FileFacts>,
    b: Seq<FileFacts>,
    options: ShrinkOptions,
    other: ShrinkOptions,
    records: Map<Seq<char>, RecordView>,
    known: Map<Seq<char>, RecordView>,
)
    requires
        same_files(a, b),
    ensures
        listed(set_plans(refs, a, options, records)) == listed(set_plans(refs, b, other, known)),
        listed(by_size(set_plans(refs, a, options, records))) == listed(
            by_size(set_plans(refs, b, other, known)),
        ),
    decreases a.len(),
{
    let x = set_plans(refs, a, options, records);
    let y = set_plans(refs, b, other, known);
    if a.len() > 0 {
        let s = set_plans(refs, a.drop_last(), options, records);
        let t = set_plans(refs, b.drop_last(), other, known);
        law_options_keep_files_of_set(
            refs,
            a.drop_last(),
            b.drop_last(),
            options,
            other,
            records,
            known,
        );
        assert(a[a.len() - 1].name@ == b[b.len() - 1].name@);
        lemma_set_plan_listed(refs, a.last(), options, records);
        lemma_set_plan_listed(refs, b.last(), other, known);
        match (
            set_plan(refs, a.last(), options, records),
            set_plan(refs, b.last(), other, known),
        ) {
            (Some(p), Some(q)) => {
                assert((p.name, p.bytes, p.kind) == (q.name, q.bytes, q.kind));
                assert(listed(x) =~= listed(s).push((p.name, p.bytes, p.kind)));
                assert(listed(y) =~= listed(t).push((q.name, q.bytes, q.kind)));
            },
            (p, q) => {
                assert(p is None && q is None);
            },
        }
    }
    assert(listed(x) =~= listed(y));
    lemma_by_size_listed(x, y);
}

/// Nor do they change which files the analysis of a skin lists.
pub proof fn law_options_keep_files_of_skin(
    a: Seq<FileFacts>,
    b: Seq<FileFacts>,
    options: ShrinkOptions,
    other: ShrinkOptions,
    records: Map<Seq<char>, RecordView>,
    known: Map<Seq<char>, RecordView>,
)
    requires
        same_files(a, b),
    ensures
        listed(skin_plans(a, options, records)) == listed(skin_plans(b, other, known)),
        listed(by_size(skin_plans(a, options, records))) == listed(
            by_size(skin_plans(b, other, known)),
        ),
    decreases a.len(),
{
    let x = skin_plans(a, options, records);
    let y = skin_plans(b, other, known);
    if a.len() > 0 {
        let s = skin_plans(a.drop_last(), options, records);
        let t = skin_plans(b.drop_last(), other, known);
        law_options_keep_files_of_skin(
            a.drop_last(),
            b.drop_last(),
            options,
            other,
            records,
            known,
        );
        assert(a[a.len() - 1].name@ == b[b.len() - 1].name@);
        match (skin_plan(a.last(), options, records), skin_plan(b.last(), other, known)) {
            (Some(p), Some(q)) => {
                assert((p.name, p.bytes, p.kind) == (q.name, q.bytes, q.kind));
                assert(listed(x) =~= listed(s).push((p.name, p.bytes, p.kind)));
                assert(listed(y) =~= listed(t).push((q.name, q.bytes, q.kind)));
            },
            (p, q) => {
                assert(p is None && q is None);
            },
        }
    }
    assert(listed(x) =~= listed(y));
    lemma_by_size_listed(x, y);
}

/// The sums over the reports of two runs are the sums of both; those over no
/// report are zero, and those over one report are its own.
pub proof fn law_totals_add_up(a: Seq<SetShrinkReport>, b: Seq<SetShrinkReport>, r: SetShrinkReport)
    ensures
        total_in(a + b) == total_in(a) + total_in(b),
        total_est(a + b) == total_est(a) + total_est(b),
        total_work(a + b) == total_work(a) + total_work(b),
        total_in(seq![]) == 0 && total_est(seq![]) == 0 && total_work(seq![]) == 0,
        total_in(seq![r]) == r.total_in,
        total_est(seq![r]) == r.total_est,
        total_work(seq![r]) == work_count(assets_view(r.assets@)),
    decreases b.len(),
{
    reveal_with_fuel(total_in, 2);
    reveal_with_fuel(total_est, 2);
    reveal_with_fuel(total_work, 2);
    assert(seq![r].drop_last() =~= Seq::<SetShrinkReport>::empty());
    assert(seq![r].last() == r);
    if b.len() == 0 {
        assert(a + b =~= a);
    } else {
        assert((a + b).drop_last() =~= a + b.drop_last());
        law_totals_add_up(a, b.drop_last(), r);
    }
}

/// Once the encoding that is planned for a file is recorded, the file is
/// skipped, until its size, its time or the settings change.
pub proof fn law_recorded_file_is_skipped(
    path: Seq<char>,
    bytes: u64,
    mtime: u64,
    asset: AssetView,
    records: Map<Seq<char>, RecordView>,
    settings: Seq<char>,
    mtime2: u64,
    settings2: Seq<char>,
)
    requires
        asset.action.reencode(),
    ensures
        ({
            let after = records.insert(
                path,
                RecordView { size: bytes, mtime, action: asset.action.words(), settings },
            );
            let again = after_records(path, bytes, mtime2, asset, after, settings2);
            if mtime2 == mtime && settings2 == settings {
                &&& again.action == (ActionView::Skip { reason: already_shrunk() })
                &&& again.est_bytes == bytes
                &&& again.name == asset.name
            } else {
                again == asset
            }
        }),
{
}

// ---- what the roles and the plans are for ----

/// Whether a file is left out of a report: hidden, empty, or with one of the
/// extensions of beatmaps, storyboards, configuration and archives.
pub open spec fn left_out(f: FileFacts) -> bool {
    let e = lower_text(f.extension@);
    ||| f.name@.len() > 0 && f.name@[0] == '.'
    ||| f.bytes == 0
    ||| e == "osu"@ || e == "osb"@ || e == "ini"@ || e == "osz"@ || e == "osk"@
}

/// A file that the set refers to has the role of the reference: audio comes
/// first, then backgrounds, videos, images of the storyboard and its sounds.
pub proof fn law_references_give_roles(refs: RefsView, f: FileFacts)
    requires
        !left_out(f),
    ensures
        ({
            let key = asset_key(f.name@);
            let role = role_of(refs, f.name@, f.extension@, f.bytes);
            &&& refs.audio.contains(key) <==> role == AssetRole::Song
            &&& refs.backgrounds.contains(key) && !refs.audio.contains(key) <==> role
                == AssetRole::Background
            &&& refs.videos.contains(key) && !refs.audio.contains(key) && !refs.backgrounds.contains(
                key,
            ) <==> role == AssetRole::Video
            &&& role == AssetRole::Sprite ==> refs.sprites.contains(key)
            &&& role == AssetRole::Sample ==> refs.samples.contains(key)
            &&& refs.sprites.contains(key) ==> role == AssetRole::Sprite || refs.audio.contains(key)
                || refs.backgrounds.contains(key) || refs.videos.contains(key)
            &&& refs.samples.contains(key) ==> role == AssetRole::Sample || refs.audio.contains(key)
                || refs.backgrounds.contains(key) || refs.videos.contains(key)
                || refs.sprites.contains(key)
        }),
{
}

/// A file that the set refers to, as audio, background, video, image or sound, is
/// never an orphan, and is never deleted as one, whatever the options.
pub proof fn law_referenced_files_are_kept(
    refs: RefsView,
    f: FileFacts,
    options: ShrinkOptions,
    records: Map<Seq<char>, RecordView>,
)
    requires
        ({
            let key = asset_key(f.name@);
            ||| refs.audio.contains(key)
            ||| refs.backgrounds.contains(key)
            ||| refs.videos.contains(key)
            ||| refs.sprites.contains(key)
            ||| refs.samples.contains(key)
        }),
    ensures
        role_of(refs, f.name@, f.extension@, f.bytes) != AssetRole::Orphan,
        set_plan(refs, f, options, records) matches Some(p) ==> !(p.action is DeleteOrphan) && p.kind
            != ShrinkAssetKind::Orphan,
        left_out(f) ==> set_plan(refs, f, options, records) is None,
        !left_out(f) ==> set_plan(refs, f, options, records) is Some,
{
}

/// The audio file and the background of every map of a set, and every file that
/// an event line of one of its texts names, are among what the set refers to.
pub proof fn law_set_refers_to(
    maps: Seq<LocalBeatmap>,
    sources: Seq<Seq<char>>,
    i: int,
    k: int,
    u: EventUse,
    key: Seq<char>,
)
    ensures
        0 <= i < maps.len() && maps[i].audio_filename is Some ==> references_of(
            maps,
            sources,
        ).audio.contains(asset_key(maps[i].audio_filename->0@)),
        0 <= i < maps.len() && maps[i].background_filename is Some ==> references_of(
            maps,
            sources,
        ).backgrounds.contains(asset_key(maps[i].background_filename->0@)),
        0 <= k < sources.len() && event_assets(
            lines_text(events_body(lines_text(sources[k]), false)),
            u,
        ).contains(key) ==> match u {
            EventUse::Video => references_of(maps, sources).videos.contains(key),
            EventUse::Sprite => references_of(maps, sources).sprites.contains(key),
            EventUse::Sample => references_of(maps, sources).samples.contains(key),
        },
{
    let refs = references_of(maps, sources);
    if 0 <= i < maps.len() && maps[i].audio_filename is Some {
        assert(names_audio(maps, asset_key(maps[i].audio_filename->0@)));
    }
    if 0 <= i < maps.len() && maps[i].background_filename is Some {
        assert(names_background(maps, asset_key(maps[i].background_filename->0@)));
    }
    if 0 <= k < sources.len() && text_assets(sources[k], u).contains(key) {
        lemma_source_assets(sources, k, u, key);
    }
}

proof fn lemma_source_assets(sources: Seq<Seq<char>>, k: int, u: EventUse, key: Seq<char>)
    requires
        0 <= k < sources.len(),
        text_assets(sources[k], u).contains(key),
    ensures
        source_assets(sources, u).contains(key),
    decreases sources.len(),
{
    if k < sources.len() - 1 {
        assert(sources.drop_last()[k] == sources[k]);
        lemma_source_assets(sources.drop_last(), k, u, key);
    }
}

/// The background in use, and the song, are never deleted: a file with the name
/// of one of them, whatever the case and the slashes, is reported as an image or
/// a song.
pub proof fn law_backgrounds_and_songs_are_kept(
    maps: Seq<LocalBeatmap>,
    sources: Seq<Seq<char>>,
    i: int,
    f: FileFacts,
    options: ShrinkOptions,
    records: Map<Seq<char>, RecordView>,
)
    requires
        0 <= i < maps.len(),
        !left_out(f),
        (maps[i].background_filename is Some && asset_key(f.name@) == asset_key(
            maps[i].background_filename->0@,
        )) || (maps[i].audio_filename is Some && asset_key(f.name@) == asset_key(
            maps[i].audio_filename->0@,
        )),
    ensures
        set_plan(references_of(maps, sources), f, options, records) is Some,
        set_plan(references_of(maps, sources), f, options, records)->0.kind
            == ShrinkAssetKind::Image || set_plan(
            references_of(maps, sources),
            f,
            options,
            records,
        )->0.kind == ShrinkAssetKind::SongAudio,
        !(set_plan(references_of(maps, sources), f, options, records)->0.action is DeleteOrphan),
        !(set_plan(references_of(maps, sources), f, options, records)->0.action is RemoveVideo),
{
    law_set_refers_to(maps, sources, i, 0, EventUse::Video, seq![]);
    let refs = references_of(maps, sources);
    let key = asset_key(f.name@);
    assert(refs.audio.contains(key) || refs.backgrounds.contains(key));
    law_references_give_roles(refs, f);
    lemma_set_plan_listed(refs, f, options, records);
}

/// A set refers to nothing but what its maps and its texts name.
pub proof fn law_set_refers_to_nothing_else(
    maps: Seq<LocalBeatmap>,
    sources: Seq<Seq<char>>,
    key: Seq<char>,
    u: EventUse,
)
    ensures
        references_of(maps, sources).audio.contains(key) ==> exists|i: int|
            0 <= i < maps.len() && (#[trigger] maps[i]).audio_filename is Some && asset_key(
                maps[i].audio_filename->0@,
            ) == key,
        references_of(maps, sources).backgrounds.contains(key) ==> exists|i: int|
            0 <= i < maps.len() && (#[trigger] maps[i]).background_filename is Some && asset_key(
                maps[i].background_filename->0@,
            ) == key,
        source_assets(sources, u).contains(key) ==> exists|k: int|
            0 <= k < sources.len() && text_assets(#[trigger] sources[k], u).contains(key),
    decreases sources.len(),
{
    if sources.len() > 0 && source_assets(sources, u).contains(key) {
        if source_assets(sources.drop_last(), u).contains(key) {
            law_set_refers_to_nothing_else(maps, sources.drop_last(), key, u);
            let k = choose|k: int|
                0 <= k < sources.len() - 1 && text_assets(
                    #[trigger] sources.drop_last()[k],
                    u,
                ).contains(key);
            assert(text_assets(sources[k], u).contains(key));
        } else {
            assert(text_assets(sources[sources.len() - 1], u).contains(key));
        }
    }
}

/// An orphan is a media file that nothing refers to and that the game does not
/// play by its name: every such file is one, and no other is. What is neither
/// referred to nor a media file is not reported.
pub proof fn law_orphans(refs: RefsView, f: FileFacts)
    requires
        !left_out(f),
        !refs.audio.contains(asset_key(f.name@)) && !refs.backgrounds.contains(asset_key(f.name@)),
        !refs.videos.contains(asset_key(f.name@)) && !refs.sprites.contains(asset_key(f.name@)),
        !refs.samples.contains(asset_key(f.name@)),
    ensures
        ({
            let e = lower_text(f.extension@);
            let role = role_of(refs, f.name@, f.extension@, f.bytes);
            let sound = e == "mp3"@ || e == "ogg"@ || e == "flac"@ || e == "m4a"@ || e == "aac"@ || e
                == "opus"@ || e == "wma"@;
            let image = e == "jpg"@ || e == "jpeg"@ || e == "png"@ || e == "bmp"@ || e == "tif"@ || e
                == "tiff"@ || e == "webp"@ || e == "gif"@ || e == "ico"@;
            let video = e == "mp4"@ || e == "avi"@ || e == "flv"@ || e == "mov"@ || e == "mkv"@ || e
                == "wmv"@ || e == "mpg"@ || e == "mpeg"@ || e == "m2ts"@ || e == "webm"@;
            &&& e == "wav"@ ==> role == AssetRole::Hitsound
            &&& sound && hitsound_name(f.name@) ==> role == AssetRole::Hitsound
            &&& sound && !hitsound_name(f.name@) && e != "wav"@ ==> role == AssetRole::Orphan
            &&& (image || video) && !sound && e != "wav"@ ==> role == AssetRole::Orphan
            &&& !sound && !image && !video && e != "wav"@ ==> role == AssetRole::Hidden
        }),
{
}

/// An orphan is deleted where the option for it is on, and is then expected to
/// take no bytes; else it is left as it is.
pub proof fn law_orphan_plans(
    refs: RefsView,
    f: FileFacts,
    options: ShrinkOptions,
    records: Map<Seq<char>, RecordView>,
)
    requires
        role_of(refs, f.name@, f.extension@, f.bytes) == AssetRole::Orphan,
    ensures
        ({
            let p = set_plan(refs, f, options, records)->0;
            &&& set_plan(refs, f, options, records) is Some
            &&& p.kind == ShrinkAssetKind::Orphan
            &&& options.delete_orphans ==> p.action is DeleteOrphan && p.est_bytes == 0
            &&& !options.delete_orphans ==> p.action is Skip && p.est_bytes == f.bytes
        }),
{
}

/// A song in an MP3 or an Ogg file is encoded anew where its rate is above 210
/// kilobits a second and it has a duration; every other song is left as it is.
/// Where the file does not say its rate, that of the container counts.
pub proof fn law_song_plans(
    name: Seq<char>,
    bytes: u64,
    e: Seq<char>,
    p: MediaProbe,
    est: Estimates,
)
    ensures
        ({
            let plan = song_plan(name, bytes, e, Some(p), est);
            let rate = if p.bitrate is Some {
                p.bitrate->0
            } else {
                est.container_bps
            };
            let worth = rate > 210_000 && 0 < p.duration <= 0x7ff0_0000_0000_0000;
            &&& plan.action is Mp3Cbr192 <==> e == "mp3"@ && worth
            &&& plan.action is OggQ6 <==> e == "ogg"@ && worth
            &&& plan.action is Skip <==> !((e == "mp3"@ || e == "ogg"@) && worth)
            &&& plan.action is Skip ==> plan.est_bytes == bytes
            &&& !(plan.action is Skip) ==> plan.est_bytes == est.audio
            &&& plan.kind == ShrinkAssetKind::SongAudio
        }),
        song_plan(name, bytes, e, None, est).action is Skip,
        song_plan(name, bytes, e, None, est).est_bytes == bytes,
{
    reveal_strlit("mp3");
    reveal_strlit("ogg");
    assert("mp3"@[0] == 'm' && "ogg"@[0] == 'o');
}

/// A video is deleted where the option for it is on. Else an MP4 is encoded anew
/// unless it is H.264 already, at most 720 pixels high, without sound and with a
/// width; every other video is left as it is.
pub proof fn law_video_plans(
    name: Seq<char>,
    bytes: u64,
    e: Seq<char>,
    p: MediaProbe,
    est: Estimates,
    options: ShrinkOptions,
)
    ensures
        ({
            let plan = video_plan(name, bytes, e, Some(p), est, options);
            let done = p.codec@ == "h264"@ && p.height <= 720 && !p.has_audio && p.width > 0;
            &&& plan.action is RemoveVideo <==> options.remove_videos
            &&& options.remove_videos ==> plan.est_bytes == 0
            &&& plan.action is Video720pH264 <==> !options.remove_videos && e == "mp4"@ && !done
            &&& plan.action is Video720pH264 ==> plan.est_bytes == est.video
            &&& plan.action is Skip <==> !options.remove_videos && (e != "mp4"@ || done)
            &&& plan.action is Skip ==> plan.est_bytes == bytes
            &&& plan.kind == ShrinkAssetKind::Video
        }),
        !options.remove_videos ==> video_plan(name, bytes, e, None, est, options).action is Skip,
{
}

/// An image is encoded anew where it is wider than 1920 pixels or takes more than
/// a million bytes as a PNG and 300 thousand as any other; GIFs, images of other
/// kinds and those that cannot be read are left as they are.
pub proof fn law_image_plans(
    name: Seq<char>,
    bytes: u64,
    e: Seq<char>,
    w: u32,
    h: u32,
    est: Estimates,
)
    ensures
        ({
            let plan = image_plan(name, bytes, e, Some((w, h)), est);
            let known = e == "jpg"@ || e == "jpeg"@ || e == "png"@ || e == "bmp"@ || e == "webp"@;
            let big = w > 1920 || (e == "png"@ && bytes > 1_000_000) || (e != "png"@ && bytes
                > 300_000);
            &&& plan.action is ImageReencode <==> known && w > 0 && h > 0 && big
            &&& plan.action is ImageReencode ==> plan.est_bytes == est.image
            &&& plan.action is Skip <==> !(known && w > 0 && h > 0 && big)
            &&& plan.action is Skip ==> plan.est_bytes == bytes
            &&& plan.kind == ShrinkAssetKind::Image
        }),
        image_plan(name, bytes, e, None, est).action is Skip,
        image_plan(name, bytes, e, None, est).est_bytes == bytes,
{
    reveal_strlit("gif");
    reveal_strlit("jpg");
    reveal_strlit("jpeg");
    reveal_strlit("png");
    reveal_strlit("bmp");
    reveal_strlit("webp");
    assert("gif"@[0] == 'g' && "jpg"@[0] == 'j' && "png"@[0] == 'p' && "bmp"@[0] == 'b');
    assert("gif"@.len() == 3 && "jpeg"@.len() == 4 && "webp"@.len() == 4);
}

/// A plan for a file of a set is the one for its role; a recorded encoding alone
/// is skipped.
pub proof fn law_plans_go_by_role(
    refs: RefsView,
    f: FileFacts,
    options: ShrinkOptions,
    records: Map<Seq<char>, RecordView>,
)
    requires
        set_plan(refs, f, options, records) is Some,
        !records.contains_key(f.path@),
    ensures
        ({
            let p = set_plan(refs, f, options, records)->0;
            let e = lower_text(f.extension@);
            match role_of(refs, f.name@, f.extension@, f.bytes) {
                AssetRole::Song => p == song_plan(f.name@, f.bytes, e, f.probe, f.estimates),
                AssetRole::Background | AssetRole::Sprite => p == image_plan(
                    f.name@,
                    f.bytes,
                    e,
                    f.dimensions,
                    f.estimates,
                ),
                AssetRole::Video => p == video_plan(
                    f.name@,
                    f.bytes,
                    e,
                    f.probe,
                    f.estimates,
                    options,
                ),
                AssetRole::Sample | AssetRole::Hitsound => p.action is Skip && p.kind
                    == ShrinkAssetKind::Protected,
                AssetRole::Orphan => p.kind == ShrinkAssetKind::Orphan,
                AssetRole::Hidden => false,
            }
        }),
{
}

/// An image of a skin is encoded anew where it takes more than a hundred thousand
/// bytes as a PNG and a million as a JPEG, and nothing else of a skin is touched.
/// Configuration and sounds are listed as protected; hidden and empty files and
/// files of other kinds are not listed.
pub proof fn law_skin_plans(
    f: FileFacts,
    options: ShrinkOptions,
    records: Map<Seq<char>, RecordView>,
)
    ensures
        ({
            let plan = skin_plan(f, options, records);
            let e = lower_text(f.extension@);
            let seen = !(f.name@.len() > 0 && f.name@[0] == '.') && f.bytes > 0;
            let image = e == "png"@ || e == "jpg"@ || e == "jpeg"@;
            let big = (e == "png"@ && f.bytes > 100_000) || (e != "png"@ && f.bytes > 1_000_000);
            let sound = e == "wav"@ || e == "mp3"@ || e == "ogg"@;
            &&& plan is Some <==> seen && (image || sound || e == "ini"@)
            &&& plan is Some && image ==> plan->0.kind == ShrinkAssetKind::Image
            &&& plan is Some && image && big && !records.contains_key(f.path@)
                ==> plan->0.action is SkinImageReencode && plan->0.est_bytes == f.estimates.skin
            &&& plan is Some && !(image && big) ==> plan->0.action is Skip && plan->0.est_bytes
                == f.bytes
            &&& plan is Some && !image ==> plan->0.kind == ShrinkAssetKind::Protected
        }),
{
}

/// The sums over a list of files grow by what each file more brings.
pub proof fn law_sums_grow(list: Seq<AssetView>, a: AssetView)
    ensures
        sum_bytes(seq![]) == 0 && sum_est(seq![]) == 0 && work_count(seq![]) == 0,
        sum_bytes(list.push(a)) == sum_bytes(list) + a.bytes,
        sum_est(list.push(a)) == sum_est(list) + a.est_bytes,
        work_count(list.push(a)) == work_count(list) + (if a.action is Skip {
            0int
        } else {
            1
        }),
{
    assert(list.push(a).drop_last() =~= list);
}

/// Every file of a folder that is to be reported is in the report once, in its
/// turn, with its plan.
pub proof fn law_every_file_is_planned(
    refs: RefsView,
    files: Seq<FileFacts>,
    f: FileFacts,
    options: ShrinkOptions,
    records: Map<Seq<char>, RecordView>,
)
    ensures
        set_plans(refs, seq![], options, records) == Seq::<AssetView>::empty(),
        set_plan(refs, f, options, records) is Some ==> set_plans(
            refs,
            files.push(f),
            options,
            records,
        ) == set_plans(refs, files, options, records).push(
            set_plan(refs, f, options, records)->0,
        ),
        set_plan(refs, f, options, records) is None ==> set_plans(
            refs,
            files.push(f),
            options,
            records,
        ) == set_plans(refs, files, options, records),
        skin_plans(seq![], options, records) == Seq::<AssetView>::empty(),
        skin_plan(f, options, records) is Some ==> skin_plans(files.push(f), options, records)
            == skin_plans(files, options, records).push(skin_plan(f, options, records)->0),
        skin_plan(f, options, records) is None ==> skin_plans(files.push(f), options, records)
            == skin_plans(files, options, records),
{
    assert(files.push(f).drop_last() =~= files);
}

/// A report lists every plan once, and its totals are the sums over its files.
pub proof fn law_reports(
    r: SetShrinkReport,
    folder: String,
    label: String,
    plans: Seq<AssetView>,
)
    requires
        reports(r, folder, label, plans),
    ensures
        r.folder == folder && r.label == label,
        assets_view(r.assets@).to_multiset() == plans.to_multiset(),
        r.total_in == sum_bytes(assets_view(r.assets@)),
        r.total_est == sum_est(assets_view(r.assets@)),
{
    law_report_order(plans);
    law_order_keeps_sums(plans);
}

} // verus!
