//! Shrinking the files of beatmap sets and skins: which file is what, and what
//! is to be done with it.
//!
//! File names never change. Beatmaps, storyboards and configuration are never
//! in a report; sounds that the game plays by themselves are in it, but
//! protected.
use crate::number::decimal_text;
#[allow(unused_imports)]
use crate::number::{decimal, law_decimal_round_trip};
use crate::order::TextIndex;
use crate::text::{join3, same_text};
use vstd::prelude::*;
use vstd::string::*;

verus! {

/// Song audio lands at this bitrate.
pub const AUDIO_TARGET_BPS: u64 = 192_000;

/// Song audio above this bitrate is worth another encoding.
pub const AUDIO_REENCODE_ABOVE_BPS: u64 = 210_000;

/// Videos shrink to at most this height.
pub const VIDEO_MAX_HEIGHT: u32 = 720;

/// Images shrink to at most this width.
pub const IMAGE_MAX_WIDTH: u32 = 1920;

/// Images other than PNGs up to this size are left alone.
pub const JPEG_MIN_BYTES: u64 = 300_000;

/// PNGs up to this size are left alone.
pub const PNG_MIN_BYTES: u64 = 1_000_000;

/// PNGs of skins up to this size are left alone.
pub const SKIN_PNG_MIN_BYTES: u64 = 100_000;

/// JPEGs of skins up to this size are left alone.
pub const SKIN_JPEG_MIN_BYTES: u64 = 1_000_000;

/// The version of the records of shrunk files. Another version of a converter
/// gets another number, and earlier records count no longer.
pub const SHRINK_CACHE_VERSION: u32 = 1;

/// What a file is, by what refers to it.
#[derive(Clone, Copy, Debug, PartialEq, Eq, Structural)]
pub enum ShrinkAssetKind {
    SongAudio,
    Video,
    Image,
    /// Hitsounds, storyboard samples, configuration: never touched.
    Protected,
    /// A media file that nothing refers to.
    Orphan,
}

/// What to do with a file.
#[derive(Debug, PartialEq, Eq)]
pub enum ShrinkAction {
    Mp3Cbr192,
    OggQ6,
    Video720pH264,
    ImageReencode,
    DeleteOrphan,
    /// An image of a skin: same size, same format, tighter encoding.
    SkinImageReencode,
    /// A background video is deleted; the game shows the background image.
    RemoveVideo,
    Skip { reason: String },
}

/// The view of a [`ShrinkAction`].
#[verifier::ext_equal]
pub enum ActionView {
    Mp3Cbr192,
    OggQ6,
    Video720pH264,
    ImageReencode,
    DeleteOrphan,
    SkinImageReencode,
    RemoveVideo,
    Skip { reason: Seq<char> },
}

impl View for ShrinkAction {
    type V = ActionView;

    open spec fn view(&self) -> ActionView {
        match *self {
            ShrinkAction::Mp3Cbr192 => ActionView::Mp3Cbr192,
            ShrinkAction::OggQ6 => ActionView::OggQ6,
            ShrinkAction::Video720pH264 => ActionView::Video720pH264,
            ShrinkAction::ImageReencode => ActionView::ImageReencode,
            ShrinkAction::DeleteOrphan => ActionView::DeleteOrphan,
            ShrinkAction::SkinImageReencode => ActionView::SkinImageReencode,
            ShrinkAction::RemoveVideo => ActionView::RemoveVideo,
            ShrinkAction::Skip { reason } => ActionView::Skip { reason: reason@ },
        }
    }
}

impl ActionView {
    /// Whether there is anything to do.
    pub open spec fn work(self) -> bool {
        !(self is Skip)
    }

    /// Whether the file is encoded anew.
    pub open spec fn reencode(self) -> bool {
        ||| self is Mp3Cbr192
        ||| self is OggQ6
        ||| self is Video720pH264
        ||| self is ImageReencode
        ||| self is SkinImageReencode
    }

    /// The words for it.
    pub open spec fn words(self) -> Seq<char> {
        match self {
            ActionView::Mp3Cbr192 => "MP3 192k"@,
            ActionView::OggQ6 => "OGG q6"@,
            ActionView::Video720pH264 => "H.264 720p"@,
            ActionView::ImageReencode => "re-encode"@,
            ActionView::DeleteOrphan => "delete"@,
            ActionView::SkinImageReencode => "skin re-encode"@,
            ActionView::RemoveVideo => "remove video"@,
            ActionView::Skip { reason } => "skip ("@ + reason + ")"@,
        }
    }
}

impl ShrinkAction {
    /// Whether there is anything to do.
    pub fn is_work(&self) -> (r: bool)
        ensures
            r == self@.work(),
    {
        match self {
            ShrinkAction::Skip { .. } => false,
            _ => true,
        }
    }

    /// Whether the file is encoded anew. These are the actions that records
    /// are kept of: what is deleted leaves no file behind.
    pub fn is_reencode(&self) -> (r: bool)
        ensures
            r == self@.reencode(),
    {
        match self {
            ShrinkAction::Mp3Cbr192 => true,
            ShrinkAction::OggQ6 => true,
            ShrinkAction::Video720pH264 => true,
            ShrinkAction::ImageReencode => true,
            ShrinkAction::SkinImageReencode => true,
            _ => false,
        }
    }

    /// The words for it.
    pub fn label(&self) -> (r: String)
        ensures
            r@ == self@.words(),
    {
        match self {
            ShrinkAction::Mp3Cbr192 => "MP3 192k".to_owned(),
            ShrinkAction::OggQ6 => "OGG q6".to_owned(),
            ShrinkAction::Video720pH264 => "H.264 720p".to_owned(),
            ShrinkAction::ImageReencode => "re-encode".to_owned(),
            ShrinkAction::DeleteOrphan => "delete".to_owned(),
            ShrinkAction::SkinImageReencode => "skin re-encode".to_owned(),
            ShrinkAction::RemoveVideo => "remove video".to_owned(),
            ShrinkAction::Skip { reason } => join3("skip (", reason, ")"),
        }
    }

    /// A copy.
    pub fn copy(&self) -> (r: Self)
        ensures
            r@ == self@,
    {
        match self {
            ShrinkAction::Mp3Cbr192 => ShrinkAction::Mp3Cbr192,
            ShrinkAction::OggQ6 => ShrinkAction::OggQ6,
            ShrinkAction::Video720pH264 => ShrinkAction::Video720pH264,
            ShrinkAction::ImageReencode => ShrinkAction::ImageReencode,
            ShrinkAction::DeleteOrphan => ShrinkAction::DeleteOrphan,
            ShrinkAction::SkinImageReencode => ShrinkAction::SkinImageReencode,
            ShrinkAction::RemoveVideo => ShrinkAction::RemoveVideo,
            ShrinkAction::Skip { reason } => ShrinkAction::Skip { reason: reason.clone() },
        }
    }
}

/// A file in a report.
#[derive(Debug)]
pub struct SetAsset {
    pub name: String,
    pub bytes: u64,
    pub kind: ShrinkAssetKind,
    pub action: ShrinkAction,
    pub est_bytes: u64,
    pub note: String,
}

/// The view of a [`SetAsset`].
#[verifier::ext_equal]
pub struct AssetView {
    pub name: Seq<char>,
    pub bytes: u64,
    pub kind: ShrinkAssetKind,
    pub action: ActionView,
    pub est_bytes: u64,
    pub note: Seq<char>,
}

impl View for SetAsset {
    type V = AssetView;

    open spec fn view(&self) -> AssetView {
        AssetView {
            name: self.name@,
            bytes: self.bytes,
            kind: self.kind,
            action: self.action@,
            est_bytes: self.est_bytes,
            note: self.note@,
        }
    }
}

/// The views of a list of files.
pub open spec fn assets_view(v: Seq<SetAsset>) -> Seq<AssetView> {
    Seq::new(v.len(), |i: int| v[i]@)
}

/// What was found in a folder.
#[derive(Debug)]
pub struct SetShrinkReport {
    pub folder: String,
    pub label: String,
    pub assets: Vec<SetAsset>,
    pub total_in: u64,
    pub total_est: u64,
}

/// How many of the files there is anything to do with.
pub open spec fn work_count(assets: Seq<AssetView>) -> nat
    decreases assets.len(),
{
    if assets.len() == 0 {
        0
    } else {
        work_count(assets.drop_last()) + (if assets.last().action.work() {
            1nat
        } else {
            0
        })
    }
}

/// The reason to skip a file that was shrunk before.
pub open spec fn already_shrunk() -> Seq<char> {
    "already shrunk"@
}

/// How many of the files are skipped because they were shrunk before.
pub open spec fn cached_count(assets: Seq<AssetView>) -> nat
    decreases assets.len(),
{
    if assets.len() == 0 {
        0
    } else {
        cached_count(assets.drop_last()) + (if assets.last().action == (ActionView::Skip {
            reason: already_shrunk(),
        }) {
            1nat
        } else {
            0
        })
    }
}

impl SetShrinkReport {
    /// How many of the files there is anything to do with.
    pub fn work_items(&self) -> (n: usize)
        ensures
            n == work_count(assets_view(self.assets@)),
    {
        let ghost all = assets_view(self.assets@);
        let mut n: usize = 0;
        let mut i: usize = 0;
        assert(all.take(0) =~= seq![]);
        while i < self.assets.len()
            invariant
                i <= self.assets@.len(),
                all == assets_view(self.assets@),
                n <= i,
                n == work_count(all.take(i as int)),
            decreases self.assets@.len() - i,
        {
            assert(all.take(i as int + 1).drop_last() =~= all.take(i as int));
            if self.assets[i].action.is_work() {
                n = n + 1;
            }
            i = i + 1;
        }
        assert(all.take(i as int) =~= all);
        n
    }

    /// How many of the files are skipped because they were shrunk before.
    pub fn cached_items(&self) -> (n: usize)
        ensures
            n == cached_count(assets_view(self.assets@)),
    {
        let ghost all = assets_view(self.assets@);
        let mut n: usize = 0;
        let mut i: usize = 0;
        assert(all.take(0) =~= seq![]);
        while i < self.assets.len()
            invariant
                i <= self.assets@.len(),
                all == assets_view(self.assets@),
                n <= i,
                n == cached_count(all.take(i as int)),
            decreases self.assets@.len() - i,
        {
            assert(all.take(i as int + 1).drop_last() =~= all.take(i as int));
            if let ShrinkAction::Skip { reason } = &self.assets[i].action {
                if same_text(reason, "already shrunk") {
                    n = n + 1;
                }
            }
            i = i + 1;
        }
        assert(all.take(i as int) =~= all);
        n
    }

    /// How many bytes fewer the files are expected to take.
    pub fn est_saved(&self) -> (n: u64)
        ensures
            n == (if self.total_in >= self.total_est {
                self.total_in - self.total_est
            } else {
                0
            }),
    {
        self.total_in.saturating_sub(self.total_est)
    }
}

/// How to shrink.
#[derive(Clone, Copy, Debug, PartialEq, Eq, Structural)]
pub struct ShrinkOptions {
    /// Save each folder in an archive before touching it.
    pub backup: bool,
    /// Delete media files that nothing refers to.
    pub delete_orphans: bool,
    /// Delete background videos instead of compressing them.
    pub remove_videos: bool,
    /// The quality of JPEG encodings.
    pub jpeg_quality: u8,
    /// The constant rate factor of video encodings.
    pub video_crf: u32,
    /// How many folders to shrink at a time.
    pub jobs: usize,
}

impl Default for ShrinkOptions {
    fn default() -> (r: Self)
        ensures
            r == (ShrinkOptions {
                backup: true,
                delete_orphans: false,
                remove_videos: false,
                jpeg_quality: 85,
                video_crf: 21,
                jobs: 2,
            }),
    {
        ShrinkOptions {
            backup: true,
            delete_orphans: false,
            remove_videos: false,
            jpeg_quality: 85,
            video_crf: 21,
            jobs: 2,
        }
    }
}

/// The settings that change what a converter makes, as a text.
pub open spec fn settings_text(options: ShrinkOptions) -> Seq<char> {
    "v"@ + decimal(SHRINK_CACHE_VERSION as nat) + " q"@ + decimal(options.jpeg_quality as nat)
        + " crf"@ + decimal(options.video_crf as nat)
}

impl ShrinkOptions {
    /// The settings that change what a converter makes, as a text. Records made
    /// under other settings do not count.
    pub fn fingerprint(&self) -> (r: String)
        ensures
            r@ == settings_text(*self),
    {
        let mut r = "v".to_owned();
        r.append(&decimal_text(SHRINK_CACHE_VERSION as u64));
        r.append(" q");
        r.append(&decimal_text(self.jpeg_quality as u64));
        r.append(" crf");
        r.append(&decimal_text(self.video_crf as u64));
        r
    }
}

/// Two fingerprints are the same if and only if the qualities and the constant
/// rate factors are: other options make no record useless.
pub proof fn law_fingerprint(a: ShrinkOptions, b: ShrinkOptions)
    ensures
        settings_text(a) == settings_text(b) <==> a.jpeg_quality == b.jpeg_quality && a.video_crf
            == b.video_crf,
{
    let s = settings_text(a);
    let t = settings_text(b);
    let head = "v"@ + decimal(SHRINK_CACHE_VERSION as nat) + " q"@;
    let qa = decimal(a.jpeg_quality as nat);
    let qb = decimal(b.jpeg_quality as nat);
    let ca = decimal(a.video_crf as nat);
    let cb = decimal(b.video_crf as nat);
    if s == t {
        reveal_strlit(" crf");
        law_decimal_round_trip(a.jpeg_quality as nat);
        law_decimal_round_trip(b.jpeg_quality as nat);
        law_decimal_round_trip(a.video_crf as nat);
        law_decimal_round_trip(b.video_crf as nat);
        let h = head.len() as int;
        assert(s[h + qa.len()] == ' ');
        assert(t[h + qb.len()] == ' ');
        if qa.len() < qb.len() {
            assert(t[h + qa.len()] == qb[qa.len() as int]);
        } else if qb.len() < qa.len() {
            assert(s[h + qb.len()] == qa[qb.len() as int]);
        }
        assert(qa =~= s.subrange(h, h + qa.len()));
        assert(qb =~= t.subrange(h, h + qb.len()));
        assert(ca =~= s.skip(h + qa.len() + 4));
        assert(cb =~= t.skip(h + qb.len() + 4));
    }
}

// ---- records of shrunk files ----

/// How a file looked right after it was shrunk, how and under which settings.
#[derive(Debug)]
pub struct ShrinkCacheEntry {
    pub size: u64,
    pub mtime: u64,
    pub action: String,
    pub settings: String,
}

/// The view of a [`ShrinkCacheEntry`].
#[verifier::ext_equal]
pub struct RecordView {
    pub size: u64,
    pub mtime: u64,
    pub action: Seq<char>,
    pub settings: Seq<char>,
}

impl View for ShrinkCacheEntry {
    type V = RecordView;

    open spec fn view(&self) -> RecordView {
        RecordView {
            size: self.size,
            mtime: self.mtime,
            action: self.action@,
            settings: self.settings@,
        }
    }
}

/// The records of shrunk files, by path. A file that was shrunk is not encoded
/// again, as every encoding loses quality. A record counts only for the very
/// file: another size or time, another action or other settings, and it does
/// not.
#[derive(Debug)]
pub struct ShrinkCache {
    pub version: u32,
    pub entries: Vec<ShrinkCacheEntry>,
    pub index: TextIndex,
}

impl View for ShrinkCache {
    type V = Map<Seq<char>, RecordView>;

    open spec fn view(&self) -> Map<Seq<char>, RecordView> {
        Map::new(
            |k: Seq<char>| self.index@.contains_key(k),
            |k: Seq<char>| self.entries@[self.index@[k]]@,
        )
    }
}

/// Whether the records say that a file with this size and time was shrunk by
/// this action under these settings.
pub open spec fn shrunk(
    records: Map<Seq<char>, RecordView>,
    path: Seq<char>,
    size: u64,
    mtime: u64,
    action: ActionView,
    settings: Seq<char>,
) -> bool {
    records.contains_key(path) && records[path] == (RecordView {
        size,
        mtime,
        action: action.words(),
        settings,
    })
}

impl ShrinkCache {
    /// Every path has a record of its own.
    pub open spec fn wf(self) -> bool {
        &&& self.index.wf()
        &&& forall|k: Seq<char>| #[trigger]
            self.index@.contains_key(k) ==> 0 <= self.index@[k] < self.entries@.len()
        &&& forall|j: Seq<char>, k: Seq<char>|
            self.index@.contains_key(j) && self.index@.contains_key(k) && j != k
                ==> #[trigger] self.index@[j] != #[trigger] self.index@[k]
    }

    /// No records, under the version `version`.
    pub fn with_version(version: u32) -> (r: Self)
        ensures
            r.wf(),
            r.version == version,
            r@ == Map::<Seq<char>, RecordView>::empty(),
    {
        let r = ShrinkCache { version, entries: Vec::new(), index: TextIndex::new() };
        assert(r@ =~= Map::empty());
        r
    }

    /// Whether a file with this size and time was shrunk by this action under
    /// these settings.
    pub fn is_shrunk(
        &self,
        path: &str,
        size: u64,
        mtime: u64,
        action: &ShrinkAction,
        settings: &str,
    ) -> (r: bool)
        requires
            self.wf(),
        ensures
            r == shrunk(self@, path@, size, mtime, action@, settings@),
    {
        match self.index.get(path) {
            Some(i) => {
                let entry = &self.entries[i];
                assert(self@[path@] == entry@);
                entry.size == size && entry.mtime == mtime && same_text(
                    &entry.action,
                    &action.label(),
                ) && same_text(&entry.settings, settings)
            },
            None => false,
        }
    }

    /// Keeps a record for a path, in place of an earlier one.
    fn put(&mut self, path: String, entry: ShrinkCacheEntry)
        requires
            old(self).wf(),
        ensures
            final(self).wf(),
            final(self).version == old(self).version,
            final(self)@ == old(self)@.insert(path@, entry@),
    {
        match self.index.get(&path) {
            Some(i) => {
                self.entries.set(i, entry);
            },
            None => {
                let i: usize = self.entries.len();
                self.entries.push(entry);
                self.index.insert(path, i);
            },
        }
        proof {
            assert forall|k: Seq<char>| #[trigger] self@.contains_key(k) implies self@[k] == old(
                self,
            )@.insert(path@, entry@)[k] by {
                if k != path@ {
                    assert(old(self).index@.contains_key(k));
                    assert(old(self)@[k] == old(self).entries@[old(self).index@[k]]@);
                }
            }
            assert(self@ =~= old(self)@.insert(path@, entry@));
        }
    }

    /// Records that a file was shrunk.
    pub fn record(
        &mut self,
        path: &str,
        size: u64,
        mtime: u64,
        action: &ShrinkAction,
        settings: &str,
    )
        requires
            old(self).wf(),
        ensures
            final(self).wf(),
            final(self).version == old(self).version,
            final(self)@ == old(self)@.insert(
                path@,
                RecordView { size, mtime, action: action@.words(), settings: settings@ },
            ),
    {
        let entry = ShrinkCacheEntry {
            size,
            mtime,
            action: action.label(),
            settings: settings.to_owned(),
        };
        self.put(path.to_owned(), entry);
    }

    /// How many files have a record.
    pub fn len(&self) -> (n: usize)
        requires
            self.wf(),
        ensures
            n == self@.dom().len(),
    {
        let n: usize = self.index.keys.items.len();
        proof {
            let listed = self.index.keys.listed();
            crate::order::lemma_ascending_distinct(listed);
            listed.unique_seq_to_set();
            assert(self@.dom() =~= listed.to_set());
        }
        n
    }
}

/// The records as they are kept in a file.
#[derive(Debug)]
pub struct SavedCache {
    pub version: u32,
    pub entries: Vec<(String, ShrinkCacheEntry)>,
}

/// The records of a list of paths and records; the last one of a path counts.
pub open spec fn listed_records(list: Seq<(String, ShrinkCacheEntry)>) -> Map<
    Seq<char>,
    RecordView,
>
    decreases list.len(),
{
    if list.len() == 0 {
        Map::empty()
    } else {
        listed_records(list.drop_last()).insert(list.last().0@, list.last().1@)
    }
}

/// The records that a file gives: none where there is no file, where it cannot
/// be read or has another version.
pub open spec fn loaded_records(saved: Option<SavedCache>) -> Map<Seq<char>, RecordView> {
    match saved {
        Some(s) => if s.version == SHRINK_CACHE_VERSION {
            listed_records(s.entries@)
        } else {
            Map::empty()
        },
        None => Map::empty(),
    }
}

/// A copy of a record.
fn copy_entry(e: &ShrinkCacheEntry) -> (r: ShrinkCacheEntry)
    ensures
        r == *e,
{
    ShrinkCacheEntry {
        size: e.size,
        mtime: e.mtime,
        action: e.action.clone(),
        settings: e.settings.clone(),
    }
}

impl ShrinkCache {
    /// The records that a file gives.
    pub fn load(saved: Option<SavedCache>) -> (r: Self)
        ensures
            r.wf(),
            r.version == SHRINK_CACHE_VERSION,
            r@ == loaded_records(saved),
    {
        let mut r = ShrinkCache::with_version(SHRINK_CACHE_VERSION);
        if let Some(s) = saved {
            if s.version == SHRINK_CACHE_VERSION {
                let list = s.entries;
                let mut i: usize = 0;
                assert(list@.take(0) =~= seq![]);
                while i < list.len()
                    invariant
                        i <= list@.len(),
                        r.wf(),
                        r.version == SHRINK_CACHE_VERSION,
                        r@ == listed_records(list@.take(i as int)),
                    decreases list@.len() - i,
                {
                    let pair = &list[i];
                    r.put(pair.0.clone(), copy_entry(&pair.1));
                    assert(list@.take(i as int + 1).drop_last() =~= list@.take(i as int));
                    i = i + 1;
                }
                assert(list@.take(i as int) =~= list@);
            }
        }
        r
    }

    /// The records to keep in a file, in the order of their paths.
    pub fn save(&self) -> (r: SavedCache)
        requires
            self.wf(),
        ensures
            r.version == SHRINK_CACHE_VERSION,
            listed_records(r.entries@) == self@,
            r.entries@.len() == self@.dom().len(),
    {
        let mut list: Vec<(String, ShrinkCacheEntry)> = Vec::new();
        let n: usize = self.len();
        let ghost keys = self.index.keys.listed();
        proof {
            crate::order::lemma_ascending_distinct(keys);
            keys.unique_seq_to_set();
            assert(self@.dom() =~= keys.to_set());
        }
        let mut i: usize = 0;
        assert(listed_records(list@) =~= self@.restrict(keys.take(0).to_set()));
        while i < self.index.keys.items.len()
            invariant
                self.wf(),
                keys == self.index.keys.listed(),
                keys.no_duplicates(),
                i <= self.index.keys.items@.len(),
                list@.len() == i,
                listed_records(list@) == self@.restrict(keys.take(i as int).to_set()),
            decreases self.index.keys.items@.len() - i,
        {
            let key = &self.index.keys.items[i];
            proof {
                assert(keys[i as int] == key@);
                assert(self.index@.contains_key(key@)) by {
                    assert(keys.contains(keys[i as int]));
                }
            }
            if let Some(p) = self.index.get(key) {
                let ghost before = list@;
                list.push((key.clone(), copy_entry(&self.entries[p])));
                proof {
                    assert(list@.drop_last() =~= before);
                    assert(self@[key@] == self.entries@[p as int]@);
                    crate::order::lemma_take_set(keys, i as int);
                    assert(listed_records(list@) =~= self@.restrict(
                        keys.take(i as int + 1).to_set(),
                    ));
                }
            }
            i = i + 1;
        }
        proof {
            assert(keys.take(i as int) =~= keys);
            assert(self@.restrict(keys.to_set()) =~= self@);
        }
        SavedCache { version: SHRINK_CACHE_VERSION, entries: list }
    }

    /// Takes over the records of `other`, in place of own ones for the same
    /// path.
    pub fn extend(&mut self, other: ShrinkCache)
        requires
            old(self).wf(),
            other.wf(),
        ensures
            final(self).wf(),
            final(self).version == old(self).version,
            final(self)@ == old(self)@.union_prefer_right(other@),
    {
        let saved = other.save();
        let list = saved.entries;
        let mut i: usize = 0;
        assert(list@.take(0) =~= seq![]);
        assert(self@ =~= old(self)@.union_prefer_right(listed_records(list@.take(0))));
        while i < list.len()
            invariant
                i <= list@.len(),
                self.wf(),
                self.version == old(self).version,
                self@ == old(self)@.union_prefer_right(listed_records(list@.take(i as int))),
            decreases list@.len() - i,
        {
            let pair = &list[i];
            self.put(pair.0.clone(), copy_entry(&pair.1));
            assert(list@.take(i as int + 1).drop_last() =~= list@.take(i as int));
            assert(self@ =~= old(self)@.union_prefer_right(
                listed_records(list@.take(i as int + 1)),
            ));
            i = i + 1;
        }
        assert(list@.take(i as int) =~= list@);
    }
}

impl Default for ShrinkCache {
    /// No records, and no version yet.
    fn default() -> (r: Self)
        ensures
            r.wf(),
            r.version == 0,
            r@ == Map::<Seq<char>, RecordView>::empty(),
    {
        ShrinkCache::with_version(0)
    }
}

/// A recorded file counts as shrunk, and only in the state, by the action and
/// under the settings that were recorded. Records of other files stay.
pub proof fn law_record(
    records: Map<Seq<char>, RecordView>,
    path: Seq<char>,
    size: u64,
    mtime: u64,
    action: ActionView,
    settings: Seq<char>,
    other: Seq<char>,
    size2: u64,
    mtime2: u64,
    action2: ActionView,
    settings2: Seq<char>,
)
    ensures
        ({
            let after = records.insert(
                path,
                RecordView { size, mtime, action: action.words(), settings },
            );
            &&& shrunk(after, path, size2, mtime2, action2, settings2) <==> (size2 == size && mtime2
                == mtime && action2.words() == action.words() && settings2 == settings)
            &&& other != path ==> shrunk(after, other, size2, mtime2, action2, settings2) == shrunk(
                records,
                other,
                size2,
                mtime2,
                action2,
                settings2,
            )
        }),
{
}

/// Two kinds of encoding have different words, so that a record of one never
/// counts for the other.
pub proof fn law_reencode_words_differ(a: ActionView, b: ActionView)
    requires
        a.reencode(),
        b.reencode(),
        a.words() == b.words(),
    ensures
        a == b,
{
    reveal_strlit("MP3 192k");
    reveal_strlit("OGG q6");
    reveal_strlit("H.264 720p");
    reveal_strlit("re-encode");
    reveal_strlit("skin re-encode");
    assert("MP3 192k"@.len() == 8);
    assert("OGG q6"@.len() == 6);
    assert("H.264 720p"@.len() == 10);
    assert("re-encode"@.len() == 9);
    assert("skin re-encode"@.len() == 14);
}

/// What was saved is what is loaded.
pub proof fn law_cache_round_trip(saved: SavedCache, records: Map<Seq<char>, RecordView>)
    requires
        saved.version == SHRINK_CACHE_VERSION,
        listed_records(saved.entries@) == records,
    ensures
        loaded_records(Some(saved)) == records,
{
}

/// Everything but a skip is work, and all work but deleting is encoding.
pub proof fn law_actions(a: ActionView)
    ensures
        a.work() <==> !(a is Skip),
        a.reencode() <==> a.work() && !(a is DeleteOrphan) && !(a is RemoveVideo),
{
}

/// A file that is skipped because it was encoded before counts as such, and no
/// other does.
pub proof fn law_cached_files(assets: Seq<AssetView>, a: AssetView)
    ensures
        cached_count(seq![]) == 0,
        cached_count(assets.push(a)) == cached_count(assets) + (if a.action == (ActionView::Skip {
            reason: "already shrunk"@,
        }) {
            1int
        } else {
            0
        }),
{
    assert(assets.push(a).drop_last() =~= assets);
}

/// Of several saved records of a file the last one counts; records of another
/// version do not count at all.
pub proof fn law_saved_records(
    list: Seq<(String, ShrinkCacheEntry)>,
    path: String,
    entry: ShrinkCacheEntry,
    other: Seq<char>,
    saved: SavedCache,
)
    requires
        other != path@,
    ensures
        listed_records(list.push((path, entry))).contains_pair(path@, entry@),
        listed_records(list.push((path, entry))).contains_key(other) == listed_records(
            list,
        ).contains_key(other),
        listed_records(list).contains_key(other) ==> listed_records(list.push((path, entry)))[other]
            == listed_records(list)[other],
        saved.version != SHRINK_CACHE_VERSION ==> loaded_records(Some(saved)) == Map::<
            Seq<char>,
            RecordView,
        >::empty(),
        loaded_records(None) == Map::<Seq<char>, RecordView>::empty(),
{
    assert(list.push((path, entry)).drop_last() =~= list);
}

} // verus!
