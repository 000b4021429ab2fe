//! Running a plan: the commands of the converters, what counts as a good
//! result, and the course of a run over folders and files.
use crate::local::copy_text;
#[allow(unused_imports)]
use crate::local::opt_text;
use crate::number::decimal_text;
#[allow(unused_imports)]
use crate::number::decimal;
use crate::order::place;
use crate::shrink::{
    SetAsset, SetShrinkReport, ShrinkAction, ShrinkCache, ShrinkOptions, IMAGE_MAX_WIDTH,
    VIDEO_MAX_HEIGHT,
};
#[allow(unused_imports)]
use crate::shrink::{assets_view, settings_text, ActionView, AssetView, RecordView};
use crate::shrink_plan::MediaProbe;
#[allow(unused_imports)]
use crate::shrink_plan::sum_bytes;
use crate::sizes::human_bytes;
#[allow(unused_imports)]
use crate::sizes::size_text;
use crate::text::{chars_of, join2, join3, same_text, starts_with, text_between, trim};
#[allow(unused_imports)]
use crate::text::{has_prefix, last_of, lemma_last_of, texts, trim_text};
use vstd::prelude::*;
use vstd::string::*;

verus! {

// ---- converters ----

/// The programs that convert: the converter, and the probe beside it or on the
/// search path.
#[derive(Debug)]
pub struct ShrinkBins {
    pub ffmpeg: String,
    pub ffprobe: Option<String>,
}

/// The programs to use, where `beside` is the probe in the folder of the
/// converter and `on_path` the one on the search path, if they exist.
pub fn resolve_bins(ffmpeg: String, beside: Option<String>, on_path: Option<String>) -> (r:
    ShrinkBins)
    ensures
        r.ffmpeg == ffmpeg,
        r.ffprobe == (if beside is Some {
            beside
        } else {
            on_path
        }),
{
    let ffprobe = if beside.is_some() {
        beside
    } else {
        on_path
    };
    ShrinkBins { ffmpeg, ffprobe }
}

/// The name of a program's file.
pub fn exe_name(base: &str, windows: bool) -> (r: String)
    ensures
        r@ == (if windows {
            base@ + ".exe"@
        } else {
            base@
        }),
{
    if windows {
        join2(base, ".exe")
    } else {
        base.to_owned()
    }
}

/// The name of the file that a converter writes before it replaces the
/// original.
pub open spec fn tmp_text(file_name: Option<Seq<char>>) -> Seq<char> {
    ".shrink-tmp-"@ + (match file_name {
        Some(n) => n,
        None => "asset"@,
    })
}

/// The name of the file that a converter writes, beside the source, before
/// it replaces it.
pub fn tmp_name_for(file_name: &Option<String>) -> (r: String)
    ensures
        r@ == tmp_text(opt_text(*file_name)),
{
    match file_name {
        Some(n) => join2(".shrink-tmp-", n),
        None => join2(".shrink-tmp-", "asset"),
    }
}

/// The arguments with which every conversion begins.
pub open spec fn common_args(src: Seq<char>) -> Seq<Seq<char>> {
    seq!["-y"@, "-hide_banner"@, "-loglevel"@, "error"@, "-nostats"@, "-i"@, src]
}

/// The arguments that convert the audio of a song, if `action` does.
pub open spec fn audio_args_of(action: ActionView, src: Seq<char>, tmp: Seq<char>) -> Option<
    Seq<Seq<char>>,
> {
    let head = common_args(src) + seq![
        "-map"@,
        "0:a:0"@,
        "-vn"@,
        "-sn"@,
        "-map_metadata"@,
        "-1"@,
    ];
    match action {
        ActionView::Mp3Cbr192 => Some(
            head + seq!["-c:a"@, "libmp3lame"@, "-b:a"@, "192k"@, tmp],
        ),
        ActionView::OggQ6 => Some(head + seq!["-c:a"@, "libvorbis"@, "-q:a"@, "6"@, tmp]),
        _ => None,
    }
}

/// Appends an argument.
fn arg(args: &mut Vec<String>, a: &str)
    ensures
        texts(final(args)@) == texts(old(args)@).push(a@),
{
    args.push(a.to_owned());
    assert(texts(args@) =~= texts(old(args)@).push(a@));
}

/// The arguments that convert the audio of a song.
pub fn audio_args(action: &ShrinkAction, src: &str, tmp: &str) -> (r: Option<Vec<String>>)
    ensures
        match r {
            Some(args) => audio_args_of(action@, src@, tmp@) == Some(texts(args@)),
            None => audio_args_of(action@, src@, tmp@) is None,
        },
{
    let mp3 = match action {
        ShrinkAction::Mp3Cbr192 => true,
        ShrinkAction::OggQ6 => false,
        _ => return None,
    };
    let mut args: Vec<String> = Vec::new();
    assert(texts(args@) =~= seq![]);
    arg(&mut args, "-y");
    arg(&mut args, "-hide_banner");
    arg(&mut args, "-loglevel");
    arg(&mut args, "error");
    arg(&mut args, "-nostats");
    arg(&mut args, "-i");
    arg(&mut args, src);
    arg(&mut args, "-map");
    arg(&mut args, "0:a:0");
    arg(&mut args, "-vn");
    arg(&mut args, "-sn");
    arg(&mut args, "-map_metadata");
    arg(&mut args, "-1");
    arg(&mut args, "-c:a");
    if mp3 {
        arg(&mut args, "libmp3lame");
        arg(&mut args, "-b:a");
        arg(&mut args, "192k");
    } else {
        arg(&mut args, "libvorbis");
        arg(&mut args, "-q:a");
        arg(&mut args, "6");
    }
    arg(&mut args, tmp);
    assert(audio_args_of(action@, src@, tmp@) is Some);
    assert(texts(args@) =~= audio_args_of(action@, src@, tmp@)->0);
    Some(args)
}

/// The constant rate factor of a video encoding, kept within bounds.
pub open spec fn bounded_crf(crf: u32) -> u32 {
    if crf < 18 {
        18
    } else if crf > 28 {
        28
    } else {
        crf
    }
}

/// The arguments that convert a background video.
pub open spec fn video_args_of(crf: u32, src: Seq<char>, tmp: Seq<char>) -> Seq<Seq<char>> {
    common_args(src) + seq![
        "-map"@,
        "0:v:0"@,
        "-c:v"@,
        "libx264"@,
        "-crf"@,
        decimal(bounded_crf(crf) as nat),
        "-preset"@,
        "medium"@,
        "-vf"@,
        "scale=-2:min(ih\\,"@ + decimal(VIDEO_MAX_HEIGHT as nat) + ")"@,
        "-an"@,
        "-sn"@,
        "-map_metadata"@,
        "-1"@,
        "-movflags"@,
        "+faststart"@,
        tmp,
    ]
}

/// The arguments that convert a background video.
pub fn video_args(options: &ShrinkOptions, src: &str, tmp: &str) -> (args: Vec<String>)
    ensures
        texts(args@) == video_args_of(options.video_crf, src@, tmp@),
{
    let crf: u32 = if options.video_crf < 18 {
        18
    } else if options.video_crf > 28 {
        28
    } else {
        options.video_crf
    };
    let mut args: Vec<String> = Vec::new();
    assert(texts(args@) =~= seq![]);
    arg(&mut args, "-y");
    arg(&mut args, "-hide_banner");
    arg(&mut args, "-loglevel");
    arg(&mut args, "error");
    arg(&mut args, "-nostats");
    arg(&mut args, "-i");
    arg(&mut args, src);
    arg(&mut args, "-map");
    arg(&mut args, "0:v:0");
    arg(&mut args, "-c:v");
    arg(&mut args, "libx264");
    arg(&mut args, "-crf");
    arg(&mut args, &decimal_text(crf as u64));
    arg(&mut args, "-preset");
    arg(&mut args, "medium");
    arg(&mut args, "-vf");
    let scale = join3("scale=-2:min(ih\\,", &decimal_text(VIDEO_MAX_HEIGHT as u64), ")");
    arg(&mut args, &scale);
    arg(&mut args, "-an");
    arg(&mut args, "-sn");
    arg(&mut args, "-map_metadata");
    arg(&mut args, "-1");
    arg(&mut args, "-movflags");
    arg(&mut args, "+faststart");
    arg(&mut args, tmp);
    assert(texts(args@) =~= video_args_of(options.video_crf, src@, tmp@));
    args
}

/// Why a converted video is refused.
pub open spec fn video_fault(probe: Option<MediaProbe>) -> Option<Seq<char>> {
    match probe {
        None => Some("converted video does not decode"@),
        Some(p) => if p.codec@ != "h264"@ {
            Some("unexpected codec "@ + p.codec@)
        } else if p.height == 0 || p.height > VIDEO_MAX_HEIGHT {
            Some("unexpected height "@ + decimal(p.height as nat))
        } else {
            None
        },
    }
}

/// Why a converted video is refused, if it is.
pub fn refuse_video(probe: &Option<MediaProbe>) -> (r: Option<String>)
    ensures
        opt_text(r) == video_fault(*probe),
{
    match probe {
        None => Some("converted video does not decode".to_owned()),
        Some(p) => if !same_text(&p.codec, "h264") {
            Some(join2("unexpected codec ", &p.codec))
        } else if p.height == 0 || p.height > VIDEO_MAX_HEIGHT {
            Some(join2("unexpected height ", &decimal_text(p.height as u64)))
        } else {
            None
        },
    }
}

/// The size that an image is scaled to: at most the largest width, in
/// proportion, and never less than one row.
pub open spec fn target_size(w: u32, h: u32) -> (u32, u32) {
    if w > IMAGE_MAX_WIDTH {
        let rows = (h * IMAGE_MAX_WIDTH) / w as int;
        (
            IMAGE_MAX_WIDTH,
            if rows < 1 {
                1
            } else {
                rows as u32
            },
        )
    } else {
        (w, h)
    }
}

/// The size that an image is scaled to.
pub fn scaled_size(w: u32, h: u32) -> (r: (u32, u32))
    ensures
        r == target_size(w, h),
        r.0 <= w && (h > 0 ==> r.1 <= h),
{
    if w > IMAGE_MAX_WIDTH {
        proof {
            assert(h * IMAGE_MAX_WIDTH <= 0xffff_ffff * 1920) by (nonlinear_arith)
                requires
                    h <= 0xffff_ffff,
                    IMAGE_MAX_WIDTH == 1920,
            ;
            assert((h * IMAGE_MAX_WIDTH) / (w as int) <= h) by (nonlinear_arith)
                requires
                    w > IMAGE_MAX_WIDTH,
                    h >= 0,
                    IMAGE_MAX_WIDTH == 1920,
            ;
        }
        let rows: u64 = (h as u64 * IMAGE_MAX_WIDTH as u64) / w as u64;
        if rows < 1 {
            (IMAGE_MAX_WIDTH, 1)
        } else {
            (IMAGE_MAX_WIDTH, rows as u32)
        }
    } else {
        (w, h)
    }
}

/// Whether an image with this extension, in lower case, is written as a JPEG.
pub open spec fn jpeg_ext(e: Seq<char>) -> bool {
    e == "jpg"@ || e == "jpeg"@ || e == "webp"@
}

/// Whether an image with this extension, in lower case, is written as a JPEG.
/// All others are written as PNGs.
pub fn writes_jpeg(e: &str) -> (r: bool)
    ensures
        r == jpeg_ext(e@),
{
    same_text(e, "jpg") || same_text(e, "jpeg") || same_text(e, "webp")
}

/// Why a written image is refused.
pub open spec fn image_fault(
    skin: bool,
    original: (u32, u32),
    written: Option<(u32, u32)>,
) -> Option<Seq<char>> {
    match written {
        None => Some("tmp image unreadable"@),
        Some((w, h)) => if skin {
            if w != original.0 || h != original.1 {
                Some("tmp image dimensions changed"@)
            } else {
                None
            }
        } else if w == 0 || h == 0 {
            Some("tmp image invalid"@)
        } else {
            None
        },
    }
}

/// Why a written image is refused, if it is: for a skin its size must be that
/// of the source, else it must only have one.
pub fn refuse_image(skin: bool, original: (u32, u32), written: Option<(u32, u32)>) -> (r: Option<
    String,
>)
    ensures
        opt_text(r) == image_fault(skin, original, written),
{
    match written {
        None => Some("tmp image unreadable".to_owned()),
        Some((w, h)) => if skin {
            if w != original.0 || h != original.1 {
                Some("tmp image dimensions changed".to_owned())
            } else {
                None
            }
        } else if w == 0 || h == 0 {
            Some("tmp image invalid".to_owned())
        } else {
            None
        },
    }
}

/// How many bytes a converted file saves if it replaces its source, which it does
/// only where it is smaller.
pub open spec fn swap_gain(before: u64, converted: u64) -> Option<u64> {
    if converted >= before {
        None
    } else {
        Some((before - converted) as u64)
    }
}

/// How many bytes a converted file saves if it replaces its source. One that
/// is no smaller does not replace it.
pub fn swap_saves(before: u64, converted: u64) -> (r: Option<u64>)
    ensures
        r is Some <==> converted < before,
        r is Some ==> r->0 == before - converted,
        r == swap_gain(before, converted),
{
    if converted >= before {
        None
    } else {
        Some(before - converted)
    }
}

/// Keeps a line of a converter's messages: only the last twenty are kept.
pub fn keep_line(tail: &mut Vec<String>, line: String)
    requires
        old(tail)@.len() <= 20,
    ensures
        final(tail)@.len() <= 20,
        final(tail)@ == (if old(tail)@.len() < 20 {
            old(tail)@.push(line)
        } else {
            old(tail)@.push(line).drop_first()
        }),
{
    tail.push(line);
    if tail.len() > 20 {
        tail.remove(0);
        assert(tail@ =~= old(tail)@.push(line).drop_first());
    }
}

/// The last line that is not blank.
pub open spec fn last_line(tail: Seq<Seq<char>>) -> Option<Seq<char>>
    decreases tail.len(),
{
    if tail.len() == 0 {
        None
    } else if trim_text(tail.last()).len() > 0 {
        Some(tail.last())
    } else {
        last_line(tail.drop_last())
    }
}

/// The message of a converter that failed: the last line of its messages that
/// is not blank, cut to 240 characters.
pub open spec fn failure_text(tail: Seq<Seq<char>>) -> Seq<char> {
    let line = match last_line(tail) {
        Some(l) => l,
        None => "ffmpeg failed"@,
    };
    "ffmpeg failed: "@ + (if line.len() > 240 {
        line.take(240)
    } else {
        line
    })
}

/// The message of a converter that failed.
pub fn ffmpeg_failure(tail: &Vec<String>) -> (r: String)
    ensures
        r@ == failure_text(texts(tail@)),
{
    let ghost all = texts(tail@);
    let mut i: usize = tail.len();
    assert(all.take(all.len() as int) =~= all);
    let mut found: Option<String> = None;
    while i > 0 && found.is_none()
        invariant
            i <= tail@.len(),
            all == texts(tail@),
            match found {
                Some(l) => last_line(all) == Some(l@),
                None => last_line(all) == last_line(all.take(i as int)),
            },
        decreases i,
    {
        i = i - 1;
        proof {
            assert(all.take(i as int + 1).drop_last() =~= all.take(i as int));
            assert(all.take(i as int + 1).last() == tail@[i as int]@);
        }
        if chars_of(&trim(&tail[i])).len() > 0 {
            found = Some(tail[i].clone());
        }
    }
    let line = match found {
        Some(l) => l,
        None => {
            assert(all.take(0) =~= seq![]);
            "ffmpeg failed".to_owned()
        },
    };
    let cs = chars_of(&line);
    if cs.len() > 240 {
        assert(cs@.subrange(0, 240) =~= cs@.take(240));
        join2("ffmpeg failed: ", &text_between(&cs, 0, 240))
    } else {
        join2("ffmpeg failed: ", &line)
    }
}

// ---- backups ----

/// The name of the archive in which a folder is saved.
pub fn backup_name(folder_name: &Option<String>, stamp: &str) -> (r: String)
    ensures
        r@ == (match *folder_name {
            Some(n) => n@,
            None => "set"@,
        }) + "-"@ + stamp@ + ".zip"@,
{
    let mut r = match folder_name {
        Some(n) => n.clone(),
        None => "set".to_owned(),
    };
    r.append("-");
    r.append(stamp);
    r.append(".zip");
    r
}

/// Whether a file of a folder belongs into its archive: files that a converter
/// left behind do not.
pub fn is_backed_up(name: &str) -> (r: bool)
    ensures
        r == !has_prefix(name@, ".shrink-tmp-"@),
{
    !starts_with(name, ".shrink-tmp-")
}

/// What follows the last slash.
pub open spec fn base_name(path: Seq<char>) -> Seq<char> {
    path.skip(last_of(path, '/') + 1)
}

/// The file that an entry of an archive is restored to: the last part of its
/// name, unless that is empty or hidden.
pub open spec fn restored_name(entry: Seq<char>) -> Option<Seq<char>> {
    let n = base_name(entry);
    if n.len() == 0 || n[0] == '.' {
        None
    } else {
        Some(n)
    }
}

/// The file that an entry of an archive is restored to.
pub fn restore_name(entry: &str) -> (r: Option<String>)
    ensures
        opt_text(r) == restored_name(entry@),
        r is Some ==> !r->0@.contains('/'),
{
    let cs = chars_of(entry);
    let mut k: usize = cs.len();
    while k > 0 && cs[k - 1] != '/'
        invariant
            k <= cs@.len(),
            forall|i: int| k <= i < cs@.len() ==> cs@[i] != '/',
        decreases k,
    {
        k = k - 1;
    }
    proof {
        lemma_last_of(cs@, '/', k - 1);
        assert(cs@.skip(k as int) =~= cs@.subrange(k as int, cs@.len() as int));
        assert(!cs@.skip(k as int).contains('/'));
    }
    if k >= cs.len() || cs[k] == '.' {
        None
    } else {
        Some(text_between(&cs, k, cs.len()))
    }
}

/// A file without a slash in its name is restored to itself, or not at all.
proof fn lemma_restored_name(name: Seq<char>)
    requires
        !name.contains('/'),
    ensures
        restored_name(name) == (if name.len() == 0 || name[0] == '.' {
            None
        } else {
            Some(name)
        }),
{
    lemma_last_of(name, '/', -1);
    assert(name.skip(0) =~= name);
}

/// A file of the folder that is not hidden goes into the archive, and comes
/// back out of it under its own name.
pub proof fn law_backed_up_file_is_restored(name: Seq<char>)
    requires
        name.len() > 0,
        name[0] != '.',
        !name.contains('/'),
    ensures
        !has_prefix(name, ".shrink-tmp-"@),
        restored_name(name) == Some(name),
{
    reveal_strlit(".shrink-tmp-");
    if has_prefix(name, ".shrink-tmp-"@) {
        assert(name.take(".shrink-tmp-"@.len() as int)[0] == name[0]);
    }
    lemma_restored_name(name);
}

/// What goes into the archive of a folder with these files, each a name and
/// what it holds.
pub open spec fn archived(files: Seq<(Seq<char>, Seq<u8>)>) -> Seq<(Seq<char>, Seq<u8>)>
    decreases files.len(),
{
    if files.len() == 0 {
        seq![]
    } else if has_prefix(files.last().0, ".shrink-tmp-"@) {
        archived(files.drop_last())
    } else {
        archived(files.drop_last()).push(files.last())
    }
}

/// What a folder holds after the entries of an archive were written to it, one
/// after the other, each to the file that it is restored to.
pub open spec fn after_restore(
    folder: Map<Seq<char>, Seq<u8>>,
    entries: Seq<(Seq<char>, Seq<u8>)>,
) -> Map<Seq<char>, Seq<u8>>
    decreases entries.len(),
{
    if entries.len() == 0 {
        folder
    } else {
        let before = after_restore(folder, entries.drop_last());
        match restored_name(entries.last().0) {
            Some(n) => before.insert(n, entries.last().1),
            None => before,
        }
    }
}

/// Whether these can be the files of one folder: names without slashes, each
/// once.
pub open spec fn is_folder(files: Seq<(Seq<char>, Seq<u8>)>) -> bool {
    &&& forall|i: int| 0 <= i < files.len() ==> !(#[trigger] files[i]).0.contains('/')
    &&& forall|i: int, j: int|
        0 <= i < j < files.len() ==> (#[trigger] files[i]).0 != (#[trigger] files[j]).0
}

/// Whatever became of a folder since it was backed up, after the archive was
/// restored every file that was there and is not hidden holds again what it held
/// then. Every other file is as it was before the archive was restored.
pub proof fn law_backup_and_restore(
    files: Seq<(Seq<char>, Seq<u8>)>,
    folder: Map<Seq<char>, Seq<u8>>,
)
    requires
        is_folder(files),
    ensures
        forall|i: int|
            0 <= i < files.len() && (#[trigger] files[i]).0.len() > 0 && files[i].0[0] != '.'
                ==> after_restore(folder, archived(files)).contains_pair(files[i].0, files[i].1),
        forall|n: Seq<char>|
            (forall|i: int| 0 <= i < files.len() ==> (#[trigger] files[i]).0 != n || n.len() == 0
                || n[0] == '.') ==> #[trigger] after_restore(folder, archived(files)).contains_key(n)
                == folder.contains_key(n) && (folder.contains_key(n) ==> after_restore(
                folder,
                archived(files),
            )[n] == folder[n]),
    decreases files.len(),
{
    if files.len() > 0 {
        let init = files.drop_last();
        let last = files.last();
        assert forall|i: int| 0 <= i < init.len() implies !(#[trigger] init[i]).0.contains('/') by {
            assert(init[i] == files[i]);
        }
        assert forall|i: int, j: int| 0 <= i < j < init.len() implies (#[trigger] init[i]).0 != (
        #[trigger] init[j]).0 by {
            assert(files[i].0 != files[j].0);
        }
        law_backup_and_restore(init, folder);
        assert(!files[files.len() - 1].0.contains('/'));
        lemma_restored_name(last.0);
        let old_state = after_restore(folder, archived(init));
        let state = after_restore(folder, archived(files));
        if has_prefix(last.0, ".shrink-tmp-"@) {
            reveal_strlit(".shrink-tmp-");
            assert(last.0.take(".shrink-tmp-"@.len() as int)[0] == last.0[0]);
        } else {
            assert(archived(files).drop_last() =~= archived(init));
            assert(archived(files).last() == last);
        }
        assert forall|i: int|
            0 <= i < files.len() && (#[trigger] files[i]).0.len() > 0 && files[i].0[0]
                != '.' implies state.contains_pair(files[i].0, files[i].1) by {
            if i < init.len() {
                assert(init[i] == files[i]);
                assert(files[i].0 != files[files.len() - 1].0);
            }
        }
        assert forall|n: Seq<char>|
            (forall|i: int| 0 <= i < files.len() ==> (#[trigger] files[i]).0 != n || n.len() == 0
                || n[0] == '.') implies #[trigger] state.contains_key(n) == folder.contains_key(n)
            && (folder.contains_key(n) ==> state[n] == folder[n]) by {
            assert forall|i: int| 0 <= i < init.len() implies (#[trigger] init[i]).0 != n || n.len()
                == 0 || n[0] == '.' by {
                assert(init[i] == files[i]);
            }
            assert(old_state.contains_key(n) == folder.contains_key(n));
            assert(files[files.len() - 1] == last);
        }
    }
}

// ---- the course of a run ----

/// A folder to be shrunk.
#[derive(Debug)]
pub struct ShrinkJob {
    pub report: SetShrinkReport,
}

/// A file that was shrunk.
#[derive(Debug)]
pub struct ShrinkOutcome {
    pub path: String,
}

/// What a run reports.
#[derive(Debug)]
pub enum ShrinkEvent {
    Started { sets: usize, assets: usize },
    SetStarted { label: String },
    AssetDone { saved: u64 },
    SetDone { folder: String, saved: u64, backup: Option<String> },
    SetFailed { folder: String, message: String },
    Finished { saved: u64, elapsed_ms: u64 },
}

/// Whether a run works on a file: there is something to do with it, and it is
/// not an orphan without the permission to delete orphans.
pub open spec fn is_run(asset: AssetView, delete_orphans: bool) -> bool {
    asset.action.work() && (delete_orphans || !(asset.action is DeleteOrphan))
}

/// The files that a run works on, in their order.
pub open spec fn run_list(assets: Seq<AssetView>, delete_orphans: bool) -> Seq<AssetView>
    decreases assets.len(),
{
    if assets.len() == 0 {
        seq![]
    } else if is_run(assets.last(), delete_orphans) {
        run_list(assets.drop_last(), delete_orphans).push(assets.last())
    } else {
        run_list(assets.drop_last(), delete_orphans)
    }
}

fn runs(asset: &SetAsset, delete_orphans: bool) -> (r: bool)
    ensures
        r == is_run(asset@, delete_orphans),
{
    let orphan = match &asset.action {
        ShrinkAction::DeleteOrphan => true,
        _ => false,
    };
    asset.action.is_work() && (delete_orphans || !orphan)
}

/// A copy of a file.
pub fn copy_asset(a: &SetAsset) -> (r: SetAsset)
    ensures
        r@ == a@,
{
    SetAsset {
        name: a.name.clone(),
        bytes: a.bytes,
        kind: a.kind,
        action: a.action.copy(),
        est_bytes: a.est_bytes,
        note: a.note.clone(),
    }
}

/// The files that a run works on.
pub fn work_list(assets: &Vec<SetAsset>, delete_orphans: bool) -> (r: Vec<SetAsset>)
    ensures
        assets_view(r@) == run_list(assets_view(assets@), delete_orphans),
{
    let ghost all = assets_view(assets@);
    let mut r: Vec<SetAsset> = Vec::new();
    let mut i: usize = 0;
    assert(all.take(0) =~= seq![]);
    assert(assets_view(r@) =~= seq![]);
    while i < assets.len()
        invariant
            i <= assets@.len(),
            all == assets_view(assets@),
            assets_view(r@) == run_list(all.take(i as int), delete_orphans),
        decreases assets@.len() - i,
    {
        proof {
            assert(all.take(i as int + 1).drop_last() =~= all.take(i as int));
            assert(all.take(i as int + 1).last() == assets@[i as int]@);
        }
        let ghost before = assets_view(r@);
        if runs(&assets[i], delete_orphans) {
            let a = copy_asset(&assets[i]);
            r.push(a);
            assert(assets_view(r@) =~= before.push(a@));
        }
        i = i + 1;
    }
    assert(all.take(i as int) =~= all);
    r
}

/// Nothing is deleted that was not planned to be, and orphans only with
/// permission: what a run works on was planned, and is no orphan without it.
pub proof fn law_run_list(assets: Seq<AssetView>, delete_orphans: bool)
    ensures
        forall|i: int|
            0 <= i < run_list(assets, delete_orphans).len() ==> assets.contains(
                #[trigger] run_list(assets, delete_orphans)[i],
            ) && run_list(assets, delete_orphans)[i].action.work() && (delete_orphans || !(run_list(
                assets,
                delete_orphans,
            )[i].action is DeleteOrphan)),
        forall|i: int|
            0 <= i < assets.len() && is_run(#[trigger] assets[i], delete_orphans) ==> run_list(
                assets,
                delete_orphans,
            ).contains(assets[i]),
        sum_bytes(run_list(assets, delete_orphans)) <= sum_bytes(assets),
    decreases assets.len(),
{
    if assets.len() > 0 {
        let init = assets.drop_last();
        law_run_list(init, delete_orphans);
        let before = run_list(init, delete_orphans);
        let all = run_list(assets, delete_orphans);
        assert forall|i: int| 0 <= i < all.len() implies assets.contains(#[trigger] all[i])
            && all[i].action.work() && (delete_orphans || !(all[i].action is DeleteOrphan)) by {
            if i < before.len() {
                assert(all[i] == before[i]);
                assert(init.contains(before[i]));
                let j = choose|j: int| 0 <= j < init.len() && init[j] == before[i];
                assert(assets[j] == all[i]);
            } else {
                assert(assets[assets.len() - 1] == all[i]);
            }
        }
        assert forall|i: int|
            0 <= i < assets.len() && is_run(#[trigger] assets[i], delete_orphans) implies all.contains(
            assets[i],
        ) by {
            if i < init.len() {
                assert(init[i] == assets[i]);
                assert(before.contains(init[i]));
                let j = choose|j: int| 0 <= j < before.len() && before[j] == init[i];
                assert(all[j] == assets[i]);
            } else {
                assert(all[before.len() as int] == assets[i]);
            }
        }
        if is_run(assets.last(), delete_orphans) {
            assert(all.drop_last() =~= before);
        }
    }
}

/// What a pause does to a worker.
#[derive(Clone, Copy, Debug, PartialEq, Eq, Structural)]
pub enum PauseStep {
    /// Look again in a while.
    Wait,
    Go,
    Stop,
}

/// What a pause does to a worker: it waits while the run is paused, and stops
/// when the run is cancelled.
pub fn pause_step(paused: bool, cancelled: bool) -> (r: PauseStep)
    ensures
        r == PauseStep::Stop <==> cancelled,
        r == PauseStep::Wait <==> paused && !cancelled,
{
    if cancelled {
        PauseStep::Stop
    } else if paused {
        PauseStep::Wait
    } else {
        PauseStep::Go
    }
}

/// The course of a run over one folder: the files that it works on, how far it
/// is and how much was saved.
#[derive(Debug)]
pub struct SetRun {
    pub work: Vec<SetAsset>,
    /// How many of the files are done.
    pub done: usize,
    pub saved: u64,
    /// The archive in which the folder was saved.
    pub backup: Option<String>,
}

/// What a run over a folder asks for next.
#[derive(Debug)]
pub enum SetAction {
    /// Save the folder in an archive.
    Backup,
    /// Do what is planned for the file at this place in the list.
    Convert { index: usize },
    /// The folder is done.
    Finish { saved: u64, backup: Option<String> },
    /// The folder failed.
    Fail { message: String },
}

/// What became of a file.
#[derive(Debug)]
pub struct Converted {
    /// Where the file is.
    pub path: String,
    /// How big it is now; nothing where it is gone.
    pub after: u64,
    /// Its size and its time, where they can be told.
    pub signature: Option<(u64, u64)>,
}

/// The sum of the sizes of the files from `k` on.
pub open spec fn rest_bytes(list: Seq<AssetView>, k: int) -> nat {
    sum_bytes(list.skip(k))
}

/// The message for a file that grew.
pub open spec fn grew_text(asset: AssetView, after: u64) -> Seq<char> {
    asset.name + " grew ("@ + size_text(asset.bytes) + " → "@ + size_text(after)
        + "); restore the backup for this set"@
}

proof fn lemma_sum_first(list: Seq<AssetView>)
    requires
        list.len() > 0,
    ensures
        sum_bytes(list) == list[0].bytes + sum_bytes(list.drop_first()),
    decreases list.len(),
{
    if list.len() == 1 {
        assert(list.drop_last() =~= seq![]);
        assert(list.drop_first() =~= seq![]);
    } else {
        lemma_sum_first(list.drop_last());
        assert(list.drop_last().drop_first() =~= list.drop_first().drop_last());
    }
}

/// What a run over a folder does first.
pub open spec fn first_step(work: nat, backup: bool) -> SetAction {
    if work == 0 {
        SetAction::Finish { saved: 0, backup: None }
    } else if backup {
        SetAction::Backup
    } else {
        SetAction::Convert { index: 0 }
    }
}

/// How many bytes a file saved, unless it grew.
pub open spec fn file_gain(before: u64, after: u64) -> Option<u64> {
    if after > before {
        None
    } else {
        Some((before - after) as u64)
    }
}

/// The records after a file was worked on: an encoding is recorded with how the
/// file looks now.
pub open spec fn records_after(
    records: Map<Seq<char>, RecordView>,
    asset: AssetView,
    path: Seq<char>,
    signature: Option<(u64, u64)>,
    settings: Seq<char>,
) -> Map<Seq<char>, RecordView> {
    match signature {
        Some((size, mtime)) => if asset.action.reencode() {
            records.insert(
                path,
                RecordView { size, mtime, action: asset.action.words(), settings },
            )
        } else {
            records
        },
        None => records,
    }
}

impl SetRun {
    /// What was saved and what could still be saved fit their 64 bits.
    pub open spec fn wf(self) -> bool {
        &&& self.done <= self.work@.len()
        &&& self.saved + rest_bytes(assets_view(self.work@), self.done as int) <= u64::MAX
    }

    /// The start of a run over a folder.
    pub fn new(report: &SetShrinkReport, delete_orphans: bool) -> (r: Self)
        requires
            sum_bytes(assets_view(report.assets@)) <= u64::MAX,
        ensures
            r.wf(),
            assets_view(r.work@) == run_list(assets_view(report.assets@), delete_orphans),
            r.done == 0,
            r.saved == 0,
            r.backup is None,
    {
        let work = work_list(&report.assets, delete_orphans);
        proof {
            law_run_list(assets_view(report.assets@), delete_orphans);
            assert(assets_view(work@).skip(0) =~= assets_view(work@));
        }
        SetRun { work, done: 0, saved: 0, backup: None }
    }

    /// What to do first: nothing where there is no work, else the backup, if it
    /// is wanted, and then the first file.
    pub fn first(&self, backup: bool) -> (r: SetAction)
        requires
            self.done == 0 && self.saved == 0,
        ensures
            r == first_step(self.work@.len(), backup),
            self.work@.len() == 0 ==> r == (SetAction::Finish { saved: 0, backup: None }),
            self.work@.len() > 0 && backup ==> r == SetAction::Backup,
            self.work@.len() > 0 && !backup ==> r == (SetAction::Convert { index: 0 }),
    {
        if self.work.len() == 0 {
            SetAction::Finish { saved: 0, backup: None }
        } else if backup {
            SetAction::Backup
        } else {
            SetAction::Convert { index: 0 }
        }
    }

    /// The backup was made, or could not be made: then nothing is touched.
    pub fn on_backup(&mut self, result: Result<String, String>) -> (r: SetAction)
        requires
            old(self).wf(),
            old(self).done == 0,
            old(self).work@.len() > 0,
        ensures
            final(self).wf(),
            final(self).work == old(self).work,
            final(self).done == 0,
            final(self).saved == old(self).saved,
            match result {
                Ok(path) => final(self).backup == Some(path) && r == (SetAction::Convert {
                    index: 0,
                }),
                Err(message) => final(self).backup == old(self).backup && r == (SetAction::Fail {
                    message,
                }),
            },
    {
        match result {
            Ok(path) => {
                self.backup = Some(path);
                SetAction::Convert { index: 0 }
            },
            Err(message) => SetAction::Fail { message },
        }
    }

    /// The run was cancelled.
    pub fn on_cancel(&self) -> (r: SetAction)
        ensures
            r matches SetAction::Fail { message } && message@ == "cancelled"@,
    {
        SetAction::Fail { message: "cancelled".to_owned() }
    }

    /// A file was worked on, or that failed. One that grew is a failure. An
    /// encoding is recorded, whether or not it saved anything, so that it is
    /// not tried again.
    #[verifier::rlimit(30)]
    pub fn on_file(
        &mut self,
        result: Result<Converted, String>,
        options: &ShrinkOptions,
        cache: &mut ShrinkCache,
    ) -> (r: (Option<u64>, SetAction))
        requires
            old(self).wf(),
            old(self).done < old(self).work@.len(),
            old(cache).wf(),
        ensures
            final(self).wf(),
            final(self).work == old(self).work,
            final(self).backup == old(self).backup,
            final(cache).wf(),
            ({
                let asset = old(self).work@[old(self).done as int]@;
                match result {
                    Err(message) => {
                        &&& r.0 is None
                        &&& r.1 == (SetAction::Fail { message })
                        &&& final(self).done == old(self).done
                        &&& final(self).saved == old(self).saved
                        &&& final(cache)@ == old(cache)@
                    },
                    Ok(c) => if file_gain(asset.bytes, c.after) is None {
                        &&& r.0 is None
                        &&& r.1 matches SetAction::Fail { message } && message@ == grew_text(
                            asset,
                            c.after,
                        )
                        &&& final(self).done == old(self).done
                        &&& final(self).saved == old(self).saved
                        &&& final(cache)@ == old(cache)@
                    } else {
                        &&& r.0 == file_gain(asset.bytes, c.after)
                        &&& final(self).done == old(self).done + 1
                        &&& final(self).saved == old(self).saved + file_gain(asset.bytes, c.after)->0
                        &&& if final(self).done < final(self).work@.len() {
                            r.1 == (SetAction::Convert { index: final(self).done })
                        } else {
                            r.1 == (SetAction::Finish {
                                saved: final(self).saved,
                                backup: final(self).backup,
                            })
                        }
                        &&& final(cache)@ == records_after(
                            old(cache)@,
                            asset,
                            c.path@,
                            c.signature,
                            settings_text(*options),
                        )
                    },
                }
            }),
    {
        let c = match result {
            Ok(c) => c,
            Err(message) => return (None, SetAction::Fail { message }),
        };
        let ghost list = assets_view(self.work@);
        let count: usize = self.work.len();
        let asset = &self.work[self.done];
        assert(list[self.done as int] == asset@);
        if c.after > asset.bytes {
            let mut message = asset.name.clone();
            message.append(" grew (");
            message.append(&human_bytes(asset.bytes));
            message.append(" → ");
            message.append(&human_bytes(c.after));
            message.append("); restore the backup for this set");
            return (None, SetAction::Fail { message });
        }
        if asset.action.is_reencode() {
            if let Some((size, mtime)) = c.signature {
                let settings = options.fingerprint();
                cache.record(&c.path, size, mtime, &asset.action, &settings);
            }
        }
        let gain: u64 = asset.bytes - c.after;
        proof {
            let rest = list.skip(self.done as int);
            lemma_sum_first(rest);
            assert(rest.drop_first() =~= list.skip(self.done as int + 1));
        }
        self.saved = self.saved + gain;
        self.done = self.done + 1;
        let next = if self.done < count {
            SetAction::Convert { index: self.done }
        } else {
            SetAction::Finish { saved: self.saved, backup: copy_text(&self.backup) }
        };
        (Some(gain), next)
    }
}

/// How many folders are worked on at a time: as many as the options say, from
/// one to eight, and no more than there are.
pub open spec fn workers_of(wanted: usize, jobs: usize) -> usize {
    let bounded = if wanted < 1 {
        1
    } else if wanted > 8 {
        8
    } else {
        wanted
    };
    let most = if jobs < 1 {
        1
    } else {
        jobs
    };
    if bounded < most {
        bounded
    } else {
        most
    }
}

/// How many folders are worked on at a time.
pub fn worker_count(wanted: usize, jobs: usize) -> (r: usize)
    ensures
        r == workers_of(wanted, jobs),
        1 <= r <= 8,
{
    let bounded: usize = if wanted < 1 {
        1
    } else if wanted > 8 {
        8
    } else {
        wanted
    };
    let most: usize = if jobs < 1 {
        1
    } else {
        jobs
    };
    if bounded < most {
        bounded
    } else {
        most
    }
}

/// How many files a run works on, over all folders.
pub open spec fn run_size(jobs: Seq<ShrinkJob>, delete_orphans: bool) -> nat
    decreases jobs.len(),
{
    if jobs.len() == 0 {
        0
    } else {
        run_size(jobs.drop_last(), delete_orphans) + run_list(
            assets_view(jobs.last().report.assets@),
            delete_orphans,
        ).len()
    }
}

proof fn lemma_run_size_prefix(jobs: Seq<ShrinkJob>, delete_orphans: bool, k: int)
    requires
        0 <= k <= jobs.len(),
    ensures
        run_size(jobs.take(k), delete_orphans) <= run_size(jobs, delete_orphans),
    decreases jobs.len() - k,
{
    if k < jobs.len() {
        lemma_run_size_prefix(jobs, delete_orphans, k + 1);
        assert(jobs.take(k + 1).drop_last() =~= jobs.take(k));
    } else {
        assert(jobs.take(k) =~= jobs);
    }
}

/// The report with which a run starts.
pub fn run_started(jobs: &Vec<ShrinkJob>, delete_orphans: bool) -> (r: ShrinkEvent)
    requires
        run_size(jobs@, delete_orphans) <= usize::MAX,
    ensures
        r matches ShrinkEvent::Started { sets, assets } && sets == jobs@.len() && assets
            == run_size(jobs@, delete_orphans),
{
    let mut assets: usize = 0;
    let mut i: usize = 0;
    assert(jobs@.take(0) =~= seq![]);
    while i < jobs.len()
        invariant
            i <= jobs@.len(),
            run_size(jobs@, delete_orphans) <= usize::MAX,
            assets == run_size(jobs@.take(i as int), delete_orphans),
        decreases jobs@.len() - i,
    {
        proof {
            assert(jobs@.take(i as int + 1).drop_last() =~= jobs@.take(i as int));
            assert(jobs@.take(i as int + 1).last() == jobs@[i as int]);
            lemma_run_size_prefix(jobs@, delete_orphans, i as int + 1);
        }
        let list = work_list(&jobs[i].report.assets, delete_orphans);
        assert(assets_view(list@).len() == list@.len());
        assets = assets + list.len();
        i = i + 1;
    }
    assert(jobs@.take(i as int) =~= jobs@);
    ShrinkEvent::Started { sets: jobs.len(), assets }
}

/// The report on a folder that is done or failed, and what has been saved by
/// then. The sum counts anew beyond its 64 bits.
pub fn set_ended(folder: String, action: SetAction, saved_total: u64) -> (r: (
    Option<ShrinkEvent>,
    u64,
))
    ensures
        match action {
            SetAction::Finish { saved, backup } => {
                &&& r.0 == Some(ShrinkEvent::SetDone { folder, saved, backup })
                &&& r.1 == (saved_total + saved) % 0x1_0000_0000_0000_0000
            },
            SetAction::Fail { message } => {
                &&& r.0 == Some(ShrinkEvent::SetFailed { folder, message })
                &&& r.1 == saved_total
            },
            _ => r.0 is None && r.1 == saved_total,
        },
{
    match action {
        SetAction::Finish { saved, backup } => {
            let total: u64 = saved_total.wrapping_add(saved);
            (Some(ShrinkEvent::SetDone { folder, saved, backup }), total)
        },
        SetAction::Fail { message } => (
            Some(ShrinkEvent::SetFailed { folder, message }),
            saved_total,
        ),
        _ => (None, saved_total),
    }
}

/// The records of all workers over those that were there before.
pub open spec fn merged_records(
    base: Map<Seq<char>, RecordView>,
    shards: Seq<ShrinkCache>,
) -> Map<Seq<char>, RecordView>
    decreases shards.len(),
{
    if shards.len() == 0 {
        base
    } else {
        merged_records(base, shards.drop_last()).union_prefer_right(shards.last()@)
    }
}

/// The records of all workers over those that were there before.
pub fn merge_shards(base: ShrinkCache, shards: Vec<ShrinkCache>) -> (r: ShrinkCache)
    requires
        base.wf(),
        forall|i: int| 0 <= i < shards@.len() ==> (#[trigger] shards@[i]).wf(),
    ensures
        r.wf(),
        r.version == base.version,
        r@ == merged_records(base@, shards@),
    decreases shards@.len(),
{
    let mut shards = shards;
    match shards.pop() {
        None => base,
        Some(last) => {
            let ghost all = shards@.push(last);
            assert(all.drop_last() =~= shards@);
            let mut r = merge_shards(base, shards);
            r.extend(last);
            r
        },
    }
}

/// A record that any worker made is there in the end, and none that was there
/// before is lost.
pub proof fn law_merge_keeps_records(
    base: Map<Seq<char>, RecordView>,
    shards: Seq<ShrinkCache>,
    path: Seq<char>,
)
    ensures
        merged_records(base, shards).contains_key(path) <==> base.contains_key(path) || exists|i: int|
            0 <= i < shards.len() && (#[trigger] shards[i])@.contains_key(path),
    decreases shards.len(),
{
    if shards.len() > 0 {
        let init = shards.drop_last();
        law_merge_keeps_records(base, init, path);
        if merged_records(base, init).contains_key(path) && !base.contains_key(path) {
            let i = choose|i: int|
                0 <= i < init.len() && (#[trigger] init[i])@.contains_key(path);
            assert(shards[i]@.contains_key(path));
        }
        if shards.last()@.contains_key(path) {
            assert(shards[shards.len() - 1]@.contains_key(path));
        }
        if exists|i: int| 0 <= i < shards.len() && (#[trigger] shards[i])@.contains_key(path) {
            let i = choose|i: int|
                0 <= i < shards.len() && (#[trigger] shards[i])@.contains_key(path);
            if i < init.len() {
                assert(init[i]@.contains_key(path));
            }
        }
    }
}

// ---- what the converters are asked for, and what is taken from them ----

/// What a converter writes before it replaces a file has a name of its own,
/// which is hidden, never goes into an archive and is never restored.
pub proof fn law_temporary_files(name: Seq<char>)
    requires
        !name.contains('/'),
    ensures
        tmp_text(Some(name)) != name,
        tmp_text(Some(name)).len() > name.len(),
        tmp_text(Some(name))[0] == '.',
        has_prefix(tmp_text(Some(name)), ".shrink-tmp-"@),
        restored_name(tmp_text(Some(name))) is None,
        forall|other: Seq<char>| #[trigger] tmp_text(Some(other)) == tmp_text(Some(name)) ==> other
            == name,
{
    reveal_strlit(".shrink-tmp-");
    let t = tmp_text(Some(name));
    assert(t.take(".shrink-tmp-"@.len() as int) =~= ".shrink-tmp-"@);
    assert(t.skip(".shrink-tmp-"@.len() as int) =~= name);
    assert forall|i: int| 0 <= i < t.len() implies t[i] != '/' by {
        if i >= 12 {
            assert(t[i] == name[i - 12]);
            assert(name.contains(name[i - 12]));
        }
    }
    assert(!t.contains('/'));
    lemma_restored_name(t);
    assert forall|other: Seq<char>| #[trigger] tmp_text(Some(other)) == t implies other == name by {
        assert(tmp_text(Some(other)).skip(".shrink-tmp-"@.len() as int) =~= other);
    }
}

/// A song is read from the file itself and written beside it, without pictures
/// and without what is told of it; an MP3 at 192 kilobits a second and an Ogg file
/// at quality six. No other action converts a song.
pub proof fn law_audio_args(action: ActionView, src: Seq<char>, tmp: Seq<char>)
    ensures
        audio_args_of(action, src, tmp) is Some <==> action is Mp3Cbr192 || action is OggQ6,
        audio_args_of(action, src, tmp) matches Some(args) ==> {
            &&& args.len() == 18
            &&& args[5] == "-i"@ && args[6] == src
            &&& args[17] == tmp
            &&& args[9] == "-vn"@ && args[11] == "-map_metadata"@ && args[12] == "-1"@
            &&& args[13] == "-c:a"@
            &&& action is Mp3Cbr192 ==> args[14] == "libmp3lame"@ && args[15] == "-b:a"@ && args[16]
                == "192k"@
            &&& action is OggQ6 ==> args[14] == "libvorbis"@ && args[15] == "-q:a"@ && args[16]
                == "6"@
        },
{
}

/// A video is read from the file itself and written beside it, as H.264 without
/// sound, at most 720 pixels high, and with a rate factor from 18 to 28: the one
/// that is asked for, where it lies between.
pub proof fn law_video_args(crf: u32, src: Seq<char>, tmp: Seq<char>)
    ensures
        18 <= bounded_crf(crf) <= 28,
        18 <= crf <= 28 ==> bounded_crf(crf) == crf,
        crf < 18 ==> bounded_crf(crf) == 18,
        crf > 28 ==> bounded_crf(crf) == 28,
        ({
            let args = video_args_of(crf, src, tmp);
            &&& args[5] == "-i"@ && args[6] == src
            &&& args[9] == "-c:v"@ && args[10] == "libx264"@
            &&& args[11] == "-crf"@ && args[12] == decimal(bounded_crf(crf) as nat)
            &&& args[15] == "-vf"@ && args[16] == "scale=-2:min(ih\\,"@ + decimal(720) + ")"@
            &&& args[17] == "-an"@
            &&& args.last() == tmp
        }),
{
}

/// A converted video is taken if and only if it can be read, is H.264 and is from
/// one to 720 pixels high.
pub proof fn law_videos_taken(probe: Option<MediaProbe>)
    ensures
        video_fault(probe) is None <==> probe is Some && probe->0.codec@ == "h264"@ && 1
            <= probe->0.height <= 720,
{
}

/// A written image is taken if and only if it can be read and has a size; that of
/// a skin must have the size that it had.
pub proof fn law_images_taken(original: (u32, u32), written: Option<(u32, u32)>)
    ensures
        image_fault(true, original, written) is None <==> written == Some(original),
        image_fault(false, original, written) is None <==> (written matches Some((w, h)) && w > 0
            && h > 0),
{
}

/// An image that is at most 1920 pixels wide keeps its size. A wider one becomes
/// 1920 pixels wide and keeps its proportions, up to less than a row, and at least
/// one row.
pub proof fn law_scaled_images(w: u32, h: u32)
    ensures
        w <= 1920 ==> target_size(w, h) == (w, h),
        w > 1920 ==> target_size(w, h).0 == 1920 && target_size(w, h).1 >= 1,
        w > 1920 && h * 1920 >= w ==> target_size(w, h).1 * w <= h * 1920 && h * 1920 < (target_size(
            w,
            h,
        ).1 + 1) * w,
        w > 1920 && h * 1920 < w ==> target_size(w, h).1 == 1,
{
    if w > 1920 {
        let n = h * 1920;
        let d = w as int;
        let q = n / d;
        vstd::arithmetic::div_mod::lemma_fundamental_div_mod(n, d);
        assert(0 <= n % d < d) by (nonlinear_arith)
            requires
                d > 0,
        ;
        assert(q * d <= n < (q + 1) * d) by (nonlinear_arith)
            requires
                n == d * q + n % d,
                0 <= n % d < d,
        ;
        assert(q <= h) by (nonlinear_arith)
            requires
                q * d <= h * 1920,
                d > 1920,
                h >= 0,
        ;
        if n >= d {
            assert(q >= 1) by (nonlinear_arith)
                requires
                    n < (q + 1) * d,
                    n >= d,
                    d > 0,
            ;
        } else {
            assert(q < 1) by (nonlinear_arith)
                requires
                    q * d <= n,
                    n < d,
                    d > 0,
            ;
        }
    }
}

/// The message of a converter that failed says its last line that is not blank,
/// or that it failed, and no more than 240 characters of it.
pub proof fn law_failure_messages(tail: Seq<Seq<char>>, i: int)
    requires
        -1 <= i < tail.len(),
        i >= 0 ==> trim_text(tail[i]).len() > 0,
        forall|j: int| i < j < tail.len() ==> trim_text(#[trigger] tail[j]).len() == 0,
    ensures
        last_line(tail) == (if i >= 0 {
            Some(tail[i])
        } else {
            None
        }),
        i >= 0 && tail[i].len() <= 240 ==> failure_text(tail) == "ffmpeg failed: "@ + tail[i],
        failure_text(tail).len() <= 255,
    decreases tail.len(),
{
    reveal_strlit("ffmpeg failed: ");
    reveal_strlit("ffmpeg failed");
    if tail.len() > 0 && i < tail.len() - 1 {
        let init = tail.drop_last();
        assert(trim_text(tail[tail.len() - 1]).len() == 0);
        assert forall|j: int| i < j < init.len() implies trim_text(#[trigger] init[j]).len() == 0 by {
            assert(init[j] == tail[j]);
        }
        law_failure_messages(init, i);
    }
}

/// As many folders are worked on at a time as is asked for, but at least one, at
/// most eight, and no more than there are.
pub proof fn law_workers(wanted: usize, jobs: usize)
    ensures
        1 <= workers_of(wanted, jobs) <= 8,
        jobs > 0 ==> workers_of(wanted, jobs) <= jobs,
        wanted > 0 ==> workers_of(wanted, jobs) <= wanted,
        1 <= wanted <= 8 && wanted <= jobs ==> workers_of(wanted, jobs) == wanted,
        wanted >= 8 && jobs >= 8 ==> workers_of(wanted, jobs) == 8,
        1 <= jobs <= 8 && jobs <= wanted ==> workers_of(wanted, jobs) == jobs,
{
}

/// What a run works on is everything that is planned to be done, but orphans only
/// with permission; each folder adds its own.
pub proof fn law_run_sizes(
    assets: Seq<AssetView>,
    a: AssetView,
    delete_orphans: bool,
    jobs: Seq<ShrinkJob>,
    job: ShrinkJob,
)
    ensures
        a.action is Skip ==> run_list(assets.push(a), delete_orphans) == run_list(
            assets,
            delete_orphans,
        ),
        a.action is DeleteOrphan && !delete_orphans ==> run_list(assets.push(a), delete_orphans)
            == run_list(assets, delete_orphans),
        !(a.action is Skip) && (delete_orphans || !(a.action is DeleteOrphan)) ==> run_list(
            assets.push(a),
            delete_orphans,
        ) == run_list(assets, delete_orphans).push(a),
        run_size(seq![], delete_orphans) == 0,
        run_size(jobs.push(job), delete_orphans) == run_size(jobs, delete_orphans) + run_list(
            assets_view(job.report.assets@),
            delete_orphans,
        ).len(),
{
    assert(assets.push(a).drop_last() =~= assets);
    assert(jobs.push(job).drop_last() =~= jobs);
}

/// Of several records of a file the one of the last worker counts.
pub proof fn law_last_record_counts(
    base: Map<Seq<char>, RecordView>,
    shards: Seq<ShrinkCache>,
    i: int,
    path: Seq<char>,
)
    requires
        -1 <= i < shards.len(),
        i >= 0 ==> shards[i]@.contains_key(path),
        forall|j: int| i < j < shards.len() ==> !(#[trigger] shards[j])@.contains_key(path),
    ensures
        i >= 0 ==> merged_records(base, shards).contains_pair(path, shards[i]@[path]),
        i < 0 && base.contains_key(path) ==> merged_records(base, shards).contains_pair(
            path,
            base[path],
        ),
    decreases shards.len(),
{
    if shards.len() > 0 && i < shards.len() - 1 {
        let init = shards.drop_last();
        assert(!shards[shards.len() - 1]@.contains_key(path));
        assert forall|j: int| i < j < init.len() implies !(#[trigger] init[j])@.contains_key(
            path,
        ) by {
            assert(init[j] == shards[j]);
        }
        law_last_record_counts(base, init, i, path);
    }
}

/// Of the entry of an archive the part behind its last slash is the file that it
/// is restored to: never one in another folder, and never a hidden one.
pub proof fn law_restored_names(folder: Seq<char>, name: Seq<char>)
    requires
        !name.contains('/'),
    ensures
        restored_name(folder + seq!['/'] + name) == restored_name(name),
        name.len() > 0 && name[0] != '.' ==> restored_name(name) == Some(name),
        name.len() == 0 || name[0] == '.' ==> restored_name(name) is None,
{
    let s = folder + seq!['/'] + name;
    let k = folder.len() as int;
    assert forall|i: int| k < i < s.len() implies s[i] != '/' by {
        assert(s[i] == name[i - k - 1]);
        assert(name.contains(name[i - k - 1]));
    }
    lemma_last_of(s, '/', k);
    assert(s.skip(k + 1) =~= name);
    lemma_restored_name(name);
}

/// JPEGs and WebPs are written as JPEGs; PNGs and bitmaps are not.
pub proof fn law_written_as_jpeg(e: Seq<char>)
    ensures
        e == "jpg"@ || e == "jpeg"@ || e == "webp"@ ==> jpeg_ext(e),
        e == "png"@ || e == "bmp"@ || e == "gif"@ ==> !jpeg_ext(e),
{
    reveal_strlit("jpg");
    reveal_strlit("jpeg");
    reveal_strlit("webp");
    reveal_strlit("png");
    reveal_strlit("bmp");
    reveal_strlit("gif");
    assert("jpg"@[0] == 'j' && "png"@[0] == 'p' && "bmp"@[0] == 'b' && "gif"@[0] == 'g');
    assert("jpeg"@.len() == 4 && "webp"@.len() == 4);
    assert("png"@.len() == 3 && "bmp"@.len() == 3 && "gif"@.len() == 3);
}

/// A converted file replaces its source only where it is smaller, and saves the
/// difference; a file that is as it was saves nothing, and one that grew is a
/// failure.
pub proof fn law_gains(before: u64, after: u64)
    ensures
        swap_gain(before, after) is Some <==> after < before,
        swap_gain(before, after) is Some ==> swap_gain(before, after)->0 + after == before
            && swap_gain(before, after)->0 > 0,
        file_gain(before, after) is Some <==> after <= before,
        file_gain(before, after) is Some ==> file_gain(before, after)->0 + after == before,
        file_gain(before, 0) == Some(before),
        file_gain(before, before) == Some(0u64),
{
}

/// Where there is no work, nothing is done, not even a backup; where a backup is
/// wanted it comes before anything else.
pub proof fn law_backup_comes_first(work: nat)
    ensures
        first_step(0, true) == (SetAction::Finish { saved: 0, backup: None }),
        first_step(0, false) == (SetAction::Finish { saved: 0, backup: None }),
        work > 0 ==> first_step(work, true) == SetAction::Backup,
        work > 0 ==> first_step(work, false) == (SetAction::Convert { index: 0 }),
{
}

/// A file that was encoded is skipped the next time, as long as it looks as it did
/// then and the settings are the same; other files are planned as before, and what
/// was deleted is not recorded.
pub proof fn law_encoded_files_are_skipped(
    records: Map<Seq<char>, RecordView>,
    asset: AssetView,
    path: Seq<char>,
    size: u64,
    mtime: u64,
    settings: Seq<char>,
    other: Seq<char>,
)
    requires
        other != path,
    ensures
        ({
            let now = records_after(records, asset, path, Some((size, mtime)), settings);
            &&& asset.action.reencode() ==> crate::shrink::shrunk(
                now,
                path,
                size,
                mtime,
                asset.action,
                settings,
            )
            &&& asset.action.reencode() ==> crate::shrink_plan::after_records(
                path,
                size,
                mtime,
                asset,
                now,
                settings,
            ).action is Skip
            &&& asset.action is DeleteOrphan || asset.action is RemoveVideo || asset.action is Skip
                ==> now == records
            &&& now.contains_key(other) == records.contains_key(other) && (records.contains_key(
                other,
            ) ==> now[other] == records[other])
        }),
        records_after(records, asset, path, None, settings) == records,
{
}

} // verus!
