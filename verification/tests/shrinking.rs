use osu_map_manager::events::{is_hitsound_name, parse_event_assets, split_event_line};
use osu_map_manager::local::LocalBeatmap;
use osu_map_manager::probe::{media_probe, read_probe, ProbeCache};
use osu_map_manager::shrink::{
    SavedCache, SetShrinkReport, ShrinkAction, ShrinkAssetKind, ShrinkCache, ShrinkOptions,
};
use osu_map_manager::shrink_plan::{
    analyze_set, analyze_skin, collect_references, plan_image, plan_song_audio, plan_video,
    summarize, Estimates, FileFacts, MediaProbe,
};
use osu_map_manager::shrink_run::{
    audio_args, backup_name, exe_name, ffmpeg_failure, is_backed_up, keep_line, merge_shards,
    pause_step, refuse_image, refuse_video, resolve_bins, restore_name, run_started, scaled_size,
    set_ended, swap_saves, tmp_name_for, video_args, work_list, worker_count, writes_jpeg,
    Converted, PauseStep, SetAction, SetRun, ShrinkEvent, ShrinkJob,
};

fn none() -> Estimates {
    Estimates {
        container_bps: 0,
        audio: 0,
        video: 0,
        image: 0,
        skin: 0,
        scaled_width: 0,
        scaled_height: 0,
    }
}

fn file(name: &str, bytes: u64) -> FileFacts {
    FileFacts {
        path: format!("set/{name}"),
        name: name.to_owned(),
        extension: name.rsplit_once('.').map(|(_, e)| e.to_owned()).unwrap_or_default(),
        bytes,
        mtime: 7,
        probe: None,
        dimensions: None,
        estimates: none(),
    }
}

fn beatmap(audio: Option<&str>, bg: Option<&str>) -> LocalBeatmap {
    LocalBeatmap {
        audio_filename: audio.map(str::to_owned),
        background_filename: bg.map(str::to_owned),
        ..Default::default()
    }
}

fn analyze(
    maps: &[LocalBeatmap],
    text: &str,
    files: Vec<FileFacts>,
    options: &ShrinkOptions,
) -> SetShrinkReport {
    let refs = collect_references(&maps.to_vec(), &vec![text.to_owned()]);
    analyze_set(
        "set".to_owned(),
        "set".to_owned(),
        &refs,
        &files,
        options,
        &ShrinkCache::default(),
    )
    .unwrap()
}

fn probe(codec: &str, width: u32, height: u32, bitrate: Option<u64>, has_audio: bool) -> MediaProbe {
    MediaProbe {
        codec: codec.to_owned(),
        width,
        height,
        bitrate,
        duration: 120.0f64.to_bits(),
        has_audio,
    }
}

#[test]
fn event_assets_parse_video_and_sprites() {
    let body = "0,0,\"bg.jpg\",0,0\nVideo,0,\"clip.mp4\",0,0\nSprite,Foreground,Centre,\"sb\\star.png\",320,240\nL,0,Loop,\"sbdot.png\",1\nSample,5000,0,\"click.ogg\",100\n// comment\n";
    let (videos, sprites, samples) = parse_event_assets(body);
    assert!(videos.contains("clip.mp4"));
    assert!(sprites.contains("sb/star.png"));
    assert!(sprites.contains("sbdot.png"));
    assert!(samples.contains("click.ogg"));
    assert!(!videos.contains("bg.jpg"));
    assert!(!sprites.contains("click.ogg"));
}

#[test]
fn hitsound_names_are_protected() {
    assert!(is_hitsound_name("soft-hitnormal2.wav"));
    assert!(is_hitsound_name("drum-hitfinish.wav"));
    assert!(is_hitsound_name("normal-sliderslide.wav"));
    assert!(!is_hitsound_name("audio.mp3"));
    assert!(!is_hitsound_name("bg.jpg"));
}

#[test]
fn quoted_commas_do_not_split() {
    assert_eq!(
        split_event_line("Sprite,\"a,b.png\",1"),
        vec!["Sprite".to_owned(), "a,b.png".to_owned(), "1".to_owned()]
    );
}

#[test]
fn shrink_cache_roundtrip_and_invalidation() {
    let path = "song/audio.mp3";
    let action = ShrinkAction::Mp3Cbr192;
    let settings = "v1 q85 crf21";

    let mut cache = ShrinkCache::default();
    assert!(!cache.is_shrunk(path, 100, 200, &action, settings));
    cache.record(path, 100, 200, &action, settings);
    assert!(cache.is_shrunk(path, 100, 200, &action, settings));
    // Any change invalidates: size, mtime, action, settings.
    assert!(!cache.is_shrunk(path, 101, 200, &action, settings));
    assert!(!cache.is_shrunk(path, 100, 201, &action, settings));
    assert!(!cache.is_shrunk(path, 100, 200, &ShrinkAction::OggQ6, settings));
    assert!(!cache.is_shrunk(path, 100, 200, &action, "v1 q90 crf21"));

    let loaded = ShrinkCache::load(Some(cache.save()));
    assert_eq!(loaded.len(), 1);
    assert!(loaded.is_shrunk(path, 100, 200, &action, settings));

    // A file that cannot be read and another version fail safe to empty.
    assert_eq!(ShrinkCache::load(None).len(), 0);
    let other = SavedCache { version: 2, ..cache.save() };
    assert_eq!(ShrinkCache::load(Some(other)).len(), 0);
}

#[test]
fn fingerprint_holds_the_settings() {
    let plain = ShrinkOptions::default();
    assert_eq!(plain.fingerprint(), "v1 q85 crf21");
    let same = ShrinkOptions { backup: false, delete_orphans: true, jobs: 8, ..plain };
    assert_eq!(same.fingerprint(), plain.fingerprint());
    let quality = ShrinkOptions { jpeg_quality: 8, ..plain };
    assert_eq!(quality.fingerprint(), "v1 q8 crf21");
    let factor = ShrinkOptions { video_crf: 2, ..plain };
    assert_eq!(factor.fingerprint(), "v1 q85 crf2");
}

#[test]
fn storyboard_samples_are_protected_not_orphans() {
    let options = ShrinkOptions { delete_orphans: true, ..Default::default() };
    let report = analyze(
        &[beatmap(Some("audio.mp3"), None)],
        "[General]\nAudioFilename: audio.mp3\n[Events]\nSample,5000,0,\"click.ogg\",100\n",
        vec![file("map.osu", 80), file("audio.mp3", 2048), file("click.ogg", 2048)],
        &options,
    );
    let sample = report.assets.iter().find(|a| a.name == "click.ogg").unwrap();
    assert_eq!(sample.kind, ShrinkAssetKind::Protected);
    assert!(!sample.action.is_work());
}

#[test]
fn analysis_never_touches_config_or_scores() {
    let report = analyze(
        &[beatmap(Some("audio.mp3"), Some("bg.jpg"))],
        "[General]\nAudioFilename: audio.mp3\n[Events]\n0,0,\"bg.jpg\",0,0\nVideo,0,\"clip.mp4\",0,0\n",
        vec![
            file("map.osu", 90),
            file("audio.mp3", 2048),
            file("bg.jpg", 2048),
            file("clip.mp4", 2048),
            file("hitnormal.wav", 512),
            file("map.osb", 14),
            file("skin.ini", 10),
        ],
        &ShrinkOptions::default(),
    );
    // .osu/.osb/.ini invisible; hitsound protected; the three media assets
    // present but skipped (no probe, tiny files).
    assert!(report.assets.iter().all(|a| !a.name.ends_with(".osu")));
    assert!(report.assets.iter().all(|a| !a.name.ends_with(".osb")));
    assert!(report.assets.iter().all(|a| !a.name.ends_with(".ini")));
    let wav = report.assets.iter().find(|a| a.name == "hitnormal.wav").unwrap();
    assert_eq!(wav.kind, ShrinkAssetKind::Protected);
    assert!(!wav.action.is_work());
    // Nothing to do without probes: estimates equal inputs exactly.
    assert_eq!(report.total_est, report.total_in);
    assert_eq!(report.total_in, 2048 * 3 + 512);
    assert_eq!(report.est_saved(), 0);
}

#[test]
fn remove_videos_deletes_clip_but_never_touches_osu() {
    let text = "[General]\nAudioFilename: audio.mp3\n[Events]\n0,0,\"bg.jpg\",0,0\nVideo,0,\"clip.mp4\",0,0\n";
    let maps = [beatmap(Some("audio.mp3"), Some("bg.jpg"))];
    let files = || vec![file("map.osu", 90), file("audio.mp3", 2048), file("clip.mp4", 8192)];
    // Default: videos are compressed (or skipped without a probe), never
    // removed.
    let plain = analyze(&maps, text, files(), &ShrinkOptions::default());
    let clip = plain.assets.iter().find(|a| a.name == "clip.mp4").unwrap();
    assert_ne!(clip.action, ShrinkAction::RemoveVideo);
    // Opt-in: removal planned with zero estimated bytes.
    let options = ShrinkOptions { remove_videos: true, ..Default::default() };
    let report = analyze(&maps, text, files(), &options);
    let clip = report.assets.iter().find(|a| a.name == "clip.mp4").unwrap();
    assert_eq!(clip.action, ShrinkAction::RemoveVideo);
    assert_eq!(clip.est_bytes, 0);
    // The run works on the clip alone and saves all of it.
    let mut run = SetRun::new(&report, options.delete_orphans);
    assert!(matches!(run.first(true), SetAction::Backup));
    assert!(matches!(
        run.on_backup(Ok("backup.zip".to_owned())),
        SetAction::Convert { index: 0 }
    ));
    assert_eq!(run.work.len(), 1);
    assert_eq!(run.work[0].name, "clip.mp4");
    let mut cache = ShrinkCache::default();
    let gone = Converted { path: "set/clip.mp4".to_owned(), after: 0, signature: None };
    let (gain, next) = run.on_file(Ok(gone), &options, &mut cache);
    assert_eq!(gain, Some(8192));
    assert!(matches!(
        next,
        SetAction::Finish { saved: 8192, backup: Some(b) } if b == "backup.zip"
    ));
    assert_eq!(cache.len(), 0);
}

#[test]
fn orphans_need_opt_in() {
    let text = "[General]\nAudioFilename: audio.mp3\n";
    let maps = [beatmap(Some("audio.mp3"), None)];
    let files = || vec![file("map.osu", 33), file("audio.mp3", 2048), file("leftover.ogg", 4096)];
    let off = analyze(&maps, text, files(), &ShrinkOptions::default());
    let orphan = off.assets.iter().find(|a| a.name == "leftover.ogg").unwrap();
    assert_eq!(orphan.kind, ShrinkAssetKind::Orphan);
    assert!(!orphan.action.is_work());
    let on = ShrinkOptions { delete_orphans: true, ..Default::default() };
    let report = analyze(&maps, text, files(), &on);
    let orphan = report.assets.iter().find(|a| a.name == "leftover.ogg").unwrap();
    assert_eq!(orphan.action, ShrinkAction::DeleteOrphan);
    assert_eq!(orphan.est_bytes, 0);
    // Without the permission a run leaves it alone all the same.
    assert!(work_list(&report.assets, false).is_empty());
    assert_eq!(work_list(&report.assets, true).len(), 1);
}

#[test]
fn skins_plan_images_not_sounds_or_config() {
    let files = vec![
        file("hitcircle.png", 400_000),
        file("menu-background.jpg", 1_500_000),
        file("cursor.png", 80),
        file("skin.ini", 18),
        file("hitsound.wav", 1024),
        file("readme.txt", 100),
    ];
    let report = analyze_skin(
        "MySkin".to_owned(),
        "MySkin".to_owned(),
        &files,
        &ShrinkOptions::default(),
        &ShrinkCache::default(),
    )
    .unwrap();
    let action_of = |name: &str| report.assets.iter().find(|a| a.name == name).map(|a| &a.action);
    assert_eq!(action_of("hitcircle.png"), Some(&ShrinkAction::SkinImageReencode));
    assert!(matches!(action_of("cursor.png"), Some(ShrinkAction::Skip { .. })));
    assert!(matches!(action_of("skin.ini"), Some(ShrinkAction::Skip { .. })));
    assert!(matches!(action_of("hitsound.wav"), Some(ShrinkAction::Skip { .. })));
    assert_eq!(action_of("menu-background.jpg"), Some(&ShrinkAction::SkinImageReencode));
    assert_eq!(action_of("readme.txt"), None);
}

#[test]
fn analysis_skips_cached_reencodes_and_run_records_them() {
    let files = vec![file("menu-background.jpg", 2_000_000)];
    let options = ShrinkOptions::default();
    let analyze = |files: &Vec<FileFacts>, options: &ShrinkOptions, cache: &ShrinkCache| {
        analyze_skin("Skin".to_owned(), "Skin".to_owned(), files, options, cache).unwrap()
    };
    let report = analyze(&files, &options, &ShrinkCache::default());
    assert_eq!(report.assets[0].action, ShrinkAction::SkinImageReencode);

    // A run converts the file and records it.
    let mut cache = ShrinkCache::default();
    let mut run = SetRun::new(&report, false);
    assert!(matches!(run.first(false), SetAction::Convert { index: 0 }));
    let done = Converted {
        path: "set/menu-background.jpg".to_owned(),
        after: 1_200_000,
        signature: Some((1_200_000, 9)),
    };
    let (gain, next) = run.on_file(Ok(done), &options, &mut cache);
    assert_eq!(gain, Some(800_000));
    assert!(matches!(next, SetAction::Finish { saved: 800_000, backup: None }));
    assert_eq!(cache.len(), 1);

    // With the record: skipped, counted, estimated same.
    let now = vec![FileFacts { mtime: 9, ..file("menu-background.jpg", 1_200_000) }];
    let report2 = analyze(&now, &options, &cache);
    assert_eq!(report2.work_items(), 0);
    assert_eq!(report2.cached_items(), 1);
    assert_eq!(report2.total_est, report2.total_in);

    // A change of the settings plans it anew.
    let changed = ShrinkOptions { jpeg_quality: 90, ..Default::default() };
    let report3 = analyze(&now, &changed, &cache);
    assert_eq!(report3.work_items(), 1);
    assert_eq!(report3.cached_items(), 0);
}

#[test]
fn precancelled_run_does_nothing() {
    let text = "[General]\nAudioFilename: audio.mp3\n";
    let on = ShrinkOptions { delete_orphans: true, ..Default::default() };
    let report = analyze(&[beatmap(Some("audio.mp3"), None)], text, vec![file("leftover.ogg", 9)], &on);
    let run = SetRun::new(&report, true);
    assert_eq!(pause_step(false, true), PauseStep::Stop);
    assert!(matches!(run.on_cancel(), SetAction::Fail { message } if message == "cancelled"));
    assert_eq!(run.saved, 0);
}

#[test]
fn paused_run_waits_then_completes_on_resume() {
    assert_eq!(pause_step(true, false), PauseStep::Wait);
    assert_eq!(pause_step(false, false), PauseStep::Go);
    assert_eq!(pause_step(true, true), PauseStep::Stop);
}

#[test]
fn no_gain_files_are_kept_untouched() {
    assert_eq!(swap_saves(100, 100), None);
    assert_eq!(swap_saves(100, 101), None);
    assert_eq!(swap_saves(100, 60), Some(40));
    assert_eq!(tmp_name_for(&Some("tiny.png".to_owned())), ".shrink-tmp-tiny.png");
    assert_eq!(tmp_name_for(&None), ".shrink-tmp-asset");
}

#[test]
fn files_that_grow_fail_the_set() {
    let files = vec![file("a.jpg", 2_000_000), file("b.jpg", 1_500_000)];
    let report = analyze_skin(
        "Skin".to_owned(),
        "Skin".to_owned(),
        &files,
        &ShrinkOptions::default(),
        &ShrinkCache::default(),
    )
    .unwrap();
    let mut run = SetRun::new(&report, false);
    let mut cache = ShrinkCache::default();
    let grown = Converted { path: "x".to_owned(), after: 3_000_000, signature: None };
    let (gain, next) = run.on_file(Ok(grown), &ShrinkOptions::default(), &mut cache);
    assert_eq!(gain, None);
    assert!(matches!(next, SetAction::Fail { message } if message.contains("grew")));
    let (gain, next) =
        run.on_file(Err("broken".to_owned()), &ShrinkOptions::default(), &mut cache);
    assert_eq!(gain, None);
    let (event, total) = set_ended("Skin".to_owned(), next, 5);
    assert_eq!(total, 5);
    assert!(matches!(event, Some(ShrinkEvent::SetFailed { message, .. }) if message == "broken"));
}

#[test]
fn backups_leave_out_what_converters_left() {
    assert_eq!(backup_name(&Some("song".to_owned()), "20260101-000000"), "song-20260101-000000.zip");
    assert!(is_backed_up("audio.mp3"));
    assert!(!is_backed_up(".shrink-tmp-audio.mp3"));
    assert_eq!(restore_name("audio.mp3").as_deref(), Some("audio.mp3"));
    assert_eq!(restore_name("song/audio.mp3").as_deref(), Some("audio.mp3"));
    assert_eq!(restore_name("../../etc/passwd").as_deref(), Some("passwd"));
    assert_eq!(restore_name("song/"), None);
    assert_eq!(restore_name("song/.."), None);
}

#[test]
fn songs_are_encoded_above_the_limit() {
    let est = Estimates { audio: 123, container_bps: 320_000, ..none() };
    let loud = Some(probe("mp3", 0, 0, Some(320_000), true));
    let plan = plan_song_audio("a.mp3", 5_000_000, "mp3", &loud, est);
    assert_eq!(plan.action, ShrinkAction::Mp3Cbr192);
    assert_eq!(plan.est_bytes, 123);
    assert_eq!(plan.note, "320 kbps → 192k");
    let ogg = plan_song_audio("a.ogg", 5_000_000, "ogg", &Some(probe("vorbis", 0, 0, None, true)), est);
    assert_eq!(ogg.action, ShrinkAction::OggQ6);
    let soft = plan_song_audio("a.mp3", 5, "mp3", &Some(probe("mp3", 0, 0, Some(192_000), true)), est);
    assert!(!soft.action.is_work());
    assert!(!plan_song_audio("a.wav", 5, "wav", &loud, est).action.is_work());
    assert!(!plan_song_audio("a.mp3", 5, "mp3", &None, est).action.is_work());
}

#[test]
fn videos_are_encoded_where_they_must() {
    let est = Estimates { video: 9, ..none() };
    let options = ShrinkOptions::default();
    let plan = |p: MediaProbe| plan_video("v.mp4", 100, "mp4", &Some(p), est, &options);
    assert!(!plan(probe("h264", 1280, 720, None, false)).action.is_work());
    assert!(plan(probe("h264", 1280, 720, None, true)).action.is_work());
    assert!(plan(probe("h264", 1920, 1080, None, false)).action.is_work());
    assert_eq!(plan(probe("vp9", 640, 480, None, false)).note, "640x480 vp9 → 720p H.264");
    assert!(!plan_video("v.avi", 100, "avi", &None, est, &options).action.is_work());
}

#[test]
fn images_are_encoded_where_they_are_wide_or_big() {
    let est = Estimates { image: 5, scaled_width: 1920, scaled_height: 1080, ..none() };
    let wide = plan_image("bg.jpg", 1000, "jpg", Some((3840, 2160)), est);
    assert_eq!(wide.action, ShrinkAction::ImageReencode);
    assert_eq!(wide.note, "3840x2160 → 1920x1080");
    assert!(!plan_image("bg.jpg", 300_000, "jpg", Some((1920, 1080)), est).action.is_work());
    assert_eq!(
        plan_image("bg.jpg", 300_001, "jpg", Some((1920, 1080)), est).note,
        "1920x1080 → same size"
    );
    assert!(!plan_image("bg.png", 1_000_000, "png", Some((1920, 1080)), est).action.is_work());
    assert!(!plan_image("a.gif", 9_000_000, "gif", Some((1920, 1080)), est).action.is_work());
    assert!(!plan_image("bg.jpg", 9_000_000, "jpg", None, est).action.is_work());
    assert_eq!(scaled_size(3840, 2160), (1920, 1080));
    assert_eq!(scaled_size(800, 600), (800, 600));
    assert_eq!(scaled_size(100_000, 1), (1920, 1));
    assert!(writes_jpeg("webp") && !writes_jpeg("bmp"));
    assert!(refuse_image(true, (8, 8), Some((8, 9))).is_some());
    assert!(refuse_image(true, (8, 8), Some((8, 8))).is_none());
    assert!(refuse_image(false, (8, 8), Some((0, 9))).is_some());
    assert!(refuse_image(false, (8, 8), None).is_some());
}

#[test]
fn reports_are_summed() {
    let report = || SetShrinkReport {
        folder: String::new(),
        label: String::new(),
        assets: Vec::new(),
        total_in: 10,
        total_est: 4,
    };
    assert_eq!(summarize(&vec![report(), report()]), (20, 8, 0));
    assert_eq!(summarize(&Vec::new()), (0, 0, 0));
    assert_eq!(summarize(&vec![report()]), (10, 4, 0));
    assert_eq!(summarize(&vec![report(), report(), report()]), (30, 12, 0));
}

#[test]
fn options_list_the_same_files() {
    let files = || {
        vec![
            file("map.osu", 33),
            file("audio.mp3", 1024),
            file("leftover.ogg", 2048),
            file("clip.mp4", 4096),
        ]
    };
    let text = "[Events]\nVideo,0,\"clip.mp4\"\n";
    let maps = [beatmap(Some("audio.mp3"), None)];
    let names = |options: &ShrinkOptions| -> Vec<(String, u64)> {
        let report = analyze(&maps, text, files(), options);
        report.assets.iter().map(|asset| (asset.name.clone(), asset.bytes)).collect()
    };
    let plain = names(&ShrinkOptions::default());
    assert_eq!(
        plain,
        vec![
            ("clip.mp4".to_owned(), 4096),
            ("leftover.ogg".to_owned(), 2048),
            ("audio.mp3".to_owned(), 1024),
        ]
    );
    let all = ShrinkOptions { delete_orphans: true, remove_videos: true, ..Default::default() };
    assert_eq!(names(&all), plain);
}

#[test]
fn hitsounds_are_no_orphans() {
    let on = ShrinkOptions { delete_orphans: true, ..Default::default() };
    let sounds = vec![
        file("drum-hitclap.mp3", 700),
        file("soft-hitnormal.ogg", 600),
        file("other.wav", 500),
        file("other.mp3", 400),
    ];
    let report = analyze(&[beatmap(Some("audio.mp3"), None)], "", sounds, &on);
    let kinds: Vec<_> = report.assets.iter().map(|asset| asset.kind).collect();
    assert_eq!(
        kinds,
        vec![
            ShrinkAssetKind::Protected,
            ShrinkAssetKind::Protected,
            ShrinkAssetKind::Protected,
            ShrinkAssetKind::Orphan,
        ]
    );
}

#[test]
fn joined_events_name_what_both_name() {
    let a = "Video,0,\"Clip.mp4\"\r";
    let b = "Sprite,Foreground,Centre,\"sb\\star.png\",320,240";
    let (videos, sprites, samples) = parse_event_assets(&format!("{a}\n{b}"));
    assert!(videos.contains("clip.mp4") && !videos.contains("sb/star.png"));
    assert!(sprites.contains("sb/star.png") && !sprites.contains("clip.mp4"));
    assert!(!samples.contains("clip.mp4"));
    let (videos, sprites, _) = parse_event_assets(a);
    assert!(videos.contains("clip.mp4") && !sprites.contains("sb/star.png"));
    let (videos, sprites, _) = parse_event_assets(b);
    assert!(!videos.contains("clip.mp4") && sprites.contains("sb/star.png"));
    let (videos, _, _) = parse_event_assets("Video,0,\"\"");
    assert!(!videos.contains(""));
    let (videos, _, _) = parse_event_assets("Video,0,\"Ä\\\"Ö.mp4\"");
    assert_eq!(videos.items, ["ä/ö.mp4"]);
}

#[test]
fn backed_up_files_come_back() {
    let files = [("audio.mp3", "song"), ("map.osu", "map"), (".hidden", "h"), (".shrink-tmp-x", "t")];
    let archive: Vec<(&str, &str)> =
        files.iter().copied().filter(|(name, _)| is_backed_up(name)).collect();
    assert_eq!(archive.len(), 3);
    let mut folder = vec![("map.osu".to_owned(), "changed"), ("new.txt".to_owned(), "new")];
    for (entry, bytes) in archive {
        if let Some(name) = restore_name(entry) {
            folder.retain(|(known, _)| *known != name);
            folder.push((name, bytes));
        }
    }
    folder.sort();
    let text: Vec<(&str, &str)> = folder.iter().map(|(name, b)| (name.as_str(), *b)).collect();
    assert_eq!(text, [("audio.mp3", "song"), ("map.osu", "map"), ("new.txt", "new")]);
}

#[test]
fn converters_get_their_arguments() {
    let args = audio_args(&ShrinkAction::Mp3Cbr192, "in.mp3", "out.mp3").unwrap();
    assert_eq!(args.last().map(String::as_str), Some("out.mp3"));
    assert!(args.windows(2).any(|w| w[0] == "-b:a" && w[1] == "192k"));
    assert!(audio_args(&ShrinkAction::DeleteOrphan, "a", "b").is_none());
    let wild = ShrinkOptions { video_crf: 99, ..Default::default() };
    let args = video_args(&wild, "in.mp4", "out.mp4");
    assert!(args.windows(2).any(|w| w[0] == "-crf" && w[1] == "28"));
    assert!(args.contains(&"scale=-2:min(ih\\,720)".to_owned()));
    assert!(refuse_video(&None).is_some());
    assert!(refuse_video(&Some(probe("h264", 1280, 720, None, false))).is_none());
    assert!(refuse_video(&Some(probe("h264", 1280, 721, None, false))).is_some());
    assert!(refuse_video(&Some(probe("vp9", 1280, 720, None, false))).is_some());
}

#[test]
fn converter_messages_are_cut() {
    let mut tail = Vec::new();
    for i in 0..25 {
        keep_line(&mut tail, format!("line {i}"));
    }
    keep_line(&mut tail, "  ".to_owned());
    assert_eq!(tail.len(), 20);
    assert_eq!(ffmpeg_failure(&tail), "ffmpeg failed: line 24");
    assert_eq!(ffmpeg_failure(&Vec::new()), "ffmpeg failed: ffmpeg failed");
    let long = vec!["x".repeat(300)];
    assert_eq!(ffmpeg_failure(&long).len(), "ffmpeg failed: ".len() + 240);
}

#[test]
fn programs_are_found() {
    let bins = resolve_bins("ffmpeg".to_owned(), None, Some("/bin/ffprobe".to_owned()));
    assert_eq!(bins.ffprobe.as_deref(), Some("/bin/ffprobe"));
    assert_eq!(exe_name("ffprobe", true), "ffprobe.exe");
    assert_eq!(exe_name("ffprobe", false), "ffprobe");
    assert_eq!(worker_count(0, 5), 1);
    assert_eq!(worker_count(99, 50), 8);
    assert_eq!(worker_count(4, 2), 2);
    assert_eq!(worker_count(4, 0), 1);
}

#[test]
fn parallel_runner_handles_orphan_sets_without_ffmpeg() {
    let text = "[General]\nAudioFilename: audio.mp3\n";
    let on =
        ShrinkOptions { jobs: 3, backup: false, delete_orphans: true, ..Default::default() };
    let jobs: Vec<ShrinkJob> = (0..3)
        .map(|_| ShrinkJob {
            report: analyze(
                &[beatmap(Some("audio.mp3"), None)],
                text,
                vec![file("map.osu", 33), file("audio.mp3", 1024), file("leftover.ogg", 2048)],
                &on,
            ),
        })
        .collect();
    assert!(matches!(run_started(&jobs, true), ShrinkEvent::Started { sets: 3, assets: 3 }));
    assert_eq!(worker_count(on.jobs, jobs.len()), 3);
    let mut done_sets = 0;
    let mut total = 0;
    for job in &jobs {
        let mut run = SetRun::new(&job.report, true);
        let gone = Converted { path: "p".to_owned(), after: 0, signature: None };
        let (_, next) = run.on_file(Ok(gone), &on, &mut ShrinkCache::default());
        let (event, sum) = set_ended("set".to_owned(), next, total);
        assert!(matches!(event, Some(ShrinkEvent::SetDone { saved: 2048, .. })));
        done_sets += 1;
        total = sum;
    }
    assert_eq!(done_sets, 3);
    assert_eq!(total, 3 * 2048);
}

#[test]
fn records_of_all_workers_are_kept() {
    let action = ShrinkAction::OggQ6;
    let mut base = ShrinkCache::default();
    base.record("a", 1, 1, &action, "s");
    let mut first = ShrinkCache::default();
    first.record("b", 2, 2, &action, "s");
    let mut second = ShrinkCache::default();
    second.record("a", 3, 3, &action, "s");
    let merged = merge_shards(base, vec![first, second]);
    assert_eq!(merged.len(), 2);
    assert!(merged.is_shrunk("a", 3, 3, &action, "s"));
    assert!(merged.is_shrunk("b", 2, 2, &action, "s"));
}

#[test]
fn probes_are_read_from_json() {
    let json = br#"{"format":{"bit_rate":"320000","duration":"12.5"},
        "streams":[{"codec_type":"video","codec_name":"h264","width":1280,"height":720},
                   {"codec_type":"audio","codec_name":"mp3","bit_rate":"192000"}]}"#;
    let facts = read_probe(json).unwrap();
    assert_eq!(facts.duration.as_deref(), Some("12.5"));
    assert_eq!(facts.streams.len(), 2);
    let probe = media_probe(&facts, 12.5f64.to_bits());
    assert_eq!(probe.codec, "h264");
    assert_eq!((probe.width, probe.height), (1280, 720));
    assert!(probe.has_audio);
    assert_eq!(probe.duration, 12.5f64.to_bits());
    assert!(read_probe(b"not json").is_none());
    assert!(read_probe(b"{}").is_some_and(|f| f.streams.is_empty()));
}

#[test]
fn probe_cache_survives_missing_ffprobe() {
    let mut cache = ProbeCache::new();
    assert!(cache.cached_probe("a.mp3", 10, 20).is_none());
    cache.keep("a.mp3", 10, 20, &probe("mp3", 0, 0, Some(1), true));
    assert!(cache.cached_probe("a.mp3", 10, 20).is_some_and(|p| p.codec == "mp3"));
    assert!(cache.cached_probe("a.mp3", 11, 20).is_none());
    assert!(cache.cached_probe("a.mp3", 10, 21).is_none());
}
