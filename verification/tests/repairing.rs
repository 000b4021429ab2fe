use osu_map_manager::local::{
    find_repair_issues, FilePath, LibraryScan, LocalBeatmap, RepairIssue, RepairSeverity,
};
use osu_map_manager::repair::{
    lower_names, missing_asset_filenames, refuse_backend, repair_jobs, repair_opening,
    repair_result, should_restore, upsert_log, verify_repair, FilesExist, IgnoredRepairIssue,
    RepairEvent, RepairIgnoreStore, RepairJob, RepairLogStatus, RepairOutcome,
};
use osu_map_manager::repair_state::RepairState;
use osu_map_manager::updates::refuse_osz;

fn path(text: &str) -> FilePath {
    FilePath {
        text: text.to_owned(),
        key: text.replace('/', "\0"),
        file_name: text.rsplit('/').next().map(str::to_owned),
        parent: text.rsplit_once('/').map(|(p, _)| p.replace('/', "\0")),
    }
}

fn map(folder: &str, file: &str, set: Option<i64>) -> LocalBeatmap {
    LocalBeatmap {
        path: path(&format!("{folder}/{file}")),
        folder: path(folder),
        beatmapset_id: set,
        beatmap_id: Some(77),
        artist: "A".to_owned(),
        title: "T".to_owned(),
        version: file.to_owned(),
        audio_filename: Some("audio.mp3".to_owned()),
        background_filename: Some("bg.jpg".to_owned()),
        ..Default::default()
    }
}

fn missing(map: &LocalBeatmap, message: &str) -> RepairIssue {
    RepairIssue {
        beatmap: map.path.clone(),
        message: message.to_owned(),
        severity: RepairSeverity::MissingRequiredFile,
    }
}

fn job(missing_files: &[&str]) -> RepairJob {
    RepairJob {
        beatmapset_id: 42,
        labels: Vec::new(),
        folders: vec![path("song-folder")],
        issues: Vec::new(),
        missing_files: missing_files.iter().map(|n| (*n).to_owned()).collect(),
        ignore_after_success: Vec::new(),
    }
}

#[test]
fn repair_reports_files_absent_from_download() {
    let err = verify_repair(&job(&["gone.mp3"]), &vec![false], &Vec::new());
    assert!(err.is_some_and(|message| message.contains("gone.mp3")));
}

#[test]
fn repaired_files_count_in_any_case() {
    let restored = vec!["GONE.mp3".to_owned()];
    assert_eq!(verify_repair(&job(&["gone.mp3"]), &vec![false], &restored), None);
    assert_eq!(verify_repair(&job(&["gone.mp3"]), &vec![true], &Vec::new()), None);
    assert_eq!(verify_repair(&job(&[]), &Vec::new(), &Vec::new()), None);
    assert_eq!(
        verify_repair(&job(&["a", "b", "c"]), &vec![false, true, false], &Vec::new()).as_deref(),
        Some("download did not contain the missing file(s): a, c")
    );
}

#[test]
fn repair_restores_only_missing_files_without_clobbering() {
    let wanted = lower_names(&vec!["audio.mp3".to_owned()]);
    let archive = [("audio.mp3", false), ("bg.jpg", false), ("existing.osu", true)];
    let restored: Vec<&str> = archive
        .iter()
        .filter(|(name, exists)| should_restore(&wanted, name, *exists))
        .map(|(name, _)| *name)
        .collect();
    // The requested file plus any other archive entry absent on disk. Present
    // files are left untouched even when the archive has them.
    assert_eq!(restored, vec!["audio.mp3", "bg.jpg"]);
}

#[test]
fn repair_rejects_non_archive_downloads() {
    let bad = b"not a zip file at all, just an error page...";
    assert!(refuse_osz("bad.osz", bad.len() as u64).is_some());
    let tiny = b"PK";
    assert!(refuse_osz("tiny.osz", tiny.len() as u64).is_some());
}

#[test]
fn only_missing_files_are_taken_from_a_download() {
    let wanted = lower_names(&vec!["audio.mp3".to_owned(), "BG.jpg".to_owned()]);
    assert!(should_restore(&wanted, "audio.mp3", false));
    assert!(should_restore(&wanted, "bg.JPG", true));
    assert!(!should_restore(&wanted, "existing.osu", true));
    assert!(should_restore(&wanted, "extra.wav", false));
}

#[test]
fn missing_background_is_not_reported_when_map_has_no_background() {
    let text = "osu file format v14

[General]
AudioFilename: audio.mp3

[Metadata]
Title:No Background
Artist:Test
Creator:Mapper
Version:Normal
BeatmapSetID:123
BeatmapID:456

[Events]
//Background and Video events
//Break Periods

[Difficulty]
HPDrainRate:5
CircleSize:4
OverallDifficulty:7
ApproachRate:9

[HitObjects]
256,192,1000,1,0,0:0:0:0:
";
    let parsed = osu_map_manager::local::parse_osu(text.as_bytes());
    let numbers = osu_map_manager::local::OsuNumbers {
        ar: None,
        cs: None,
        od: None,
        hp: None,
        stars: None,
        bpm: None,
        length_seconds: None,
    };
    let map = osu_map_manager::local::assemble_map(
        path("songs/no-bg/no-bg.osu"),
        path("songs/no-bg"),
        parsed,
        numbers,
    );
    assert_eq!(map.background_filename, None);
    assert_eq!(map.audio_filename.as_deref(), Some("audio.mp3"));
    assert!(find_repair_issues(&map, true, false).is_empty());
    let issues = find_repair_issues(&map, false, false);
    assert_eq!(issues.len(), 1);
    assert_eq!(issues[0].severity, RepairSeverity::MissingRequiredFile);
}

#[test]
fn jobs_are_made_for_sets_that_lack_files() {
    let one = map("songs/b", "one.osu", Some(20));
    let two = map("songs/a", "two.osu", Some(20));
    let well = map("songs/c", "well.osu", Some(30));
    let unknown = map("songs/d", "unknown.osu", None);
    let early = map("songs/e", "early.osu", Some(10));
    let problems = vec![
        missing(&one, "Missing background file: bg.jpg"),
        missing(&two, "Missing audio file: audio.mp3"),
        missing(&unknown, "Missing audio file: audio.mp3"),
        missing(&early, "Missing audio file: audio.mp3"),
        RepairIssue { severity: RepairSeverity::ParseWarning, ..missing(&well, "odd") },
    ];
    let scan = LibraryScan { maps: vec![one, two, well, unknown, early], sets: Vec::new(), problems };
    let gone = FilesExist { audio: false, background: false };
    let there = FilesExist { audio: true, background: true };
    let jobs = repair_jobs(&scan, &vec![there, gone, there, gone, gone]);
    let ids: Vec<i64> = jobs.iter().map(|j| j.beatmapset_id).collect();
    assert_eq!(ids, vec![10, 20]);
    let job = &jobs[1];
    let folders: Vec<&str> = job.folders.iter().map(|f| f.text.as_str()).collect();
    assert_eq!(folders, vec!["songs/a", "songs/b"]);
    assert_eq!(job.missing_files, vec!["audio.mp3".to_owned(), "bg.jpg".to_owned()]);
    assert_eq!(job.labels, vec!["A - T [one.osu]".to_owned(), "A - T [two.osu]".to_owned()]);
    assert_eq!(
        job.issues,
        vec![
            "one.osu: Missing background file: bg.jpg".to_owned(),
            "two.osu: Missing audio file: audio.mp3".to_owned()
        ]
    );
    assert_eq!(job.ignore_after_success.len(), 1);
    assert_eq!(job.ignore_after_success[0].beatmap_file, "one.osu");
}

#[test]
fn repaired_backgrounds_are_ignored_from_then_on() {
    let one = map("songs/b", "one.osu", Some(20));
    let issue = missing(&one, "Missing background file: bg.jpg");
    let scan = LibraryScan {
        maps: vec![one.clone()],
        sets: Vec::new(),
        problems: vec![issue.clone()],
    };
    let jobs = repair_jobs(&scan, &vec![FilesExist { audio: true, background: false }]);
    let mut store = RepairIgnoreStore::new();
    assert!(!store.ignores(&one, &issue));
    assert_eq!(store.add(&jobs[0].ignore_after_success), 1);
    assert_eq!(store.add(&jobs[0].ignore_after_success), 0);
    assert!(store.ignores(&one, &issue));
    let warning = RepairIssue { severity: RepairSeverity::ParseWarning, ..issue.clone() };
    assert!(!store.ignores(&one, &warning));
    let other = map("songs/b", "two.osu", Some(20));
    assert!(!store.ignores(&other, &issue));
}

#[test]
fn missing_assets_are_named() {
    let one = map("songs/b", "one.osu", Some(20));
    let names = missing_asset_filenames(&one, FilesExist { audio: false, background: true });
    assert_eq!(names, vec!["audio.mp3".to_owned()]);
    let names = missing_asset_filenames(&one, FilesExist { audio: true, background: true });
    assert!(names.is_empty());
}

#[test]
fn backends_are_needed() {
    assert_eq!(
        refuse_backend(" ").as_deref(),
        Some("backend URL is required for automatic repair downloads")
    );
    assert_eq!(refuse_backend("x"), None);
}

#[test]
fn logs_keep_one_entry_for_each_set() {
    let mut log = Vec::new();
    upsert_log(&mut log, 1, RepairLogStatus::InProgress, "a".to_owned());
    upsert_log(&mut log, 2, RepairLogStatus::InProgress, "b".to_owned());
    upsert_log(&mut log, 1, RepairLogStatus::Failed, "c".to_owned());
    assert_eq!(log.len(), 2);
    assert_eq!(log[0].beatmapset_id, 1);
    assert_eq!(log[0].status, RepairLogStatus::Failed);
    assert_eq!(log[0].message, "c");
    assert_eq!(log[1].message, "b");
}

#[test]
fn a_repair_reports_its_course() {
    let jobs = vec![job(&["gone.mp3"])];
    let mut state = RepairState::new();
    let mut store = RepairIgnoreStore::new();
    let (text, _) = state.on_event(RepairEvent::Started { total: 2 }, &mut store);
    assert_eq!(text, "Preparing to repair 2 beatmapset(s)");
    assert!(state.is_repairing);
    let (text, _) = state.on_event(repair_opening(&jobs, 0), &mut store);
    assert_eq!(text, "Downloading repair 1/1: set 42");
    assert_eq!(state.log[0].message, "Downloading 1/1");
    let outcome = RepairOutcome {
        restored_files: vec!["gone.mp3".to_owned(), "bg.jpg".to_owned()],
        download_source: "mirror".to_owned(),
    };
    let (text, added) = state.on_event(repair_result(&jobs[0], Ok(outcome)), &mut store);
    assert_eq!(text, "Repaired set 42 in 1 folder(s)");
    assert_eq!(added, 0);
    assert_eq!(
        state.log[0].message,
        "Repaired 1 folder(s) via mirror; restored gone.mp3, bg.jpg; ignored 0 missing background issue(s)"
    );
    let event = RepairEvent::Repaired {
        beatmapset_id: 43,
        folder_count: 2,
        restored_files: Vec::new(),
        download_source: "osu".to_owned(),
        ignored_after_success: vec![IgnoredRepairIssue {
            beatmapset_id: Some(43),
            beatmap_id: None,
            beatmap_file: "x.osu".to_owned(),
            message: "m".to_owned(),
        }],
    };
    let (_, added) = state.on_event(event, &mut store);
    assert_eq!(added, 1);
    assert_eq!(
        state.log[1].message,
        "Repaired 2 folder(s) via osu; no missing files remained; ignored 1 missing background issue(s)"
    );
    let (text, _) = state.on_event(repair_result(&jobs[0], Err("no".to_owned())), &mut store);
    assert_eq!(text, "Repair failed for set 42: no");
    let (text, _) = state.on_event(RepairEvent::Finished, &mut store);
    assert_eq!(text, "Repair finished: 2 succeeded, 1 failed out of 2");
    assert!(!state.is_repairing);
    assert_eq!(state.done, 3);
    assert_eq!(state.on_disconnect(), "Repair worker disconnected");
}
