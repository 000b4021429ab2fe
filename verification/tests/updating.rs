use osu_map_manager::local::{FilePath, LocalBeatmap};
use osu_map_manager::order::TextSet;
use osu_map_manager::osu_api::{api_download_url, api_set_url, search_url};
use osu_map_manager::repair::{RepairLogEntry, RepairLogStatus};
use osu_map_manager::update_run::{
    check_progress, check_single_set, folders_of, pace_update_requests, resolve_failure,
    update_opening, update_result, waits_before_download, UpdateCheckEvent, UpdateEvent,
};
use osu_map_manager::update_state::{is_countable, UpdateState};
use osu_map_manager::updates::{
    answer_step, beatmap_url, bearer_token, build_check_targets, check_updated_file,
    checksum_error, detect_outdated, download_source, download_url, find_checksum, gone_text,
    is_osu_extension, is_stale_osu_file, mismatch_line, read_beatmap_id, refuse_backend,
    refuse_osz, reports_checksums, resolve_unknown_sets, set_url, temp_osz_name, AnswerStep, FullExtractReport,
    LocalDiffRef, OutdatedSet, RemoteBeatmap, RemoteBeatmapLookup, RemoteSetMeta, UpdateJob,
    UpdateOutcome, UpdateTally,
};

fn path(text: &str) -> FilePath {
    FilePath {
        text: text.to_owned(),
        key: text.replace('/', "\0"),
        file_name: text.rsplit('/').next().map(str::to_owned),
        parent: text.rsplit_once('/').map(|(p, _)| p.replace('/', "\0")),
    }
}

fn remote(id: i64, version: &str, checksum: Option<&str>) -> RemoteBeatmap {
    RemoteBeatmap { id, version: version.to_owned(), checksum: checksum.map(str::to_owned) }
}

fn remote_fixture() -> RemoteSetMeta {
    RemoteSetMeta {
        id: 123,
        artist: "Artist".to_owned(),
        title: "Title".to_owned(),
        creator: "Mapper".to_owned(),
        last_updated: Some("2026-01-01T00:00:00+00:00".to_owned()),
        beatmaps: vec![
            remote(1, "Normal", Some("aaa")),
            remote(2, "Hard", Some("bbb")),
            remote(3, "Insane", None),
        ],
    }
}

fn local(id: Option<i64>, md5: &str, label: &str) -> LocalDiffRef {
    LocalDiffRef {
        beatmap_id: id,
        md5: md5.to_owned(),
        label: label.to_owned(),
        folder: path("folder"),
    }
}

#[test]
fn outdated_detection_compares_checksums() {
    let remote = remote_fixture();
    let locals = vec![
        local(Some(1), "aaa", "Normal"),
        local(Some(2), "stale", "Hard"),
        local(Some(3), "anything", "Insane"),
        local(Some(9), "zzz", "Deleted diff"),
        local(None, "qqq", "No id"),
    ];
    let set = detect_outdated(
        123,
        "Artist - Title".to_owned(),
        None,
        &locals,
        &remote,
        vec![path("folder")],
    );

    assert_eq!(set.up_to_date, 1);
    assert_eq!(set.unchecked, 2);
    // Hard (checksum changed) and the deleted diff (removed upstream). Insane
    // has no online checksum to confirm against, so it stays unchecked.
    assert_eq!(set.outdated_count(), 2);
    assert!(set.outdated.iter().any(|diff| diff.label.contains("removed upstream")));
    assert_eq!(set.total_checked(), 3);
}

#[test]
fn everything_current_is_not_outdated() {
    let remote = RemoteSetMeta {
        id: 7,
        artist: String::new(),
        title: String::new(),
        creator: String::new(),
        last_updated: None,
        beatmaps: vec![remote(1, "", Some("AAA"))],
    };
    let locals = vec![local(Some(1), "aaa", "Normal")];
    let set = detect_outdated(7, "set".to_owned(), None, &locals, &remote, Vec::new());
    assert_eq!(set.outdated_count(), 0);
    assert_eq!(set.up_to_date, 1);
}

#[test]
fn beatmap_id_reads_without_full_parse() {
    let bytes = b"[Metadata]\nBeatmapID: 456\nBeatmapSetID: 123\n";
    assert_eq!(read_beatmap_id(bytes), Some(456));
    assert_eq!(read_beatmap_id(b"[Metadata]\nTitle:X\n"), None);
}

#[test]
fn beatmap_ids_in_broken_files() {
    assert_eq!(read_beatmap_id(b"\xff\xfe\nBeatmapID:7\r\n"), Some(7));
    assert_eq!(read_beatmap_id(b""), None);
}

#[test]
fn stale_osu_files_are_removed_but_assets_kept() {
    let mut report = FullExtractReport::new();
    report.add_entry(Some("new.osu"), Some("osu"));
    report.add_entry(Some("audio.mp3"), Some("mp3"));
    assert!(report.archived_osu_names.contains("new.osu"));
    assert!(is_stale_osu_file(Some("osu"), "old.osu", &report.archived_osu_names));
    assert!(!is_stale_osu_file(Some("osu"), "new.osu", &report.archived_osu_names));
    assert!(!is_stale_osu_file(Some("osu"), "NEW.osu", &report.archived_osu_names));
    assert!(!is_stale_osu_file(Some("ini"), "skin.ini", &report.archived_osu_names));
    assert!(!is_stale_osu_file(None, "readme", &report.archived_osu_names));
    assert!(is_osu_extension(Some("OSU")));
    assert!(!is_osu_extension(Some("osb")));
}

#[test]
fn targets_group_maps_by_set() {
    let map = |set: Option<i64>, id: Option<i64>, version: &str| LocalBeatmap {
        beatmapset_id: set,
        beatmap_id: id,
        version: version.to_owned(),
        ..Default::default()
    };
    let maps = vec![
        map(Some(20), Some(1), "a"),
        map(None, Some(2), "b"),
        map(Some(10), None, "c"),
        map(None, None, "d"),
        map(Some(20), Some(3), "e"),
    ];
    let (targets, uncheckable) = build_check_targets(&maps);
    assert_eq!(uncheckable, 1);
    let sets: Vec<Option<i64>> = targets.iter().map(|t| t.beatmapset_id).collect();
    assert_eq!(sets, vec![Some(10), Some(20), None]);
    assert_eq!(targets[1].locals.len(), 2);
    assert_eq!(targets[1].locals[1].label, " -  [e]");
    let (none, all) = build_check_targets(&vec![map(None, None, "x")]);
    assert!(none.is_empty());
    assert_eq!(all, 1);
}

#[test]
fn unknown_sets_are_looked_up() {
    let locals = vec![local(Some(1), "a", "one"), local(Some(2), "b", "two"), local(Some(3), "c", "three")];
    let answer = |id: i64, set: Option<i64>| {
        Some(RemoteBeatmapLookup { id, beatmapset_id: set, checksum: None, version: String::new() })
    };
    let (grouped, unresolved) =
        resolve_unknown_sets(&locals, &vec![answer(1, Some(9)), None, answer(3, Some(4))]);
    let sets: Vec<Option<i64>> = grouped.iter().map(|t| t.beatmapset_id).collect();
    assert_eq!(sets, vec![Some(4), Some(9)]);
    assert_eq!(unresolved.len(), 1);
    assert_eq!(unresolved[0].label, "two");
}

#[test]
fn addresses() {
    assert_eq!(set_url("https://b.dev/", 5), "https://b.dev/beatmapsets/5");
    assert_eq!(beatmap_url(" https://b.dev ", 6), "https://b.dev/beatmaps/6");
    assert_eq!(download_url("https://b.dev//", 7), "https://b.dev/beatmapsets/7/download");
    assert_eq!(api_set_url(8), "https://osu.ppy.sh/api/v2/beatmapsets/8");
    assert_eq!(api_download_url(8), "https://osu.ppy.sh/api/v2/beatmapsets/8/download");
    assert_eq!(
        search_url("a b&c", Some("x=")).as_deref(),
        Some("https://osu.ppy.sh/api/v2/beatmapsets/search?q=a+b%26c&cursor_string=x%3D")
    );
    assert_eq!(
        search_url("  ", None).as_deref(),
        Some("https://osu.ppy.sh/api/v2/beatmapsets/search")
    );
}

#[test]
fn sets_may_report_no_checksums() {
    assert!(!reports_checksums(&Vec::new()));
    assert!(!reports_checksums(&vec![remote(1, "Normal", None)]));
    assert!(reports_checksums(&vec![remote(1, "Normal", None), remote(2, "Hard", Some("bbb"))]));
}

#[test]
fn tokens_and_answers() {
    assert_eq!(bearer_token(Some(" t ")).as_deref(), Some("t"));
    assert_eq!(bearer_token(Some("  ")), None);
    assert_eq!(bearer_token(None), None);
    assert_eq!(download_source(Some("osu".to_owned())), "osu");
    assert_eq!(download_source(None), "mirror");
    assert_eq!(answer_step(404), AnswerStep::Gone);
    assert_eq!(answer_step(200), AnswerStep::Read);
    assert_eq!(answer_step(503), AnswerStep::Refuse);
}

#[test]
fn downloads_are_checked() {
    assert_eq!(temp_osz_name(42), "42.osz");
    assert!(refuse_backend("  ").is_some());
    assert!(refuse_backend("https://b.dev").is_none());
    assert!(refuse_osz("x.osz", 63).is_some());
    assert!(refuse_osz("x.osz", 64).is_none());
    assert_eq!(gone_text(5), "beatmapset 5 is no longer available online");
}

#[test]
fn written_files_are_checked_against_their_checksums() {
    let bytes = b"BeatmapID:1\n";
    let digest = "8b36126829874e76249f7c6d148e312d";
    let name = Some("map.osu".to_owned());
    let right = vec![remote(1, "Normal", Some(&digest.to_uppercase()))];
    assert_eq!(check_updated_file(&right, &name, bytes), None);
    let wrong = vec![remote(1, "Normal", Some("d41d8cd98f00b204e9800998ecf8427e"))];
    assert!(check_updated_file(&wrong, &name, bytes).is_some_and(|line| line.contains("map.osu")));
    assert_eq!(check_updated_file(&wrong, &name, b""), None);
    assert_eq!(find_checksum(&right, 1), Some(&digest.to_uppercase()));
    assert_eq!(find_checksum(&right, 2), None);
    assert_eq!(mismatch_line(&right, &name, digest, Some(1)), None);
    assert_eq!(mismatch_line(&right, &name, "other", Some(2)), None);
    assert_eq!(mismatch_line(&right, &name, "other", None), None);
    assert!(mismatch_line(&right, &None, "other", Some(1)).is_some());
    assert_eq!(checksum_error(&Vec::new()), None);
    assert_eq!(
        checksum_error(&vec!["a".to_owned(), "b".to_owned()]).as_deref(),
        Some("updated files do not match the online checksums (set updated again afterwards?): a, b")
    );
}

#[test]
fn tallies_name_each_file_once() {
    let set = |names: &[&str]| {
        let mut s = TextSet::new();
        for n in names {
            s.insert((*n).to_owned());
        }
        s
    };
    let mut tally = UpdateTally::new();
    tally.add_folder(&set(&["b.osu", "a.osu"]), &set(&[]));
    tally.add_folder(&set(&["a.osu"]), &set(&["z.osu"]));
    let outcome = tally.finish("mirror".to_owned());
    assert_eq!(outcome.written_files, vec!["a.osu".to_owned(), "b.osu".to_owned()]);
    assert_eq!(outcome.removed_files, vec!["z.osu".to_owned()]);
    assert_eq!(outcome.download_source, "mirror");
}

#[test]
fn a_check_reports_what_it_finds() {
    let locals = vec![local(Some(2), "stale", "Hard"), local(Some(1), "AAA", "Normal")];
    match check_single_set(123, &locals, Ok(Some(remote_fixture()))) {
        Some(UpdateCheckEvent::Found(set)) => {
            assert_eq!(set.title, "Artist - Title");
            assert_eq!(set.outdated_count(), 1);
            assert_eq!(set.folders.len(), 1);
            assert_eq!(set.remote_updated.as_deref(), Some("2026-01-01T00:00:00+00:00"));
        }
        other => panic!("unexpected {other:?}"),
    }
    let current = vec![local(Some(1), "aaa", "Normal")];
    assert!(check_single_set(123, &current, Ok(Some(remote_fixture()))).is_none());
    assert!(matches!(
        check_single_set(123, &current, Ok(None)),
        Some(UpdateCheckEvent::Unavailable { beatmapset_id: Some(123), reason }) if reason == "no longer available online"
    ));
    assert!(matches!(
        check_single_set(123, &current, Err("timeout".to_owned())),
        Some(UpdateCheckEvent::Unavailable { beatmapset_id: Some(123), reason }) if reason == "timeout"
    ));
    assert!(matches!(
        resolve_failure("offline"),
        UpdateCheckEvent::Unavailable { beatmapset_id: None, reason } if reason == "resolving beatmap ids failed: offline"
    ));
}

#[test]
fn folders_are_named_once_in_order() {
    let at = |folder: &str| LocalDiffRef { folder: path(folder), ..local(None, "", "") };
    let folders = folders_of(&vec![at("songs/b"), at("songs/a"), at("songs/b")]);
    let texts: Vec<String> = folders.into_iter().map(|f| f.text).collect();
    assert_eq!(texts, vec!["songs/a".to_owned(), "songs/b".to_owned()]);
}

#[test]
fn requests_are_paced() {
    let mut first = true;
    assert!(!pace_update_requests(&mut first));
    assert!(pace_update_requests(&mut first));
    assert!(pace_update_requests(&mut first));
    assert!(!waits_before_download(0));
    assert!(waits_before_download(1));
    let (targets, _) = build_check_targets(&vec![LocalBeatmap {
        beatmapset_id: Some(1),
        ..Default::default()
    }]);
    assert!(matches!(
        check_progress(&targets, 0),
        UpdateCheckEvent::Checked { done: 1, total: 1 }
    ));
}

#[test]
fn an_update_reports_its_course() {
    let jobs = vec![UpdateJob { beatmapset_id: 5, folders: vec![path("songs/5")] }];
    assert!(matches!(
        update_opening(&jobs, 0),
        UpdateEvent::Opening { beatmapset_id: 5, index: 1, total: 1 }
    ));
    let outcome = UpdateOutcome {
        written_files: vec!["a".to_owned(), "b".to_owned()],
        removed_files: vec!["c".to_owned()],
        download_source: "mirror".to_owned(),
    };
    assert!(matches!(
        update_result(&jobs[0], Ok(outcome)),
        UpdateEvent::Updated { beatmapset_id: 5, written: 2, removed: 1, .. }
    ));
    assert!(matches!(
        update_result(&jobs[0], Err("no".to_owned())),
        UpdateEvent::Failed { beatmapset_id: 5, message } if message == "no"
    ));
}

fn outdated(id: i64) -> OutdatedSet {
    OutdatedSet {
        beatmapset_id: id,
        title: "t".to_owned(),
        remote_updated: None,
        outdated: Vec::new(),
        up_to_date: 2,
        unchecked: 0,
        folders: vec![path("songs/x")],
    }
}

#[test]
fn updated_sets_are_no_longer_outdated() {
    let mut state = UpdateState::new();
    let started = UpdateCheckEvent::Started { total: 3, uncheckable: 1 };
    assert_eq!(
        state.on_check_event(started).as_deref(),
        Some("Checking 3 beatmapset(s) against osu!web")
    );
    for id in [1, 2] {
        let event = UpdateCheckEvent::Found(outdated(id));
        assert!(is_countable(&event));
        assert_eq!(state.on_check_event(event), None);
    }
    assert_eq!(state.log[0].message, "0 of 2 diffs outdated");
    let gone = UpdateCheckEvent::Unavailable { beatmapset_id: Some(3), reason: "gone".to_owned() };
    assert_eq!(state.on_check_event(gone), None);
    assert_eq!(
        state.on_check_event(UpdateCheckEvent::Checked { done: 3, total: 3 }).as_deref(),
        Some("Checked 3/3 beatmapset(s), 2 outdated")
    );
    assert_eq!(
        state.on_check_event(UpdateCheckEvent::Finished).as_deref(),
        Some("Update check finished: 2 outdated out of 3 checked (1 unavailable, 1 uncheckable)")
    );
    assert!(state.update_job_for_set(2).is_some());
    assert!(state.update_job_for_set(9).is_none());

    state.on_update_event(UpdateEvent::Started { total: 2 });
    let (text, _) =
        state.on_update_event(UpdateEvent::Opening { beatmapset_id: 1, index: 1, total: 2 });
    assert_eq!(text, "Downloading update 1/2: set 1");
    let (text, _) = state.on_update_event(UpdateEvent::Updated {
        beatmapset_id: 1,
        folders: vec![path("songs/1"), path("songs/1")],
        written: 4,
        removed: 1,
        download_source: "mirror".to_owned(),
    });
    assert_eq!(text, "Updated set 1");
    let (text, _) = state
        .on_update_event(UpdateEvent::Failed { beatmapset_id: 2, message: "broken".to_owned() });
    assert_eq!(text, "Update failed for set 2: broken");
    let (text, touched) = state.on_update_event(UpdateEvent::Finished);
    assert_eq!(text, "Update finished: 1 succeeded, 1 failed out of 2");
    assert_eq!(touched.items.len(), 1);
    assert_eq!(state.outdated.len(), 1);
    assert_eq!(state.outdated[0].beatmapset_id, 2);
    let entry: &RepairLogEntry = &state.log[0];
    assert_eq!(entry.status, RepairLogStatus::Success);
    assert_eq!(
        entry.message,
        "Updated via mirror: 4 file(s) written, 1 removed upstream"
    );
    assert_eq!(state.on_update_disconnect(), "Update worker disconnected");
    assert_eq!(state.on_check_disconnect(), "Update check worker disconnected");
}
