use osu_map_manager::background::{
    decodes_fast, neighbor_background_paths, rgb_pixels, BackgroundState, PixelKind, PreviewStep,
    BACKGROUND_CACHE_LIMIT, BACKGROUND_MAX_IN_FLIGHT,
};
use osu_map_manager::collection::{write_manifest, CollectionDb, CollectionEntry};
use osu_map_manager::collections_page::find_collection;
use osu_map_manager::display::DeleteIntent;
use osu_map_manager::local::{FilePath, LibraryScan, LocalBeatmap, RepairIssue, RepairSeverity};
use osu_map_manager::manager::MapManagerApp;
use osu_map_manager::measure::Real32;
use osu_map_manager::paths::PathSet;
use osu_map_manager::prefill::{
    display_prefilled_path, expand_prefilled_path, has_root, root_in_use, root_of_songs,
    songs_below, usable_scan, TypedPath, SCAN_CACHE_VERSION,
};
use osu_map_manager::query::{BeatmapFilters, ModeFilter};
use osu_map_manager::repair::{count_missing_files, FilesExist, RepairEvent, RepairIgnoreStore};
use osu_map_manager::scan::ScanEvent;
use osu_map_manager::selection::{find_md5, matched_hashes, MapRule, Selection};
use osu_map_manager::update_run::{UpdateCheckEvent, UpdateEvent};
use osu_map_manager::updates::OutdatedSet;

fn path(text: &str) -> FilePath {
    FilePath {
        text: text.to_owned(),
        key: text.replace('/', "\0"),
        file_name: text.rsplit('/').next().map(str::to_owned),
        parent: text.rsplit_once('/').map(|(p, _)| p.replace('/', "\0")),
    }
}

fn map(folder: &str, file: &str, md5: &str, mode: Option<u8>) -> LocalBeatmap {
    LocalBeatmap {
        path: path(&format!("{folder}/{file}")),
        folder: path(folder),
        md5: md5.to_owned(),
        mode,
        beatmapset_id: Some(1),
        background_filename: Some(format!("{md5}.jpg")),
        ..Default::default()
    }
}

fn library() -> LibraryScan {
    let maps = vec![
        map("songs/a", "1.osu", "m1", None),
        map("songs/a", "2.osu", "m2", Some(1)),
        map("songs/b", "3.osu", "m3", Some(0)),
        map("songs/c", "4.osu", "m4", Some(3)),
    ];
    let problems = vec![RepairIssue {
        beatmap: path("songs/a/1.osu"),
        message: "Missing background file: m1.jpg".to_owned(),
        severity: RepairSeverity::MissingRequiredFile,
    }];
    LibraryScan { sets: osu_map_manager::local::build_sets(&maps), maps, problems }
}

fn program(scan: Option<LibraryScan>) -> MapManagerApp {
    let mut app = MapManagerApp::new(
        "C:\\osu!".to_owned(),
        "C:\\osu!\\Songs".to_owned(),
        scan,
        RepairIgnoreStore::new(),
        false,
    );
    app.filters = BeatmapFilters::with_full_ranges();
    app.filters.mode = ModeFilter::Any;
    app
}

fn entry(name: &str, hashes: &[&str]) -> CollectionEntry {
    CollectionEntry {
        name: name.to_owned(),
        hashes: hashes.iter().map(|h| (*h).to_owned()).collect(),
    }
}

fn md5s(selection: &Selection) -> Vec<&str> {
    selection.maps.iter().map(|m| m.md5.as_str()).collect()
}

#[test]
fn a_start_shows_the_last_scan() {
    let app = MapManagerApp::new(
        String::new(),
        String::new(),
        Some(library()),
        RepairIgnoreStore::new(),
        true,
    );
    assert_eq!(
        app.status,
        "Loaded cached scan: 0 matching maps from 4 scanned maps, 3 sets, 1 repair issue(s)"
    );
    assert_eq!(app.sign_in.status, "Signed in with osu! (token loaded from disk)");
    assert_eq!(app.filters.stars.min, Real32 { bits: 6.0f32.to_bits() });
    assert_eq!(app.filters.stars.max, Real32 { bits: f32::INFINITY.to_bits() });
    assert_eq!(app.filters.bpm.max, Real32 { bits: 180.0f32.to_bits() });
    assert_eq!(app.filters.to_osu_search(), "stars>=6 bpm<=180");
    assert_eq!(app.collection_name, "osu-map-manager");
    let hard = LocalBeatmap {
        stars: Some(Real32 { bits: 13.5f32.to_bits() }),
        bpm: Some(Real32 { bits: 170.0f32.to_bits() }),
        ..Default::default()
    };
    assert!(app.filters.matches_local(&hard));
    let empty = program(None);
    assert_eq!(empty.status, "Ready");
    assert_eq!(empty.sign_in.status, "Not signed in with osu!");
}

#[test]
fn a_scan_fills_the_library() {
    let mut app = program(None);
    assert!(app.start_scan());
    let started = ScanEvent::Started {
        songs_dir: path("songs"),
        star_ratings_loaded: 7,
        star_parse_error: None,
    };
    assert!(!app.on_scan_event(started));
    assert_eq!(app.status, "Maps read:      0 | Current filters:      0");
    assert!(app.library.is_scanning);
    assert!(!app.start_scan());
    assert_eq!(app.status, "A scan is already running");
    app.on_scan_event(ScanEvent::Folder { path: path("songs/a") });
    assert_eq!(app.library.current_folder, "a");
    app.on_scan_event(ScanEvent::Parsing { path: path("songs/a/1.osu") });
    assert_eq!(app.library.current_map, "1.osu");
    let found = map("songs/a", "1.osu", "m1", None);
    app.on_scan_event(ScanEvent::MapFound { map: found, issues: Vec::new() });
    let taiko = map("songs/a", "2.osu", "m2", Some(1));
    app.on_scan_event(ScanEvent::MapFound { map: taiko, issues: Vec::new() });
    assert_eq!(app.status, "Maps read:      2 | Current filters:      1");
    assert!(app.on_scan_event(ScanEvent::Finished { sets: Vec::new() }));
    assert_eq!(
        app.status,
        "Scan complete: 1 matching maps from 2 scanned maps, 0 sets, 0 repair issue(s)"
    );
    app.on_scan_not_kept("disk full");
    assert!(app.status.ends_with("; cache save failed: disk full"));
    assert!(!app.library.is_scanning);
}

#[test]
fn a_scan_that_was_stopped_stands_still() {
    let mut app = program(None);
    assert!(!app.stop_scan());
    app.start_scan();
    app.on_scan_event(ScanEvent::Started {
        songs_dir: path("songs"),
        star_ratings_loaded: 0,
        star_parse_error: None,
    });
    assert!(app.stop_scan());
    assert_eq!(app.status, "Scan stop requested: 0 maps read, 0 match current filters");
    let late = map("songs/a", "1.osu", "m1", None);
    app.on_scan_event(ScanEvent::MapFound { map: late, issues: Vec::new() });
    assert_eq!(app.library.scanned_maps, 0);
    assert!(app.on_scan_event(ScanEvent::Stopped { sets: Vec::new() }));
    assert_eq!(
        app.status,
        "Scan stopped: 0 matching maps from 0 scanned maps, 0 sets, 0 repair issue(s)"
    );
    assert!(app.on_scan_event(ScanEvent::Failed { message: "gone".to_owned() }));
    assert_eq!(app.status, "Scan failed: gone");
    app.on_scan_disconnect();
    assert_eq!(app.status, "Scan worker disconnected");
}

#[test]
fn ignored_issues_are_not_reported_again() {
    let mut app = program(Some(library()));
    app.refresh_repair_jobs(&vec![FilesExist { audio: true, background: false }; 4]);
    assert_eq!(app.jobs.jobs.len(), 1);
    assert!(app.start_repair_all());
    assert_eq!(app.status, "Starting repair for 1 beatmapset(s)");
    assert_eq!(app.start_repair_single(1), Some(0));
    assert_eq!(app.start_repair_single(2), None);
    assert_eq!(app.status, "No repair job found for set 2");
    app.on_repair_event(RepairEvent::Started { total: 1 });
    assert!(!app.start_repair_all());
    assert_eq!(app.status, "A repair job is already running");
    let ignored = app.jobs.jobs[0]
        .ignore_after_success
        .iter()
        .map(|e| osu_map_manager::repair::IgnoredRepairIssue {
            beatmapset_id: e.beatmapset_id,
            beatmap_id: e.beatmap_id,
            beatmap_file: e.beatmap_file.clone(),
            message: e.message.clone(),
        })
        .collect();
    let added = app.on_repair_event(RepairEvent::Repaired {
        beatmapset_id: 1,
        folder_count: 1,
        restored_files: Vec::new(),
        download_source: "mirror".to_owned(),
        ignored_after_success: ignored,
    });
    assert_eq!(added, 1);
    app.on_repair_event(RepairEvent::Finished);
    assert_eq!(app.status, "Repair finished: 1 succeeded, 0 failed out of 1");
    app.on_repair_disconnect();
    assert_eq!(app.status, "Repair worker disconnected");
    app.start_scan();
    app.on_scan_event(ScanEvent::Started {
        songs_dir: path("songs"),
        star_ratings_loaded: 0,
        star_parse_error: None,
    });
    let again = library();
    let found = again.maps.into_iter().next().unwrap();
    app.on_scan_event(ScanEvent::MapFound { map: found, issues: again.problems });
    assert!(app.library.scan.as_ref().is_some_and(|s| s.problems.is_empty()));
}

#[test]
fn a_collection_that_is_loaded_and_saved_is_the_same() {
    let mut app = program(Some(library()));
    app.load_selected_collection_into_selection();
    assert_eq!(app.status, "Select a collection to load");
    let list = vec![entry("mine", &["m3", "lost", "m1"]), entry("other", &["zzz"])];
    app.on_collections_loaded(Ok(list), "collection.db");
    assert_eq!(app.status, "Loaded 2 collection(s) from collection.db");
    app.selected_collection = Some(0);
    app.load_selected_collection_into_selection();
    assert_eq!(
        app.status,
        "Loaded 2 scanned map(s) from mine; 1 hash(es) were not found in the current scan"
    );
    assert_eq!(md5s(&app.selection), vec!["m3", "m1"]);
    assert_eq!(app.selection.missing, vec!["lost".to_owned()]);
    let mut saved = app.selection.hashes_to_save();
    saved.sort();
    assert_eq!(saved, vec!["lost".to_owned(), "m1".to_owned(), "m3".to_owned()]);
    app.selection.deselect_md5("lost");
    assert_eq!(app.selection.hashes_to_save(), vec!["m3".to_owned(), "m1".to_owned()]);

    let mut unscanned = program(None);
    unscanned.on_collections_loaded(Ok(vec![entry("mine", &["a", "b"])]), "p");
    unscanned.selected_collection = Some(0);
    unscanned.load_selected_collection_into_selection();
    assert_eq!(
        unscanned.status,
        "Loaded 2 hash(es) from mine; scan Songs to match them to local maps"
    );
    assert_eq!(unscanned.selection.hashes_to_save(), vec!["a".to_owned(), "b".to_owned()]);
}

#[test]
fn saves_renames_and_deletes_collections() {
    let mut app = program(None);
    let hash = |name: &str| map("songs/x", "x.osu", name, None);
    // A first collection, where there is no file yet.
    app.collection_name = "first".to_owned();
    app.selection.select_map(&hash("aaa"));
    app.selection.select_map(&hash("bbb"));
    let db = app.start_save(Err("no file".to_owned()), false).unwrap();
    assert_eq!(db.collections.len(), 1);
    assert_eq!(db.collections[0].hashes, vec!["aaa".to_owned(), "bbb".to_owned()]);
    // A second one beside it.
    app.selection.clear_selection();
    app.selection.select_map(&hash("ccc"));
    app.collection_name = "second".to_owned();
    let db = app.start_save(Ok(db), true).unwrap();
    assert_eq!(db.collections.len(), 2);
    // The first one under another name.
    let list = db.collections.iter().map(Clone::clone).collect();
    app.on_collection_written("first", Ok(list), "collection.db");
    assert_eq!(app.selected_collection, Some(0));
    app.load_selected_collection_into_selection();
    app.collection_name = "renamed".to_owned();
    let db = app.start_save(Ok(db), true).unwrap();
    let names: Vec<&str> = db.collections.iter().map(|c| c.name.as_str()).collect();
    assert_eq!(names, vec!["second", "renamed"]);
    assert_eq!(db.collections[1].hashes, vec!["aaa".to_owned(), "bbb".to_owned()]);
    assert_eq!(find_collection(&db.collections, "first"), None);
    // A file that cannot be read is not written over.
    assert!(app.start_save(Err("broken".to_owned()), true).is_none());
    assert_eq!(app.status, "Collection save failed: broken");
    // Deleting.
    let list = db.collections.iter().map(Clone::clone).collect();
    app.on_collection_written("second", Ok(list), "collection.db");
    assert_eq!(app.start_delete().as_deref(), Some("second"));
    let rest = app.delete_from("second", Ok(db)).unwrap();
    assert_eq!(rest.collections.len(), 1);
    assert!(app.delete_from("second", Ok(rest)).is_none());
    assert_eq!(app.status, "Collection not found: second");
    assert!(app.delete_from("x", Err("broken".to_owned())).is_none());
    assert_eq!(app.status, "Collection delete failed: broken");
    app.on_collection_deleted(Err("gone".to_owned()), "collection.db");
    assert_eq!(app.status, "Collection load failed: gone");
    assert_eq!(app.selected_collection, None);
    assert!(app.start_delete().is_none());
    assert_eq!(app.status, "Select a collection to delete");
}

#[test]
fn indexes_of_collections_stay_in_range() {
    let mut app = program(None);
    app.on_collections_loaded(Ok(vec![entry("a", &[]), entry("b", &[])]), "p");
    app.selected_collection = Some(1);
    app.on_collections_loaded(Ok(vec![entry("a", &[]), entry("c", &[])]), "p");
    assert_eq!(app.selected_collection, Some(1));
    app.on_collections_loaded(Ok(vec![entry("a", &[])]), "p");
    assert_eq!(app.selected_collection, None);
    app.on_failure("Create collection failed", "x");
    assert_eq!(app.status, "Create collection failed: x");
    app.on_manifest_written("selected_maps.tsv");
    assert_eq!(app.status, "Wrote selected_maps.tsv");
}

#[test]
fn nothing_is_added_where_nothing_is_selected() {
    let mut app = program(Some(library()));
    assert!(app.start_add().is_none());
    assert_eq!(app.status, "Select at least one map before adding to a collection");
    app.refresh_filtered_maps();
    assert_eq!(app.shown.places, vec![0, 2]);
    app.select_all_filtered();
    app.select_all_filtered();
    assert_eq!(md5s(&app.selection), vec!["m1", "m3"]);
    assert_eq!(app.start_add(), Some(vec!["m1".to_owned(), "m3".to_owned()]));
    assert_eq!(app.selection.md5s.items.len(), 2);
}

#[test]
fn selections_keep_to_the_standard_mode() {
    let mut app = program(Some(library()));
    app.only_osu_std = false;
    app.refresh_filtered_maps();
    app.select_all_filtered();
    assert_eq!(md5s(&app.selection), vec!["m1", "m2", "m3", "m4"]);
    app.keep_std_selected();
    assert_eq!(md5s(&app.selection).len(), 4);
    app.only_osu_std = true;
    app.keep_std_selected();
    assert_eq!(md5s(&app.selection), vec!["m1", "m3"]);
    assert!(!app.selection.md5s.contains("m2"));
    app.selection.select_missing_hash("lost");
    assert!(app.selection.md5s.contains("lost"));
}

#[test]
fn files_of_chosen_modes_are_deleted() {
    let mut app = program(Some(library()));
    app.only_osu_std = false;
    app.refresh_filtered_maps();
    app.select_all_filtered();
    app.ask_to_delete_modes();
    assert!(matches!(app.confirmation, Some(DeleteIntent::NonStdModes(2))));
    let files = app.start_delete_modes().unwrap();
    let texts: Vec<&str> = files.items.iter().map(|f| f.text.as_str()).collect();
    assert_eq!(texts, vec!["songs/a/2.osu", "songs/c/4.osu"]);
    let mut deleted = PathSet::new();
    deleted.insert(path("songs/a/2.osu"));
    app.on_files_deleted(deleted, &vec!["songs/c/4.osu: busy".to_owned()]);
    assert_eq!(
        app.status,
        "Deleted 1 non-std .osu file(s); 1 deletion(s) failed: songs/c/4.osu: busy"
    );
    let scan = app.library.scan.as_ref().unwrap();
    assert_eq!(scan.maps.len(), 3);
    assert_eq!(scan.sets.len(), 3);
    assert_eq!(md5s(&app.selection), vec!["m1", "m3", "m4"]);
    app.delete_modes.mania = false;
    assert!(app.start_delete_modes().is_none());
    assert_eq!(app.status, "No scanned maps match the selected non-std modes");
    app.delete_modes.taiko = false;
    app.delete_modes.catch = false;
    assert!(app.start_delete_modes().is_none());
    assert_eq!(app.status, "Select at least one non-std mode to delete");
    let mut empty = program(None);
    assert!(empty.start_delete_modes().is_none());
    assert_eq!(empty.status, "Scan your Songs directory before deleting non-std maps");
}

fn outdated(id: i64, folder: &str) -> OutdatedSet {
    OutdatedSet {
        beatmapset_id: id,
        title: "t".to_owned(),
        remote_updated: None,
        outdated: Vec::new(),
        up_to_date: 0,
        unchecked: 0,
        folders: vec![path(folder)],
    }
}

#[test]
fn updates_drop_what_they_touched_and_scan_again() {
    let mut app = program(Some(library()));
    assert!(app.start_update_all().is_none());
    assert_eq!(app.status, "Check for updates first");
    let (targets, uncheckable) = app.start_update_check().unwrap();
    assert_eq!((targets.len(), uncheckable), (1, 0));
    assert_eq!(app.status, "Starting update check for 1 beatmapset(s)");
    app.on_check_event(UpdateCheckEvent::Started { total: 1, uncheckable: 0 });
    assert!(app.start_update_check().is_none());
    assert_eq!(app.status, "An update check or update is already running");
    app.on_check_event(UpdateCheckEvent::Found(outdated(1, "songs/a")));
    app.on_check_event(UpdateCheckEvent::Finished);
    assert_eq!(app.start_update_all().map(|jobs| jobs.len()), Some(1));
    assert_eq!(app.status, "Starting update for 1 beatmapset(s)");
    assert!(app.start_update_single(9).is_none());
    assert_eq!(app.status, "No pending update found for set 9");
    assert!(app.start_update_single(1).is_some());
    app.selection.select_map(&map("songs/a", "1.osu", "m1", None));
    app.selection.select_map(&map("songs/b", "3.osu", "m3", None));
    app.expanded_md5 = Some("m1".to_owned());
    app.on_update_event(UpdateEvent::Started { total: 1 });
    app.on_update_event(UpdateEvent::Updated {
        beatmapset_id: 1,
        folders: vec![path("songs/a")],
        written: 1,
        removed: 0,
        download_source: "mirror".to_owned(),
    });
    assert!(app.on_updates_finished());
    let scan = app.library.scan.as_ref().unwrap();
    assert_eq!(scan.maps.len(), 2);
    assert!(scan.problems.is_empty());
    assert_eq!(md5s(&app.selection), vec!["m3"]);
    assert_eq!(app.expanded_md5, None);
    assert!(app.updates.outdated.is_empty());
    assert!(app.library.stoppable);
    assert_eq!(app.status, "Maps read:      0 | Current filters:      0");
    // Without anything updated there is nothing to scan again.
    app.on_update_event(UpdateEvent::Started { total: 1 });
    assert!(!app.on_updates_finished());
    assert_eq!(app.status, "Update finished: 0 succeeded, 0 failed out of 1");
    app.on_check_disconnect();
    app.on_update_disconnect();
    assert_eq!(app.status, "Update worker disconnected");
}

#[test]
fn checks_need_a_scan_and_a_backend() {
    let mut app = program(None);
    assert!(app.start_update_check().is_none());
    assert_eq!(app.status, "Scan your Songs directory before checking for updates");
    assert!(!app.start_repair_all());
    assert_eq!(app.status, "Scan your Songs directory before repairing maps");
    let mut app = program(Some(library()));
    app.backend_url = "  ".to_owned();
    assert!(app.start_update_check().is_none());
    assert_eq!(app.status, "Set the backend URL before checking for updates");
    let unknown = LocalBeatmap::default();
    let scan = LibraryScan { maps: vec![unknown], sets: Vec::new(), problems: Vec::new() };
    let mut app = program(Some(scan));
    assert!(app.start_update_check().is_none());
    assert_eq!(app.status, "No beatmapsets with online ids found to check");
    assert!(!app.start_repair_all());
    assert_eq!(app.status, "No repairable corrupted beatmapsets found");
}

#[test]
fn signing_in_and_out() {
    let mut app = program(None);
    assert!(!app.start_oauth_login(Err("no url".to_owned())));
    assert_eq!(app.status, "osu! sign-in failed: no url");
    assert!(app.start_oauth_login(Ok("https://page".to_owned())));
    assert_eq!(app.sign_in.pending_url.as_deref(), Some("https://page"));
    assert_eq!(app.status, "Waiting for osu! sign-in in your browser...");
    assert!(!app.start_oauth_login(Ok("https://other".to_owned())));
    assert_eq!(app.status, "osu! sign-in is already in progress");
    app.on_sign_in(Ok(None));
    assert!(app.sign_in.signed_in);
    assert_eq!(app.status, "Signed in with osu! (downloads use the official osu! API)");
    app.on_sign_in(Ok(Some("disk full".to_owned())));
    assert_eq!(app.status, "Signed in, but saving the session failed: disk full");
    app.sign_out();
    assert!(!app.sign_in.signed_in);
    assert_eq!(app.status, "Not signed in with osu! (downloads use the mirror)");
    app.on_sign_in(Err("denied".to_owned()));
    assert_eq!(app.status, "osu! sign-in failed: denied");
    app.on_sign_in_disconnect();
    assert_eq!(app.sign_in.status, "osu! sign-in was cancelled");
}

#[test]
fn another_root_brings_another_library() {
    let mut app = program(Some(library()));
    app.on_collections_loaded(Ok(vec![entry("a", &[])]), "p");
    app.expanded_md5 = Some("m1".to_owned());
    app.change_root(
        "D:\\osu".to_owned(),
        "D:\\osu\\Songs".to_owned(),
        None,
        RepairIgnoreStore::new(),
        true,
    );
    assert_eq!(app.status, "Ready");
    assert!(app.collections.is_empty());
    assert!(app.library.scan.is_none());
    assert_eq!(app.expanded_md5, None);
    app.change_root(
        "D:\\osu".to_owned(),
        "D:\\osu\\Songs".to_owned(),
        Some(library()),
        RepairIgnoreStore::new(),
        true,
    );
    assert_eq!(app.status, "Loaded cached scan: 4 scanned maps, 3 sets, 1 repair issue(s)");
}

#[test]
fn asking_to_delete_names_the_collection() {
    let mut app = program(None);
    app.ask_to_delete_collection();
    assert!(app.confirmation.is_none());
    app.on_collections_loaded(Ok(vec![entry("a", &[])]), "p");
    app.selected_collection = Some(0);
    app.ask_to_delete_collection();
    assert!(matches!(&app.confirmation, Some(DeleteIntent::Collection(n)) if n == "a"));
}

#[test]
fn rules_keep_maps_and_issues() {
    let scan = library();
    let mut folders = PathSet::new();
    folders.insert(path("songs/a"));
    let rule = MapRule::outside(folders);
    assert_eq!(rule.keep_maps(&scan.maps).len(), 2);
    assert!(rule.keep_issues(&scan.problems).is_empty());
    assert_eq!(MapRule::standard().keep_maps(&scan.maps).len(), 2);
    assert_eq!(find_md5(&scan.maps, "m3"), Some(2));
    assert_eq!(find_md5(&scan.maps, "zz"), None);
    let matched = matched_hashes(&vec!["m4".to_owned(), "zz".to_owned(), "m4".to_owned()], &scan.maps);
    assert_eq!(matched.items, vec!["m4".to_owned()]);
}

#[test]
fn manifests_list_the_selection() {
    let mut one = map("songs/a", "1.osu", "m1", None);
    one.artist = "A".to_owned();
    one.title = "T".to_owned();
    one.version = "V".to_owned();
    let two = LocalBeatmap { md5: "m2".to_owned(), beatmap_id: Some(-5), ..Default::default() };
    assert_eq!(
        write_manifest(&vec![one, two]),
        "m1\t1\t\tA - T [V]\nm2\t\t-5\t -  []\n"
    );
    assert_eq!(write_manifest(&Vec::new()), "");
}

#[test]
fn new_databases_have_the_usual_version() {
    assert_eq!(CollectionDb::empty().version, 20250107);
}

#[test]
fn typed_paths_are_expanded() {
    assert!(matches!(
        expand_prefilled_path(" %USERPROFILE%\\AppData ", true),
        TypedPath::BelowProfile(s) if s == "AppData"
    ));
    assert!(matches!(
        expand_prefilled_path("%USERPROFILE%", true),
        TypedPath::BelowProfile(s) if s.is_empty()
    ));
    assert!(matches!(
        expand_prefilled_path("%USERPROFILE%/x", false),
        TypedPath::Plain(s) if s == "%USERPROFILE%/x"
    ));
    assert_eq!(display_prefilled_path(Some("AppData"), "whole"), "%USERPROFILE%\\AppData");
    assert_eq!(display_prefilled_path(Some(""), "whole"), "%USERPROFILE%");
    assert_eq!(display_prefilled_path(None, "whole"), "whole");
    assert_eq!(songs_below(""), "");
    assert_eq!(songs_below("C:\\osu!"), "C:\\osu!\\Songs");
    assert_eq!(root_of_songs("C:\\osu!\\Songs").as_deref(), Some("C:\\osu!"));
    assert_eq!(root_of_songs(" /games/osu//Songs/ ").as_deref(), Some("/games/osu"));
    assert_eq!(root_of_songs("C:\\Songs").as_deref(), Some("C:\\"));
    assert_eq!(root_of_songs("/Songs").as_deref(), Some("/"));
    assert_eq!(root_of_songs("Songs"), None);
    assert_eq!(root_of_songs(""), None);
    assert_eq!(root_in_use("D:\\osu", "C:\\osu!\\Songs").as_deref(), Some("D:\\osu"));
    assert_eq!(root_in_use(" ", "C:\\osu!\\Songs").as_deref(), Some("C:\\osu!"));
    assert!(!has_root("  "));
    assert_eq!(count_missing_files(&library().problems), 1);
    assert_eq!(count_missing_files(&Vec::new()), 0);
    assert!(usable_scan(SCAN_CACHE_VERSION, library()).is_some());
    assert!(usable_scan(3, library()).is_none());
}

#[test]
fn backgrounds_are_kept_up_to_a_limit() {
    let mut state = BackgroundState::new();
    for i in 0..BACKGROUND_CACHE_LIMIT {
        assert_eq!(state.cache_background(&format!("k{i}")), None);
    }
    assert_eq!(state.cache_background("k0"), None);
    assert_eq!(state.cache_background("new").as_deref(), Some("k0"));
    assert_eq!(state.kept.len(), BACKGROUND_CACHE_LIMIT);
    assert_eq!(state.kept.last().map(String::as_str), Some("new"));
}

#[test]
fn previews_are_decoded_once() {
    let mut state = BackgroundState::new();
    let shown = path("songs/a/bg.jpg");
    assert_eq!(state.ensure_background_preview(&shown), PreviewStep::Decode);
    assert_eq!(state.ensure_background_preview(&shown), PreviewStep::Unchanged);
    assert!(!state.spawn_background_decode(&shown.key));
    let near: Vec<FilePath> = (0..6).map(|i| path(&format!("songs/{i}/bg.jpg"))).collect();
    let started = state.prefetch_neighbor_backgrounds(&near);
    assert_eq!(started.len(), BACKGROUND_MAX_IN_FLIGHT - 1);
    assert_eq!(started[0].text, "songs/0/bg.jpg");
    assert_eq!(state.on_decoded(&shown.key, Ok(())), None);
    assert!(state.preview_ready);
    assert_eq!(state.ensure_background_preview(&near[0]), PreviewStep::Wait);
    state.on_decoded(&near[0].key, Err("bad".to_owned()));
    assert_eq!(state.preview_error.as_deref(), Some("Could not load background: bad"));
    assert_eq!(state.ensure_background_preview(&shown), PreviewStep::Show);
    state.clear_background_preview();
    assert!(state.prefetch_neighbor_backgrounds(&near).is_empty());
    state.forget();
    assert!(state.kept.is_empty() && state.in_flight.items.is_empty());
}

#[test]
fn neighbours_come_nearest_first() {
    let maps: Vec<LocalBeatmap> =
        (0..6).map(|i| map("songs/x", "x.osu", &format!("m{i}"), None)).collect();
    let listed = vec![5, 4, 3, 2, 1, 0];
    let found = neighbor_background_paths(&listed, &maps, "m4");
    let names: Vec<&str> = found.iter().map(|b| b.filename.as_str()).collect();
    assert_eq!(names, vec!["m3.jpg", "m5.jpg", "m2.jpg", "m1.jpg"]);
    assert!(neighbor_background_paths(&listed, &maps, "zz").is_empty());
}

#[test]
fn grey_pixels_get_three_colours() {
    assert_eq!(rgb_pixels(PixelKind::Grey8, vec![1, 2]), Some(vec![1, 1, 1, 2, 2, 2]));
    assert_eq!(rgb_pixels(PixelKind::Rgb24, vec![1, 2, 3]), Some(vec![1, 2, 3]));
    assert_eq!(rgb_pixels(PixelKind::Other, vec![1]), None);
    assert!(decodes_fast(PixelKind::Grey8) && !decodes_fast(PixelKind::Other));
}
