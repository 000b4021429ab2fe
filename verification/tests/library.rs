use osu_map_manager::local::{
    assemble_map, build_sets, first_beat_length, is_repairable_asset_filename, parse_event_filename,
    parse_folder_set_id, parse_hit_object, parse_osu, FilePath, LocalBeatmap, OsuNumbers,
    RepairSeverity,
};
use osu_map_manager::measure::Real32;
use osu_map_manager::order::TextSet;
use osu_map_manager::osu_db::{parse_osu_db, DbError};
use osu_map_manager::scan::{
    calculates_while_parsing, index_by_path, is_osu_file, reusable_map, scan_started,
    stars_from_db, stars_step, ParseIssueKind, ScanEvent, ScanSession, StarsStep,
};
use osu_map_manager::scan_state::skipped_kinds;

fn path(text: &str) -> FilePath {
    FilePath {
        text: text.to_owned(),
        key: text.replace('/', "\0"),
        file_name: text.rsplit('/').next().map(str::to_owned),
        parent: text.rsplit_once('/').map(|(p, _)| p.replace('/', "\0")),
    }
}

fn numbers() -> OsuNumbers {
    OsuNumbers {
        ar: None,
        cs: None,
        od: None,
        hp: None,
        stars: None,
        bpm: None,
        length_seconds: None,
    }
}

const OSU: &str = "\u{feff}osu file format v14\r\n\r\n[General]\r\nAudioFilename: audio.mp3\r\nMode: 0\r\n\r\n[Metadata]\r\nTitle:A: B\r\nArtist:X\r\nSource:\r\nCreator:M\r\nVersion:Hard\r\nTags:one two\r\nBeatmapID:456\r\nBeatmapSetID:-1\r\n\r\n[Difficulty]\r\nHPDrainRate:5\r\nCircleSize:4.2\r\nOverallDifficulty:7\r\nApproachRate:9\r\n\r\n[Events]\r\n//Background\r\n0,0,\"folder, with comma.jpg\",0,0\r\n\r\n[TimingPoints]\r\n500,-100,4,1,0,100,0,0\r\n1000,333.33,4,1,0,100,1,0\r\n\r\n[HitObjects]\r\n256,192,1000,1,0,0:0:0:0:\r\n256,192,2000,2,0,L|1:1,1,100\r\n256,192,1500,5,0\r\n";

#[test]
fn beatmap_files_are_parsed() {
    let parsed = parse_osu(OSU.as_bytes());
    assert_eq!(parsed.title, "A: B");
    assert_eq!(parsed.artist, "X");
    assert_eq!(parsed.creator, "M");
    assert_eq!(parsed.version, "Hard");
    assert_eq!(parsed.tags, "one two");
    assert_eq!(parsed.beatmap_id, Some(456));
    assert_eq!(parsed.beatmapset_id, None);
    assert_eq!(parsed.mode, Some(0));
    assert!(parsed.has_mode_field);
    assert_eq!(parsed.cs.as_deref(), Some("4.2"));
    assert_eq!(parsed.audio_filename.as_deref(), Some("audio.mp3"));
    assert_eq!(parsed.circles, 2);
    assert_eq!(parsed.sliders, 1);
    assert_eq!(parsed.last_object_time, Some(2000));
    assert_eq!(parsed.beat_lengths, vec!["-100".to_owned(), "333.33".to_owned()]);
    assert_eq!(parsed.md5.len(), 32);
}

#[test]
fn checksums_are_those_of_the_bytes() {
    assert_eq!(parse_osu(b"").md5, "d41d8cd98f00b204e9800998ecf8427e");
    assert_eq!(parse_osu(b"abc").md5, "900150983cd24fb0d6963f7d28e17f72");
}

#[test]
fn bytes_that_are_no_text_are_replaced() {
    let parsed = parse_osu(b"[Metadata]\nTitle:a\xffb\n");
    assert_eq!(parsed.title, "a\u{fffd}b");
    let parsed = parse_osu("[Metadata]\nTitle:\u{3042}\n".as_bytes());
    assert_eq!(parsed.title, "\u{3042}");
}

#[test]
fn sets_are_known_by_their_folders_too() {
    assert_eq!(parse_folder_set_id(&path("songs/123 Artist - Title")), Some(123));
    assert_eq!(parse_folder_set_id(&path("songs/Artist - Title")), None);
    assert_eq!(parse_folder_set_id(&path("songs/0 x")), None);
    let map = assemble_map(
        path("songs/77 x/a.osu"),
        path("songs/77 x"),
        parse_osu(OSU.as_bytes()),
        numbers(),
    );
    assert_eq!(map.beatmapset_id, Some(77));
    assert_eq!(map.label(), "X - A: B [Hard]");
}

#[test]
fn event_lines_name_backgrounds() {
    assert_eq!(parse_event_filename("0,0,\"bg.jpg\",0,0").as_deref(), Some("bg.jpg"));
    assert_eq!(parse_event_filename("0,0,bg.PNG").as_deref(), Some("bg.PNG"));
    assert_eq!(parse_event_filename("0,0,\"clip.mp4\",0,0"), None);
    assert_eq!(parse_event_filename("0,0"), None);
    assert!(is_repairable_asset_filename("bg.jpg"));
    assert!(is_repairable_asset_filename("sb/bg.jpg"));
    assert!(is_repairable_asset_filename("sb\\bg.jpg"));
    assert!(is_repairable_asset_filename("sb.old\\more/bg.png"));
    assert!(is_repairable_asset_filename("sb/bg.jpg/"));
    assert!(!is_repairable_asset_filename("sb.jpg/background"));
    assert!(!is_repairable_asset_filename("sb/.jpg"));
    assert!(!is_repairable_asset_filename("sb\\clip.mp4"));
    assert_eq!(parse_event_filename("0,0,\"sb\\bg.jpg\",0,0").as_deref(), Some("sb\\bg.jpg"));
    assert!(!is_repairable_asset_filename(""));
    assert!(!is_repairable_asset_filename("noextension"));
}

#[test]
fn hit_objects_are_read() {
    assert_eq!(parse_hit_object("256,192,1000,1,0"), Some((1000, 1)));
    assert_eq!(parse_hit_object("256,192,x,1,0"), None);
    assert_eq!(parse_hit_object("256,192"), None);
}

#[test]
fn the_first_positive_beat_length_counts() {
    let num = |v: f32| Some(Real32 { bits: v.to_bits() });
    assert_eq!(first_beat_length(&vec![num(-100.0), None, num(333.3), num(5.0)]), num(333.3));
    assert_eq!(first_beat_length(&vec![num(0.0), num(f32::NAN)]), None);
}

#[test]
fn sets_partition_the_maps() {
    let map = |folder: &str, set: Option<i64>, version: &str| LocalBeatmap {
        folder: path(folder),
        beatmapset_id: set,
        version: version.to_owned(),
        ..Default::default()
    };
    let maps = vec![
        map("b", Some(2), "1"),
        map("a", None, "2"),
        map("b", Some(2), "3"),
        map("a", Some(1), "4"),
        map("c", Some(2), "5"),
    ];
    let sets = build_sets(&maps);
    let shown: Vec<(Option<i64>, &str, usize)> =
        sets.iter().map(|s| (s.beatmapset_id, s.folder.text.as_str(), s.maps.len())).collect();
    assert_eq!(
        shown,
        vec![(None, "a", 1), (Some(1), "a", 1), (Some(2), "b", 2), (Some(2), "c", 1)]
    );
}

#[test]
fn scans_report_what_they_find() {
    let mut session = ScanSession::new(skipped_kinds(true, false));
    let map = LocalBeatmap {
        audio_filename: Some("audio.mp3".to_owned()),
        background_filename: Some("bg.jpg".to_owned()),
        ..Default::default()
    };
    match session.on_map(map, false, true) {
        ScanEvent::MapFound { issues, .. } => {
            assert_eq!(issues.len(), 1);
            assert_eq!(issues[0].message, "Missing audio file: audio.mp3");
        }
        other => panic!("unexpected {other:?}"),
    }
    assert!(session.on_failure(path("a.osu"), ParseIssueKind::Timeout, "slow").is_none());
    match session.on_failure(path("a.osu"), ParseIssueKind::ParseError, "bad") {
        Some(ScanEvent::Problem { issue }) => {
            assert_eq!(issue.message, "bad");
            assert_eq!(issue.severity, RepairSeverity::ParseWarning);
        }
        other => panic!("unexpected {other:?}"),
    }
    let other = ScanSession::new(skipped_kinds(false, true));
    match other.on_failure(path("a.osu"), ParseIssueKind::Timeout, "slow") {
        Some(ScanEvent::Problem { issue }) => {
            assert_eq!(issue.message, "Timed out parsing map file after 8 seconds: slow")
        }
        unexpected => panic!("unexpected {unexpected:?}"),
    }
    assert!(matches!(session.end(false), ScanEvent::Finished { sets } if sets.len() == 1));
    assert!(matches!(session.end(true), ScanEvent::Stopped { .. }));
    assert!(is_osu_file(Some("osu")));
    assert!(!is_osu_file(Some("osb")));
    assert_eq!(ParseIssueKind::Timeout.as_str(), "parse_timeout");
    assert_eq!(ParseIssueKind::ParseError.as_str(), "parse_error");
}

#[test]
fn known_files_are_not_parsed_again() {
    let map = |text: &str, version: &str| LocalBeatmap {
        path: path(text),
        version: version.to_owned(),
        ..Default::default()
    };
    let maps = vec![map("a/1.osu", "one"), map("a/2.osu", "two")];
    let index = index_by_path(&maps);
    assert_eq!(
        reusable_map(&maps, &index, &path("a/2.osu")).map(|m| m.version).as_deref(),
        Some("two")
    );
    assert!(reusable_map(&maps, &index, &path("a/3.osu")).is_none());
}

fn text(bytes: &mut Vec<u8>, s: &str) {
    if s.is_empty() {
        bytes.push(0);
    } else {
        bytes.push(0x0b);
        bytes.push(s.len() as u8);
        bytes.extend_from_slice(s.as_bytes());
    }
}

fn database(records: &[(&str, &str, f64)]) -> Vec<u8> {
    let mut b = Vec::new();
    b.extend_from_slice(&20250101i32.to_le_bytes());
    b.extend_from_slice(&[0; 13]);
    text(&mut b, "player");
    b.extend_from_slice(&(records.len() as i32).to_le_bytes());
    for (md5, file, stars) in records {
        b.extend_from_slice(&[0; 4]);
        for _ in 0..6 {
            text(&mut b, "x");
        }
        text(&mut b, md5);
        text(&mut b, file);
        b.extend_from_slice(&[0; 1 + 6 + 8 + 24 + 4 + 8]);
        b.extend_from_slice(&2i32.to_le_bytes());
        for (mods, value) in [(64i32, 9.5f64), (0, *stars)] {
            b.push(0x08);
            b.extend_from_slice(&mods.to_le_bytes());
            b.push(0x0d);
            b.extend_from_slice(&value.to_le_bytes());
        }
        for _ in 0..3 {
            b.extend_from_slice(&0i32.to_le_bytes());
        }
        b.extend_from_slice(&[0; 32 + 2 + 8 + 8 + 8 + 8 + 4 + 4 + 4 + 1]);
        text(&mut b, "");
        text(&mut b, "y");
        b.extend_from_slice(&[0; 2 + 8 + 1]);
    }
    b
}

#[test]
fn star_ratings_are_read_from_the_database() {
    let bytes = database(&[("aaa", "One.osu", 5.25), ("bbb", "Two.osu", 6.5)]);
    let index = parse_osu_db(&bytes).unwrap();
    assert_eq!(index.len(), 2);
    let map = |md5: &str, file: &str| LocalBeatmap {
        md5: md5.to_owned(),
        path: path(&format!("songs/{file}")),
        ..Default::default()
    };
    assert_eq!(stars_from_db(&map("aaa", "x.osu"), &index), Some(5.25f64.to_bits()));
    assert_eq!(stars_from_db(&map("zzz", "TWO.osu"), &index), Some(6.5f64.to_bits()));
    assert_eq!(stars_from_db(&map("zzz", "x.osu"), &index), None);
    assert_eq!(
        stars_step(&map("aaa", "x.osu"), Some(&index)),
        StarsStep::FromDb(5.25f64.to_bits())
    );
    assert_eq!(stars_step(&map("zzz", "x.osu"), Some(&index)), StarsStep::Calculate);
    assert_eq!(stars_step(&map("aaa", "x.osu"), None), StarsStep::Calculate);
    let rated = LocalBeatmap { stars: Some(Real32 { bits: 1 }), ..map("aaa", "x.osu") };
    assert_eq!(stars_step(&rated, Some(&index)), StarsStep::Keep);
    assert!(calculates_while_parsing(None) && !calculates_while_parsing(Some(&index)));
    match scan_started(path("songs"), true, Some(&index), None) {
        ScanEvent::Started { star_ratings_loaded: 2, star_parse_error: None, .. } => {}
        other => panic!("unexpected {other:?}"),
    }
    match scan_started(path("songs"), false, None, None) {
        ScanEvent::Started { star_ratings_loaded: 0, star_parse_error: Some(error), .. } => {
            assert_eq!(error, "No osu! root selected; osu!.db unavailable")
        }
        other => panic!("unexpected {other:?}"),
    }
}

#[test]
fn broken_databases_are_refused() {
    let bytes = database(&[("aaa", "One.osu", 5.25)]);
    let cut = &bytes[..bytes.len() - 1];
    assert_eq!(parse_osu_db(cut).err(), Some(DbError::UnexpectedEnd));
    assert_eq!(DbError::UnexpectedEnd.message(), "failed to fill whole buffer");
    let mut marker = bytes.clone();
    marker[17] = 7;
    assert_eq!(parse_osu_db(&marker).err(), Some(DbError::InvalidMarker(7)));
    assert_eq!(DbError::InvalidMarker(7).message(), "invalid osu!.db string marker 7");
    let mut long = bytes[..18].to_vec();
    long[17] = 0x0b;
    long.extend_from_slice(&[0x80; 12]);
    assert_eq!(parse_osu_db(&long).err(), Some(DbError::UnexpectedEnd));
}

#[test]
fn lengths_of_any_number_of_bytes_are_read() {
    let bytes = database(&[("aaa", "One.osu", 5.25)]);
    // In place of the name of the player, which is a marker, a length and six
    // letters, one that says the same in eleven bytes.
    let with_name = |name: &[u8]| {
        let mut b = bytes[..17].to_vec();
        b.extend_from_slice(name);
        b.extend_from_slice(&bytes[25..]);
        b
    };
    let mut same = vec![0x0b, 0x86];
    same.extend_from_slice(&[0x80; 9]);
    same.push(0);
    same.extend_from_slice(b"player");
    assert_eq!(parse_osu_db(&with_name(&same)).unwrap().len(), 1);
    // The eleventh byte goes on at the seventh bit.
    let mut round = vec![0x0b];
    round.extend_from_slice(&[0x80; 10]);
    round.push(1);
    round.extend_from_slice(&[b'x'; 64]);
    assert_eq!(parse_osu_db(&with_name(&round)).unwrap().len(), 1);
    let mut empty = vec![0x0b];
    empty.extend_from_slice(&[0x80; 10]);
    empty.push(0);
    assert_eq!(parse_osu_db(&with_name(&empty)).unwrap().len(), 1);
}

#[test]
fn kinds_to_skip() {
    let none: TextSet = skipped_kinds(false, false);
    assert!(none.items.is_empty());
    let both = skipped_kinds(true, true);
    assert_eq!(both.items, vec!["parse_error".to_owned(), "parse_timeout".to_owned()]);
}
