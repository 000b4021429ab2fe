use osu_map_manager::caches::{same_filters, ShownCache};
use osu_map_manager::display::{
    collection_label, compact_map_details, confirmation, count_modes, count_visible, filter_maps,
    format_duration, format_number, is_osu_std, label_value_for_field, map_result_label,
    mode_label, number_chunks, optional_number, rows_beyond, scan_progress_status, DeleteIntent,
    DeleteModeSelection, SearchField, ShownNumbers,
};
use osu_map_manager::local::{LibraryScan, LocalBeatmap};
use osu_map_manager::measure::Real32;
use osu_map_manager::query::{BeatmapFilters, ModeFilter, RangeFilter, TypedBound};

fn num(v: f32) -> Real32 {
    Real32 { bits: v.to_bits() }
}

fn typed(text: &str) -> TypedBound {
    TypedBound { text: text.to_owned(), value: text.trim().parse::<f32>().ok().map(num) }
}

fn filters() -> BeatmapFilters {
    BeatmapFilters::with_full_ranges()
}

fn shown() -> ShownNumbers {
    ShownNumbers {
        stars: Some(num(6.25)),
        ar: Some(num(9.0)),
        cs: Some(num(4.2)),
        od: None,
        hp: Some(num(5.5)),
        bpm: Some(num(180.0)),
        length: Some(125),
    }
}

#[test]
fn mode_counts_treat_missing_mode_as_std() {
    let map_with = |mode: Option<u8>| LocalBeatmap {
        mode,
        has_mode_field: mode.is_some(),
        ..Default::default()
    };
    let maps = vec![
        map_with(None),
        map_with(Some(0)),
        map_with(Some(1)),
        map_with(Some(3)),
        map_with(Some(9)),
    ];
    let counts = count_modes(&maps);
    assert_eq!(counts.std, 2);
    assert_eq!(counts.taiko, 1);
    assert_eq!(counts.mania, 1);
    assert_eq!(counts.unknown, 1);
    assert_eq!(mode_label(None), "osu!std");
    assert_eq!(counts.catch, 0);
    assert_eq!(counts.with_mode_field, 4);
    assert_eq!(counts.total, 5);
}

#[test]
fn builds_readable_osu_query() {
    let mut query = filters();
    query.artist = "Camellia".into();
    query.stars.enabled = true;
    query.stars.min = num(5.5);

    assert_eq!(query.to_osu_search(), "artist=Camellia stars>=5.5 mode=osu");
}

#[test]
fn empty_filters_match_everything_except_mode() {
    let query = filters();
    let map = LocalBeatmap { artist: "Camellia".into(), mode: None, ..Default::default() };
    assert!(query.matches_local(&map));

    let taiko = LocalBeatmap { mode: Some(1), ..Default::default() };
    assert!(!query.matches_local(&taiko));
}

#[test]
fn ranges_and_length_behave() {
    let mut query = filters();
    query.mode = ModeFilter::Any;
    query.stars.enabled = true;
    query.stars.min = num(5.0);
    query.stars.max = num(7.0);
    query.length_min = typed("60");
    query.length_max = typed("not a number");

    let inside = LocalBeatmap {
        stars: Some(num(6.0)),
        length_seconds: Some(num(120.0)),
        ..Default::default()
    };
    assert!(query.matches_local(&inside));

    let too_easy = LocalBeatmap {
        stars: Some(num(4.9)),
        length_seconds: Some(num(120.0)),
        ..Default::default()
    };
    assert!(!query.matches_local(&too_easy));

    // Missing values never match an enabled numeric filter.
    let unknown = LocalBeatmap::default();
    assert!(!query.matches_local(&unknown));
}

#[test]
fn words_match_in_any_case() {
    let mut query = filters();
    query.title = "ΓΕΙΑ".into();
    query.mapper = " map ".into();
    let map = LocalBeatmap {
        title: "xx γεια yy".into(),
        creator: "THE MAPPER".into(),
        ..Default::default()
    };
    assert!(query.matches_local(&map));
    query.title = "other".into();
    assert!(!query.matches_local(&map));
}

#[test]
fn bounds_of_the_length_are_inclusive() {
    let mut query = filters();
    query.length_min = typed("60");
    query.length_max = typed(" 120 ");
    let long = |seconds: f32| LocalBeatmap {
        length_seconds: Some(num(seconds)),
        ..Default::default()
    };
    assert!(query.matches_local(&long(60.0)));
    assert!(query.matches_local(&long(120.0)));
    assert!(!query.matches_local(&long(59.9)));
    assert!(!query.matches_local(&long(120.1)));
    assert!(!query.matches_local(&LocalBeatmap::default()));
    assert!(query.length_valid());
    query.length_max = typed("x");
    assert!(!query.length_valid());
}

#[test]
fn clearing_takes_all_filters_back() {
    let mut query = filters();
    assert_eq!(query.active_count(), 1);
    query.tag = "stream".into();
    query.od.enabled = true;
    query.length_min = typed("1");
    assert_eq!(query.active_count(), 4);
    query.clear_all();
    assert_eq!(query.active_count(), 0);
    assert_eq!(query.to_osu_search(), "");
    assert!(query.matches_local(&LocalBeatmap { mode: Some(3), ..Default::default() }));
}

#[test]
fn search_words_are_quoted_and_bounded() {
    let mut query = filters();
    query.title = "a \"b\" c".into();
    query.mapper = "x/y".into();
    query.length_min = typed("30");
    query.length_max = typed("90.5");
    query.bpm.enabled = true;
    query.bpm.min = num(100.0);
    query.bpm.max = num(200.25);
    query.hp.enabled = true;
    query.mode = ModeFilter::Taiko;
    assert_eq!(
        query.to_osu_search(),
        "title=\"a \\\"b\\\" c\" creator=\"x/y\" length>=30 length<=90.5 hp>=0 bpm>=100 bpm<=200.25 mode=taiko"
    );
}

#[test]
fn a_range_that_is_switched_on_needs_a_number() {
    let range = RangeFilter { enabled: true, min: num(0.0), max: num(10.0) };
    assert!(!range.matches(None));
    assert!(range.matches(Some(num(10.0))));
    assert!(!range.matches(Some(num(f32::NAN))));
    assert!(RangeFilter { enabled: false, ..range }.matches(None));
}

#[test]
fn every_mode_filter_has_label_and_token() {
    let all = ModeFilter::all();
    assert_eq!(all.len(), 5);
    assert_eq!(ModeFilter::Any.token(), None);
    assert_eq!(ModeFilter::Osu.token(), Some("osu"));
    assert!(ModeFilter::Osu.matches(None));
    assert!(ModeFilter::Mania.matches(Some(3)));
    assert!(!ModeFilter::Mania.matches(None));
    for mode in all {
        assert!(!mode.label().is_empty());
    }
}

#[test]
fn shown_maps_are_listed_in_order() {
    let star = |v: f32, mode: Option<u8>| LocalBeatmap {
        stars: Some(num(v)),
        mode,
        ..Default::default()
    };
    let maps = vec![star(6.0, None), star(2.0, None), star(7.0, Some(1)), star(8.0, Some(0))];
    let mut query = filters();
    query.mode = ModeFilter::Any;
    query.stars.enabled = true;
    query.stars.min = num(5.0);
    assert_eq!(filter_maps(&query, true, &maps), vec![0, 3]);
    assert_eq!(filter_maps(&query, false, &maps), vec![0, 2, 3]);
    assert_eq!(count_visible(&query, true, &maps), 2);
}

#[test]
fn shown_maps_are_worked_out_again_when_filters_change() {
    let map = LocalBeatmap { artist: "A".into(), ..Default::default() };
    let scan = Some(LibraryScan { maps: vec![map], sets: Vec::new(), problems: Vec::new() });
    let mut cache = ShownCache::new();
    let mut query = filters();
    cache.refresh(&query, true, &scan);
    assert_eq!(cache.places, vec![0]);
    query.artist = "B".into();
    assert!(!same_filters(&query, &filters()));
    cache.refresh(&query, true, &scan);
    assert!(cache.places.is_empty());
    assert!(same_filters(&filters(), &filters()));
    cache.refresh(&filters(), true, &None);
    assert!(cache.places.is_empty());
}

#[test]
fn chosen_modes_never_hold_the_standard_one() {
    let all = DeleteModeSelection { taiko: true, catch: true, mania: true };
    assert!(all.any());
    assert!(!all.matches(None));
    assert!(!all.matches(Some(0)));
    assert!(all.matches(Some(1)) && all.matches(Some(2)) && all.matches(Some(3)));
    assert!(!all.matches(Some(4)));
    let none = DeleteModeSelection { taiko: false, catch: false, mania: false };
    assert!(!none.any());
    let taiko = LocalBeatmap { mode: Some(1), ..Default::default() };
    assert!(!is_osu_std(&taiko));
    assert_eq!(all.count(&vec![taiko, LocalBeatmap::default()]), 1);
}

#[test]
fn mode_labels() {
    assert_eq!(mode_label(Some(0)), "osu!std");
    assert_eq!(mode_label(Some(1)), "Taiko");
    assert_eq!(mode_label(Some(2)), "Catch");
    assert_eq!(mode_label(Some(3)), "Mania");
    assert_eq!(mode_label(Some(4)), "Unknown");
}

#[test]
fn numbers_are_shown_without_zeros() {
    assert_eq!(format_number(num(6.0)), "6");
    assert_eq!(format_number(num(6.5)), "6.5");
    assert_eq!(format_number(num(6.25)), "6.25");
    assert_eq!(format_number(num(100.0)), "100");
    assert_eq!(format_number(num(0.0)), "0");
    assert_eq!(optional_number(None), "—");
    assert_eq!(optional_number(Some(num(4.2))), "4.2");
}

#[test]
fn durations_are_minutes_and_seconds() {
    assert_eq!(format_duration(0), "0:00");
    assert_eq!(format_duration(65), "1:05");
    assert_eq!(format_duration(3600), "60:00");
}

#[test]
fn fields_have_labels() {
    let map = LocalBeatmap { mode: Some(0), circles: 12, sliders: 3, ..Default::default() };
    let label = |field| label_value_for_field(&map, &shown(), field);
    assert_eq!(label(SearchField::StarRating).as_deref(), Some("*6.25"));
    assert_eq!(label(SearchField::ApproachRate).as_deref(), Some("AR 9"));
    assert_eq!(label(SearchField::CircleSize).as_deref(), Some("CS 4.2"));
    assert_eq!(label(SearchField::OverallDifficulty), None);
    assert_eq!(label(SearchField::HpDrain).as_deref(), Some("HP 5.5"));
    assert_eq!(label(SearchField::Bpm).as_deref(), Some("180 BPM"));
    assert_eq!(label(SearchField::Length).as_deref(), Some("2:05 length"));
    assert_eq!(label(SearchField::Circles).as_deref(), Some("12 circles"));
    assert_eq!(label(SearchField::Sliders).as_deref(), Some("3 sliders"));
    assert_eq!(label(SearchField::Keys).as_deref(), Some("4.2K"));
    assert_eq!(label(SearchField::Mode).as_deref(), Some("mode 0"));
    assert_eq!(label(SearchField::Words), None);
}

#[test]
fn map_labels_show_the_fields_in_use() {
    let map = LocalBeatmap { artist: "A".into(), title: "T".into(), ..Default::default() };
    let mut query = filters();
    query.mode = ModeFilter::Any;
    assert_eq!(map_result_label(&map, &shown(), &query), "A - T (*6.25)");
    query.bpm.enabled = true;
    query.length_max = typed("300");
    query.od.enabled = true;
    assert_eq!(map_result_label(&map, &shown(), &query), "A - T (180 BPM, 2:05 length)");
    let none = ShownNumbers { stars: None, bpm: None, length: None, ..shown() };
    assert_eq!(map_result_label(&map, &none, &query), "A - T");
}

#[test]
fn details_stand_in_one_line() {
    let map = LocalBeatmap { creator: "M".into(), version: "Hard".into(), ..Default::default() };
    assert_eq!(
        compact_map_details(&map, &shown()),
        "mapped by M  ·  Hard  ·  6.25★  ·  180 BPM  ·  2:05"
    );
    let none = ShownNumbers { stars: None, bpm: None, length: None, ..shown() };
    assert_eq!(compact_map_details(&map, &none), "mapped by M  ·  Hard");
}

#[test]
fn numbers_stand_apart_in_messages() {
    let parts = number_chunks("Repaired 12 folder(s), 3x");
    let shown: Vec<(String, bool)> = parts.into_iter().map(|c| (c.text, c.is_number)).collect();
    let expected: Vec<(String, bool)> = vec![
        ("Repaired ".to_owned(), false),
        ("12".to_owned(), true),
        (" folder(s), ".to_owned(), false),
        ("3".to_owned(), true),
        ("x".to_owned(), false),
    ];
    assert_eq!(shown, expected);
    assert!(number_chunks("").is_empty());
}

#[test]
fn progress_is_padded() {
    assert_eq!(scan_progress_status(5, 0), format!("Maps read: {:>6} | Current filters: {:>6}", 5, 0));
    assert_eq!(
        scan_progress_status(12345678, 42),
        format!("Maps read: {:>6} | Current filters: {:>6}", 12345678, 42)
    );
}

#[test]
fn collections_are_counted_in_their_labels() {
    assert_eq!(rows_beyond(200), 0);
    assert_eq!(rows_beyond(203), 3);
    assert_eq!(collection_label("mine", 1), "mine (1 map)");
    assert_eq!(collection_label("mine", 0), "mine (0 maps)");
    assert_eq!(collection_label("mine", 12), "mine (12 maps)");
}

#[test]
fn questions_before_deleting() {
    let q = confirmation(&DeleteIntent::Collection("x".into()));
    assert_eq!(q.title, "Delete collection?");
    assert_eq!(q.message, "Delete collection \"x\"? This cannot be undone.");
    assert_eq!(q.confirm_label, "Delete");
    let q = confirmation(&DeleteIntent::NonStdModes(3));
    assert_eq!(
        q.message,
        "Permanently delete 3 .osu file(s) from disk? This cannot be undone."
    );
    let q = confirmation(&DeleteIntent::RestoreBackup);
    assert_eq!(q.confirm_label, "Restore");
}
