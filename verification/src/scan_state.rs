//! The state of the library and of a scan that is under way.
use crate::display::{count_visible, matches_visible_filters, scan_progress_status};
#[allow(unused_imports)]
use crate::display::{progress_text, visible, visible_count};
#[allow(unused_imports)]
use crate::local::{opt_text, sets_of};
use crate::local::{
    build_sets, LibraryScan, LocalBeatmap, LocalBeatmapSet, RepairIssue,
};
#[allow(unused_imports)]
use crate::number::decimal;
use crate::number::decimal_usize;
use crate::order::TextSet;
use crate::query::BeatmapFilters;
use crate::repair::RepairIgnoreStore;
#[allow(unused_imports)]
use crate::repair::{ignored, ignored_view, IgnoredView};
use crate::scan::{ParseIssueKind, ScanEvent};
use crate::selection::MapRule;
#[allow(unused_imports)]
use crate::selection::{kept_issues, kept_maps};
use crate::text::{join2, join3};
use vstd::prelude::*;
use vstd::string::*;

verus! {

/// The maps, issues and sets of a library.
#[verifier::ext_equal]
pub struct LibraryView {
    pub maps: Seq<LocalBeatmap>,
    pub problems: Seq<RepairIssue>,
    pub sets: Seq<LocalBeatmapSet>,
}

/// The maps, issues and sets of a scan, if there is one.
pub open spec fn library(scan: Option<LibraryScan>) -> Option<LibraryView> {
    match scan {
        Some(s) => Some(LibraryView { maps: s.maps@, problems: s.problems@, sets: s.sets@ }),
        None => None,
    }
}

/// The library, and how far a scan of it is.
#[derive(Debug)]
pub struct ScanState {
    pub scan: Option<LibraryScan>,
    pub is_scanning: bool,
    /// Whether there is a scan that can be stopped.
    pub stoppable: bool,
    pub current_folder: String,
    pub current_map: String,
    pub scanned_folders: usize,
    pub scanned_maps: usize,
    pub matched_maps: usize,
    pub star_ratings_loaded: usize,
    pub maps_with_stars: usize,
    pub star_parse_error: Option<String>,
}

/// The view of a [`ScanState`].
#[verifier::ext_equal]
pub struct ScanView {
    pub library: Option<LibraryView>,
    pub is_scanning: bool,
    pub stoppable: bool,
    pub current_folder: Seq<char>,
    pub current_map: Seq<char>,
    pub scanned_folders: int,
    pub scanned_maps: int,
    pub matched_maps: int,
    pub star_ratings_loaded: int,
    pub maps_with_stars: int,
    pub star_parse_error: Option<Seq<char>>,
}

impl View for ScanState {
    type V = ScanView;

    open spec fn view(&self) -> ScanView {
        ScanView {
            library: library(self.scan),
            is_scanning: self.is_scanning,
            stoppable: self.stoppable,
            current_folder: self.current_folder@,
            current_map: self.current_map@,
            scanned_folders: self.scanned_folders as int,
            scanned_maps: self.scanned_maps as int,
            matched_maps: self.matched_maps as int,
            star_ratings_loaded: self.star_ratings_loaded as int,
            maps_with_stars: self.maps_with_stars as int,
            star_parse_error: opt_text(self.star_parse_error),
        }
    }
}

/// The issues of a map that are not ignored.
pub open spec fn visible_issues(
    issues: Seq<RepairIssue>,
    map: LocalBeatmap,
    ignores: Seq<IgnoredView>,
) -> Seq<RepairIssue>
    decreases issues.len(),
{
    if issues.len() == 0 {
        seq![]
    } else {
        let rest = visible_issues(issues.drop_last(), map, ignores);
        if ignored(ignores, map, issues.last()@) {
            rest
        } else {
            rest.push(issues.last())
        }
    }
}

/// A name, or nothing.
pub open spec fn name_or_empty(name: Option<String>) -> Seq<char> {
    match name {
        Some(n) => n@,
        None => ""@,
    }
}

/// One, if so.
pub open spec fn unit_if(b: bool) -> int {
    if b {
        1
    } else {
        0
    }
}

/// The state after an event of a scan. Once the scan was told to stop, folders
/// and maps no longer count.
pub open spec fn after_event(
    v: ScanView,
    event: ScanEvent,
    filters: BeatmapFilters,
    only_std: bool,
    ignores: Seq<IgnoredView>,
) -> ScanView {
    match event {
        ScanEvent::Started { songs_dir, star_ratings_loaded, star_parse_error } => ScanView {
            library: Some(
                LibraryView { maps: Seq::empty(), problems: Seq::empty(), sets: Seq::empty() },
            ),
            is_scanning: true,
            stoppable: v.stoppable,
            current_folder: ""@,
            current_map: ""@,
            scanned_folders: 0,
            scanned_maps: 0,
            matched_maps: 0,
            star_ratings_loaded: star_ratings_loaded as int,
            maps_with_stars: 0,
            star_parse_error: opt_text(star_parse_error),
        },
        ScanEvent::Folder { path } => if v.stoppable {
            ScanView {
                scanned_folders: v.scanned_folders + 1,
                current_folder: name_or_empty(path.file_name),
                ..v
            }
        } else {
            v
        },
        ScanEvent::Parsing { path } => if v.stoppable {
            ScanView { current_map: name_or_empty(path.file_name), ..v }
        } else {
            v
        },
        ScanEvent::MapFound { map, issues } => if v.stoppable {
            ScanView {
                scanned_maps: v.scanned_maps + 1,
                maps_with_stars: v.maps_with_stars + unit_if(map.stars is Some),
                matched_maps: v.matched_maps + unit_if(visible(filters, only_std, map)),
                library: match v.library {
                    Some(l) => Some(
                        LibraryView {
                            maps: l.maps.push(map),
                            problems: l.problems + visible_issues(issues@, map, ignores),
                            sets: l.sets,
                        },
                    ),
                    None => None,
                },
                ..v
            }
        } else {
            v
        },
        ScanEvent::Problem { issue } => ScanView {
            library: match v.library {
                Some(l) => Some(LibraryView { problems: l.problems.push(issue), ..l }),
                None => None,
            },
            ..v
        },
        ScanEvent::Finished { sets } => ended(v, sets@),
        ScanEvent::Stopped { sets } => ended(v, sets@),
        ScanEvent::Failed { message } => ScanView { is_scanning: false, stoppable: false, ..v },
    }
}

/// The state at the end of a scan.
pub open spec fn ended(v: ScanView, sets: Seq<LocalBeatmapSet>) -> ScanView {
    ScanView {
        is_scanning: false,
        stoppable: false,
        library: match v.library {
            Some(l) => Some(LibraryView { sets, ..l }),
            None => None,
        },
        ..v
    }
}

/// The text on a library: what is shown of it, and what it holds.
pub open spec fn library_text(
    head: Seq<char>,
    l: LibraryView,
    filters: BeatmapFilters,
    only_std: bool,
) -> Seq<char> {
    head + ": "@ + decimal(visible_count(filters, only_std, l.maps)) + " matching maps from "@
        + decimal(l.maps.len()) + " scanned maps, "@ + decimal(l.sets.len()) + " sets, "@ + decimal(
        l.problems.len(),
    ) + " repair issue(s)"@
}

/// The text at the end of a scan.
pub open spec fn end_text(
    head: Seq<char>,
    v: ScanView,
    filters: BeatmapFilters,
    only_std: bool,
) -> Seq<char> {
    match v.library {
        Some(l) => library_text(head, l, filters, only_std),
        None => head,
    }
}

/// What is said after an event of a scan, where `v` is the state after it.
pub open spec fn event_text(
    v: ScanView,
    event: ScanEvent,
    filters: BeatmapFilters,
    only_std: bool,
) -> Option<Seq<char>> {
    let progress = progress_text(v.scanned_maps as nat, v.matched_maps as nat);
    match event {
        ScanEvent::Started { .. } => Some(progress),
        ScanEvent::Folder { .. } => if v.stoppable {
            Some(progress)
        } else {
            None
        },
        ScanEvent::Parsing { .. } => None,
        ScanEvent::MapFound { .. } => if v.stoppable {
            Some(progress)
        } else {
            None
        },
        ScanEvent::Problem { .. } => None,
        ScanEvent::Finished { .. } => Some(end_text("Scan complete"@, v, filters, only_std)),
        ScanEvent::Stopped { .. } => Some(end_text("Scan stopped"@, v, filters, only_std)),
        ScanEvent::Failed { message } => Some("Scan failed: "@ + message@),
    }
}

/// Whether an event is the last of a scan.
pub open spec fn is_last(event: ScanEvent) -> bool {
    event is Finished || event is Stopped || event is Failed
}

/// Whether an event is the last of a scan.
pub fn ends_scan(event: &ScanEvent) -> (r: bool)
    ensures
        r == is_last(*event),
{
    match event {
        ScanEvent::Finished { .. } | ScanEvent::Stopped { .. } | ScanEvent::Failed { .. } => true,
        _ => false,
    }
}

/// The text on a library.
pub fn library_summary(
    head: &str,
    scan: &LibraryScan,
    filters: &BeatmapFilters,
    only_std: bool,
) -> (r: String)
    ensures
        r@ == library_text(head@, library(Some(*scan))->0, *filters, only_std),
{
    let shown: usize = count_visible(filters, only_std, &scan.maps);
    let mut r = join3(head, ": ", &decimal_usize(shown));
    r.append(" matching maps from ");
    r.append(&decimal_usize(scan.maps.len()));
    r.append(" scanned maps, ");
    r.append(&decimal_usize(scan.sets.len()));
    r.append(" sets, ");
    r.append(&decimal_usize(scan.problems.len()));
    r.append(" repair issue(s)");
    r
}

fn name_text(name: &Option<String>) -> (r: String)
    ensures
        r@ == name_or_empty(*name),
{
    match name {
        Some(n) => n.clone(),
        None => "".to_owned(),
    }
}

fn unit(b: bool) -> (n: usize)
    ensures
        n == unit_if(b),
        n <= 1,
{
    if b {
        1
    } else {
        0
    }
}

/// Adds the issues of a map that are not ignored.
fn add_visible_issues(
    problems: &mut Vec<RepairIssue>,
    issues: &Vec<RepairIssue>,
    map: &LocalBeatmap,
    ignores: &RepairIgnoreStore,
)
    ensures
        final(problems)@ == old(problems)@ + visible_issues(
            issues@,
            *map,
            ignored_view(ignores.entries@),
        ),
{
    let ghost entries = ignored_view(ignores.entries@);
    let mut i: usize = 0;
    assert(problems@ =~= old(problems)@ + visible_issues(issues@.take(0), *map, entries));
    while i < issues.len()
        invariant
            i <= issues@.len(),
            entries == ignored_view(ignores.entries@),
            problems@ == old(problems)@ + visible_issues(issues@.take(i as int), *map, entries),
        decreases issues@.len() - i,
    {
        let ghost before = problems@;
        assert(issues@.take(i as int + 1).drop_last() =~= issues@.take(i as int));
        if !ignores.ignores(map, &issues[i]) {
            problems.push(issues[i].clone());
            assert(problems@ =~= old(problems)@ + visible_issues(
                issues@.take(i as int),
                *map,
                entries,
            ).push(issues@[i as int]));
        }
        i = i + 1;
    }
    assert(issues@.take(i as int) =~= issues@);
}

impl ScanState {
    /// Whether one more folder and one more map can be counted.
    pub open spec fn has_room(self) -> bool {
        self.scanned_folders < usize::MAX && self.scanned_maps < usize::MAX && self.matched_maps
            < usize::MAX && self.maps_with_stars < usize::MAX
    }

    /// Whether one more folder and one more map can be counted.
    pub fn can_count(&self) -> (r: bool)
        ensures
            r == self.has_room(),
    {
        self.scanned_folders < usize::MAX && self.scanned_maps < usize::MAX && self.matched_maps
            < usize::MAX && self.maps_with_stars < usize::MAX
    }

    /// No scan was begun; the library is that of an earlier one, if there is
    /// one.
    pub fn new(scan: Option<LibraryScan>) -> (r: Self)
        ensures
            r.scan == scan,
            r@ == (ScanView {
                library: library(scan),
                is_scanning: false,
                stoppable: false,
                current_folder: ""@,
                current_map: ""@,
                scanned_folders: 0,
                scanned_maps: 0,
                matched_maps: 0,
                star_ratings_loaded: 0,
                maps_with_stars: 0,
                star_parse_error: None,
            }),
    {
        ScanState {
            scan,
            is_scanning: false,
            stoppable: false,
            current_folder: "".to_owned(),
            current_map: "".to_owned(),
            scanned_folders: 0,
            scanned_maps: 0,
            matched_maps: 0,
            star_ratings_loaded: 0,
            maps_with_stars: 0,
            star_parse_error: None,
        }
    }

    fn finish(&mut self, sets: Vec<LocalBeatmapSet>)
        ensures
            final(self)@ == ended(old(self)@, sets@),
    {
        self.is_scanning = false;
        self.stoppable = false;
        if let Some(scan) = &mut self.scan {
            scan.sets = sets;
        }
    }

    fn end_status(&self, head: &str, filters: &BeatmapFilters, only_std: bool) -> (r: String)
        ensures
            r@ == end_text(head@, self@, *filters, only_std),
    {
        match &self.scan {
            Some(scan) => library_summary(head, scan, filters, only_std),
            None => head.to_owned(),
        }
    }

    /// Takes in an event of a scan. Gives what is to be said, if anything.
    pub fn on_event(
        &mut self,
        event: ScanEvent,
        filters: &BeatmapFilters,
        only_std: bool,
        ignores: &RepairIgnoreStore,
    ) -> (status: Option<String>)
        requires
            old(self).has_room(),
        ensures
            final(self)@ == after_event(
                old(self)@,
                event,
                *filters,
                only_std,
                ignored_view(ignores.entries@),
            ),
            opt_text(status) == event_text(final(self)@, event, *filters, only_std),
    {
        match event {
            ScanEvent::Started { songs_dir, star_ratings_loaded, star_parse_error } => {
                self.scan = Some(LibraryScan::default());
                self.is_scanning = true;
                self.current_folder = "".to_owned();
                self.current_map = "".to_owned();
                self.scanned_folders = 0;
                self.scanned_maps = 0;
                self.matched_maps = 0;
                self.star_ratings_loaded = star_ratings_loaded;
                self.maps_with_stars = 0;
                self.star_parse_error = star_parse_error;
                assert(self@ =~= after_event(
                    old(self)@,
                    event,
                    *filters,
                    only_std,
                    ignored_view(ignores.entries@),
                ));
                Some(scan_progress_status(self.scanned_maps, self.matched_maps))
            },
            ScanEvent::Folder { path } => {
                if !self.stoppable {
                    return None;
                }
                self.scanned_folders = self.scanned_folders + 1;
                self.current_folder = name_text(&path.file_name);
                Some(scan_progress_status(self.scanned_maps, self.matched_maps))
            },
            ScanEvent::Parsing { path } => {
                if self.stoppable {
                    self.current_map = name_text(&path.file_name);
                }
                None
            },
            ScanEvent::MapFound { map, issues } => {
                if !self.stoppable {
                    return None;
                }
                self.scanned_maps = self.scanned_maps + 1;
                self.maps_with_stars = self.maps_with_stars + unit(map.stars.is_some());
                self.matched_maps = self.matched_maps + unit(
                    matches_visible_filters(filters, only_std, &map),
                );
                if let Some(scan) = &mut self.scan {
                    add_visible_issues(&mut scan.problems, &issues, &map, ignores);
                    scan.maps.push(map);
                }
                Some(scan_progress_status(self.scanned_maps, self.matched_maps))
            },
            ScanEvent::Problem { issue } => {
                if let Some(scan) = &mut self.scan {
                    scan.problems.push(issue);
                }
                None
            },
            ScanEvent::Finished { sets } => {
                self.finish(sets);
                Some(self.end_status("Scan complete", filters, only_std))
            },
            ScanEvent::Stopped { sets } => {
                self.finish(sets);
                Some(self.end_status("Scan stopped", filters, only_std))
            },
            ScanEvent::Failed { message } => {
                self.is_scanning = false;
                self.stoppable = false;
                Some(join2("Scan failed: ", &message))
            },
        }
    }

    /// Takes in that a scan ended without saying so.
    pub fn on_disconnect(&mut self) -> (status: String)
        ensures
            final(self)@ == (ScanView { is_scanning: false, stoppable: false, ..old(self)@ }),
            final(self).scan == old(self).scan,
            status@ == "Scan worker disconnected"@,
    {
        self.is_scanning = false;
        self.stoppable = false;
        "Scan worker disconnected".to_owned()
    }

    /// Begins a scan, unless one is running. Tells whether it is to begin, and
    /// what is to be said.
    pub fn start_scan(&mut self) -> (r: (bool, String))
        ensures
            r.0 == !old(self).is_scanning,
            final(self)@ == (ScanView { stoppable: old(self).stoppable || r.0, ..old(self)@ }),
            final(self).scan == old(self).scan,
            r.1@ == (if r.0 {
                progress_text(old(self).scanned_maps as nat, old(self).matched_maps as nat)
            } else {
                "A scan is already running"@
            }),
    {
        if self.is_scanning {
            return (false, "A scan is already running".to_owned());
        }
        self.stoppable = true;
        (true, scan_progress_status(self.scanned_maps, self.matched_maps))
    }

    /// Stops a scan, if there is one to stop. Gives what is to be said.
    pub fn stop_scan(&mut self) -> (status: Option<String>)
        ensures
            status is Some == old(self).stoppable,
            old(self).stoppable ==> final(self)@ == (ScanView {
                is_scanning: false,
                stoppable: false,
                ..old(self)@
            }),
            !old(self).stoppable ==> *final(self) == *old(self),
            final(self).scan == old(self).scan,
            status matches Some(t) ==> t@ == "Scan stop requested: "@ + decimal(
                old(self).scanned_maps as nat,
            ) + " maps read, "@ + decimal(old(self).matched_maps as nat)
                + " match current filters"@,
    {
        if !self.stoppable {
            return None;
        }
        self.is_scanning = false;
        self.stoppable = false;
        let mut t = join3(
            "Scan stop requested: ",
            &decimal_usize(self.scanned_maps),
            " maps read, ",
        );
        t.append(&decimal_usize(self.matched_maps));
        t.append(" match current filters");
        Some(t)
    }

    /// Keeps of the library what a rule keeps. The sets are formed anew.
    pub fn keep(&mut self, rule: &MapRule)
        requires
            rule.wf(),
        ensures
            match (library(old(self).scan), library(final(self).scan)) {
                (None, None) => true,
                (Some(before), Some(after)) => after.maps == kept_maps(before.maps, rule@)
                    && after.problems == kept_issues(before.problems, rule@) && sets_of(
                    after.sets,
                    after.maps,
                ),
                _ => false,
            },
            final(self)@ == (ScanView { library: library(final(self).scan), ..old(self)@ }),
    {
        if let Some(scan) = &mut self.scan {
            scan.maps = rule.keep_maps(&scan.maps);
            scan.problems = rule.keep_issues(&scan.problems);
            scan.sets = build_sets(&scan.maps);
        }
    }
}

/// The kinds of issues that a scan leaves out.
pub fn skipped_kinds(skip_parse_timeouts: bool, skip_parse_errors: bool) -> (r: TextSet)
    ensures
        r.wf(),
        forall|kind: ParseIssueKind|
            #[trigger] r@.contains(kind.name()) <==> (match kind {
                ParseIssueKind::Timeout => skip_parse_timeouts,
                ParseIssueKind::ParseError => skip_parse_errors,
            }),
        forall|t: Seq<char>| #[trigger]
            r@.contains(t) ==> t == ParseIssueKind::Timeout.name() || t
                == ParseIssueKind::ParseError.name(),
{
    let mut r = TextSet::new();
    if skip_parse_timeouts {
        r.insert(ParseIssueKind::Timeout.as_str().to_owned());
    }
    if skip_parse_errors {
        r.insert(ParseIssueKind::ParseError.as_str().to_owned());
    }
    proof {
        reveal_strlit("parse_timeout");
        reveal_strlit("parse_error");
        assert("parse_timeout"@.len() != "parse_error"@.len());
    }
    r
}

/// Once a scan was stopped, its folders and maps no longer change anything.
pub proof fn law_stopped_scan_stands_still(
    v: ScanView,
    event: ScanEvent,
    filters: BeatmapFilters,
    only_std: bool,
    ignores: Seq<IgnoredView>,
)
    requires
        !v.stoppable,
        event is Folder || event is Parsing || event is MapFound,
    ensures
        after_event(v, event, filters, only_std, ignores) == v,
{
}

/// The last event of a scan leaves no scan running, and the maps as they were.
pub proof fn law_last_event_ends_scan(
    v: ScanView,
    event: ScanEvent,
    filters: BeatmapFilters,
    only_std: bool,
    ignores: Seq<IgnoredView>,
)
    requires
        is_last(event),
    ensures
        !after_event(v, event, filters, only_std, ignores).is_scanning,
        !after_event(v, event, filters, only_std, ignores).stoppable,
        v.library is Some ==> after_event(v, event, filters, only_std, ignores).library is Some
            && after_event(v, event, filters, only_std, ignores).library->0.maps
            == v.library->0.maps,
{
}

proof fn lemma_visible_issues(
    issues: Seq<RepairIssue>,
    map: LocalBeatmap,
    ignores: Seq<IgnoredView>,
    i: int,
)
    requires
        0 <= i < issues.len(),
        !ignored(ignores, map, issues[i]@),
    ensures
        visible_issues(issues, map, ignores).contains(issues[i]),
    decreases issues.len(),
{
    let rest = visible_issues(issues.drop_last(), map, ignores);
    let now = visible_issues(issues, map, ignores);
    if i < issues.len() - 1 {
        assert(issues.drop_last()[i] == issues[i]);
        lemma_visible_issues(issues.drop_last(), map, ignores, i);
        let j = choose|j: int| 0 <= j < rest.len() && rest[j] == issues[i];
        assert(now[j] == issues[i]);
    } else {
        assert(now[rest.len() as int] == issues[i]);
    }
}

proof fn lemma_visible_issues_only(
    issues: Seq<RepairIssue>,
    map: LocalBeatmap,
    ignores: Seq<IgnoredView>,
)
    ensures
        forall|k: int|
            0 <= k < visible_issues(issues, map, ignores).len() ==> {
                let p = #[trigger] visible_issues(issues, map, ignores)[k];
                issues.contains(p) && !ignored(ignores, map, p@)
            },
    decreases issues.len(),
{
    if issues.len() > 0 {
        let init = issues.drop_last();
        let rest = visible_issues(init, map, ignores);
        let now = visible_issues(issues, map, ignores);
        lemma_visible_issues_only(init, map, ignores);
        assert forall|k: int| 0 <= k < now.len() implies {
            let p = #[trigger] now[k];
            issues.contains(p) && !ignored(ignores, map, p@)
        } by {
            if k < rest.len() {
                assert(now[k] == rest[k]);
                assert(init.contains(rest[k]));
                let j = choose|j: int| 0 <= j < init.len() && init[j] == rest[k];
                assert(issues[j] == now[k]);
            } else {
                assert(issues[issues.len() - 1] == now[k]);
            }
        }
    }
}

/// A map that is found joins the library behind the others, counts as read, as
/// one with stars where it has them and as a match where it is shown; those of its
/// issues that are not ignored join the problems, and no other.
pub proof fn law_found_maps_join(
    v: ScanView,
    map: LocalBeatmap,
    issues: Vec<RepairIssue>,
    filters: BeatmapFilters,
    only_std: bool,
    ignores: Seq<IgnoredView>,
    i: int,
)
    requires
        v.stoppable,
        v.library is Some,
    ensures
        ({
            let now = after_event(
                v,
                (ScanEvent::MapFound { map, issues }),
                filters,
                only_std,
                ignores,
            );
            let before = v.library->0.problems;
            &&& now.library is Some
            &&& now.library->0.maps == v.library->0.maps.push(map)
            &&& now.library->0.sets == v.library->0.sets
            &&& now.scanned_maps == v.scanned_maps + 1
            &&& now.maps_with_stars == v.maps_with_stars + (if map.stars is Some { 1int } else { 0 })
            &&& now.matched_maps == v.matched_maps + (if visible(filters, only_std, map) {
                1int
            } else {
                0
            })
            &&& now.scanned_folders == v.scanned_folders && now.is_scanning == v.is_scanning
                && now.stoppable
            &&& now.library->0.problems.len() >= before.len()
            &&& now.library->0.problems.take(before.len() as int) == before
            &&& 0 <= i < issues@.len() && !ignored(ignores, map, issues@[i]@)
                ==> now.library->0.problems.contains(issues@[i])
            &&& forall|k: int|
                before.len() <= k < now.library->0.problems.len() ==> !ignored(
                    ignores,
                    map,
                    (#[trigger] now.library->0.problems[k])@,
                ) && issues@.contains(now.library->0.problems[k])
        }),
{
    let before = v.library->0.problems;
    let new = visible_issues(issues@, map, ignores);
    let all = before + new;
    assert(all.take(before.len() as int) =~= before);
    lemma_visible_issues_only(issues@, map, ignores);
    if 0 <= i < issues@.len() && !ignored(ignores, map, issues@[i]@) {
        lemma_visible_issues(issues@, map, ignores, i);
        let j = choose|j: int| 0 <= j < new.len() && new[j] == issues@[i];
        assert(all[before.len() + j] == issues@[i]);
    }
    assert forall|k: int| before.len() <= k < all.len() implies !ignored(
        ignores,
        map,
        (#[trigger] all[k])@,
    ) && issues@.contains(all[k]) by {
        assert(all[k] == new[k - before.len()]);
    }
}

/// A scan begins with an empty library and all counts at zero; a problem joins
/// the problems; and at the end of a scan the library has its sets.
pub proof fn law_course_of_scan(
    v: ScanView,
    songs_dir: crate::local::FilePath,
    n: usize,
    error: Option<String>,
    issue: RepairIssue,
    sets: Vec<LocalBeatmapSet>,
    folder: crate::local::FilePath,
    filters: BeatmapFilters,
    only_std: bool,
    ignores: Seq<IgnoredView>,
)
    requires
        v.library is Some,
        v.stoppable,
    ensures
        ({
            let begun = after_event(
                v,
                (ScanEvent::Started {
                    songs_dir,
                    star_ratings_loaded: n,
                    star_parse_error: error,
                }),
                filters,
                only_std,
                ignores,
            );
            &&& begun.is_scanning && begun.library is Some
            &&& begun.library->0.maps.len() == 0 && begun.library->0.problems.len() == 0
                && begun.library->0.sets.len() == 0
            &&& begun.scanned_folders == 0 && begun.scanned_maps == 0 && begun.matched_maps == 0
                && begun.maps_with_stars == 0
            &&& begun.star_ratings_loaded == n && begun.star_parse_error == opt_text(error)
        }),
        ({
            let now = after_event(v, (ScanEvent::Problem { issue }), filters, only_std, ignores);
            &&& now.library is Some && now.library->0.problems == v.library->0.problems.push(issue)
            &&& now.library->0.maps == v.library->0.maps && now.scanned_maps == v.scanned_maps
        }),
        ({
            let now = after_event(
                v,
                (ScanEvent::Folder { path: folder }),
                filters,
                only_std,
                ignores,
            );
            now.scanned_folders == v.scanned_folders + 1 && now.library == v.library
                && now.scanned_maps == v.scanned_maps
        }),
        ({
            let now = after_event(v, (ScanEvent::Finished { sets }), filters, only_std, ignores);
            let stopped = after_event(v, (ScanEvent::Stopped { sets }), filters, only_std, ignores);
            &&& !now.is_scanning && now.library is Some && now.library->0.sets == sets@
            &&& now.library->0.maps == v.library->0.maps && now.library->0.problems
                == v.library->0.problems
            &&& stopped == now
        }),
{
}

} // verus!
