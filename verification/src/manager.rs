//! The state of the program, and what every event, answer and command does to
//! it.
use crate::background::BackgroundState;
#[allow(unused_imports)]
use crate::caches::{lemma_events_extend, maps_of, problems_of};
use crate::caches::{JobsCache, ShownCache};
use crate::collection::CollectionEntry;
use crate::display::{DeleteIntent, DeleteModeSelection};
#[allow(unused_imports)]
use crate::display::visible_places;
use crate::local::LibraryScan;
#[allow(unused_imports)]
use crate::local::{sets_of, LocalBeatmap};
use crate::measure::Real32;
use crate::number::{decimal_signed, decimal_usize};
#[allow(unused_imports)]
use crate::number::{decimal, decimal_int};
use crate::paths::PathSet;
#[allow(unused_imports)]
use crate::query::{is_full, ModeFilter};
use crate::query::{BeatmapFilters, RangeFilter, BPM_MAX_BITS, STARS_MAX_BITS};
#[allow(unused_imports)]
use crate::repair::{ignored_view, ignores_with, jobs_for};
use crate::repair::{FilesExist, RepairEvent, RepairIgnoreStore};
use crate::repair_state::RepairState;
#[allow(unused_imports)]
use crate::repair_state::{after_repair_event, issues_to_ignore, no_repair, repair_event_text};
use crate::scan::ScanEvent;
#[allow(unused_imports)]
use crate::scan_state::{after_event, event_text, is_last, library, library_text, ScanView};
use crate::scan_state::{ends_scan, library_summary, ScanState};
#[allow(unused_imports)]
use crate::selection::{kept_issues, kept_maps, md5s_of, RuleView};
use crate::selection::{find_md5, MapRule, Selection};
use crate::text::{chars_of, join2, join3, trim};
#[allow(unused_imports)]
use crate::text::trim_text;
use crate::update_run::{UpdateCheckEvent, UpdateEvent};
#[allow(unused_imports)]
use crate::update_state::{
    after_check_event, after_update_event, countable, no_updates, outdated_at, update_event_text,
    UpdateView,
};
use crate::update_state::UpdateState;
#[allow(unused_imports)]
use crate::updates::{checkable, checked_by, law_targets_of_checkable_maps, OutdatedSet};
use crate::updates::{build_check_targets, CheckTarget, UpdateJob};
use vstd::prelude::*;
use vstd::string::*;

verus! {

/// The bits of the lowest star rating and of the highest tempo that are shown
/// at first: 6 and 180.
pub const FIRST_STARS_BITS: u32 = 0x40c0_0000;

pub const FIRST_BPM_BITS: u32 = 0x4334_0000;

/// The bits of infinity: an upper end that excludes no number.
pub const NO_LIMIT_BITS: u32 = 0x7f80_0000;

/// The backend at first.
pub const DEFAULT_BACKEND_URL: &'static str = "https://osu-map-manager.stanislavberman.workers.dev";

/// The name of a new collection at first.
pub const DEFAULT_COLLECTION_NAME: &'static str = "osu-map-manager";

/// Whether the user is signed in with osu!.
#[derive(Debug)]
pub struct SignIn {
    pub signed_in: bool,
    pub status: String,
    pub pending_url: Option<String>,
    pub is_signing_in: bool,
}

/// The state of the program.
#[derive(Debug)]
pub struct MapManagerApp {
    pub filters: BeatmapFilters,
    pub only_osu_std: bool,
    pub osu_root: String,
    pub songs_dir: String,
    pub backend_url: String,
    pub skip_parse_timeouts: bool,
    pub skip_parse_errors: bool,
    pub delete_modes: DeleteModeSelection,
    pub library: ScanState,
    pub selection: Selection,
    pub collection_name: String,
    pub collections: Vec<CollectionEntry>,
    pub selected_collection: Option<usize>,
    pub repair: RepairState,
    pub ignores: RepairIgnoreStore,
    pub updates: UpdateState,
    pub sign_in: SignIn,
    pub background: BackgroundState,
    pub shown: ShownCache,
    pub jobs: JobsCache,
    pub expanded_md5: Option<String>,
    pub confirmation: Option<DeleteIntent>,
    pub status: String,
}

/// Whether filters are those at first: six stars or more without a limit, at
/// most 180 beats per minute, any mode.
pub open spec fn is_first(f: BeatmapFilters) -> bool {
    &&& f.stars == (RangeFilter {
        enabled: true,
        min: Real32 { bits: FIRST_STARS_BITS },
        max: Real32 { bits: NO_LIMIT_BITS },
    })
    &&& f.bpm == (RangeFilter {
        enabled: true,
        min: Real32 { bits: 0 },
        max: Real32 { bits: FIRST_BPM_BITS },
    })
    &&& is_full(
        (BeatmapFilters {
            stars: RangeFilter {
                enabled: false,
                min: Real32 { bits: 0 },
                max: Real32 { bits: STARS_MAX_BITS },
            },
            bpm: RangeFilter {
                enabled: false,
                min: Real32 { bits: 0 },
                max: Real32 { bits: BPM_MAX_BITS },
            },
            ..f
        }),
    )
    &&& f.mode == ModeFilter::Any
}

/// The filters at first.
pub fn first_filters() -> (r: BeatmapFilters)
    ensures
        is_first(r),
{
    let mut r = BeatmapFilters::with_full_ranges();
    r.mode = ModeFilter::Any;
    r.stars.enabled = true;
    r.stars.min = Real32 { bits: FIRST_STARS_BITS };
    r.stars.max = Real32 { bits: NO_LIMIT_BITS };
    r.bpm.enabled = true;
    r.bpm.max = Real32 { bits: FIRST_BPM_BITS };
    r
}

/// What is said of the sign-in where nothing was done yet.
pub open spec fn first_sign_in_text(signed_in: bool) -> Seq<char> {
    if signed_in {
        "Signed in with osu! (token loaded from disk)"@
    } else {
        "Not signed in with osu!"@
    }
}

fn first_sign_in(signed_in: bool) -> (r: SignIn)
    ensures
        r.signed_in == signed_in,
        r.status@ == first_sign_in_text(signed_in),
        r.pending_url is None,
        !r.is_signing_in,
{
    SignIn {
        signed_in,
        status: if signed_in {
            "Signed in with osu! (token loaded from disk)".to_owned()
        } else {
            "Not signed in with osu!".to_owned()
        },
        pending_url: None,
        is_signing_in: false,
    }
}

/// What is said when work on sets begins.
pub open spec fn starting_text(what: Seq<char>, n: nat) -> Seq<char> {
    "Starting "@ + what + " for "@ + decimal(n) + " beatmapset(s)"@
}

fn starting(what: &str, n: usize) -> (r: String)
    ensures
        r@ == starting_text(what@, n as nat),
{
    join3(&join3("Starting ", what, " for "), &decimal_usize(n), " beatmapset(s)")
}

/// Whether the same background is shown, as far as it is decoded.
pub open spec fn same_preview(a: BackgroundState, b: BackgroundState) -> bool {
    &&& a.preview_path == b.preview_path
    &&& a.preview_ready == b.preview_ready
    &&& a.preview_error == b.preview_error
}

/// Without folders and files to drop, all maps stay.
proof fn lemma_nothing_goes(maps: Seq<LocalBeatmap>, rule: RuleView)
    requires
        !rule.only_std,
        rule.folders.is_empty(),
        rule.files.is_empty(),
    ensures
        kept_maps(maps, rule) == maps,
    decreases maps.len(),
{
    if maps.len() > 0 {
        lemma_nothing_goes(maps.drop_last(), rule);
        assert(maps.drop_last().push(maps.last()) =~= maps);
    } else {
        assert(kept_maps(maps, rule) =~= maps);
    }
}

impl MapManagerApp {
    /// What holds at all times: every part is in order, what was worked out
    /// from the library still holds, and the selected collection is one of the
    /// collections.
    pub open spec fn wf(self) -> bool {
        &&& self.selection.wf()
        &&& self.repair.wf()
        &&& self.updates.wf()
        &&& self.background.wf()
        &&& self.shown.valid(self.library.scan)
        &&& self.jobs.valid(self.library.scan)
        &&& self.selected_collection matches Some(i) ==> i < self.collections@.len()
    }

    /// The program at its start, where the last scan may be known.
    pub fn new(
        osu_root: String,
        songs_dir: String,
        cached_scan: Option<LibraryScan>,
        ignores: RepairIgnoreStore,
        signed_in: bool,
    ) -> (r: Self)
        ensures
            r.wf(),
            r.osu_root == osu_root,
            r.songs_dir == songs_dir,
            r.library@ == (ScanView {
                library: library(cached_scan),
                is_scanning: false,
                stoppable: false,
                current_folder: ""@,
                current_map: ""@,
                scanned_folders: 0,
                scanned_maps: 0,
                matched_maps: 0,
                star_ratings_loaded: 0,
                maps_with_stars: 0,
                star_parse_error: None,
            }),
            r.library.scan == cached_scan,
            r.ignores == ignores,
            r.only_osu_std,
            r.delete_modes == (DeleteModeSelection { taiko: true, catch: true, mania: true }),
            !r.skip_parse_timeouts && !r.skip_parse_errors,
            r.backend_url@ == DEFAULT_BACKEND_URL@,
            r.collection_name@ == DEFAULT_COLLECTION_NAME@,
            r.collections@.len() == 0,
            r.selected_collection is None,
            r.selection.maps@.len() == 0,
            r.selection.md5s@ == Set::<Seq<char>>::empty(),
            r.selection.missing@.len() == 0,
            r.sign_in.signed_in == signed_in,
            r.sign_in.status@ == first_sign_in_text(signed_in),
            r.sign_in.pending_url is None && !r.sign_in.is_signing_in,
            r.repair@ == no_repair(),
            r.updates@ == no_updates(),
            r.background.preview_path is None,
            r.background.kept@.len() == 0 && r.background.in_flight.items@.len() == 0,
            r.shown.key is None && r.jobs.key is None,
            is_first(r.filters),
            r.expanded_md5 is None && r.confirmation is None,
            r.status@ == (match library(cached_scan) {
                Some(l) => library_text("Loaded cached scan"@, l, r.filters, true),
                None => "Ready"@,
            }),
    {
        let filters = first_filters();
        let status = match &cached_scan {
            Some(scan) => library_summary("Loaded cached scan", scan, &filters, true),
            None => "Ready".to_owned(),
        };
        MapManagerApp {
            filters,
            only_osu_std: true,
            osu_root,
            songs_dir,
            backend_url: DEFAULT_BACKEND_URL.to_owned(),
            skip_parse_timeouts: false,
            skip_parse_errors: false,
            delete_modes: DeleteModeSelection { taiko: true, catch: true, mania: true },
            library: ScanState::new(cached_scan),
            selection: Selection::new(),
            collection_name: DEFAULT_COLLECTION_NAME.to_owned(),
            collections: Vec::new(),
            selected_collection: None,
            repair: RepairState::new(),
            ignores,
            updates: UpdateState::new(),
            sign_in: first_sign_in(signed_in),
            background: BackgroundState::new(),
            shown: ShownCache::new(),
            jobs: JobsCache::new(),
            expanded_md5: None,
            confirmation: None,
            status,
        }
    }

    // ---- what was worked out ----

    /// Forgets what was worked out from the library.
    pub fn invalidate_scan_caches(&mut self)
        ensures
            *final(self) == (MapManagerApp {
                shown: final(self).shown,
                jobs: final(self).jobs,
                ..*old(self)
            }),
            final(self).shown.key is None && final(self).shown.places@.len() == 0,
            final(self).jobs.key is None && final(self).jobs.jobs@.len() == 0,
    {
        self.shown = ShownCache::new();
        self.jobs = JobsCache::new();
    }

    /// Works out which maps to show, unless that is known.
    pub fn refresh_filtered_maps(&mut self)
        requires
            old(self).wf(),
        ensures
            final(self).wf(),
            *final(self) == (MapManagerApp { shown: final(self).shown, ..*old(self) }),
            final(self).shown.places@ == visible_places(
                old(self).filters,
                old(self).only_osu_std,
                maps_of(old(self).library.scan),
            ),
    {
        self.shown.refresh(&self.filters, self.only_osu_std, &self.library.scan);
    }

    /// Works out the repairs, unless they are known.
    pub fn refresh_repair_jobs(&mut self, exist: &Vec<FilesExist>)
        requires
            old(self).wf(),
            exist@.len() == maps_of(old(self).library.scan).len(),
        ensures
            final(self).wf(),
            *final(self) == (MapManagerApp { jobs: final(self).jobs, ..*old(self) }),
            !final(self).jobs.stale(old(self).library.scan),
            if old(self).jobs.stale(old(self).library.scan) {
                jobs_for(
                    final(self).jobs.jobs@,
                    maps_of(old(self).library.scan),
                    exist@,
                    problems_of(old(self).library.scan),
                )
            } else {
                final(self).jobs == old(self).jobs
            },
    {
        self.jobs.refresh(&self.library.scan, exist);
    }

    // ---- the scan ----

    /// Begins a scan, unless one is running. Tells whether it is to begin. The
    /// backgrounds that are kept are forgotten.
    pub fn start_scan(&mut self) -> (begin: bool)
        requires
            old(self).wf(),
        ensures
            final(self).wf(),
            begin == !old(self).library.is_scanning,
            final(self).library@ == (ScanView {
                stoppable: old(self).library.stoppable || begin,
                ..old(self).library@
            }),
            final(self).library.scan == old(self).library.scan,
            final(self).status@ == (if begin {
                crate::display::progress_text(
                    old(self).library.scanned_maps as nat,
                    old(self).library.matched_maps as nat,
                )
            } else {
                "A scan is already running"@
            }),
            begin ==> final(self).background.kept@.len() == 0
                && final(self).background.in_flight.items@.len() == 0,
            !begin ==> final(self).background == old(self).background,
            final(self).background == (BackgroundState {
                kept: final(self).background.kept,
                in_flight: final(self).background.in_flight,
                ..old(self).background
            }),
            *final(self) == (MapManagerApp {
                library: final(self).library,
                background: final(self).background,
                status: final(self).status,
                ..*old(self)
            }),
    {
        let (begin, status) = self.library.start_scan();
        self.status = status;
        if begin {
            self.background.forget();
        }
        begin
    }

    /// Stops the scan, if there is one to stop. Tells whether there is.
    pub fn stop_scan(&mut self) -> (stop: bool)
        requires
            old(self).wf(),
        ensures
            final(self).wf(),
            stop == old(self).library.stoppable,
            !stop ==> *final(self) == *old(self),
            stop ==> {
                &&& *final(self) == (MapManagerApp {
                    library: final(self).library,
                    status: final(self).status,
                    ..*old(self)
                })
                &&& final(self).library@ == (ScanView {
                    is_scanning: false,
                    stoppable: false,
                    ..old(self).library@
                })
                &&& final(self).status@ == "Scan stop requested: "@ + decimal(
                    old(self).library.scanned_maps as nat,
                ) + " maps read, "@ + decimal(old(self).library.matched_maps as nat)
                    + " match current filters"@
            },
    {
        match self.library.stop_scan() {
            Some(status) => {
                self.status = status;
                true
            },
            None => false,
        }
    }

    /// Takes in an event of a scan. Tells whether it is the last. The beginning
    /// of a scan empties the library, the selection and the preview.
    pub fn on_scan_event(&mut self, event: ScanEvent) -> (last: bool)
        requires
            old(self).wf(),
            old(self).library.has_room(),
        ensures
            final(self).wf(),
            last == is_last(event),
            final(self).library@ == after_event(
                old(self).library@,
                event,
                old(self).filters,
                old(self).only_osu_std,
                ignored_view(old(self).ignores.entries@),
            ),
            final(self).status@ == (match event_text(
                final(self).library@,
                event,
                old(self).filters,
                old(self).only_osu_std,
            ) {
                Some(t) => t,
                None => old(self).status@,
            }),
            !(event is Started) ==> *final(self) == (MapManagerApp {
                library: final(self).library,
                status: final(self).status,
                ..*old(self)
            }),
            event is Started ==> {
                &&& final(self).expanded_md5 is None
                &&& final(self).background == (BackgroundState {
                    preview_path: None,
                    preview_ready: false,
                    preview_error: None,
                    ..old(self).background
                })
                &&& final(self).selection.maps@.len() == 0
                &&& final(self).selection.md5s@.is_empty()
                &&& final(self).selection.missing == old(self).selection.missing
                &&& final(self).shown.key is None && final(self).shown.places@.len() == 0
                &&& final(self).jobs.key is None && final(self).jobs.jobs@.len() == 0
                &&& *final(self) == (MapManagerApp {
                    library: final(self).library,
                    status: final(self).status,
                    expanded_md5: final(self).expanded_md5,
                    background: final(self).background,
                    selection: final(self).selection,
                    shown: final(self).shown,
                    jobs: final(self).jobs,
                    ..*old(self)
                })
            },
    {
        let last = ends_scan(&event);
        let begins = match &event {
            ScanEvent::Started { .. } => true,
            _ => false,
        };
        let ghost before = self.library;
        let status = self.library.on_event(event, &self.filters, self.only_osu_std, &self.ignores);
        if let Some(text) = status {
            self.status = text;
        }
        if begins {
            self.expanded_md5 = None;
            self.background.clear_background_preview();
            self.selection.clear_selection();
            self.invalidate_scan_caches();
        } else {
            proof {
                lemma_events_extend(
                    before,
                    self.library,
                    event,
                    self.filters,
                    self.only_osu_std,
                    ignored_view(self.ignores.entries@),
                );
                self.shown.lemma_valid_after(before.scan, self.library.scan);
                self.jobs.lemma_valid_after(before.scan, self.library.scan);
            }
        }
        last
    }

    /// Takes in that a scan could not be kept.
    pub fn on_scan_not_kept(&mut self, error: &str)
        ensures
            *final(self) == (MapManagerApp { status: final(self).status, ..*old(self) }),
            final(self).status@ == old(self).status@ + "; cache save failed: "@ + error@,
    {
        self.status = join3(&self.status, "; cache save failed: ", error);
    }

    /// Takes in that a scan ended without saying so.
    pub fn on_scan_disconnect(&mut self)
        requires
            old(self).wf(),
        ensures
            final(self).wf(),
            *final(self) == (MapManagerApp {
                library: final(self).library,
                status: final(self).status,
                ..*old(self)
            }),
            final(self).library@ == (ScanView {
                is_scanning: false,
                stoppable: false,
                ..old(self).library@
            }),
            final(self).status@ == "Scan worker disconnected"@,
    {
        self.status = self.library.on_disconnect();
    }

    /// Whether the map with a checksum is no longer in the library.
    fn is_gone(&self, md5: &str) -> (r: bool)
        ensures
            r == !md5s_of(maps_of(self.library.scan)).contains(md5@),
    {
        match &self.library.scan {
            Some(scan) => {
                let ghost all = md5s_of(scan.maps@);
                let found = find_md5(&scan.maps, md5);
                proof {
                    if let Some(i) = found {
                        assert(all[i as int] == md5@);
                    } else if all.contains(md5@) {
                        let k = choose|k: int| 0 <= k < all.len() && all[k] == md5@;
                        assert(scan.maps@[k].md5@ == md5@);
                    }
                }
                found.is_none()
            },
            None => true,
        }
    }

    /// Drops everything in folders from the library, so that the next scan
    /// reads their files again, and from the selection. What is shown of a map
    /// that goes is no longer shown.
    pub fn prune_scan_folders(&mut self, folders: PathSet)
        requires
            old(self).wf(),
            folders.wf(),
        ensures
            final(self).wf(),
            old(self).library.scan is None ==> *final(self) == *old(self),
            old(self).library.scan is Some ==> {
                let rule = RuleView {
                    only_std: false,
                    folders: folders@,
                    files: Set::empty(),
                };
                &&& final(self).kept_by(*old(self), rule)
                &&& final(self).selection.maps@ == kept_maps(old(self).selection.maps@, rule)
                &&& final(self).preview_after(*old(self))
                &&& final(self).status == old(self).status
            },
    {
        if self.library.scan.is_none() {
            return ;
        }
        let rule = MapRule::outside(folders);
        self.library.keep(&rule);
        self.selection.retain_selected_maps(&rule);
        self.drop_lost_preview();
        self.invalidate_scan_caches();
    }

    /// Whether the library is what a rule keeps of that before, the selection
    /// is in step, what was worked out is forgotten, and all else, other than
    /// the preview and the status, is as before.
    pub open spec fn kept_by(self, before: MapManagerApp, rule: RuleView) -> bool {
        &&& self.library.scan is Some
        &&& maps_of(self.library.scan) == kept_maps(maps_of(before.library.scan), rule)
        &&& problems_of(self.library.scan) == kept_issues(problems_of(before.library.scan), rule)
        &&& sets_of(self.library.scan->0.sets@, maps_of(self.library.scan))
        &&& self.library@ == (ScanView { library: library(self.library.scan), ..before.library@ })
        &&& self.selection.md5s@ == md5s_of(self.selection.maps@).to_set()
        &&& self.selection.missing == before.selection.missing
        &&& self.shown.key is None && self.shown.places@.len() == 0
        &&& self.jobs.key is None && self.jobs.jobs@.len() == 0
        &&& self == (MapManagerApp {
            library: self.library,
            selection: self.selection,
            shown: self.shown,
            jobs: self.jobs,
            background: self.background,
            expanded_md5: self.expanded_md5,
            status: self.status,
            ..before
        })
    }

    /// Whether the preview is as before, or, where its map left the library,
    /// gone.
    pub open spec fn preview_after(self, before: MapManagerApp) -> bool {
        let lost = before.expanded_md5 is Some && !md5s_of(maps_of(self.library.scan)).contains(
            before.expanded_md5->0@,
        );
        if lost {
            &&& self.expanded_md5 is None
            &&& self.background == (BackgroundState {
                preview_path: None,
                preview_ready: false,
                preview_error: None,
                ..before.background
            })
        } else {
            self.expanded_md5 == before.expanded_md5 && self.background == before.background
        }
    }

    fn drop_lost_preview(&mut self)
        requires
            old(self).background.wf(),
        ensures
            final(self).background.wf(),
            final(self).preview_after(*old(self)),
            *final(self) == (MapManagerApp {
                expanded_md5: final(self).expanded_md5,
                background: final(self).background,
                ..*old(self)
            }),
    {
        let lost = match &self.expanded_md5 {
            Some(md5) => self.is_gone(md5),
            None => false,
        };
        if lost {
            self.expanded_md5 = None;
            self.background.clear_background_preview();
        }
    }

    // ---- repairs ----

    /// Takes in an event of a repair. Gives how many issues are ignored from
    /// now on.
    pub fn on_repair_event(&mut self, event: RepairEvent) -> (added: usize)
        requires
            old(self).wf(),
            old(self).repair.done < usize::MAX,
        ensures
            final(self).wf(),
            *final(self) == (MapManagerApp {
                repair: final(self).repair,
                ignores: final(self).ignores,
                status: final(self).status,
                ..*old(self)
            }),
            final(self).repair@ == after_repair_event(old(self).repair@, event, added as nat),
            final(self).status@ == repair_event_text(final(self).repair@, event),
            ignored_view(final(self).ignores.entries@) == ignores_with(
                ignored_view(old(self).ignores.entries@),
                issues_to_ignore(event),
            ),
            final(self).ignores.entries@.len() == old(self).ignores.entries@.len() + added,
    {
        let (status, added) = self.repair.on_event(event, &mut self.ignores);
        self.status = status;
        added
    }

    /// Takes in that a repair ended without saying so.
    pub fn on_repair_disconnect(&mut self)
        requires
            old(self).wf(),
        ensures
            final(self).wf(),
            *final(self) == (MapManagerApp {
                repair: RepairState { is_repairing: false, ..old(self).repair },
                status: final(self).status,
                ..*old(self)
            }),
            final(self).status@ == "Repair worker disconnected"@,
    {
        self.status = self.repair.on_disconnect();
    }

    /// Whether a repair of all sets can begin; if not, that is said.
    pub fn start_repair_all(&mut self) -> (begin: bool)
        requires
            old(self).wf(),
        ensures
            final(self).wf(),
            *final(self) == (MapManagerApp { status: final(self).status, ..*old(self) }),
            begin == (!old(self).repair.is_repairing && old(self).library.scan is Some && old(
                self,
            ).jobs.jobs@.len() > 0),
            final(self).status@ == (if old(self).repair.is_repairing {
                "A repair job is already running"@
            } else if old(self).library.scan is None {
                "Scan your Songs directory before repairing maps"@
            } else if old(self).jobs.jobs@.len() == 0 {
                "No repairable corrupted beatmapsets found"@
            } else {
                starting_text("repair"@, old(self).jobs.jobs@.len())
            }),
    {
        if self.repair.is_repairing {
            self.status = "A repair job is already running".to_owned();
            return false;
        }
        if self.library.scan.is_none() {
            self.status = "Scan your Songs directory before repairing maps".to_owned();
            return false;
        }
        let n: usize = self.jobs.jobs.len();
        if n == 0 {
            self.status = "No repairable corrupted beatmapsets found".to_owned();
            return false;
        }
        self.status = starting("repair", n);
        true
    }

    /// The place of the repair of a set, if it can begin; if not, that is said.
    pub fn start_repair_single(&mut self, beatmapset_id: i64) -> (r: Option<usize>)
        requires
            old(self).wf(),
        ensures
            final(self).wf(),
            *final(self) == (MapManagerApp { status: final(self).status, ..*old(self) }),
            match r {
                Some(i) => {
                    &&& !old(self).repair.is_repairing
                    &&& i < old(self).jobs.jobs@.len()
                    &&& old(self).jobs.jobs@[i as int].beatmapset_id == beatmapset_id
                    &&& forall|k: int|
                        0 <= k < i ==> (#[trigger] old(self).jobs.jobs@[k]).beatmapset_id
                            != beatmapset_id
                    &&& final(self).status@ == starting_text("repair"@, 1)
                },
                None => {
                    &&& old(self).repair.is_repairing || forall|k: int|
                        0 <= k < old(self).jobs.jobs@.len() ==> (
                        #[trigger] old(self).jobs.jobs@[k]).beatmapset_id != beatmapset_id
                    &&& final(self).status@ == (if old(self).repair.is_repairing {
                        "A repair job is already running"@
                    } else {
                        "No repair job found for set "@ + decimal_int(beatmapset_id as int)
                    })
                },
            },
    {
        if self.repair.is_repairing {
            self.status = "A repair job is already running".to_owned();
            return None;
        }
        let mut i: usize = 0;
        while i < self.jobs.jobs.len() && self.jobs.jobs[i].beatmapset_id != beatmapset_id
            invariant
                i <= self.jobs.jobs@.len(),
                *self == *old(self),
                forall|k: int|
                    0 <= k < i ==> (#[trigger] old(self).jobs.jobs@[k]).beatmapset_id
                        != beatmapset_id,
            decreases self.jobs.jobs@.len() - i,
        {
            i = i + 1;
        }
        if i < self.jobs.jobs.len() {
            self.status = starting("repair", 1);
            return Some(i);
        }
        self.status = join2("No repair job found for set ", &decimal_signed(beatmapset_id));
        None
    }

    // ---- updates ----

    /// Takes in an event of a check for updates.
    pub fn on_check_event(&mut self, event: UpdateCheckEvent)
        requires
            old(self).wf(),
            old(self).updates.unavailable < usize::MAX,
            countable(event),
        ensures
            final(self).wf(),
            *final(self) == (MapManagerApp {
                updates: final(self).updates,
                status: final(self).status,
                ..*old(self)
            }),
            final(self).updates@ == after_check_event(old(self).updates@, event),
            final(self).status@ == (match event {
                UpdateCheckEvent::Found(_) => old(self).status@,
                UpdateCheckEvent::Unavailable { .. } => old(self).status@,
                _ => final(self).updates@.check_status,
            }),
    {
        if let Some(status) = self.updates.on_check_event(event) {
            self.status = status;
        }
    }

    /// Takes in that a check for updates ended without saying so.
    pub fn on_check_disconnect(&mut self)
        requires
            old(self).wf(),
        ensures
            final(self).wf(),
            *final(self) == (MapManagerApp {
                updates: UpdateState { is_checking: false, ..old(self).updates },
                status: final(self).status,
                ..*old(self)
            }),
            final(self).status@ == "Update check worker disconnected"@,
    {
        self.status = self.updates.on_check_disconnect();
    }

    /// Takes in an event of the updates other than the last.
    pub fn on_update_event(&mut self, event: UpdateEvent)
        requires
            old(self).wf(),
            old(self).updates.done < usize::MAX,
            !(event is Finished),
        ensures
            final(self).wf(),
            *final(self) == (MapManagerApp {
                updates: final(self).updates,
                status: final(self).status,
                ..*old(self)
            }),
            final(self).updates@ == after_update_event(old(self).updates@, event),
            final(self).status@ == update_event_text(final(self).updates@, event),
    {
        let (status, _) = self.updates.on_update_event(event);
        self.status = status;
    }

    /// Takes in that all updates are done: what was updated is dropped from the
    /// library and is to be scanned again. Tells whether a scan is to begin.
    pub fn on_updates_finished(&mut self) -> (scan: bool)
        requires
            old(self).wf(),
            old(self).updates.done < usize::MAX,
        ensures
            final(self).wf(),
            final(self).updates@ == after_update_event(
                old(self).updates@,
                UpdateEvent::Finished,
            ),
            scan == (!old(self).updates.touched@.is_empty() && !old(self).library.is_scanning),
            old(self).updates.touched@.is_empty() ==> *final(self) == (MapManagerApp {
                updates: final(self).updates,
                status: final(self).status,
                ..*old(self)
            }),
            old(self).library.scan is Some ==> maps_of(final(self).library.scan) == kept_maps(
                maps_of(old(self).library.scan),
                (RuleView {
                    only_std: false,
                    folders: old(self).updates.touched@,
                    files: Set::empty(),
                }),
            ),
            final(self).status@ == (if scan {
                crate::display::progress_text(
                    old(self).library.scanned_maps as nat,
                    old(self).library.matched_maps as nat,
                )
            } else if old(self).updates.touched@.is_empty() {
                update_event_text(final(self).updates@, UpdateEvent::Finished)
            } else {
                update_event_text(final(self).updates@, UpdateEvent::Finished)
                    + "; rescanning updated files"@
            }),
            !old(self).updates.touched@.is_empty() && old(self).library.scan is Some ==> {
                let rule = RuleView {
                    only_std: false,
                    folders: old(self).updates.touched@,
                    files: Set::empty(),
                };
                let lost = old(self).expanded_md5 is Some && !md5s_of(
                    maps_of(final(self).library.scan),
                ).contains(old(self).expanded_md5->0@);
                &&& problems_of(final(self).library.scan) == kept_issues(
                    problems_of(old(self).library.scan),
                    rule,
                )
                &&& sets_of(
                    final(self).library.scan->0.sets@,
                    maps_of(final(self).library.scan),
                )
                &&& final(self).selection.maps@ == kept_maps(old(self).selection.maps@, rule)
                &&& final(self).selection.md5s@ == md5s_of(final(self).selection.maps@).to_set()
                &&& final(self).selection.missing == old(self).selection.missing
                &&& final(self).shown.key is None && final(self).jobs.key is None
                &&& final(self).expanded_md5 == (if lost {
                    None
                } else {
                    old(self).expanded_md5
                })
                &&& if lost {
                    &&& final(self).background.preview_path is None
                    &&& !final(self).background.preview_ready
                    &&& final(self).background.preview_error is None
                } else {
                    same_preview(final(self).background, old(self).background)
                }
            },
            old(self).library.scan is None ==> {
                &&& final(self).library.scan is None
                &&& final(self).selection == old(self).selection
                &&& final(self).expanded_md5 == old(self).expanded_md5
                &&& final(self).shown == old(self).shown && final(self).jobs == old(self).jobs
                &&& same_preview(final(self).background, old(self).background)
            },
            scan ==> final(self).background.kept@.len() == 0
                && final(self).background.in_flight.items@.len() == 0,
            !scan ==> final(self).background.kept == old(self).background.kept
                && final(self).background.in_flight == old(self).background.in_flight,
            final(self).library@ == (ScanView {
                library: library(final(self).library.scan),
                stoppable: scan || old(self).library.stoppable,
                ..old(self).library@
            }),
            *final(self) == (MapManagerApp {
                updates: final(self).updates,
                status: final(self).status,
                library: final(self).library,
                selection: final(self).selection,
                background: final(self).background,
                shown: final(self).shown,
                jobs: final(self).jobs,
                expanded_md5: final(self).expanded_md5,
                ..*old(self)
            }),
    {
        let (status, touched) = self.updates.on_update_event(UpdateEvent::Finished);
        self.status = status;
        assert(touched@ == old(self).updates.touched@);
        if touched.items.len() == 0 {
            proof {
                let none = RuleView {
                    only_std: false,
                    folders: old(self).updates.touched@,
                    files: Set::empty(),
                };
                assert(touched@ =~= Set::empty());
                lemma_nothing_goes(maps_of(old(self).library.scan), none);
            }
            return false;
        }
        proof {
            let key = touched.items@[0].key@;
            assert(crate::paths::keys_of(touched.items@)[0] == key);
            assert(touched@.contains(key));
        }
        self.prune_scan_folders(touched);
        self.status.append("; rescanning updated files");
        if self.library.is_scanning {
            return false;
        }
        self.start_scan()
    }

    /// Takes in that the updates ended without saying so.
    pub fn on_update_disconnect(&mut self)
        requires
            old(self).wf(),
        ensures
            final(self).wf(),
            *final(self) == (MapManagerApp {
                updates: UpdateState { is_updating: false, ..old(self).updates },
                status: final(self).status,
                ..*old(self)
            }),
            final(self).status@ == "Update worker disconnected"@,
    {
        self.status = self.updates.on_update_disconnect();
    }

    /// The sets to check for updates, if the check can begin; if not, that is
    /// said. The second part is how many maps cannot be checked.
    pub fn start_update_check(&mut self) -> (r: Option<(Vec<CheckTarget>, usize)>)
        requires
            old(self).wf(),
        ensures
            final(self).wf(),
            *final(self) == (MapManagerApp {
                updates: final(self).updates,
                status: final(self).status,
                ..*old(self)
            }),
            r is None ==> final(self).updates == old(self).updates,
            r is None <==> old(self).refuses_check() is Some,
            match r {
                Some((targets, uncheckable)) => {
                    &&& final(self).updates@ == (UpdateView {
                        log: Seq::empty(),
                        ..old(self).updates@
                    })
                    &&& final(self).status@ == starting_text("update check"@, targets@.len())
                    &&& checked_by(
                        targets@,
                        uncheckable as nat,
                        maps_of(old(self).library.scan),
                    )
                },
                None => final(self).status@ == old(self).refuses_check()->0,
            },
    {
        if self.updates.is_checking || self.updates.is_updating {
            self.status = "An update check or update is already running".to_owned();
            return None;
        }
        let found = match &self.library.scan {
            Some(scan) => {
                if chars_of(&trim(&self.backend_url)).len() == 0 {
                    self.status = "Set the backend URL before checking for updates".to_owned();
                    return None;
                }
                build_check_targets(&scan.maps)
            },
            None => {
                self.status = "Scan your Songs directory before checking for updates".to_owned();
                return None;
            },
        };
        proof {
            law_targets_of_checkable_maps(
                found.0@,
                found.1 as nat,
                maps_of(self.library.scan),
            );
        }
        if found.0.len() == 0 {
            self.status = "No beatmapsets with online ids found to check".to_owned();
            return None;
        }
        self.updates.clear_log();
        self.status = starting("update check", found.0.len());
        Some(found)
    }

    /// Why a check for updates cannot begin, if it cannot.
    pub open spec fn refuses_check(self) -> Option<Seq<char>> {
        if self.updates.is_checking || self.updates.is_updating {
            Some("An update check or update is already running"@)
        } else if self.library.scan is None {
            Some("Scan your Songs directory before checking for updates"@)
        } else if trim_text(self.backend_url@).len() == 0 {
            Some("Set the backend URL before checking for updates"@)
        } else if !checkable(maps_of(self.library.scan)) {
            Some("No beatmapsets with online ids found to check"@)
        } else {
            None
        }
    }

    /// The updates of all outdated sets, if they can begin; if not, that is
    /// said.
    pub fn start_update_all(&mut self) -> (r: Option<Vec<UpdateJob>>)
        requires
            old(self).wf(),
        ensures
            final(self).wf(),
            *final(self) == (MapManagerApp { status: final(self).status, ..*old(self) }),
            r is Some <==> !old(self).updates.is_updating && !old(self).updates.is_checking && old(
                self,
            ).updates.outdated@.len() > 0,
            r matches Some(jobs) ==> jobs_for_all(jobs@, old(self).updates.outdated@),
            final(self).status@ == (if old(self).updates.is_updating || old(
                self,
            ).updates.is_checking {
                "An update check or update is already running"@
            } else if old(self).updates.outdated@.len() == 0 {
                "Check for updates first"@
            } else {
                starting_text("update"@, old(self).updates.outdated@.len())
            }),
    {
        if self.updates.is_updating || self.updates.is_checking {
            self.status = "An update check or update is already running".to_owned();
            return None;
        }
        if self.updates.outdated.len() == 0 {
            self.status = "Check for updates first".to_owned();
            return None;
        }
        let mut jobs: Vec<UpdateJob> = Vec::new();
        let ghost sets = self.updates.outdated@;
        let mut i: usize = 0;
        while i < self.updates.outdated.len()
            invariant
                i <= self.updates.outdated@.len(),
                sets == self.updates.outdated@,
                *self == *old(self),
                jobs@.len() == i,
                forall|k: int| 0 <= k < i ==> job_for_set(#[trigger] jobs@[k], sets, sets[k]),
            decreases self.updates.outdated@.len() - i,
        {
            proof {
                lemma_outdated_at(sets, i as int);
            }
            let id: i64 = self.updates.outdated[i].beatmapset_id;
            if let Some(job) = self.updates.update_job_for_set(id) {
                jobs.push(job);
            }
            i = i + 1;
        }
        self.status = starting("update", jobs.len());
        Some(jobs)
    }

    /// The update of a set, if it can begin; if not, that is said.
    pub fn start_update_single(&mut self, beatmapset_id: i64) -> (r: Option<UpdateJob>)
        requires
            old(self).wf(),
        ensures
            final(self).wf(),
            *final(self) == (MapManagerApp { status: final(self).status, ..*old(self) }),
            r is Some <==> !old(self).updates.is_updating && !old(self).updates.is_checking
                && outdated_at(old(self).updates.outdated@, beatmapset_id) < old(
                self,
            ).updates.outdated@.len(),
            r matches Some(job) ==> job.beatmapset_id == beatmapset_id && job.folders@ == old(
                self,
            ).updates.outdated@[outdated_at(
                old(self).updates.outdated@,
                beatmapset_id,
            ) as int].folders@,
            final(self).status@ == (if old(self).updates.is_updating || old(
                self,
            ).updates.is_checking {
                "An update check or update is already running"@
            } else if r is None {
                "No pending update found for set "@ + decimal_int(beatmapset_id as int)
            } else {
                starting_text("update"@, 1)
            }),
    {
        if self.updates.is_updating || self.updates.is_checking {
            self.status = "An update check or update is already running".to_owned();
            return None;
        }
        match self.updates.update_job_for_set(beatmapset_id) {
            Some(job) => {
                self.status = starting("update", 1);
                Some(job)
            },
            None => {
                self.status = join2(
                    "No pending update found for set ",
                    &decimal_signed(beatmapset_id),
                );
                None
            },
        }
    }

    // ---- signing in ----

    /// Begins to sign in, where `page` is the address of the page for it, or
    /// why there is none. Tells whether to wait for the user.
    pub fn start_oauth_login(&mut self, page: Result<String, String>) -> (wait: bool)
        requires
            old(self).wf(),
        ensures
            final(self).wf(),
            *final(self) == (MapManagerApp {
                sign_in: final(self).sign_in,
                status: final(self).status,
                ..*old(self)
            }),
            wait == (!old(self).sign_in.is_signing_in && page is Ok),
            final(self).sign_in.signed_in == old(self).sign_in.signed_in,
            final(self).sign_in.is_signing_in == (old(self).sign_in.is_signing_in || wait),
            if old(self).sign_in.is_signing_in {
                &&& final(self).sign_in == old(self).sign_in
                &&& final(self).status@ == "osu! sign-in is already in progress"@
            } else {
                &&& final(self).status@ == final(self).sign_in.status@
                &&& match page {
                    Ok(url) => final(self).sign_in.pending_url == Some(url)
                        && final(self).sign_in.status@
                        == "Waiting for osu! sign-in in your browser..."@,
                    Err(error) => final(self).sign_in.pending_url == old(
                        self,
                    ).sign_in.pending_url && final(self).sign_in.status@
                        == "osu! sign-in failed: "@ + error@,
                }
            },
    {
        if self.sign_in.is_signing_in {
            self.status = "osu! sign-in is already in progress".to_owned();
            return false;
        }
        let wait = match page {
            Ok(url) => {
                self.sign_in.pending_url = Some(url);
                self.sign_in.is_signing_in = true;
                self.sign_in.status = "Waiting for osu! sign-in in your browser...".to_owned();
                true
            },
            Err(error) => {
                self.sign_in.status = join2("osu! sign-in failed: ", &error);
                false
            },
        };
        self.status = self.sign_in.status.clone();
        wait
    }

    /// Takes in how signing in ended: well, with what went wrong when that was
    /// kept, or not at all.
    pub fn on_sign_in(&mut self, result: Result<Option<String>, String>)
        requires
            old(self).wf(),
        ensures
            final(self).wf(),
            *final(self) == (MapManagerApp {
                sign_in: final(self).sign_in,
                status: final(self).status,
                ..*old(self)
            }),
            !final(self).sign_in.is_signing_in,
            final(self).sign_in.pending_url is None,
            final(self).sign_in.signed_in == (old(self).sign_in.signed_in || result is Ok),
            final(self).status@ == final(self).sign_in.status@,
            final(self).sign_in.status@ == (match result {
                Ok(None) => "Signed in with osu! (downloads use the official osu! API)"@,
                Ok(Some(error)) => "Signed in, but saving the session failed: "@ + error@,
                Err(error) => "osu! sign-in failed: "@ + error@,
            }),
    {
        self.sign_in.is_signing_in = false;
        self.sign_in.pending_url = None;
        match result {
            Ok(saved) => {
                self.sign_in.signed_in = true;
                self.sign_in.status = match saved {
                    None => "Signed in with osu! (downloads use the official osu! API)".to_owned(),
                    Some(error) => join2("Signed in, but saving the session failed: ", &error),
                };
            },
            Err(error) => {
                self.sign_in.status = join2("osu! sign-in failed: ", &error);
            },
        }
        self.status = self.sign_in.status.clone();
    }

    /// Takes in that signing in ended without saying how.
    pub fn on_sign_in_disconnect(&mut self)
        requires
            old(self).wf(),
        ensures
            final(self).wf(),
            *final(self) == (MapManagerApp { sign_in: final(self).sign_in, ..*old(self) }),
            final(self).sign_in == (SignIn {
                is_signing_in: false,
                status: final(self).sign_in.status,
                ..old(self).sign_in
            }),
            final(self).sign_in.status@ == "osu! sign-in was cancelled"@,
    {
        self.sign_in.is_signing_in = false;
        self.sign_in.status = "osu! sign-in was cancelled".to_owned();
    }

    /// Signs out.
    pub fn sign_out(&mut self)
        requires
            old(self).wf(),
        ensures
            final(self).wf(),
            *final(self) == (MapManagerApp {
                sign_in: final(self).sign_in,
                status: final(self).status,
                ..*old(self)
            }),
            !final(self).sign_in.signed_in,
            final(self).sign_in.pending_url is None,
            final(self).sign_in.is_signing_in == old(self).sign_in.is_signing_in,
            final(self).sign_in.status@ == "Not signed in with osu! (downloads use the mirror)"@,
            final(self).status@ == final(self).sign_in.status@,
    {
        self.sign_in.signed_in = false;
        self.sign_in.pending_url = None;
        self.sign_in.status = "Not signed in with osu! (downloads use the mirror)".to_owned();
        self.status = self.sign_in.status.clone();
    }

    // ---- another library ----

    /// Turns to the library below another root, with what is kept there.
    pub fn change_root(
        &mut self,
        osu_root: String,
        songs_dir: String,
        cached_scan: Option<LibraryScan>,
        ignores: RepairIgnoreStore,
        signed_in: bool,
    )
        requires
            old(self).wf(),
        ensures
            final(self).wf(),
            final(self).osu_root == osu_root,
            final(self).songs_dir == songs_dir,
            final(self).ignores == ignores,
            final(self).library == (ScanState { scan: cached_scan, ..old(self).library }),
            final(self).sign_in.signed_in == signed_in,
            final(self).sign_in.status@ == first_sign_in_text(signed_in),
            final(self).sign_in.pending_url == old(self).sign_in.pending_url,
            final(self).sign_in.is_signing_in == old(self).sign_in.is_signing_in,
            final(self).collections@.len() == 0,
            final(self).selected_collection is None,
            final(self).selection.missing@.len() == 0,
            final(self).selection.maps == old(self).selection.maps,
            final(self).selection.md5s == old(self).selection.md5s,
            final(self).expanded_md5 is None,
            final(self).background == (BackgroundState {
                preview_path: None,
                preview_ready: false,
                preview_error: None,
                ..old(self).background
            }),
            final(self).shown.key is None && final(self).shown.places@.len() == 0,
            final(self).jobs.key is None && final(self).jobs.jobs@.len() == 0,
            final(self).status@ == (match library(cached_scan) {
                Some(l) => "Loaded cached scan: "@ + decimal(l.maps.len()) + " scanned maps, "@
                    + decimal(l.sets.len()) + " sets, "@ + decimal(l.problems.len())
                    + " repair issue(s)"@,
                None => "Ready"@,
            }),
            *final(self) == (MapManagerApp {
                osu_root: final(self).osu_root,
                songs_dir: final(self).songs_dir,
                ignores: final(self).ignores,
                library: final(self).library,
                sign_in: final(self).sign_in,
                collections: final(self).collections,
                selected_collection: final(self).selected_collection,
                selection: final(self).selection,
                expanded_md5: final(self).expanded_md5,
                background: final(self).background,
                shown: final(self).shown,
                jobs: final(self).jobs,
                status: final(self).status,
                ..*old(self)
            }),
    {
        let status = match &cached_scan {
            Some(scan) => {
                let mut t = join3(
                    "Loaded cached scan: ",
                    &decimal_usize(scan.maps.len()),
                    " scanned maps, ",
                );
                t.append(&decimal_usize(scan.sets.len()));
                t.append(" sets, ");
                t.append(&decimal_usize(scan.problems.len()));
                t.append(" repair issue(s)");
                t
            },
            None => "Ready".to_owned(),
        };
        self.osu_root = osu_root;
        self.songs_dir = songs_dir;
        self.ignores = ignores;
        self.sign_in.signed_in = signed_in;
        self.sign_in.status = first_sign_in(signed_in).status;
        self.collections = Vec::new();
        self.selected_collection = None;
        self.selection.missing = Vec::new();
        self.library.scan = cached_scan;
        self.expanded_md5 = None;
        self.background.clear_background_preview();
        self.invalidate_scan_caches();
        self.status = status;
    }
}

/// Whether a job is the update of the first of the outdated sets with the
/// identifier of a set.
pub open spec fn job_for_set(job: UpdateJob, sets: Seq<OutdatedSet>, set: OutdatedSet) -> bool {
    &&& job.beatmapset_id == set.beatmapset_id
    &&& outdated_at(sets, set.beatmapset_id) < sets.len()
    &&& job.folders@ == sets[outdated_at(sets, set.beatmapset_id) as int].folders@
}

/// Whether there is an update for each outdated set, in order.
pub open spec fn jobs_for_all(jobs: Seq<UpdateJob>, sets: Seq<OutdatedSet>) -> bool {
    &&& jobs.len() == sets.len()
    &&& forall|k: int| 0 <= k < jobs.len() ==> job_for_set(#[trigger] jobs[k], sets, sets[k])
}

proof fn lemma_outdated_at(sets: Seq<OutdatedSet>, i: int)
    requires
        0 <= i < sets.len(),
    ensures
        outdated_at(sets, sets[i].beatmapset_id) <= i,
    decreases sets.len(),
{
    if i > 0 && sets[0].beatmapset_id != sets[i].beatmapset_id {
        assert(sets.drop_first()[i - 1] == sets[i]);
        lemma_outdated_at(sets.drop_first(), i - 1);
    }
}

/// At first the maps are shown that have six stars or more and at most 180 beats
/// per minute, whatever else they are; no rating is too high.
pub proof fn law_first_shown(f: BeatmapFilters, map: LocalBeatmap)
    requires
        is_first(f),
    ensures
        crate::query::filters_match(f, map) <==> (map.stars is Some && (Real32 {
            bits: 0x40c0_0000,
        }).at_most(map.stars->0) && map.bpm is Some && (Real32 { bits: 0 }).at_most(map.bpm->0)
            && map.bpm->0.at_most((Real32 { bits: 0x4334_0000 }))),
        crate::query::active_filters(f) == 2,
{
    reveal_strlit("");
    reveal(crate::query::is_given);
    assert(""@.len() == 0);
    assert(trim_text(""@).len() == 0);
}

/// A check for updates is refused while one runs, without a scan, without a
/// backend and without anything to check, and else never.
pub proof fn law_refused_checks(app: MapManagerApp)
    ensures
        app.refuses_check() is None <==> !app.updates.is_checking && !app.updates.is_updating
            && app.library.scan is Some && trim_text(app.backend_url@).len() > 0 && (exists|m: int|
            0 <= m < maps_of(app.library.scan).len() && ((#[trigger] maps_of(
                app.library.scan,
            )[m]).beatmapset_id is Some || maps_of(app.library.scan)[m].beatmap_id is Some)),
{
    let maps = maps_of(app.library.scan);
    if exists|m: int|
        0 <= m < maps.len() && ((#[trigger] maps[m]).beatmapset_id is Some
            || maps[m].beatmap_id is Some) {
        let m = choose|m: int|
            0 <= m < maps.len() && ((#[trigger] maps[m]).beatmapset_id is Some
                || maps[m].beatmap_id is Some);
        assert(crate::updates::has_identifier(maps[m]));
    }
    if checkable(maps) {
        let m = choose|m: int|
            0 <= m < maps.len() && crate::updates::has_identifier(#[trigger] maps[m]);
        assert(maps[m].beatmapset_id is Some || maps[m].beatmap_id is Some);
    }
}

} // verus!
