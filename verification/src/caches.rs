//! What is worked out from the library once and kept until the library, the
//! filters or the issues change: the maps to show, and the repairs.
use crate::display::filter_maps;
#[allow(unused_imports)]
use crate::display::visible_places;
use crate::local::{LibraryScan, LocalBeatmap};
#[allow(unused_imports)]
use crate::local::RepairIssue;
#[allow(unused_imports)]
use crate::query::filters_match;
use crate::query::{BeatmapFilters, TypedBound};
#[allow(unused_imports)]
use crate::repair::jobs_for;
use crate::repair::{repair_jobs, FilesExist, RepairJob};
#[allow(unused_imports)]
use crate::scan::ScanEvent;
#[allow(unused_imports)]
use crate::scan_state::after_event;
#[allow(unused_imports)]
use crate::repair::IgnoredView;
use crate::text::same_text;
use vstd::prelude::*;
use vstd::string::*;

verus! {

/// The maps of a scan; none where there is no scan.
pub open spec fn maps_of(scan: Option<LibraryScan>) -> Seq<LocalBeatmap> {
    match scan {
        Some(s) => s.maps@,
        None => Seq::empty(),
    }
}

/// The issues of a scan; none where there is no scan.
pub open spec fn problems_of(scan: Option<LibraryScan>) -> Seq<RepairIssue> {
    match scan {
        Some(s) => s.problems@,
        None => Seq::empty(),
    }
}

/// Whether a scan holds at least the maps and the issues of another, in front
/// of any others.
pub open spec fn extends(before: Option<LibraryScan>, after: Option<LibraryScan>) -> bool {
    &&& before is Some ==> after is Some
    &&& maps_of(before).len() <= maps_of(after).len()
    &&& maps_of(after).take(maps_of(before).len() as int) == maps_of(before)
    &&& problems_of(before).len() <= problems_of(after).len()
    &&& problems_of(after).take(problems_of(before).len() as int) == problems_of(before)
}

/// An event of a scan other than its beginning only adds to the library.
pub proof fn lemma_events_extend(
    before: crate::scan_state::ScanState,
    after: crate::scan_state::ScanState,
    event: ScanEvent,
    filters: BeatmapFilters,
    only_std: bool,
    ignores: Seq<IgnoredView>,
)
    requires
        after@ == after_event(before@, event, filters, only_std, ignores),
        !(event is Started),
    ensures
        extends(before.scan, after.scan),
{
    let n = maps_of(before.scan);
    let p = problems_of(before.scan);
    assert(after@.library == crate::scan_state::library(after.scan));
    assert(before@.library == crate::scan_state::library(before.scan));
    assert(maps_of(after.scan).take(n.len() as int) =~= n);
    assert(problems_of(after.scan).take(p.len() as int) =~= p);
}

// ---- the maps to show ----

/// Whether two filters hold the same texts and numbers.
pub open spec fn filters_alike(a: BeatmapFilters, b: BeatmapFilters) -> bool {
    &&& a.artist@ == b.artist@ && a.title@ == b.title@ && a.mapper@ == b.mapper@
    &&& a.difficulty@ == b.difficulty@ && a.tag@ == b.tag@
    &&& a.length_min.text@ == b.length_min.text@ && a.length_min.value == b.length_min.value
    &&& a.length_max.text@ == b.length_max.text@ && a.length_max.value == b.length_max.value
    &&& a.stars == b.stars && a.ar == b.ar && a.cs == b.cs
    &&& a.od == b.od && a.hp == b.hp && a.bpm == b.bpm
    &&& a.mode == b.mode
}

fn same_bound(a: &TypedBound, b: &TypedBound) -> (r: bool)
    ensures
        r == (a.text@ == b.text@ && a.value == b.value),
{
    same_text(&a.text, &b.text) && a.value == b.value
}

/// Whether two filters hold the same texts and numbers.
pub fn same_filters(a: &BeatmapFilters, b: &BeatmapFilters) -> (r: bool)
    ensures
        r == filters_alike(*a, *b),
{
    same_text(&a.artist, &b.artist) && same_text(&a.title, &b.title) && same_text(
        &a.mapper,
        &b.mapper,
    ) && same_text(&a.difficulty, &b.difficulty) && same_text(&a.tag, &b.tag) && same_bound(
        &a.length_min,
        &b.length_min,
    ) && same_bound(&a.length_max, &b.length_max) && a.stars == b.stars && a.ar == b.ar && a.cs
        == b.cs && a.od == b.od && a.hp == b.hp && a.bpm == b.bpm && a.mode == b.mode
}

/// Filters with the same texts and numbers show the same maps.
pub proof fn law_same_filters_show_the_same(
    a: BeatmapFilters,
    b: BeatmapFilters,
    only_std: bool,
    maps: Seq<LocalBeatmap>,
)
    requires
        filters_alike(a, b),
    ensures
        visible_places(a, only_std, maps) == visible_places(b, only_std, maps),
    decreases maps.len(),
{
    if maps.len() > 0 {
        law_same_filters_show_the_same(a, b, only_std, maps.drop_last());
        assert(filters_match(a, maps.last()) == filters_match(b, maps.last()));
    }
}

/// What the maps to show were worked out for.
#[derive(Debug)]
pub struct ShownKey {
    pub count: usize,
    pub only_std: bool,
    pub filters: BeatmapFilters,
}

/// The places of the maps to show, and what they were worked out for.
#[derive(Debug)]
pub struct ShownCache {
    pub key: Option<ShownKey>,
    pub places: Vec<usize>,
}

impl ShownCache {
    /// The places are those of the maps that were there when they were worked
    /// out.
    pub open spec fn valid(self, scan: Option<LibraryScan>) -> bool {
        match self.key {
            Some(k) => k.count <= maps_of(scan).len() && self.places@ == visible_places(
                k.filters,
                k.only_std,
                maps_of(scan).take(k.count as int),
            ),
            None => self.places@.len() == 0,
        }
    }

    /// Nothing was worked out.
    pub fn new() -> (r: Self)
        ensures
            forall|scan: Option<LibraryScan>| #[trigger] r.valid(scan),
            r.key is None,
            r.places@.len() == 0,
    {
        ShownCache { key: None, places: Vec::new() }
    }

    /// Works out the maps to show, unless they are known.
    pub fn refresh(&mut self, filters: &BeatmapFilters, only_std: bool, scan: &Option<LibraryScan>)
        requires
            old(self).valid(*scan),
        ensures
            final(self).valid(*scan),
            final(self).places@ == visible_places(*filters, only_std, maps_of(*scan)),
    {
        let count: usize = match scan {
            Some(s) => s.maps.len(),
            None => 0,
        };
        let known = match &self.key {
            Some(k) => k.count == count && k.only_std == only_std && same_filters(
                &k.filters,
                filters,
            ),
            None => false,
        };
        proof {
            assert(maps_of(*scan).take(count as int) =~= maps_of(*scan));
        }
        if known {
            proof {
                law_same_filters_show_the_same(
                    self.key->0.filters,
                    *filters,
                    only_std,
                    maps_of(*scan),
                );
            }
            return ;
        }
        self.places = match scan {
            Some(s) => filter_maps(filters, only_std, &s.maps),
            None => Vec::new(),
        };
        assert(self.places@ =~= visible_places(*filters, only_std, maps_of(*scan)));
        self.key = Some(ShownKey { count, only_std, filters: filters.clone() });
    }

    /// What was worked out holds while the library only grows.
    pub proof fn lemma_valid_after(self, before: Option<LibraryScan>, after: Option<LibraryScan>)
        requires
            self.valid(before),
            extends(before, after),
        ensures
            self.valid(after),
    {
        if let Some(k) = self.key {
            assert(maps_of(after).take(k.count as int) =~= maps_of(before).take(k.count as int));
        }
    }
}

// ---- the repairs ----

/// Whether jobs are the repairs of maps and issues, whatever files there were.
pub open spec fn jobs_known(
    jobs: Seq<RepairJob>,
    maps: Seq<LocalBeatmap>,
    problems: Seq<RepairIssue>,
) -> bool {
    exists|exist: Seq<FilesExist>| jobs_for(jobs, maps, exist, problems)
}

/// The repairs, and the numbers of maps and of issues that they were worked
/// out for.
#[derive(Debug)]
pub struct JobsCache {
    pub key: Option<(usize, usize)>,
    pub jobs: Vec<RepairJob>,
}

impl JobsCache {
    /// The jobs are the repairs of the maps and issues that were there when
    /// they were worked out.
    pub open spec fn valid(self, scan: Option<LibraryScan>) -> bool {
        match self.key {
            Some((m, p)) => scan is Some && m <= maps_of(scan).len() && p <= problems_of(scan).len()
                && jobs_known(
                self.jobs@,
                maps_of(scan).take(m as int),
                problems_of(scan).take(p as int),
            ),
            None => self.jobs@.len() == 0,
        }
    }

    /// Whether the jobs were worked out for another number of maps or issues.
    pub open spec fn stale(self, scan: Option<LibraryScan>) -> bool {
        match scan {
            Some(s) => self.key != Some((s.maps@.len() as usize, s.problems@.len() as usize)),
            None => false,
        }
    }

    /// Nothing was worked out.
    pub fn new() -> (r: Self)
        ensures
            forall|scan: Option<LibraryScan>| #[trigger] r.valid(scan),
            r.key is None,
            r.jobs@.len() == 0,
    {
        JobsCache { key: None, jobs: Vec::new() }
    }

    /// Whether the jobs were worked out for another number of maps or issues.
    pub fn is_stale(&self, scan: &Option<LibraryScan>) -> (r: bool)
        ensures
            r == self.stale(*scan),
    {
        match scan {
            Some(s) => match self.key {
                Some((m, p)) => m != s.maps.len() || p != s.problems.len(),
                None => true,
            },
            None => false,
        }
    }

    /// Works out the repairs, unless they are known. For each map it must be
    /// known whether the files that it names exist.
    pub fn refresh(&mut self, scan: &Option<LibraryScan>, exist: &Vec<FilesExist>)
        requires
            old(self).valid(*scan),
            exist@.len() == maps_of(*scan).len(),
        ensures
            final(self).valid(*scan),
            !final(self).stale(*scan),
            if old(self).stale(*scan) {
                jobs_for(final(self).jobs@, maps_of(*scan), exist@, problems_of(*scan))
            } else {
                *final(self) == *old(self)
            },
    {
        if !self.is_stale(scan) {
            return ;
        }
        if let Some(s) = scan {
            self.jobs = repair_jobs(s, exist);
            self.key = Some((s.maps.len(), s.problems.len()));
            proof {
                assert(s.maps@.take(s.maps@.len() as int) =~= s.maps@);
                assert(s.problems@.take(s.problems@.len() as int) =~= s.problems@);
                assert(jobs_for(self.jobs@, s.maps@, exist@, s.problems@));
            }
        }
    }

    /// What was worked out holds while the library only grows.
    pub proof fn lemma_valid_after(self, before: Option<LibraryScan>, after: Option<LibraryScan>)
        requires
            self.valid(before),
            extends(before, after),
        ensures
            self.valid(after),
    {
        if let Some((m, p)) = self.key {
            assert(maps_of(after).take(m as int) =~= maps_of(before).take(m as int));
            assert(problems_of(after).take(p as int) =~= problems_of(before).take(p as int));
        }
    }
}

/// The repairs that are known are out of date if and only if there are more or
/// fewer maps or problems than when they were worked out.
pub proof fn law_stale_jobs(cache: JobsCache, scan: LibraryScan, maps: usize, problems: usize)
    requires
        scan.maps@.len() <= usize::MAX,
        scan.problems@.len() <= usize::MAX,
        cache.key == Some((maps, problems)),
    ensures
        cache.stale(Some(scan)) <==> maps != scan.maps@.len() || problems != scan.problems@.len(),
        !cache.stale(None),
{
}

} // verus!
