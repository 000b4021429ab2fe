//! A scan of the Songs folder: what each file that was found adds, and what is
//! reported of it.
use crate::local::{
    build_sets, find_repair_issues, FilePath, LocalBeatmap, LocalBeatmapSet, RepairIssue,
    RepairSeverity,
};
#[allow(unused_imports)]
use crate::local::{issues_of, issues_view, opt_text, sets_of, IssueView};
use crate::order::{TextIndex, TextSet};
#[allow(unused_imports)]
use crate::osu_db::found_meta;
use crate::osu_db::OsuDbIndex;
use crate::text::{join2, same_text};
use vstd::prelude::*;
use vstd::string::*;

verus! {

/// What a scan reports.
#[derive(Debug)]
pub enum ScanEvent {
    Started {
        songs_dir: FilePath,
        star_ratings_loaded: usize,
        star_parse_error: Option<String>,
    },
    Folder { path: FilePath },
    Parsing { path: FilePath },
    MapFound { map: LocalBeatmap, issues: Vec<RepairIssue> },
    Problem { issue: RepairIssue },
    Finished { sets: Vec<LocalBeatmapSet> },
    Stopped { sets: Vec<LocalBeatmapSet> },
    Failed { message: String },
}

/// Why a file could not be parsed.
#[derive(Clone, Copy, Debug, PartialEq, Eq, Structural)]
pub enum ParseIssueKind {
    Timeout,
    ParseError,
}

impl ParseIssueKind {
    /// The name under which issues of this kind can be left out.
    pub open spec fn name(self) -> Seq<char> {
        match self {
            ParseIssueKind::Timeout => "parse_timeout"@,
            ParseIssueKind::ParseError => "parse_error"@,
        }
    }

    /// The name under which issues of this kind can be left out.
    pub fn as_str(&self) -> (r: &'static str)
        ensures
            r@ == self.name(),
    {
        match self {
            ParseIssueKind::Timeout => "parse_timeout",
            ParseIssueKind::ParseError => "parse_error",
        }
    }
}

/// Whether a file with this extension is a beatmap.
pub fn is_osu_file(extension: Option<&str>) -> (r: bool)
    ensures
        r == (extension is Some && extension->0@ == "osu"@),
{
    match extension {
        Some(e) => same_text(e, "osu"),
        None => false,
    }
}

/// The notice for a scan without an osu! root.
pub open spec fn no_root_text() -> Seq<char> {
    "No osu! root selected; osu!.db unavailable"@
}

/// The report with which a scan starts: how many star ratings the `osu!.db`
/// gave, or why it gave none.
pub fn scan_started(
    songs_dir: FilePath,
    has_root: bool,
    index: Option<&OsuDbIndex>,
    load_error: Option<String>,
) -> (r: ScanEvent)
    ensures
        r matches ScanEvent::Started { songs_dir: dir, star_ratings_loaded, star_parse_error }
            && dir == songs_dir && star_ratings_loaded == (match index {
            Some(i) => i.records().len(),
            None => 0,
        }) && opt_text(star_parse_error) == (if has_root {
            opt_text(load_error)
        } else {
            Some(no_root_text())
        }),
{
    let star_ratings_loaded: usize = match index {
        Some(i) => i.len(),
        None => 0,
    };
    let star_parse_error = if has_root {
        load_error
    } else {
        Some("No osu! root selected; osu!.db unavailable".to_owned())
    };
    ScanEvent::Started { songs_dir, star_ratings_loaded, star_parse_error }
}

/// The star rating that the `osu!.db` keeps for a map without one, as the bits
/// of a double.
pub open spec fn kept_stars(map: LocalBeatmap, index: OsuDbIndex) -> Option<u64> {
    if map.stars is Some {
        None
    } else {
        match map.path.file_name {
            Some(name) => match found_meta(index.records(), map.md5@, name@) {
                Some(meta) => meta.standard_stars,
                None => None,
            },
            None => None,
        }
    }
}

/// The star rating that the `osu!.db` keeps for a map without one.
pub fn stars_from_db(map: &LocalBeatmap, index: &OsuDbIndex) -> (r: Option<u64>)
    requires
        index.wf(),
    ensures
        r == kept_stars(*map, *index),
{
    if map.stars.is_some() {
        return None;
    }
    match &map.path.file_name {
        Some(name) => match index.get(&map.md5, name) {
            Some(meta) => meta.standard_stars,
            None => None,
        },
        None => None,
    }
}

/// Where the star rating of a map comes from.
#[derive(Clone, Copy, Debug, PartialEq, Eq, Structural)]
pub enum StarsStep {
    /// The map has one.
    Keep,
    /// The `osu!.db` keeps one: the bits of a double.
    FromDb(u64),
    /// It is to be calculated.
    Calculate,
}

/// Where the star rating of a map comes from, where `kept` is what the `osu!.db`
/// keeps for it.
pub open spec fn stars_source(map: LocalBeatmap, kept: Option<u64>) -> StarsStep {
    if map.stars is Some {
        StarsStep::Keep
    } else {
        match kept {
            Some(bits) => StarsStep::FromDb(bits),
            None => StarsStep::Calculate,
        }
    }
}

/// Where the star rating of a map comes from: from the map itself, else from
/// the `osu!.db`, else it is calculated.
pub fn stars_step(map: &LocalBeatmap, index: Option<&OsuDbIndex>) -> (r: StarsStep)
    requires
        index matches Some(i) ==> i.wf(),
    ensures
        r == stars_source(
            *map,
            match index {
                Some(i) => kept_stars(*map, *i),
                None => None,
            },
        ),
{
    if map.stars.is_some() {
        return StarsStep::Keep;
    }
    match index {
        Some(i) => match stars_from_db(map, i) {
            Some(bits) => StarsStep::FromDb(bits),
            None => StarsStep::Calculate,
        },
        None => StarsStep::Calculate,
    }
}

/// Whether the star rating is calculated while a file is parsed: only where no
/// `osu!.db` was read.
pub fn calculates_while_parsing(index: Option<&OsuDbIndex>) -> (r: bool)
    ensures
        r == (index is None),
{
    index.is_none()
}

/// The positions of the maps by path; the last one of a path counts.
pub open spec fn places_by_path(maps: Seq<LocalBeatmap>) -> Map<Seq<char>, int>
    decreases maps.len(),
{
    if maps.len() == 0 {
        Map::empty()
    } else {
        places_by_path(maps.drop_last()).insert(maps.last().path.key@, maps.len() - 1)
    }
}

/// The positions of the maps by path.
pub fn index_by_path(maps: &Vec<LocalBeatmap>) -> (r: TextIndex)
    ensures
        r.wf(),
        r@ == places_by_path(maps@),
{
    let mut r = TextIndex::new();
    let mut i: usize = 0;
    assert(maps@.take(0) =~= seq![]);
    while i < maps.len()
        invariant
            i <= maps@.len(),
            r.wf(),
            r@ == places_by_path(maps@.take(i as int)),
        decreases maps@.len() - i,
    {
        r.insert(maps[i].path.key.clone(), i);
        assert(maps@.take(i as int + 1).drop_last() =~= maps@.take(i as int));
        i = i + 1;
    }
    assert(maps@.take(i as int) =~= maps@);
    r
}

proof fn lemma_places_by_path(maps: Seq<LocalBeatmap>, key: Seq<char>)
    ensures
        places_by_path(maps).contains_key(key) ==> 0 <= places_by_path(maps)[key] < maps.len()
            && maps[places_by_path(maps)[key]].path.key@ == key,
        !places_by_path(maps).contains_key(key) ==> forall|i: int|
            0 <= i < maps.len() ==> (#[trigger] maps[i]).path.key@ != key,
    decreases maps.len(),
{
    if maps.len() > 0 {
        lemma_places_by_path(maps.drop_last(), key);
        if !places_by_path(maps).contains_key(key) {
            assert forall|i: int| 0 <= i < maps.len() implies (#[trigger] maps[i]).path.key@ != key by {
                if i < maps.len() - 1 {
                    assert(maps.drop_last()[i] == maps[i]);
                }
            }
        }
    }
}

/// The map of an earlier scan that a file need not be parsed for again: one
/// with the same path, if there is one.
pub fn reusable_map(maps: &Vec<LocalBeatmap>, index: &TextIndex, path: &FilePath) -> (r: Option<
    LocalBeatmap,
>)
    requires
        index.wf(),
        index@ == places_by_path(maps@),
    ensures
        match r {
            Some(map) => {
                &&& places_by_path(maps@).contains_key(path.key@)
                &&& map == maps@[places_by_path(maps@)[path.key@]]
                &&& maps@.contains(map)
                &&& map.path.key@ == path.key@
            },
            None => forall|i: int|
                0 <= i < maps@.len() ==> (#[trigger] maps@[i]).path.key@ != path.key@,
        },
{
    proof {
        lemma_places_by_path(maps@, path.key@);
    }
    match index.get(&path.key) {
        Some(i) => Some(maps[i].clone()),
        None => None,
    }
}

/// A scan under way: the maps so far, and the kinds of issues that it leaves
/// out.
#[derive(Debug)]
pub struct ScanSession {
    pub maps: Vec<LocalBeatmap>,
    pub skip_issue_kinds: TextSet,
}

/// The issue that a file could not be parsed.
pub open spec fn parse_issue(path: FilePath, kind: ParseIssueKind, error: Seq<char>) -> IssueView {
    IssueView {
        beatmap: path,
        message: match kind {
            ParseIssueKind::Timeout => "Timed out parsing map file after 8 seconds: "@ + error,
            ParseIssueKind::ParseError => error,
        },
        severity: RepairSeverity::ParseWarning,
    }
}

impl ScanSession {
    /// The kinds of issues are in order.
    pub open spec fn wf(self) -> bool {
        self.skip_issue_kinds.wf()
    }

    /// A scan without maps.
    pub fn new(skip_issue_kinds: TextSet) -> (r: Self)
        requires
            skip_issue_kinds.wf(),
        ensures
            r.wf(),
            r.maps@.len() == 0,
            r.skip_issue_kinds == skip_issue_kinds,
    {
        ScanSession { maps: Vec::new(), skip_issue_kinds }
    }

    /// A file was parsed: its map is kept and reported with its issues.
    pub fn on_map(&mut self, map: LocalBeatmap, audio_exists: bool, background_exists: bool) -> (r:
        ScanEvent)
        ensures
            final(self).maps@ == old(self).maps@.push(map),
            final(self).skip_issue_kinds == old(self).skip_issue_kinds,
            r matches ScanEvent::MapFound { map: m, issues } && m == map && issues_view(issues@)
                == issues_of(map, audio_exists, background_exists),
    {
        let issues = find_repair_issues(&map, audio_exists, background_exists);
        self.maps.push(map.clone());
        ScanEvent::MapFound { map, issues }
    }

    /// A file could not be parsed: that is reported, unless issues of its kind
    /// are left out.
    pub fn on_failure(&self, path: FilePath, kind: ParseIssueKind, error: &str) -> (r: Option<
        ScanEvent,
    >)
        requires
            self.wf(),
        ensures
            r is None <==> self.skip_issue_kinds@.contains(kind.name()),
            r is Some ==> (r->0 matches ScanEvent::Problem { issue } && issue@ == parse_issue(
                path,
                kind,
                error@,
            )),
    {
        if self.skip_issue_kinds.contains(kind.as_str()) {
            return None;
        }
        let message = match kind {
            ParseIssueKind::Timeout => join2("Timed out parsing map file after 8 seconds: ", error),
            ParseIssueKind::ParseError => error.to_owned(),
        };
        Some(
            ScanEvent::Problem {
                issue: RepairIssue {
                    beatmap: path,
                    message,
                    severity: RepairSeverity::ParseWarning,
                },
            },
        )
    }

    /// The scan is over, or was stopped: the sets that the maps so far form
    /// are reported.
    pub fn end(&self, stopped: bool) -> (r: ScanEvent)
        ensures
            stopped ==> (r matches ScanEvent::Stopped { sets } && sets_of(sets@, self.maps@)),
            !stopped ==> (r matches ScanEvent::Finished { sets } && sets_of(sets@, self.maps@)),
    {
        let sets = build_sets(&self.maps);
        if stopped {
            ScanEvent::Stopped { sets }
        } else {
            ScanEvent::Finished { sets }
        }
    }
}

/// A map that has a star rating keeps it. One without gets that of its record in
/// the `osu!.db`, the last one with its checksum; and without a record there its
/// rating is calculated.
pub proof fn law_stars_of_maps(map: LocalBeatmap, index: OsuDbIndex, i: int)
    requires
        map.path.file_name is Some,
        map.md5@.len() > 0,
    ensures
        map.stars is Some ==> kept_stars(map, index) is None && stars_source(
            map,
            kept_stars(map, index),
        ) == StarsStep::Keep,
        map.stars is None && 0 <= i < index.records().len() && index.records()[i].md5 == map.md5@
            && (forall|j: int|
            i < j < index.records().len() ==> (#[trigger] index.records()[j]).md5 != map.md5@)
            ==> kept_stars(map, index) == index.records()[i].standard_stars && stars_source(
            map,
            kept_stars(map, index),
        ) == (match index.records()[i].standard_stars {
            Some(bits) => StarsStep::FromDb(bits),
            None => StarsStep::Calculate,
        }),
        map.stars is None && index.records().len() == 0 ==> kept_stars(map, index) is None
            && stars_source(map, None) == StarsStep::Calculate,
{
    let metas = index.records();
    if 0 <= i < metas.len() && metas[i].md5 == map.md5@ && (forall|j: int|
        i < j < index.records().len() ==> (#[trigger] index.records()[j]).md5 != map.md5@) {
        crate::osu_db::law_checksum_finds_record(metas, i, map.md5@, map.path.file_name->0@);
    }
    if metas.len() == 0 {
        crate::osu_db::law_filename_finds_record(metas, -1, map.md5@, map.path.file_name->0@);
    }
}

/// A file that an earlier scan knows is found again by its path, as the last map
/// with that path.
pub proof fn law_known_paths(maps: Seq<LocalBeatmap>, i: int, key: Seq<char>)
    requires
        -1 <= i < maps.len(),
        i >= 0 ==> maps[i].path.key@ == key,
        forall|j: int| i < j < maps.len() ==> (#[trigger] maps[j]).path.key@ != key,
    ensures
        i >= 0 ==> places_by_path(maps).contains_pair(key, i),
        i < 0 ==> !places_by_path(maps).contains_key(key),
    decreases maps.len(),
{
    if maps.len() > 0 && i < maps.len() - 1 {
        let init = maps.drop_last();
        assert(maps[maps.len() - 1].path.key@ != key);
        assert forall|j: int| i < j < init.len() implies (#[trigger] init[j]).path.key@ != key by {
            assert(init[j] == maps[j]);
        }
        law_known_paths(init, i, key);
    }
}

/// A file that could not be parsed is a warning, never a missing file, and the
/// message says so where it took too long.
pub proof fn law_parse_issues(path: FilePath, error: Seq<char>)
    ensures
        parse_issue(path, ParseIssueKind::ParseError, error) == (IssueView {
            beatmap: path,
            message: error,
            severity: RepairSeverity::ParseWarning,
        }),
        parse_issue(path, ParseIssueKind::Timeout, error).severity == RepairSeverity::ParseWarning,
        parse_issue(path, ParseIssueKind::Timeout, error).message
            == "Timed out parsing map file after 8 seconds: "@ + error,
        ParseIssueKind::Timeout.name() != ParseIssueKind::ParseError.name(),
{
    reveal_strlit("parse_timeout");
    reveal_strlit("parse_error");
    assert("parse_timeout"@.len() == 13 && "parse_error"@.len() == 11);
}

} // verus!
