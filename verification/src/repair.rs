//! Repairs: which sets lack files, what a repair takes out of a download, and
//! what is to be ignored from then on.
use crate::local::{FilePath, LibraryScan, LocalBeatmap, RepairIssue, RepairSeverity};
#[allow(unused_imports)]
use crate::local::{map_label, opt_text, IssueView};
use crate::order::TextSet;
#[allow(unused_imports)]
use crate::order::ascending;
use crate::paths::PathSet;
#[allow(unused_imports)]
use crate::paths::{from_either, keys_of};
use crate::text::{chars_of, contains_str, join, join2, join3, same_text, to_lower, trim};
#[allow(unused_imports)]
use crate::text::{contains_text, join_texts, lower_text, texts, trim_text};
use vstd::prelude::*;
use vstd::string::*;

verus! {

/// An issue that is to be ignored: the file, by its set, its identifier and
/// its name, and the message.
#[derive(Debug, PartialEq, Eq)]
pub struct IgnoredRepairIssue {
    pub beatmapset_id: Option<i64>,
    pub beatmap_id: Option<i64>,
    pub beatmap_file: String,
    pub message: String,
}

/// The view of an [`IgnoredRepairIssue`].
#[verifier::ext_equal]
pub struct IgnoredView {
    pub beatmapset_id: Option<i64>,
    pub beatmap_id: Option<i64>,
    pub beatmap_file: Seq<char>,
    pub message: Seq<char>,
}

impl View for IgnoredRepairIssue {
    type V = IgnoredView;

    open spec fn view(&self) -> IgnoredView {
        IgnoredView {
            beatmapset_id: self.beatmapset_id,
            beatmap_id: self.beatmap_id,
            beatmap_file: self.beatmap_file@,
            message: self.message@,
        }
    }
}

/// The views of a list of issues that are to be ignored.
pub open spec fn ignored_view(v: Seq<IgnoredRepairIssue>) -> Seq<IgnoredView> {
    Seq::new(v.len(), |i: int| v[i]@)
}

impl Clone for IgnoredRepairIssue {
    fn clone(&self) -> (r: Self)
        ensures
            r == *self,
    {
        IgnoredRepairIssue {
            beatmapset_id: self.beatmapset_id,
            beatmap_id: self.beatmap_id,
            beatmap_file: self.beatmap_file.clone(),
            message: self.message.clone(),
        }
    }
}

/// A copy of a list of issues.
pub fn copy_ignored(v: &Vec<IgnoredRepairIssue>) -> (r: Vec<IgnoredRepairIssue>)
    ensures
        r@ == v@,
{
    let mut r: Vec<IgnoredRepairIssue> = Vec::new();
    let mut i: usize = 0;
    while i < v.len()
        invariant
            i <= v@.len(),
            r@ == v@.take(i as int),
        decreases v@.len() - i,
    {
        r.push(v[i].clone());
        i = i + 1;
        assert(r@ =~= v@.take(i as int));
    }
    assert(v@.take(i as int) =~= v@);
    r
}

/// The issues that are to be ignored.
#[derive(Debug)]
pub struct RepairIgnoreStore {
    pub entries: Vec<IgnoredRepairIssue>,
}

/// The entry under which an issue of a map would be ignored.
pub open spec fn ignore_key(map: LocalBeatmap, message: Seq<char>) -> IgnoredView {
    IgnoredView {
        beatmapset_id: map.beatmapset_id,
        beatmap_id: map.beatmap_id,
        beatmap_file: match map.path.file_name {
            Some(n) => n@,
            None => ""@,
        },
        message,
    }
}

/// Whether the entries say that an issue of a map is to be ignored. Only
/// missing files can be.
pub open spec fn ignored(
    entries: Seq<IgnoredView>,
    map: LocalBeatmap,
    issue: IssueView,
) -> bool {
    issue.severity == RepairSeverity::MissingRequiredFile && entries.contains(
        ignore_key(map, issue.message),
    )
}

/// Whether an entry is one of a list.
fn lists(entries: &Vec<IgnoredRepairIssue>, wanted: &IgnoredRepairIssue) -> (r: bool)
    ensures
        r == ignored_view(entries@).contains(wanted@),
{
    let mut i: usize = 0;
    while i < entries.len()
        invariant
            i <= entries@.len(),
            forall|j: int| 0 <= j < i ==> ignored_view(entries@)[j] != wanted@,
        decreases entries@.len() - i,
    {
        let e = &entries[i];
        assert(ignored_view(entries@)[i as int] == e@);
        if e.beatmapset_id == wanted.beatmapset_id && e.beatmap_id == wanted.beatmap_id
            && same_text(&e.beatmap_file, &wanted.beatmap_file) && same_text(
            &e.message,
            &wanted.message,
        ) {
            assert(e@ =~= wanted@);
            return true;
        }
        i = i + 1;
    }
    false
}

/// The entries after `more` were added, each that is not there yet.
pub open spec fn ignores_with(entries: Seq<IgnoredView>, more: Seq<IgnoredView>) -> Seq<IgnoredView>
    decreases more.len(),
{
    if more.len() == 0 {
        entries
    } else {
        let before = ignores_with(entries, more.drop_last());
        if before.contains(more.last()) {
            before
        } else {
            before.push(more.last())
        }
    }
}

impl RepairIgnoreStore {
    /// No entries.
    pub fn new() -> (r: Self)
        ensures
            ignored_view(r.entries@) == Seq::<IgnoredView>::empty(),
    {
        let r = RepairIgnoreStore { entries: Vec::new() };
        assert(ignored_view(r.entries@) =~= Seq::empty());
        r
    }

    /// Whether an issue of a map is to be ignored.
    pub fn ignores(&self, map: &LocalBeatmap, issue: &RepairIssue) -> (r: bool)
        ensures
            r == ignored(ignored_view(self.entries@), *map, issue@),
    {
        if issue.severity != RepairSeverity::MissingRequiredFile {
            return false;
        }
        let wanted = IgnoredRepairIssue {
            beatmapset_id: map.beatmapset_id,
            beatmap_id: map.beatmap_id,
            beatmap_file: match &map.path.file_name {
                Some(n) => n.clone(),
                None => "".to_owned(),
            },
            message: issue.message.clone(),
        };
        assert(wanted@ =~= ignore_key(*map, issue@.message));
        lists(&self.entries, &wanted)
    }

    /// Adds entries, each that is not there yet. Tells how many are new.
    pub fn add(&mut self, more: &Vec<IgnoredRepairIssue>) -> (added: usize)
        ensures
            ignored_view(final(self).entries@) == ignores_with(
                ignored_view(old(self).entries@),
                ignored_view(more@),
            ),
            final(self).entries@.len() == old(self).entries@.len() + added,
            added <= more@.len(),
    {
        let ghost all = ignored_view(more@);
        let mut added: usize = 0;
        let mut i: usize = 0;
        assert(all.take(0) =~= seq![]);
        while i < more.len()
            invariant
                i <= more@.len(),
                all == ignored_view(more@),
                ignored_view(self.entries@) == ignores_with(
                    ignored_view(old(self).entries@),
                    all.take(i as int),
                ),
                self.entries@.len() == old(self).entries@.len() + added,
                added <= i,
            decreases more@.len() - i,
        {
            let ghost before = ignored_view(self.entries@);
            assert(all.take(i as int + 1).drop_last() =~= all.take(i as int));
            if !lists(&self.entries, &more[i]) {
                self.entries.push(more[i].clone());
                assert(ignored_view(self.entries@) =~= before.push(all[i as int]));
                added = added + 1;
            }
            i = i + 1;
        }
        assert(all.take(i as int) =~= all);
        added
    }
}

// ---- jobs ----

/// A set to be repaired.
#[derive(Debug)]
pub struct RepairJob {
    pub beatmapset_id: i64,
    pub labels: Vec<String>,
    pub folders: Vec<FilePath>,
    pub issues: Vec<String>,
    /// The names of the files that are missing.
    pub missing_files: Vec<String>,
    pub ignore_after_success: Vec<IgnoredRepairIssue>,
}

/// What is to be repaired of a set.
#[verifier::ext_equal]
pub struct JobView {
    pub labels: Seq<Seq<char>>,
    pub folders: Set<Seq<char>>,
    pub issues: Seq<Seq<char>>,
    pub missing: Set<Seq<char>>,
    pub ignores: Seq<IgnoredView>,
}

/// Whether a file that a map names exists: its audio file, its background file.
#[derive(Clone, Copy, Debug, PartialEq, Eq, Structural)]
pub struct FilesExist {
    pub audio: bool,
    pub background: bool,
}

/// The names of the files that a map names and that do not exist.
pub open spec fn missing_names(map: LocalBeatmap, exist: FilesExist) -> Set<Seq<char>> {
    let audio = if map.audio_filename is Some && !exist.audio {
        Set::empty().insert(map.audio_filename->0@)
    } else {
        Set::empty()
    };
    if map.background_filename is Some && !exist.background {
        audio.insert(map.background_filename->0@)
    } else {
        audio
    }
}

/// The names of the files that a map names and that do not exist: audio, then
/// background.
pub fn missing_asset_filenames(map: &LocalBeatmap, exist: FilesExist) -> (r: Vec<String>)
    ensures
        texts(r@).to_set() == missing_names(*map, exist),
        texts(r@) == (if map.audio_filename is Some && !exist.audio {
            seq![map.audio_filename->0@]
        } else {
            seq![]
        }) + (if map.background_filename is Some && !exist.background {
            seq![map.background_filename->0@]
        } else {
            seq![]
        }),
{
    let mut r: Vec<String> = Vec::new();
    if let Some(audio) = &map.audio_filename {
        if !exist.audio {
            r.push(audio.clone());
        }
    }
    if let Some(background) = &map.background_filename {
        if !exist.background {
            r.push(background.clone());
        }
    }
    let ghost a: Seq<Seq<char>> = if map.audio_filename is Some && !exist.audio {
        seq![map.audio_filename->0@]
    } else {
        seq![]
    };
    let ghost b: Seq<Seq<char>> = if map.background_filename is Some && !exist.background {
        seq![map.background_filename->0@]
    } else {
        seq![]
    };
    proof {
        let t = texts(r@);
        assert(t =~= a + b);
        assert forall|x: Seq<char>| #[trigger] t.to_set().contains(x) == missing_names(
            *map,
            exist,
        ).contains(x) by {
            if a.len() == 1 && x == a[0] {
                assert(t[0] == x);
            }
            if b.len() == 1 && x == b[0] {
                assert(t[a.len() as int] == x);
            }
        }
        assert(t.to_set() =~= missing_names(*map, exist));
    }
    r
}

/// How many problems are files that a map lacks.
pub open spec fn missing_count(problems: Seq<RepairIssue>) -> nat
    decreases problems.len(),
{
    if problems.len() == 0 {
        0
    } else {
        missing_count(problems.drop_last()) + (if problems.last().severity
            == RepairSeverity::MissingRequiredFile {
            1nat
        } else {
            0
        })
    }
}

/// How many problems are files that a map lacks.
pub fn count_missing_files(problems: &Vec<RepairIssue>) -> (r: usize)
    ensures
        r == missing_count(problems@),
{
    let mut r: usize = 0;
    let mut i: usize = 0;
    while i < problems.len()
        invariant
            i <= problems@.len(),
            r == missing_count(problems@.take(i as int)),
            r <= i,
        decreases problems@.len() - i,
    {
        assert(problems@.take(i as int + 1).drop_last() =~= problems@.take(i as int));
        if problems[i].severity == RepairSeverity::MissingRequiredFile {
            r = r + 1;
        }
        i = i + 1;
    }
    assert(problems@.take(i as int) =~= problems@);
    r
}

/// The messages on missing files of the beatmap at a path, in order.
pub open spec fn messages_on(problems: Seq<RepairIssue>, key: Seq<char>) -> Seq<Seq<char>>
    decreases problems.len(),
{
    if problems.len() == 0 {
        seq![]
    } else {
        let rest = messages_on(problems.drop_last(), key);
        let p = problems.last();
        if p.severity == RepairSeverity::MissingRequiredFile && p.beatmap.key@ == key {
            rest.push(p.message@)
        } else {
            rest
        }
    }
}

/// Whether a message is on a missing background.
pub open spec fn on_background(message: Seq<char>) -> bool {
    contains_text(lower_text(message), "missing background file"@)
}

/// The name of the file of a map, for people to read.
pub open spec fn shown_file(map: LocalBeatmap) -> Seq<char> {
    match map.path.file_name {
        Some(n) => n@,
        None => "unknown .osu"@,
    }
}

/// The job after one message on a map was taken in.
pub open spec fn with_message(job: JobView, map: LocalBeatmap, message: Seq<char>) -> JobView {
    let file = shown_file(map);
    let issues = job.issues.push(file + ": "@ + message);
    if on_background(message) {
        JobView {
            issues,
            missing: job.missing.insert(
                match map.background_filename {
                    Some(b) => b@,
                    None => file,
                },
            ),
            ignores: job.ignores.push(
                IgnoredView {
                    beatmapset_id: map.beatmapset_id,
                    beatmap_id: map.beatmap_id,
                    beatmap_file: file,
                    message,
                },
            ),
            ..job
        }
    } else {
        JobView { issues, ..job }
    }
}

/// The job after messages on a map were taken in.
pub open spec fn with_messages(job: JobView, map: LocalBeatmap, messages: Seq<Seq<char>>) -> JobView
    decreases messages.len(),
{
    if messages.len() == 0 {
        job
    } else {
        with_message(
            with_messages(job, map, messages.drop_last()),
            map,
            messages.last(),
        )
    }
}

/// The job after a map that lacks files was taken in.
pub open spec fn with_map(
    job: JobView,
    map: LocalBeatmap,
    exist: FilesExist,
    messages: Seq<Seq<char>>,
) -> JobView {
    with_messages(
        JobView {
            labels: job.labels.push(map_label(map)),
            folders: job.folders.insert(map.folder.key@),
            missing: job.missing.union(missing_names(map, exist)),
            ..job
        },
        map,
        messages,
    )
}

/// Nothing to repair.
pub open spec fn no_job() -> JobView {
    JobView {
        labels: seq![],
        folders: Set::empty(),
        issues: seq![],
        missing: Set::empty(),
        ignores: seq![],
    }
}

/// Whether a map takes part in the repair of the set `id`: it belongs to the
/// set, and there is a message on a file that it lacks.
pub open spec fn takes_part(map: LocalBeatmap, problems: Seq<RepairIssue>, id: i64) -> bool {
    map.beatmapset_id == Some(id) && messages_on(problems, map.path.key@).len() > 0
}

/// What is to be repaired of the set `id`.
pub open spec fn job_for(
    maps: Seq<LocalBeatmap>,
    exist: Seq<FilesExist>,
    problems: Seq<RepairIssue>,
    id: i64,
) -> JobView
    decreases maps.len(),
{
    if maps.len() == 0 {
        no_job()
    } else {
        let n = maps.len() - 1;
        let rest = job_for(maps.drop_last(), exist, problems, id);
        let map = maps.last();
        if takes_part(map, problems, id) {
            with_map(rest, map, exist[n], messages_on(problems, map.path.key@))
        } else {
            rest
        }
    }
}

/// What a job says is to be repaired.
pub open spec fn job_view(job: RepairJob) -> JobView {
    JobView {
        labels: texts(job.labels@),
        folders: keys_of(job.folders@).to_set(),
        issues: texts(job.issues@),
        missing: texts(job.missing_files@).to_set(),
        ignores: ignored_view(job.ignore_after_success@),
    }
}

/// Whether one of the jobs is for the set `id`.
pub open spec fn has_job(jobs: Seq<RepairJob>, id: i64) -> bool {
    exists|i: int| 0 <= i < jobs.len() && (#[trigger] jobs[i]).beatmapset_id == id
}

/// Whether `jobs` are the repairs of the maps: in ascending order of their
/// sets, each with what is to be repaired of its set, and one for every set
/// that lacks files. Folders and names of files are in ascending order.
pub open spec fn jobs_for(
    jobs: Seq<RepairJob>,
    maps: Seq<LocalBeatmap>,
    exist: Seq<FilesExist>,
    problems: Seq<RepairIssue>,
) -> bool {
    &&& forall|i: int, j: int|
        0 <= i < j < jobs.len() ==> (#[trigger] jobs[i]).beatmapset_id < (
        #[trigger] jobs[j]).beatmapset_id
    &&& forall|i: int|
        0 <= i < jobs.len() ==> job_view(#[trigger] jobs[i]) == job_for(
            maps,
            exist,
            problems,
            jobs[i].beatmapset_id,
        ) && jobs[i].labels@.len() > 0 && ascending(keys_of(jobs[i].folders@)) && ascending(
            texts(jobs[i].missing_files@),
        )
    &&& forall|i: int| 0 <= i < jobs.len() ==> folders_known((#[trigger] jobs[i]).folders@, maps)
    &&& forall|m: int, id: i64|
        0 <= m < maps.len() && #[trigger] takes_part(maps[m], problems, id) ==> has_job(jobs, id)
}

/// Whether a folder holds one of the maps.
pub open spec fn holds_a_map(folder: FilePath, maps: Seq<LocalBeatmap>) -> bool {
    exists|m: int| 0 <= m < maps.len() && (#[trigger] maps[m]).folder == folder
}

/// Whether every folder holds one of the maps.
pub open spec fn folders_known(folders: Seq<FilePath>, maps: Seq<LocalBeatmap>) -> bool {
    forall|k: int| 0 <= k < folders.len() ==> holds_a_map(#[trigger] folders[k], maps)
}

proof fn lemma_folders_known(
    folders: Seq<FilePath>,
    before: Seq<FilePath>,
    maps: Seq<LocalBeatmap>,
    map: LocalBeatmap,
)
    requires
        folders_known(before, maps),
        from_either(folders, before, map.folder),
    ensures
        folders_known(folders, maps.push(map)),
        folders_known(before, maps.push(map)),
{
    let now = maps.push(map);
    assert forall|k: int| 0 <= k < before.len() implies holds_a_map(#[trigger] before[k], now) by {
        let m = choose|m: int| 0 <= m < maps.len() && (#[trigger] maps[m]).folder == before[k];
        assert(now[m].folder == before[k]);
    }
    assert forall|k: int| 0 <= k < folders.len() implies holds_a_map(#[trigger] folders[k], now) by {
        if folders[k] == map.folder {
            assert(now[maps.len() as int].folder == folders[k]);
        } else {
            let j = choose|j: int| 0 <= j < before.len() && before[j] == folders[k];
            assert(holds_a_map(before[j], now));
        }
    }
}

/// A job that is being put together.
struct JobParts {
    id: i64,
    labels: Vec<String>,
    folders: PathSet,
    issues: Vec<String>,
    missing: TextSet,
    ignores: Vec<IgnoredRepairIssue>,
}

impl JobParts {
    spec fn wf(self) -> bool {
        self.folders.wf() && self.missing.wf()
    }

    spec fn shown(self) -> JobView {
        JobView {
            labels: texts(self.labels@),
            folders: self.folders@,
            issues: texts(self.issues@),
            missing: self.missing@,
            ignores: ignored_view(self.ignores@),
        }
    }

    fn new(id: i64) -> (r: Self)
        ensures
            r.wf(),
            r.id == id,
            r.shown() == no_job(),
            r.folders.items@.len() == 0,
    {
        let r = JobParts {
            id,
            labels: Vec::new(),
            folders: PathSet::new(),
            issues: Vec::new(),
            missing: TextSet::new(),
            ignores: Vec::new(),
        };
        assert(r.shown() =~= no_job());
        r
    }

    /// Takes in a message on a map.
    fn take_message(&mut self, map: &LocalBeatmap, message: &str)
        requires
            old(self).wf(),
        ensures
            final(self).wf(),
            final(self).id == old(self).id,
            final(self).labels == old(self).labels,
            final(self).folders == old(self).folders,
            final(self).shown() == with_message(old(self).shown(), *map, message@),
    {
        let file = match &map.path.file_name {
            Some(n) => n.clone(),
            None => "unknown .osu".to_owned(),
        };
        let ghost before = self.shown();
        self.issues.push(join3(&file, ": ", message));
        assert(texts(self.issues@) =~= before.issues.push(file@ + ": "@ + message@));
        if contains_str(&to_lower(message), "missing background file") {
            let name = match &map.background_filename {
                Some(b) => b.clone(),
                None => file.clone(),
            };
            self.missing.insert(name);
            let entry = IgnoredRepairIssue {
                beatmapset_id: map.beatmapset_id,
                beatmap_id: map.beatmap_id,
                beatmap_file: file,
                message: message.to_owned(),
            };
            self.ignores.push(entry);
            assert(ignored_view(self.ignores@) =~= before.ignores.push(entry@));
        }
        assert(self.shown() =~= with_message(before, *map, message@));
    }

    /// Takes in a map that lacks files.
    fn take_map(&mut self, map: &LocalBeatmap, exist: FilesExist, messages: &Vec<String>)
        requires
            old(self).wf(),
        ensures
            final(self).wf(),
            final(self).id == old(self).id,
            final(self).labels@.len() > 0,
            final(self).shown() == with_map(old(self).shown(), *map, exist, texts(messages@)),
            from_either(final(self).folders.items@, old(self).folders.items@, map.folder),
    {
        let ghost before = self.shown();
        let label = map.label();
        self.labels.push(label);
        self.folders.insert(map.folder.clone());
        let names = missing_asset_filenames(map, exist);
        let ghost all_names = texts(names@);
        let mut k: usize = 0;
        assert(self.missing@ =~= before.missing.union(all_names.take(0).to_set()));
        while k < names.len()
            invariant
                k <= names@.len(),
                all_names == texts(names@),
                self.wf(),
                self.id == old(self).id,
                self.folders@ == before.folders.insert(map.folder.key@),
                from_either(self.folders.items@, old(self).folders.items@, map.folder),
                texts(self.issues@) == before.issues,
                ignored_view(self.ignores@) == before.ignores,
                self.labels@ == old(self).labels@.push(label),
                before == old(self).shown(),
                self.missing@ == before.missing.union(all_names.take(k as int).to_set()),
            decreases names@.len() - k,
        {
            self.missing.insert(names[k].clone());
            proof {
                assert(all_names[k as int] == names@[k as int]@);
                crate::order::lemma_take_set(all_names, k as int);
                assert(self.missing@ =~= before.missing.union(
                    all_names.take(k as int + 1).to_set(),
                ));
            }
            k = k + 1;
        }
        let ghost start = JobView {
            labels: before.labels.push(map_label(*map)),
            folders: before.folders.insert(map.folder.key@),
            missing: before.missing.union(missing_names(*map, exist)),
            ..before
        };
        proof {
            assert(all_names.take(k as int) =~= all_names);
            assert(texts(self.labels@) =~= before.labels.push(label@));
            assert(self.shown() =~= start);
        }
        let ghost all = texts(messages@);
        let mut i: usize = 0;
        assert(all.take(0) =~= seq![]);
        while i < messages.len()
            invariant
                i <= messages@.len(),
                all == texts(messages@),
                self.wf(),
                self.id == old(self).id,
                self.labels@.len() > 0,
                from_either(self.folders.items@, old(self).folders.items@, map.folder),
                self.shown() == with_messages(start, *map, all.take(i as int)),
            decreases messages@.len() - i,
        {
            proof {
                assert(all.take(i as int + 1).drop_last() =~= all.take(i as int));
                assert(all.take(i as int + 1).last() == messages@[i as int]@);
            }
            self.take_message(map, &messages[i]);
            i = i + 1;
        }
        assert(all.take(i as int) =~= all);
    }

    /// The finished job.
    fn finish(self) -> (r: RepairJob)
        requires
            self.wf(),
        ensures
            r.beatmapset_id == self.id,
            job_view(r) == self.shown(),
            r.labels == self.labels,
            r.folders == self.folders.items,
            ascending(keys_of(r.folders@)),
            ascending(texts(r.missing_files@)),
    {
        assert(keys_of(self.folders.items@).to_set() =~= self.folders@);
        assert(texts(self.missing.items@).to_set() =~= self.missing@);
        RepairJob {
            beatmapset_id: self.id,
            labels: self.labels,
            folders: self.folders.items,
            issues: self.issues,
            missing_files: self.missing.items,
            ignore_after_success: self.ignores,
        }
    }
}

/// The messages on missing files of the beatmap at a path.
fn messages_for(problems: &Vec<RepairIssue>, key: &str) -> (r: Vec<String>)
    ensures
        texts(r@) == messages_on(problems@, key@),
{
    let mut r: Vec<String> = Vec::new();
    let mut i: usize = 0;
    assert(problems@.take(0) =~= seq![]);
    assert(texts(r@) =~= seq![]);
    while i < problems.len()
        invariant
            i <= problems@.len(),
            texts(r@) == messages_on(problems@.take(i as int), key@),
        decreases problems@.len() - i,
    {
        let ghost before = texts(r@);
        assert(problems@.take(i as int + 1).drop_last() =~= problems@.take(i as int));
        let p = &problems[i];
        if p.severity == RepairSeverity::MissingRequiredFile && same_text(&p.beatmap.key, key) {
            r.push(p.message.clone());
            assert(texts(r@) =~= before.push(p.message@));
        }
        i = i + 1;
    }
    assert(problems@.take(i as int) =~= problems@);
    r
}

/// Whether one of the parts is for the set `id`.
spec fn has_parts(parts: Seq<JobParts>, id: i64) -> bool {
    exists|i: int| 0 <= i < parts.len() && (#[trigger] parts[i]).id == id
}

/// The parts are the repairs of the maps so far.
spec fn parts_for(
    parts: Seq<JobParts>,
    maps: Seq<LocalBeatmap>,
    exist: Seq<FilesExist>,
    problems: Seq<RepairIssue>,
) -> bool {
    &&& forall|i: int, j: int|
        0 <= i < j < parts.len() ==> (#[trigger] parts[i]).id < (#[trigger] parts[j]).id
    &&& forall|i: int|
        0 <= i < parts.len() ==> (#[trigger] parts[i]).wf() && parts[i].shown() == job_for(
            maps,
            exist,
            problems,
            parts[i].id,
        ) && parts[i].labels@.len() > 0
    &&& forall|i: int|
        0 <= i < parts.len() ==> folders_known((#[trigger] parts[i]).folders.items@, maps)
    &&& forall|m: int, id: i64|
        0 <= m < maps.len() && #[trigger] takes_part(maps[m], problems, id) ==> has_parts(parts, id)
}

/// The first position whose set is not before `id`.
fn parts_position(parts: &Vec<JobParts>, id: i64) -> (k: usize)
    requires
        forall|i: int, j: int|
            0 <= i < j < parts@.len() ==> (#[trigger] parts@[i]).id < (#[trigger] parts@[j]).id,
    ensures
        k <= parts@.len(),
        forall|i: int| 0 <= i < k ==> (#[trigger] parts@[i]).id < id,
        forall|i: int| k <= i < parts@.len() ==> (#[trigger] parts@[i]).id >= id,
{
    let mut lo: usize = 0;
    let mut hi: usize = parts.len();
    while lo < hi
        invariant
            lo <= hi <= parts@.len(),
            forall|i: int, j: int|
                0 <= i < j < parts@.len() ==> (#[trigger] parts@[i]).id < (#[trigger] parts@[j]).id,
            forall|i: int| 0 <= i < lo ==> (#[trigger] parts@[i]).id < id,
            forall|i: int| hi <= i < parts@.len() ==> (#[trigger] parts@[i]).id >= id,
        decreases hi - lo,
    {
        let mid: usize = lo + (hi - lo) / 2;
        if parts[mid].id < id {
            lo = mid + 1;
        } else {
            hi = mid;
        }
    }
    lo
}

/// A set without a job has nothing to be repaired.
proof fn lemma_no_parts(
    parts: Seq<JobParts>,
    maps: Seq<LocalBeatmap>,
    exist: Seq<FilesExist>,
    problems: Seq<RepairIssue>,
    id: i64,
    n: int,
)
    requires
        parts_for(parts, maps, exist, problems),
        !has_parts(parts, id),
        0 <= n <= maps.len(),
    ensures
        job_for(maps.take(n), exist, problems, id) == no_job(),
    decreases n,
{
    if n > 0 {
        lemma_no_parts(parts, maps, exist, problems, id, n - 1);
        assert(maps.take(n).drop_last() =~= maps.take(n - 1));
        assert(maps.take(n).last() == maps[n - 1]);
        assert(!takes_part(maps[n - 1], problems, id));
    }
}

/// A map that takes part in no repair changes none.
proof fn lemma_no_part(
    parts: Seq<JobParts>,
    maps: Seq<LocalBeatmap>,
    exist: Seq<FilesExist>,
    problems: Seq<RepairIssue>,
    map: LocalBeatmap,
)
    requires
        parts_for(parts, maps, exist, problems),
        map.beatmapset_id is None || messages_on(problems, map.path.key@).len() == 0,
    ensures
        parts_for(parts, maps.push(map), exist, problems),
{
    let now = maps.push(map);
    assert(now.drop_last() =~= maps);
    assert forall|m: int, id: i64|
        0 <= m < now.len() && #[trigger] takes_part(now[m], problems, id) implies has_parts(
        parts,
        id,
    ) by {
        if m < maps.len() {
            assert(takes_part(maps[m], problems, id));
        }
    }
    assert forall|i: int| 0 <= i < parts.len() implies (#[trigger] parts[i]).wf()
        && parts[i].shown() == job_for(now, exist, problems, parts[i].id)
        && parts[i].labels@.len() > 0 by {
        assert(!takes_part(map, problems, parts[i].id));
    }
    assert forall|i: int| 0 <= i < parts.len() implies folders_known(
        (#[trigger] parts[i]).folders.items@,
        now,
    ) by {
        let folders = parts[i].folders.items@;
        assert(from_either(folders, folders, map.folder));
        lemma_folders_known(folders, folders, maps, map);
    }
}

/// Takes a map that lacks files into the job of its set.
#[verifier::rlimit(60)]
fn add_map(
    parts: &mut Vec<JobParts>,
    id: i64,
    map: &LocalBeatmap,
    here: FilesExist,
    messages: &Vec<String>,
    Ghost(maps): Ghost<Seq<LocalBeatmap>>,
    Ghost(exist): Ghost<Seq<FilesExist>>,
    Ghost(problems): Ghost<Seq<RepairIssue>>,
)
    requires
        parts_for(old(parts)@, maps, exist, problems),
        map.beatmapset_id == Some(id),
        here == exist[maps.len() as int],
        texts(messages@) == messages_on(problems, map.path.key@),
        messages@.len() > 0,
    ensures
        parts_for(final(parts)@, maps.push(*map), exist, problems),
{
    let ghost before = parts@;
    let ghost now = maps.push(*map);
    proof {
        assert(now.drop_last() =~= maps);
        assert(now.last() == *map);
        assert(texts(messages@).len() == messages@.len());
        assert(takes_part(*map, problems, id));
    }
    let k: usize = parts_position(parts, id);
    let found = k < parts.len() && parts[k].id == id;
    if found {
        parts[k].take_map(map, here, messages);
        proof {
            assert forall|i: int| 0 <= i < parts@.len() && i != k implies #[trigger] parts@[i]
                == before[i] by {}
            assert(parts@[k as int].shown() == job_for(now, exist, problems, id)) by {
                assert(before[k as int].shown() == job_for(maps, exist, problems, id));
            }
            assert forall|i: int| 0 <= i < parts@.len() implies (#[trigger] parts@[i]).wf()
                && parts@[i].shown() == job_for(now, exist, problems, parts@[i].id)
                && parts@[i].labels@.len() > 0 by {
                if i != k {
                    assert(before[i].shown() == job_for(maps, exist, problems, before[i].id));
                    if i < k {
                        assert(before[i].id < before[k as int].id);
                    } else {
                        assert(before[k as int].id < before[i].id);
                    }
                    assert(!takes_part(*map, problems, before[i].id));
                }
            }
            assert forall|i: int, j: int| 0 <= i < j < parts@.len() implies (#[trigger] parts@[i]).id
                < (#[trigger] parts@[j]).id by {
                assert(before[i].id < before[j].id);
            }
            assert forall|i: int| 0 <= i < parts@.len() implies folders_known(
                (#[trigger] parts@[i]).folders.items@,
                now,
            ) by {
                let known = before[i].folders.items@;
                lemma_folders_known(parts@[i].folders.items@, known, maps, *map);
            }
            assert forall|m: int, x: i64|
                0 <= m < now.len() && #[trigger] takes_part(now[m], problems, x) implies has_parts(
                parts@,
                x,
            ) by {
                if m < maps.len() {
                    assert(takes_part(maps[m], problems, x));
                    assert(has_parts(before, x));
                    let i = choose|i: int| 0 <= i < before.len() && (#[trigger] before[i]).id == x;
                    assert(parts@[i].id == x);
                } else {
                    assert(parts@[k as int].id == x);
                }
            }
        }
    } else {
        proof {
            assert(!has_parts(before, id));
            lemma_no_parts(before, maps, exist, problems, id, maps.len() as int);
            assert(maps.take(maps.len() as int) =~= maps);
        }
        let mut fresh = JobParts::new(id);
        let ghost empty = fresh.folders.items@;
        fresh.take_map(map, here, messages);
        parts.insert(k, fresh);
        proof {
            assert forall|i: int| 0 <= i < parts@.len() implies #[trigger] parts@[i] == (if i < k {
                before[i]
            } else if i == k {
                fresh
            } else {
                before[i - 1]
            }) by {}
            assert(fresh.shown() == job_for(now, exist, problems, id));
            assert forall|i: int| 0 <= i < parts@.len() implies folders_known(
                (#[trigger] parts@[i]).folders.items@,
                now,
            ) by {
                let known = if i == k {
                    seq![]
                } else {
                    parts@[i].folders.items@
                };
                if i < k {
                    assert(parts@[i] == before[i]);
                } else if i > k {
                    assert(parts@[i] == before[i - 1]);
                } else {
                    assert(empty =~= seq![]);
                }
                lemma_folders_known(parts@[i].folders.items@, known, maps, *map);
            }
            assert forall|i: int| 0 <= i < parts@.len() implies (#[trigger] parts@[i]).wf()
                && parts@[i].shown() == job_for(now, exist, problems, parts@[i].id)
                && parts@[i].labels@.len() > 0 by {
                if i != k {
                    let a = if i < k {
                        i
                    } else {
                        i - 1
                    };
                    assert(before[a].shown() == job_for(maps, exist, problems, before[a].id));
                    if before[a].id == id {
                        assert(has_parts(before, id));
                    }
                    assert(!takes_part(*map, problems, before[a].id));
                }
            }
            assert forall|i: int, j: int| 0 <= i < j < parts@.len() implies (#[trigger] parts@[i]).id
                < (#[trigger] parts@[j]).id by {
                if i == k {
                    if before[j - 1].id == id {
                        assert(has_parts(before, id));
                    }
                } else if j != k {
                    let a = if i < k {
                        i
                    } else {
                        i - 1
                    };
                    let b = if j < k {
                        j
                    } else {
                        j - 1
                    };
                    assert(before[a].id < before[b].id);
                }
            }
            assert forall|m: int, x: i64|
                0 <= m < now.len() && #[trigger] takes_part(now[m], problems, x) implies has_parts(
                parts@,
                x,
            ) by {
                if m < maps.len() {
                    assert(takes_part(maps[m], problems, x));
                    assert(has_parts(before, x));
                    let i = choose|i: int| 0 <= i < before.len() && (#[trigger] before[i]).id == x;
                    let a = if i < k {
                        i
                    } else {
                        i + 1
                    };
                    assert(parts@[a].id == x);
                } else {
                    assert(parts@[k as int].id == x);
                }
            }
        }
    }
}

/// The repairs of a scan, where it is known of each map whether the files that
/// it names exist.
pub fn repair_jobs(scan: &LibraryScan, exist: &Vec<FilesExist>) -> (jobs: Vec<RepairJob>)
    requires
        exist@.len() == scan.maps@.len(),
    ensures
        jobs_for(jobs@, scan.maps@, exist@, scan.problems@),
{
    let ghost maps = scan.maps@;
    let ghost problems = scan.problems@;
    let mut parts: Vec<JobParts> = Vec::new();
    let mut i: usize = 0;
    assert(maps.take(0) =~= seq![]);
    while i < scan.maps.len()
        invariant
            i <= scan.maps@.len(),
            exist@.len() == scan.maps@.len(),
            maps == scan.maps@,
            problems == scan.problems@,
            parts_for(parts@, maps.take(i as int), exist@, problems),
        decreases scan.maps@.len() - i,
    {
        let map = &scan.maps[i];
        let ghost part = maps.take(i as int);
        assert(part.push(*map) =~= maps.take(i as int + 1));
        let messages = messages_for(&scan.problems, &map.path.key);
        assert(texts(messages@).len() == messages@.len());
        let wanted: Option<i64> = if messages.len() > 0 {
            map.beatmapset_id
        } else {
            None
        };
        match wanted {
            Some(id) => {
                add_map(
                    &mut parts,
                    id,
                    map,
                    exist[i],
                    &messages,
                    Ghost(part),
                    Ghost(exist@),
                    Ghost(problems),
                );
            },
            None => {
                proof {
                    lemma_no_part(parts@, part, exist@, problems, *map);
                }
            },
        }
        i = i + 1;
    }
    assert(maps.take(i as int) =~= maps);
    let ghost all = parts@;
    let mut jobs: Vec<RepairJob> = Vec::new();
    let mut rest = parts;
    while rest.len() > 0
        invariant
            parts_for(all, maps, exist@, problems),
            rest@.len() + jobs@.len() == all.len(),
            forall|j: int| 0 <= j < rest@.len() ==> #[trigger] rest@[j] == all[j + jobs@.len()],
            forall|j: int|
                0 <= j < jobs@.len() ==> (#[trigger] jobs@[j]).beatmapset_id == all[j].id
                    && job_view(jobs@[j]) == all[j].shown() && jobs@[j].labels == all[j].labels
                    && jobs@[j].folders == all[j].folders.items
                    && ascending(keys_of(jobs@[j].folders@)) && ascending(
                    texts(jobs@[j].missing_files@),
                ),
        decreases rest@.len(),
    {
        let ghost done = jobs@.len();
        assert(rest@[0] == all[done as int]);
        let first = rest.remove(0);
        assert(first == all[done as int]);
        jobs.push(first.finish());
        assert forall|j: int| 0 <= j < rest@.len() implies #[trigger] rest@[j] == all[j
            + jobs@.len()] by {}
    }
    proof {
        assert forall|m: int, id: i64|
            0 <= m < maps.len() && #[trigger] takes_part(maps[m], problems, id) implies has_job(
            jobs@,
            id,
        ) by {
            assert(has_parts(all, id));
            let j = choose|j: int| 0 <= j < all.len() && (#[trigger] all[j]).id == id;
            assert(jobs@[j].beatmapset_id == id);
        }
        assert forall|a: int, b: int| 0 <= a < b < jobs@.len() implies (
        #[trigger] jobs@[a]).beatmapset_id < (#[trigger] jobs@[b]).beatmapset_id by {
            assert(all[a].id < all[b].id);
        }
    }
    jobs
}

/// A set with a map that lacks files has a job. Every missing file that such a
/// map names is in the job of its set, and so is the folder of the map.
pub proof fn law_jobs_cover_missing_files(
    jobs: Seq<RepairJob>,
    maps: Seq<LocalBeatmap>,
    exist: Seq<FilesExist>,
    problems: Seq<RepairIssue>,
    m: int,
    id: i64,
)
    requires
        jobs_for(jobs, maps, exist, problems),
        0 <= m < maps.len(),
        takes_part(maps[m], problems, id),
    ensures
        has_job(jobs, id),
        missing_names(maps[m], exist[m]).subset_of(job_for(maps, exist, problems, id).missing),
        job_for(maps, exist, problems, id).folders.contains(maps[m].folder.key@),
    decreases maps.len(),
{
    assert(has_job(jobs, id));
    lemma_job_covers(maps, exist, problems, m, id);
}

proof fn lemma_messages_grow(job: JobView, map: LocalBeatmap, messages: Seq<Seq<char>>)
    ensures
        job.missing.subset_of(with_messages(job, map, messages).missing),
        job.folders == with_messages(job, map, messages).folders,
    decreases messages.len(),
{
    if messages.len() > 0 {
        lemma_messages_grow(job, map, messages.drop_last());
    }
}

proof fn lemma_job_covers(
    maps: Seq<LocalBeatmap>,
    exist: Seq<FilesExist>,
    problems: Seq<RepairIssue>,
    m: int,
    id: i64,
)
    requires
        0 <= m < maps.len(),
        takes_part(maps[m], problems, id),
    ensures
        missing_names(maps[m], exist[m]).subset_of(job_for(maps, exist, problems, id).missing),
        job_for(maps, exist, problems, id).folders.contains(maps[m].folder.key@),
    decreases maps.len(),
{
    let n = maps.len() - 1;
    let rest = job_for(maps.drop_last(), exist, problems, id);
    let map = maps.last();
    let messages = messages_on(problems, map.path.key@);
    let start = JobView {
        labels: rest.labels.push(map_label(map)),
        folders: rest.folders.insert(map.folder.key@),
        missing: rest.missing.union(missing_names(map, exist[n])),
        ..rest
    };
    lemma_messages_grow(start, map, messages);
    if m < n {
        assert(maps.drop_last()[m] == maps[m]);
        lemma_job_covers(maps.drop_last(), exist, problems, m, id);
    }
}

/// After a repair the missing backgrounds that it was made for are ignored:
/// once the entries of the job are added, the messages on them no longer count,
/// wherever the file has a name.
pub proof fn law_repaired_backgrounds_are_ignored(
    entries: Seq<IgnoredView>,
    maps: Seq<LocalBeatmap>,
    exist: Seq<FilesExist>,
    problems: Seq<RepairIssue>,
    m: int,
    id: i64,
    issue: IssueView,
)
    requires
        0 <= m < maps.len(),
        takes_part(maps[m], problems, id),
        maps[m].path.file_name is Some,
        messages_on(problems, maps[m].path.key@).contains(issue.message),
        on_background(issue.message),
        issue.severity == RepairSeverity::MissingRequiredFile,
    ensures
        ignored(
            ignores_with(entries, job_for(maps, exist, problems, id).ignores),
            maps[m],
            issue,
        ),
{
    lemma_job_ignores(maps, exist, problems, m, id, issue.message);
    let more = job_for(maps, exist, problems, id).ignores;
    let k = choose|k: int|
        0 <= k < more.len() && more[k] == ignore_key(maps[m], issue.message);
    lemma_ignores_with(entries, more, k);
}

proof fn lemma_ignores_with(entries: Seq<IgnoredView>, more: Seq<IgnoredView>, k: int)
    requires
        0 <= k < more.len(),
    ensures
        ignores_with(entries, more).contains(more[k]),
    decreases more.len(),
{
    let before = ignores_with(entries, more.drop_last());
    let now = ignores_with(entries, more);
    if k < more.len() - 1 {
        lemma_ignores_with(entries, more.drop_last(), k);
        let i = choose|i: int| 0 <= i < before.len() && before[i] == more[k];
        assert(now[i] == more[k]);
    } else if !before.contains(more.last()) {
        assert(now[before.len() as int] == more[k]);
    }
}

proof fn lemma_messages_ignore(
    job: JobView,
    map: LocalBeatmap,
    messages: Seq<Seq<char>>,
    old_entry: IgnoredView,
    message: Seq<char>,
)
    ensures
        job.ignores.contains(old_entry) ==> with_messages(job, map, messages).ignores.contains(
            old_entry,
        ),
        map.path.file_name is Some && messages.contains(message) && on_background(message)
            ==> with_messages(job, map, messages).ignores.contains(ignore_key(map, message)),
    decreases messages.len(),
{
    if messages.len() > 0 {
        let rest = messages.drop_last();
        let before = with_messages(job, map, rest);
        let now = with_messages(job, map, messages);
        lemma_messages_ignore(job, map, rest, old_entry, message);
        assert forall|e: IgnoredView| before.ignores.contains(e) implies now.ignores.contains(e) by {
            let i = choose|i: int| 0 <= i < before.ignores.len() && before.ignores[i] == e;
            assert(now.ignores[i] == e);
        }
        if map.path.file_name is Some && messages.contains(message) && on_background(message) {
            let i = choose|i: int| 0 <= i < messages.len() && messages[i] == message;
            if i < rest.len() {
                assert(rest[i] == message);
            } else {
                assert(now.ignores[before.ignores.len() as int] == ignore_key(map, message));
            }
        }
    }
}

proof fn lemma_job_ignores(
    maps: Seq<LocalBeatmap>,
    exist: Seq<FilesExist>,
    problems: Seq<RepairIssue>,
    m: int,
    id: i64,
    message: Seq<char>,
)
    requires
        0 <= m < maps.len(),
        takes_part(maps[m], problems, id),
        maps[m].path.file_name is Some,
        messages_on(problems, maps[m].path.key@).contains(message),
        on_background(message),
    ensures
        job_for(maps, exist, problems, id).ignores.contains(ignore_key(maps[m], message)),
    decreases maps.len(),
{
    let n = maps.len() - 1;
    let rest = job_for(maps.drop_last(), exist, problems, id);
    let map = maps.last();
    let start = JobView {
        labels: rest.labels.push(map_label(map)),
        folders: rest.folders.insert(map.folder.key@),
        missing: rest.missing.union(missing_names(map, exist[n])),
        ..rest
    };
    lemma_messages_ignore(
        start,
        map,
        messages_on(problems, map.path.key@),
        ignore_key(maps[m], message),
        message,
    );
    if m < n {
        assert(maps.drop_last()[m] == maps[m]);
        lemma_job_ignores(maps.drop_last(), exist, problems, m, id, message);
    }
}

// ---- taking files out of a download ----

/// The message for a repair without a backend.
pub fn refuse_backend(backend_url: &str) -> (r: Option<String>)
    ensures
        opt_text(r) == (if trim_text(backend_url@).len() == 0 {
            Some("backend URL is required for automatic repair downloads"@)
        } else {
            None
        }),
{
    if chars_of(&trim(backend_url)).len() == 0 {
        Some("backend URL is required for automatic repair downloads".to_owned())
    } else {
        None
    }
}

/// The names in lower case.
pub open spec fn lowered(names: Seq<Seq<char>>) -> Set<Seq<char>> {
    Set::new(|t: Seq<char>| is_lowered(names, t))
}

/// Whether `t` is one of the names in lower case.
pub open spec fn is_lowered(names: Seq<Seq<char>>, t: Seq<char>) -> bool {
    exists|i: int| 0 <= i < names.len() && lower_text(#[trigger] names[i]) == t
}

/// The names in lower case.
pub fn lower_names(names: &Vec<String>) -> (r: TextSet)
    ensures
        r.wf(),
        r@ == lowered(texts(names@)),
{
    let ghost all = texts(names@);
    let mut r = TextSet::new();
    let mut i: usize = 0;
    assert(r@ =~= lowered(all.take(0)));
    while i < names.len()
        invariant
            i <= names@.len(),
            all == texts(names@),
            r.wf(),
            r@ == lowered(all.take(i as int)),
        decreases names@.len() - i,
    {
        let low = to_lower(&names[i]);
        r.insert(low);
        proof {
            let a = all.take(i as int);
            let b = all.take(i as int + 1);
            assert(b[i as int] == names@[i as int]@);
            assert forall|t: Seq<char>| is_lowered(b, t) <==> is_lowered(a, t) || t == low@ by {
                if is_lowered(b, t) {
                    let j = choose|j: int| 0 <= j < b.len() && lower_text(#[trigger] b[j]) == t;
                    if j < i {
                        assert(lower_text(a[j]) == t);
                    }
                }
                if is_lowered(a, t) {
                    let j = choose|j: int| 0 <= j < a.len() && lower_text(#[trigger] a[j]) == t;
                    assert(lower_text(b[j]) == t);
                }
                if t == low@ {
                    assert(lower_text(b[i as int]) == t);
                }
            }
            assert(r@ =~= lowered(b));
        }
        i = i + 1;
    }
    assert(all.take(i as int) =~= all);
    r
}

/// Whether an entry of a download is written to the folder: a file that is
/// wanted, or one that the folder does not have. A file that is there and not
/// wanted is never written over.
pub open spec fn restores(wanted: Set<Seq<char>>, file_name: Seq<char>, exists_there: bool) -> bool {
    file_name.len() > 0 && (wanted.contains(lower_text(file_name)) || !exists_there)
}

/// Whether an entry of a download is written to the folder.
pub fn should_restore(wanted: &TextSet, file_name: &str, exists_there: bool) -> (r: bool)
    requires
        wanted.wf(),
    ensures
        r == restores(wanted@, file_name@, exists_there),
{
    chars_of(file_name).len() > 0 && (wanted.contains(&to_lower(file_name)) || !exists_there)
}

/// A repair leaves every file alone that is there and was not reported as
/// missing.
pub proof fn law_repair_never_clobbers(missing: Seq<Seq<char>>, file_name: Seq<char>)
    requires
        forall|i: int|
            0 <= i < missing.len() ==> lower_text(#[trigger] missing[i]) != lower_text(file_name),
    ensures
        !restores(lowered(missing), file_name, true),
{
}

/// What a repair restored.
#[derive(Debug)]
pub struct RepairOutcome {
    pub restored_files: Vec<String>,
    pub download_source: String,
}

/// The missing files that a repair did not bring back: those that are in none
/// of the folders and were not restored.
pub open spec fn still_missing(
    missing: Seq<Seq<char>>,
    present: Seq<bool>,
    restored: Set<Seq<char>>,
) -> Seq<Seq<char>>
    decreases missing.len(),
{
    if missing.len() == 0 {
        seq![]
    } else {
        let n = missing.len() - 1;
        let rest = still_missing(missing.drop_last(), present, restored);
        if !present[n] && !restored.contains(lower_text(missing.last())) {
            rest.push(missing.last())
        } else {
            rest
        }
    }
}

/// Why a repair failed that left these files missing.
pub open spec fn repair_fault(left: Seq<Seq<char>>) -> Option<Seq<char>> {
    if left.len() == 0 {
        None
    } else {
        Some("download did not contain the missing file(s): "@ + join_texts(left, ", "@))
    }
}

/// Why a repair failed, if it did: `present` says of each missing file of the
/// job whether one of the folders has it by now.
pub fn verify_repair(job: &RepairJob, present: &Vec<bool>, restored_files: &Vec<String>) -> (r: Option<
    String,
>)
    requires
        present@.len() == job.missing_files@.len(),
    ensures
        ({
            let left = still_missing(
                texts(job.missing_files@),
                present@,
                lowered(texts(restored_files@)),
            );
            opt_text(r) == repair_fault(left)
        }),
{
    let restored = lower_names(restored_files);
    let ghost all = texts(job.missing_files@);
    let ghost low = lowered(texts(restored_files@));
    let mut left: Vec<String> = Vec::new();
    let mut i: usize = 0;
    assert(all.take(0) =~= seq![]);
    assert(texts(left@) =~= seq![]);
    while i < job.missing_files.len()
        invariant
            i <= job.missing_files@.len(),
            present@.len() == job.missing_files@.len(),
            all == texts(job.missing_files@),
            restored.wf(),
            restored@ == low,
            texts(left@) == still_missing(all.take(i as int), present@, low),
        decreases job.missing_files@.len() - i,
    {
        let ghost before = texts(left@);
        proof {
            assert(all.take(i as int + 1).drop_last() =~= all.take(i as int));
            assert(all.take(i as int + 1).last() == job.missing_files@[i as int]@);
        }
        if !present[i] && !restored.contains(&to_lower(&job.missing_files[i])) {
            left.push(job.missing_files[i].clone());
            assert(texts(left@) =~= before.push(all[i as int]));
        }
        i = i + 1;
    }
    assert(all.take(i as int) =~= all);
    assert(texts(left@).len() == left@.len());
    if left.len() == 0 {
        None
    } else {
        Some(join2("download did not contain the missing file(s): ", &join(&left, ", ")))
    }
}

// ---- the course of a repair ----

/// What a repair reports.
#[derive(Debug)]
pub enum RepairEvent {
    Started { total: usize },
    Opening { beatmapset_id: i64, index: usize, total: usize },
    Repaired {
        beatmapset_id: i64,
        folder_count: usize,
        restored_files: Vec<String>,
        download_source: String,
        ignored_after_success: Vec<IgnoredRepairIssue>,
    },
    Failed { beatmapset_id: i64, message: String },
    Finished,
}

/// The report on the job at `index`, before it is worked on.
pub fn repair_opening(jobs: &Vec<RepairJob>, index: usize) -> (r: RepairEvent)
    requires
        index < jobs@.len(),
    ensures
        r == (RepairEvent::Opening {
            beatmapset_id: jobs@[index as int].beatmapset_id,
            index: (index + 1) as usize,
            total: jobs@.len() as usize,
        }),
{
    let total: usize = jobs.len();
    RepairEvent::Opening { beatmapset_id: jobs[index].beatmapset_id, index: index + 1, total }
}

/// The report on a job that was worked on.
pub fn repair_result(job: &RepairJob, result: Result<RepairOutcome, String>) -> (r: RepairEvent)
    ensures
        match result {
            Ok(outcome) => r matches RepairEvent::Repaired {
                beatmapset_id,
                folder_count,
                restored_files,
                download_source,
                ignored_after_success,
            } && beatmapset_id == job.beatmapset_id && folder_count == job.folders@.len()
                && restored_files == outcome.restored_files && download_source
                == outcome.download_source && ignored_after_success@ == job.ignore_after_success@,
            Err(message) => r == (RepairEvent::Failed {
                beatmapset_id: job.beatmapset_id,
                message,
            }),
        },
{
    match result {
        Ok(outcome) => RepairEvent::Repaired {
            beatmapset_id: job.beatmapset_id,
            folder_count: job.folders.len(),
            restored_files: outcome.restored_files,
            download_source: outcome.download_source,
            ignored_after_success: copy_ignored(&job.ignore_after_success),
        },
        Err(message) => RepairEvent::Failed { beatmapset_id: job.beatmapset_id, message },
    }
}

/// How a job stands.
#[derive(Clone, Copy, Debug, PartialEq, Eq, Structural)]
pub enum RepairLogStatus {
    InProgress,
    Success,
    Failed,
}

/// How the job of a set stands.
#[derive(Debug)]
pub struct RepairLogEntry {
    pub beatmapset_id: i64,
    pub status: RepairLogStatus,
    pub message: String,
}

/// The view of a [`RepairLogEntry`].
#[verifier::ext_equal]
pub struct LogView {
    pub beatmapset_id: i64,
    pub status: RepairLogStatus,
    pub message: Seq<char>,
}

impl View for RepairLogEntry {
    type V = LogView;

    open spec fn view(&self) -> LogView {
        LogView {
            beatmapset_id: self.beatmapset_id,
            status: self.status,
            message: self.message@,
        }
    }
}

/// The views of a log.
pub open spec fn log_view(v: Seq<RepairLogEntry>) -> Seq<LogView> {
    Seq::new(v.len(), |i: int| v[i]@)
}

/// The position of the first entry for a set, or the length of the log.
pub open spec fn log_place(log: Seq<LogView>, id: i64) -> nat
    decreases log.len(),
{
    if log.len() == 0 || log[0].beatmapset_id == id {
        0
    } else {
        1 + log_place(log.drop_first(), id)
    }
}

/// The log after the entry of a set was changed, or added at the end.
pub open spec fn log_with(log: Seq<LogView>, entry: LogView) -> Seq<LogView> {
    let k = log_place(log, entry.beatmapset_id) as int;
    if k < log.len() {
        log.update(k, entry)
    } else {
        log.push(entry)
    }
}

proof fn lemma_log_place(log: Seq<LogView>, id: i64)
    ensures
        log_place(log, id) <= log.len(),
        forall|i: int| 0 <= i < log_place(log, id) ==> (#[trigger] log[i]).beatmapset_id != id,
        log_place(log, id) < log.len() ==> log[log_place(log, id) as int].beatmapset_id == id,
    decreases log.len(),
{
    if log.len() > 0 && log[0].beatmapset_id != id {
        lemma_log_place(log.drop_first(), id);
        assert forall|i: int| 0 <= i < log_place(log, id) implies (#[trigger] log[i]).beatmapset_id
            != id by {
            if i > 0 {
                assert(log[i] == log.drop_first()[i - 1]);
            }
        }
    }
}

/// Changes the entry of a set, or adds one.
pub fn upsert_log(
    log: &mut Vec<RepairLogEntry>,
    beatmapset_id: i64,
    status: RepairLogStatus,
    message: String,
)
    ensures
        log_view(final(log)@) == log_with(
            log_view(old(log)@),
            LogView { beatmapset_id, status, message: message@ },
        ),
{
    let ghost all = log_view(log@);
    let mut k: usize = 0;
    proof {
        lemma_log_place(all, beatmapset_id);
    }
    while k < log.len() && log[k].beatmapset_id != beatmapset_id
        invariant
            k <= log@.len(),
            log@ == old(log)@,
            all == log_view(log@),
            forall|i: int| 0 <= i < k ==> (#[trigger] all[i]).beatmapset_id != beatmapset_id,
        decreases log@.len() - k,
    {
        assert(all[k as int] == log@[k as int]@);
        k = k + 1;
    }
    proof {
        let p = log_place(all, beatmapset_id) as int;
        if k < log@.len() {
            assert(all[k as int] == log@[k as int]@);
        }
        if p < k {
            assert(all[p].beatmapset_id == beatmapset_id);
        } else if k < p {
            assert(all[k as int].beatmapset_id != beatmapset_id);
        }
    }
    let entry = RepairLogEntry { beatmapset_id, status, message };
    if k < log.len() {
        log.set(k, entry);
    } else {
        log.push(entry);
    }
    assert(log_view(log@) =~= log_with(all, entry@));
}

/// Whether no set has two entries.
pub open spec fn one_each(log: Seq<LogView>) -> bool {
    forall|i: int, j: int|
        0 <= i < j < log.len() ==> (#[trigger] log[i]).beatmapset_id != (
        #[trigger] log[j]).beatmapset_id
}

/// A log keeps one entry for each set; an entry for one set leaves those for
/// the others as they are, in their places.
pub proof fn law_one_entry_for_each_set(log: Seq<LogView>, entry: LogView)
    requires
        one_each(log),
    ensures
        one_each(log_with(log, entry)),
        log_with(log, entry).contains(entry),
        forall|i: int|
            0 <= i < log.len() && (#[trigger] log[i]).beatmapset_id != entry.beatmapset_id
                ==> log_with(log, entry)[i] == log[i],
{
    lemma_log_place(log, entry.beatmapset_id);
    let k = log_place(log, entry.beatmapset_id) as int;
    let now = log_with(log, entry);
    assert(now[k] == entry);
    assert forall|i: int, j: int| 0 <= i < j < now.len() implies (#[trigger] now[i]).beatmapset_id
        != (#[trigger] now[j]).beatmapset_id by {
        if i == k {
            if j < log.len() {
                assert(log[k].beatmapset_id != log[j].beatmapset_id);
            }
        } else if j == k {
            assert(log[i].beatmapset_id != entry.beatmapset_id);
        } else {
            assert(log[i].beatmapset_id != log[j].beatmapset_id);
        }
    }
}

// ---- what repairs are for ----

/// The missing files of a map are the files that it names and that are not there,
/// each whether or not the other one is there, and nothing else.
pub proof fn law_missing_names(map: LocalBeatmap, exist: FilesExist, name: Seq<char>)
    ensures
        missing_names(map, exist).contains(name) <==> (map.audio_filename is Some && !exist.audio
            && map.audio_filename->0@ == name) || (map.background_filename is Some
            && !exist.background && map.background_filename->0@ == name),
{
}

/// An issue is ignored if and only if it is a missing file and there is an entry
/// for it: for the same set, the same difficulty, the same file and the same
/// message.
pub proof fn law_ignored_issues(
    entries: Seq<IgnoredView>,
    map: LocalBeatmap,
    issue: IssueView,
    i: int,
)
    requires
        map.path.file_name is Some,
    ensures
        issue.severity != RepairSeverity::MissingRequiredFile ==> !ignored(entries, map, issue),
        issue.severity == RepairSeverity::MissingRequiredFile && 0 <= i < entries.len()
            && entries[i].beatmapset_id == map.beatmapset_id && entries[i].beatmap_id
            == map.beatmap_id && entries[i].beatmap_file == map.path.file_name->0@
            && entries[i].message == issue.message ==> ignored(entries, map, issue),
        ignored(entries, map, issue) ==> exists|j: int|
            0 <= j < entries.len() && (#[trigger] entries[j]).beatmapset_id == map.beatmapset_id
                && entries[j].beatmap_id == map.beatmap_id && entries[j].beatmap_file
                == map.path.file_name->0@ && entries[j].message == issue.message,
{
    let key = ignore_key(map, issue.message);
    if 0 <= i < entries.len() && entries[i].beatmapset_id == map.beatmapset_id
        && entries[i].beatmap_id == map.beatmap_id && entries[i].beatmap_file
        == map.path.file_name->0@ && entries[i].message == issue.message {
        assert(entries[i] =~= key);
        assert(entries.contains(key));
    }
    if ignored(entries, map, issue) {
        let j = choose|j: int| 0 <= j < entries.len() && entries[j] == key;
        assert(entries[j].beatmapset_id == map.beatmapset_id);
    }
}

/// Entries that are added to those to ignore stand behind them, each once; none
/// is lost and none comes from elsewhere.
pub proof fn law_ignores_grow(entries: Seq<IgnoredView>, more: Seq<IgnoredView>)
    ensures
        entries.len() <= ignores_with(entries, more).len(),
        ignores_with(entries, more).take(entries.len() as int) == entries,
        forall|k: int|
            0 <= k < more.len() ==> ignores_with(entries, more).contains(#[trigger] more[k]),
        forall|k: int|
            entries.len() <= k < ignores_with(entries, more).len() ==> more.contains(
                #[trigger] ignores_with(entries, more)[k],
            ),
        entries.no_duplicates() ==> ignores_with(entries, more).no_duplicates(),
    decreases more.len(),
{
    let all = ignores_with(entries, more);
    if more.len() == 0 {
        assert(all.take(entries.len() as int) =~= entries);
    } else {
        let init = more.drop_last();
        let before = ignores_with(entries, init);
        law_ignores_grow(entries, init);
        assert(all.take(entries.len() as int) =~= before.take(entries.len() as int));
        assert forall|k: int| 0 <= k < more.len() implies all.contains(#[trigger] more[k]) by {
            if k < init.len() {
                assert(before.contains(init[k]));
                let j = choose|j: int| 0 <= j < before.len() && before[j] == init[k];
                assert(all[j] == more[k]);
            } else if before.contains(more.last()) {
                assert(all == before);
            } else {
                assert(all[before.len() as int] == more[k]);
            }
        }
        assert forall|k: int| entries.len() <= k < all.len() implies more.contains(
            #[trigger] all[k],
        ) by {
            if k < before.len() {
                assert(all[k] == before[k]);
                assert(init.contains(before[k]));
                let j = choose|j: int| 0 <= j < init.len() && init[j] == before[k];
                assert(more[j] == all[k]);
            } else {
                assert(more[more.len() - 1] == all[k]);
            }
        }
    }
}

/// Every missing file counts once, and a problem of another kind does not count.
/// The messages on a map are those of its missing files, in their order.
pub proof fn law_problems_of_map(problems: Seq<RepairIssue>, p: RepairIssue, key: Seq<char>)
    ensures
        missing_count(seq![]) == 0,
        missing_count(problems.push(p)) == missing_count(problems) + (if p.severity
            == RepairSeverity::MissingRequiredFile {
            1int
        } else {
            0
        }),
        messages_on(seq![], key) == Seq::<Seq<char>>::empty(),
        p.severity == RepairSeverity::MissingRequiredFile && p.beatmap.key@ == key ==> messages_on(
            problems.push(p),
            key,
        ) == messages_on(problems, key).push(p.message@),
        p.severity != RepairSeverity::MissingRequiredFile || p.beatmap.key@ != key ==> messages_on(
            problems.push(p),
            key,
        ) == messages_on(problems, key),
{
    assert(problems.push(p).drop_last() =~= problems);
}

proof fn lemma_messages_on(problems: Seq<RepairIssue>, key: Seq<char>, i: int)
    requires
        0 <= i < problems.len(),
        problems[i].severity == RepairSeverity::MissingRequiredFile,
        problems[i].beatmap.key@ == key,
    ensures
        messages_on(problems, key).contains(problems[i].message@),
    decreases problems.len(),
{
    let rest = messages_on(problems.drop_last(), key);
    let all = messages_on(problems, key);
    if i < problems.len() - 1 {
        assert(problems.drop_last()[i] == problems[i]);
        lemma_messages_on(problems.drop_last(), key, i);
        let j = choose|j: int| 0 <= j < rest.len() && rest[j] == problems[i].message@;
        assert(all[j] == problems[i].message@);
    } else {
        assert(all[rest.len() as int] == problems[i].message@);
    }
}

proof fn lemma_no_messages(problems: Seq<RepairIssue>, key: Seq<char>)
    requires
        forall|i: int|
            0 <= i < problems.len() ==> (#[trigger] problems[i]).severity
                != RepairSeverity::MissingRequiredFile || problems[i].beatmap.key@ != key,
    ensures
        messages_on(problems, key).len() == 0,
    decreases problems.len(),
{
    if problems.len() > 0 {
        let init = problems.drop_last();
        assert forall|i: int| 0 <= i < init.len() implies (#[trigger] init[i]).severity
            != RepairSeverity::MissingRequiredFile || init[i].beatmap.key@ != key by {
            assert(init[i] == problems[i]);
        }
        assert(problems[problems.len() - 1].severity != RepairSeverity::MissingRequiredFile
            || problems[problems.len() - 1].beatmap.key@ != key);
        lemma_no_messages(init, key);
    }
}

/// A map is part of the repair of its set if and only if one of the problems is a
/// missing file of that map.
pub proof fn law_repaired_maps(map: LocalBeatmap, problems: Seq<RepairIssue>, id: i64, i: int)
    ensures
        map.beatmapset_id == Some(id) && 0 <= i < problems.len() && problems[i].severity
            == RepairSeverity::MissingRequiredFile && problems[i].beatmap.key@ == map.path.key@
            ==> takes_part(map, problems, id),
        map.beatmapset_id != Some(id) ==> !takes_part(map, problems, id),
        (forall|j: int|
            0 <= j < problems.len() ==> (#[trigger] problems[j]).severity
                != RepairSeverity::MissingRequiredFile || problems[j].beatmap.key@ != map.path.key@)
            ==> !takes_part(map, problems, id),
{
    if 0 <= i < problems.len() && problems[i].severity == RepairSeverity::MissingRequiredFile
        && problems[i].beatmap.key@ == map.path.key@ {
        lemma_messages_on(problems, map.path.key@, i);
    }
    if forall|j: int|
        0 <= j < problems.len() ==> (#[trigger] problems[j]).severity
            != RepairSeverity::MissingRequiredFile || problems[j].beatmap.key@ != map.path.key@ {
        lemma_no_messages(problems, map.path.key@);
    }
}

/// A repair is made for sets only that have a map which lacks a file, and looks
/// into the folders of such maps only.
pub proof fn law_no_needless_repairs(
    maps: Seq<LocalBeatmap>,
    exist: Seq<FilesExist>,
    problems: Seq<RepairIssue>,
    id: i64,
)
    ensures
        job_for(maps, exist, problems, id).labels.len() > 0 ==> exists|m: int|
            0 <= m < maps.len() && takes_part(#[trigger] maps[m], problems, id),
        forall|k: Seq<char>| #[trigger]
            job_for(maps, exist, problems, id).folders.contains(k) ==> exists|m: int|
                0 <= m < maps.len() && takes_part(#[trigger] maps[m], problems, id)
                    && maps[m].folder.key@ == k,
    decreases maps.len(),
{
    let job = job_for(maps, exist, problems, id);
    if maps.len() > 0 {
        let n = maps.len() - 1;
        let init = maps.drop_last();
        let rest = job_for(init, exist, problems, id);
        law_no_needless_repairs(init, exist, problems, id);
        let map = maps.last();
        if takes_part(map, problems, id) {
            let start = JobView {
                labels: rest.labels.push(map_label(map)),
                folders: rest.folders.insert(map.folder.key@),
                missing: rest.missing.union(missing_names(map, exist[n])),
                ..rest
            };
            lemma_messages_grow(start, map, messages_on(problems, map.path.key@));
            assert(takes_part(maps[n], problems, id));
        } else if rest.labels.len() > 0 {
            let m = choose|m: int| 0 <= m < init.len() && takes_part(#[trigger] init[m], problems, id);
            assert(takes_part(maps[m], problems, id));
        }
        assert forall|k: Seq<char>| #[trigger] job.folders.contains(k) implies exists|m: int|
            0 <= m < maps.len() && takes_part(#[trigger] maps[m], problems, id)
                && maps[m].folder.key@ == k by {
            if rest.folders.contains(k) {
                let m = choose|m: int|
                    0 <= m < init.len() && takes_part(#[trigger] init[m], problems, id)
                        && init[m].folder.key@ == k;
                assert(takes_part(maps[m], problems, id) && maps[m].folder.key@ == k);
            } else {
                assert(takes_part(maps[n], problems, id) && maps[n].folder.key@ == k);
            }
        }
    }
}

/// The message on a missing background is known as one, and its file is then
/// among those to be repaired, whether or not it is there by now.
pub proof fn law_background_messages(
    job: JobView,
    map: LocalBeatmap,
    name: Seq<char>,
)
    requires
        map.background_filename is Some,
        map.background_filename->0@ == name,
    ensures
        on_background("Missing background file: "@ + name),
        with_message(job, map, "Missing background file: "@ + name).missing == job.missing.insert(
            name,
        ),
        with_message(job, map, "Missing background file: "@ + name).issues.len() == job.issues.len()
            + 1,
        with_message(job, map, "Missing background file: "@ + name).ignores.len()
            == job.ignores.len() + 1,
{
    reveal_strlit("Missing background file: ");
    reveal_strlit("missing background file");
    let low = lower_text("Missing background file: "@ + name);
    assert(low.subrange(0, 23) =~= "missing background file"@);
    assert(crate::text::occurs_at(low, "missing background file"@, 0));
}

/// A file that is to be repaired is written whether or not one of that name is
/// there, in whatever case; another file is written only where the folder has
/// none of its name.
pub proof fn law_restored_files(missing: Seq<Seq<char>>, i: int, file_name: Seq<char>, there: bool)
    ensures
        0 <= i < missing.len() && file_name.len() > 0 && lower_text(missing[i]) == lower_text(
            file_name,
        ) ==> restores(lowered(missing), file_name, there),
        file_name.len() > 0 ==> restores(lowered(missing), file_name, false),
        file_name.len() == 0 ==> !restores(lowered(missing), file_name, there),
{
    if 0 <= i < missing.len() && lower_text(missing[i]) == lower_text(file_name) {
        assert(is_lowered(missing, lower_text(file_name)));
    }
}

/// After a repair a file is still missing if and only if it is in none of the
/// folders and was not restored, in whatever case.
pub proof fn law_still_missing(
    missing: Seq<Seq<char>>,
    present: Seq<bool>,
    restored: Seq<Seq<char>>,
    i: int,
)
    requires
        present.len() == missing.len(),
        0 <= i < missing.len(),
    ensures
        !present[i] && (forall|j: int|
            0 <= j < restored.len() ==> lower_text(#[trigger] restored[j]) != lower_text(
                missing[i],
            )) ==> still_missing(missing, present, lowered(restored)).contains(missing[i]),
        (forall|k: int|
            0 <= k < missing.len() ==> present[k] || is_lowered(
                restored,
                lower_text(#[trigger] missing[k]),
            )) ==> still_missing(missing, present, lowered(restored)).len() == 0,
    decreases missing.len(),
{
    let low = lowered(restored);
    if forall|k: int|
        0 <= k < missing.len() ==> present[k] || is_lowered(
            restored,
            lower_text(#[trigger] missing[k]),
        ) {
        lemma_none_missing(missing, present, restored);
    }
    if !present[i] && (forall|j: int|
        0 <= j < restored.len() ==> lower_text(#[trigger] restored[j]) != lower_text(missing[i])) {
        lemma_missing_stays(missing, present, restored, i);
    }
}

proof fn lemma_none_missing(missing: Seq<Seq<char>>, present: Seq<bool>, restored: Seq<Seq<char>>)
    requires
        forall|k: int|
            0 <= k < missing.len() ==> present[k] || is_lowered(
                restored,
                lower_text(#[trigger] missing[k]),
            ),
    ensures
        still_missing(missing, present, lowered(restored)).len() == 0,
    decreases missing.len(),
{
    if missing.len() > 0 {
        let init = missing.drop_last();
        assert forall|k: int| 0 <= k < init.len() implies present[k] || is_lowered(
            restored,
            lower_text(#[trigger] init[k]),
        ) by {
            assert(init[k] == missing[k]);
        }
        let n = missing.len() - 1;
        assert(present[n] || is_lowered(restored, lower_text(missing[n])));
        lemma_none_missing(init, present, restored);
    }
}

proof fn lemma_missing_stays(
    missing: Seq<Seq<char>>,
    present: Seq<bool>,
    restored: Seq<Seq<char>>,
    i: int,
)
    requires
        0 <= i < missing.len(),
        !present[i],
        forall|j: int|
            0 <= j < restored.len() ==> lower_text(#[trigger] restored[j]) != lower_text(missing[i]),
    ensures
        still_missing(missing, present, lowered(restored)).contains(missing[i]),
    decreases missing.len(),
{
    let rest = still_missing(missing.drop_last(), present, lowered(restored));
    let all = still_missing(missing, present, lowered(restored));
    if i < missing.len() - 1 {
        assert(missing.drop_last()[i] == missing[i]);
        lemma_missing_stays(missing.drop_last(), present, restored, i);
        let j = choose|j: int| 0 <= j < rest.len() && rest[j] == missing[i];
        assert(all[j] == missing[i]);
    } else {
        assert(all[rest.len() as int] == missing[i]);
    }
}

/// A repair succeeds if and only if no file is still missing.
pub proof fn law_repair_succeeds(
    missing: Seq<Seq<char>>,
    present: Seq<bool>,
    restored: Seq<Seq<char>>,
    i: int,
)
    requires
        present.len() == missing.len(),
        0 <= i < missing.len(),
    ensures
        !present[i] && (forall|j: int|
            0 <= j < restored.len() ==> lower_text(#[trigger] restored[j]) != lower_text(
                missing[i],
            )) ==> repair_fault(still_missing(missing, present, lowered(restored))) is Some,
        (forall|k: int|
            0 <= k < missing.len() ==> present[k] || is_lowered(
                restored,
                lower_text(#[trigger] missing[k]),
            )) ==> repair_fault(still_missing(missing, present, lowered(restored))) is None,
{
    law_still_missing(missing, present, restored, i);
}

} // verus!
