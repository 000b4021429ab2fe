//! The course of a check for updates and of the updates: what is reported of
//! each step, and when to wait.
use crate::local::FilePath;
#[allow(unused_imports)]
use crate::order::ascending;
use crate::paths::{copy_paths, PathSet};
#[allow(unused_imports)]
use crate::paths::keys_of;
use crate::text::{join2, join3};
#[allow(unused_imports)]
use crate::updates::{
    count_verdicts, diffs_view, labels_of, outdated_labels, verdict_of, DiffView, RemoteBeatmap,
    Verdict,
};
use crate::updates::{
    detect_outdated, CheckTarget, LocalDiffRef, OutdatedSet, RemoteSetMeta, UpdateJob,
    UpdateOutcome,
};
use crate::local::copy_text;
use vstd::prelude::*;
use vstd::string::*;

verus! {

/// What a check for updates reports.
#[derive(Debug)]
pub enum UpdateCheckEvent {
    Started { total: usize, uncheckable: usize },
    Checked { done: usize, total: usize },
    Found(OutdatedSet),
    Unavailable { beatmapset_id: Option<i64>, reason: String },
    Finished,
}

/// What an update reports.
#[derive(Debug)]
pub enum UpdateEvent {
    Started { total: usize },
    Opening { beatmapset_id: i64, index: usize, total: usize },
    Updated {
        beatmapset_id: i64,
        folders: Vec<FilePath>,
        written: usize,
        removed: usize,
        download_source: String,
    },
    Failed { beatmapset_id: i64, message: String },
    Finished,
}

/// Whether to wait before a request: before all but the first.
pub fn pace_update_requests(first_request: &mut bool) -> (wait: bool)
    ensures
        wait == !*old(first_request),
        !*final(first_request),
{
    let wait = !*first_request;
    *first_request = false;
    wait
}

/// Whether to wait before a download: before all but the first.
pub fn waits_before_download(index: usize) -> (wait: bool)
    ensures
        wait == (index > 0),
{
    index > 0
}

/// Whether a list holds the folders of difficulties, each once, in order.
pub open spec fn folders_of_locals(folders: Seq<FilePath>, locals: Seq<DiffView>) -> bool {
    &&& ascending(keys_of(folders))
    &&& forall|i: int|
        0 <= i < locals.len() ==> keys_of(folders).contains((#[trigger] locals[i]).folder.key@)
    &&& forall|k: int| 0 <= k < folders.len() ==> is_folder_of(#[trigger] folders[k], locals)
}

/// Whether a folder holds one of the difficulties.
pub open spec fn is_folder_of(folder: FilePath, locals: Seq<DiffView>) -> bool {
    exists|i: int| 0 <= i < locals.len() && (#[trigger] locals[i]).folder == folder
}

/// The folders of difficulties, each once, in order.
pub fn folders_of(locals: &Vec<LocalDiffRef>) -> (r: Vec<FilePath>)
    ensures
        folders_of_locals(r@, diffs_view(locals@)),
{
    let ghost all = diffs_view(locals@);
    let mut set = PathSet::new();
    let mut i: usize = 0;
    while i < locals.len()
        invariant
            i <= locals@.len(),
            all == diffs_view(locals@),
            set.wf(),
            forall|k: int| 0 <= k < i ==> set@.contains((#[trigger] all[k]).folder.key@),
            forall|k: int| 0 <= k < set.items@.len() ==> is_folder_of(#[trigger] set.items@[k], all),
        decreases locals@.len() - i,
    {
        let ghost before = set.items@;
        let folder = locals[i].folder.clone();
        set.insert(folder);
        proof {
            assert(all[i as int].folder == folder);
            assert forall|k: int| 0 <= k < set.items@.len() implies is_folder_of(
                #[trigger] set.items@[k],
                all,
            ) by {
                if set.items@[k] != folder {
                    let j = choose|j: int| 0 <= j < before.len() && before[j] == set.items@[k];
                    assert(is_folder_of(before[j], all));
                }
            }
        }
        i = i + 1;
    }
    set.items
}

/// Whether a report on a set says what the check of its difficulties found:
/// nothing, unless one of them is outdated.
pub open spec fn reports_set(
    r: Option<UpdateCheckEvent>,
    beatmapset_id: i64,
    locals: Seq<DiffView>,
    remote: RemoteSetMeta,
) -> bool {
    let labels = outdated_labels(locals, remote.beatmaps@);
    if labels.len() == 0 {
        r is None
    } else {
        &&& r matches Some(UpdateCheckEvent::Found(set))
        &&& {
            let set = r->Some_0->Found_0;
            &&& set.beatmapset_id == beatmapset_id
            &&& set.title@ == remote.artist@ + " - "@ + remote.title@
            &&& set.remote_updated == remote.last_updated
            &&& labels_of(set.outdated@) == labels
            &&& set.up_to_date == count_verdicts(locals, remote.beatmaps@, Verdict::UpToDate)
            &&& set.unchecked == count_verdicts(locals, remote.beatmaps@, Verdict::Unchecked)
            &&& set.outdated@.len() + set.up_to_date + set.unchecked == locals.len()
            &&& folders_of_locals(set.folders@, locals)
        }
    }
}

/// The report on a set that cannot be checked.
pub open spec fn unavailable(
    r: Option<UpdateCheckEvent>,
    beatmapset_id: Option<i64>,
    reason: Seq<char>,
) -> bool {
    r matches Some(UpdateCheckEvent::Unavailable { beatmapset_id: id, reason: text }) && id
        == beatmapset_id && text@ == reason
}

/// The report on a set, by the answer to the request for it: the online set,
/// nothing where it is gone, or why there is no answer.
pub fn check_single_set(
    beatmapset_id: i64,
    locals: &Vec<LocalDiffRef>,
    answer: Result<Option<RemoteSetMeta>, String>,
) -> (r: Option<UpdateCheckEvent>)
    ensures
        match answer {
            Err(error) => unavailable(r, Some(beatmapset_id), error@),
            Ok(None) => unavailable(r, Some(beatmapset_id), "no longer available online"@),
            Ok(Some(remote)) => reports_set(r, beatmapset_id, diffs_view(locals@), remote),
        },
{
    match answer {
        Err(error) => Some(
            UpdateCheckEvent::Unavailable { beatmapset_id: Some(beatmapset_id), reason: error },
        ),
        Ok(None) => Some(
            UpdateCheckEvent::Unavailable {
                beatmapset_id: Some(beatmapset_id),
                reason: "no longer available online".to_owned(),
            },
        ),
        Ok(Some(remote)) => {
            let title = join3(&remote.artist, " - ", &remote.title);
            let folders = folders_of(locals);
            let set = detect_outdated(
                beatmapset_id,
                title,
                copy_text(&remote.last_updated),
                locals,
                &remote,
                folders,
            );
            assert(labels_of(set.outdated@).len() == set.outdated@.len());
            if set.outdated_count() > 0 {
                Some(UpdateCheckEvent::Found(set))
            } else {
                None
            }
        },
    }
}

/// The report on difficulties whose sets cannot be asked for.
pub fn resolve_failure(error: &str) -> (r: UpdateCheckEvent)
    ensures
        unavailable(Some(r), None, "resolving beatmap ids failed: "@ + error@),
{
    UpdateCheckEvent::Unavailable {
        beatmapset_id: None,
        reason: join2("resolving beatmap ids failed: ", error),
    }
}

/// The report after the target at `position`.
pub fn check_progress(targets: &Vec<CheckTarget>, position: usize) -> (r: UpdateCheckEvent)
    requires
        position < targets@.len(),
    ensures
        r == (UpdateCheckEvent::Checked {
            done: (position + 1) as usize,
            total: targets@.len() as usize,
        }),
{
    let total: usize = targets.len();
    UpdateCheckEvent::Checked { done: position + 1, total }
}

/// The report on the job at `index`, before it is worked on.
pub fn update_opening(jobs: &Vec<UpdateJob>, index: usize) -> (r: UpdateEvent)
    requires
        index < jobs@.len(),
    ensures
        r == (UpdateEvent::Opening {
            beatmapset_id: jobs@[index as int].beatmapset_id,
            index: (index + 1) as usize,
            total: jobs@.len() as usize,
        }),
{
    let total: usize = jobs.len();
    UpdateEvent::Opening { beatmapset_id: jobs[index].beatmapset_id, index: index + 1, total }
}

/// The report on a job that was worked on.
pub fn update_result(job: &UpdateJob, result: Result<UpdateOutcome, String>) -> (r: UpdateEvent)
    ensures
        match result {
            Ok(outcome) => r matches UpdateEvent::Updated {
                beatmapset_id,
                folders,
                written,
                removed,
                download_source,
            } && beatmapset_id == job.beatmapset_id && folders@ == job.folders@ && written
                == outcome.written_files@.len() && removed == outcome.removed_files@.len()
                && download_source == outcome.download_source,
            Err(message) => r == (UpdateEvent::Failed {
                beatmapset_id: job.beatmapset_id,
                message,
            }),
        },
{
    match result {
        Ok(outcome) => UpdateEvent::Updated {
            beatmapset_id: job.beatmapset_id,
            folders: copy_paths(&job.folders),
            written: outcome.written_files.len(),
            removed: outcome.removed_files.len(),
            download_source: outcome.download_source,
        },
        Err(message) => UpdateEvent::Failed { beatmapset_id: job.beatmapset_id, message },
    }
}

/// A set of which no difficulty differs from the online one is never reported
/// as outdated.
pub proof fn law_current_sets_are_not_reported(
    r: Option<UpdateCheckEvent>,
    beatmapset_id: i64,
    locals: Seq<DiffView>,
    remote: RemoteSetMeta,
)
    requires
        reports_set(r, beatmapset_id, locals, remote),
        forall|i: int|
            0 <= i < locals.len() ==> {
                let v = verdict_of(#[trigger] locals[i], remote.beatmaps@);
                v == Verdict::UpToDate || v == Verdict::Unchecked
            },
    ensures
        r is None,
{
    lemma_nothing_outdated(locals, remote.beatmaps@);
}

proof fn lemma_nothing_outdated(locals: Seq<DiffView>, online: Seq<RemoteBeatmap>)
    requires
        forall|i: int|
            0 <= i < locals.len() ==> {
                let v = verdict_of(#[trigger] locals[i], online);
                v == Verdict::UpToDate || v == Verdict::Unchecked
            },
    ensures
        outdated_labels(locals, online).len() == 0,
    decreases locals.len(),
{
    if locals.len() > 0 {
        let before = locals.drop_last();
        assert forall|i: int| 0 <= i < before.len() implies {
            let v = verdict_of(#[trigger] before[i], online);
            v == Verdict::UpToDate || v == Verdict::Unchecked
        } by {
            assert(before[i] == locals[i]);
        }
        lemma_nothing_outdated(before, online);
    }
}

/// A set with a difficulty that differs from the online one is reported.
pub proof fn law_changed_sets_are_reported(
    r: Option<UpdateCheckEvent>,
    beatmapset_id: i64,
    locals: Seq<DiffView>,
    remote: RemoteSetMeta,
    i: int,
)
    requires
        reports_set(r, beatmapset_id, locals, remote),
        0 <= i < locals.len(),
        verdict_of(locals[i], remote.beatmaps@) == Verdict::Changed || verdict_of(
            locals[i],
            remote.beatmaps@,
        ) == Verdict::Removed,
    ensures
        r is Some,
        r->Some_0 is Found,
{
    lemma_something_outdated(locals, remote.beatmaps@, i);
}

proof fn lemma_something_outdated(locals: Seq<DiffView>, online: Seq<RemoteBeatmap>, i: int)
    requires
        0 <= i < locals.len(),
        verdict_of(locals[i], online) == Verdict::Changed || verdict_of(locals[i], online)
            == Verdict::Removed,
    ensures
        outdated_labels(locals, online).len() > 0,
    decreases locals.len(),
{
    if i < locals.len() - 1 {
        assert(locals.drop_last()[i] == locals[i]);
        lemma_something_outdated(locals.drop_last(), online, i);
    }
}

/// The report on an outdated set counts every local difficulty once, lists those
/// that were changed or removed, and names the folders that hold the set, each
/// once.
pub proof fn law_reported_sets(
    r: Option<UpdateCheckEvent>,
    beatmapset_id: i64,
    locals: Seq<DiffView>,
    remote: RemoteSetMeta,
    i: int,
)
    requires
        reports_set(r, beatmapset_id, locals, remote),
        r is Some,
        0 <= i < locals.len(),
    ensures
        r->Some_0 is Found,
        ({
            let set = r->Some_0->Found_0;
            &&& set.beatmapset_id == beatmapset_id
            &&& set.outdated@.len() == count_verdicts(locals, remote.beatmaps@, Verdict::Changed)
                + count_verdicts(locals, remote.beatmaps@, Verdict::Removed)
            &&& set.outdated@.len() + set.up_to_date + set.unchecked == locals.len()
            &&& keys_of(set.folders@).contains(locals[i].folder.key@)
            &&& keys_of(set.folders@).no_duplicates()
        }),
{
    crate::updates::law_verdicts_add_up(locals, remote.beatmaps@);
    let set = r->Some_0->Found_0;
    assert(labels_of(set.outdated@).len() == set.outdated@.len());
    let keys = keys_of(set.folders@);
    assert forall|a: int, b: int| 0 <= a < keys.len() && 0 <= b < keys.len() && a != b implies keys[a]
        != keys[b] by {
        if a < b {
            assert(crate::order::text_less(keys[a], keys[b]));
            crate::order::law_dictionary_order(keys[a], seq![], seq![]);
        } else {
            assert(crate::order::text_less(keys[b], keys[a]));
            crate::order::law_dictionary_order(keys[b], seq![], seq![]);
        }
    }
}

} // verus!
