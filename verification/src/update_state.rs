//! How far a check for updates is, what it found, and how far the updates are.
#[allow(unused_imports)]
use crate::number::{decimal, decimal_int};
use crate::number::{decimal_signed, decimal_usize};
#[allow(unused_imports)]
use crate::paths::keys_of;
use crate::paths::{copy_paths, PathSet};
#[allow(unused_imports)]
use crate::repair::{law_one_entry_for_each_set, log_view, log_with, one_each, LogView};
use crate::repair::{upsert_log, RepairLogEntry, RepairLogStatus};
#[allow(unused_imports)]
use crate::repair_state::download_text;
use crate::repair_state::downloading;
use crate::text::{join2, join3};
use crate::update_run::{UpdateCheckEvent, UpdateEvent};
use crate::updates::{OutdatedSet, UpdateJob};
use vstd::prelude::*;
use vstd::string::*;

verus! {

/// How far a check for updates and the updates are, which sets are outdated,
/// and which folders were updated.
#[derive(Debug)]
pub struct UpdateState {
    pub is_checking: bool,
    pub check_done: usize,
    pub check_total: usize,
    pub uncheckable: usize,
    pub unavailable: usize,
    pub check_status: String,
    pub outdated: Vec<OutdatedSet>,
    pub is_updating: bool,
    pub progress: String,
    pub total: usize,
    pub done: usize,
    pub successes: usize,
    pub failures: usize,
    pub log: Vec<RepairLogEntry>,
    pub touched: PathSet,
}

/// The view of an [`UpdateState`].
#[verifier::ext_equal]
pub struct UpdateView {
    pub is_checking: bool,
    pub check_done: int,
    pub check_total: int,
    pub uncheckable: int,
    pub unavailable: int,
    pub check_status: Seq<char>,
    pub outdated: Seq<OutdatedSet>,
    pub is_updating: bool,
    pub progress: Seq<char>,
    pub total: int,
    pub done: int,
    pub successes: int,
    pub failures: int,
    pub log: Seq<LogView>,
    pub touched: Set<Seq<char>>,
}

impl View for UpdateState {
    type V = UpdateView;

    open spec fn view(&self) -> UpdateView {
        UpdateView {
            is_checking: self.is_checking,
            check_done: self.check_done as int,
            check_total: self.check_total as int,
            uncheckable: self.uncheckable as int,
            unavailable: self.unavailable as int,
            check_status: self.check_status@,
            outdated: self.outdated@,
            is_updating: self.is_updating,
            progress: self.progress@,
            total: self.total as int,
            done: self.done as int,
            successes: self.successes as int,
            failures: self.failures as int,
            log: log_view(self.log@),
            touched: self.touched@,
        }
    }
}

/// The state before any check for updates.
pub open spec fn no_updates() -> UpdateView {
    UpdateView {
        is_checking: false,
        check_done: 0,
        check_total: 0,
        uncheckable: 0,
        unavailable: 0,
        check_status: ""@,
        outdated: Seq::empty(),
        is_updating: false,
        progress: ""@,
        total: 0,
        done: 0,
        successes: 0,
        failures: 0,
        log: Seq::empty(),
        touched: Set::empty(),
    }
}

// ---- the check ----

/// The entry of the log on an outdated set.
pub open spec fn found_text(set: OutdatedSet) -> Seq<char> {
    decimal(set.outdated@.len()) + " of "@ + decimal(
        (set.outdated@.len() + set.up_to_date) as nat,
    ) + " diffs outdated"@
}

/// The state after an event of a check for updates.
pub open spec fn after_check_event(v: UpdateView, event: UpdateCheckEvent) -> UpdateView {
    match event {
        UpdateCheckEvent::Started { total, uncheckable } => UpdateView {
            is_checking: true,
            check_done: 0,
            check_total: total as int,
            uncheckable: uncheckable as int,
            unavailable: 0,
            outdated: Seq::empty(),
            check_status: "Checking "@ + decimal(total as nat)
                + " beatmapset(s) against osu!web"@,
            ..v
        },
        UpdateCheckEvent::Checked { done, total } => UpdateView {
            check_done: done as int,
            check_status: "Checked "@ + decimal(done as nat) + "/"@ + decimal(total as nat)
                + " beatmapset(s), "@ + decimal(v.outdated.len()) + " outdated"@,
            ..v
        },
        UpdateCheckEvent::Found(set) => UpdateView {
            outdated: v.outdated.push(set),
            log: log_with(
                v.log,
                LogView {
                    beatmapset_id: set.beatmapset_id,
                    status: RepairLogStatus::InProgress,
                    message: found_text(set),
                },
            ),
            ..v
        },
        UpdateCheckEvent::Unavailable { beatmapset_id, reason } => UpdateView {
            unavailable: v.unavailable + 1,
            log: match beatmapset_id {
                Some(id) => log_with(
                    v.log,
                    LogView {
                        beatmapset_id: id,
                        status: RepairLogStatus::Failed,
                        message: reason@,
                    },
                ),
                None => v.log,
            },
            ..v
        },
        UpdateCheckEvent::Finished => UpdateView {
            is_checking: false,
            check_status: "Update check finished: "@ + decimal(v.outdated.len())
                + " outdated out of "@ + decimal(v.check_total as nat) + " checked ("@ + decimal(
                v.unavailable as nat,
            ) + " unavailable, "@ + decimal(v.uncheckable as nat) + " uncheckable)"@,
            ..v
        },
    }
}

/// Whether what an event of a check says can be counted.
pub open spec fn countable(event: UpdateCheckEvent) -> bool {
    match event {
        UpdateCheckEvent::Found(set) => set.outdated@.len() + set.up_to_date <= usize::MAX,
        _ => true,
    }
}

/// Whether what an event of a check says can be counted.
pub fn is_countable(event: &UpdateCheckEvent) -> (r: bool)
    ensures
        r == countable(*event),
{
    match event {
        UpdateCheckEvent::Found(set) => set.up_to_date <= usize::MAX - set.outdated.len(),
        _ => true,
    }
}

// ---- the updates ----

/// Whether a log says that a set was updated.
pub open spec fn succeeded(log: Seq<LogView>, id: i64) -> bool {
    exists|i: int|
        0 <= i < log.len() && (#[trigger] log[i]).beatmapset_id == id && log[i].status
            == RepairLogStatus::Success
}

/// The sets that a log does not say to have been updated.
pub open spec fn still_outdated(sets: Seq<OutdatedSet>, log: Seq<LogView>) -> Seq<OutdatedSet>
    decreases sets.len(),
{
    if sets.len() == 0 {
        seq![]
    } else {
        let rest = still_outdated(sets.drop_last(), log);
        if succeeded(log, sets.last().beatmapset_id) {
            rest
        } else {
            rest.push(sets.last())
        }
    }
}

/// The progress of the updates after an event.
pub open spec fn update_progress(v: UpdateView, event: UpdateEvent) -> Seq<char> {
    match event {
        UpdateEvent::Started { total } => "Preparing to update "@ + decimal(total as nat)
            + " beatmapset(s)"@,
        UpdateEvent::Opening { beatmapset_id, index, total } => "Downloading update "@ + decimal(
            index as nat,
        ) + "/"@ + decimal(total as nat) + ": set "@ + decimal_int(beatmapset_id as int),
        UpdateEvent::Updated { beatmapset_id, folders, written, removed, download_source } =>
            "Updated set "@ + decimal_int(beatmapset_id as int),
        UpdateEvent::Failed { beatmapset_id, message } => "Update failed for set "@ + decimal_int(
            beatmapset_id as int,
        ) + ": "@ + message@,
        UpdateEvent::Finished => v.progress,
    }
}

/// The entry of the log on an update.
pub open spec fn updated_text(source: Seq<char>, written: nat, removed: nat) -> Seq<char> {
    "Updated via "@ + source + ": "@ + decimal(written) + " file(s) written, "@ + decimal(removed)
        + " removed upstream"@
}

/// The state after an event of the updates.
pub open spec fn after_update_event(v: UpdateView, event: UpdateEvent) -> UpdateView {
    let progress = update_progress(v, event);
    match event {
        UpdateEvent::Started { total } => UpdateView {
            is_updating: true,
            total: total as int,
            done: 0,
            successes: 0,
            failures: 0,
            touched: Set::empty(),
            progress,
            ..v
        },
        UpdateEvent::Opening { beatmapset_id, index, total } => UpdateView {
            progress,
            log: log_with(
                v.log,
                LogView {
                    beatmapset_id,
                    status: RepairLogStatus::InProgress,
                    message: download_text(index as nat, total as nat),
                },
            ),
            ..v
        },
        UpdateEvent::Updated { beatmapset_id, folders, written, removed, download_source } =>
            UpdateView {
            progress,
            done: v.done + 1,
            successes: v.successes + 1,
            touched: v.touched.union(keys_of(folders@).to_set()),
            log: log_with(
                v.log,
                LogView {
                    beatmapset_id,
                    status: RepairLogStatus::Success,
                    message: updated_text(download_source@, written as nat, removed as nat),
                },
            ),
            ..v
        },
        UpdateEvent::Failed { beatmapset_id, message } => UpdateView {
            progress,
            done: v.done + 1,
            failures: v.failures + 1,
            log: log_with(
                v.log,
                LogView { beatmapset_id, status: RepairLogStatus::Failed, message: message@ },
            ),
            ..v
        },
        UpdateEvent::Finished => UpdateView {
            is_updating: false,
            outdated: still_outdated(v.outdated, v.log),
            touched: Set::empty(),
            ..v
        },
    }
}

/// What is said after an event of the updates, where `v` is the state after
/// it.
pub open spec fn update_event_text(v: UpdateView, event: UpdateEvent) -> Seq<char> {
    if event is Finished {
        "Update finished: "@ + decimal(v.successes as nat) + " succeeded, "@ + decimal(
            v.failures as nat,
        ) + " failed out of "@ + decimal(v.total as nat)
    } else {
        v.progress
    }
}

fn has_succeeded(log: &Vec<RepairLogEntry>, id: i64) -> (r: bool)
    ensures
        r == succeeded(log_view(log@), id),
{
    let mut i: usize = 0;
    while i < log.len()
        invariant
            i <= log@.len(),
            forall|k: int|
                0 <= k < i ==> !((#[trigger] log_view(log@)[k]).beatmapset_id == id && log_view(
                    log@,
                )[k].status == RepairLogStatus::Success),
        decreases log@.len() - i,
    {
        assert(log_view(log@)[i as int] == log@[i as int]@);
        if log[i].beatmapset_id == id && log[i].status == RepairLogStatus::Success {
            return true;
        }
        i = i + 1;
    }
    false
}

impl UpdateState {
    /// Every update that is done succeeded or failed, no set has two entries in
    /// the log, and the folders are in order.
    pub open spec fn wf(self) -> bool {
        &&& self.done == self.successes + self.failures
        &&& one_each(log_view(self.log@))
        &&& self.touched.wf()
    }

    /// Nothing was checked or updated.
    pub fn new() -> (r: Self)
        ensures
            r.wf(),
            r@ == no_updates(),
    {
        let r = UpdateState {
            is_checking: false,
            check_done: 0,
            check_total: 0,
            uncheckable: 0,
            unavailable: 0,
            check_status: "".to_owned(),
            outdated: Vec::new(),
            is_updating: false,
            progress: "".to_owned(),
            total: 0,
            done: 0,
            successes: 0,
            failures: 0,
            log: Vec::new(),
            touched: PathSet::new(),
        };
        assert(log_view(r.log@) =~= Seq::empty());
        r
    }

    fn enter(&mut self, beatmapset_id: i64, status: RepairLogStatus, message: String)
        requires
            old(self).wf(),
        ensures
            final(self).wf(),
            *final(self) == (UpdateState { log: final(self).log, ..*old(self) }),
            log_view(final(self).log@) == log_with(
                log_view(old(self).log@),
                LogView { beatmapset_id, status, message: message@ },
            ),
    {
        proof {
            law_one_entry_for_each_set(
                log_view(self.log@),
                LogView { beatmapset_id, status, message: message@ },
            );
        }
        upsert_log(&mut self.log, beatmapset_id, status, message);
    }

    /// Empties the log.
    pub fn clear_log(&mut self)
        requires
            old(self).wf(),
        ensures
            final(self).wf(),
            final(self)@ == (UpdateView { log: Seq::empty(), ..old(self)@ }),
            *final(self) == (UpdateState { log: final(self).log, ..*old(self) }),
    {
        self.log = Vec::new();
        assert(log_view(self.log@) =~= Seq::empty());
    }

    /// Takes in an event of a check for updates. Gives what is to be said, if
    /// anything.
    pub fn on_check_event(&mut self, event: UpdateCheckEvent) -> (status: Option<String>)
        requires
            old(self).wf(),
            old(self).unavailable < usize::MAX,
            countable(event),
        ensures
            final(self).wf(),
            final(self)@ == after_check_event(old(self)@, event),
            match event {
                UpdateCheckEvent::Found(_) => status is None,
                UpdateCheckEvent::Unavailable { .. } => status is None,
                _ => status matches Some(t) && t@ == final(self)@.check_status,
            },
    {
        match event {
            UpdateCheckEvent::Started { total, uncheckable } => {
                self.is_checking = true;
                self.check_done = 0;
                self.check_total = total;
                self.uncheckable = uncheckable;
                self.unavailable = 0;
                self.outdated = Vec::new();
                self.check_status = join3(
                    "Checking ",
                    &decimal_usize(total),
                    " beatmapset(s) against osu!web",
                );
                assert(self@ =~= after_check_event(old(self)@, event));
                Some(self.check_status.clone())
            },
            UpdateCheckEvent::Checked { done, total } => {
                self.check_done = done;
                let mut text = join3("Checked ", &decimal_usize(done), "/");
                text.append(&decimal_usize(total));
                text.append(" beatmapset(s), ");
                text.append(&decimal_usize(self.outdated.len()));
                text.append(" outdated");
                self.check_status = text;
                Some(self.check_status.clone())
            },
            UpdateCheckEvent::Found(set) => {
                let message = join3(
                    &decimal_usize(set.outdated_count()),
                    " of ",
                    &join2(&decimal_usize(set.total_checked()), " diffs outdated"),
                );
                assert(message@ =~= found_text(set));
                self.enter(set.beatmapset_id, RepairLogStatus::InProgress, message);
                self.outdated.push(set);
                None
            },
            UpdateCheckEvent::Unavailable { beatmapset_id, reason } => {
                self.unavailable = self.unavailable + 1;
                if let Some(id) = beatmapset_id {
                    self.enter(id, RepairLogStatus::Failed, reason);
                }
                None
            },
            UpdateCheckEvent::Finished => {
                self.is_checking = false;
                let mut text = join3(
                    "Update check finished: ",
                    &decimal_usize(self.outdated.len()),
                    " outdated out of ",
                );
                text.append(&decimal_usize(self.check_total));
                text.append(" checked (");
                text.append(&decimal_usize(self.unavailable));
                text.append(" unavailable, ");
                text.append(&decimal_usize(self.uncheckable));
                text.append(" uncheckable)");
                self.check_status = text;
                Some(self.check_status.clone())
            },
        }
    }

    /// Takes in that a check for updates ended without saying so.
    pub fn on_check_disconnect(&mut self) -> (status: String)
        ensures
            *final(self) == (UpdateState { is_checking: false, ..*old(self) }),
            status@ == "Update check worker disconnected"@,
    {
        self.is_checking = false;
        "Update check worker disconnected".to_owned()
    }

    /// Drops the sets that were updated from those that are outdated.
    fn drop_updated(&mut self)
        ensures
            *final(self) == (UpdateState { outdated: final(self).outdated, ..*old(self) }),
            final(self).outdated@ == still_outdated(old(self).outdated@, log_view(old(self).log@)),
    {
        let ghost all = self.outdated@;
        let ghost log = log_view(self.log@);
        let mut rest: Vec<OutdatedSet> = Vec::new();
        core::mem::swap(&mut rest, &mut self.outdated);
        let mut kept: Vec<OutdatedSet> = Vec::new();
        let ghost mut i: int = 0;
        assert(all.take(0) =~= seq![]);
        assert(all.skip(0) =~= all);
        while rest.len() > 0
            invariant
                0 <= i <= all.len(),
                all == old(self).outdated@,
                log == log_view(self.log@),
                *self == (UpdateState { outdated: self.outdated, ..*old(self) }),
                rest@ == all.skip(i),
                kept@ == still_outdated(all.take(i), log),
            decreases rest@.len(),
        {
            let set = rest.remove(0);
            proof {
                assert(set == all[i]);
                assert(rest@ =~= all.skip(i + 1));
                assert(all.take(i + 1).drop_last() =~= all.take(i));
                i = i + 1;
            }
            if !has_succeeded(&self.log, set.beatmapset_id) {
                kept.push(set);
            }
        }
        assert(all.take(i) =~= all);
        self.outdated = kept;
    }

    /// Takes in an event of the updates. Gives what is to be said, and at the
    /// end the folders that were updated.
    pub fn on_update_event(&mut self, event: UpdateEvent) -> (r: (String, PathSet))
        requires
            old(self).wf(),
            old(self).done < usize::MAX,
        ensures
            final(self).wf(),
            final(self)@ == after_update_event(old(self)@, event),
            r.0@ == update_event_text(final(self)@, event),
            r.1.wf(),
            r.1@ == (if event is Finished {
                old(self)@.touched
            } else {
                Set::empty()
            }),
    {
        let mut touched = PathSet::new();
        match event {
            UpdateEvent::Started { total } => {
                self.is_updating = true;
                self.total = total;
                self.done = 0;
                self.successes = 0;
                self.failures = 0;
                self.touched = PathSet::new();
                self.progress = join3(
                    "Preparing to update ",
                    &decimal_usize(total),
                    " beatmapset(s)",
                );
                (self.progress.clone(), touched)
            },
            UpdateEvent::Opening { beatmapset_id, index, total } => {
                self.enter(beatmapset_id, RepairLogStatus::InProgress, downloading(index, total));
                let mut progress = join3("Downloading update ", &decimal_usize(index), "/");
                progress.append(&decimal_usize(total));
                progress.append(": set ");
                progress.append(&decimal_signed(beatmapset_id));
                self.progress = progress;
                (self.progress.clone(), touched)
            },
            UpdateEvent::Updated { beatmapset_id, folders, written, removed, download_source } => {
                self.done = self.done + 1;
                self.successes = self.successes + 1;
                self.touched.add_all(&folders);
                let mut message = join3("Updated via ", &download_source, ": ");
                message.append(&decimal_usize(written));
                message.append(" file(s) written, ");
                message.append(&decimal_usize(removed));
                message.append(" removed upstream");
                self.enter(beatmapset_id, RepairLogStatus::Success, message);
                self.progress = join2("Updated set ", &decimal_signed(beatmapset_id));
                (self.progress.clone(), touched)
            },
            UpdateEvent::Failed { beatmapset_id, message } => {
                self.done = self.done + 1;
                self.failures = self.failures + 1;
                let mut progress = join3(
                    "Update failed for set ",
                    &decimal_signed(beatmapset_id),
                    ": ",
                );
                progress.append(&message);
                self.enter(beatmapset_id, RepairLogStatus::Failed, message);
                self.progress = progress;
                (self.progress.clone(), touched)
            },
            UpdateEvent::Finished => {
                self.is_updating = false;
                self.drop_updated();
                core::mem::swap(&mut touched, &mut self.touched);
                let mut text = join3(
                    "Update finished: ",
                    &decimal_usize(self.successes),
                    " succeeded, ",
                );
                text.append(&decimal_usize(self.failures));
                text.append(" failed out of ");
                text.append(&decimal_usize(self.total));
                (text, touched)
            },
        }
    }

    /// Takes in that the updates ended without saying so.
    pub fn on_update_disconnect(&mut self) -> (status: String)
        ensures
            *final(self) == (UpdateState { is_updating: false, ..*old(self) }),
            status@ == "Update worker disconnected"@,
    {
        self.is_updating = false;
        "Update worker disconnected".to_owned()
    }

    /// The update of a set that is outdated, if it is.
    pub fn update_job_for_set(&self, beatmapset_id: i64) -> (r: Option<UpdateJob>)
        ensures
            match r {
                Some(job) => job.beatmapset_id == beatmapset_id && outdated_at(
                    self.outdated@,
                    beatmapset_id,
                ) < self.outdated@.len() && job.folders@ == self.outdated@[outdated_at(
                    self.outdated@,
                    beatmapset_id,
                ) as int].folders@,
                None => outdated_at(self.outdated@, beatmapset_id) == self.outdated@.len(),
            },
    {
        let mut i: usize = 0;
        let ghost all = self.outdated@;
        assert(all.skip(0) =~= all);
        while i < self.outdated.len()
            invariant
                i <= self.outdated@.len(),
                all == self.outdated@,
                outdated_at(all, beatmapset_id) == i + outdated_at(
                    all.skip(i as int),
                    beatmapset_id,
                ),
            decreases self.outdated@.len() - i,
        {
            assert(all.skip(i as int)[0] == all[i as int]);
            if self.outdated[i].beatmapset_id == beatmapset_id {
                return Some(
                    UpdateJob { beatmapset_id, folders: copy_paths(&self.outdated[i].folders) },
                );
            }
            assert(all.skip(i as int).drop_first() =~= all.skip(i as int + 1));
            i = i + 1;
        }
        None
    }
}

/// The position of the first set with an identifier, or the number of sets.
pub open spec fn outdated_at(sets: Seq<OutdatedSet>, id: i64) -> nat
    decreases sets.len(),
{
    if sets.len() == 0 || sets[0].beatmapset_id == id {
        0
    } else {
        1 + outdated_at(sets.drop_first(), id)
    }
}

/// After the updates exactly those sets are still outdated whose update is not
/// logged as a success.
pub proof fn law_updated_sets_leave(sets: Seq<OutdatedSet>, log: Seq<LogView>, set: OutdatedSet)
    ensures
        still_outdated(sets, log).contains(set) <==> sets.contains(set) && !succeeded(
            log,
            set.beatmapset_id,
        ),
    decreases sets.len(),
{
    if sets.len() > 0 {
        let before = sets.drop_last();
        let rest = still_outdated(before, log);
        let now = still_outdated(sets, log);
        law_updated_sets_leave(before, log, set);
        if rest.contains(set) {
            let i = choose|i: int| 0 <= i < rest.len() && rest[i] == set;
            assert(now[i] == set);
        }
        if !succeeded(log, sets.last().beatmapset_id) {
            assert(now[rest.len() as int] == sets.last());
        }
        if before.contains(set) {
            let i = choose|i: int| 0 <= i < before.len() && before[i] == set;
            assert(sets[i] == set);
        }
        if sets.contains(set) && !before.contains(set) {
            let i = choose|i: int| 0 <= i < sets.len() && sets[i] == set;
            if i < before.len() {
                assert(before[i] == set);
            }
        }
        if now.contains(set) && !rest.contains(set) {
            let i = choose|i: int| 0 <= i < now.len() && now[i] == set;
            if i < rest.len() {
                assert(rest[i] == set);
            }
            assert(sets[sets.len() - 1] == set);
        }
    }
}

/// A failed update is no success: a set whose last entry says that it failed is
/// still outdated.
pub proof fn law_failed_sets_stay(
    v: UpdateView,
    beatmapset_id: i64,
    message: String,
    set: OutdatedSet,
)
    requires
        one_each(v.log),
        v.outdated.contains(set),
        set.beatmapset_id == beatmapset_id,
    ensures
        after_update_event(
            after_update_event(v, (UpdateEvent::Failed { beatmapset_id, message })),
            UpdateEvent::Finished,
        ).outdated.contains(set),
{
    let entry = LogView { beatmapset_id, status: RepairLogStatus::Failed, message: message@ };
    let now = log_with(v.log, entry);
    law_one_entry_for_each_set(v.log, entry);
    let k = choose|k: int| 0 <= k < now.len() && now[k] == entry;
    if succeeded(now, beatmapset_id) {
        let i = choose|i: int|
            0 <= i < now.len() && (#[trigger] now[i]).beatmapset_id == beatmapset_id
                && now[i].status == RepairLogStatus::Success;
        if i < k {
            assert(now[i].beatmapset_id != now[k].beatmapset_id);
        } else if k < i {
            assert(now[k].beatmapset_id != now[i].beatmapset_id);
        }
    }
    law_updated_sets_leave(v.outdated, now, set);
}

/// A set that was updated is no longer outdated once the updates are over.
pub proof fn law_successful_sets_leave(
    v: UpdateView,
    beatmapset_id: i64,
    folders: Vec<crate::local::FilePath>,
    written: usize,
    removed: usize,
    download_source: String,
    set: OutdatedSet,
)
    requires
        one_each(v.log),
        set.beatmapset_id == beatmapset_id,
    ensures
        ({
            let updated = after_update_event(
                v,
                (UpdateEvent::Updated {
                    beatmapset_id,
                    folders,
                    written,
                    removed,
                    download_source,
                }),
            );
            &&& updated.done == v.done + 1 && updated.successes == v.successes + 1
                && updated.failures == v.failures
            &&& forall|i: int|
                0 <= i < folders@.len() ==> updated.touched.contains((#[trigger] folders@[i]).key@)
            &&& v.touched.subset_of(updated.touched)
            &&& !after_update_event(updated, UpdateEvent::Finished).outdated.contains(set)
            &&& !after_update_event(updated, UpdateEvent::Finished).is_updating
        }),
{
    let entry = LogView {
        beatmapset_id,
        status: RepairLogStatus::Success,
        message: updated_text(download_source@, written as nat, removed as nat),
    };
    let now = log_with(v.log, entry);
    law_one_entry_for_each_set(v.log, entry);
    let k = choose|k: int| 0 <= k < now.len() && now[k] == entry;
    assert(now[k].beatmapset_id == beatmapset_id);
    assert(succeeded(now, beatmapset_id));
    law_updated_sets_leave(v.outdated, now, set);
    assert forall|i: int| 0 <= i < folders@.len() implies v.touched.union(
        keys_of(folders@).to_set(),
    ).contains((#[trigger] folders@[i]).key@) by {
        assert(keys_of(folders@)[i] == folders@[i].key@);
    }
}

/// A check begins with nothing found; each set that is found joins the outdated
/// ones, and a set that is not to be had counts as unavailable and not as
/// outdated.
pub proof fn law_course_of_check(
    v: UpdateView,
    total: usize,
    uncheckable: usize,
    set: OutdatedSet,
    id: Option<i64>,
    reason: String,
)
    ensures
        ({
            let begun = after_check_event(
                v,
                (UpdateCheckEvent::Started { total, uncheckable }),
            );
            begun.is_checking && begun.outdated.len() == 0 && begun.check_done == 0
                && begun.check_total == total && begun.uncheckable == uncheckable
                && begun.unavailable == 0
        }),
        ({
            let found = after_check_event(v, UpdateCheckEvent::Found(set));
            found.outdated == v.outdated.push(set) && found.unavailable == v.unavailable
                && found.is_checking == v.is_checking
        }),
        ({
            let gone = after_check_event(
                v,
                (UpdateCheckEvent::Unavailable { beatmapset_id: id, reason }),
            );
            gone.outdated == v.outdated && gone.unavailable == v.unavailable + 1
        }),
        !after_check_event(v, UpdateCheckEvent::Finished).is_checking,
        after_check_event(v, UpdateCheckEvent::Finished).outdated == v.outdated,
{
}

/// A set is found among the outdated ones as the first with its identifier.
pub proof fn law_place_of_set(sets: Seq<OutdatedSet>, id: i64, i: int)
    requires
        0 <= i <= sets.len(),
        i < sets.len() ==> sets[i].beatmapset_id == id,
        forall|j: int| 0 <= j < i ==> (#[trigger] sets[j]).beatmapset_id != id,
    ensures
        outdated_at(sets, id) == i,
    decreases sets.len(),
{
    if i > 0 {
        let t = sets.drop_first();
        assert(sets[0].beatmapset_id != id);
        assert forall|j: int| 0 <= j < i - 1 implies (#[trigger] t[j]).beatmapset_id != id by {
            assert(t[j] == sets[j + 1]);
        }
        law_place_of_set(t, id, i - 1);
    }
}

/// Updates begin with nothing done and no folder touched; each that failed counts
/// as done and as a failure, and the last event leaves the counts as they are.
pub proof fn law_course_of_updates(v: UpdateView, total: usize, id: i64, message: String)
    ensures
        ({
            let begun = after_update_event(v, (UpdateEvent::Started { total }));
            begun.is_updating && begun.total == total && begun.done == 0 && begun.successes == 0
                && begun.failures == 0 && begun.touched == Set::<Seq<char>>::empty()
                && begun.outdated == v.outdated && begun.log == v.log
        }),
        ({
            let failed = after_update_event(
                v,
                (UpdateEvent::Failed { beatmapset_id: id, message }),
            );
            failed.done == v.done + 1 && failed.failures == v.failures + 1 && failed.successes
                == v.successes && failed.touched == v.touched && failed.outdated == v.outdated
        }),
        ({
            let ended = after_update_event(v, UpdateEvent::Finished);
            !ended.is_updating && ended.done == v.done && ended.successes == v.successes
                && ended.failures == v.failures && ended.touched == Set::<Seq<char>>::empty()
                && ended.log == v.log
        }),
{
}

} // verus!
