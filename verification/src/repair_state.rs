//! How far a repair is.
#[allow(unused_imports)]
use crate::number::{decimal, decimal_int};
use crate::number::{decimal_signed, decimal_usize};
#[allow(unused_imports)]
use crate::repair::{ignored_view, ignores_with, log_view, log_with, one_each, LogView};
#[allow(unused_imports)]
use crate::repair::law_one_entry_for_each_set;
use crate::repair::{
    upsert_log, RepairEvent, RepairIgnoreStore, RepairLogEntry, RepairLogStatus,
};
use crate::text::{join, join2, join3};
#[allow(unused_imports)]
use crate::text::{join_texts, texts};
use vstd::prelude::*;
use vstd::string::*;

verus! {

/// How far a repair is, and how each of its sets stands.
#[derive(Debug)]
pub struct RepairState {
    pub is_repairing: bool,
    pub progress: String,
    pub total: usize,
    pub done: usize,
    pub successes: usize,
    pub failures: usize,
    pub log: Vec<RepairLogEntry>,
}

/// The view of a [`RepairState`].
#[verifier::ext_equal]
pub struct RepairView {
    pub is_repairing: bool,
    pub progress: Seq<char>,
    pub total: int,
    pub done: int,
    pub successes: int,
    pub failures: int,
    pub log: Seq<LogView>,
}

impl View for RepairState {
    type V = RepairView;

    open spec fn view(&self) -> RepairView {
        RepairView {
            is_repairing: self.is_repairing,
            progress: self.progress@,
            total: self.total as int,
            done: self.done as int,
            successes: self.successes as int,
            failures: self.failures as int,
            log: log_view(self.log@),
        }
    }
}

/// The state before any repair.
pub open spec fn no_repair() -> RepairView {
    RepairView {
        is_repairing: false,
        progress: ""@,
        total: 0,
        done: 0,
        successes: 0,
        failures: 0,
        log: Seq::empty(),
    }
}

/// How far a list of downloads is.
pub open spec fn download_text(index: nat, total: nat) -> Seq<char> {
    "Downloading "@ + decimal(index) + "/"@ + decimal(total)
}

/// How far a list of downloads is.
pub fn downloading(index: usize, total: usize) -> (r: String)
    ensures
        r@ == download_text(index as nat, total as nat),
{
    let mut r = join3("Downloading ", &decimal_usize(index), "/");
    r.append(&decimal_usize(total));
    r
}

/// What was restored.
pub open spec fn restored_text(files: Seq<Seq<char>>) -> Seq<char> {
    if files.len() == 0 {
        "no missing files remained"@
    } else {
        "restored "@ + join_texts(files, ", "@)
    }
}

/// The entry of the log on a repair, where `added` issues are ignored from now
/// on.
pub open spec fn repaired_text(
    folders: nat,
    source: Seq<char>,
    files: Seq<Seq<char>>,
    added: nat,
) -> Seq<char> {
    "Repaired "@ + decimal(folders) + " folder(s) via "@ + source + "; "@ + restored_text(files)
        + "; ignored "@ + decimal(added) + " missing background issue(s)"@
}

/// The progress of a repair after an event.
pub open spec fn repair_progress(v: RepairView, event: RepairEvent) -> Seq<char> {
    match event {
        RepairEvent::Started { total } => "Preparing to repair "@ + decimal(total as nat)
            + " beatmapset(s)"@,
        RepairEvent::Opening { beatmapset_id, index, total } => "Downloading repair "@ + decimal(
            index as nat,
        ) + "/"@ + decimal(total as nat) + ": set "@ + decimal_int(beatmapset_id as int),
        RepairEvent::Repaired {
            beatmapset_id,
            folder_count,
            restored_files,
            download_source,
            ignored_after_success,
        } => "Repaired set "@ + decimal_int(beatmapset_id as int) + " in "@ + decimal(
            folder_count as nat,
        ) + " folder(s)"@,
        RepairEvent::Failed { beatmapset_id, message } => "Repair failed for set "@ + decimal_int(
            beatmapset_id as int,
        ) + ": "@ + message@,
        RepairEvent::Finished => v.progress,
    }
}

/// The state after an event of a repair, where `added` issues are ignored from
/// now on.
pub open spec fn after_repair_event(v: RepairView, event: RepairEvent, added: nat) -> RepairView {
    let progress = repair_progress(v, event);
    match event {
        RepairEvent::Started { total } => RepairView {
            is_repairing: true,
            progress,
            total: total as int,
            done: 0,
            successes: 0,
            failures: 0,
            log: Seq::empty(),
        },
        RepairEvent::Opening { beatmapset_id, index, total } => RepairView {
            progress,
            log: log_with(
                v.log,
                LogView {
                    beatmapset_id,
                    status: RepairLogStatus::InProgress,
                    message: download_text(index as nat, total as nat),
                },
            ),
            ..v
        },
        RepairEvent::Repaired {
            beatmapset_id,
            folder_count,
            restored_files,
            download_source,
            ignored_after_success,
        } => RepairView {
            progress,
            done: v.done + 1,
            successes: v.successes + 1,
            log: log_with(
                v.log,
                LogView {
                    beatmapset_id,
                    status: RepairLogStatus::Success,
                    message: repaired_text(
                        folder_count as nat,
                        download_source@,
                        texts(restored_files@),
                        added,
                    ),
                },
            ),
            ..v
        },
        RepairEvent::Failed { beatmapset_id, message } => RepairView {
            progress,
            done: v.done + 1,
            failures: v.failures + 1,
            log: log_with(
                v.log,
                LogView { beatmapset_id, status: RepairLogStatus::Failed, message: message@ },
            ),
            ..v
        },
        RepairEvent::Finished => RepairView { is_repairing: false, ..v },
    }
}

/// What is said after an event of a repair, where `v` is the state after it.
pub open spec fn repair_event_text(v: RepairView, event: RepairEvent) -> Seq<char> {
    if event is Finished {
        "Repair finished: "@ + decimal(v.successes as nat) + " succeeded, "@ + decimal(
            v.failures as nat,
        ) + " failed out of "@ + decimal(v.total as nat)
    } else {
        v.progress
    }
}

/// How many issues an event adds to those that are ignored.
pub open spec fn issues_to_ignore(event: RepairEvent) -> Seq<crate::repair::IgnoredView> {
    match event {
        RepairEvent::Repaired {
            beatmapset_id,
            folder_count,
            restored_files,
            download_source,
            ignored_after_success,
        } => ignored_view(ignored_after_success@),
        _ => Seq::empty(),
    }
}

impl RepairState {
    /// Every set that is done succeeded or failed, and no set has two entries
    /// in the log.
    pub open spec fn wf(self) -> bool {
        self.done == self.successes + self.failures && one_each(log_view(self.log@))
    }

    /// No repair was begun.
    pub fn new() -> (r: Self)
        ensures
            r.wf(),
            !r.is_repairing,
            r@ == no_repair(),
    {
        let r = RepairState {
            is_repairing: false,
            progress: "".to_owned(),
            total: 0,
            done: 0,
            successes: 0,
            failures: 0,
            log: Vec::new(),
        };
        assert(log_view(r.log@) =~= Seq::empty());
        r
    }

    /// Takes in an event of a repair. Gives what is to be said, and how many
    /// issues are ignored from now on.
    pub fn on_event(&mut self, event: RepairEvent, ignores: &mut RepairIgnoreStore) -> (r: (
        String,
        usize,
    ))
        requires
            old(self).wf(),
            old(self).done < usize::MAX,
        ensures
            final(self).wf(),
            final(self)@ == after_repair_event(old(self)@, event, r.1 as nat),
            r.0@ == repair_event_text(final(self)@, event),
            ignored_view(final(ignores).entries@) == ignores_with(
                ignored_view(old(ignores).entries@),
                issues_to_ignore(event),
            ),
            final(ignores).entries@.len() == old(ignores).entries@.len() + r.1,
    {
        let ghost known = log_view(self.log@);
        match event {
            RepairEvent::Started { total } => {
                self.is_repairing = true;
                self.total = total;
                self.done = 0;
                self.successes = 0;
                self.failures = 0;
                self.log = Vec::new();
                assert(log_view(self.log@) =~= Seq::empty());
                self.progress = join3(
                    "Preparing to repair ",
                    &decimal_usize(total),
                    " beatmapset(s)",
                );
                (self.progress.clone(), 0)
            },
            RepairEvent::Opening { beatmapset_id, index, total } => {
                let message = downloading(index, total);
                proof {
                    law_one_entry_for_each_set(
                        known,
                        LogView {
                            beatmapset_id,
                            status: RepairLogStatus::InProgress,
                            message: message@,
                        },
                    );
                }
                upsert_log(&mut self.log, beatmapset_id, RepairLogStatus::InProgress, message);
                let mut progress = join3("Downloading repair ", &decimal_usize(index), "/");
                progress.append(&decimal_usize(total));
                progress.append(": set ");
                progress.append(&decimal_signed(beatmapset_id));
                self.progress = progress;
                (self.progress.clone(), 0)
            },
            RepairEvent::Repaired {
                beatmapset_id,
                folder_count,
                restored_files,
                download_source,
                ignored_after_success,
            } => {
                let added: usize = ignores.add(&ignored_after_success);
                assert(texts(restored_files@).len() == restored_files@.len());
                let restored = if restored_files.len() == 0 {
                    "no missing files remained".to_owned()
                } else {
                    join2("restored ", &join(&restored_files, ", "))
                };
                let mut message = join3("Repaired ", &decimal_usize(folder_count), " folder(s) via ");
                message.append(&download_source);
                message.append("; ");
                message.append(&restored);
                message.append("; ignored ");
                message.append(&decimal_usize(added));
                message.append(" missing background issue(s)");
                proof {
                    law_one_entry_for_each_set(
                        known,
                        LogView {
                            beatmapset_id,
                            status: RepairLogStatus::Success,
                            message: message@,
                        },
                    );
                }
                upsert_log(&mut self.log, beatmapset_id, RepairLogStatus::Success, message);
                self.done = self.done + 1;
                self.successes = self.successes + 1;
                let mut progress = join3("Repaired set ", &decimal_signed(beatmapset_id), " in ");
                progress.append(&decimal_usize(folder_count));
                progress.append(" folder(s)");
                self.progress = progress;
                (self.progress.clone(), added)
            },
            RepairEvent::Failed { beatmapset_id, message } => {
                let mut progress = join3(
                    "Repair failed for set ",
                    &decimal_signed(beatmapset_id),
                    ": ",
                );
                progress.append(&message);
                proof {
                    law_one_entry_for_each_set(
                        known,
                        LogView {
                            beatmapset_id,
                            status: RepairLogStatus::Failed,
                            message: message@,
                        },
                    );
                }
                upsert_log(&mut self.log, beatmapset_id, RepairLogStatus::Failed, message);
                self.done = self.done + 1;
                self.failures = self.failures + 1;
                self.progress = progress;
                (self.progress.clone(), 0)
            },
            RepairEvent::Finished => {
                self.is_repairing = false;
                let mut text = join3(
                    "Repair finished: ",
                    &decimal_usize(self.successes),
                    " succeeded, ",
                );
                text.append(&decimal_usize(self.failures));
                text.append(" failed out of ");
                text.append(&decimal_usize(self.total));
                (text, 0)
            },
        }
    }

    /// Takes in that a repair ended without saying so.
    pub fn on_disconnect(&mut self) -> (status: String)
        ensures
            *final(self) == (RepairState { is_repairing: false, ..*old(self) }),
            status@ == "Repair worker disconnected"@,
    {
        self.is_repairing = false;
        "Repair worker disconnected".to_owned()
    }
}

/// A set that was repaired counts as done and as a success, one that failed as
/// done and as a failure, and the log says so of each; nothing else counts.
pub proof fn law_repairs_are_counted(v: RepairView, event: RepairEvent, added: nat)
    requires
        one_each(v.log),
    ensures
        ({
            let now = after_repair_event(v, event, added);
            &&& event matches RepairEvent::Repaired { beatmapset_id, .. } ==> now.done == v.done + 1
                && now.successes == v.successes + 1 && now.failures == v.failures && (exists|k: int|
                0 <= k < now.log.len() && (#[trigger] now.log[k]).beatmapset_id == beatmapset_id
                    && now.log[k].status == RepairLogStatus::Success)
            &&& event matches RepairEvent::Failed { beatmapset_id, message } ==> now.done == v.done
                + 1 && now.successes == v.successes && now.failures == v.failures + 1 && (exists|
                k: int,
            |
                0 <= k < now.log.len() && (#[trigger] now.log[k]).beatmapset_id == beatmapset_id
                    && now.log[k].status == RepairLogStatus::Failed && now.log[k].message
                    == message@)
            &&& event matches RepairEvent::Opening { beatmapset_id, .. } ==> now.done == v.done
                && now.successes == v.successes && now.failures == v.failures && (exists|k: int|
                0 <= k < now.log.len() && (#[trigger] now.log[k]).beatmapset_id == beatmapset_id
                    && now.log[k].status == RepairLogStatus::InProgress)
            &&& event matches RepairEvent::Started { total } ==> now.is_repairing && now.total
                == total && now.done == 0 && now.successes == 0 && now.failures == 0 && now.log.len()
                == 0
            &&& event is Finished ==> !now.is_repairing && now.done == v.done && now.successes
                == v.successes && now.failures == v.failures && now.log == v.log
            &&& v.done == v.successes + v.failures ==> now.done == now.successes + now.failures
            &&& one_each(now.log)
        }),
{
    let now = after_repair_event(v, event, added);
    match event {
        RepairEvent::Opening { beatmapset_id, index, total } => {
            let entry = LogView {
                beatmapset_id,
                status: RepairLogStatus::InProgress,
                message: download_text(index as nat, total as nat),
            };
            crate::repair::law_one_entry_for_each_set(v.log, entry);
            let log = log_with(v.log, entry);
            let k = choose|k: int| 0 <= k < log.len() && log[k] == entry;
            assert(now.log == log);
            assert(now.log[k].beatmapset_id == beatmapset_id);
        },
        RepairEvent::Repaired {
            beatmapset_id,
            folder_count,
            restored_files,
            download_source,
            ignored_after_success,
        } => {
            let entry = LogView {
                beatmapset_id,
                status: RepairLogStatus::Success,
                message: repaired_text(
                    folder_count as nat,
                    download_source@,
                    texts(restored_files@),
                    added,
                ),
            };
            crate::repair::law_one_entry_for_each_set(v.log, entry);
            let log = log_with(v.log, entry);
            let k = choose|k: int| 0 <= k < log.len() && log[k] == entry;
            assert(now.log == log);
            assert(now.log[k].beatmapset_id == beatmapset_id);
        },
        RepairEvent::Failed { beatmapset_id, message } => {
            let entry = LogView {
                beatmapset_id,
                status: RepairLogStatus::Failed,
                message: message@,
            };
            crate::repair::law_one_entry_for_each_set(v.log, entry);
            let log = log_with(v.log, entry);
            let k = choose|k: int| 0 <= k < log.len() && log[k] == entry;
            assert(now.log == log);
            assert(now.log[k].beatmapset_id == beatmapset_id);
        },
        _ => {},
    }
}

/// Only a repair that succeeded gives issues to ignore, and those of its job.
pub proof fn law_issues_to_ignore(event: RepairEvent)
    ensures
        event is Failed || event is Started || event is Opening || event is Finished
            ==> issues_to_ignore(event).len() == 0,
        event matches RepairEvent::Repaired { ignored_after_success, .. } ==> issues_to_ignore(event)
            == ignored_view(ignored_after_success@),
{
}

} // verus!
