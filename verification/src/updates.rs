//! Beatmap sets with a newer version online: finding them, and putting the
//! newer version in place.
//!
//! A local difficulty is outdated when the checksum of its file is not the one
//! that the online difficulty with the same identifier has.
use crate::local::{map_label, FilePath, LocalBeatmap};
#[allow(unused_imports)]
use crate::local::{opt_int, opt_text};
use crate::number::{decimal_signed, decimal_text, parse_signed};
#[allow(unused_imports)]
use crate::number::{decimal, decimal_int, parse_int};
#[allow(unused_imports)]
use crate::order::ascending;
use crate::order::TextSet;
use crate::text::{
    chars_of, join, join2, join3, lines, same_ignoring_case, split_once, strip_end, to_lower, trim,
    CharClass,
};
#[allow(unused_imports)]
use crate::text::{
    join_texts, lines_text, lower_text, split_once_text, strip_back, texts, trim_text,
};
use crate::trusted::{lossy, md5_hex};
#[allow(unused_imports)]
use crate::trusted::{lossy_text, md5_text};
use vstd::prelude::*;
use vstd::string::*;

verus! {

/// An online difficulty.
#[derive(Debug)]
pub struct RemoteBeatmap {
    pub id: i64,
    pub version: String,
    /// The checksum of the online file, where one is reported.
    pub checksum: Option<String>,
}

/// An online set.
#[derive(Debug)]
pub struct RemoteSetMeta {
    pub id: i64,
    pub artist: String,
    pub title: String,
    pub creator: String,
    pub last_updated: Option<String>,
    pub beatmaps: Vec<RemoteBeatmap>,
}

/// The answer to a question for a single online difficulty.
#[derive(Debug)]
pub struct RemoteBeatmapLookup {
    pub id: i64,
    pub beatmapset_id: Option<i64>,
    pub checksum: Option<String>,
    pub version: String,
}

/// A local difficulty that can be checked online.
#[derive(Debug)]
pub struct LocalDiffRef {
    pub beatmap_id: Option<i64>,
    pub md5: String,
    pub label: String,
    pub folder: FilePath,
}

/// The view of a [`LocalDiffRef`].
#[verifier::ext_equal]
pub struct DiffView {
    pub beatmap_id: Option<i64>,
    pub md5: Seq<char>,
    pub label: Seq<char>,
    pub folder: FilePath,
}

impl View for LocalDiffRef {
    type V = DiffView;

    open spec fn view(&self) -> DiffView {
        DiffView {
            beatmap_id: self.beatmap_id,
            md5: self.md5@,
            label: self.label@,
            folder: self.folder,
        }
    }
}

/// The views of a list of difficulties.
pub open spec fn diffs_view(v: Seq<LocalDiffRef>) -> Seq<DiffView> {
    Seq::new(v.len(), |i: int| v[i]@)
}

/// What is checked of a map.
pub open spec fn diff_of(map: LocalBeatmap) -> DiffView {
    DiffView {
        beatmap_id: map.beatmap_id,
        md5: map.md5@,
        label: map_label(map),
        folder: map.folder,
    }
}

impl Clone for LocalDiffRef {
    fn clone(&self) -> (r: Self)
        ensures
            r == *self,
    {
        LocalDiffRef {
            beatmap_id: self.beatmap_id,
            md5: self.md5.clone(),
            label: self.label.clone(),
            folder: self.folder.clone(),
        }
    }
}

impl LocalDiffRef {
    /// What is checked of a map.
    pub fn from_map(map: &LocalBeatmap) -> (r: Self)
        ensures
            r@ == diff_of(*map),
    {
        LocalDiffRef {
            beatmap_id: map.beatmap_id,
            md5: map.md5.clone(),
            label: map.label(),
            folder: map.folder.clone(),
        }
    }
}

/// An outdated difficulty.
#[derive(Debug)]
pub struct OutdatedDiff {
    pub label: String,
}

/// The labels of outdated difficulties.
pub open spec fn labels_of(v: Seq<OutdatedDiff>) -> Seq<Seq<char>> {
    Seq::new(v.len(), |i: int| v[i].label@)
}

/// A set, and how many of its local difficulties are outdated.
#[derive(Debug)]
pub struct OutdatedSet {
    pub beatmapset_id: i64,
    pub title: String,
    pub remote_updated: Option<String>,
    pub outdated: Vec<OutdatedDiff>,
    pub up_to_date: usize,
    /// Local difficulties that cannot be checked.
    pub unchecked: usize,
    pub folders: Vec<FilePath>,
}

impl OutdatedSet {
    /// How many difficulties are outdated.
    pub fn outdated_count(&self) -> (n: usize)
        ensures
            n == self.outdated@.len(),
    {
        self.outdated.len()
    }

    /// How many difficulties could be checked.
    pub fn total_checked(&self) -> (n: usize)
        requires
            self.outdated@.len() + self.up_to_date <= usize::MAX,
        ensures
            n == self.outdated@.len() + self.up_to_date,
    {
        self.outdated.len() + self.up_to_date
    }
}

/// The online difficulty with an identifier; the last one counts.
pub open spec fn remote_with(beatmaps: Seq<RemoteBeatmap>, id: i64) -> Option<RemoteBeatmap>
    decreases beatmaps.len(),
{
    if beatmaps.len() == 0 {
        None
    } else if beatmaps.last().id == id {
        Some(beatmaps.last())
    } else {
        remote_with(beatmaps.drop_last(), id)
    }
}

/// What a check says of a local difficulty.
#[derive(Clone, Copy, Debug, PartialEq, Eq, Structural)]
pub enum Verdict {
    /// Nothing to compare with.
    Unchecked,
    UpToDate,
    /// The online checksum is another one.
    Changed,
    /// There is no such difficulty online.
    Removed,
}

/// What a check says of a local difficulty. Without an identifier, or without
/// an online checksum, nothing can be said.
pub open spec fn verdict_of(local: DiffView, beatmaps: Seq<RemoteBeatmap>) -> Verdict {
    match local.beatmap_id {
        None => Verdict::Unchecked,
        Some(id) => match remote_with(beatmaps, id) {
            None => Verdict::Removed,
            Some(remote) => match remote.checksum {
                None => Verdict::Unchecked,
                Some(c) => if lower_text(c@) == lower_text(local.md5) {
                    Verdict::UpToDate
                } else {
                    Verdict::Changed
                },
            },
        },
    }
}

/// A difficulty without an online identifier is never found outdated, and
/// neither is one whose online version reports no checksum.
pub proof fn law_uncheckable_is_never_outdated(local: DiffView, beatmaps: Seq<RemoteBeatmap>)
    requires
        local.beatmap_id is None || (remote_with(beatmaps, local.beatmap_id->0) matches Some(remote)
            && remote.checksum is None),
    ensures
        verdict_of(local, beatmaps) == Verdict::Unchecked,
{
}

/// How many difficulties a check says `v` of.
pub open spec fn count_verdicts(
    locals: Seq<DiffView>,
    beatmaps: Seq<RemoteBeatmap>,
    v: Verdict,
) -> nat
    decreases locals.len(),
{
    if locals.len() == 0 {
        0
    } else {
        count_verdicts(locals.drop_last(), beatmaps, v) + (if verdict_of(locals.last(), beatmaps)
            == v {
            1nat
        } else {
            0
        })
    }
}

/// The labels of the outdated difficulties, in order.
pub open spec fn outdated_labels(locals: Seq<DiffView>, beatmaps: Seq<RemoteBeatmap>) -> Seq<
    Seq<char>,
>
    decreases locals.len(),
{
    if locals.len() == 0 {
        seq![]
    } else {
        let rest = outdated_labels(locals.drop_last(), beatmaps);
        match verdict_of(locals.last(), beatmaps) {
            Verdict::Changed => rest.push(locals.last().label),
            Verdict::Removed => rest.push(locals.last().label + " (removed upstream)"@),
            _ => rest,
        }
    }
}

/// The online difficulty with an identifier.
fn find_remote(beatmaps: &Vec<RemoteBeatmap>, id: i64) -> (r: Option<&RemoteBeatmap>)
    ensures
        match r {
            Some(b) => remote_with(beatmaps@, id) == Some(*b),
            None => remote_with(beatmaps@, id) is None,
        },
{
    let mut i: usize = beatmaps.len();
    assert(beatmaps@.take(i as int) =~= beatmaps@);
    while i > 0
        invariant
            i <= beatmaps@.len(),
            remote_with(beatmaps@, id) == remote_with(beatmaps@.take(i as int), id),
        decreases i,
    {
        assert(beatmaps@.take(i as int).drop_last() =~= beatmaps@.take(i as int - 1));
        i = i - 1;
        if beatmaps[i].id == id {
            return Some(&beatmaps[i]);
        }
    }
    assert(beatmaps@.take(0) =~= seq![]);
    None
}

/// What a check says of a local difficulty.
pub fn verdict(local: &LocalDiffRef, beatmaps: &Vec<RemoteBeatmap>) -> (r: Verdict)
    ensures
        r == verdict_of(local@, beatmaps@),
{
    match local.beatmap_id {
        None => Verdict::Unchecked,
        Some(id) => match find_remote(beatmaps, id) {
            None => Verdict::Removed,
            Some(remote) => match &remote.checksum {
                None => Verdict::Unchecked,
                Some(c) => if same_ignoring_case(c, &local.md5) {
                    Verdict::UpToDate
                } else {
                    Verdict::Changed
                },
            },
        },
    }
}

/// Checks the local difficulties of a set against the online set.
pub fn detect_outdated(
    beatmapset_id: i64,
    title: String,
    remote_updated: Option<String>,
    locals: &Vec<LocalDiffRef>,
    remote: &RemoteSetMeta,
    folders: Vec<FilePath>,
) -> (r: OutdatedSet)
    ensures
        r.beatmapset_id == beatmapset_id,
        r.title == title,
        r.remote_updated == remote_updated,
        r.folders == folders,
        labels_of(r.outdated@) == outdated_labels(diffs_view(locals@), remote.beatmaps@),
        r.up_to_date == count_verdicts(
            diffs_view(locals@),
            remote.beatmaps@,
            Verdict::UpToDate,
        ),
        r.unchecked == count_verdicts(
            diffs_view(locals@),
            remote.beatmaps@,
            Verdict::Unchecked,
        ),
        r.outdated@.len() + r.up_to_date + r.unchecked == locals@.len(),
{
    let ghost all = diffs_view(locals@);
    let ghost online = remote.beatmaps@;
    let mut outdated: Vec<OutdatedDiff> = Vec::new();
    let mut up_to_date: usize = 0;
    let mut unchecked: usize = 0;
    let mut i: usize = 0;
    assert(all.take(0) =~= seq![]);
    assert(labels_of(outdated@) =~= seq![]);
    while i < locals.len()
        invariant
            i <= locals@.len(),
            all == diffs_view(locals@),
            online == remote.beatmaps@,
            labels_of(outdated@) == outdated_labels(all.take(i as int), online),
            up_to_date == count_verdicts(all.take(i as int), online, Verdict::UpToDate),
            unchecked == count_verdicts(all.take(i as int), online, Verdict::Unchecked),
            outdated@.len() + up_to_date + unchecked == i,
        decreases locals@.len() - i,
    {
        let local = &locals[i];
        let ghost before = labels_of(outdated@);
        proof {
            assert(all.take(i as int + 1).drop_last() =~= all.take(i as int));
            assert(all.take(i as int + 1).last() == local@);
        }
        match verdict(local, &remote.beatmaps) {
            Verdict::Unchecked => {
                unchecked = unchecked + 1;
            },
            Verdict::UpToDate => {
                up_to_date = up_to_date + 1;
            },
            Verdict::Changed => {
                outdated.push(OutdatedDiff { label: local.label.clone() });
                assert(labels_of(outdated@) =~= before.push(local@.label));
            },
            Verdict::Removed => {
                outdated.push(OutdatedDiff { label: join2(&local.label, " (removed upstream)") });
                assert(labels_of(outdated@) =~= before.push(
                    local@.label + " (removed upstream)"@,
                ));
            },
        }
        i = i + 1;
    }
    assert(all.take(i as int) =~= all);
    OutdatedSet {
        beatmapset_id,
        title,
        remote_updated,
        outdated,
        up_to_date,
        unchecked,
        folders,
    }
}

// ---- check targets ----

/// Local difficulties that are checked together: those of a set, or those
/// whose set is not known.
#[derive(Debug)]
pub struct CheckTarget {
    pub beatmapset_id: Option<i64>,
    pub locals: Vec<LocalDiffRef>,
}

/// A difficulty, and the set that it belongs to.
#[verifier::ext_equal]
pub struct Tagged {
    pub id: Option<i64>,
    pub diff: DiffView,
}

/// The difficulties of the set `id`, in order.
pub open spec fn diffs_of_id(all: Seq<Tagged>, id: i64) -> Seq<DiffView>
    decreases all.len(),
{
    if all.len() == 0 {
        seq![]
    } else {
        let rest = diffs_of_id(all.drop_last(), id);
        if all.last().id == Some(id) {
            rest.push(all.last().diff)
        } else {
            rest
        }
    }
}

/// Whether one of the targets is the set `id`.
pub open spec fn has_target(targets: Seq<CheckTarget>, id: i64) -> bool {
    exists|i: int| 0 <= i < targets.len() && (#[trigger] targets[i]).beatmapset_id == Some(id)
}

/// How many difficulties the targets hold.
pub open spec fn targets_size(targets: Seq<CheckTarget>) -> nat
    decreases targets.len(),
{
    if targets.len() == 0 {
        0
    } else {
        targets_size(targets.drop_last()) + targets.last().locals@.len()
    }
}

/// How many difficulties belong to a set.
pub open spec fn tagged_size(all: Seq<Tagged>) -> nat
    decreases all.len(),
{
    if all.len() == 0 {
        0
    } else {
        tagged_size(all.drop_last()) + (if all.last().id is Some {
            1nat
        } else {
            0
        })
    }
}

/// Whether the targets are the sets that the difficulties form: in ascending
/// order, each with its difficulties in their order, and none without.
pub open spec fn targets_of(targets: Seq<CheckTarget>, all: Seq<Tagged>) -> bool {
    &&& forall|i: int| 0 <= i < targets.len() ==> (#[trigger] targets[i]).beatmapset_id is Some
    &&& forall|i: int, j: int|
        0 <= i < j < targets.len() ==> (#[trigger] targets[i]).beatmapset_id->0 < (
        #[trigger] targets[j]).beatmapset_id->0
    &&& forall|i: int|
        0 <= i < targets.len() ==> diffs_view((#[trigger] targets[i]).locals@) == diffs_of_id(
            all,
            targets[i].beatmapset_id->0,
        ) && targets[i].locals@.len() > 0
    &&& forall|m: int|
        0 <= m < all.len() && (#[trigger] all[m]).id is Some ==> has_target(targets, all[m].id->0)
    &&& targets_size(targets) == tagged_size(all)
}

proof fn lemma_targets_size_update(targets: Seq<CheckTarget>, k: int, t: CheckTarget)
    requires
        0 <= k < targets.len(),
    ensures
        targets_size(targets.update(k, t)) == targets_size(targets) - targets[k].locals@.len()
            + t.locals@.len(),
    decreases targets.len(),
{
    let n = targets.update(k, t);
    if k == targets.len() - 1 {
        assert(n.drop_last() =~= targets.drop_last());
    } else {
        assert(n.drop_last() =~= targets.drop_last().update(k, t));
        lemma_targets_size_update(targets.drop_last(), k, t);
    }
}

proof fn lemma_targets_size_insert(targets: Seq<CheckTarget>, k: int, t: CheckTarget)
    requires
        0 <= k <= targets.len(),
    ensures
        targets_size(targets.insert(k, t)) == targets_size(targets) + t.locals@.len(),
    decreases targets.len(),
{
    let n = targets.insert(k, t);
    if k == targets.len() {
        assert(n.drop_last() =~= targets);
    } else {
        assert(n.drop_last() =~= targets.drop_last().insert(k, t));
        assert(n.last() == targets.last());
        lemma_targets_size_insert(targets.drop_last(), k, t);
    }
}

proof fn lemma_no_diffs(targets: Seq<CheckTarget>, all: Seq<Tagged>, id: i64, n: int)
    requires
        targets_of(targets, all),
        !has_target(targets, id),
        0 <= n <= all.len(),
    ensures
        diffs_of_id(all.take(n), id).len() == 0,
    decreases n,
{
    if n > 0 {
        lemma_no_diffs(targets, all, id, n - 1);
        assert(all.take(n).drop_last() =~= all.take(n - 1));
        assert(all.take(n).last() == all[n - 1]);
        if all[n - 1].id == Some(id) {
            assert(has_target(targets, all[n - 1].id->0));
        }
    }
}

/// The first position whose set is not before `id`.
fn target_position(targets: &Vec<CheckTarget>, id: i64) -> (k: usize)
    requires
        forall|i: int|
            0 <= i < targets@.len() ==> (#[trigger] targets@[i]).beatmapset_id is Some,
        forall|i: int, j: int|
            0 <= i < j < targets@.len() ==> (#[trigger] targets@[i]).beatmapset_id->0 < (
            #[trigger] targets@[j]).beatmapset_id->0,
    ensures
        k <= targets@.len(),
        forall|i: int| 0 <= i < k ==> (#[trigger] targets@[i]).beatmapset_id->0 < id,
        forall|i: int|
            k <= i < targets@.len() ==> (#[trigger] targets@[i]).beatmapset_id->0 >= id,
{
    let mut lo: usize = 0;
    let mut hi: usize = targets.len();
    while lo < hi
        invariant
            lo <= hi <= targets@.len(),
            forall|i: int|
                0 <= i < targets@.len() ==> (#[trigger] targets@[i]).beatmapset_id is Some,
            forall|i: int, j: int|
                0 <= i < j < targets@.len() ==> (#[trigger] targets@[i]).beatmapset_id->0 < (
                #[trigger] targets@[j]).beatmapset_id->0,
            forall|i: int| 0 <= i < lo ==> (#[trigger] targets@[i]).beatmapset_id->0 < id,
            forall|i: int|
                hi <= i < targets@.len() ==> (#[trigger] targets@[i]).beatmapset_id->0 >= id,
        decreases hi - lo,
    {
        let mid: usize = lo + (hi - lo) / 2;
        let ghost at = targets@[mid as int].beatmapset_id->0;
        let before = match targets[mid].beatmapset_id {
            Some(x) => x < id,
            None => false,
        };
        if before {
            lo = mid + 1;
        } else {
            hi = mid;
        }
    }
    lo
}

/// Adds a difficulty to the target of its set.
#[verifier::rlimit(40)]
fn add_to_targets(
    targets: &mut Vec<CheckTarget>,
    id: i64,
    diff: LocalDiffRef,
    Ghost(all): Ghost<Seq<Tagged>>,
)
    requires
        targets_of(old(targets)@, all),
    ensures
        targets_of(final(targets)@, all.push(Tagged { id: Some(id), diff: diff@ })),
{
    let ghost before = targets@;
    let ghost tag = Tagged { id: Some(id), diff: diff@ };
    let ghost now = all.push(tag);
    assert(now.drop_last() =~= all);
    let k: usize = target_position(targets, id);
    let found = k < targets.len() && match targets[k].beatmapset_id {
        Some(x) => x == id,
        None => false,
    };
    if found {
        targets[k].locals.push(diff);
        proof {
            let t = targets@[k as int];
            assert(targets@ =~= before.update(k as int, t));
            lemma_targets_size_update(before, k as int, t);
            assert(diffs_view(t.locals@) =~= diffs_view(before[k as int].locals@).push(diff@));
            assert forall|i: int| 0 <= i < targets@.len() implies diffs_view(
                (#[trigger] targets@[i]).locals@,
            ) == diffs_of_id(now, targets@[i].beatmapset_id->0) && targets@[i].locals@.len() > 0 by {
                assert(diffs_view(before[i].locals@) == diffs_of_id(
                    all,
                    before[i].beatmapset_id->0,
                ));
                if i < k {
                    assert(before[i].beatmapset_id->0 < before[k as int].beatmapset_id->0);
                } else if i > k {
                    assert(before[k as int].beatmapset_id->0 < before[i].beatmapset_id->0);
                }
            }
            assert forall|m: int| 0 <= m < now.len() && (#[trigger] now[m]).id is Some implies has_target(
                targets@,
                now[m].id->0,
            ) by {
                if m < all.len() {
                    assert(has_target(before, all[m].id->0));
                    let i = choose|i: int|
                        0 <= i < before.len() && (#[trigger] before[i]).beatmapset_id == Some(
                            all[m].id->0,
                        );
                    assert(targets@[i].beatmapset_id == Some(now[m].id->0));
                } else {
                    assert(targets@[k as int].beatmapset_id == Some(id));
                }
            }
        }
    } else {
        proof {
            assert(!has_target(before, id));
            lemma_no_diffs(before, all, id, all.len() as int);
            assert(all.take(all.len() as int) =~= all);
        }
        let mut locals: Vec<LocalDiffRef> = Vec::new();
        locals.push(diff);
        let t = CheckTarget { beatmapset_id: Some(id), locals };
        targets.insert(k, t);
        proof {
            assert(targets@ =~= before.insert(k as int, t));
            lemma_targets_size_insert(before, k as int, t);
            assert(diffs_view(t.locals@) =~= diffs_of_id(now, id));
            assert forall|i: int| 0 <= i < targets@.len() implies #[trigger] targets@[i] == (if i
                < k {
                before[i]
            } else if i == k {
                t
            } else {
                before[i - 1]
            }) by {}
            assert forall|i: int| 0 <= i < targets@.len() implies diffs_view(
                (#[trigger] targets@[i]).locals@,
            ) == diffs_of_id(now, targets@[i].beatmapset_id->0) && targets@[i].locals@.len() > 0 by {
                if i != k {
                    let a = if i < k {
                        i
                    } else {
                        i - 1
                    };
                    assert(diffs_view(before[a].locals@) == diffs_of_id(
                        all,
                        before[a].beatmapset_id->0,
                    ));
                    if before[a].beatmapset_id->0 == id {
                        assert(has_target(before, id));
                    }
                }
            }
            assert forall|m: int| 0 <= m < now.len() && (#[trigger] now[m]).id is Some implies has_target(
                targets@,
                now[m].id->0,
            ) by {
                if m < all.len() {
                    assert(has_target(before, all[m].id->0));
                    let i = choose|i: int|
                        0 <= i < before.len() && (#[trigger] before[i]).beatmapset_id == Some(
                            all[m].id->0,
                        );
                    let a = if i < k {
                        i
                    } else {
                        i + 1
                    };
                    assert(targets@[a].beatmapset_id == Some(now[m].id->0));
                } else {
                    assert(targets@[k as int].beatmapset_id == Some(id));
                }
            }
            assert forall|i: int, j: int| 0 <= i < j < targets@.len() implies (
            #[trigger] targets@[i]).beatmapset_id->0 < (#[trigger] targets@[j]).beatmapset_id->0 by {
                if i == k {
                    let x = before[j - 1];
                    if x.beatmapset_id->0 == id {
                        assert(has_target(before, id));
                    }
                } else if j != k {
                    let a = if i < k {
                        i
                    } else {
                        i - 1
                    };
                    let b = if j < k {
                        j
                    } else {
                        j - 1
                    };
                    assert(before[a].beatmapset_id->0 < before[b].beatmapset_id->0);
                }
            }
        }
    }
}

/// A map as a difficulty of its set.
pub open spec fn tagged_map(map: LocalBeatmap) -> Tagged {
    Tagged { id: map.beatmapset_id, diff: diff_of(map) }
}

/// The maps as difficulties of their sets.
pub open spec fn tagged_maps(maps: Seq<LocalBeatmap>) -> Seq<Tagged> {
    Seq::new(maps.len(), |i: int| tagged_map(maps[i]))
}

/// The difficulties without a set, but with an identifier to look it up by.
pub open spec fn unknown_sets(maps: Seq<LocalBeatmap>) -> Seq<DiffView>
    decreases maps.len(),
{
    if maps.len() == 0 {
        seq![]
    } else {
        let rest = unknown_sets(maps.drop_last());
        if maps.last().beatmapset_id is None && maps.last().beatmap_id is Some {
            rest.push(diff_of(maps.last()))
        } else {
            rest
        }
    }
}

/// Whether the targets are those of maps: the sets that they form, and a last
/// one for the maps without a set that can be looked up; and whether the number
/// is that of all other maps.
pub open spec fn checked_by(
    targets: Seq<CheckTarget>,
    uncheckable: nat,
    maps: Seq<LocalBeatmap>,
) -> bool {
    let none = unknown_sets(maps);
    let sets = if none.len() > 0 {
        targets.drop_last()
    } else {
        targets
    };
    &&& targets_of(sets, tagged_maps(maps))
    &&& none.len() > 0 ==> targets.len() > 0 && targets.last().beatmapset_id is None && diffs_view(
        targets.last().locals@,
    ) == none
    &&& targets_size(targets) + uncheckable == maps.len()
}

/// Whether one of the maps has an identifier to check it by.
pub open spec fn checkable(maps: Seq<LocalBeatmap>) -> bool {
    exists|m: int| 0 <= m < maps.len() && has_identifier(#[trigger] maps[m])
}

/// Whether a map has an identifier to check it by.
pub open spec fn has_identifier(map: LocalBeatmap) -> bool {
    map.beatmapset_id is Some || map.beatmap_id is Some
}

proof fn lemma_unknown_sets(maps: Seq<LocalBeatmap>, m: int)
    requires
        0 <= m < maps.len(),
        maps[m].beatmapset_id is None,
        maps[m].beatmap_id is Some,
    ensures
        unknown_sets(maps).len() > 0,
    decreases maps.len(),
{
    if m < maps.len() - 1 {
        assert(maps.drop_last()[m] == maps[m]);
        lemma_unknown_sets(maps.drop_last(), m);
    }
}

proof fn lemma_some_unknown(maps: Seq<LocalBeatmap>)
    requires
        unknown_sets(maps).len() > 0,
    ensures
        checkable(maps),
    decreases maps.len(),
{
    let before = maps.drop_last();
    if unknown_sets(before).len() > 0 {
        lemma_some_unknown(before);
        let m = choose|m: int| 0 <= m < before.len() && has_identifier(#[trigger] before[m]);
        assert(maps[m] == before[m]);
        assert(has_identifier(maps[m]));
    } else {
        assert(has_identifier(maps[maps.len() - 1]));
    }
}

proof fn lemma_some_of_id(all: Seq<Tagged>, id: i64) -> (m: int)
    requires
        diffs_of_id(all, id).len() > 0,
    ensures
        0 <= m < all.len(),
        all[m].id == Some(id),
    decreases all.len(),
{
    if all.last().id == Some(id) {
        all.len() - 1
    } else {
        lemma_some_of_id(all.drop_last(), id)
    }
}

/// There is something to check just where one of the maps has an identifier.
pub proof fn law_targets_of_checkable_maps(
    targets: Seq<CheckTarget>,
    uncheckable: nat,
    maps: Seq<LocalBeatmap>,
)
    requires
        checked_by(targets, uncheckable, maps),
    ensures
        targets.len() > 0 <==> checkable(maps),
{
    let all = tagged_maps(maps);
    let none = unknown_sets(maps);
    if checkable(maps) {
        let m = choose|m: int| 0 <= m < maps.len() && has_identifier(#[trigger] maps[m]);
        if maps[m].beatmapset_id is Some {
            assert(all[m].id is Some);
        } else {
            lemma_unknown_sets(maps, m);
        }
    }
    if targets.len() > 0 {
        if none.len() > 0 {
            lemma_some_unknown(maps);
        } else {
            let first = targets[0];
            assert(diffs_view(first.locals@) == diffs_of_id(all, first.beatmapset_id->0));
            assert(diffs_view(first.locals@).len() == first.locals@.len());
            let m = lemma_some_of_id(all, first.beatmapset_id->0);
            assert(all[m] == tagged_map(maps[m]));
            assert(has_identifier(maps[m]));
        }
    }
}

/// Groups maps by set. Maps without a set, but with an identifier, form a last
/// target. The number of the maps that cannot be checked at all comes with the
/// targets.
pub fn build_check_targets(maps: &Vec<LocalBeatmap>) -> (r: (Vec<CheckTarget>, usize))
    ensures
        checked_by(r.0@, r.1 as nat, maps@),
{
    let ghost all = tagged_maps(maps@);
    let mut targets: Vec<CheckTarget> = Vec::new();
    let mut without_set: Vec<LocalDiffRef> = Vec::new();
    let mut uncheckable: usize = 0;
    let mut i: usize = 0;
    proof {
        assert(all.take(0) =~= seq![]);
        assert(maps@.take(0) =~= seq![]);
        assert(diffs_view(without_set@) =~= seq![]);
    }
    while i < maps.len()
        invariant
            i <= maps@.len(),
            all == tagged_maps(maps@),
            targets_of(targets@, all.take(i as int)),
            diffs_view(without_set@) == unknown_sets(maps@.take(i as int)),
            tagged_size(all.take(i as int)) + without_set@.len() + uncheckable == i,
        decreases maps@.len() - i,
    {
        let map = &maps[i];
        let local = LocalDiffRef::from_map(map);
        let ghost part = all.take(i as int);
        let ghost before = diffs_view(without_set@);
        proof {
            assert(all.take(i as int + 1) =~= part.push(tagged_map(*map)));
            assert(all.take(i as int + 1).drop_last() =~= part);
            assert(maps@.take(i as int + 1).drop_last() =~= maps@.take(i as int));
        }
        match map.beatmapset_id {
            Some(id) => {
                add_to_targets(&mut targets, id, local, Ghost(part));
            },
            None => {
                proof {
                    lemma_untagged(targets@, part, tagged_map(*map));
                }
                if local.beatmap_id.is_some() {
                    without_set.push(local);
                    assert(diffs_view(without_set@) =~= before.push(local@));
                } else {
                    uncheckable = uncheckable + 1;
                }
            },
        }
        i = i + 1;
    }
    proof {
        assert(all.take(i as int) =~= all);
        assert(maps@.take(i as int) =~= maps@);
        assert(diffs_view(without_set@).len() == without_set@.len());
    }
    if without_set.len() > 0 {
        let ghost sets = targets@;
        targets.push(CheckTarget { beatmapset_id: None, locals: without_set });
        assert(targets@.drop_last() =~= sets);
    }
    (targets, uncheckable)
}

/// A difficulty without a set changes no target.
proof fn lemma_untagged(targets: Seq<CheckTarget>, all: Seq<Tagged>, t: Tagged)
    requires
        targets_of(targets, all),
        t.id is None,
    ensures
        targets_of(targets, all.push(t)),
{
    let now = all.push(t);
    assert(now.drop_last() =~= all);
    assert forall|i: int| 0 <= i < targets.len() implies diffs_view((#[trigger] targets[i]).locals@)
        == diffs_of_id(now, targets[i].beatmapset_id->0) && targets[i].locals@.len() > 0 by {
        assert(diffs_view(targets[i].locals@) == diffs_of_id(all, targets[i].beatmapset_id->0));
    }
    assert forall|m: int| 0 <= m < now.len() && (#[trigger] now[m]).id is Some implies has_target(
        targets,
        now[m].id->0,
    ) by {
        assert(now[m] == all[m]);
    }
}

/// The set that an answer gives for a difficulty that was looked up.
pub open spec fn looked_up(local: DiffView, answer: Option<RemoteBeatmapLookup>) -> Tagged {
    Tagged {
        id: match (local.beatmap_id, answer) {
            (Some(id), Some(remote)) => remote.beatmapset_id,
            _ => None,
        },
        diff: local,
    }
}

/// The sets that the answers give for the difficulties.
pub open spec fn all_looked_up(
    locals: Seq<LocalDiffRef>,
    answers: Seq<Option<RemoteBeatmapLookup>>,
) -> Seq<Tagged> {
    Seq::new(locals.len(), |i: int| looked_up(locals[i]@, answers[i]))
}

/// The difficulties without a set, in order.
pub open spec fn untagged(all: Seq<Tagged>) -> Seq<DiffView>
    decreases all.len(),
{
    if all.len() == 0 {
        seq![]
    } else {
        let rest = untagged(all.drop_last());
        if all.last().id is None {
            rest.push(all.last().diff)
        } else {
            rest
        }
    }
}

/// Groups difficulties by the sets that the answers for them give, and lists
/// those that no online set was found for. There is an answer for each
/// difficulty; that of one without an identifier does not count.
pub fn resolve_unknown_sets(
    locals: &Vec<LocalDiffRef>,
    answers: &Vec<Option<RemoteBeatmapLookup>>,
) -> (r: (Vec<CheckTarget>, Vec<LocalDiffRef>))
    requires
        locals@.len() == answers@.len(),
    ensures
        targets_of(r.0@, all_looked_up(locals@, answers@)),
        diffs_view(r.1@) == untagged(all_looked_up(locals@, answers@)),
{
    let ghost all = all_looked_up(locals@, answers@);
    let mut grouped: Vec<CheckTarget> = Vec::new();
    let mut unresolved: Vec<LocalDiffRef> = Vec::new();
    let mut i: usize = 0;
    proof {
        assert(all.take(0) =~= seq![]);
        assert(diffs_view(unresolved@) =~= seq![]);
    }
    while i < locals.len()
        invariant
            i <= locals@.len(),
            locals@.len() == answers@.len(),
            all == all_looked_up(locals@, answers@),
            targets_of(grouped@, all.take(i as int)),
            diffs_view(unresolved@) == untagged(all.take(i as int)),
        decreases locals@.len() - i,
    {
        let local = locals[i].clone();
        let ghost part = all.take(i as int);
        let ghost before = diffs_view(unresolved@);
        let ghost tag = looked_up(local@, answers@[i as int]);
        proof {
            assert(all.take(i as int + 1) =~= part.push(tag));
            assert(all.take(i as int + 1).drop_last() =~= part);
        }
        let id: Option<i64> = match (local.beatmap_id, &answers[i]) {
            (Some(_), Some(remote)) => remote.beatmapset_id,
            _ => None,
        };
        match id {
            Some(set_id) => {
                add_to_targets(&mut grouped, set_id, local, Ghost(part));
            },
            None => {
                proof {
                    lemma_untagged(grouped@, part, tag);
                }
                unresolved.push(local);
                assert(diffs_view(unresolved@) =~= before.push(local@));
            },
        }
        i = i + 1;
    }
    assert(all.take(i as int) =~= all);
    (grouped, unresolved)
}

// ---- requests ----

/// The address of the backend without white space around it and slashes
/// behind it.
pub open spec fn backend_base(backend_url: Seq<char>) -> Seq<char> {
    strip_back(trim_text(backend_url), CharClass::ForwardSlash)
}

fn base_of(backend_url: &str) -> (r: String)
    ensures
        r@ == backend_base(backend_url@),
{
    strip_end(&trim(backend_url), CharClass::ForwardSlash)
}

/// The address of a set.
pub fn set_url(backend_url: &str, beatmapset_id: i64) -> (r: String)
    ensures
        r@ == backend_base(backend_url@) + "/beatmapsets/"@ + decimal_int(beatmapset_id as int),
{
    join3(&base_of(backend_url), "/beatmapsets/", &decimal_signed(beatmapset_id))
}

/// The address of a difficulty.
pub fn beatmap_url(backend_url: &str, beatmap_id: i64) -> (r: String)
    ensures
        r@ == backend_base(backend_url@) + "/beatmaps/"@ + decimal_int(beatmap_id as int),
{
    join3(&base_of(backend_url), "/beatmaps/", &decimal_signed(beatmap_id))
}

/// The address of the archive of a set.
pub fn download_url(backend_url: &str, beatmapset_id: i64) -> (r: String)
    ensures
        r@ == backend_base(backend_url@) + "/beatmapsets/"@ + decimal_int(beatmapset_id as int)
            + "/download"@,
{
    let mut r = set_url(backend_url, beatmapset_id);
    r.append("/download");
    r
}

/// The token to send with a request, if there is one: without white space
/// around it, and not empty.
pub open spec fn token_of(token: Option<Seq<char>>) -> Option<Seq<char>> {
    match token {
        Some(t) => if trim_text(t).len() > 0 {
            Some(trim_text(t))
        } else {
            None
        },
        None => None,
    }
}

/// The token to send with a request, if there is one.
pub fn bearer_token(token: Option<&str>) -> (r: Option<String>)
    ensures
        opt_text(r) == token_of(
            match token {
                Some(t) => Some(t@),
                None => None,
            },
        ),
{
    match token {
        Some(t) => {
            let t = trim(t);
            if chars_of(&t).len() > 0 {
                Some(t)
            } else {
                None
            }
        },
        None => None,
    }
}

/// Where a download came from, as the backend says, or else from the mirror.
pub fn download_source(header: Option<String>) -> (r: String)
    ensures
        r@ == (match header {
            Some(h) => h@,
            None => "mirror"@,
        }),
{
    match header {
        Some(h) => h,
        None => "mirror".to_owned(),
    }
}

/// What comes of asking for a set or a difficulty.
#[derive(Clone, Copy, Debug, PartialEq, Eq, Structural)]
pub enum AnswerStep {
    /// There is no such thing online.
    Gone,
    /// The answer is an error.
    Refuse,
    /// The answer is to be read.
    Read,
}

/// What comes of asking for a set or a difficulty, by the status of the answer.
pub open spec fn step_of_status(status: u16) -> AnswerStep {
    if status == 404 {
        AnswerStep::Gone
    } else if 400 <= status && status <= 599 {
        AnswerStep::Refuse
    } else {
        AnswerStep::Read
    }
}

/// What comes of asking for a set or a difficulty, by the status of the answer.
pub fn answer_step(status: u16) -> (r: AnswerStep)
    ensures
        r == step_of_status(status),
{
    if status == 404 {
        AnswerStep::Gone
    } else if 400 <= status && status <= 599 {
        AnswerStep::Refuse
    } else {
        AnswerStep::Read
    }
}

// ---- putting a newer version in place ----

/// A set to be updated, and the folders that hold it.
#[derive(Debug)]
pub struct UpdateJob {
    pub beatmapset_id: i64,
    pub folders: Vec<FilePath>,
}

/// What an update did.
#[derive(Debug)]
pub struct UpdateOutcome {
    pub written_files: Vec<String>,
    pub removed_files: Vec<String>,
    pub download_source: String,
}

/// The name of the file that the archive of a set is downloaded to.
pub fn temp_osz_name(beatmapset_id: i64) -> (r: String)
    ensures
        r@ == decimal_int(beatmapset_id as int) + ".osz"@,
{
    join2(&decimal_signed(beatmapset_id), ".osz")
}

/// The message for an update without a backend.
pub fn refuse_backend(backend_url: &str) -> (r: Option<String>)
    ensures
        opt_text(r) == (if trim_text(backend_url@).len() == 0 {
            Some("backend URL is required for beatmap update downloads"@)
        } else {
            None
        }),
{
    if chars_of(&trim(backend_url)).len() == 0 {
        Some("backend URL is required for beatmap update downloads".to_owned())
    } else {
        None
    }
}

/// The message for a set that is not online any more.
pub fn gone_text(beatmapset_id: i64) -> (r: String)
    ensures
        r@ == "beatmapset "@ + decimal_int(beatmapset_id as int) + " is no longer available online"@,
{
    join3("beatmapset ", &decimal_signed(beatmapset_id), " is no longer available online")
}

/// The smallest size of an archive.
pub const MIN_OSZ_BYTES: u64 = 64;

/// Why a download cannot be an archive, if it is too small for one.
pub fn refuse_osz(path: &str, bytes: u64) -> (r: Option<String>)
    ensures
        opt_text(r) == osz_fault(path@, bytes),
{
    if bytes < MIN_OSZ_BYTES {
        let mut r = join3("download for ", path, " is too small to be a beatmapset (");
        r.append(&decimal_text(bytes));
        r.append(" bytes); the backend may have returned an error page");
        Some(r)
    } else {
        None
    }
}

/// Whether an extension is that of a beatmap, in any case of letters.
pub open spec fn osu_extension(e: Option<Seq<char>>) -> bool {
    e is Some && lower_text(e->0) == lower_text("osu"@)
}

/// Whether an extension is that of a beatmap, in any case of letters.
pub fn is_osu_extension(extension: Option<&str>) -> (r: bool)
    ensures
        r == osu_extension(
            match extension {
                Some(e) => Some(e@),
                None => None,
            },
        ),
{
    match extension {
        Some(e) => same_ignoring_case(e, "osu"),
        None => false,
    }
}

/// What was taken out of an archive: the names of the files, and those of its
/// beatmaps in lower case.
#[derive(Debug)]
pub struct FullExtractReport {
    pub written: TextSet,
    pub archived_osu_names: TextSet,
}

impl FullExtractReport {
    pub open spec fn wf(self) -> bool {
        self.written.wf() && self.archived_osu_names.wf()
    }

    /// Nothing yet.
    pub fn new() -> (r: Self)
        ensures
            r.wf(),
            r.written@ == Set::<Seq<char>>::empty(),
            r.archived_osu_names@ == Set::<Seq<char>>::empty(),
    {
        FullExtractReport { written: TextSet::new(), archived_osu_names: TextSet::new() }
    }

    /// An entry with this file name and this extension was written.
    pub fn add_entry(&mut self, file_name: Option<&str>, extension: Option<&str>)
        requires
            old(self).wf(),
        ensures
            final(self).wf(),
            match file_name {
                Some(n) => {
                    &&& final(self).written@ == old(self).written@.insert(n@)
                    &&& final(self).archived_osu_names@ == archived_with(
                        old(self).archived_osu_names@,
                        n@,
                        match extension {
                            Some(e) => Some(e@),
                            None => None,
                        },
                    )
                },
                None => *final(self) == *old(self),
            },
    {
        if let Some(n) = file_name {
            self.written.insert(n.to_owned());
            if is_osu_extension(extension) {
                self.archived_osu_names.insert(to_lower(n));
            }
        }
    }
}

/// Whether a file of an updated folder is one that the new version dropped: a
/// beatmap whose name, in any case of letters, is not in the archive.
pub open spec fn stale_file(
    extension: Option<Seq<char>>,
    file_name: Seq<char>,
    archived: Set<Seq<char>>,
) -> bool {
    osu_extension(extension) && !archived.contains(lower_text(file_name))
}

/// Whether a file of an updated folder is one that the new version dropped.
pub fn is_stale_osu_file(extension: Option<&str>, file_name: &str, archived: &TextSet) -> (r: bool)
    requires
        archived.wf(),
    ensures
        r == stale_file(
            match extension {
                Some(e) => Some(e@),
                None => None,
            },
            file_name@,
            archived@,
        ),
{
    is_osu_extension(extension) && !archived.contains(&to_lower(file_name))
}

/// An update removes nothing but beatmaps, and none that the archive holds.
pub proof fn law_update_keeps_assets(
    extension: Option<Seq<char>>,
    file_name: Seq<char>,
    archived: Set<Seq<char>>,
)
    ensures
        !osu_extension(extension) ==> !stale_file(extension, file_name, archived),
        archived.contains(lower_text(file_name)) ==> !stale_file(extension, file_name, archived),
{
}

/// What an update did to all folders so far.
#[derive(Debug)]
pub struct UpdateTally {
    pub written: TextSet,
    pub removed: TextSet,
}

impl UpdateTally {
    pub open spec fn wf(self) -> bool {
        self.written.wf() && self.removed.wf()
    }

    /// Nothing yet.
    pub fn new() -> (r: Self)
        ensures
            r.wf(),
            r.written@ == Set::<Seq<char>>::empty(),
            r.removed@ == Set::<Seq<char>>::empty(),
    {
        UpdateTally { written: TextSet::new(), removed: TextSet::new() }
    }

    /// A folder was updated.
    pub fn add_folder(&mut self, written: &TextSet, removed: &TextSet)
        requires
            old(self).wf(),
        ensures
            final(self).wf(),
            final(self).written@ == old(self).written@.union(written@),
            final(self).removed@ == old(self).removed@.union(removed@),
    {
        self.written.add_all(written);
        self.removed.add_all(removed);
    }

    /// The outcome: the names of the files that were written and removed, in
    /// ascending order.
    pub fn finish(self, download_source: String) -> (r: UpdateOutcome)
        requires
            self.wf(),
        ensures
            r.download_source == download_source,
            ascending(texts(r.written_files@)),
            ascending(texts(r.removed_files@)),
            texts(r.written_files@).to_set() == self.written@,
            texts(r.removed_files@).to_set() == self.removed@,
    {
        assert(texts(self.written.items@).to_set() =~= self.written@);
        assert(texts(self.removed.items@).to_set() =~= self.removed@);
        UpdateOutcome {
            written_files: self.written.items,
            removed_files: self.removed.items,
            download_source,
        }
    }
}

/// The checksum that the online set reports for a difficulty; the last one
/// counts.
pub open spec fn expected_checksum(beatmaps: Seq<RemoteBeatmap>, id: i64) -> Option<Seq<char>>
    decreases beatmaps.len(),
{
    if beatmaps.len() == 0 {
        None
    } else if beatmaps.last().id == id && beatmaps.last().checksum is Some {
        Some(beatmaps.last().checksum->0@)
    } else {
        expected_checksum(beatmaps.drop_last(), id)
    }
}

/// The checksum that the online set reports for a difficulty.
pub fn find_checksum(beatmaps: &Vec<RemoteBeatmap>, id: i64) -> (r: Option<&String>)
    ensures
        match r {
            Some(c) => expected_checksum(beatmaps@, id) == Some(c@),
            None => expected_checksum(beatmaps@, id) is None,
        },
{
    let mut i: usize = beatmaps.len();
    assert(beatmaps@.take(i as int) =~= beatmaps@);
    while i > 0
        invariant
            i <= beatmaps@.len(),
            expected_checksum(beatmaps@, id) == expected_checksum(beatmaps@.take(i as int), id),
        decreases i,
    {
        assert(beatmaps@.take(i as int).drop_last() =~= beatmaps@.take(i as int - 1));
        i = i - 1;
        if beatmaps[i].id == id {
            if let Some(c) = &beatmaps[i].checksum {
                return Some(c);
            }
        }
    }
    assert(beatmaps@.take(0) =~= seq![]);
    None
}

/// Whether the online set reports a checksum for any difficulty.
pub fn reports_checksums(beatmaps: &Vec<RemoteBeatmap>) -> (r: bool)
    ensures
        r == exists|i: int| 0 <= i < beatmaps@.len() && (#[trigger] beatmaps@[i]).checksum is Some,
{
    let mut i: usize = 0;
    while i < beatmaps.len()
        invariant
            i <= beatmaps@.len(),
            forall|j: int| 0 <= j < i ==> (#[trigger] beatmaps@[j]).checksum is None,
        decreases beatmaps@.len() - i,
    {
        if beatmaps[i].checksum.is_some() {
            return true;
        }
        i = i + 1;
    }
    false
}

/// Whether a line sets the identifier of a beatmap.
pub open spec fn sets_beatmap_id(raw: Seq<char>) -> bool {
    match split_once_text(trim_text(raw), ':') {
        Some((k, v)) => lower_text(trim_text(k)) == lower_text("beatmapid"@),
        None => false,
    }
}

/// The number behind the first colon of a line.
pub open spec fn line_number(raw: Seq<char>) -> Option<int> {
    match split_once_text(trim_text(raw), ':') {
        Some((k, v)) => parse_int(trim_text(v), i64::MIN as int, i64::MAX as int),
        None => None,
    }
}

/// The identifier of a beatmap: the first positive one, unless a line before
/// it sets it to no number.
pub open spec fn beatmap_id_in(all: Seq<Seq<char>>) -> Option<int>
    decreases all.len(),
{
    if all.len() == 0 {
        None
    } else if sets_beatmap_id(all[0]) {
        match line_number(all[0]) {
            None => None,
            Some(id) => if id > 0 {
                Some(id)
            } else {
                beatmap_id_in(all.drop_first())
            },
        }
    } else {
        beatmap_id_in(all.drop_first())
    }
}

/// The identifier of a beatmap, without reading the rest of its file.
pub fn read_beatmap_id(bytes: &[u8]) -> (r: Option<i64>)
    ensures
        opt_int(r) == beatmap_id_in(lines_text(lossy_text(bytes@))),
{
    let text = lossy(bytes);
    beatmap_id_of_text(&text)
}

/// The identifier that the text of a beatmap sets.
pub fn beatmap_id_of_text(text: &str) -> (r: Option<i64>)
    ensures
        opt_int(r) == beatmap_id_in(lines_text(text@)),
{
    let all = lines(text);
    let ghost seqs = texts(all@);
    let mut i: usize = 0;
    assert(seqs.skip(0) =~= seqs);
    while i < all.len()
        invariant
            i <= all@.len(),
            seqs == texts(all@),
            seqs == lines_text(text@),
            beatmap_id_in(seqs) == beatmap_id_in(seqs.skip(i as int)),
        decreases all@.len() - i,
    {
        let line = trim(&all[i]);
        proof {
            assert(seqs.skip(i as int).drop_first() =~= seqs.skip(i as int + 1));
            assert(seqs.skip(i as int)[0] == all@[i as int]@);
        }
        if let Some((key, value)) = split_once(&line, ':') {
            if same_ignoring_case(&trim(&key), "beatmapid") {
                match parse_signed(&trim(&value), i64::MIN, i64::MAX) {
                    None => return None,
                    Some(id) => {
                        if id > 0 {
                            return Some(id);
                        }
                    },
                }
            }
        }
        i = i + 1;
    }
    assert(seqs.skip(i as int) =~= seq![]);
    None
}

/// The line on a file whose checksum is not the online one.
pub open spec fn mismatch_text(file_name: Option<Seq<char>>, id: int) -> Seq<char> {
    (match file_name {
        Some(n) => n,
        None => "unknown.osu"@,
    }) + " (beatmap "@ + decimal_int(id) + ")"@
}

/// The line on a beatmap file that does not have the checksum that the online
/// set reports for the difficulty, given the checksum and the identifier of
/// the file.
pub open spec fn mismatch_of(
    beatmaps: Seq<RemoteBeatmap>,
    file_name: Option<Seq<char>>,
    md5: Seq<char>,
    id: Option<int>,
) -> Option<Seq<char>> {
    match id {
        None => None,
        Some(n) => match expected_checksum(beatmaps, n as i64) {
            None => None,
            Some(c) => if lower_text(c) != lower_text(md5) {
                Some(mismatch_text(file_name, n))
            } else {
                None
            },
        },
    }
}

/// The line on a beatmap file with a checksum that is not the online one, given
/// its checksum and its identifier.
pub fn mismatch_line(
    beatmaps: &Vec<RemoteBeatmap>,
    file_name: &Option<String>,
    md5: &str,
    id: Option<i64>,
) -> (r: Option<String>)
    ensures
        opt_text(r) == mismatch_of(beatmaps@, opt_text(*file_name), md5@, opt_int(id)),
{
    let id: i64 = match id {
        Some(id) => id,
        None => return None,
    };
    match find_checksum(beatmaps, id) {
        None => None,
        Some(c) => if !same_ignoring_case(c, md5) {
            let mut r = match file_name {
                Some(n) => n.clone(),
                None => "unknown.osu".to_owned(),
            };
            r.append(" (beatmap ");
            r.append(&decimal_signed(id));
            r.append(")");
            Some(r)
        } else {
            None
        },
    }
}

/// The line on a beatmap file with a checksum that is not the online one.
pub fn check_updated_file(
    beatmaps: &Vec<RemoteBeatmap>,
    file_name: &Option<String>,
    bytes: &[u8],
) -> (r: Option<String>)
    ensures
        opt_text(r) == mismatch_of(
            beatmaps@,
            opt_text(*file_name),
            md5_text(bytes@),
            beatmap_id_in(lines_text(lossy_text(bytes@))),
        ),
{
    let md5 = md5_hex(bytes);
    mismatch_line(beatmaps, file_name, &md5, read_beatmap_id(bytes))
}

/// The message for an update whose files do not have the online checksums.
pub fn checksum_error(mismatched: &Vec<String>) -> (r: Option<String>)
    ensures
        opt_text(r) == checksum_fault(texts(mismatched@)),
{
    if mismatched.len() == 0 {
        None
    } else {
        Some(
            join2(
                "updated files do not match the online checksums (set updated again afterwards?): ",
                &join(mismatched, ", "),
            ),
        )
    }
}

/// A difficulty whose file has the online checksum is up to date, and an
/// update that leaves it so finds nothing wrong with it.
pub proof fn law_checked_files_are_up_to_date(
    beatmaps: Seq<RemoteBeatmap>,
    local: DiffView,
    file_name: Option<Seq<char>>,
)
    requires
        local.beatmap_id is Some,
        verdict_of(local, beatmaps) == Verdict::UpToDate,
    ensures
        mismatch_of(
            beatmaps,
            file_name,
            local.md5,
            Some(local.beatmap_id->0 as int),
        ) is None,
{
    lemma_expected(beatmaps, local.beatmap_id->0);
}

proof fn lemma_expected(beatmaps: Seq<RemoteBeatmap>, id: i64)
    requires
        remote_with(beatmaps, id) is Some,
        remote_with(beatmaps, id)->0.checksum is Some,
    ensures
        expected_checksum(beatmaps, id) == Some(remote_with(beatmaps, id)->0.checksum->0@),
    decreases beatmaps.len(),
{
    if beatmaps.last().id != id {
        lemma_expected(beatmaps.drop_last(), id);
    }
}

// ---- what a check and an update are for ----

proof fn lemma_remote_with(beatmaps: Seq<RemoteBeatmap>, id: i64, i: int)
    requires
        -1 <= i < beatmaps.len(),
        i >= 0 ==> beatmaps[i].id == id,
        forall|j: int| i < j < beatmaps.len() ==> (#[trigger] beatmaps[j]).id != id,
    ensures
        remote_with(beatmaps, id) == (if i >= 0 {
            Some(beatmaps[i])
        } else {
            None
        }),
    decreases beatmaps.len(),
{
    if beatmaps.len() > 0 && i < beatmaps.len() - 1 {
        let init = beatmaps.drop_last();
        assert(beatmaps[beatmaps.len() - 1].id != id);
        assert forall|j: int| i < j < init.len() implies (#[trigger] init[j]).id != id by {
            assert(init[j] == beatmaps[j]);
        }
        lemma_remote_with(init, id, i);
    }
}

/// A difficulty is up to date if the online set has it with the same checksum, in
/// whatever case, and changed if it has it with another one; a difficulty that
/// the online set does not have was removed.
pub proof fn law_verdicts(local: DiffView, beatmaps: Seq<RemoteBeatmap>, i: int)
    requires
        local.beatmap_id is Some,
        -1 <= i < beatmaps.len(),
        i >= 0 ==> beatmaps[i].id == local.beatmap_id->0,
        forall|j: int| i < j < beatmaps.len() ==> (#[trigger] beatmaps[j]).id != local.beatmap_id->0,
    ensures
        i < 0 <==> verdict_of(local, beatmaps) == Verdict::Removed,
        i >= 0 && beatmaps[i].checksum is None <==> verdict_of(local, beatmaps)
            == Verdict::Unchecked,
        i >= 0 && beatmaps[i].checksum is Some && lower_text(beatmaps[i].checksum->0@)
            == lower_text(local.md5) <==> verdict_of(local, beatmaps) == Verdict::UpToDate,
        i >= 0 && beatmaps[i].checksum is Some && lower_text(beatmaps[i].checksum->0@)
            != lower_text(local.md5) <==> verdict_of(local, beatmaps) == Verdict::Changed,
{
    lemma_remote_with(beatmaps, local.beatmap_id->0, i);
}

/// Every difficulty has one of the four verdicts: they add up to all of them. The
/// labels of the changed and the removed ones are listed.
pub proof fn law_verdicts_add_up(locals: Seq<DiffView>, beatmaps: Seq<RemoteBeatmap>)
    ensures
        count_verdicts(locals, beatmaps, Verdict::UpToDate) + count_verdicts(
            locals,
            beatmaps,
            Verdict::Unchecked,
        ) + count_verdicts(locals, beatmaps, Verdict::Changed) + count_verdicts(
            locals,
            beatmaps,
            Verdict::Removed,
        ) == locals.len(),
        outdated_labels(locals, beatmaps).len() == count_verdicts(
            locals,
            beatmaps,
            Verdict::Changed,
        ) + count_verdicts(locals, beatmaps, Verdict::Removed),
    decreases locals.len(),
{
    if locals.len() > 0 {
        law_verdicts_add_up(locals.drop_last(), beatmaps);
    }
}

/// One difficulty more is listed as outdated if it was changed, under its label,
/// or removed, which the label then says; else nothing more is listed.
pub proof fn law_outdated_labels(
    locals: Seq<DiffView>,
    local: DiffView,
    beatmaps: Seq<RemoteBeatmap>,
    v: Verdict,
)
    requires
        v == verdict_of(local, beatmaps),
    ensures
        v == Verdict::Changed ==> outdated_labels(locals.push(local), beatmaps) == outdated_labels(
            locals,
            beatmaps,
        ).push(local.label),
        v == Verdict::Removed ==> outdated_labels(locals.push(local), beatmaps) == outdated_labels(
            locals,
            beatmaps,
        ).push(local.label + " (removed upstream)"@),
        v == Verdict::UpToDate || v == Verdict::Unchecked ==> outdated_labels(
            locals.push(local),
            beatmaps,
        ) == outdated_labels(locals, beatmaps),
        count_verdicts(locals.push(local), beatmaps, v) == count_verdicts(locals, beatmaps, v) + 1,
{
    assert(locals.push(local).drop_last() =~= locals);
}

proof fn lemma_diffs_of_id(all: Seq<Tagged>, id: i64, m: int)
    requires
        0 <= m < all.len(),
        all[m].id == Some(id),
    ensures
        diffs_of_id(all, id).contains(all[m].diff),
    decreases all.len(),
{
    let rest = diffs_of_id(all.drop_last(), id);
    let now = diffs_of_id(all, id);
    if m < all.len() - 1 {
        assert(all.drop_last()[m] == all[m]);
        lemma_diffs_of_id(all.drop_last(), id, m);
        let j = choose|j: int| 0 <= j < rest.len() && rest[j] == all[m].diff;
        assert(now[j] == all[m].diff);
    } else {
        assert(now[rest.len() as int] == all[m].diff);
    }
}

/// A map with a set is checked with its set: a target for the set holds the
/// difficulty, with its identifier, its checksum and its folder.
pub proof fn law_maps_are_checked(
    targets: Seq<CheckTarget>,
    uncheckable: nat,
    maps: Seq<LocalBeatmap>,
    m: int,
) -> (t: int)
    requires
        checked_by(targets, uncheckable, maps),
        0 <= m < maps.len(),
        maps[m].beatmapset_id is Some,
    ensures
        0 <= t < targets.len(),
        targets[t].beatmapset_id == maps[m].beatmapset_id,
        diffs_view(targets[t].locals@).contains(
            DiffView {
                beatmap_id: maps[m].beatmap_id,
                md5: maps[m].md5@,
                label: map_label(maps[m]),
                folder: maps[m].folder,
            },
        ),
{
    let all = tagged_maps(maps);
    let id = maps[m].beatmapset_id->0;
    let sets = if unknown_sets(maps).len() > 0 {
        targets.drop_last()
    } else {
        targets
    };
    assert(all[m].id == Some(id));
    assert(has_target(sets, id));
    let t = choose|t: int| 0 <= t < sets.len() && (#[trigger] sets[t]).beatmapset_id == Some(id);
    assert(diffs_view(sets[t].locals@) == diffs_of_id(all, id));
    lemma_diffs_of_id(all, id, m);
    assert(targets[t] == sets[t]);
    t
}

/// The set of a difficulty that was looked up is the one that the answer names;
/// without an identifier or an answer it stays unknown.
pub proof fn law_looked_up(local: DiffView, answer: Option<RemoteBeatmapLookup>)
    ensures
        looked_up(local, answer).diff == local,
        local.beatmap_id is Some && answer is Some ==> looked_up(local, answer).id
            == answer->0.beatmapset_id,
        local.beatmap_id is None || answer is None ==> looked_up(local, answer).id is None,
{
}

/// The address of a backend never ends with a slash nor with white space, and
/// typing slashes behind it changes nothing.
pub proof fn law_backend_address(url: Seq<char>)
    requires
        url.len() > 0,
        !crate::text::is_space(url[0]) && !crate::text::is_space(url.last()),
        url.last() != '/',
    ensures
        backend_base(url) == url,
        backend_base(url + seq!['/']) == url,
{
    assert(trim_text(url) == url);
    let s = url + seq!['/'];
    assert(s[0] == url[0] && s.last() == '/');
    assert(trim_text(s) == s);
    assert(s.drop_last() =~= url);
    assert(strip_back(url, CharClass::ForwardSlash) == url);
}

/// A token counts without white space around it, and a blank one is none.
pub proof fn law_tokens(token: Seq<char>)
    ensures
        trim_text(token).len() == 0 ==> token_of(Some(token)) is None,
        token.len() > 0 && !crate::text::is_space(token[0]) && !crate::text::is_space(token.last())
            ==> token_of(Some(token)) == Some(token),
        token_of(None) is None,
{
}

/// An update removes a beatmap of which the archive holds nothing by that name,
/// in whatever case.
pub proof fn law_stale_beatmaps(
    ext: Seq<char>,
    file_name: Seq<char>,
    archived: Set<Seq<char>>,
)
    ensures
        lower_text(ext) == seq!['o', 's', 'u'] && !archived.contains(lower_text(file_name))
            ==> stale_file(Some(ext), file_name, archived),
        lower_text(ext) != seq!['o', 's', 'u'] ==> !stale_file(Some(ext), file_name, archived),
        !stale_file(None, file_name, archived),
{
    reveal_strlit("osu");
    assert(lower_text("osu"@) =~= seq!['o', 's', 'u']);
}

proof fn lemma_expected_at(beatmaps: Seq<RemoteBeatmap>, id: i64, i: int)
    requires
        -1 <= i < beatmaps.len(),
        i >= 0 ==> beatmaps[i].id == id && beatmaps[i].checksum is Some,
        forall|j: int|
            i < j < beatmaps.len() ==> (#[trigger] beatmaps[j]).id != id || beatmaps[j].checksum is None,
    ensures
        expected_checksum(beatmaps, id) == (if i >= 0 {
            Some(beatmaps[i].checksum->0@)
        } else {
            None
        }),
    decreases beatmaps.len(),
{
    if beatmaps.len() > 0 && i < beatmaps.len() - 1 {
        let init = beatmaps.drop_last();
        assert(beatmaps[beatmaps.len() - 1].id != id || beatmaps[beatmaps.len()
            - 1].checksum is None);
        assert forall|j: int| i < j < init.len() implies (#[trigger] init[j]).id != id
            || init[j].checksum is None by {
            assert(init[j] == beatmaps[j]);
        }
        lemma_expected_at(init, id, i);
    }
}

/// After an update a file is found wrong if and only if the online set reports a
/// checksum for its difficulty and the file has another one.
pub proof fn law_wrong_files(
    beatmaps: Seq<RemoteBeatmap>,
    file_name: Option<Seq<char>>,
    md5: Seq<char>,
    id: i64,
    i: int,
)
    requires
        -1 <= i < beatmaps.len(),
        i >= 0 ==> beatmaps[i].id == id && beatmaps[i].checksum is Some,
        forall|j: int|
            i < j < beatmaps.len() ==> (#[trigger] beatmaps[j]).id != id || beatmaps[j].checksum is None,
    ensures
        mismatch_of(beatmaps, file_name, md5, Some(id as int)) is Some <==> i >= 0 && lower_text(
            beatmaps[i].checksum->0@,
        ) != lower_text(md5),
        mismatch_of(beatmaps, file_name, md5, None) is None,
{
    lemma_expected_at(beatmaps, id, i);
}

/// The identifier of a file is the number in its first line for it, in whatever
/// case the key is written; lines for anything else are passed over, and so are
/// lines that say zero or less.
pub proof fn law_identifier_lines(
    all: Seq<Seq<char>>,
    raw: Seq<char>,
    k: Seq<char>,
    n: i64,
)
    requires
        trim_text(raw) == k + seq![':'] + decimal_int(n as int),
        !k.contains(':'),
    ensures
        lower_text(trim_text(k)) == seq!['b', 'e', 'a', 't', 'm', 'a', 'p', 'i', 'd'] ==> (beatmap_id_in(
            seq![raw] + all,
        ) == (if n > 0 {
            Some(n as int)
        } else {
            beatmap_id_in(all)
        })),
        lower_text(trim_text(k)) != seq!['b', 'e', 'a', 't', 'm', 'a', 'p', 'i', 'd']
            ==> beatmap_id_in(seq![raw] + all) == beatmap_id_in(all),
        beatmap_id_in(seq![]) is None,
{
    reveal_strlit("beatmapid");
    let d = decimal_int(n as int);
    assert(lower_text("beatmapid"@) =~= seq!['b', 'e', 'a', 't', 'm', 'a', 'p', 'i', 'd']);
    crate::text::law_split(k, ':', d);
    crate::number::law_written_numbers_are_read(n as int, i64::MIN as int, i64::MAX as int);
    assert((seq![raw] + all).drop_first() =~= all);
    assert((seq![raw] + all)[0] == raw);
    lemma_number_is_trimmed(n as int);
}

proof fn lemma_number_is_trimmed(n: int)
    ensures
        trim_text(decimal_int(n)) == decimal_int(n),
{
    let a = (if n < 0 {
        -n
    } else {
        n
    }) as nat;
    crate::number::law_decimal_round_trip(a);
    let d = crate::number::decimal(a);
    assert(crate::number::is_digit(d[0]));
    assert(crate::number::is_digit(d[d.len() - 1]));
    let s = decimal_int(n);
    assert(!crate::text::is_space(s[0]));
    assert(s.last() == d.last());
    assert(!crate::text::is_space(s.last()));
}

/// Why a download is refused: it is too small to be the archive of a set.
pub open spec fn osz_fault(path: Seq<char>, bytes: u64) -> Option<Seq<char>> {
    if bytes < MIN_OSZ_BYTES {
        Some(
            "download for "@ + path + " is too small to be a beatmapset ("@ + decimal(bytes as nat)
                + " bytes); the backend may have returned an error page"@,
        )
    } else {
        None
    }
}

/// Why an update failed whose files do not have the online checksums.
pub open spec fn checksum_fault(mismatched: Seq<Seq<char>>) -> Option<Seq<char>> {
    if mismatched.len() == 0 {
        None
    } else {
        Some(
            "updated files do not match the online checksums (set updated again afterwards?): "@
                + join_texts(mismatched, ", "@),
        )
    }
}

/// The beatmaps of an archive, in lower case, with one entry more.
pub open spec fn archived_with(
    known: Set<Seq<char>>,
    file_name: Seq<char>,
    extension: Option<Seq<char>>,
) -> Set<Seq<char>> {
    if osu_extension(extension) {
        known.insert(lower_text(file_name))
    } else {
        known
    }
}

/// An answer that there is no such thing is taken for that; every other answer
/// that tells of an error is refused, and all others are read.
pub proof fn law_answers(status: u16)
    ensures
        step_of_status(404) == AnswerStep::Gone,
        step_of_status(status) == AnswerStep::Gone ==> status == 404,
        400 <= status < 600 && status != 404 ==> step_of_status(status) == AnswerStep::Refuse,
        status < 400 || status >= 600 ==> step_of_status(status) == AnswerStep::Read,
{
}

/// A download of fewer than 64 bytes is refused, and no other; an update fails
/// where a file is wrong, and only there.
pub proof fn law_refused_downloads(path: Seq<char>, bytes: u64, mismatched: Seq<Seq<char>>)
    ensures
        osz_fault(path, bytes) is Some <==> bytes < 64,
        checksum_fault(mismatched) is Some <==> mismatched.len() > 0,
{
}

/// A beatmap that the archive holds is not removed by the update that wrote it,
/// whatever entries follow and whatever the case of its name; an entry of another
/// kind keeps no beatmap.
pub proof fn law_written_beatmaps_stay(
    known: Set<Seq<char>>,
    file_name: Seq<char>,
    extension: Seq<char>,
    other: Seq<char>,
    other_extension: Option<Seq<char>>,
)
    ensures
        lower_text(extension) == seq!['o', 's', 'u'] ==> !stale_file(
            Some(extension),
            file_name,
            archived_with(known, file_name, Some(extension)),
        ),
        known.contains(lower_text(file_name)) ==> !stale_file(
            Some(extension),
            file_name,
            archived_with(known, other, other_extension),
        ),
        lower_text(extension) != seq!['o', 's', 'u'] ==> archived_with(
            known,
            file_name,
            Some(extension),
        ) == known,
{
    reveal_strlit("osu");
    assert(lower_text("osu"@) =~= seq!['o', 's', 'u']);
}

/// A map without a set, but with an identifier, is among those whose set is to be
/// looked up; a map with neither is not.
pub proof fn law_maps_without_set(maps: Seq<LocalBeatmap>, map: LocalBeatmap)
    ensures
        unknown_sets(seq![]) == Seq::<DiffView>::empty(),
        map.beatmapset_id is None && map.beatmap_id is Some ==> unknown_sets(maps.push(map))
            == unknown_sets(maps).push(
            DiffView {
                beatmap_id: map.beatmap_id,
                md5: map.md5@,
                label: map_label(map),
                folder: map.folder,
            },
        ),
        map.beatmapset_id is Some || map.beatmap_id is None ==> unknown_sets(maps.push(map))
            == unknown_sets(maps),
        has_identifier(map) <==> map.beatmapset_id is Some || map.beatmap_id is Some,
{
    assert(maps.push(map).drop_last() =~= maps);
}

/// A difficulty belongs to the set that it is tagged with and to no other; one
/// without a tag stays unknown.
pub proof fn law_tagged_difficulties(all: Seq<Tagged>, t: Tagged, id: i64)
    ensures
        t.id == Some(id) ==> diffs_of_id(all.push(t), id) == diffs_of_id(all, id).push(t.diff),
        t.id != Some(id) ==> diffs_of_id(all.push(t), id) == diffs_of_id(all, id),
        t.id is None ==> untagged(all.push(t)) == untagged(all).push(t.diff),
        t.id is Some ==> untagged(all.push(t)) == untagged(all),
{
    assert(all.push(t).drop_last() =~= all);
}

} // verus!
