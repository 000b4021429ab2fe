//! The selection of maps for a collection.
use crate::display::is_osu_std;
#[allow(unused_imports)]
use crate::display::is_std;
use crate::local::{LibraryScan, LocalBeatmap, RepairIssue};
#[allow(unused_imports)]
use crate::order::lemma_take_set;
use crate::order::{TextIndex, TextSet};
use crate::paths::PathSet;
use crate::text::{copy_texts, is_listed, same_text};
#[allow(unused_imports)]
use crate::text::texts;
use vstd::prelude::*;
use vstd::string::*;

verus! {

// ---- which maps stay ----

/// Which maps stay: those outside some folders, other than some files, and, if
/// so wished, of the standard mode.
#[derive(Debug)]
pub struct MapRule {
    pub only_std: bool,
    pub folders: PathSet,
    pub files: PathSet,
}

/// The view of a [`MapRule`]: the keys of the folders and of the files.
#[verifier::ext_equal]
pub struct RuleView {
    pub only_std: bool,
    pub folders: Set<Seq<char>>,
    pub files: Set<Seq<char>>,
}

impl View for MapRule {
    type V = RuleView;

    open spec fn view(&self) -> RuleView {
        RuleView { only_std: self.only_std, folders: self.folders@, files: self.files@ }
    }
}

/// Whether a map stays.
pub open spec fn keeps(rule: RuleView, map: LocalBeatmap) -> bool {
    &&& !rule.only_std || is_std(map)
    &&& !rule.folders.contains(map.folder.key@)
    &&& !rule.files.contains(map.path.key@)
}

/// Whether an issue stays: its file does, and lies outside the folders.
pub open spec fn keeps_issue(rule: RuleView, issue: RepairIssue) -> bool {
    &&& !rule.files.contains(issue.beatmap.key@)
    &&& match issue.beatmap.parent {
        Some(parent) => !rule.folders.contains(parent@),
        None => true,
    }
}

/// The maps that stay, in their order.
pub open spec fn kept_maps(maps: Seq<LocalBeatmap>, rule: RuleView) -> Seq<LocalBeatmap>
    decreases maps.len(),
{
    if maps.len() == 0 {
        seq![]
    } else {
        let rest = kept_maps(maps.drop_last(), rule);
        if keeps(rule, maps.last()) {
            rest.push(maps.last())
        } else {
            rest
        }
    }
}

/// The issues that stay, in their order.
pub open spec fn kept_issues(issues: Seq<RepairIssue>, rule: RuleView) -> Seq<RepairIssue>
    decreases issues.len(),
{
    if issues.len() == 0 {
        seq![]
    } else {
        let rest = kept_issues(issues.drop_last(), rule);
        if keeps_issue(rule, issues.last()) {
            rest.push(issues.last())
        } else {
            rest
        }
    }
}

impl MapRule {
    /// The sets are in order.
    pub open spec fn wf(self) -> bool {
        self.folders.wf() && self.files.wf()
    }

    /// Keeps the maps of the standard mode.
    pub fn standard() -> (r: Self)
        ensures
            r.wf(),
            r@ == (RuleView { only_std: true, folders: Set::empty(), files: Set::empty() }),
    {
        MapRule { only_std: true, folders: PathSet::new(), files: PathSet::new() }
    }

    /// Keeps the maps outside folders.
    pub fn outside(folders: PathSet) -> (r: Self)
        requires
            folders.wf(),
        ensures
            r.wf(),
            r@ == (RuleView { only_std: false, folders: folders@, files: Set::empty() }),
    {
        MapRule { only_std: false, folders, files: PathSet::new() }
    }

    /// Keeps the maps of other files.
    pub fn without(files: PathSet, only_std: bool) -> (r: Self)
        requires
            files.wf(),
        ensures
            r.wf(),
            r@ == (RuleView { only_std, folders: Set::empty(), files: files@ }),
    {
        MapRule { only_std, folders: PathSet::new(), files }
    }

    /// Whether a map stays.
    pub fn keeps_map(&self, map: &LocalBeatmap) -> (r: bool)
        requires
            self.wf(),
        ensures
            r == keeps(self@, *map),
    {
        (!self.only_std || is_osu_std(map)) && !self.folders.contains(&map.folder.key)
            && !self.files.contains(&map.path.key)
    }

    /// The maps that stay.
    pub fn keep_maps(&self, maps: &Vec<LocalBeatmap>) -> (r: Vec<LocalBeatmap>)
        requires
            self.wf(),
        ensures
            r@ == kept_maps(maps@, self@),
    {
        let mut r: Vec<LocalBeatmap> = Vec::new();
        let mut i: usize = 0;
        while i < maps.len()
            invariant
                i <= maps@.len(),
                self.wf(),
                r@ == kept_maps(maps@.take(i as int), self@),
            decreases maps@.len() - i,
        {
            assert(maps@.take(i as int + 1).drop_last() =~= maps@.take(i as int));
            if self.keeps_map(&maps[i]) {
                r.push(maps[i].clone());
            }
            i = i + 1;
        }
        assert(maps@.take(i as int) =~= maps@);
        r
    }

    /// The issues that stay.
    pub fn keep_issues(&self, issues: &Vec<RepairIssue>) -> (r: Vec<RepairIssue>)
        requires
            self.wf(),
        ensures
            r@ == kept_issues(issues@, self@),
    {
        let mut r: Vec<RepairIssue> = Vec::new();
        let mut i: usize = 0;
        while i < issues.len()
            invariant
                i <= issues@.len(),
                self.wf(),
                r@ == kept_issues(issues@.take(i as int), self@),
            decreases issues@.len() - i,
        {
            assert(issues@.take(i as int + 1).drop_last() =~= issues@.take(i as int));
            let issue = &issues[i];
            let inside = match &issue.beatmap.parent {
                Some(parent) => self.folders.contains(parent),
                None => false,
            };
            if !inside && !self.files.contains(&issue.beatmap.key) {
                r.push(issue.clone());
            }
            i = i + 1;
        }
        assert(issues@.take(i as int) =~= issues@);
        r
    }
}

/// What stays are maps that were there and that the rule keeps; every one that
/// the rule keeps stays.
pub proof fn law_kept_maps(maps: Seq<LocalBeatmap>, rule: RuleView, map: LocalBeatmap)
    ensures
        kept_maps(maps, rule).contains(map) <==> maps.contains(map) && keeps(rule, map),
        kept_maps(maps, rule).len() <= maps.len(),
    decreases maps.len(),
{
    if maps.len() > 0 {
        let before = maps.drop_last();
        let rest = kept_maps(before, rule);
        let now = kept_maps(maps, rule);
        law_kept_maps(before, rule, map);
        if rest.contains(map) {
            let i = choose|i: int| 0 <= i < rest.len() && rest[i] == map;
            assert(now[i] == map);
        }
        if keeps(rule, maps.last()) {
            assert(now[rest.len() as int] == maps.last());
        }
        if before.contains(map) {
            let i = choose|i: int| 0 <= i < before.len() && before[i] == map;
            assert(maps[i] == map);
        }
        if maps.contains(map) && !before.contains(map) {
            let i = choose|i: int| 0 <= i < maps.len() && maps[i] == map;
            if i < before.len() {
                assert(before[i] == map);
            }
        }
        if now.contains(map) && !rest.contains(map) {
            let i = choose|i: int| 0 <= i < now.len() && now[i] == map;
            if i < rest.len() {
                assert(rest[i] == map);
            }
            assert(maps[maps.len() - 1] == map);
        }
    }
}

// ---- checksums ----

/// The checksums of maps.
pub open spec fn md5s_of(maps: Seq<LocalBeatmap>) -> Seq<Seq<char>> {
    Seq::new(maps.len(), |i: int| maps[i].md5@)
}

/// The positions of the maps by checksum; the last one with a checksum counts.
pub open spec fn places_by_md5(maps: Seq<LocalBeatmap>) -> Map<Seq<char>, int>
    decreases maps.len(),
{
    if maps.len() == 0 {
        Map::empty()
    } else {
        places_by_md5(maps.drop_last()).insert(maps.last().md5@, maps.len() - 1)
    }
}

/// The positions of the maps by checksum.
pub fn index_by_md5(maps: &Vec<LocalBeatmap>) -> (r: TextIndex)
    ensures
        r.wf(),
        r@ == places_by_md5(maps@),
{
    let mut r = TextIndex::new();
    let mut i: usize = 0;
    assert(maps@.take(0) =~= seq![]);
    while i < maps.len()
        invariant
            i <= maps@.len(),
            r.wf(),
            r@ == places_by_md5(maps@.take(i as int)),
        decreases maps@.len() - i,
    {
        r.insert(maps[i].md5.clone(), i);
        assert(maps@.take(i as int + 1).drop_last() =~= maps@.take(i as int));
        i = i + 1;
    }
    assert(maps@.take(i as int) =~= maps@);
    r
}

proof fn lemma_places_by_md5(maps: Seq<LocalBeatmap>, md5: Seq<char>)
    ensures
        places_by_md5(maps).contains_key(md5) ==> 0 <= places_by_md5(maps)[md5] < maps.len()
            && maps[places_by_md5(maps)[md5]].md5@ == md5,
        places_by_md5(maps).contains_key(md5) <==> md5s_of(maps).contains(md5),
    decreases maps.len(),
{
    if maps.len() > 0 {
        let before = maps.drop_last();
        lemma_places_by_md5(before, md5);
        if md5s_of(before).contains(md5) {
            let i = choose|i: int| 0 <= i < before.len() && md5s_of(before)[i] == md5;
            assert(md5s_of(maps)[i] == md5);
        }
        if maps.last().md5@ == md5 {
            assert(md5s_of(maps)[maps.len() - 1] == md5);
        }
        if md5s_of(maps).contains(md5) && maps.last().md5@ != md5 {
            let i = choose|i: int| 0 <= i < maps.len() && md5s_of(maps)[i] == md5;
            assert(md5s_of(before)[i] == md5);
        }
    }
}

/// The maps that have the checksums, in the order of the checksums.
pub open spec fn found_maps(hashes: Seq<Seq<char>>, maps: Seq<LocalBeatmap>) -> Seq<LocalBeatmap>
    decreases hashes.len(),
{
    if hashes.len() == 0 {
        seq![]
    } else {
        let rest = found_maps(hashes.drop_last(), maps);
        if places_by_md5(maps).contains_key(hashes.last()) {
            rest.push(maps[places_by_md5(maps)[hashes.last()]])
        } else {
            rest
        }
    }
}

/// The checksums that no map has.
pub open spec fn not_found(hashes: Seq<Seq<char>>, maps: Seq<LocalBeatmap>) -> Seq<Seq<char>>
    decreases hashes.len(),
{
    if hashes.len() == 0 {
        seq![]
    } else {
        let rest = not_found(hashes.drop_last(), maps);
        if places_by_md5(maps).contains_key(hashes.last()) {
            rest
        } else {
            rest.push(hashes.last())
        }
    }
}

/// The checksums of a collection that scanned maps have, each once.
pub fn matched_hashes(hashes: &Vec<String>, maps: &Vec<LocalBeatmap>) -> (r: TextSet)
    ensures
        r.wf(),
        forall|t: Seq<char>| #[trigger]
            r@.contains(t) <==> texts(hashes@).contains(t) && md5s_of(maps@).contains(t),
{
    let index = index_by_md5(maps);
    let ghost all = texts(hashes@);
    let mut r = TextSet::new();
    let mut i: usize = 0;
    while i < hashes.len()
        invariant
            i <= hashes@.len(),
            all == texts(hashes@),
            index.wf(),
            index@ == places_by_md5(maps@),
            r.wf(),
            forall|t: Seq<char>| #[trigger]
                r@.contains(t) <==> all.take(i as int).contains(t) && md5s_of(maps@).contains(t),
        decreases hashes@.len() - i,
    {
        proof {
            let t = all[i as int];
            assert(t == hashes@[i as int]@);
            assert(all.take(i as int + 1) =~= all.take(i as int).push(t));
            lemma_places_by_md5(maps@, t);
            assert forall|u: Seq<char>| all.take(i as int + 1).contains(u) <==> all.take(
                i as int,
            ).contains(u) || t == u by {
                lemma_push_contains(all.take(i as int), t, u);
            }
        }
        if index.get(&hashes[i]).is_some() {
            r.insert(hashes[i].clone());
        }
        i = i + 1;
    }
    assert(all.take(i as int) =~= all);
    r
}

/// The place of the first map with a checksum.
pub fn find_md5(maps: &Vec<LocalBeatmap>, md5: &str) -> (r: Option<usize>)
    ensures
        match r {
            Some(i) => {
                &&& i < maps@.len()
                &&& maps@[i as int].md5@ == md5@
                &&& forall|k: int| 0 <= k < i ==> (#[trigger] maps@[k]).md5@ != md5@
            },
            None => forall|k: int| 0 <= k < maps@.len() ==> (#[trigger] maps@[k]).md5@ != md5@,
        },
{
    let mut i: usize = 0;
    while i < maps.len()
        invariant
            i <= maps@.len(),
            forall|k: int| 0 <= k < i ==> (#[trigger] maps@[k]).md5@ != md5@,
        decreases maps@.len() - i,
    {
        if same_text(&maps[i].md5, md5) {
            return Some(i);
        }
        i = i + 1;
    }
    None
}

// ---- the selection ----

/// The maps that are selected, the checksums that are selected, and those of
/// the loaded collection that no scanned map has.
#[derive(Debug)]
pub struct Selection {
    pub maps: Vec<LocalBeatmap>,
    pub md5s: TextSet,
    pub missing: Vec<String>,
}

/// The maps without those with a checksum.
pub open spec fn without_md5(maps: Seq<LocalBeatmap>, md5: Seq<char>) -> Seq<LocalBeatmap>
    decreases maps.len(),
{
    if maps.len() == 0 {
        seq![]
    } else {
        let rest = without_md5(maps.drop_last(), md5);
        if maps.last().md5@ == md5 {
            rest
        } else {
            rest.push(maps.last())
        }
    }
}

/// The checksums, and of the missing ones those that are selected, each once.
pub open spec fn with_missing(
    hashes: Seq<Seq<char>>,
    selected: Set<Seq<char>>,
    missing: Seq<Seq<char>>,
) -> Seq<Seq<char>>
    decreases missing.len(),
{
    if missing.len() == 0 {
        hashes
    } else {
        let rest = with_missing(hashes, selected, missing.drop_last());
        if selected.contains(missing.last()) && !rest.contains(missing.last()) {
            rest.push(missing.last())
        } else {
            rest
        }
    }
}

impl Selection {
    /// The checksums are in order, and that of every selected map is selected.
    pub open spec fn wf(self) -> bool {
        &&& self.md5s.wf()
        &&& forall|i: int|
            0 <= i < self.maps@.len() ==> self.md5s@.contains((#[trigger] self.maps@[i]).md5@)
    }

    /// Nothing is selected.
    pub fn new() -> (r: Self)
        ensures
            r.wf(),
            r.maps@.len() == 0,
            r.md5s@ == Set::<Seq<char>>::empty(),
            r.missing@.len() == 0,
    {
        Selection { maps: Vec::new(), md5s: TextSet::new(), missing: Vec::new() }
    }

    /// Selects nothing.
    pub fn clear_selection(&mut self)
        ensures
            final(self).wf(),
            final(self).maps@.len() == 0,
            final(self).md5s@ == Set::<Seq<char>>::empty(),
            final(self).missing == old(self).missing,
    {
        self.maps = Vec::new();
        self.md5s = TextSet::new();
    }

    /// Selects a map, unless its checksum is selected.
    pub fn select_map(&mut self, map: &LocalBeatmap)
        requires
            old(self).wf(),
        ensures
            final(self).wf(),
            final(self).md5s@ == old(self).md5s@.insert(map.md5@),
            final(self).maps@ == with_selected(old(self).maps@, old(self).md5s@, *map),
            final(self).missing == old(self).missing,
    {
        if self.md5s.insert(map.md5.clone()) {
            self.maps.push(map.clone());
        }
        assert forall|i: int| 0 <= i < self.maps@.len() implies self.md5s@.contains(
            (#[trigger] self.maps@[i]).md5@,
        ) by {
            if i < old(self).maps@.len() {
                assert(old(self).md5s@.contains(old(self).maps@[i].md5@));
            }
        }
    }

    /// Takes a checksum, and the maps that have it, out of the selection.
    pub fn deselect_md5(&mut self, md5: &str)
        requires
            old(self).wf(),
        ensures
            final(self).wf(),
            final(self).md5s@ == old(self).md5s@.remove(md5@),
            final(self).maps@ == without_md5(old(self).maps@, md5@),
            final(self).missing == old(self).missing,
    {
        let ghost known = old(self).md5s@;
        self.md5s.remove(md5);
        let mut kept: Vec<LocalBeatmap> = Vec::new();
        let mut i: usize = 0;
        while i < self.maps.len()
            invariant
                i <= self.maps@.len(),
                *self == (Selection { md5s: self.md5s, ..*old(self) }),
                old(self).wf(),
                self.md5s@ == old(self).md5s@.remove(md5@),
                self.md5s.wf(),
                kept@ == without_md5(self.maps@.take(i as int), md5@),
                forall|k: int|
                    0 <= k < kept@.len() ==> self.md5s@.contains((#[trigger] kept@[k]).md5@),
            decreases self.maps@.len() - i,
        {
            assert(self.maps@.take(i as int + 1).drop_last() =~= self.maps@.take(i as int));
            assert(old(self).md5s@.contains(old(self).maps@[i as int].md5@));
            if !same_text(&self.maps[i].md5, md5) {
                kept.push(self.maps[i].clone());
            }
            i = i + 1;
        }
        assert(self.maps@.take(i as int) =~= self.maps@);
        self.maps = kept;
    }

    /// Selects a checksum that no scanned map has.
    pub fn select_missing_hash(&mut self, md5: &str)
        requires
            old(self).wf(),
        ensures
            final(self).wf(),
            final(self).md5s@ == old(self).md5s@.insert(md5@),
            final(self).maps == old(self).maps,
            final(self).missing == old(self).missing,
    {
        self.md5s.insert(md5.to_owned());
        assert forall|i: int| 0 <= i < self.maps@.len() implies self.md5s@.contains(
            (#[trigger] self.maps@[i]).md5@,
        ) by {
            assert(old(self).md5s@.contains(old(self).maps@[i].md5@));
        }
    }

    /// Keeps the maps that a rule keeps, and of the checksums only theirs.
    pub fn retain_selected_maps(&mut self, rule: &MapRule)
        requires
            rule.wf(),
        ensures
            final(self).wf(),
            final(self).maps@ == kept_maps(old(self).maps@, rule@),
            final(self).md5s@ == md5s_of(final(self).maps@).to_set(),
            final(self).missing == old(self).missing,
    {
        self.maps = rule.keep_maps(&self.maps);
        let mut md5s = TextSet::new();
        let ghost all = md5s_of(self.maps@);
        let mut i: usize = 0;
        assert(all.take(0).to_set() =~= Set::empty());
        while i < self.maps.len()
            invariant
                i <= self.maps@.len(),
                all == md5s_of(self.maps@),
                self.maps@ == kept_maps(old(self).maps@, rule@),
                self.missing == old(self).missing,
                md5s.wf(),
                md5s@ == all.take(i as int).to_set(),
            decreases self.maps@.len() - i,
        {
            md5s.insert(self.maps[i].md5.clone());
            proof {
                assert(all[i as int] == self.maps@[i as int].md5@);
                lemma_take_set(all, i as int);
                assert(md5s@ =~= all.take(i as int + 1).to_set());
            }
            i = i + 1;
        }
        assert(all.take(i as int) =~= all);
        self.md5s = md5s;
        assert forall|k: int| 0 <= k < self.maps@.len() implies self.md5s@.contains(
            (#[trigger] self.maps@[k]).md5@,
        ) by {
            assert(all[k] == self.maps@[k].md5@);
        }
    }

    /// The checksums to save: those of the selected maps, and of the missing
    /// ones those that are still selected.
    pub open spec fn saved(self) -> Seq<Seq<char>> {
        with_missing(md5s_of(self.maps@), self.md5s@, texts(self.missing@))
    }

    /// The checksums to save.
    pub fn hashes_to_save(&self) -> (r: Vec<String>)
        requires
            self.wf(),
        ensures
            texts(r@) == self.saved(),
    {
        let mut r: Vec<String> = Vec::new();
        let mut i: usize = 0;
        while i < self.maps.len()
            invariant
                i <= self.maps@.len(),
                texts(r@) == md5s_of(self.maps@.take(i as int)),
            decreases self.maps@.len() - i,
        {
            let ghost before = texts(r@);
            r.push(self.maps[i].md5.clone());
            assert(texts(r@) =~= before.push(self.maps@[i as int].md5@));
            assert(md5s_of(self.maps@.take(i as int + 1)) =~= before.push(
                self.maps@[i as int].md5@,
            ));
            i = i + 1;
        }
        assert(self.maps@.take(i as int) =~= self.maps@);
        let ghost own = md5s_of(self.maps@);
        let ghost all = texts(self.missing@);
        let mut k: usize = 0;
        assert(all.take(0) =~= seq![]);
        while k < self.missing.len()
            invariant
                k <= self.missing@.len(),
                self.wf(),
                own == md5s_of(self.maps@),
                all == texts(self.missing@),
                texts(r@) == with_missing(own, self.md5s@, all.take(k as int)),
            decreases self.missing@.len() - k,
        {
            let ghost before = texts(r@);
            assert(all.take(k as int + 1).drop_last() =~= all.take(k as int));
            assert(all.take(k as int + 1).last() == self.missing@[k as int]@);
            if self.md5s.contains(&self.missing[k]) && !is_listed(&r, &self.missing[k]) {
                r.push(self.missing[k].clone());
                assert(texts(r@) =~= before.push(all[k as int]));
            }
            k = k + 1;
        }
        assert(all.take(k as int) =~= all);
        r
    }

    /// Selects the checksums of a collection, and the scanned maps that have
    /// them.
    pub fn load(&mut self, hashes: &Vec<String>, scan: &Option<LibraryScan>)
        ensures
            final(self).wf(),
            final(self).md5s@ == texts(hashes@).to_set(),
            match *scan {
                Some(s) => final(self).maps@ == found_maps(texts(hashes@), s.maps@) && texts(
                    final(self).missing@,
                ) == not_found(texts(hashes@), s.maps@),
                None => final(self).maps@.len() == 0 && texts(final(self).missing@) == texts(
                    hashes@,
                ),
            },
    {
        let ghost all = texts(hashes@);
        let mut md5s = TextSet::new();
        let mut i: usize = 0;
        assert(all.take(0).to_set() =~= Set::empty());
        while i < hashes.len()
            invariant
                i <= hashes@.len(),
                all == texts(hashes@),
                md5s.wf(),
                md5s@ == all.take(i as int).to_set(),
            decreases hashes@.len() - i,
        {
            md5s.insert(hashes[i].clone());
            proof {
                assert(all[i as int] == hashes@[i as int]@);
                lemma_take_set(all, i as int);
                assert(md5s@ =~= all.take(i as int + 1).to_set());
            }
            i = i + 1;
        }
        assert(all.take(i as int) =~= all);
        self.md5s = md5s;
        self.maps = Vec::new();
        match scan {
            Some(s) => {
                let index = index_by_md5(&s.maps);
                let mut found: Vec<LocalBeatmap> = Vec::new();
                let mut missing: Vec<String> = Vec::new();
                let mut k: usize = 0;
                assert(all.take(0) =~= seq![]);
                assert(texts(missing@) =~= seq![]);
                while k < hashes.len()
                    invariant
                        k <= hashes@.len(),
                        all == texts(hashes@),
                        index.wf(),
                        index@ == places_by_md5(s.maps@),
                        self.md5s@ == all.to_set(),
                        found@ == found_maps(all.take(k as int), s.maps@),
                        texts(missing@) == not_found(all.take(k as int), s.maps@),
                        forall|j: int|
                            0 <= j < found@.len() ==> self.md5s@.contains(
                                (#[trigger] found@[j]).md5@,
                            ),
                    decreases hashes@.len() - k,
                {
                    let ghost before = texts(missing@);
                    proof {
                        assert(all.take(k as int + 1).drop_last() =~= all.take(k as int));
                        assert(all.take(k as int + 1).last() == hashes@[k as int]@);
                        lemma_places_by_md5(s.maps@, all[k as int]);
                        assert(all.contains(all[k as int]));
                    }
                    match index.get(&hashes[k]) {
                        Some(p) => {
                            found.push(s.maps[p].clone());
                        },
                        None => {
                            missing.push(hashes[k].clone());
                            assert(texts(missing@) =~= before.push(all[k as int]));
                        },
                    }
                    k = k + 1;
                }
                assert(all.take(k as int) =~= all);
                self.maps = found;
                self.missing = missing;
            },
            None => {
                self.missing = copy_texts(hashes);
            },
        }
    }
}

proof fn lemma_with_missing(
    hashes: Seq<Seq<char>>,
    selected: Set<Seq<char>>,
    missing: Seq<Seq<char>>,
    t: Seq<char>,
)
    ensures
        with_missing(hashes, selected, missing).contains(t) <==> hashes.contains(t) || (
        missing.contains(t) && selected.contains(t)),
    decreases missing.len(),
{
    if missing.len() > 0 {
        let before = missing.drop_last();
        let rest = with_missing(hashes, selected, before);
        let now = with_missing(hashes, selected, missing);
        lemma_with_missing(hashes, selected, before, t);
        if rest.contains(t) {
            let i = choose|i: int| 0 <= i < rest.len() && rest[i] == t;
            assert(now[i] == t);
        }
        if now.len() > rest.len() {
            assert(now[rest.len() as int] == missing.last());
        }
        if before.contains(t) {
            let i = choose|i: int| 0 <= i < before.len() && before[i] == t;
            assert(missing[i] == t);
        }
        if missing.contains(t) && !before.contains(t) {
            let i = choose|i: int| 0 <= i < missing.len() && missing[i] == t;
            if i < before.len() {
                assert(before[i] == t);
            }
        }
        if now.contains(t) && !rest.contains(t) {
            let i = choose|i: int| 0 <= i < now.len() && now[i] == t;
            if i < rest.len() {
                assert(rest[i] == t);
            }
            assert(missing[missing.len() - 1] == t);
        }
    }
}

proof fn lemma_found_or_not(hashes: Seq<Seq<char>>, maps: Seq<LocalBeatmap>, t: Seq<char>)
    ensures
        md5s_of(found_maps(hashes, maps)).contains(t) || not_found(hashes, maps).contains(t)
            <==> hashes.contains(t),
    decreases hashes.len(),
{
    if hashes.len() > 0 {
        let before = hashes.drop_last();
        lemma_found_or_not(before, maps, t);
        lemma_places_by_md5(maps, hashes.last());
        let found_before = md5s_of(found_maps(before, maps));
        let found = md5s_of(found_maps(hashes, maps));
        let lost_before = not_found(before, maps);
        let lost = not_found(hashes, maps);
        if places_by_md5(maps).contains_key(hashes.last()) {
            assert(found =~= found_before.push(hashes.last()));
            lemma_push_contains(found_before, hashes.last(), t);
        } else {
            assert(found =~= found_before);
            lemma_push_contains(lost_before, hashes.last(), t);
        }
        assert(hashes =~= before.push(hashes.last()));
        lemma_push_contains(before, hashes.last(), t);
    }
}

proof fn lemma_push_contains(s: Seq<Seq<char>>, last: Seq<char>, t: Seq<char>)
    ensures
        s.push(last).contains(t) <==> s.contains(t) || last == t,
{
    let now = s.push(last);
    if s.contains(t) {
        let i = choose|i: int| 0 <= i < s.len() && s[i] == t;
        assert(now[i] == t);
    }
    if last == t {
        assert(now[s.len() as int] == t);
    }
    if now.contains(t) && last != t {
        let i = choose|i: int| 0 <= i < now.len() && now[i] == t;
        assert(s[i] == t);
    }
}

/// A collection that is loaded into the selection and saved again holds the
/// same checksums, whether the library was scanned or not, and whether scanned
/// maps have them or not.
pub proof fn law_load_then_save(hashes: Seq<Seq<char>>, scan: Option<LibraryScan>, loaded: Selection)
    requires
        loaded.md5s@ == hashes.to_set(),
        match scan {
            Some(s) => loaded.maps@ == found_maps(hashes, s.maps@) && texts(loaded.missing@)
                == not_found(hashes, s.maps@),
            None => loaded.maps@.len() == 0 && texts(loaded.missing@) == hashes,
        },
    ensures
        loaded.saved().to_set() == hashes.to_set(),
{
    assert forall|t: Seq<char>| loaded.saved().to_set().contains(t) <==> hashes.to_set().contains(
        t,
    ) by {
        lemma_with_missing(md5s_of(loaded.maps@), loaded.md5s@, texts(loaded.missing@), t);
        match scan {
            Some(s) => {
                lemma_found_or_not(hashes, s.maps@, t);
            },
            None => {
                assert(md5s_of(loaded.maps@).len() == 0);
            },
        }
    }
    assert(loaded.saved().to_set() =~= hashes.to_set());
}

/// What is saved are the checksums of all selected maps, and of the missing
/// ones exactly those that are still selected.
pub proof fn law_saved_hashes(selection: Selection, t: Seq<char>)
    ensures
        selection.saved().contains(t) <==> md5s_of(selection.maps@).contains(t) || (texts(
            selection.missing@,
        ).contains(t) && selection.md5s@.contains(t)),
{
    lemma_with_missing(md5s_of(selection.maps@), selection.md5s@, texts(selection.missing@), t);
}

/// A checksum that is taken out of the selection leaves no map that has it, and
/// all others.
pub proof fn law_deselect(maps: Seq<LocalBeatmap>, md5: Seq<char>, map: LocalBeatmap)
    ensures
        without_md5(maps, md5).contains(map) <==> maps.contains(map) && map.md5@ != md5,
    decreases maps.len(),
{
    if maps.len() > 0 {
        let before = maps.drop_last();
        let rest = without_md5(before, md5);
        let now = without_md5(maps, md5);
        law_deselect(before, md5, map);
        if rest.contains(map) {
            let i = choose|i: int| 0 <= i < rest.len() && rest[i] == map;
            assert(now[i] == map);
        }
        if maps.last().md5@ != md5 {
            assert(now[rest.len() as int] == maps.last());
        }
        if before.contains(map) {
            let i = choose|i: int| 0 <= i < before.len() && before[i] == map;
            assert(maps[i] == map);
        }
        if maps.contains(map) && !before.contains(map) {
            let i = choose|i: int| 0 <= i < maps.len() && maps[i] == map;
            if i < before.len() {
                assert(before[i] == map);
            }
        }
        if now.contains(map) && !rest.contains(map) {
            let i = choose|i: int| 0 <= i < now.len() && now[i] == map;
            if i < rest.len() {
                assert(rest[i] == map);
            }
            assert(maps[maps.len() - 1] == map);
        }
    }
}

/// Selecting maps one by one never selects two maps with the same checksum.
pub proof fn law_selected_once(before: Selection, map: LocalBeatmap)
    requires
        before.wf(),
        md5s_of(before.maps@).no_duplicates(),
        !before.md5s@.contains(map.md5@),
    ensures
        md5s_of(before.maps@.push(map)).no_duplicates(),
{
    let now = md5s_of(before.maps@.push(map));
    assert forall|i: int, j: int| 0 <= i < now.len() && 0 <= j < now.len() && i != j implies now[i]
        != now[j] by {
        let n = before.maps@.len() as int;
        if i < n {
            assert(now[i] == before.maps@[i].md5@);
            assert(now[i] == md5s_of(before.maps@)[i]);
        }
        if j < n {
            assert(now[j] == before.maps@[j].md5@);
            assert(now[j] == md5s_of(before.maps@)[j]);
        }
    }
}

// ---- what rules and checksums decide ----

/// A rule keeps a map unless it lies in one of the folders, is one of the files,
/// or is of another mode than the standard one where only that is kept.
pub proof fn law_rules(rule: RuleView, map: LocalBeatmap)
    ensures
        rule.folders.contains(map.folder.key@) ==> !keeps(rule, map),
        rule.files.contains(map.path.key@) ==> !keeps(rule, map),
        rule.only_std && map.mode is Some && map.mode->0 != 0 ==> !keeps(rule, map),
        !rule.folders.contains(map.folder.key@) && !rule.files.contains(map.path.key@) && (
        !rule.only_std || map.mode is None || map.mode->0 == 0) ==> keeps(rule, map),
{
}

/// The problems of the maps that leave leave with them: those of the files and
/// those of the files in the folders, and no other.
pub proof fn law_kept_issues(issues: Seq<RepairIssue>, issue: RepairIssue, rule: RuleView)
    ensures
        rule.files.contains(issue.beatmap.key@) || (issue.beatmap.parent is Some
            && rule.folders.contains(issue.beatmap.parent->0@)) ==> kept_issues(
            issues.push(issue),
            rule,
        ) == kept_issues(issues, rule),
        !rule.files.contains(issue.beatmap.key@) && (issue.beatmap.parent is None
            || !rule.folders.contains(issue.beatmap.parent->0@)) ==> kept_issues(
            issues.push(issue),
            rule,
        ) == kept_issues(issues, rule).push(issue),
        kept_issues(seq![], rule) == Seq::<RepairIssue>::empty(),
{
    assert(issues.push(issue).drop_last() =~= issues);
}

/// The map of a checksum is the last one that has it.
pub proof fn law_map_of_checksum(maps: Seq<LocalBeatmap>, i: int, md5: Seq<char>)
    requires
        -1 <= i < maps.len(),
        i >= 0 ==> maps[i].md5@ == md5,
        forall|j: int| i < j < maps.len() ==> (#[trigger] maps[j]).md5@ != md5,
    ensures
        i >= 0 ==> places_by_md5(maps).contains_pair(md5, i),
        i < 0 ==> !places_by_md5(maps).contains_key(md5),
    decreases maps.len(),
{
    if maps.len() > 0 && i < maps.len() - 1 {
        let init = maps.drop_last();
        assert(maps[maps.len() - 1].md5@ != md5);
        assert forall|j: int| i < j < init.len() implies (#[trigger] init[j]).md5@ != md5 by {
            assert(init[j] == maps[j]);
        }
        law_map_of_checksum(init, i, md5);
    }
}

/// Of the checksums of a collection each brings its map into the selection where
/// a scanned map has it, and counts as missing where none has.
pub proof fn law_loaded_checksums(
    hashes: Seq<Seq<char>>,
    md5: Seq<char>,
    maps: Seq<LocalBeatmap>,
    i: int,
)
    requires
        -1 <= i < maps.len(),
        i >= 0 ==> maps[i].md5@ == md5,
        forall|j: int| i < j < maps.len() ==> (#[trigger] maps[j]).md5@ != md5,
    ensures
        i >= 0 ==> found_maps(hashes.push(md5), maps) == found_maps(hashes, maps).push(maps[i])
            && not_found(hashes.push(md5), maps) == not_found(hashes, maps),
        i < 0 ==> found_maps(hashes.push(md5), maps) == found_maps(hashes, maps) && not_found(
            hashes.push(md5),
            maps,
        ) == not_found(hashes, maps).push(md5),
{
    assert(hashes.push(md5).drop_last() =~= hashes);
    law_map_of_checksum(maps, i, md5);
}

/// What is saved begins with the checksums of the selected maps, in their order;
/// the missing ones follow, each once.
pub proof fn law_order_of_saved(
    hashes: Seq<Seq<char>>,
    selected: Set<Seq<char>>,
    missing: Seq<Seq<char>>,
)
    ensures
        hashes.len() <= with_missing(hashes, selected, missing).len(),
        with_missing(hashes, selected, missing).take(hashes.len() as int) == hashes,
        hashes.no_duplicates() ==> with_missing(hashes, selected, missing).no_duplicates(),
    decreases missing.len(),
{
    let all = with_missing(hashes, selected, missing);
    if missing.len() == 0 {
        assert(all.take(hashes.len() as int) =~= hashes);
    } else {
        law_order_of_saved(hashes, selected, missing.drop_last());
        let rest = with_missing(hashes, selected, missing.drop_last());
        assert(all.take(hashes.len() as int) =~= rest.take(hashes.len() as int));
    }
}

/// The selected maps after one more was selected, where `md5s` are the checksums
/// that are selected.
pub open spec fn with_selected(
    maps: Seq<LocalBeatmap>,
    md5s: Set<Seq<char>>,
    map: LocalBeatmap,
) -> Seq<LocalBeatmap> {
    if md5s.contains(map.md5@) {
        maps
    } else {
        maps.push(map)
    }
}

/// A map is selected once: the second time changes nothing, and no map that was
/// selected leaves.
pub proof fn law_selecting(maps: Seq<LocalBeatmap>, md5s: Set<Seq<char>>, map: LocalBeatmap)
    ensures
        with_selected(
            with_selected(maps, md5s, map),
            md5s.insert(map.md5@),
            map,
        ) == with_selected(maps, md5s, map),
        !md5s.contains(map.md5@) ==> with_selected(maps, md5s, map).contains(map),
        with_selected(maps, md5s, map).len() >= maps.len(),
        with_selected(maps, md5s, map).take(maps.len() as int) == maps,
{
    assert(with_selected(maps, md5s, map).take(maps.len() as int) =~= maps);
    if !md5s.contains(map.md5@) {
        assert(with_selected(maps, md5s, map)[maps.len() as int] == map);
    }
}

} // verus!
