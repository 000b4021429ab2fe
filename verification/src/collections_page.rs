//! The commands on collections, on the selection and on files to delete.
use crate::collection::{
    delete_collection, upsert_collection_hashes, CollectionDb, CollectionEntry,
};
#[allow(unused_imports)]
use crate::collection::{
    entries, first_named, hashes_of, law_delete_keeps_others, law_upsert_keeps_others,
    lemma_first_named, upserted, without, DbView, EntryView,
};
#[allow(unused_imports)]
use crate::caches::maps_of;
use crate::display::DeleteIntent;
#[allow(unused_imports)]
use crate::display::{chosen_count, mode_chosen};
use crate::local::FilePath;
#[allow(unused_imports)]
use crate::local::{opt_text, LocalBeatmap};
use crate::manager::MapManagerApp;
#[allow(unused_imports)]
use crate::number::decimal;
use crate::number::decimal_usize;
#[allow(unused_imports)]
use crate::paths::keys_of;
use crate::paths::PathSet;
#[allow(unused_imports)]
use crate::scan_state::library;
#[allow(unused_imports)]
use crate::selection::{found_maps, kept_maps, md5s_of, not_found, RuleView};
use crate::selection::MapRule;
use crate::text::{join, join2, join3, same_text};
#[allow(unused_imports)]
use crate::text::{join_texts, texts};
use vstd::prelude::*;
use vstd::string::*;

verus! {

// ---- texts ----

/// A failure and why.
pub open spec fn failure_text(what: Seq<char>, error: Seq<char>) -> Seq<char> {
    what + ": "@ + error
}

/// What is said when collections were loaded.
pub open spec fn loaded_text(count: nat, path: Seq<char>) -> Seq<char> {
    "Loaded "@ + decimal(count) + " collection(s) from "@ + path
}

/// The index, if there are so many collections.
pub open spec fn index_within(index: Option<usize>, n: nat) -> Option<usize> {
    match index {
        Some(i) => if i < n {
            Some(i)
        } else {
            None
        },
        None => None,
    }
}

/// The index of the first collection with a name.
pub open spec fn index_of_name(list: Seq<EntryView>, name: Seq<char>) -> Option<usize> {
    if first_named(list, name) < list.len() {
        Some(first_named(list, name) as usize)
    } else {
        None
    }
}

/// The first index of a collection with a name.
pub fn find_collection(list: &Vec<CollectionEntry>, name: &str) -> (r: Option<usize>)
    ensures
        r == index_of_name(entries(list@), name@),
        r matches Some(i) ==> i < list@.len(),
{
    let ghost all = entries(list@);
    let mut i: usize = 0;
    proof {
        lemma_first_named(all, name@);
    }
    while i < list.len()
        invariant
            i <= list@.len(),
            all == entries(list@),
            forall|k: int| 0 <= k < i ==> (#[trigger] all[k]).name != name@,
            first_named(all, name@) <= all.len(),
            forall|k: int| 0 <= k < first_named(all, name@) ==> (#[trigger] all[k]).name != name@,
            first_named(all, name@) < all.len() ==> all[first_named(all, name@) as int].name
                == name@,
        decreases list@.len() - i,
    {
        assert(all[i as int] == list@[i as int]@);
        if same_text(&list[i].name, name) {
            proof {
                let k = first_named(all, name@) as int;
                if k < i {
                    assert(all[k].name == name@);
                } else if i < k {
                    assert(all[i as int].name != name@);
                }
            }
            return Some(i);
        }
        i = i + 1;
    }
    None
}

// ---- the selected collection ----

impl MapManagerApp {
    /// The collection that is selected.
    pub open spec fn chosen(self) -> Option<EntryView> {
        match self.selected_collection {
            Some(i) => if i < self.collections@.len() {
                Some(self.collections@[i as int]@)
            } else {
                None
            },
            None => None,
        }
    }

    fn chosen_name(&self) -> (r: Option<String>)
        ensures
            opt_text(r) == (match self.chosen() {
                Some(c) => Some(c.name),
                None => None,
            }),
    {
        match self.selected_collection {
            Some(i) => if i < self.collections.len() {
                Some(self.collections[i].name.clone())
            } else {
                None
            },
            None => None,
        }
    }

    /// Whether the collections are those that were loaded, or none where they
    /// could not be; and all but them and what depends on them is as before.
    pub open spec fn has_loaded(
        self,
        before: MapManagerApp,
        loaded: Result<Vec<CollectionEntry>, String>,
        path: Seq<char>,
    ) -> bool {
        &&& self.selection.maps == before.selection.maps
        &&& self.selection.md5s == before.selection.md5s
        &&& self.selection.missing@.len() == 0
        &&& match loaded {
            Ok(list) => self.collections == list && self.status@ == loaded_text(list@.len(), path),
            Err(error) => self.collections@.len() == 0 && self.status@ == failure_text(
                "Collection load failed"@,
                error@,
            ),
        }
        &&& self == (MapManagerApp {
            selection: self.selection,
            collections: self.collections,
            selected_collection: self.selected_collection,
            status: self.status,
            ..before
        })
    }

    /// Takes in the collections of a `collection.db`, or why it could not be
    /// loaded.
    pub fn on_collections_loaded(&mut self, loaded: Result<Vec<CollectionEntry>, String>, path: &str)
        requires
            old(self).wf(),
        ensures
            final(self).wf(),
            final(self).has_loaded(*old(self), loaded, path@),
            final(self).selected_collection == index_within(
                old(self).selected_collection,
                final(self).collections@.len(),
            ),
    {
        self.selection.missing = Vec::new();
        match loaded {
            Ok(list) => {
                let n: usize = list.len();
                self.collections = list;
                self.selected_collection = match self.selected_collection {
                    Some(i) => if i < n {
                        Some(i)
                    } else {
                        None
                    },
                    None => None,
                };
                self.status = join3(
                    "Loaded ",
                    &decimal_usize(n),
                    &join2(" collection(s) from ", path),
                );
                assert(self.status@ =~= loaded_text(n as nat, path@));
            },
            Err(error) => {
                self.collections = Vec::new();
                self.selected_collection = None;
                self.status = join3("Collection load failed", ": ", &error);
            },
        }
    }

    /// Takes in the collections after one was made or saved, which is selected
    /// from now on.
    pub fn on_collection_written(
        &mut self,
        name: &str,
        loaded: Result<Vec<CollectionEntry>, String>,
        path: &str,
    )
        requires
            old(self).wf(),
        ensures
            final(self).wf(),
            final(self).has_loaded(*old(self), loaded, path@),
            final(self).selected_collection == index_of_name(
                entries(final(self).collections@),
                name@,
            ),
    {
        self.on_collections_loaded(loaded, path);
        self.selected_collection = find_collection(&self.collections, name);
    }

    /// Takes in the collections after the selected one was deleted.
    pub fn on_collection_deleted(
        &mut self,
        loaded: Result<Vec<CollectionEntry>, String>,
        path: &str,
    )
        requires
            old(self).wf(),
        ensures
            final(self).wf(),
            final(self).has_loaded(*old(self), loaded, path@),
            final(self).selected_collection is None,
    {
        self.selected_collection = None;
        self.on_collections_loaded(loaded, path);
    }

    /// Says that something failed, and why.
    pub fn on_failure(&mut self, what: &str, error: &str)
        ensures
            *final(self) == (MapManagerApp { status: final(self).status, ..*old(self) }),
            final(self).status@ == failure_text(what@, error@),
    {
        self.status = join3(what, ": ", error);
    }

    /// Says that the selection was exported to a file.
    pub fn on_manifest_written(&mut self, path: &str)
        ensures
            *final(self) == (MapManagerApp { status: final(self).status, ..*old(self) }),
            final(self).status@ == "Wrote "@ + path@,
    {
        self.status = join2("Wrote ", path);
    }

    /// The checksums to add to a collection; none where nothing is selected,
    /// which is said.
    pub fn start_add(&mut self) -> (r: Option<Vec<String>>)
        requires
            old(self).wf(),
        ensures
            final(self).wf(),
            *final(self) == (MapManagerApp { status: final(self).status, ..*old(self) }),
            r is None <==> old(self).selection.maps@.len() == 0
                && old(self).selection.md5s.items@.len() == 0,
            match r {
                Some(hashes) => texts(hashes@) == old(self).selection.saved()
                    && final(self).status == old(self).status,
                None => final(self).status@
                    == "Select at least one map before adding to a collection"@,
            },
    {
        if self.selection.maps.len() == 0 && self.selection.md5s.items.len() == 0 {
            self.status = "Select at least one map before adding to a collection".to_owned();
            return None;
        }
        Some(self.selection.hashes_to_save())
    }

    /// Loads the selected collection into the selection; where none is
    /// selected, that is said.
    pub fn load_selected_collection_into_selection(&mut self)
        requires
            old(self).wf(),
        ensures
            final(self).wf(),
            match old(self).chosen() {
                None => {
                    &&& *final(self) == (MapManagerApp {
                        status: final(self).status,
                        ..*old(self)
                    })
                    &&& final(self).status@ == "Select a collection to load"@
                },
                Some(c) => {
                    &&& *final(self) == (MapManagerApp {
                        status: final(self).status,
                        selection: final(self).selection,
                        collection_name: final(self).collection_name,
                        ..*old(self)
                    })
                    &&& final(self).collection_name@ == c.name
                    &&& final(self).selection.md5s@ == c.hashes.to_set()
                    &&& match old(self).library.scan {
                        Some(s) => {
                            &&& final(self).selection.maps@ == found_maps(c.hashes, s.maps@)
                            &&& texts(final(self).selection.missing@) == not_found(
                                c.hashes,
                                s.maps@,
                            )
                            &&& final(self).status@ == "Loaded "@ + decimal(
                                final(self).selection.maps@.len(),
                            ) + " scanned map(s) from "@ + c.name + "; "@ + decimal(
                                final(self).selection.missing@.len(),
                            ) + " hash(es) were not found in the current scan"@
                        },
                        None => {
                            &&& final(self).selection.maps@.len() == 0
                            &&& texts(final(self).selection.missing@) == c.hashes
                            &&& final(self).status@ == "Loaded "@ + decimal(c.hashes.len())
                                + " hash(es) from "@ + c.name
                                + "; scan Songs to match them to local maps"@
                        },
                    }
                },
            },
    {
        let place: Option<usize> = match self.selected_collection {
            Some(i) => if i < self.collections.len() {
                Some(i)
            } else {
                None
            },
            None => None,
        };
        match place {
            None => {
                self.status = "Select a collection to load".to_owned();
            },
            Some(i) => {
                let name = self.collections[i].name.clone();
                self.selection.load(&self.collections[i].hashes, &self.library.scan);
                let hashes: usize = self.collections[i].hashes.len();
                assert(self.collections@[i as int]@.hashes.len() == hashes);
                let mut t = "Loaded ".to_owned();
                if self.library.scan.is_some() {
                    t.append(&decimal_usize(self.selection.maps.len()));
                    t.append(" scanned map(s) from ");
                    t.append(&name);
                    t.append("; ");
                    t.append(&decimal_usize(self.selection.missing.len()));
                    t.append(" hash(es) were not found in the current scan");
                } else {
                    t.append(&decimal_usize(hashes));
                    t.append(" hash(es) from ");
                    t.append(&name);
                    t.append("; scan Songs to match them to local maps");
                }
                self.collection_name = name;
                self.status = t;
            },
        }
    }

    /// The collections after the selection was saved: under its name, and no
    /// longer under that of the selected collection where it was changed.
    pub open spec fn saved_into(self, list: Seq<EntryView>) -> Seq<EntryView> {
        let base = match self.chosen() {
            Some(c) => if c.name != self.collection_name@ {
                without(list, c.name)
            } else {
                list
            },
            None => list,
        };
        upserted(base, self.collection_name@, self.selection.saved())
    }

    /// The `collection.db` with the selection saved into it, where it was
    /// loaded or does not exist yet; else, why it could not be loaded is said.
    pub fn start_save(&mut self, loaded: Result<CollectionDb, String>, file_exists: bool) -> (r:
        Option<CollectionDb>)
        requires
            old(self).wf(),
        ensures
            final(self).wf(),
            *final(self) == (MapManagerApp { status: final(self).status, ..*old(self) }),
            match (loaded, r) {
                (Ok(db), Some(saved)) => {
                    &&& final(self).status == old(self).status
                    &&& saved@ == (DbView {
                        collections: old(self).saved_into(db@.collections),
                        ..db@
                    })
                },
                (Err(error), Some(saved)) => {
                    &&& !file_exists
                    &&& final(self).status == old(self).status
                    &&& saved@ == (DbView {
                        version: crate::collection::DEFAULT_COLLECTION_DB_VERSION as int,
                        collections: old(self).saved_into(Seq::empty()),
                    })
                },
                (Err(error), None) => file_exists && final(self).status@ == failure_text(
                    "Collection save failed"@,
                    error@,
                ),
                (Ok(db), None) => false,
            },
    {
        let mut db = match loaded {
            Ok(db) => db,
            Err(error) => {
                if file_exists {
                    self.status = join3("Collection save failed", ": ", &error);
                    return None;
                }
                CollectionDb::empty()
            },
        };
        if let Some(name) = self.chosen_name() {
            if !same_text(&name, &self.collection_name) {
                delete_collection(&mut db, &name);
            }
        }
        let hashes = self.selection.hashes_to_save();
        upsert_collection_hashes(&mut db, &self.collection_name, hashes);
        Some(db)
    }

    /// The name of the selected collection, which is to be deleted; where none
    /// is selected, that is said.
    pub fn start_delete(&mut self) -> (r: Option<String>)
        requires
            old(self).wf(),
        ensures
            final(self).wf(),
            *final(self) == (MapManagerApp { status: final(self).status, ..*old(self) }),
            opt_text(r) == (match old(self).chosen() {
                Some(c) => Some(c.name),
                None => None,
            }),
            r is Some ==> final(self).status == old(self).status,
            r is None ==> final(self).status@ == "Select a collection to delete"@,
    {
        let name = self.chosen_name();
        if name.is_none() {
            self.status = "Select a collection to delete".to_owned();
        }
        name
    }

    /// The `collection.db` without a collection, where it was loaded and holds
    /// it; else, what is wrong is said.
    pub fn delete_from(&mut self, name: &str, loaded: Result<CollectionDb, String>) -> (r: Option<
        CollectionDb,
    >)
        requires
            old(self).wf(),
        ensures
            final(self).wf(),
            *final(self) == (MapManagerApp { status: final(self).status, ..*old(self) }),
            match loaded {
                Err(error) => r is None && final(self).status@ == failure_text(
                    "Collection delete failed"@,
                    error@,
                ),
                Ok(db) => if first_named(db@.collections, name@) < db@.collections.len() {
                    &&& r matches Some(rest) && rest@ == (DbView {
                        collections: without(db@.collections, name@),
                        ..db@
                    })
                    &&& final(self).status == old(self).status
                } else {
                    r is None && final(self).status@ == failure_text(
                        "Collection not found"@,
                        name@,
                    )
                },
            },
    {
        match loaded {
            Err(error) => {
                self.status = join3("Collection delete failed", ": ", &error);
                None
            },
            Ok(db) => {
                proof {
                    lemma_first_named(db@.collections, name@);
                }
                let ghost all = db@.collections;
                let mut db = db;
                if delete_collection(&mut db, name) {
                    Some(db)
                } else {
                    proof {
                        let k = first_named(all, name@) as int;
                        if k < all.len() {
                            assert(all[k].name == name@);
                        }
                    }
                    self.status = join3("Collection not found", ": ", name);
                    None
                }
            },
        }
    }

    // ---- the selection ----

    /// Keeps of the selection only maps of the standard mode, where only those
    /// are shown.
    pub fn keep_std_selected(&mut self)
        requires
            old(self).wf(),
        ensures
            final(self).wf(),
            *final(self) == (MapManagerApp { selection: final(self).selection, ..*old(self) }),
            !old(self).only_osu_std ==> final(self).selection == old(self).selection,
            old(self).only_osu_std ==> {
                &&& final(self).selection.maps@ == kept_maps(
                    old(self).selection.maps@,
                    (RuleView { only_std: true, folders: Set::empty(), files: Set::empty() }),
                )
                &&& final(self).selection.md5s@ == md5s_of(final(self).selection.maps@).to_set()
                &&& final(self).selection.missing == old(self).selection.missing
            },
    {
        if self.only_osu_std {
            self.selection.retain_selected_maps(&MapRule::standard());
        }
    }

    /// Selects all maps that are shown.
    pub fn select_all_filtered(&mut self)
        requires
            old(self).wf(),
        ensures
            final(self).wf(),
            *final(self) == (MapManagerApp { selection: final(self).selection, ..*old(self) }),
            final(self).selection.missing == old(self).selection.missing,
            ({
                let now = select_places(
                    SelectedView {
                        maps: old(self).selection.maps@,
                        md5s: old(self).selection.md5s@,
                    },
                    old(self).shown.places@,
                    maps_of(old(self).library.scan),
                );
                final(self).selection.maps@ == now.maps && final(self).selection.md5s@ == now.md5s
            }),
    {
        let ghost places = self.shown.places@;
        let ghost all = maps_of(self.library.scan);
        let ghost start = SelectedView {
            maps: self.selection.maps@,
            md5s: self.selection.md5s@,
        };
        match &self.library.scan {
            Some(scan) => {
                let mut i: usize = 0;
                assert(places.take(0) =~= seq![]);
                while i < self.shown.places.len()
                    invariant
                        i <= self.shown.places@.len(),
                        places == self.shown.places@,
                        all == scan.maps@,
                        self.selection.wf(),
                        *self == (MapManagerApp { selection: self.selection, ..*old(self) }),
                        *scan == old(self).library.scan->0,
                        self.selection.missing == old(self).selection.missing,
                        (SelectedView {
                            maps: self.selection.maps@,
                            md5s: self.selection.md5s@,
                        }) == select_places(start, places.take(i as int), all),
                    decreases self.shown.places@.len() - i,
                {
                    assert(places.take(i as int + 1).drop_last() =~= places.take(i as int));
                    let p: usize = self.shown.places[i];
                    if p < scan.maps.len() {
                        self.selection.select_map(&scan.maps[p]);
                    }
                    i = i + 1;
                }
                assert(places.take(i as int) =~= places);
            },
            None => {
                proof {
                    lemma_select_nothing(start, places);
                }
            },
        }
    }

    // ---- deleting ----

    /// Asks whether the selected collection is to be deleted.
    pub fn ask_to_delete_collection(&mut self)
        ensures
            *final(self) == (MapManagerApp {
                confirmation: final(self).confirmation,
                ..*old(self)
            }),
            match old(self).chosen() {
                Some(c) => final(self).confirmation matches Some(DeleteIntent::Collection(name))
                    && name@ == c.name,
                None => final(self).confirmation is None,
            },
    {
        self.confirmation = match self.chosen_name() {
            Some(name) => Some(DeleteIntent::Collection(name)),
            None => None,
        };
    }

    /// Asks whether the maps of the chosen modes are to be deleted.
    pub fn ask_to_delete_modes(&mut self)
        ensures
            *final(self) == (MapManagerApp {
                confirmation: final(self).confirmation,
                ..*old(self)
            }),
            final(self).confirmation matches Some(DeleteIntent::NonStdModes(n)) && n
                == chosen_count(old(self).delete_modes, maps_of(old(self).library.scan)),
    {
        let n: usize = match &self.library.scan {
            Some(scan) => self.delete_modes.count(&scan.maps),
            None => 0,
        };
        self.confirmation = Some(DeleteIntent::NonStdModes(n));
    }

    /// The files of the maps of the chosen modes, each once, in order; where
    /// there are none to delete, why is said.
    pub fn start_delete_modes(&mut self) -> (r: Option<PathSet>)
        requires
            old(self).wf(),
        ensures
            final(self).wf(),
            *final(self) == (MapManagerApp { status: final(self).status, ..*old(self) }),
            r matches Some(files) ==> {
                &&& files.wf()
                &&& files@ == chosen_files(
                    old(self).delete_modes,
                    maps_of(old(self).library.scan),
                )
                &&& files_known(files.items@, maps_of(old(self).library.scan))
                &&& final(self).status == old(self).status
            },
            r is None <==> old(self).refuses_delete() is Some,
            r is None ==> final(self).status@ == old(self).refuses_delete()->0,
    {
        if !self.delete_modes.any() {
            self.status = "Select at least one non-std mode to delete".to_owned();
            return None;
        }
        let mut files = PathSet::new();
        match &self.library.scan {
            None => {
                self.status = "Scan your Songs directory before deleting non-std maps".to_owned();
                return None;
            },
            Some(scan) => {
                let ghost all = scan.maps@;
                let mut i: usize = 0;
                assert(files@ =~= chosen_files(self.delete_modes, all.take(0)));
                while i < scan.maps.len()
                    invariant
                        i <= scan.maps@.len(),
                        all == scan.maps@,
                        *self == *old(self),
                        files.wf(),
                        files@ == chosen_files(self.delete_modes, all.take(i as int)),
                        files_known(files.items@, all),
                    decreases scan.maps@.len() - i,
                {
                    assert(all.take(i as int + 1).drop_last() =~= all.take(i as int));
                    let ghost before = files.items@;
                    if self.delete_modes.matches(scan.maps[i].mode) {
                        let path = scan.maps[i].path.clone();
                        files.insert(path);
                        assert forall|k: int| 0 <= k < files.items@.len() implies is_file_of(
                            #[trigger] files.items@[k],
                            all,
                        ) by {
                            if files.items@[k] == path {
                                assert(all[i as int].path == path);
                            } else {
                                let j = choose|j: int|
                                    0 <= j < before.len() && before[j] == files.items@[k];
                                assert(is_file_of(before[j], all));
                            }
                        }
                    }
                    i = i + 1;
                }
                assert(all.take(i as int) =~= all);
            },
        }
        proof {
            lemma_chosen_files(self.delete_modes, maps_of(self.library.scan));
            if files.items@.len() > 0 {
                let key = files.items@[0].key@;
                assert(keys_of(files.items@)[0] == key);
                assert(files@.contains(key));
            } else {
                assert(files@ =~= Set::empty());
            }
        }
        if files.items.len() == 0 {
            self.status = "No scanned maps match the selected non-std modes".to_owned();
            return None;
        }
        Some(files)
    }

    /// Why no maps of the chosen modes can be deleted, if none can.
    pub open spec fn refuses_delete(self) -> Option<Seq<char>> {
        let modes = self.delete_modes;
        if !modes.taiko && !modes.catch && !modes.mania {
            Some("Select at least one non-std mode to delete"@)
        } else if self.library.scan is None {
            Some("Scan your Songs directory before deleting non-std maps"@)
        } else if chosen_count(modes, maps_of(self.library.scan)) == 0 {
            Some("No scanned maps match the selected non-std modes"@)
        } else {
            None
        }
    }

    /// Takes in which files were deleted, and what went wrong with the others.
    /// What was deleted leaves the library and the selection.
    pub fn on_files_deleted(&mut self, deleted: PathSet, failures: &Vec<String>)
        requires
            old(self).wf(),
            deleted.wf(),
            old(self).library.scan is Some,
        ensures
            final(self).wf(),
            deleted.items@.len() == 0 ==> *final(self) == (MapManagerApp {
                status: final(self).status,
                ..*old(self)
            }),
            deleted.items@.len() > 0 ==> {
                &&& final(self).kept_by(
                    *old(self),
                    (RuleView { only_std: false, folders: Set::empty(), files: deleted@ }),
                )
                &&& final(self).selection.maps@ == kept_maps(
                    old(self).selection.maps@,
                    (RuleView {
                        only_std: old(self).only_osu_std,
                        folders: Set::empty(),
                        files: deleted@,
                    }),
                )
                &&& final(self).expanded_md5 == old(self).expanded_md5
                &&& final(self).background == old(self).background
            },
            final(self).status@ == deleted_text(deleted.items@.len(), texts(failures@)),
    {
        let n: usize = deleted.items.len();
        if n > 0 {
            let mut rule = MapRule::without(deleted, false);
            self.library.keep(&rule);
            rule.only_std = self.only_osu_std;
            self.selection.retain_selected_maps(&rule);
            self.invalidate_scan_caches();
        }
        assert(texts(failures@).len() == failures@.len());
        let mut t = join3("Deleted ", &decimal_usize(n), " non-std .osu file(s)");
        if failures.len() > 0 {
            t.append("; ");
            t.append(&decimal_usize(failures.len()));
            t.append(" deletion(s) failed: ");
            t.append(&join(failures, "; "));
        }
        self.status = t;
    }
}

/// What is said when files were deleted.
pub open spec fn deleted_text(n: nat, failures: Seq<Seq<char>>) -> Seq<char> {
    let done = "Deleted "@ + decimal(n) + " non-std .osu file(s)"@;
    if failures.len() == 0 {
        done
    } else {
        done + "; "@ + decimal(failures.len()) + " deletion(s) failed: "@ + join_texts(
            failures,
            "; "@,
        )
    }
}

/// What is selected: maps and checksums.
#[verifier::ext_equal]
pub struct SelectedView {
    pub maps: Seq<LocalBeatmap>,
    pub md5s: Set<Seq<char>>,
}

/// What is selected after the maps at some places were.
pub open spec fn select_places(v: SelectedView, places: Seq<usize>, maps: Seq<LocalBeatmap>) -> SelectedView
    decreases places.len(),
{
    if places.len() == 0 {
        v
    } else {
        let before = select_places(v, places.drop_last(), maps);
        let p = places.last();
        if p < maps.len() {
            let map = maps[p as int];
            SelectedView {
                maps: if before.md5s.contains(map.md5@) {
                    before.maps
                } else {
                    before.maps.push(map)
                },
                md5s: before.md5s.insert(map.md5@),
            }
        } else {
            before
        }
    }
}

proof fn lemma_select_nothing(v: SelectedView, places: Seq<usize>)
    ensures
        select_places(v, places, Seq::empty()) == v,
    decreases places.len(),
{
    if places.len() > 0 {
        lemma_select_nothing(v, places.drop_last());
    }
}

/// The files of the maps whose modes are chosen.
pub open spec fn chosen_files(
    modes: crate::display::DeleteModeSelection,
    maps: Seq<LocalBeatmap>,
) -> Set<Seq<char>>
    decreases maps.len(),
{
    if maps.len() == 0 {
        Set::empty()
    } else {
        let rest = chosen_files(modes, maps.drop_last());
        if mode_chosen(modes, maps.last().mode) {
            rest.insert(maps.last().path.key@)
        } else {
            rest
        }
    }
}

/// Whether a path is that of one of the maps.
pub open spec fn is_file_of(path: FilePath, maps: Seq<LocalBeatmap>) -> bool {
    exists|m: int| 0 <= m < maps.len() && (#[trigger] maps[m]).path == path
}

/// Whether all paths are those of maps.
pub open spec fn files_known(paths: Seq<FilePath>, maps: Seq<LocalBeatmap>) -> bool {
    forall|k: int| 0 <= k < paths.len() ==> is_file_of(#[trigger] paths[k], maps)
}

proof fn lemma_chosen_files(
    modes: crate::display::DeleteModeSelection,
    maps: Seq<LocalBeatmap>,
)
    ensures
        chosen_files(modes, maps).is_empty() <==> chosen_count(modes, maps) == 0,
    decreases maps.len(),
{
    if maps.len() > 0 {
        lemma_chosen_files(modes, maps.drop_last());
        if mode_chosen(modes, maps.last().mode) {
            assert(chosen_files(modes, maps).contains(maps.last().path.key@));
        }
    }
}

/// Saving the selection puts it under its name and, where the selected
/// collection had another name, takes that away; all other collections keep
/// their checksums.
pub proof fn law_save_renames(app: MapManagerApp, list: Seq<EntryView>, other: Seq<char>)
    requires
        other != app.collection_name@,
        app.chosen() matches Some(c) ==> other != c.name,
    ensures
        hashes_of(app.saved_into(list), app.collection_name@) == Some(app.selection.saved()),
        app.chosen() matches Some(c) ==> c.name != app.collection_name@ ==> hashes_of(
            app.saved_into(list),
            c.name,
        ) is None,
        hashes_of(app.saved_into(list), other) == hashes_of(list, other),
{
    let name = app.collection_name@;
    let hashes = app.selection.saved();
    match app.chosen() {
        Some(c) => {
            if c.name != name {
                let base = without(list, c.name);
                law_upsert_keeps_others(base, name, hashes, c.name);
                law_upsert_keeps_others(base, name, hashes, other);
                law_delete_keeps_others(list, c.name, other);
            } else {
                law_upsert_keeps_others(list, name, hashes, other);
            }
        },
        None => {
            law_upsert_keeps_others(list, name, hashes, other);
        },
    }
}

/// The files to delete are those of the maps whose mode is chosen: of taiko, catch
/// and mania maps only, and of all of them.
pub proof fn law_files_to_delete(
    modes: crate::display::DeleteModeSelection,
    maps: Seq<LocalBeatmap>,
    key: Seq<char>,
)
    ensures
        chosen_files(modes, maps).contains(key) <==> exists|m: int|
            0 <= m < maps.len() && (#[trigger] maps[m]).path.key@ == key && ((maps[m].mode == Some(
                1u8,
            ) && modes.taiko) || (maps[m].mode == Some(2u8) && modes.catch) || (maps[m].mode == Some(
                3u8,
            ) && modes.mania)),
    decreases maps.len(),
{
    if maps.len() > 0 {
        let init = maps.drop_last();
        law_files_to_delete(modes, init, key);
        if chosen_files(modes, init).contains(key) {
            let m = choose|m: int|
                0 <= m < init.len() && (#[trigger] init[m]).path.key@ == key && ((init[m].mode
                    == Some(1u8) && modes.taiko) || (init[m].mode == Some(2u8) && modes.catch) || (
                init[m].mode == Some(3u8) && modes.mania));
            assert(maps[m] == init[m]);
        }
        if mode_chosen(modes, maps.last().mode) && maps.last().path.key@ == key {
            assert(maps[maps.len() - 1].path.key@ == key);
        }
        if exists|m: int|
            0 <= m < maps.len() && (#[trigger] maps[m]).path.key@ == key && ((maps[m].mode == Some(
                1u8,
            ) && modes.taiko) || (maps[m].mode == Some(2u8) && modes.catch) || (maps[m].mode == Some(
                3u8,
            ) && modes.mania)) {
            let m = choose|m: int|
                0 <= m < maps.len() && (#[trigger] maps[m]).path.key@ == key && ((maps[m].mode
                    == Some(1u8) && modes.taiko) || (maps[m].mode == Some(2u8) && modes.catch) || (
                maps[m].mode == Some(3u8) && modes.mania));
            if m < init.len() {
                assert(init[m] == maps[m]);
            }
        }
    }
}

/// Selecting the maps that are shown selects the checksum of each, takes no map
/// twice, and keeps what was selected.
pub proof fn law_select_shown(v: SelectedView, places: Seq<usize>, maps: Seq<LocalBeatmap>)
    ensures
        forall|i: int|
            0 <= i < places.len() && (#[trigger] places[i]) < maps.len() ==> select_places(
                v,
                places,
                maps,
            ).md5s.contains(maps[places[i] as int].md5@),
        v.md5s.subset_of(select_places(v, places, maps).md5s),
        v.maps.len() <= select_places(v, places, maps).maps.len(),
        select_places(v, places, maps).maps.take(v.maps.len() as int) == v.maps,
        forall|t: Seq<char>| #[trigger]
            select_places(v, places, maps).md5s.contains(t) ==> v.md5s.contains(t) || exists|i: int|
                0 <= i < places.len() && (#[trigger] places[i]) < maps.len()
                    && maps[places[i] as int].md5@ == t,
    decreases places.len(),
{
    let now = select_places(v, places, maps);
    if places.len() == 0 {
        assert(now.maps.take(v.maps.len() as int) =~= v.maps);
    } else {
        let init = places.drop_last();
        let before = select_places(v, init, maps);
        law_select_shown(v, init, maps);
        assert(now.maps.take(v.maps.len() as int) =~= before.maps.take(v.maps.len() as int));
        assert forall|i: int|
            0 <= i < places.len() && (#[trigger] places[i]) < maps.len() implies now.md5s.contains(
            maps[places[i] as int].md5@,
        ) by {
            if i < init.len() {
                assert(init[i] == places[i]);
            }
        }
        assert forall|t: Seq<char>| #[trigger] now.md5s.contains(t) implies v.md5s.contains(t)
            || exists|i: int|
            0 <= i < places.len() && (#[trigger] places[i]) < maps.len()
                && maps[places[i] as int].md5@ == t by {
            if before.md5s.contains(t) && !v.md5s.contains(t) {
                let i = choose|i: int|
                    0 <= i < init.len() && (#[trigger] init[i]) < maps.len()
                        && maps[init[i] as int].md5@ == t;
                assert(places[i] == init[i]);
            } else if !before.md5s.contains(t) {
                let n = places.len() - 1;
                assert(places[n] < maps.len() && maps[places[n] as int].md5@ == t);
            }
        }
    }
}

/// Deleting maps is refused where no mode is chosen, without a scan, and where no
/// map is of a chosen mode; and else never.
pub proof fn law_refused_deletions(app: MapManagerApp)
    ensures
        app.refuses_delete() is None <==> (app.delete_modes.taiko || app.delete_modes.catch
            || app.delete_modes.mania) && app.library.scan is Some && chosen_count(
            app.delete_modes,
            maps_of(app.library.scan),
        ) > 0,
{
}

/// A collection is found by its name, as the first one that has it.
pub proof fn law_index_of_name(list: Seq<EntryView>, name: Seq<char>, i: int)
    requires
        0 <= i <= list.len() <= usize::MAX,
        i < list.len() ==> list[i].name == name,
        forall|j: int| 0 <= j < i ==> (#[trigger] list[j]).name != name,
    ensures
        index_of_name(list, name) == (if i < list.len() {
            Some(i as usize)
        } else {
            None
        }),
{
    crate::collection::lemma_first_named(list, name);
    let f = first_named(list, name) as int;
    if f < i {
        assert(list[f].name != name);
    } else if i < f {
        assert(list[i].name != name);
    }
}

} // verus!
