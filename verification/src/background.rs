//! Backgrounds of maps: which are kept, which are decoded ahead of time, and
//! which one is shown.
#[allow(unused_imports)]
use crate::local::opt_text;
use crate::local::{FilePath, LocalBeatmap};
use crate::order::TextSet;
use crate::text::{is_listed, join2, same_text};
#[allow(unused_imports)]
use crate::text::texts;
use vstd::prelude::*;
use vstd::string::*;

verus! {

/// How many decoded backgrounds are kept.
pub const BACKGROUND_CACHE_LIMIT: usize = 24;

/// How many neighbours on each side of a map have their backgrounds decoded
/// ahead of time.
pub const BACKGROUND_PREFETCH_RADIUS: usize = 3;

/// How many backgrounds are decoded at once.
pub const BACKGROUND_MAX_IN_FLIGHT: usize = 4;

/// The background that is shown, those that are kept, and those that are being
/// decoded. Paths are told apart by their keys.
#[derive(Debug)]
pub struct BackgroundState {
    pub preview_path: Option<FilePath>,
    /// Whether the background at `preview_path` is decoded.
    pub preview_ready: bool,
    pub preview_error: Option<String>,
    pub in_flight: TextSet,
    /// The keys of the decoded backgrounds, oldest first.
    pub kept: Vec<String>,
}

/// What happens to the background that is to be shown.
#[derive(Clone, Copy, Debug, PartialEq, Eq, Structural)]
pub enum PreviewStep {
    /// It is the one that is shown.
    Unchanged,
    /// It is kept, and shown from now on.
    Show,
    /// It is to be decoded.
    Decode,
    /// It is being decoded, or too many others are.
    Wait,
}

/// The keys of the decoded backgrounds after one more was decoded.
pub open spec fn kept_with(kept: Seq<Seq<char>>, key: Seq<char>) -> Seq<Seq<char>> {
    if kept.contains(key) {
        kept
    } else if kept.len() >= BACKGROUND_CACHE_LIMIT {
        kept.drop_first().push(key)
    } else {
        kept.push(key)
    }
}

/// The key that must go for one more, if one must.
pub open spec fn evicted(kept: Seq<Seq<char>>, key: Seq<char>) -> Option<Seq<char>> {
    if !kept.contains(key) && kept.len() >= BACKGROUND_CACHE_LIMIT {
        Some(kept[0])
    } else {
        None
    }
}

/// The paths of a list that are decoded from now on: those that are neither
/// decoded nor being decoded, as long as there is room.
pub open spec fn started(
    kept: Seq<Seq<char>>,
    in_flight: Set<Seq<char>>,
    busy: nat,
    paths: Seq<FilePath>,
) -> Seq<FilePath>
    decreases paths.len(),
{
    if paths.len() == 0 {
        seq![]
    } else {
        let before = started(kept, in_flight, busy, paths.drop_last());
        let path = paths.last();
        if kept.contains(path.key@) || in_flight.union(key_set(before)).contains(path.key@) || busy
            + before.len() >= BACKGROUND_MAX_IN_FLIGHT {
            before
        } else {
            before.push(path)
        }
    }
}

/// The keys of paths.
pub open spec fn key_set(paths: Seq<FilePath>) -> Set<Seq<char>> {
    Set::new(|k: Seq<char>| is_key(paths, k))
}

/// Whether one of the paths has this key.
pub open spec fn is_key(paths: Seq<FilePath>, k: Seq<char>) -> bool {
    exists|i: int| 0 <= i < paths.len() && (#[trigger] paths[i]).key@ == k
}

impl BackgroundState {
    /// Not more backgrounds are kept, nor decoded at once, than allowed; and
    /// none is kept twice.
    pub open spec fn wf(self) -> bool {
        &&& self.kept@.len() <= BACKGROUND_CACHE_LIMIT
        &&& texts(self.kept@).no_duplicates()
        &&& self.in_flight.wf()
        &&& self.in_flight.items@.len() <= BACKGROUND_MAX_IN_FLIGHT
    }

    /// Whether a path is that of the background that is shown.
    pub open spec fn shows(self, key: Seq<char>) -> bool {
        self.preview_path is Some && self.preview_path->Some_0.key@ == key
    }

    /// Whether a background can be decoded now: it is neither decoded nor being
    /// decoded, and there is room.
    pub open spec fn can_start(self, key: Seq<char>) -> bool {
        !texts(self.kept@).contains(key) && !self.in_flight@.contains(key)
            && self.in_flight.items@.len() < BACKGROUND_MAX_IN_FLIGHT
    }

    /// Nothing is shown, kept or being decoded.
    pub fn new() -> (r: Self)
        ensures
            r.wf(),
            r.preview_path is None,
            !r.preview_ready,
            r.preview_error is None,
            r.in_flight@ == Set::<Seq<char>>::empty(),
            r.in_flight.items@.len() == 0,
            r.kept@.len() == 0,
    {
        BackgroundState {
            preview_path: None,
            preview_ready: false,
            preview_error: None,
            in_flight: TextSet::new(),
            kept: Vec::new(),
        }
    }

    fn is_shown(&self, key: &str) -> (r: bool)
        ensures
            r == self.shows(key@),
    {
        match &self.preview_path {
            Some(p) => same_text(&p.key, key),
            None => false,
        }
    }

    /// Shows nothing.
    pub fn clear_background_preview(&mut self)
        ensures
            *final(self) == (BackgroundState {
                preview_path: None,
                preview_ready: false,
                preview_error: None,
                ..*old(self)
            }),
    {
        self.preview_path = None;
        self.preview_ready = false;
        self.preview_error = None;
    }

    /// Keeps no background, and forgets what is being decoded.
    pub fn forget(&mut self)
        ensures
            old(self).wf() ==> final(self).wf(),
            final(self).kept@.len() == 0,
            final(self).in_flight@ == Set::<Seq<char>>::empty(),
            final(self).in_flight.items@.len() == 0,
            *final(self) == (BackgroundState {
                kept: final(self).kept,
                in_flight: final(self).in_flight,
                ..*old(self)
            }),
    {
        self.kept = Vec::new();
        self.in_flight = TextSet::new();
    }

    /// Keeps a decoded background. The oldest goes where there are too many.
    pub fn cache_background(&mut self, key: &str) -> (gone: Option<String>)
        requires
            old(self).wf(),
        ensures
            final(self).wf(),
            texts(final(self).kept@) == kept_with(texts(old(self).kept@), key@),
            opt_text(gone) == evicted(texts(old(self).kept@), key@),
            *final(self) == (BackgroundState { kept: final(self).kept, ..*old(self) }),
    {
        let ghost before = texts(self.kept@);
        if is_listed(&self.kept, key) {
            return None;
        }
        let mut gone: Option<String> = None;
        if self.kept.len() >= BACKGROUND_CACHE_LIMIT {
            let oldest = self.kept.remove(0);
            assert(texts(self.kept@) =~= before.drop_first());
            assert(oldest@ == before[0]);
            gone = Some(oldest);
        }
        let ghost rest = texts(self.kept@);
        self.kept.push(key.to_owned());
        proof {
            assert(texts(self.kept@) =~= rest.push(key@));
            assert(texts(self.kept@) =~= kept_with(before, key@));
            assert forall|i: int, j: int|
                0 <= i < self.kept@.len() && 0 <= j < self.kept@.len() && i != j implies texts(
                self.kept@,
            )[i] != texts(self.kept@)[j] by {
                let d = before.len() - rest.len();
                if i < rest.len() {
                    assert(texts(self.kept@)[i] == before[i + d]);
                }
                if j < rest.len() {
                    assert(texts(self.kept@)[j] == before[j + d]);
                }
            }
        }
        gone
    }

    /// Marks a background as being decoded. Tells whether it is to be decoded.
    pub fn spawn_background_decode(&mut self, key: &str) -> (r: bool)
        requires
            old(self).wf(),
        ensures
            final(self).wf(),
            r == old(self).can_start(key@),
            final(self).in_flight@ == (if r {
                old(self).in_flight@.insert(key@)
            } else {
                old(self).in_flight@
            }),
            final(self).in_flight.items@.len() == old(self).in_flight.items@.len() + (if r {
                1int
            } else {
                0
            }),
            *final(self) == (BackgroundState { in_flight: final(self).in_flight, ..*old(self) }),
    {
        if is_listed(&self.kept, key) || self.in_flight.contains(key) || self.in_flight.items.len()
            >= BACKGROUND_MAX_IN_FLIGHT {
            return false;
        }
        self.in_flight.insert(key.to_owned());
        true
    }

    /// What happens to a background that is to be shown.
    pub open spec fn step_for(self, key: Seq<char>) -> PreviewStep {
        if self.shows(key) {
            PreviewStep::Unchanged
        } else if texts(self.kept@).contains(key) {
            PreviewStep::Show
        } else if self.can_start(key) {
            PreviewStep::Decode
        } else {
            PreviewStep::Wait
        }
    }

    /// Shows the background at a path, once it is decoded.
    pub fn ensure_background_preview(&mut self, path: &FilePath) -> (r: PreviewStep)
        requires
            old(self).wf(),
        ensures
            final(self).wf(),
            r == old(self).step_for(path.key@),
            r == PreviewStep::Unchanged ==> *final(self) == *old(self),
            r != PreviewStep::Unchanged ==> *final(self) == (BackgroundState {
                preview_path: Some(*path),
                preview_error: None,
                preview_ready: r == PreviewStep::Show,
                in_flight: final(self).in_flight,
                ..*old(self)
            }),
            final(self).in_flight@ == (if r == PreviewStep::Decode {
                old(self).in_flight@.insert(path.key@)
            } else {
                old(self).in_flight@
            }),
    {
        if self.is_shown(&path.key) {
            return PreviewStep::Unchanged;
        }
        self.preview_path = Some(path.clone());
        self.preview_error = None;
        if is_listed(&self.kept, &path.key) {
            self.preview_ready = true;
            PreviewStep::Show
        } else {
            self.preview_ready = false;
            if self.spawn_background_decode(&path.key) {
                PreviewStep::Decode
            } else {
                PreviewStep::Wait
            }
        }
    }

    /// Whether backgrounds may be decoded ahead of time: the one that is shown
    /// comes first.
    pub open spec fn may_prefetch(self) -> bool {
        match self.preview_path {
            Some(p) => texts(self.kept@).contains(p.key@) || self.in_flight@.contains(p.key@),
            None => false,
        }
    }

    /// Chooses the backgrounds to decode ahead of time, out of those of the
    /// neighbours, nearest first.
    pub fn prefetch_neighbor_backgrounds(&mut self, neighbors: &Vec<FilePath>) -> (r: Vec<FilePath>)
        requires
            old(self).wf(),
        ensures
            final(self).wf(),
            r@ == (if old(self).may_prefetch() {
                started(
                    texts(old(self).kept@),
                    old(self).in_flight@,
                    old(self).in_flight.items@.len(),
                    neighbors@,
                )
            } else {
                seq![]
            }),
            final(self).in_flight@ == old(self).in_flight@.union(key_set(r@)),
            *final(self) == (BackgroundState { in_flight: final(self).in_flight, ..*old(self) }),
    {
        let mut r: Vec<FilePath> = Vec::new();
        assert(self.in_flight@ =~= old(self).in_flight@.union(key_set(r@)));
        let may = match &self.preview_path {
            Some(p) => is_listed(&self.kept, &p.key) || self.in_flight.contains(&p.key),
            None => false,
        };
        if !may {
            return r;
        }
        let mut i: usize = 0;
        assert(neighbors@.take(0) =~= seq![]);
        while i < neighbors.len()
            invariant
                i <= neighbors@.len(),
                self.wf(),
                *self == (BackgroundState { in_flight: self.in_flight, ..*old(self) }),
                self.in_flight@ == old(self).in_flight@.union(key_set(r@)),
                self.in_flight.items@.len() == old(self).in_flight.items@.len() + r@.len(),
                r@ == started(
                    texts(old(self).kept@),
                    old(self).in_flight@,
                    old(self).in_flight.items@.len(),
                    neighbors@.take(i as int),
                ),
            decreases neighbors@.len() - i,
        {
            let ghost before = r@;
            assert(neighbors@.take(i as int + 1).drop_last() =~= neighbors@.take(i as int));
            if self.spawn_background_decode(&neighbors[i].key) {
                r.push(neighbors[i].clone());
                proof {
                    let path = neighbors@[i as int];
                    assert(r@ =~= before.push(path));
                    assert forall|k: Seq<char>| key_set(r@).contains(k) <==> key_set(
                        before,
                    ).insert(path.key@).contains(k) by {
                        if is_key(before, k) {
                            let j = choose|j: int|
                                0 <= j < before.len() && (#[trigger] before[j]).key@ == k;
                            assert(r@[j].key@ == k);
                        }
                        if k == path.key@ {
                            assert(r@[before.len() as int].key@ == k);
                        }
                        if is_key(r@, k) {
                            let j = choose|j: int| 0 <= j < r@.len() && (#[trigger] r@[j]).key@ == k;
                            if j < before.len() {
                                assert(before[j].key@ == k);
                            }
                        }
                    }
                    assert(self.in_flight@ =~= old(self).in_flight@.union(key_set(r@)));
                }
            }
            i = i + 1;
        }
        assert(neighbors@.take(i as int) =~= neighbors@);
        r
    }

    /// Takes in that a background was decoded, or why it was not. Tells which
    /// one is no longer kept.
    pub fn on_decoded(&mut self, key: &str, result: Result<(), String>) -> (gone: Option<String>)
        requires
            old(self).wf(),
        ensures
            final(self).wf(),
            final(self).in_flight@ == old(self).in_flight@.remove(key@),
            final(self).preview_path == old(self).preview_path,
            match result {
                Ok(_) => {
                    &&& texts(final(self).kept@) == kept_with(texts(old(self).kept@), key@)
                    &&& opt_text(gone) == evicted(texts(old(self).kept@), key@)
                    &&& final(self).preview_ready == (old(self).preview_ready || old(self).shows(
                        key@,
                    ))
                    &&& final(self).preview_error == (if old(self).shows(key@) {
                        None
                    } else {
                        old(self).preview_error
                    })
                },
                Err(error) => {
                    &&& final(self).kept == old(self).kept
                    &&& gone is None
                    &&& final(self).preview_ready == old(self).preview_ready
                    &&& opt_text(final(self).preview_error) == (if old(self).shows(key@) {
                        Some("Could not load background: "@ + error@)
                    } else {
                        opt_text(old(self).preview_error)
                    })
                },
            },
    {
        self.in_flight.remove(key);
        match result {
            Ok(_) => {
                let gone = self.cache_background(key);
                if self.is_shown(key) {
                    self.preview_ready = true;
                    self.preview_error = None;
                }
                gone
            },
            Err(error) => {
                if self.is_shown(key) {
                    self.preview_error = Some(join2("Could not load background: ", &error));
                }
                None
            },
        }
    }
}

/// A background that was decoded is kept, and so are the newest of the others;
/// only the oldest can go, and only for one that is new.
pub proof fn law_newest_are_kept(kept: Seq<Seq<char>>, key: Seq<char>)
    requires
        kept.len() <= BACKGROUND_CACHE_LIMIT,
    ensures
        kept_with(kept, key).contains(key),
        kept_with(kept, key).len() <= BACKGROUND_CACHE_LIMIT,
        forall|i: int|
            0 < i < kept.len() ==> kept_with(kept, key).contains(#[trigger] kept[i]),
        kept.len() > 0 && !kept_with(kept, key).contains(kept[0]) ==> evicted(kept, key) == Some(
            kept[0],
        ),
{
    let now = kept_with(kept, key);
    if !kept.contains(key) {
        assert(now[now.len() - 1] == key);
        let d = kept.len() + 1 - now.len();
        assert forall|i: int| 0 < i < kept.len() implies now.contains(#[trigger] kept[i]) by {
            assert(now[i - d] == kept[i]);
        }
        if kept.len() > 0 && d == 0 {
            assert(now[0] == kept[0]);
        }
    }
}

// ---- neighbours ----

/// The background of a map: its folder and the name of the file.
#[derive(Debug)]
pub struct BackgroundRef {
    pub folder: FilePath,
    pub filename: String,
}

/// The first place of the list at which the map with a checksum stands, or the
/// length of the list.
pub open spec fn place_of_md5(
    listed: Seq<usize>,
    maps: Seq<LocalBeatmap>,
    md5: Seq<char>,
) -> nat
    decreases listed.len(),
{
    if listed.len() == 0 || (listed[0] < maps.len() && maps[listed[0] as int].md5@ == md5) {
        0
    } else {
        1 + place_of_md5(listed.drop_first(), maps, md5)
    }
}

/// A place, if the list has it.
pub open spec fn place_if(place: int, len: nat) -> Seq<int> {
    if 0 <= place < len {
        seq![place]
    } else {
        seq![]
    }
}

/// The places next to a place of a list, nearest first, the one behind before
/// the one in front.
pub open spec fn places_around(place: int, len: nat, radius: nat) -> Seq<int>
    decreases radius,
{
    if radius == 0 {
        seq![]
    } else {
        places_around(place, len, (radius - 1) as nat) + place_if(place + radius, len) + place_if(
            place - radius,
            len,
        )
    }
}

/// The backgrounds of the maps at places of a list, where they have one.
pub open spec fn backgrounds_at(
    places: Seq<int>,
    listed: Seq<usize>,
    maps: Seq<LocalBeatmap>,
) -> Seq<BackgroundRef>
    decreases places.len(),
{
    if places.len() == 0 {
        seq![]
    } else {
        let before = backgrounds_at(places.drop_last(), listed, maps);
        let place = listed[places.last()];
        if place < maps.len() && maps[place as int].background_filename is Some {
            before.push(
                BackgroundRef {
                    folder: maps[place as int].folder,
                    filename: maps[place as int].background_filename->Some_0,
                },
            )
        } else {
            before
        }
    }
}

/// The backgrounds around the map with a checksum, nearest first.
pub open spec fn neighbor_backgrounds(
    listed: Seq<usize>,
    maps: Seq<LocalBeatmap>,
    md5: Seq<char>,
) -> Seq<BackgroundRef> {
    let place = place_of_md5(listed, maps, md5);
    if place < listed.len() {
        backgrounds_at(
            places_around(place as int, listed.len(), BACKGROUND_PREFETCH_RADIUS as nat),
            listed,
            maps,
        )
    } else {
        seq![]
    }
}

proof fn lemma_backgrounds_at(
    places: Seq<int>,
    place: int,
    listed: Seq<usize>,
    maps: Seq<LocalBeatmap>,
)
    ensures
        backgrounds_at(places + place_if(place, listed.len()), listed, maps) == (if 0 <= place
            < listed.len() {
            backgrounds_at(places.push(place), listed, maps)
        } else {
            backgrounds_at(places, listed, maps)
        }),
{
    if 0 <= place < listed.len() {
        assert(places + place_if(place, listed.len()) =~= places.push(place));
    } else {
        assert(places + place_if(place, listed.len()) =~= places);
    }
}

fn add_background(
    r: &mut Vec<BackgroundRef>,
    listed: &Vec<usize>,
    maps: &Vec<LocalBeatmap>,
    place: usize,
    Ghost(places): Ghost<Seq<int>>,
)
    requires
        old(r)@ == backgrounds_at(places, listed@, maps@),
        place < listed@.len(),
    ensures
        final(r)@ == backgrounds_at(places.push(place as int), listed@, maps@),
{
    assert(places.push(place as int).drop_last() =~= places);
    let index: usize = listed[place];
    if index < maps.len() {
        if let Some(filename) = &maps[index].background_filename {
            r.push(
                BackgroundRef { folder: maps[index].folder.clone(), filename: filename.clone() },
            );
        }
    }
}

fn find_place(listed: &Vec<usize>, maps: &Vec<LocalBeatmap>, md5: &str) -> (k: usize)
    ensures
        k == place_of_md5(listed@, maps@, md5@),
        k <= listed@.len(),
{
    let mut k: usize = 0;
    assert(listed@.skip(0) =~= listed@);
    while k < listed.len()
        invariant
            k <= listed@.len(),
            place_of_md5(listed@, maps@, md5@) == k + place_of_md5(
                listed@.skip(k as int),
                maps@,
                md5@,
            ),
        decreases listed@.len() - k,
    {
        let index: usize = listed[k];
        assert(listed@.skip(k as int)[0] == index);
        if index < maps.len() && same_text(&maps[index].md5, md5) {
            return k;
        }
        assert(listed@.skip(k as int).drop_first() =~= listed@.skip(k as int + 1));
        k = k + 1;
    }
    assert(listed@.skip(k as int).len() == 0);
    k
}

/// The backgrounds around the map with a checksum, in a list of maps.
pub fn neighbor_background_paths(
    listed: &Vec<usize>,
    maps: &Vec<LocalBeatmap>,
    md5: &str,
) -> (r: Vec<BackgroundRef>)
    ensures
        r@ == neighbor_backgrounds(listed@, maps@, md5@),
{
    let mut r: Vec<BackgroundRef> = Vec::new();
    let position: usize = find_place(listed, maps, md5);
    let n: usize = listed.len();
    if position >= n {
        return r;
    }
    let mut distance: usize = 0;
    while distance < BACKGROUND_PREFETCH_RADIUS
        invariant
            distance <= BACKGROUND_PREFETCH_RADIUS,
            position < n,
            n == listed@.len(),
            r@ == backgrounds_at(
                places_around(position as int, n as nat, distance as nat),
                listed@,
                maps@,
            ),
        decreases BACKGROUND_PREFETCH_RADIUS - distance,
    {
        let ghost places = places_around(position as int, n as nat, distance as nat);
        distance = distance + 1;
        let ghost next = places + place_if(position + distance, n as nat);
        proof {
            lemma_backgrounds_at(places, position + distance, listed@, maps@);
            lemma_backgrounds_at(next, position - distance, listed@, maps@);
        }
        if distance < n - position {
            add_background(&mut r, listed, maps, position + distance, Ghost(places));
        }
        if distance <= position {
            add_background(&mut r, listed, maps, position - distance, Ghost(next));
        }
    }
    r
}

// ---- pixels ----

/// The size that previews are decoded for.
pub const BACKGROUND_PREVIEW_WIDTH: u16 = 1200;

pub const BACKGROUND_PREVIEW_HEIGHT: u16 = 675;

/// How the pixels of a JPEG file are stored.
#[derive(Clone, Copy, Debug, PartialEq, Eq, Structural)]
pub enum PixelKind {
    Grey8,
    Rgb24,
    Other,
}

/// Whether a JPEG file can be decoded at a reduced size right away.
pub fn decodes_fast(kind: PixelKind) -> (r: bool)
    ensures
        r == (kind == PixelKind::Grey8 || kind == PixelKind::Rgb24),
{
    kind == PixelKind::Grey8 || kind == PixelKind::Rgb24
}

/// Pixels in three colours out of pixels in grey: each value three times.
pub open spec fn grey_as_rgb(pixels: Seq<u8>) -> Seq<u8> {
    Seq::new(3 * pixels.len(), |i: int| pixels[i / 3])
}

/// Pixels in three colours, out of pixels in grey or in three colours.
pub fn rgb_pixels(kind: PixelKind, pixels: Vec<u8>) -> (r: Option<Vec<u8>>)
    ensures
        match kind {
            PixelKind::Rgb24 => r == Some(pixels),
            PixelKind::Grey8 => r is Some && r->0@ == grey_as_rgb(pixels@),
            PixelKind::Other => r is None,
        },
{
    match kind {
        PixelKind::Rgb24 => Some(pixels),
        PixelKind::Grey8 => {
            let mut r: Vec<u8> = Vec::new();
            let mut i: usize = 0;
            while i < pixels.len()
                invariant
                    i <= pixels@.len(),
                    r@ == grey_as_rgb(pixels@.take(i as int)),
                decreases pixels@.len() - i,
            {
                let ghost before = r@;
                let v: u8 = pixels[i];
                r.push(v);
                r.push(v);
                r.push(v);
                assert forall|k: int| 0 <= k < r@.len() implies r@[k] == grey_as_rgb(
                    pixels@.take(i as int + 1),
                )[k] by {
                    if k < before.len() {
                        assert(before[k] == pixels@[k / 3]);
                    } else {
                        assert(k / 3 == i as int);
                    }
                }
                assert(r@ =~= grey_as_rgb(pixels@.take(i as int + 1)));
                i = i + 1;
            }
            assert(pixels@.take(i as int) =~= pixels@);
            Some(r)
        },
        PixelKind::Other => None,
    }
}

// ---- what is decoded ahead of time ----

/// What is started was asked for, is neither kept nor being decoded already, and
/// no more is decoded at a time than four; where there is room left, nothing that
/// was asked for is left out.
pub proof fn law_started(
    kept: Seq<Seq<char>>,
    in_flight: Set<Seq<char>>,
    busy: nat,
    paths: Seq<FilePath>,
)
    requires
        busy <= 4,
    ensures
        busy + started(kept, in_flight, busy, paths).len() <= 4,
        forall|i: int|
            0 <= i < started(kept, in_flight, busy, paths).len() ==> {
                let p = #[trigger] started(kept, in_flight, busy, paths)[i];
                paths.contains(p) && !kept.contains(p.key@) && !in_flight.contains(p.key@)
            },
        busy + started(kept, in_flight, busy, paths).len() < 4 ==> forall|
            i: int,
        |
            0 <= i < paths.len() ==> kept.contains((#[trigger] paths[i]).key@)
                || in_flight.contains(paths[i].key@) || is_key(
                started(kept, in_flight, busy, paths),
                paths[i].key@,
            ),
    decreases paths.len(),
{
    if paths.len() > 0 {
        let init = paths.drop_last();
        law_started(kept, in_flight, busy, init);
        let before = started(kept, in_flight, busy, init);
        let now = started(kept, in_flight, busy, paths);
        assert forall|i: int| 0 <= i < now.len() implies {
            let p = #[trigger] now[i];
            paths.contains(p) && !kept.contains(p.key@) && !in_flight.contains(p.key@)
        } by {
            if i < before.len() {
                assert(now[i] == before[i]);
                assert(init.contains(before[i]));
                let j = choose|j: int| 0 <= j < init.len() && init[j] == before[i];
                assert(paths[j] == now[i]);
            } else {
                assert(paths[paths.len() - 1] == now[i]);
            }
        }
        if busy + now.len() < 4 {
            assert forall|i: int| 0 <= i < paths.len() implies kept.contains(
                (#[trigger] paths[i]).key@,
            ) || in_flight.contains(paths[i].key@) || is_key(now, paths[i].key@) by {
                if i < init.len() {
                    assert(init[i] == paths[i]);
                    if is_key(before, init[i].key@) {
                        let j = choose|j: int|
                            0 <= j < before.len() && (#[trigger] before[j]).key@ == init[i].key@;
                        assert(now[j].key@ == paths[i].key@);
                    }
                } else if now.len() > before.len() {
                    assert(now[before.len() as int].key@ == paths[i].key@);
                }
            }
        }
    }
}

/// The neighbours of a place are the places around it up to a distance, but not
/// the place itself, each that exists.
pub proof fn law_places_around(place: int, len: nat, radius: nat, p: int)
    requires
        0 <= place < len,
    ensures
        places_around(place, len, radius).contains(p) <==> 0 <= p < len && p != place && place
            - radius <= p <= place + radius,
    decreases radius,
{
    if radius > 0 {
        law_places_around(place, len, (radius - 1) as nat, p);
        let before = places_around(place, len, (radius - 1) as nat);
        let up = place_if(place + radius, len);
        let down = place_if(place - radius, len);
        let all = before + up + down;
        if before.contains(p) {
            let i = choose|i: int| 0 <= i < before.len() && before[i] == p;
            assert(all[i] == p);
        }
        if up.len() > 0 {
            assert(all[before.len() as int] == place + radius);
        }
        if down.len() > 0 {
            assert(all[(before.len() + up.len()) as int] == place - radius);
        }
        if all.contains(p) {
            let i = choose|i: int| 0 <= i < all.len() && all[i] == p;
            if i < before.len() {
                assert(before[i] == p);
            } else if i < before.len() + up.len() {
                assert(all[i] == up[i - before.len()]);
            } else {
                assert(all[i] == down[i - before.len() - up.len()]);
            }
        }
    }
}

/// Nearer neighbours come first.
pub proof fn law_nearest_first(place: int, len: nat, radius: nat, i: int, j: int)
    requires
        0 <= place < len,
        0 <= i < j < places_around(place, len, radius).len(),
    ensures
        ({
            let a = places_around(place, len, radius)[i];
            let b = places_around(place, len, radius)[j];
            let da = if a > place { a - place } else { place - a };
            let db = if b > place { b - place } else { place - b };
            1 <= da <= db <= radius
        }),
    decreases radius,
{
    if radius > 0 {
        let before = places_around(place, len, (radius - 1) as nat);
        let up = place_if(place + radius, len);
        let down = place_if(place - radius, len);
        if j < before.len() {
            law_nearest_first(place, len, (radius - 1) as nat, i, j);
        } else if i < before.len() {
            assert(before.contains(before[i]));
            law_places_around(place, len, (radius - 1) as nat, before[i]);
        }
    }
}

/// The place of a map in a list is the first one at which a map with its checksum
/// stands.
pub proof fn law_place_of_map(
    listed: Seq<usize>,
    maps: Seq<LocalBeatmap>,
    md5: Seq<char>,
    i: int,
)
    requires
        0 <= i <= listed.len(),
        i < listed.len() ==> listed[i] < maps.len() && maps[listed[i] as int].md5@ == md5,
        forall|j: int|
            0 <= j < i ==> !((#[trigger] listed[j]) < maps.len() && maps[listed[j] as int].md5@
                == md5),
    ensures
        place_of_md5(listed, maps, md5) == i,
    decreases listed.len(),
{
    if i > 0 {
        let t = listed.drop_first();
        assert(!(listed[0] < maps.len() && maps[listed[0] as int].md5@ == md5));
        assert forall|j: int| 0 <= j < i - 1 implies !((#[trigger] t[j]) < maps.len()
            && maps[t[j] as int].md5@ == md5) by {
            assert(t[j] == listed[j + 1]);
        }
        law_place_of_map(t, maps, md5, i - 1);
    }
}

/// Of each place the map that is listed there gives its background, if it has
/// one.
pub proof fn law_backgrounds_at(
    places: Seq<int>,
    p: int,
    listed: Seq<usize>,
    maps: Seq<LocalBeatmap>,
)
    requires
        0 <= p < listed.len(),
        listed[p] < maps.len(),
    ensures
        maps[listed[p] as int].background_filename is None ==> backgrounds_at(
            places.push(p),
            listed,
            maps,
        ) == backgrounds_at(places, listed, maps),
        maps[listed[p] as int].background_filename is Some ==> backgrounds_at(
            places.push(p),
            listed,
            maps,
        ) == backgrounds_at(places, listed, maps).push(
            BackgroundRef {
                folder: maps[listed[p] as int].folder,
                filename: maps[listed[p] as int].background_filename->0,
            },
        ),
        backgrounds_at(seq![], listed, maps) == Seq::<BackgroundRef>::empty(),
{
    assert(places.push(p).drop_last() =~= places);
}

/// A grey pixel becomes three equal bytes.
pub proof fn law_grey_pixels(pixels: Seq<u8>, i: int)
    requires
        0 <= i < pixels.len(),
    ensures
        grey_as_rgb(pixels).len() == 3 * pixels.len(),
        grey_as_rgb(pixels)[3 * i] == pixels[i],
        grey_as_rgb(pixels)[3 * i + 1] == pixels[i],
        grey_as_rgb(pixels)[3 * i + 2] == pixels[i],
{
}

/// A background that is shown stays; one that is kept is shown at once; else it is
/// decoded, unless it is being decoded already or four others are.
pub proof fn law_previews(state: BackgroundState, key: Seq<char>)
    ensures
        state.preview_path is Some && state.preview_path->0.key@ == key <==> state.step_for(key)
            == PreviewStep::Unchanged,
        state.step_for(key) == PreviewStep::Show ==> texts(state.kept@).contains(key),
        state.step_for(key) == PreviewStep::Decode ==> !texts(state.kept@).contains(key)
            && !state.in_flight@.contains(key) && state.in_flight.items@.len() < 4,
        state.step_for(key) == PreviewStep::Wait ==> state.in_flight@.contains(key)
            || state.in_flight.items@.len() >= 4,
        texts(state.kept@).contains(key) ==> state.step_for(key) == PreviewStep::Show
            || state.step_for(key) == PreviewStep::Unchanged,
{
}

/// At most 24 backgrounds are kept: only where so many are, the oldest one goes for
/// a new one, and it goes for no other reason.
pub proof fn law_room_for_backgrounds(kept: Seq<Seq<char>>, key: Seq<char>)
    ensures
        kept.len() < 24 && !kept.contains(key) ==> kept_with(kept, key) == kept.push(key) && evicted(
            kept,
            key,
        ) is None,
        kept.contains(key) ==> kept_with(kept, key) == kept && evicted(kept, key) is None,
        kept.len() == 24 && !kept.contains(key) ==> kept_with(kept, key).len() == 24 && evicted(
            kept,
            key,
        ) == Some(kept[0]),
{
}

/// The neighbours of a map in the list are looked for up to three places away.
pub proof fn law_neighbors(
    listed: Seq<usize>,
    maps: Seq<LocalBeatmap>,
    md5: Seq<char>,
    i: int,
)
    requires
        0 <= i <= listed.len(),
        i < listed.len() ==> listed[i] < maps.len() && maps[listed[i] as int].md5@ == md5,
        forall|j: int|
            0 <= j < i ==> !((#[trigger] listed[j]) < maps.len() && maps[listed[j] as int].md5@
                == md5),
    ensures
        i < listed.len() ==> neighbor_backgrounds(listed, maps, md5) == backgrounds_at(
            places_around(i, listed.len(), 3),
            listed,
            maps,
        ),
        i == listed.len() ==> neighbor_backgrounds(listed, maps, md5).len() == 0,
{
    law_place_of_map(listed, maps, md5, i);
}

} // verus!
