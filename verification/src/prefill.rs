//! Paths as they stand in the input fields, and what is kept beside the
//! library.
#[allow(unused_imports)]
use crate::local::opt_text;
use crate::local::LibraryScan;
use crate::text::{
    after_prefix, chars_of, join2, strip_end, strip_start, text_between, trim, CharClass,
};
#[allow(unused_imports)]
use crate::text::{
    has_prefix, last_separator, lemma_last_of, lemma_last_of_meaning, strip_back, strip_front,
    trim_text,
};
use vstd::prelude::*;
use vstd::string::*;

verus! {

/// The version of the file that keeps a scan.
pub const SCAN_CACHE_VERSION: u32 = 4;

/// The folder, below the root, that the program keeps its files in.
pub const APP_DATA_DIR: &'static str = ".osu-map-manager";

/// The file that keeps the last scan.
pub const SCAN_CACHE_FILE: &'static str = "scan_cache.json";

/// The file that keeps the issues to be ignored.
pub const REPAIR_IGNORE_FILE: &'static str = "repair_ignores.json";

/// The file that the selection is exported to.
pub const MANIFEST_FILE: &'static str = "selected_maps.tsv";

/// A path as it was typed in: below the folder of the user, or anywhere.
#[derive(Debug)]
pub enum TypedPath {
    /// Below the folder of the user.
    BelowProfile(String),
    /// The path itself.
    Plain(String),
}

/// The view of a [`TypedPath`].
#[verifier::ext_equal]
pub enum TypedView {
    BelowProfile(Seq<char>),
    Plain(Seq<char>),
}

impl View for TypedPath {
    type V = TypedView;

    open spec fn view(&self) -> TypedView {
        match *self {
            TypedPath::BelowProfile(s) => TypedView::BelowProfile(s@),
            TypedPath::Plain(s) => TypedView::Plain(s@),
        }
    }
}

/// What stands for the folder of the user.
pub open spec fn profile_mark() -> Seq<char> {
    "%USERPROFILE%"@
}

/// What a path that was typed in means, where the folder of the user is known
/// or not.
pub open spec fn typed(path: Seq<char>, profile_known: bool) -> TypedView {
    let t = trim_text(path);
    if profile_known && has_prefix(t, profile_mark()) {
        TypedView::BelowProfile(
            strip_front(t.skip(profile_mark().len() as int), CharClass::Slash),
        )
    } else {
        TypedView::Plain(t)
    }
}

/// What a path that was typed in means.
pub fn expand_prefilled_path(path: &str, profile_known: bool) -> (r: TypedPath)
    ensures
        r@ == typed(path@, profile_known),
{
    let t = trim(path);
    if profile_known {
        if let Some(suffix) = after_prefix(&t, "%USERPROFILE%") {
            return TypedPath::BelowProfile(strip_start(&suffix, CharClass::Slash));
        }
    }
    TypedPath::Plain(t)
}

/// The text of a path for an input field, where `suffix` is what stands behind
/// the folder of the user, if the path lies below it.
pub open spec fn shown_path(suffix: Option<Seq<char>>, whole: Seq<char>) -> Seq<char> {
    match suffix {
        Some(s) => if s.len() == 0 {
            profile_mark()
        } else {
            "%USERPROFILE%\\"@ + s
        },
        None => whole,
    }
}

/// The text of a path for an input field.
pub fn display_prefilled_path(suffix: Option<&str>, whole: &str) -> (r: String)
    ensures
        r@ == shown_path(
            match suffix {
                Some(s) => Some(s@),
                None => None,
            },
            whole@,
        ),
{
    match suffix {
        Some(s) => if chars_of(s).len() == 0 {
            "%USERPROFILE%".to_owned()
        } else {
            join2("%USERPROFILE%\\", s)
        },
        None => whole.to_owned(),
    }
}

/// A path below the folder of the user that is put into an input field is read
/// back, unless it begins with a slash or ends with white space.
pub proof fn law_prefilled_path_round_trip(suffix: Seq<char>, whole: Seq<char>)
    requires
        suffix.len() > 0 ==> suffix[0] != '\\' && suffix[0] != '/' && !crate::text::is_space(
            suffix.last(),
        ),
    ensures
        typed(shown_path(Some(suffix), whole), true) == TypedView::BelowProfile(suffix),
{
    reveal_strlit("%USERPROFILE%");
    reveal_strlit("%USERPROFILE%\\");
    let shown = shown_path(Some(suffix), whole);
    let mark = profile_mark();
    assert(shown[0] == '%');
    assert(trim_text(shown) == shown) by {
        assert(strip_front(shown, CharClass::Space) == shown);
        if suffix.len() == 0 {
            assert(shown.last() == '%');
        } else {
            assert(shown.last() == suffix.last());
        }
    }
    assert(shown.take(mark.len() as int) =~= mark);
    let rest = shown.skip(mark.len() as int);
    if suffix.len() == 0 {
        assert(rest =~= suffix);
    } else {
        assert(rest[0] == '\\');
        assert(rest.drop_first() =~= suffix);
        assert(strip_front(rest, CharClass::Slash) == strip_front(suffix, CharClass::Slash));
    }
}

/// The folder of the songs below a root, as it stands in the input field.
pub fn songs_below(osu_root: &str) -> (r: String)
    ensures
        r@ == (if osu_root@.len() == 0 {
            Seq::<char>::empty()
        } else {
            osu_root@ + "\\Songs"@
        }),
{
    if chars_of(osu_root).len() == 0 {
        String::new()
    } else {
        join2(osu_root, "\\Songs")
    }
}

/// The folder that a path leads into the last part of: what stands before the
/// last separator, where those at the end of the path do not count. Of a drive or
/// the topmost folder the separator stays.
pub open spec fn folder_above(path: Seq<char>) -> Option<Seq<char>> {
    let t = strip_back(trim_text(path), CharClass::Slash);
    let k = last_separator(t);
    let above = strip_back(t.take(k), CharClass::Slash);
    if k < 0 {
        None
    } else if above.len() == 0 || above.last() == ':' {
        Some(t.take(k + 1))
    } else {
        Some(above)
    }
}

/// The root that the folder of the songs lies in.
pub fn root_of_songs(songs_dir: &str) -> (r: Option<String>)
    ensures
        opt_text(r) == folder_above(songs_dir@),
{
    let t = strip_end(&trim(songs_dir), CharClass::Slash);
    let cs = chars_of(&t);
    let mut k: usize = cs.len();
    while k > 0 && cs[k - 1] != '/' && cs[k - 1] != '\\'
        invariant
            k <= cs@.len(),
            forall|i: int| k <= i < cs@.len() ==> cs@[i] != '/' && cs@[i] != '\\',
        decreases k,
    {
        k = k - 1;
    }
    proof {
        lemma_last_of_meaning(cs@, '/');
        lemma_last_of_meaning(cs@, '\\');
        assert(last_separator(cs@) == k - 1);
    }
    if k == 0 {
        return None;
    }
    proof {
        assert(cs@.take(k - 1) =~= cs@.subrange(0, k - 1));
        assert(cs@.take(k as int) =~= cs@.subrange(0, k as int));
    }
    let above = strip_end(&text_between(&cs, 0, k - 1), CharClass::Slash);
    let letters = chars_of(&above);
    if letters.len() == 0 || letters[letters.len() - 1] == ':' {
        Some(text_between(&cs, 0, k))
    } else {
        Some(above)
    }
}

/// The root to work with: the one that was typed in or, without one, that of
/// the songs.
pub open spec fn root_to_use(osu_root: Seq<char>, songs_dir: Seq<char>) -> Option<Seq<char>> {
    if trim_text(osu_root).len() > 0 {
        Some(osu_root)
    } else {
        folder_above(songs_dir)
    }
}

/// The root to work with.
pub fn root_in_use(osu_root: &str, songs_dir: &str) -> (r: Option<String>)
    ensures
        opt_text(r) == root_to_use(osu_root@, songs_dir@),
{
    if has_root(osu_root) {
        Some(osu_root.to_owned())
    } else {
        root_of_songs(songs_dir)
    }
}

/// The root of the folder of the songs below a root is that root, unless it
/// begins with white space or ends with a separator or the colon of a drive.
pub proof fn law_root_of_songs(root: Seq<char>)
    requires
        root.len() > 0,
        !crate::text::is_space(root[0]),
        root.last() != '\\' && root.last() != '/' && root.last() != ':',
    ensures
        folder_above(root + "\\Songs"@) == Some(root),
        root_to_use(Seq::empty(), root + "\\Songs"@) == Some(root),
{
    reveal_strlit("\\Songs");
    let songs = root + "\\Songs"@;
    assert(songs[0] == root[0]);
    assert(songs.last() == 's');
    assert(trim_text(songs) == songs);
    assert(strip_back(songs, CharClass::Slash) == songs);
    let n = root.len() as int;
    assert(songs[n] == '\\' && songs[n + 1] == 'S' && songs[n + 2] == 'o' && songs[n + 3] == 'n'
        && songs[n + 4] == 'g' && songs[n + 5] == 's');
    lemma_last_of(songs, '\\', n);
    lemma_last_of_meaning(songs, '/');
    assert(last_separator(songs) == n);
    assert(songs.take(n) =~= root);
    assert(strip_back(root, CharClass::Slash) == root);
    assert(trim_text(Seq::empty()).len() == 0);
}

/// Whether a root was typed in.
pub fn has_root(osu_root: &str) -> (r: bool)
    ensures
        r == (trim_text(osu_root@).len() > 0),
{
    chars_of(&trim(osu_root)).len() > 0
}

/// The scan that a file keeps, if the file is of the version in use.
pub fn usable_scan(version: u32, scan: LibraryScan) -> (r: Option<LibraryScan>)
    ensures
        r == (if version == SCAN_CACHE_VERSION {
            Some(scan)
        } else {
            None
        }),
{
    if version == SCAN_CACHE_VERSION {
        Some(scan)
    } else {
        None
    }
}

/// Where the folder of the user is not known, or a path does not begin with its
/// mark, the path is what was typed in, without white space around it.
pub proof fn law_typed_paths(path: Seq<char>)
    requires
        path.len() > 0,
        !crate::text::is_space(path[0]) && !crate::text::is_space(path.last()),
    ensures
        typed(path, false) == TypedView::Plain(path),
        path[0] != '%' ==> typed(path, true) == TypedView::Plain(path),
{
    reveal_strlit("%USERPROFILE%");
    assert(trim_text(path) == path);
    if has_prefix(path, profile_mark()) {
        assert(path.take(profile_mark().len() as int)[0] == path[0]);
    }
}

/// A root that was typed in is used as it is; only without one the songs decide.
pub proof fn law_typed_root_counts(osu_root: Seq<char>, songs_dir: Seq<char>)
    ensures
        trim_text(osu_root).len() > 0 ==> root_to_use(osu_root, songs_dir) == Some(osu_root),
        trim_text(osu_root).len() == 0 ==> root_to_use(osu_root, songs_dir) == folder_above(
            songs_dir,
        ),
{
}

/// A folder that lies at the top of a drive, or at the very top, has the drive or
/// the top for its root, with the separator; what is no path has no root.
pub proof fn law_topmost_roots(drive: char, name: Seq<char>)
    requires
        name.len() > 0,
        !name.contains('/') && !name.contains('\\'),
        !crate::text::is_space(name[0]) && !crate::text::is_space(name.last()),
        !crate::text::is_space(drive) && drive != '/' && drive != '\\',
    ensures
        folder_above(seq![drive, ':', '\\'] + name) == Some(seq![drive, ':', '\\']),
        folder_above(seq!['/'] + name) == Some(seq!['/']),
        folder_above(name) is None,
{
    lemma_folder_above(seq![drive, ':'], '\\', name);
    assert(seq![drive, ':'] + seq!['\\'] + name =~= seq![drive, ':', '\\'] + name);
    assert(seq![drive, ':'] + seq!['\\'] =~= seq![drive, ':', '\\']);
    lemma_folder_above(seq![], '/', name);
    assert(Seq::<char>::empty() + seq!['/'] + name =~= seq!['/'] + name);
    assert(Seq::<char>::empty() + seq!['/'] =~= seq!['/']);
    assert(name.last() != '/' && name.last() != '\\') by {
        assert(name.contains(name[name.len() - 1]));
    }
    assert(trim_text(name) == name);
    assert(strip_back(name, CharClass::Slash) == name);
    assert forall|i: int| 0 <= i < name.len() implies name[i] != '/' && name[i] != '\\' by {
        assert(name.contains(name[i]));
    }
    lemma_last_of(name, '/', -1);
    lemma_last_of(name, '\\', -1);
}

proof fn lemma_folder_above(front: Seq<char>, sep: char, name: Seq<char>)
    requires
        sep == '/' || sep == '\\',
        name.len() > 0,
        !name.contains('/') && !name.contains('\\'),
        !crate::text::is_space(name[0]) && !crate::text::is_space(name.last()),
        front.len() > 0 ==> !crate::text::is_space(front[0]) && front.last() != '/' && front.last()
            != '\\',
    ensures
        folder_above(front + seq![sep] + name) == Some(
            if front.len() == 0 || front.last() == ':' {
                front + seq![sep]
            } else {
                front
            },
        ),
{
    let s = front + seq![sep] + name;
    let k = front.len() as int;
    assert forall|i: int| k < i < s.len() implies s[i] != '/' && s[i] != '\\' by {
        assert(s[i] == name[i - k - 1]);
        assert(name.contains(name[i - k - 1]));
    }
    assert(s.last() == name.last());
    assert(s[s.len() - 1] == s.last());
    assert(s[0] == (if k > 0 {
        front[0]
    } else {
        sep
    }));
    assert(trim_text(s) == s);
    assert(strip_back(s, CharClass::Slash) == s);
    lemma_last_of_meaning(s, '/');
    lemma_last_of_meaning(s, '\\');
    assert(s[k] == sep);
    lemma_last_of(s, sep, k);
    assert(last_separator(s) == k);
    assert(s.take(k) =~= front);
    assert(s.take(k + 1) =~= front + seq![sep]);
    assert(strip_back(front, CharClass::Slash) == front);
}

} // verus!
