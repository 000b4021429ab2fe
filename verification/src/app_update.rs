//! Newer releases of the application itself.
use crate::number::parse_unsigned;
#[allow(unused_imports)]
use crate::number::parse_nat;
use crate::text::{
    chars_of, contains_char, ends_with, join2, same_ignoring_case, same_text, split_on,
    text_between, trim,
};
#[allow(unused_imports)]
use crate::text::{has_suffix, lower_text, split_text, texts, trim_text};
use vstd::prelude::*;
use vstd::string::*;

verus! {

/// The version of this application.
pub const APP_VERSION: &'static str = "0.1.0";

/// The owner of the repository.
pub const GITHUB_OWNER: &'static str = "feelvm";

/// The name of the repository.
pub const GITHUB_REPO: &'static str = "osu-map-manager";

/// The archive that a release is expected to hold.
pub const RELEASE_ASSET_ZIP: &'static str = "osu-map-manager-windows-x86_64.zip";

/// The program that the archive is expected to hold.
pub const RELEASE_EXE_NAME: &'static str = "osu-map-manager.exe";

/// The largest download of a release.
pub const MAX_RELEASE_DOWNLOAD_BYTES: u64 = 500_000_000;

/// A release that can be installed.
#[derive(Debug)]
pub struct AppRelease {
    pub tag: String,
    pub notes: String,
    pub asset_url: String,
    pub asset_name: String,
}

/// A file of a release.
#[derive(Debug)]
pub struct GithubAsset {
    pub name: String,
    pub browser_download_url: String,
}

/// A release, as it is described online.
#[derive(Debug)]
pub struct GithubRelease {
    pub tag_name: String,
    pub body: Option<String>,
    pub assets: Vec<GithubAsset>,
}

/// The version of this application, as a tag.
pub fn current_version_text() -> (r: String)
    ensures
        r@ == "v"@ + APP_VERSION@,
{
    join2("v", APP_VERSION)
}

/// A tag without white space around it and without a `v` in front.
pub open spec fn plain_tag(tag: Seq<char>) -> Seq<char> {
    let t = trim_text(tag);
    if t.len() > 0 && (t[0] == 'v' || t[0] == 'V') {
        t.drop_first()
    } else {
        t
    }
}

/// A tag without white space around it and without a `v` in front.
pub fn normalize_tag(tag: &str) -> (r: String)
    ensures
        r@ == plain_tag(tag@),
{
    let t = trim(tag);
    let cs = chars_of(&t);
    if cs.len() > 0 && (cs[0] == 'v' || cs[0] == 'V') {
        assert(cs@.subrange(1, cs@.len() as int) =~= cs@.drop_first());
        text_between(&cs, 1, cs.len())
    } else {
        t
    }
}

/// What stands before the first hyphen or plus sign.
pub open spec fn version_core(s: Seq<char>) -> Seq<char>
    decreases s.len(),
{
    if s.len() == 0 || s[0] == '-' || s[0] == '+' {
        seq![]
    } else {
        seq![s[0]] + version_core(s.drop_first())
    }
}

/// The numbers that the parts of a version write, if all write one.
pub open spec fn numbers_of(parts: Seq<Seq<char>>) -> Option<Seq<u64>>
    decreases parts.len(),
{
    if parts.len() == 0 {
        Some(seq![])
    } else {
        match (numbers_of(parts.drop_last()), parse_nat(trim_text(parts.last()), u64::MAX as nat)) {
            (Some(rest), Some(n)) => Some(rest.push(n as u64)),
            _ => None,
        }
    }
}

/// The numbers of a version tag up to a hyphen or a plus sign, if they are
/// numbers.
pub open spec fn version_parts(tag: Seq<char>) -> Option<Seq<u64>> {
    let core = version_core(plain_tag(tag));
    if core.len() == 0 {
        None
    } else {
        numbers_of(split_text(core, '.'))
    }
}

/// Whether the version `a` comes after the version `b`: at the first number
/// that differs it has the greater one, or it goes on where `b` ends.
pub open spec fn numbers_after(a: Seq<u64>, b: Seq<u64>) -> bool
    decreases a.len(),
{
    if a.len() == 0 {
        false
    } else if b.len() == 0 {
        true
    } else if a[0] == b[0] {
        numbers_after(a.drop_first(), b.drop_first())
    } else {
        a[0] > b[0]
    }
}

/// Whether a tag goes on behind its numbers.
pub open spec fn is_suffixed(tag: Seq<char>) -> bool {
    plain_tag(tag).contains('-') || plain_tag(tag).contains('+')
}

/// The numbers of a version tag that is made of numbers and nothing else.
pub open spec fn numeric_parts(tag: Seq<char>) -> Option<Seq<u64>> {
    if is_suffixed(tag) {
        None
    } else {
        version_parts(tag)
    }
}

/// Whether a tag is that of a newer version: its numbers come after the others
/// or, where one of the tags holds more than numbers, the tags differ.
pub open spec fn newer(latest: Seq<char>, current: Seq<char>) -> bool {
    match (numeric_parts(latest), numeric_parts(current)) {
        (Some(a), Some(b)) => numbers_after(a, b),
        _ => plain_tag(latest) != plain_tag(current),
    }
}

proof fn lemma_version_core(s: Seq<char>, k: int)
    requires
        0 <= k <= s.len(),
        forall|i: int| 0 <= i < k ==> s[i] != '-' && s[i] != '+',
        k == s.len() || s[k] == '-' || s[k] == '+',
    ensures
        version_core(s) == s.take(k),
    decreases k,
{
    if k > 0 {
        let t = s.drop_first();
        assert forall|i: int| 0 <= i < k - 1 implies t[i] != '-' && t[i] != '+' by {
            assert(t[i] == s[i + 1]);
        }
        lemma_version_core(t, k - 1);
        assert(seq![s[0]] + t.take(k - 1) =~= s.take(k));
    } else {
        assert(s.take(0) =~= seq![]);
    }
}

/// The numbers of a version tag up to a hyphen or a plus sign, if they are
/// numbers.
pub fn parse_version_parts(tag: &str) -> (r: Option<Vec<u64>>)
    ensures
        match r {
            Some(v) => version_parts(tag@) == Some(v@),
            None => version_parts(tag@) is None,
        },
{
    let cs = chars_of(&normalize_tag(tag));
    let mut k: usize = 0;
    while k < cs.len() && cs[k] != '-' && cs[k] != '+'
        invariant
            k <= cs@.len(),
            forall|i: int| 0 <= i < k ==> cs@[i] != '-' && cs@[i] != '+',
        decreases cs@.len() - k,
    {
        k = k + 1;
    }
    proof {
        lemma_version_core(cs@, k as int);
        assert(cs@.subrange(0, k as int) =~= cs@.take(k as int));
    }
    if k == 0 {
        return None;
    }
    let core = text_between(&cs, 0, k);
    let parts = split_on(&core, '.');
    let ghost all = texts(parts@);
    let mut numbers: Vec<u64> = Vec::new();
    let mut i: usize = 0;
    assert(all.take(0) =~= seq![]);
    while i < parts.len()
        invariant
            i <= parts@.len(),
            all == texts(parts@),
            core@.len() > 0,
            all == split_text(core@, '.'),
            core@ == version_core(plain_tag(tag@)),
            numbers_of(all.take(i as int)) == Some(numbers@),
        decreases parts@.len() - i,
    {
        proof {
            assert(all.take(i as int + 1).drop_last() =~= all.take(i as int));
            assert(all.take(i as int + 1).last() == parts@[i as int]@);
        }
        match parse_unsigned(&trim(&parts[i]), u64::MAX) {
            Some(n) => {
                numbers.push(n);
            },
            None => {
                proof {
                    lemma_numbers_none(all, i as int + 1);
                }
                return None;
            },
        }
        i = i + 1;
    }
    assert(all.take(i as int) =~= all);
    Some(numbers)
}

/// A part that writes no number spoils the whole.
proof fn lemma_numbers_none(parts: Seq<Seq<char>>, k: int)
    requires
        0 <= k <= parts.len(),
        numbers_of(parts.take(k)) is None,
    ensures
        numbers_of(parts) is None,
    decreases parts.len() - k,
{
    if k < parts.len() {
        assert(parts.take(k + 1).drop_last() =~= parts.take(k));
        lemma_numbers_none(parts, k + 1);
    } else {
        assert(parts.take(k) =~= parts);
    }
}

/// Whether the version `a` comes after the version `b`.
fn comes_after(a: &Vec<u64>, b: &Vec<u64>) -> (r: bool)
    ensures
        r == numbers_after(a@, b@),
{
    let mut i: usize = 0;
    assert(a@.skip(0) =~= a@ && b@.skip(0) =~= b@);
    while i < a.len() && i < b.len() && a[i] == b[i]
        invariant
            i <= a@.len(),
            i <= b@.len(),
            numbers_after(a@.skip(i as int), b@.skip(i as int)) == numbers_after(a@, b@),
        decreases a@.len() - i,
    {
        assert(a@.skip(i as int).drop_first() =~= a@.skip(i as int + 1));
        assert(b@.skip(i as int).drop_first() =~= b@.skip(i as int + 1));
        i = i + 1;
    }
    if i >= a.len() {
        false
    } else if i >= b.len() {
        true
    } else {
        a[i] > b[i]
    }
}

/// Whether a tag is that of a newer version.
pub fn is_newer_version(latest_tag: &str, current: &str) -> (r: bool)
    ensures
        r == newer(latest_tag@, current@),
{
    let latest = normalize_tag(latest_tag);
    let known = normalize_tag(current);
    if contains_char(&latest, '-') || contains_char(&latest, '+') || contains_char(&known, '-')
        || contains_char(&known, '+') {
        return !same_text(&latest, &known);
    }
    match (parse_version_parts(latest_tag), parse_version_parts(current)) {
        (Some(a), Some(b)) => comes_after(&a, &b),
        _ => !same_text(&latest, &known),
    }
}

proof fn lemma_numbers_after(a: Seq<u64>, b: Seq<u64>, c: Seq<u64>)
    ensures
        !numbers_after(a, a),
        !(numbers_after(a, b) && numbers_after(b, a)),
        a != b ==> numbers_after(a, b) || numbers_after(b, a),
        numbers_after(a, b) && numbers_after(b, c) ==> numbers_after(a, c),
    decreases a.len(),
{
    if a.len() > 0 {
        lemma_numbers_after(
            a.drop_first(),
            if b.len() > 0 {
                b.drop_first()
            } else {
                b
            },
            if c.len() > 0 {
                c.drop_first()
            } else {
                c
            },
        );
        if b.len() > 0 && a[0] == b[0] && a.drop_first() == b.drop_first() {
            assert(a =~= seq![a[0]] + a.drop_first());
            assert(b =~= seq![b[0]] + b.drop_first());
            assert(a == b);
        }
    } else if b.len() == 0 {
        assert(a =~= b);
    }
}

/// No version is newer than itself, and of two versions made of numbers alone
/// at most one is newer than the other: never both, and neither only where
/// their numbers are the same. Newer than newer is newer.
pub proof fn law_newer_is_an_order(a: Seq<char>, b: Seq<char>, c: Seq<char>)
    ensures
        !newer(a, a),
        numeric_parts(a) is Some && numeric_parts(b) is Some ==> !(newer(a, b) && newer(b, a)) && (
        newer(a, b) || newer(b, a) || numeric_parts(a) == numeric_parts(b)),
        numeric_parts(a) is Some && numeric_parts(b) is Some && numeric_parts(c) is Some && newer(
            a,
            b,
        ) && newer(b, c) ==> newer(a, c),
{
    if numeric_parts(a) is Some {
        let x = numeric_parts(a)->0;
        lemma_numbers_after(x, x, x);
        if numeric_parts(b) is Some {
            let y = numeric_parts(b)->0;
            lemma_numbers_after(x, y, y);
            if numeric_parts(c) is Some {
                lemma_numbers_after(x, y, numeric_parts(c)->0);
            }
        }
    }
}

/// A tag that holds more than numbers always surfaces: it counts as newer than
/// every tag but itself, and every other tag as newer than it.
pub proof fn law_odd_tags_surface(odd: Seq<char>, other: Seq<char>)
    requires
        numeric_parts(odd) is None,
    ensures
        newer(odd, other) == (plain_tag(odd) != plain_tag(other)),
        newer(other, odd) == (plain_tag(odd) != plain_tag(other)),
{
}

/// The position of the first file whose name passes, or the number of files.
pub open spec fn first_asset(assets: Seq<GithubAsset>, wanted: AssetName) -> nat
    decreases assets.len(),
{
    if assets.len() == 0 || asset_named(assets[0].name@, wanted) {
        0
    } else {
        1 + first_asset(assets.drop_first(), wanted)
    }
}

/// Which name a file must have.
#[derive(Clone, Copy, Debug, PartialEq, Eq, Structural)]
pub enum AssetName {
    /// The expected name.
    Expected,
    AnyZip,
    AnyExe,
}

/// Whether a name is the wanted one.
pub open spec fn asset_named(name: Seq<char>, wanted: AssetName) -> bool {
    match wanted {
        AssetName::Expected => name == RELEASE_ASSET_ZIP@,
        AssetName::AnyZip => has_suffix(name, ".zip"@),
        AssetName::AnyExe => has_suffix(name, ".exe"@),
    }
}

/// The position of the file to install: the expected archive, or else the first
/// archive, or else the first program; the number of files where there is none.
pub open spec fn chosen_asset(assets: Seq<GithubAsset>) -> nat {
    let expected = first_asset(assets, AssetName::Expected);
    let zip = first_asset(assets, AssetName::AnyZip);
    let exe = first_asset(assets, AssetName::AnyExe);
    if expected < assets.len() {
        expected
    } else if zip < assets.len() {
        zip
    } else {
        exe
    }
}

fn is_named(name: &str, wanted: AssetName) -> (r: bool)
    ensures
        r == asset_named(name@, wanted),
{
    match wanted {
        AssetName::Expected => same_text(name, RELEASE_ASSET_ZIP),
        AssetName::AnyZip => ends_with(name, ".zip"),
        AssetName::AnyExe => ends_with(name, ".exe"),
    }
}

fn find_asset(assets: &Vec<GithubAsset>, wanted: AssetName) -> (k: usize)
    ensures
        k == first_asset(assets@, wanted),
        k <= assets@.len(),
{
    let mut k: usize = 0;
    assert(assets@.skip(0) =~= assets@);
    while k < assets.len()
        invariant
            k <= assets@.len(),
            first_asset(assets@, wanted) == k + first_asset(assets@.skip(k as int), wanted),
        decreases assets@.len() - k,
    {
        assert(assets@.skip(k as int).drop_first() =~= assets@.skip(k as int + 1));
        if is_named(&assets[k].name, wanted) {
            return k;
        }
        k = k + 1;
    }
    k
}

/// The release to install, if it has a tag, a file to install and an address
/// for it.
pub fn select_release_asset(release: &GithubRelease) -> (r: Option<AppRelease>)
    ensures
        ({
            let k = chosen_asset(release.assets@) as int;
            let found = trim_text(release.tag_name@).len() > 0 && k < release.assets@.len()
                && trim_text(release.assets@[k].browser_download_url@).len() > 0;
            &&& r is Some <==> found
            &&& r is Some ==> {
                &&& r->0.tag == release.tag_name
                &&& r->0.notes@ == (match release.body {
                    Some(b) => b@,
                    None => ""@,
                })
                &&& r->0.asset_url == release.assets@[k].browser_download_url
                &&& r->0.asset_name == release.assets@[k].name
            }
        }),
{
    if chars_of(&trim(&release.tag_name)).len() == 0 {
        return None;
    }
    let mut k: usize = find_asset(&release.assets, AssetName::Expected);
    if k >= release.assets.len() {
        k = find_asset(&release.assets, AssetName::AnyZip);
    }
    if k >= release.assets.len() {
        k = find_asset(&release.assets, AssetName::AnyExe);
    }
    if k >= release.assets.len() {
        return None;
    }
    let asset = &release.assets[k];
    if chars_of(&trim(&asset.browser_download_url)).len() == 0 {
        return None;
    }
    let notes = match &release.body {
        Some(b) => b.clone(),
        None => "".to_owned(),
    };
    Some(
        AppRelease {
            tag: release.tag_name.clone(),
            notes,
            asset_url: asset.browser_download_url.clone(),
            asset_name: asset.name.clone(),
        },
    )
}

/// The address that describes the latest release.
pub fn latest_release_url() -> (r: String)
    ensures
        r@ == "https://api.github.com/repos/"@ + GITHUB_OWNER@ + "/"@ + GITHUB_REPO@
            + "/releases/latest"@,
{
    let mut r = join2("https://api.github.com/repos/", GITHUB_OWNER);
    r.append("/");
    r.append(GITHUB_REPO);
    r.append("/releases/latest");
    r
}

/// How much of a download there is after `read` bytes more, unless that is
/// more than a release may take.
pub fn download_step(downloaded: u64, read: u64) -> (r: Option<u64>)
    requires
        downloaded <= MAX_RELEASE_DOWNLOAD_BYTES,
    ensures
        r == sum_within(downloaded, read),
{
    if read > MAX_RELEASE_DOWNLOAD_BYTES - downloaded {
        None
    } else {
        Some(downloaded + read)
    }
}

/// Whether a download is the program itself, and not an archive.
pub fn is_plain_exe(asset_name: &str) -> (r: bool)
    ensures
        r == has_suffix(asset_name@, ".exe"@),
{
    ends_with(asset_name, ".exe")
}

/// Whether a file of an archive is the program, in any case of letters.
pub fn is_release_exe(name: &str) -> (r: bool)
    ensures
        r == (lower_text(name@) == lower_text(RELEASE_EXE_NAME@)),
{
    same_ignoring_case(name, RELEASE_EXE_NAME)
}

/// Of two rows of numbers the one that has the greater number where they first
/// differ comes after the other, whatever follows; and a row that goes on comes
/// after the one that ends there.
pub proof fn law_greater_numbers_come_after(
    front: Seq<u64>,
    a: u64,
    b: u64,
    x: Seq<u64>,
    y: Seq<u64>,
)
    requires
        a > b,
    ensures
        numbers_after(front + seq![a] + x, front + seq![b] + y),
        !numbers_after(front + seq![b] + y, front + seq![a] + x),
        numbers_after(front + seq![b] + y, front),
        !numbers_after(front, front + seq![b] + y),
        !numbers_after(front, front),
    decreases front.len(),
{
    let s = front + seq![a] + x;
    let t = front + seq![b] + y;
    if front.len() > 0 {
        let f = front.drop_first();
        assert(s.drop_first() =~= f + seq![a] + x);
        assert(t.drop_first() =~= f + seq![b] + y);
        assert(s[0] == front[0] && t[0] == front[0]);
        law_greater_numbers_come_after(f, a, b, x, y);
    } else {
        assert(s[0] == a && t[0] == b);
    }
}

proof fn lemma_decimal_part(n: u64)
    ensures
        ({
            let d = crate::number::decimal(n as nat);
            &&& d.len() > 0
            &&& forall|i: int| 0 <= i < d.len() ==> '0' <= #[trigger] d[i] <= '9'
            &&& trim_text(d) == d
            &&& parse_nat(d, u64::MAX as nat) == Some(n as nat)
        }),
{
    let d = crate::number::decimal(n as nat);
    crate::number::law_decimal_round_trip(n as nat);
    crate::number::law_written_numbers_are_read(n as int, 0, u64::MAX as int);
    assert forall|i: int| 0 <= i < d.len() implies '0' <= #[trigger] d[i] <= '9' by {
        assert(crate::number::is_digit(d[i]));
    }
    assert('0' <= d[0] <= '9' && '0' <= d[d.len() - 1] <= '9');
}

/// A tag of three numbers with full stops between them, with a `v` in front or
/// without one, is the version with these numbers.
pub proof fn law_written_versions(a: u64, b: u64, c: u64)
    ensures
        ({
            let tag = crate::number::decimal(a as nat) + seq!['.'] + crate::number::decimal(
                b as nat,
            ) + seq!['.'] + crate::number::decimal(c as nat);
            &&& numeric_parts(tag) == Some(seq![a, b, c])
            &&& numeric_parts(seq!['v'] + tag) == Some(seq![a, b, c])
            &&& numeric_parts(seq!['V'] + tag) == Some(seq![a, b, c])
        }),
{
    let x = crate::number::decimal(a as nat);
    let y = crate::number::decimal(b as nat);
    let z = crate::number::decimal(c as nat);
    let tag = x + seq!['.'] + y + seq!['.'] + z;
    lemma_three_numbers(a, b, c);
    assert(numeric_parts(tag) == Some(seq![a, b, c])) by {
        lemma_numeric_tag(tag, tag, seq![a, b, c]);
    }
    let small = seq!['v'] + tag;
    let big = seq!['V'] + tag;
    assert(small.drop_first() =~= tag && big.drop_first() =~= tag);
    assert(small.last() == tag.last() && big.last() == tag.last());
    assert(numeric_parts(small) == Some(seq![a, b, c])) by {
        lemma_numeric_tag(small, tag, seq![a, b, c]);
    }
    assert(numeric_parts(big) == Some(seq![a, b, c])) by {
        lemma_numeric_tag(big, tag, seq![a, b, c]);
    }
}

/// A tag whose plain form holds numbers and full stops only.
proof fn lemma_numeric_tag(tag: Seq<char>, plain: Seq<char>, numbers: Seq<u64>)
    requires
        plain.len() > 0,
        '0' <= plain[0] <= '9' && '0' <= plain.last() <= '9',
        tag == plain || (tag.len() > 0 && (tag[0] == 'v' || tag[0] == 'V') && tag.drop_first()
            == plain && tag.last() == plain.last()),
        !plain.contains('-') && !plain.contains('+'),
        numbers_of(split_text(plain, '.')) == Some(numbers),
    ensures
        numeric_parts(tag) == Some(numbers),
{
    assert(trim_text(tag) == tag);
    assert(plain_tag(tag) == plain);
    assert forall|i: int| 0 <= i < plain.len() implies plain[i] != '-' && plain[i] != '+' by {
        assert(plain.contains(plain[i]));
    }
    lemma_version_core(plain, plain.len() as int);
    assert(plain.take(plain.len() as int) =~= plain);
}

/// Three numbers with full stops between them.
proof fn lemma_three_numbers(a: u64, b: u64, c: u64)
    ensures
        ({
            let tag = crate::number::decimal(a as nat) + seq!['.'] + crate::number::decimal(
                b as nat,
            ) + seq!['.'] + crate::number::decimal(c as nat);
            &&& tag.len() > 0
            &&& '0' <= tag[0] <= '9' && '0' <= tag.last() <= '9'
            &&& !tag.contains('-') && !tag.contains('+')
            &&& numbers_of(split_text(tag, '.')) == Some(seq![a, b, c])
        }),
{
    let x = crate::number::decimal(a as nat);
    let y = crate::number::decimal(b as nat);
    let z = crate::number::decimal(c as nat);
    lemma_decimal_part(a);
    lemma_decimal_part(b);
    lemma_decimal_part(c);
    let tag = x + seq!['.'] + y + seq!['.'] + z;
    assert(tag[0] == x[0] && tag.last() == z.last());
    assert forall|i: int| 0 <= i < tag.len() implies tag[i] != '-' && tag[i] != '+' by {
        if i < x.len() {
            assert(tag[i] == x[i]);
        } else if x.len() < i < x.len() + 1 + y.len() {
            assert(tag[i] == y[i - x.len() - 1]);
        } else if i > x.len() + 1 + y.len() {
            assert(tag[i] == z[i - x.len() - y.len() - 2]);
        }
    }
    assert(split_text(tag, '.') == seq![x, y, z]) by {
        assert(!x.contains('.') && !y.contains('.') && !z.contains('.'));
        let rest = y + seq!['.'] + z;
        assert(tag =~= x + seq!['.'] + rest);
        crate::text::law_split(x, '.', rest);
        crate::text::law_split(y, '.', z);
        crate::text::law_split(z, '.', z);
        assert(split_text(tag, '.') =~= seq![x, y, z]);
    }
    lemma_numbers_of_three(x, y, z, a, b, c);
}

proof fn lemma_numbers_of_three(x: Seq<char>, y: Seq<char>, z: Seq<char>, a: u64, b: u64, c: u64)
    requires
        parse_nat(trim_text(x), u64::MAX as nat) == Some(a as nat),
        parse_nat(trim_text(y), u64::MAX as nat) == Some(b as nat),
        parse_nat(trim_text(z), u64::MAX as nat) == Some(c as nat),
    ensures
        numbers_of(seq![x, y, z]) == Some(seq![a, b, c]),
{
    let parts = seq![x, y, z];
    let p2 = parts.drop_last();
    let p1 = p2.drop_last();
    assert(parts.last() == z && p2.last() == y && p1.last() == x);
    assert(p1.drop_last() =~= Seq::<Seq<char>>::empty());
    assert(numbers_of(p1.drop_last()) == Some(Seq::<u64>::empty()));
    assert(numbers_of(p1) == Some(Seq::<u64>::empty().push(a)));
    assert(numbers_of(p2) == Some(Seq::<u64>::empty().push(a).push(b)));
    assert(Seq::<u64>::empty().push(a).push(b).push(c) =~= seq![a, b, c]);
}

/// A version is newer if its first number that differs is greater: the first
/// number counts most.
pub proof fn law_greater_version_is_newer(a: u64, b: u64, c: u64, d: u64, e: u64, f: u64)
    requires
        a > d || (a == d && b > e) || (a == d && b == e && c > f),
    ensures
        ({
            let latest = crate::number::decimal(a as nat) + seq!['.'] + crate::number::decimal(
                b as nat,
            ) + seq!['.'] + crate::number::decimal(c as nat);
            let current = crate::number::decimal(d as nat) + seq!['.'] + crate::number::decimal(
                e as nat,
            ) + seq!['.'] + crate::number::decimal(f as nat);
            newer(latest, current) && !newer(current, latest)
        }),
{
    law_written_versions(a, b, c);
    law_written_versions(d, e, f);
    let x = seq![a, b, c];
    let y = seq![d, e, f];
    if a > d {
        law_greater_numbers_come_after(seq![], a, d, seq![b, c], seq![e, f]);
        assert(x =~= Seq::<u64>::empty() + seq![a] + seq![b, c]);
        assert(y =~= Seq::<u64>::empty() + seq![d] + seq![e, f]);
    } else if b > e {
        law_greater_numbers_come_after(seq![a], b, e, seq![c], seq![f]);
        assert(x =~= seq![a] + seq![b] + seq![c]);
        assert(y =~= seq![a] + seq![e] + seq![f]);
    } else {
        law_greater_numbers_come_after(seq![a, b], c, f, seq![], seq![]);
        assert(x =~= seq![a, b] + seq![c] + Seq::<u64>::empty());
        assert(y =~= seq![a, b] + seq![f] + Seq::<u64>::empty());
    }
}

proof fn lemma_first_asset_is(assets: Seq<GithubAsset>, wanted: AssetName, i: int)
    requires
        0 <= i <= assets.len(),
        i < assets.len() ==> asset_named(assets[i].name@, wanted),
        forall|j: int| 0 <= j < i ==> !asset_named((#[trigger] assets[j]).name@, wanted),
    ensures
        first_asset(assets, wanted) == i,
    decreases assets.len(),
{
    if i > 0 {
        let t = assets.drop_first();
        assert(!asset_named(assets[0].name@, wanted));
        assert forall|j: int| 0 <= j < i - 1 implies !asset_named(
            (#[trigger] t[j]).name@,
            wanted,
        ) by {
            assert(t[j] == assets[j + 1]);
        }
        lemma_first_asset_is(t, wanted, i - 1);
    }
}

/// The file of a release to download is the archive by its own name; without it,
/// the first archive; without any, the first program; and else none.
pub proof fn law_chosen_asset(assets: Seq<GithubAsset>, i: int)
    requires
        0 <= i < assets.len(),
    ensures
        assets[i].name@ == RELEASE_ASSET_ZIP@ && (forall|j: int|
            0 <= j < i ==> (#[trigger] assets[j]).name@ != RELEASE_ASSET_ZIP@) ==> chosen_asset(
            assets,
        ) == i,
        has_suffix(assets[i].name@, ".zip"@) && (forall|j: int|
            0 <= j < assets.len() ==> (#[trigger] assets[j]).name@ != RELEASE_ASSET_ZIP@) && (forall|
            j: int,
        |
            0 <= j < i ==> !has_suffix((#[trigger] assets[j]).name@, ".zip"@)) ==> chosen_asset(
            assets,
        ) == i,
        has_suffix(assets[i].name@, ".exe"@) && (forall|j: int|
            0 <= j < assets.len() ==> (#[trigger] assets[j]).name@ != RELEASE_ASSET_ZIP@
                && !has_suffix(assets[j].name@, ".zip"@)) && (forall|j: int|
            0 <= j < i ==> !has_suffix((#[trigger] assets[j]).name@, ".exe"@)) ==> chosen_asset(
            assets,
        ) == i,
        (forall|j: int|
            0 <= j < assets.len() ==> (#[trigger] assets[j]).name@ != RELEASE_ASSET_ZIP@
                && !has_suffix(assets[j].name@, ".zip"@) && !has_suffix(assets[j].name@, ".exe"@))
            ==> chosen_asset(assets) == assets.len(),
{
    let n = assets.len() as int;
    if assets[i].name@ == RELEASE_ASSET_ZIP@ && (forall|j: int|
        0 <= j < i ==> (#[trigger] assets[j]).name@ != RELEASE_ASSET_ZIP@) {
        lemma_first_asset_is(assets, AssetName::Expected, i);
    }
    if forall|j: int| 0 <= j < n ==> (#[trigger] assets[j]).name@ != RELEASE_ASSET_ZIP@ {
        lemma_first_asset_is(assets, AssetName::Expected, n);
        if has_suffix(assets[i].name@, ".zip"@) && (forall|j: int|
            0 <= j < i ==> !has_suffix((#[trigger] assets[j]).name@, ".zip"@)) {
            lemma_first_asset_is(assets, AssetName::AnyZip, i);
        }
        if forall|j: int| 0 <= j < n ==> !has_suffix((#[trigger] assets[j]).name@, ".zip"@) {
            lemma_first_asset_is(assets, AssetName::AnyZip, n);
            if has_suffix(assets[i].name@, ".exe"@) && (forall|j: int|
                0 <= j < i ==> !has_suffix((#[trigger] assets[j]).name@, ".exe"@)) {
                lemma_first_asset_is(assets, AssetName::AnyExe, i);
            }
            if forall|j: int| 0 <= j < n ==> !has_suffix((#[trigger] assets[j]).name@, ".exe"@) {
                lemma_first_asset_is(assets, AssetName::AnyExe, n);
            }
        }
    }
}

/// How many bytes of a download are there after some more were read, unless they
/// are too many.
pub open spec fn sum_within(downloaded: u64, read: u64) -> Option<u64> {
    if downloaded + read <= MAX_RELEASE_DOWNLOAD_BYTES {
        Some((downloaded + read) as u64)
    } else {
        None
    }
}

/// A download is followed up to 500 million bytes, and no further.
pub proof fn law_downloads_end(downloaded: u64, read: u64)
    ensures
        downloaded + read <= 500_000_000 ==> sum_within(downloaded, read) == Some(
            (downloaded + read) as u64,
        ),
        downloaded + read > 500_000_000 ==> sum_within(downloaded, read) is None,
{
}

} // verus!
