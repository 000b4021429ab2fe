//! `collection.db`: named collections of beatmap checksums.
use crate::bytes::{write_i32, write_uleb128, ByteCursor, ByteError, LengthError};
#[allow(unused_imports)]
use crate::bytes::{
    exact_at, i32_at, i32_bytes, law_i32_round_trip, law_uleb_round_trip, lemma_stands_split,
    signed_32, stands_at, u8_at, uleb_at, uleb_bytes, uleb_from, Got,
};
#[allow(unused_imports)]
use crate::local::map_label;
use crate::local::LocalBeatmap;
#[allow(unused_imports)]
use crate::number::{decimal_int, hex};
use crate::number::{decimal_signed, hex_text};
#[allow(unused_imports)]
use crate::text::texts;
use crate::text::{chars_of, copy_texts, is_listed, join2, same_text};
use crate::trusted::utf8_text;
use vstd::prelude::*;
use vstd::slice::slice_to_vec;
use vstd::string::*;
#[allow(unused_imports)]
use vstd::utf8::*;

verus! {

/// The version that a new `collection.db` is written with.
pub const DEFAULT_COLLECTION_DB_VERSION: i32 = 20250107;

/// A collection: its name and the MD5 checksums of its beatmaps, in order.
#[derive(Debug)]
pub struct CollectionEntry {
    pub name: String,
    pub hashes: Vec<String>,
}

/// The contents of a `collection.db`.
#[derive(Debug)]
pub struct CollectionDb {
    pub version: i32,
    pub collections: Vec<CollectionEntry>,
}

/// Why a `collection.db` could not be read.
#[derive(Debug, PartialEq, Eq)]
pub enum CollectionError {
    Bytes(ByteError),
    LengthTooLarge,
    InvalidUtf8,
    InvalidMarker(u8),
    NegativeCollectionCount,
    NegativeBeatmapCount(String),
}

/// The view of a [`CollectionEntry`].
#[verifier::ext_equal]
pub struct EntryView {
    pub name: Seq<char>,
    pub hashes: Seq<Seq<char>>,
}

/// The view of a [`CollectionDb`].
#[verifier::ext_equal]
pub struct DbView {
    pub version: int,
    pub collections: Seq<EntryView>,
}

/// The view of a [`CollectionError`].
#[verifier::ext_equal]
pub enum CollectionFault {
    Bytes(ByteError),
    LengthTooLarge,
    InvalidUtf8,
    InvalidMarker(u8),
    NegativeCollectionCount,
    NegativeBeatmapCount(Seq<char>),
}

impl View for CollectionEntry {
    type V = EntryView;

    open spec fn view(&self) -> EntryView {
        EntryView { name: self.name@, hashes: texts(self.hashes@) }
    }
}

impl Clone for CollectionEntry {
    fn clone(&self) -> (r: Self)
        ensures
            r@ == self@,
    {
        CollectionEntry { name: self.name.clone(), hashes: copy_texts(&self.hashes) }
    }
}

/// The views of a list of collections.
pub open spec fn entries(v: Seq<CollectionEntry>) -> Seq<EntryView> {
    Seq::new(v.len(), |i: int| v[i]@)
}

impl View for CollectionDb {
    type V = DbView;

    open spec fn view(&self) -> DbView {
        DbView { version: self.version as int, collections: entries(self.collections@) }
    }
}

impl View for CollectionError {
    type V = CollectionFault;

    open spec fn view(&self) -> CollectionFault {
        match *self {
            CollectionError::Bytes(e) => CollectionFault::Bytes(e),
            CollectionError::LengthTooLarge => CollectionFault::LengthTooLarge,
            CollectionError::InvalidUtf8 => CollectionFault::InvalidUtf8,
            CollectionError::InvalidMarker(m) => CollectionFault::InvalidMarker(m),
            CollectionError::NegativeCollectionCount => CollectionFault::NegativeCollectionCount,
            CollectionError::NegativeBeatmapCount(n) => CollectionFault::NegativeBeatmapCount(n@),
        }
    }
}

/// The text of a fault.
pub open spec fn fault_text(fault: CollectionFault) -> Seq<char> {
    match fault {
        CollectionFault::Bytes(ByteError::OffsetOverflow) => "collection.db offset overflow"@,
        CollectionFault::Bytes(ByteError::UnexpectedEnd) => "unexpected end of collection.db"@,
        CollectionFault::LengthTooLarge => "uleb128 value is too large"@,
        CollectionFault::InvalidUtf8 => "collection string is not valid UTF-8"@,
        CollectionFault::InvalidMarker(m) => "invalid osu string marker 0x"@ + hex(m),
        CollectionFault::NegativeCollectionCount => "negative collection count"@,
        CollectionFault::NegativeBeatmapCount(name) => "negative beatmap count for collection "@
            + name,
    }
}

impl CollectionError {
    /// The text of the error.
    pub fn message(&self) -> (r: String)
        ensures
            r@ == fault_text(self@),
    {
        match self {
            CollectionError::Bytes(ByteError::OffsetOverflow) =>
                "collection.db offset overflow".to_owned(),
            CollectionError::Bytes(ByteError::UnexpectedEnd) =>
                "unexpected end of collection.db".to_owned(),
            CollectionError::LengthTooLarge => "uleb128 value is too large".to_owned(),
            CollectionError::InvalidUtf8 => "collection string is not valid UTF-8".to_owned(),
            CollectionError::InvalidMarker(m) => join2(
                "invalid osu string marker 0x",
                &hex_text(*m),
            ),
            CollectionError::NegativeCollectionCount => "negative collection count".to_owned(),
            CollectionError::NegativeBeatmapCount(name) => join2(
                "negative beatmap count for collection ",
                name,
            ),
        }
    }
}

/// The string at `pos`: a zero byte for the empty string, or a marker, the
/// number of bytes and the bytes in UTF-8.
pub open spec fn string_at(bytes: Seq<u8>, pos: int) -> Got<Seq<char>, CollectionFault> {
    match u8_at(bytes, pos) {
        Got::Fault(e) => Got::Fault(CollectionFault::Bytes(e)),
        Got::Value(marker, p) => if marker == 0 {
            Got::Value(Seq::empty(), p)
        } else if marker == 0x0b {
            match uleb_at(bytes, p) {
                Got::Fault(LengthError::Bytes(e)) => Got::Fault(CollectionFault::Bytes(e)),
                Got::Fault(LengthError::TooLarge) => Got::Fault(CollectionFault::LengthTooLarge),
                Got::Value(n, q) => match exact_at(bytes, q, ((n as u64) as usize) as int) {
                    Got::Fault(e) => Got::Fault(CollectionFault::Bytes(e)),
                    Got::Value(b, r) => if valid_utf8(b) {
                        Got::Value(decode_utf8(b), r)
                    } else {
                        Got::Fault(CollectionFault::InvalidUtf8)
                    },
                },
            }
        } else {
            Got::Fault(CollectionFault::InvalidMarker(marker))
        },
    }
}

/// `first` before the list that `rest` gives.
pub open spec fn after<T>(first: Seq<T>, rest: Got<Seq<T>, CollectionFault>) -> Got<
    Seq<T>,
    CollectionFault,
> {
    match rest {
        Got::Value(v, p) => Got::Value(first + v, p),
        Got::Fault(e) => Got::Fault(e),
    }
}

/// The `n` strings from `pos` on.
pub open spec fn strings_at(bytes: Seq<u8>, pos: int, n: nat) -> Got<
    Seq<Seq<char>>,
    CollectionFault,
>
    decreases n,
{
    if n == 0 {
        Got::Value(Seq::empty(), pos)
    } else {
        match string_at(bytes, pos) {
            Got::Fault(e) => Got::Fault(e),
            Got::Value(s, p) => after(seq![s], strings_at(bytes, p, (n - 1) as nat)),
        }
    }
}

/// The collection at `pos`: its name, the number of its checksums and the
/// checksums.
pub open spec fn entry_at(bytes: Seq<u8>, pos: int) -> Got<EntryView, CollectionFault> {
    match string_at(bytes, pos) {
        Got::Fault(e) => Got::Fault(e),
        Got::Value(name, p) => match i32_at(bytes, p) {
            Got::Fault(e) => Got::Fault(CollectionFault::Bytes(e)),
            Got::Value(n, q) => if n < 0 {
                Got::Fault(CollectionFault::NegativeBeatmapCount(name))
            } else {
                match strings_at(bytes, q, n as nat) {
                    Got::Fault(e) => Got::Fault(e),
                    Got::Value(hashes, r) => Got::Value(EntryView { name, hashes }, r),
                }
            },
        },
    }
}

/// The `n` collections from `pos` on.
pub open spec fn entries_at(bytes: Seq<u8>, pos: int, n: nat) -> Got<
    Seq<EntryView>,
    CollectionFault,
>
    decreases n,
{
    if n == 0 {
        Got::Value(Seq::empty(), pos)
    } else {
        match entry_at(bytes, pos) {
            Got::Fault(e) => Got::Fault(e),
            Got::Value(entry, p) => after(seq![entry], entries_at(bytes, p, (n - 1) as nat)),
        }
    }
}

/// The contents of a `collection.db`: its version, the number of its
/// collections and the collections. What follows them is not read.
pub open spec fn decode_db(bytes: Seq<u8>) -> Result<DbView, CollectionFault> {
    match i32_at(bytes, 0) {
        Got::Fault(e) => Err(CollectionFault::Bytes(e)),
        Got::Value(version, p) => match i32_at(bytes, p) {
            Got::Fault(e) => Err(CollectionFault::Bytes(e)),
            Got::Value(n, q) => if n < 0 {
                Err(CollectionFault::NegativeCollectionCount)
            } else {
                match entries_at(bytes, q, n as nat) {
                    Got::Fault(e) => Err(e),
                    Got::Value(collections, r) => Ok(DbView { version, collections }),
                }
            },
        },
    }
}

/// The bytes of a string.
pub open spec fn string_bytes(s: Seq<char>) -> Seq<u8> {
    if s.len() == 0 {
        seq![0u8]
    } else {
        seq![0x0bu8] + (uleb_bytes(encode_utf8(s).len()) + encode_utf8(s))
    }
}

/// The bytes of the first `n` strings of a list.
pub open spec fn strings_bytes(list: Seq<Seq<char>>) -> Seq<u8>
    decreases list.len(),
{
    if list.len() == 0 {
        seq![]
    } else {
        string_bytes(list[0]) + strings_bytes(list.drop_first())
    }
}

/// The bytes of a collection.
pub open spec fn entry_bytes(entry: EntryView) -> Seq<u8> {
    string_bytes(entry.name) + (i32_bytes(signed_32(entry.hashes.len())) + strings_bytes(
        entry.hashes,
    ))
}

/// The bytes of a list of collections.
pub open spec fn entries_bytes(list: Seq<EntryView>) -> Seq<u8>
    decreases list.len(),
{
    if list.len() == 0 {
        seq![]
    } else {
        entry_bytes(list[0]) + entries_bytes(list.drop_first())
    }
}

/// The bytes of a `collection.db`.
pub open spec fn encode_db(db: DbView) -> Seq<u8> {
    i32_bytes(db.version) + (i32_bytes(signed_32(db.collections.len())) + entries_bytes(
        db.collections,
    ))
}

impl CollectionDb {
    /// A `collection.db` without collections.
    pub fn empty() -> (r: Self)
        ensures
            r.version == DEFAULT_COLLECTION_DB_VERSION,
            r.collections@ == Seq::<CollectionEntry>::empty(),
    {
        CollectionDb { version: DEFAULT_COLLECTION_DB_VERSION, collections: Vec::new() }
    }
}

/// Reads the string at the cursor.
pub fn read_osu_string(cursor: &mut ByteCursor<'_>) -> (r: Result<String, CollectionError>)
    requires
        old(cursor).wf(),
    ensures
        final(cursor).wf(),
        final(cursor).bytes == old(cursor).bytes,
        match r {
            Ok(s) => string_at(old(cursor).bytes@, old(cursor).offset as int).gives(
                s@,
                final(cursor).offset as int,
            ),
            Err(e) => string_at(old(cursor).bytes@, old(cursor).offset as int).fails(e@),
        },
{
    let marker: u8 = match cursor.read_u8() {
        Ok(m) => m,
        Err(e) => return Err(CollectionError::Bytes(e)),
    };
    if marker == 0 {
        let s = String::new();
        assert(s@ =~= Seq::empty());
        return Ok(s);
    }
    if marker != 0x0b {
        return Err(CollectionError::InvalidMarker(marker));
    }
    let len: usize = match cursor.read_uleb128() {
        Ok(n) => n as usize,
        Err(LengthError::Bytes(e)) => return Err(CollectionError::Bytes(e)),
        Err(LengthError::TooLarge) => return Err(CollectionError::LengthTooLarge),
    };
    let part = match cursor.read_exact(len) {
        Ok(b) => b,
        Err(e) => return Err(CollectionError::Bytes(e)),
    };
    match utf8_text(slice_to_vec(part)) {
        Some(s) => Ok(s),
        None => Err(CollectionError::InvalidUtf8),
    }
}

/// Reads the collection at the cursor.
fn read_entry(cursor: &mut ByteCursor<'_>) -> (r: Result<CollectionEntry, CollectionError>)
    requires
        old(cursor).wf(),
    ensures
        final(cursor).wf(),
        final(cursor).bytes == old(cursor).bytes,
        match r {
            Ok(entry) => entry_at(old(cursor).bytes@, old(cursor).offset as int).gives(
                entry@,
                final(cursor).offset as int,
            ),
            Err(e) => entry_at(old(cursor).bytes@, old(cursor).offset as int).fails(e@),
        },
{
    let name = match read_osu_string(cursor) {
        Ok(s) => s,
        Err(e) => return Err(e),
    };
    let count: i32 = match cursor.read_i32() {
        Ok(n) => n,
        Err(e) => return Err(CollectionError::Bytes(e)),
    };
    if count < 0 {
        return Err(CollectionError::NegativeBeatmapCount(name));
    }
    let ghost all = cursor.bytes@;
    let ghost start = cursor.offset as int;
    let mut hashes: Vec<String> = Vec::new();
    let mut i: i32 = 0;
    proof {
        assert(texts(hashes@) =~= Seq::empty());
        match strings_at(all, start, count as nat) {
            Got::Value(v, p) => {
                assert(Seq::<Seq<char>>::empty() + v =~= v);
            },
            Got::Fault(e) => {},
        }
    }
    while i < count
        invariant
            cursor.wf(),
            cursor.bytes == old(cursor).bytes,
            all == cursor.bytes@,
            0 <= i <= count,
            strings_at(all, start, count as nat) == after(
                texts(hashes@),
                strings_at(all, cursor.offset as int, (count - i) as nat),
            ),
            entry_at(all, old(cursor).offset as int) == (match strings_at(
                all,
                start,
                count as nat,
            ) {
                Got::Fault(e) => Got::Fault(e),
                Got::Value(hashes, r) => Got::Value(EntryView { name: name@, hashes }, r),
            }),
        decreases count - i,
    {
        let ghost before = texts(hashes@);
        let ghost here = cursor.offset as int;
        match read_osu_string(cursor) {
            Ok(s) => {
                hashes.push(s);
                proof {
                    assert(texts(hashes@) =~= before.push(s@));
                    match strings_at(all, cursor.offset as int, (count - i - 1) as nat) {
                        Got::Value(v, p) => {
                            assert(before + (seq![s@] + v) =~= before.push(s@) + v);
                        },
                        Got::Fault(e) => {},
                    }
                }
            },
            Err(e) => return Err(e),
        }
        i = i + 1;
    }
    assert(texts(hashes@) + Seq::<Seq<char>>::empty() =~= texts(hashes@));
    Ok(CollectionEntry { name, hashes })
}

/// Reads a `collection.db`.
pub fn parse_collection_db(bytes: &[u8]) -> (r: Result<CollectionDb, CollectionError>)
    ensures
        match (r, decode_db(bytes@)) {
            (Ok(db), Ok(v)) => db@ == v,
            (Err(e), Err(f)) => e@ == f,
            _ => false,
        },
{
    let mut cursor = ByteCursor { bytes, offset: 0 };
    let version: i32 = match cursor.read_i32() {
        Ok(v) => v,
        Err(e) => return Err(CollectionError::Bytes(e)),
    };
    let count: i32 = match cursor.read_i32() {
        Ok(n) => n,
        Err(e) => return Err(CollectionError::Bytes(e)),
    };
    if count < 0 {
        return Err(CollectionError::NegativeCollectionCount);
    }
    let ghost start = cursor.offset as int;
    let mut collections: Vec<CollectionEntry> = Vec::new();
    let mut i: i32 = 0;
    proof {
        assert(entries(collections@) =~= Seq::empty());
        match entries_at(bytes@, start, count as nat) {
            Got::Value(v, p) => {
                assert(Seq::<EntryView>::empty() + v =~= v);
            },
            Got::Fault(e) => {},
        }
    }
    while i < count
        invariant
            cursor.wf(),
            cursor.bytes@ == bytes@,
            0 <= i <= count,
            entries_at(bytes@, start, count as nat) == after(
                entries(collections@),
                entries_at(bytes@, cursor.offset as int, (count - i) as nat),
            ),
            decode_db(bytes@) == (match entries_at(bytes@, start, count as nat) {
                Got::Fault(e) => Err(e),
                Got::Value(collections, r) => Ok(DbView { version: version as int, collections }),
            }),
        decreases count - i,
    {
        let ghost before = entries(collections@);
        match read_entry(&mut cursor) {
            Ok(entry) => {
                collections.push(entry);
                proof {
                    assert(entries(collections@) =~= before.push(entry@));
                    match entries_at(bytes@, cursor.offset as int, (count - i - 1) as nat) {
                        Got::Value(v, p) => {
                            assert(before + (seq![entry@] + v) =~= before.push(entry@) + v);
                        },
                        Got::Fault(e) => {},
                    }
                }
            },
            Err(e) => return Err(e),
        }
        i = i + 1;
    }
    assert(entries(collections@) + Seq::<EntryView>::empty() =~= entries(collections@));
    Ok(CollectionDb { version, collections })
}

/// Appends a string.
pub fn write_osu_string(bytes: &mut Vec<u8>, value: &str)
    ensures
        final(bytes)@ == old(bytes)@ + string_bytes(value@),
{
    if is_empty_text(value) {
        bytes.push(0);
        assert(bytes@ =~= old(bytes)@ + string_bytes(value@));
        return ;
    }
    bytes.push(0x0b);
    let body = value.as_bytes();
    write_uleb128(bytes, body.len() as u64);
    bytes.extend_from_slice(body);
    assert(bytes@ =~= old(bytes)@ + string_bytes(value@));
}

/// Whether a string holds no character.
fn is_empty_text(s: &str) -> (r: bool)
    ensures
        r == (s@.len() == 0),
{
    chars_of(s).len() == 0
}

/// Appends a list of strings.
fn write_strings(bytes: &mut Vec<u8>, list: &Vec<String>)
    ensures
        final(bytes)@ == old(bytes)@ + strings_bytes(texts(list@)),
{
    let ghost start = bytes@;
    let ghost all = texts(list@);
    let mut i: usize = 0;
    assert(all.skip(0) =~= all);
    while i < list.len()
        invariant
            i <= list@.len(),
            all == texts(list@),
            start == old(bytes)@,
            bytes@ + strings_bytes(all.skip(i as int)) == start + strings_bytes(all),
        decreases list@.len() - i,
    {
        let ghost before = bytes@;
        write_osu_string(bytes, &list[i]);
        proof {
            let rest = all.skip(i as int);
            assert(rest.drop_first() =~= all.skip(i as int + 1));
            let tail = strings_bytes(all.skip(i as int + 1));
            assert(before + (string_bytes(rest[0]) + tail) =~= (before + string_bytes(rest[0]))
                + tail);
        }
        i = i + 1;
    }
    assert(all.skip(i as int) =~= Seq::empty());
    assert(bytes@ + Seq::<u8>::empty() =~= bytes@);
}

/// The number of elements as a 32-bit integer, which counts anew beyond the
/// largest one.
fn count_32(n: usize) -> (r: i32)
    ensures
        r == signed_32(n as nat),
{
    let u: u64 = n as u64 % 0x1_0000_0000;
    if u >= 0x8000_0000 {
        (u as i64 - 0x1_0000_0000) as i32
    } else {
        u as i32
    }
}

/// The bytes of a `collection.db`.
pub fn write_db(db: &CollectionDb) -> (bytes: Vec<u8>)
    ensures
        bytes@ == encode_db(db@),
{
    let mut bytes: Vec<u8> = Vec::new();
    write_i32(&mut bytes, db.version);
    write_i32(&mut bytes, count_32(db.collections.len()));
    let ghost start = bytes@;
    let ghost all = db@.collections;
    let mut i: usize = 0;
    assert(all.skip(0) =~= all);
    while i < db.collections.len()
        invariant
            i <= db.collections@.len(),
            all == db@.collections,
            bytes@ + entries_bytes(all.skip(i as int)) == start + entries_bytes(all),
        decreases db.collections@.len() - i,
    {
        let ghost before = bytes@;
        let entry = &db.collections[i];
        write_osu_string(&mut bytes, &entry.name);
        write_i32(&mut bytes, count_32(entry.hashes.len()));
        write_strings(&mut bytes, &entry.hashes);
        proof {
            let rest = all.skip(i as int);
            assert(rest[0] == entry@);
            assert(bytes@ =~= before + entry_bytes(entry@));
            assert(rest.drop_first() =~= all.skip(i as int + 1));
            let tail = entries_bytes(all.skip(i as int + 1));
            assert(before + (entry_bytes(rest[0]) + tail) =~= bytes@ + tail);
        }
        i = i + 1;
    }
    assert(all.skip(i as int) =~= Seq::empty());
    assert(bytes@ + Seq::<u8>::empty() =~= bytes@);
    assert(bytes@ =~= encode_db(db@));
    bytes
}

/// The position of the first collection named `name`, or the length of the
/// list.
pub open spec fn first_named(list: Seq<EntryView>, name: Seq<char>) -> nat
    decreases list.len(),
{
    if list.len() == 0 || list[0].name == name {
        0
    } else {
        1 + first_named(list.drop_first(), name)
    }
}

/// The checksums of the first collection named `name`.
pub open spec fn hashes_of(list: Seq<EntryView>, name: Seq<char>) -> Option<Seq<Seq<char>>> {
    let k = first_named(list, name) as int;
    if k < list.len() {
        Some(list[k].hashes)
    } else {
        None
    }
}

/// The list after the first collection named `name` got the checksums
/// `hashes`; where there is none, it is added at the end.
pub open spec fn upserted(
    list: Seq<EntryView>,
    name: Seq<char>,
    hashes: Seq<Seq<char>>,
) -> Seq<EntryView> {
    let k = first_named(list, name) as int;
    if k < list.len() {
        list.update(k, EntryView { name, hashes })
    } else {
        list.push(EntryView { name, hashes })
    }
}

/// The collections that are not named `name`, in order.
pub open spec fn without(list: Seq<EntryView>, name: Seq<char>) -> Seq<EntryView>
    decreases list.len(),
{
    if list.len() == 0 {
        seq![]
    } else if list.last().name == name {
        without(list.drop_last(), name)
    } else {
        without(list.drop_last(), name).push(list.last())
    }
}

/// `known`, then each of `hashes` that is not there yet.
pub open spec fn merged(known: Seq<Seq<char>>, hashes: Seq<Seq<char>>) -> Seq<Seq<char>>
    decreases hashes.len(),
{
    if hashes.len() == 0 {
        known
    } else {
        let m = merged(known, hashes.drop_last());
        if m.contains(hashes.last()) {
            m
        } else {
            m.push(hashes.last())
        }
    }
}

/// What `first_named` says of the collections before it and at it.
pub proof fn lemma_first_named(list: Seq<EntryView>, name: Seq<char>)
    ensures
        first_named(list, name) <= list.len(),
        forall|i: int| 0 <= i < first_named(list, name) ==> (#[trigger] list[i]).name != name,
        first_named(list, name) < list.len() ==> list[first_named(list, name) as int].name == name,
    decreases list.len(),
{
    if list.len() > 0 && list[0].name != name {
        lemma_first_named(list.drop_first(), name);
        assert forall|i: int| 0 <= i < first_named(list, name) implies (#[trigger] list[i]).name
            != name by {
            if i > 0 {
                assert(list[i] == list.drop_first()[i - 1]);
            }
        }
    }
}

proof fn lemma_first_named_is(list: Seq<EntryView>, name: Seq<char>, k: int)
    requires
        0 <= k <= list.len(),
        forall|i: int| 0 <= i < k ==> (#[trigger] list[i]).name != name,
        k == list.len() || list[k].name == name,
    ensures
        first_named(list, name) == k,
{
    lemma_first_named(list, name);
    let f = first_named(list, name) as int;
    if f < k {
        assert(list[f].name != name);
    } else if k < f {
        assert(list[k].name != name);
    }
}

/// The position of the first collection named `name`, or the number of
/// collections.
fn position_of(db: &CollectionDb, name: &str) -> (k: usize)
    ensures
        k == first_named(db@.collections, name@),
        k <= db.collections@.len(),
{
    let mut k: usize = 0;
    while k < db.collections.len()
        invariant
            k <= db.collections@.len(),
            forall|i: int| 0 <= i < k ==> (#[trigger] db@.collections[i]).name != name@,
        decreases db.collections@.len() - k,
    {
        if same_text(&db.collections[k].name, name) {
            proof {
                lemma_first_named_is(db@.collections, name@, k as int);
            }
            return k;
        }
        k = k + 1;
    }
    proof {
        lemma_first_named_is(db@.collections, name@, k as int);
    }
    k
}

/// Gives the collection named `collection_name` the checksums `hashes`, and
/// adds it where there is none.
pub fn upsert_collection_hashes(
    db: &mut CollectionDb,
    collection_name: &str,
    hashes: Vec<String>,
)
    ensures
        final(db)@ == (DbView {
            collections: upserted(old(db)@.collections, collection_name@, texts(hashes@)),
            ..old(db)@
        }),
{
    let k: usize = position_of(db, collection_name);
    proof {
        lemma_first_named(db@.collections, collection_name@);
    }
    let entry = CollectionEntry { name: collection_name.to_owned(), hashes };
    if k < db.collections.len() {
        db.collections.set(k, entry);
    } else {
        db.collections.push(entry);
    }
    assert(db@.collections =~= upserted(
        old(db)@.collections,
        collection_name@,
        texts(hashes@),
    ));
}

/// Removes every collection named `collection_name`. Tells whether there was
/// one.
pub fn delete_collection(db: &mut CollectionDb, collection_name: &str) -> (removed: bool)
    ensures
        final(db)@ == (DbView {
            collections: without(old(db)@.collections, collection_name@),
            ..old(db)@
        }),
        removed == exists|i: int|
            0 <= i < old(db)@.collections.len() && (#[trigger] old(db)@.collections[i]).name
                == collection_name@,
{
    let ghost all = db@.collections;
    let mut kept: Vec<CollectionEntry> = Vec::new();
    let mut removed = false;
    let mut i: usize = 0;
    assert(entries(kept@) =~= without(all.take(0), collection_name@));
    while i < db.collections.len()
        invariant
            i <= db.collections@.len(),
            all == db@.collections,
            *db == *old(db),
            entries(kept@) == without(all.take(i as int), collection_name@),
            removed == exists|j: int|
                0 <= j < i && (#[trigger] all[j]).name == collection_name@,
        decreases db.collections@.len() - i,
    {
        let entry = db.collections[i].clone();
        let ghost before = entries(kept@);
        assert(all.take(i as int + 1).drop_last() =~= all.take(i as int));
        assert(all[i as int] == entry@);
        if same_text(&entry.name, collection_name) {
            removed = true;
        } else {
            kept.push(entry);
            assert(entries(kept@) =~= before.push(entry@));
        }
        i = i + 1;
    }
    assert(all.take(i as int) =~= all);
    db.collections = kept;
    removed
}

/// The collections after one without checksums was made: `existing` is what
/// the file holds, where there is one. A collection of that name loses its
/// checksums.
pub fn create_collection(existing: Option<CollectionDb>, collection_name: &str) -> (db: CollectionDb)
    ensures
        db@ == (DbView {
            collections: upserted(known_db(existing).collections, collection_name@, seq![]),
            ..known_db(existing)
        }),
{
    let mut db = match existing {
        Some(db) => db,
        None => CollectionDb::empty(),
    };
    let hashes: Vec<String> = Vec::new();
    proof {
        assert(texts(hashes@) =~= seq![]);
        assert(db@.collections =~= known_db(existing).collections);
    }
    upsert_collection_hashes(&mut db, collection_name, hashes);
    db
}

/// What a file holds, or an empty `collection.db` where there is none.
pub open spec fn known_db(existing: Option<CollectionDb>) -> DbView {
    match existing {
        Some(db) => db@,
        None => DbView { version: DEFAULT_COLLECTION_DB_VERSION as int, collections: seq![] },
    }
}

/// `known`, then each of `hashes` that is not there yet.
pub fn merge_hashes(known: &Vec<String>, hashes: &Vec<String>) -> (r: Vec<String>)
    ensures
        texts(r@) == merged(texts(known@), texts(hashes@)),
{
    let mut r = copy_texts(known);
    let ghost all = texts(hashes@);
    let mut i: usize = 0;
    assert(all.take(0) =~= Seq::empty());
    while i < hashes.len()
        invariant
            i <= hashes@.len(),
            all == texts(hashes@),
            texts(r@) == merged(texts(known@), all.take(i as int)),
        decreases hashes@.len() - i,
    {
        let ghost before = texts(r@);
        assert(all.take(i as int + 1).drop_last() =~= all.take(i as int));
        if !is_listed(&r, &hashes[i]) {
            r.push(hashes[i].clone());
            assert(texts(r@) =~= before.push(all[i as int]));
        }
        i = i + 1;
    }
    assert(all.take(i as int) =~= all);
    r
}

/// The collections after `hashes` were added to one: its checksums stay where
/// they are, and each new one follows once.
pub fn add_to_collection(
    existing: Option<CollectionDb>,
    collection_name: &str,
    hashes: &Vec<String>,
) -> (db: CollectionDb)
    ensures
        db@ == (DbView {
            collections: upserted(
                known_db(existing).collections,
                collection_name@,
                merged(
                    match hashes_of(known_db(existing).collections, collection_name@) {
                        Some(known) => known,
                        None => seq![],
                    },
                    texts(hashes@),
                ),
            ),
            ..known_db(existing)
        }),
{
    let mut db = match existing {
        Some(db) => db,
        None => CollectionDb::empty(),
    };
    proof {
        assert(db@.collections =~= known_db(existing).collections);
    }
    let k: usize = position_of(&db, collection_name);
    let all = if k < db.collections.len() {
        merge_hashes(&db.collections[k].hashes, hashes)
    } else {
        let none: Vec<String> = Vec::new();
        assert(texts(none@) =~= seq![]);
        merge_hashes(&none, hashes)
    };
    upsert_collection_hashes(&mut db, collection_name, all);
    db
}

/// The number of an identifier, or nothing.
pub open spec fn id_text(id: Option<i64>) -> Seq<char> {
    match id {
        Some(n) => decimal_int(n as int),
        None => Seq::empty(),
    }
}

/// The line of a map in a manifest: checksum, identifiers and label, with
/// tabs between them.
pub open spec fn manifest_line(map: LocalBeatmap) -> Seq<char> {
    map.md5@ + "\t"@ + id_text(map.beatmapset_id) + "\t"@ + id_text(map.beatmap_id) + "\t"@
        + map_label(map) + "\n"@
}

/// The lines of a manifest.
pub open spec fn manifest_text(maps: Seq<LocalBeatmap>) -> Seq<char>
    decreases maps.len(),
{
    if maps.len() == 0 {
        Seq::empty()
    } else {
        manifest_text(maps.drop_last()) + manifest_line(maps.last())
    }
}

fn append_id(r: &mut String, id: Option<i64>)
    ensures
        final(r)@ == old(r)@ + id_text(id),
{
    match id {
        Some(n) => r.append(&decimal_signed(n)),
        None => {
            assert(r@ =~= old(r)@ + id_text(id));
        },
    }
}

/// The text of a manifest of maps, one line for each.
pub fn write_manifest(maps: &Vec<LocalBeatmap>) -> (r: String)
    ensures
        r@ == manifest_text(maps@),
{
    let mut r = String::new();
    let mut i: usize = 0;
    assert(r@ =~= manifest_text(maps@.take(0)));
    while i < maps.len()
        invariant
            i <= maps@.len(),
            r@ == manifest_text(maps@.take(i as int)),
        decreases maps@.len() - i,
    {
        assert(maps@.take(i as int + 1).drop_last() =~= maps@.take(i as int));
        let ghost before = r@;
        r.append(&maps[i].md5);
        r.append("\t");
        append_id(&mut r, maps[i].beatmapset_id);
        r.append("\t");
        append_id(&mut r, maps[i].beatmap_id);
        r.append("\t");
        r.append(&maps[i].label());
        r.append("\n");
        assert(r@ =~= before + manifest_line(maps@[i as int]));
        i = i + 1;
    }
    assert(maps@.take(i as int) =~= maps@);
    r
}

/// A string is read back where it was written.
pub proof fn law_string_round_trip(bytes: Seq<u8>, pos: int, s: Seq<char>)
    requires
        stands_at(bytes, pos, string_bytes(s)),
        bytes.len() <= usize::MAX,
    ensures
        string_at(bytes, pos).gives(s, pos + string_bytes(s).len()),
{
    let enc = string_bytes(s);
    assert(bytes.subrange(pos, pos + enc.len())[0] == enc[0]);
    assert(bytes.subrange(pos, pos + 1)[0] == enc[0]);
    if s.len() == 0 {
        assert(s =~= Seq::empty());
    } else {
        let body = encode_utf8(s);
        let len = uleb_bytes(body.len());
        lemma_stands_split(bytes, pos, seq![0x0bu8], len + body);
        lemma_stands_split(bytes, pos + 1, len, body);
        law_uleb_round_trip(bytes, pos + 1, body.len());
        encode_utf8_valid_utf8(s);
        encode_utf8_decode_utf8(s);
    }
}

/// A list of strings is read back where it was written.
pub proof fn law_strings_round_trip(bytes: Seq<u8>, pos: int, list: Seq<Seq<char>>)
    requires
        stands_at(bytes, pos, strings_bytes(list)),
        bytes.len() <= usize::MAX,
    ensures
        strings_at(bytes, pos, list.len()).gives(list, pos + strings_bytes(list).len()),
    decreases list.len(),
{
    if list.len() == 0 {
        assert(list =~= Seq::empty());
    } else {
        let first = string_bytes(list[0]);
        let rest = list.drop_first();
        lemma_stands_split(bytes, pos, first, strings_bytes(rest));
        law_string_round_trip(bytes, pos, list[0]);
        law_strings_round_trip(bytes, pos + first.len(), rest);
        assert(seq![list[0]] + rest =~= list);
    }
}

/// A collection is read back where it was written.
pub proof fn law_entry_round_trip(bytes: Seq<u8>, pos: int, entry: EntryView)
    requires
        entry.hashes.len() <= i32::MAX,
        stands_at(bytes, pos, entry_bytes(entry)),
        bytes.len() <= usize::MAX,
    ensures
        entry_at(bytes, pos).gives(entry, pos + entry_bytes(entry).len()),
{
    let name = string_bytes(entry.name);
    let count = i32_bytes(entry.hashes.len() as int);
    let hashes = strings_bytes(entry.hashes);
    lemma_stands_split(bytes, pos, name, count + hashes);
    lemma_stands_split(bytes, pos + name.len(), count, hashes);
    law_string_round_trip(bytes, pos, entry.name);
    law_i32_round_trip(bytes, pos + name.len(), entry.hashes.len() as int);
    law_strings_round_trip(bytes, pos + name.len() + count.len(), entry.hashes);
}

/// A list of collections is read back where it was written.
pub proof fn law_entries_round_trip(bytes: Seq<u8>, pos: int, list: Seq<EntryView>)
    requires
        forall|i: int| 0 <= i < list.len() ==> (#[trigger] list[i]).hashes.len() <= i32::MAX,
        stands_at(bytes, pos, entries_bytes(list)),
        bytes.len() <= usize::MAX,
    ensures
        entries_at(bytes, pos, list.len()).gives(list, pos + entries_bytes(list).len()),
    decreases list.len(),
{
    if list.len() == 0 {
        assert(list =~= Seq::empty());
    } else {
        let first = entry_bytes(list[0]);
        let rest = list.drop_first();
        lemma_stands_split(bytes, pos, first, entries_bytes(rest));
        law_entry_round_trip(bytes, pos, list[0]);
        assert forall|i: int| 0 <= i < rest.len() implies (#[trigger] rest[i]).hashes.len()
            <= i32::MAX by {
            assert(rest[i] == list[i + 1]);
        }
        law_entries_round_trip(bytes, pos + first.len(), rest);
        assert(seq![list[0]] + rest =~= list);
    }
}

/// Where the parts of a `collection.db` are read, and that they reach its end.
proof fn lemma_db_parts(db: DbView)
    requires
        i32::MIN <= db.version <= i32::MAX,
        db.collections.len() <= i32::MAX,
        forall|i: int|
            0 <= i < db.collections.len() ==> (#[trigger] db.collections[i]).hashes.len()
                <= i32::MAX,
        encode_db(db).len() <= usize::MAX,
    ensures
        i32_at(encode_db(db), 0).gives(db.version, 4),
        i32_at(encode_db(db), 4).gives(db.collections.len() as int, 8),
        entries_at(encode_db(db), 8, db.collections.len()).gives(
            db.collections,
            encode_db(db).len() as int,
        ),
{
    let bytes = encode_db(db);
    let version = i32_bytes(db.version);
    let count = i32_bytes(db.collections.len() as int);
    let rest = entries_bytes(db.collections);
    assert(bytes.subrange(0, bytes.len() as int) =~= bytes);
    lemma_stands_split(bytes, 0, version, count + rest);
    lemma_stands_split(bytes, version.len() as int, count, rest);
    law_i32_round_trip(bytes, 0, db.version);
    law_i32_round_trip(bytes, version.len() as int, db.collections.len() as int);
    law_entries_round_trip(bytes, (version.len() + count.len()) as int, db.collections);
}

/// What was written to a `collection.db` is what is read from it, as long as
/// the counts fit their 32 bits and the file fits into memory.
pub proof fn law_db_round_trip(db: DbView)
    requires
        i32::MIN <= db.version <= i32::MAX,
        db.collections.len() <= i32::MAX,
        forall|i: int|
            0 <= i < db.collections.len() ==> (#[trigger] db.collections[i]).hashes.len()
                <= i32::MAX,
        encode_db(db).len() <= usize::MAX,
    ensures
        decode_db(encode_db(db)) == Ok::<DbView, CollectionFault>(db),
{
    lemma_db_parts(db);
}

/// Bytes are read from the beginning of a file as from the whole.
proof fn lemma_exact_extends(a: Seq<u8>, b: Seq<u8>, pos: int, len: int)
    requires
        a.is_prefix_of(b),
        0 <= pos,
        0 <= len,
        exact_at(a, pos, len) is Value,
    ensures
        exact_at(b, pos, len) == exact_at(a, pos, len),
        pos <= exact_at(a, pos, len)->Value_1 <= a.len(),
{
    assert(b.subrange(pos, pos + len) =~= a.subrange(pos, pos + len));
}

/// So is a number.
proof fn lemma_uleb_extends(a: Seq<u8>, b: Seq<u8>, pos: int, k: nat)
    requires
        a.is_prefix_of(b),
        0 <= pos,
        k <= 9,
        uleb_from(a, pos, k) is Value,
    ensures
        uleb_from(b, pos, k) == uleb_from(a, pos, k),
        pos <= uleb_from(a, pos, k)->Value_1 <= a.len(),
    decreases 10 - k,
{
    lemma_exact_extends(a, b, pos, 1);
    if u8_at(a, pos)->Value_0 >= 128 {
        lemma_uleb_extends(a, b, pos + 1, k + 1);
    }
}

/// So is a string.
proof fn lemma_string_extends(a: Seq<u8>, b: Seq<u8>, pos: int)
    requires
        a.is_prefix_of(b),
        0 <= pos,
        string_at(a, pos) is Value,
    ensures
        string_at(b, pos) == string_at(a, pos),
        pos <= string_at(a, pos)->Value_1 <= a.len(),
{
    lemma_exact_extends(a, b, pos, 1);
    if u8_at(a, pos)->Value_0 != 0 {
        lemma_uleb_extends(a, b, pos + 1, 0);
        match uleb_at(a, pos + 1) {
            Got::Value(n, q) => {
                lemma_exact_extends(a, b, q, ((n as u64) as usize) as int);
            },
            Got::Fault(e) => {},
        }
    }
}

/// So is a list of strings.
proof fn lemma_strings_extend(a: Seq<u8>, b: Seq<u8>, pos: int, n: nat)
    requires
        a.is_prefix_of(b),
        0 <= pos <= a.len(),
        strings_at(a, pos, n) is Value,
    ensures
        strings_at(b, pos, n) == strings_at(a, pos, n),
        pos <= strings_at(a, pos, n)->Value_1 <= a.len(),
    decreases n,
{
    if n > 0 {
        lemma_string_extends(a, b, pos);
        lemma_strings_extend(a, b, string_at(a, pos)->Value_1, (n - 1) as nat);
    }
}

/// So is a collection.
proof fn lemma_entry_extends(a: Seq<u8>, b: Seq<u8>, pos: int)
    requires
        a.is_prefix_of(b),
        0 <= pos,
        entry_at(a, pos) is Value,
    ensures
        entry_at(b, pos) == entry_at(a, pos),
        pos <= entry_at(a, pos)->Value_1 <= a.len(),
{
    lemma_string_extends(a, b, pos);
    let p = string_at(a, pos)->Value_1;
    lemma_exact_extends(a, b, p, 4);
    match i32_at(a, p) {
        Got::Value(n, q) => {
            lemma_strings_extend(a, b, q, n as nat);
        },
        Got::Fault(e) => {},
    }
}

/// So is a list of collections.
proof fn lemma_entries_extend(a: Seq<u8>, b: Seq<u8>, pos: int, n: nat)
    requires
        a.is_prefix_of(b),
        0 <= pos <= a.len(),
        entries_at(a, pos, n) is Value,
    ensures
        entries_at(b, pos, n) == entries_at(a, pos, n),
        pos <= entries_at(a, pos, n)->Value_1 <= a.len(),
    decreases n,
{
    if n > 0 {
        lemma_entry_extends(a, b, pos);
        lemma_entries_extend(a, b, entry_at(a, pos)->Value_1, (n - 1) as nat);
    }
}

/// Bytes behind what is read of a `collection.db` change nothing.
pub proof fn law_bytes_behind_are_ignored(bytes: Seq<u8>, tail: Seq<u8>)
    requires
        decode_db(bytes) is Ok,
    ensures
        decode_db(bytes + tail) == decode_db(bytes),
{
    let b = bytes + tail;
    lemma_exact_extends(bytes, b, 0, 4);
    lemma_exact_extends(bytes, b, 4, 4);
    lemma_entries_extend(bytes, b, 8, i32_at(bytes, 4)->Value_0 as nat);
}

/// A `collection.db` that was cut off is never taken for a shorter one, and one
/// with bytes behind it is read as if they were not there.
pub proof fn law_cut_db_is_refused(db: DbView, k: int, tail: Seq<u8>)
    requires
        i32::MIN <= db.version <= i32::MAX,
        db.collections.len() <= i32::MAX,
        forall|i: int|
            0 <= i < db.collections.len() ==> (#[trigger] db.collections[i]).hashes.len()
                <= i32::MAX,
        encode_db(db).len() <= usize::MAX,
        0 <= k < encode_db(db).len(),
    ensures
        decode_db(encode_db(db).take(k)) is Err,
        decode_db(encode_db(db) + tail) == Ok::<DbView, CollectionFault>(db),
{
    let bytes = encode_db(db);
    let cut = bytes.take(k);
    law_db_round_trip(db);
    law_bytes_behind_are_ignored(bytes, tail);
    if decode_db(cut) is Ok {
        lemma_db_parts(db);
        lemma_exact_extends(cut, bytes, 0, 4);
        lemma_exact_extends(cut, bytes, 4, 4);
        lemma_entries_extend(cut, bytes, 8, db.collections.len());
    }
}

/// After an update the collection has the new checksums. Every other name
/// gives what it gave before, and the names keep their order; a new one comes
/// last.
pub proof fn law_upsert_keeps_others(
    list: Seq<EntryView>,
    name: Seq<char>,
    hashes: Seq<Seq<char>>,
    other: Seq<char>,
)
    requires
        other != name,
    ensures
        hashes_of(upserted(list, name, hashes), name) == Some(hashes),
        hashes_of(upserted(list, name, hashes), other) == hashes_of(list, other),
        forall|i: int|
            0 <= i < list.len() ==> (#[trigger] upserted(list, name, hashes)[i]).name
                == list[i].name,
        hashes_of(list, name) is Some ==> upserted(list, name, hashes).len() == list.len(),
        hashes_of(list, name) is None ==> upserted(list, name, hashes).len() == list.len() + 1,
{
    let new = upserted(list, name, hashes);
    lemma_first_named(list, name);
    lemma_first_named(list, other);
    let k = first_named(list, name) as int;
    let j = first_named(list, other) as int;
    assert forall|i: int| 0 <= i < k implies (#[trigger] new[i]).name != name by {
        assert(new[i] == list[i]);
    }
    lemma_first_named_is(new, name, k);
    if j < list.len() {
        assert forall|i: int| 0 <= i < j implies (#[trigger] new[i]).name != other by {
            assert(list[i].name != other);
        }
        lemma_first_named_is(new, other, j);
    } else {
        assert forall|i: int| 0 <= i < new.len() implies (#[trigger] new[i]).name != other by {
            if i < list.len() {
                assert(list[i].name != other);
            }
        }
        lemma_first_named_is(new, other, new.len() as int);
    }
}

/// After a deletion no collection has the name, and the others are all there,
/// in their order: what `without` leaves out is named `name`, and what it
/// keeps is not.
pub proof fn law_delete_keeps_others(list: Seq<EntryView>, name: Seq<char>, other: Seq<char>)
    requires
        other != name,
    ensures
        hashes_of(without(list, name), name) is None,
        hashes_of(without(list, name), other) == hashes_of(list, other),
        without(list, name) == list.filter(|e: EntryView| e.name != name),
    decreases list.len(),
{
    reveal(Seq::filter);
    if list.len() > 0 {
        let init = list.drop_last();
        let last = list.last();
        law_delete_keeps_others(init, name, other);
        lemma_first_named(list, other);
        lemma_first_named(init, other);
        lemma_first_named(without(init, name), other);
        lemma_first_named(without(init, name), name);
        let j = first_named(init, other) as int;
        if j < init.len() {
            assert(list[j] == init[j]);
            assert forall|i: int| 0 <= i < j implies (#[trigger] list[i]).name != other by {
                assert(init[i].name != other);
            }
            lemma_first_named_is(list, other, j);
        } else {
            assert forall|i: int| 0 <= i < init.len() implies (#[trigger] list[i]).name != other by {
                assert(init[i].name != other);
            }
            if last.name == other {
                lemma_first_named_is(list, other, init.len() as int);
            } else {
                lemma_first_named_is(list, other, list.len() as int);
            }
        }
        if last.name != name {
            let w = without(init, name);
            let n = w.push(last);
            assert forall|i: int| 0 <= i < n.len() implies (#[trigger] n[i]).name != name by {
                if i < w.len() {
                    assert(w[i].name != name);
                }
            }
            lemma_first_named_is(n, name, n.len() as int);
            let f = first_named(w, other) as int;
            if f < w.len() {
                assert(n[f] == w[f]);
                assert forall|i: int| 0 <= i < f implies (#[trigger] n[i]).name != other by {
                    assert(w[i].name != other);
                }
                lemma_first_named_is(n, other, f);
            } else {
                assert forall|i: int| 0 <= i < w.len() implies (#[trigger] n[i]).name != other by {
                    assert(w[i].name != other);
                }
                if last.name == other {
                    lemma_first_named_is(n, other, w.len() as int);
                } else {
                    lemma_first_named_is(n, other, n.len() as int);
                }
            }
        }
    }
}

/// Adding checksums keeps the known ones in front, brings in every new one,
/// brings in no other, and makes no duplicate where there was none.
pub proof fn law_merge(known: Seq<Seq<char>>, hashes: Seq<Seq<char>>)
    ensures
        known.len() <= merged(known, hashes).len(),
        merged(known, hashes).take(known.len() as int) == known,
        forall|i: int|
            0 <= i < hashes.len() ==> merged(known, hashes).contains(#[trigger] hashes[i]),
        forall|i: int|
            known.len() <= i < merged(known, hashes).len() ==> hashes.contains(
                #[trigger] merged(known, hashes)[i],
            ),
        known.no_duplicates() ==> merged(known, hashes).no_duplicates(),
    decreases hashes.len(),
{
    let m = merged(known, hashes);
    if hashes.len() == 0 {
        assert(m.take(known.len() as int) =~= known);
    } else {
        let init = hashes.drop_last();
        law_merge(known, init);
        let n = merged(known, init);
        assert(m.take(known.len() as int) =~= n.take(known.len() as int));
        assert forall|i: int| 0 <= i < hashes.len() implies m.contains(#[trigger] hashes[i]) by {
            if i < init.len() {
                assert(n.contains(init[i]));
                let j = choose|j: int| 0 <= j < n.len() && n[j] == init[i];
                assert(m[j] == hashes[i]);
            } else if n.contains(hashes.last()) {
                assert(m == n);
            } else {
                assert(m[n.len() as int] == hashes[i]);
            }
        }
        assert forall|i: int| known.len() <= i < m.len() implies hashes.contains(
            #[trigger] m[i],
        ) by {
            if i < n.len() {
                assert(init.contains(n[i]));
                let j = choose|j: int| 0 <= j < init.len() && init[j] == n[i];
                assert(hashes[j] == m[i]);
            } else {
                assert(hashes[hashes.len() - 1] == m[i]);
            }
        }
    }
}

/// A zero byte is the empty string, eleven begins any other, and nothing else
/// begins a string.
pub proof fn law_string_markers(bytes: Seq<u8>, pos: int)
    requires
        0 <= pos < bytes.len() <= usize::MAX,
    ensures
        bytes[pos] == 0 ==> string_at(bytes, pos).gives(Seq::empty(), pos + 1),
        bytes[pos] != 0 && bytes[pos] != 11 ==> string_at(bytes, pos).fails(
            CollectionFault::InvalidMarker(bytes[pos]),
        ),
        forall|s: Seq<char>| s.len() > 0 ==> #[trigger] string_bytes(s)[0] == 11,
        string_bytes(Seq::empty()) == seq![0u8],
{
    assert(bytes.subrange(pos, pos + 1)[0] == bytes[pos]);
}

/// A file begins with its version and the number of its collections, in four bytes
/// each; a negative number is refused.
pub proof fn law_file_layout(db: DbView)
    requires
        i32::MIN <= db.version <= i32::MAX,
        db.collections.len() <= i32::MAX,
    ensures
        encode_db(db).len() >= 8,
        encode_db(db).subrange(0, 4) == i32_bytes(db.version),
        encode_db(db).subrange(4, 8) == i32_bytes(db.collections.len() as int),
        encode_db(db).skip(8) == entries_bytes(db.collections),
{
    let v = i32_bytes(db.version);
    let n = i32_bytes(db.collections.len() as int);
    lemma_i32_bytes_len(db.version);
    lemma_i32_bytes_len(db.collections.len() as int);
    let all = encode_db(db);
    assert(all.subrange(0, 4) =~= v);
    assert(all.subrange(4, 8) =~= n);
    assert(all.skip(8) =~= entries_bytes(db.collections));
}

/// Four bytes write a number.
proof fn lemma_i32_bytes_len(v: int)
    ensures
        i32_bytes(v).len() == 4,
{
    reveal_with_fuel(crate::bytes::le_bytes, 5);
}

} // verus!
