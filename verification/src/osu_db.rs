//! `osu!.db`: the star ratings that the client keeps for its beatmaps.
use crate::bytes::{le_number, ByteCursor, ByteError};
#[allow(unused_imports)]
use crate::bytes::{
    exact_at, i32_at, le_value, lemma_top_bit, u8_at, uleb_at, uleb_from, Got,
};
use crate::order::TextIndex;
#[allow(unused_imports)]
use crate::number::decimal;
use crate::number::decimal_text;
use crate::text::{chars_of, join2, lower_text, to_lower};
use crate::trusted::lossy;
#[allow(unused_imports)]
use crate::trusted::lossy_text;
#[allow(unused_imports)]
use vstd::arithmetic::power2::{
    lemma2_to64, lemma2_to64_rest, lemma_pow2_adds, lemma_pow2_strictly_increases, pow2,
};
#[allow(unused_imports)]
use vstd::bits::lemma_u64_shl_is_mul;
use vstd::prelude::*;
use vstd::slice::slice_subrange;
use vstd::string::*;

verus! {

/// The first version whose records hold star ratings for each mode.
pub const STAR_RATING_VERSION: i32 = 20140609;

/// What is kept of a beatmap: its checksum, the name of its file and its star
/// rating without mods in the standard mode, as the bits of a double.
#[derive(Debug)]
pub struct DbBeatmapMeta {
    pub md5: String,
    pub osu_filename: String,
    pub standard_stars: Option<u64>,
}

/// The view of a [`DbBeatmapMeta`].
#[verifier::ext_equal]
pub struct MetaView {
    pub md5: Seq<char>,
    pub osu_filename: Seq<char>,
    pub standard_stars: Option<u64>,
}

impl View for DbBeatmapMeta {
    type V = MetaView;

    open spec fn view(&self) -> MetaView {
        MetaView {
            md5: self.md5@,
            osu_filename: self.osu_filename@,
            standard_stars: self.standard_stars,
        }
    }
}

/// Why an `osu!.db` could not be read.
#[derive(Clone, Copy, Debug, PartialEq, Eq, Structural)]
pub enum DbError {
    /// A value does not end within the file.
    UnexpectedEnd,
    /// A string begins with this byte.
    InvalidMarker(u8),
}

/// The text of an error.
pub open spec fn error_text(e: DbError) -> Seq<char> {
    match e {
        DbError::UnexpectedEnd => "failed to fill whole buffer"@,
        DbError::InvalidMarker(m) => "invalid osu!.db string marker "@ + decimal(m as nat),
    }
}

impl DbError {
    /// The text of the error.
    pub fn message(&self) -> (r: String)
        ensures
            r@ == error_text(*self),
    {
        match self {
            DbError::UnexpectedEnd => "failed to fill whole buffer".to_owned(),
            DbError::InvalidMarker(m) => join2(
                "invalid osu!.db string marker ",
                &decimal_text(*m as u64),
            ),
        }
    }
}

/// The fault that a primitive value has in an `osu!.db`.
pub open spec fn db_fault(e: ByteError) -> DbError {
    DbError::UnexpectedEnd
}

/// A 32-bit integer.
pub open spec fn db_i32(bytes: Seq<u8>, pos: int) -> Got<int, DbError> {
    match i32_at(bytes, pos) {
        Got::Value(v, p) => Got::Value(v, p),
        Got::Fault(e) => Got::Fault(db_fault(e)),
    }
}

/// `len` bytes.
pub open spec fn db_exact(bytes: Seq<u8>, pos: int, len: int) -> Got<Seq<u8>, DbError> {
    match exact_at(bytes, pos, len) {
        Got::Value(v, p) => Got::Value(v, p),
        Got::Fault(e) => Got::Fault(db_fault(e)),
    }
}

/// The length that goes on at `pos`, where the bytes before gave `value` and the
/// next seven bits belong at `shift`. Any number of bytes may follow: the places
/// of the bits go round the 64 that there are.
pub open spec fn db_length_from(bytes: Seq<u8>, pos: int, value: u64, shift: u64) -> Got<
    u64,
    DbError,
>
    decreases bytes.len() - pos,
{
    match u8_at(bytes, pos) {
        Got::Fault(e) => Got::Fault(db_fault(e)),
        Got::Value(b, next) => {
            let v = value | (((b & 0x7f) as u64) << shift);
            if b & 0x80 == 0 {
                Got::Value(v, next)
            } else {
                db_length_from(bytes, next, v, ((shift + 7) % 64) as u64)
            }
        },
    }
}

/// The length of a string.
pub open spec fn db_length(bytes: Seq<u8>, pos: int) -> Got<u64, DbError> {
    db_length_from(bytes, pos, 0, 0)
}

/// A string: a zero byte for the empty one, or a marker, the number of bytes
/// and the bytes, of which what is not UTF-8 is replaced.
pub open spec fn db_string(bytes: Seq<u8>, pos: int) -> Got<Seq<char>, DbError> {
    match u8_at(bytes, pos) {
        Got::Fault(e) => Got::Fault(db_fault(e)),
        Got::Value(marker, p) => if marker == 0 {
            Got::Value(Seq::empty(), p)
        } else if marker == 0x0b {
            match db_length(bytes, p) {
                Got::Fault(e) => Got::Fault(e),
                Got::Value(n, q) => match exact_at(bytes, q, (n as usize) as int) {
                    Got::Fault(e) => Got::Fault(db_fault(e)),
                    Got::Value(b, r) => Got::Value(lossy_text(b), r),
                },
            }
        } else {
            Got::Fault(DbError::InvalidMarker(marker))
        },
    }
}

/// The position after `n` strings.
pub open spec fn db_strings_end(bytes: Seq<u8>, pos: int, n: nat) -> Got<(), DbError>
    decreases n,
{
    if n == 0 {
        Got::Value((), pos)
    } else {
        match db_string(bytes, pos) {
            Got::Fault(e) => Got::Fault(e),
            Got::Value(s, p) => db_strings_end(bytes, p, (n - 1) as nat),
        }
    }
}

/// The star rating for no mods among `n` pairs of mods and rating, `known` so
/// far: the last one counts.
pub open spec fn db_pairs(bytes: Seq<u8>, pos: int, n: nat, known: Option<u64>) -> Got<
    Option<u64>,
    DbError,
>
    decreases n,
{
    if n == 0 {
        Got::Value(known, pos)
    } else {
        match db_exact(bytes, pos, 14) {
            Got::Fault(e) => Got::Fault(e),
            Got::Value(b, p) => {
                let stars = if le_value(b.subrange(1, 5)) == 0 {
                    Some(le_value(b.subrange(6, 14)) as u64)
                } else {
                    known
                };
                db_pairs(bytes, p, (n - 1) as nat, stars)
            },
        }
    }
}

/// The star ratings for one mode: their number, then the pairs.
pub open spec fn db_ratings(bytes: Seq<u8>, pos: int) -> Got<Option<u64>, DbError> {
    match db_i32(bytes, pos) {
        Got::Fault(e) => Got::Fault(e),
        Got::Value(n, p) => db_pairs(
            bytes,
            p,
            if n > 0 {
                n as nat
            } else {
                0
            },
            None,
        ),
    }
}

/// The star rating in the standard mode, behind which the ratings for the
/// other modes end. Old files hold one double.
pub open spec fn db_stars(bytes: Seq<u8>, pos: int, version: int) -> Got<Option<u64>, DbError> {
    if version < STAR_RATING_VERSION {
        match db_exact(bytes, pos, 8) {
            Got::Fault(e) => Got::Fault(e),
            Got::Value(b, p) => Got::Value(Some(le_value(b) as u64), p),
        }
    } else {
        match db_ratings(bytes, pos) {
            Got::Fault(e) => Got::Fault(e),
            Got::Value(stars, p) => match db_ratings(bytes, p) {
                Got::Fault(e) => Got::Fault(e),
                Got::Value(taiko, q) => match db_ratings(bytes, q) {
                    Got::Fault(e) => Got::Fault(e),
                    Got::Value(fruits, r) => match db_ratings(bytes, r) {
                        Got::Fault(e) => Got::Fault(e),
                        Got::Value(mania, end) => Got::Value(stars, end),
                    },
                },
            },
        }
    }
}

/// The end of a record, from behind the star ratings: numbers, two strings and
/// numbers.
pub open spec fn db_record_end(bytes: Seq<u8>, pos: int, version: int) -> Got<(), DbError> {
    match db_exact(
        bytes,
        pos,
        if version >= STAR_RATING_VERSION {
            79
        } else {
            71
        },
    ) {
        Got::Fault(e) => Got::Fault(e),
        Got::Value(b, p) => match db_strings_end(bytes, p, 2) {
            Got::Fault(e) => Got::Fault(e),
            Got::Value(u, q) => match db_exact(bytes, q, 11) {
                Got::Fault(e) => Got::Fault(e),
                Got::Value(b, r) => Got::Value((), r),
            },
        },
    }
}

/// The record of a beatmap: its size, six strings, the checksum, the name of
/// the file, 51 bytes of numbers, the star ratings and the rest.
pub open spec fn db_record(bytes: Seq<u8>, pos: int, version: int) -> Got<MetaView, DbError> {
    match db_exact(bytes, pos, 4) {
        Got::Fault(e) => Got::Fault(e),
        Got::Value(size, a) => match db_strings_end(bytes, a, 6) {
            Got::Fault(e) => Got::Fault(e),
            Got::Value(u, b) => match db_string(bytes, b) {
                Got::Fault(e) => Got::Fault(e),
                Got::Value(md5, c) => match db_string(bytes, c) {
                    Got::Fault(e) => Got::Fault(e),
                    Got::Value(osu_filename, d) => match db_exact(bytes, d, 51) {
                        Got::Fault(e) => Got::Fault(e),
                        Got::Value(n, f) => match db_stars(bytes, f, version) {
                            Got::Fault(e) => Got::Fault(e),
                            Got::Value(standard_stars, g) => match db_record_end(
                                bytes,
                                g,
                                version,
                            ) {
                                Got::Fault(e) => Got::Fault(e),
                                Got::Value(v, end) => Got::Value(
                                    MetaView { md5, osu_filename, standard_stars },
                                    end,
                                ),
                            },
                        },
                    },
                },
            },
        },
    }
}

/// The `n` records from `pos` on.
pub open spec fn db_records(bytes: Seq<u8>, pos: int, version: int, n: nat) -> Result<
    Seq<MetaView>,
    DbError,
>
    decreases n,
{
    if n == 0 {
        Ok(Seq::empty())
    } else {
        match db_record(bytes, pos, version) {
            Got::Fault(e) => Err(e),
            Got::Value(meta, p) => match db_records(bytes, p, version, (n - 1) as nat) {
                Err(e) => Err(e),
                Ok(rest) => Ok(seq![meta] + rest),
            },
        }
    }
}

/// The records of an `osu!.db`: behind its version, 13 bytes of numbers, a
/// string and the number of records.
pub open spec fn decode_osu_db(bytes: Seq<u8>) -> Result<Seq<MetaView>, DbError> {
    match db_i32(bytes, 0) {
        Got::Fault(e) => Err(e),
        Got::Value(version, a) => match db_exact(bytes, a, 13) {
            Got::Fault(e) => Err(e),
            Got::Value(numbers, b) => match db_string(bytes, b) {
                Got::Fault(e) => Err(e),
                Got::Value(player, c) => match db_i32(bytes, c) {
                    Got::Fault(e) => Err(e),
                    Got::Value(n, d) => db_records(
                        bytes,
                        d,
                        version,
                        if n > 0 {
                            n as nat
                        } else {
                            0
                        },
                    ),
                },
            },
        },
    }
}

/// The records by checksum: the last one counts, and an empty checksum is no
/// key.
pub open spec fn metas_by_md5(metas: Seq<MetaView>) -> Map<Seq<char>, MetaView>
    decreases metas.len(),
{
    if metas.len() == 0 {
        Map::empty()
    } else {
        let m = metas_by_md5(metas.drop_last());
        if metas.last().md5.len() == 0 {
            m
        } else {
            m.insert(metas.last().md5, metas.last())
        }
    }
}

/// The records by file name in lower case: the last one counts, and an empty
/// name is no key.
pub open spec fn metas_by_filename(metas: Seq<MetaView>) -> Map<Seq<char>, MetaView>
    decreases metas.len(),
{
    if metas.len() == 0 {
        Map::empty()
    } else {
        let m = metas_by_filename(metas.drop_last());
        if metas.last().osu_filename.len() == 0 {
            m
        } else {
            m.insert(lower_text(metas.last().osu_filename), metas.last())
        }
    }
}

/// The records of an `osu!.db`, found by checksum or by file name.
#[derive(Debug)]
pub struct OsuDbIndex {
    pub metas: Vec<DbBeatmapMeta>,
    pub by_md5: TextIndex,
    pub by_filename: TextIndex,
}

/// The views of a list of records.
pub open spec fn metas_view(v: Seq<DbBeatmapMeta>) -> Seq<MetaView> {
    Seq::new(v.len(), |i: int| v[i]@)
}

/// The positions in `m`, made the records there.
pub open spec fn placed(m: Map<Seq<char>, int>, metas: Seq<MetaView>) -> Map<Seq<char>, MetaView> {
    Map::new(|k: Seq<char>| m.contains_key(k), |k: Seq<char>| metas[m[k]])
}

/// Whether every position in `m` is one of `n`.
pub open spec fn places_below(m: Map<Seq<char>, int>, n: nat) -> bool {
    forall|k: Seq<char>| #[trigger] m.contains_key(k) ==> 0 <= m[k] < n
}

impl OsuDbIndex {
    /// The records in the order of the file.
    pub open spec fn records(self) -> Seq<MetaView> {
        metas_view(self.metas@)
    }

    /// The two maps are those of the records.
    pub open spec fn wf(self) -> bool {
        &&& self.by_md5.wf()
        &&& self.by_filename.wf()
        &&& places_below(self.by_md5@, self.metas@.len())
        &&& places_below(self.by_filename@, self.metas@.len())
        &&& placed(self.by_md5@, self.records()) == metas_by_md5(self.records())
        &&& placed(self.by_filename@, self.records()) == metas_by_filename(self.records())
    }

    /// The index without records.
    pub fn new() -> (r: Self)
        ensures
            r.wf(),
            r.records() == Seq::<MetaView>::empty(),
    {
        let r = OsuDbIndex {
            metas: Vec::new(),
            by_md5: TextIndex::new(),
            by_filename: TextIndex::new(),
        };
        assert(r.records() =~= Seq::empty());
        assert(placed(r.by_md5@, r.records()) =~= Map::empty());
        assert(placed(r.by_filename@, r.records()) =~= Map::empty());
        r
    }

    /// How many records there are.
    pub fn len(&self) -> (n: usize)
        ensures
            n == self.records().len(),
    {
        self.metas.len()
    }

    /// Adds a record behind the others.
    pub fn add_record(&mut self, meta: DbBeatmapMeta)
        requires
            old(self).wf(),
        ensures
            final(self).wf(),
            final(self).records() == old(self).records().push(meta@),
    {
        let place: usize = self.metas.len();
        let ghost before = self.records();
        let ghost after = before.push(meta@);
        assert(after.drop_last() =~= before);
        if chars_of(&meta.md5).len() > 0 {
            self.by_md5.insert(meta.md5.clone(), place);
        }
        if chars_of(&meta.osu_filename).len() > 0 {
            self.by_filename.insert(to_lower(&meta.osu_filename), place);
        }
        self.metas.push(meta);
        assert(self.records() =~= after);
        assert(placed(self.by_md5@, after) =~= metas_by_md5(after)) by {
            assert forall|k: Seq<char>| #[trigger] old(self).by_md5@.contains_key(k) implies after[old(
                self,
            ).by_md5@[k]] == metas_by_md5(before)[k] by {
                assert(placed(old(self).by_md5@, before).contains_key(k));
                assert(placed(old(self).by_md5@, before)[k] == before[old(self).by_md5@[k]]);
            }
            assert forall|k: Seq<char>| old(self).by_md5@.contains_key(k) == #[trigger] metas_by_md5(
                before,
            ).contains_key(k) by {
                assert(placed(old(self).by_md5@, before).contains_key(k) == old(
                    self,
                ).by_md5@.contains_key(k));
            }
        }
        assert(placed(self.by_filename@, after) =~= metas_by_filename(after)) by {
            assert forall|k: Seq<char>| #[trigger] old(self).by_filename@.contains_key(
                k,
            ) implies after[old(self).by_filename@[k]] == metas_by_filename(before)[k] by {
                assert(placed(old(self).by_filename@, before).contains_key(k));
                assert(placed(old(self).by_filename@, before)[k] == before[old(
                    self,
                ).by_filename@[k]]);
            }
            assert forall|k: Seq<char>|
                old(self).by_filename@.contains_key(k) == #[trigger] metas_by_filename(
                    before,
                ).contains_key(k) by {
                assert(placed(old(self).by_filename@, before).contains_key(k) == old(
                    self,
                ).by_filename@.contains_key(k));
            }
        }
    }

    /// The record of a beatmap: the one with its checksum or, where there is
    /// none, the one with its file name in any case of letters.
    pub fn get(&self, md5: &str, osu_filename: &str) -> (r: Option<&DbBeatmapMeta>)
        requires
            self.wf(),
        ensures
            match r {
                Some(meta) => found_meta(self.records(), md5@, osu_filename@) == Some(meta@),
                None => found_meta(self.records(), md5@, osu_filename@) is None,
            },
    {
        proof {
            assert(placed(self.by_md5@, self.records()).contains_key(md5@)
                == self.by_md5@.contains_key(md5@));
            let low = lower_text(osu_filename@);
            assert(placed(self.by_filename@, self.records()).contains_key(low)
                == self.by_filename@.contains_key(low));
        }
        if let Some(p) = self.by_md5.get(md5) {
            assert(placed(self.by_md5@, self.records())[md5@] == self.records()[p as int]);
            return Some(&self.metas[p]);
        }
        let low = to_lower(osu_filename);
        match self.by_filename.get(&low) {
            Some(p) => {
                assert(placed(self.by_filename@, self.records())[low@] == self.records()[p as int]);
                Some(&self.metas[p])
            },
            None => None,
        }
    }
}

/// The record of a beatmap: the last one with its checksum or, where there is
/// none, the last one with its file name in any case of letters.
pub open spec fn found_meta(
    metas: Seq<MetaView>,
    md5: Seq<char>,
    osu_filename: Seq<char>,
) -> Option<MetaView> {
    if metas_by_md5(metas).contains_key(md5) {
        Some(metas_by_md5(metas)[md5])
    } else if metas_by_filename(metas).contains_key(lower_text(osu_filename)) {
        Some(metas_by_filename(metas)[lower_text(osu_filename)])
    } else {
        None
    }
}

/// A position in an `osu!.db`.
pub struct DbReader<'a> {
    pub cursor: ByteCursor<'a>,
}

/// The error that a primitive value has in an `osu!.db`.
fn db_error(e: ByteError) -> (r: DbError)
    ensures
        r == db_fault(e),
{
    match e {
        ByteError::UnexpectedEnd => DbError::UnexpectedEnd,
        ByteError::OffsetOverflow => DbError::UnexpectedEnd,
    }
}

impl<'a> DbReader<'a> {
    /// The position lies in the file or at its end.
    pub open spec fn wf(self) -> bool {
        self.cursor.wf()
    }

    /// The bytes of the file.
    pub open spec fn file(self) -> Seq<u8> {
        self.cursor.bytes@
    }

    /// The position.
    pub open spec fn pos(self) -> int {
        self.cursor.offset as int
    }

    /// The start of a file.
    pub fn new(bytes: &'a [u8]) -> (r: Self)
        ensures
            r.wf(),
            r.file() == bytes@,
            r.pos() == 0,
    {
        DbReader { cursor: ByteCursor { bytes, offset: 0 } }
    }

    /// Reads `len` bytes.
    pub fn exact(&mut self, len: usize) -> (r: Result<&'a [u8], DbError>)
        requires
            old(self).wf(),
        ensures
            final(self).wf(),
            final(self).file() == old(self).file(),
            match r {
                Ok(b) => db_exact(old(self).file(), old(self).pos(), len as int).gives(
                    b@,
                    final(self).pos(),
                ),
                Err(e) => db_exact(old(self).file(), old(self).pos(), len as int).fails(e),
            },
    {
        match self.cursor.read_exact(len) {
            Ok(b) => Ok(b),
            Err(e) => Err(db_error(e)),
        }
    }

    /// Reads a 32-bit integer.
    pub fn i32(&mut self) -> (r: Result<i32, DbError>)
        requires
            old(self).wf(),
        ensures
            final(self).wf(),
            final(self).file() == old(self).file(),
            match r {
                Ok(v) => db_i32(old(self).file(), old(self).pos()).gives(
                    v as int,
                    final(self).pos(),
                ),
                Err(e) => db_i32(old(self).file(), old(self).pos()).fails(e),
            },
    {
        match self.cursor.read_i32() {
            Ok(v) => Ok(v),
            Err(e) => Err(db_error(e)),
        }
    }

    /// Reads the length of a string.
    fn length(&mut self) -> (r: Result<u64, DbError>)
        requires
            old(self).wf(),
        ensures
            final(self).wf(),
            final(self).file() == old(self).file(),
            match r {
                Ok(v) => db_length(old(self).file(), old(self).pos()).gives(v, final(self).pos()),
                Err(e) => db_length(old(self).file(), old(self).pos()).fails(e),
            },
    {
        let mut value: u64 = 0;
        let mut shift: u64 = 0;
        loop
            invariant
                self.wf(),
                self.file() == old(self).file(),
                shift < 64,
                db_length_from(self.file(), self.pos(), value, shift) == db_length(
                    old(self).file(),
                    old(self).pos(),
                ),
            decreases self.file().len() - self.pos(),
        {
            let b: u8 = match self.cursor.read_u8() {
                Ok(b) => b,
                Err(e) => return Err(db_error(e)),
            };
            value = value | (((b & 0x7f) as u64) << shift);
            if b & 0x80 == 0 {
                return Ok(value);
            }
            shift = (shift + 7) % 64;
        }
    }

    /// Reads a string.
    pub fn string(&mut self) -> (r: Result<String, DbError>)
        requires
            old(self).wf(),
        ensures
            final(self).wf(),
            final(self).file() == old(self).file(),
            match r {
                Ok(s) => db_string(old(self).file(), old(self).pos()).gives(s@, final(self).pos()),
                Err(e) => db_string(old(self).file(), old(self).pos()).fails(e),
            },
    {
        let marker: u8 = match self.cursor.read_u8() {
            Ok(m) => m,
            Err(e) => return Err(db_error(e)),
        };
        if marker == 0 {
            let s = String::new();
            assert(s@ =~= Seq::empty());
            return Ok(s);
        }
        if marker != 0x0b {
            return Err(DbError::InvalidMarker(marker));
        }
        let len: usize = match self.length() {
            Ok(n) => n as usize,
            Err(e) => return Err(e),
        };
        match self.cursor.read_exact(len) {
            Ok(b) => Ok(lossy(b)),
            Err(e) => Err(db_error(e)),
        }
    }

    /// Reads over `n` strings.
    fn skip_strings(&mut self, n: usize) -> (r: Result<(), DbError>)
        requires
            old(self).wf(),
        ensures
            final(self).wf(),
            final(self).file() == old(self).file(),
            match r {
                Ok(u) => db_strings_end(old(self).file(), old(self).pos(), n as nat).gives(
                    (),
                    final(self).pos(),
                ),
                Err(e) => db_strings_end(old(self).file(), old(self).pos(), n as nat).fails(e),
            },
    {
        let mut i: usize = 0;
        while i < n
            invariant
                self.wf(),
                self.file() == old(self).file(),
                i <= n,
                db_strings_end(self.file(), self.pos(), (n - i) as nat) == db_strings_end(
                    old(self).file(),
                    old(self).pos(),
                    n as nat,
                ),
            decreases n - i,
        {
            match self.string() {
                Ok(s) => {},
                Err(e) => return Err(e),
            }
            i = i + 1;
        }
        Ok(())
    }
}

/// Reads the star ratings for one mode: the one without mods.
pub fn read_star_rating_pairs(reader: &mut DbReader<'_>) -> (r: Result<Option<u64>, DbError>)
    requires
        old(reader).wf(),
    ensures
        final(reader).wf(),
        final(reader).file() == old(reader).file(),
        match r {
            Ok(stars) => db_ratings(old(reader).file(), old(reader).pos()).gives(
                stars,
                final(reader).pos(),
            ),
            Err(e) => db_ratings(old(reader).file(), old(reader).pos()).fails(e),
        },
{
    let count: i32 = match reader.i32() {
        Ok(n) => n,
        Err(e) => return Err(e),
    };
    let ghost n = if count > 0 {
        count as nat
    } else {
        0
    };
    let ghost start = reader.pos();
    let mut no_mod: Option<u64> = None;
    let mut i: i32 = 0;
    while i < count
        invariant
            reader.wf(),
            reader.file() == old(reader).file(),
            0 <= i,
            i <= n,
            n == (if count > 0 {
                count as nat
            } else {
                0
            }),
            db_pairs(reader.file(), reader.pos(), (n - i) as nat, no_mod) == db_pairs(
                reader.file(),
                start,
                n,
                None,
            ),
            db_ratings(old(reader).file(), old(reader).pos()) == db_pairs(
                reader.file(),
                start,
                n,
                None,
            ),
        decreases count - i,
    {
        let b = match reader.exact(14) {
            Ok(b) => b,
            Err(e) => return Err(e),
        };
        let mods: u64 = le_number(slice_subrange(b, 1, 5));
        let stars: u64 = le_number(slice_subrange(b, 6, 14));
        if mods == 0 {
            no_mod = Some(stars);
        }
        i = i + 1;
    }
    Ok(no_mod)
}

/// Reads the star rating in the standard mode, and over those for the others.
fn read_stars(reader: &mut DbReader<'_>, version: i32) -> (r: Result<Option<u64>, DbError>)
    requires
        old(reader).wf(),
    ensures
        final(reader).wf(),
        final(reader).file() == old(reader).file(),
        match r {
            Ok(stars) => db_stars(old(reader).file(), old(reader).pos(), version as int).gives(
                stars,
                final(reader).pos(),
            ),
            Err(e) => db_stars(old(reader).file(), old(reader).pos(), version as int).fails(e),
        },
{
    if version < STAR_RATING_VERSION {
        return match reader.exact(8) {
            Ok(b) => Ok(Some(le_number(b))),
            Err(e) => Err(e),
        };
    }
    let stars = match read_star_rating_pairs(reader) {
        Ok(s) => s,
        Err(e) => return Err(e),
    };
    match read_star_rating_pairs(reader) {
        Ok(s) => {},
        Err(e) => return Err(e),
    }
    match read_star_rating_pairs(reader) {
        Ok(s) => {},
        Err(e) => return Err(e),
    }
    match read_star_rating_pairs(reader) {
        Ok(s) => Ok(stars),
        Err(e) => Err(e),
    }
}

/// Reads the record of a beatmap.
pub fn read_beatmap(reader: &mut DbReader<'_>, version: i32) -> (r: Result<DbBeatmapMeta, DbError>)
    requires
        old(reader).wf(),
    ensures
        final(reader).wf(),
        final(reader).file() == old(reader).file(),
        match r {
            Ok(meta) => db_record(old(reader).file(), old(reader).pos(), version as int).gives(
                meta@,
                final(reader).pos(),
            ),
            Err(e) => db_record(old(reader).file(), old(reader).pos(), version as int).fails(e),
        },
{
    match reader.exact(4) {
        Ok(b) => {},
        Err(e) => return Err(e),
    }
    match reader.skip_strings(6) {
        Ok(u) => {},
        Err(e) => return Err(e),
    }
    let md5 = match reader.string() {
        Ok(s) => s,
        Err(e) => return Err(e),
    };
    let osu_filename = match reader.string() {
        Ok(s) => s,
        Err(e) => return Err(e),
    };
    match reader.exact(51) {
        Ok(b) => {},
        Err(e) => return Err(e),
    }
    let standard_stars = match read_stars(reader, version) {
        Ok(s) => s,
        Err(e) => return Err(e),
    };
    let numbers: usize = if version >= STAR_RATING_VERSION {
        79
    } else {
        71
    };
    match reader.exact(numbers) {
        Ok(b) => {},
        Err(e) => return Err(e),
    }
    match reader.skip_strings(2) {
        Ok(u) => {},
        Err(e) => return Err(e),
    }
    match reader.exact(11) {
        Ok(b) => {},
        Err(e) => return Err(e),
    }
    Ok(DbBeatmapMeta { md5, osu_filename, standard_stars })
}

/// Reads an `osu!.db`.
pub fn parse_osu_db(bytes: &[u8]) -> (r: Result<OsuDbIndex, DbError>)
    ensures
        match (r, decode_osu_db(bytes@)) {
            (Ok(index), Ok(records)) => index.wf() && index.records() == records,
            (Err(e), Err(f)) => e == f,
            _ => false,
        },
{
    let mut reader = DbReader::new(bytes);
    let version: i32 = match reader.i32() {
        Ok(v) => v,
        Err(e) => return Err(e),
    };
    match reader.exact(13) {
        Ok(b) => {},
        Err(e) => return Err(e),
    }
    match reader.string() {
        Ok(s) => {},
        Err(e) => return Err(e),
    }
    let count: i32 = match reader.i32() {
        Ok(n) => n,
        Err(e) => return Err(e),
    };
    let ghost n = if count > 0 {
        count as nat
    } else {
        0
    };
    let mut index = OsuDbIndex::new();
    let mut i: i32 = 0;
    proof {
        match decode_osu_db(bytes@) {
            Ok(all) => {
                assert(Seq::<MetaView>::empty() + all =~= all);
            },
            Err(e) => {},
        }
    }
    while i < count
        invariant
            reader.wf(),
            reader.file() == bytes@,
            index.wf(),
            0 <= i,
            i <= n,
            n == (if count > 0 {
                count as nat
            } else {
                0
            }),
            decode_osu_db(bytes@) == (match db_records(
                bytes@,
                reader.pos(),
                version as int,
                (n - i) as nat,
            ) {
                Ok(rest) => Ok(index.records() + rest),
                Err(e) => Err(e),
            }),
        decreases count - i,
    {
        let ghost before = index.records();
        match read_beatmap(&mut reader, version) {
            Ok(meta) => {
                let ghost v = meta@;
                index.add_record(meta);
                proof {
                    match db_records(bytes@, reader.pos(), version as int, (n - i - 1) as nat) {
                        Ok(rest) => {
                            assert(before + (seq![v] + rest) =~= before.push(v) + rest);
                        },
                        Err(e) => {},
                    }
                }
            },
            Err(e) => return Err(e),
        }
        i = i + 1;
    }
    assert(index.records() + Seq::<MetaView>::empty() =~= index.records());
    Ok(index)
}

/// What the bits of a byte are.
proof fn lemma_length_byte(b: u8)
    ensures
        b & 0x7f == b % 128,
        (b & 0x80 == 0) == (b < 128),
{
    assert(b & 0x7f == b % 128) by (bit_vector);
    assert((b & 0x80 == 0) == (b < 128)) by (bit_vector);
}

/// Seven bits above those that are set add up with them.
proof fn lemma_bits_add(value: u64, low: u64, k: nat)
    requires
        k <= 8,
        low < 128,
        value < pow2(7 * k),
    ensures
        (value | (low << (7 * k) as u64)) == value + pow2(7 * k) * low,
        value + pow2(7 * k) * low < pow2(7 * (k + 1)),
        pow2(7 * (k + 1)) == 128 * pow2(7 * k),
        pow2(7 * k) <= 0x0100_0000_0000_0000,
{
    let shift = (7 * k) as u64;
    lemma2_to64();
    lemma2_to64_rest();
    lemma_pow2_adds(7 * k, 7);
    if 7 * k < 56 {
        lemma_pow2_strictly_increases(7 * k, 56);
    }
    let scale = pow2(7 * k);
    assert(low * scale <= 127 * scale) by (nonlinear_arith)
        requires
            low <= 127,
            scale >= 0,
    ;
    lemma_u64_shl_is_mul(low, shift);
    lemma_u64_shl_is_mul(1, shift);
    assert((value | (low << shift)) == value + (low << shift)) by (bit_vector)
        requires
            value < (1u64 << shift),
            shift <= 56,
            low < 128,
    ;
    assert(scale * low == low * scale) by (nonlinear_arith);
}

proof fn lemma_db_length(bytes: Seq<u8>, pos: int, k: nat, value: u64, v: nat, end: int)
    requires
        k <= 9,
        value < pow2(7 * k),
        uleb_from(bytes, pos, k).gives(v, end),
    ensures
        db_length_from(bytes, pos, value, (7 * k) as u64).gives(
            ((value + pow2(7 * k) * v) % 0x1_0000_0000_0000_0000) as u64,
            end,
        ),
    decreases 10 - k,
{
    let b = exact_at(bytes, pos, 1)->Value_0[0];
    let low = (b % 128) as u64;
    let shift = (7 * k) as u64;
    lemma_length_byte(b);
    if k == 9 {
        lemma2_to64_rest();
        assert((value | (low << 63u64)) == value + (low % 2) * 0x8000_0000_0000_0000u64)
            by (bit_vector)
            requires
                value < 0x8000_0000_0000_0000u64,
                low < 128,
        ;
        lemma_top_bit(value as int, b as int);
    } else {
        lemma_bits_add(value, low, k);
        let scale = pow2(7 * k);
        let sum = value | (low << shift);
        if b >= 128 {
            let rest = uleb_from(bytes, pos + 1, k + 1)->Value_0;
            lemma_db_length(bytes, pos + 1, k + 1, sum, rest, end);
            assert(sum + (128 * scale) * rest == value + scale * (low + 128 * rest))
                by (nonlinear_arith)
                requires
                    sum == value + scale * low,
            ;
        }
    }
}

/// Where a length is a ULEB128 number of at most ten bytes, it is read as that
/// number.
pub proof fn law_length_is_uleb(bytes: Seq<u8>, pos: int, n: nat, end: int)
    requires
        uleb_at(bytes, pos).gives(n, end),
    ensures
        db_length(bytes, pos).gives(n as u64, end),
{
    lemma2_to64();
    let v = uleb_from(bytes, pos, 0)->Value_0;
    lemma_db_length(bytes, pos, 0, 0, v, end);
    assert(7 * 0 == 0nat);
    assert(0 + pow2(0) * v == v);
}

/// Whether the pair at `at`, one of fourteen bytes, is for no mods: the four bytes
/// behind its first one are zero.
pub open spec fn pair_without_mods(bytes: Seq<u8>, at: int) -> bool {
    bytes[at + 1] == 0 && bytes[at + 2] == 0 && bytes[at + 3] == 0 && bytes[at + 4] == 0
}

proof fn lemma_no_mods(b: Seq<u8>)
    requires
        b.len() == 4,
    ensures
        le_value(b) == 0 <==> b[0] == 0 && b[1] == 0 && b[2] == 0 && b[3] == 0,
{
    crate::bytes::lemma_le_value_4(b);
}

proof fn lemma_pair(bytes: Seq<u8>, pos: int)
    requires
        0 <= pos,
        pos + 14 <= bytes.len() <= usize::MAX,
    ensures
        db_exact(bytes, pos, 14).gives(bytes.subrange(pos, pos + 14), pos + 14),
        le_value(bytes.subrange(pos, pos + 14).subrange(1, 5)) == 0 <==> pair_without_mods(
            bytes,
            pos,
        ),
        bytes.subrange(pos, pos + 14).subrange(6, 14) == bytes.subrange(pos + 6, pos + 14),
{
    let b = bytes.subrange(pos, pos + 14);
    assert(b.subrange(6, 14) =~= bytes.subrange(pos + 6, pos + 14));
    lemma_no_mods(b.subrange(1, 5));
}

/// Pairs for mods never decide: where none of the pairs is for no mods, what was
/// known before is what is known behind them.
pub proof fn law_ratings_with_mods_are_ignored(
    bytes: Seq<u8>,
    pos: int,
    n: nat,
    known: Option<u64>,
)
    requires
        0 <= pos,
        pos + 14 * n <= bytes.len() <= usize::MAX,
        forall|j: int| 0 <= j < n ==> !#[trigger] pair_without_mods(bytes, pos + 14 * j),
    ensures
        db_pairs(bytes, pos, n, known).gives(known, pos + 14 * n),
    decreases n,
{
    if n > 0 {
        lemma_pair(bytes, pos);
        assert(!pair_without_mods(bytes, pos + 14 * 0));
        assert forall|j: int| 0 <= j < n - 1 implies !#[trigger] pair_without_mods(
            bytes,
            pos + 14 + 14 * j,
        ) by {
            assert(!pair_without_mods(bytes, pos + 14 * (j + 1)));
        }
        law_ratings_with_mods_are_ignored(bytes, pos + 14, (n - 1) as nat, known);
    }
}

/// The rating is that of the pair for no mods, wherever it stands among the
/// pairs; of several the last one counts.
pub proof fn law_rating_is_without_mods(
    bytes: Seq<u8>,
    pos: int,
    n: nat,
    known: Option<u64>,
    i: int,
)
    requires
        0 <= pos,
        pos + 14 * n <= bytes.len() <= usize::MAX,
        0 <= i < n,
        pair_without_mods(bytes, pos + 14 * i),
        forall|j: int| i < j < n ==> !#[trigger] pair_without_mods(bytes, pos + 14 * j),
    ensures
        db_pairs(bytes, pos, n, known).gives(
            Some(le_value(bytes.subrange(pos + 14 * i + 6, pos + 14 * i + 14)) as u64),
            pos + 14 * n,
        ),
    decreases n,
{
    lemma_pair(bytes, pos);
    let next = if pair_without_mods(bytes, pos) {
        Some(le_value(bytes.subrange(pos + 6, pos + 14)) as u64)
    } else {
        known
    };
    if i == 0 {
        assert forall|j: int| 0 <= j < n - 1 implies !#[trigger] pair_without_mods(
            bytes,
            pos + 14 + 14 * j,
        ) by {
            assert(!pair_without_mods(bytes, pos + 14 * (j + 1)));
        }
        law_ratings_with_mods_are_ignored(bytes, pos + 14, (n - 1) as nat, next);
    } else {
        assert(pos + 14 + 14 * (i - 1) == pos + 14 * i);
        assert forall|j: int| i - 1 < j < n - 1 implies !#[trigger] pair_without_mods(
            bytes,
            pos + 14 + 14 * j,
        ) by {
            assert(!pair_without_mods(bytes, pos + 14 * (j + 1)));
        }
        law_rating_is_without_mods(bytes, pos + 14, (n - 1) as nat, next, i - 1);
    }
}

/// The stars of a record are those of the first list, the one for the standard
/// mode, whatever the lists for the other modes hold; in files from before the
/// lists they are the number that stands there.
pub proof fn law_stars_are_standard(bytes: Seq<u8>, pos: int, version: int)
    ensures
        version >= 20140609 ==> (db_stars(bytes, pos, version) matches Got::Value(stars, end) ==> (
        db_ratings(bytes, pos) matches Got::Value(first, p) && stars == first)),
        version < 20140609 && 0 <= pos && pos + 8 <= bytes.len() <= usize::MAX ==> db_stars(
            bytes,
            pos,
            version,
        ).gives(Some(le_value(bytes.subrange(pos, pos + 8)) as u64), pos + 8),
{
}

/// A list of ratings is its count and the pairs; one with a negative count holds
/// none.
pub proof fn law_empty_ratings(bytes: Seq<u8>, pos: int, n: int, p: int)
    requires
        db_i32(bytes, pos).gives(n, p),
        n <= 0,
    ensures
        db_ratings(bytes, pos).gives(None, p),
{
}

proof fn lemma_by_md5(metas: Seq<MetaView>, i: int, md5: Seq<char>)
    requires
        md5.len() > 0,
        forall|j: int| i < j < metas.len() ==> (#[trigger] metas[j]).md5 != md5,
        -1 <= i < metas.len(),
        i >= 0 ==> metas[i].md5 == md5,
    ensures
        i >= 0 ==> metas_by_md5(metas).contains_pair(md5, metas[i]),
        i < 0 ==> !metas_by_md5(metas).contains_key(md5),
    decreases metas.len(),
{
    if metas.len() > 0 && i < metas.len() - 1 {
        let init = metas.drop_last();
        assert(metas[metas.len() - 1].md5 != md5);
        assert forall|j: int| i < j < init.len() implies (#[trigger] init[j]).md5 != md5 by {
            assert(init[j] == metas[j]);
        }
        lemma_by_md5(init, i, md5);
    }
}

proof fn lemma_by_filename(metas: Seq<MetaView>, i: int, low: Seq<char>)
    requires
        low.len() > 0,
        forall|j: int| i < j < metas.len() ==> lower_text((#[trigger] metas[j]).osu_filename) != low,
        -1 <= i < metas.len(),
        i >= 0 ==> lower_text(metas[i].osu_filename) == low,
    ensures
        i >= 0 ==> metas_by_filename(metas).contains_pair(low, metas[i]),
        i < 0 ==> !metas_by_filename(metas).contains_key(low),
    decreases metas.len(),
{
    if metas.len() > 0 && i < metas.len() - 1 {
        let init = metas.drop_last();
        assert(lower_text(metas[metas.len() - 1].osu_filename) != low);
        assert forall|j: int| i < j < init.len() implies lower_text(
            (#[trigger] init[j]).osu_filename,
        ) != low by {
            assert(init[j] == metas[j]);
        }
        lemma_by_filename(init, i, low);
    } else if metas.len() > 0 {
        assert(lower_text(metas.last().osu_filename).len() == metas.last().osu_filename.len());
    }
}

proof fn lemma_no_empty_keys(metas: Seq<MetaView>)
    ensures
        !metas_by_md5(metas).contains_key(Seq::empty()),
        !metas_by_filename(metas).contains_key(Seq::empty()),
    decreases metas.len(),
{
    if metas.len() > 0 {
        lemma_no_empty_keys(metas.drop_last());
        assert(lower_text(metas.last().osu_filename).len() == metas.last().osu_filename.len());
    }
}

/// The record of a map is the last one with its checksum.
pub proof fn law_checksum_finds_record(
    metas: Seq<MetaView>,
    i: int,
    md5: Seq<char>,
    osu_filename: Seq<char>,
)
    requires
        0 <= i < metas.len(),
        md5.len() > 0,
        metas[i].md5 == md5,
        forall|j: int| i < j < metas.len() ==> (#[trigger] metas[j]).md5 != md5,
    ensures
        found_meta(metas, md5, osu_filename) == Some(metas[i]),
{
    lemma_by_md5(metas, i, md5);
}

/// Where no record has the checksum of a map, its record is the last one with the
/// name of its file, whatever the case; and where there is none, it has none.
pub proof fn law_filename_finds_record(
    metas: Seq<MetaView>,
    i: int,
    md5: Seq<char>,
    osu_filename: Seq<char>,
)
    requires
        -1 <= i < metas.len(),
        forall|j: int| 0 <= j < metas.len() ==> (#[trigger] metas[j]).md5 != md5 || md5.len() == 0,
        i >= 0 ==> osu_filename.len() > 0 && lower_text(metas[i].osu_filename) == lower_text(
            osu_filename,
        ),
        forall|j: int|
            i < j < metas.len() ==> lower_text((#[trigger] metas[j]).osu_filename) != lower_text(
                osu_filename,
            ) || osu_filename.len() == 0,
    ensures
        found_meta(metas, md5, osu_filename) == (if i >= 0 {
            Some(metas[i])
        } else {
            None
        }),
{
    lemma_no_empty_keys(metas);
    let low = lower_text(osu_filename);
    assert(low.len() == osu_filename.len());
    if md5.len() == 0 {
        assert(md5 =~= Seq::empty());
    } else {
        lemma_by_md5(metas, -1, md5);
    }
    if osu_filename.len() > 0 {
        lemma_by_filename(metas, i, low);
    } else {
        assert(low =~= Seq::empty());
    }
}

/// A string whose length is written as it should be is what its bytes write, and
/// what follows it is read next; a zero byte is the empty string; any other first
/// byte but eleven is refused.
pub proof fn law_strings_of_database(bytes: Seq<u8>, pos: int, body: Seq<u8>)
    requires
        0 <= pos < bytes.len() <= usize::MAX,
    ensures
        bytes[pos] == 0 ==> db_string(bytes, pos).gives(Seq::empty(), pos + 1),
        crate::bytes::stands_at(
            bytes,
            pos,
            seq![11u8] + (crate::bytes::uleb_bytes(body.len()) + body),
        ) ==> db_string(bytes, pos).gives(
            lossy_text(body),
            pos + 1 + crate::bytes::uleb_bytes(body.len()).len() + body.len(),
        ),
        bytes[pos] != 0 && bytes[pos] != 11 ==> db_string(bytes, pos).fails(
            DbError::InvalidMarker(bytes[pos]),
        ),
{
    assert(bytes.subrange(pos, pos + 1)[0] == bytes[pos]);
    let len = crate::bytes::uleb_bytes(body.len());
    if crate::bytes::stands_at(bytes, pos, seq![11u8] + (len + body)) {
        crate::bytes::lemma_stands_split(bytes, pos, seq![11u8], len + body);
        crate::bytes::lemma_stands_split(bytes, pos + 1, len, body);
        assert(bytes.subrange(pos, pos + 1)[0] == seq![11u8][0]);
        crate::bytes::law_uleb_round_trip(bytes, pos + 1, body.len());
        law_length_is_uleb(bytes, pos + 1, body.len(), pos + 1 + len.len());
    }
}

} // verus!
