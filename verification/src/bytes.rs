//! Reading and writing the primitive values of osu!'s binary files: bytes,
//! little-endian integers and ULEB128 lengths.
#[allow(unused_imports)]
use vstd::arithmetic::div_mod::lemma_fundamental_div_mod_converse;
use vstd::prelude::*;
use vstd::slice::slice_subrange;

verus! {

/// Why a primitive value could not be read.
#[derive(Clone, Copy, Debug, PartialEq, Eq, Structural)]
pub enum ByteError {
    /// The end of the value lies beyond what a position can count.
    OffsetOverflow,
    /// The end of the value lies beyond the last byte.
    UnexpectedEnd,
}

/// Why a ULEB128 number could not be read.
#[derive(Clone, Copy, Debug, PartialEq, Eq, Structural)]
pub enum LengthError {
    /// A byte of the number could not be read.
    Bytes(ByteError),
    /// The number goes on after its tenth byte.
    TooLarge,
}

/// What reading at a position gives: a value and the position after it, or
/// why there is none.
#[verifier::ext_equal]
pub enum Got<T, E> {
    Value(T, int),
    Fault(E),
}

impl<T, E> Got<T, E> {
    /// The value is `v`, and the next one is to be read at `next`.
    pub open spec fn gives(self, v: T, next: int) -> bool {
        self == Got::<T, E>::Value(v, next)
    }

    /// There is no value, for the reason `e`.
    pub open spec fn fails(self, e: E) -> bool {
        self == Got::<T, E>::Fault(e)
    }
}

/// The `len` bytes at `pos`.
pub open spec fn exact_at(bytes: Seq<u8>, pos: int, len: int) -> Got<Seq<u8>, ByteError> {
    if pos + len > usize::MAX {
        Got::Fault(ByteError::OffsetOverflow)
    } else if pos + len > bytes.len() {
        Got::Fault(ByteError::UnexpectedEnd)
    } else {
        Got::Value(bytes.subrange(pos, pos + len), pos + len)
    }
}

/// The byte at `pos`.
pub open spec fn u8_at(bytes: Seq<u8>, pos: int) -> Got<u8, ByteError> {
    match exact_at(bytes, pos, 1) {
        Got::Value(b, next) => Got::Value(b[0], next),
        Got::Fault(e) => Got::Fault(e),
    }
}

/// The number that `b` writes with its least significant byte first.
pub open spec fn le_value(b: Seq<u8>) -> nat
    decreases b.len(),
{
    if b.len() == 0 {
        0
    } else {
        b[0] as nat + 256 * le_value(b.drop_first())
    }
}

/// The `n` bytes that write `v` with the least significant byte first.
pub open spec fn le_bytes(v: nat, n: nat) -> Seq<u8>
    decreases n,
{
    if n == 0 {
        seq![]
    } else {
        seq![(v % 256) as u8] + le_bytes(v / 256, (n - 1) as nat)
    }
}

/// The value of `v` as a 32-bit number in two's complement.
pub open spec fn signed_32(v: nat) -> int {
    let u = (v % 0x1_0000_0000) as int;
    if u >= 0x8000_0000 {
        u - 0x1_0000_0000
    } else {
        u
    }
}

/// The 32-bit pattern of a number in two's complement.
pub open spec fn pattern_32(v: int) -> nat {
    if v < 0 {
        (v + 0x1_0000_0000) as nat
    } else {
        v as nat
    }
}

/// The four bytes that write `v`.
pub open spec fn i32_bytes(v: int) -> Seq<u8> {
    le_bytes(pattern_32(v), 4)
}

/// The 32-bit integer at `pos`.
pub open spec fn i32_at(bytes: Seq<u8>, pos: int) -> Got<int, ByteError> {
    match exact_at(bytes, pos, 4) {
        Got::Value(b, next) => Got::Value(signed_32(le_value(b)), next),
        Got::Fault(e) => Got::Fault(e),
    }
}

/// The ULEB128 number at `pos`, of which `k` bytes were read before: seven
/// bits a byte, the least significant first, in at most ten bytes.
pub open spec fn uleb_from(bytes: Seq<u8>, pos: int, k: nat) -> Got<nat, LengthError>
    decreases 10 - k,
{
    match u8_at(bytes, pos) {
        Got::Fault(e) => Got::Fault(LengthError::Bytes(e)),
        Got::Value(b, next) => if b < 128 {
            Got::Value(b as nat, next)
        } else if k >= 9 {
            Got::Fault(LengthError::TooLarge)
        } else {
            match uleb_from(bytes, next, k + 1) {
                Got::Fault(e) => Got::Fault(e),
                Got::Value(rest, end) => Got::Value((b - 128) as nat + 128 * rest, end),
            }
        },
    }
}

/// The ULEB128 number at `pos`, cut down to 64 bits.
pub open spec fn uleb_at(bytes: Seq<u8>, pos: int) -> Got<nat, LengthError> {
    match uleb_from(bytes, pos, 0) {
        Got::Fault(e) => Got::Fault(e),
        Got::Value(v, end) => Got::Value(v % 0x1_0000_0000_0000_0000, end),
    }
}

/// The shortest ULEB128 form of `v`.
pub open spec fn uleb_bytes(v: nat) -> Seq<u8>
    decreases v,
{
    if v < 128 {
        seq![v as u8]
    } else {
        seq![(v % 128 + 128) as u8] + uleb_bytes(v / 128)
    }
}

/// Whether `part` stands in `bytes` at `pos`.
pub open spec fn stands_at(bytes: Seq<u8>, pos: int, part: Seq<u8>) -> bool {
    0 <= pos && pos + part.len() <= bytes.len() && bytes.subrange(pos, pos + part.len()) == part
}

/// The parts of a part stand where the whole stands.
pub proof fn lemma_stands_split(bytes: Seq<u8>, pos: int, a: Seq<u8>, b: Seq<u8>)
    requires
        stands_at(bytes, pos, a + b),
    ensures
        stands_at(bytes, pos, a),
        stands_at(bytes, pos + a.len(), b),
{
    let whole = bytes.subrange(pos, pos + (a + b).len());
    assert(bytes.subrange(pos, pos + a.len()) =~= whole.take(a.len() as int));
    assert((a + b).take(a.len() as int) =~= a);
    assert(bytes.subrange(pos + a.len(), pos + a.len() + b.len()) =~= whole.skip(a.len() as int));
    assert((a + b).skip(a.len() as int) =~= b);
}

/// Reading a 32-bit integer gives back the one that was written.
pub proof fn law_i32_round_trip(bytes: Seq<u8>, pos: int, v: int)
    requires
        i32::MIN <= v <= i32::MAX,
        stands_at(bytes, pos, i32_bytes(v)),
        bytes.len() <= usize::MAX,
    ensures
        i32_at(bytes, pos).gives(v, pos + 4),
        i32_bytes(v).len() == 4,
{
    let p = pattern_32(v);
    reveal_with_fuel(le_bytes, 5);
    let b = i32_bytes(v);
    assert(b.len() == 4);
    assert(b[0] == (p % 256) as u8);
    assert(b[1] == (p / 256 % 256) as u8);
    assert(b[2] == (p / 256 / 256 % 256) as u8);
    assert(b[3] == (p / 256 / 256 / 256 % 256) as u8);
    lemma_le_value_4(b);
    assert(le_value(b) == p);
}

/// The value of four bytes.
pub proof fn lemma_le_value_4(b: Seq<u8>)
    requires
        b.len() == 4,
    ensures
        le_value(b) == b[0] + 256 * b[1] + 65536 * b[2] + 16777216 * b[3],
{
    reveal_with_fuel(le_value, 5);
    let c = b.drop_first();
    let d = c.drop_first();
    let e = d.drop_first();
    assert(c[0] == b[1] && d[0] == b[2] && e[0] == b[3]);
    assert(e.drop_first().len() == 0);
}

/// The numbers that fit into the bytes that may follow `k` others.
spec fn uleb_limit(k: nat) -> nat
    decreases 10 - k,
{
    if k >= 9 {
        128
    } else {
        128 * uleb_limit(k + 1)
    }
}

proof fn lemma_uleb_from(bytes: Seq<u8>, pos: int, v: nat, k: nat)
    requires
        k <= 9,
        v < uleb_limit(k),
        stands_at(bytes, pos, uleb_bytes(v)),
        bytes.len() <= usize::MAX,
    ensures
        uleb_from(bytes, pos, k).gives(v, pos + uleb_bytes(v).len()),
    decreases v,
{
    let enc = uleb_bytes(v);
    assert(bytes.subrange(pos, pos + enc.len())[0] == enc[0]);
    assert(bytes[pos] == enc[0]);
    assert(bytes.subrange(pos, pos + 1)[0] == enc[0]);
    if v >= 128 {
        lemma_stands_split(bytes, pos, seq![(v % 128 + 128) as u8], uleb_bytes(v / 128));
        lemma_uleb_from(bytes, pos + 1, v / 128, k + 1);
    }
}

/// Reading a ULEB128 number gives back the one that was written.
pub proof fn law_uleb_round_trip(bytes: Seq<u8>, pos: int, v: nat)
    requires
        v <= u64::MAX,
        stands_at(bytes, pos, uleb_bytes(v)),
        bytes.len() <= usize::MAX,
    ensures
        uleb_at(bytes, pos).gives(v, pos + uleb_bytes(v).len()),
{
    reveal_with_fuel(uleb_limit, 11);
    assert(v < uleb_limit(0));
    lemma_uleb_from(bytes, pos, v, 0);
}

/// A position in a row of bytes.
pub struct ByteCursor<'a> {
    pub bytes: &'a [u8],
    pub offset: usize,
}

impl<'a> ByteCursor<'a> {
    /// The position lies in the bytes or at their end.
    pub open spec fn wf(self) -> bool {
        self.offset <= self.bytes@.len()
    }

    /// Reads `len` bytes.
    pub fn read_exact(&mut self, len: usize) -> (r: Result<&'a [u8], ByteError>)
        requires
            old(self).wf(),
        ensures
            final(self).wf(),
            final(self).bytes == old(self).bytes,
            match r {
                Ok(b) => exact_at(old(self).bytes@, old(self).offset as int, len as int).gives(b@, final(self).offset as int),
                Err(e) => exact_at(old(self).bytes@, old(self).offset as int, len as int).fails(e) && final(self).offset == old(self).offset,
            },
    {
        let end: usize = match self.offset.checked_add(len) {
            Some(end) => end,
            None => return Err(ByteError::OffsetOverflow),
        };
        if end > self.bytes.len() {
            return Err(ByteError::UnexpectedEnd);
        }
        let part = slice_subrange(self.bytes, self.offset, end);
        self.offset = end;
        Ok(part)
    }

    /// Reads one byte.
    pub fn read_u8(&mut self) -> (r: Result<u8, ByteError>)
        requires
            old(self).wf(),
        ensures
            final(self).wf(),
            final(self).bytes == old(self).bytes,
            match r {
                Ok(b) => u8_at(old(self).bytes@, old(self).offset as int).gives(b, final(self).offset as int),
                Err(e) => u8_at(old(self).bytes@, old(self).offset as int).fails(e) && final(self).offset == old(self).offset,
            },
    {
        match self.read_exact(1) {
            Ok(b) => Ok(b[0]),
            Err(e) => Err(e),
        }
    }

    /// Reads a 32-bit integer.
    pub fn read_i32(&mut self) -> (r: Result<i32, ByteError>)
        requires
            old(self).wf(),
        ensures
            final(self).wf(),
            final(self).bytes == old(self).bytes,
            match r {
                Ok(v) => i32_at(old(self).bytes@, old(self).offset as int).gives(v as int, final(self).offset as int),
                Err(e) => i32_at(old(self).bytes@, old(self).offset as int).fails(e) && final(self).offset == old(self).offset,
            },
    {
        match self.read_exact(4) {
            Ok(b) => {
                let u: u64 = b[0] as u64 + 256 * b[1] as u64 + 65536 * b[2] as u64 + 16777216
                    * b[3] as u64;
                proof {
                    lemma_le_value_4(b@);
                }
                Ok(
                    if u >= 0x8000_0000 {
                        (u as i64 - 0x1_0000_0000) as i32
                    } else {
                        u as i32
                    },
                )
            },
            Err(e) => Err(e),
        }
    }

    /// Reads a ULEB128 number.
    pub fn read_uleb128(&mut self) -> (r: Result<u64, LengthError>)
        requires
            old(self).wf(),
        ensures
            final(self).wf(),
            final(self).bytes == old(self).bytes,
            match r {
                Ok(v) => uleb_at(old(self).bytes@, old(self).offset as int).gives(v as nat, final(self).offset as int),
                Err(e) => uleb_at(old(self).bytes@, old(self).offset as int).fails(e),
            },
    {
        let ghost start = self.offset as int;
        let ghost all = self.bytes@;
        let mut v: u64 = 0;
        let mut scale: u64 = 1;
        let mut k: usize = 0;
        loop
            invariant
                self.wf(),
                self.bytes == old(self).bytes,
                all == old(self).bytes@,
                start == old(self).offset,
                k <= 9,
                scale == uleb_scale(k as nat),
                v < scale,
                uleb_from(all, start, 0) == (match uleb_from(all, self.offset as int, k as nat) {
                    Got::Value(rest, end) => Got::Value((v + scale * rest) as nat, end),
                    Got::Fault(e) => Got::Fault(e),
                }),
            decreases 10 - k,
        {
            let ghost here = self.offset as int;
            let b: u8 = match self.read_u8() {
                Ok(b) => b,
                Err(e) => return Err(LengthError::Bytes(e)),
            };
            let low: u64 = (b % 128) as u64;
            proof {
                lemma_uleb_scale(k as nat);
            }
            if k == 9 {
                if b >= 128 {
                    return Err(LengthError::TooLarge);
                }
                proof {
                    lemma_top_bit(v as int, b as int);
                }
                return Ok(v + 0x8000_0000_0000_0000 * (low % 2));
            }
            assert(scale * low <= scale * 127) by (nonlinear_arith)
                requires
                    low <= 127,
                    scale >= 0,
            ;
            let sum: u64 = v + scale * low;
            if b < 128 {
                return Ok(sum);
            }
            proof {
                match uleb_from(all, self.offset as int, k as nat + 1) {
                    Got::Value(rest, end) => {
                        assert(v + scale * (low + 128 * rest) == sum + (scale * 128) * rest)
                            by (nonlinear_arith)
                            requires
                                sum == v + scale * low,
                        ;
                    },
                    Got::Fault(e) => {},
                }
            }
            v = sum;
            scale = scale * 128;
            k = k + 1;
        }
    }
}

/// Of the bits that the tenth byte brings, the lowest fits.
pub proof fn lemma_top_bit(v: int, b: int)
    requires
        0 <= v < 0x8000_0000_0000_0000,
        0 <= b,
    ensures
        (v + 0x8000_0000_0000_0000 * b) % 0x1_0000_0000_0000_0000 == v + 0x8000_0000_0000_0000 * (b
            % 2),
{
    let q = b / 2;
    let low = b % 2;
    let x = v + 0x8000_0000_0000_0000 * b;
    let r = v + 0x8000_0000_0000_0000 * low;
    assert(x == q * 0x1_0000_0000_0000_0000 + r) by (nonlinear_arith)
        requires
            b == 2 * q + low,
            x == v + 0x8000_0000_0000_0000 * b,
            r == v + 0x8000_0000_0000_0000 * low,
    ;
    lemma_fundamental_div_mod_converse(x, 0x1_0000_0000_0000_0000, q, r);
}

/// The weight of the byte that follows `k` others.
spec fn uleb_scale(k: nat) -> nat
    decreases k,
{
    if k == 0 {
        1
    } else {
        128 * uleb_scale((k - 1) as nat)
    }
}

proof fn lemma_uleb_scale(k: nat)
    requires
        k <= 9,
    ensures
        1 <= uleb_scale(k),
        k < 9 ==> uleb_scale(k) <= 0x0100_0000_0000_0000,
        k == 9 ==> uleb_scale(k) == 0x8000_0000_0000_0000,
        uleb_scale(k + 1) == 128 * uleb_scale(k),
{
    reveal_with_fuel(uleb_scale, 11);
}

/// Appends the four bytes of a 32-bit integer.
pub fn write_i32(bytes: &mut Vec<u8>, value: i32)
    ensures
        final(bytes)@ == old(bytes)@ + i32_bytes(value as int),
{
    let p: u64 = if value < 0 {
        (value as i64 + 0x1_0000_0000) as u64
    } else {
        value as u64
    };
    proof {
        reveal_with_fuel(le_bytes, 5);
    }
    bytes.push((p % 256) as u8);
    bytes.push((p / 256 % 256) as u8);
    bytes.push((p / 256 / 256 % 256) as u8);
    bytes.push((p / 256 / 256 / 256 % 256) as u8);
    assert(bytes@ =~= old(bytes)@ + i32_bytes(value as int));
}

/// Appends the shortest ULEB128 form of a number.
pub fn write_uleb128(bytes: &mut Vec<u8>, value: u64)
    ensures
        final(bytes)@ == old(bytes)@ + uleb_bytes(value as nat),
    decreases value,
{
    if value < 128 {
        bytes.push(value as u8);
        assert(bytes@ =~= old(bytes)@ + uleb_bytes(value as nat));
    } else {
        let b: u8 = (value % 128 + 128) as u8;
        bytes.push(b);
        write_uleb128(bytes, value / 128);
        assert(bytes@ =~= old(bytes)@ + uleb_bytes(value as nat));
    }
}

/// How many numbers `n` bytes can write.
pub open spec fn pow_256(n: nat) -> nat
    decreases n,
{
    if n == 0 {
        1
    } else {
        256 * pow_256((n - 1) as nat)
    }
}

/// The number that at most eight bytes write with the least significant byte
/// first.
pub fn le_number(b: &[u8]) -> (v: u64)
    requires
        b@.len() <= 8,
    ensures
        v == le_value(b@),
{
    let mut v: u64 = 0;
    let mut i: usize = b.len();
    proof {
        reveal_with_fuel(pow_256, 9);
    }
    assert(b@.skip(b@.len() as int) =~= Seq::empty());
    while i > 0
        invariant
            i <= b@.len() <= 8,
            v == le_value(b@.skip(i as int)),
            v < pow_256((b@.len() - i) as nat),
            pow_256(8) == 0x1_0000_0000_0000_0000,
            pow_256(7) == 0x100_0000_0000_0000,
        decreases i,
    {
        proof {
            lemma_pow_256_grows((b@.len() - i) as nat, 7);
            assert(b@.skip(i as int - 1).drop_first() =~= b@.skip(i as int));
        }
        i = i - 1;
        v = b[i] as u64 + 256 * v;
    }
    assert(b@.skip(0) =~= b@);
    v
}

proof fn lemma_pow_256_grows(a: nat, b: nat)
    requires
        a <= b,
    ensures
        pow_256(a) <= pow_256(b),
    decreases b,
{
    if a < b {
        lemma_pow_256_grows(a, (b - 1) as nat);
    }
}

} // verus!
