//! Decimal numbers as text.
use crate::text::chars_of;
use vstd::prelude::*;
use vstd::string::*;

verus! {

/// The digit with the value `d`.
pub open spec fn digit_char(d: nat) -> char {
    (48 + d) as char
}

/// Whether `c` is one of the digits 0 to 9.
pub open spec fn is_digit(c: char) -> bool {
    '0' <= c && c <= '9'
}

/// The value of a digit.
pub open spec fn digit_value(c: char) -> nat {
    ((c as int) - 48) as nat
}

/// `n` in decimal, without leading zeros.
pub open spec fn decimal(n: nat) -> Seq<char>
    decreases n,
{
    if n < 10 {
        seq![digit_char(n)]
    } else {
        decimal(n / 10).push(digit_char(n % 10))
    }
}

/// The hexadecimal digit for `d`, in lower case.
pub open spec fn hex_char(d: nat) -> char {
    if d < 10 {
        (48 + d) as char
    } else {
        (87 + d) as char
    }
}

/// A byte in hexadecimal, without leading zeros.
pub open spec fn hex(n: u8) -> Seq<char> {
    if n < 16 {
        seq![hex_char(n as nat)]
    } else {
        seq![hex_char(n as nat / 16), hex_char(n as nat % 16)]
    }
}

/// `n` in decimal, with a minus sign where it is negative.
pub open spec fn decimal_int(n: int) -> Seq<char> {
    if n < 0 {
        seq!['-'] + decimal((-n) as nat)
    } else {
        decimal(n as nat)
    }
}

/// `s` after as many copies of `fill` as bring it to `width`.
pub open spec fn pad_front(s: Seq<char>, fill: char, width: nat) -> Seq<char> {
    if s.len() >= width {
        s
    } else {
        Seq::new((width - s.len()) as nat, |i: int| fill) + s
    }
}

pub open spec fn all_digits(s: Seq<char>) -> bool {
    forall|i: int| 0 <= i < s.len() ==> is_digit(s[i])
}

/// The value of a row of digits.
pub open spec fn digits_value(s: Seq<char>) -> nat
    decreases s.len(),
{
    if s.len() == 0 {
        0
    } else {
        digits_value(s.drop_last()) * 10 + digit_value(s.last())
    }
}

/// The number that a row of at least one digit writes.
pub open spec fn digits_of(s: Seq<char>) -> Option<nat> {
    if s.len() > 0 && all_digits(s) {
        Some(digits_value(s))
    } else {
        None
    }
}

/// The number up to `max` that `s` writes: digits, after a plus sign or not.
pub open spec fn parse_nat(s: Seq<char>, max: nat) -> Option<nat> {
    let body = if s.len() > 0 && s[0] == '+' {
        s.drop_first()
    } else {
        s
    };
    match digits_of(body) {
        Some(n) => if n <= max {
            Some(n)
        } else {
            None
        },
        None => None,
    }
}

/// The number from `min` to `max` that `s` writes: digits, after a sign or not.
pub open spec fn parse_int(s: Seq<char>, min: int, max: int) -> Option<int> {
    let negative = s.len() > 0 && s[0] == '-';
    let body = if s.len() > 0 && (s[0] == '+' || s[0] == '-') {
        s.drop_first()
    } else {
        s
    };
    match digits_of(body) {
        Some(n) => {
            let v = if negative {
                -(n as int)
            } else {
                n as int
            };
            if min <= v <= max {
                Some(v)
            } else {
                None
            }
        },
        None => None,
    }
}

/// What a number is written as is read as that number, so that no two numbers
/// are written alike.
pub proof fn law_decimal_round_trip(n: nat)
    ensures
        digits_of(decimal(n)) == Some(n),
    decreases n,
{
    if n < 10 {
        assert(decimal(n).drop_last().len() == 0);
        assert(digits_value(decimal(n).drop_last()) == 0);
        assert(is_digit(digit_char(n)));
    } else {
        law_decimal_round_trip(n / 10);
        let front = decimal(n / 10);
        let all = decimal(n);
        assert(all.drop_last() =~= front);
        assert(is_digit(digit_char(n % 10)));
        assert forall|i: int| 0 <= i < all.len() implies is_digit(all[i]) by {
            if i < front.len() {
                assert(all[i] == front[i]);
            }
        }
    }
}

proof fn lemma_digits_prefix(s: Seq<char>, k: int)
    requires
        0 <= k <= s.len(),
    ensures
        digits_value(s.take(k)) <= digits_value(s),
    decreases s.len() - k,
{
    if k < s.len() {
        lemma_digits_prefix(s, k + 1);
        assert(s.take(k + 1).drop_last() =~= s.take(k));
    } else {
        assert(s.take(k) =~= s);
    }
}

/// `n` in decimal.
pub fn decimal_text(n: u64) -> (r: String)
    ensures
        r@ == decimal(n as nat),
    decreases n,
{
    let d: u8 = (n % 10) as u8;
    let c = (48 + d) as char;
    if n < 10 {
        let mut r = String::new();
        r.push(c);
        assert(r@ =~= seq![digit_char(n as nat)]);
        r
    } else {
        let mut r = decimal_text(n / 10);
        r.push(c);
        r
    }
}

/// `n` in decimal.
pub fn decimal_usize(n: usize) -> (r: String)
    ensures
        r@ == decimal(n as nat),
{
    decimal_text(n as u64)
}

fn hex_digit(d: u8) -> (c: char)
    requires
        d < 16,
    ensures
        c == hex_char(d as nat),
{
    if d < 10 {
        (48 + d) as char
    } else {
        (87 + d) as char
    }
}

/// A byte in hexadecimal.
pub fn hex_text(n: u8) -> (r: String)
    ensures
        r@ == hex(n),
{
    let mut r = String::new();
    if n >= 16 {
        r.push(hex_digit(n / 16));
    }
    r.push(hex_digit(n % 16));
    assert(r@ =~= hex(n));
    r
}

/// `n` in decimal, with a minus sign where it is negative.
pub fn decimal_signed(n: i64) -> (r: String)
    ensures
        r@ == decimal_int(n as int),
{
    if n >= 0 {
        decimal_text(n as u64)
    } else {
        let m: u64 = (-(n + 1)) as u64 + 1;
        let mut r = String::new();
        r.push('-');
        r.append(&decimal_text(m));
        assert(r@ =~= seq!['-'] + decimal(m as nat));
        r
    }
}

/// `s` after as many copies of `fill` as bring it to `width`.
pub fn pad(s: &str, fill: char, width: usize) -> (r: String)
    ensures
        r@ == pad_front(s@, fill, width as nat),
{
    let cs = chars_of(s);
    let mut r = String::new();
    if cs.len() >= width {
        return s.to_owned();
    }
    let missing: usize = width - cs.len();
    let mut i: usize = 0;
    assert(r@ =~= Seq::new(0, |j: int| fill));
    while i < missing
        invariant
            i <= missing,
            r@ == Seq::new(i as nat, |j: int| fill),
        decreases missing - i,
    {
        r.push(fill);
        i = i + 1;
        assert(r@ =~= Seq::new(i as nat, |j: int| fill));
    }
    r.append(s);
    r
}

/// The number up to `max` that the digits from `from` on write.
fn digits_from(cs: &Vec<char>, from: usize, max: u64) -> (r: Option<u64>)
    requires
        from <= cs@.len(),
    ensures
        match r {
            Some(n) => digits_of(cs@.skip(from as int)) == Some(n as nat) && n <= max,
            None => match digits_of(cs@.skip(from as int)) {
                Some(n) => n > max,
                None => true,
            },
        },
{
    let ghost t = cs@.skip(from as int);
    if from >= cs.len() {
        return None;
    }
    let mut v: u64 = 0;
    let mut i: usize = from;
    assert(t.take(0) =~= Seq::empty());
    while i < cs.len()
        invariant
            from <= i <= cs@.len(),
            t == cs@.skip(from as int),
            t.len() > 0,
            v <= max,
            v == digits_value(t.take(i - from)),
            forall|j: int| 0 <= j < i - from ==> is_digit(t[j]),
        decreases cs@.len() - i,
    {
        let c = cs[i];
        assert(c == t[i - from]);
        if !('0' <= c && c <= '9') {
            return None;
        }
        let d: u64 = (c as u32 - 48) as u64;
        proof {
            assert(t.take(i - from + 1).drop_last() =~= t.take(i - from));
            assert(digits_value(t.take(i - from + 1)) == v * 10 + d);
            lemma_digits_prefix(t, i - from + 1);
        }
        if v > (u64::MAX - d) / 10 {
            return None;
        }
        v = v * 10 + d;
        if v > max {
            return None;
        }
        i = i + 1;
    }
    assert(t.take(i - from) =~= t);
    Some(v)
}

/// The number up to `max` that `s` writes.
pub fn parse_unsigned(s: &str, max: u64) -> (r: Option<u64>)
    ensures
        match r {
            Some(n) => parse_nat(s@, max as nat) == Some(n as nat),
            None => parse_nat(s@, max as nat) is None,
        },
{
    let cs = chars_of(s);
    assert(cs@.skip(0) =~= cs@);
    if cs.len() > 0 && cs[0] == '+' {
        assert(cs@.skip(1) =~= cs@.drop_first());
        digits_from(&cs, 1, max)
    } else {
        digits_from(&cs, 0, max)
    }
}

/// The number from `min` to `max` that `s` writes.
pub fn parse_signed(s: &str, min: i64, max: i64) -> (r: Option<i64>)
    requires
        min <= 0 <= max,
    ensures
        match r {
            Some(n) => parse_int(s@, min as int, max as int) == Some(n as int),
            None => parse_int(s@, min as int, max as int) is None,
        },
{
    let cs = chars_of(s);
    assert(cs@.skip(0) =~= cs@);
    if cs.len() > 0 && cs[0] == '-' {
        assert(cs@.skip(1) =~= cs@.drop_first());
        let low: u64 = if min == 0 {
            0
        } else {
            (-(min + 1)) as u64 + 1
        };
        match digits_from(&cs, 1, low) {
            Some(n) => {
                if n == 0 {
                    Some(0)
                } else {
                    Some(-((n - 1) as i64) - 1)
                }
            },
            None => None,
        }
    } else if cs.len() > 0 && cs[0] == '+' {
        assert(cs@.skip(1) =~= cs@.drop_first());
        match digits_from(&cs, 1, max as u64) {
            Some(n) => Some(n as i64),
            None => None,
        }
    } else {
        match digits_from(&cs, 0, max as u64) {
            Some(n) => Some(n as i64),
            None => None,
        }
    }
}

/// A number that is written out, with a minus sign or without one, is read as
/// itself where it lies within the limits, and refused where it does not.
pub proof fn law_written_numbers_are_read(n: int, min: int, max: int)
    ensures
        parse_int(decimal_int(n), min, max) == (if min <= n <= max {
            Some(n)
        } else {
            None
        }),
        n >= 0 ==> parse_int(seq!['+'] + decimal(n as nat), min, max) == parse_int(
            decimal_int(n),
            min,
            max,
        ),
        n >= 0 && max >= 0 ==> parse_nat(decimal(n as nat), max as nat) == (if n <= max {
            Some(n as nat)
        } else {
            None
        }),
{
    let a = (if n < 0 {
        -n
    } else {
        n
    }) as nat;
    law_decimal_round_trip(a);
    let d = decimal(a);
    assert(is_digit(d[0]));
    assert((seq!['-'] + d).drop_first() =~= d);
    assert((seq!['+'] + d).drop_first() =~= d);
    assert((seq!['-'] + d)[0] == '-');
    assert((seq!['+'] + d)[0] == '+');
}

/// What is no row of digits, but for a sign in front, is no number.
pub proof fn law_other_texts_are_no_numbers(s: Seq<char>, i: int, min: int, max: int, limit: nat)
    requires
        s.len() == 0 || (s.len() == 1 && !('0' <= s[0] <= '9')) || (0 < i < s.len() && !('0' <= s[i]
            <= '9')) || !('0' <= s[0] <= '9' || s[0] == '+' || s[0] == '-'),
    ensures
        parse_int(s, min, max) is None,
        parse_nat(s, limit) is None,
{
    if 0 < i < s.len() && !('0' <= s[i] <= '9') {
        assert(s.drop_first()[i - 1] == s[i]);
        assert(!is_digit(s[i]));
        assert(!is_digit(s.drop_first()[i - 1]));
    } else if s.len() == 1 && !('0' <= s[0] <= '9') {
        assert(!is_digit(s[0]));
        assert(s.drop_first().len() == 0);
    } else if s.len() > 0 {
        assert(!is_digit(s[0]));
    }
}

/// The value of a row of digits: each digit counts ten times what the one behind
/// it counts.
pub proof fn law_digits_value(front: Seq<char>, c: char)
    requires
        '0' <= c <= '9',
    ensures
        digits_value(front.push(c)) == 10 * digits_value(front) + (c as int - '0' as int),
{
    assert(front.push(c).drop_last() =~= front);
}

} // verus!
