//! Single-precision numbers by their bits: their order, and their text with
//! two decimals.
use crate::number::{decimal_text, pad};
#[allow(unused_imports)]
use crate::number::{decimal, digit_char, pad_front};
use vstd::prelude::*;
use vstd::string::*;

verus! {

/// A single-precision number in the format of IEEE 754, as its 32 bits.
#[derive(Clone, Copy, Debug, PartialEq, Eq, Structural)]
pub struct Real32 {
    pub bits: u32,
}

/// `n / d` rounded to the nearest integer, a half to the even one.
pub open spec fn round_half_even(n: nat, d: nat) -> nat {
    let q = n / d;
    let twice = 2 * (n % d);
    if twice < d || (twice == d && q % 2 == 0) {
        q
    } else {
        q + 1
    }
}

/// Two to the power of `n`.
pub open spec fn pow2(n: nat) -> nat
    decreases n,
{
    if n == 0 {
        1
    } else {
        2 * pow2((n - 1) as nat)
    }
}

impl Real32 {
    /// The sign bit.
    pub open spec fn negative(self) -> bool {
        self.bits >= 0x8000_0000
    }

    /// The bits but the sign.
    pub open spec fn magnitude(self) -> int {
        (self.bits % 0x8000_0000) as int
    }

    /// The biased exponent.
    pub open spec fn exponent(self) -> int {
        self.magnitude() / 0x80_0000
    }

    /// The bits below the exponent.
    pub open spec fn fraction(self) -> int {
        self.magnitude() % 0x80_0000
    }

    /// Whether this is no number.
    pub open spec fn nan(self) -> bool {
        self.magnitude() > 0x7f80_0000
    }

    /// Whether this is a number, and no infinity.
    pub open spec fn finite(self) -> bool {
        self.magnitude() < 0x7f80_0000
    }

    /// A position in the order of the numbers, the same for both zeros.
    pub open spec fn rank(self) -> int {
        if self.negative() {
            -self.magnitude()
        } else {
            self.magnitude()
        }
    }

    /// Whether this number is at most `other`. What is no number is not.
    pub open spec fn at_most(self, other: Real32) -> bool {
        !self.nan() && !other.nan() && self.rank() <= other.rank()
    }

    /// Whether this number is below `other`. What is no number is not.
    pub open spec fn below(self, other: Real32) -> bool {
        !self.nan() && !other.nan() && self.rank() < other.rank()
    }

    /// The integer that, times two to the power of [`Self::scale`], is the
    /// absolute value.
    pub open spec fn mantissa(self) -> nat {
        if self.exponent() == 0 {
            self.fraction() as nat
        } else {
            (self.fraction() + 0x80_0000) as nat
        }
    }

    /// The power of two that belongs to [`Self::mantissa`].
    pub open spec fn scale(self) -> int {
        if self.exponent() == 0 {
            -149
        } else {
            self.exponent() - 150
        }
    }

    /// The text of the absolute value with two decimals, a half rounded to the
    /// even hundredth.
    pub open spec fn two_decimals(self) -> Seq<char> {
        if self.scale() >= 0 {
            decimal(self.mantissa() * pow2(self.scale() as nat)) + ".00"@
        } else {
            let h = round_half_even(100 * self.mantissa(), pow2((-self.scale()) as nat));
            decimal(h / 100) + "."@ + pad_front(decimal(h % 100), '0', 2)
        }
    }

    /// The text of the number with two decimals.
    pub open spec fn fixed_text(self) -> Seq<char> {
        if self.nan() {
            "NaN"@
        } else {
            let abs = if self.finite() {
                self.two_decimals()
            } else {
                "inf"@
            };
            if self.negative() {
                "-"@ + abs
            } else {
                abs
            }
        }
    }

    /// Whether this is a number, and no infinity.
    pub fn is_finite(self) -> (r: bool)
        ensures
            r == self.finite(),
    {
        self.bits % 0x8000_0000 < 0x7f80_0000
    }

    /// Whether this number is at most `other`.
    pub fn le(self, other: Real32) -> (r: bool)
        ensures
            r == self.at_most(other),
    {
        let a: u32 = self.bits % 0x8000_0000;
        let b: u32 = other.bits % 0x8000_0000;
        if a > 0x7f80_0000 || b > 0x7f80_0000 {
            return false;
        }
        let a_negative = self.bits >= 0x8000_0000;
        let b_negative = other.bits >= 0x8000_0000;
        if a_negative {
            if b_negative {
                b <= a
            } else {
                true
            }
        } else if b_negative {
            a == 0 && b == 0
        } else {
            a <= b
        }
    }

    /// Whether this number is below `other`.
    pub fn lt(self, other: Real32) -> (r: bool)
        ensures
            r == self.below(other),
    {
        self.le(other) && !other.le(self)
    }

    /// The text of the number with two decimals.
    pub fn fixed(self) -> (r: String)
        ensures
            r@ == self.fixed_text(),
    {
        let m: u32 = self.bits % 0x8000_0000;
        if m > 0x7f80_0000 {
            return "NaN".to_owned();
        }
        let abs = if m == 0x7f80_0000 {
            "inf".to_owned()
        } else {
            self.two_decimals_text()
        };
        if self.bits >= 0x8000_0000 {
            let mut r = "-".to_owned();
            r.append(&abs);
            r
        } else {
            abs
        }
    }

    fn two_decimals_text(self) -> (r: String)
        requires
            self.finite(),
        ensures
            r@ == self.two_decimals(),
    {
        let m: u32 = self.bits % 0x8000_0000;
        let e: u32 = m / 0x80_0000;
        let f: u32 = m % 0x80_0000;
        let mantissa: u32 = if e == 0 {
            f
        } else {
            f + 0x80_0000
        };
        assert(mantissa < 0x100_0000);
        assert(e <= 254);
        if e >= 150 {
            let n: u32 = e - 150;
            let mut v: u128 = mantissa as u128;
            let mut i: u32 = 0;
            assert(mantissa * pow2(0) == mantissa) by (nonlinear_arith)
                requires
                    pow2(0) == 1,
            ;
            while i < n
                invariant
                    i <= n <= 104,
                    mantissa < 0x100_0000,
                    v == mantissa * pow2(i as nat),
                    v < 0x100_0000 * pow2(i as nat),
                decreases n - i,
            {
                proof {
                    lemma_pow2_grows(i as nat + 1, 104);
                    lemma_pow2_104();
                    assert(mantissa * (2 * pow2(i as nat)) == 2 * (mantissa * pow2(i as nat)))
                        by (nonlinear_arith);
                }
                v = v * 2;
                i = i + 1;
            }
            let mut r = decimal_wide(v);
            r.append(".00");
            r
        } else {
            let k: u32 = if e == 0 {
                149
            } else {
                150 - e
            };
            let n: u64 = 100 * mantissa as u64;
            let h: u64 = if k > 40 {
                proof {
                    lemma_pow2_grows(40, k as nat);
                    lemma_pow2_40();
                    vstd::arithmetic::div_mod::lemma_basic_div(n as int, pow2(k as nat) as int);
                    vstd::arithmetic::div_mod::lemma_small_mod(n as nat, pow2(k as nat));
                }
                0
            } else {
                rounded(n, k)
            };
            let mut r = decimal_text(h / 100);
            r.append(".");
            r.append(&pad(&decimal_text(h % 100), '0', 2));
            r
        }
    }
}

proof fn lemma_pow2_grows(a: nat, b: nat)
    requires
        a <= b,
    ensures
        0 < pow2(a) <= pow2(b),
    decreases b,
{
    if a < b {
        lemma_pow2_grows(a, (b - 1) as nat);
    } else if a > 0 {
        lemma_pow2_grows((a - 1) as nat, (a - 1) as nat);
    }
}

proof fn lemma_pow2_40()
    ensures
        pow2(40) == 0x100_0000_0000,
{
    reveal_with_fuel(pow2, 41);
}

proof fn lemma_pow2_104()
    ensures
        pow2(104) == 0x1_0000_0000_0000_0000_0000_0000_00,
{
    reveal_with_fuel(pow2, 27);
    assert(pow2(26) == 0x400_0000);
    assert(pow2(52) == 0x10_0000_0000_0000);
    assert(pow2(78) == 0x4000_0000_0000_0000_0000);
}

/// `n` divided by two to the power of `k`, rounded.
fn rounded(n: u64, k: u32) -> (h: u64)
    requires
        1 <= k <= 40,
        n < 0x1_0000_0000,
    ensures
        h == round_half_even(n as nat, pow2(k as nat)),
        h <= n + 1,
{
    let mut d: u64 = 1;
    let mut i: u32 = 0;
    proof {
        lemma_pow2_40();
    }
    while i < k
        invariant
            i <= k <= 40,
            d == pow2(i as nat),
            d <= pow2(40),
        decreases k - i,
    {
        proof {
            lemma_pow2_grows(i as nat + 1, 40);
            lemma_pow2_40();
        }
        d = d * 2;
        i = i + 1;
    }
    proof {
        lemma_pow2_grows(0, k as nat);
        lemma_pow2_40();
        lemma_pow2_grows(k as nat, 40);
        vstd::arithmetic::div_mod::lemma_div_is_ordered_by_denominator(n as int, 1, d as int);
    }
    let q: u64 = n / d;
    let twice: u64 = 2 * (n % d);
    if twice < d || (twice == d && q % 2 == 0) {
        q
    } else {
        q + 1
    }
}

/// `n` in decimal.
fn decimal_wide(n: u128) -> (r: String)
    ensures
        r@ == decimal(n as nat),
    decreases n,
{
    let d: u8 = (n % 10) as u8;
    let c = (48 + d) as char;
    if n < 10 {
        let mut r = String::new();
        r.push(c);
        assert(r@ =~= seq![digit_char(n as nat)]);
        r
    } else {
        let mut r = decimal_wide(n / 10);
        r.push(c);
        r
    }
}

/// Numbers that are not negative compare as their bit patterns do, negative ones
/// the other way round, a negative number is at most one that is not, the two
/// zeros are the same number, and what is no number compares with nothing.
pub proof fn law_numbers_compare(a: Real32, b: Real32)
    ensures
        a.bits <= 0x7f80_0000 && b.bits <= 0x7f80_0000 ==> (a.at_most(b) <==> a.bits <= b.bits) && (
        a.below(b) <==> a.bits < b.bits),
        0x8000_0000 <= a.bits <= 0xff80_0000 && 0x8000_0000 <= b.bits <= 0xff80_0000 ==> (a.at_most(
            b,
        ) <==> b.bits <= a.bits) && (a.below(b) <==> b.bits < a.bits),
        0x8000_0000 <= a.bits <= 0xff80_0000 && b.bits <= 0x7f80_0000 ==> a.at_most(b) && (a.below(
            b,
        ) <==> !(a.bits == 0x8000_0000 && b.bits == 0)),
        0x7f80_0000 < a.bits < 0x8000_0000 || a.bits > 0xff80_0000 ==> !a.at_most(b) && !b.at_most(a)
            && !a.below(b) && !b.below(a),
{
}

/// Of two numbers one is at most the other; a number is below another if and
/// only if the other is not at most it; and what is at most a number that is at
/// most a third is at most the third.
pub proof fn law_numbers_are_ordered(a: Real32, b: Real32, c: Real32)
    requires
        !a.nan() && !b.nan() && !c.nan(),
    ensures
        a.at_most(b) || b.at_most(a),
        a.below(b) <==> !b.at_most(a),
        a.at_most(b) && b.at_most(c) ==> a.at_most(c),
{
}

/// Rounding gives a nearest whole number, and of two the even one.
pub proof fn law_rounding_is_nearest(n: nat, d: nat)
    requires
        d > 0,
    ensures
        2 * (n - round_half_even(n, d) * d) <= d,
        2 * (round_half_even(n, d) * d - n) <= d,
        2 * (n - round_half_even(n, d) * d) == d || 2 * (round_half_even(n, d) * d - n) == d
            ==> round_half_even(n, d) % 2 == 0,
{
    vstd::arithmetic::div_mod::lemma_fundamental_div_mod(n as int, d as int);
    let q = n / d;
    let r = n % d;
    assert((q + 1) * d == q * d + d) by (nonlinear_arith);
    assert(q * d == d * q) by (nonlinear_arith);
    assert(0 <= r < d) by (nonlinear_arith)
        requires
            d > 0,
            r == n % d,
    ;
}

} // verus!
