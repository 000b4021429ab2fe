//! Sizes of files for people to read.
#[allow(unused_imports)]
use crate::measure::round_half_even;
use crate::number::{decimal_text, pad};
#[allow(unused_imports)]
use crate::number::{decimal, pad_front};
use vstd::prelude::*;
use vstd::string::*;

verus! {

/// The distance between neighbouring doubles around `n`: one up to two to the
/// power of 53, and twice as much beyond each further power.
pub open spec fn double_step(n: nat, step: nat) -> nat
    decreases n - step,
{
    if step == 0 || n < 0x20_0000_0000_0000 * step || step > n {
        step
    } else {
        double_step(n, 2 * step)
    }
}

/// The double nearest to a number of bytes.
pub open spec fn nearest_double(n: nat) -> nat {
    let step = double_step(n, 1);
    step * round_half_even(n, step)
}

/// A number of bytes in GB with two decimals, in MB with one or in KB with
/// none. The number counts as the double nearest to it, and a half is rounded
/// to the even digit.
pub open spec fn size_text(bytes: u64) -> Seq<char> {
    let v = nearest_double(bytes as nat);
    if bytes >= 0x4000_0000 {
        let h = round_half_even(100 * v, 0x4000_0000);
        decimal(h / 100) + "."@ + pad_front(decimal(h % 100), '0', 2) + " GB"@
    } else if bytes >= 0x10_0000 {
        let t = round_half_even(10 * v, 0x10_0000);
        decimal(t / 10) + "."@ + decimal(t % 10) + " MB"@
    } else {
        decimal(round_half_even(v, 1024)) + " KB"@
    }
}

/// `n / d` rounded, a half to the even number.
fn rounded(n: u128, d: u128) -> (r: u128)
    requires
        0 < d,
        d <= 0x4000_0000,
        n <= 0x1_0000_0000_0000_0000_0000_0000,
    ensures
        r == round_half_even(n as nat, d as nat),
        r <= n / d + 1,
{
    let q: u128 = n / d;
    let twice: u128 = 2 * (n % d);
    proof {
        vstd::arithmetic::div_mod::lemma_div_is_ordered_by_denominator(n as int, 1, d as int);
    }
    if twice < d || (twice == d && q % 2 == 0) {
        q
    } else {
        q + 1
    }
}

/// The double nearest to a number of bytes.
fn as_double(n: u64) -> (v: u128)
    ensures
        v == nearest_double(n as nat),
        v <= 0x1_0000_0000_0000_1000,
        n < 0x4000_0000 ==> v == n,
{
    let mut step: u128 = 1;
    while n as u128 >= 0x20_0000_0000_0000 * step
        invariant
            1 <= step <= 0x1000,
            double_step(n as nat, step as nat) == double_step(n as nat, 1),
            step > 1 ==> n >= 0x10_0000_0000_0000 * step,
            n < 0x4000_0000 ==> step == 1,
        decreases 0x2000 - step,
    {
        assert(step <= n);
        step = step * 2;
    }
    let q: u128 = rounded(n as u128, step);
    proof {
        let f = (n as u128 / step) as int;
        vstd::arithmetic::div_mod::lemma_fundamental_div_mod(n as int, step as int);
        assert(step * q <= 0x1_0000_0000_0000_1000) by (nonlinear_arith)
            requires
                q <= f + 1,
                step * f <= n,
                1 <= step <= 0x1000,
                n <= 0xffff_ffff_ffff_ffff,
        ;
    }
    step * q
}

/// A number of bytes for people to read.
pub fn human_bytes(bytes: u64) -> (r: String)
    ensures
        r@ == size_text(bytes),
{
    let v: u128 = as_double(bytes);
    if bytes >= 0x4000_0000 {
        let h: u128 = rounded(100 * v, 0x4000_0000);
        let h: u64 = h as u64;
        let mut r = decimal_text(h / 100);
        r.append(".");
        r.append(&pad(&decimal_text(h % 100), '0', 2));
        r.append(" GB");
        r
    } else if bytes >= 0x10_0000 {
        let t: u128 = rounded(10 * v, 0x10_0000);
        let t: u64 = t as u64;
        let mut r = decimal_text(t / 10);
        r.append(".");
        r.append(&decimal_text(t % 10));
        r.append(" MB");
        r
    } else {
        let k: u128 = rounded(v, 1024);
        let k: u64 = k as u64;
        let mut r = decimal_text(k);
        r.append(" KB");
        r
    }
}

/// A size that fits 53 bits is not rounded before it is written.
pub proof fn law_small_sizes_are_exact(n: nat)
    requires
        n < 0x20_0000_0000_0000,
    ensures
        nearest_double(n) == n,
{
    assert(double_step(n, 1) == 1);
    assert(n / 1 == n && n % 1 == 0);
    assert(round_half_even(n, 1) == n);
    assert(1 * n == n);
}

/// A size is written in gigabytes from one on, in megabytes from one on, and else
/// in kilobytes.
pub proof fn law_units(bytes: u64)
    ensures
        bytes >= 1024 * 1024 * 1024 ==> crate::text::has_suffix(size_text(bytes), " GB"@),
        1024 * 1024 <= bytes < 1024 * 1024 * 1024 ==> crate::text::has_suffix(
            size_text(bytes),
            " MB"@,
        ),
        bytes < 1024 * 1024 ==> crate::text::has_suffix(size_text(bytes), " KB"@),
{
    let t = size_text(bytes);
    reveal_strlit(" GB");
    reveal_strlit(" MB");
    reveal_strlit(" KB");
    assert(t.skip(t.len() - 3) =~= (if bytes >= 0x4000_0000 {
        " GB"@
    } else if bytes >= 0x10_0000 {
        " MB"@
    } else {
        " KB"@
    }));
}

/// Whole kilobytes are written as their number.
pub proof fn law_whole_kilobytes(k: nat)
    requires
        k < 1024,
    ensures
        size_text((1024 * k) as u64) == decimal(k) + " KB"@,
{
    law_small_sizes_are_exact(1024 * k);
    assert((1024 * k) / 1024 == k && (1024 * k) % 1024 == 0);
}

} // verus!
