//! File sizes as people read them.
use vstd::prelude::*;
use vstd::string::*;

use crate::text::{decimal, digit, push_decimal};

verus! {

/// One gibibyte.
pub const GIB: u64 = 1_073_741_824;

/// One mebibyte.
pub const MIB: u64 = 1_048_576;

/// One kibibyte.
pub const KIB: u64 = 1024;

/// The integers below this one have an exact double-precision form.
pub const EXACT_LIMIT: u64 = 9_007_199_254_740_992;

/// `n / d`, rounded to the nearest integer, halves to the even one.
pub open spec fn round_half_even(n: nat, d: nat) -> nat {
    let q = n / d;
    let r = n % d;
    if 2 * r < d || (2 * r == d && q % 2 == 0) {
        q
    } else {
        q + 1
    }
}

/// The distance between neighbouring doubles around `n`, or 1 where that is less.
pub open spec fn double_step(n: nat) -> nat
    decreases n,
{
    if n < EXACT_LIMIT {
        1
    } else {
        2 * double_step(n / 2)
    }
}

/// The double nearest to `n`.
pub open spec fn nearest_double(n: nat) -> nat {
    round_half_even(n, double_step(n)) * double_step(n)
}

/// The tenths of `unit` that `bytes`, taken as a double, comes to.
pub open spec fn tenths_of(bytes: nat, unit: nat) -> nat {
    round_half_even(10 * nearest_double(bytes), unit)
}

/// A number of tenths as a decimal with one place.
pub open spec fn one_place(tenths: nat) -> Seq<char> {
    decimal(tenths / 10) + seq!['.', digit(tenths % 10)]
}

/// `bytes` in the largest fitting unit: gigabytes and megabytes with one decimal place,
/// kilobytes rounded down.
pub open spec fn size_text(bytes: nat) -> Seq<char> {
    if bytes >= GIB {
        one_place(tenths_of(bytes, GIB as nat)) + " GB"@
    } else if bytes >= MIB {
        one_place(tenths_of(bytes, MIB as nat)) + " MB"@
    } else if bytes >= KIB {
        decimal(bytes / KIB as nat) + " KB"@
    } else {
        decimal(bytes) + " B"@
    }
}

fn round_half_even_exec(n: u128, d: u128) -> (out: u128)
    requires
        0 < d <= GIB,
        n <= 0x1000_0000_0000_0000_0000_0000,
    ensures
        out == round_half_even(n as nat, d as nat),
        out <= n / d + 1,
{
    let q: u128 = n / d;
    let r: u128 = n % d;
    assert(q <= n) by (nonlinear_arith)
        requires
            q == n / d,
            d > 0,
    ;
    if 2 * r < d || (2 * r == d && q % 2 == 0) {
        q
    } else {
        q + 1
    }
}

fn double_step_exec(n: u64) -> (step: u64)
    ensures
        step == double_step(n as nat),
        n < EXACT_LIMIT ==> step == 1,
        n >= EXACT_LIMIT ==> step * 4_503_599_627_370_496 <= n,
        1 <= step <= 4096,
    decreases n,
{
    if n < EXACT_LIMIT {
        1
    } else {
        2 * double_step_exec(n / 2)
    }
}

fn nearest_double_exec(n: u64) -> (out: u128)
    ensures
        out == nearest_double(n as nat),
        out <= 0x2_0000_0000_0000_0000,
{
    let step: u64 = double_step_exec(n);
    let q: u128 = round_half_even_exec(n as u128, step as u128);
    assert(q * step <= n + step) by (nonlinear_arith)
        requires
            q <= n as nat / step as nat + 1,
            1 <= step,
    ;
    q * step as u128
}

fn push_one_place(out: &mut String, bytes: u64, unit: u64)
    requires
        unit == GIB || unit == MIB,
    ensures
        final(out)@ == old(out)@ + one_place(tenths_of(bytes as nat, unit as nat)),
{
    let ghost start = out@;
    let tenths: u128 = round_half_even_exec(10 * nearest_double_exec(bytes), unit as u128);
    let whole: u128 = tenths / 10;
    proof {
        let n = 10 * nearest_double(bytes as nat);
        assert(n / (unit as nat) <= 0x2_0000_0000_0000);
    }
    push_decimal(out, whole as u64);
    out.push('.');
    let d: u8 = 48u8 + (tenths % 10) as u8;
    out.push(d as char);
    assert(out@ =~= start + one_place(tenths_of(bytes as nat, unit as nat)));
}

/// `bytes` in the largest fitting unit.
pub fn format_bytes(bytes: u64) -> (out: String)
    ensures
        out@ == size_text(bytes as nat),
{
    let mut out = String::new();
    if bytes >= GIB {
        push_one_place(&mut out, bytes, GIB);
        out.append(" GB");
    } else if bytes >= MIB {
        push_one_place(&mut out, bytes, MIB);
        out.append(" MB");
    } else if bytes >= KIB {
        push_decimal(&mut out, bytes / KIB);
        out.append(" KB");
    } else {
        push_decimal(&mut out, bytes);
        out.append(" B");
    }
    assert(out@ =~= size_text(bytes as nat));
    out
}

/// Sizes below 2 to the 53 are exact as doubles.
pub proof fn small_sizes_are_exact(bytes: nat)
    requires
        bytes < EXACT_LIMIT,
    ensures
        nearest_double(bytes) == bytes,
{
    assert(double_step(bytes) == 1);
    assert(bytes / 1 == bytes && bytes % 1 == 0);
    assert(round_half_even(bytes, 1) == bytes);
}

/// A rounded quotient is off by at most one half.
pub proof fn rounding_error(n: nat, d: nat)
    requires
        d > 0,
    ensures
        -(d as int) <= 2 * (round_half_even(n, d) * d - n) <= d,
{
    let q = n / d;
    let r = n % d;
    assert(n == q * d + r && 0 <= r < d) by (nonlinear_arith)
        requires
            d > 0,
            q == n / d,
            r == n % d,
    ;
    assert((q + 1) * d == q * d + d) by (nonlinear_arith);
}

/// The size shown is at most half a tenth of its unit off, where the size is exact as a
/// double.
pub proof fn shown_size_is_close(bytes: nat, unit: nat)
    requires
        bytes < EXACT_LIMIT,
        unit > 0,
    ensures
        -(unit as int) <= 2 * (tenths_of(bytes, unit) * unit - 10 * bytes) <= unit,
{
    small_sizes_are_exact(bytes);
    rounding_error(10 * bytes, unit);
}

/// A rounded quotient is one of the two nearest integers, and the even one where the quotient
/// lies half way between them.
pub proof fn halves_go_to_the_even(n: nat, d: nat)
    requires
        d > 0,
    ensures
        -(d as int) <= 2 * (round_half_even(n, d) * d - n) <= d,
        2 * (round_half_even(n, d) * d - n) == d || 2 * (round_half_even(n, d) * d - n)
            == -(d as int) ==> round_half_even(n, d) % 2 == 0,
{
    rounding_error(n, d);
    let q = n / d;
    let r = n % d;
    assert(n == q * d + r && 0 <= r < d) by (nonlinear_arith)
        requires
            d > 0,
            q == n / d,
            r == n % d,
    ;
    assert((q + 1) * d == q * d + d) by (nonlinear_arith);
}

/// From 2 to the 53 on, neighbouring doubles are a power of two apart, and a double holds 53
/// binary places.
pub proof fn doubles_have_53_places(n: nat) -> (e: nat)
    requires
        n >= 9_007_199_254_740_992,
    ensures
        double_step(n) == vstd::arithmetic::power2::pow2(e),
        4_503_599_627_370_496 * double_step(n) <= n < 9_007_199_254_740_992 * double_step(n),
    decreases n,
{
    vstd::arithmetic::power2::lemma2_to64();
    let half = n / 2;
    if half < EXACT_LIMIT {
        assert(double_step(half) == 1);
        1
    } else {
        let e = doubles_have_53_places(half);
        vstd::arithmetic::power2::lemma_pow2_unfold((e + 1) as nat);
        e + 1
    }
}

/// A size as a double is the size itself below 2 to the 53, and else the nearest number that
/// a double can hold, the one with an even last place where two are equally near.
pub proof fn doubles_are_nearest(n: nat)
    ensures
        n < 9_007_199_254_740_992 ==> nearest_double(n) == n,
        ({
            let d = nearest_double(n) as int;
            let step = double_step(n) as int;
            &&& step > 0
            &&& d % step == 0
            &&& -step <= 2 * (d - n) <= step
            &&& 2 * (d - n) == step || 2 * (d - n) == -step ==> (d / step) % 2 == 0
        }),
{
    let step = double_step(n);
    if n < EXACT_LIMIT {
        small_sizes_are_exact(n);
    } else {
        let e = doubles_have_53_places(n);
        vstd::arithmetic::power2::lemma_pow2_pos(e);
    }
    halves_go_to_the_even(n, step);
    let q = round_half_even(n, step);
    assert((q * step) % step == 0 && (q * step) / step == q) by (nonlinear_arith)
        requires
            step > 0,
    ;
}

/// Sizes below 1024 are shown in bytes, as they are.
pub proof fn bytes_are_shown_exactly(bytes: nat)
    requires
        bytes < 1024,
    ensures
        size_text(bytes) == decimal(bytes) + " B"@,
{
}

/// Sizes below 1024 times 1024 are shown in kilobytes, rounded down.
pub proof fn kilobytes_are_rounded_down(bytes: nat) -> (whole: nat)
    requires
        1024 <= bytes < 1_048_576,
    ensures
        size_text(bytes) == decimal(whole) + " KB"@,
        1024 * whole <= bytes < 1024 * (whole + 1),
{
    bytes / 1024
}

/// Sizes below a gigabyte are shown in megabytes with one place, which is the nearest tenth,
/// and the even one where two are equally near.
pub proof fn megabytes_are_rounded_to_tenths(bytes: nat) -> (tenths: nat)
    requires
        1_048_576 <= bytes < 1_073_741_824,
    ensures
        size_text(bytes) == decimal(tenths / 10) + seq!['.', (48 + tenths % 10) as char] + " MB"@,
        -1_048_576 <= 2 * (tenths * 1_048_576 - 10 * bytes) <= 1_048_576,
        2 * (tenths * 1_048_576 - 10 * bytes) == 1_048_576 || 2 * (tenths * 1_048_576 - 10 * bytes)
            == -1_048_576 ==> tenths % 2 == 0,
{
    small_sizes_are_exact(bytes);
    halves_go_to_the_even(10 * bytes, MIB as nat);
    tenths_of(bytes, MIB as nat)
}

/// All larger sizes are shown in gigabytes with one place, which is the nearest tenth of the
/// size as a double, and the even one where two are equally near.
pub proof fn gigabytes_are_rounded_to_tenths(bytes: nat) -> (tenths: nat)
    requires
        bytes >= 1_073_741_824,
    ensures
        size_text(bytes) == decimal(tenths / 10) + seq!['.', (48 + tenths % 10) as char] + " GB"@,
        ({
            let off = 2 * (tenths * 1_073_741_824 - 10 * nearest_double(bytes));
            &&& -1_073_741_824 <= off <= 1_073_741_824
            &&& off == 1_073_741_824 || off == -1_073_741_824 ==> tenths % 2 == 0
        }),
{
    halves_go_to_the_even(10 * nearest_double(bytes), GIB as nat);
    tenths_of(bytes, GIB as nat)
}

} // verus!
