//! Sizes, as people read them.
use vstd::prelude::*;
use vstd::string::*;

use crate::number;
use crate::text;

verus! {

/// A number in whole units, to the nearest one. A tie goes to the even one.
pub open spec fn nearest(n: int, unit: int) -> int {
    let q = n / unit;
    let r = n % unit;
    if 2 * r > unit || (2 * r == unit && q % 2 == 1) {
        q + 1
    } else {
        q
    }
}

/// The step between the numbers of 53 binary digits round a number.
pub open spec fn step_at(n: nat) -> nat
    decreases n,
{
    if n < 9007199254740992 {
        1
    } else {
        2 * step_at(n / 2)
    }
}

/// The number of 53 binary digits that is nearest to a number.
pub open spec fn in_53_digits(n: nat) -> int {
    nearest(n as int, step_at(n) as int) * step_at(n)
}

/// A number of tenths with a point before the last digit.
pub open spec fn with_point(tenths: int) -> Seq<char> {
    number::decimal(tenths / 10) + "."@ + number::decimal(tenths % 10)
}

/// A size in bytes, with one digit after the point in the largest unit that
/// fits.
pub open spec fn size_text(bytes: int) -> Seq<char> {
    if bytes >= 1073741824 {
        in_units(bytes, 1073741824) + " GB"@
    } else if bytes >= 1048576 {
        in_units(bytes, 1048576) + " MB"@
    } else if bytes >= 1024 {
        in_units(bytes, 1024) + " KB"@
    } else {
        number::decimal(bytes) + " B"@
    }
}

/// A number in whole units, to the nearest one.
fn round_to(n: u128, unit: u128) -> (q: u128)
    requires
        unit > 0,
        n < 0x1_0000_0000_0000_0000_0000_0000,
        unit < 0x1_0000_0000_0000_0000,
    ensures
        q == nearest(n as int, unit as int),
        q <= n / unit + 1,
{
    let q: u128 = n / unit;
    let r: u128 = n % unit;
    assert(q <= n) by (nonlinear_arith)
        requires
            q == n / unit,
            unit > 0,
    ;
    if 2 * r > unit || (2 * r == unit && q % 2 == 1) {
        q + 1
    } else {
        q
    }
}

/// The step between the numbers of 53 binary digits round a number.
fn find_step(n: u64) -> (step: u128)
    ensures
        step == step_at(n as nat),
        0 < step < 4096,
{
    let mut rest: u64 = n;
    let mut step: u128 = 1;
    while rest >= 9007199254740992
        invariant
            step_at(n as nat) == step * step_at(rest as nat),
            0 < step < 4096,
            rest * step <= n,
        decreases rest,
    {
        proof {
            assert(step_at(rest as nat) == 2 * step_at((rest / 2) as nat));
            assert(step * (2 * step_at((rest / 2) as nat)) == (step * 2) * step_at(
                (rest / 2) as nat,
            )) by (nonlinear_arith);
            assert(step < 2048) by (nonlinear_arith)
                requires
                    rest >= 9007199254740992,
                    rest * step <= n,
                    n <= 0xFFFF_FFFF_FFFF_FFFF,
            ;
            assert((rest / 2) * (step * 2) <= rest * step) by (nonlinear_arith)
                requires
                    rest / 2 * 2 <= rest,
                    0 < step,
            ;
        }
        rest = rest / 2;
        step = step * 2;
    }
    proof {
        let last = step_at(rest as nat);
        assert(last == 1);
        assert(step * last == step) by (nonlinear_arith)
            requires
                last == 1,
        ;
    }
    step
}

/// A number of bytes in a unit, with one digit after the point.
pub open spec fn in_units(bytes: int, unit: int) -> Seq<char> {
    with_point(nearest(in_53_digits(bytes as nat) * 10, unit))
}

/// A number of bytes in a unit, with one digit after the point.
fn in_unit(bytes: u64, unit: u128) -> (out: String)
    requires
        0 < unit < 0x1_0000_0000_0000_0000,
    ensures
        out@ == in_units(bytes as int, unit as int),
{
    let step = find_step(bytes);
    let exact: u128 = round_to(bytes as u128, step);
    assert(exact * step <= 0x2_0000_0000_0000_0000) by (nonlinear_arith)
        requires
            exact <= bytes as u128 / step + 1,
            0 < step < 4096,
            bytes <= 0xFFFF_FFFF_FFFF_FFFF,
    ;
    let n: u128 = exact * step * 10;
    let tenths: u128 = round_to(n, unit);
    text::cat3(
        number::wide_text(tenths / 10).as_str(),
        ".",
        number::wide_text(tenths % 10).as_str(),
    )
}

/// A size in bytes, for people to read.
pub fn format_size(bytes: u64) -> (out: String)
    ensures
        out@ == size_text(bytes as int),
{
    if bytes >= 1073741824 {
        text::cat(in_unit(bytes, 1073741824).as_str(), " GB")
    } else if bytes >= 1048576 {
        text::cat(in_unit(bytes, 1048576).as_str(), " MB")
    } else if bytes >= 1024 {
        text::cat(in_unit(bytes, 1024).as_str(), " KB")
    } else {
        text::cat(number::unsigned_text(bytes).as_str(), " B")
    }
}

/// A size in kilobytes, however small or large.
pub fn kilobytes(bytes: u64) -> (out: String)
    ensures
        out@ == in_units(bytes as int, 1024) + " KB"@,
{
    text::cat(in_unit(bytes, 1024).as_str(), " KB")
}

} // verus!
