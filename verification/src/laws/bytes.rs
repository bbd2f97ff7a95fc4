//! What a byte count that is shown tells of the count.

use vstd::arithmetic::power2::{lemma2_to64, lemma_pow2_pos, lemma_pow2_unfold, pow2};
use vstd::prelude::*;

use crate::output::{as_double, double_step, nearest, shown_bytes, unit_name, unit_size};
use crate::text::{decimal, digit, law_numbers_read_back, number, reads_as};

verus! {

/// Below 1 KiB all bytes are shown.
pub proof fn law_small_counts_are_shown_exactly(bytes: nat) -> (digits: Seq<char>)
    requires
        bytes < 1024,
    ensures
        reads_as(digits, bytes),
        shown_bytes(bytes) == digits + " B"@,
{
    law_numbers_read_back(bytes);
    decimal(bytes)
}

/// A rounded quotient is within half a unit, and even where two are as near.
proof fn lemma_nearest_is_near(value: nat, unit: nat)
    requires
        unit > 0,
    ensures
        2 * (nearest(value, unit) * unit - value) <= unit,
        2 * (value - nearest(value, unit) * unit) <= unit,
        2 * (nearest(value, unit) * unit - value) == unit || 2 * (value - nearest(value, unit)
            * unit) == unit ==> nearest(value, unit) % 2 == 0,
{
    let whole = value / unit;
    let part = value % unit;
    assert(value == whole * unit + part && 0 <= part < unit) by (nonlinear_arith)
        requires
            whole == value / unit,
            part == value % unit,
            unit > 0,
    ;
    assert((whole + 1) * unit == whole * unit + unit) by (nonlinear_arith);
}

/// Numbers of 53 bits lie no further apart than this.
proof fn lemma_step_is_small(value: nat)
    ensures
        double_step(value) >= 1,
        value < 0x20_0000_0000_0000 ==> double_step(value) == 1,
        value >= 0x20_0000_0000_0000 ==> double_step(value) * 0x10_0000_0000_0000 <= value,
    decreases value,
{
    if value >= 0x20_0000_0000_0000 {
        lemma_step_is_small(value / 2);
    }
}

/// A count that is shown to two decimals, in which unit, and how many
/// hundredths of it.
pub struct Shown {
    pub whole: Seq<char>,
    pub part: Seq<char>,
    pub name: Seq<char>,
    pub unit: nat,
    pub hundredths: nat,
}

/// From 1 KiB on a count is shown in the largest binary unit that it reaches,
/// to the nearest hundredth of it; of two that are as near, the even one. From
/// 2^53 bytes on the count is first rounded to 53 significant bits.
pub proof fn law_counts_are_shown_to_the_nearest_hundredth(bytes: nat) -> (shown: Shown)
    requires
        bytes >= 1024,
    ensures
        shown_bytes(bytes) == shown.whole + "."@ + shown.part + shown.name,
        reads_as(shown.whole, shown.hundredths / 100),
        shown.part.len() == 2,
        '0' <= shown.part[0] <= '9' && '0' <= shown.part[1] <= '9',
        number(shown.part) == shown.hundredths % 100,
        shown.unit <= bytes,
        bytes < 1024 * shown.unit || shown.unit == 1024 * 1024 * 1024 * 1024 * 1024,
        ({
            ||| shown.unit == 1024 && shown.name == " KiB"@
            ||| shown.unit == 1024 * 1024 && shown.name == " MiB"@
            ||| shown.unit == 1024 * 1024 * 1024 && shown.name == " GiB"@
            ||| shown.unit == 1024 * 1024 * 1024 * 1024 && shown.name == " TiB"@
            ||| shown.unit == 1024 * 1024 * 1024 * 1024 * 1024 && shown.name == " PiB"@
        }),
        bytes < 0x20_0000_0000_0000 ==> {
            let off = shown.hundredths * shown.unit - 100 * bytes;
            &&& -shown.unit <= 2 * off <= shown.unit
            &&& 2 * off == shown.unit || -2 * off == shown.unit ==> shown.hundredths % 2 == 0
        },
        ({
            let off = shown.hundredths * shown.unit - 100 * bytes;
            let slack = 0x20_0000_0000_0000 * shown.unit + 200 * bytes;
            -slack <= 0x40_0000_0000_0000 * off <= slack
        }),
{
    let unit = unit_size(bytes);
    let step = double_step(bytes);
    let double = as_double(bytes);
    let steps = nearest(bytes, step);
    let hundredths = nearest(double * 100, unit);
    lemma_step_is_small(bytes);
    lemma_nearest_is_near(bytes, step);
    lemma_nearest_is_near(double * 100, unit);
    assert(double == steps * step);
    if bytes < 0x20_0000_0000_0000 {
        assert(bytes / 1nat == bytes && bytes % 1nat == 0) by (nonlinear_arith);
        assert(double == bytes) by (nonlinear_arith)
            requires
                double == steps * step,
                step == 1,
                steps == bytes,
        ;
    }
    law_numbers_read_back(hundredths / 100);
    let whole = decimal(hundredths / 100);
    let part = seq![digit(hundredths / 10 % 10), digit(hundredths % 10)];
    assert(part.drop_last() == seq![digit(hundredths / 10 % 10)]);
    assert(part.drop_last().drop_last() == Seq::<char>::empty());
    assert(number(part.drop_last().drop_last()) == 0);
    assert(part.drop_last().last() == digit(hundredths / 10 % 10));
    assert(number(part.drop_last()) == hundredths / 10 % 10);
    assert(part.last() == digit(hundredths % 10));
    assert(number(part) == hundredths / 10 % 10 * 10 + hundredths % 10);
    assert(hundredths % 100 == hundredths / 10 % 10 * 10 + hundredths % 10);
    Shown { whole, part, name: unit_name(bytes), unit, hundredths }
}

/// The distance between numbers of 53 bits, by the range in which they lie.
proof fn lemma_step_of_range(value: nat, bits: nat)
    requires
        value < 0x20_0000_0000_0000 * pow2(bits),
        bits > 0 ==> 0x10_0000_0000_0000 * pow2(bits) <= value,
    ensures
        double_step(value) == pow2(bits),
    decreases bits,
{
    lemma2_to64();
    if bits > 0 {
        lemma_pow2_unfold(bits);
        lemma_pow2_pos((bits - 1) as nat);
        lemma_step_of_range(value / 2, (bits - 1) as nat);
    }
}

/// A number of 53 bits is its own rounding.
proof fn lemma_double_is_exact(value: nat)
    requires
        value % double_step(value) == 0,
    ensures
        as_double(value) == value,
{
    let step = double_step(value);
    lemma_step_is_small(value);
    assert(value / step * step == value) by (nonlinear_arith)
        requires
            value % step == 0,
            step > 0,
    ;
}

/// From 2^53 bytes on, counts that have the same nearest number of 53
/// significant bits are shown alike; of two that are as near, the even one
/// counts.
pub proof fn law_large_counts_are_shown_as_doubles(bytes: nat, bits: nat, significand: nat)
    requires
        bits > 0,
        0x10_0000_0000_0000 * pow2(bits) <= bytes < 0x20_0000_0000_0000 * pow2(bits),
        ({
            let off = bytes - significand * pow2(bits);
            let step = pow2(bits) as int;
            ||| -step < 2 * off < step
            ||| (2 * off == step || 2 * off == -step) && significand % 2 == 0
        }),
    ensures
        shown_bytes(bytes) == shown_bytes(significand * pow2(bits)),
{
    let step = pow2(bits);
    let value = significand * step;
    lemma_pow2_pos(bits);
    lemma_pow2_unfold(bits);
    lemma_step_of_range(bytes, bits);
    lemma_rounds_to(bytes, step, significand);
    assert(as_double(bytes) == value);
    assert(0x10_0000_0000_0000 <= significand <= 0x20_0000_0000_0000) by (nonlinear_arith)
        requires
            0x10_0000_0000_0000 * step <= bytes < 0x20_0000_0000_0000 * step,
            value == significand * step,
            -step <= 2 * (bytes - value) <= step,
            step > 0,
    ;
    if significand < 0x20_0000_0000_0000 {
        assert(0x10_0000_0000_0000 * step <= value < 0x20_0000_0000_0000 * step)
            by (nonlinear_arith)
            requires
                value == significand * step,
                0x10_0000_0000_0000 <= significand < 0x20_0000_0000_0000,
                step > 0,
        ;
        lemma_step_of_range(value, bits);
        assert(value % step == 0) by (nonlinear_arith)
            requires
                value == significand * step,
                step > 0,
        ;
    } else {
        let next = (bits + 1) as nat;
        lemma_pow2_unfold(next);
        assert(pow2(next) == 2 * step);
        assert(value == 0x10_0000_0000_0000 * (2 * step)) by (nonlinear_arith)
            requires
                value == significand * step,
                significand == 0x20_0000_0000_0000,
        ;
        lemma_step_of_range(value, next);
        let double_step = 2 * step;
        assert(value % double_step == 0) by (nonlinear_arith)
            requires
                value == 0x10_0000_0000_0000 * double_step,
                double_step > 0,
        ;
    }
    lemma_double_is_exact(value);
    assert(step >= 2) by {
        lemma_pow2_pos((bits - 1) as nat);
    }
    assert(value >= 0x10_0000_0000_0000);
    assert(unit_size(bytes) == unit_size(value));
    assert(unit_name(bytes) == unit_name(value));
}

/// What is nearest to a value is what it is rounded to.
proof fn lemma_rounds_to(value: nat, unit: nat, to: nat)
    requires
        unit > 0,
        ({
            let off = value - to * unit;
            ||| -unit < 2 * off < unit
            ||| (2 * off == unit || 2 * off == -unit) && to % 2 == 0
        }),
    ensures
        nearest(value, unit) == to,
{
    let whole = value / unit;
    let part = value % unit;
    assert(value == whole * unit + part && 0 <= part < unit) by (nonlinear_arith)
        requires
            whole == value / unit,
            part == value % unit,
            unit > 0,
    ;
    let off = value - to * unit;
    assert(to == whole || to == whole + 1) by (nonlinear_arith)
        requires
            value == whole * unit + part,
            0 <= part < unit,
            off == value - to * unit,
            -unit <= 2 * off <= unit,
            unit > 0,
    ;
    assert((whole + 1) * unit == whole * unit + unit) by (nonlinear_arith);
}

} // verus!
