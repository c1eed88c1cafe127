//! The numbers that bit patterns stand for, and that patterns are compared by them.
use vstd::arithmetic::power2::{
    lemma2_to64, lemma_pow2_adds, lemma_pow2_pos, lemma_pow2_strictly_increases, lemma_pow2_unfold,
    pow2,
};
use vstd::prelude::*;

use crate::single::{Double, Single};

verus! {

/// The exponent field of a binary32 pattern.
pub open spec fn exponent(s: Single) -> int {
    s.bits as int % 0x8000_0000 / 0x80_0000
}

/// The digits of a binary32 pattern behind the point.
pub open spec fn digits(s: Single) -> int {
    s.bits as int % 0x80_0000
}

/// Whether a pattern is that of a number or an infinity.
#[verifier::opaque]
pub open spec fn is_number(s: Single) -> bool {
    exponent(s) < 255 || digits(s) == 0
}

/// Whether a pattern is that of a number.
#[verifier::opaque]
pub open spec fn is_finite(s: Single) -> bool {
    exponent(s) < 255
}

/// A binary32 number in units of the smallest positive one. Infinities count as the number that
/// would come after the largest one.
pub open spec fn units(s: Single) -> int {
    let size = if exponent(s) == 0 {
        digits(s)
    } else {
        (0x80_0000 + digits(s)) * pow2((exponent(s) - 1) as nat)
    };
    if s.bits < 0x8000_0000 {
        size
    } else {
        -size
    }
}

/// The number that a binary32 pattern stands for.
#[verifier::opaque]
pub open spec fn value(s: Single) -> real {
    units(s) as real / pow2(149) as real
}

/// The order of binary32 numbers; a pattern that is no number has no place in it.
pub open spec fn less(a: Single, b: Single) -> bool {
    is_number(a) && is_number(b) && value(a) < value(b)
}

/// The exponent field of a binary64 pattern.
pub open spec fn wide_exponent(d: Double) -> int {
    d.bits as int % 0x8000_0000_0000_0000 / 0x10_0000_0000_0000
}

/// The digits of a binary64 pattern behind the point.
pub open spec fn wide_digits(d: Double) -> int {
    d.bits as int % 0x10_0000_0000_0000
}

/// Whether a pattern is that of a number or an infinity.
#[verifier::opaque]
pub open spec fn is_wide_number(d: Double) -> bool {
    wide_exponent(d) < 2047 || wide_digits(d) == 0
}

/// Whether a pattern is that of a number.
#[verifier::opaque]
pub open spec fn is_wide_finite(d: Double) -> bool {
    wide_exponent(d) < 2047
}

/// A binary64 number in units of the smallest positive one.
pub open spec fn wide_units(d: Double) -> int {
    let size = if wide_exponent(d) == 0 {
        wide_digits(d)
    } else {
        (0x10_0000_0000_0000 + wide_digits(d)) * pow2((wide_exponent(d) - 1) as nat)
    };
    if d.bits < 0x8000_0000_0000_0000 {
        size
    } else {
        -size
    }
}

/// The number that a binary64 pattern stands for.
#[verifier::opaque]
pub open spec fn wide_value(d: Double) -> real {
    wide_units(d) as real / pow2(1074) as real
}

/// A number of two fields, in which the second counts `base` digits.
spec fn sized(base: int, exponent: int, digits: int) -> int {
    if exponent == 0 {
        digits
    } else {
        (base + digits) * pow2((exponent - 1) as nat)
    }
}

proof fn lemma_sized_grows(base: int, e: int, d: int, f: int, g: int)
    requires
        base > 0,
        0 <= e,
        0 <= f,
        0 <= d < base,
        0 <= g < base,
        e < f || e == f && d < g,
    ensures
        0 <= sized(base, e, d) < sized(base, f, g),
{
    if f == 0 {
    } else if e == f {
        let p = pow2((e - 1) as nat) as int;
        lemma_pow2_pos((e - 1) as nat);
        assert(0 <= (base + d) * p < (base + g) * p) by (nonlinear_arith)
            requires
                base > 0,
                0 <= d < g,
                p > 0,
        ;
    } else {
        let q = pow2((f - 1) as nat) as int;
        lemma_pow2_pos((f - 1) as nat);
        assert(base * q <= (base + g) * q) by (nonlinear_arith)
            requires
                g >= 0,
                q > 0,
        ;
        if e == 0 {
            assert(base <= base * q) by (nonlinear_arith)
                requires
                    base > 0,
                    q >= 1,
            ;
        } else {
            let p = pow2((e - 1) as nat) as int;
            lemma_pow2_pos((e - 1) as nat);
            lemma_pow2_unfold(e as nat);
            if e < f - 1 {
                lemma_pow2_strictly_increases(e as nat, (f - 1) as nat);
            }
            assert(2 * p <= q);
            assert(0 <= (base + d) * p < base * q) by (nonlinear_arith)
                requires
                    0 <= d < base,
                    p > 0,
                    2 * p <= q,
            ;
        }
    }
}

proof fn lemma_sized_order(base: int, e: int, d: int, f: int, g: int)
    requires
        base > 0,
        0 <= e,
        0 <= f,
        0 <= d < base,
        0 <= g < base,
    ensures
        0 <= sized(base, e, d),
        e * base + d < f * base + g <==> sized(base, e, d) < sized(base, f, g),
        e * base + d == 0 <==> sized(base, e, d) == 0,
{
    lemma_sized_grows(base, e, d, e + 1, d);
    if e < f || e == f && d < g {
        lemma_sized_grows(base, e, d, f, g);
    } else if f < e || g < d {
        lemma_sized_grows(base, f, g, e, d);
    }
    if 0 < e || 0 < d {
        lemma_sized_grows(base, 0, 0, e, d);
    }
    assert(e < f ==> e * base + d < f * base + g) by (nonlinear_arith)
        requires
            base > 0,
            0 <= d < base,
            0 <= g < base,
    ;
    assert(f < e ==> f * base + g < e * base + d) by (nonlinear_arith)
        requires
            base > 0,
            0 <= d < base,
            0 <= g < base,
    ;
    assert(0 < e ==> 0 < e * base) by (nonlinear_arith)
        requires
            base > 0,
    ;
}

/// Division undoes multiplication.
pub(crate) proof fn lemma_quotient(all: real, part: real, count: real)
    requires
        count != 0 as real,
        part * count == all,
    ensures
        all / count == part,
{
    assert(all / count == part) by (nonlinear_arith)
        requires
            count != 0 as real,
            part * count == all,
    ;
}

/// The product of two integers is that of the numbers.
proof fn lemma_real_product(a: int, b: int)
    ensures
        (a * b) as real == a as real * b as real,
{
    assert((a * b) as real == a as real * b as real) by (nonlinear_arith);
}

proof fn lemma_quotient_order(a: int, b: int, unit: nat)
    requires
        unit > 0,
    ensures
        a < b <==> (a as real) / (unit as real) < (b as real) / (unit as real),
        a == b <==> (a as real) / (unit as real) == (b as real) / (unit as real),
        (0 - a) as real / unit as real == 0 as real - a as real / unit as real,
{
    let (x, y, u) = (a as real, b as real, unit as real);
    assert(x / u * u == x && y / u * u == y) by (nonlinear_arith)
        requires
            u != 0 as real,
    ;
    assert(x < y ==> x / u < y / u) by (nonlinear_arith)
        requires
            u > 0 as real,
    ;
    assert(x / u < y / u ==> x < y) by (nonlinear_arith)
        requires
            u > 0 as real,
    ;
    assert((0 as real - x) / u == 0 as real - x / u) by (nonlinear_arith)
        requires
            u != 0 as real,
    ;
}

/// The ranks that patterns are compared by, and what counts as a number, are those of the
/// numbers that the patterns stand for.
pub proof fn law_patterns_compare_as_numbers(a: Single, b: Single)
    ensures
        a.nan() <==> !is_number(a),
        a.finite() <==> is_finite(a),
        is_finite(a) ==> is_number(a),
        a.rank() < b.rank() <==> value(a) < value(b),
        a.rank() == b.rank() <==> value(a) == value(b),
        a.rank() == -b.rank() <==> value(a) == 0 as real - value(b),
        a.below(b) <==> less(a, b),
        a.at_most(b) <==> is_number(a) && is_number(b) && value(a) <= value(b),
        a.absolute().bits == a.bits as int % 0x8000_0000,
        value(a.absolute()) == if value(a) < (0 as real) {
            0 as real - value(a)
        } else {
            value(a)
        },
{
    reveal(is_number);
    reveal(is_finite);
    reveal(value);
    lemma_rank(a);
    lemma_rank(b);
    lemma_rank(a.absolute());
    lemma_sized_order(0x80_0000, exponent(a), digits(a), exponent(b), digits(b));
    lemma_sized_order(0x80_0000, exponent(b), digits(b), exponent(a), digits(a));
    lemma_pow2_pos(149);
    lemma_quotient_order(units(a), units(b), pow2(149));
    lemma_quotient_order(units(a), -units(b), pow2(149));
    lemma_quotient_order(units(b), units(b), pow2(149));
    lemma_quotient_order(units(a), 0, pow2(149));
    lemma_quotient_order(units(a), units(a.absolute()), pow2(149));
    lemma_quotient_order(-units(a), units(a.absolute()), pow2(149));
    lemma_quotient(0 as real, 0 as real, pow2(149) as real);
}

proof fn lemma_rank(a: Single)
    ensures
        a.magnitude() == exponent(a) * 0x80_0000 + digits(a),
        0 <= digits(a) < 0x80_0000,
        0 <= exponent(a) <= 255,
        units(a) == if a.bits < 0x8000_0000 {
            sized(0x80_0000, exponent(a), digits(a))
        } else {
            -sized(0x80_0000, exponent(a), digits(a))
        },
{
}

/// The numbers that patterns stand for decide the answers of `lt`, `le`, `abs` and `max`.
pub proof fn law_comparisons_are_of_numbers(
    a: Single,
    b: Single,
    below: bool,
    up_to: bool,
    size: Single,
    larger: Single,
)
    requires
        call_ensures(Single::lt, (a, b), below),
        call_ensures(Single::le, (a, b), up_to),
        call_ensures(Single::abs, (a,), size),
        call_ensures(Single::max, (a, b), larger),
    ensures
        below <==> less(a, b),
        up_to <==> is_number(a) && is_number(b) && value(a) <= value(b),
        size.bits == a.bits as int % 0x8000_0000,
        larger == a || larger == b,
        is_number(a) ==> is_number(larger) && value(a) <= value(larger),
        is_number(b) ==> is_number(larger) && value(b) <= value(larger),
{
    law_patterns_compare_as_numbers(a, b);
    law_patterns_compare_as_numbers(b, a);
}

proof fn lemma_wide_rank(a: Double)
    ensures
        a.magnitude() == wide_exponent(a) * 0x10_0000_0000_0000 + wide_digits(a),
        0 <= wide_digits(a) < 0x10_0000_0000_0000,
        0 <= wide_exponent(a) <= 2047,
        wide_units(a) == if a.bits < 0x8000_0000_0000_0000 {
            sized(0x10_0000_0000_0000, wide_exponent(a), wide_digits(a))
        } else {
            -sized(0x10_0000_0000_0000, wide_exponent(a), wide_digits(a))
        },
{
}

/// The ranks that binary64 patterns are compared by, and what counts as a number, are those of
/// the numbers that the patterns stand for.
pub proof fn law_wide_patterns_compare_as_numbers(a: Double, b: Double)
    ensures
        a.nan() <==> !is_wide_number(a),
        is_wide_finite(a) ==> is_wide_number(a),
        a.rank() < b.rank() <==> wide_value(a) < wide_value(b),
        a.rank() == b.rank() <==> wide_value(a) == wide_value(b),
        a.at_most(b) <==> is_wide_number(a) && is_wide_number(b) && wide_value(a) <= wide_value(
            b,
        ),
{
    reveal(is_wide_number);
    reveal(is_wide_finite);
    reveal(wide_value);
    lemma_wide_rank(a);
    lemma_wide_rank(b);
    let base = 0x10_0000_0000_0000int;
    lemma_sized_order(base, wide_exponent(a), wide_digits(a), wide_exponent(b), wide_digits(b));
    lemma_sized_order(base, wide_exponent(b), wide_digits(b), wide_exponent(a), wide_digits(a));
    lemma_pow2_pos(1074);
    lemma_quotient_order(wide_units(a), wide_units(b), pow2(1074));
}

proof fn lemma_reduced(all: int, small: nat, large: nat)
    ensures
        (all * pow2(small)) as real / pow2(small + large) as real == all as real / pow2(
            large,
        ) as real,
{
    lemma_pow2_adds(small, large);
    lemma_pow2_pos(small);
    lemma_pow2_pos(large);
    let (p, q, x) = (pow2(small) as real, pow2(large) as real, all as real);
    lemma_real_product(all, pow2(small) as int);
    lemma_real_product(pow2(small) as int, pow2(large) as int);
    assert((x * p) / (p * q) == x / q) by (nonlinear_arith)
        requires
            p > 0 as real,
            q > 0 as real,
    ;
}

/// The number of a binary32 pattern of moderate size.
proof fn lemma_value(s: Single)
    requires
        s.bits < 0x8000_0000,
        0 < exponent(s) <= 150,
    ensures
        value(s) == (0x80_0000 + digits(s)) as real / pow2((150 - exponent(s)) as nat) as real,
{
    reveal(value);
    lemma_reduced(
        0x80_0000 + digits(s),
        (exponent(s) - 1) as nat,
        (150 - exponent(s)) as nat,
    );
}

/// The number of a binary64 pattern of moderate size.
proof fn lemma_wide_value(d: Double)
    requires
        d.bits < 0x8000_0000_0000_0000,
        0 < wide_exponent(d) <= 1075,
    ensures
        wide_value(d) == (0x10_0000_0000_0000 + wide_digits(d)) as real / pow2(
            (1075 - wide_exponent(d)) as nat,
        ) as real,
{
    reveal(wide_value);
    lemma_reduced(
        0x10_0000_0000_0000 + wide_digits(d),
        (wide_exponent(d) - 1) as nat,
        (1075 - wide_exponent(d)) as nat,
    );
}

/// The binary32 patterns that the library names stand for these numbers.
pub proof fn law_named_patterns()
    ensures
        value(Single { bits: 0 }) == 0 as real,
        value(Single { bits: 0x3f80_0000 }) == 1 as real,
        value(Single { bits: 0x3f00_0000 }) == 1 as real / 2 as real,
        value(Single { bits: 0x41a0_0000 }) == 20 as real,
        value(Single { bits: 0x4248_0000 }) == 50 as real,
        value(Single { bits: 0x46bb_8000 }) == 24000 as real,
        value(Single { bits: 0x40c9_0fdb }) == 13176795 as real / 2097152 as real,
        value(Single { bits: 0x2b8c_bccc }) == 9223372 as real / 9223372036854775808 as real,
        is_finite(Single { bits: 0 }),
        is_finite(Single { bits: 0x3f80_0000 }),
        is_finite(Single { bits: 0x3f00_0000 }),
        is_finite(Single { bits: 0x41a0_0000 }),
        is_finite(Single { bits: 0x4248_0000 }),
        is_finite(Single { bits: 0x46bb_8000 }),
        is_finite(Single { bits: 0x40c9_0fdb }),
        is_finite(Single { bits: 0x2b8c_bccc }),
{
    reveal(is_finite);
    reveal(value);
    lemma2_to64();
    lemma_pow2_pos(149);
    lemma_value(Single { bits: 0x3f80_0000 });
    lemma_value(Single { bits: 0x3f00_0000 });
    lemma_value(Single { bits: 0x41a0_0000 });
    lemma_value(Single { bits: 0x4248_0000 });
    lemma_value(Single { bits: 0x46bb_8000 });
    lemma_value(Single { bits: 0x40c9_0fdb });
    lemma_value(Single { bits: 0x2b8c_bccc });
    lemma_pow2_adds(32, 31);
    lemma_quotient(0 as real, 0 as real, pow2(149) as real);
    lemma_quotient(8388608 as real, 1 as real, 8388608 as real);
    lemma_quotient(10485760 as real, 20 as real, 524288 as real);
    lemma_quotient(13107200 as real, 50 as real, 262144 as real);
    lemma_quotient(12288000 as real, 24000 as real, 512 as real);
    assert(8388608 as real / 16777216 as real == 1 as real / 2 as real) by (nonlinear_arith);
}

/// The binary64 patterns that the library names stand for these numbers.
pub proof fn law_named_wide_patterns()
    ensures
        wide_value(Double { bits: 0 }) == 0 as real,
        wide_value(Double { bits: 0x4014_0000_0000_0000 }) == 5 as real,
        wide_value(Double { bits: 0x404e_0000_0000_0000 }) == 60 as real,
        wide_value(Double { bits: 0x4082_c000_0000_0000 }) == 600 as real,
        wide_value(Double { bits: 0x4090_0000_0000_0000 }) == 1024 as real,
        is_wide_finite(Double { bits: 0 }),
        is_wide_finite(Double { bits: 0x4014_0000_0000_0000 }),
        is_wide_finite(Double { bits: 0x404e_0000_0000_0000 }),
        is_wide_finite(Double { bits: 0x4082_c000_0000_0000 }),
        is_wide_finite(Double { bits: 0x4090_0000_0000_0000 }),
{
    reveal(is_wide_finite);
    reveal(wide_value);
    lemma2_to64();
    lemma_pow2_pos(1074);
    lemma_wide_value(Double { bits: 0x4014_0000_0000_0000 });
    lemma_wide_value(Double { bits: 0x404e_0000_0000_0000 });
    lemma_wide_value(Double { bits: 0x4082_c000_0000_0000 });
    lemma_wide_value(Double { bits: 0x4090_0000_0000_0000 });
    lemma_pow2_adds(32, 18);
    lemma_pow2_adds(32, 15);
    lemma_pow2_adds(32, 11);
    lemma_pow2_adds(32, 10);
    lemma_quotient(0 as real, 0 as real, pow2(1074) as real);
    lemma_quotient(5629499534213120 as real, 5 as real, 1125899906842624 as real);
    lemma_quotient(8444249301319680 as real, 60 as real, 140737488355328 as real);
    lemma_quotient(5277655813324800 as real, 600 as real, 8796093022208 as real);
    lemma_quotient(4503599627370496 as real, 1024 as real, 4398046511104 as real);
}

} // verus!
