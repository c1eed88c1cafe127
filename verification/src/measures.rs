//! Durations, sizes and limits in binary64.
use vstd::prelude::*;

use crate::single::Double;
use crate::unit::FloatUnit;
use crate::value::{is_wide_finite, law_named_wide_patterns, wide_value};

verus! {

/// The pattern of 0.
pub const WIDE_ZERO: u64 = 0;

/// The pattern of 1024.
pub const WIDE_KILO: u64 = 0x4090_0000_0000_0000;

/// The pattern of the part of a second that `TimeBase::calc_time` gives for a timestamp.
pub uninterp spec fn time_fraction(numer: u32, denom: u32, timestamp: u64) -> u64;

/// The whole seconds in `timestamp` ticks of `numer / denom` seconds each, modulo the range of
/// `u64`.
pub open spec fn whole_seconds(numer: u32, denom: u32, timestamp: u64) -> int {
    (timestamp * numer / denom as int) % 0x1_0000_0000_0000_0000
}

/// Calls `symphonia::core::units::TimeBase::calc_time`.
///
/// Its `seconds` are the whole seconds of the timestamp, wrapping on overflow. Its `frac`
/// depends on the time base and the timestamp alone; which value it is stays unsaid. It panics
/// on a time base with a zero.
#[verifier::external_body]
fn calc_time(numer: u32, denom: u32, timestamp: u64) -> (time: (u64, Double))
    requires
        numer > 0,
        denom > 0,
    ensures
        time.0 == whole_seconds(numer, denom, timestamp),
        time.1.bits == time_fraction(numer, denom, timestamp),
{
    let time = symphonia::core::units::TimeBase { numer, denom }.calc_time(timestamp);
    (time.seconds, Double { bits: time.frac.to_bits() })
}

/// Whether `total` is `seconds` and a `fraction` of one.
pub open spec fn is_span<U: FloatUnit>(
    unit: &U,
    seconds: u64,
    fraction: Double,
    total: Double,
) -> bool {
    exists|whole: Double|
        {
            &&& #[trigger] call_ensures(U::wide_count, (unit, seconds), whole)
            &&& call_ensures(U::wide_plus, (unit, whole, fraction), total)
        }
}

/// A number of seconds and a fraction of one as one value.
pub fn span<U: FloatUnit>(unit: &U, seconds: u64, fraction: Double) -> (total: Double)
    ensures
        is_span(unit, seconds, fraction, total),
{
    let whole = unit.wide_count(seconds);
    unit.wide_plus(whole, fraction)
}

/// The length of a track in seconds, from its number of frames and the numerator and
/// denominator of its time base; 0 where one of them is not known.
pub fn track_duration<U: FloatUnit>(
    unit: &U,
    n_frames: Option<u64>,
    time_base: Option<(u32, u32)>,
) -> (seconds: Double)
    requires
        match (n_frames, time_base) {
            (Some(_), Some((numer, denom))) => numer > 0 && denom > 0,
            _ => true,
        },
    ensures
        match (n_frames, time_base) {
            (Some(n_frames), Some((numer, denom))) => is_span(
                unit,
                whole_seconds(numer, denom, n_frames) as u64,
                Double { bits: time_fraction(numer, denom, n_frames) },
                seconds,
            ),
            _ => seconds == (Double { bits: WIDE_ZERO }),
        },
{
    match (n_frames, time_base) {
        (Some(n_frames), Some((numer, denom))) => {
            let (seconds, fraction) = calc_time(numer, denom, n_frames);
            span(unit, seconds, fraction)
        },
        _ => Double { bits: WIDE_ZERO },
    }
}

/// Whether `size` is `bytes` in units of 1024 times 1024.
pub open spec fn is_size<U: FloatUnit>(unit: &U, bytes: u64, size: Double) -> bool {
    exists|all: Double, kilo: Double|
        {
            &&& #[trigger] call_ensures(U::wide_count, (unit, bytes), all)
            &&& #[trigger] call_ensures(
                U::wide_over,
                (unit, all, Double { bits: WIDE_KILO }),
                kilo,
            )
            &&& call_ensures(U::wide_over, (unit, kilo, Double { bits: WIDE_KILO }), size)
        }
}

/// The size of a file in MB, or 0 where it is not known.
pub fn file_size_mb<U: FloatUnit>(unit: &U, bytes: Option<u64>) -> (size: Double)
    ensures
        bytes is None ==> size == (Double { bits: WIDE_ZERO }),
        bytes matches Some(bytes) ==> is_size(unit, bytes, size),
{
    match bytes {
        Some(bytes) => {
            let all = unit.wide_count(bytes);
            let kilo = unit.wide_over(all, Double { bits: WIDE_KILO });
            unit.wide_over(kilo, Double { bits: WIDE_KILO })
        },
        None => Double { bits: WIDE_ZERO },
    }
}

/// Whether `limit` is the number of whole samples in `seconds` at `rate`.
pub open spec fn is_sample_limit<U: FloatUnit>(
    unit: &U,
    seconds: Double,
    rate: u32,
    limit: usize,
) -> bool {
    exists|wide: Double, samples: Double|
        {
            &&& #[trigger] call_ensures(U::wide_count, (unit, rate as u64), wide)
            &&& #[trigger] call_ensures(U::wide_times, (unit, seconds, wide), samples)
            &&& call_ensures(U::wide_floor, (unit, samples), limit)
        }
}

/// How many samples are analyzed at most.
pub fn sample_limit<U: FloatUnit>(unit: &U, seconds: Double, rate: u32) -> (limit: usize)
    ensures
        is_sample_limit(unit, seconds, rate, limit),
{
    let wide = unit.wide_count(rate as u64);
    let samples = unit.wide_times(seconds, wide);
    unit.wide_floor(samples)
}

/// Whether every answer of `unit` about binary64 values is exact.
pub open spec fn exact_wide<U: FloatUnit>(unit: &U) -> bool {
    &&& forall|n: u64, r: Double| #[trigger]
        call_ensures(U::wide_count, (unit, n), r) ==> is_wide_finite(r) && wide_value(r)
            == n as int as real
    &&& forall|a: Double, b: Double, r: Double|
        is_wide_finite(a) && is_wide_finite(b) && #[trigger] call_ensures(
            U::wide_plus,
            (unit, a, b),
            r,
        ) ==> is_wide_finite(r) && wide_value(r) == wide_value(a) + wide_value(b)
    &&& forall|a: Double, b: Double, r: Double|
        is_wide_finite(a) && is_wide_finite(b) && #[trigger] call_ensures(
            U::wide_times,
            (unit, a, b),
            r,
        ) ==> is_wide_finite(r) && wide_value(r) == wide_value(a) * wide_value(b)
    &&& forall|a: Double, b: Double, r: Double|
        is_wide_finite(a) && is_wide_finite(b) && wide_value(b) != 0 as real
            && #[trigger] call_ensures(U::wide_over, (unit, a, b), r) ==> is_wide_finite(r)
            && wide_value(r) == wide_value(a) / wide_value(b)
    &&& forall|a: Double, r: usize|
        is_wide_finite(a) && #[trigger] call_ensures(U::wide_floor, (unit, a), r) ==> {
            let v = wide_value(a);
            &&& v < 0 as real ==> r == 0
            &&& 0 as real <= v && v < usize::MAX as int as real + 1 as real ==> (r as int as real
                <= v && v < r as int as real + 1 as real)
            &&& v >= usize::MAX as int as real ==> r == usize::MAX
        }
}

/// The size of a file is its number of bytes over 1024 times 1024, and 0 where it is not known.
pub proof fn law_size_is_in_mb<U: FloatUnit>(unit: &U, bytes: Option<u64>, size: Double)
    requires
        exact_wide(unit),
        call_ensures(file_size_mb::<U>, (unit, bytes), size),
    ensures
        wide_value(size) * 1048576 as real == match bytes {
            Some(bytes) => bytes as int as real,
            None => 0 as real,
        },
{
    law_named_wide_patterns();
    if let Some(bytes) = bytes {
        let all = bytes as int as real;
        let kilo = 1024 as real;
        assert(wide_value(size) == all / kilo / kilo);
        assert(all / kilo / kilo * 1048576 as real == all) by (nonlinear_arith)
            requires
                kilo == 1024 as real,
        ;
    }
}

/// As many samples are analyzed as fit whole into the seconds asked for, at the common sample
/// rate.
pub proof fn law_limit_is_of_whole_samples<U: FloatUnit>(
    unit: &U,
    seconds: Double,
    rate: u32,
    limit: usize,
)
    requires
        exact_wide(unit),
        is_wide_finite(seconds),
        wide_value(seconds) >= 0 as real,
        call_ensures(sample_limit::<U>, (unit, seconds, rate), limit),
    ensures
        ({
            let samples = wide_value(seconds) * rate as int as real;
            &&& limit as int as real <= samples
            &&& samples < limit as int as real + 1 as real || limit == usize::MAX
        }),
{
    let (s, r) = (wide_value(seconds), rate as int as real);
    assert(s * r >= 0 as real) by (nonlinear_arith)
        requires
            s >= 0 as real,
            r >= 0 as real,
    ;
}

/// A duration is a number of whole seconds and a fraction.
pub proof fn law_span_adds_up<U: FloatUnit>(
    unit: &U,
    seconds: u64,
    fraction: Double,
    total: Double,
)
    requires
        exact_wide(unit),
        is_wide_finite(fraction),
        call_ensures(span::<U>, (unit, seconds, fraction), total),
    ensures
        wide_value(total) == seconds as int as real + wide_value(fraction),
{
}

/// The length of a track is that of its frames in ticks of the time base: the whole seconds in
/// them, and the fraction that `TimeBase::calc_time` gives.
pub proof fn law_duration_is_of_all_frames<U: FloatUnit>(
    unit: &U,
    n_frames: u64,
    numer: u32,
    denom: u32,
    seconds: int,
    duration: Double,
)
    requires
        exact_wide(unit),
        numer > 0,
        denom > 0,
        0 <= seconds <= u64::MAX,
        seconds * denom <= n_frames * numer,
        n_frames * numer < (seconds + 1) * denom,
        is_wide_finite(Double { bits: time_fraction(numer, denom, n_frames) }),
        call_ensures(track_duration::<U>, (unit, Some(n_frames), Some((numer, denom))), duration),
    ensures
        wide_value(duration) == seconds as real + wide_value(
            Double { bits: time_fraction(numer, denom, n_frames) },
        ),
{
    let all = n_frames * numer;
    let d = denom as int;
    assert(all / d == seconds) by (nonlinear_arith)
        requires
            d > 0,
            seconds * d <= all,
            all < (seconds + 1) * d,
    ;
    assert(whole_seconds(numer, denom, n_frames) == seconds);
}

/// A track whose number of frames or time base is not known has no length.
pub proof fn law_unknown_duration_is_zero<U: FloatUnit>(
    unit: &U,
    n_frames: Option<u64>,
    time_base: Option<(u32, u32)>,
    duration: Double,
)
    requires
        n_frames is None || time_base is None,
        call_ensures(track_duration::<U>, (unit, n_frames, time_base), duration),
    ensures
        wide_value(duration) == 0 as real,
{
    law_named_wide_patterns();
}

} // verus!
