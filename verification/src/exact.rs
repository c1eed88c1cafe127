//! What is computed where the arithmetic rounds nothing.
//!
//! A unit whose every answer is exact gives none where the result would have to be rounded. Over
//! such a unit a result is a number that mathematics defines, and the laws here say which one.
use vstd::prelude::*;

use crate::analysis::{
    analyze_file, analyze_samples, is_analysis, lemma_plots_bins, pairs, plots_bins, Analysis,
    AnalysisError, FileInfo, PEAK_COUNT, PEAK_DISTANCE,
};
use crate::mono::mono_from_f32;
use crate::peaks::{lemma_peaks_are_listed, lists_peaks};
use crate::single::Single;
use crate::spectrum::{
    are_averages, are_levels, are_magnitudes, averages_by, bin_count, column, floored, frame,
    is_bin_magnitude, is_frequency, is_hann_weight, is_level, is_magnitude, is_mean, is_spectrum,
    is_weighed, law_frames_cover_signal, law_loudest_bin_is_the_reference,
    law_reference_is_largest, lemma_frame_count, mean_spectrum_db, reference_level, transforms_to,
    SpectrumError, FLOOR, ZERO,
};
use crate::unit::{sums_to, FloatUnit};
use crate::value::{
    is_finite, law_named_patterns, law_patterns_compare_as_numbers, lemma_quotient, value,
};

verus! {

/// Whether every answer of `unit` to a question of arithmetic is exact.
pub open spec fn exact_arithmetic<U: FloatUnit>(unit: &U) -> bool {
    &&& forall|n: u64, r: Single| #[trigger]
        call_ensures(U::count, (unit, n), r) ==> is_finite(r) && value(r) == n as int as real
    &&& forall|a: Single, b: Single, r: Single|
        is_finite(a) && is_finite(b) && #[trigger] call_ensures(U::plus, (unit, a, b), r)
            ==> is_finite(r) && value(r) == value(a) + value(b)
    &&& forall|a: Single, b: Single, r: Single|
        is_finite(a) && is_finite(b) && #[trigger] call_ensures(U::minus, (unit, a, b), r)
            ==> is_finite(r) && value(r) == value(a) - value(b)
    &&& forall|a: Single, b: Single, r: Single|
        is_finite(a) && is_finite(b) && #[trigger] call_ensures(U::times, (unit, a, b), r)
            ==> is_finite(r) && value(r) == value(a) * value(b)
    &&& forall|a: Single, b: Single, r: Single|
        is_finite(a) && is_finite(b) && value(b) != 0 as real && #[trigger] call_ensures(
            U::over,
            (unit, a, b),
            r,
        ) ==> is_finite(r) && value(r) == value(a) / value(b)
}

/// The functions that a unit computes beside arithmetic.
pub struct Mathematics {
    pub cosine: spec_fn(real) -> real,
    pub root: spec_fn(real) -> real,
    pub log_ten: spec_fn(real) -> real,
    /// Of complex values, one bin of their transform.
    pub transform: spec_fn(Seq<(real, real)>, int) -> (real, real),
}

/// The values of complex numbers given as patterns.
pub open spec fn values(buf: Seq<(Single, Single)>) -> Seq<(real, real)> {
    Seq::new(buf.len(), |i: int| (value(buf[i].0), value(buf[i].1)))
}

/// Whether every answer of `unit` is exact, where `m` gives its functions.
pub open spec fn exact<U: FloatUnit>(unit: &U, m: Mathematics) -> bool {
    &&& exact_arithmetic(unit)
    &&& forall|a: Single, r: Single|
        is_finite(a) && #[trigger] call_ensures(U::cosine, (unit, a), r) ==> is_finite(r)
            && value(r) == (m.cosine)(value(a))
    &&& forall|a: Single, r: Single|
        is_finite(a) && #[trigger] call_ensures(U::root, (unit, a), r) ==> is_finite(r)
            && value(r) == (m.root)(value(a))
    &&& forall|a: Single, r: Single|
        is_finite(a) && #[trigger] call_ensures(U::log_ten, (unit, a), r) ==> is_finite(r)
            && value(r) == (m.log_ten)(value(a))
    &&& forall|buf: Vec<(Single, Single)>, t: U::Spectrum, k: usize, z: (Single, Single)|
        {
            &&& k < buf@.len()
            &&& forall|i: int|
                0 <= i < buf@.len() ==> is_finite((#[trigger] buf@[i]).0) && is_finite(buf@[i].1)
            &&& #[trigger] call_ensures(U::transform, (unit, buf), t)
            &&& #[trigger] call_ensures(U::bin, (unit, &t, k), z)
        } ==> {
            &&& is_finite(z.0)
            &&& is_finite(z.1)
            &&& (value(z.0), value(z.1)) == (m.transform)(values(buf@), k as int)
        }
}

/// The sum of numbers.
pub open spec fn sum(numbers: Seq<real>) -> real
    decreases numbers.len(),
{
    if numbers.len() == 0 {
        0 as real
    } else {
        sum(numbers.drop_last()) + numbers.last()
    }
}

proof fn lemma_exact_sum<U: FloatUnit>(unit: &U, terms: Seq<Single>, total: Single)
    requires
        exact_arithmetic(unit),
        forall|i: int| 0 <= i < terms.len() ==> is_finite(#[trigger] terms[i]),
        sums_to(unit, Single { bits: ZERO }, terms, total),
    ensures
        is_finite(total),
        value(total) == sum(terms.map_values(|s: Single| value(s))),
    decreases terms.len(),
{
    law_named_patterns();
    let numbers = terms.map_values(|s: Single| value(s));
    if terms.len() > 0 {
        let rest = terms.drop_last();
        assert forall|i: int| 0 <= i < rest.len() implies is_finite(#[trigger] rest[i]) by {
            assert(rest[i] == terms[i]);
        }
        let part = choose|part: Single|
            {
                &&& sums_to(unit, Single { bits: ZERO }, rest, part)
                &&& #[trigger] call_ensures(U::plus, (unit, part, terms.last()), total)
            };
        lemma_exact_sum(unit, rest, part);
        assert(is_finite(terms[terms.len() - 1]));
        assert(numbers.drop_last() =~= rest.map_values(|s: Single| value(s)));
    }
}

/// A mono sample is the mean of the samples that the channels have at its place.
pub proof fn law_mono_is_the_mean<U: FloatUnit>(
    unit: &U,
    planes: &Vec<Vec<Single>>,
    frames: usize,
    mono: Vec<Single>,
    i: int,
)
    requires
        exact_arithmetic(unit),
        call_ensures(mono_from_f32::<U>, (unit, planes, frames), mono),
        planes@.len() > 0,
        0 <= i < frames,
        forall|c: int| 0 <= c < planes@.len() ==> is_finite((#[trigger] planes@[c])@[i]),
    ensures
        mono@.len() == frames,
        value(mono@[i]) == sum(
            Seq::new(planes@.len(), |c: int| value(planes@[c]@[i])),
        ) / planes@.len() as real,
{
    let samples = Seq::new(planes@.len(), |c: int| planes@[c]@[i]);
    assert(planes.len() == planes@.len());
    assert(samples =~= crate::mono::channel_samples(planes@, i));
    let (total, n) = choose|total: Single, n: Single|
        {
            &&& sums_to(unit, Single { bits: ZERO }, samples, total)
            &&& #[trigger] call_ensures(U::count, (unit, samples.len() as u64), n)
            &&& #[trigger] call_ensures(U::over, (unit, total, n), mono@[i])
        };
    assert(crate::mono::is_average(unit, samples, mono@[i]));
    assert forall|c: int| 0 <= c < samples.len() implies is_finite(#[trigger] samples[c]) by {
        assert(is_finite(planes@[c]@[i]));
    }
    lemma_exact_sum(unit, samples, total);
    assert(samples.map_values(|s: Single| value(s)) =~= Seq::new(
        planes@.len(),
        |c: int| value(planes@[c]@[i]),
    ));
}

/// Weight `i` of the Hann window of length `n`, half of 1 minus the cosine of `i / n` turns.
pub open spec fn weight(m: Mathematics, i: int, n: int) -> real {
    (1 as real - (m.cosine)(
        (13176795 as real / 2097152 as real) * i as real / n as real,
    )) / 2 as real
}

/// The absolute value of bin `k` of the `n` samples from `start` on, under the window.
pub open spec fn line(m: Mathematics, x: Seq<Single>, start: int, n: int, k: int) -> real {
    let z = (m.transform)(
        Seq::new(n as nat, |i: int| (value(x[start + i]) * weight(m, i, n), 0 as real)),
        k,
    );
    (m.root)(z.0 * z.0 + z.1 * z.1)
}

/// The mean of bin `k` over `frames` frames, `hop` apart.
pub open spec fn mean_line(
    m: Mathematics,
    x: Seq<Single>,
    n: int,
    hop: int,
    frames: int,
    k: int,
) -> real {
    sum(Seq::new(frames as nat, |j: int| line(m, x, j * hop, n, k))) / frames as real
}

/// The mean of a bin, or the floor where the mean lies below it.
pub open spec fn lifted(mean: real) -> real {
    let floor = 9223372 as real / 9223372036854775808 as real;
    if mean < floor {
        floor
    } else {
        mean
    }
}

/// Whether `db` are the levels of the means, relative to that of the bin `loudest`, above which
/// none lies.
pub open spec fn are_relative(
    m: Mathematics,
    x: Seq<Single>,
    n: int,
    hop: int,
    frames: int,
    loudest: int,
    db: Seq<Single>,
) -> bool {
    let top = lifted(mean_line(m, x, n, hop, frames, loudest));
    &&& 0 <= loudest < db.len()
    &&& forall|k: int|
        0 <= k < db.len() ==> lifted(#[trigger] mean_line(m, x, n, hop, frames, k)) <= top
    &&& forall|k: int|
        0 <= k < db.len() ==> value(#[trigger] db[k]) == 20 as real * (m.log_ten)(
            lifted(mean_line(m, x, n, hop, frames, k)) / top,
        )
}

/// Whether `freqs` and `db` are the spectrum of `x` at the rate `sr`: the axis divides the rate
/// into `n` steps, and levels are relative to the loudest of the means over `frames` frames.
pub open spec fn is_mean_spectrum(
    m: Mathematics,
    x: Seq<Single>,
    sr: real,
    n: int,
    hop: int,
    frames: int,
    freqs: Seq<Single>,
    db: Seq<Single>,
) -> bool {
    &&& freqs.len() == n / 2 + 1
    &&& db.len() == n / 2 + 1
    &&& forall|k: int|
        0 <= k < freqs.len() ==> value(#[trigger] freqs[k]) == k as real * sr / n as real
    &&& exists|loudest: int| #[trigger] are_relative(m, x, n, hop, frames, loudest, db)
}

proof fn lemma_weight<U: FloatUnit>(unit: &U, m: Mathematics, i: int, n: int, w: Single)
    requires
        exact(unit, m),
        0 <= i < n <= u64::MAX,
        is_hann_weight(unit, i as u64, n as u64, w),
    ensures
        is_finite(w),
        value(w) == weight(m, i, n),
{
    law_named_patterns();
    let turn = 13176795 as real / 2097152 as real;
    let c = (m.cosine)(turn * i as real / n as real);
    let half = 1 as real / 2 as real;
    assert(half - half * c == (1 as real - c) / 2 as real) by (nonlinear_arith)
        requires
            half == 1 as real / 2 as real,
    ;
}

proof fn lemma_line<U: FloatUnit>(
    unit: &U,
    m: Mathematics,
    x: Seq<Single>,
    start: int,
    n: int,
    window: Seq<Single>,
    mags: Seq<Single>,
    k: int,
)
    requires
        exact(unit, m),
        0 <= start,
        0 < n <= u64::MAX,
        start + n <= x.len(),
        forall|i: int| 0 <= i < x.len() ==> is_finite(#[trigger] x[i]),
        window.len() == n,
        forall|i: int|
            0 <= i < n ==> is_finite(#[trigger] window[i]) && value(window[i]) == weight(m, i, n),
        are_magnitudes(unit, x.subrange(start, start + n), window, mags),
        0 <= k < mags.len(),
        k < n,
        k <= usize::MAX,
    ensures
        is_finite(mags[k]),
        value(mags[k]) == line(m, x, start, n, k),
{
    law_named_patterns();
    let samples = x.subrange(start, start + n);
    let buf = choose|buf: Vec<(Single, Single)>|
        is_weighed(unit, samples, window, buf@) && #[trigger] transforms_to(unit, buf, mags);
    let weighed = Seq::new(
        n as nat,
        |i: int| (value(x[start + i]) * weight(m, i, n), 0 as real),
    );
    assert forall|i: int| 0 <= i < buf@.len() implies {
        &&& is_finite((#[trigger] buf@[i]).0)
        &&& is_finite(buf@[i].1)
        &&& (value(buf@[i].0), value(buf@[i].1)) == weighed[i]
    } by {
        assert(samples[i] == x[start + i]);
        assert(is_finite(x[start + i]));
        assert(is_finite(window[i]));
        assert(call_ensures(U::times, (unit, samples[i], window[i]), buf@[i].0));
    }
    assert(values(buf@) =~= weighed);
    let t = choose|t: U::Spectrum|
        {
            &&& #[trigger] call_ensures(U::transform, (unit, buf), t)
            &&& forall|b: int|
                0 <= b < mags.len() ==> is_bin_magnitude(unit, t, b as usize, #[trigger] mags[b])
        };
    assert(is_bin_magnitude(unit, t, k as usize, mags[k]));
    let z = choose|z: (Single, Single)|
        {
            &&& #[trigger] call_ensures(U::bin, (unit, &t, k as usize), z)
            &&& is_magnitude(unit, z, mags[k])
        };
    assert(is_finite(z.0) && is_finite(z.1));
}

proof fn lemma_mean_line<U: FloatUnit>(
    unit: &U,
    m: Mathematics,
    x: Seq<Single>,
    n: int,
    hop: int,
    frames: int,
    means: Seq<Single>,
    k: int,
)
    requires
        exact(unit, m),
        0 < n <= usize::MAX,
        hop > 0,
        frames > 0,
        (frames - 1) * hop + n <= x.len() < frames * hop + n,
        x.len() <= usize::MAX,
        forall|i: int| 0 <= i < x.len() ==> is_finite(#[trigger] x[i]),
        are_averages(unit, x, n, hop, means),
        0 <= k < means.len(),
    ensures
        means.len() == n / 2 + 1,
        is_finite(means[k]),
        value(means[k]) == lifted(mean_line(m, x, n, hop, frames, k)),
{
    law_named_patterns();
    let (window, mags, totals) = choose|
        window: Seq<Single>,
        mags: Seq<Seq<Single>>,
        totals: Seq<Single>,
    |
        averages_by(unit, x, n, hop, window, mags, totals, means);
    lemma_frame_count(x.len() - n, hop, frames);
    assert(mags.len() == frames);
    assert forall|i: int| 0 <= i < n implies is_finite(#[trigger] window[i]) && value(window[i])
        == weight(m, i, n) by {
        lemma_weight(unit, m, i, n, window[i]);
    }
    let terms = column(mags, k);
    assert forall|j: int| 0 <= j < frames implies is_finite(#[trigger] terms[j]) && value(terms[j])
        == line(m, x, j * hop, n, k) by {
        law_frames_cover_signal(x.len() as int, n, hop, j);
        assert(mags[j].len() == bin_count(n));
        assert(frame(x, n, hop, j) == x.subrange(j * hop, j * hop + n));
        lemma_line(unit, m, x, j * hop, n, window, mags[j], k);
    }
    assert(sums_to(unit, Single { bits: ZERO }, terms, totals[k]));
    lemma_exact_sum(unit, terms, totals[k]);
    assert(terms.map_values(|s: Single| value(s)) =~= Seq::new(
        frames as nat,
        |j: int| line(m, x, j * hop, n, k),
    ));
    assert(frames <= x.len()) by (nonlinear_arith)
        requires
            (frames - 1) * hop + n <= x.len(),
            hop > 0,
            n > 0,
            frames > 0,
    ;
    assert(is_mean(unit, totals[k], mags.len() as u64, means[k]));
    let (c, v) = choose|c: Single, v: Single|
        {
            &&& #[trigger] call_ensures(U::count, (unit, mags.len() as u64), c)
            &&& #[trigger] call_ensures(U::over, (unit, totals[k], c), v)
            &&& means[k] == floored(v)
        };
    assert(value(c) == frames as real);
    law_patterns_compare_as_numbers(v, Single { bits: FLOOR });
}

proof fn lemma_axis<U: FloatUnit>(unit: &U, sr: Single, n: int, k: int, f: Single)
    requires
        exact_arithmetic(unit),
        0 < n <= u64::MAX,
        0 <= k < n,
        is_finite(sr),
        is_frequency(unit, k as u64, sr, n as u64, f),
    ensures
        value(f) == k as real * value(sr) / n as real,
{
}

proof fn lemma_level<U: FloatUnit>(unit: &U, m: Mathematics, v: Single, top: Single, d: Single)
    requires
        exact(unit, m),
        is_finite(v),
        is_finite(top),
        value(top) != 0 as real,
        is_level(unit, v, top, d),
    ensures
        value(d) == 20 as real * (m.log_ten)(value(v) / value(top)),
{
    law_named_patterns();
}

proof fn lemma_relative<U: FloatUnit>(
    unit: &U,
    m: Mathematics,
    x: Seq<Single>,
    n: int,
    hop: int,
    frames: int,
    means: Seq<Single>,
    db: Seq<Single>,
) -> (loudest: int)
    requires
        exact(unit, m),
        0 < n <= usize::MAX,
        hop > 0,
        frames > 0,
        (frames - 1) * hop + n <= x.len() < frames * hop + n,
        x.len() <= usize::MAX,
        forall|i: int| 0 <= i < x.len() ==> is_finite(#[trigger] x[i]),
        are_averages(unit, x, n, hop, means),
        are_levels(unit, means, db),
        means.len() == n / 2 + 1,
    ensures
        are_relative(m, x, n, hop, frames, loudest, db),
{
    let top = reference_level(means);
    lemma_mean_line(unit, m, x, n, hop, frames, means, 0);
    law_patterns_compare_as_numbers(means[0], means[0]);
    law_loudest_bin_is_the_reference(unit, x, n, hop, means, db, 0);
    let loudest = choose|k: int|
        {
            &&& 0 <= k < means.len()
            &&& #[trigger] means[k] == reference_level(means)
            &&& is_level(unit, reference_level(means), reference_level(means), db[k])
        };
    law_reference_is_largest(means);
    lemma_mean_line(unit, m, x, n, hop, frames, means, loudest);
    assert(value(top) > 0 as real) by {
        law_named_patterns();
        law_patterns_compare_as_numbers(Single { bits: FLOOR }, top);
        assert(9223372 as real / 9223372036854775808 as real > 0 as real) by (nonlinear_arith);
    }
    let best = lifted(mean_line(m, x, n, hop, frames, loudest));
    assert(db.len() == means.len());
    assert forall|k: int| 0 <= k < db.len() implies lifted(
        #[trigger] mean_line(m, x, n, hop, frames, k),
    ) <= best by {
        lemma_mean_line(unit, m, x, n, hop, frames, means, k);
        law_patterns_compare_as_numbers(means[k], top);
        assert(!means[k].nan());
        assert(means[k].at_most(top));
    }
    assert forall|k: int| 0 <= k < db.len() implies value(#[trigger] db[k]) == 20 as real * (
    m.log_ten)(lifted(mean_line(m, x, n, hop, frames, k)) / best) by {
        lemma_mean_line(unit, m, x, n, hop, frames, means, k);
        assert(is_level(unit, means[k], top, db[k]));
        lemma_level(unit, m, means[k], top, db[k]);
    }
    loudest
}

proof fn lemma_mean_spectrum<U: FloatUnit>(
    unit: &U,
    m: Mathematics,
    x: Seq<Single>,
    sr: Single,
    n: int,
    hop: int,
    frames: int,
    freqs: Seq<Single>,
    db: Seq<Single>,
)
    requires
        exact(unit, m),
        0 < n <= usize::MAX,
        hop > 0,
        frames > 0,
        (frames - 1) * hop + n <= x.len() < frames * hop + n,
        x.len() <= usize::MAX,
        forall|i: int| 0 <= i < x.len() ==> is_finite(#[trigger] x[i]),
        is_finite(sr),
        is_spectrum(unit, x, sr, n, hop, freqs, db),
    ensures
        is_mean_spectrum(m, x, value(sr), n, hop, frames, freqs, db),
{
    assert forall|k: int| 0 <= k < freqs.len() implies value(#[trigger] freqs[k]) == k as real
        * value(sr) / n as real by {
        assert(is_frequency(unit, k as u64, sr, n as u64, freqs[k]));
        lemma_axis(unit, sr, n, k, freqs[k]);
    }
    let means = choose|means: Seq<Single>|
        #[trigger] are_averages(unit, x, n, hop, means) && are_levels(unit, means, db);
    let parts = choose|w: Seq<Single>, g: Seq<Seq<Single>>, t: Seq<Single>|
        averages_by(unit, x, n, hop, w, g, t, means);
    assert(averages_by(unit, x, n, hop, parts.0, parts.1, parts.2, means));
    let loudest = lemma_relative(unit, m, x, n, hop, frames, means, db);
    assert(are_relative(m, x, n, hop, frames, loudest, db));
}

/// The averaged spectrum, in numbers: bin `k` lies at `k` times the sample rate over the frame
/// length, and its level is 20 times the logarithm of its mean absolute value, over every frame
/// that fits, relative to the loudest mean.
pub proof fn law_spectrum_is_the_mean_spectrum<U: FloatUnit>(
    unit: &U,
    m: Mathematics,
    x: &[Single],
    sr: Single,
    n_fft: usize,
    hop: usize,
    frames: int,
    r: Result<(Vec<Single>, Vec<Single>), SpectrumError>,
)
    requires
        exact(unit, m),
        n_fft > 0,
        hop > 0,
        frames > 0,
        (frames - 1) * hop + n_fft <= x@.len() < frames * hop + n_fft,
        forall|i: int| 0 <= i < x@.len() ==> is_finite(#[trigger] x@[i]),
        is_finite(sr),
        call_ensures(mean_spectrum_db::<U>, (unit, x, sr, n_fft, hop), r),
    ensures
        r matches Ok((freqs, db)) && is_mean_spectrum(
            m,
            x@,
            value(sr),
            n_fft as int,
            hop as int,
            frames,
            freqs@,
            db@,
        ),
{
    assert(x.len() == x@.len());
    assert((frames - 1) * hop >= 0) by (nonlinear_arith)
        requires
            frames > 0,
            hop > 0,
    ;
    let (freqs, db) = r->Ok_0;
    lemma_mean_spectrum(
        unit,
        m,
        x@,
        sr,
        n_fft as int,
        hop as int,
        frames,
        freqs@,
        db@,
    );
}

/// Whether an analysis plots every bin up to 24 kHz and lists up to 12 peaks that are 50 Hz
/// apart.
pub open spec fn shows_its_spectrum<U: FloatUnit>(unit: &U, a: Analysis) -> bool {
    let (freqs, db) = (a.freqs_hz@, a.mean_db@);
    &&& exists|at: Seq<int>| #[trigger] plots_bins(freqs, db, freqs.len() as int, a.plot_xy@, at)
    &&& exists|gap: Single, at: Seq<int>|
        {
            &&& #[trigger] lists_peaks(unit, freqs, db, 12, gap, a.peaks@, at)
            &&& is_finite(gap)
            &&& value(gap) == 50 as real
        }
}

proof fn lemma_shows_its_spectrum<U: FloatUnit>(
    unit: &U,
    mono: Seq<Single>,
    target_sr: u32,
    n_fft: usize,
    hop: usize,
    a: Analysis,
)
    requires
        is_analysis(unit, mono, target_sr, n_fft, hop, a),
        a.freqs_hz@.len() == a.mean_db@.len(),
    ensures
        shows_its_spectrum(unit, a),
{
    let (freqs, db) = (a.freqs_hz@, a.mean_db@);
    let gap = Single { bits: PEAK_DISTANCE };
    assert(a.mean_db.len() == db.len());
    law_named_patterns();
    let plotted = lemma_plots_bins(freqs, db, freqs.len() as int);
    assert(pairs(freqs, db).take(freqs.len() as int) =~= pairs(freqs, db));
    assert(plots_bins(freqs, db, freqs.len() as int, a.plot_xy@, plotted));
    let listed = lemma_peaks_are_listed(unit, freqs, db, PEAK_COUNT, gap, a.peaks@);
    assert(lists_peaks(unit, freqs, db, 12, gap, a.peaks@, listed));
}

/// An analyzed signal comes with its description, its plot and its peaks; one that does not
/// fill a frame is refused.
pub proof fn law_analysis_shows_its_spectrum<U: FloatUnit>(
    unit: &U,
    info: FileInfo,
    mono: &[Single],
    target_sr: u32,
    n_fft: usize,
    hop: usize,
    r: Result<Analysis, SpectrumError>,
)
    requires
        call_ensures(analyze_samples::<U>, (unit, info, mono, target_sr, n_fft, hop), r),
    ensures
        r is Ok <==> n_fft <= mono@.len(),
        r matches Ok(a) ==> {
            &&& a.info == info
            &&& a.freqs_hz@.len() == n_fft as int / 2 + 1
            &&& a.mean_db@.len() == n_fft as int / 2 + 1
            &&& shows_its_spectrum(unit, a)
        },
{
    if let Ok(a) = r {
        lemma_shows_its_spectrum(unit, mono@, target_sr, n_fft, hop, a);
    }
}

/// An analyzed file comes with its description, its plot and its peaks; one that could not be
/// decoded, or does not fill a frame, is refused with the reason.
pub proof fn law_file_analysis_shows_its_spectrum<U: FloatUnit, E>(
    unit: &U,
    decoded: Result<(FileInfo, Vec<Single>), E>,
    target_sr: u32,
    n_fft: usize,
    hop: usize,
    r: Result<Analysis, AnalysisError<E>>,
)
    requires
        call_ensures(analyze_file::<U, E>, (unit, decoded, target_sr, n_fft, hop), r),
    ensures
        decoded matches Err(e) ==> (r matches Err(AnalysisError::Decoding(f)) && f == e),
        decoded matches Ok((info, mono)) ==> {
            &&& r is Ok <==> n_fft <= mono@.len()
            &&& r matches Err(e) ==> e is Spectrum
            &&& r matches Ok(a) ==> {
                &&& a.info == info
                &&& a.freqs_hz@.len() == n_fft as int / 2 + 1
                &&& a.mean_db@.len() == n_fft as int / 2 + 1
                &&& shows_its_spectrum(unit, a)
            }
        },
{
    if let (Ok((_, mono)), Ok(a)) = (decoded, r) {
        lemma_shows_its_spectrum(unit, mono@, target_sr, n_fft, hop, a);
    }
}

proof fn lemma_analysis<U: FloatUnit>(
    unit: &U,
    m: Mathematics,
    mono: Seq<Single>,
    target_sr: u32,
    n_fft: usize,
    hop: usize,
    frames: int,
    a: Analysis,
)
    requires
        exact(unit, m),
        n_fft > 0,
        hop > 0,
        frames > 0,
        (frames - 1) * hop + n_fft <= mono.len() < frames * hop + n_fft,
        mono.len() <= usize::MAX,
        forall|i: int| 0 <= i < mono.len() ==> is_finite(#[trigger] mono[i]),
        is_analysis(unit, mono, target_sr, n_fft, hop, a),
    ensures
        is_mean_spectrum(
            m,
            mono,
            target_sr as int as real,
            n_fft as int,
            hop as int,
            frames,
            a.freqs_hz@,
            a.mean_db@,
        ),
{
    let sr = choose|sr: Single|
        {
            &&& #[trigger] call_ensures(U::count, (unit, target_sr as u64), sr)
            &&& is_spectrum(unit, mono, sr, n_fft as int, hop as int, a.freqs_hz@, a.mean_db@)
        };
    assert(value(sr) == target_sr as int as real);
    lemma_mean_spectrum(
        unit,
        m,
        mono,
        sr,
        n_fft as int,
        hop as int,
        frames,
        a.freqs_hz@,
        a.mean_db@,
    );
}

/// The spectrum of an analyzed signal is its averaged spectrum at the common sample rate, over
/// all of the signal.
pub proof fn law_analysis_is_of_the_mean_spectrum<U: FloatUnit>(
    unit: &U,
    m: Mathematics,
    info: FileInfo,
    mono: &[Single],
    target_sr: u32,
    n_fft: usize,
    hop: usize,
    frames: int,
    r: Result<Analysis, SpectrumError>,
)
    requires
        exact(unit, m),
        n_fft > 0,
        hop > 0,
        frames > 0,
        (frames - 1) * hop + n_fft <= mono@.len() < frames * hop + n_fft,
        forall|i: int| 0 <= i < mono@.len() ==> is_finite(#[trigger] mono@[i]),
        call_ensures(analyze_samples::<U>, (unit, info, mono, target_sr, n_fft, hop), r),
    ensures
        r matches Ok(a) ==> is_mean_spectrum(
            m,
            mono@,
            target_sr as int as real,
            n_fft as int,
            hop as int,
            frames,
            a.freqs_hz@,
            a.mean_db@,
        ),
{
    assert(mono.len() == mono@.len());
    if let Ok(a) = r {
        lemma_analysis(unit, m, mono@, target_sr, n_fft, hop, frames, a);
    }
}

/// The spectrum of an analyzed file is the averaged spectrum of its decoded signal at the common
/// sample rate, over all of the signal.
pub proof fn law_file_analysis_is_of_the_mean_spectrum<U: FloatUnit, E>(
    unit: &U,
    m: Mathematics,
    info: FileInfo,
    mono: Vec<Single>,
    target_sr: u32,
    n_fft: usize,
    hop: usize,
    frames: int,
    r: Result<Analysis, AnalysisError<E>>,
)
    requires
        exact(unit, m),
        n_fft > 0,
        hop > 0,
        frames > 0,
        (frames - 1) * hop + n_fft <= mono@.len() < frames * hop + n_fft,
        forall|i: int| 0 <= i < mono@.len() ==> is_finite(#[trigger] mono@[i]),
        call_ensures(
            analyze_file::<U, E>,
            (unit, Ok::<(FileInfo, Vec<Single>), E>((info, mono)), target_sr, n_fft, hop),
            r,
        ),
    ensures
        r matches Ok(a) ==> is_mean_spectrum(
            m,
            mono@,
            target_sr as int as real,
            n_fft as int,
            hop as int,
            frames,
            a.freqs_hz@,
            a.mean_db@,
        ),
{
    assert(mono.len() == mono@.len());
    if let Ok(a) = r {
        lemma_analysis(unit, m, mono@, target_sr, n_fft, hop, frames, a);
    }
}

/// Whether some pattern stands for a number.
pub open spec fn has_pattern(number: real) -> bool {
    exists|s: Single| is_finite(s) && #[trigger] value(s) == number
}

/// Whether `unit` counts, multiplies and divides exactly wherever a pattern stands for the
/// result, as binary32 arithmetic does.
pub open spec fn exact_where_possible<U: FloatUnit>(unit: &U) -> bool {
    &&& forall|n: u64, r: Single|
        has_pattern(n as int as real) && #[trigger] call_ensures(U::count, (unit, n), r)
            ==> is_finite(r) && value(r) == n as int as real
    &&& forall|a: Single, b: Single, r: Single|
        is_finite(a) && is_finite(b) && has_pattern(value(a) * value(b))
            && #[trigger] call_ensures(U::times, (unit, a, b), r) ==> is_finite(r) && value(r)
            == value(a) * value(b)
    &&& forall|a: Single, b: Single, r: Single|
        is_finite(a) && is_finite(b) && value(b) != 0 as real && has_pattern(value(a) / value(b))
            && #[trigger] call_ensures(U::over, (unit, a, b), r) ==> is_finite(r) && value(r)
            == value(a) / value(b)
}

/// Whether patterns stand for the place of bin `k` on the axis and for the numbers on the way
/// to it.
pub open spec fn place_has_pattern(sr: Single, n_fft: usize, k: int) -> bool {
    &&& has_pattern(k as real)
    &&& has_pattern(k as real * value(sr))
    &&& has_pattern(n_fft as int as real)
    &&& has_pattern(k as real * value(sr) / n_fft as int as real)
}

proof fn lemma_place<U: FloatUnit>(unit: &U, sr: Single, n_fft: usize, k: int, f: Single)
    requires
        exact_where_possible(unit),
        is_finite(sr),
        0 <= k < n_fft,
        place_has_pattern(sr, n_fft, k),
        is_frequency(unit, k as u64, sr, n_fft as u64, f),
    ensures
        value(f) == k as real * value(sr) / n_fft as int as real,
{
    let (ck, p, cn) = choose|ck: Single, p: Single, cn: Single|
        {
            &&& #[trigger] call_ensures(U::count, (unit, k as u64), ck)
            &&& #[trigger] call_ensures(U::times, (unit, ck, sr), p)
            &&& #[trigger] call_ensures(U::count, (unit, n_fft as u64), cn)
            &&& call_ensures(U::over, (unit, p, cn), f)
        };
    assert(value(ck) == k as real);
    assert(value(cn) == n_fft as int as real);
    assert(value(p) == k as real * value(sr));
}

/// The axis rises from 0 in equal steps of the sample rate over the frame length, and for an
/// even frame length it ends at half the sample rate.
pub proof fn law_axis_rises_in_equal_steps<U: FloatUnit>(
    unit: &U,
    x: &[Single],
    sr: Single,
    n_fft: usize,
    hop: usize,
    r: Result<(Vec<Single>, Vec<Single>), SpectrumError>,
    k: int,
    l: int,
)
    requires
        exact_where_possible(unit),
        is_finite(sr),
        0 < n_fft <= x@.len(),
        call_ensures(mean_spectrum_db::<U>, (unit, x, sr, n_fft, hop), r),
        0 <= k <= n_fft as int / 2,
        0 <= l <= n_fft as int / 2,
        place_has_pattern(sr, n_fft, k),
        place_has_pattern(sr, n_fft, l),
    ensures
        ({
            let step = value(sr) / n_fft as int as real;
            &&& r matches Ok((freqs, db))
            &&& freqs@.len() == n_fft as int / 2 + 1
            &&& db@.len() == n_fft as int / 2 + 1
            &&& value(freqs@[0]) == 0 as real
            &&& value(freqs@[k]) == k as real * step
            &&& value(freqs@[l]) - value(freqs@[k]) == (l - k) as real * step
            &&& 2 * k == n_fft ==> value(freqs@[k]) == value(sr) / 2 as real
        }),
{
    let (freqs, db) = r->Ok_0;
    let n = n_fft as int as real;
    let rate = value(sr);
    law_named_patterns();
    assert(is_frequency(unit, 0 as u64, sr, n_fft as u64, freqs@[0]));
    assert(is_frequency(unit, k as u64, sr, n_fft as u64, freqs@[k]));
    assert(is_frequency(unit, l as u64, sr, n_fft as u64, freqs@[l]));
    lemma_quotient(0 as real, 0 as real, n);
    assert(0 as real * rate == 0 as real) by (nonlinear_arith);
    assert(is_finite(Single { bits: 0 }) && value(Single { bits: 0 }) == 0 as real);
    assert(has_pattern(0 as real));
    lemma_place(unit, sr, n_fft, 0, freqs@[0]);
    lemma_place(unit, sr, n_fft, k, freqs@[k]);
    lemma_place(unit, sr, n_fft, l, freqs@[l]);
    let (a, b) = (k as real, l as real);
    assert(a * rate / n == a * (rate / n) && b * rate / n == b * (rate / n)) by (nonlinear_arith)
        requires
            n != 0 as real,
    ;
    assert(b * (rate / n) - a * (rate / n) == (b - a) * (rate / n)) by (nonlinear_arith);
    assert(2 as real * a == n ==> a * rate / n == rate / 2 as real) by (nonlinear_arith)
        requires
            n != 0 as real,
    ;
}

} // verus!
