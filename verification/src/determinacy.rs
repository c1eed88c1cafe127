//! Over a unit that answers each question in one way, every result is determined.
use vstd::prelude::*;

use crate::mono::{channel_samples, is_average, mono_from_f32};
use crate::peaks::{apart, are_peaks, clear_of, close, peak_limit, picks, points, shadowed};
use crate::ranking::{is_ranking, law_ranking_is_unique};
use crate::single::Single;
use crate::spectrum::{
    are_averages, are_levels, are_magnitudes, averages_by, bin_count, column, frame,
    frame_count, is_bin_magnitude, is_frequency, is_hann_weight, is_level, is_magnitude, is_mean,
    floored, is_spectrum, is_weighed, is_window, law_frames_cover_signal, mean_spectrum_db,
    reference_level, transforms_to, SpectrumError, FLOOR, ZERO,
};
use crate::unit::{sums_to, FloatUnit};
use crate::value::{is_number, law_patterns_compare_as_numbers};

verus! {

/// Whether `unit` answers each question about binary32 values in one way.
pub open spec fn single_valued<U: FloatUnit>(unit: &U) -> bool {
    &&& forall|n: u64, r: Single, s: Single|
        #[trigger] call_ensures(U::count, (unit, n), r) && #[trigger] call_ensures(
            U::count,
            (unit, n),
            s,
        ) ==> r == s
    &&& forall|a: Single, b: Single, r: Single, s: Single|
        #[trigger] call_ensures(U::plus, (unit, a, b), r) && #[trigger] call_ensures(
            U::plus,
            (unit, a, b),
            s,
        ) ==> r == s
    &&& forall|a: Single, b: Single, r: Single, s: Single|
        #[trigger] call_ensures(U::minus, (unit, a, b), r) && #[trigger] call_ensures(
            U::minus,
            (unit, a, b),
            s,
        ) ==> r == s
    &&& forall|a: Single, b: Single, r: Single, s: Single|
        #[trigger] call_ensures(U::times, (unit, a, b), r) && #[trigger] call_ensures(
            U::times,
            (unit, a, b),
            s,
        ) ==> r == s
    &&& forall|a: Single, b: Single, r: Single, s: Single|
        #[trigger] call_ensures(U::over, (unit, a, b), r) && #[trigger] call_ensures(
            U::over,
            (unit, a, b),
            s,
        ) ==> r == s
    &&& forall|a: Single, r: Single, s: Single|
        #[trigger] call_ensures(U::root, (unit, a), r) && #[trigger] call_ensures(
            U::root,
            (unit, a),
            s,
        ) ==> r == s
    &&& forall|a: Single, r: Single, s: Single|
        #[trigger] call_ensures(U::cosine, (unit, a), r) && #[trigger] call_ensures(
            U::cosine,
            (unit, a),
            s,
        ) ==> r == s
    &&& forall|a: Single, r: Single, s: Single|
        #[trigger] call_ensures(U::log_ten, (unit, a), r) && #[trigger] call_ensures(
            U::log_ten,
            (unit, a),
            s,
        ) ==> r == s
    &&& forall|
        a: Vec<(Single, Single)>,
        b: Vec<(Single, Single)>,
        r: U::Spectrum,
        s: U::Spectrum,
    |
        a@ == b@ && #[trigger] call_ensures(U::transform, (unit, a), r)
            && #[trigger] call_ensures(U::transform, (unit, b), s) ==> r == s
    &&& forall|t: U::Spectrum, k: usize, r: (Single, Single), s: (Single, Single)|
        #[trigger] call_ensures(U::bin, (unit, &t, k), r) && #[trigger] call_ensures(
            U::bin,
            (unit, &t, k),
            s,
        ) ==> r == s
}

proof fn lemma_sum<U: FloatUnit>(unit: &U, terms: Seq<Single>, first: Single, second: Single)
    requires
        single_valued(unit),
        sums_to(unit, Single { bits: ZERO }, terms, first),
        sums_to(unit, Single { bits: ZERO }, terms, second),
    ensures
        first == second,
    decreases terms.len(),
{
    if terms.len() > 0 {
        let rest = terms.drop_last();
        let a = choose|part: Single|
            {
                &&& sums_to(unit, Single { bits: ZERO }, rest, part)
                &&& #[trigger] call_ensures(U::plus, (unit, part, terms.last()), first)
            };
        let b = choose|part: Single|
            {
                &&& sums_to(unit, Single { bits: ZERO }, rest, part)
                &&& #[trigger] call_ensures(U::plus, (unit, part, terms.last()), second)
            };
        lemma_sum(unit, rest, a, b);
    }
}

/// The mono sample of a frame is determined by its channel samples.
pub proof fn law_mono_is_determined<U: FloatUnit>(
    unit: &U,
    samples: Seq<Single>,
    first: Single,
    second: Single,
)
    requires
        single_valued(unit),
        is_average(unit, samples, first),
        is_average(unit, samples, second),
    ensures
        first == second,
{
    let (a, n) = choose|sum: Single, n: Single|
        {
            &&& sums_to(unit, Single { bits: ZERO }, samples, sum)
            &&& #[trigger] call_ensures(U::count, (unit, samples.len() as u64), n)
            &&& #[trigger] call_ensures(U::over, (unit, sum, n), first)
        };
    let (b, m) = choose|sum: Single, n: Single|
        {
            &&& sums_to(unit, Single { bits: ZERO }, samples, sum)
            &&& #[trigger] call_ensures(U::count, (unit, samples.len() as u64), n)
            &&& #[trigger] call_ensures(U::over, (unit, sum, n), second)
        };
    lemma_sum(unit, samples, a, b);
}

/// Mixing goes frame by frame: a frame is mixed alike wherever it stands in a block, if the
/// channels have the same samples there.
pub proof fn law_frames_are_mixed_alike<U: FloatUnit>(
    unit: &U,
    planes: &Vec<Vec<Single>>,
    frames: usize,
    mono: Vec<Single>,
    other_planes: &Vec<Vec<Single>>,
    other_frames: usize,
    other_mono: Vec<Single>,
    i: int,
    j: int,
)
    requires
        single_valued(unit),
        call_ensures(mono_from_f32::<U>, (unit, planes, frames), mono),
        call_ensures(mono_from_f32::<U>, (unit, other_planes, other_frames), other_mono),
        0 <= i < frames,
        0 <= j < other_frames,
        planes@.len() == other_planes@.len(),
        forall|c: int|
            0 <= c < planes@.len() ==> (#[trigger] planes@[c])@[i] == other_planes@[c]@[j],
    ensures
        mono@[i] == other_mono@[j],
{
    let samples = channel_samples(planes@, i);
    assert forall|c: int| 0 <= c < planes@.len() implies samples[c] == #[trigger] channel_samples(
        other_planes@,
        j,
    )[c] by {
        assert(planes@[c]@[i] == other_planes@[c]@[j]);
    }
    assert(samples =~= channel_samples(other_planes@, j));
    law_mono_is_determined(unit, samples, mono@[i], other_mono@[j]);
}

/// A block may be mixed in two parts: the mixes of its first frames and of the remaining ones,
/// joined, are the mix of all.
pub proof fn law_block_can_be_mixed_in_parts<U: FloatUnit>(
    unit: &U,
    planes: &Vec<Vec<Single>>,
    first_planes: &Vec<Vec<Single>>,
    rest_planes: &Vec<Vec<Single>>,
    first_frames: usize,
    rest_frames: usize,
    frames: usize,
    mono: Vec<Single>,
    first: Vec<Single>,
    rest: Vec<Single>,
)
    requires
        single_valued(unit),
        first_frames + rest_frames == frames,
        call_ensures(mono_from_f32::<U>, (unit, planes, frames), mono),
        call_ensures(mono_from_f32::<U>, (unit, first_planes, first_frames), first),
        call_ensures(mono_from_f32::<U>, (unit, rest_planes, rest_frames), rest),
        first_planes@.len() == planes@.len(),
        rest_planes@.len() == planes@.len(),
        forall|c: int|
            0 <= c < planes@.len() ==> {
                &&& (#[trigger] planes@[c])@.len() == frames
                &&& planes@[c]@ == first_planes@[c]@ + rest_planes@[c]@
                &&& first_planes@[c]@.len() == first_frames
            },
    ensures
        mono@ == first@ + rest@,
{
    assert(mono@.len() == (first@ + rest@).len());
    assert forall|i: int| 0 <= i < frames implies mono@[i] == (first@ + rest@)[i] by {
        if i < first_frames {
            assert forall|c: int| 0 <= c < planes@.len() implies (#[trigger] planes@[c])@[i]
                == first_planes@[c]@[i] by {}
            law_frames_are_mixed_alike(
                unit,
                planes,
                frames,
                mono,
                first_planes,
                first_frames,
                first,
                i,
                i,
            );
        } else {
            assert forall|c: int| 0 <= c < planes@.len() implies (#[trigger] planes@[c])@[i]
                == rest_planes@[c]@[i - first_frames] by {}
            law_frames_are_mixed_alike(
                unit,
                planes,
                frames,
                mono,
                rest_planes,
                rest_frames,
                rest,
                i,
                i - first_frames,
            );
        }
    }
    assert(mono@ =~= first@ + rest@);
}

/// The mix of one channel is that channel, if nothing changes a sample that is added to 0 and
/// divided by 1.
pub proof fn law_one_channel_is_kept<U: FloatUnit>(
    unit: &U,
    planes: &Vec<Vec<Single>>,
    frames: usize,
    mono: Vec<Single>,
)
    requires
        forall|a: Single, r: Single| #[trigger]
            call_ensures(U::plus, (unit, Single { bits: 0 }, a), r) ==> r == a,
        forall|a: Single, n: Single, r: Single| #[trigger]
            call_ensures(U::count, (unit, 1u64), n) && #[trigger] call_ensures(
                U::over,
                (unit, a, n),
                r,
            ) ==> r == a,
        call_ensures(mono_from_f32::<U>, (unit, planes, frames), mono),
        planes@.len() == 1,
        planes@[0]@.len() >= frames,
    ensures
        mono@ == planes@[0]@.take(frames as int),
{
    assert forall|i: int| 0 <= i < frames implies mono@[i] == planes@[0]@[i] by {
        let samples = channel_samples(planes@, i);
        assert(is_average(unit, samples, mono@[i]));
        let (sum, n) = choose|sum: Single, n: Single|
            {
                &&& sums_to(unit, Single { bits: ZERO }, samples, sum)
                &&& #[trigger] call_ensures(U::count, (unit, samples.len() as u64), n)
                &&& #[trigger] call_ensures(U::over, (unit, sum, n), mono@[i])
            };
        assert(samples.last() == planes@[0]@[i]);
        assert(samples.drop_last() =~= Seq::<Single>::empty());
        reveal_with_fuel(sums_to, 2);
        assert(sum == planes@[0]@[i]);
    }
    assert(mono@ =~= planes@[0]@.take(frames as int));
}

proof fn lemma_walk<U: FloatUnit>(
    unit: &U,
    freqs: Seq<Single>,
    gap: Single,
    limit: nat,
    order: Seq<usize>,
    first: Seq<usize>,
    second: Seq<usize>,
)
    requires
        single_valued(unit),
        picks(unit, freqs, gap, limit, order, first),
        picks(unit, freqs, gap, limit, order, second),
    ensures
        first == second,
    decreases order.len(),
{
    if order.len() == 0 {
        assert(first =~= second);
    } else {
        let rest = order.drop_last();
        let i = order.last();
        let a = if first.len() >= limit && picks(unit, freqs, gap, limit, rest, first)
            || first.len() < limit && shadowed(unit, freqs, gap, i, first) && picks(
            unit,
            freqs,
            gap,
            limit,
            rest,
            first,
        ) {
            first
        } else {
            first.drop_last()
        };
        let b = if second.len() >= limit && picks(unit, freqs, gap, limit, rest, second)
            || second.len() < limit && shadowed(unit, freqs, gap, i, second) && picks(
            unit,
            freqs,
            gap,
            limit,
            rest,
            second,
        ) {
            second
        } else {
            second.drop_last()
        };
        lemma_walk(unit, freqs, gap, limit, rest, a, b);
        if shadowed(unit, freqs, gap, i, a) && clear_of(unit, freqs, gap, i, a) {
            let t = choose|t: int|
                0 <= t < a.len() && close(
                    unit,
                    freqs[i as int],
                    freqs[#[trigger] a[t] as int],
                    gap,
                );
            assert(apart(unit, freqs[i as int], freqs[a[t] as int], gap));
            assert(false);
        }
        if a != first {
            assert(first =~= a.push(i));
        }
        if b != second {
            assert(second =~= b.push(i));
        }
    }
}

/// The listed peaks are determined by the spectrum.
pub proof fn law_peaks_are_determined<U: FloatUnit>(
    unit: &U,
    freqs: Seq<Single>,
    db: Seq<Single>,
    top_n: usize,
    gap: Single,
    first: Seq<(Single, Single)>,
    second: Seq<(Single, Single)>,
)
    requires
        single_valued(unit),
        are_peaks(unit, freqs, db, top_n, gap, first),
        are_peaks(unit, freqs, db, top_n, gap, second),
    ensures
        first == second,
{
    let (o, a) = choose|order: Seq<usize>, taken: Seq<usize>|
        {
            &&& is_ranking(db, order)
            &&& #[trigger] picks(unit, freqs, gap, peak_limit(top_n), order, taken)
            &&& first == points(freqs, db, taken)
        };
    let (p, b) = choose|order: Seq<usize>, taken: Seq<usize>|
        {
            &&& is_ranking(db, order)
            &&& #[trigger] picks(unit, freqs, gap, peak_limit(top_n), order, taken)
            &&& second == points(freqs, db, taken)
        };
    law_ranking_is_unique(db, o, p);
    lemma_walk(unit, freqs, gap, peak_limit(top_n), o, a, b);
}

proof fn lemma_hann_weight<U: FloatUnit>(unit: &U, i: u64, n: u64, first: Single, second: Single)
    requires
        single_valued(unit),
        is_hann_weight(unit, i, n, first),
        is_hann_weight(unit, i, n, second),
    ensures
        first == second,
{
}

proof fn lemma_window<U: FloatUnit>(unit: &U, n: int, first: Seq<Single>, second: Seq<Single>)
    requires
        single_valued(unit),
        is_window(unit, n, first),
        is_window(unit, n, second),
    ensures
        first == second,
{
    assert forall|i: int| 0 <= i < n implies first[i] == second[i] by {
        lemma_hann_weight(unit, i as u64, n as u64, first[i], second[i]);
    }
    assert(first =~= second);
}

proof fn lemma_magnitudes<U: FloatUnit>(
    unit: &U,
    samples: Seq<Single>,
    window: Seq<Single>,
    first: Seq<Single>,
    second: Seq<Single>,
)
    requires
        single_valued(unit),
        first.len() == second.len(),
        are_magnitudes(unit, samples, window, first),
        are_magnitudes(unit, samples, window, second),
    ensures
        first == second,
{
    let a = choose|buf: Vec<(Single, Single)>|
        is_weighed(unit, samples, window, buf@) && #[trigger] transforms_to(unit, buf, first);
    let b = choose|buf: Vec<(Single, Single)>|
        is_weighed(unit, samples, window, buf@) && #[trigger] transforms_to(unit, buf, second);
    assert forall|i: int| 0 <= i < samples.len() implies a@[i] == b@[i] by {
        assert(call_ensures(U::times, (unit, samples[i], window[i]), a@[i].0));
        assert(call_ensures(U::times, (unit, samples[i], window[i]), b@[i].0));
    }
    assert(a@ =~= b@);
    let t = choose|t: U::Spectrum|
        {
            &&& #[trigger] call_ensures(U::transform, (unit, a), t)
            &&& forall|k: int|
                0 <= k < first.len() ==> is_bin_magnitude(
                    unit,
                    t,
                    k as usize,
                    #[trigger] first[k],
                )
        };
    let u = choose|t: U::Spectrum|
        {
            &&& #[trigger] call_ensures(U::transform, (unit, b), t)
            &&& forall|k: int|
                0 <= k < second.len() ==> is_bin_magnitude(
                    unit,
                    t,
                    k as usize,
                    #[trigger] second[k],
                )
        };
    assert(t == u);
    assert forall|k: int| 0 <= k < first.len() implies first[k] == second[k] by {
        lemma_bin_magnitude(unit, t, k as usize, first[k], second[k]);
    }
    assert(first =~= second);
}

proof fn lemma_bin_magnitude<U: FloatUnit>(
    unit: &U,
    t: U::Spectrum,
    k: usize,
    first: Single,
    second: Single,
)
    requires
        single_valued(unit),
        is_bin_magnitude(unit, t, k, first),
        is_bin_magnitude(unit, t, k, second),
    ensures
        first == second,
{
    let y = choose|z: (Single, Single)|
        #[trigger] call_ensures(U::bin, (unit, &t, k), z) && is_magnitude(unit, z, first);
    let z = choose|z: (Single, Single)|
        #[trigger] call_ensures(U::bin, (unit, &t, k), z) && is_magnitude(unit, z, second);
    assert(y == z);
}

proof fn lemma_averages<U: FloatUnit>(
    unit: &U,
    x: Seq<Single>,
    n_fft: int,
    hop: int,
    first: Seq<Single>,
    second: Seq<Single>,
)
    requires
        single_valued(unit),
        are_averages(unit, x, n_fft, hop, first),
        are_averages(unit, x, n_fft, hop, second),
    ensures
        first == second,
{
    let (wa, ma, ta) = choose|
        window: Seq<Single>,
        mags: Seq<Seq<Single>>,
        totals: Seq<Single>,
    |
        averages_by(unit, x, n_fft, hop, window, mags, totals, first);
    let (wb, mb, tb) = choose|
        window: Seq<Single>,
        mags: Seq<Seq<Single>>,
        totals: Seq<Single>,
    |
        averages_by(unit, x, n_fft, hop, window, mags, totals, second);
    lemma_window(unit, n_fft, wa, wb);
    assert forall|j: int| 0 <= j < ma.len() implies ma[j] == mb[j] by {
        assert(ma[j].len() == bin_count(n_fft));
        assert(mb[j].len() == bin_count(n_fft));
        lemma_magnitudes(unit, frame(x, n_fft, hop, j), wa, ma[j], mb[j]);
    }
    assert(ma =~= mb);
    assert forall|k: int| 0 <= k < first.len() implies first[k] == second[k] by {
        assert(sums_to(unit, Single { bits: ZERO }, column(ma, k), ta[k]));
        assert(sums_to(unit, Single { bits: ZERO }, column(ma, k), tb[k]));
        lemma_sum(unit, column(ma, k), ta[k], tb[k]);
        assert(is_mean(unit, ta[k], ma.len() as u64, first[k]));
        assert(is_mean(unit, ta[k], ma.len() as u64, second[k]));
    }
    assert(first =~= second);
}

/// The averaged spectrum is determined by the signal and the settings.
pub proof fn law_spectrum_is_determined<U: FloatUnit>(
    unit: &U,
    x: Seq<Single>,
    sr: Single,
    n_fft: int,
    hop: int,
    first: (Seq<Single>, Seq<Single>),
    second: (Seq<Single>, Seq<Single>),
)
    requires
        single_valued(unit),
        is_spectrum(unit, x, sr, n_fft, hop, first.0, first.1),
        is_spectrum(unit, x, sr, n_fft, hop, second.0, second.1),
    ensures
        first == second,
{
    assert forall|k: int| 0 <= k < first.0.len() implies first.0[k] == second.0[k] by {
        assert(is_frequency(unit, k as u64, sr, n_fft as u64, first.0[k]));
        assert(is_frequency(unit, k as u64, sr, n_fft as u64, second.0[k]));
    }
    assert(first.0 =~= second.0);
    let a = choose|means: Seq<Single>|
        #[trigger] are_averages(unit, x, n_fft, hop, means) && are_levels(unit, means, first.1);
    let b = choose|means: Seq<Single>|
        #[trigger] are_averages(unit, x, n_fft, hop, means) && are_levels(unit, means, second.1);
    lemma_averages(unit, x, n_fft, hop, a, b);
    assert forall|k: int| 0 <= k < first.1.len() implies first.1[k] == second.1[k] by {
        assert(is_level(unit, a[k], reference_level(a), first.1[k]));
        assert(is_level(unit, a[k], reference_level(a), second.1[k]));
    }
    assert(first.1 =~= second.1);
}

/// Samples outside the full frames have no part in the spectrum: two signals with the same
/// frames have the same spectrum, whatever follows the last frame or lies between frames.
pub proof fn law_spectrum_depends_on_frames_alone<U: FloatUnit>(
    unit: &U,
    x: Seq<Single>,
    y: Seq<Single>,
    sr: Single,
    n_fft: int,
    hop: int,
    first: (Seq<Single>, Seq<Single>),
    second: (Seq<Single>, Seq<Single>),
)
    requires
        single_valued(unit),
        frame_count(x.len() as int, n_fft, hop) == frame_count(y.len() as int, n_fft, hop),
        forall|j: int|
            0 <= j < frame_count(x.len() as int, n_fft, hop) ==> #[trigger] frame(
                x,
                n_fft,
                hop,
                j,
            ) == frame(y, n_fft, hop, j),
        is_spectrum(unit, x, sr, n_fft, hop, first.0, first.1),
        is_spectrum(unit, y, sr, n_fft, hop, second.0, second.1),
    ensures
        first == second,
{
    let means = choose|means: Seq<Single>|
        #[trigger] are_averages(unit, x, n_fft, hop, means) && are_levels(unit, means, first.1);
    let (window, mags, totals) = choose|
        window: Seq<Single>,
        mags: Seq<Seq<Single>>,
        totals: Seq<Single>,
    |
        averages_by(unit, x, n_fft, hop, window, mags, totals, means);
    assert forall|j: int| 0 <= j < mags.len() implies are_magnitudes(
        unit,
        frame(y, n_fft, hop, j),
        window,
        #[trigger] mags[j],
    ) by {
        assert(frame(x, n_fft, hop, j) == frame(y, n_fft, hop, j));
    }
    assert(averages_by(unit, y, n_fft, hop, window, mags, totals, means));
    assert(are_averages(unit, y, n_fft, hop, means));
    law_spectrum_is_determined(unit, y, sr, n_fft, hop, first, second);
}

/// Whether `unit` treats signs as binary32 arithmetic does: rounding is symmetric, so that
/// opposite arguments have opposite products and transforms, and the same squares. Values are
/// held to an absolute value of 1, which the weights of the window have too, so that nothing
/// overflows.
pub open spec fn keeps_signs<U: FloatUnit>(unit: &U) -> bool {
    &&& forall|i: u64, n: u64, w: Single|
        0 < n && #[trigger] is_hann_weight(unit, i, n, w) ==> w.within_one()
    &&& forall|a: Single, b: Single, w: Single, r: Single, s: Single|
        a.within_one() && a.opposite(b) && w.within_one() && #[trigger] call_ensures(
            U::times,
            (unit, a, w),
            r,
        ) && #[trigger] call_ensures(U::times, (unit, b, w), s) ==> r.within_one() && r.opposite(s)
    &&& forall|a: Single, b: Single, r: Single, s: Single|
        a.opposite(b) && #[trigger] call_ensures(U::times, (unit, a, a), r)
            && #[trigger] call_ensures(U::times, (unit, b, b), s) ==> r == s
    &&& forall|
        a: Vec<(Single, Single)>,
        b: Vec<(Single, Single)>,
        t: U::Spectrum,
        u: U::Spectrum,
        k: usize,
        y: (Single, Single),
        z: (Single, Single),
    |
        are_opposite(a@, b@) && k < a@.len() && #[trigger] call_ensures(U::transform, (unit, a), t)
            && #[trigger] call_ensures(U::transform, (unit, b), u) && #[trigger] call_ensures(
            U::bin,
            (unit, &t, k),
            y,
        ) && #[trigger] call_ensures(U::bin, (unit, &u, k), z) ==> y.0.opposite(z.0)
            && y.1.opposite(z.1)
}

/// Whether two sequences of complex values, with parts between -1 and 1, are opposite.
pub open spec fn are_opposite(a: Seq<(Single, Single)>, b: Seq<(Single, Single)>) -> bool {
    &&& a.len() == b.len()
    &&& forall|i: int|
        0 <= i < a.len() ==> {
            &&& (#[trigger] a[i]).0.within_one()
            &&& a[i].1.within_one()
            &&& a[i].0.opposite(b[i].0)
            &&& a[i].1.opposite(b[i].1)
        }
}

proof fn lemma_same_magnitude<U: FloatUnit>(
    unit: &U,
    y: (Single, Single),
    z: (Single, Single),
    first: Single,
    second: Single,
)
    requires
        single_valued(unit),
        keeps_signs(unit),
        y.0.opposite(z.0),
        y.1.opposite(z.1),
        is_magnitude(unit, y, first),
        is_magnitude(unit, z, second),
    ensures
        first == second,
{
    let (a, b, sum) = choose|a: Single, b: Single, sum: Single|
        {
            &&& #[trigger] call_ensures(U::times, (unit, y.0, y.0), a)
            &&& #[trigger] call_ensures(U::times, (unit, y.1, y.1), b)
            &&& #[trigger] call_ensures(U::plus, (unit, a, b), sum)
            &&& call_ensures(U::root, (unit, sum), first)
        };
    let (c, d, other) = choose|a: Single, b: Single, sum: Single|
        {
            &&& #[trigger] call_ensures(U::times, (unit, z.0, z.0), a)
            &&& #[trigger] call_ensures(U::times, (unit, z.1, z.1), b)
            &&& #[trigger] call_ensures(U::plus, (unit, a, b), sum)
            &&& call_ensures(U::root, (unit, sum), second)
        };
    assert(a == c);
    assert(b == d);
    assert(sum == other);
}

proof fn lemma_opposite_frames<U: FloatUnit>(
    unit: &U,
    samples: Seq<Single>,
    inverted: Seq<Single>,
    window: Seq<Single>,
    first: Seq<Single>,
    second: Seq<Single>,
)
    requires
        single_valued(unit),
        keeps_signs(unit),
        samples.len() == inverted.len(),
        forall|i: int|
            0 <= i < samples.len() ==> {
                &&& (#[trigger] samples[i]).within_one()
                &&& samples[i].opposite(inverted[i])
                &&& window[i].within_one()
            },
        first.len() == second.len(),
        first.len() <= samples.len() <= usize::MAX,
        are_magnitudes(unit, samples, window, first),
        are_magnitudes(unit, inverted, window, second),
    ensures
        first == second,
{
    let a = choose|buf: Vec<(Single, Single)>|
        is_weighed(unit, samples, window, buf@) && #[trigger] transforms_to(unit, buf, first);
    let b = choose|buf: Vec<(Single, Single)>|
        is_weighed(unit, inverted, window, buf@) && #[trigger] transforms_to(unit, buf, second);
    assert forall|i: int| 0 <= i < a@.len() implies {
        &&& (#[trigger] a@[i]).0.within_one()
        &&& a@[i].1.within_one()
        &&& a@[i].0.opposite(b@[i].0)
        &&& a@[i].1.opposite(b@[i].1)
    } by {
        assert(samples[i].within_one());
        assert(call_ensures(U::times, (unit, samples[i], window[i]), a@[i].0));
        assert(call_ensures(U::times, (unit, inverted[i], window[i]), b@[i].0));
    }
    assert(are_opposite(a@, b@));
    let t = choose|t: U::Spectrum|
        {
            &&& #[trigger] call_ensures(U::transform, (unit, a), t)
            &&& forall|k: int|
                0 <= k < first.len() ==> is_bin_magnitude(
                    unit,
                    t,
                    k as usize,
                    #[trigger] first[k],
                )
        };
    let u = choose|t: U::Spectrum|
        {
            &&& #[trigger] call_ensures(U::transform, (unit, b), t)
            &&& forall|k: int|
                0 <= k < second.len() ==> is_bin_magnitude(
                    unit,
                    t,
                    k as usize,
                    #[trigger] second[k],
                )
        };
    assert forall|k: int| 0 <= k < first.len() implies first[k] == second[k] by {
        assert(is_bin_magnitude(unit, t, k as usize, first[k]));
        assert(is_bin_magnitude(unit, u, k as usize, second[k]));
        let y = choose|z: (Single, Single)|
            {
                &&& #[trigger] call_ensures(U::bin, (unit, &t, k as usize), z)
                &&& is_magnitude(unit, z, first[k])
            };
        let z = choose|z: (Single, Single)|
            {
                &&& #[trigger] call_ensures(U::bin, (unit, &u, k as usize), z)
                &&& is_magnitude(unit, z, second[k])
            };
        lemma_same_magnitude(unit, y, z, first[k], second[k]);
    }
    assert(first =~= second);
}

/// Inverting the polarity of a signal leaves its spectrum as it is: two signals, within the
/// range of full scale, whose samples differ in their signs have the same spectrum.
pub proof fn law_polarity_does_not_show<U: FloatUnit>(
    unit: &U,
    x: Seq<Single>,
    inverted: Seq<Single>,
    sr: Single,
    n_fft: usize,
    hop: usize,
    first: (Seq<Single>, Seq<Single>),
    second: (Seq<Single>, Seq<Single>),
)
    requires
        single_valued(unit),
        keeps_signs(unit),
        0 < n_fft <= x.len(),
        hop > 0,
        x.len() == inverted.len(),
        forall|i: int|
            0 <= i < x.len() ==> (#[trigger] x[i]).within_one() && x[i].opposite(inverted[i]),
        is_spectrum(unit, x, sr, n_fft as int, hop as int, first.0, first.1),
        is_spectrum(unit, inverted, sr, n_fft as int, hop as int, second.0, second.1),
    ensures
        first == second,
{
    let n = n_fft as int;
    let step = hop as int;
    let a = choose|means: Seq<Single>|
        #[trigger] are_averages(unit, x, n, step, means) && are_levels(unit, means, first.1);
    let b = choose|means: Seq<Single>|
        #[trigger] are_averages(unit, inverted, n, step, means) && are_levels(
            unit,
            means,
            second.1,
        );
    let (wa, ma, ta) = choose|
        window: Seq<Single>,
        mags: Seq<Seq<Single>>,
        totals: Seq<Single>,
    |
        averages_by(unit, x, n, step, window, mags, totals, a);
    let (wb, mb, tb) = choose|
        window: Seq<Single>,
        mags: Seq<Seq<Single>>,
        totals: Seq<Single>,
    |
        averages_by(unit, inverted, n, step, window, mags, totals, b);
    lemma_window(unit, n, wa, wb);
    assert forall|j: int| 0 <= j < ma.len() implies ma[j] == mb[j] by {
        assert(ma[j].len() == bin_count(n));
        assert(mb[j].len() == bin_count(n));
        law_frames_cover_signal(x.len() as int, n, step, j);
        let samples = frame(x, n, step, j);
        let other = frame(inverted, n, step, j);
        assert forall|i: int| 0 <= i < samples.len() implies {
            &&& (#[trigger] samples[i]).within_one()
            &&& samples[i].opposite(other[i])
            &&& wa[i].within_one()
        } by {
            assert(samples[i] == x[j * step + i]);
            assert(is_hann_weight(unit, i as u64, n as u64, wa[i]));
        }
        lemma_opposite_frames(unit, samples, other, wa, ma[j], mb[j]);
    }
    assert(ma =~= mb);
    assert(averages_by(unit, x, n, step, wa, ma, tb, b));
    assert(are_averages(unit, x, n, step, b));
    law_spectrum_is_determined(unit, x, sr, n, step, first, second);
}

/// Whether what `unit` makes of something that is no number is none either, as in binary32
/// arithmetic. In a transform, one such sample reaches every bin.
pub open spec fn passes_on_nan<U: FloatUnit>(unit: &U) -> bool {
    &&& forall|a: Single, b: Single, r: Single|
        !(is_number(a) && is_number(b)) && #[trigger] call_ensures(U::plus, (unit, a, b), r)
            ==> !is_number(r)
    &&& forall|a: Single, b: Single, r: Single|
        !(is_number(a) && is_number(b)) && #[trigger] call_ensures(U::times, (unit, a, b), r)
            ==> !is_number(r)
    &&& forall|a: Single, b: Single, r: Single|
        !(is_number(a) && is_number(b)) && #[trigger] call_ensures(U::over, (unit, a, b), r)
            ==> !is_number(r)
    &&& forall|a: Single, r: Single|
        !is_number(a) && #[trigger] call_ensures(U::root, (unit, a), r) ==> !is_number(r)
    &&& forall|a: Single, r: Single|
        !is_number(a) && #[trigger] call_ensures(U::log_ten, (unit, a), r) ==> !is_number(r)
    &&& forall|
        buf: Vec<(Single, Single)>,
        t: U::Spectrum,
        k: usize,
        z: (Single, Single),
        i: int,
    |
        {
            &&& k < buf@.len()
            &&& 0 <= i < buf@.len()
            &&& !is_number((#[trigger] buf@[i]).0)
            &&& #[trigger] call_ensures(U::transform, (unit, buf), t)
            &&& #[trigger] call_ensures(U::bin, (unit, &t, k), z)
        } ==> !(is_number(z.0) && is_number(z.1))
}

proof fn lemma_nan_sum<U: FloatUnit>(unit: &U, terms: Seq<Single>, total: Single, j: int)
    requires
        passes_on_nan(unit),
        0 <= j < terms.len(),
        !is_number(terms[j]),
        sums_to(unit, Single { bits: ZERO }, terms, total),
    ensures
        !is_number(total),
    decreases terms.len(),
{
    let rest = terms.drop_last();
    let part = choose|part: Single|
        {
            &&& sums_to(unit, Single { bits: ZERO }, rest, part)
            &&& #[trigger] call_ensures(U::plus, (unit, part, terms.last()), total)
        };
    if j < rest.len() {
        assert(rest[j] == terms[j]);
        lemma_nan_sum(unit, rest, part, j);
    }
}

/// A frame in which some channel has a sample that is no number is mixed to one that is none.
pub proof fn law_nan_sample_spoils_the_mix<U: FloatUnit>(
    unit: &U,
    planes: &Vec<Vec<Single>>,
    frames: usize,
    mono: Vec<Single>,
    i: int,
    c: int,
)
    requires
        passes_on_nan(unit),
        call_ensures(mono_from_f32::<U>, (unit, planes, frames), mono),
        0 <= i < frames,
        0 <= c < planes@.len(),
        !is_number(planes@[c]@[i]),
    ensures
        !is_number(mono@[i]),
{
    let samples = channel_samples(planes@, i);
    assert(is_average(unit, samples, mono@[i]));
    let (sum, n) = choose|sum: Single, n: Single|
        {
            &&& sums_to(unit, Single { bits: ZERO }, samples, sum)
            &&& #[trigger] call_ensures(U::count, (unit, samples.len() as u64), n)
            &&& #[trigger] call_ensures(U::over, (unit, sum, n), mono@[i])
        };
    assert(samples[c] == planes@[c]@[i]);
    lemma_nan_sum(unit, samples, sum, c);
}

proof fn lemma_nan_magnitude<U: FloatUnit>(
    unit: &U,
    samples: Seq<Single>,
    window: Seq<Single>,
    mags: Seq<Single>,
    i: int,
    k: int,
)
    requires
        passes_on_nan(unit),
        0 <= i < samples.len(),
        !is_number(samples[i]),
        are_magnitudes(unit, samples, window, mags),
        0 <= k < mags.len(),
        k < samples.len(),
        k <= usize::MAX,
    ensures
        !is_number(mags[k]),
{
    let buf = choose|buf: Vec<(Single, Single)>|
        is_weighed(unit, samples, window, buf@) && #[trigger] transforms_to(unit, buf, mags);
    assert(call_ensures(U::times, (unit, samples[i], window[i]), buf@[i].0));
    assert(!is_number(buf@[i].0));
    let t = choose|t: U::Spectrum|
        {
            &&& #[trigger] call_ensures(U::transform, (unit, buf), t)
            &&& forall|b: int|
                0 <= b < mags.len() ==> is_bin_magnitude(unit, t, b as usize, #[trigger] mags[b])
        };
    assert(is_bin_magnitude(unit, t, k as usize, mags[k]));
    let z = choose|z: (Single, Single)|
        {
            &&& #[trigger] call_ensures(U::bin, (unit, &t, k as usize), z)
            &&& is_magnitude(unit, z, mags[k])
        };
    let (a, b, total) = choose|a: Single, b: Single, total: Single|
        {
            &&& #[trigger] call_ensures(U::times, (unit, z.0, z.0), a)
            &&& #[trigger] call_ensures(U::times, (unit, z.1, z.1), b)
            &&& #[trigger] call_ensures(U::plus, (unit, a, b), total)
            &&& call_ensures(U::root, (unit, total), mags[k])
        };
    assert(!(is_number(a) && is_number(b)));
    assert(!is_number(total));
}

/// A sample that is no number, in the frame `number`, leaves no level: none of the spectrum's
/// levels is a number then.
pub proof fn law_nan_sample_leaves_no_level<U: FloatUnit>(
    unit: &U,
    x: &[Single],
    sr: Single,
    n_fft: usize,
    hop: usize,
    r: Result<(Vec<Single>, Vec<Single>), SpectrumError>,
    number: int,
    i: int,
    k: int,
)
    requires
        passes_on_nan(unit),
        n_fft > 0,
        hop > 0,
        call_ensures(mean_spectrum_db::<U>, (unit, x, sr, n_fft, hop), r),
        0 <= number,
        number * hop + n_fft <= x@.len(),
        0 <= i < n_fft,
        !is_number(x@[number * hop + i]),
        0 <= k <= n_fft as int / 2,
    ensures
        r matches Ok((_, db)) && !is_number(db@[k]),
{
    assert(number * hop >= 0) by (nonlinear_arith)
        requires
            number >= 0,
            hop > 0,
    ;
    let (freqs, db) = r->Ok_0;
    let (n, step) = (n_fft as int, hop as int);
    let means = choose|means: Seq<Single>|
        #[trigger] are_averages(unit, x@, n, step, means) && are_levels(unit, means, db@);
    let (window, mags, totals) = choose|
        window: Seq<Single>,
        mags: Seq<Seq<Single>>,
        totals: Seq<Single>,
    |
        averages_by(unit, x@, n, step, window, mags, totals, means);
    assert(number < mags.len()) by {
        let span = x@.len() - n;
        assert(number <= span / step) by (nonlinear_arith)
            requires
                number * step <= span,
                step > 0,
        ;
    }
    assert(mags[number].len() == bin_count(n));
    let samples = frame(x@, n, step, number);
    assert(samples[i] == x@[number * hop + i]);
    lemma_nan_magnitude(unit, samples, window, mags[number], i, k);
    let terms = column(mags, k);
    assert(terms[number] == mags[number][k]);
    assert(sums_to(unit, Single { bits: ZERO }, terms, totals[k]));
    lemma_nan_sum(unit, terms, totals[k], number);
    assert(is_mean(unit, totals[k], mags.len() as u64, means[k]));
    let (c, v) = choose|c: Single, v: Single|
        {
            &&& #[trigger] call_ensures(U::count, (unit, mags.len() as u64), c)
            &&& #[trigger] call_ensures(U::over, (unit, totals[k], c), v)
            &&& means[k] == floored(v)
        };
    law_patterns_compare_as_numbers(v, Single { bits: FLOOR });
    assert(!is_number(means[k]));
    assert(is_level(unit, means[k], reference_level(means), db@[k]));
}

/// The first `limit` of `taken`, or all if there are fewer.
pub open spec fn shortened<A>(taken: Seq<A>, limit: nat) -> Seq<A> {
    if taken.len() <= limit {
        taken
    } else {
        taken.take(limit as int)
    }
}

proof fn lemma_shorter_walk<U: FloatUnit>(
    unit: &U,
    freqs: Seq<Single>,
    gap: Single,
    limit: nat,
    longer: nat,
    order: Seq<usize>,
    taken: Seq<usize>,
)
    requires
        limit <= longer,
        picks(unit, freqs, gap, longer, order, taken),
    ensures
        picks(unit, freqs, gap, limit, order, shortened(taken, limit)),
    decreases order.len(),
{
    if order.len() > 0 {
        let rest = order.drop_last();
        let i = order.last();
        if taken.len() >= longer && picks(unit, freqs, gap, longer, rest, taken) {
            lemma_shorter_walk(unit, freqs, gap, limit, longer, rest, taken);
        } else if taken.len() < longer && shadowed(unit, freqs, gap, i, taken) && picks(
            unit,
            freqs,
            gap,
            longer,
            rest,
            taken,
        ) {
            lemma_shorter_walk(unit, freqs, gap, limit, longer, rest, taken);
        } else {
            let before = taken.drop_last();
            lemma_shorter_walk(unit, freqs, gap, limit, longer, rest, before);
            if before.len() >= limit {
                assert(shortened(taken, limit) =~= shortened(before, limit));
            }
        }
    }
}

/// Of one spectrum, asking for fewer peaks gives the first of those that asking for more gives.
pub proof fn law_fewer_peaks_are_a_prefix<U: FloatUnit>(
    unit: &U,
    freqs: Seq<Single>,
    db: Seq<Single>,
    fewer: usize,
    more: usize,
    gap: Single,
    first: Seq<(Single, Single)>,
    second: Seq<(Single, Single)>,
)
    requires
        single_valued(unit),
        fewer <= more,
        are_peaks(unit, freqs, db, fewer, gap, first),
        are_peaks(unit, freqs, db, more, gap, second),
    ensures
        first == shortened(second, peak_limit(fewer)),
{
    let limit = peak_limit(fewer);
    let (order, taken) = choose|order: Seq<usize>, taken: Seq<usize>|
        {
            &&& is_ranking(db, order)
            &&& #[trigger] picks(unit, freqs, gap, peak_limit(more), order, taken)
            &&& second == points(freqs, db, taken)
        };
    lemma_shorter_walk(unit, freqs, gap, limit, peak_limit(more), order, taken);
    let short = shortened(taken, limit);
    assert(picks(unit, freqs, gap, limit, order, short));
    assert(are_peaks(unit, freqs, db, fewer, gap, points(freqs, db, short)));
    law_peaks_are_determined(unit, freqs, db, fewer, gap, first, points(freqs, db, short));
    assert(points(freqs, db, short) =~= shortened(second, limit));
}

} // verus!
