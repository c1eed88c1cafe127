//! The spectrum of a signal, averaged over overlapping windowed frames.
use vstd::prelude::*;

use crate::single::Single;
use crate::unit::{sums_to, FloatUnit};

verus! {

/// The pattern of 0.
pub const ZERO: u32 = 0;

/// The pattern of 0.5.
pub const HALF: u32 = 0x3f00_0000;

/// The pattern of twice pi.
pub const FULL_TURN: u32 = 0x40c9_0fdb;

/// The pattern of 20.
pub const TWENTY: u32 = 0x41a0_0000;

/// The pattern of 1e-12, below which no average falls.
pub const FLOOR: u32 = 0x2b8c_bccc;

/// Why a signal has no spectrum.
#[derive(Clone, Copy, Debug, PartialEq, Eq, Structural)]
pub enum SpectrumError {
    /// The signal does not fill one frame.
    TooShort,
}

impl SpectrumError {
    /// What to tell the user.
    pub fn message(&self) -> (text: String)
        ensures
            text@ == "audio too short for FFT (need >= n_fft samples)"@,
    {
        "audio too short for FFT (need >= n_fft samples)".to_string()
    }
}

/// How many bins a frame of `n_fft` samples has, from 0 up to half the sample rate.
pub open spec fn bin_count(n_fft: int) -> int {
    n_fft / 2 + 1
}

/// How many whole frames, `hop` apart, a signal of `len` samples has.
pub open spec fn frame_count(len: int, n_fft: int, hop: int) -> int {
    (len - n_fft) / hop + 1
}

/// Frame `j` of a signal.
pub open spec fn frame(x: Seq<Single>, n_fft: int, hop: int, j: int) -> Seq<Single> {
    x.subrange(j * hop, j * hop + n_fft)
}

/// Whether `w` is weight `i` of the Hann window of length `n`:
/// `0.5 - 0.5 * cos(2 * pi * i / n)`.
pub open spec fn is_hann_weight<U: FloatUnit>(unit: &U, i: u64, n: u64, w: Single) -> bool {
    exists|ci: Single, cn: Single, turn: Single, angle: Single, c: Single, h: Single|
        {
            &&& #[trigger] call_ensures(U::count, (unit, i), ci)
            &&& #[trigger] call_ensures(U::count, (unit, n), cn)
            &&& #[trigger] call_ensures(U::times, (unit, Single { bits: FULL_TURN }, ci), turn)
            &&& #[trigger] call_ensures(U::over, (unit, turn, cn), angle)
            &&& #[trigger] call_ensures(U::cosine, (unit, angle), c)
            &&& #[trigger] call_ensures(U::times, (unit, Single { bits: HALF }, c), h)
            &&& call_ensures(U::minus, (unit, Single { bits: HALF }, h), w)
        }
}

/// Whether `window` is the Hann window of length `n`.
pub open spec fn is_window<U: FloatUnit>(unit: &U, n: int, window: Seq<Single>) -> bool {
    &&& window.len() == n
    &&& forall|i: int| 0 <= i < n ==> is_hann_weight(unit, i as u64, n as u64, #[trigger] window[i])
}

/// Whether `buf` is a frame under a window, as complex values without imaginary part.
pub open spec fn is_weighed<U: FloatUnit>(
    unit: &U,
    samples: Seq<Single>,
    window: Seq<Single>,
    buf: Seq<(Single, Single)>,
) -> bool {
    &&& buf.len() == samples.len()
    &&& forall|i: int|
        0 <= i < buf.len() ==> {
            &&& call_ensures(U::times, (unit, samples[i], window[i]), (#[trigger] buf[i]).0)
            &&& buf[i].1 == (Single { bits: ZERO })
        }
}

/// Whether `m` is the absolute value of the complex number `z`: the root of the sum of its
/// squared parts.
pub open spec fn is_magnitude<U: FloatUnit>(unit: &U, z: (Single, Single), m: Single) -> bool {
    exists|a: Single, b: Single, s: Single|
        {
            &&& #[trigger] call_ensures(U::times, (unit, z.0, z.0), a)
            &&& #[trigger] call_ensures(U::times, (unit, z.1, z.1), b)
            &&& #[trigger] call_ensures(U::plus, (unit, a, b), s)
            &&& call_ensures(U::root, (unit, s), m)
        }
}

/// Whether `m` is the magnitude of bin `k` of a transform.
pub open spec fn is_bin_magnitude<U: FloatUnit>(
    unit: &U,
    transformed: U::Spectrum,
    k: usize,
    m: Single,
) -> bool {
    exists|z: (Single, Single)|
        {
            &&& #[trigger] call_ensures(U::bin, (unit, &transformed, k), z)
            &&& is_magnitude(unit, z, m)
        }
}

/// Whether `buf` under the transform gives the magnitudes `mags`.
pub open spec fn transforms_to<U: FloatUnit>(
    unit: &U,
    buf: Vec<(Single, Single)>,
    mags: Seq<Single>,
) -> bool {
    exists|transformed: U::Spectrum|
        {
            &&& #[trigger] call_ensures(U::transform, (unit, buf), transformed)
            &&& forall|k: int|
                0 <= k < mags.len() ==> is_bin_magnitude(
                    unit,
                    transformed,
                    k as usize,
                    #[trigger] mags[k],
                )
        }
}

/// Whether `mags` are the magnitudes of the lower bins of one frame.
pub open spec fn are_magnitudes<U: FloatUnit>(
    unit: &U,
    samples: Seq<Single>,
    window: Seq<Single>,
    mags: Seq<Single>,
) -> bool {
    exists|buf: Vec<(Single, Single)>|
        {
            &&& is_weighed(unit, samples, window, buf@)
            &&& #[trigger] transforms_to(unit, buf, mags)
        }
}

/// The magnitudes of bin `k`, frame by frame.
pub open spec fn column(mags: Seq<Seq<Single>>, k: int) -> Seq<Single> {
    Seq::new(mags.len(), |j: int| mags[j][k])
}

/// An average, lifted to the smallest value that is told apart from silence.
pub open spec fn floored(v: Single) -> Single {
    if v.below(Single { bits: FLOOR }) {
        Single { bits: FLOOR }
    } else {
        v
    }
}

/// Whether `mean` is the average of `frames` magnitudes that add up to `total`.
pub open spec fn is_mean<U: FloatUnit>(
    unit: &U,
    total: Single,
    frames: u64,
    mean: Single,
) -> bool {
    exists|n: Single, v: Single|
        {
            &&& #[trigger] call_ensures(U::count, (unit, frames), n)
            &&& #[trigger] call_ensures(U::over, (unit, total, n), v)
            &&& mean == floored(v)
        }
}

/// The largest of `values` that is a number, or 0.
pub open spec fn largest(values: Seq<Single>) -> Single
    decreases values.len(),
{
    if values.len() == 0 {
        Single { bits: ZERO }
    } else {
        largest(values.drop_last()).larger(values.last())
    }
}

/// The average that stands for 0 dB.
pub open spec fn reference_level(means: Seq<Single>) -> Single {
    largest(means).larger(Single { bits: FLOOR })
}

/// Whether `d` is `v` in dB relative to `top`: `20 * log10(v / top)`.
pub open spec fn is_level<U: FloatUnit>(unit: &U, v: Single, top: Single, d: Single) -> bool {
    exists|ratio: Single, log: Single|
        {
            &&& #[trigger] call_ensures(U::over, (unit, v, top), ratio)
            &&& #[trigger] call_ensures(U::log_ten, (unit, ratio), log)
            &&& call_ensures(U::times, (unit, Single { bits: TWENTY }, log), d)
        }
}

/// Whether `f` is the frequency of bin `k`: `k * sr / n`.
pub open spec fn is_frequency<U: FloatUnit>(
    unit: &U,
    k: u64,
    sr: Single,
    n: u64,
    f: Single,
) -> bool {
    exists|ck: Single, p: Single, cn: Single|
        {
            &&& #[trigger] call_ensures(U::count, (unit, k), ck)
            &&& #[trigger] call_ensures(U::times, (unit, ck, sr), p)
            &&& #[trigger] call_ensures(U::count, (unit, n), cn)
            &&& call_ensures(U::over, (unit, p, cn), f)
        }
}

/// Whether `means` are the averages of the lower bins over all frames of `x`, where `window`
/// is the window, `mags` are the magnitudes of each frame and `totals` their sums.
pub open spec fn averages_by<U: FloatUnit>(
    unit: &U,
    x: Seq<Single>,
    n_fft: int,
    hop: int,
    window: Seq<Single>,
    mags: Seq<Seq<Single>>,
    totals: Seq<Single>,
    means: Seq<Single>,
) -> bool {
    &&& is_window(unit, n_fft, window)
    &&& mags.len() == frame_count(x.len() as int, n_fft, hop)
    &&& forall|j: int|
        0 <= j < mags.len() ==> {
            &&& (#[trigger] mags[j]).len() == bin_count(n_fft)
            &&& are_magnitudes(unit, frame(x, n_fft, hop, j), window, mags[j])
        }
    &&& totals.len() == bin_count(n_fft)
    &&& forall|k: int|
        0 <= k < totals.len() ==> sums_to(
            unit,
            Single { bits: ZERO },
            column(mags, k),
            #[trigger] totals[k],
        )
    &&& means.len() == bin_count(n_fft)
    &&& forall|k: int|
        0 <= k < means.len() ==> is_mean(
            unit,
            totals[k],
            mags.len() as u64,
            #[trigger] means[k],
        )
}

/// Whether `means` are the averages of the lower bins over all frames of `x`.
pub open spec fn are_averages<U: FloatUnit>(
    unit: &U,
    x: Seq<Single>,
    n_fft: int,
    hop: int,
    means: Seq<Single>,
) -> bool {
    exists|window: Seq<Single>, mags: Seq<Seq<Single>>, totals: Seq<Single>|
        averages_by(unit, x, n_fft, hop, window, mags, totals, means)
}

/// Whether `db` gives each of `means` relative to the largest.
pub open spec fn are_levels<U: FloatUnit>(
    unit: &U,
    means: Seq<Single>,
    db: Seq<Single>,
) -> bool {
    &&& db.len() == means.len()
    &&& forall|k: int|
        0 <= k < db.len() ==> is_level(
            unit,
            means[k],
            reference_level(means),
            #[trigger] db[k],
        )
}

/// Whether `freqs` are the frequencies of the lower bins.
pub open spec fn is_axis<U: FloatUnit>(
    unit: &U,
    sr: Single,
    n_fft: int,
    freqs: Seq<Single>,
) -> bool {
    &&& freqs.len() == bin_count(n_fft)
    &&& forall|k: int|
        0 <= k < freqs.len() ==> is_frequency(
            unit,
            k as u64,
            sr,
            n_fft as u64,
            #[trigger] freqs[k],
        )
}

/// Whether `freqs` and `db` are the averaged spectrum of `x`.
pub open spec fn is_spectrum<U: FloatUnit>(
    unit: &U,
    x: Seq<Single>,
    sr: Single,
    n_fft: int,
    hop: int,
    freqs: Seq<Single>,
    db: Seq<Single>,
) -> bool {
    &&& is_axis(unit, sr, n_fft, freqs)
    &&& exists|means: Seq<Single>|
        {
            &&& #[trigger] are_averages(unit, x, n_fft, hop, means)
            &&& are_levels(unit, means, db)
        }
}

fn hann_weight<U: FloatUnit>(unit: &U, i: usize, n: usize) -> (w: Single)
    ensures
        is_hann_weight(unit, i as u64, n as u64, w),
{
    let ci = unit.count(i as u64);
    let turn = unit.times(Single { bits: FULL_TURN }, ci);
    let cn = unit.count(n as u64);
    let angle = unit.over(turn, cn);
    let c = unit.cosine(angle);
    let h = unit.times(Single { bits: HALF }, c);
    unit.minus(Single { bits: HALF }, h)
}

fn hann_window<U: FloatUnit>(unit: &U, n: usize) -> (window: Vec<Single>)
    ensures
        is_window(unit, n as int, window@),
{
    let mut window: Vec<Single> = Vec::with_capacity(n);
    let mut i: usize = 0;
    while i < n
        invariant
            i <= n,
            window@.len() == i,
            forall|k: int|
                0 <= k < i ==> is_hann_weight(unit, k as u64, n as u64, #[trigger] window@[k]),
        decreases n - i,
    {
        window.push(hann_weight(unit, i, n));
        i += 1;
    }
    window
}

fn magnitude<U: FloatUnit>(unit: &U, z: (Single, Single)) -> (m: Single)
    ensures
        is_magnitude(unit, z, m),
{
    let a = unit.times(z.0, z.0);
    let b = unit.times(z.1, z.1);
    let s = unit.plus(a, b);
    unit.root(s)
}

/// The magnitudes of the lower bins of the frame that starts at `pos`.
fn frame_magnitudes<U: FloatUnit>(
    unit: &U,
    x: &[Single],
    pos: usize,
    window: &Vec<Single>,
    n_bins: usize,
) -> (mags: Vec<Single>)
    requires
        pos + window@.len() <= x@.len(),
    ensures
        mags@.len() == n_bins,
        are_magnitudes(unit, x@.subrange(pos as int, pos + window@.len()), window@, mags@),
{
    let ghost samples = x@.subrange(pos as int, pos + window@.len());
    let len: usize = x.len();
    let mut buf: Vec<(Single, Single)> = Vec::with_capacity(window.len());
    let mut i: usize = 0;
    while i < window.len()
        invariant
            i <= window@.len(),
            buf@.len() == i,
            len == x@.len(),
            pos + window@.len() <= len,
            samples == x@.subrange(pos as int, pos + window@.len()),
            forall|k: int|
                0 <= k < i ==> {
                    &&& call_ensures(
                        U::times,
                        (unit, samples[k], window@[k]),
                        (#[trigger] buf@[k]).0,
                    )
                    &&& buf@[k].1 == (Single { bits: ZERO })
                },
        decreases window@.len() - i,
    {
        let re = unit.times(x[pos + i], window[i]);
        buf.push((re, Single { bits: ZERO }));
        i += 1;
    }
    let ghost weighed = buf;
    let transformed = unit.transform(buf);
    let mut mags: Vec<Single> = Vec::with_capacity(n_bins);
    let mut k: usize = 0;
    while k < n_bins
        invariant
            k <= n_bins,
            mags@.len() == k,
            forall|b: int|
                0 <= b < k ==> is_bin_magnitude(unit, transformed, b as usize, #[trigger] mags@[b]),
        decreases n_bins - k,
    {
        let z = unit.bin(&transformed, k);
        let m = magnitude(unit, z);
        assert(is_bin_magnitude(unit, transformed, k, m));
        mags.push(m);
        k += 1;
    }
    assert(is_weighed(unit, samples, window@, weighed@));
    assert(transforms_to(unit, weighed, mags@));
    mags
}

/// Adds the magnitudes of one more frame to the sums.
fn add_frame<U: FloatUnit>(
    unit: &U,
    acc: Vec<Single>,
    mags: &Vec<Single>,
    Ghost(earlier): Ghost<Seq<Seq<Single>>>,
) -> (sums: Vec<Single>)
    requires
        acc@.len() == mags@.len(),
        forall|k: int|
            0 <= k < acc@.len() ==> sums_to(
                unit,
                Single { bits: ZERO },
                column(earlier, k),
                #[trigger] acc@[k],
            ),
    ensures
        sums@.len() == acc@.len(),
        forall|k: int|
            0 <= k < sums@.len() ==> sums_to(
                unit,
                Single { bits: ZERO },
                column(earlier.push(mags@), k),
                #[trigger] sums@[k],
            ),
{
    let mut sums: Vec<Single> = Vec::with_capacity(acc.len());
    let mut k: usize = 0;
    while k < acc.len()
        invariant
            k <= acc@.len(),
            sums@.len() == k,
            acc@.len() == mags@.len(),
            forall|b: int|
                0 <= b < acc@.len() ==> sums_to(
                    unit,
                    Single { bits: ZERO },
                    column(earlier, b),
                    #[trigger] acc@[b],
                ),
            forall|b: int|
                0 <= b < k ==> sums_to(
                    unit,
                    Single { bits: ZERO },
                    column(earlier.push(mags@), b),
                    #[trigger] sums@[b],
                ),
        decreases acc@.len() - k,
    {
        let sum = unit.plus(acc[k], mags[k]);
        proof {
            let terms = column(earlier.push(mags@), k as int);
            assert(terms.drop_last() =~= column(earlier, k as int));
            assert(terms.last() == mags@[k as int]);
            assert(sums_to(unit, Single { bits: ZERO }, terms.drop_last(), acc@[k as int]));
            assert(call_ensures(U::plus, (unit, acc@[k as int], terms.last()), sum));
            assert(sums_to(unit, Single { bits: ZERO }, terms, sum));
        }
        sums.push(sum);
        k += 1;
    }
    sums
}

pub(crate) proof fn lemma_frame_count(span: int, hop: int, frames: int)
    requires
        hop > 0,
        frames > 0,
        (frames - 1) * hop <= span,
        span < frames * hop,
    ensures
        frames == span / hop + 1,
{
    assert(span / hop == frames - 1) by (nonlinear_arith)
        requires
            hop > 0,
            (frames - 1) * hop <= span,
            span < frames * hop,
    ;
}

/// The averages of the lower bins over all frames of a signal that fills at least one.
fn mean_magnitudes<U: FloatUnit>(unit: &U, x: &[Single], n_fft: usize, hop: usize) -> (means: Vec<
    Single,
>)
    requires
        n_fft > 0,
        hop > 0,
        x@.len() >= n_fft,
    ensures
        means@.len() == bin_count(n_fft as int),
        are_averages(unit, x@, n_fft as int, hop as int, means@),
{
    let window = hann_window(unit, n_fft);
    let n_bins: usize = n_fft / 2 + 1;
    let len: usize = x.len();
    let span: usize = len - n_fft;
    let ghost mut mags: Seq<Seq<Single>> = Seq::empty();
    let mut acc: Vec<Single> = Vec::with_capacity(n_bins);
    let mut k: usize = 0;
    while k < n_bins
        invariant
            k <= n_bins,
            acc@.len() == k,
            mags.len() == 0,
            forall|b: int|
                0 <= b < k ==> sums_to(
                    unit,
                    Single { bits: ZERO },
                    column(mags, b),
                    #[trigger] acc@[b],
                ),
        decreases n_bins - k,
    {
        acc.push(Single { bits: ZERO });
        k += 1;
    }
    let mut frames: usize = 0;
    let mut pos: usize = 0;
    let mut more = true;
    while more
        invariant
            hop > 0,
            n_fft > 0,
            len == x@.len(),
            span == len - n_fft,
            n_bins == bin_count(n_fft as int),
            is_window(unit, n_fft as int, window@),
            pos <= span,
            frames <= pos + 1,
            mags.len() == frames,
            more ==> pos == frames * hop && frames <= pos,
            !more ==> frames > 0 && pos == (frames - 1) * hop && span < frames * hop,
            acc@.len() == n_bins,
            forall|j: int|
                0 <= j < mags.len() ==> {
                    &&& (#[trigger] mags[j]).len() == n_bins
                    &&& are_magnitudes(
                        unit,
                        frame(x@, n_fft as int, hop as int, j),
                        window@,
                        mags[j],
                    )
                },
            forall|b: int|
                0 <= b < n_bins ==> sums_to(
                    unit,
                    Single { bits: ZERO },
                    column(mags, b),
                    #[trigger] acc@[b],
                ),
        decreases span - pos + (if more { 1int } else { 0 }),
    {
        let found = frame_magnitudes(unit, x, pos, &window, n_bins);
        acc = add_frame(unit, acc, &found, Ghost(mags));
        proof {
            mags = mags.push(found@);
            assert((frames + 1) * hop == frames * hop + hop) by (nonlinear_arith);
        }
        frames += 1;
        if span - pos < hop {
            more = false;
        } else {
            pos += hop;
        }
    }
    proof {
        lemma_frame_count(span as int, hop as int, frames as int);
    }
    let mut means: Vec<Single> = Vec::with_capacity(n_bins);
    let mut b: usize = 0;
    while b < n_bins
        invariant
            b <= n_bins,
            acc@.len() == n_bins,
            means@.len() == b,
            forall|c: int|
                0 <= c < b ==> is_mean(unit, acc@[c], frames as u64, #[trigger] means@[c]),
        decreases n_bins - b,
    {
        let n = unit.count(frames as u64);
        let v = unit.over(acc[b], n);
        let mean = if v.lt(Single { bits: FLOOR }) {
            Single { bits: FLOOR }
        } else {
            v
        };
        assert(is_mean(unit, acc@[b as int], frames as u64, mean));
        means.push(mean);
        b += 1;
    }
    assert(averages_by(
        unit,
        x@,
        n_fft as int,
        hop as int,
        window@,
        mags,
        acc@,
        means@,
    ));
    means
}

fn find_reference(means: &Vec<Single>) -> (top: Single)
    ensures
        top == reference_level(means@),
{
    let mut top = Single { bits: ZERO };
    let mut k: usize = 0;
    while k < means.len()
        invariant
            k <= means@.len(),
            top == largest(means@.take(k as int)),
        decreases means@.len() - k,
    {
        assert(means@.take(k + 1).drop_last() =~= means@.take(k as int));
        top = top.max(means[k]);
        k += 1;
    }
    assert(means@.take(k as int) =~= means@);
    top.max(Single { bits: FLOOR })
}

/// The averaged spectrum of `x`: the frequency of each bin in Hz, and its level in dB relative
/// to the largest.
pub fn mean_spectrum_db<U: FloatUnit>(
    unit: &U,
    x: &[Single],
    sr: Single,
    n_fft: usize,
    hop: usize,
) -> (r: Result<(Vec<Single>, Vec<Single>), SpectrumError>)
    requires
        n_fft > 0,
        hop > 0 || x@.len() < n_fft,
    ensures
        r is Err <==> x@.len() < n_fft,
        r matches Err(e) ==> e == SpectrumError::TooShort,
        r matches Ok((freqs, db)) ==> {
            &&& freqs@.len() == bin_count(n_fft as int)
            &&& db@.len() == bin_count(n_fft as int)
            &&& is_spectrum(unit, x@, sr, n_fft as int, hop as int, freqs@, db@)
        },
{
    if x.len() < n_fft {
        return Err(SpectrumError::TooShort);
    }
    let means = mean_magnitudes(unit, x, n_fft, hop);
    let top = find_reference(&means);
    let n_bins: usize = n_fft / 2 + 1;
    let mut freqs: Vec<Single> = Vec::with_capacity(n_bins);
    let mut db: Vec<Single> = Vec::with_capacity(n_bins);
    let mut k: usize = 0;
    while k < n_bins
        invariant
            k <= n_bins,
            means@.len() == n_bins,
            top == reference_level(means@),
            freqs@.len() == k,
            db@.len() == k,
            forall|b: int|
                0 <= b < k ==> is_frequency(
                    unit,
                    b as u64,
                    sr,
                    n_fft as u64,
                    #[trigger] freqs@[b],
                ),
            forall|b: int|
                0 <= b < k ==> is_level(
                    unit,
                    means@[b],
                    reference_level(means@),
                    #[trigger] db@[b],
                ),
        decreases n_bins - k,
    {
        let ck = unit.count(k as u64);
        let p = unit.times(ck, sr);
        let cn = unit.count(n_fft as u64);
        let f = unit.over(p, cn);
        assert(is_frequency(unit, k as u64, sr, n_fft as u64, f));
        let ratio = unit.over(means[k], top);
        let log = unit.log_ten(ratio);
        let d = unit.times(Single { bits: TWENTY }, log);
        assert(is_level(unit, means@[k as int], top, d));
        freqs.push(f);
        db.push(d);
        k += 1;
    }
    assert(are_levels(unit, means@, db@));
    Ok((freqs, db))
}

/// A signal that fills a frame has at least one, every frame lies within it, and no room for a
/// further frame is left.
pub proof fn law_frames_cover_signal(len: int, n_fft: int, hop: int, j: int)
    requires
        0 < n_fft <= len,
        hop > 0,
    ensures
        frame_count(len, n_fft, hop) >= 1,
        0 <= j < frame_count(len, n_fft, hop) ==> 0 <= j * hop && j * hop + n_fft <= len,
        frame_count(len, n_fft, hop) * hop + n_fft > len,
{
    let span = len - n_fft;
    let last = span / hop;
    assert(last >= 0 && last * hop <= span && span < (last + 1) * hop) by (nonlinear_arith)
        requires
            span >= 0,
            hop > 0,
            last == span / hop,
    ;
    if 0 <= j <= last {
        assert(0 <= j * hop && j * hop <= last * hop) by (nonlinear_arith)
            requires
                0 <= j <= last,
                hop > 0,
        ;
    }
}

/// No average that is a number lies below the floor.
pub proof fn law_averages_stay_above_floor<U: FloatUnit>(
    unit: &U,
    x: Seq<Single>,
    n_fft: int,
    hop: int,
    means: Seq<Single>,
    k: int,
)
    requires
        are_averages(unit, x, n_fft, hop, means),
        0 <= k < means.len(),
    ensures
        !means[k].below(Single { bits: FLOOR }),
{
    let (window, mags, totals) = choose|
        window: Seq<Single>,
        mags: Seq<Seq<Single>>,
        totals: Seq<Single>,
    |
        averages_by(unit, x, n_fft, hop, window, mags, totals, means);
    assert(is_mean(unit, totals[k], mags.len() as u64, means[k]));
}

/// No average lies above the one that stands for 0 dB, which is a number and not below the
/// floor.
pub proof fn law_reference_is_largest(means: Seq<Single>)
    ensures
        !reference_level(means).nan(),
        (Single { bits: FLOOR }).at_most(reference_level(means)),
        forall|k: int|
            0 <= k < means.len() && !(#[trigger] means[k]).nan() ==> means[k].at_most(
                reference_level(means),
            ),
{
    lemma_largest(means);
}

proof fn lemma_largest(values: Seq<Single>)
    ensures
        !largest(values).nan(),
        largest(values) == (Single { bits: ZERO }) || values.contains(largest(values)),
        forall|k: int|
            0 <= k < values.len() && !(#[trigger] values[k]).nan() ==> values[k].at_most(
                largest(values),
            ),
    decreases values.len(),
{
    if values.len() > 0 {
        let rest = values.drop_last();
        lemma_largest(rest);
        assert forall|k: int|
            0 <= k < values.len() && !(#[trigger] values[k]).nan() implies values[k].at_most(
            largest(values),
        ) by {
            if k < rest.len() {
                assert(rest[k] == values[k]);
            }
        }
        if rest.contains(largest(rest)) {
            let k = choose|k: int| 0 <= k < rest.len() && rest[k] == largest(rest);
            assert(values[k] == largest(rest));
        }
        assert(values[values.len() - 1] == values.last());
    }
}

/// Levels are relative to the loudest bin: as soon as one average is a number, some bin's
/// average is the reference itself, and its level is that of the reference against itself.
pub proof fn law_loudest_bin_is_the_reference<U: FloatUnit>(
    unit: &U,
    x: Seq<Single>,
    n_fft: int,
    hop: int,
    means: Seq<Single>,
    db: Seq<Single>,
    heard: int,
)
    requires
        are_averages(unit, x, n_fft, hop, means),
        are_levels(unit, means, db),
        0 <= heard < means.len(),
        !means[heard].nan(),
    ensures
        exists|k: int|
            {
                &&& 0 <= k < means.len()
                &&& #[trigger] means[k] == reference_level(means)
                &&& is_level(unit, reference_level(means), reference_level(means), db[k])
            },
{
    lemma_largest(means);
    law_averages_stay_above_floor(unit, x, n_fft, hop, means, heard);
    assert(means[heard].at_most(largest(means)));
    assert(means.contains(largest(means)));
    let k = choose|k: int| 0 <= k < means.len() && means[k] == largest(means);
    assert(reference_level(means) == largest(means));
    assert(is_level(unit, means[k], reference_level(means), db[k]));
}

/// Whether the levels that `unit` gives are at most 0 dB up to the reference, and 0 dB for the
/// reference itself, wherever both values are finite and not below the floor.
pub open spec fn levels_end_at_reference<U: FloatUnit>(unit: &U) -> bool {
    &&& forall|v: Single, top: Single, d: Single|
        (Single { bits: FLOOR }).at_most(v) && v.at_most(top) && top.finite()
            && #[trigger] is_level(unit, v, top, d) ==> d.at_most(Single { bits: ZERO })
    &&& forall|top: Single, d: Single|
        (Single { bits: FLOOR }).at_most(top) && top.finite() && #[trigger] is_level(
            unit,
            top,
            top,
            d,
        ) ==> !d.nan() && d.rank() == 0
}

/// No level lies above 0 dB, and the loudest bin has it.
pub proof fn law_loudest_bin_is_at_zero<U: FloatUnit>(
    unit: &U,
    x: Seq<Single>,
    n_fft: int,
    hop: int,
    means: Seq<Single>,
    db: Seq<Single>,
)
    requires
        levels_end_at_reference(unit),
        n_fft > 0,
        are_averages(unit, x, n_fft, hop, means),
        are_levels(unit, means, db),
        forall|k: int| 0 <= k < means.len() ==> (#[trigger] means[k]).finite(),
    ensures
        forall|k: int|
            0 <= k < db.len() ==> (#[trigger] db[k]).at_most(Single { bits: ZERO }),
        exists|k: int| 0 <= k < db.len() && !(#[trigger] db[k]).nan() && db[k].rank() == 0,
{
    let top = reference_level(means);
    assert(means.len() == bin_count(n_fft));
    assert(means[0].finite());
    law_reference_is_largest(means);
    law_loudest_bin_is_the_reference(unit, x, n_fft, hop, means, db, 0);
    let loudest = choose|k: int|
        {
            &&& 0 <= k < means.len()
            &&& #[trigger] means[k] == top
            &&& is_level(unit, top, top, db[k])
        };
    assert(db[loudest].rank() == 0);
    assert forall|k: int| 0 <= k < db.len() implies (#[trigger] db[k]).at_most(
        Single { bits: ZERO },
    ) by {
        law_averages_stay_above_floor(unit, x, n_fft, hop, means, k);
        assert(means[k].finite());
        assert(means[k].at_most(top));
        assert(is_level(unit, means[k], top, db[k]));
    }
}

} // verus!
