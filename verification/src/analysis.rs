//! What is known of an analyzed file.
use vstd::prelude::*;

use crate::determinacy::{
    law_peaks_are_determined, law_spectrum_is_determined, single_valued,
};
use crate::peaks::{apart, are_peaks, find_peaks, law_peak_count, law_peaks_keep_distance};
use crate::single::{Double, Single};
use crate::spectrum::{bin_count, is_spectrum, mean_spectrum_db, SpectrumError};
use crate::unit::FloatUnit;
use crate::value::{is_number, law_named_patterns, law_patterns_compare_as_numbers, value};

verus! {

/// The pattern of 24000: nothing above it, in Hz, is plotted.
pub const PLOT_LIMIT: u32 = 0x46bb_8000;

/// The pattern of 50: listed peaks are that many Hz apart.
pub const PEAK_DISTANCE: u32 = 0x4248_0000;

/// How many peaks are listed.
pub const PEAK_COUNT: usize = 12;

/// What a file is, for display.
#[derive(Clone, Debug)]
pub struct FileInfo {
    /// Where the file is.
    pub path: String,
    /// The extension of the file's name.
    pub container: String,
    /// What the codec is called, such as mp3 or flac.
    pub codec: String,
    /// The sample rate that the analysis used.
    pub sample_rate: u32,
    /// The number of channels that the analysis used.
    pub channels: usize,
    pub duration_s: Double,
    pub bitrate_kbps: Option<u32>,
    pub tags: Vec<(String, String)>,
    pub size_mb: Double,
}

/// An analyzed file.
#[derive(Clone, Debug)]
pub struct Analysis {
    pub info: FileInfo,
    /// The frequency of each bin.
    pub freqs_hz: Vec<Single>,
    /// The level of each bin, relative to the largest.
    pub mean_db: Vec<Single>,
    /// Frequency and level of the listed peaks.
    pub peaks: Vec<(Single, Single)>,
    /// Frequency and level of the plotted bins.
    pub plot_xy: Vec<(Single, Single)>,
}

/// What a codec is called: by its short name, or by its number `id` where it has none.
pub fn codec_name(short_name: Option<String>, id: String) -> (name: String)
    ensures
        name == match short_name {
            Some(short_name) => short_name,
            None => id,
        },
{
    match short_name {
        Some(short_name) => short_name,
        None => id,
    }
}

/// Describes a file whose samples were decoded to mono at `target_sr`.
pub fn describe_file(
    path: String,
    extension: Option<String>,
    codec: String,
    target_sr: u32,
    duration_s: Double,
    tags: Vec<(String, String)>,
    size_mb: Double,
) -> (info: FileInfo)
    ensures
        info.path == path,
        extension matches Some(extension) ==> info.container == extension,
        extension is None ==> info.container@ == "unknown"@,
        info.codec == codec,
        info.sample_rate == target_sr,
        info.channels == 1,
        info.duration_s == duration_s,
        info.bitrate_kbps is None,
        info.tags == tags,
        info.size_mb == size_mb,
{
    let container = match extension {
        Some(extension) => extension,
        None => "unknown".to_string(),
    };
    FileInfo {
        path,
        container,
        codec,
        sample_rate: target_sr,
        channels: 1,
        duration_s,
        bitrate_kbps: None,
        tags,
        size_mb,
    }
}

/// A codec goes by its short name, whatever its number is, and by its number only where it has
/// no name.
pub proof fn law_codec_goes_by_its_name(short_name: Option<String>, id: String, name: String)
    requires
        call_ensures(codec_name, (short_name, id), name),
    ensures
        short_name matches Some(short_name) ==> name@ == short_name@,
        short_name is None ==> name@ == id@,
{
}

/// A description holds what is known of the file as it was given, and what the analysis used:
/// the common sample rate and one channel. A file without an extension is of an unknown
/// container.
pub proof fn law_description_is_of_the_file(
    path: String,
    extension: Option<String>,
    codec: String,
    target_sr: u32,
    duration_s: Double,
    tags: Vec<(String, String)>,
    size_mb: Double,
    info: FileInfo,
)
    requires
        call_ensures(
            describe_file,
            (path, extension, codec, target_sr, duration_s, tags, size_mb),
            info,
        ),
    ensures
        info.path@ == path@,
        info.container@ == match extension {
            Some(extension) => extension@,
            None => "unknown"@,
        },
        info.codec@ == codec@,
        info.sample_rate == target_sr,
        info.channels == 1,
        info.duration_s == duration_s,
        info.bitrate_kbps is None,
        info.tags@ == tags@,
        info.size_mb == size_mb,
{
}

/// The bins of a spectrum, each with its frequency and level.
pub open spec fn pairs(freqs: Seq<Single>, db: Seq<Single>) -> Seq<(Single, Single)> {
    Seq::new(
        if freqs.len() <= db.len() {
            freqs.len()
        } else {
            db.len()
        },
        |i: int| (freqs[i], db[i]),
    )
}

/// The bins whose frequency lies within the plot.
pub open spec fn plotted(freqs: Seq<Single>, db: Seq<Single>) -> Seq<(Single, Single)> {
    pairs(freqs, db).filter(|p: (Single, Single)| p.0.at_most(Single { bits: PLOT_LIMIT }))
}

/// The points of a spectrum that are plotted.
pub fn plot_points(freqs: &[Single], db: &[Single]) -> (points: Vec<(Single, Single)>)
    ensures
        points@ == plotted(freqs@, db@),
{
    let mut points: Vec<(Single, Single)> = Vec::new();
    let ghost all = pairs(freqs@, db@);
    let ghost within = |p: (Single, Single)| p.0.at_most(Single { bits: PLOT_LIMIT });
    let mut i: usize = 0;
    proof {
        reveal(Seq::filter);
        assert(all.take(0) =~= Seq::empty());
    }
    while i < freqs.len() && i < db.len()
        invariant
            i <= all.len(),
            all == pairs(freqs@, db@),
            within == (|p: (Single, Single)| p.0.at_most(Single { bits: PLOT_LIMIT })),
            points@ == all.take(i as int).filter(within),
        decreases freqs@.len() - i,
    {
        proof {
            reveal(Seq::filter);
            assert(all.take(i + 1).drop_last() =~= all.take(i as int));
            assert(all.take(i + 1).last() == (freqs@[i as int], db@[i as int]));
        }
        if freqs[i].le(Single { bits: PLOT_LIMIT }) {
            points.push((freqs[i], db[i]));
        }
        i += 1;
    }
    assert(all.take(i as int) =~= all);
    points
}

/// A point is plotted exactly if it is a bin of the spectrum that does not lie above the limit
/// of the plot.
pub proof fn law_plot_ends_at_limit(freqs: Seq<Single>, db: Seq<Single>, p: (Single, Single))
    ensures
        plotted(freqs, db).contains(p) <==> pairs(freqs, db).contains(p) && p.0.at_most(
            Single { bits: PLOT_LIMIT },
        ),
{
    let within = |p: (Single, Single)| p.0.at_most(Single { bits: PLOT_LIMIT });
    let all = pairs(freqs, db);
    if plotted(freqs, db).contains(p) {
        all.lemma_filter_contains_rev(within, p);
        let i = choose|i: int| 0 <= i < plotted(freqs, db).len() && plotted(freqs, db)[i] == p;
        assert(within(all.filter(within)[i]));
    }
    if all.contains(p) && within(p) {
        let i = choose|i: int| 0 <= i < all.len() && all[i] == p;
        all.lemma_filter_contains(within, i);
    }
}

/// Whether `points` are the points of a spectrum, out of its first `count` bins, from 0 up to
/// 24 kHz: `at` gives the places of the bins, and no place is left out.
pub open spec fn plots_bins(
    freqs: Seq<Single>,
    db: Seq<Single>,
    count: int,
    points: Seq<(Single, Single)>,
    at: Seq<int>,
) -> bool {
    &&& at.len() == points.len()
    &&& forall|t: int|
        0 <= t < at.len() ==> {
            &&& 0 <= #[trigger] at[t] < count
            &&& points[t] == (freqs[at[t]], db[at[t]])
        }
    &&& forall|s: int, t: int| 0 <= s < t < at.len() ==> at[s] < at[t]
    &&& forall|i: int|
        0 <= i < count ==> (at.contains(i) <==> is_number(#[trigger] freqs[i]) && value(freqs[i])
            <= 24000 as real)
}

/// Which bins the points stand for.
pub(crate) proof fn lemma_plots_bins(freqs: Seq<Single>, db: Seq<Single>, count: int) -> (at: Seq<int>)
    requires
        0 <= count <= freqs.len(),
        count <= db.len(),
    ensures
        plots_bins(
            freqs,
            db,
            count,
            pairs(freqs, db).take(count).filter(
                |p: (Single, Single)| p.0.at_most(Single { bits: PLOT_LIMIT }),
            ),
            at,
        ),
    decreases count,
{
    reveal(Seq::filter);
    let within = |p: (Single, Single)| p.0.at_most(Single { bits: PLOT_LIMIT });
    let all = pairs(freqs, db).take(count);
    if count == 0 {
        Seq::empty()
    } else {
        let last = count - 1;
        let before = lemma_plots_bins(freqs, db, last);
        assert(all.drop_last() =~= pairs(freqs, db).take(last));
        assert(all.last() == (freqs[last], db[last]));
        law_named_patterns();
        law_patterns_compare_as_numbers(freqs[last], Single { bits: PLOT_LIMIT });
        law_patterns_compare_as_numbers(Single { bits: PLOT_LIMIT }, freqs[last]);
        let at = if within(all.last()) {
            before.push(last)
        } else {
            before
        };
        assert forall|i: int| 0 <= i < count implies (at.contains(i) <==> is_number(
            #[trigger] freqs[i],
        ) && value(freqs[i]) <= 24000 as real) by {
            if before.contains(i) {
                let t = choose|t: int| 0 <= t < before.len() && before[t] == i;
                assert(at[t] == i);
            }
            if at.contains(i) {
                let t = choose|t: int| 0 <= t < at.len() && at[t] == i;
                if t < before.len() {
                    assert(before[t] == i);
                }
            }
            if i == last && within(all.last()) {
                assert(at[before.len() as int] == i);
            }
        }
        at
    }
}

/// Every bin from 0 up to 24 kHz is plotted, with its frequency and level, and no other; the
/// points stand in the order of the bins.
pub proof fn law_every_bin_up_to_the_limit_is_plotted(
    freqs: &[Single],
    db: &[Single],
    count: int,
    points: Vec<(Single, Single)>,
)
    requires
        count <= freqs@.len(),
        count <= db@.len(),
        count == freqs@.len() || count == db@.len(),
        call_ensures(plot_points, (freqs, db), points),
    ensures
        exists|at: Seq<int>| #[trigger] plots_bins(freqs@, db@, count, points@, at),
{
    let at = lemma_plots_bins(freqs@, db@, count);
    assert(pairs(freqs@, db@).take(count) =~= pairs(freqs@, db@));
    assert(plots_bins(freqs@, db@, count, points@, at));
}

/// Whether `a` is the analysis of `mono`, a signal of rate `target_sr`.
pub open spec fn is_analysis<U: FloatUnit>(
    unit: &U,
    mono: Seq<Single>,
    target_sr: u32,
    n_fft: usize,
    hop: usize,
    a: Analysis,
) -> bool {
    &&& exists|sr: Single|
        {
            &&& #[trigger] call_ensures(U::count, (unit, target_sr as u64), sr)
            &&& is_spectrum(unit, mono, sr, n_fft as int, hop as int, a.freqs_hz@, a.mean_db@)
        }
    &&& are_peaks(
        unit,
        a.freqs_hz@,
        a.mean_db@,
        PEAK_COUNT,
        Single { bits: PEAK_DISTANCE },
        a.peaks@,
    )
    &&& a.plot_xy@ == plotted(a.freqs_hz@, a.mean_db@)
}

/// An analysis lists few peaks, and any two of them keep their distance.
pub proof fn law_listed_peaks_are_few_and_apart<U: FloatUnit>(
    unit: &U,
    mono: Seq<Single>,
    target_sr: u32,
    n_fft: usize,
    hop: usize,
    a: Analysis,
    earlier: int,
    later: int,
)
    requires
        is_analysis(unit, mono, target_sr, n_fft, hop, a),
    ensures
        a.peaks@.len() <= PEAK_COUNT,
        0 <= earlier < later < a.peaks@.len() ==> apart(
            unit,
            a.peaks@[later].0,
            a.peaks@[earlier].0,
            Single { bits: PEAK_DISTANCE },
        ),
{
    let gap = Single { bits: PEAK_DISTANCE };
    let (freqs, db) = (a.freqs_hz@, a.mean_db@);
    law_peak_count(unit, freqs, db, PEAK_COUNT, gap, a.peaks@);
    if 0 <= earlier < later < a.peaks@.len() {
        law_peaks_keep_distance(unit, freqs, db, PEAK_COUNT, gap, a.peaks@, earlier, later);
    }
}

/// Over a unit that answers each question in one way, an analysis is determined by the signal
/// and the settings.
pub proof fn law_analysis_is_determined<U: FloatUnit>(
    unit: &U,
    mono: Seq<Single>,
    target_sr: u32,
    n_fft: usize,
    hop: usize,
    a: Analysis,
    b: Analysis,
)
    requires
        single_valued(unit),
        is_analysis(unit, mono, target_sr, n_fft, hop, a),
        is_analysis(unit, mono, target_sr, n_fft, hop, b),
    ensures
        a.freqs_hz@ == b.freqs_hz@,
        a.mean_db@ == b.mean_db@,
        a.peaks@ == b.peaks@,
        a.plot_xy@ == b.plot_xy@,
{
    let sr = choose|sr: Single|
        {
            &&& #[trigger] call_ensures(U::count, (unit, target_sr as u64), sr)
            &&& is_spectrum(unit, mono, sr, n_fft as int, hop as int, a.freqs_hz@, a.mean_db@)
        };
    law_spectrum_is_determined(
        unit,
        mono,
        sr,
        n_fft as int,
        hop as int,
        (a.freqs_hz@, a.mean_db@),
        (b.freqs_hz@, b.mean_db@),
    );
    law_peaks_are_determined(
        unit,
        a.freqs_hz@,
        a.mean_db@,
        PEAK_COUNT,
        Single { bits: PEAK_DISTANCE },
        a.peaks@,
        b.peaks@,
    );
}

/// Analyzes a decoded file: its averaged spectrum, the points to plot and the peaks to list.
pub fn analyze_samples<U: FloatUnit>(
    unit: &U,
    info: FileInfo,
    mono: &[Single],
    target_sr: u32,
    n_fft: usize,
    hop: usize,
) -> (r: Result<Analysis, SpectrumError>)
    requires
        n_fft > 0,
        hop > 0 || mono@.len() < n_fft,
    ensures
        r is Err <==> mono@.len() < n_fft,
        r matches Err(e) ==> e == SpectrumError::TooShort,
        r matches Ok(a) ==> {
            &&& a.info == info
            &&& a.freqs_hz@.len() == bin_count(n_fft as int)
            &&& a.mean_db@.len() == bin_count(n_fft as int)
            &&& is_analysis(unit, mono@, target_sr, n_fft, hop, a)
        },
{
    let sr = unit.count(target_sr as u64);
    match mean_spectrum_db(unit, mono, sr, n_fft, hop) {
        Err(e) => Err(e),
        Ok((freqs_hz, mean_db)) => {
            let plot_xy = plot_points(freqs_hz.as_slice(), mean_db.as_slice());
            let peaks = find_peaks(
                unit,
                freqs_hz.as_slice(),
                mean_db.as_slice(),
                PEAK_COUNT,
                Single { bits: PEAK_DISTANCE },
            );
            Ok(Analysis { info, freqs_hz, mean_db, peaks, plot_xy })
        },
    }
}

/// Why a file has no analysis. `E` tells why it could not be decoded.
#[derive(Debug)]
pub enum AnalysisError<E> {
    Decoding(E),
    Spectrum(SpectrumError),
}

/// Analyzes a file from what decoding it gave; an error of the decoding is passed on.
pub fn analyze_file<U: FloatUnit, E>(
    unit: &U,
    decoded: Result<(FileInfo, Vec<Single>), E>,
    target_sr: u32,
    n_fft: usize,
    hop: usize,
) -> (r: Result<Analysis, AnalysisError<E>>)
    requires
        decoded matches Ok((_, mono)) ==> n_fft > 0 && (hop > 0 || mono@.len() < n_fft),
    ensures
        match decoded {
            Err(e) => r == Err::<Analysis, AnalysisError<E>>(AnalysisError::Decoding(e)),
            Ok((info, mono)) => match r {
                Err(e) => mono@.len() < n_fft && e == AnalysisError::<E>::Spectrum(
                    SpectrumError::TooShort,
                ),
                Ok(a) => {
                    &&& mono@.len() >= n_fft
                    &&& a.info == info
                    &&& a.freqs_hz@.len() == bin_count(n_fft as int)
                    &&& a.mean_db@.len() == bin_count(n_fft as int)
                    &&& is_analysis(unit, mono@, target_sr, n_fft, hop, a)
                },
            },
        },
{
    match decoded {
        Err(e) => Err(AnalysisError::Decoding(e)),
        Ok((info, mono)) => {
            match analyze_samples(unit, info, mono.as_slice(), target_sr, n_fft, hop) {
                Ok(a) => Ok(a),
                Err(e) => Err(AnalysisError::Spectrum(e)),
            }
        },
    }
}

} // verus!
