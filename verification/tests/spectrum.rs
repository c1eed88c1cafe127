//! Spectra, peaks and plots, against the same formulas on machine floats.
use std::cell::RefCell;
use std::sync::Arc;

use rustfft::num_complex::Complex32;
use rustfft::{Fft, FftPlanner};
use spectrum_compare::analysis::{
    analyze_file, analyze_samples, describe_file, plot_points, AnalysisError, FileInfo,
};
use spectrum_compare::measures::{file_size_mb, sample_limit, span, track_duration};
use spectrum_compare::mono::mono_from_f32;
use spectrum_compare::peaks::find_peaks;
use spectrum_compare::ranking::rank_maxima;
use spectrum_compare::single::{Double, Single};
use spectrum_compare::spectrum::{mean_spectrum_db, SpectrumError};
use spectrum_compare::unit::FloatUnit;

struct Host {
    fft: Arc<dyn Fft<f32>>,
    frames: RefCell<Vec<Vec<(f32, f32)>>>,
}

fn host(n_fft: usize) -> Host {
    Host { fft: FftPlanner::<f32>::new().plan_fft_forward(n_fft), frames: RefCell::new(vec![]) }
}

fn f(s: Single) -> f32 {
    f32::from_bits(s.bits)
}

fn s(x: f32) -> Single {
    Single { bits: x.to_bits() }
}

fn w(d: Double) -> f64 {
    f64::from_bits(d.bits)
}

fn d(x: f64) -> Double {
    Double { bits: x.to_bits() }
}

impl FloatUnit for Host {
    type Spectrum = Vec<Complex32>;

    fn count(&self, n: u64) -> Single {
        s(n as f32)
    }
    fn plus(&self, a: Single, b: Single) -> Single {
        s(f(a) + f(b))
    }
    fn minus(&self, a: Single, b: Single) -> Single {
        s(f(a) - f(b))
    }
    fn times(&self, a: Single, b: Single) -> Single {
        s(f(a) * f(b))
    }
    fn over(&self, a: Single, b: Single) -> Single {
        s(f(a) / f(b))
    }
    fn root(&self, a: Single) -> Single {
        s(f(a).sqrt())
    }
    fn cosine(&self, a: Single) -> Single {
        s(f(a).cos())
    }
    fn log_ten(&self, a: Single) -> Single {
        s(f(a).log10())
    }
    fn transform(&self, frame: Vec<(Single, Single)>) -> Vec<Complex32> {
        self.frames.borrow_mut().push(frame.iter().map(|z| (f(z.0), f(z.1))).collect());
        let mut buf: Vec<Complex32> =
            frame.iter().map(|z| Complex32::new(f(z.0), f(z.1))).collect();
        self.fft.process(&mut buf);
        buf
    }
    fn bin(&self, spectrum: &Vec<Complex32>, k: usize) -> (Single, Single) {
        (s(spectrum[k].re), s(spectrum[k].im))
    }
    fn wide_count(&self, n: u64) -> Double {
        d(n as f64)
    }
    fn wide_plus(&self, a: Double, b: Double) -> Double {
        d(w(a) + w(b))
    }
    fn wide_times(&self, a: Double, b: Double) -> Double {
        d(w(a) * w(b))
    }
    fn wide_over(&self, a: Double, b: Double) -> Double {
        d(w(a) / w(b))
    }
    fn wide_floor(&self, a: Double) -> usize {
        w(a) as usize
    }
    fn text(&self, a: Single, digits: usize) -> String {
        format!("{:.*}", digits, f(a))
    }
    fn wide_text(&self, a: Double, digits: usize) -> String {
        format!("{:.*}", digits, w(a))
    }
}

fn singles(x: &[f32]) -> Vec<Single> {
    x.iter().map(|v| s(*v)).collect()
}

fn floats(x: &[Single]) -> Vec<f32> {
    x.iter().map(|v| f(*v)).collect()
}

fn noise(n: usize, mut seed: u32) -> Vec<f32> {
    (0..n)
        .map(|_| {
            seed = seed.wrapping_mul(1664525).wrapping_add(1013904223);
            (seed >> 8) as f32 / 8388608.0 - 1.0
        })
        .collect()
}

fn expected_spectrum(x: &[f32], sr: f32, n_fft: usize, hop: usize) -> (Vec<f32>, Vec<f32>) {
    let fft = FftPlanner::<f32>::new().plan_fft_forward(n_fft);
    let window: Vec<f32> = (0..n_fft)
        .map(|i| 0.5 - 0.5 * ((2.0 * std::f32::consts::PI * i as f32) / (n_fft as f32)).cos())
        .collect();
    let n_bins = n_fft / 2 + 1;
    let mut acc = vec![0.0f32; n_bins];
    let mut frames = 0;
    let mut pos = 0;
    while pos + n_fft <= x.len() {
        let mut buf: Vec<Complex32> =
            (0..n_fft).map(|i| Complex32::new(x[pos + i] * window[i], 0.0)).collect();
        fft.process(&mut buf);
        for k in 0..n_bins {
            acc[k] += (buf[k].re * buf[k].re + buf[k].im * buf[k].im).sqrt();
        }
        frames += 1;
        pos += hop;
    }
    for v in acc.iter_mut() {
        *v /= frames as f32;
        if *v < 1e-12 {
            *v = 1e-12;
        }
    }
    let max = acc.iter().cloned().fold(0.0f32, f32::max).max(1e-12);
    let freqs = (0..n_bins).map(|k| (k as f32) * sr / (n_fft as f32)).collect();
    let db = acc.iter().map(|v| 20.0 * (v / max).log10()).collect();
    (freqs, db)
}

fn expected_peaks(freqs: &[f32], db: &[f32], top_n: usize, gap: f32) -> Vec<(f32, f32)> {
    let mut candidates = Vec::new();
    for i in 1..db.len().saturating_sub(1) {
        if db[i] > db[i - 1] && db[i] > db[i + 1] {
            candidates.push((freqs[i], db[i]));
        }
    }
    candidates.sort_by(|a: &(f32, f32), b| {
        b.1.partial_cmp(&a.1).unwrap_or(std::cmp::Ordering::Equal)
    });
    let mut picked: Vec<(f32, f32)> = Vec::new();
    for (f, d) in candidates {
        if picked.iter().any(|p| (f - p.0).abs() < gap) {
            continue;
        }
        picked.push((f, d));
        if picked.len() >= top_n {
            break;
        }
    }
    picked
}

fn bits(x: &[f32]) -> Vec<u32> {
    x.iter().map(|v| v.to_bits()).collect()
}

#[test]
fn spectrum_matches_the_formulas_bit_for_bit() {
    for (len, n_fft, hop) in
        [(64, 64, 1), (1000, 64, 16), (1000, 64, 100), (777, 100, 33), (5, 1, 1), (65, 64, 64)]
    {
        let x = noise(len, 7 + len as u32);
        let unit = host(n_fft);
        let (freqs, db) =
            mean_spectrum_db(&unit, &singles(&x), s(48000.0), n_fft, hop).ok().unwrap();
        let (want_freqs, want_db) = expected_spectrum(&x, 48000.0, n_fft, hop);
        assert_eq!(bits(&floats(&freqs)), bits(&want_freqs));
        assert_eq!(bits(&floats(&db)), bits(&want_db));
        assert_eq!(freqs.len(), n_fft / 2 + 1);
        assert_eq!(unit.frames.borrow().len(), (len - n_fft) / hop + 1);
    }
}

#[test]
fn short_signal_has_no_spectrum() {
    let unit = host(64);
    let r = mean_spectrum_db(&unit, &singles(&noise(63, 1)), s(48000.0), 64, 16);
    assert_eq!(r.err(), Some(SpectrumError::TooShort));
    assert_eq!(
        SpectrumError::TooShort.message(),
        "audio too short for FFT (need >= n_fft samples)"
    );
    assert!(mean_spectrum_db(&unit, &singles(&noise(64, 1)), s(48000.0), 64, 16).is_ok());
    // A signal that is too short is refused whatever the hop.
    let r = mean_spectrum_db(&unit, &singles(&noise(63, 1)), s(48000.0), 64, 0);
    assert_eq!(r.err(), Some(SpectrumError::TooShort));
}

#[test]
fn huge_hop_gives_one_frame() {
    let unit = host(8);
    assert!(mean_spectrum_db(&unit, &singles(&noise(64, 1)), s(8.0), 8, usize::MAX).is_ok());
    assert_eq!(unit.frames.borrow().len(), 1);
}

#[test]
fn frames_are_windowed_and_real() {
    let unit = host(4);
    let x = [1.0f32, 2.0, 4.0, 8.0, 16.0, 32.0];
    mean_spectrum_db(&unit, &singles(&x), s(4.0), 4, 2).ok().unwrap();
    let frames = unit.frames.borrow();
    assert_eq!(frames.len(), 2);
    assert_eq!(frames[0][2], (4.0, 0.0));
    assert_eq!(frames[1][2], (16.0, 0.0));
    assert_eq!(frames[0][0], (0.0, 0.0));
    assert!(frames.iter().flatten().all(|z| z.1.to_bits() == 0));
}

#[test]
fn loudest_bin_is_zero_db() {
    let sr = 1024.0f32;
    let x: Vec<f32> =
        (0..2048).map(|i| (2.0 * std::f32::consts::PI * 128.0 * i as f32 / sr).sin()).collect();
    let unit = host(256);
    let (freqs, db) = mean_spectrum_db(&unit, &singles(&x), s(sr), 256, 64).ok().unwrap();
    let db = floats(&db);
    assert_eq!(db[32], 0.0);
    assert_eq!(f(freqs[32]), 128.0);
    assert!(db.iter().all(|v| *v <= 0.0));
}

#[test]
fn silence_lies_at_the_floor() {
    let unit = host(16);
    let (_, db) = mean_spectrum_db(&unit, &singles(&[0.0; 32]), s(16.0), 16, 16).ok().unwrap();
    assert!(floats(&db).iter().all(|v| *v == 0.0));
}

#[test]
fn peaks_match_the_walk_on_values() {
    for seed in 0..40u32 {
        let n = 3 + (seed as usize * 7) % 120;
        let unit = host(1);
        // Coarse levels, so that many are equal.
        let mut db: Vec<f32> = noise(n, seed).iter().map(|v| (v * 6.0).round()).collect();
        if seed % 5 == 0 {
            db[n / 2] = f32::NAN;
        }
        let freqs: Vec<f32> = (0..n).map(|k| k as f32 * 11.7).collect();
        for top_n in [0usize, 1, 3, 12, 1000] {
            for gap in [0.0f32, 20.0, 50.0, f32::NAN, f32::INFINITY] {
                let got = find_peaks(&unit, &singles(&freqs), &singles(&db), top_n, s(gap));
                let got: Vec<(f32, f32)> = got.iter().map(|p| (f(p.0), f(p.1))).collect();
                assert_eq!(got, expected_peaks(&freqs, &db, top_n, gap));
            }
        }
    }
}

#[test]
fn peaks_are_loudest_first_and_apart() {
    let unit = host(1);
    let freqs: Vec<f32> = (0..9).map(|k| k as f32 * 30.0).collect();
    let db = [-50.0f32, -10.0, -40.0, -5.0, -60.0, -7.0, -30.0, -5.0, -80.0];
    let got = find_peaks(&unit, &singles(&freqs), &singles(&db), 12, s(70.0));
    let got: Vec<(f32, f32)> = got.iter().map(|p| (f(p.0), f(p.1))).collect();
    // The maxima at 30 and 150 Hz are too close to the one at 90 Hz.
    assert_eq!(got, vec![(90.0, -5.0), (210.0, -5.0)]);
    assert_eq!(rank_maxima(&singles(&db)), vec![3, 7, 5, 1]);
}

#[test]
fn asking_for_no_peak_gives_one() {
    let unit = host(1);
    let freqs = singles(&[0.0, 1.0, 2.0, 3.0, 4.0]);
    let db = singles(&[0.0, 2.0, 0.0, 1.0, 0.0]);
    let got = find_peaks(&unit, &freqs, &db, 0, s(0.5));
    assert_eq!(got, vec![(s(1.0), s(2.0))]);
}

#[test]
fn flat_or_short_spectrum_has_no_peak() {
    let unit = host(1);
    for db in [vec![], vec![1.0f32], vec![1.0, 2.0], vec![3.0, 3.0, 3.0, 3.0], vec![1.0, 2.0, 3.0]] {
        let freqs: Vec<f32> = (0..db.len()).map(|k| k as f32).collect();
        assert!(find_peaks(&unit, &singles(&freqs), &singles(&db), 12, s(50.0)).is_empty());
    }
}

#[test]
fn list_stops_when_it_is_full() {
    let unit = host(1);
    let freqs = singles(&[0.0, 100.0, 200.0, 300.0, 400.0, 500.0, 600.0]);
    let db = singles(&[0.0, 3.0, 0.0, 2.0, 0.0, 1.0, 0.0]);
    let got = find_peaks(&unit, &freqs, &db, 2, s(50.0));
    assert_eq!(got, vec![(s(100.0), s(3.0)), (s(300.0), s(2.0))]);
}

#[test]
fn plot_ends_at_24_khz() {
    let freqs = singles(&[0.0, 23999.0, 24000.0, 24000.002, 30000.0, f32::NAN]);
    let db = singles(&[-1.0, -2.0, -3.0, -4.0, -5.0, -6.0, -7.0]);
    assert_eq!(
        plot_points(&freqs, &db),
        vec![(s(0.0), s(-1.0)), (s(23999.0), s(-2.0)), (s(24000.0), s(-3.0))]
    );
    assert_eq!(plot_points(&freqs, &db[..1]).len(), 1);
}

#[test]
fn mono_is_the_channel_average() {
    let unit = host(1);
    let left = singles(&[1.0, -1.0, 0.5, 9.0]);
    let right = singles(&[3.0, 1.0, 0.25, 9.0]);
    let mono = mono_from_f32(&unit, &vec![left.clone(), right], 3);
    assert_eq!(floats(&mono), vec![2.0, 0.0, 0.375]);
    assert_eq!(mono_from_f32(&unit, &vec![left.clone()], 4), left);
    let none = mono_from_f32(&unit, &vec![], 2);
    assert!(none.len() == 2 && f(none[0]).is_nan());
}

#[test]
fn duration_comes_from_frames_and_time_base() {
    let unit = host(1);
    assert_eq!(w(track_duration(&unit, Some(12_345), Some((1, 320)))), 38.578125);
    assert_eq!(w(track_duration(&unit, Some(44_100 * 3), Some((1, 44_100)))), 3.0);
    assert_eq!(
        w(track_duration(&unit, Some(u64::MAX), Some((1, 320)))),
        57_646_075_230_342_348u64 as f64 + 0.796875
    );
    // More seconds than fit wrap.
    assert_eq!(
        w(track_duration(&unit, Some(u64::MAX / 4 + 2), Some((4, 1)))),
        4.0
    );
    assert_eq!(w(track_duration(&unit, None, Some((1, 320)))), 0.0);
    assert_eq!(w(track_duration(&unit, Some(5), None)), 0.0);
    assert_eq!(w(span(&unit, 7, d(0.25))), 7.25);
}

#[test]
fn sizes_and_limits() {
    let unit = host(1);
    assert_eq!(w(file_size_mb(&unit, Some(3 * 1024 * 1024 / 2))), 1.5);
    assert_eq!(w(file_size_mb(&unit, None)), 0.0);
    assert_eq!(sample_limit(&unit, d(60.0), 48000), 2_880_000);
    assert_eq!(sample_limit(&unit, d(0.50001), 1000), 500);
    assert_eq!(sample_limit(&unit, d(-1.0), 1000), 0);
}

#[test]
fn analysis_holds_spectrum_peaks_and_plot() {
    let x = noise(4000, 99);
    let unit = host(512);
    let info = describe_file(
        "x.flac".to_string(),
        Some("flac".to_string()),
        "flac".to_string(),
        96000,
        d(1.0),
        vec![("TITLE".to_string(), "t".to_string())],
        d(2.0),
    );
    let a = analyze_samples(&unit, info, &singles(&x), 96000, 512, 128).ok().unwrap();
    let (freqs, db) = expected_spectrum(&x, 96000.0, 512, 128);
    assert_eq!(bits(&floats(&a.freqs_hz)), bits(&freqs));
    assert_eq!(bits(&floats(&a.mean_db)), bits(&db));
    let peaks: Vec<(f32, f32)> = a.peaks.iter().map(|p| (f(p.0), f(p.1))).collect();
    assert_eq!(peaks, expected_peaks(&freqs, &db, 12, 50.0));
    assert_eq!(a.plot_xy.len(), 129);
    assert_eq!(a.info.container, "flac");
    assert_eq!(a.info.channels, 1);
    assert_eq!(a.info.sample_rate, 96000);
    assert_eq!(a.info.bitrate_kbps, None);
    let nameless = describe_file(
        "x".to_string(),
        None,
        "c".to_string(),
        48000,
        d(0.0),
        vec![],
        d(0.0),
    );
    assert_eq!(nameless.container, "unknown");
    assert!(analyze_samples(&unit, nameless, &singles(&x[..511]), 96000, 512, 128).is_err());
}

#[test]
fn same_questions_give_the_same_analysis() {
    let x = singles(&noise(900, 5));
    let first = mean_spectrum_db(&host(64), &x, s(48000.0), 64, 16).ok().unwrap();
    let second = mean_spectrum_db(&host(64), &x, s(48000.0), 64, 16).ok().unwrap();
    assert_eq!(first, second);
}

fn some_info() -> FileInfo {
    describe_file("y".to_string(), None, "mp3".to_string(), 48000, d(0.0), vec![], d(0.0))
}

#[test]
fn decoding_error_is_passed_on() {
    let unit = host(64);
    let failed = analyze_file(&unit, Err("no default track"), 48000, 64, 16);
    assert!(matches!(failed, Err(AnalysisError::Decoding("no default track"))));
    let x = singles(&noise(200, 3));
    let short: Result<_, &str> = Ok((some_info(), x[..63].to_vec()));
    let failed = analyze_file(&unit, short, 48000, 64, 0);
    assert!(matches!(failed, Err(AnalysisError::Spectrum(SpectrumError::TooShort))));
    let whole: Result<_, &str> = Ok((some_info(), x.clone()));
    let a = analyze_file(&unit, whole, 48000, 64, 16).ok().unwrap();
    let b = analyze_samples(&unit, some_info(), &x, 48000, 64, 16).ok().unwrap();
    assert_eq!(a.mean_db, b.mean_db);
    assert_eq!(a.peaks, b.peaks);
    assert_eq!(a.info.path, "y");
}

#[test]
fn samples_outside_full_frames_do_not_count() {
    let x = noise(150, 8);
    // Frames of 20 samples start at 0, 50 and 100; 20..50, 70..100 and 120..150 are in none.
    let mut y = x.clone();
    for i in [20, 35, 49, 70, 99, 120, 149] {
        y[i] = 77.0;
    }
    y.truncate(145);
    let first = mean_spectrum_db(&host(20), &singles(&x), s(48000.0), 20, 50).ok().unwrap();
    let second = mean_spectrum_db(&host(20), &singles(&y), s(48000.0), 20, 50).ok().unwrap();
    assert_eq!(first, second);
}

#[test]
fn polarity_does_not_show() {
    for (len, n_fft, hop) in [(1000, 64, 16), (777, 100, 33), (400, 97, 50), (600, 509, 7), (5, 1, 1)]
    {
        let mut x = noise(len, 31 + len as u32);
        x[0] = 0.0;
        x[1] = 1.0;
        let inverted: Vec<f32> = x.iter().map(|v| -v).collect();
        let first = mean_spectrum_db(&host(n_fft), &singles(&x), s(48000.0), n_fft, hop);
        let second = mean_spectrum_db(&host(n_fft), &singles(&inverted), s(48000.0), n_fft, hop);
        assert!(first.is_ok());
        assert_eq!(first, second);
    }
}

#[test]
fn no_level_lies_above_zero() {
    for seed in 0..20 {
        let x = singles(&noise(700, seed));
        let (_, db) = mean_spectrum_db(&host(128), &x, s(48000.0), 128, 60).ok().unwrap();
        assert!(db.iter().all(|v| v.le(s(0.0))));
        assert!(db.iter().any(|v| f(*v) == 0.0));
    }
}

#[test]
fn fewer_peaks_are_the_first_of_more() {
    let unit = host(1);
    let db = singles(&noise(300, 21));
    let freqs: Vec<f32> = (0..300).map(|k| k as f32 * 9.0).collect();
    let freqs = singles(&freqs);
    let more = find_peaks(&unit, &freqs, &db, 20, s(50.0));
    assert_eq!(more.len(), 20);
    for n in 1..20 {
        assert_eq!(find_peaks(&unit, &freqs, &db, n, s(50.0)), more[..n]);
    }
    assert_eq!(find_peaks(&unit, &freqs, &db, 0, s(50.0)), more[..1]);
}
