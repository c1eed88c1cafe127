//! Texts, fonts and the state behind the window.
use spectrum_compare::analysis::{codec_name, describe_file, Analysis};
use spectrum_compare::fonts::{
    candidate_names, config_file_name, config_text, configured_font, find_candidate, is_forgotten,
    prefer_user_font, prefer_user_font_in_both, remembered_font, Removal,
};
use spectrum_compare::report::{file_info_rows, peak_rows, Row};
use spectrum_compare::single::{Double, Single};
use spectrum_compare::state::{AppState, Slot};
use spectrum_compare::text::{decimal, join, pad_left, trim};
use spectrum_compare::unit::FloatUnit;

/// A unit that is asked for texts only.
struct Texts;

impl FloatUnit for Texts {
    type Spectrum = ();

    fn count(&self, _: u64) -> Single {
        unreachable!()
    }
    fn plus(&self, _: Single, _: Single) -> Single {
        unreachable!()
    }
    fn minus(&self, _: Single, _: Single) -> Single {
        unreachable!()
    }
    fn times(&self, _: Single, _: Single) -> Single {
        unreachable!()
    }
    fn over(&self, _: Single, _: Single) -> Single {
        unreachable!()
    }
    fn root(&self, _: Single) -> Single {
        unreachable!()
    }
    fn cosine(&self, _: Single) -> Single {
        unreachable!()
    }
    fn log_ten(&self, _: Single) -> Single {
        unreachable!()
    }
    fn transform(&self, _: Vec<(Single, Single)>) {}
    fn bin(&self, _: &(), _: usize) -> (Single, Single) {
        unreachable!()
    }
    fn wide_count(&self, _: u64) -> Double {
        unreachable!()
    }
    fn wide_plus(&self, _: Double, _: Double) -> Double {
        unreachable!()
    }
    fn wide_times(&self, _: Double, _: Double) -> Double {
        unreachable!()
    }
    fn wide_over(&self, _: Double, _: Double) -> Double {
        unreachable!()
    }
    fn wide_floor(&self, _: Double) -> usize {
        unreachable!()
    }
    fn text(&self, a: Single, digits: usize) -> String {
        format!("{:.*}", digits, f32::from_bits(a.bits))
    }
    fn wide_text(&self, a: Double, digits: usize) -> String {
        format!("{:.*}", digits, f64::from_bits(a.bits))
    }
}

fn d(x: f64) -> Double {
    Double { bits: x.to_bits() }
}

fn s(x: f32) -> Single {
    Single { bits: x.to_bits() }
}

fn analysis(path: &str) -> Analysis {
    let info = describe_file(
        path.to_string(),
        Some("mp3".to_string()),
        "mp3".to_string(),
        48000,
        d(61.5),
        vec![],
        d(3.14159),
    );
    Analysis { info, freqs_hz: vec![], mean_db: vec![], peaks: vec![], plot_xy: vec![] }
}

#[test]
fn trimming_follows_unicode() {
    for code in 0..=0x10ffffu32 {
        if let Some(c) = char::from_u32(code) {
            let text = c.to_string();
            assert_eq!(trim(&text).is_empty(), c.is_whitespace(), "{code:x}");
        }
    }
    for text in ["", " ", "a", " a b\t\n", "\u{3000}フォント.ttf\u{a0}", "x\u{200b}", "\r\n\r\n"] {
        assert_eq!(trim(text), text.trim());
        assert_eq!(trim(&trim(text)), trim(text));
    }
}

#[test]
fn decimal_texts() {
    for n in [0u64, 7, 9, 10, 99, 100, 48000, 1234567890, u64::MAX] {
        assert_eq!(decimal(n), n.to_string());
    }
}

#[test]
fn padding_and_joining() {
    assert_eq!(pad_left("1.5", 6), "   1.5");
    assert_eq!(pad_left("123456.7", 8), "123456.7");
    assert_eq!(pad_left("123456789.0", 8), "123456789.0");
    assert_eq!(pad_left("日本", 4), "  日本");
    assert_eq!(join("ab", "c"), "abc");
}

#[test]
fn remembered_font_is_found_again() {
    let text = config_text("  /fonts/My Font.ttf \n");
    assert_eq!(text, "/fonts/My Font.ttf");
    assert_eq!(configured_font(&text), Some("/fonts/My Font.ttf".to_string()));
    assert_eq!(configured_font("/a.otf\n"), Some("/a.otf".to_string()));
    assert_eq!(configured_font(" \n\t"), None);
    assert_eq!(configured_font(&config_text("   ")), None);
    assert_eq!(config_file_name(), "audio_analyzer.font_path.txt");
}

#[test]
fn unreadable_file_remembers_nothing() {
    assert_eq!(remembered_font(None), None);
    assert_eq!(remembered_font(Some(" \n".to_string())), None);
    assert_eq!(remembered_font(Some("/a.otf\n".to_string())), Some("/a.otf".to_string()));
}

#[test]
fn forgetting_a_font() {
    assert!(is_forgotten(None));
    assert!(is_forgotten(Some(Removal::Removed)));
    assert!(is_forgotten(Some(Removal::Missing)));
    assert!(!is_forgotten(Some(Removal::Failed)));
}

#[test]
fn first_candidate_wins() {
    assert_eq!(candidate_names(), vec!["default_font.ttf", "default_font.otf", "./meiryo.ttc"]);
    let there = ["default_font.otf", "./meiryo.ttc"];
    let names = candidate_names();
    let found = find_candidate(1, names.len(), |_, n| there.contains(&names[n].as_str()));
    assert_eq!(found, Some((0, 1)));
    assert_eq!(find_candidate(2, 3, |b, n| (b, n) == (1, 0) || (b, n) == (1, 2)), Some((1, 0)));
    assert_eq!(find_candidate(2, 3, |b, n| n == 2 && b < 2), Some((0, 2)));
    assert_eq!(find_candidate(2, 3, |_, _| false), None);
    assert_eq!(find_candidate(0, 3, |_, _| true), None);
    let asked = std::cell::Cell::new(0);
    find_candidate(2, 3, |_, n| {
        asked.set(asked.get() + 1);
        n == 1
    });
    assert_eq!(asked.get(), 2);
}

#[test]
fn user_font_comes_first() {
    let mut family = vec!["Ubuntu-Light".to_string(), "Emoji".to_string()];
    prefer_user_font(&mut family);
    assert_eq!(family, vec!["user_font", "Ubuntu-Light", "Emoji"]);
    let mut empty = vec![];
    prefer_user_font(&mut empty);
    assert_eq!(empty, vec!["user_font"]);
}

#[test]
fn user_font_comes_first_in_both_families() {
    let mut proportional = vec!["Ubuntu-Light".to_string()];
    let mut monospace = vec!["Hack".to_string(), "Emoji".to_string()];
    prefer_user_font_in_both(&mut proportional, &mut monospace);
    assert_eq!(proportional, vec!["user_font", "Ubuntu-Light"]);
    assert_eq!(monospace, vec!["user_font", "Hack", "Emoji"]);
}

#[test]
fn codec_goes_by_its_short_name() {
    assert_eq!(codec_name(Some("flac".to_string()), "8192".to_string()), "flac");
    assert_eq!(codec_name(None, "8192".to_string()), "8192");
}

fn fixed(rows: &[Row]) -> Vec<String> {
    rows.iter()
        .map(|r| match r {
            Row::Fixed(t) => t.clone(),
            Row::Separator => "---".to_string(),
            Row::Label(t) => format!("[{t}]"),
        })
        .collect()
}

#[test]
fn file_info_is_shown_line_by_line() {
    let mut info = analysis("/music/a.mp3").info;
    assert_eq!(
        fixed(&file_info_rows(&Texts, &info)),
        vec![
            "Path: /music/a.mp3",
            "Size: 3.14 MB",
            "Container: mp3",
            "Codec: mp3",
            "SR: 48000 Hz",
            "Channels: 1",
            "Duration: 61.500 s",
            "Bitrate: (unknown)",
        ]
    );
    info.bitrate_kbps = Some(320);
    info.tags = vec![
        ("TITLE".to_string(), "Song".to_string()),
        ("ARTIST".to_string(), "".to_string()),
    ];
    let rows = fixed(&file_info_rows(&Texts, &info));
    assert_eq!(rows[7..], ["Bitrate: 320 kbps", "---", "[Tags]", "TITLE: Song", "ARTIST: "]);
}

#[test]
fn peaks_are_shown_in_columns() {
    let peaks: Vec<(Single, Single)> =
        (0..15).map(|k| (s(440.0 * (k + 1) as f32), s(-1.25 * k as f32))).collect();
    let rows = peak_rows(&Texts, &peaks);
    assert_eq!(rows.len(), 12);
    for (row, (hz, db)) in rows.iter().zip(peaks.iter()) {
        let want =
            format!("{:8.1} Hz   {:6.1} dB", f32::from_bits(hz.bits), f32::from_bits(db.bits));
        assert_eq!(*row, want);
    }
    assert_eq!(rows[0], "   440.0 Hz     -0.0 dB");
    assert_eq!(peak_rows(&Texts, &peaks[..2].to_vec()).len(), 2);
}

#[test]
fn state_begins_ready() {
    let state = AppState::default();
    assert!(state.a.is_none() && state.b.is_none());
    assert_eq!(state.font_status, "Font: default");
    assert_eq!(state.status, "Ready");
    assert_eq!((state.n_fft, state.hop, state.target_sr), (16384, 4096, 48000));
    assert_eq!(f64::from_bits(state.analyze_seconds.bits), 60.0);
}

fn settings(state: &AppState) -> (usize, usize, u32, f64) {
    (state.n_fft, state.hop, state.target_sr, f64::from_bits(state.analyze_seconds.bits))
}

#[test]
fn settings_are_held_to_their_ranges() {
    let mut state = AppState::default();
    state.settings_changed(2048, 300, 44100, d(12.5));
    assert_eq!(settings(&state), (2048, 300, 44100, 12.5));
    state.settings_changed(0, 0, 0, d(-3.0));
    assert_eq!(settings(&state), (1024, 256, 8000, 5.0));
    state.settings_changed(usize::MAX, usize::MAX, u32::MAX, d(1e9));
    assert_eq!(settings(&state), (131072, 65536, 192000, 600.0));
    state.settings_changed(4096, 512, 48000, d(f64::NAN));
    assert_eq!(settings(&state), (4096, 512, 48000, 600.0));
    state.settings_changed(4096, 512, 48000, d(-f64::NAN));
    assert_eq!(settings(&state), (4096, 512, 48000, 5.0));
    state.settings_changed(4096, 512, 48000, d(600.0));
    state.load_finished(Slot::A, Ok(analysis("/a.mp3")));
    state.font_chosen("/f.ttf", None);
    state.reanalysis_started();
    assert_eq!(settings(&state), (4096, 512, 48000, 600.0));
    assert_eq!(state.font_status, "Font: /f.ttf (default)");
}

#[test]
fn loading_fills_one_slot() {
    let mut state = AppState::default();
    state.load_started(Slot::A, "/a.mp3");
    assert_eq!(state.status, "Analyzing A: /a.mp3");
    state.load_finished(Slot::A, Ok(analysis("/a.mp3")));
    assert_eq!(state.status, "A loaded");
    assert_eq!(state.a.as_ref().unwrap().info.path, "/a.mp3");
    assert!(state.b.is_none());
    state.load_started(Slot::B, "/b.mp3");
    assert_eq!(state.status, "Analyzing B: /b.mp3");
    state.load_finished(Slot::B, Ok(analysis("/b.mp3")));
    assert_eq!(state.status, "B loaded");
    assert_eq!(state.b.as_ref().unwrap().info.path, "/b.mp3");
}

#[test]
fn failed_load_keeps_what_was_there() {
    let mut state = AppState::default();
    state.load_finished(Slot::B, Ok(analysis("/b.mp3")));
    state.load_finished(Slot::B, Err("open /c.mp3: gone".to_string()));
    assert_eq!(state.status, "Error B: open /c.mp3: gone");
    assert_eq!(state.b.as_ref().unwrap().info.path, "/b.mp3");
}

#[test]
fn reanalysis_uses_the_loaded_paths() {
    let mut state = AppState::default();
    state.load_finished(Slot::B, Ok(analysis("/b.mp3")));
    let paths = state.reanalysis_started();
    assert_eq!(paths, (None, Some("/b.mp3".to_string())));
    assert!(state.a.is_none() && state.b.is_none());
    state.reanalyzing(Slot::B, "/b.mp3");
    assert_eq!(state.status, "Re-analyzing B: /b.mp3");
    state.reanalyzed(Slot::B, None);
    assert!(state.b.is_none());
    state.reanalyzed(Slot::B, Some(analysis("/b.mp3")));
    assert!(state.b.is_some() && state.a.is_none());
    state.reanalysis_finished();
    assert_eq!(state.status, "Re-analyze done");
}

#[test]
fn reanalysis_replaces_each_loaded_file() {
    let mut state = AppState::default();
    state.settings_changed(2048, 300, 44100, d(12.5));
    state.load_finished(Slot::A, Ok(analysis("/a.mp3")));
    state.load_finished(Slot::B, Ok(analysis("/b.mp3")));
    let asked = std::cell::RefCell::new(vec![]);
    state.reanalyze(|path| {
        asked.borrow_mut().push(path.to_string());
        if path == "/a.mp3" {
            let mut again = analysis(path);
            again.info.sample_rate = 44100;
            Some(again)
        } else {
            None
        }
    });
    assert_eq!(asked.into_inner(), vec!["/a.mp3", "/b.mp3"]);
    assert_eq!(state.a.as_ref().unwrap().info.sample_rate, 44100);
    assert!(state.b.is_none());
    assert_eq!(state.status, "Re-analyze done");
    assert_eq!(settings(&state), (2048, 300, 44100, 12.5));
    // The slot that is now empty is not asked for again.
    state.reanalyze(|path| {
        assert_eq!(path, "/a.mp3");
        Some(analysis("/a.mp3"))
    });
    assert_eq!(state.a.as_ref().unwrap().info.sample_rate, 48000);
    assert!(state.b.is_none());
}

#[test]
fn fonts_are_told_of() {
    let mut state = AppState::default();
    state.font_applied("/f.ttf");
    assert_eq!(state.font_status, "Font: /f.ttf (default)");
    assert_eq!(state.status, "Ready");
    state.font_chosen("/g.ttf", None);
    assert_eq!(state.font_status, "Font: /g.ttf (default)");
    assert_eq!(state.status, "Ready");
    state.font_chosen("/h.ttf", Some("disk full".to_string()));
    assert_eq!(state.font_status, "Font: /h.ttf (default)");
    assert_eq!(state.status, "Font applied, but save failed: disk full");
    state.font_rejected("read font /i.ttf");
    assert_eq!(state.status, "Error font: read font /i.ttf");
    state.startup_font_failed("gone");
    assert_eq!(state.status, "Font load failed: gone");
    state.font_reset();
    assert_eq!(state.font_status, "Font: default");
}
