//! The state behind the window, and how it changes.
use vstd::prelude::*;
use vstd::string::*;

use crate::analysis::Analysis;
use crate::single::{Double, WIDE_SIGN};
use crate::text::join;
use crate::value::{
    law_named_wide_patterns, law_wide_patterns_compare_as_numbers, wide_value,
};

verus! {

/// The smallest frame length that can be set.
pub const N_FFT_MIN: usize = 1024;

/// The largest frame length that can be set.
pub const N_FFT_MAX: usize = 131072;

/// The smallest distance between frames that can be set.
pub const HOP_MIN: usize = 256;

/// The largest distance between frames that can be set.
pub const HOP_MAX: usize = 65536;

/// The smallest common sample rate that can be set.
pub const TARGET_SR_MIN: u32 = 8000;

/// The largest common sample rate that can be set.
pub const TARGET_SR_MAX: u32 = 192000;

/// The pattern of 5, the smallest number of seconds that can be set.
pub const ANALYZE_SECONDS_MIN: u64 = 0x4014_0000_0000_0000;

/// The pattern of 600, the largest number of seconds that can be set.
pub const ANALYZE_SECONDS_MAX: u64 = 0x4082_c000_0000_0000;

/// The pattern of 60, the number of seconds analyzed at first.
pub const ANALYZE_SECONDS: u64 = 0x404e_0000_0000_0000;

/// The value in a range that is closest to `n`.
pub open spec fn held(n: int, min: int, max: int) -> int {
    if n < min {
        min
    } else if n > max {
        max
    } else {
        n
    }
}

/// The number of seconds that can be set and is closest to `seconds`. A pattern that is no
/// number is held to the end that its sign points to.
pub open spec fn held_seconds(seconds: Double) -> Double {
    if seconds.rank() < ANALYZE_SECONDS_MIN {
        Double { bits: ANALYZE_SECONDS_MIN }
    } else if seconds.rank() > ANALYZE_SECONDS_MAX {
        Double { bits: ANALYZE_SECONDS_MAX }
    } else {
        seconds
    }
}

/// Settings that can be set are taken as they are.
pub proof fn law_valid_settings_are_taken(state: AppState)
    requires
        state.settings_in_range(),
    ensures
        held(state.n_fft as int, N_FFT_MIN as int, N_FFT_MAX as int) == state.n_fft,
        held(state.hop as int, HOP_MIN as int, HOP_MAX as int) == state.hop,
        held(state.target_sr as int, TARGET_SR_MIN as int, TARGET_SR_MAX as int)
            == state.target_sr,
        held_seconds(state.analyze_seconds) == state.analyze_seconds,
{
}

/// Whether `after` is what analyzing the file of `before` again may leave in its slot. An empty
/// slot stays empty.
pub open spec fn is_reanalysis<F: Fn(&str) -> Option<Analysis>>(
    analyze: F,
    before: Option<Analysis>,
    after: Option<Analysis>,
) -> bool {
    match before {
        None => after is None,
        Some(analysis) => exists|path: &str|
            {
                &&& path@ == analysis.info.path@
                &&& #[trigger] call_ensures(analyze, (path,), after)
            },
    }
}

/// Whether `analyze` can be called with the path of the file in a slot.
pub open spec fn can_reanalyze<F: Fn(&str) -> Option<Analysis>>(
    analyze: F,
    before: Option<Analysis>,
) -> bool {
    match before {
        None => true,
        Some(analysis) => forall|path: &str|
            path@ == analysis.info.path@ ==> #[trigger] call_requires(analyze, (path,)),
    }
}

/// One of the two files that are compared.
#[derive(Clone, Copy, Debug, PartialEq, Eq, Structural)]
pub enum Slot {
    A,
    B,
}

impl Slot {
    /// The letter that the file goes by.
    pub open spec fn letter(self) -> Seq<char> {
        match self {
            Slot::A => "A"@,
            Slot::B => "B"@,
        }
    }

    /// The letter that the file goes by.
    pub fn name(self) -> (name: &'static str)
        ensures
            name@ == self.letter(),
    {
        match self {
            Slot::A => "A",
            Slot::B => "B",
        }
    }
}

/// The state behind the window.
pub struct AppState {
    /// The analysis of file A.
    pub a: Option<Analysis>,
    /// The analysis of file B.
    pub b: Option<Analysis>,
    /// Which font is used.
    pub font_status: String,
    /// The length of a frame.
    pub n_fft: usize,
    /// The distance between frames.
    pub hop: usize,
    /// The common sample rate.
    pub target_sr: u32,
    /// How many seconds of a file are analyzed at most.
    pub analyze_seconds: Double,
    /// What was done last.
    pub status: String,
}

impl Default for AppState {
    fn default() -> (s: Self)
        ensures
            s.a is None,
            s.b is None,
            s.font_status@ == "Font: default"@,
            s.n_fft == 16384,
            s.hop == 4096,
            s.target_sr == 48000,
            s.analyze_seconds == (Double { bits: ANALYZE_SECONDS }),
            s.status@ == "Ready"@,
            s.settings_in_range(),
    {
        AppState {
            a: None,
            b: None,
            font_status: "Font: default".to_string(),
            n_fft: 16384,
            hop: 4096,
            target_sr: 48000,
            analyze_seconds: Double { bits: ANALYZE_SECONDS },
            status: "Ready".to_string(),
        }
    }
}

impl AppState {
    /// Whether the settings are ones that the window lets be set.
    pub open spec fn settings_in_range(&self) -> bool {
        &&& N_FFT_MIN <= self.n_fft <= N_FFT_MAX
        &&& HOP_MIN <= self.hop <= HOP_MAX
        &&& TARGET_SR_MIN <= self.target_sr <= TARGET_SR_MAX
        &&& (Double { bits: ANALYZE_SECONDS_MIN }).at_most(self.analyze_seconds)
        &&& self.analyze_seconds.at_most(Double { bits: ANALYZE_SECONDS_MAX })
    }

    /// The analysis in a slot.
    pub open spec fn loaded(self, slot: Slot) -> Option<Analysis> {
        match slot {
            Slot::A => self.a,
            Slot::B => self.b,
        }
    }

    /// The state with another analysis in a slot.
    pub open spec fn with_loaded(self, slot: Slot, analysis: Option<Analysis>) -> AppState {
        match slot {
            Slot::A => AppState { a: analysis, ..self },
            Slot::B => AppState { b: analysis, ..self },
        }
    }

    /// The settings were changed to these; each is held to its range.
    pub fn settings_changed(
        &mut self,
        n_fft: usize,
        hop: usize,
        target_sr: u32,
        analyze_seconds: Double,
    )
        ensures
            final(self).settings_in_range(),
            final(self).n_fft == held(n_fft as int, N_FFT_MIN as int, N_FFT_MAX as int),
            final(self).hop == held(hop as int, HOP_MIN as int, HOP_MAX as int),
            final(self).target_sr == held(
                target_sr as int,
                TARGET_SR_MIN as int,
                TARGET_SR_MAX as int,
            ),
            final(self).analyze_seconds == held_seconds(analyze_seconds),
            *final(self) == (AppState {
                n_fft: final(self).n_fft,
                hop: final(self).hop,
                target_sr: final(self).target_sr,
                analyze_seconds: final(self).analyze_seconds,
                ..*old(self)
            }),
    {
        self.n_fft = if n_fft < N_FFT_MIN {
            N_FFT_MIN
        } else if n_fft > N_FFT_MAX {
            N_FFT_MAX
        } else {
            n_fft
        };
        self.hop = if hop < HOP_MIN {
            HOP_MIN
        } else if hop > HOP_MAX {
            HOP_MAX
        } else {
            hop
        };
        self.target_sr = if target_sr < TARGET_SR_MIN {
            TARGET_SR_MIN
        } else if target_sr > TARGET_SR_MAX {
            TARGET_SR_MAX
        } else {
            target_sr
        };
        let seconds: u64 = analyze_seconds.bits;
        self.analyze_seconds = if seconds >= WIDE_SIGN || seconds < ANALYZE_SECONDS_MIN {
            Double { bits: ANALYZE_SECONDS_MIN }
        } else if seconds > ANALYZE_SECONDS_MAX {
            Double { bits: ANALYZE_SECONDS_MAX }
        } else {
            analyze_seconds
        };
    }

    fn put(&mut self, slot: Slot, analysis: Option<Analysis>)
        ensures
            *final(self) == old(self).with_loaded(slot, analysis),
    {
        match slot {
            Slot::A => {
                self.a = analysis;
            },
            Slot::B => {
                self.b = analysis;
            },
        }
    }

    fn tell_of(&mut self, before: &str, slot: Slot, after: &str, detail: &str)
        ensures
            final(self).status@ == before@ + slot.letter() + after@ + detail@,
            *final(self) == (AppState { status: final(self).status, ..*old(self) }),
    {
        let mut status = join(before, slot.name());
        status.append(after);
        status.append(detail);
        self.status = status;
    }

    /// The file at `path` is about to be analyzed.
    pub fn load_started(&mut self, slot: Slot, path: &str)
        ensures
            old(self).settings_in_range() ==> final(self).settings_in_range(),
            final(self).status@ == "Analyzing "@ + slot.letter() + ": "@ + path@,
            *final(self) == (AppState { status: final(self).status, ..*old(self) }),
    {
        self.tell_of("Analyzing ", slot, ": ", path);
    }

    /// The file was analyzed, or it could not be and the slot keeps what it has.
    pub fn load_finished(&mut self, slot: Slot, outcome: Result<Analysis, String>)
        ensures
            old(self).settings_in_range() ==> final(self).settings_in_range(),
            match outcome {
                Ok(analysis) => {
                    &&& final(self).status@ == slot.letter() + " loaded"@
                    &&& *final(self) == (AppState { status: final(self).status, ..*old(self) })
                        .with_loaded(slot, Some(analysis))
                },
                Err(error) => {
                    &&& final(self).status@ == "Error "@ + slot.letter() + ": "@ + error@
                    &&& *final(self) == (AppState { status: final(self).status, ..*old(self) })
                },
            },
    {
        match outcome {
            Ok(analysis) => {
                self.put(slot, Some(analysis));
                self.status = join(slot.name(), " loaded");
            },
            Err(error) => self.tell_of("Error ", slot, ": ", error.as_str()),
        }
    }

    /// Both files are about to be analyzed again: gives their paths and empties the slots.
    pub fn reanalysis_started(&mut self) -> (paths: (Option<String>, Option<String>))
        ensures
            old(self).settings_in_range() ==> final(self).settings_in_range(),
            paths.0 is Some <==> old(self).a is Some,
            paths.0 matches Some(path) ==> path@ == old(self).a->0.info.path@,
            paths.1 is Some <==> old(self).b is Some,
            paths.1 matches Some(path) ==> path@ == old(self).b->0.info.path@,
            *final(self) == (AppState { a: None, b: None, ..*old(self) }),
    {
        let first = match &self.a {
            Some(analysis) => Some(analysis.info.path.clone()),
            None => None,
        };
        let second = match &self.b {
            Some(analysis) => Some(analysis.info.path.clone()),
            None => None,
        };
        self.a = None;
        self.b = None;
        (first, second)
    }

    /// The file at `path` is about to be analyzed again.
    pub fn reanalyzing(&mut self, slot: Slot, path: &str)
        ensures
            old(self).settings_in_range() ==> final(self).settings_in_range(),
            final(self).status@ == "Re-analyzing "@ + slot.letter() + ": "@ + path@,
            *final(self) == (AppState { status: final(self).status, ..*old(self) }),
    {
        self.tell_of("Re-analyzing ", slot, ": ", path);
    }

    /// The file was analyzed again; the slot stays empty where it could not be.
    pub fn reanalyzed(&mut self, slot: Slot, analysis: Option<Analysis>)
        ensures
            old(self).settings_in_range() ==> final(self).settings_in_range(),
            *final(self) == old(self).with_loaded(slot, analysis),
    {
        self.put(slot, analysis);
    }

    /// Both files were analyzed again.
    pub fn reanalysis_finished(&mut self)
        ensures
            old(self).settings_in_range() ==> final(self).settings_in_range(),
            final(self).status@ == "Re-analyze done"@,
            *final(self) == (AppState { status: final(self).status, ..*old(self) }),
    {
        self.status = "Re-analyze done".to_string();
    }

    fn reanalyze_slot<F: Fn(&str) -> Option<Analysis>>(
        &mut self,
        slot: Slot,
        path: Option<String>,
        analyze: &F,
        Ghost(before): Ghost<Option<Analysis>>,
    )
        requires
            old(self).loaded(slot) is None,
            path is Some <==> before is Some,
            path matches Some(path) ==> path@ == before->0.info.path@,
            can_reanalyze(*analyze, before),
        ensures
            is_reanalysis(*analyze, before, final(self).loaded(slot)),
            *final(self) == (AppState { status: final(self).status, ..*old(self) }).with_loaded(
                slot,
                final(self).loaded(slot),
            ),
    {
        if let Some(path) = path {
            self.reanalyzing(slot, path.as_str());
            let analysis = analyze(path.as_str());
            self.reanalyzed(slot, analysis);
        }
    }

    /// Analyzes each loaded file again, A before B. `analyze` gives the analysis of the file at
    /// a path, or `None` where it has none.
    pub fn reanalyze<F: Fn(&str) -> Option<Analysis>>(&mut self, analyze: F)
        requires
            can_reanalyze(analyze, old(self).a),
            can_reanalyze(analyze, old(self).b),
        ensures
            old(self).settings_in_range() ==> final(self).settings_in_range(),
            is_reanalysis(analyze, old(self).a, final(self).a),
            is_reanalysis(analyze, old(self).b, final(self).b),
            final(self).status@ == "Re-analyze done"@,
            *final(self) == (AppState {
                a: final(self).a,
                b: final(self).b,
                status: final(self).status,
                ..*old(self)
            }),
    {
        let ghost before = *self;
        let (first, second) = self.reanalysis_started();
        self.reanalyze_slot(Slot::A, first, &analyze, Ghost(before.a));
        self.reanalyze_slot(Slot::B, second, &analyze, Ghost(before.b));
        self.reanalysis_finished();
    }

    /// The font at `path` is in use.
    pub fn font_applied(&mut self, path: &str)
        ensures
            old(self).settings_in_range() ==> final(self).settings_in_range(),
            final(self).font_status@ == "Font: "@ + path@ + " (default)"@,
            *final(self) == (AppState { font_status: final(self).font_status, ..*old(self) }),
    {
        let mut status = join("Font: ", path);
        status.append(" (default)");
        self.font_status = status;
    }

    /// The user chose the font at `path` and it is in use; `save_error` tells why the choice
    /// could not be remembered.
    pub fn font_chosen(&mut self, path: &str, save_error: Option<String>)
        ensures
            old(self).settings_in_range() ==> final(self).settings_in_range(),
            final(self).font_status@ == "Font: "@ + path@ + " (default)"@,
            match save_error {
                Some(error) => final(self).status@ == "Font applied, but save failed: "@
                    + error@,
                None => final(self).status == old(self).status,
            },
            *final(self) == (AppState {
                font_status: final(self).font_status,
                status: final(self).status,
                ..*old(self)
            }),
    {
        match save_error {
            Some(error) => {
                self.status = join("Font applied, but save failed: ", error.as_str());
            },
            None => {},
        }
        self.font_applied(path);
    }

    /// The font that the user chose could not be used.
    pub fn font_rejected(&mut self, error: &str)
        ensures
            old(self).settings_in_range() ==> final(self).settings_in_range(),
            final(self).status@ == "Error font: "@ + error@,
            *final(self) == (AppState { status: final(self).status, ..*old(self) }),
    {
        self.status = join("Error font: ", error);
    }

    /// The font to start with could not be used.
    pub fn startup_font_failed(&mut self, error: &str)
        ensures
            old(self).settings_in_range() ==> final(self).settings_in_range(),
            final(self).status@ == "Font load failed: "@ + error@,
            *final(self) == (AppState { status: final(self).status, ..*old(self) }),
    {
        self.status = join("Font load failed: ", error);
    }

    /// The font of the window is the built-in one again.
    pub fn font_reset(&mut self)
        ensures
            old(self).settings_in_range() ==> final(self).settings_in_range(),
            final(self).font_status@ == "Font: default"@,
            *final(self) == (AppState { font_status: final(self).font_status, ..*old(self) }),
    {
        self.font_status = "Font: default".to_string();
    }
}

/// Whether two states have the same settings and the same files.
pub open spec fn same_files_and_settings(s: AppState, t: AppState) -> bool {
    &&& s.a == t.a
    &&& s.b == t.b
    &&& s.n_fft == t.n_fft
    &&& s.hop == t.hop
    &&& s.target_sr == t.target_sr
    &&& s.analyze_seconds == t.analyze_seconds
}

/// At first nothing is loaded, and 60 seconds are analyzed at 48 kHz.
pub proof fn law_state_at_first(s: AppState)
    requires
        call_ensures(AppState::default, (), s),
    ensures
        s.a is None && s.b is None,
        s.n_fft == 16384 && s.hop == 4096 && s.target_sr == 48000,
        wide_value(s.analyze_seconds) == 60 as real,
        s.font_status@ == "Font: default"@,
        s.status@ == "Ready"@,
{
    law_named_wide_patterns();
}

/// Each setting becomes the number asked for, or the end of its range that is closest to it.
pub proof fn law_settings_are_held_to_their_ranges(
    s: &mut AppState,
    n_fft: usize,
    hop: usize,
    target_sr: u32,
    seconds: Double,
)
    requires
        call_ensures(AppState::settings_changed, (s, n_fft, hop, target_sr, seconds), ()),
    ensures
        1024 <= final(s).n_fft <= 131072,
        1024 <= n_fft <= 131072 ==> final(s).n_fft == n_fft,
        n_fft < 1024 ==> final(s).n_fft == 1024,
        n_fft > 131072 ==> final(s).n_fft == 131072,
        256 <= final(s).hop <= 65536,
        256 <= hop <= 65536 ==> final(s).hop == hop,
        hop < 256 ==> final(s).hop == 256,
        hop > 65536 ==> final(s).hop == 65536,
        8000 <= final(s).target_sr <= 192000,
        8000 <= target_sr <= 192000 ==> final(s).target_sr == target_sr,
        target_sr < 8000 ==> final(s).target_sr == 8000,
        target_sr > 192000 ==> final(s).target_sr == 192000,
        5 as real <= wide_value(seconds) && wide_value(seconds) <= 600 as real
            ==> final(s).analyze_seconds == seconds,
        wide_value(seconds) < 5 as real ==> wide_value(final(s).analyze_seconds) == 5 as real,
        wide_value(seconds) > 600 as real ==> wide_value(final(s).analyze_seconds) == 600 as real,
        final(s).a == old(s).a,
        final(s).b == old(s).b,
        final(s).status == old(s).status,
        final(s).font_status == old(s).font_status,
{
    law_named_wide_patterns();
    law_wide_patterns_compare_as_numbers(seconds, Double { bits: ANALYZE_SECONDS_MIN });
    law_wide_patterns_compare_as_numbers(Double { bits: ANALYZE_SECONDS_MAX }, seconds);
}

/// Before a file is analyzed, the status tells which, and nothing else changes.
pub proof fn law_starting_to_load_is_told(s: &mut AppState, slot: Slot, path: &str)
    requires
        call_ensures(AppState::load_started, (s, slot, path), ()),
    ensures
        slot is A ==> final(s).status@ == "Analyzing "@ + "A"@ + ": "@ + path@,
        slot is B ==> final(s).status@ == "Analyzing "@ + "B"@ + ": "@ + path@,
        same_files_and_settings(*final(s), *old(s)),
        final(s).font_status == old(s).font_status,
{
}

/// A file that was analyzed takes its slot, and the other slot keeps what it has.
pub proof fn law_loading_takes_one_slot(s: &mut AppState, slot: Slot, analysis: Analysis)
    requires
        call_ensures(
            AppState::load_finished,
            (s, slot, Ok::<Analysis, String>(analysis)),
            (),
        ),
    ensures
        slot is A ==> final(s).a == Some(analysis) && final(s).b == old(s).b
            && final(s).status@ == "A"@ + " loaded"@,
        slot is B ==> final(s).b == Some(analysis) && final(s).a == old(s).a
            && final(s).status@ == "B"@ + " loaded"@,
        final(s).font_status == old(s).font_status,
        final(s).n_fft == old(s).n_fft,
        final(s).hop == old(s).hop,
        final(s).target_sr == old(s).target_sr,
        final(s).analyze_seconds == old(s).analyze_seconds,
{
}

/// A file that could not be analyzed leaves both slots as they are, and the status tells why.
pub proof fn law_failed_loading_is_told(s: &mut AppState, slot: Slot, error: String)
    requires
        call_ensures(AppState::load_finished, (s, slot, Err::<Analysis, String>(error)), ()),
    ensures
        slot is A ==> final(s).status@ == "Error "@ + "A"@ + ": "@ + error@,
        slot is B ==> final(s).status@ == "Error "@ + "B"@ + ": "@ + error@,
        same_files_and_settings(*final(s), *old(s)),
        final(s).font_status == old(s).font_status,
{
}

/// Analyzing again replaces what each slot holds by what the file of that slot gives now.
pub proof fn law_reanalysis_keeps_files_in_their_slots<F: Fn(&str) -> Option<Analysis>>(
    s: &mut AppState,
    analyze: F,
)
    requires
        call_ensures(AppState::reanalyze::<F>, (s, analyze), ()),
    ensures
        old(s).a is None ==> final(s).a is None,
        old(s).b is None ==> final(s).b is None,
        old(s).a matches Some(analysis) ==> exists|path: &str|
            path@ == analysis.info.path@ && #[trigger] call_ensures(
                analyze,
                (path,),
                final(s).a,
            ),
        old(s).b matches Some(analysis) ==> exists|path: &str|
            path@ == analysis.info.path@ && #[trigger] call_ensures(
                analyze,
                (path,),
                final(s).b,
            ),
        final(s).status@ == "Re-analyze done"@,
        final(s).font_status == old(s).font_status,
        final(s).n_fft == old(s).n_fft,
        final(s).hop == old(s).hop,
        final(s).target_sr == old(s).target_sr,
        final(s).analyze_seconds == old(s).analyze_seconds,
{
}

/// To analyze both files again, each slot gives the path of its file and is emptied.
pub proof fn law_reanalysis_begins_with_the_paths(
    s: &mut AppState,
    paths: (Option<String>, Option<String>),
)
    requires
        call_ensures(AppState::reanalysis_started, (s,), paths),
    ensures
        old(s).a is None ==> paths.0 is None,
        old(s).b is None ==> paths.1 is None,
        old(s).a matches Some(analysis) ==> (paths.0 matches Some(path) && path@
            == analysis.info.path@),
        old(s).b matches Some(analysis) ==> (paths.1 matches Some(path) && path@
            == analysis.info.path@),
        final(s).a is None && final(s).b is None,
        final(s).status == old(s).status,
        final(s).font_status == old(s).font_status,
{
}

/// What became of the window's font is told in full, and files and settings stay: the font in
/// use in one line, and why one could not be used in the status.
pub proof fn law_font_events_are_told(
    applied: &mut AppState,
    rejected: &mut AppState,
    failed: &mut AppState,
    reset: &mut AppState,
    path: &str,
    error: &str,
)
    requires
        call_ensures(AppState::font_applied, (applied, path), ()),
        call_ensures(AppState::font_rejected, (rejected, error), ()),
        call_ensures(AppState::startup_font_failed, (failed, error), ()),
        call_ensures(AppState::font_reset, (reset,), ()),
    ensures
        final(applied).font_status@ == "Font: "@ + path@ + " (default)"@,
        final(applied).status == old(applied).status,
        same_files_and_settings(*final(applied), *old(applied)),
        final(rejected).status@ == "Error font: "@ + error@,
        final(rejected).font_status == old(rejected).font_status,
        same_files_and_settings(*final(rejected), *old(rejected)),
        final(failed).status@ == "Font load failed: "@ + error@,
        final(failed).font_status == old(failed).font_status,
        same_files_and_settings(*final(failed), *old(failed)),
        final(reset).font_status@ == "Font: default"@,
        final(reset).status == old(reset).status,
        same_files_and_settings(*final(reset), *old(reset)),
{
}

/// A font that the user chose is told of, and so is why the choice could not be remembered;
/// files and settings stay.
pub proof fn law_chosen_font_is_told(s: &mut AppState, path: &str, save_error: Option<String>)
    requires
        call_ensures(AppState::font_chosen, (s, path, save_error), ()),
    ensures
        final(s).font_status@ == "Font: "@ + path@ + " (default)"@,
        save_error is None ==> final(s).status == old(s).status,
        save_error matches Some(error) ==> final(s).status@ == "Font applied, but save failed: "@
            + error@,
        same_files_and_settings(*final(s), *old(s)),
{
}

} // verus!
