//! Compares the averaged spectra of two audio files.
//!
//! The crate holds what such a tool decides and computes: how decoded blocks become one mono
//! signal at a common sample rate, how that signal becomes an averaged spectrum, which peaks
//! and plot points are shown, and how the state behind the window changes. Reading files,
//! drawing, and arithmetic on floating-point hardware belong to the program around it: values
//! cross as bit patterns (`Single`, `Double`), and each arithmetic operation is asked of a
//! `FloatUnit`.
pub mod analysis;
pub mod decoding;
pub mod determinacy;
pub mod exact;
pub mod fonts;
pub mod measures;
pub mod mono;
pub mod outcome;
pub mod peaks;
pub mod ranking;
pub mod report;
pub mod requests;
pub mod single;
pub mod spectrum;
pub mod state;
pub mod stream;
pub mod text;
pub mod unit;
pub mod value;
