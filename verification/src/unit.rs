//! The floating-point operations that the host supplies.
use vstd::prelude::*;

use crate::single::{Double, Single};

verus! {

/// Arithmetic on binary32 and binary64 values, and the discrete Fourier transform.
///
/// Nothing is promised of the results. A contract that speaks of one names the call that gave
/// it: `call_ensures(U::plus, (unit, a, b), r)` says that `r` is what `plus` may answer for
/// `a` and `b`. With a unit that answers each question in one way, such contracts leave one
/// value for every result.
pub trait FloatUnit {
    /// What a transform answers with, read bin by bin.
    type Spectrum;

    /// The binary32 value closest to `n`.
    fn count(&self, n: u64) -> Single;

    /// `a + b`.
    fn plus(&self, a: Single, b: Single) -> Single;

    /// `a - b`.
    fn minus(&self, a: Single, b: Single) -> Single;

    /// `a * b`.
    fn times(&self, a: Single, b: Single) -> Single;

    /// `a / b`.
    fn over(&self, a: Single, b: Single) -> Single;

    /// The square root of `a`.
    fn root(&self, a: Single) -> Single;

    /// The cosine of `a`.
    fn cosine(&self, a: Single) -> Single;

    /// The decimal logarithm of `a`.
    fn log_ten(&self, a: Single) -> Single;

    /// The forward transform of complex values, given as real and imaginary parts.
    fn transform(&self, frame: Vec<(Single, Single)>) -> Self::Spectrum;

    /// The real and imaginary part of bin `k` of a transform.
    fn bin(&self, spectrum: &Self::Spectrum, k: usize) -> (Single, Single);

    /// The binary64 value closest to `n`.
    fn wide_count(&self, n: u64) -> Double;

    /// `a + b`.
    fn wide_plus(&self, a: Double, b: Double) -> Double;

    /// `a * b`.
    fn wide_times(&self, a: Double, b: Double) -> Double;

    /// `a / b`.
    fn wide_over(&self, a: Double, b: Double) -> Double;

    /// The integer part of `a`, held within the range of `usize`.
    fn wide_floor(&self, a: Double) -> usize;

    /// The decimal text of `a`, rounded to `digits` places.
    fn text(&self, a: Single, digits: usize) -> String;

    /// The decimal text of `a`, rounded to `digits` places.
    fn wide_text(&self, a: Double, digits: usize) -> String;
}

/// Whether `total` results from adding `terms` to `start`, one after the other.
pub open spec fn sums_to<U: FloatUnit>(
    unit: &U,
    start: Single,
    terms: Seq<Single>,
    total: Single,
) -> bool
    decreases terms.len(),
{
    if terms.len() == 0 {
        total == start
    } else {
        exists|part: Single|
            {
                &&& sums_to(unit, start, terms.drop_last(), part)
                &&& #[trigger] call_ensures(U::plus, (unit, part, terms.last()), total)
            }
    }
}

} // verus!
