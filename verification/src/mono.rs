//! Mixing the channels of a decoded block.
use vstd::prelude::*;

use crate::single::Single;
use crate::spectrum::ZERO;
use crate::unit::{sums_to, FloatUnit};

verus! {

/// The samples of frame `i`, channel by channel.
pub open spec fn channel_samples(planes: Seq<Vec<Single>>, i: int) -> Seq<Single> {
    Seq::new(planes.len(), |c: int| planes[c]@[i])
}

/// Whether `m` is the average of `samples`: their sum, taken from first to last, over their
/// number.
pub open spec fn is_average<U: FloatUnit>(unit: &U, samples: Seq<Single>, m: Single) -> bool {
    exists|sum: Single, n: Single|
        {
            &&& sums_to(unit, Single { bits: ZERO }, samples, sum)
            &&& #[trigger] call_ensures(U::count, (unit, samples.len() as u64), n)
            &&& #[trigger] call_ensures(U::over, (unit, sum, n), m)
        }
}

/// Mixes a block to mono. `planes` holds one sequence of samples for each channel, and each
/// frame of the result is the average over the channels.
pub fn mono_from_f32<U: FloatUnit>(unit: &U, planes: &Vec<Vec<Single>>, frames: usize) -> (mono:
    Vec<Single>)
    requires
        forall|c: int| 0 <= c < planes@.len() ==> (#[trigger] planes@[c])@.len() >= frames,
    ensures
        mono@.len() == frames,
        forall|i: int|
            0 <= i < frames ==> is_average(
                unit,
                channel_samples(planes@, i),
                #[trigger] mono@[i],
            ),
{
    let mut mono: Vec<Single> = Vec::with_capacity(frames);
    let mut i: usize = 0;
    while i < frames
        invariant
            i <= frames,
            mono@.len() == i,
            forall|c: int| 0 <= c < planes@.len() ==> (#[trigger] planes@[c])@.len() >= frames,
            forall|k: int|
                0 <= k < i ==> is_average(
                    unit,
                    channel_samples(planes@, k),
                    #[trigger] mono@[k],
                ),
        decreases frames - i,
    {
        let ghost samples = channel_samples(planes@, i as int);
        let mut sum = Single { bits: ZERO };
        let mut c: usize = 0;
        while c < planes.len()
            invariant
                i < frames,
                c <= planes@.len(),
                samples == channel_samples(planes@, i as int),
                forall|d: int| 0 <= d < planes@.len() ==> (#[trigger] planes@[d])@.len() >= frames,
                sums_to(unit, Single { bits: ZERO }, samples.take(c as int), sum),
            decreases planes@.len() - c,
        {
            let ghost part = sum;
            sum = unit.plus(sum, planes[c][i]);
            proof {
                let terms = samples.take(c + 1);
                assert(terms.drop_last() =~= samples.take(c as int));
                assert(terms.last() == planes@[c as int]@[i as int]);
                assert(call_ensures(U::plus, (unit, part, terms.last()), sum));
            }
            c += 1;
        }
        assert(samples.take(c as int) =~= samples);
        let n = unit.count(planes.len() as u64);
        let m = unit.over(sum, n);
        assert(is_average(unit, samples, m));
        mono.push(m);
        i += 1;
    }
    mono
}

} // verus!
