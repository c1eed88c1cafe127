//! The peaks of a spectrum that are worth listing.
use vstd::prelude::*;

use crate::ranking::{is_maximum, is_ranking, precedes, rank_maxima, ranked};
use crate::single::Single;
use crate::unit::FloatUnit;
use crate::value::{is_number, law_patterns_compare_as_numbers, less, value};

verus! {

/// Whether `unit` may find `f` and `g` at least `gap` apart. A distance that is no number
/// counts as far enough.
pub open spec fn apart<U: FloatUnit>(unit: &U, f: Single, g: Single, gap: Single) -> bool {
    exists|d: Single| #[trigger]
        call_ensures(U::minus, (unit, f, g), d) && !d.absolute().below(gap)
}

/// Whether `unit` may find `f` and `g` less than `gap` apart.
pub open spec fn close<U: FloatUnit>(unit: &U, f: Single, g: Single, gap: Single) -> bool {
    exists|d: Single| #[trigger]
        call_ensures(U::minus, (unit, f, g), d) && d.absolute().below(gap)
}

/// Whether bin `i` keeps its distance from every bin in `taken`.
pub open spec fn clear_of<U: FloatUnit>(
    unit: &U,
    freqs: Seq<Single>,
    gap: Single,
    i: usize,
    taken: Seq<usize>,
) -> bool {
    forall|t: int|
        0 <= t < taken.len() ==> apart(
            unit,
            freqs[i as int],
            freqs[#[trigger] taken[t] as int],
            gap,
        )
}

/// Whether bin `i` is too close to some bin in `taken`.
pub open spec fn shadowed<U: FloatUnit>(
    unit: &U,
    freqs: Seq<Single>,
    gap: Single,
    i: usize,
    taken: Seq<usize>,
) -> bool {
    exists|t: int|
        0 <= t < taken.len() && close(
            unit,
            freqs[i as int],
            freqs[#[trigger] taken[t] as int],
            gap,
        )
}

/// How many peaks are taken at most. The first one is taken before anything is counted, so
/// asking for none gives one.
pub open spec fn peak_limit(top_n: usize) -> nat {
    if top_n == 0 {
        1
    } else {
        top_n as nat
    }
}

/// Whether `taken` results from walking through `order`: up to `limit` bins are taken, each
/// where it is clear of those taken before it, and passed over where it is shadowed by one.
pub open spec fn picks<U: FloatUnit>(
    unit: &U,
    freqs: Seq<Single>,
    gap: Single,
    limit: nat,
    order: Seq<usize>,
    taken: Seq<usize>,
) -> bool
    decreases order.len(),
{
    if order.len() == 0 {
        taken.len() == 0
    } else {
        let i = order.last();
        let rest = order.drop_last();
        ||| {
            &&& taken.len() >= limit
            &&& picks(unit, freqs, gap, limit, rest, taken)
        }
        ||| {
            &&& taken.len() < limit
            &&& shadowed(unit, freqs, gap, i, taken)
            &&& picks(unit, freqs, gap, limit, rest, taken)
        }
        ||| {
            &&& 0 < taken.len() <= limit
            &&& taken.last() == i
            &&& clear_of(unit, freqs, gap, i, taken.drop_last())
            &&& picks(unit, freqs, gap, limit, rest, taken.drop_last())
        }
    }
}

/// The frequency and level of each bin in `taken`.
pub open spec fn points(
    freqs: Seq<Single>,
    db: Seq<Single>,
    taken: Seq<usize>,
) -> Seq<(Single, Single)> {
    Seq::new(taken.len(), |t: int| (freqs[taken[t] as int], db[taken[t] as int]))
}

/// Whether `peaks` are the peaks of a spectrum: its local maxima, taken from the loudest down
/// while they keep their distance.
pub open spec fn are_peaks<U: FloatUnit>(
    unit: &U,
    freqs: Seq<Single>,
    db: Seq<Single>,
    top_n: usize,
    gap: Single,
    peaks: Seq<(Single, Single)>,
) -> bool {
    exists|order: Seq<usize>, taken: Seq<usize>|
        {
            &&& is_ranking(db, order)
            &&& #[trigger] picks(unit, freqs, gap, peak_limit(top_n), order, taken)
            &&& peaks == points(freqs, db, taken)
        }
}

/// Whether bin `i` keeps its distance from the bins in `taken`.
fn keeps_distance<U: FloatUnit>(
    unit: &U,
    freqs: &[Single],
    gap: Single,
    i: usize,
    taken: &Vec<usize>,
) -> (r: bool)
    requires
        i < freqs@.len(),
        forall|t: int| 0 <= t < taken@.len() ==> taken@[t] < freqs@.len(),
    ensures
        r ==> clear_of(unit, freqs@, gap, i, taken@),
        !r ==> shadowed(unit, freqs@, gap, i, taken@),
{
    let mut t: usize = 0;
    while t < taken.len()
        invariant
            t <= taken@.len(),
            i < freqs@.len(),
            forall|k: int| 0 <= k < taken@.len() ==> taken@[k] < freqs@.len(),
            clear_of(unit, freqs@, gap, i, taken@.take(t as int)),
        decreases taken@.len() - t,
    {
        let d = unit.minus(freqs[i], freqs[taken[t]]);
        if d.abs().lt(gap) {
            assert(close(unit, freqs@[i as int], freqs@[taken@[t as int] as int], gap));
            return false;
        }
        assert(apart(unit, freqs@[i as int], freqs@[taken@[t as int] as int], gap));
        assert forall|k: int| 0 <= k < t + 1 implies apart(
            unit,
            freqs@[i as int],
            freqs@[#[trigger] taken@.take(t + 1)[k] as int],
            gap,
        ) by {
            if k < t {
                assert(taken@.take(t as int)[k] == taken@[k]);
            }
        }
        t += 1;
    }
    assert(taken@.take(t as int) =~= taken@);
    true
}

/// Lists the peaks of a spectrum: local maxima, loudest first, no two closer than
/// `min_dist_hz`, up to `top_n` of them.
pub fn find_peaks<U: FloatUnit>(
    unit: &U,
    freqs: &[Single],
    db: &[Single],
    top_n: usize,
    min_dist_hz: Single,
) -> (peaks: Vec<(Single, Single)>)
    requires
        forall|i: int| #[trigger] is_maximum(db@, i) ==> i < freqs@.len(),
    ensures
        are_peaks(unit, freqs@, db@, top_n, min_dist_hz, peaks@),
{
    let order = rank_maxima(db);
    let mut taken: Vec<usize> = Vec::new();
    let mut peaks: Vec<(Single, Single)> = Vec::new();
    let mut next: usize = 0;
    while next < order.len() && (taken.len() == 0 || taken.len() < top_n)
        invariant
            next <= order@.len(),
            forall|i: int| #[trigger] is_maximum(db@, i) ==> i < freqs@.len(),
            is_ranking(db@, order@),
            forall|t: int|
                0 <= t < taken@.len() ==> taken@[t] < freqs@.len() && taken@[t] < db@.len(),
            taken@.len() <= peak_limit(top_n),
            picks(
                unit,
                freqs@,
                min_dist_hz,
                peak_limit(top_n),
                order@.take(next as int),
                taken@,
            ),
            peaks@ =~= points(freqs@, db@, taken@),
        decreases order@.len() - next,
    {
        let i: usize = order[next];
        let ghost before = taken@;
        assert(order@.contains(i));
        assert(is_maximum(db@, i as int));
        if keeps_distance(unit, freqs, min_dist_hz, i, &taken) {
            taken.push(i);
            peaks.push((freqs[i], db[i]));
            assert(taken@.drop_last() =~= before);
        }
        assert(order@.take(next + 1).drop_last() =~= order@.take(next as int));
        next += 1;
    }
    proof {
        if next < order@.len() {
            lemma_full(unit, freqs@, min_dist_hz, peak_limit(top_n), order@, next as int, taken@);
        } else {
            assert(order@.take(next as int) =~= order@);
        }
        assert(picks(unit, freqs@, min_dist_hz, peak_limit(top_n), order@, taken@));
    }
    peaks
}

/// Once the limit is reached, the rest of the walk changes nothing.
proof fn lemma_full<U: FloatUnit>(
    unit: &U,
    freqs: Seq<Single>,
    gap: Single,
    limit: nat,
    order: Seq<usize>,
    next: int,
    taken: Seq<usize>,
)
    requires
        0 <= next <= order.len(),
        taken.len() >= limit,
        picks(unit, freqs, gap, limit, order.take(next), taken),
    ensures
        picks(unit, freqs, gap, limit, order, taken),
    decreases order.len() - next,
{
    if next == order.len() {
        assert(order.take(next) =~= order);
    } else {
        assert(order.take(next + 1).drop_last() =~= order.take(next));
        lemma_full(unit, freqs, gap, limit, order, next + 1, taken);
    }
}

/// No more peaks are listed than asked for, or one where none was asked for.
pub proof fn law_peak_count<U: FloatUnit>(
    unit: &U,
    freqs: Seq<Single>,
    db: Seq<Single>,
    top_n: usize,
    gap: Single,
    peaks: Seq<(Single, Single)>,
)
    requires
        are_peaks(unit, freqs, db, top_n, gap, peaks),
    ensures
        peaks.len() <= peak_limit(top_n),
{
    let (order, taken) = choose|order: Seq<usize>, taken: Seq<usize>|
        {
            &&& is_ranking(db, order)
            &&& #[trigger] picks(unit, freqs, gap, peak_limit(top_n), order, taken)
            &&& peaks == points(freqs, db, taken)
        };
    lemma_taken_count(unit, freqs, gap, peak_limit(top_n), order, taken);
}

proof fn lemma_taken_count<U: FloatUnit>(
    unit: &U,
    freqs: Seq<Single>,
    gap: Single,
    limit: nat,
    order: Seq<usize>,
    taken: Seq<usize>,
)
    requires
        picks(unit, freqs, gap, limit, order, taken),
    ensures
        taken.len() <= limit,
    decreases order.len(),
{
    if order.len() > 0 {
        if !(0 < taken.len() <= limit) {
            lemma_taken_count(unit, freqs, gap, limit, order.drop_last(), taken);
        }
    }
}

/// Any two listed peaks keep the distance asked for.
pub proof fn law_peaks_keep_distance<U: FloatUnit>(
    unit: &U,
    freqs: Seq<Single>,
    db: Seq<Single>,
    top_n: usize,
    gap: Single,
    peaks: Seq<(Single, Single)>,
    earlier: int,
    later: int,
)
    requires
        are_peaks(unit, freqs, db, top_n, gap, peaks),
        0 <= earlier < later < peaks.len(),
    ensures
        apart(unit, peaks[later].0, peaks[earlier].0, gap),
{
    let (order, taken) = choose|order: Seq<usize>, taken: Seq<usize>|
        {
            &&& is_ranking(db, order)
            &&& #[trigger] picks(unit, freqs, gap, peak_limit(top_n), order, taken)
            &&& peaks == points(freqs, db, taken)
        };
    lemma_taken_apart(unit, freqs, gap, peak_limit(top_n), order, taken, earlier, later);
}

proof fn lemma_taken_apart<U: FloatUnit>(
    unit: &U,
    freqs: Seq<Single>,
    gap: Single,
    limit: nat,
    order: Seq<usize>,
    taken: Seq<usize>,
    earlier: int,
    later: int,
)
    requires
        picks(unit, freqs, gap, limit, order, taken),
        0 <= earlier < later < taken.len(),
    ensures
        apart(unit, freqs[taken[later] as int], freqs[taken[earlier] as int], gap),
    decreases order.len(),
{
    let rest = order.drop_last();
    if picks(unit, freqs, gap, limit, rest, taken) {
        lemma_taken_apart(unit, freqs, gap, limit, rest, taken, earlier, later);
    } else if later == taken.len() - 1 {
        assert(taken.drop_last()[earlier] == taken[earlier]);
    } else {
        lemma_taken_apart(unit, freqs, gap, limit, rest, taken.drop_last(), earlier, later);
    }
}

/// The listed peaks are local maxima of the spectrum, and they stand in falling order of
/// level, equally loud ones in the order of the axis.
pub proof fn law_peaks_are_ranked_maxima<U: FloatUnit>(
    unit: &U,
    freqs: Seq<Single>,
    db: Seq<Single>,
    top_n: usize,
    gap: Single,
    peaks: Seq<(Single, Single)>,
)
    requires
        are_peaks(unit, freqs, db, top_n, gap, peaks),
    ensures
        exists|taken: Seq<usize>|
            {
                &&& peaks == #[trigger] points(freqs, db, taken)
                &&& ranked(db, taken)
                &&& forall|t: int|
                    0 <= t < taken.len() ==> is_maximum(db, #[trigger] taken[t] as int)
            },
        forall|a: int, b: int|
            0 <= a < b < peaks.len() ==> peaks[b].1.rank() <= peaks[a].1.rank(),
{
    let (order, taken) = choose|order: Seq<usize>, taken: Seq<usize>|
        {
            &&& is_ranking(db, order)
            &&& #[trigger] picks(unit, freqs, gap, peak_limit(top_n), order, taken)
            &&& peaks == points(freqs, db, taken)
        };
    lemma_taken_ranked(unit, freqs, db, gap, peak_limit(top_n), order, taken);
    assert forall|t: int| 0 <= t < taken.len() implies is_maximum(
        db,
        #[trigger] taken[t] as int,
    ) by {
        assert(order.contains(taken[t]));
    }
    assert(peaks == points(freqs, db, taken));
    assert forall|a: int, b: int| 0 <= a < b < peaks.len() implies peaks[b].1.rank()
        <= peaks[a].1.rank() by {
        assert(precedes(db, taken[a] as int, taken[b] as int));
    }
}

proof fn lemma_ranked_without_last(db: Seq<Single>, order: Seq<usize>)
    requires
        ranked(db, order),
        order.len() > 0,
    ensures
        ranked(db, order.drop_last()),
{
    let rest = order.drop_last();
    assert forall|a: int, b: int| 0 <= a < b < rest.len() implies precedes(
        db,
        #[trigger] rest[a] as int,
        #[trigger] rest[b] as int,
    ) by {
        assert(rest[a] == order[a] && rest[b] == order[b]);
    }
}

proof fn lemma_taken_ranked<U: FloatUnit>(
    unit: &U,
    freqs: Seq<Single>,
    db: Seq<Single>,
    gap: Single,
    limit: nat,
    order: Seq<usize>,
    taken: Seq<usize>,
)
    requires
        ranked(db, order),
        picks(unit, freqs, gap, limit, order, taken),
    ensures
        ranked(db, taken),
        forall|t: int| 0 <= t < taken.len() ==> order.contains(#[trigger] taken[t]),
    decreases order.len(),
{
    if order.len() > 0 {
        let rest = order.drop_last();
        lemma_ranked_without_last(db, order);
        let inner = if picks(unit, freqs, gap, limit, rest, taken) {
            taken
        } else {
            taken.drop_last()
        };
        lemma_taken_ranked(unit, freqs, db, gap, limit, rest, inner);
        assert forall|t: int| 0 <= t < inner.len() implies #[trigger] order.contains(
            inner[t],
        ) && precedes(db, inner[t] as int, order.last() as int) by {
            assert(rest.contains(inner[t]));
            let p = choose|p: int| 0 <= p < rest.len() && rest[p] == inner[t];
            assert(order[p] == inner[t]);
            assert(precedes(db, order[p] as int, order[order.len() - 1] as int));
        }
        assert forall|t: int| 0 <= t < taken.len() implies order.contains(
            #[trigger] taken[t],
        ) by {
            if t < inner.len() {
                assert(inner[t] == taken[t]);
            } else {
                assert(order[order.len() - 1] == taken[t]);
            }
        }
        assert forall|a: int, b: int| 0 <= a < b < taken.len() implies precedes(
            db,
            #[trigger] taken[a] as int,
            #[trigger] taken[b] as int,
        ) by {
            assert(inner[a] == taken[a]);
            assert(order.contains(inner[a]));
            if b < inner.len() {
                assert(inner[b] == taken[b]);
            }
        }
    }
}

/// A local maximum that is not listed was passed over for a listed peak that is as loud at
/// least and too close to it; or the list was full, with peaks that are as loud at least.
pub proof fn law_missing_maximum_has_a_reason<U: FloatUnit>(
    unit: &U,
    freqs: Seq<Single>,
    db: Seq<Single>,
    top_n: usize,
    gap: Single,
    peaks: Seq<(Single, Single)>,
    i: usize,
)
    requires
        are_peaks(unit, freqs, db, top_n, gap, peaks),
        is_maximum(db, i as int),
        !peaks.contains((freqs[i as int], db[i as int])),
    ensures
        ({
            ||| exists|t: int|
                {
                    &&& 0 <= t < peaks.len()
                    &&& close(unit, freqs[i as int], (#[trigger] peaks[t]).0, gap)
                    &&& db[i as int].rank() <= peaks[t].1.rank()
                }
            ||| {
                &&& peaks.len() == peak_limit(top_n)
                &&& forall|t: int|
                    0 <= t < peaks.len() ==> db[i as int].rank() <= (#[trigger] peaks[t]).1.rank()
            }
        }),
{
    let limit = peak_limit(top_n);
    let (order, taken) = choose|order: Seq<usize>, taken: Seq<usize>|
        {
            &&& is_ranking(db, order)
            &&& #[trigger] picks(unit, freqs, gap, limit, order, taken)
            &&& peaks == points(freqs, db, taken)
        };
    assert(order.contains(i));
    if taken.contains(i) {
        let t = choose|t: int| 0 <= t < taken.len() && taken[t] == i;
        assert(peaks[t] == (freqs[i as int], db[i as int]));
    }
    lemma_taken_count(unit, freqs, gap, limit, order, taken);
    lemma_missing(unit, freqs, db, gap, limit, order, taken, i);
    if passed_over(unit, freqs, db, gap, taken, i) {
        let t = choose|t: int|
            {
                &&& 0 <= t < taken.len()
                &&& close(unit, freqs[i as int], freqs[#[trigger] taken[t] as int], gap)
                &&& precedes(db, taken[t] as int, i as int)
            };
        assert(peaks[t] == (freqs[taken[t] as int], db[taken[t] as int]));
    } else {
        assert forall|t: int| 0 <= t < peaks.len() implies db[i as int].rank() <= (
        #[trigger] peaks[t]).1.rank() by {
            assert(precedes(db, taken[t] as int, i as int));
        }
    }
}

/// Whether bin `i` is too close to a bin in `taken` that comes before it.
spec fn passed_over<U: FloatUnit>(
    unit: &U,
    freqs: Seq<Single>,
    db: Seq<Single>,
    gap: Single,
    taken: Seq<usize>,
    i: usize,
) -> bool {
    exists|t: int|
        {
            &&& 0 <= t < taken.len()
            &&& close(unit, freqs[i as int], freqs[#[trigger] taken[t] as int], gap)
            &&& precedes(db, taken[t] as int, i as int)
        }
}

proof fn lemma_missing<U: FloatUnit>(
    unit: &U,
    freqs: Seq<Single>,
    db: Seq<Single>,
    gap: Single,
    limit: nat,
    order: Seq<usize>,
    taken: Seq<usize>,
    i: usize,
)
    requires
        ranked(db, order),
        picks(unit, freqs, gap, limit, order, taken),
        order.contains(i),
        !taken.contains(i),
    ensures
        passed_over(unit, freqs, db, gap, taken, i) || {
            &&& taken.len() >= limit
            &&& forall|t: int|
                0 <= t < taken.len() ==> precedes(db, #[trigger] taken[t] as int, i as int)
        },
    decreases order.len(),
{
    let rest = order.drop_last();
    let stays = picks(unit, freqs, gap, limit, rest, taken) && (taken.len() >= limit || shadowed(
        unit,
        freqs,
        gap,
        order.last(),
        taken,
    ));
    let inner = if stays {
        taken
    } else {
        taken.drop_last()
    };
    lemma_ranked_without_last(db, order);
    lemma_taken_ranked(unit, freqs, db, gap, limit, rest, inner);
    let at = choose|at: int| 0 <= at < order.len() && order[at] == i;
    if at == order.len() - 1 {
        if !stays {
            assert(taken[taken.len() - 1] == i);
        }
        assert forall|t: int| 0 <= t < taken.len() implies precedes(
            db,
            #[trigger] taken[t] as int,
            i as int,
        ) by {
            assert(rest.contains(inner[t]));
            let p = choose|p: int| 0 <= p < rest.len() && rest[p] == inner[t];
            assert(order[p] == taken[t]);
            assert(precedes(db, order[p] as int, order[at] as int));
        }
    } else {
        assert(rest[at] == i);
        assert(rest.contains(i));
        if inner.contains(i) {
            let t = choose|t: int| 0 <= t < inner.len() && inner[t] == i;
            assert(taken[t] == i);
        }
        lemma_missing(unit, freqs, db, gap, limit, rest, inner, i);
        if passed_over(unit, freqs, db, gap, inner, i) {
            let t = choose|t: int|
                {
                    &&& 0 <= t < inner.len()
                    &&& close(unit, freqs[i as int], freqs[#[trigger] inner[t] as int], gap)
                    &&& precedes(db, inner[t] as int, i as int)
                };
            assert(taken[t] == inner[t]);
        }
    }
}

/// A spectrum with a local maximum has a peak, and its loudest maximum is listed first.
pub proof fn law_loudest_maximum_comes_first<U: FloatUnit>(
    unit: &U,
    freqs: Seq<Single>,
    db: Seq<Single>,
    top_n: usize,
    gap: Single,
    peaks: Seq<(Single, Single)>,
    i: usize,
)
    requires
        are_peaks(unit, freqs, db, top_n, gap, peaks),
        is_maximum(db, i as int),
        forall|j: int| is_maximum(db, j) && j != i ==> #[trigger] precedes(db, i as int, j),
    ensures
        peaks.len() > 0,
        peaks[0] == (freqs[i as int], db[i as int]),
{
    let (order, taken) = choose|order: Seq<usize>, taken: Seq<usize>|
        {
            &&& is_ranking(db, order)
            &&& #[trigger] picks(unit, freqs, gap, peak_limit(top_n), order, taken)
            &&& peaks == points(freqs, db, taken)
        };
    assert(order.contains(i));
    let at = choose|at: int| 0 <= at < order.len() && order[at] == i;
    if at > 0 {
        assert(order.contains(order[0]));
        assert(precedes(db, order[0] as int, order[at] as int));
        assert(precedes(db, i as int, order[0] as int));
    }
    lemma_first_taken(unit, freqs, gap, peak_limit(top_n), order, taken);
}

proof fn lemma_first_taken<U: FloatUnit>(
    unit: &U,
    freqs: Seq<Single>,
    gap: Single,
    limit: nat,
    order: Seq<usize>,
    taken: Seq<usize>,
)
    requires
        picks(unit, freqs, gap, limit, order, taken),
        order.len() > 0,
        limit > 0,
    ensures
        taken.len() > 0,
        taken[0] == order[0],
    decreases order.len(),
{
    let rest = order.drop_last();
    if order.len() > 1 {
        if picks(unit, freqs, gap, limit, rest, taken) {
            lemma_first_taken(unit, freqs, gap, limit, rest, taken);
        } else {
            lemma_first_taken(unit, freqs, gap, limit, rest, taken.drop_last());
        }
    } else {
        reveal_with_fuel(picks, 2);
    }
}

/// Whether bin `i` is louder than bin `j`, or as loud and further down the axis.
pub open spec fn is_listed_before(db: Seq<Single>, i: int, j: int) -> bool {
    ||| value(db[j]) < value(db[i])
    ||| value(db[j]) == value(db[i]) && i < j
}

/// Whether bin `i` lies above both its neighbours.
pub open spec fn stands_out(db: Seq<Single>, i: int) -> bool {
    1 <= i < db.len() - 1 && less(db[i - 1], db[i]) && less(db[i + 1], db[i])
}

/// Whether the absolute value of `d` lies below `gap`.
pub open spec fn is_short(d: Single, gap: Single) -> bool {
    &&& is_number(d)
    &&& is_number(gap)
    &&& value(d) < value(gap)
    &&& 0 as real - value(d) < value(gap)
}

/// Whether bin `i` was left out for good reason, where the bins `at` are listed: it is too close
/// to one that is listed before it, or the list is full of such.
pub open spec fn is_left_out<U: FloatUnit>(
    unit: &U,
    freqs: Seq<Single>,
    db: Seq<Single>,
    top_n: int,
    gap: Single,
    at: Seq<int>,
    i: int,
) -> bool {
    ||| exists|t: int, d: Single|
        {
            &&& 0 <= t < at.len()
            &&& is_listed_before(db, at[t], i)
            &&& #[trigger] call_ensures(U::minus, (unit, freqs[i], freqs[#[trigger] at[t]]), d)
            &&& is_short(d, gap)
        }
    ||| {
        &&& 0 < at.len()
        &&& top_n <= at.len()
        &&& forall|t: int| 0 <= t < at.len() ==> is_listed_before(db, #[trigger] at[t], i)
    }
}

/// Whether `peaks` list the peaks of a spectrum, those of the bins `at`: bins that stand out,
/// loudest first, apart from each other, up to `top_n` or one; and no bin that stands out is
/// left out but for good reason.
pub open spec fn lists_peaks<U: FloatUnit>(
    unit: &U,
    freqs: Seq<Single>,
    db: Seq<Single>,
    top_n: int,
    gap: Single,
    peaks: Seq<(Single, Single)>,
    at: Seq<int>,
) -> bool {
    &&& at.len() == peaks.len()
    &&& at.len() <= 1 || at.len() <= top_n
    &&& forall|t: int|
        0 <= t < at.len() ==> {
            &&& stands_out(db, #[trigger] at[t])
            &&& peaks[t] == (freqs[at[t]], db[at[t]])
        }
    &&& forall|s: int, t: int|
        0 <= s < t < at.len() ==> is_listed_before(db, #[trigger] at[s], #[trigger] at[t])
    &&& forall|s: int, t: int|
        0 <= s < t < at.len() ==> exists|d: Single| #[trigger]
            call_ensures(U::minus, (unit, freqs[#[trigger] at[t]], freqs[#[trigger] at[s]]), d)
                && !is_short(d, gap)
    &&& forall|i: int|
        stands_out(db, i) && !(#[trigger] at.contains(i)) ==> is_left_out(
            unit,
            freqs,
            db,
            top_n,
            gap,
            at,
            i,
        )
}

proof fn lemma_short(d: Single, gap: Single)
    ensures
        d.absolute().below(gap) <==> is_short(d, gap),
{
    law_patterns_compare_as_numbers(d, gap);
    law_patterns_compare_as_numbers(d.absolute(), gap);
}

proof fn lemma_listed_before(db: Seq<Single>, i: int, j: int)
    ensures
        precedes(db, i, j) <==> is_listed_before(db, i, j),
{
    law_patterns_compare_as_numbers(db[j], db[i]);
}

proof fn lemma_stands_out(db: Seq<Single>, i: int)
    ensures
        is_maximum(db, i) <==> stands_out(db, i),
{
    law_patterns_compare_as_numbers(db[i - 1], db[i]);
    law_patterns_compare_as_numbers(db[i + 1], db[i]);
}

/// What `are_peaks` says, in terms of the numbers themselves.
pub(crate) proof fn lemma_peaks_are_listed<U: FloatUnit>(
    unit: &U,
    freqs: Seq<Single>,
    db: Seq<Single>,
    top_n: usize,
    gap: Single,
    peaks: Seq<(Single, Single)>,
) -> (at: Seq<int>)
    requires
        db.len() <= usize::MAX,
        are_peaks(unit, freqs, db, top_n, gap, peaks),
    ensures
        lists_peaks(unit, freqs, db, top_n as int, gap, peaks, at),
{
    let limit = peak_limit(top_n);
    let (order, taken) = choose|order: Seq<usize>, taken: Seq<usize>|
        {
            &&& is_ranking(db, order)
            &&& #[trigger] picks(unit, freqs, gap, limit, order, taken)
            &&& peaks == points(freqs, db, taken)
        };
    let at = Seq::new(taken.len(), |t: int| taken[t] as int);
    lemma_taken_count(unit, freqs, gap, limit, order, taken);
    lemma_taken_ranked(unit, freqs, db, gap, limit, order, taken);
    assert forall|t: int| 0 <= t < at.len() implies {
        &&& stands_out(db, #[trigger] at[t])
        &&& peaks[t] == (freqs[at[t]], db[at[t]])
    } by {
        assert(order.contains(taken[t]));
        lemma_stands_out(db, at[t]);
    }
    assert forall|s: int, t: int| 0 <= s < t < at.len() implies is_listed_before(
        db,
        #[trigger] at[s],
        #[trigger] at[t],
    ) by {
        assert(precedes(db, taken[s] as int, taken[t] as int));
        lemma_listed_before(db, at[s], at[t]);
    }
    assert forall|s: int, t: int| 0 <= s < t < at.len() implies exists|d: Single| #[trigger]
        call_ensures(U::minus, (unit, freqs[#[trigger] at[t]], freqs[#[trigger] at[s]]), d)
            && !is_short(d, gap) by {
        lemma_taken_apart(unit, freqs, gap, limit, order, taken, s, t);
        let d = choose|d: Single| #[trigger]
            call_ensures(
                U::minus,
                (unit, freqs[taken[t] as int], freqs[taken[s] as int]),
                d,
            ) && !d.absolute().below(gap);
        lemma_short(d, gap);
        assert(call_ensures(U::minus, (unit, freqs[at[t]], freqs[at[s]]), d));
    }
    assert forall|i: int| stands_out(db, i) && !(#[trigger] at.contains(i)) implies is_left_out(
        unit,
        freqs,
        db,
        top_n as int,
        gap,
        at,
        i,
    ) by {
        lemma_stands_out(db, i);
        let bin = i as usize;
        assert(order.contains(bin));
        if taken.contains(bin) {
            let t = choose|t: int| 0 <= t < taken.len() && taken[t] == bin;
            assert(at[t] == i);
        }
        lemma_missing(unit, freqs, db, gap, limit, order, taken, bin);
        if passed_over(unit, freqs, db, gap, taken, bin) {
            let t = choose|t: int|
                {
                    &&& 0 <= t < taken.len()
                    &&& close(unit, freqs[bin as int], freqs[#[trigger] taken[t] as int], gap)
                    &&& precedes(db, taken[t] as int, bin as int)
                };
            let d = choose|d: Single| #[trigger]
                call_ensures(U::minus, (unit, freqs[i], freqs[taken[t] as int]), d)
                    && d.absolute().below(gap);
            lemma_short(d, gap);
            lemma_listed_before(db, at[t], i);
            assert(call_ensures(U::minus, (unit, freqs[i], freqs[at[t]]), d));
        } else {
            assert forall|t: int| 0 <= t < at.len() implies is_listed_before(
                db,
                #[trigger] at[t],
                i,
            ) by {
                assert(precedes(db, taken[t] as int, i));
                lemma_listed_before(db, at[t], i);
            }
        }
    }
    at
}

/// The peaks that are listed are bins that stand out, loudest first and no two too close, as
/// many as asked for at most; and every other bin that stands out is too close to a listed one
/// that is louder, or comes after all of a full list.
pub proof fn law_peaks_are_the_loudest_apart<U: FloatUnit>(
    unit: &U,
    freqs: &[Single],
    db: &[Single],
    top_n: usize,
    min_dist_hz: Single,
    peaks: Vec<(Single, Single)>,
)
    requires
        call_ensures(find_peaks::<U>, (unit, freqs, db, top_n, min_dist_hz), peaks),
    ensures
        exists|at: Seq<int>| #[trigger]
            lists_peaks(unit, freqs@, db@, top_n as int, min_dist_hz, peaks@, at),
{
    assert(db.len() == db@.len());
    let at = lemma_peaks_are_listed(unit, freqs@, db@, top_n, min_dist_hz, peaks@);
    assert(lists_peaks(unit, freqs@, db@, top_n as int, min_dist_hz, peaks@, at));
}

} // verus!
