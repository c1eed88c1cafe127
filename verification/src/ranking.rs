//! The local maxima of a spectrum, loudest first.
use vstd::prelude::*;

use crate::single::Single;
use crate::value::{law_patterns_compare_as_numbers, less, value};

verus! {

/// Whether bin `i` has two neighbours and lies above both.
pub open spec fn is_maximum(db: Seq<Single>, i: int) -> bool {
    &&& 1 <= i < db.len() - 1
    &&& db[i - 1].below(db[i])
    &&& db[i + 1].below(db[i])
}

/// Whether bin `i` comes before bin `j`: it is louder, or as loud and further down the axis.
pub open spec fn precedes(db: Seq<Single>, i: int, j: int) -> bool {
    ||| db[i].rank() > db[j].rank()
    ||| db[i].rank() == db[j].rank() && i < j
}

/// Whether each bin in `order` comes before those after it.
pub open spec fn ranked(db: Seq<Single>, order: Seq<usize>) -> bool {
    forall|a: int, b: int|
        0 <= a < b < order.len() ==> precedes(
            db,
            #[trigger] order[a] as int,
            #[trigger] order[b] as int,
        )
}

/// Whether `order` lists the local maxima of `db`, all of them and nothing else, by `precedes`.
pub open spec fn is_ranking(db: Seq<Single>, order: Seq<usize>) -> bool {
    &&& ranked(db, order)
    &&& forall|i: usize| #[trigger] order.contains(i) <==> is_maximum(db, i as int)
}

/// Only one sequence ranks the maxima of a spectrum.
pub proof fn law_ranking_is_unique(db: Seq<Single>, first: Seq<usize>, second: Seq<usize>)
    requires
        is_ranking(db, first),
        is_ranking(db, second),
    ensures
        first == second,
{
    lemma_same_members(db, first, second);
}

proof fn lemma_same_members(db: Seq<Single>, first: Seq<usize>, second: Seq<usize>)
    requires
        ranked(db, first),
        ranked(db, second),
        forall|i: usize| #[trigger] first.contains(i) <==> second.contains(i),
    ensures
        first == second,
    decreases first.len(),
{
    if first.len() == 0 {
        if second.len() > 0 {
            assert(second.contains(second[0]));
            assert(first.contains(second[0]));
        }
    } else {
        assert(first.contains(first[0]));
        assert(second.contains(first[0]));
        let at = choose|at: int| 0 <= at < second.len() && second[at] == first[0];
        assert(second.contains(second[0]));
        assert(first.contains(second[0]));
        let back = choose|back: int| 0 <= back < first.len() && first[back] == second[0];
        if at > 0 {
            assert(precedes(db, second[0] as int, second[at] as int));
            if back > 0 {
                assert(precedes(db, first[0] as int, first[back] as int));
            }
        }
        let f = first.drop_first();
        let s = second.drop_first();
        assert(ranked(db, f)) by {
            assert forall|a: int, b: int| 0 <= a < b < f.len() implies precedes(
                db,
                #[trigger] f[a] as int,
                #[trigger] f[b] as int,
            ) by {
                assert(f[a] == first[a + 1] && f[b] == first[b + 1]);
            }
        }
        assert(ranked(db, s)) by {
            assert forall|a: int, b: int| 0 <= a < b < s.len() implies precedes(
                db,
                #[trigger] s[a] as int,
                #[trigger] s[b] as int,
            ) by {
                assert(s[a] == second[a + 1] && s[b] == second[b + 1]);
            }
        }
        lemma_tail_members(db, first);
        lemma_tail_members(db, second);
        assert(f == s) by {
            lemma_same_members(db, f, s);
        }
        assert(first == seq![first[0]] + f);
        assert(second == seq![second[0]] + s);
    }
}

proof fn lemma_tail_members(db: Seq<Single>, order: Seq<usize>)
    requires
        ranked(db, order),
        order.len() > 0,
    ensures
        forall|i: usize| #[trigger]
            order.drop_first().contains(i) <==> order.contains(i) && i != order[0],
{
    let tail = order.drop_first();
    assert forall|i: usize| #[trigger] tail.contains(i) implies order.contains(i) && i
        != order[0] by {
        let k = choose|k: int| 0 <= k < tail.len() && tail[k] == i;
        assert(order[k + 1] == i);
        assert(precedes(db, order[0] as int, order[k + 1] as int));
    }
    assert forall|i: usize| order.contains(i) && i != order[0] implies #[trigger] tail.contains(
        i,
    ) by {
        let k = choose|k: int| 0 <= k < order.len() && order[k] == i;
        assert(tail[k - 1] == i);
    }
}

/// The local maxima of `db`, in the order of the axis.
fn local_maxima(db: &[Single]) -> (found: Vec<usize>)
    ensures
        forall|a: int, b: int| 0 <= a < b < found@.len() ==> found@[a] < found@[b],
        forall|i: usize| #[trigger] found@.contains(i) <==> is_maximum(db@, i as int),
{
    let mut found: Vec<usize> = Vec::new();
    if db.len() < 3 {
        return found;
    }
    let mut i: usize = 1;
    while i < db.len() - 1
        invariant
            1 <= i <= db.len() - 1,
            forall|a: int, b: int| 0 <= a < b < found@.len() ==> found@[a] < found@[b],
            forall|a: int| 0 <= a < found@.len() ==> found@[a] < i,
            forall|k: usize| #[trigger]
                found@.contains(k) <==> k < i && is_maximum(db@, k as int),
        decreases db.len() - i,
    {
        let ghost before = found@;
        if db[i - 1].lt(db[i]) && db[i + 1].lt(db[i]) {
            found.push(i);
        }
        assert forall|k: usize| #[trigger] found@.contains(k) <==> k < i + 1 && is_maximum(
            db@,
            k as int,
        ) by {
            if before.contains(k) {
                let p = choose|p: int| 0 <= p < before.len() && before[p] == k;
                assert(found@[p] == k);
            }
            if found@.contains(k) {
                let p = choose|p: int| 0 <= p < found@.len() && found@[p] == k;
                if p < before.len() {
                    assert(before[p] == k);
                }
            }
            if k == i && is_maximum(db@, k as int) {
                assert(found@[found@.len() - 1] == k);
            }
        }
        i += 1;
    }
    found
}

/// Merges two ranked sequences without common members into one.
fn merge(db: &[Single], left: &Vec<usize>, right: &Vec<usize>) -> (out: Vec<usize>)
    requires
        ranked(db@, left@),
        ranked(db@, right@),
        forall|a: int, b: int|
            0 <= a < left@.len() && 0 <= b < right@.len() ==> left@[a] != right@[b],
        forall|a: int| 0 <= a < left@.len() ==> left@[a] < db@.len(),
        forall|a: int| 0 <= a < right@.len() ==> right@[a] < db@.len(),
    ensures
        ranked(db@, out@),
        forall|i: usize| #[trigger]
            out@.contains(i) <==> left@.contains(i) || right@.contains(i),
{
    let mut out: Vec<usize> = Vec::with_capacity(left.len());
    let mut i: usize = 0;
    let mut j: usize = 0;
    while i < left.len() || j < right.len()
        invariant
            i <= left@.len(),
            j <= right@.len(),
            ranked(db@, left@),
            ranked(db@, right@),
            forall|a: int, b: int|
                0 <= a < left@.len() && 0 <= b < right@.len() ==> left@[a] != right@[b],
            forall|a: int| 0 <= a < left@.len() ==> left@[a] < db@.len(),
            forall|a: int| 0 <= a < right@.len() ==> right@[a] < db@.len(),
            ranked(db@, out@),
            forall|q: int, a: int|
                0 <= q < out@.len() && i <= a < left@.len() ==> precedes(
                    db@,
                    #[trigger] out@[q] as int,
                    #[trigger] left@[a] as int,
                ),
            forall|q: int, b: int|
                0 <= q < out@.len() && j <= b < right@.len() ==> precedes(
                    db@,
                    #[trigger] out@[q] as int,
                    #[trigger] right@[b] as int,
                ),
            forall|a: int| 0 <= a < i ==> out@.contains(#[trigger] left@[a]),
            forall|b: int| 0 <= b < j ==> out@.contains(#[trigger] right@[b]),
            forall|q: int|
                0 <= q < out@.len() ==> left@.contains(#[trigger] out@[q]) || right@.contains(
                    out@[q],
                ),
        decreases left@.len() - i + right@.len() - j,
    {
        let ghost before = out@;
        let take_left = if i == left.len() {
            false
        } else if j == right.len() {
            true
        } else {
            let l: Single = db[left[i]];
            let r: Single = db[right[j]];
            l.signed_rank() > r.signed_rank() || (l.signed_rank() == r.signed_rank() && left[i]
                < right[j])
        };
        if take_left {
            out.push(left[i]);
            assert(left@.contains(left@[i as int]));
            i += 1;
        } else {
            out.push(right[j]);
            assert(right@.contains(right@[j as int]));
            j += 1;
        }
        assert(forall|q: int| 0 <= q < before.len() ==> out@[q] == before[q]);
        assert forall|k: usize| before.contains(k) implies out@.contains(k) by {
            let p = choose|p: int| 0 <= p < before.len() && before[p] == k;
            assert(out@[p] == k);
        }
        assert(out@[before.len() as int] == out@.last());
        assert(out@.contains(out@.last()));
    }
    assert forall|k: usize| #[trigger] out@.contains(k) <==> left@.contains(k) || right@.contains(
        k,
    ) by {
        if left@.contains(k) {
            let p = choose|p: int| 0 <= p < left@.len() && left@[p] == k;
            assert(out@.contains(left@[p]));
        }
        if right@.contains(k) {
            let p = choose|p: int| 0 <= p < right@.len() && right@[p] == k;
            assert(out@.contains(right@[p]));
        }
    }
    out
}

/// The members of `found` from `from` up to `to`, ranked.
fn sort_by_level(db: &[Single], found: &Vec<usize>, from: usize, to: usize) -> (out: Vec<usize>)
    requires
        from <= to <= found@.len(),
        forall|a: int, b: int| 0 <= a < b < found@.len() ==> found@[a] < found@[b],
        forall|a: int| 0 <= a < found@.len() ==> found@[a] < db@.len(),
    ensures
        ranked(db@, out@),
        forall|i: usize| #[trigger]
            out@.contains(i) <==> found@.subrange(from as int, to as int).contains(i),
    decreases to - from,
{
    let ghost part = found@.subrange(from as int, to as int);
    if to - from < 2 {
        let mut out: Vec<usize> = Vec::new();
        if from < to {
            out.push(found[from]);
        }
        assert(out@ =~= part);
        return out;
    }
    let middle: usize = from + (to - from) / 2;
    let left = sort_by_level(db, found, from, middle);
    let right = sort_by_level(db, found, middle, to);
    let ghost low = found@.subrange(from as int, middle as int);
    let ghost high = found@.subrange(middle as int, to as int);
    proof {
        assert forall|a: int| 0 <= a < left@.len() implies exists|p: int|
            from <= p < middle && found@[p] == #[trigger] left@[a] by {
            assert(left@.contains(left@[a]));
            assert(low.contains(left@[a]));
            let p = choose|p: int| 0 <= p < low.len() && low[p] == left@[a];
            assert(found@[from + p] == left@[a]);
        }
        assert forall|a: int| 0 <= a < right@.len() implies exists|p: int|
            middle <= p < to && found@[p] == #[trigger] right@[a] by {
            assert(right@.contains(right@[a]));
            assert(high.contains(right@[a]));
            let p = choose|p: int| 0 <= p < high.len() && high[p] == right@[a];
            assert(found@[middle + p] == right@[a]);
        }
        assert forall|a: int, b: int|
            0 <= a < left@.len() && 0 <= b < right@.len() implies left@[a] != right@[b] by {
            let p = choose|p: int| from <= p < middle && found@[p] == left@[a];
            let q = choose|q: int| middle <= q < to && found@[q] == right@[b];
        }
    }
    let out = merge(db, &left, &right);
    assert forall|i: usize| #[trigger] out@.contains(i) <==> part.contains(i) by {
        if low.contains(i) {
            let p = choose|p: int| 0 <= p < low.len() && low[p] == i;
            assert(part[p] == i);
        }
        if high.contains(i) {
            let p = choose|p: int| 0 <= p < high.len() && high[p] == i;
            assert(part[middle - from + p] == i);
        }
        if part.contains(i) {
            let p = choose|p: int| 0 <= p < part.len() && part[p] == i;
            if p < middle - from {
                assert(low[p] == i);
            } else {
                assert(high[p - (middle - from)] == i);
            }
        }
    }
    out
}

/// The local maxima of `db`, loudest first and equally loud ones in the order of the axis.
pub fn rank_maxima(db: &[Single]) -> (order: Vec<usize>)
    ensures
        is_ranking(db@, order@),
{
    let found = local_maxima(db);
    proof {
        assert forall|a: int| 0 <= a < found@.len() implies found@[a] < db@.len() by {
            assert(found@.contains(found@[a]));
        }
    }
    let order = sort_by_level(db, &found, 0, found.len());
    assert(found@.subrange(0, found@.len() as int) =~= found@);
    order
}

/// Every bin whose level lies above those of both neighbours is ranked, whatever its level is,
/// and no other bin; louder bins come first, and of equally loud ones the first on the axis.
pub proof fn law_every_maximum_is_ranked(db: &[Single], order: Vec<usize>)
    requires
        call_ensures(rank_maxima, (db,), order),
    ensures
        forall|i: usize| #[trigger]
            order@.contains(i) <==> {
                &&& 1 <= i < db@.len() - 1
                &&& less(db@[i - 1], db@[i as int])
                &&& less(db@[i + 1], db@[i as int])
            },
        forall|a: int, b: int|
            0 <= a < b < order@.len() ==> {
                let (first, second) = (#[trigger] order@[a], #[trigger] order@[b]);
                ||| value(db@[second as int]) < value(db@[first as int])
                ||| value(db@[second as int]) == value(db@[first as int]) && first < second
            },
{
    assert forall|i: usize| #[trigger] order@.contains(i) <==> {
        &&& 1 <= i < db@.len() - 1
        &&& less(db@[i - 1], db@[i as int])
        &&& less(db@[i + 1], db@[i as int])
    } by {
        law_patterns_compare_as_numbers(db@[i - 1], db@[i as int]);
        law_patterns_compare_as_numbers(db@[i + 1], db@[i as int]);
        assert(order@.contains(i) <==> is_maximum(db@, i as int));
    }
    assert forall|a: int, b: int| 0 <= a < b < order@.len() implies {
        let (first, second) = (#[trigger] order@[a], #[trigger] order@[b]);
        ||| value(db@[second as int]) < value(db@[first as int])
        ||| value(db@[second as int]) == value(db@[first as int]) && first < second
    } by {
        assert(precedes(db@, order@[a] as int, order@[b] as int));
        law_patterns_compare_as_numbers(db@[order@[b] as int], db@[order@[a] as int]);
    }
}

/// The ranking goes by comparisons alone: two spectra whose levels compare alike, bin against
/// bin, have the same ranking.
pub proof fn law_ranking_follows_comparisons(
    first: &[Single],
    second: &[Single],
    first_order: Vec<usize>,
    second_order: Vec<usize>,
)
    requires
        call_ensures(rank_maxima, (first,), first_order),
        call_ensures(rank_maxima, (second,), second_order),
        first@.len() == second@.len(),
        forall|i: int, j: int|
            0 <= i < first@.len() && 0 <= j < first@.len() ==> (less(
                #[trigger] first@[i],
                #[trigger] first@[j],
            ) <==> less(second@[i], second@[j])),
    ensures
        first_order@ == second_order@,
{
    let (a, b) = (first@, second@);
    assert forall|i: usize| #[trigger] first_order@.contains(i) <==> second_order@.contains(
        i,
    ) by {
        assert(first_order@.contains(i) <==> is_maximum(a, i as int));
        assert(second_order@.contains(i) <==> is_maximum(b, i as int));
        if 1 <= i < a.len() - 1 {
            law_patterns_compare_as_numbers(a[i - 1], a[i as int]);
            law_patterns_compare_as_numbers(a[i + 1], a[i as int]);
            law_patterns_compare_as_numbers(b[i - 1], b[i as int]);
            law_patterns_compare_as_numbers(b[i + 1], b[i as int]);
        }
    }
    assert forall|s: int, t: int| 0 <= s < t < second_order@.len() implies precedes(
        a,
        #[trigger] second_order@[s] as int,
        #[trigger] second_order@[t] as int,
    ) by {
        let (i, j) = (second_order@[s] as int, second_order@[t] as int);
        assert(second_order@.contains(second_order@[s]));
        assert(second_order@.contains(second_order@[t]));
        assert(is_maximum(b, i) && is_maximum(b, j));
        assert(first_order@.contains(second_order@[s]));
        assert(first_order@.contains(second_order@[t]));
        assert(is_maximum(a, i) && is_maximum(a, j));
        assert(precedes(b, i, j));
        law_patterns_compare_as_numbers(a[i], a[j]);
        law_patterns_compare_as_numbers(a[j], a[i]);
        law_patterns_compare_as_numbers(b[i], b[j]);
        law_patterns_compare_as_numbers(b[j], b[i]);
    }
    assert(ranked(a, second_order@));
    assert forall|i: usize| #[trigger] second_order@.contains(i) <==> is_maximum(a, i as int) by {
        assert(first_order@.contains(i) <==> is_maximum(a, i as int));
    }
    law_ranking_is_unique(a, first_order@, second_order@);
}

} // verus!
