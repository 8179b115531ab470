//! Selection of the attempts that a fit rests on, and ranking of the
//! competitors of one simulated round.

use vstd::prelude::*;

verus! {

/// One historical attempt with the age of the competition it was made at.
/// The age decides the weight of the attempt in a fit.
#[derive(Debug, Clone, Copy)]
pub struct DatedAttempt {
    /// Time in centiseconds; negative for a failed attempt.
    pub time: i32,
    /// Age in days.
    pub days_since: i32,
}

/// The successful attempts among `data`, in their order: those with a
/// positive time.
pub open spec fn spec_non_dnf_results(data: Seq<DatedAttempt>) -> Seq<DatedAttempt> {
    data.filter(|a: DatedAttempt| a.time > 0)
}

/// The attempts among `data` that are no slower than `threshold`, in their
/// order.
pub open spec fn spec_trim_weighted_results(data: Seq<DatedAttempt>, threshold: i32) -> Seq<
    DatedAttempt,
> {
    data.filter(|a: DatedAttempt| a.time <= threshold)
}

/// Keeps the successful attempts.
pub fn non_dnf_results(data: Vec<DatedAttempt>) -> (r: Vec<DatedAttempt>)
    ensures
        r@ == spec_non_dnf_results(data@),
{
    let ghost keep = |a: DatedAttempt| a.time > 0;
    let mut out: Vec<DatedAttempt> = Vec::new();
    let mut i: usize = 0;
    while i < data.len()
        invariant
            i <= data.len(),
            keep == |a: DatedAttempt| a.time > 0,
            out@ == data@.take(i as int).filter(keep),
        decreases data.len() - i,
    {
        let a = data[i];
        proof {
            lemma_filter_step(data@, keep, i as int);
        }
        if a.time > 0 {
            out.push(a);
        }
        i += 1;
    }
    assert(data@.take(i as int) =~= data@);
    out
}

/// Drops the outliers: keeps the attempts that are no slower than
/// `threshold`.
pub fn trim_weighted_results(data: Vec<DatedAttempt>, threshold: i32) -> (r: Vec<DatedAttempt>)
    ensures
        r@ == spec_trim_weighted_results(data@, threshold),
{
    let ghost keep = |a: DatedAttempt| a.time <= threshold;
    let mut out: Vec<DatedAttempt> = Vec::new();
    let mut i: usize = 0;
    while i < data.len()
        invariant
            i <= data.len(),
            keep == |a: DatedAttempt| a.time <= threshold,
            out@ == data@.take(i as int).filter(keep),
        decreases data.len() - i,
    {
        let a = data[i];
        proof {
            lemma_filter_step(data@, keep, i as int);
        }
        if a.time <= threshold {
            out.push(a);
        }
        i += 1;
    }
    assert(data@.take(i as int) =~= data@);
    out
}

/// Filtering one element more either appends that element or changes
/// nothing.
proof fn lemma_filter_step<T>(s: Seq<T>, keep: spec_fn(T) -> bool, i: int)
    requires
        0 <= i < s.len(),
    ensures
        s.take(i + 1).filter(keep) == if keep(s[i]) {
            s.take(i).filter(keep).push(s[i])
        } else {
            s.take(i).filter(keep)
        },
{
    reveal(Seq::filter);
    assert(s.take(i + 1).drop_last() =~= s.take(i));
}

/// Whether competitor `a` places ahead of competitor `b` in a round with the
/// given results: with the lower result, or on equal results as the one
/// that stands earlier in the list.
pub open spec fn places_ahead(values: Seq<i32>, a: int, b: int) -> bool {
    values[a] < values[b] || (values[a] == values[b] && a < b)
}

/// Whether `order` lists the competitors of a round from first to last
/// place: every competitor occurs in it, and each entry places ahead of all
/// that follow it.
pub open spec fn is_ranking(values: Seq<i32>, order: Seq<int>) -> bool {
    &&& order.len() == values.len()
    &&& forall|p: int| 0 <= p < order.len() ==> 0 <= #[trigger] order[p] < values.len()
    &&& forall|p: int, q: int|
        0 <= p < q < order.len() ==> places_ahead(values, #[trigger] order[p], #[trigger] order[q])
    &&& forall|c: int| 0 <= c < values.len() ==> #[trigger] order.contains(c)
}

/// The competitors of a round from first to last place.
pub open spec fn ranking(values: Seq<i32>) -> Seq<int> {
    choose|order: Seq<int>| is_ranking(values, order)
}

/// A sequence of indices as integers.
pub open spec fn as_ints(indices: Seq<usize>) -> Seq<int> {
    Seq::new(indices.len(), |p: int| indices[p] as int)
}

/// Lane `lane` of a batch: the result of every competitor in that lane.
pub open spec fn spec_lane(solves: Seq<[i32; 4]>, lane: int) -> Seq<i32> {
    Seq::new(solves.len(), |c: int| solves[c]@[lane])
}

/// Placing the last competitor into a ranking of the others, behind all
/// that are not slower and ahead of all that are, gives a ranking of all.
proof fn lemma_insert_keeps_ranking(values: Seq<i32>, order: Seq<int>, j: int)
    requires
        values.len() > 0,
        is_ranking(values.drop_last(), order),
        0 <= j <= order.len(),
        forall|p: int| 0 <= p < j ==> values[#[trigger] order[p]] <= values.last(),
        forall|p: int| j <= p < order.len() ==> values[#[trigger] order[p]] > values.last(),
    ensures
        is_ranking(values, order.insert(j, values.len() - 1)),
{
    let m = values.len() - 1;
    let rest = values.drop_last();
    let next = order.insert(j, m);
    assert forall|p: int| 0 <= p < next.len() implies 0 <= #[trigger] next[p] < values.len() by {
        if p < j {
            assert(next[p] == order[p]);
        } else if p > j {
            assert(next[p] == order[p - 1]);
        }
    }
    assert forall|p: int, q: int| 0 <= p < q < next.len() implies places_ahead(
        values,
        #[trigger] next[p],
        #[trigger] next[q],
    ) by {
        if q < j {
            assert(next[p] == order[p] && next[q] == order[q]);
            assert(places_ahead(rest, order[p], order[q]));
        } else if q == j {
            assert(next[p] == order[p]);
        } else if p < j {
            assert(next[p] == order[p] && next[q] == order[q - 1]);
            assert(places_ahead(rest, order[p], order[q - 1]));
        } else if p == j {
            assert(next[q] == order[q - 1]);
        } else {
            assert(next[p] == order[p - 1] && next[q] == order[q - 1]);
            assert(places_ahead(rest, order[p - 1], order[q - 1]));
        }
    }
    assert forall|c: int| 0 <= c < values.len() implies #[trigger] next.contains(c) by {
        if c == m {
            assert(next[j] == c);
        } else {
            assert(order.contains(c));
            let p = choose|p: int| 0 <= p < order.len() && order[p] == c;
            if p < j {
                assert(next[p] == c);
            } else {
                assert(next[p + 1] == c);
            }
        }
    }
}

/// Two rankings of one round agree on their first `n` places.
proof fn lemma_rankings_agree(values: Seq<i32>, first: Seq<int>, second: Seq<int>, n: int)
    requires
        is_ranking(values, first),
        is_ranking(values, second),
        0 <= n <= values.len(),
    ensures
        forall|p: int| 0 <= p < n ==> first[p] == second[p],
    decreases n,
{
    if n > 0 {
        lemma_rankings_agree(values, first, second, n - 1);
        let p = n - 1;
        let a = first[p];
        let b = second[p];
        if a != b {
            assert(second.contains(a));
            let qa = choose|q: int| 0 <= q < second.len() && second[q] == a;
            assert(first.contains(b));
            let qb = choose|q: int| 0 <= q < first.len() && first[q] == b;
            if qa < p {
                assert(places_ahead(values, first[qa], first[p]));
            }
            if qb < p {
                assert(places_ahead(values, second[qb], second[p]));
            }
            assert(places_ahead(values, second[p], second[qa]));
            assert(places_ahead(values, first[p], first[qb]));
        }
    }
}

/// A round has exactly one ranking: ties are decided by the order of the
/// list, so nothing is left open.
pub proof fn lemma_ranking_unique(values: Seq<i32>, order: Seq<int>)
    requires
        is_ranking(values, order),
    ensures
        order == ranking(values),
{
    let chosen = ranking(values);
    lemma_rankings_agree(values, order, chosen, values.len() as int);
    assert(order =~= chosen);
}

/// Every round has a ranking.
pub proof fn lemma_ranking_exists(values: Seq<i32>)
    ensures
        is_ranking(values, ranking(values)),
    decreases values.len(),
{
    if values.len() == 0 {
        assert(is_ranking(values, Seq::<int>::empty()));
    } else {
        let rest = values.drop_last();
        lemma_ranking_exists(rest);
        let order = ranking(rest);
        let j = lemma_insertion_point(values, order, 0);
        lemma_insert_keeps_ranking(values, order, j);
    }
}

/// The place at which the last competitor enters a ranking of the others.
proof fn lemma_insertion_point(values: Seq<i32>, order: Seq<int>, from: int) -> (j: int)
    requires
        values.len() > 0,
        is_ranking(values.drop_last(), order),
        0 <= from <= order.len(),
        forall|p: int| 0 <= p < from ==> values[#[trigger] order[p]] <= values.last(),
    ensures
        from <= j <= order.len(),
        forall|p: int| 0 <= p < j ==> values[#[trigger] order[p]] <= values.last(),
        forall|p: int| j <= p < order.len() ==> values[#[trigger] order[p]] > values.last(),
    decreases order.len() - from,
{
    if from == order.len() {
        from
    } else if values[order[from]] > values.last() {
        assert forall|p: int| from <= p < order.len() implies values[#[trigger] order[p]]
            > values.last() by {
            if p > from {
                assert(places_ahead(values.drop_last(), order[from], order[p]));
            }
        }
        from
    } else {
        lemma_insertion_point(values, order, from + 1)
    }
}

/// The competitors of a round from first to last place: by result, lowest
/// first, and on equal results in the order of the list.
pub fn find_lowest_indices(vec: &[i32]) -> (indices: Vec<usize>)
    ensures
        indices.len() == vec.len(),
        forall|p: int| 0 <= p < indices.len() ==> #[trigger] indices[p] < vec.len(),
        forall|p: int, q: int|
            0 <= p < q < indices.len() ==> places_ahead(
                vec@,
                (#[trigger] indices[p]) as int,
                (#[trigger] indices[q]) as int,
            ),
        forall|c: int| 0 <= c < vec.len() ==> #[trigger] indices@.contains(c as usize),
        is_ranking(vec@, as_ints(indices@)),
        as_ints(indices@) == ranking(vec@),
{
    let mut indices: Vec<usize> = Vec::new();
    let mut m: usize = 0;
    assert(is_ranking(vec@.take(0), as_ints(indices@)));
    while m < vec.len()
        invariant
            m <= vec.len(),
            is_ranking(vec@.take(m as int), as_ints(indices@)),
        decreases vec.len() - m,
    {
        let ghost known = vec@.take(m + 1);
        let ghost order = as_ints(indices@);
        assert(known.drop_last() =~= vec@.take(m as int));
        assert forall|p: int| 0 <= p < indices.len() implies #[trigger] indices[p] < vec.len() by {
            assert(order[p] < m);
        }
        let mut j: usize = 0;
        while j < indices.len() && vec[indices[j]] <= vec[m]
            invariant
                j <= indices.len(),
                m < vec.len(),
                indices.len() == m,
                order == as_ints(indices@),
                known == vec@.take(m + 1),
                is_ranking(known.drop_last(), order),
                forall|p: int| 0 <= p < indices.len() ==> #[trigger] indices[p] < vec.len(),
                forall|p: int| 0 <= p < j ==> known[#[trigger] order[p]] <= known.last(),
            decreases indices.len() - j,
        {
            j += 1;
        }
        proof {
            let at = lemma_insertion_point(known, order, j as int);
            assert(at == j) by {
                if at > j {
                    assert(known[order[j as int]] <= known.last());
                }
            }
            lemma_insert_keeps_ranking(known, order, j as int);
        }
        indices.insert(j, m);
        assert(as_ints(indices@) =~= order.insert(j as int, m as int));
        m += 1;
    }
    assert(vec@.take(m as int) =~= vec@);
    proof {
        let order = as_ints(indices@);
        lemma_ranking_unique(vec@, order);
        assert forall|p: int, q: int| 0 <= p < q < indices.len() implies places_ahead(
            vec@,
            (#[trigger] indices[p]) as int,
            (#[trigger] indices[q]) as int,
        ) by {
            assert(places_ahead(vec@, order[p], order[q]));
        }
        assert forall|p: int| 0 <= p < indices.len() implies #[trigger] indices[p]
            < vec.len() by {
            assert(order[p] < vec.len());
        }
        assert forall|c: int| 0 <= c < vec.len() implies #[trigger] indices@.contains(
            c as usize,
        ) by {
            assert(order.contains(c));
            let p = choose|p: int| 0 <= p < order.len() && order[p] == c;
            assert(indices@[p] == c as usize);
        }
    }
    indices
}

/// Turns a batch from one entry per competitor into one list per lane.
pub fn transpose_solves(solves: Vec<[i32; 4]>) -> (out: [Vec<i32>; 4])
    ensures
        forall|l: int| 0 <= l < 4 ==> (#[trigger] out@[l])@ == spec_lane(solves@, l),
{
    let mut lane0: Vec<i32> = Vec::new();
    let mut lane1: Vec<i32> = Vec::new();
    let mut lane2: Vec<i32> = Vec::new();
    let mut lane3: Vec<i32> = Vec::new();
    let mut i: usize = 0;
    while i < solves.len()
        invariant
            i <= solves.len(),
            lane0@ == spec_lane(solves@.take(i as int), 0),
            lane1@ == spec_lane(solves@.take(i as int), 1),
            lane2@ == spec_lane(solves@.take(i as int), 2),
            lane3@ == spec_lane(solves@.take(i as int), 3),
        decreases solves.len() - i,
    {
        let solve_set: [i32; 4] = solves[i];
        lane0.push(solve_set[0]);
        lane1.push(solve_set[1]);
        lane2.push(solve_set[2]);
        lane3.push(solve_set[3]);
        assert(lane0@ =~= spec_lane(solves@.take(i + 1), 0));
        assert(lane1@ =~= spec_lane(solves@.take(i + 1), 1));
        assert(lane2@ =~= spec_lane(solves@.take(i + 1), 2));
        assert(lane3@ =~= spec_lane(solves@.take(i + 1), 3));
        i += 1;
    }
    assert(solves@.take(i as int) =~= solves@);
    [lane0, lane1, lane2, lane3]
}

} // verus!
