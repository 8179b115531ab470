//! What a run accumulates about the places of each competitor, stated over
//! the rounds that were simulated.

use crate::calc::{lemma_ranking_exists, places_ahead, ranking};
use vstd::prelude::*;

verus! {

/// The place counts of one competitor.
pub struct Tally {
    /// Rounds won.
    pub win_count: int,
    /// Rounds finished on the podium, that is among the first three.
    pub pod_count: int,
    /// Sum over the rounds of the competitor's rank, counted from one.
    pub total_rank: int,
    /// For every place, counted from zero, the number of rounds finished
    /// there.
    pub rank_dist: Seq<int>,
}

/// The place of competitor `c` in a round, counted from zero.
pub open spec fn place_of(values: Seq<i32>, c: int) -> int {
    ranking(values).index_of(c)
}

/// The tally of a competitor of a field of `n` before any round.
pub open spec fn zero_tally(n: nat) -> Tally {
    Tally { win_count: 0, pod_count: 0, total_rank: 0, rank_dist: Seq::new(n, |p: int| 0int) }
}

/// `t` after one more round that the competitor finished in place `place`.
pub open spec fn tally_round(t: Tally, place: int) -> Tally {
    Tally {
        win_count: t.win_count + if place == 0 {
            1int
        } else {
            0int
        },
        pod_count: t.pod_count + if place < 3 {
            1int
        } else {
            0int
        },
        total_rank: t.total_rank + place + 1,
        rank_dist: t.rank_dist.update(place, t.rank_dist[place] + 1),
    }
}

/// The tally of competitor `c` of a field of `n` after the given rounds,
/// each round being the results of all competitors.
pub open spec fn tally_rounds(n: nat, rounds: Seq<Seq<i32>>, c: int) -> Tally
    decreases rounds.len(),
{
    if rounds.len() == 0 {
        zero_tally(n)
    } else {
        tally_round(tally_rounds(n, rounds.drop_last(), c), place_of(rounds.last(), c))
    }
}

/// Sum of the entries of `s`.
pub open spec fn sum_of(s: Seq<int>) -> int
    decreases s.len(),
{
    if s.len() == 0 {
        0
    } else {
        sum_of(s.drop_last()) + s.last()
    }
}

/// Wins of the first `k` competitors together.
pub open spec fn total_wins(n: nat, rounds: Seq<Seq<i32>>, k: nat) -> int
    decreases k,
{
    if k == 0 {
        0
    } else {
        total_wins(n, rounds, (k - 1) as nat) + tally_rounds(n, rounds, k - 1).win_count
    }
}

/// Podiums of the first `k` competitors together.
pub open spec fn total_podiums(n: nat, rounds: Seq<Seq<i32>>, k: nat) -> int
    decreases k,
{
    if k == 0 {
        0
    } else {
        total_podiums(n, rounds, (k - 1) as nat) + tally_rounds(n, rounds, k - 1).pod_count
    }
}

/// Whether every round holds a result for each of `n` competitors.
pub open spec fn rounds_of_field(n: nat, rounds: Seq<Seq<i32>>) -> bool {
    forall|i: int| 0 <= i < rounds.len() ==> (#[trigger] rounds[i]).len() == n
}

/// Number of the first `k` competitors that finished a round in `place`.
pub open spec fn finishers(values: Seq<i32>, place: int, k: nat) -> int
    decreases k,
{
    if k == 0 {
        0
    } else {
        finishers(values, place, (k - 1) as nat) + if place_of(values, k - 1) == place {
            1int
        } else {
            0int
        }
    }
}

/// In a round every competitor has a place of its own among the places
/// `0 .. n`, and every place is taken.
pub proof fn lemma_places(values: Seq<i32>)
    ensures
        forall|c: int|
            0 <= c < values.len() ==> 0 <= #[trigger] place_of(values, c) < values.len()
                && ranking(values)[place_of(values, c)] == c,
        forall|p: int|
            0 <= p < values.len() ==> place_of(values, #[trigger] ranking(values)[p]) == p,
        forall|a: int, b: int|
            0 <= a < values.len() && 0 <= b < values.len() && a != b ==> #[trigger] place_of(
                values,
                a,
            ) != #[trigger] place_of(values, b),
{
    lemma_ranking_exists(values);
    let order = ranking(values);
    assert forall|c: int| 0 <= c < values.len() implies 0 <= #[trigger] place_of(values, c)
        < values.len() && order[place_of(values, c)] == c by {
        assert(order.contains(c));
    }
    assert forall|p: int| 0 <= p < values.len() implies place_of(values, #[trigger] order[p])
        == p by {
        let c = order[p];
        let q = place_of(values, c);
        assert(order.contains(c));
        if q < p {
            assert(places_ahead(values, order[q], order[p]));
        } else if p < q {
            assert(places_ahead(values, order[p], order[q]));
        }
    }
}

/// A competitor that places ahead of another has the lower place.
pub proof fn lemma_ahead_means_lower_place(values: Seq<i32>, a: int, b: int)
    requires
        0 <= a < values.len(),
        0 <= b < values.len(),
        places_ahead(values, a, b),
    ensures
        place_of(values, a) < place_of(values, b),
{
    lemma_places(values);
    lemma_ranking_exists(values);
    let order = ranking(values);
    let pa = place_of(values, a);
    let pb = place_of(values, b);
    if pb < pa {
        assert(places_ahead(values, order[pb], order[pa]));
    }
}

/// Exactly one competitor finishes a round in each place.
pub proof fn lemma_one_finisher(values: Seq<i32>, place: int, k: nat)
    requires
        0 <= place < values.len(),
        k <= values.len(),
    ensures
        finishers(values, place, k) == if ranking(values)[place] < k {
            1int
        } else {
            0int
        },
    decreases k,
{
    lemma_places(values);
    lemma_ranking_exists(values);
    if k > 0 {
        lemma_one_finisher(values, place, (k - 1) as nat);
        let c = k - 1;
        assert(ranking(values)[place_of(values, c)] == c);
        assert(place_of(values, ranking(values)[place]) == place);
    }
}

/// Raising one entry of a sequence by one raises its sum by one.
proof fn lemma_sum_of_update(s: Seq<int>, i: int)
    requires
        0 <= i < s.len(),
    ensures
        sum_of(s.update(i, s[i] + 1)) == sum_of(s) + 1,
    decreases s.len(),
{
    let t = s.update(i, s[i] + 1);
    if i == s.len() - 1 {
        assert(t.drop_last() =~= s.drop_last());
    } else {
        lemma_sum_of_update(s.drop_last(), i);
        assert(t.drop_last() =~= s.drop_last().update(i, s[i] + 1));
    }
}

/// A sequence of zeros sums to zero.
proof fn lemma_sum_of_zeros(n: nat)
    ensures
        sum_of(Seq::new(n, |p: int| 0int)) == 0,
    decreases n,
{
    if n > 0 {
        lemma_sum_of_zeros((n - 1) as nat);
        assert(Seq::new(n, |p: int| 0int).drop_last() =~= Seq::new((n - 1) as nat, |p: int| 0int));
    }
}

/// No entry of a sequence of non-negative numbers exceeds their sum.
proof fn lemma_entry_at_most_sum(s: Seq<int>, i: int)
    requires
        0 <= i < s.len(),
        forall|q: int| 0 <= q < s.len() ==> 0 <= s[q],
    ensures
        0 <= s[i] <= sum_of(s),
        0 <= sum_of(s),
    decreases s.len(),
{
    if s.len() > 1 {
        if i < s.len() - 1 {
            lemma_entry_at_most_sum(s.drop_last(), i);
        } else {
            lemma_entry_at_most_sum(s.drop_last(), 0);
        }
    } else {
        assert(s.drop_last().len() == 0);
        assert(sum_of(s.drop_last()) == 0);
    }
}

/// The shape of a tally: one entry per place, none negative, as many
/// finishes in all as there were rounds, and no count above that number.
pub proof fn lemma_tally_shape(n: nat, rounds: Seq<Seq<i32>>, c: int)
    requires
        rounds_of_field(n, rounds),
        0 <= c < n,
    ensures
        tally_rounds(n, rounds, c).rank_dist.len() == n,
        forall|q: int| 0 <= q < n ==> 0 <= #[trigger] tally_rounds(n, rounds, c).rank_dist[q],
        sum_of(tally_rounds(n, rounds, c).rank_dist) == rounds.len(),
        forall|q: int|
            0 <= q < n ==> #[trigger] tally_rounds(n, rounds, c).rank_dist[q] <= rounds.len(),
        0 <= tally_rounds(n, rounds, c).win_count <= rounds.len(),
        0 <= tally_rounds(n, rounds, c).pod_count <= rounds.len(),
        0 <= tally_rounds(n, rounds, c).total_rank <= n * rounds.len(),
    decreases rounds.len(),
{
    let t = tally_rounds(n, rounds, c);
    if rounds.len() == 0 {
        lemma_sum_of_zeros(n);
    } else {
        let before = tally_rounds(n, rounds.drop_last(), c);
        lemma_tally_shape(n, rounds.drop_last(), c);
        lemma_places(rounds.last());
        let place = place_of(rounds.last(), c);
        assert(0 <= place < n);
        lemma_sum_of_update(before.rank_dist, place);
        assert(n * rounds.len() == n * (rounds.len() - 1) + n) by (nonlinear_arith);
    }
    assert forall|q: int| 0 <= q < n implies #[trigger] t.rank_dist[q] <= rounds.len() by {
        lemma_entry_at_most_sum(t.rank_dist, q);
    }
}

/// A competitor's wins are its finishes in place zero, its podiums its
/// finishes in the first three places.
pub proof fn lemma_wins_and_podiums(n: nat, rounds: Seq<Seq<i32>>, c: int)
    requires
        rounds_of_field(n, rounds),
        0 <= c < n,
    ensures
        tally_rounds(n, rounds, c).win_count == tally_rounds(n, rounds, c).rank_dist[0],
        tally_rounds(n, rounds, c).pod_count == tally_rounds(n, rounds, c).rank_dist[0] + (if n
            > 1 {
            tally_rounds(n, rounds, c).rank_dist[1]
        } else {
            0
        }) + (if n > 2 {
            tally_rounds(n, rounds, c).rank_dist[2]
        } else {
            0
        }),
    decreases rounds.len(),
{
    if rounds.len() > 0 {
        lemma_wins_and_podiums(n, rounds.drop_last(), c);
        lemma_tally_shape(n, rounds.drop_last(), c);
        lemma_places(rounds.last());
    }
}

/// One more round gives one more win in all.
proof fn lemma_wins_step(n: nat, rounds: Seq<Seq<i32>>, k: nat)
    requires
        rounds.len() > 0,
    ensures
        total_wins(n, rounds, k) == total_wins(n, rounds.drop_last(), k) + finishers(
            rounds.last(),
            0,
            k,
        ),
    decreases k,
{
    if k > 0 {
        lemma_wins_step(n, rounds, (k - 1) as nat);
    }
}

/// One more round gives as many more podiums in all as competitors
/// finished it in the first three places.
proof fn lemma_podiums_step(n: nat, rounds: Seq<Seq<i32>>, k: nat)
    requires
        rounds.len() > 0,
        k <= rounds.last().len(),
    ensures
        total_podiums(n, rounds, k) == total_podiums(n, rounds.drop_last(), k) + finishers(
            rounds.last(),
            0,
            k,
        ) + finishers(rounds.last(), 1, k) + finishers(rounds.last(), 2, k),
    decreases k,
{
    if k > 0 {
        lemma_podiums_step(n, rounds, (k - 1) as nat);
        lemma_places(rounds.last());
    }
}

/// Every round has one winner: over any run, the wins of all competitors
/// add up to the number of rounds.
pub proof fn lemma_total_wins(n: nat, rounds: Seq<Seq<i32>>)
    requires
        n >= 1,
        rounds_of_field(n, rounds),
    ensures
        total_wins(n, rounds, n) == rounds.len(),
    decreases rounds.len(),
{
    if rounds.len() == 0 {
        assert(rounds =~= Seq::<Seq<i32>>::empty());
        lemma_no_rounds(n, n);
    } else {
        assert(rounds.last().len() == n);
        lemma_total_wins(n, rounds.drop_last());
        lemma_wins_step(n, rounds, n);
        lemma_ranking_exists(rounds.last());
        lemma_one_finisher(rounds.last(), 0, n);
        assert(0 <= ranking(rounds.last())[0] < n);
    }
}

/// Every round of three or more competitors has three podium places: over
/// any run, the podiums of all competitors add up to three times the number
/// of rounds.
pub proof fn lemma_total_podiums(n: nat, rounds: Seq<Seq<i32>>)
    requires
        n >= 3,
        rounds_of_field(n, rounds),
    ensures
        total_podiums(n, rounds, n) == 3 * rounds.len(),
    decreases rounds.len(),
{
    if rounds.len() == 0 {
        assert(rounds =~= Seq::<Seq<i32>>::empty());
        lemma_no_rounds(n, n);
    } else {
        assert(rounds.last().len() == n);
        assert(0 <= ranking(rounds.last())[0] < n && 0 <= ranking(rounds.last())[1] < n && 0
            <= ranking(rounds.last())[2] < n) by {
            lemma_ranking_exists(rounds.last());
        }
        lemma_total_podiums(n, rounds.drop_last());
        lemma_podiums_step(n, rounds, n);
        lemma_ranking_exists(rounds.last());
        lemma_one_finisher(rounds.last(), 0, n);
        lemma_one_finisher(rounds.last(), 1, n);
        lemma_one_finisher(rounds.last(), 2, n);
    }
}

/// Every competitor finishes every round in exactly one place: its rank
/// distribution adds up to the number of rounds.
pub proof fn lemma_rank_distribution_total(n: nat, rounds: Seq<Seq<i32>>, c: int)
    requires
        rounds_of_field(n, rounds),
        0 <= c < n,
    ensures
        sum_of(tally_rounds(n, rounds, c).rank_dist) == rounds.len(),
{
    lemma_tally_shape(n, rounds, c);
}

/// Whether every other competitor places ahead of `c` in the round.
pub open spec fn all_others_ahead(values: Seq<i32>, c: int) -> bool {
    forall|k: int| 0 <= k < values.len() && k != c ==> #[trigger] places_ahead(values, k, c)
}

/// A competitor that every other competitor places ahead of finishes the
/// round last.
pub proof fn lemma_last_place(values: Seq<i32>, c: int)
    requires
        0 <= c < values.len(),
        all_others_ahead(values, c),
    ensures
        place_of(values, c) == values.len() - 1,
{
    lemma_places(values);
    lemma_ranking_exists(values);
    let last = values.len() - 1;
    let k = ranking(values)[last];
    if k != c {
        assert(places_ahead(values, k, c));
        lemma_ahead_means_lower_place(values, k, c);
        assert(place_of(values, k) == last);
    }
}

/// A competitor that every other competitor places ahead of in every round
/// finishes every round last: it never wins in a field of two or more, and
/// never stands on the podium in a field of four or more.
pub proof fn lemma_last_in_every_round(n: nat, rounds: Seq<Seq<i32>>, c: int)
    requires
        rounds_of_field(n, rounds),
        0 <= c < n,
        forall|i: int| 0 <= i < rounds.len() ==> all_others_ahead(#[trigger] rounds[i], c),
    ensures
        tally_rounds(n, rounds, c).rank_dist[n - 1] == rounds.len(),
        tally_rounds(n, rounds, c).total_rank == n * rounds.len(),
        n >= 2 ==> tally_rounds(n, rounds, c).win_count == 0,
        n >= 4 ==> tally_rounds(n, rounds, c).pod_count == 0,
    decreases rounds.len(),
{
    if rounds.len() > 0 {
        let rest = rounds.drop_last();
        assert forall|i: int| 0 <= i < rest.len() implies all_others_ahead(
            #[trigger] rest[i],
            c,
        ) by {
            assert(rest[i] == rounds[i]);
        }
        lemma_last_in_every_round(n, rest, c);
        lemma_tally_shape(n, rest, c);
        assert(rounds.last() == rounds[rounds.len() - 1]);
        lemma_last_place(rounds.last(), c);
        assert(n * rounds.len() == n * (rounds.len() - 1) + n) by (nonlinear_arith);
    }
}

/// A competitor with a lower result than `c` in a round keeps `c` from
/// winning it.
pub proof fn lemma_beaten_does_not_win(values: Seq<i32>, c: int, k: int)
    requires
        0 <= c < values.len(),
        0 <= k < values.len(),
        values[k] < values[c],
    ensures
        place_of(values, c) > 0,
{
    lemma_places(values);
    lemma_ahead_means_lower_place(values, k, c);
}

/// Before any round nobody has won or stood on the podium.
proof fn lemma_no_rounds(n: nat, k: nat)
    ensures
        total_wins(n, Seq::<Seq<i32>>::empty(), k) == 0,
        total_podiums(n, Seq::<Seq<i32>>::empty(), k) == 0,
    decreases k,
{
    if k > 0 {
        lemma_no_rounds(n, (k - 1) as nat);
    }
}

} // verus!
