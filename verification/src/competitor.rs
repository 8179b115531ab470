//! Competitors: their history, the results entered for them, and the
//! summary of their fitted time distribution.

use crate::calc::{non_dnf_results, spec_non_dnf_results, DatedAttempt};
use crate::simd::{div_toward_zero, DNF_VALUE};
use vstd::multiset::Multiset;
use vstd::prelude::*;
use vstd::seq_lib::{commutative_foldl, lemma_fold_left_permutation, lemma_multiset_commutative};

verus! {

/// The attempts of one competitor at one past competition.
#[derive(Debug, Clone)]
pub struct DatedCompetitionResult {
    /// Age of the competition in days.
    pub days_since: i32,
    /// Attempt times in centiseconds, in the order they were made; a
    /// negative entry is a failed attempt.
    pub results: Vec<i32>,
}

/// What a fit to the successful attempts of a history hands over.  The four
/// parameters of the distribution are carried as the bits of IEEE 754
/// single precision numbers: the library passes them on to the sampler and
/// asks one thing of them, whether they are finite.
#[derive(Debug, Clone, Copy)]
pub struct FittedParameters {
    /// Location of the distribution, as bits.
    pub location: u32,
    /// Scale of the distribution, as bits.
    pub shape: u32,
    /// Skew of the distribution, as bits.
    pub skew: u32,
    /// Probability that an attempt fails, as bits.
    pub dnf_rate: u32,
    /// Weighted mean of the successful attempts, in whole centiseconds.
    pub mean: u32,
    /// Weighted standard deviation of the successful attempts, in whole
    /// centiseconds.
    pub stdev: u32,
}

/// The distribution fitted to a competitor's successful attempts.
#[derive(Debug, Clone, Copy)]
pub struct CompetitorStats {
    /// Location of the distribution, as the bits of an IEEE 754 single
    /// precision number.
    pub location: u32,
    /// Scale of the distribution, as bits.
    pub shape: u32,
    /// Skew of the distribution, as bits.
    pub skew: u32,
    /// Probability that an attempt fails, as bits.
    pub dnf_rate: u32,
    /// Weighted mean of the successful attempts, in whole centiseconds.
    pub mean: u32,
    /// Weighted standard deviation of the successful attempts, in whole
    /// centiseconds.
    pub stdev: u32,
    /// Number of successful attempts in the history, capped at `u32::MAX`.
    pub num_non_dnf_results: u32,
}

/// The bits of the exponent of an IEEE 754 single precision number.
pub const EXPONENT_BITS: u32 = 0x7f80_0000;

/// Whether `bits` are the bits of a finite IEEE 754 single precision
/// number: neither an infinity nor a NaN, which are the numbers whose
/// exponent bits are all set.
pub open spec fn spec_is_finite(bits: u32) -> bool {
    bits & EXPONENT_BITS != EXPONENT_BITS
}

/// Whether attempts can be sampled for a competitor with the given stats:
/// there are stats, and every parameter of the distribution is finite.
pub open spec fn spec_can_sample(stats: Option<CompetitorStats>) -> bool {
    match stats {
        Some(s) => spec_is_finite(s.location) && spec_is_finite(s.shape) && spec_is_finite(s.skew)
            && spec_is_finite(s.dnf_rate),
        None => false,
    }
}

/// Whether `bits` are the bits of a finite IEEE 754 single precision
/// number.
pub fn is_finite(bits: u32) -> (r: bool)
    ensures
        r == spec_is_finite(bits),
{
    bits & EXPONENT_BITS != EXPONENT_BITS
}

impl CompetitorStats {
    /// Whether every parameter of the distribution is finite.
    pub fn can_sample(&self) -> (r: bool)
        ensures
            r == spec_can_sample(Some(*self)),
    {
        is_finite(self.location) && is_finite(self.shape) && is_finite(self.skew) && is_finite(
            self.dnf_rate,
        )
    }
}

/// One participant of the simulated competition.
pub struct Competitor {
    pub name: String,
    pub results: Vec<DatedCompetitionResult>,
    /// Results already known for the simulated round, one per attempt slot:
    /// zero for a slot that is still open, a negative number for a failed
    /// attempt, a time otherwise.
    pub entered_results: Vec<i32>,
    /// `None` where the history holds no successful attempt.
    pub stats: Option<CompetitorStats>,
}

/// The attempts of one result set, each with the set's age.
pub open spec fn spec_attempts_of(set: DatedCompetitionResult) -> Seq<DatedAttempt> {
    Seq::new(
        set.results@.len(),
        |i: int| DatedAttempt { time: set.results@[i], days_since: set.days_since },
    )
}

/// All attempts of a history, result set by result set.
pub open spec fn spec_dated_attempts(results: Seq<DatedCompetitionResult>) -> Seq<DatedAttempt>
    decreases results.len(),
{
    if results.len() == 0 {
        Seq::empty()
    } else {
        spec_dated_attempts(results.drop_last()) + spec_attempts_of(results.last())
    }
}

/// Number of successful attempts in a history.
pub open spec fn spec_sample_size(results: Seq<DatedCompetitionResult>) -> nat {
    spec_non_dnf_results(spec_dated_attempts(results)).len()
}

/// What is entered for attempt slot `slot`: zero where nothing is.
pub open spec fn entered_at(entered: Seq<i32>, slot: int) -> i32 {
    if 0 <= slot < entered.len() {
        entered[slot]
    } else {
        0
    }
}

/// The stats of a competitor with the given history and fit: none where
/// the history holds no successful attempt.
pub open spec fn spec_stats(results: Seq<DatedCompetitionResult>, fit: FittedParameters) -> Option<
    CompetitorStats,
> {
    let n = spec_sample_size(results);
    if n == 0 {
        None
    } else {
        Some(
            CompetitorStats {
                location: fit.location,
                shape: fit.shape,
                skew: fit.skew,
                dnf_rate: fit.dnf_rate,
                mean: fit.mean,
                stdev: fit.stdev,
                num_non_dnf_results: if n <= u32::MAX {
                    n as u32
                } else {
                    u32::MAX
                },
            },
        )
    }
}

/// Histogram buckets that a competitor's times are expected to fall in:
/// four standard deviations either side of the mean.  A competitor without
/// stats has the empty range `(i32::MAX, 0)`.
pub open spec fn spec_person_hist_bounds(stats: Option<CompetitorStats>) -> (i32, i32) {
    match stats {
        Some(s) => (
            div_toward_zero(s.mean - 4 * s.stdev, 10) as i32,
            div_toward_zero(s.mean + 4 * s.stdev, 10) as i32,
        ),
        None => (i32::MAX, 0i32),
    }
}

impl Competitor {
    /// A competitor with the given history and no entered results.  `fit`
    /// is what was fitted to the history; it is kept only where the history
    /// holds a successful attempt.
    pub fn new(name: String, results: Vec<DatedCompetitionResult>, fit: FittedParameters) -> (r:
        Self)
        ensures
            r.name == name,
            r.results == results,
            r.entered_results@ == Seq::<i32>::empty(),
            r.stats == spec_stats(results@, fit),
    {
        let stats = Competitor::calculate_stats(&results, fit);
        Self { name, results, entered_results: Vec::new(), stats }
    }

    /// The stats of a history: none where it holds no successful attempt,
    /// else what was fitted with the number of successful attempts.
    pub fn calculate_stats(results: &Vec<DatedCompetitionResult>, fit: FittedParameters) -> (r:
        Option<CompetitorStats>)
        ensures
            r == spec_stats(results@, fit),
    {
        let attempts = Competitor::dated_attempts(results);
        let successful = non_dnf_results(attempts);
        let n: usize = successful.len();
        if n == 0 {
            return None;
        }
        let num_non_dnf_results: u32 = if n <= u32::MAX as usize {
            n as u32
        } else {
            u32::MAX
        };
        Some(
            CompetitorStats {
                location: fit.location,
                shape: fit.shape,
                skew: fit.skew,
                dnf_rate: fit.dnf_rate,
                mean: fit.mean,
                stdev: fit.stdev,
                num_non_dnf_results,
            },
        )
    }

    /// Every attempt of the history with the age of its competition, in the
    /// order of the history.
    pub fn dated_attempts(results: &Vec<DatedCompetitionResult>) -> (r: Vec<DatedAttempt>)
        ensures
            r@ == spec_dated_attempts(results@),
    {
        let mut out: Vec<DatedAttempt> = Vec::new();
        let mut i: usize = 0;
        while i < results.len()
            invariant
                i <= results.len(),
                out@ == spec_dated_attempts(results@.take(i as int)),
            decreases results.len() - i,
        {
            let set = &results[i];
            let ghost before = out@;
            let mut j: usize = 0;
            while j < set.results.len()
                invariant
                    j <= set.results.len(),
                    out@ == before + spec_attempts_of(*set).take(j as int),
                decreases set.results.len() - j,
            {
                out.push(DatedAttempt { time: set.results[j], days_since: set.days_since });
                assert(spec_attempts_of(*set).take(j + 1) =~= spec_attempts_of(*set).take(
                    j as int,
                ).push(spec_attempts_of(*set)[j as int]));
                j += 1;
            }
            assert(spec_attempts_of(*set).take(j as int) =~= spec_attempts_of(*set));
            assert(results@.take(i + 1).drop_last() =~= results@.take(i as int));
            i += 1;
        }
        assert(results@.take(i as int) =~= results@);
        out
    }

    /// Replaces the results entered for the simulated round.
    pub fn add_entered_results(&mut self, results: Vec<i32>)
        ensures
            final(self).entered_results == results,
            final(self).name == old(self).name,
            final(self).results == old(self).results,
            final(self).stats == old(self).stats,
    {
        self.entered_results = results;
    }

    /// Number of successful attempts in the history; zero without stats.
    pub fn get_sample_size(&self) -> (r: u32)
        ensures
            r == match self.stats {
                Some(s) => s.num_non_dnf_results,
                None => 0,
            },
    {
        match &self.stats {
            Some(s) => s.num_non_dnf_results,
            None => 0,
        }
    }

    /// Mean of the successful attempts; the failure time without stats.
    pub fn get_mean(&self) -> (r: u32)
        ensures
            r == match self.stats {
                Some(s) => s.mean,
                None => DNF_VALUE as u32,
            },
    {
        match &self.stats {
            Some(s) => s.mean,
            None => DNF_VALUE as u32,
        }
    }

    /// The range of histogram buckets this competitor asks for.
    pub fn get_person_hist_bounds(&self) -> (r: (i32, i32))
        ensures
            r == spec_person_hist_bounds(self.stats),
    {
        match &self.stats {
            Some(s) => {
                let spread: i64 = 4 * (s.stdev as i64);
                let hist_min: i64 = (s.mean as i64 - spread) / 10;
                let hist_max: i64 = (s.mean as i64 + spread) / 10;
                (hist_min as i32, hist_max as i32)
            },
            None => (i32::MAX, 0),
        }
    }
}

/// The successful attempts of the first result sets of a history and of
/// one more, as a bag.
spec fn with_successes_of(bag: Multiset<DatedAttempt>, set: DatedCompetitionResult) -> Multiset<
    DatedAttempt,
> {
    bag.add(spec_non_dnf_results(spec_attempts_of(set)).to_multiset())
}

/// The attempts of the first result sets of a history and of one more, as
/// a bag.
spec fn with_attempts_of(bag: Multiset<DatedAttempt>, set: DatedCompetitionResult) -> Multiset<
    DatedAttempt,
> {
    bag.add(spec_attempts_of(set).to_multiset())
}

/// The bag of the attempts of a history is gathered result set by result
/// set, and so is the bag of its successful attempts.
proof fn lemma_attempts_gathered(results: Seq<DatedCompetitionResult>)
    ensures
        spec_dated_attempts(results).to_multiset() == results.fold_left(
            Multiset::empty(),
            |bag: Multiset<DatedAttempt>, set: DatedCompetitionResult| with_attempts_of(bag, set),
        ),
        spec_non_dnf_results(spec_dated_attempts(results)).to_multiset() == results.fold_left(
            Multiset::empty(),
            |bag: Multiset<DatedAttempt>, set: DatedCompetitionResult| with_successes_of(bag, set),
        ),
    decreases results.len(),
{
    let all = |bag: Multiset<DatedAttempt>, set: DatedCompetitionResult| with_attempts_of(bag, set);
    let good = |bag: Multiset<DatedAttempt>, set: DatedCompetitionResult|
        with_successes_of(bag, set);
    if results.len() == 0 {
        broadcast use {
            vstd::seq_lib::group_to_multiset_ensures,
            vstd::multiset::group_multiset_axioms,
        };

        assert(spec_dated_attempts(results).to_multiset().len() == 0);
        assert(spec_dated_attempts(results).to_multiset() =~= Multiset::empty());
        assert(spec_non_dnf_results(spec_dated_attempts(results)) =~= Seq::empty()) by {
            reveal(Seq::filter);
        }
        assert(spec_non_dnf_results(spec_dated_attempts(results)).to_multiset()
            =~= Multiset::empty());
    } else {
        lemma_attempts_gathered(results.drop_last());
        let before = spec_dated_attempts(results.drop_last());
        let last = spec_attempts_of(results.last());
        lemma_multiset_commutative(before, last);
        Seq::filter_distributes_over_add(before, last, |a: DatedAttempt| a.time > 0);
        lemma_multiset_commutative(spec_non_dnf_results(before), spec_non_dnf_results(last));
    }
}

/// The attempts that a fit rests on do not depend on the order of the
/// history: two histories that hold the same result sets hold the same
/// attempts and the same successful attempts, each as often, and so give
/// the same sample size and the same stats.
pub proof fn lemma_sample_ignores_order(
    first: Seq<DatedCompetitionResult>,
    second: Seq<DatedCompetitionResult>,
)
    requires
        first.to_multiset() == second.to_multiset(),
    ensures
        spec_dated_attempts(first).to_multiset() == spec_dated_attempts(second).to_multiset(),
        spec_non_dnf_results(spec_dated_attempts(first)).to_multiset() == spec_non_dnf_results(
            spec_dated_attempts(second),
        ).to_multiset(),
        spec_sample_size(first) == spec_sample_size(second),
        forall|fit: FittedParameters| #[trigger] spec_stats(first, fit) == spec_stats(second, fit),
{
    let all = |bag: Multiset<DatedAttempt>, set: DatedCompetitionResult| with_attempts_of(bag, set);
    let good = |bag: Multiset<DatedAttempt>, set: DatedCompetitionResult|
        with_successes_of(bag, set);
    assert(commutative_foldl(all)) by {
        assert forall|
            x: DatedCompetitionResult,
            y: DatedCompetitionResult,
            v: Multiset<DatedAttempt>,
        | #[trigger] all(all(v, x), y) == all(all(v, y), x) by {
            assert(with_attempts_of(with_attempts_of(v, x), y) =~= with_attempts_of(
                with_attempts_of(v, y),
                x,
            ));
        }
    }
    assert(commutative_foldl(good)) by {
        assert forall|
            x: DatedCompetitionResult,
            y: DatedCompetitionResult,
            v: Multiset<DatedAttempt>,
        | #[trigger] good(good(v, x), y) == good(good(v, y), x) by {
            assert(with_successes_of(with_successes_of(v, x), y) =~= with_successes_of(
                with_successes_of(v, y),
                x,
            ));
        }
    }
    lemma_fold_left_permutation(first, second, all, Multiset::empty());
    lemma_fold_left_permutation(first, second, good, Multiset::empty());
    lemma_attempts_gathered(first);
    lemma_attempts_gathered(second);
    spec_non_dnf_results(spec_dated_attempts(first)).to_multiset_ensures();
    spec_non_dnf_results(spec_dated_attempts(second)).to_multiset_ensures();
}

} // verus!
