//! Bounded frequency counts over coarsened times.

use crate::simd::{div_toward_zero, DNF_VALUE};
use std::collections::HashMap;
use vstd::prelude::*;

verus! {

broadcast use vstd::std_specs::hash::group_hash_axioms;

/// Width of a bucket in centiseconds: a time falls in the bucket that its
/// tenth, rounded towards zero, names.
pub const BUCKET_WIDTH: i32 = 10;

/// Whether `value` is one of the two reserved results that stand for a
/// failed attempt and are never counted.
pub open spec fn is_reserved(value: int) -> bool {
    value == i32::MAX || value == DNF_VALUE
}

/// The bucket of a time.
pub open spec fn bucket_of(value: int) -> int {
    div_toward_zero(value, BUCKET_WIDTH as int)
}

/// The count that follows `count`: one more, except that a full counter
/// stays full.
pub open spec fn next_count(count: i32) -> i32 {
    if count < i32::MAX {
        (count + 1) as i32
    } else {
        i32::MAX
    }
}

/// `counts` with the count of `bucket` raised by one; a bucket that is not
/// in the map counts as zero.
pub open spec fn bump(counts: Map<i32, i32>, bucket: i32) -> Map<i32, i32> {
    if counts.contains_key(bucket) {
        counts.insert(bucket, next_count(counts[bucket]))
    } else {
        counts.insert(bucket, 1i32)
    }
}

/// `counts` after a bucket is offered to a histogram over `[min, max)`.
pub open spec fn counts_with_bucket(counts: Map<i32, i32>, min: i32, max: i32, bucket: i32) -> Map<
    i32,
    i32,
> {
    if min <= bucket < max {
        bump(counts, bucket)
    } else {
        counts
    }
}

/// `counts` after a time is offered to a histogram over `[min, max)`.
pub open spec fn counts_with_time(counts: Map<i32, i32>, min: i32, max: i32, value: i32) -> Map<
    i32,
    i32,
> {
    if is_reserved(value as int) {
        counts
    } else {
        counts_with_bucket(counts, min, max, bucket_of(value as int) as i32)
    }
}

/// `counts` after the first `n` of `values` are offered in order.
pub open spec fn counts_with_times(
    counts: Map<i32, i32>,
    min: i32,
    max: i32,
    values: Seq<i32>,
    n: nat,
) -> Map<i32, i32>
    decreases n,
{
    if n == 0 {
        counts
    } else {
        counts_with_time(
            counts_with_times(counts, min, max, values, (n - 1) as nat),
            min,
            max,
            values[n - 1],
        )
    }
}

/// Frequency table over the buckets `min, min + 1, .., max - 1`.
#[derive(Debug)]
pub struct Histogram {
    min: i32,
    max: i32,
    times: HashMap<i32, i32>,
}

impl View for Histogram {
    type V = Map<i32, i32>;

    /// The count of every bucket that has been hit.
    closed spec fn view(&self) -> Map<i32, i32> {
        self.times@
    }
}

impl Histogram {
    /// Lowest bucket that is counted.
    pub closed spec fn spec_min(&self) -> i32 {
        self.min
    }

    /// First bucket above the counted range.
    pub closed spec fn spec_max(&self) -> i32 {
        self.max
    }

    /// An empty histogram over the buckets `[min, max)`.
    pub fn new_with_bounds(min: i32, max: i32) -> (r: Self)
        ensures
            r.spec_min() == min,
            r.spec_max() == max,
            r@ == Map::<i32, i32>::empty(),
    {
        Self { min, max, times: HashMap::new() }
    }

    /// Lowest bucket that is counted.
    #[verifier::when_used_as_spec(spec_min)]
    pub fn min(&self) -> (r: i32)
        ensures
            r == self.spec_min(),
    {
        self.min
    }

    /// First bucket above the counted range.
    #[verifier::when_used_as_spec(spec_max)]
    pub fn max(&self) -> (r: i32)
        ensures
            r == self.spec_max(),
    {
        self.max
    }

    /// Counts one hit of bucket `value` if it lies in `[min, max)`, and does
    /// nothing otherwise.
    pub fn add_value(&mut self, value: i32)
        ensures
            final(self).spec_min() == old(self).spec_min(),
            final(self).spec_max() == old(self).spec_max(),
            final(self)@ == counts_with_bucket(
                old(self)@,
                old(self).spec_min(),
                old(self).spec_max(),
                value,
            ),
    {
        if value < self.min || value >= self.max {
            return ;
        }
        let count: i32 = match self.times.get(&value) {
            Some(c) => *c,
            None => 0,
        };
        let next: i32 = if count < i32::MAX {
            count + 1
        } else {
            count
        };
        self.times.insert(value, next);
    }

    /// Records a time: a reserved failure result is dropped, any other time
    /// is coarsened to its bucket and counted if the bucket is in range.
    pub fn add(&mut self, value: i32)
        ensures
            final(self).spec_min() == old(self).spec_min(),
            final(self).spec_max() == old(self).spec_max(),
            final(self)@ == counts_with_time(
                old(self)@,
                old(self).spec_min(),
                old(self).spec_max(),
                value,
            ),
    {
        if value == i32::MAX || value == DNF_VALUE {
            return ;
        }
        self.add_value(value / BUCKET_WIDTH);
    }

    /// The counts, keyed by bucket.
    pub fn data(self) -> (r: HashMap<i32, i32>)
        ensures
            r@ == self@,
    {
        self.times
    }
}

/// Offering a bucket outside `[min, max)` changes nothing, and offering one
/// inside changes the count of that bucket alone.
pub proof fn lemma_add_touches_one_bucket(counts: Map<i32, i32>, min: i32, max: i32, bucket: i32)
    ensures
        !(min <= bucket < max) ==> counts_with_bucket(counts, min, max, bucket) == counts,
        forall|other: i32|
            other != bucket ==> (#[trigger] counts_with_bucket(
                counts,
                min,
                max,
                bucket,
            ).contains_key(other) <==> counts.contains_key(other)),
        forall|other: i32|
            other != bucket && counts.contains_key(other) ==> #[trigger] counts_with_bucket(
                counts,
                min,
                max,
                bucket,
            )[other] == counts[other],
{
}

/// Every bucket that a histogram over `[min, max)` counts lies in
/// `[min, max)`, however many times are offered, if that held at the start.
pub proof fn lemma_counts_stay_in_range(
    counts: Map<i32, i32>,
    min: i32,
    max: i32,
    values: Seq<i32>,
    n: nat,
)
    requires
        n <= values.len(),
        forall|b: i32| counts.contains_key(b) ==> min <= b < max,
    ensures
        forall|b: i32| #[trigger]
            counts_with_times(counts, min, max, values, n).contains_key(b) ==> min <= b < max,
    decreases n,
{
    if n > 0 {
        lemma_counts_stay_in_range(counts, min, max, values, (n - 1) as nat);
        let before = counts_with_times(counts, min, max, values, (n - 1) as nat);
        let after = counts_with_times(counts, min, max, values, n);
        let bucket = bucket_of(values[n - 1] as int) as i32;
        assert(after == counts_with_time(before, min, max, values[n - 1]));
        assert forall|b: i32| #[trigger] after.contains_key(b) implies min <= b < max by {
            if !before.contains_key(b) {
                assert(b == bucket && min <= bucket < max);
            }
        }
    }
}

} // verus!
