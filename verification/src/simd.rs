//! Lane batches: four independent simulated trials that advance together.

use crate::competitor::{entered_at, spec_can_sample, CompetitorStats};
use crate::simulation::RuntimeConfig;
use vstd::prelude::*;

verus! {

/// Time recorded for a failed attempt: one centisecond beyond the longest
/// result a competitor may post (one hour), so it loses to every real time.
pub const DNF_VALUE: i32 = 60 * 60 * 100 + 1;

/// Four attempt times in centiseconds, one per lane.
#[derive(Clone, Copy, Debug)]
pub struct I32x4 {
    pub lanes: [i32; 4],
}

impl View for I32x4 {
    type V = Seq<i32>;

    open spec fn view(&self) -> Seq<i32> {
        self.lanes@
    }
}

/// What the sampler produced for one attempt slot: a time for each lane, and
/// for each lane whether the attempt was drawn as failed.
#[derive(Clone, Copy, Debug)]
pub struct LaneDraw {
    pub times: [i32; 4],
    pub failed: [bool; 4],
}

/// Integer division that rounds towards zero, for a positive divisor.
pub open spec fn div_toward_zero(a: int, b: int) -> int
    recommends
        b > 0,
{
    if a >= 0 {
        a / b
    } else {
        -((-a) / b)
    }
}

/// The four lanes that all hold `value`.
pub open spec fn spec_splat(value: i32) -> Seq<i32> {
    seq![value, value, value, value]
}

/// `x` rounded towards zero to a multiple of 100.
pub open spec fn spec_truncate_down_100(x: int) -> int {
    div_toward_zero(x, 100) * 100
}

/// The time a lane of a draw stands for: the failure time where failures are
/// modelled and the lane was drawn as failed, the sampled time otherwise.
pub open spec fn spec_lane_time(draw: LaneDraw, include_dnf: bool, lane: int) -> i32 {
    if include_dnf && draw.failed[lane] {
        DNF_VALUE
    } else {
        draw.times[lane]
    }
}

/// The lower of two numbers.
pub open spec fn min2(a: int, b: int) -> int {
    if a <= b {
        a
    } else {
        b
    }
}

/// The higher of two numbers.
pub open spec fn max2(a: int, b: int) -> int {
    if a >= b {
        a
    } else {
        b
    }
}

/// Best of three: the lowest time.
pub open spec fn spec_best_3(a: int, b: int, c: int) -> int {
    min2(a, min2(b, c))
}

/// Mean of three, rounded towards zero.
pub open spec fn spec_mean_3(a: int, b: int, c: int) -> int {
    div_toward_zero(a + b + c, 3)
}

/// Average of five: the mean of the three times left once the lowest and the
/// highest are dropped, rounded towards zero.
pub open spec fn spec_average_5(a: int, b: int, c: int, d: int, e: int) -> int {
    let lowest = min2(a, min2(b, min2(c, min2(d, e))));
    let highest = max2(a, max2(b, max2(c, max2(d, e))));
    div_toward_zero(a + b + c + d + e - lowest - highest, 3)
}

/// A lane batch with the same time in every lane.
pub fn i32x4_splat(value: i32) -> (r: I32x4)
    ensures
        r@ == spec_splat(value),
{
    let r = I32x4 { lanes: [value, value, value, value] };
    assert(r@ =~= spec_splat(value));
    r
}

/// The four times of a lane batch, lane 0 first.
pub fn i32x4_to_slice(vec: I32x4) -> (r: [i32; 4])
    ensures
        r@ == vec@,
{
    [vec.lanes[0], vec.lanes[1], vec.lanes[2], vec.lanes[3]]
}

/// Rounds every lane towards zero to a multiple of 100.
pub fn i32x4_truncate_down_100(vec: I32x4) -> (r: I32x4)
    ensures
        forall|l: int| 0 <= l < 4 ==> r@[l] == spec_truncate_down_100(#[trigger] vec@[l] as int),
{
    I32x4 {
        lanes: [
            (vec.lanes[0] / 100) * 100,
            (vec.lanes[1] / 100) * 100,
            (vec.lanes[2] / 100) * 100,
            (vec.lanes[3] / 100) * 100,
        ],
    }
}

/// Turns one sampled draw into a lane batch of attempt times.  With
/// `include_dnf` set, a lane drawn as failed holds `DNF_VALUE`; every other
/// lane holds its sampled time.
pub fn simd_gen_skewnorm(draw: &LaneDraw, include_dnf: bool) -> (r: I32x4)
    ensures
        forall|l: int| 0 <= l < 4 ==> r@[l] == #[trigger] spec_lane_time(*draw, include_dnf, l),
{
    let mut lanes: [i32; 4] = draw.times;
    if include_dnf {
        let mut l: usize = 0;
        while l < 4
            invariant
                l <= 4,
                forall|k: int|
                    0 <= k < l ==> lanes@[k] == #[trigger] spec_lane_time(*draw, true, k),
                forall|k: int| l <= k < 4 ==> lanes@[k] == draw.times@[k],
            decreases 4 - l,
        {
            if draw.failed[l] {
                lanes[l] = DNF_VALUE;
            }
            l += 1;
        }
    }
    I32x4 { lanes }
}

/// The lanes of attempt slot `slot`.  An entered result fills every lane: a
/// negative one as the failure time, a positive one as it stands.  An open
/// slot takes the draw made for it.  Where no attempt can be sampled,
/// because stats are missing or hold a parameter that is not finite, or
/// where there is no draw for the slot, every lane of an open slot holds
/// the failure time.
pub open spec fn spec_attempt(
    slot: int,
    can_sample: bool,
    include_dnf: bool,
    entered: Seq<i32>,
    draws: Seq<LaneDraw>,
) -> Seq<i32> {
    let fixed = entered_at(entered, slot);
    if fixed < 0 {
        spec_splat(DNF_VALUE)
    } else if fixed > 0 {
        spec_splat(fixed)
    } else if can_sample && 0 <= slot < draws.len() {
        Seq::new(4, |l: int| spec_lane_time(draws[slot], include_dnf, l))
    } else {
        spec_splat(DNF_VALUE)
    }
}

/// The stats behind a reference, if any.
pub open spec fn spec_owned(stats: Option<&CompetitorStats>) -> Option<CompetitorStats> {
    match stats {
        Some(s) => Some(*s),
        None => None,
    }
}

/// The attempts of one competitor in one batch, one lane batch per slot.
pub fn generate_skewnorm_vec(
    count: usize,
    stats: Option<&CompetitorStats>,
    config: &RuntimeConfig,
    entered_times: &[i32],
    draws: &[LaneDraw],
) -> (values: Vec<I32x4>)
    ensures
        values.len() == count,
        forall|i: int|
            0 <= i < count ==> (#[trigger] values[i])@ == spec_attempt(
                i,
                spec_can_sample(spec_owned(stats)),
                config.include_dnf,
                entered_times@,
                draws@,
            ),
{
    let mut values: Vec<I32x4> = Vec::new();
    let include_dnf = config.include_dnf;
    let can_sample: bool = match stats {
        Some(s) => s.can_sample(),
        None => false,
    };
    let mut i: usize = 0;
    while i < count
        invariant
            i <= count,
            include_dnf == config.include_dnf,
            can_sample == spec_can_sample(spec_owned(stats)),
            values.len() == i,
            forall|k: int|
                0 <= k < i ==> (#[trigger] values[k])@ == spec_attempt(
                    k,
                    can_sample,
                    include_dnf,
                    entered_times@,
                    draws@,
                ),
        decreases count - i,
    {
        let solves = if i < entered_times.len() && entered_times[i] != 0 {
            if entered_times[i] < 0 {
                i32x4_splat(DNF_VALUE)
            } else {
                i32x4_splat(entered_times[i])
            }
        } else if can_sample && i < draws.len() {
            let drawn = simd_gen_skewnorm(&draws[i], include_dnf);
            assert(drawn@ =~= Seq::new(
                4,
                |l: int| spec_lane_time(draws@[i as int], include_dnf, l),
            ));
            drawn
        } else {
            i32x4_splat(DNF_VALUE)
        };
        values.push(solves);
        i += 1;
    }
    values
}

/// The lower of two times.
fn lowest_of(a: i32, b: i32) -> (r: i32)
    ensures
        r == min2(a as int, b as int),
{
    if a <= b {
        a
    } else {
        b
    }
}

/// The higher of two times.
fn highest_of(a: i32, b: i32) -> (r: i32)
    ensures
        r == max2(a as int, b as int),
{
    if a >= b {
        a
    } else {
        b
    }
}

/// Best-of-three result of every lane.
pub fn calc_wca_best_3(v1: I32x4, v2: I32x4, v3: I32x4) -> (r: [i32; 4])
    ensures
        forall|l: int|
            #![trigger r@[l]]
            0 <= l < 4 ==> r@[l] == spec_best_3(v1@[l] as int, v2@[l] as int, v3@[l] as int),
{
    [
        lowest_of(v1.lanes[0], lowest_of(v2.lanes[0], v3.lanes[0])),
        lowest_of(v1.lanes[1], lowest_of(v2.lanes[1], v3.lanes[1])),
        lowest_of(v1.lanes[2], lowest_of(v2.lanes[2], v3.lanes[2])),
        lowest_of(v1.lanes[3], lowest_of(v2.lanes[3], v3.lanes[3])),
    ]
}

/// Mean of three times, rounded towards zero.
fn mean_of_three(a: i32, b: i32, c: i32) -> (r: i32)
    ensures
        r == spec_mean_3(a as int, b as int, c as int),
{
    let sum: i64 = a as i64 + b as i64 + c as i64;
    (sum / 3) as i32
}

/// The three times left of five once the lowest and the highest are
/// dropped sum to no less than three times the lowest and no more than
/// three times the highest.
proof fn lemma_middle_three(a: int, b: int, c: int, d: int, e: int)
    ensures
        3 * min2(a, min2(b, min2(c, min2(d, e)))) <= a + b + c + d + e - min2(
            a,
            min2(b, min2(c, min2(d, e))),
        ) - max2(a, max2(b, max2(c, max2(d, e)))),
        a + b + c + d + e - min2(a, min2(b, min2(c, min2(d, e)))) - max2(
            a,
            max2(b, max2(c, max2(d, e))),
        ) <= 3 * max2(a, max2(b, max2(c, max2(d, e)))),
{
}

/// Average of five times with the lowest and the highest dropped, rounded
/// towards zero.
fn average_of_five(a: i32, b: i32, c: i32, d: i32, e: i32) -> (r: i32)
    ensures
        r == spec_average_5(a as int, b as int, c as int, d as int, e as int),
{
    let lowest: i32 = lowest_of(a, lowest_of(b, lowest_of(c, lowest_of(d, e))));
    let highest: i32 = highest_of(a, highest_of(b, highest_of(c, highest_of(d, e))));
    let sum: i64 = a as i64 + b as i64 + c as i64 + d as i64 + e as i64;
    let kept: i64 = sum - lowest as i64 - highest as i64;
    proof {
        lemma_middle_three(a as int, b as int, c as int, d as int, e as int);
        assert(3 * lowest <= kept <= 3 * highest);
        assert(lowest <= div_toward_zero(kept as int, 3) <= highest);
    }
    (kept / 3) as i32
}

/// Mean-of-three result of every lane.
pub fn calc_wca_mean_3(v1: I32x4, v2: I32x4, v3: I32x4) -> (r: [i32; 4])
    ensures
        forall|l: int|
            #![trigger r@[l]]
            0 <= l < 4 ==> r@[l] == spec_mean_3(v1@[l] as int, v2@[l] as int, v3@[l] as int),
{
    [
        mean_of_three(v1.lanes[0], v2.lanes[0], v3.lanes[0]),
        mean_of_three(v1.lanes[1], v2.lanes[1], v3.lanes[1]),
        mean_of_three(v1.lanes[2], v2.lanes[2], v3.lanes[2]),
        mean_of_three(v1.lanes[3], v2.lanes[3], v3.lanes[3]),
    ]
}

/// Average-of-five result of every lane.
pub fn calc_wca_average_5(v1: I32x4, v2: I32x4, v3: I32x4, v4: I32x4, v5: I32x4) -> (r: [i32; 4])
    ensures
        forall|l: int|
            #![trigger r@[l]]
            0 <= l < 4 ==> r@[l] == spec_average_5(
                v1@[l] as int,
                v2@[l] as int,
                v3@[l] as int,
                v4@[l] as int,
                v5@[l] as int,
            ),
{
    [
        average_of_five(v1.lanes[0], v2.lanes[0], v3.lanes[0], v4.lanes[0], v5.lanes[0]),
        average_of_five(v1.lanes[1], v2.lanes[1], v3.lanes[1], v4.lanes[1], v5.lanes[1]),
        average_of_five(v1.lanes[2], v2.lanes[2], v3.lanes[2], v4.lanes[2], v5.lanes[2]),
        average_of_five(v1.lanes[3], v2.lanes[3], v3.lanes[3], v4.lanes[3], v5.lanes[3]),
    ]
}

} // verus!
