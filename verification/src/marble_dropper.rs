//! Marble dropper: marbles fall towards three coloured buckets and the
//! player steers them with a platform. A coloured marble in the bucket of
//! its colour scores five; any other marble in a bucket costs two. Marbles
//! come faster as the round goes on.

use vstd::prelude::*;
use crate::random::fast_u32;

verus! {

/// Length of a round, in milliseconds.
pub const GAME_DURATION_MILLIS: u64 = 30000;

/// The round is split into this many parts of rising difficulty.
pub const TIME_CHUNKS: u64 = 3;

/// Time between marbles in the first part of the round, in milliseconds.
pub const BASE_SPAWN_MILLIS: u64 = 1500;

/// Each later part shortens the time between marbles by this much.
pub const SPAWN_STEP_MILLIS: u64 = 500;

/// The time between marbles never drops below this.
pub const MIN_SPAWN_MILLIS: u64 = 500;

/// Points for a coloured marble in the bucket of its colour.
pub const MATCH_POINTS: i32 = 5;

/// Points lost for any other marble in a bucket.
pub const MISS_PENALTY: i32 = 2;

#[derive(Clone, Copy, Debug, PartialEq, Eq, Structural)]
pub enum MarbleColor {
    Red,
    Green,
    Blue,
    Grey,
}

/// The colour of bucket `index`, left to right: red, green, blue.
pub open spec fn bucket_color_spec(index: u32) -> MarbleColor {
    if index == 0 {
        MarbleColor::Red
    } else if index == 1 {
        MarbleColor::Green
    } else {
        MarbleColor::Blue
    }
}

pub fn bucket_color(index: u32) -> (r: MarbleColor)
    requires
        index < 3,
    ensures
        r == bucket_color_spec(index),
{
    if index == 0 {
        MarbleColor::Red
    } else if index == 1 {
        MarbleColor::Green
    } else {
        MarbleColor::Blue
    }
}

/// A marble about to drop: its colour, whether it is one to sort, and the
/// bucket it is thrown towards.
#[derive(Clone, Copy, Debug, PartialEq, Eq, Structural)]
pub struct MarbleSpawn {
    pub color: MarbleColor,
    pub is_target: bool,
    pub target_bucket: u32,
}

/// The marble thrown for the draws `roll` and `pick`.
pub open spec fn marble_for(roll: u32, pick: u32) -> MarbleSpawn {
    if roll < 3 {
        MarbleSpawn { color: bucket_color_spec(pick), is_target: true, target_bucket: pick }
    } else {
        MarbleSpawn { color: MarbleColor::Grey, is_target: false, target_bucket: pick }
    }
}

/// The marble for the draws `roll` (a whole number below four) and `pick`
/// (below three): for a roll below three a coloured marble of bucket
/// `pick`'s colour, thrown towards that bucket; otherwise a grey one thrown
/// towards bucket `pick`.
pub fn marble_from_draws(roll: u32, pick: u32) -> (r: MarbleSpawn)
    requires
        roll < 4,
        pick < 3,
    ensures
        r.target_bucket == pick,
        r.is_target == (roll < 3),
        r.is_target ==> r.color == bucket_color_spec(pick),
        !r.is_target ==> r.color == MarbleColor::Grey,
        r == marble_for(roll, pick),
{
    if roll < 3 {
        MarbleSpawn { color: bucket_color(pick), is_target: true, target_bucket: pick }
    } else {
        MarbleSpawn { color: MarbleColor::Grey, is_target: false, target_bucket: pick }
    }
}

/// Draws the next marble: three times in four a coloured one, thrown
/// towards the bucket of its colour; otherwise a grey one thrown towards a
/// random bucket. (The three-in-four chance is drawn as a whole number
/// below four; the bucket is drawn below three.)
pub fn spawn_marble() -> (r: MarbleSpawn)
    ensures
        r.target_bucket < 3,
        r.is_target == (r.color != MarbleColor::Grey),
        r.is_target ==> r.color == bucket_color_spec(r.target_bucket),
        exists|roll: u32, pick: u32| roll < 4 && pick < 3 && r == #[trigger] marble_for(roll, pick),
{
    let roll = fast_u32(0, 4);
    let pick = fast_u32(0, 3);
    marble_from_draws(roll, pick)
}

/// The score after a marble lands in a bucket: plus five for a coloured
/// marble in its own colour's bucket, minus two otherwise.
pub open spec fn score_after_landing_spec(
    score: i32,
    is_target: bool,
    marble: MarbleColor,
    bucket: MarbleColor,
) -> int {
    if is_target && marble == bucket {
        score + MATCH_POINTS
    } else {
        score - MISS_PENALTY
    }
}

pub fn score_after_landing(score: i32, is_target: bool, marble: MarbleColor, bucket: MarbleColor) -> (r: i32)
    requires
        i32::MIN + MISS_PENALTY <= score,
        score <= i32::MAX - MATCH_POINTS,
    ensures
        r == score_after_landing_spec(score, is_target, marble, bucket),
        is_target && marble == bucket ==> r == score + MATCH_POINTS,
        !(is_target && marble == bucket) ==> r == score - MISS_PENALTY,
{
    if is_target && marble == bucket {
        score + MATCH_POINTS
    } else {
        score - MISS_PENALTY
    }
}

/// The part of the round that `elapsed_millis` falls in: 0, 1, 2 (or 3 once
/// the round is over).
pub open spec fn current_chunk_spec(elapsed_millis: u64, total_millis: u64) -> int {
    (elapsed_millis * TIME_CHUNKS) as int / total_millis as int
}

/// The time between marbles in that part: 1.5 s, 1 s, then 0.5 s.
pub open spec fn spawn_interval_spec(chunk: int) -> int {
    if chunk >= 2 {
        MIN_SPAWN_MILLIS as int
    } else {
        BASE_SPAWN_MILLIS - SPAWN_STEP_MILLIS * chunk
    }
}

/// How long to wait between marbles, `elapsed_millis` into a round of
/// `total_millis`.
pub fn spawn_interval_millis(elapsed_millis: u64, total_millis: u64) -> (r: u64)
    requires
        total_millis > 0,
        elapsed_millis <= total_millis,
        total_millis <= u64::MAX / TIME_CHUNKS,
    ensures
        r == spawn_interval_spec(current_chunk_spec(elapsed_millis, total_millis)),
        MIN_SPAWN_MILLIS <= r <= BASE_SPAWN_MILLIS,
{
    let chunk = elapsed_millis * TIME_CHUNKS / total_millis;
    if chunk >= 2 {
        MIN_SPAWN_MILLIS
    } else {
        BASE_SPAWN_MILLIS - SPAWN_STEP_MILLIS * chunk
    }
}

/// The marbles only come faster: later in the round, the wait between them
/// is never longer.
pub proof fn law_spawn_interval_shrinks(e1: u64, e2: u64, total_millis: u64)
    requires
        total_millis > 0,
        e1 <= e2 <= total_millis,
        total_millis <= u64::MAX / TIME_CHUNKS,
    ensures
        spawn_interval_spec(current_chunk_spec(e2, total_millis)) <= spawn_interval_spec(
            current_chunk_spec(e1, total_millis),
        ),
{
    let t = total_millis as int;
    let a = (e1 * TIME_CHUNKS) as int;
    let b = (e2 * TIME_CHUNKS) as int;
    assert(a <= b) by (nonlinear_arith)
        requires
            e1 <= e2,
            a == e1 * TIME_CHUNKS,
            b == e2 * TIME_CHUNKS,
    ;
    assert(a / t <= b / t) by (nonlinear_arith)
        requires
            a <= b,
            t > 0,
            a >= 0,
    ;
}

} // verus!
