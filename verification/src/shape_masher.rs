//! Shape masher: one target shape among ten decoys; every hit on the target
//! scores, every other click costs a point. All shapes are placed anew after
//! each hit.

use vstd::prelude::*;
use crate::random::rand_choose;
use crate::shapes::{Shape, COLOR_COUNT, all_shapes, all_colors};

verus! {

/// Decoys on the board besides the target.
pub const NUM_BAD_SHAPES: usize = 10;

/// Length of a round, in milliseconds.
pub const GAME_DURATION_MILLIS: u64 = 20000;

/// A shape in one of the palette's colours.
#[derive(Clone, Copy, Debug, PartialEq, Eq, Structural)]
pub struct ColoredShape {
    pub shape: Shape,
    pub color: u8,
}

/// Draws a shape and a colour at random.
pub fn random_colored_shape() -> (r: ColoredShape)
    ensures
        r.color < COLOR_COUNT,
{
    let shapes = all_shapes();
    let colors = all_colors();
    let shape = rand_choose(&shapes).unwrap();
    let color = rand_choose(&colors).unwrap();
    proof {
        let k = choose|k: int| 0 <= k < colors@.len() && colors@[k] == color;
    }
    ColoredShape { shape, color }
}

/// The target of a round, shown on the welcome screen.
pub fn choose_target() -> (r: ColoredShape)
    ensures
        r.color < COLOR_COUNT,
{
    random_colored_shape()
}

/// The decoys, drawn once when the game starts: ten random shapes in
/// random colours (they may repeat, and may even equal the target).
pub fn make_shape_pool() -> (r: Vec<ColoredShape>)
    ensures
        r@.len() == NUM_BAD_SHAPES,
        forall|i: int| 0 <= i < r@.len() ==> (#[trigger] r@[i]).color < COLOR_COUNT,
{
    let mut pool: Vec<ColoredShape> = Vec::new();
    let mut i: usize = 0;
    while i < NUM_BAD_SHAPES
        invariant
            i <= NUM_BAD_SHAPES,
            pool@.len() == i,
            forall|k: int| 0 <= k < pool@.len() ==> (#[trigger] pool@[k]).color < COLOR_COUNT,
        decreases NUM_BAD_SHAPES - i,
    {
        pool.push(random_colored_shape());
        i = i + 1;
    }
    pool
}

/// The score after a click: one up for a click on a shape of the target's
/// kind (its colour does not matter), one down (not below zero) for a click
/// on another shape or on no shape at all.
pub open spec fn score_after_click_spec(score: u32, clicked: Option<Shape>, target: Shape) -> u32 {
    if clicked == Some(target) {
        (score + 1) as u32
    } else if score > 0 {
        (score - 1) as u32
    } else {
        0
    }
}

pub fn score_after_click(score: u32, clicked: Option<Shape>, target: Shape) -> (r: u32)
    requires
        clicked == Some(target) ==> score < u32::MAX,
    ensures
        r == score_after_click_spec(score, clicked, target),
        clicked == Some(target) ==> r == score + 1,
        clicked != Some(target) && score > 0 ==> r == score - 1,
        clicked != Some(target) && score == 0 ==> r == 0,
{
    match clicked {
        Some(shape) => {
            if shape == target {
                score + 1
            } else {
                score.saturating_sub(1)
            }
        },
        None => score.saturating_sub(1),
    }
}

} // verus!
