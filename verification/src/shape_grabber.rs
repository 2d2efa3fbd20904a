//! Shape grabber: shapes fall from the top; the player catches them with a
//! paddle. Catching the target shape in the target colour scores; ten of
//! them win, and catching anything else ends the game.

use vstd::prelude::*;
use crate::random::{rand_choose, rand_ratio};

verus! {

/// Colours in the palette; a colour is an index below it
/// (red, blue, green, yellow).
pub const COLOR_COUNT: u8 = 4;

/// Catches of the target that end the game.
pub const WINNING_SCORE: u32 = 10;

/// Length of a round, in milliseconds.
pub const GAME_DURATION_MILLIS: u64 = 30000;

/// Time between two falling shapes, in milliseconds.
pub const SHAPE_SPAWN_MILLIS: u64 = 500;

#[derive(Clone, Copy, Debug, PartialEq, Eq, Structural)]
pub enum ShapeType {
    Circle,
    Square,
    Triangle,
}

#[derive(Clone, Copy, Debug, PartialEq, Eq, Structural)]
pub struct TargetShape {
    pub shape_type: ShapeType,
    pub color: u8,
}

impl TargetShape {
    /// A red circle, until the welcome screen draws the real target.
    pub fn default() -> (r: TargetShape)
        ensures
            r.shape_type == ShapeType::Circle,
            r.color == 0,
    {
        TargetShape { shape_type: ShapeType::Circle, color: 0 }
    }
}

pub fn all_shape_types() -> (r: Vec<ShapeType>)
    ensures
        r@ == seq![ShapeType::Circle, ShapeType::Square, ShapeType::Triangle],
{
    let r = vec![ShapeType::Circle, ShapeType::Square, ShapeType::Triangle];
    assert(r@ =~= seq![ShapeType::Circle, ShapeType::Square, ShapeType::Triangle]);
    r
}

pub fn all_colors() -> (r: Vec<u8>)
    ensures
        r@ == seq![0u8, 1u8, 2u8, 3u8],
{
    let r: Vec<u8> = vec![0, 1, 2, 3];
    assert(r@ =~= seq![0u8, 1u8, 2u8, 3u8]);
    r
}

/// The target, drawn at random for the welcome screen.
pub fn choose_target() -> (r: TargetShape)
    ensures
        r.color < COLOR_COUNT,
{
    let shapes = all_shape_types();
    let colors = all_colors();
    let shape_type = rand_choose(&shapes).unwrap();
    let color = rand_choose(&colors).unwrap();
    TargetShape { shape_type, color }
}

/// A shape about to fall.
#[derive(Clone, Copy, Debug, PartialEq, Eq, Structural)]
pub struct FallingShape {
    pub shape_type: ShapeType,
    pub color: u8,
    pub is_correct: bool,
}

/// The palette without one colour, in order.
pub fn colors_except(color: u8) -> (r: Vec<u8>)
    ensures
        forall|c: u8| r@.contains(c) <==> (c < COLOR_COUNT && c != color),
{
    let mut r: Vec<u8> = Vec::new();
    let mut c: u8 = 0;
    while c < COLOR_COUNT
        invariant
            c <= COLOR_COUNT,
            forall|x: u8| r@.contains(x) <==> (x < c && x != color),
        decreases COLOR_COUNT - c,
    {
        let ghost before = r@;
        if c != color {
            r.push(c);
        }
        proof {
            assert forall|x: u8| r@.contains(x) <==> (x < c + 1 && x != color) by {
                if r@.contains(x) {
                    let k = choose|k: int| 0 <= k < r@.len() && r@[k] == x;
                    if k < before.len() {
                        assert(before[k] == x);
                        assert(before.contains(x));
                    } else {
                        assert(x == c && c != color);
                    }
                }
                if x < c && x != color {
                    assert(before.contains(x));
                    let k = choose|k: int| 0 <= k < before.len() && before[k] == x;
                    assert(r@[k] == x);
                }
                if x == c && x != color {
                    assert(r@[r@.len() - 1] == x);
                }
            }
        }
        c = c + 1;
    }
    r
}

/// Draws the next falling shape: the target itself one time in four;
/// otherwise a random shape in a random colour, whose colour is drawn again
/// among the other colours should it come out as the target.
pub fn spawn_shape(target: TargetShape) -> (r: FallingShape)
    requires
        target.color < COLOR_COUNT,
    ensures
        r.color < COLOR_COUNT,
        r.is_correct == (r.shape_type == target.shape_type && r.color == target.color),
{
    let is_correct_shape = rand_ratio(1, 4);
    if is_correct_shape {
        FallingShape { shape_type: target.shape_type, color: target.color, is_correct: true }
    } else {
        let shapes = all_shape_types();
        let colors = all_colors();
        let random_shape = rand_choose(&shapes).unwrap();
        let random_color = rand_choose(&colors).unwrap();
        if random_shape == target.shape_type && random_color == target.color {
            let others = colors_except(target.color);
            proof {
                let other: u8 = if target.color == 0 { 1 } else { 0 };
                assert(others@.contains(other));
            }
            let different_color = rand_choose(&others).unwrap();
            FallingShape { shape_type: random_shape, color: different_color, is_correct: false }
        } else {
            FallingShape { shape_type: random_shape, color: random_color, is_correct: false }
        }
    }
}

/// The paddle caught a shape: a target scores and ten of them end the game;
/// anything else ends it at once. Answers the new score and whether the game
/// is over.
pub fn catch_shape(score: u32, is_correct: bool) -> (r: (u32, bool))
    requires
        is_correct ==> score < u32::MAX,
    ensures
        is_correct ==> r.0 == score + 1 && r.1 == (r.0 >= WINNING_SCORE),
        !is_correct ==> r.0 == score && r.1,
{
    if is_correct {
        let new_score = score + 1;
        (new_score, new_score >= WINNING_SCORE)
    } else {
        (score, true)
    }
}

} // verus!
