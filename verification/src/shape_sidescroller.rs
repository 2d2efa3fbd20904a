//! Shape side-scroller: the player runs towards a castle, jumping over
//! obstacles and holes. Every obstacle hit costs a point of the ten the run
//! starts with; at none left, or in a hole, or at the castle, the run ends.

use vstd::prelude::*;

verus! {

/// Points at the start of a run.
pub const INITIAL_SCORE: i32 = 10;

/// What the player ran into this frame.
#[derive(Clone, Copy, Debug, PartialEq, Eq, Structural)]
pub enum Collision {
    Nothing,
    Obstacle,
    Hole,
    Castle,
}

/// What follows from it.
#[derive(Clone, Copy, Debug, PartialEq, Eq, Structural)]
pub enum CollisionOutcome {
    Continue,
    /// An obstacle was hit: it goes, the player is pushed back, a point is
    /// lost.
    Knocked,
    /// The player falls into a hole; the run ends once the fall is over.
    Falling,
    GameOver,
}

/// Resolves a collision: an obstacle costs a point and ends the run at zero
/// points or fewer; the castle ends the run; a hole starts the fall.
pub fn resolve_collision(score: &mut i32, collision: Collision) -> (r: CollisionOutcome)
    requires
        *old(score) > i32::MIN,
    ensures
        collision == Collision::Obstacle ==> *final(score) == *old(score) - 1,
        collision == Collision::Obstacle && *final(score) <= 0 ==> r == CollisionOutcome::GameOver,
        collision == Collision::Obstacle && *final(score) > 0 ==> r == CollisionOutcome::Knocked,
        collision != Collision::Obstacle ==> *final(score) == *old(score),
        collision == Collision::Hole ==> r == CollisionOutcome::Falling,
        collision == Collision::Castle ==> r == CollisionOutcome::GameOver,
        collision == Collision::Nothing ==> r == CollisionOutcome::Continue,
{
    match collision {
        Collision::Obstacle => {
            *score = *score - 1;
            if *score <= 0 {
                CollisionOutcome::GameOver
            } else {
                CollisionOutcome::Knocked
            }
        },
        Collision::Hole => CollisionOutcome::Falling,
        Collision::Castle => CollisionOutcome::GameOver,
        Collision::Nothing => CollisionOutcome::Continue,
    }
}

} // verus!
