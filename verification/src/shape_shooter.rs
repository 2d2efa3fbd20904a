//! Shape shooter: enemies of one to four hit points drop from the top; the
//! player's ship shoots them. Each bullet takes a hit point; an enemy out of
//! them is destroyed and scores. Touching an enemy ends the game.

use vstd::prelude::*;

verus! {

/// Most hit points an enemy can have.
pub const MAX_HEALTH: i32 = 4;

/// A bullet hit an enemy: it loses a hit point, and at none left it is
/// destroyed and the score goes up. Answers the enemy's hit points, whether
/// it is destroyed, and the score.
pub fn bullet_hit(health: i32, score: u32) -> (r: (i32, bool, u32))
    requires
        health > i32::MIN,
        health - 1 <= 0 ==> score < u32::MAX,
    ensures
        r.0 == health - 1,
        r.1 == (health - 1 <= 0),
        r.2 == (if r.1 {
            score + 1
        } else {
            score as int
        }),
{
    let left = health - 1;
    if left <= 0 {
        (left, true, score + 1)
    } else {
        (left, false, score)
    }
}

} // verus!
