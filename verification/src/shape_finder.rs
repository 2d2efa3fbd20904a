//! Shape finder: emojis drift across the screen; the player clicks every
//! copy of the target emoji. A right click scores, a wrong one costs a
//! point. A stage ends once every copy is found or time runs out; each
//! stage adds five emojis (and is faster and shorter, which the renderer
//! handles).

use vstd::prelude::*;
use crate::random::rand_shuffle;

verus! {

/// The counted part of a stage: how many emojis move about and how many of
/// them are the target.
#[derive(Clone, Copy, Debug, PartialEq, Eq, Structural)]
pub struct StageCounts {
    pub total_emojis: usize,
    pub correct_emojis: usize,
    pub current_stage_number: usize,
}

/// Emojis added by every new stage.
pub const EMOJIS_PER_STAGE: usize = 5;

impl StageCounts {
    /// The first stage: thirty emojis, five of them targets.
    pub fn default() -> (r: StageCounts)
        ensures
            r.total_emojis == 30,
            r.correct_emojis == 5,
            r.current_stage_number == 1,
    {
        StageCounts { total_emojis: 30, correct_emojis: 5, current_stage_number: 1 }
    }

    /// The next stage: five more emojis, as many targets.
    pub fn advance(&mut self)
        requires
            old(self).current_stage_number < usize::MAX,
            old(self).total_emojis + EMOJIS_PER_STAGE <= usize::MAX,
        ensures
            final(self).current_stage_number == old(self).current_stage_number + 1,
            final(self).total_emojis == old(self).total_emojis + EMOJIS_PER_STAGE,
            final(self).correct_emojis == old(self).correct_emojis,
    {
        self.current_stage_number = self.current_stage_number + 1;
        self.total_emojis = self.total_emojis + EMOJIS_PER_STAGE;
    }
}

/// The emojis of a stage: `correct` copies of the target and the other
/// emojis, shuffled.
pub fn emoji_lineup(target: usize, correct: usize, others: &Vec<usize>) -> (r: Vec<usize>)
    requires
        correct + others@.len() <= usize::MAX,
    ensures
        r@.len() == correct + others@.len(),
        r@.to_multiset() == Seq::new(correct as nat, |i: int| target).to_multiset().add(
            others@.to_multiset(),
        ),
{
    let mut emojis: Vec<usize> = Vec::new();
    let mut i: usize = 0;
    while i < correct
        invariant
            i <= correct,
            emojis@ == Seq::new(i as nat, |k: int| target),
        decreases correct - i,
    {
        emojis.push(target);
        i = i + 1;
        assert(emojis@ =~= Seq::new(i as nat, |k: int| target));
    }
    let ghost copies = emojis@;
    let mut j: usize = 0;
    while j < others.len()
        invariant
            j <= others@.len(),
            emojis@ == copies + others@.take(j as int),
        decreases others@.len() - j,
    {
        emojis.push(others[j]);
        j = j + 1;
        assert(copies + others@.take(j as int) =~= (copies + others@.take(j - 1)).push(
            others@[j - 1],
        ));
    }
    assert(others@.take(j as int) =~= others@);
    proof {
        vstd::seq_lib::lemma_multiset_commutative(copies, others@);
        vstd::seq_lib::to_multiset_len(emojis@);
    }
    rand_shuffle(&mut emojis);
    proof {
        vstd::seq_lib::to_multiset_len(emojis@);
    }
    emojis
}

/// The score, the targets found, and whether the stage is over after a
/// click on an emoji: a target adds a point and a find, and ends the stage
/// once all targets are found; any other emoji costs a point.
pub fn click_emoji(score: i32, found: usize, is_correct: bool, correct_needed: usize) -> (r: (
    i32,
    usize,
    bool,
))
    requires
        is_correct ==> score < i32::MAX && found < usize::MAX,
        !is_correct ==> score > i32::MIN,
    ensures
        is_correct ==> r.0 == score + 1 && r.1 == found + 1 && r.2 == (found + 1
            >= correct_needed),
        !is_correct ==> r.0 == score - 1 && r.1 == found && !r.2,
{
    if is_correct {
        let new_found = found + 1;
        (score + 1, new_found, new_found >= correct_needed)
    } else {
        (score - 1, found, false)
    }
}

/// Whether the stage is over: time is up or every target is found.
pub fn stage_over(timer_finished: bool, found: usize, correct_needed: usize) -> (r: bool)
    ensures
        r == (timer_finished || found >= correct_needed),
{
    timer_finished || found >= correct_needed
}

} // verus!
