//! Tower tumble: pull blocks out of a tower without toppling it; each level
//! builds a taller, then wider tower.

use vstd::prelude::*;
use crate::ribbit::BitResult;

verus! {

/// Pause before the tower can be touched, in milliseconds.
pub const INITIAL_WAIT_MILLIS: u64 = 1000;

/// Blocks to pull out to clear a level.
pub const MAX_BLOCKS_REMOVED: u32 = 15;

/// Time allowed per level, in seconds.
pub const LEVEL_TIME_LIMIT_SECS: u32 = 90;

/// Points per block pulled out.
pub const POINTS_PER_BLOCK: u32 = 10;

/// Points per second left when a level is cleared.
pub const POINTS_PER_SECOND_LEFT: u32 = 5;

/// More unstable blocks than this, and the tower has collapsed.
pub const MAX_UNSTABLE_BLOCKS: u32 = 7;

#[derive(Clone, Copy, Debug, PartialEq, Eq, Structural)]
pub enum GameState {
    Welcome,
    Playing,
    LevelComplete,
    GameOver,
}

/// Progress within a level; the wait timer is `Some(duration in
/// milliseconds)` while it runs.
pub struct GameProgress {
    pub score: u32,
    pub blocks_removed: u32,
    pub tower_collapsed: bool,
    pub level_complete: bool,
    pub initial_wait_timer: Option<u64>,
}

impl GameProgress {
    pub fn default() -> (r: GameProgress)
        ensures
            r.score == 0,
            r.blocks_removed == 0,
            !r.tower_collapsed,
            !r.level_complete,
            r.initial_wait_timer == Some(INITIAL_WAIT_MILLIS),
    {
        GameProgress {
            score: 0,
            blocks_removed: 0,
            tower_collapsed: false,
            level_complete: false,
            initial_wait_timer: Some(INITIAL_WAIT_MILLIS),
        }
    }

    /// Counts a pulled-out block and its points; answers whether the level
    /// is cleared.
    pub fn record_block_removal(&mut self) -> (r: bool)
        requires
            old(self).blocks_removed < u32::MAX,
            old(self).score + POINTS_PER_BLOCK <= u32::MAX,
        ensures
            final(self).blocks_removed == old(self).blocks_removed + 1,
            final(self).score == old(self).score + POINTS_PER_BLOCK,
            final(self).level_complete == (old(self).level_complete || final(self).blocks_removed
                >= MAX_BLOCKS_REMOVED),
            final(self).tower_collapsed == old(self).tower_collapsed,
            final(self).initial_wait_timer == old(self).initial_wait_timer,
            r == final(self).level_complete,
    {
        self.blocks_removed = self.blocks_removed + 1;
        self.score = self.score + POINTS_PER_BLOCK;
        if self.blocks_removed >= MAX_BLOCKS_REMOVED {
            self.level_complete = true;
        }
        self.level_complete
    }

    pub fn record_tower_collapse(&mut self)
        ensures
            final(self).tower_collapsed,
            final(self).score == old(self).score,
            final(self).blocks_removed == old(self).blocks_removed,
            final(self).level_complete == old(self).level_complete,
            final(self).initial_wait_timer == old(self).initial_wait_timer,
    {
        self.tower_collapsed = true;
    }

    /// Whether blocks may not be touched: during the initial wait, and once
    /// the level is over either way.
    pub fn is_interaction_blocked(&self) -> (r: bool)
        ensures
            r == (self.initial_wait_timer is Some || self.level_complete || self.tower_collapsed),
    {
        self.initial_wait_timer.is_some() || self.level_complete || self.tower_collapsed
    }

    /// Adds five points per whole second left on the level timer.
    pub fn add_time_bonus(&mut self, remaining_secs: u32)
        requires
            old(self).score + remaining_secs * POINTS_PER_SECOND_LEFT <= u32::MAX,
        ensures
            final(self).score == old(self).score + remaining_secs * POINTS_PER_SECOND_LEFT,
            final(self).blocks_removed == old(self).blocks_removed,
            final(self).level_complete == old(self).level_complete,
            final(self).tower_collapsed == old(self).tower_collapsed,
            final(self).initial_wait_timer == old(self).initial_wait_timer,
    {
        let bonus = remaining_secs * POINTS_PER_SECOND_LEFT;
        self.score = self.score + bonus;
    }

    /// The progress at the start of the next level: the score is kept,
    /// everything else starts again.
    pub fn next_level(&self) -> (r: GameProgress)
        ensures
            r.score == self.score,
            r.blocks_removed == 0,
            !r.tower_collapsed,
            !r.level_complete,
            r.initial_wait_timer == Some(INITIAL_WAIT_MILLIS),
    {
        GameProgress {
            score: self.score,
            blocks_removed: 0,
            tower_collapsed: false,
            level_complete: false,
            initial_wait_timer: Some(INITIAL_WAIT_MILLIS),
        }
    }
}

/// Whether the stability check finds the tower collapsed: more than seven
/// blocks, not held by the player, have moved too far from where they were
/// built. The check does not run during the initial wait or once the level
/// is over.
pub fn check_tower_stability(progress: &mut GameProgress, unstable: &Vec<bool>) -> (r: bool)
    ensures
        r == (progress_open(*old(progress)) && count_unstable(unstable@) > MAX_UNSTABLE_BLOCKS),
        r == (progress_open(*old(progress)) && unstable@.to_multiset().count(true)
            > MAX_UNSTABLE_BLOCKS),
        final(progress).tower_collapsed == (old(progress).tower_collapsed || r),
        final(progress).score == old(progress).score,
        final(progress).blocks_removed == old(progress).blocks_removed,
        final(progress).level_complete == old(progress).level_complete,
        final(progress).initial_wait_timer == old(progress).initial_wait_timer,
{
    proof {
        law_unstable_count_is_true_flags(unstable@);
    }
    if progress.initial_wait_timer.is_some() {
        return false;
    }
    if progress.tower_collapsed || progress.level_complete {
        return false;
    }
    let mut unstable_count: u32 = 0;
    let mut i: usize = 0;
    while i < unstable.len()
        invariant
            i <= unstable@.len(),
            unstable_count == count_unstable(unstable@.take(i as int)),
            unstable_count <= i,
        decreases unstable@.len() - i,
    {
        assert(unstable@.take(i + 1).drop_last() =~= unstable@.take(i as int));
        if unstable[i] {
            if unstable_count < u32::MAX {
                unstable_count = unstable_count + 1;
            }
        }
        i = i + 1;
    }
    assert(unstable@.take(i as int) =~= unstable@);
    if unstable_count > MAX_UNSTABLE_BLOCKS {
        progress.record_tower_collapse();
        true
    } else {
        false
    }
}

/// The unstable count counts the blocks flagged unstable and nothing else:
/// it is the number of `true` flags, capped at `u32::MAX`, whatever the
/// number of stable blocks beside them. So a tower whose flags hold at most
/// `MAX_UNSTABLE_BLOCKS` trues never collapses, and one with more always does
/// while the level is open.
pub proof fn law_unstable_count_is_true_flags(s: Seq<bool>)
    ensures
        count_unstable(s) == (if s.to_multiset().count(true) < u32::MAX {
            s.to_multiset().count(true)
        } else {
            u32::MAX as nat
        }),
        (count_unstable(s) > MAX_UNSTABLE_BLOCKS) == (s.to_multiset().count(true)
            > MAX_UNSTABLE_BLOCKS),
    decreases s.len(),
{
    broadcast use vstd::seq_lib::group_to_multiset_ensures, vstd::multiset::group_multiset_axioms;

    if s.len() == 0 {
        assert(s.to_multiset() =~= vstd::multiset::Multiset::empty());
    } else {
        let rest = s.drop_last();
        law_unstable_count_is_true_flags(rest);
        assert(s =~= rest.push(s.last()));
        assert(s.to_multiset() =~= rest.to_multiset().insert(s.last()));
        if s.last() {
            assert(s.to_multiset().count(true) == rest.to_multiset().count(true) + 1);
        } else {
            assert(s.to_multiset().count(true) == rest.to_multiset().count(true));
        }
    }
}

/// The level is running: the wait is over and it has not ended.
pub open spec fn progress_open(p: GameProgress) -> bool {
    p.initial_wait_timer is None && !p.tower_collapsed && !p.level_complete
}

/// How many of the blocks are unstable, counted up to `u32::MAX`.
pub open spec fn count_unstable(s: Seq<bool>) -> nat
    decreases s.len(),
{
    if s.len() == 0 {
        0
    } else {
        let prev = count_unstable(s.drop_last());
        if s.last() && prev < u32::MAX {
            prev + 1
        } else {
            prev
        }
    }
}

/// What the banner over the tower says.
#[derive(Clone, Copy, Debug, PartialEq, Eq, Structural)]
pub enum InteractionStatus {
    /// The initial wait runs; this many whole seconds (rounded up) are left.
    Waiting(u64),
    Enabled,
    Blocked,
}

/// The banner: during the initial wait, the seconds left of it (rounded
/// up); afterwards whether blocks may be touched.
pub fn interaction_status(progress: &GameProgress, wait_left_millis: u64) -> (r: InteractionStatus)
    requires
        wait_left_millis <= u64::MAX - 999,
    ensures
        progress.initial_wait_timer is Some ==> r == InteractionStatus::Waiting(
            ((wait_left_millis + 999) / 1000) as u64,
        ),
        progress.initial_wait_timer is None && (progress.level_complete || progress.tower_collapsed)
            ==> r == InteractionStatus::Blocked,
        progress.initial_wait_timer is None && !progress.level_complete && !progress.tower_collapsed
            ==> r == InteractionStatus::Enabled,
{
    if progress.initial_wait_timer.is_some() {
        InteractionStatus::Waiting((wait_left_millis + 999) / 1000)
    } else if progress.is_interaction_blocked() {
        InteractionStatus::Blocked
    } else {
        InteractionStatus::Enabled
    }
}

/// The initial wait is over: blocks may be touched from now on (unless the
/// level is already over).
pub fn finish_initial_wait(progress: &mut GameProgress)
    ensures
        final(progress).initial_wait_timer is None,
        final(progress).score == old(progress).score,
        final(progress).blocks_removed == old(progress).blocks_removed,
        final(progress).tower_collapsed == old(progress).tower_collapsed,
        final(progress).level_complete == old(progress).level_complete,
{
    progress.initial_wait_timer = None;
}

/// What the level leads to: the next level once cleared, the end of the
/// game with the score once the tower fell, or nothing yet.
#[derive(Clone, Copy, Debug, PartialEq, Eq, Structural)]
pub enum LevelOutcome {
    Continue,
    LevelComplete,
    GameOver(BitResult),
}

pub fn check_level_complete(progress: &GameProgress) -> (r: LevelOutcome)
    ensures
        progress.level_complete ==> r == LevelOutcome::LevelComplete,
        !progress.level_complete && progress.tower_collapsed ==> r == LevelOutcome::GameOver(
            BitResult::HighestScore(progress.score as i64),
        ),
        !progress.level_complete && !progress.tower_collapsed ==> r == LevelOutcome::Continue,
{
    if progress.level_complete {
        LevelOutcome::LevelComplete
    } else if progress.tower_collapsed {
        LevelOutcome::GameOver(BitResult::HighestScore(progress.score as i64))
    } else {
        LevelOutcome::Continue
    }
}

/// The level timer ran out: unless the level is already over, the tower
/// counts as collapsed.
pub fn level_time_up(progress: &mut GameProgress)
    ensures
        final(progress).tower_collapsed == (old(progress).tower_collapsed || !old(
            progress,
        ).level_complete),
        final(progress).score == old(progress).score,
        final(progress).blocks_removed == old(progress).blocks_removed,
        final(progress).level_complete == old(progress).level_complete,
        final(progress).initial_wait_timer == old(progress).initial_wait_timer,
{
    if !progress.level_complete && !progress.tower_collapsed {
        progress.tower_collapsed = true;
    }
}

/// The size of the tower of a level.
pub struct LevelSettings {
    pub level: u32,
    pub num_blocks: u32,
    pub tower_height: u32,
    pub tower_width: u32,
}

/// The tower of `level`: four rows plus one per level; three columns, one
/// more every second level past the third.
pub open spec fn tower_height_for(level: int) -> int {
    4 + level
}

pub open spec fn tower_width_for(level: int, previous_width: int) -> int {
    if level > 3 {
        3 + (level - 3) / 2
    } else {
        previous_width
    }
}

impl LevelSettings {
    pub fn default() -> (r: LevelSettings)
        ensures
            r.level == 1,
            r.num_blocks == 12,
            r.tower_height == 4,
            r.tower_width == 3,
    {
        LevelSettings { level: 1, num_blocks: 12, tower_height: 4, tower_width: 3 }
    }

    /// Moves on to the next level and sizes its tower.
    pub fn advance_level(&mut self)
        requires
            old(self).level < u32::MAX - 4,
            tower_height_for(old(self).level + 1) * tower_width_for(
                old(self).level + 1,
                old(self).tower_width as int,
            ) <= u32::MAX,
        ensures
            final(self).level == old(self).level + 1,
            final(self).tower_height == tower_height_for(final(self).level as int),
            final(self).tower_width == tower_width_for(
                final(self).level as int,
                old(self).tower_width as int,
            ),
            final(self).num_blocks == final(self).tower_height * final(self).tower_width,
    {
        self.level = self.level + 1;
        self.recalculate_settings();
    }

    fn recalculate_settings(&mut self)
        requires
            old(self).level < u32::MAX - 4,
            tower_height_for(old(self).level as int) * tower_width_for(
                old(self).level as int,
                old(self).tower_width as int,
            ) <= u32::MAX,
        ensures
            final(self).level == old(self).level,
            final(self).tower_height == tower_height_for(old(self).level as int),
            final(self).tower_width == tower_width_for(
                old(self).level as int,
                old(self).tower_width as int,
            ),
            final(self).num_blocks == final(self).tower_height * final(self).tower_width,
    {
        self.tower_height = 4 + self.level;
        if self.level > 3 {
            self.tower_width = 3 + (self.level - 3) / 2;
        }
        self.num_blocks = self.tower_height * self.tower_width;
    }
}

/// Over the levels the tower only grows: every level is at least as tall
/// and as wide as the one before.
pub proof fn law_tower_grows(level: int, width: int)
    requires
        level >= 1,
        level <= 3 ==> width == 3,
        level > 3 ==> width == 3 + (level - 3) / 2,
    ensures
        tower_height_for(level + 1) > tower_height_for(level),
        tower_width_for(level + 1, width) >= width,
{
    if level > 3 {
        assert((level - 2) / 2 >= (level - 3) / 2) by (nonlinear_arith)
            requires level > 3;
    }
}

} // verus!
