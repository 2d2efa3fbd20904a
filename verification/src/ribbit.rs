//! What each game reports to the platform that runs it: how a finished game
//! went, and how long a game may last.

use vstd::prelude::*;

verus! {

/// How a game ended, as reported to the platform.
#[derive(Clone, Copy, Debug, PartialEq, Eq, Structural)]
pub enum BitResult {
    Success,
    Failure,
    /// A score where higher is better.
    HighestScore(i64),
    /// A time in milliseconds where shorter is better.
    FastestDuration(u64),
    /// A time in milliseconds where longer is better.
    LongestDuration(u64),
}

/// How long the platform lets a game run.
#[derive(Clone, Copy, Debug, PartialEq, Eq, Structural)]
pub enum BitDuration {
    /// As long as the platform allows.
    MaxDuration,
    /// This many milliseconds.
    Millis(u64),
}

/// The match-three game: it has no end state and reports a failure.
#[derive(Clone, Copy, Debug, Default)]
pub struct RibbitMatch3;

impl RibbitMatch3 {
    pub fn end_result() -> (r: BitResult)
        ensures
            r == BitResult::Failure,
    {
        BitResult::Failure
    }

    pub fn duration() -> (r: BitDuration)
        ensures
            r == BitDuration::MaxDuration,
    {
        BitDuration::MaxDuration
    }
}

/// The code-breaking game: ended from outside, the player has not broken
/// the code.
#[derive(Clone, Copy, Debug, Default)]
pub struct MasterMind;

impl MasterMind {
    pub fn end_result() -> (r: BitResult)
        ensures
            r == BitResult::Failure,
    {
        BitResult::Failure
    }

    pub fn duration() -> (r: BitDuration)
        ensures
            r == BitDuration::MaxDuration,
    {
        BitDuration::MaxDuration
    }
}

/// The math quiz: ended from outside, the player did not finish.
#[derive(Clone, Copy, Debug, Default)]
pub struct MathQuiz;

impl MathQuiz {
    pub fn end_result() -> (r: BitResult)
        ensures
            r == BitResult::Failure,
    {
        BitResult::Failure
    }

    pub fn duration() -> (r: BitDuration)
        ensures
            r == BitDuration::MaxDuration,
    {
        BitDuration::MaxDuration
    }
}

/// The marble game: reports its score.
#[derive(Clone, Copy, Debug, Default)]
pub struct MarbleDropper;

impl MarbleDropper {
    pub fn end_result(score: i32) -> (r: BitResult)
        ensures
            r == BitResult::HighestScore(score as i64),
    {
        BitResult::HighestScore(score as i64)
    }

    pub fn duration() -> (r: BitDuration)
        ensures
            r == BitDuration::MaxDuration,
    {
        BitDuration::MaxDuration
    }
}

/// The find-the-emoji game: reports its score.
#[derive(Clone, Copy, Debug, Default)]
pub struct ShapeFinder;

impl ShapeFinder {
    pub fn end_result(score: i32) -> (r: BitResult)
        ensures
            r == BitResult::HighestScore(score as i64),
    {
        BitResult::HighestScore(score as i64)
    }

    pub fn duration() -> (r: BitDuration)
        ensures
            r == BitDuration::MaxDuration,
    {
        BitDuration::MaxDuration
    }
}

/// The shape-mashing game: reports its score; it lasts its playing time
/// plus three seconds of splash screen.
#[derive(Clone, Copy, Debug, Default)]
pub struct ShapeMasher;

/// Playing time of the shape-mashing game, in milliseconds.
pub const SHAPE_MASHER_GAME_MILLIS: u64 = 20000;

impl ShapeMasher {
    pub fn end_result(score: u32) -> (r: BitResult)
        ensures
            r == BitResult::HighestScore(score as i64),
    {
        BitResult::HighestScore(score as i64)
    }

    pub fn duration() -> (r: BitDuration)
        ensures
            r == BitDuration::Millis(23000),
    {
        BitDuration::Millis(SHAPE_MASHER_GAME_MILLIS + 3000)
    }
}

/// The racing game: reports how long the player survived.
#[derive(Clone, Copy, Debug, Default)]
pub struct ShapeRacer;

impl ShapeRacer {
    pub fn end_result(survived_millis: u64) -> (r: BitResult)
        ensures
            r == BitResult::LongestDuration(survived_millis),
    {
        BitResult::LongestDuration(survived_millis)
    }

    pub fn duration() -> (r: BitDuration)
        ensures
            r == BitDuration::MaxDuration,
    {
        BitDuration::MaxDuration
    }
}

/// The side-scrolling game: reports its score.
#[derive(Clone, Copy, Debug, Default)]
pub struct ShapeSideScroller;

impl ShapeSideScroller {
    pub fn end_result(score: i32) -> (r: BitResult)
        ensures
            r == BitResult::HighestScore(score as i64),
    {
        BitResult::HighestScore(score as i64)
    }

    pub fn duration() -> (r: BitDuration)
        ensures
            r == BitDuration::MaxDuration,
    {
        BitDuration::MaxDuration
    }
}

/// The tower game: reports its score.
#[derive(Clone, Copy, Debug, Default)]
pub struct TowerTumble;

impl TowerTumble {
    pub fn end_result(score: u32) -> (r: BitResult)
        ensures
            r == BitResult::HighestScore(score as i64),
    {
        BitResult::HighestScore(score as i64)
    }

    pub fn duration() -> (r: BitDuration)
        ensures
            r == BitDuration::MaxDuration,
    {
        BitDuration::MaxDuration
    }
}

/// The hidden-character game: ended from outside, the player did not find
/// the character.
#[derive(Clone, Copy, Debug, Default)]
pub struct WheresWaldo;

impl WheresWaldo {
    pub fn end_result() -> (r: BitResult)
        ensures
            r == BitResult::Failure,
    {
        BitResult::Failure
    }

    pub fn duration() -> (r: BitDuration)
        ensures
            r == BitDuration::MaxDuration,
    {
        BitDuration::MaxDuration
    }
}

/// The sliding puzzle: ended from outside, the puzzle is unsolved.
#[derive(Clone, Copy, Debug, Default)]
pub struct Puzzle15;

impl Puzzle15 {
    pub fn end_result() -> (r: BitResult)
        ensures
            r == BitResult::Failure,
    {
        BitResult::Failure
    }

    pub fn duration() -> (r: BitDuration)
        ensures
            r == BitDuration::MaxDuration,
    {
        BitDuration::MaxDuration
    }
}

/// The mole game: reports its score.
#[derive(Clone, Copy, Debug, Default)]
pub struct WhackAMole;

impl WhackAMole {
    pub fn end_result(score: u32) -> (r: BitResult)
        ensures
            r == BitResult::HighestScore(score as i64),
    {
        BitResult::HighestScore(score as i64)
    }

    pub fn duration() -> (r: BitDuration)
        ensures
            r == BitDuration::MaxDuration,
    {
        BitDuration::MaxDuration
    }
}

/// The memory game: ended from outside, the player has not cleared it.
#[derive(Clone, Copy, Debug, Default)]
pub struct Memoji;

impl Memoji {
    pub fn end_result() -> (r: BitResult)
        ensures
            r == BitResult::Failure,
    {
        BitResult::Failure
    }

    pub fn duration() -> (r: BitDuration)
        ensures
            r == BitDuration::MaxDuration,
    {
        BitDuration::MaxDuration
    }
}

} // verus!
