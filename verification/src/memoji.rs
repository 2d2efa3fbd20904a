//! The memory game: pairs of face-down cards, turned two at a time; a stage
//! is cleared when every pair is found, and three mistakes end the game.

use vstd::prelude::*;
use crate::random::rand_shuffle;

verus! {

/// Pause before the cards are shown at the start of a stage, in milliseconds.
pub const INITIAL_WAIT_MILLIS: u64 = 2000;

/// How long each card of a stage adds to the initial showing, in
/// milliseconds.
pub const REVEAL_MILLIS_PER_CARD: u64 = 500;

/// Mistakes allowed before the game is over.
pub const MAX_MISTAKES: u32 = 3;

/// How long all cards are shown after the game is lost, in milliseconds.
pub const GAME_OVER_REVEAL_MILLIS: u64 = 3000;

/// How long the cleared stage is celebrated, in milliseconds.
pub const STAGE_TRANSITION_MILLIS: u64 = 1000;

/// The most cards a stage deals.
pub const MAX_CARDS: u32 = 24;

#[derive(Clone, Copy, Debug, PartialEq, Eq, Structural)]
pub enum GameState {
    Welcome,
    Playing,
    StageComplete,
    GameOver,
}

/// A card of the grid: which emoji it shows, whether it is face up, and
/// whether it belongs to a found pair.
#[derive(Clone, Copy, Debug, PartialEq, Eq, Structural)]
pub struct Card {
    pub emoji_index: usize,
    pub face_up: bool,
    pub locked: bool,
}

/// Progress within a stage. A timer is `Some(duration in milliseconds)`
/// while it runs.
pub struct GameProgress {
    /// Pause before the cards are shown.
    pub initial_wait_timer: Option<u64>,
    /// How long the cards stay shown.
    pub reveal_timer: Option<u64>,
    /// Whether the cards are being shown to the player.
    pub cards_revealed: bool,
    /// Wrong pairs turned so far.
    pub mistakes: u32,
    /// Mistakes allowed before the game is over.
    pub max_mistakes: u32,
    /// Whether the player has lost.
    pub game_over: bool,
    /// How long all cards are shown after the game is lost.
    pub game_over_reveal_timer: Option<u64>,
}

impl GameProgress {
    /// The progress at the start of a game: waiting to show the cards.
    pub fn default() -> (r: GameProgress)
        ensures
            r.initial_wait_timer == Some(INITIAL_WAIT_MILLIS),
            r.reveal_timer is None,
            !r.cards_revealed,
            r.mistakes == 0,
            r.max_mistakes == MAX_MISTAKES,
            !r.game_over,
            r.game_over_reveal_timer is None,
    {
        GameProgress {
            initial_wait_timer: Some(INITIAL_WAIT_MILLIS),
            reveal_timer: None,
            cards_revealed: false,
            mistakes: 0,
            max_mistakes: MAX_MISTAKES,
            game_over: false,
            game_over_reveal_timer: None,
        }
    }

    /// Records a wrong pair and answers whether the game is over: once the
    /// mistakes exceed the allowed number, the game is lost and all cards
    /// will be shown.
    pub fn record_mistake(&mut self) -> (r: bool)
        requires
            old(self).mistakes < u32::MAX,
        ensures
            final(self).mistakes == old(self).mistakes + 1,
            final(self).max_mistakes == old(self).max_mistakes,
            final(self).game_over == (old(self).game_over || final(self).mistakes
                > old(self).max_mistakes),
            final(self).mistakes > old(self).max_mistakes ==> final(self).game_over_reveal_timer
                == Some(GAME_OVER_REVEAL_MILLIS),
            final(self).mistakes <= old(self).max_mistakes ==> final(self).game_over_reveal_timer
                == old(self).game_over_reveal_timer,
            final(self).initial_wait_timer == old(self).initial_wait_timer,
            final(self).reveal_timer == old(self).reveal_timer,
            final(self).cards_revealed == old(self).cards_revealed,
            r == final(self).game_over,
    {
        self.mistakes = self.mistakes + 1;
        if self.mistakes > self.max_mistakes {
            self.game_over = true;
            self.game_over_reveal_timer = Some(GAME_OVER_REVEAL_MILLIS);
        }
        self.game_over
    }

    /// Whether the cards may not be touched: while they are shown, before
    /// they are shown, and once the game is lost.
    pub fn is_interaction_blocked(&self) -> (r: bool)
        ensures
            r == (self.cards_revealed || self.reveal_timer is Some || self.initial_wait_timer
                is Some || self.game_over),
    {
        self.cards_revealed || self.reveal_timer.is_some() || self.initial_wait_timer.is_some()
            || self.game_over
    }

    /// The progress at the start of the next stage of `total_cards` cards:
    /// a pause, then the cards shown for a time that grows with their
    /// number; the mistakes start again from zero.
    pub fn next_stage(total_cards: u64) -> (r: GameProgress)
        requires
            total_cards * REVEAL_MILLIS_PER_CARD <= u64::MAX,
        ensures
            r.initial_wait_timer == Some(INITIAL_WAIT_MILLIS),
            r.reveal_timer == Some((total_cards * REVEAL_MILLIS_PER_CARD) as u64),
            !r.cards_revealed,
            r.mistakes == 0,
            r.max_mistakes == MAX_MISTAKES,
            !r.game_over,
            r.game_over_reveal_timer is None,
    {
        GameProgress {
            initial_wait_timer: Some(INITIAL_WAIT_MILLIS),
            reveal_timer: Some(total_cards * REVEAL_MILLIS_PER_CARD),
            cards_revealed: false,
            mistakes: 0,
            max_mistakes: MAX_MISTAKES,
            game_over: false,
            game_over_reveal_timer: None,
        }
    }
}

/// The size of the grid of a stage.
pub struct GameDifficulty {
    /// The stage, counted from 1.
    pub stage: u32,
    pub grid_cols: u32,
    pub grid_rows: u32,
    /// Pairs to find.
    pub num_pairs: usize,
}

/// The number of cards dealt at `stage`: six, and one more pair every two
/// stages, at most twenty-four.
pub open spec fn cards_for_stage(stage: int) -> int {
    let n = 6 + (stage / 2) * 2;
    if n < MAX_CARDS {
        n
    } else {
        MAX_CARDS as int
    }
}

/// The smallest number of columns whose square holds `n` cards.
pub open spec fn is_ceil_sqrt(c: int, n: int) -> bool {
    c * c >= n && (c == 0 || (c - 1) * (c - 1) < n)
}

/// The smallest `c` with `c * c >= n`.
fn ceil_sqrt(n: u32) -> (c: u32)
    requires
        n <= MAX_CARDS,
    ensures
        is_ceil_sqrt(c as int, n as int),
        c <= 5,
        n > 0 ==> c > 0,
{
    let mut c: u32 = 0;
    while c * c < n
        invariant
            c <= 5,
            c * c <= 25,
            n <= MAX_CARDS,
            c == 0 || (c - 1) * (c - 1) < n,
        decreases 5 - c,
    {
        assert(c < 5) by (nonlinear_arith)
            requires
                c * c < n,
                n <= 24,
        ;
        assert((c + 1) * (c + 1) <= 25) by (nonlinear_arith)
            requires
                c < 5,
        ;
        c = c + 1;
    }
    c
}

impl GameDifficulty {
    /// The first stage: two rows of four cards.
    pub fn default() -> (r: GameDifficulty)
        ensures
            r.stage == 1,
            r.grid_cols == 4,
            r.grid_rows == 2,
            r.num_pairs == 4,
    {
        GameDifficulty { stage: 1, grid_cols: 4, grid_rows: 2, num_pairs: 4 }
    }

    /// Moves on to the next stage and sizes its grid.
    pub fn advance_stage(&mut self)
        requires
            old(self).stage < u32::MAX,
        ensures
            final(self).stage == old(self).stage + 1,
            ({
                let n = cards_for_stage(final(self).stage as int);
                &&& is_ceil_sqrt(final(self).grid_cols as int, n)
                &&& final(self).grid_rows == (n + final(self).grid_cols - 1) / (final(self).grid_cols as int)
                &&& final(self).num_pairs == n / 2
            }),
    {
        self.stage = self.stage + 1;
        self.recalculate_difficulty();
    }

    fn recalculate_difficulty(&mut self)
        ensures
            final(self).stage == old(self).stage,
            ({
                let n = cards_for_stage(old(self).stage as int);
                &&& is_ceil_sqrt(final(self).grid_cols as int, n)
                &&& final(self).grid_rows == (n + final(self).grid_cols - 1) / (final(self).grid_cols as int)
                &&& final(self).num_pairs == n / 2
            }),
    {
        let half = self.stage / 2;
        let total_cards: u32 = if half >= 9 {
            MAX_CARDS
        } else {
            6 + half * 2
        };
        self.grid_cols = ceil_sqrt(total_cards);
        self.grid_rows = (total_cards + self.grid_cols - 1) / self.grid_cols;
        self.num_pairs = (total_cards / 2) as usize;
    }
}

/// Moves on to the next stage once one is won: the grid is sized for the
/// new stage, and the progress starts again with a pause, then the cards
/// shown for a time that grows with the number of grid slots.
pub fn prepare_next_stage(difficulty: &mut GameDifficulty) -> (r: GameProgress)
    requires
        old(difficulty).stage < u32::MAX,
    ensures
        final(difficulty).stage == old(difficulty).stage + 1,
        ({
            let n = cards_for_stage(final(difficulty).stage as int);
            &&& is_ceil_sqrt(final(difficulty).grid_cols as int, n)
            &&& final(difficulty).grid_rows == (n + final(difficulty).grid_cols - 1) / (final(difficulty).grid_cols as int)
            &&& final(difficulty).num_pairs == n / 2
        }),
        r.initial_wait_timer == Some(INITIAL_WAIT_MILLIS),
        r.reveal_timer == Some(
            (final(difficulty).grid_rows * final(difficulty).grid_cols * REVEAL_MILLIS_PER_CARD) as u64,
        ),
        !r.cards_revealed,
        r.mistakes == 0,
        r.max_mistakes == MAX_MISTAKES,
        !r.game_over,
        r.game_over_reveal_timer is None,
{
    difficulty.advance_stage();
    let ghost n = cards_for_stage(difficulty.stage as int);
    let cols = difficulty.grid_cols;
    let rows = difficulty.grid_rows;
    proof {
        assert(6 <= n <= MAX_CARDS);
        assert(1 <= cols <= 5) by (nonlinear_arith)
            requires
                cols * cols >= n,
                cols == 0 || (cols - 1) * (cols - 1) < n,
                6 <= n <= 24,
        ;
        assert(rows <= 30) by (nonlinear_arith)
            requires
                rows == (n + cols - 1) / (cols as int),
                1 <= cols <= 5,
                6 <= n <= 24,
        ;
        assert(rows * cols <= 150) by (nonlinear_arith)
            requires
                rows <= 30,
                cols <= 5,
        ;
    }
    let slots = (rows as u64) * (cols as u64);
    GameProgress::next_stage(slots)
}

/// Every stage's grid has room for all its cards, and they come in pairs.
pub proof fn law_grid_holds_every_card(stage: int, cols: int, rows: int)
    requires
        stage >= 0,
        cols >= 0,
        is_ceil_sqrt(cols, cards_for_stage(stage)),
        rows == (cards_for_stage(stage) + cols - 1) / cols,
    ensures
        rows * cols >= cards_for_stage(stage),
        cards_for_stage(stage) % 2 == 0,
        cols >= 3,
{
    let n = cards_for_stage(stage);
    assert(n >= 6);
    assert(cols >= 3) by (nonlinear_arith)
        requires
            cols >= 0,
            cols * cols >= n,
            n >= 6,
    ;
    vstd::arithmetic::div_mod::lemma_fundamental_div_mod(n + cols - 1, cols);
    assert(rows * cols >= n) by (nonlinear_arith)
        requires
            rows == (n + cols - 1) / cols,
            n + cols - 1 == cols * ((n + cols - 1) / cols) + (n + cols - 1) % cols,
            (n + cols - 1) % cols < cols,
            cols > 0,
    ;
}

/// Which cards are turned up waiting to be compared, and whether a wrong
/// pair is waiting to be turned back down.
pub struct FlipState {
    pub face_up_cards: Vec<usize>,
    pub unmatch_pending: bool,
}

impl FlipState {
    pub fn default() -> (r: FlipState)
        ensures
            r.face_up_cards@.len() == 0,
            !r.unmatch_pending,
    {
        FlipState { face_up_cards: Vec::new(), unmatch_pending: false }
    }
}

/// The player clicked near the cards `near`, in the order the grid lists
/// them. Unless cards may not be touched, the first of them that is face
/// down and not part of a found pair is turned up, provided fewer than two
/// cards wait to be compared. Answers the card turned.
pub fn click_card(
    cards: &mut Vec<Card>,
    flip_state: &mut FlipState,
    progress: &GameProgress,
    near: &Vec<usize>,
) -> (r: Option<usize>)
    requires
        forall|k: int| 0 <= k < near@.len() ==> #[trigger] near@[k] < old(cards)@.len(),
    ensures
        final(cards)@.len() == old(cards)@.len(),
        final(flip_state).unmatch_pending == old(flip_state).unmatch_pending,
        (progress.cards_revealed || progress.reveal_timer is Some || progress.initial_wait_timer
            is Some || old(flip_state).unmatch_pending || old(flip_state).face_up_cards@.len()
            >= 2) ==> r is None,
        r is None ==> final(cards)@ == old(cards)@ && final(flip_state).face_up_cards@ == old(flip_state).face_up_cards@,
        r matches Some(c) ==> {
            &&& exists|k: int|
                0 <= k < near@.len() && near@[k] == c && (forall|j: int|
                    0 <= j < k ==> old(cards)@[#[trigger] near@[j] as int].face_up || old(cards)@[near@[j] as int].locked)
            &&& !old(cards)@[c as int].face_up && !old(cards)@[c as int].locked
            &&& final(cards)@ == old(cards)@.update(
                c as int,
                Card { face_up: true, ..old(cards)@[c as int] },
            )
            &&& final(flip_state).face_up_cards@ == old(flip_state).face_up_cards@.push(c)
        },
        (r is None && !(progress.cards_revealed || progress.reveal_timer is Some
            || progress.initial_wait_timer is Some || old(flip_state).unmatch_pending || old(flip_state).face_up_cards@.len() >= 2)) ==> forall|k: int|
            0 <= k < near@.len() ==> old(cards)@[#[trigger] near@[k] as int].face_up || old(cards)@[near@[k] as int].locked,
{
    if progress.cards_revealed || progress.reveal_timer.is_some()
        || progress.initial_wait_timer.is_some() || flip_state.unmatch_pending {
        return None;
    }
    let mut k: usize = 0;
    while k < near.len()
        invariant
            k <= near@.len(),
            cards@ == old(cards)@,
            flip_state.face_up_cards@ == old(flip_state).face_up_cards@,
            flip_state.unmatch_pending == old(flip_state).unmatch_pending,
            !(progress.cards_revealed || progress.reveal_timer is Some
                || progress.initial_wait_timer is Some || flip_state.unmatch_pending),
            forall|k: int| 0 <= k < near@.len() ==> #[trigger] near@[k] < old(cards)@.len(),
            forall|j: int|
                0 <= j < k ==> old(cards)@[#[trigger] near@[j] as int].face_up || old(cards)@[near@[j] as int].locked,
        decreases near@.len() - k,
    {
        let c = near[k];
        assert(near@[k as int] < old(cards)@.len());
        let card = cards[c];
        if !card.face_up && !card.locked && flip_state.face_up_cards.len() < 2 {
            cards.set(c, Card { face_up: true, ..card });
            flip_state.face_up_cards.push(c);
            assert(near@[k as int] == c);
            return Some(c);
        }
        if !card.face_up && !card.locked {
            return None;
        }
        k = k + 1;
    }
    None
}

proof fn lemma_push_contains(s: Seq<usize>, e: usize)
    ensures
        forall|x: usize| #[trigger] s.push(e).contains(x) == (s.contains(x) || x == e),
{
    assert forall|x: usize| #[trigger] s.push(e).contains(x) == (s.contains(x) || x == e) by {
        if s.push(e).contains(x) {
            let k = choose|k: int| 0 <= k < s.push(e).len() && s.push(e)[k] == x;
            if k < s.len() {
                assert(s[k] == x);
            }
        }
        if s.contains(x) {
            let k = choose|k: int| 0 <= k < s.len() && s[k] == x;
            assert(s.push(e)[k] == x);
        }
        if x == e {
            assert(s.push(e)[s.len() as int] == x);
        }
    }
}

/// What comparing two turned cards led to.
#[derive(Clone, Copy, Debug, PartialEq, Eq, Structural)]
pub enum PairOutcome {
    /// Nothing to compare, or cards may not be touched.
    Waiting,
    /// The wrong pair was turned back down.
    TurnedBack,
    /// The two cards match and stay up; `stage_complete` when every card is
    /// now part of a found pair.
    Matched { stage_complete: bool },
    /// The two cards differ; they will be turned back down.
    Mismatched,
    /// The two cards differ and that was the last mistake allowed.
    GameOver,
}

/// Every card is face up and part of a found pair.
pub open spec fn all_matched(cards: Seq<Card>) -> bool {
    forall|i: int| 0 <= i < cards.len() ==> (#[trigger] cards[i]).face_up && cards[i].locked
}

fn check_all_matched(cards: &Vec<Card>) -> (r: bool)
    ensures
        r == all_matched(cards@),
{
    let mut i: usize = 0;
    while i < cards.len()
        invariant
            i <= cards@.len(),
            forall|j: int| 0 <= j < i ==> (#[trigger] cards@[j]).face_up && cards@[j].locked,
        decreases cards@.len() - i,
    {
        if !(cards[i].face_up && cards[i].locked) {
            return false;
        }
        i = i + 1;
    }
    true
}

/// Compares the two turned cards, or, once the wait after a wrong pair is
/// over (`unmatch_done`), turns that pair back down.
pub fn handle_card_flipping(
    cards: &mut Vec<Card>,
    flip_state: &mut FlipState,
    progress: &mut GameProgress,
    unmatch_done: bool,
) -> (r: PairOutcome)
    requires
        forall|k: int|
            0 <= k < old(flip_state).face_up_cards@.len() ==> #[trigger] old(flip_state).face_up_cards@[k] < old(cards)@.len(),
        old(progress).mistakes < u32::MAX,
    ensures
        final(cards)@.len() == old(cards)@.len(),
        (old(progress).cards_revealed || old(progress).reveal_timer is Some || old(progress).initial_wait_timer is Some || old(progress).game_over) ==> r == PairOutcome::Waiting
            && final(cards)@ == old(cards)@,
        r == PairOutcome::TurnedBack ==> old(flip_state).unmatch_pending && unmatch_done
            && final(flip_state).face_up_cards@.len() == 0 && !final(flip_state).unmatch_pending
            && forall|i: int|
            0 <= i < old(cards)@.len() ==> #[trigger] final(cards)@[i] == if old(flip_state).face_up_cards@.contains(i as usize) && !old(cards)@[i].locked {
                Card { face_up: false, ..old(cards)@[i] }
            } else {
                old(cards)@[i]
            },
        r matches PairOutcome::Matched { stage_complete } ==> {
            let a = old(flip_state).face_up_cards@[0] as int;
            let b = old(flip_state).face_up_cards@[1] as int;
            &&& old(flip_state).face_up_cards@.len() == 2
            &&& old(cards)@[a].emoji_index == old(cards)@[b].emoji_index
            &&& final(cards)@ == old(cards)@.update(a, Card { locked: true, ..old(cards)@[a] }).update(
                b,
                Card { locked: true, ..old(cards)@.update(a, Card { locked: true, ..old(cards)@[a] })[b] },
            )
            &&& final(flip_state).face_up_cards@.len() == 0
            &&& stage_complete == all_matched(final(cards)@)
        },
        (r == PairOutcome::Mismatched || r == PairOutcome::GameOver) ==> {
            let a = old(flip_state).face_up_cards@[0] as int;
            let b = old(flip_state).face_up_cards@[1] as int;
            &&& old(flip_state).face_up_cards@.len() == 2
            &&& old(cards)@[a].emoji_index != old(cards)@[b].emoji_index
            &&& final(cards)@ == old(cards)@
            &&& final(progress).mistakes == old(progress).mistakes + 1
            &&& final(progress).max_mistakes == old(progress).max_mistakes
            &&& final(progress).game_over == (old(progress).game_over || final(progress).mistakes
                > old(progress).max_mistakes)
            &&& final(progress).mistakes > old(progress).max_mistakes
                ==> final(progress).game_over_reveal_timer == Some(GAME_OVER_REVEAL_MILLIS)
            &&& final(progress).mistakes <= old(progress).max_mistakes
                ==> final(progress).game_over_reveal_timer == old(progress).game_over_reveal_timer
            &&& final(progress).initial_wait_timer == old(progress).initial_wait_timer
            &&& final(progress).reveal_timer == old(progress).reveal_timer
            &&& final(progress).cards_revealed == old(progress).cards_revealed
            &&& (r == PairOutcome::GameOver) == final(progress).game_over
            &&& r == PairOutcome::Mismatched ==> final(flip_state).unmatch_pending
        },
        (r == PairOutcome::Waiting || r == PairOutcome::TurnedBack || r is Matched)
            ==> *final(progress) == *old(progress),
        !(old(progress).cards_revealed || old(progress).reveal_timer is Some || old(progress).initial_wait_timer is Some || old(progress).game_over) && !old(flip_state).unmatch_pending && old(flip_state).face_up_cards@.len() == 2 ==> r != PairOutcome::Waiting,
{
    if progress.is_interaction_blocked() {
        return PairOutcome::Waiting;
    }
    if flip_state.unmatch_pending {
        if unmatch_done {
            let ghost before = cards@;
            let _n = cards.len();
            let mut k: usize = 0;
            while k < flip_state.face_up_cards.len()
                invariant
                    k <= flip_state.face_up_cards@.len(),
                    flip_state.face_up_cards@ == old(flip_state).face_up_cards@,
                    before == old(cards)@,
                    before.len() <= usize::MAX,
                    cards@.len() == before.len(),
                    forall|j: int|
                        0 <= j < flip_state.face_up_cards@.len() ==> #[trigger] flip_state.face_up_cards@[j]
                            < before.len(),
                    forall|i: int|
                        0 <= i < before.len() ==> #[trigger] cards@[i] == if flip_state.face_up_cards@.take(
                            k as int,
                        ).contains(i as usize) && !before[i].locked {
                            Card { face_up: false, ..before[i] }
                        } else {
                            before[i]
                        },
                decreases flip_state.face_up_cards@.len() - k,
            {
                let e = flip_state.face_up_cards[k];
                assert(flip_state.face_up_cards@.take(k + 1) =~= flip_state.face_up_cards@.take(
                    k as int,
                ).push(e));
                proof {
                    lemma_push_contains(flip_state.face_up_cards@.take(k as int), e);
                }
                let card = cards[e];
                let ghost mid = cards@;
                if !card.locked {
                    cards.set(e, Card { face_up: false, ..card });
                }
                proof {
                    let done = flip_state.face_up_cards@.take(k as int);
                    assert forall|i: int| 0 <= i < before.len() implies #[trigger] cards@[i] == if flip_state.face_up_cards@.take(
                        k + 1,
                    ).contains(i as usize) && !before[i].locked {
                        Card { face_up: false, ..before[i] }
                    } else {
                        before[i]
                    } by {
                        assert(done.push(e).contains(i as usize) == (done.contains(i as usize) || i as usize == e));
                        if i == e as int {
                            if !card.locked {
                                assert(cards@[i] == Card { face_up: false, ..mid[i] });
                            } else {
                                assert(cards@[i] == mid[i]);
                            }
                        } else {
                            assert(cards@[i] == mid[i]);
                            assert(i as usize != e);
                        }
                        assert(mid[i] == (if done.contains(i as usize) && !before[i].locked {
                            Card { face_up: false, ..before[i] }
                        } else {
                            before[i]
                        }));
                    }
                }
                k = k + 1;
            }
            assert(flip_state.face_up_cards@.take(k as int) =~= flip_state.face_up_cards@);
            flip_state.face_up_cards.clear();
            flip_state.unmatch_pending = false;
            return PairOutcome::TurnedBack;
        }
        return PairOutcome::Waiting;
    }
    if flip_state.face_up_cards.len() != 2 {
        return PairOutcome::Waiting;
    }
    let first = flip_state.face_up_cards[0];
    let second = flip_state.face_up_cards[1];
    assert(old(flip_state).face_up_cards@[0] < old(cards)@.len());
    assert(old(flip_state).face_up_cards@[1] < old(cards)@.len());
    if cards[first].emoji_index == cards[second].emoji_index {
        let c1 = cards[first];
        cards.set(first, Card { locked: true, ..c1 });
        let c2 = cards[second];
        cards.set(second, Card { locked: true, ..c2 });
        flip_state.face_up_cards.clear();
        let stage_complete = check_all_matched(cards);
        PairOutcome::Matched { stage_complete }
    } else {
        if progress.record_mistake() {
            return PairOutcome::GameOver;
        }
        flip_state.unmatch_pending = true;
        PairOutcome::Mismatched
    }
}

/// The emojis the cards show, in grid order.
pub open spec fn card_emojis(cards: Seq<Card>) -> Seq<usize> {
    cards.map_values(|c: Card| c.emoji_index)
}

/// Deals the cards of a stage: each selected emoji twice, shuffled, laid
/// row by row over the grid, face down. Cards that do not fit on the grid
/// are left out.
pub fn deal_cards(selected: &Vec<usize>, grid_rows: u32, grid_cols: u32) -> (r: Vec<Card>)
    requires
        2 * selected@.len() <= usize::MAX,
        grid_rows * grid_cols <= usize::MAX,
    ensures
        r@.len() == (if 2 * selected@.len() <= grid_rows * grid_cols {
            2 * selected@.len() as int
        } else {
            grid_rows * grid_cols
        }),
        forall|i: int| 0 <= i < r@.len() ==> !(#[trigger] r@[i]).face_up && !r@[i].locked,
        2 * selected@.len() <= grid_rows * grid_cols ==> card_emojis(r@).to_multiset()
            == selected@.to_multiset().add(selected@.to_multiset()),
{
    let mut all_indices: Vec<usize> = Vec::new();
    let mut i: usize = 0;
    proof {
        let e = Seq::<usize>::empty();
        assert(selected@.take(0) =~= e);
        assert(all_indices@ =~= e);
        vstd::seq_lib::to_multiset_len(e);
        assert(e.to_multiset().add(e.to_multiset()) =~= e.to_multiset());
    }
    while i < selected.len()
        invariant
            i <= selected@.len(),
            2 * selected@.len() <= usize::MAX,
            all_indices@.len() == 2 * i,
            all_indices@.to_multiset() == selected@.take(i as int).to_multiset().add(
                selected@.take(i as int).to_multiset(),
            ),
        decreases selected@.len() - i,
    {
        let idx = selected[i];
        let ghost before = all_indices@;
        all_indices.push(idx);
        all_indices.push(idx);
        proof {
            vstd::seq_lib::to_multiset_build(before, idx);
            vstd::seq_lib::to_multiset_build(before.push(idx), idx);
            assert(selected@.take(i + 1) =~= selected@.take(i as int).push(idx));
            vstd::seq_lib::to_multiset_build(selected@.take(i as int), idx);
            let m = selected@.take(i as int).to_multiset();
            assert(m.insert(idx).add(m.insert(idx)) =~= m.add(m).insert(idx).insert(idx));
        }
        i = i + 1;
    }
    assert(selected@.take(i as int) =~= selected@);
    rand_shuffle(&mut all_indices);
    proof {
        vstd::seq_lib::to_multiset_len(all_indices@);
        vstd::seq_lib::to_multiset_len(selected@);
    }
    let total = (grid_rows as usize) * (grid_cols as usize);
    let n = if all_indices.len() <= total {
        all_indices.len()
    } else {
        total
    };
    let mut cards: Vec<Card> = Vec::new();
    let mut k: usize = 0;
    while k < n
        invariant
            k <= n,
            n <= all_indices@.len(),
            cards@.len() == k,
            forall|j: int|
                0 <= j < k ==> #[trigger] cards@[j] == (Card {
                    emoji_index: all_indices@[j],
                    face_up: false,
                    locked: false,
                }),
        decreases n - k,
    {
        cards.push(Card { emoji_index: all_indices[k], face_up: false, locked: false });
        k = k + 1;
    }
    proof {
        assert(card_emojis(cards@) =~= all_indices@.take(n as int));
        assert(all_indices@.take(all_indices@.len() as int) =~= all_indices@);
    }
    cards
}

/// Turns every card face up or down.
pub fn set_all_face_up(cards: &mut Vec<Card>, face_up: bool)
    ensures
        final(cards)@.len() == old(cards)@.len(),
        forall|i: int|
            0 <= i < old(cards)@.len() ==> #[trigger] final(cards)@[i] == (Card {
                face_up,
                ..old(cards)@[i]
            }),
{
    let mut i: usize = 0;
    while i < cards.len()
        invariant
            i <= cards@.len(),
            cards@.len() == old(cards)@.len(),
            forall|j: int|
                0 <= j < i ==> #[trigger] cards@[j] == (Card { face_up, ..old(cards)@[j] }),
            forall|j: int| i <= j < cards@.len() ==> #[trigger] cards@[j] == old(cards)@[j],
        decreases cards@.len() - i,
    {
        let c = cards[i];
        cards.set(i, Card { face_up, ..c });
        i = i + 1;
    }
}

/// The pause at the start of a stage is over: every card is shown, for
/// half a second per card.
pub fn initial_wait_over(progress: &mut GameProgress, cards: &mut Vec<Card>)
    requires
        old(cards)@.len() * REVEAL_MILLIS_PER_CARD <= u64::MAX,
    ensures
        final(cards)@.len() == old(cards)@.len(),
        forall|i: int|
            0 <= i < old(cards)@.len() ==> #[trigger] final(cards)@[i] == (Card {
                face_up: true,
                ..old(cards)@[i]
            }),
        final(progress).cards_revealed,
        final(progress).initial_wait_timer is None,
        final(progress).reveal_timer == Some((old(cards)@.len() * REVEAL_MILLIS_PER_CARD) as u64),
        final(progress).mistakes == old(progress).mistakes,
        final(progress).max_mistakes == old(progress).max_mistakes,
        final(progress).game_over == old(progress).game_over,
        final(progress).game_over_reveal_timer == old(progress).game_over_reveal_timer,
{
    let total_cards = cards.len() as u64;
    set_all_face_up(cards, true);
    progress.cards_revealed = true;
    progress.initial_wait_timer = None;
    progress.reveal_timer = Some(total_cards * REVEAL_MILLIS_PER_CARD);
}

/// The showing is over: while the cards are shown, they all go face down
/// and play starts.
pub fn reveal_over(progress: &mut GameProgress, cards: &mut Vec<Card>)
    ensures
        final(cards)@.len() == old(cards)@.len(),
        old(progress).cards_revealed ==> {
            &&& forall|i: int|
                0 <= i < old(cards)@.len() ==> #[trigger] final(cards)@[i] == (Card {
                    face_up: false,
                    ..old(cards)@[i]
                })
            &&& !final(progress).cards_revealed
            &&& final(progress).reveal_timer is None
        },
        !old(progress).cards_revealed ==> final(cards)@ == old(cards)@
            && final(progress).reveal_timer == old(progress).reveal_timer
            && final(progress).cards_revealed == old(progress).cards_revealed,
        final(progress).initial_wait_timer == old(progress).initial_wait_timer,
        final(progress).mistakes == old(progress).mistakes,
        final(progress).max_mistakes == old(progress).max_mistakes,
        final(progress).game_over == old(progress).game_over,
        final(progress).game_over_reveal_timer == old(progress).game_over_reveal_timer,
{
    if progress.cards_revealed {
        set_all_face_up(cards, false);
        progress.cards_revealed = false;
        progress.reveal_timer = None;
    }
}

} // verus!
