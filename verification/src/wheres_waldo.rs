//! Where's Waldo: forty emojis are scattered over an 8x8 grid; the first of
//! them, also shown below the board, is the one to find. Clicking it wins;
//! the third click on another emoji loses.

use vstd::prelude::*;
use crate::random::fast_shuffle;

verus! {

/// Side of the square grid the emojis are laid on.
pub const GRID_SIDE: u8 = 8;

/// Emojis on the board, the one to find included.
pub const NUMBER_OF_CANDIDATES: usize = 40;

/// Mistakes that end the game.
pub const MAX_MISTAKES: i32 = 3;

/// Time allowed to find it, in seconds.
pub const MAX_DURATION_SECS: u64 = 15;

/// A place on the grid, by column and row.
#[derive(Clone, Copy, Debug, PartialEq, Eq, Structural)]
pub struct Cell {
    pub x: u8,
    pub y: u8,
}

/// Where the emojis go: the one to find, and every other one with its own
/// cell.
pub struct Puzzle {
    pub waldo: usize,
    pub waldo_cell: Cell,
    pub others: Vec<(usize, Cell)>,
}

pub open spec fn in_grid(c: Cell) -> bool {
    c.x < GRID_SIDE && c.y < GRID_SIDE
}

/// All cells of the grid, column by column.
pub open spec fn grid_cells() -> Seq<Cell> {
    Seq::new(
        (GRID_SIDE * GRID_SIDE) as nat,
        |i: int| Cell { x: (i / GRID_SIDE as int) as u8, y: (i % GRID_SIDE as int) as u8 },
    )
}

fn make_grid_cells() -> (r: Vec<Cell>)
    ensures
        r@ == grid_cells(),
{
    let mut r: Vec<Cell> = Vec::new();
    let mut x: u8 = 0;
    while x < GRID_SIDE
        invariant
            x <= GRID_SIDE,
            r@ == grid_cells().take(x * GRID_SIDE),
        decreases GRID_SIDE - x,
    {
        let mut y: u8 = 0;
        while y < GRID_SIDE
            invariant
                x < GRID_SIDE,
                y <= GRID_SIDE,
                r@ == grid_cells().take(x * GRID_SIDE + y),
            decreases GRID_SIDE - y,
        {
            r.push(Cell { x, y });
            proof {
                let n = x * GRID_SIDE + y;
                assert(n / GRID_SIDE as int == x as int && n % GRID_SIDE as int == y as int)
                    by (nonlinear_arith)
                    requires
                        n == x * GRID_SIDE + y,
                        y < GRID_SIDE,
                ;
                assert(grid_cells().take(n + 1) =~= grid_cells().take(n).push(Cell { x, y }));
            }
            y = y + 1;
        }
        x = x + 1;
    }
    assert(grid_cells().take(GRID_SIDE * GRID_SIDE) =~= grid_cells());
    r
}

/// No cell of the grid is listed twice.
proof fn lemma_grid_cells_distinct()
    ensures
        grid_cells().no_duplicates(),
        forall|i: int| 0 <= i < grid_cells().len() ==> in_grid(#[trigger] grid_cells()[i]),
{
    let g = grid_cells();
    assert forall|i: int, j: int| 0 <= i < g.len() && 0 <= j < g.len() && i != j implies g[i]
        != g[j] by {
        let s = GRID_SIDE as int;
        assert(i == (i / s) * s + i % s && j == (j / s) * s + j % s) by (nonlinear_arith)
            requires
                s == 8,
        ;
        assert(0 <= i / s < 8 && 0 <= j / s < 8) by (nonlinear_arith)
            requires
                s == 8,
                0 <= i < 64,
                0 <= j < 64,
        ;
    }
    assert forall|i: int| 0 <= i < g.len() implies in_grid(#[trigger] g[i]) by {
        assert(0 <= i / 8 < 8) by (nonlinear_arith)
            requires
                0 <= i < 64,
        ;
    }
}

/// Lays the puzzle out: the grid's cells are shuffled, the first candidate
/// takes the last of them, and the next candidates (up to 39) take the
/// others in order. No candidates, no puzzle.
pub fn plan_puzzle(candidates: &Vec<usize>) -> (r: Option<Puzzle>)
    ensures
        r is None <==> candidates@.len() == 0,
        r matches Some(p) ==> {
            &&& p.waldo == candidates@[0]
            &&& in_grid(p.waldo_cell)
            &&& p.others@.len() == (if candidates@.len() - 1 < NUMBER_OF_CANDIDATES - 1 {
                candidates@.len() - 1
            } else {
                NUMBER_OF_CANDIDATES - 1
            })
            &&& forall|i: int|
                0 <= i < p.others@.len() ==> #[trigger] p.others@[i].0 == candidates@[i + 1]
                    && in_grid(p.others@[i].1) && p.others@[i].1 != p.waldo_cell
            &&& forall|i: int, j: int|
                0 <= i < j < p.others@.len() ==> p.others@[i].1 != p.others@[j].1
        },
{
    if candidates.len() == 0 {
        return None;
    }
    let mut cells = make_grid_cells();
    proof {
        lemma_grid_cells_distinct();
        grid_cells().lemma_multiset_has_no_duplicates();
    }
    let ghost all = cells@;
    fast_shuffle(&mut cells);
    proof {
        lemma_same_multiset_distinct(all, cells@);
        vstd::seq_lib::to_multiset_len(all);
        vstd::seq_lib::to_multiset_len(cells@);
    }
    let waldo = candidates[0];
    let waldo_cell = cells.pop().unwrap();
    let ghost shuffled = cells@.push(waldo_cell);
    let mut others: Vec<(usize, Cell)> = Vec::new();
    let mut i: usize = 0;
    while i < cells.len() && i + 1 < candidates.len() && i < NUMBER_OF_CANDIDATES - 1
        invariant
            i <= cells@.len(),
            i < candidates@.len(),
            i <= NUMBER_OF_CANDIDATES - 1,
            cells@.len() == 63,
            shuffled == cells@.push(waldo_cell),
            shuffled.no_duplicates(),
            forall|k: int| 0 <= k < shuffled.len() ==> in_grid(#[trigger] shuffled[k]),
            others@.len() == i,
            forall|k: int| 0 <= k < i ==> #[trigger] others@[k] == (candidates@[k + 1], cells@[k]),
        decreases cells@.len() - i,
    {
        others.push((candidates[i + 1], cells[i]));
        i = i + 1;
    }
    proof {
        assert forall|a: int| 0 <= a < others@.len() implies #[trigger] others@[a].0 == candidates@[a
            + 1] && in_grid(others@[a].1) && others@[a].1 != waldo_cell by {
            assert(shuffled[a] == cells@[a]);
            assert(shuffled[63] == waldo_cell);
        }
        assert forall|a: int, b: int| 0 <= a < b < others@.len() implies others@[a].1
            != others@[b].1 by {
            assert(shuffled[a] == cells@[a]);
            assert(shuffled[b] == cells@[b]);
        }
        assert(in_grid(shuffled[63]));
    }
    Some(Puzzle { waldo, waldo_cell, others })
}

/// A sequence with the same items as one without repeats has none either,
/// and holds only items of the first.
proof fn lemma_same_multiset_distinct(a: Seq<Cell>, b: Seq<Cell>)
    requires
        a.no_duplicates(),
        a.to_multiset() == b.to_multiset(),
        forall|i: int| 0 <= i < a.len() ==> in_grid(#[trigger] a[i]),
    ensures
        b.no_duplicates(),
        forall|i: int| 0 <= i < b.len() ==> in_grid(#[trigger] b[i]),
{
    broadcast use vstd::seq_lib::group_to_multiset_ensures;

    a.lemma_multiset_has_no_duplicates();
    b.lemma_multiset_has_no_duplicates_conv();
    assert forall|i: int| 0 <= i < b.len() implies in_grid(#[trigger] b[i]) by {
        assert(b.to_multiset().contains(b[i]));
        assert(a.contains(b[i]));
    }
}

/// Where the game stands.
#[derive(Clone, Copy, Debug, PartialEq, Eq, Structural)]
pub struct GameProgress {
    pub mistakes: i32,
    /// Whether the emoji was found.
    pub result: bool,
}

impl GameProgress {
    pub fn new() -> (r: GameProgress)
        ensures
            r.mistakes == 0,
            !r.result,
    {
        GameProgress { mistakes: 0, result: false }
    }
}

/// What a click on the board hit.
#[derive(Clone, Copy, Debug, PartialEq, Eq, Structural)]
pub enum Hit {
    Waldo,
    Other,
    Nothing,
}

/// What the click leads to.
#[derive(Clone, Copy, Debug, PartialEq, Eq, Structural)]
pub enum InquireOutcome {
    Nothing,
    /// Found: the result screen follows.
    Found,
    /// A wrong emoji, shown as such; the game goes on.
    WrongFeedback,
    /// The third wrong emoji: the result screen follows.
    GameOver,
}

/// A click on the board: finding the emoji wins; hitting another counts a
/// mistake and the third one ends the game.
pub fn inquire(progress: &mut GameProgress, hit: Hit) -> (r: InquireOutcome)
    requires
        old(progress).mistakes < i32::MAX,
    ensures
        hit == Hit::Waldo ==> r == InquireOutcome::Found && final(progress).result
            && final(progress).mistakes == old(progress).mistakes,
        hit == Hit::Other ==> final(progress).mistakes == old(progress).mistakes + 1
            && final(progress).result == old(progress).result && r == (if final(progress).mistakes
            < MAX_MISTAKES {
            InquireOutcome::WrongFeedback
        } else {
            InquireOutcome::GameOver
        }),
        hit == Hit::Nothing ==> r == InquireOutcome::Nothing && *final(progress) == *old(progress),
{
    match hit {
        Hit::Waldo => {
            progress.result = true;
            InquireOutcome::Found
        },
        Hit::Other => {
            progress.mistakes = progress.mistakes + 1;
            if progress.mistakes < MAX_MISTAKES {
                InquireOutcome::WrongFeedback
            } else {
                InquireOutcome::GameOver
            }
        },
        Hit::Nothing => InquireOutcome::Nothing,
    }
}

} // verus!
