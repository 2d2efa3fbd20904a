//! Shape memorizer: a 4x8 grid of coloured shapes is shown for a moment,
//! then hidden; the player must find the three (or more) cells that hold the
//! target shape in the target colour. Three finds win, a second mistake
//! loses.

use vstd::prelude::*;
use crate::random::{rand_below, rand_choose};

verus! {

pub const GRID_COLS: usize = 4;

pub const GRID_ROWS: usize = 8;

/// Mistakes allowed; one more ends the game.
pub const MAX_MISTAKES: usize = 1;

/// Targets on every grid, and finds that win the game.
pub const TARGET_COUNT: usize = 3;

/// Colours in the palette; a colour is an index below it.
pub const COLOR_COUNT: u8 = 4;

/// The colour of a game whose target has not been drawn yet; it lies
/// outside the palette.
pub const NO_COLOR: u8 = 4;

#[derive(Clone, Copy, Debug, PartialEq, Eq, Structural)]
pub enum Shape {
    Circle,
    Square,
    Triangle,
    Hexagon,
}

#[derive(Clone, Copy, Debug, PartialEq, Eq, Structural)]
pub struct GridCell {
    pub row: usize,
    pub col: usize,
    pub shape: Shape,
    pub color: u8,
    pub is_target: bool,
    pub is_revealed: bool,
}

pub struct GameData {
    pub target_shape: Shape,
    pub target_color: u8,
    pub mistakes: usize,
    pub correct_guesses: usize,
    pub grid: Vec<GridCell>,
}

/// How many cells of the grid are targets.
pub open spec fn count_targets(cells: Seq<GridCell>) -> nat
    decreases cells.len(),
{
    if cells.len() == 0 {
        0
    } else {
        count_targets(cells.drop_last()) + if cells.last().is_target {
            1nat
        } else {
            0nat
        }
    }
}

/// A well-formed grid: 4 columns by 8 rows in row order, and a cell is a
/// target exactly when it shows the target shape in the target colour.
pub open spec fn grid_wf(cells: Seq<GridCell>, shape: Shape, color: u8) -> bool {
    &&& cells.len() == GRID_COLS * GRID_ROWS
    &&& forall|i: int| 0 <= i < cells.len() ==> cell_wf(#[trigger] cells[i], i, shape, color)
}

/// The cell at `index` sits at its row and column and is a target exactly
/// when it shows the target.
pub open spec fn cell_wf(c: GridCell, index: int, shape: Shape, color: u8) -> bool {
    &&& c.row == index / GRID_COLS as int
    &&& c.col == index % GRID_COLS as int
    &&& c.is_target == (c.shape == shape && c.color == color)
}

/// Cell `c` is cell `d` turned into a target: same place, same face-down or
/// face-up state, now the target shape in the target colour.
pub open spec fn turned_into_target(d: GridCell, c: GridCell, shape: Shape, color: u8) -> bool {
    &&& c.row == d.row
    &&& c.col == d.col
    &&& c.shape == shape
    &&& c.color == color
    &&& c.is_target
    &&& c.is_revealed == d.is_revealed
}

/// `grid` is the dealt grid `dealt` with some cells that were not targets
/// turned into targets, and nothing else changed.
pub open spec fn topped_up(dealt: Seq<GridCell>, grid: Seq<GridCell>, shape: Shape, color: u8) -> bool {
    &&& grid.len() == dealt.len()
    &&& forall|i: int|
        0 <= i < grid.len() ==> #[trigger] grid[i] == dealt[i] || (!dealt[i].is_target
            && turned_into_target(dealt[i], grid[i], shape, color))
}

pub fn all_shapes() -> (r: Vec<Shape>)
    ensures
        r@ == seq![Shape::Circle, Shape::Square, Shape::Triangle, Shape::Hexagon],
{
    let r = vec![Shape::Circle, Shape::Square, Shape::Triangle, Shape::Hexagon];
    assert(r@ =~= seq![Shape::Circle, Shape::Square, Shape::Triangle, Shape::Hexagon]);
    r
}

pub fn all_colors() -> (r: Vec<u8>)
    ensures
        r@ == seq![0u8, 1u8, 2u8, 3u8],
{
    let r: Vec<u8> = vec![0, 1, 2, 3];
    assert(r@ =~= seq![0u8, 1u8, 2u8, 3u8]);
    r
}

impl GameData {
    pub fn default() -> (r: GameData)
        ensures
            r.target_shape == Shape::Circle,
            r.target_color == NO_COLOR,
            r.mistakes == 0,
            r.correct_guesses == 0,
            r.grid@.len() == 0,
    {
        GameData {
            target_shape: Shape::Circle,
            target_color: NO_COLOR,
            mistakes: 0,
            correct_guesses: 0,
            grid: Vec::new(),
        }
    }

    /// Draws the target shape and colour shown on the welcome screen.
    pub fn choose_target(&mut self)
        ensures
            final(self).target_color < COLOR_COUNT,
            final(self).mistakes == old(self).mistakes,
            final(self).correct_guesses == old(self).correct_guesses,
            final(self).grid@ == old(self).grid@,
    {
        let shapes = all_shapes();
        let colors = all_colors();
        let shape = rand_choose(&shapes);
        let color = rand_choose(&colors);
        self.target_shape = shape.unwrap();
        self.target_color = color.unwrap();
    }

    /// Deals the grid: every cell gets a random shape and colour, and while
    /// fewer than three cells hold the target, a random cell that does not
    /// is turned into one. (Drawing among the cells that are not targets yet
    /// picks each of them with the same chance as drawing any cell and
    /// drawing again on a target.) The targets dealt stay, so the grid ends
    /// with three targets, or more if more were dealt. The counters start
    /// again.
    pub fn setup_game(&mut self)
        ensures
            final(self).mistakes == 0,
            final(self).correct_guesses == 0,
            final(self).target_shape == old(self).target_shape,
            final(self).target_color == old(self).target_color,
            grid_wf(final(self).grid@, old(self).target_shape, old(self).target_color),
            count_targets(final(self).grid@) >= TARGET_COUNT,
            exists|dealt: Seq<GridCell>|
                #![trigger topped_up(dealt, final(self).grid@, old(self).target_shape, old(self).target_color)]
                {
                    &&& grid_wf(dealt, old(self).target_shape, old(self).target_color)
                    &&& forall|i: int| 0 <= i < dealt.len() ==> !(#[trigger] dealt[i]).is_revealed
                    &&& topped_up(
                        dealt,
                        final(self).grid@,
                        old(self).target_shape,
                        old(self).target_color,
                    )
                    &&& count_targets(final(self).grid@) == (if count_targets(dealt)
                        >= TARGET_COUNT {
                        count_targets(dealt)
                    } else {
                        TARGET_COUNT as nat
                    })
                },
            forall|i: int|
                0 <= i < final(self).grid@.len() ==> !(#[trigger] final(self).grid@[i]).is_revealed,
    {
        self.mistakes = 0;
        self.correct_guesses = 0;
        let shapes = all_shapes();
        let colors = all_colors();
        let target_shape = self.target_shape;
        let target_color = self.target_color;
        let mut grid: Vec<GridCell> = Vec::new();
        let mut targets: usize = 0;
        let mut row: usize = 0;
        while row < GRID_ROWS
            invariant
                row <= GRID_ROWS,
                grid@.len() == row * GRID_COLS,
                targets <= grid@.len(),
                shapes@.len() == 4,
                colors@.len() == 4,
                targets == count_targets(grid@),
                forall|i: int|
                    0 <= i < grid@.len() ==> cell_wf(#[trigger] grid@[i], i, target_shape, target_color)
                        && !grid@[i].is_revealed,
            decreases GRID_ROWS - row,
        {
            let mut col: usize = 0;
            while col < GRID_COLS
                invariant
                    row < GRID_ROWS,
                    col <= GRID_COLS,
                    grid@.len() == row * GRID_COLS + col,
                    targets <= grid@.len(),
                    shapes@.len() == 4,
                    colors@.len() == 4,
                    targets == count_targets(grid@),
                    forall|i: int|
                        0 <= i < grid@.len() ==> cell_wf(#[trigger] grid@[i], i, target_shape, target_color)
                            && !grid@[i].is_revealed,
                decreases GRID_COLS - col,
            {
                let shape = rand_choose(&shapes).unwrap();
                let color = rand_choose(&colors).unwrap();
                let is_target = shape == target_shape && color == target_color;
                let ghost before = grid@;
                grid.push(GridCell { row, col, shape, color, is_target, is_revealed: false });
                proof {
                    assert(grid@.drop_last() =~= before);
                    let n = before.len() as int;
                    assert(n == row * GRID_COLS + col);
                    assert(n / GRID_COLS as int == row as int && n % GRID_COLS as int == col as int)
                        by (nonlinear_arith)
                        requires
                            n == row * GRID_COLS + col,
                            col < GRID_COLS,
                    ;
                }
                if is_target {
                    targets = targets + 1;
                }
                col = col + 1;
            }
            row = row + 1;
        }
        let ghost dealt = grid@;
        let ghost dealt_count = targets as nat;
        while targets < TARGET_COUNT
            invariant
                targets == count_targets(grid@),
                dealt_count == count_targets(dealt),
                dealt_count <= targets,
                targets == dealt_count || targets <= TARGET_COUNT,
                grid_wf(dealt, target_shape, target_color),
                forall|i: int| 0 <= i < dealt.len() ==> !(#[trigger] dealt[i]).is_revealed,
                topped_up(dealt, grid@, target_shape, target_color),
                targets <= grid@.len(),
                grid@.len() == GRID_COLS * GRID_ROWS,
                forall|i: int|
                    0 <= i < grid@.len() ==> cell_wf(#[trigger] grid@[i], i, target_shape, target_color)
                        && !grid@[i].is_revealed,
            decreases TARGET_COUNT - targets,
        {
            let mut free: Vec<usize> = Vec::new();
            let mut i: usize = 0;
            while i < grid.len()
                invariant
                    i <= grid@.len(),
                    grid@.len() == GRID_COLS * GRID_ROWS,
                    free@.len() + count_targets(grid@.take(i as int)) == i,
                    forall|k: int|
                        0 <= k < free@.len() ==> #[trigger] free@[k] < i && !grid@[free@[k] as int].is_target,
                decreases grid@.len() - i,
            {
                assert(grid@.take(i + 1).drop_last() =~= grid@.take(i as int));
                if !grid[i].is_target {
                    free.push(i);
                }
                i = i + 1;
            }
            assert(grid@.take(i as int) =~= grid@);
            let pick = rand_below(free.len());
            let index = free[pick];
            let old_cell = grid[index];
            let ghost before = grid@;
            grid.set(
                index,
                GridCell { shape: target_shape, color: target_color, is_target: true, ..old_cell },
            );
            proof {
                lemma_count_targets_set(before, index as int, grid@[index as int]);
                assert forall|k: int| 0 <= k < grid@.len() implies #[trigger] grid@[k] == dealt[k]
                    || (!dealt[k].is_target && turned_into_target(
                    dealt[k],
                    grid@[k],
                    target_shape,
                    target_color,
                )) by {
                    if k != index {
                        assert(grid@[k] == before[k]);
                    } else {
                        assert(before[k] == dealt[k]);
                    }
                }
            }
            targets = targets + 1;
        }
        proof {
            assert(topped_up(dealt, grid@, target_shape, target_color));
        }
        self.grid = grid;
    }
}

/// Turning a cell that is not a target into one adds one target.
proof fn lemma_count_targets_set(cells: Seq<GridCell>, i: int, c: GridCell)
    requires
        0 <= i < cells.len(),
        !cells[i].is_target,
        c.is_target,
    ensures
        count_targets(cells.update(i, c)) == count_targets(cells) + 1,
    decreases cells.len(),
{
    let u = cells.update(i, c);
    if i == cells.len() - 1 {
        assert(u.drop_last() =~= cells.drop_last());
    } else {
        assert(u.drop_last() =~= cells.drop_last().update(i, c));
        lemma_count_targets_set(cells.drop_last(), i, c);
    }
}

/// What a click on a hidden cell did.
#[derive(Clone, Copy, Debug, PartialEq, Eq, Structural)]
pub enum RevealOutcome {
    /// The cell is already face up.
    Ignored,
    /// A target was found; `game_won` once three are.
    Correct { game_won: bool },
    /// Not a target; `game_over` after the second mistake.
    Mistake { game_over: bool },
}

impl GameData {
    /// The player clicked the cell at `row`, `col`: it is turned over and
    /// counted as a find or a mistake.
    pub fn reveal_cell(&mut self, row: usize, col: usize) -> (r: RevealOutcome)
        requires
            old(self).grid@.len() == GRID_COLS * GRID_ROWS,
            row < GRID_ROWS,
            col < GRID_COLS,
            old(self).mistakes < usize::MAX,
            old(self).correct_guesses < usize::MAX,
        ensures
            ({
                let i = (row * GRID_COLS + col) as int;
                let cell = old(self).grid@[i];
                &&& cell.is_revealed ==> r == RevealOutcome::Ignored && final(self).grid@
                    == old(self).grid@ && final(self).mistakes == old(self).mistakes
                    && final(self).correct_guesses == old(self).correct_guesses
                &&& !cell.is_revealed ==> final(self).grid@ == old(self).grid@.update(
                    i,
                    GridCell { is_revealed: true, ..cell },
                )
                &&& !cell.is_revealed && cell.is_target ==> {
                    &&& final(self).correct_guesses == old(self).correct_guesses + 1
                    &&& final(self).mistakes == old(self).mistakes
                    &&& r == RevealOutcome::Correct {
                        game_won: final(self).correct_guesses >= TARGET_COUNT,
                    }
                }
                &&& !cell.is_revealed && !cell.is_target ==> {
                    &&& final(self).mistakes == old(self).mistakes + 1
                    &&& final(self).correct_guesses == old(self).correct_guesses
                    &&& r == RevealOutcome::Mistake {
                        game_over: final(self).mistakes > MAX_MISTAKES,
                    }
                }
            }),
            final(self).target_shape == old(self).target_shape,
            final(self).target_color == old(self).target_color,
    {
        let i = row * GRID_COLS + col;
        let cell = self.grid[i];
        if cell.is_revealed {
            return RevealOutcome::Ignored;
        }
        self.grid.set(i, GridCell { is_revealed: true, ..cell });
        if cell.is_target {
            self.correct_guesses = self.correct_guesses + 1;
            RevealOutcome::Correct { game_won: self.correct_guesses >= TARGET_COUNT }
        } else {
            self.mistakes = self.mistakes + 1;
            RevealOutcome::Mistake { game_over: self.mistakes > MAX_MISTAKES }
        }
    }

    /// Whether the game ended in a win (three finds).
    pub fn won(&self) -> (r: bool)
        ensures
            r == (self.correct_guesses >= TARGET_COUNT),
    {
        self.correct_guesses >= TARGET_COUNT
    }
}

} // verus!
