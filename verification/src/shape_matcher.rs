//! Shape matcher: a memory game over three stages of growing grids. Every
//! shape-and-colour combination is dealt twice; the grid is shown during a
//! countdown, then hidden, and the player turns over two cells at a time.
//! Three mistakes end the game; clearing the last stage wins it.

use vstd::prelude::*;
use crate::random::{rand_below, rand_shuffle};
use crate::shapes::{Shape, SHAPE_COUNT, COLOR_COUNT, shape_order, color_order, all_shapes, all_colors};

verus! {

/// Mistakes that end the game.
pub const MAX_MISTAKES: usize = 3;

/// Number of stages.
pub const STAGE_COUNT: usize = 3;

#[derive(Clone, Copy, Debug, PartialEq, Eq, Structural)]
pub struct Stage {
    pub grid_cols: usize,
    pub grid_rows: usize,
}

/// The grids of the three stages: 2x4, 3x4 and 4x4 (columns by rows).
pub open spec fn stage_spec(index: int) -> Stage {
    if index == 0 {
        Stage { grid_cols: 2, grid_rows: 4 }
    } else if index == 1 {
        Stage { grid_cols: 3, grid_rows: 4 }
    } else {
        Stage { grid_cols: 4, grid_rows: 4 }
    }
}

pub fn stage_at(index: usize) -> (r: Stage)
    requires
        index < STAGE_COUNT,
    ensures
        r == stage_spec(index as int),
{
    if index == 0 {
        Stage { grid_cols: 2, grid_rows: 4 }
    } else if index == 1 {
        Stage { grid_cols: 3, grid_rows: 4 }
    } else {
        Stage { grid_cols: 4, grid_rows: 4 }
    }
}

/// The stage being played.
#[derive(Clone, Copy, Debug, PartialEq, Eq, Structural)]
pub struct CurrentStage {
    pub index: usize,
    pub config: Stage,
}

impl CurrentStage {
    pub open spec fn wf(self) -> bool {
        self.index < STAGE_COUNT && self.config == stage_spec(self.index as int)
    }

    pub fn new() -> (r: CurrentStage)
        ensures
            r.index == 0,
            r.config == stage_spec(0),
            r.wf(),
    {
        CurrentStage { index: 0, config: stage_at(0) }
    }

    /// Moves to the next stage if there is one; answers whether it did.
    pub fn advance(&mut self) -> (r: bool)
        requires
            old(self).wf(),
        ensures
            final(self).wf(),
            r == (old(self).index + 1 < STAGE_COUNT),
            r ==> final(self).index == old(self).index + 1,
            !r ==> *final(self) == *old(self),
    {
        if self.index + 1 < STAGE_COUNT {
            self.index = self.index + 1;
            self.config = stage_at(self.index);
            true
        } else {
            false
        }
    }

    pub fn is_final(&self) -> (r: bool)
        ensures
            r == (self.index == STAGE_COUNT - 1),
    {
        self.index == STAGE_COUNT - 1
    }
}

/// One cell of the grid.
#[derive(Clone, Copy, Debug, PartialEq, Eq, Structural)]
pub struct GridCell {
    pub row: usize,
    pub col: usize,
    pub shape: Shape,
    pub color: u8,
    pub is_revealed: bool,
    pub is_matched: bool,
    pub is_locked: bool,
}

/// What the cells show: their shape and colour, in order.
pub open spec fn cell_kinds(cells: Seq<GridCell>) -> Seq<(Shape, u8)> {
    cells.map_values(|c: GridCell| (c.shape, c.color))
}

/// No two combinations share a colour (hence no two are equal).
pub open spec fn colors_distinct(s: Seq<(Shape, u8)>) -> bool {
    forall|i: int, j: int| 0 <= i < j < s.len() ==> s[i].1 != s[j].1
}

/// The combinations a stage deals: `pairs` of them, every colour in the
/// palette, the first seven shapes each once in their fixed order, no colour
/// twice within each run of ten combinations (the palette is refilled after
/// each run) and no shape twice within each run of seven.
pub open spec fn is_stage_deck(s: Seq<(Shape, u8)>, pairs: nat) -> bool {
    &&& s.len() == pairs
    &&& forall|i: int| 0 <= i < s.len() ==> #[trigger] s[i].1 < COLOR_COUNT
    &&& forall|i: int| 0 <= i < s.len() && i < SHAPE_COUNT ==> #[trigger] s[i].0 == shape_order()[i]
    &&& pairs <= COLOR_COUNT ==> colors_distinct(s)
    &&& forall|i: int, j: int|
        0 <= i < j < s.len() && i / (COLOR_COUNT as int) == j / (COLOR_COUNT as int) ==> s[i].1
            != s[j].1
    &&& forall|i: int, j: int|
        0 <= i < j < s.len() && i / (SHAPE_COUNT as int) == j / (SHAPE_COUNT as int) ==> s[i].0
            != s[j].0
}

/// Index `k` at or before `i`, in the same run of `n` as `i`, lies at or
/// after the start `x` of that run.
proof fn lemma_same_run(k: int, i: int, x: int, n: int)
    requires
        n > 0,
        x % n == 0,
        0 <= x <= i < x + n,
        0 <= k <= i,
        k / n == i / n,
    ensures
        x <= k,
{
    vstd::arithmetic::div_mod::lemma_fundamental_div_mod(x, n);
    vstd::arithmetic::div_mod::lemma_fundamental_div_mod(i, n);
    vstd::arithmetic::div_mod::lemma_fundamental_div_mod(k, n);
    vstd::arithmetic::div_mod::lemma_mod_bound(i, n);
    vstd::arithmetic::div_mod::lemma_mod_bound(k, n);
    assert(x <= k) by (nonlinear_arith)
        requires
            n > 0,
            x == n * (x / n) + 0,
            i == n * (i / n) + i % n,
            k == n * (k / n) + k % n,
            0 <= i % n < n,
            0 <= k % n < n,
            x <= i < x + n,
            k / n == i / n,
    ;
}

/// Draws the shape-colour combinations of a stage: shapes are taken in
/// order while they last, then at random without repeats; colours are drawn
/// at random without repeats, the palette being refilled once it is used up.
pub fn make_combinations(pairs_needed: usize) -> (r: Vec<(Shape, u8)>)
    ensures
        is_stage_deck(r@, pairs_needed as nat),
{
    let mut available_colors = all_colors();
    let mut available_shapes = all_shapes();
    let mut combinations: Vec<(Shape, u8)> = Vec::new();
    let ghost mut block_start: int = 0;
    let ghost mut shape_start: int = 0;
    proof {
        assert(shape_order().no_duplicates()) by {
            let so = shape_order();
            assert forall|a: int, b: int| 0 <= a < so.len() && 0 <= b < so.len() && a != b implies so[a]
                != so[b] by {
                assert(so[0] == Shape::Circle);
                assert(so[1] == Shape::Square);
                assert(so[2] == Shape::Triangle);
                assert(so[3] == Shape::Hexagon);
                assert(so[4] == Shape::Pentagon);
                assert(so[5] == Shape::Octagon);
                assert(so[6] == Shape::Quad);
            }
        }
    }
    let mut i: usize = 0;
    while i < pairs_needed
        invariant
            shape_order().no_duplicates(),
            block_start % (COLOR_COUNT as int) == 0,
            forall|k1: int, k2: int|
                0 <= k1 < k2 < i && k1 / (COLOR_COUNT as int) == k2 / (COLOR_COUNT as int)
                    ==> combinations@[k1].1 != combinations@[k2].1,
            0 <= shape_start <= i,
            i - shape_start <= SHAPE_COUNT,
            shape_start % (SHAPE_COUNT as int) == 0,
            available_shapes@.len() == SHAPE_COUNT - (i - shape_start),
            available_shapes@.no_duplicates(),
            forall|k: int|
                shape_start <= k < i ==> !available_shapes@.contains(
                    #[trigger] combinations@[k].0,
                ),
            forall|k1: int, k2: int|
                0 <= k1 < k2 < i && k1 / (SHAPE_COUNT as int) == k2 / (SHAPE_COUNT as int)
                    ==> combinations@[k1].0 != combinations@[k2].0,
            combinations@.len() == i,
            i <= pairs_needed,
            0 <= block_start <= i,
            i - block_start <= COLOR_COUNT,
            block_start > 0 ==> block_start >= COLOR_COUNT && block_start < pairs_needed,
            available_colors@.len() == COLOR_COUNT - (i - block_start),
            available_colors@.no_duplicates(),
            forall|k: int|
                0 <= k < available_colors@.len() ==> #[trigger] available_colors@[k]
                    < COLOR_COUNT,
            forall|k: int| 0 <= k < i ==> #[trigger] combinations@[k].1 < COLOR_COUNT,
            forall|k: int|
                block_start <= k < i ==> !available_colors@.contains(
                    #[trigger] combinations@[k].1,
                ),
            forall|k1: int, k2: int|
                block_start <= k1 < k2 < i ==> combinations@[k1].1 != combinations@[k2].1,
            i <= SHAPE_COUNT ==> available_shapes@ == shape_order().skip(i as int),
            forall|k: int|
                0 <= k < i && k < SHAPE_COUNT ==> #[trigger] combinations@[k].0
                    == shape_order()[k],
        decreases pairs_needed - i,
    {
        if available_colors.len() == 0 {
            available_colors = all_colors();
            proof {
                block_start = i as int;
                assert(available_colors@.no_duplicates());
            }
        }
        if available_shapes.len() == 0 {
            available_shapes = all_shapes();
            proof {
                shape_start = i as int;
            }
        }
        let ghost shapes_before = available_shapes@;
        let ghost sk: int;
        let shape = if i < SHAPE_COUNT {
            proof {
                assert(available_shapes@.len() > 0);
                sk = 0;
            }
            available_shapes.remove(0)
        } else {
            let k = rand_below(available_shapes.len());
            proof {
                sk = k as int;
            }
            available_shapes.remove(k)
        };
        proof {
            lemma_remove_keeps_distinct(shapes_before, sk);
            assert(shapes_before.contains(shape)) by {
                assert(shapes_before[sk] == shape);
            }
        }
        let ck = rand_below(available_colors.len());
        let ghost before = available_colors@;
        let color = available_colors.remove(ck);
        proof {
            lemma_remove_keeps_distinct(before, ck as int);
            assert(forall|k: int|
                0 <= k < available_colors@.len() ==> available_colors@[k] == before[if k < ck {
                    k
                } else {
                    k + 1
                }]);
            if i < SHAPE_COUNT {
                assert(shape_order().skip(i as int).remove(0) =~= shape_order().skip(i + 1));
            }
        }
        let ghost prev = combinations@;
        combinations.push((shape, color));
        proof {
            assert forall|k1: int, k2: int|
                0 <= k1 < k2 < i + 1 && k1 / (COLOR_COUNT as int) == k2 / (COLOR_COUNT as int)
                    implies combinations@[k1].1 != combinations@[k2].1 by {
                if k2 == i {
                    lemma_same_run(k1, i as int, block_start, COLOR_COUNT as int);
                    assert(combinations@[k1] == prev[k1]);
                }
            }
            assert forall|k1: int, k2: int|
                0 <= k1 < k2 < i + 1 && k1 / (SHAPE_COUNT as int) == k2 / (SHAPE_COUNT as int)
                    implies combinations@[k1].0 != combinations@[k2].0 by {
                if k2 == i {
                    lemma_same_run(k1, i as int, shape_start, SHAPE_COUNT as int);
                    assert(combinations@[k1] == prev[k1]);
                    assert(!shapes_before.contains(prev[k1].0));
                }
            }
            assert forall|k: int| shape_start <= k < i + 1 implies !available_shapes@.contains(
                #[trigger] combinations@[k].0,
            ) by {
                if k < i {
                    assert(combinations@[k] == prev[k]);
                    assert(!shapes_before.contains(prev[k].0));
                }
            }
        }
        i = i + 1;
    }
    combinations
}

/// Removing an item keeps a sequence free of repeats and drops exactly the
/// removed item.
proof fn lemma_remove_keeps_distinct<T>(s: Seq<T>, i: int)
    requires
        s.no_duplicates(),
        0 <= i < s.len(),
    ensures
        s.remove(i).no_duplicates(),
        !s.remove(i).contains(s[i]),
        forall|x: T| s.remove(i).contains(x) ==> s.contains(x),
{
    let r = s.remove(i);
    assert forall|a: int, b: int| 0 <= a < r.len() && 0 <= b < r.len() && a != b implies r[a]
        != r[b] by {
        let sa = if a < i { a } else { a + 1 };
        let sb = if b < i { b } else { b + 1 };
        assert(r[a] == s[sa]);
        assert(r[b] == s[sb]);
    }
    assert forall|x: T| r.contains(x) implies s.contains(x) by {
        let a = choose|a: int| 0 <= a < r.len() && r[a] == x;
        let sa = if a < i { a } else { a + 1 };
        assert(s[sa] == x);
    }
    if r.contains(s[i]) {
        let a = choose|a: int| 0 <= a < r.len() && r[a] == s[i];
        let sa = if a < i { a } else { a + 1 };
        assert(s[sa] == s[i]);
    }
}

/// A freshly dealt cell: at its place in the grid, face up, neither matched
/// nor locked.
pub open spec fn dealt_at(c: GridCell, index: int, grid_cols: int) -> bool {
    &&& c.row == index / grid_cols
    &&& c.col == index % grid_cols
    &&& c.is_revealed
    &&& !c.is_matched
    &&& !c.is_locked
}

/// Deals every combination twice, shuffled, row by row over `grid_cols`
/// columns; every cell starts face up.
pub fn deal_cells(combinations: &Vec<(Shape, u8)>, grid_cols: usize) -> (r: Vec<GridCell>)
    requires
        combinations@.len() > 0 ==> grid_cols > 0,
        2 * combinations@.len() <= usize::MAX,
    ensures
        r@.len() == 2 * combinations@.len(),
        forall|i: int| 0 <= i < r@.len() ==> dealt_at(#[trigger] r@[i], i, grid_cols as int),
        cell_kinds(r@).to_multiset() == combinations@.to_multiset().add(
            combinations@.to_multiset(),
        ),
{
    let mut deck: Vec<(Shape, u8)> = Vec::new();
    let mut round: usize = 0;
    while round < 2
        invariant
            round <= 2,
            deck@ == (if round == 0 {
                Seq::<(Shape, u8)>::empty()
            } else if round == 1 {
                combinations@
            } else {
                combinations@ + combinations@
            }),
        decreases 2 - round,
    {
        let ghost start = deck@;
        let mut j: usize = 0;
        while j < combinations.len()
            invariant
                j <= combinations@.len(),
                deck@ == start + combinations@.take(j as int),
            decreases combinations@.len() - j,
        {
            deck.push(combinations[j]);
            j = j + 1;
            assert(start + combinations@.take(j as int) =~= (start + combinations@.take(
                j - 1,
            )).push(combinations@[j - 1]));
        }
        assert(combinations@.take(j as int) =~= combinations@);
        assert(Seq::<(Shape, u8)>::empty() + combinations@ =~= combinations@);
        round = round + 1;
    }
    let ghost doubled = combinations@ + combinations@;
    rand_shuffle(&mut deck);
    proof {
        vstd::seq_lib::to_multiset_len(deck@);
        vstd::seq_lib::to_multiset_len(doubled);
    }
    let mut cells: Vec<GridCell> = Vec::new();
    let mut i: usize = 0;
    while i < deck.len()
        invariant
            i <= deck@.len(),
            deck@.len() == 2 * combinations@.len(),
            deck@.to_multiset() == doubled.to_multiset(),
            doubled == combinations@ + combinations@,
            combinations@.len() > 0 ==> grid_cols > 0,
            cells@.len() == i,
            forall|k: int|
                0 <= k < i ==> dealt_at(#[trigger] cells@[k], k, grid_cols as int) && cells@[k].shape
                    == deck@[k].0 && cells@[k].color == deck@[k].1,
        decreases deck@.len() - i,
    {
        let kind = deck[i];
        cells.push(
            GridCell {
                row: i / grid_cols,
                col: i % grid_cols,
                shape: kind.0,
                color: kind.1,
                is_revealed: true,
                is_matched: false,
                is_locked: false,
            },
        );
        i = i + 1;
    }
    proof {
        assert forall|k: int| 0 <= k < cells@.len() implies #[trigger] cell_kinds(cells@)[k]
            == deck@[k] by {
            assert(dealt_at(cells@[k], k, grid_cols as int));
        }
        assert(cell_kinds(cells@) =~= deck@);
        vstd::seq_lib::lemma_multiset_commutative(combinations@, combinations@);
    }
    cells
}

/// Progress within the game.
#[derive(Clone, Copy, Debug, PartialEq, Eq, Structural)]
pub struct GameData {
    pub mistakes: usize,
    pub matched_pairs: usize,
    /// The cell turned over first in the current turn, by its index.
    pub first_revealed: Option<usize>,
}

impl GameData {
    pub fn default() -> (r: GameData)
        ensures
            r.mistakes == 0,
            r.matched_pairs == 0,
            r.first_revealed is None,
    {
        GameData { mistakes: 0, matched_pairs: 0, first_revealed: None }
    }

    /// The turned-over cell, if any, is a face-up cell of the grid.
    pub open spec fn wf(self, cells: Seq<GridCell>) -> bool {
        self.first_revealed matches Some(f) ==> f < cells.len() && cells[f as int].is_revealed
    }

    pub open spec fn stage_complete_spec(self, stage: Stage) -> bool {
        self.matched_pairs * 2 == stage.grid_cols * stage.grid_rows
    }

    /// All pairs of the stage's grid are matched.
    pub fn is_stage_complete(&self, stage: Stage) -> (r: bool)
        requires
            self.matched_pairs * 2 <= usize::MAX,
            stage.grid_cols * stage.grid_rows <= usize::MAX,
        ensures
            r == self.stage_complete_spec(stage),
    {
        self.matched_pairs * 2 == stage.grid_cols * stage.grid_rows
    }
}

/// Sets a stage up: the counters start again and the grid is dealt.
/// Answers the face-up grid.
pub fn setup_stage(game_data: &mut GameData, stage: Stage) -> (r: Vec<GridCell>)
    requires
        stage.grid_cols * stage.grid_rows <= usize::MAX,
    ensures
        final(game_data).mistakes == 0,
        final(game_data).matched_pairs == 0,
        final(game_data).first_revealed is None,
        r@.len() == 2 * ((stage.grid_cols * stage.grid_rows) / 2),
        forall|i: int| 0 <= i < r@.len() ==> dealt_at(#[trigger] r@[i], i, stage.grid_cols as int),
        exists|deck: Seq<(Shape, u8)>|
            {
                &&& is_stage_deck(deck, ((stage.grid_cols * stage.grid_rows) / 2) as nat)
                &&& cell_kinds(r@).to_multiset() == deck.to_multiset().add(deck.to_multiset())
            },
{
    game_data.mistakes = 0;
    game_data.matched_pairs = 0;
    game_data.first_revealed = None;
    let total_cells = stage.grid_cols * stage.grid_rows;
    let pairs_needed = total_cells / 2;
    let combinations = make_combinations(pairs_needed);
    proof {
        if stage.grid_cols == 0 {
            assert(total_cells == 0) by (nonlinear_arith)
                requires
                    total_cells == stage.grid_cols * stage.grid_rows,
                    stage.grid_cols == 0,
            ;
        }
    }
    let cells = deal_cells(&combinations, stage.grid_cols);
    proof {
        let deck = combinations@;
        assert(is_stage_deck(deck, pairs_needed as nat));
    }
    cells
}

/// Every combination lies on the grid exactly twice, whenever the palette
/// did not run out while dealing (true of every stage).
pub proof fn law_each_kind_twice(cells: Seq<GridCell>, deck: Seq<(Shape, u8)>, i: int)
    requires
        colors_distinct(deck),
        cell_kinds(cells).to_multiset() == deck.to_multiset().add(deck.to_multiset()),
        0 <= i < cells.len(),
    ensures
        cell_kinds(cells).to_multiset().count((cells[i].shape, cells[i].color)) == 2,
{
    broadcast use vstd::seq_lib::group_to_multiset_ensures;

    let kinds = cell_kinds(cells);
    let kind = (cells[i].shape, cells[i].color);
    assert(kinds[i] == kind);
    assert(kinds.to_multiset().contains(kind));
    assert(deck.no_duplicates());
    deck.lemma_multiset_has_no_duplicates();
    assert(deck.to_multiset().count(kind) > 0);
}

/// The first cell, in grid order, at `row` and `col` that can be turned
/// over (face down and not locked).
pub open spec fn clickable(c: GridCell, row: usize, col: usize) -> bool {
    c.row == row && c.col == col && !c.is_revealed && !c.is_locked
}

pub fn find_clickable(cells: &Vec<GridCell>, row: usize, col: usize) -> (r: Option<usize>)
    ensures
        r matches Some(k) ==> k < cells@.len() && clickable(cells@[k as int], row, col) && (
        forall|j: int| 0 <= j < k ==> !clickable(#[trigger] cells@[j], row, col)),
        r is None ==> forall|j: int| 0 <= j < cells@.len() ==> !clickable(#[trigger] cells@[j], row, col),
{
    let mut i: usize = 0;
    while i < cells.len()
        invariant
            i <= cells@.len(),
            forall|j: int| 0 <= j < i ==> !clickable(#[trigger] cells@[j], row, col),
        decreases cells@.len() - i,
    {
        let c = cells[i];
        if c.row == row && c.col == col && !c.is_revealed && !c.is_locked {
            return Some(i);
        }
        i = i + 1;
    }
    None
}

/// What turning over a cell did.
#[derive(Clone, Copy, Debug, PartialEq, Eq, Structural)]
pub enum ClickOutcome {
    /// No cell there can be turned over.
    Ignored,
    /// The first cell of a turn, by its index.
    FirstRevealed(usize),
    /// The two cells (first, second) show the same shape and colour.
    Matched(usize, usize),
    /// The two cells differ; they stay locked until hidden again.
    Mismatched(usize, usize),
}

/// Where the game stands after a click.
#[derive(Clone, Copy, Debug, PartialEq, Eq, Structural)]
pub enum StageOutcome {
    Continue,
    /// The stage is cleared and the next one follows.
    StageComplete,
    /// The last stage is cleared.
    GameOver,
}

/// Turns over the cell the player clicked at `row`, `col` (once the input
/// cooldown is over), compares it with the first cell of the turn, and
/// checks whether the stage is cleared.
pub fn reveal_cell(
    game_data: &mut GameData,
    cells: &mut Vec<GridCell>,
    current_stage: &mut CurrentStage,
    row: usize,
    col: usize,
) -> (r: (ClickOutcome, StageOutcome))
    requires
        old(game_data).wf(old(cells)@),
        old(current_stage).wf(),
        old(game_data).matched_pairs < usize::MAX / 2,
        old(game_data).mistakes < usize::MAX,
    ensures
        final(game_data).wf(final(cells)@),
        final(current_stage).wf(),
        final(cells)@.len() == old(cells)@.len(),
        match r.0 {
            ClickOutcome::Ignored => {
                &&& forall|j: int|
                    0 <= j < old(cells)@.len() ==> !clickable(#[trigger] old(cells)@[j], row, col)
                &&& final(cells)@ == old(cells)@
                &&& *final(game_data) == *old(game_data)
            },
            ClickOutcome::FirstRevealed(k) => {
                &&& old(game_data).first_revealed is None
                &&& k < old(cells)@.len()
                &&& clickable(old(cells)@[k as int], row, col)
                &&& forall|j: int| 0 <= j < k ==> !clickable(#[trigger] old(cells)@[j], row, col)
                &&& final(cells)@ == old(cells)@.update(
                    k as int,
                    GridCell { is_revealed: true, ..old(cells)@[k as int] },
                )
                &&& final(game_data).first_revealed == Some(k)
                &&& final(game_data).mistakes == old(game_data).mistakes
                &&& final(game_data).matched_pairs == old(game_data).matched_pairs
            },
            ClickOutcome::Matched(f, k) => {
                &&& old(game_data).first_revealed == Some(f)
                &&& k < old(cells)@.len()
                &&& clickable(old(cells)@[k as int], row, col)
                &&& forall|j: int| 0 <= j < k ==> !clickable(#[trigger] old(cells)@[j], row, col)
                &&& old(cells)@[f as int].shape == old(cells)@[k as int].shape
                &&& old(cells)@[f as int].color == old(cells)@[k as int].color
                &&& final(cells)@ == old(cells)@.update(
                    f as int,
                    GridCell { is_matched: true, ..old(cells)@[f as int] },
                ).update(
                    k as int,
                    GridCell { is_revealed: true, is_matched: true, ..old(cells)@[k as int] },
                )
                &&& final(game_data).first_revealed is None
                &&& final(game_data).mistakes == old(game_data).mistakes
                &&& final(game_data).matched_pairs == old(game_data).matched_pairs + 1
            },
            ClickOutcome::Mismatched(f, k) => {
                &&& old(game_data).first_revealed == Some(f)
                &&& k < old(cells)@.len()
                &&& clickable(old(cells)@[k as int], row, col)
                &&& forall|j: int| 0 <= j < k ==> !clickable(#[trigger] old(cells)@[j], row, col)
                &&& !(old(cells)@[f as int].shape == old(cells)@[k as int].shape
                    && old(cells)@[f as int].color == old(cells)@[k as int].color)
                &&& final(cells)@ == old(cells)@.update(
                    f as int,
                    GridCell { is_locked: true, ..old(cells)@[f as int] },
                ).update(
                    k as int,
                    GridCell { is_revealed: true, is_locked: true, ..old(cells)@[k as int] },
                )
                &&& final(game_data).first_revealed is None
                &&& final(game_data).mistakes == old(game_data).mistakes + 1
                &&& final(game_data).matched_pairs == old(game_data).matched_pairs
            },
        },
        final(game_data).stage_complete_spec(old(current_stage).config) ==> {
            if old(current_stage).index + 1 < STAGE_COUNT {
                &&& r.1 == StageOutcome::StageComplete
                &&& final(current_stage).index == old(current_stage).index + 1
            } else {
                &&& r.1 == StageOutcome::GameOver
                &&& *final(current_stage) == *old(current_stage)
            }
        },
        !final(game_data).stage_complete_spec(old(current_stage).config) ==> r.1
            == StageOutcome::Continue && *final(current_stage) == *old(current_stage),
{
    let found = find_clickable(cells, row, col);
    let outcome = match found {
        None => ClickOutcome::Ignored,
        Some(k) => {
            let mut cell = cells[k];
            cell.is_revealed = true;
            match game_data.first_revealed {
                None => {
                    cells.set(k, cell);
                    game_data.first_revealed = Some(k);
                    ClickOutcome::FirstRevealed(k)
                },
                Some(f) => {
                    let mut first = cells[f];
                    game_data.first_revealed = None;
                    if first.shape == cell.shape && first.color == cell.color {
                        first.is_matched = true;
                        cell.is_matched = true;
                        cells.set(f, first);
                        cells.set(k, cell);
                        game_data.matched_pairs = game_data.matched_pairs + 1;
                        ClickOutcome::Matched(f, k)
                    } else {
                        first.is_locked = true;
                        cell.is_locked = true;
                        cells.set(f, first);
                        cells.set(k, cell);
                        game_data.mistakes = game_data.mistakes + 1;
                        ClickOutcome::Mismatched(f, k)
                    }
                },
            }
        },
    };
    let config = current_stage.config;
    assert(config.grid_cols * config.grid_rows <= 16) by (nonlinear_arith)
        requires
            config.grid_cols <= 4,
            config.grid_rows <= 4,
    ;
    let stage_outcome = if game_data.matched_pairs * 2 == config.grid_cols * config.grid_rows {
        if current_stage.advance() {
            StageOutcome::StageComplete
        } else {
            StageOutcome::GameOver
        }
    } else {
        StageOutcome::Continue
    };
    (outcome, stage_outcome)
}

/// After a mismatch has been shown, both cells go face down again and are
/// unlocked, unless they have been matched meanwhile.
pub fn hide_cells(cells: &mut Vec<GridCell>, first: usize, second: usize)
    requires
        first < old(cells)@.len(),
        second < old(cells)@.len(),
    ensures
        final(cells)@.len() == old(cells)@.len(),
        forall|j: int|
            0 <= j < old(cells)@.len() ==> #[trigger] final(cells)@[j] == (if (j == first || j
                == second) && !old(cells)@[j].is_matched {
                GridCell { is_revealed: false, is_locked: false, ..old(cells)@[j] }
            } else {
                old(cells)@[j]
            }),
{
    let a = cells[first];
    if !a.is_matched {
        cells.set(first, GridCell { is_revealed: false, is_locked: false, ..a });
    }
    let b = cells[second];
    if !b.is_matched {
        cells.set(second, GridCell { is_revealed: false, is_locked: false, ..b });
    }
}

/// Sets every cell's face-up flag, keeping the rest of the cell.
pub fn show_all(cells: &mut Vec<GridCell>, revealed: bool)
    ensures
        final(cells)@.len() == old(cells)@.len(),
        forall|j: int|
            0 <= j < old(cells)@.len() ==> #[trigger] final(cells)@[j] == (GridCell {
                is_revealed: revealed,
                ..old(cells)@[j]
            }),
{
    let mut i: usize = 0;
    while i < cells.len()
        invariant
            i <= cells@.len(),
            cells@.len() == old(cells)@.len(),
            forall|j: int|
                0 <= j < i ==> #[trigger] cells@[j] == (GridCell {
                    is_revealed: revealed,
                    ..old(cells)@[j]
                }),
            forall|j: int| i <= j < cells@.len() ==> #[trigger] cells@[j] == old(cells)@[j],
        decreases cells@.len() - i,
    {
        let c = cells[i];
        cells.set(i, GridCell { is_revealed: revealed, ..c });
        i = i + 1;
    }
}

/// The countdown is over: every cell goes face down.
pub fn hide_all_cells(cells: &mut Vec<GridCell>)
    ensures
        final(cells)@.len() == old(cells)@.len(),
        forall|j: int|
            0 <= j < old(cells)@.len() ==> #[trigger] final(cells)@[j] == (GridCell {
                is_revealed: false,
                ..old(cells)@[j]
            }),
{
    show_all(cells, false);
}

/// Whether the game is over: three mistakes (and then every cell is shown
/// face up), or the last stage cleared.
pub fn check_game_over(
    game_data: &GameData,
    current_stage: &CurrentStage,
    cells: &mut Vec<GridCell>,
) -> (r: bool)
    requires
        current_stage.wf(),
        game_data.matched_pairs * 2 <= usize::MAX,
    ensures
        r == (game_data.mistakes >= MAX_MISTAKES || (current_stage.index == STAGE_COUNT - 1
            && game_data.stage_complete_spec(current_stage.config))),
        final(cells)@.len() == old(cells)@.len(),
        game_data.mistakes >= MAX_MISTAKES ==> forall|j: int|
            0 <= j < old(cells)@.len() ==> #[trigger] final(cells)@[j] == (GridCell {
                is_revealed: true,
                ..old(cells)@[j]
            }),
        game_data.mistakes < MAX_MISTAKES ==> final(cells)@ == old(cells)@,
{
    if game_data.mistakes >= MAX_MISTAKES {
        show_all(cells, true);
        true
    } else {
        current_stage.is_final() && game_data.is_stage_complete(current_stage.config)
    }
}

} // verus!
