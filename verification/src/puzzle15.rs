//! The sliding puzzle: numbered panels on a `w` by `h` board with one empty
//! slot. Sliding pushes a whole line of panels towards the empty slot.

use vstd::prelude::*;
use crate::geometry::IVec2;
use crate::random::rand_below;

verus! {

/// A slot of the board: empty, or holding a numbered panel.
#[derive(Clone, Copy, Debug, PartialEq, Eq, Structural)]
pub enum Panel {
    Empty,
    PanelNumber(u8),
}

/// The board of a sliding puzzle.
pub struct PuzzlePanels {
    w: usize,
    h: usize,
    panels: Vec<Panel>,
}

/// What a board is: its size and its slots, row after row.
pub struct PuzzleView {
    pub w: nat,
    pub h: nat,
    pub panels: Seq<Panel>,
}

impl View for PuzzlePanels {
    type V = PuzzleView;

    closed spec fn view(&self) -> PuzzleView {
        PuzzleView { w: self.w as nat, h: self.h as nat, panels: self.panels@ }
    }
}

/// The number shown on the panel that belongs at slot `i`: `i + 1`, kept to
/// eight bits as the panel stores it.
pub open spec fn number_for(i: int) -> u8 {
    ((i + 1) % 256) as u8
}

/// The solved board: panels `1, 2, ...` in row-major order, the last slot
/// empty.
pub open spec fn solved_panels(w: nat, h: nat) -> Seq<Panel> {
    Seq::new(
        w * h,
        |i: int|
            if i < w * h - 1 {
                Panel::PanelNumber(number_for(i))
            } else {
                Panel::Empty
            },
    )
}

impl PuzzleView {
    pub open spec fn wf(self) -> bool {
        self.panels.len() == self.w * self.h
    }

    pub open spec fn idx(self, x: int, y: int) -> int {
        x + y * self.w
    }

    pub open spec fn in_board(self, x: int, y: int) -> bool {
        0 <= x < self.w && 0 <= y < self.h
    }

    pub open spec fn cell(self, x: int, y: int) -> Panel {
        self.panels[self.idx(x, y)]
    }

    /// Every panel up to the last slot sits where the solved board has it.
    pub open spec fn is_solved(self) -> bool {
        forall|i: int| 0 <= i < self.w * self.h - 1 ==> #[trigger] self.panels[i] == Panel::PanelNumber(
            number_for(i),
        )
    }

    /// The board holds exactly one empty slot.
    pub open spec fn one_empty(self) -> bool {
        self.panels.to_multiset().count(Panel::Empty) == 1
    }

    /// Pushing from `pos` in direction `dir` reaches an empty slot after
    /// exactly `k` steps: the slots passed on the way are on the board and
    /// hold panels, the `k`-th is on the board and empty.
    pub open spec fn run_ends_at(self, pos: IVec2, dir: IVec2, k: int) -> bool {
        &&& k >= 1
        &&& forall|j: int|
            1 <= j < k ==> #[trigger] self.in_board(line_x(pos, dir, j), line_y(pos, dir, j))
                && self.cell(line_x(pos, dir, j), line_y(pos, dir, j)) != Panel::Empty
        &&& self.in_board(line_x(pos, dir, k), line_y(pos, dir, k))
        &&& self.cell(line_x(pos, dir, k), line_y(pos, dir, k)) == Panel::Empty
    }

    /// The panels from `pos` on can be pushed in direction `dir`.
    pub open spec fn can_slide(self, pos: IVec2, dir: IVec2) -> bool {
        exists|k: int| self.run_ends_at(pos, dir, k)
    }

    /// How many steps the push travels before it meets the empty slot.
    pub open spec fn run_len(self, pos: IVec2, dir: IVec2) -> int {
        choose|k: int| self.run_ends_at(pos, dir, k)
    }

    /// The index of the `j`-th slot on the line from `pos` in direction `dir`.
    pub open spec fn line_idx(self, pos: IVec2, dir: IVec2, j: int) -> int {
        self.idx(line_x(pos, dir, j), line_y(pos, dir, j))
    }

    /// The slot indices met by the push, from `pos` up to the empty slot.
    pub open spec fn run(self, pos: IVec2, dir: IVec2) -> Seq<int> {
        Seq::new((self.run_len(pos, dir) + 1) as nat, |j: int| self.line_idx(pos, dir, j))
    }

    /// A move a player can make: push the panel at `pos`, a slot of the
    /// board that is not the empty one, one step of the four ways.
    pub open spec fn is_push(self, pos: IVec2, dir: IVec2) -> bool {
        &&& self.in_board(pos.x as int, pos.y as int)
        &&& self.cell(pos.x as int, pos.y as int) != Panel::Empty
        &&& (((dir.x == 1 || dir.x == -1) && dir.y == 0) || (dir.x == 0 && (dir.y == 1 || dir.y
            == -1)))
    }

    /// One step of a shuffle: a push from `pos` along a row (if `along_row`)
    /// or a column, which moves at least one panel, leads to `next`.
    pub open spec fn shuffle_step(self, next: PuzzleView, pos: IVec2, dir: IVec2, along_row: bool) -> bool {
        &&& self.is_push(pos, dir)
        &&& self.can_slide(pos, dir)
        &&& (if along_row {
            dir.y == 0
        } else {
            dir.x == 0
        })
        &&& next.w == self.w && next.h == self.h && next.wf()
        &&& slid(self, next, pos, dir)
    }

    /// Exactly `n` shuffle steps lead from this board to `b`, the first along
    /// a row if `along_row` (else a column), then alternating.
    pub open spec fn shuffled_to(self, b: PuzzleView, n: nat, along_row: bool) -> bool
        decreases n,
    {
        if n == 0 {
            self == b
        } else {
            exists|pos: IVec2, dir: IVec2, next: PuzzleView|
                #[trigger] self.shuffle_step(next, pos, dir, along_row) && next.shuffled_to(
                    b,
                    (n - 1) as nat,
                    !along_row,
                )
        }
    }

    /// At most `n` pushes lead from this board to one with the panels of `b`.
    pub open spec fn pushes_lead(self, b: PuzzleView, n: nat) -> bool
        decreases n,
    {
        if self.panels == b.panels {
            true
        } else if n == 0 {
            false
        } else {
            exists|pos: IVec2, dir: IVec2, next: PuzzleView|
                #![trigger slid(self, next, pos, dir)]
                {
                    &&& self.is_push(pos, dir)
                    &&& next.w == self.w && next.h == self.h && next.wf()
                    &&& slid(self, next, pos, dir)
                    &&& next.pushes_lead(b, (n - 1) as nat)
                }
        }
    }
}

/// The slot indices as mathematical integers.
pub open spec fn as_ints(s: Seq<usize>) -> Seq<int> {
    s.map_values(|v: usize| v as int)
}

/// The panel number a query `i` names: its low eight bits, as a cast to
/// `u8` keeps them.
pub open spec fn low_byte(i: i32) -> u8 {
    (i & 255) as u8
}

pub open spec fn line_x(pos: IVec2, dir: IVec2, j: int) -> int {
    pos.x + j * dir.x
}

pub open spec fn line_y(pos: IVec2, dir: IVec2, j: int) -> int {
    pos.y + j * dir.y
}

/// What a push does to the slots: when the line from `pos` in direction
/// `dir` meets an empty slot, every panel of the run moves one step on and
/// `pos` becomes empty; the other slots keep their panels. Otherwise
/// nothing moves.
pub open spec fn slid(before: PuzzleView, after: PuzzleView, pos: IVec2, dir: IVec2) -> bool {
    &&& !before.can_slide(pos, dir) ==> after.panels == before.panels
    &&& before.can_slide(pos, dir) ==> {
        let run = before.run(pos, dir);
        &&& after.panels[run[0]] == Panel::Empty
        &&& forall|j: int|
            1 <= j < run.len() ==> after.panels[#[trigger] run[j]] == before.panels[run[j - 1]]
        &&& forall|i: int|
            0 <= i < before.panels.len() && !run.contains(i) ==> after.panels[i]
                == before.panels[i]
    }
}

/// Every board position plus `dir` still fits an `i32`.
pub open spec fn dir_fits(w: nat, h: nat, dir: IVec2) -> bool {
    w + dir.x <= i32::MAX + 1 && h + dir.y <= i32::MAX + 1
}

proof fn lemma_line_step(pos: IVec2, dir: IVec2, j: int)
    ensures
        line_x(pos, dir, j + 1) == line_x(pos, dir, j) + dir.x,
        line_y(pos, dir, j + 1) == line_y(pos, dir, j) + dir.y,
        line_x(pos, dir, 0) == pos.x,
        line_y(pos, dir, 0) == pos.y,
        line_x(pos, dir, 1) == pos.x + dir.x,
        line_y(pos, dir, 1) == pos.y + dir.y,
{
    assert((j + 1) * dir.x == j * dir.x + dir.x) by (nonlinear_arith);
    assert((j + 1) * dir.y == j * dir.y + dir.y) by (nonlinear_arith);
}

/// The line from `pos + dir` is the line from `pos`, one step further on.
proof fn lemma_line_shift(pos: IVec2, dir: IVec2, next: IVec2, j: int)
    requires
        next.x == pos.x + dir.x,
        next.y == pos.y + dir.y,
    ensures
        line_x(next, dir, j) == line_x(pos, dir, j + 1),
        line_y(next, dir, j) == line_y(pos, dir, j + 1),
{
    lemma_line_step(pos, dir, j);
}

proof fn lemma_flat_index(x: int, y: int, w: int, h: int)
    requires
        0 <= x < w,
        0 <= y < h,
    ensures
        0 <= x + y * w < w * h,
{
    assert(0 <= x + y * w < w * h) by (nonlinear_arith)
        requires
            0 <= x < w,
            0 <= y < h,
    ;
}

proof fn lemma_flat_coords(x: int, y: int, w: int)
    requires
        0 <= x < w,
        0 <= y,
    ensures
        (x + y * w) % w == x,
        (x + y * w) / w == y,
{
    vstd::arithmetic::div_mod::lemma_fundamental_div_mod_converse(x + y * w, w, y, x);
}

/// Two different steps along a line with a non-zero direction land on
/// different slots of the board.
proof fn lemma_line_distinct(m: PuzzleView, pos: IVec2, dir: IVec2, j1: int, j2: int)
    requires
        !(dir.x == 0 && dir.y == 0),
        j1 != j2,
        m.in_board(line_x(pos, dir, j1), line_y(pos, dir, j1)),
        m.in_board(line_x(pos, dir, j2), line_y(pos, dir, j2)),
    ensures
        m.line_idx(pos, dir, j1) != m.line_idx(pos, dir, j2),
{
    let x1 = line_x(pos, dir, j1);
    let x2 = line_x(pos, dir, j2);
    let y1 = line_y(pos, dir, j1);
    let y2 = line_y(pos, dir, j2);
    lemma_flat_coords(x1, y1, m.w as int);
    lemma_flat_coords(x2, y2, m.w as int);
    if dir.x != 0 {
        assert(j1 * dir.x != j2 * dir.x) by (nonlinear_arith)
            requires
                j1 != j2,
                dir.x != 0,
        ;
    } else {
        assert(j1 * dir.y != j2 * dir.y) by (nonlinear_arith)
            requires
                j1 != j2,
                dir.y != 0,
        ;
    }
}

/// A push ends at one slot only.
proof fn lemma_run_unique(m: PuzzleView, pos: IVec2, dir: IVec2, k1: int, k2: int)
    requires
        m.run_ends_at(pos, dir, k1),
        m.run_ends_at(pos, dir, k2),
    ensures
        k1 == k2,
{
    if k1 < k2 {
        assert(m.in_board(line_x(pos, dir, k1), line_y(pos, dir, k1)));
    } else if k2 < k1 {
        assert(m.in_board(line_x(pos, dir, k2), line_y(pos, dir, k2)));
    }
}

/// A push from `pos` that does not stop at the next slot is the push from
/// that slot, one step longer.
proof fn lemma_run_step(m: PuzzleView, pos: IVec2, dir: IVec2, next: IVec2)
    requires
        next.x == pos.x + dir.x,
        next.y == pos.y + dir.y,
        m.in_board(next.x as int, next.y as int),
        m.cell(next.x as int, next.y as int) != Panel::Empty,
    ensures
        m.can_slide(pos, dir) == m.can_slide(next, dir),
        m.can_slide(next, dir) ==> m.run_len(pos, dir) == m.run_len(next, dir) + 1,
{
    lemma_line_step(pos, dir, 0);
    if m.can_slide(next, dir) {
        let k = m.run_len(next, dir);
        assert forall|j: int| 1 <= j < k + 1 implies #[trigger] m.in_board(
            line_x(pos, dir, j),
            line_y(pos, dir, j),
        ) && m.cell(line_x(pos, dir, j), line_y(pos, dir, j)) != Panel::Empty by {
            lemma_line_shift(pos, dir, next, j - 1);
            if j > 1 {
                assert(m.in_board(line_x(next, dir, j - 1), line_y(next, dir, j - 1)));
            }
        }
        lemma_line_shift(pos, dir, next, k);
        assert(m.run_ends_at(pos, dir, k + 1));
        lemma_run_unique(m, pos, dir, k + 1, m.run_len(pos, dir));
    }
    if m.can_slide(pos, dir) {
        let k = m.run_len(pos, dir);
        assert(k != 1);
        assert forall|j: int| 1 <= j < k - 1 implies #[trigger] m.in_board(
            line_x(next, dir, j),
            line_y(next, dir, j),
        ) && m.cell(line_x(next, dir, j), line_y(next, dir, j)) != Panel::Empty by {
            lemma_line_shift(pos, dir, next, j);
            assert(m.in_board(line_x(pos, dir, j + 1), line_y(pos, dir, j + 1)));
        }
        lemma_line_shift(pos, dir, next, k - 1);
        assert(m.run_ends_at(next, dir, k - 1));
    }
}

impl PuzzlePanels {
    /// A solved `w` by `h` board.
    pub fn new(w: usize, h: usize) -> (r: PuzzlePanels)
        requires
            w * h <= usize::MAX,
        ensures
            r@.w == w,
            r@.h == h,
            r@.panels == solved_panels(w as nat, h as nat),
    {
        PuzzlePanels { w, h, panels: Self::reset_panels(w, h) }
    }

    /// Puts every panel back where the solved board has it.
    pub fn reset(&mut self)
        requires
            old(self)@.wf(),
        ensures
            final(self)@.w == old(self)@.w,
            final(self)@.h == old(self)@.h,
            final(self)@.panels == solved_panels(old(self)@.w, old(self)@.h),
    {
        proof {
            assert(self.panels@.len() == self.panels.len());
        }
        self.panels = Self::reset_panels(self.w, self.h);
    }

    pub fn width(&self) -> (r: usize)
        ensures
            r == self@.w,
    {
        self.w
    }

    pub fn height(&self) -> (r: usize)
        ensures
            r == self@.h,
    {
        self.h
    }

    /// Where panel `i` lies: the first slot holding the panel numbered
    /// `i` (kept to eight bits), as column and row. The panel must be on the
    /// board.
    pub fn get_index(&self, i: i32) -> (r: IVec2)
        requires
            self@.wf(),
            self@.w * self@.h <= i32::MAX,
            self@.panels.contains(Panel::PanelNumber(low_byte(i))),
        ensures
            ({
                let k = self@.panels.index_of_first(Panel::PanelNumber(low_byte(i)))->0;
                r.x == k % (self@.w as int) && r.y == k / (self@.w as int)
            }),
    {
        let ghost m = self@;
        assert(0 <= (i & 255i32) <= 255) by (bit_vector);
        let byte = (i & 255) as u8;
        let target = Panel::PanelNumber(byte);
        let mut k: usize = 0;
        while k < self.panels.len()
            invariant
                m == self@,
                m.wf(),
                m.w * m.h <= i32::MAX,
                target == Panel::PanelNumber(low_byte(i)),
                k <= m.panels.len(),
                forall|j: int| 0 <= j < k ==> m.panels[j] != target,
                m.panels.contains(target),
            decreases m.panels.len() - k,
        {
            if self.panels[k] == target {
                proof {
                    assert(m.w > 0) by (nonlinear_arith)
                        requires
                            m.w * m.h == m.panels.len(),
                            k < m.panels.len(),
                    ;
                    lemma_flat_coords_of_index(k as int, m.w as int, m.h as int);
                    assert(m.h > 0);
                    assert(m.w <= m.w * m.h) by (nonlinear_arith)
                        requires
                            m.h > 0,
                    ;
                    assert((k as int) / (m.w as int) <= k as int) by {
                        vstd::arithmetic::div_mod::lemma_div_is_ordered_by_denominator(k as int, 1, m.w as int);
                    }
                }
                let xu = k % self.w;
                let yu = k / self.w;
                assert(xu < i32::MAX && yu < i32::MAX);
                let x = xu as i32;
                let y = yu as i32;
                let r = IVec2 { x, y };
                proof {
                    m.panels.index_of_first_ensures(target);
                    assert(m.panels.contains(target));
                    let f = m.panels.index_of_first(target)->0;
                    assert(m.panels.index_of_first(target) is Some);
                    if f < k {
                        assert(m.panels[f] != target);
                    }
                    if k < f {
                        assert(m.panels[k as int] != target);
                    }
                    assert(f == k);
                    assert(xu == f % (m.w as int));
                    assert(r.x == f % (m.w as int));
                    assert(r.y == f / (m.w as int));
                    assert(self@.panels.index_of_first(Panel::PanelNumber(low_byte(i)))->0 == f);
                }
                return r;
            }
            k = k + 1;
        }
        proof {
            let j = choose|j: int| 0 <= j < m.panels.len() && m.panels[j] == target;
            assert(m.panels[j] != target);
        }
        IVec2 { x: 0, y: 0 }
    }

    /// The slot at column `x`, row `y`; `None` when its index
    /// `x + y * w` is past the end.
    pub fn get_panel(&self, x: usize, y: usize) -> (r: Option<&Panel>)
        requires
            x + y * self@.w <= usize::MAX,
        ensures
            x + y * self@.w < self@.panels.len() ==> r == Some(&self@.panels[x + y * self@.w]),
            x + y * self@.w >= self@.panels.len() ==> r is None,
    {
        let i = self.index(x, y);
        if i < self.panels.len() {
            Some(&self.panels[i])
        } else {
            None
        }
    }

    fn reset_panels(w: usize, h: usize) -> (r: Vec<Panel>)
        requires
            w * h <= usize::MAX,
        ensures
            r@ == solved_panels(w as nat, h as nat),
    {
        let n = w * h;
        let mut v: Vec<Panel> = Vec::new();
        let mut i: usize = 0;
        while i < n
            invariant
                n == w * h,
                i <= n,
                v@ =~= solved_panels(w as nat, h as nat).take(i as int),
            decreases n - i,
        {
            if i < n - 1 {
                v.push(Panel::PanelNumber(((i + 1) % 256) as u8));
            } else {
                v.push(Panel::Empty);
            }
            i = i + 1;
        }
        v
    }

    fn index(&self, x: usize, y: usize) -> (r: usize)
        requires
            x + y * self@.w <= usize::MAX,
        ensures
            r == x + y * self@.w,
    {
        x + y * self.w
    }

    /// Pushes the panel at `pos`, and every panel after it on the line in
    /// direction `dir`, one step towards the first empty slot on that line.
    /// The slot at `pos` becomes empty. When the line leaves the board before
    /// it meets an empty slot, nothing moves.
    #[verifier::rlimit(60)]
    pub fn slide(&mut self, pos: IVec2, dir: IVec2)
        requires
            old(self)@.wf(),
            old(self)@.in_board(pos.x as int, pos.y as int),
            dir_fits(old(self)@.w, old(self)@.h, dir),
            old(self)@.w <= i32::MAX,
            old(self)@.h <= i32::MAX,
            !(dir.x == 0 && dir.y == 0) || old(self)@.cell(pos.x as int, pos.y as int)
                == Panel::Empty,
        ensures
            final(self)@.w == old(self)@.w,
            final(self)@.h == old(self)@.h,
            final(self)@.wf(),
            final(self)@.panels.to_multiset() == old(self)@.panels.to_multiset(),
            slid(old(self)@, final(self)@, pos, dir),
    {
        let ghost m = self@;
        proof {
            lemma_flat_index(pos.x as int, pos.y as int, m.w as int, m.h as int);
            assert(self.panels@.len() == self.panels.len());
        }
        if dir.x == 0 && dir.y == 0 {
            proof {
                lemma_line_step(pos, dir, 0);
                lemma_line_step(pos, dir, 1);
                assert(m.run_ends_at(pos, dir, 1));
                lemma_run_unique(m, pos, dir, 1, m.run_len(pos, dir));
                assert(m.run(pos, dir)[1] == m.run(pos, dir)[0]);
                assert(self@.panels[m.idx(pos.x as int, pos.y as int)] == Panel::Empty);
            }
            return;
        }
        let mut panels_index_to_move: Vec<usize> = Vec::new();
        panels_index_to_move.push(self.index(pos.x as usize, pos.y as usize));
        let ok = self.slide_sub(pos, dir, &mut panels_index_to_move);
        if ok {
            proof {
                let k = m.run_len(pos, dir);
                lemma_line_step(pos, dir, 0);
                assert(as_ints(panels_index_to_move@) =~= m.run(pos, dir).take(k));
                assert(panels_index_to_move@.len() == as_ints(panels_index_to_move@).len());
            }
            self.shift_run(pos, dir, &panels_index_to_move);
        }
    }

    /// Moves each panel of the run one step on, from the far end back to
    /// `pos`, and empties `pos`.
    #[verifier::rlimit(40)]
    fn shift_run(&mut self, pos: IVec2, dir: IVec2, panels_index_to_move: &Vec<usize>)
        requires
            old(self)@.wf(),
            old(self)@.in_board(pos.x as int, pos.y as int),
            dir_fits(old(self)@.w, old(self)@.h, dir),
            old(self)@.w <= i32::MAX,
            old(self)@.h <= i32::MAX,
            !(dir.x == 0 && dir.y == 0),
            old(self)@.can_slide(pos, dir),
            as_ints(panels_index_to_move@) == old(self)@.run(pos, dir).take(
                old(self)@.run_len(pos, dir),
            ),
            panels_index_to_move@.len() == old(self)@.run_len(pos, dir),
        ensures
            final(self)@.w == old(self)@.w,
            final(self)@.h == old(self)@.h,
            final(self)@.wf(),
            final(self)@.panels.to_multiset() == old(self)@.panels.to_multiset(),
            ({
                let run = old(self)@.run(pos, dir);
                &&& final(self)@.panels[run[0]] == Panel::Empty
                &&& forall|j: int|
                    1 <= j < run.len() ==> final(self)@.panels[#[trigger] run[j]]
                        == old(self)@.panels[run[j - 1]]
                &&& forall|i: int|
                    0 <= i < old(self)@.panels.len() && !run.contains(i)
                        ==> final(self)@.panels[i] == old(self)@.panels[i]
            }),
    {
        let ghost m = self@;
        let ghost k = m.run_len(pos, dir);
        let ghost run = m.run(pos, dir);
        let ghost old_panels = self.panels@;
        let _len = self.panels.len();
        proof {
            lemma_run_in_board(m, pos, dir);
            lemma_run_distinct(m, pos, dir);
            lemma_flat_index(line_x(pos, dir, k), line_y(pos, dir, k), m.w as int, m.h as int);
            assert(old_panels[run[k]] == Panel::Empty);
            old_panels.to_multiset_ensures();
            assert(old_panels.contains(old_panels[run[k]]));
            assert(old_panels.to_multiset().count(Panel::Empty) > 0);
            lemma_ms_cancel(old_panels.to_multiset(), old_panels[run[k]], Panel::Empty);
            assert forall|j: int| 0 <= j <= k implies 0 <= #[trigger] run[j] < m.w * m.h by {
                lemma_flat_index(line_x(pos, dir, j), line_y(pos, dir, j), m.w as int, m.h as int);
            }
        }
        let mut t: usize = panels_index_to_move.len();
        while t > 0
            invariant
                m == old(self)@,
                m.wf(),
                m.w * m.h <= usize::MAX,
                self@.w == m.w,
                self@.h == m.h,
                self@.wf(),
                !(dir.x == 0 && dir.y == 0),
                m.w <= i32::MAX,
                m.h <= i32::MAX,
                old_panels == m.panels,
                old_panels.to_multiset().count(Panel::Empty) >= 1,
                run.len() == k + 1,
                distinct_upto(run, k),
                panels_index_to_move@.len() == k,
                as_ints(panels_index_to_move@) == run.take(k),
                0 <= t <= k,
                forall|j: int|
                    0 <= j <= k ==> m.in_board(line_x(pos, dir, j), line_y(pos, dir, j)) && run[j]
                        == m.line_idx(pos, dir, j),
                forall|j: int| 0 <= j <= k ==> 0 <= #[trigger] run[j] < m.w * m.h,
                forall|j: int|
                    t < j <= k ==> self@.panels[#[trigger] run[j]] == old_panels[run[j - 1]],
                forall|j: int| 0 <= j <= t ==> self@.panels[#[trigger] run[j]] == old_panels[run[j]],
                forall|i: int|
                    0 <= i < old_panels.len() && !run.contains(i) ==> self@.panels[i]
                        == old_panels[i],
                self@.panels.to_multiset() == old_panels.to_multiset().insert(
                    old_panels[run[t as int]],
                ).remove(Panel::Empty),
            decreases t,
        {
            let src = panels_index_to_move[t - 1];
            let ghost j0: int = t - 1;
            proof {
                assert(as_ints(panels_index_to_move@)[j0] == src as int);
                assert(src == run[j0]);
                lemma_step_coords(m, pos, dir, j0);
            }
            let panel_to_move = self.panels[src];
            let nx = ((src % self.w) as i32 + dir.x) as usize;
            let ny = ((src / self.w) as i32 + dir.y) as usize;
            proof {
                assert(nx == line_x(pos, dir, j0 + 1));
                assert(ny == line_y(pos, dir, j0 + 1));
            }
            let dest = self.index(nx, ny);
            let ghost before = self@.panels;
            proof {
                assert(dest == run[j0 + 1]);
                assert(panel_to_move == old_panels[run[j0]]);
                assert(before[run[j0 + 1]] == old_panels[run[j0 + 1]]);
            }
            self.panels.set(dest, panel_to_move);
            proof {
                lemma_distinct_from(run, k, t as int);
                lemma_shift_step(run, k, old_panels, before, self@.panels, t as int);
                lemma_shift_step_ms(
                    old_panels.to_multiset(),
                    before,
                    run[t as int],
                    old_panels[run[t as int]],
                    old_panels[run[t - 1]],
                );
            }
            t = t - 1;
        }
        proof {
            lemma_line_step(pos, dir, 0);
            lemma_flat_index(pos.x as int, pos.y as int, m.w as int, m.h as int);
        }
        let start = self.index(pos.x as usize, pos.y as usize);
        let ghost before = self@.panels;
        proof {
            assert(run[0] == m.line_idx(pos, dir, 0));
            assert(start == run[0]);
        }
        self.panels.set(start, Panel::Empty);
        proof {
            vstd::seq_lib::to_multiset_update(before, start as int, Panel::Empty);
            lemma_ms_cancel(old_panels.to_multiset(), old_panels[run[0]], Panel::Empty);
            assert(self@.panels.to_multiset() == old_panels.to_multiset());
            lemma_distinct_from(run, k, 0);
            assert forall|j: int| 1 <= j < run.len() implies self@.panels[#[trigger] run[j]]
                == old_panels[run[j - 1]] by {
                assert(run[j] != run[0]);
            }
            assert forall|i: int|
                0 <= i < old_panels.len() && !run.contains(i) implies self@.panels[i]
                == old_panels[i] by {
                if i == run[0] {
                    assert(run.contains(i));
                }
            }
        }
    }

    /// Collects the slots the push from `pos` moves, after the first one,
    /// and answers whether the push meets an empty slot on the board.
    fn slide_sub(&self, pos: IVec2, dir: IVec2, panels_index_to_move: &mut Vec<usize>) -> (r:
        bool)
        requires
            self@.wf(),
            self@.in_board(pos.x as int, pos.y as int),
            dir_fits(self@.w, self@.h, dir),
            self@.w <= i32::MAX,
            self@.h <= i32::MAX,
            !(dir.x == 0 && dir.y == 0),
        ensures
            r == self@.can_slide(pos, dir),
            r ==> as_ints(final(panels_index_to_move)@) == as_ints(old(panels_index_to_move)@) + Seq::new(
                (self@.run_len(pos, dir) - 1) as nat,
                |j: int| self@.line_idx(pos, dir, j + 1),
            ),
        decreases (if dir.x > 0 {
            self@.w - pos.x
        } else if dir.x < 0 {
            pos.x + 1
        } else {
            0
        }) + (if dir.y > 0 {
            self@.h - pos.y
        } else if dir.y < 0 {
            pos.y + 1
        } else {
            0
        }),
    {
        let ghost m = self@;
        let next = IVec2 { x: pos.x + dir.x, y: pos.y + dir.y };
        proof {
            lemma_line_step(pos, dir, 0);
        }
        if next.x < 0 || next.y < 0 || next.x >= self.w as i32 || next.y >= self.h as i32 {
            proof {
                if m.can_slide(pos, dir) {
                    let k = m.run_len(pos, dir);
                    assert(m.run_ends_at(pos, dir, k));
                    if k > 1 {
                        assert(m.in_board(line_x(pos, dir, 1), line_y(pos, dir, 1)));
                    }
                }
            }
            return false;
        }
        proof {
            lemma_flat_index(next.x as int, next.y as int, m.w as int, m.h as int);
            assert(self.panels@.len() == self.panels.len());
        }
        if self.panels[self.index(next.x as usize, next.y as usize)] == Panel::Empty {
            proof {
                assert(m.run_ends_at(pos, dir, 1));
                lemma_run_unique(m, pos, dir, 1, m.run_len(pos, dir));
                assert(Seq::new(
                    (m.run_len(pos, dir) - 1) as nat,
                    |j: int| m.line_idx(pos, dir, j + 1),
                ) =~= Seq::<int>::empty());
                assert(as_ints(panels_index_to_move@) =~= as_ints(panels_index_to_move@) + Seq::<int>::empty());
            }
            return true;
        }
        panels_index_to_move.push(self.index(next.x as usize, next.y as usize));
        let ghost mid = panels_index_to_move@;
        let r = self.slide_sub(next, dir, panels_index_to_move);
        proof {
            lemma_run_step(m, pos, dir, next);
            if r {
                let k = m.run_len(pos, dir);
                assert forall|j: int| 0 <= j < k - 2 implies #[trigger] m.line_idx(next, dir, j + 1)
                    == m.line_idx(pos, dir, j + 2) by {
                    lemma_line_shift(pos, dir, next, j + 1);
                }
                assert(as_ints(panels_index_to_move@) =~= as_ints(old(panels_index_to_move)@) + Seq::new(
                    (k - 1) as nat,
                    |j: int| m.line_idx(pos, dir, j + 1),
                ));
            }
        }
        r
    }

    /// The first empty slot in row-major order.
    fn get_empty_index(&self) -> (r: Option<usize>)
        requires
            self@.wf(),
        ensures
            r matches Some(i) ==> i < self@.panels.len() && self@.panels[i as int] == Panel::Empty
                && forall|j: int| 0 <= j < i ==> self@.panels[j] != Panel::Empty,
            r is None ==> !self@.panels.contains(Panel::Empty),
    {
        let ghost m = self@;
        let ghost w = m.w as int;
        let ghost h = m.h as int;
        proof {
            assert(self.panels@.len() == self.panels.len());
        }
        let mut y: usize = 0;
        while y < self.h
            invariant
                m == self@,
                w == m.w,
                h == m.h,
                m.wf(),
                w * h <= usize::MAX,
                y <= h,
                forall|j: int| 0 <= j < y * w ==> m.panels[j] != Panel::Empty,
            decreases h - y,
        {
            let mut x: usize = 0;
            while x < self.w
                invariant
                    m == self@,
                    w == m.w,
                    h == m.h,
                    m.wf(),
                    w * h <= usize::MAX,
                    y < h,
                    x <= w,
                    forall|j: int| 0 <= j < x + y * w ==> m.panels[j] != Panel::Empty,
                decreases w - x,
            {
                proof {
                    lemma_flat_index(x as int, y as int, w, h);
                }
                let index = self.index(x, y);
                if self.panels[index] == Panel::Empty {
                    return Some(index);
                }
                x = x + 1;
            }
            proof {
                assert(y * w + w == (y + 1) * w) by (nonlinear_arith);
            }
            y = y + 1;
        }
        proof {
            assert(y * w == w * h) by (nonlinear_arith)
                requires
                    y == h,
            ;
            if m.panels.contains(Panel::Empty) {
                let j = choose|j: int| 0 <= j < m.panels.len() && m.panels[j] == Panel::Empty;
                assert(m.panels[j] != Panel::Empty);
            }
        }
        None
    }

    /// Shuffles the board by `interation_count` random pushes towards the
    /// empty slot, from another slot of its row, then of its column, and so
    /// on alternately; each push moves at least one panel. The board keeps
    /// the same panels, each as often as before.
    pub fn slide_random(&mut self, interation_count: usize)
        requires
            old(self)@.wf(),
            old(self)@.w <= i32::MAX,
            old(self)@.h <= i32::MAX,
            old(self)@.panels.contains(Panel::Empty) ==> {
                &&& interation_count >= 1 ==> old(self)@.w >= 2
                &&& interation_count >= 2 ==> old(self)@.h >= 2
            },
        ensures
            final(self)@.w == old(self)@.w,
            final(self)@.h == old(self)@.h,
            final(self)@.wf(),
            final(self)@.panels.to_multiset() == old(self)@.panels.to_multiset(),
            old(self)@.one_empty() ==> final(self)@.pushes_lead(old(self)@, interation_count as nat),
            old(self)@.one_empty() ==> old(self)@.shuffled_to(
                final(self)@,
                interation_count as nat,
                true,
            ),
            !old(self)@.panels.contains(Panel::Empty) ==> final(self)@ == old(self)@,
    {
        let ghost m0 = self@;
        if let Some(idx) = self.get_empty_index() {
            proof {
                assert(self@.panels.contains(Panel::Empty)) by {
                    assert(self@.panels[idx as int] == Panel::Empty);
                }
                assert(self@.w > 0) by (nonlinear_arith)
                    requires
                        self@.w * self@.h == self@.panels.len(),
                        idx < self@.panels.len(),
                ;
                lemma_flat_coords_of_index(idx as int, self@.w as int, self@.h as int);
            }
            let mut x = idx % self.w;
            let mut y = idx / self.w;
            proof {
                vstd::arithmetic::div_mod::lemma_fundamental_div_mod(idx as int, self@.w as int);
                assert((x as int) + (y as int) * (self@.w as int) == idx as int) by (nonlinear_arith)
                    requires
                        idx as int == (self@.w as int) * ((idx as int) / (self@.w as int)) + (
                        idx as int) % (self@.w as int),
                        x as int == (idx as int) % (self@.w as int),
                        y as int == (idx as int) / (self@.w as int),
                ;
                assert(self@.cell(x as int, y as int) == Panel::Empty);
                assert(m0.shuffled_to(self@, 0, true));
            }
            let mut i: usize = 0;
            while i < interation_count
                invariant
                    self@.w == m0.w,
                    self@.h == m0.h,
                    self@.wf(),
                    m0.w > 0,
                    interation_count >= 1 ==> m0.w >= 2,
                    interation_count >= 2 ==> m0.h >= 2,
                    x < m0.w,
                    y < m0.h,
                    i <= interation_count,
                    self@.panels.to_multiset() == m0.panels.to_multiset(),
                    m0.w <= i32::MAX,
                    m0.h <= i32::MAX,
                    m0.one_empty() ==> self@.pushes_lead(m0, i as nat),
                    m0.one_empty() ==> self@.cell(x as int, y as int) == Panel::Empty,
                    m0.one_empty() ==> m0.shuffled_to(self@, i as nat, true),
                decreases interation_count - i,
            {
                let ghost ex = x as int;
                let ghost ey = y as int;
                let dir = if i % 2 == 0 {
                    let mut xx = rand_below(self.w - 1);
                    xx = if x == xx {
                        xx + 1
                    } else {
                        xx
                    };
                    let old_x = x;
                    x = xx;
                    IVec2 { x: signum(old_x as i32 - x as i32), y: 0 }
                } else {
                    let mut yy = rand_below(self.h - 1);
                    yy = if y == yy {
                        yy + 1
                    } else {
                        yy
                    };
                    let old_y = y;
                    y = yy;
                    IVec2 { x: 0, y: signum(old_y as i32 - y as i32) }
                };
                let ghost cur = self@;
                self.slide(IVec2 { x: x as i32, y: y as i32 }, dir);
                proof {
                    if m0.one_empty() {
                        assert(cur.one_empty());
                        let pos = IVec2 { x: x as i32, y: y as i32 };
                        lemma_push_towards_empty(cur, ex, ey, pos, dir);
                        lemma_shuffle_extend(m0, cur, self@, pos, dir, i as nat, true);
                        lemma_run_in_board(cur, pos, dir);
                        assert(cur.run(pos, dir)[0] == cur.idx(x as int, y as int));
                        lemma_push_undone(
                            cur,
                            self@,
                            m0,
                            IVec2 { x: x as i32, y: y as i32 },
                            dir,
                            i as nat,
                        );
                    }
                }
                i = i + 1;
            }
        } else {
            proof {
                broadcast use vstd::seq_lib::group_to_multiset_ensures;

                assert(!m0.one_empty());
            }
        }
    }

    /// Whether every panel up to the last slot is where the solved board
    /// has it.
    pub fn is_solved(&self) -> (r: bool)
        requires
            self@.wf(),
            self@.w * self@.h >= 1,
        ensures
            r == self@.is_solved(),
            self@.one_empty() ==> (r <==> self@.panels == solved_panels(self@.w, self@.h)),
    {
        proof {
            assert(self.panels@.len() == self.panels.len());
            if self@.one_empty() {
                law_solved_iff_ordered(self@);
            }
        }
        let n = self.w * self.h - 1;
        let mut i: usize = 0;
        while i < n
            invariant
                n == self@.w * self@.h - 1,
                self@.wf(),
                i <= n,
                forall|j: int| 0 <= j < i ==> #[trigger] self@.panels[j] == Panel::PanelNumber(
                    number_for(j),
                ),
            decreases n - i,
        {
            if self.panels[i] != Panel::PanelNumber(((i + 1) % 256) as u8) {
                return false;
            }
            i = i + 1;
        }
        true
    }
}

/// Every slot the push passes, up to the empty one, is on the board.
proof fn lemma_run_in_board(m: PuzzleView, pos: IVec2, dir: IVec2)
    requires
        m.can_slide(pos, dir),
        m.in_board(pos.x as int, pos.y as int),
    ensures
        m.run_ends_at(pos, dir, m.run_len(pos, dir)),
        forall|j: int|
            0 <= j <= m.run_len(pos, dir) ==> m.in_board(line_x(pos, dir, j), line_y(pos, dir, j)),
{
    let k = m.run_len(pos, dir);
    lemma_line_step(pos, dir, 0);
    assert forall|j: int| 0 <= j <= k implies m.in_board(line_x(pos, dir, j), line_y(pos, dir, j)) by {
        if 1 <= j < k {
            assert(m.in_board(line_x(pos, dir, j), line_y(pos, dir, j)));
        }
    }
}

/// Slot `j` of the run and the one after it have indices on the board, and
/// the column and row of slot `j` plus the direction give slot `j + 1`.
proof fn lemma_step_coords(m: PuzzleView, pos: IVec2, dir: IVec2, j: int)
    requires
        m.in_board(line_x(pos, dir, j), line_y(pos, dir, j)),
        m.in_board(line_x(pos, dir, j + 1), line_y(pos, dir, j + 1)),
    ensures
        m.line_idx(pos, dir, j) % (m.w as int) == line_x(pos, dir, j),
        m.line_idx(pos, dir, j) / (m.w as int) == line_y(pos, dir, j),
        line_x(pos, dir, j + 1) == line_x(pos, dir, j) + dir.x,
        line_y(pos, dir, j + 1) == line_y(pos, dir, j) + dir.y,
        0 <= m.line_idx(pos, dir, j) < m.w * m.h,
        0 <= m.line_idx(pos, dir, j + 1) < m.w * m.h,
{
    lemma_flat_coords(line_x(pos, dir, j), line_y(pos, dir, j), m.w as int);
    lemma_line_step(pos, dir, j);
    lemma_flat_index(line_x(pos, dir, j), line_y(pos, dir, j), m.w as int, m.h as int);
    lemma_flat_index(line_x(pos, dir, j + 1), line_y(pos, dir, j + 1), m.w as int, m.h as int);
}

/// One backward step of the shift keeps the shift's invariant: slot
/// `run[t]` receives the panel that stood at `run[t - 1]`.
#[verifier::rlimit(100)]
proof fn lemma_shift_step(
    run: Seq<int>,
    k: int,
    old_panels: Seq<Panel>,
    before: Seq<Panel>,
    after: Seq<Panel>,
    t: int,
)
    requires
        run.len() == k + 1,
        forall|j: int| 0 <= j <= k && j != t ==> #[trigger] run[j] != run[t],
        forall|j: int| 0 <= j <= k ==> 0 <= #[trigger] run[j] < before.len(),
        1 <= t <= k,
        before.len() == old_panels.len(),
        0 <= run[t] < before.len(),
        after == before.update(run[t], old_panels[run[t - 1]]),
        forall|j: int| t < j <= k ==> before[#[trigger] run[j]] == old_panels[run[j - 1]],
        forall|j: int| 0 <= j <= t ==> before[#[trigger] run[j]] == old_panels[run[j]],
        forall|i: int| 0 <= i < old_panels.len() && !run.contains(i) ==> before[i] == old_panels[i],
    ensures
        forall|j: int| t - 1 < j <= k ==> after[#[trigger] run[j]] == old_panels[run[j - 1]],
        forall|j: int| 0 <= j <= t - 1 ==> after[#[trigger] run[j]] == old_panels[run[j]],
        forall|i: int| 0 <= i < old_panels.len() && !run.contains(i) ==> after[i] == old_panels[i],
        before[run[t]] == old_panels[run[t]],
{
    assert forall|j: int| t - 1 < j <= k implies after[#[trigger] run[j]] == old_panels[run[j - 1]] by {
        if j != t {
            assert(run[j] != run[t]);
        }
    }
    assert forall|j: int| 0 <= j <= t - 1 implies after[#[trigger] run[j]] == old_panels[run[j]] by {
        assert(run[j] != run[t]);
    }
    assert forall|i: int| 0 <= i < old_panels.len() && !run.contains(i) implies after[i]
        == old_panels[i] by {
        if i == run[t] {
            assert(run.contains(i));
        }
    }
}

/// The multiset bookkeeping of one backward step of the shift.
proof fn lemma_shift_step_ms(
    old_ms: vstd::multiset::Multiset<Panel>,
    before: Seq<Panel>,
    i: int,
    replaced: Panel,
    moved_in: Panel,
)
    requires
        old_ms.count(Panel::Empty) >= 1,
        0 <= i < before.len(),
        before[i] == replaced,
        before.to_multiset() == old_ms.insert(replaced).remove(Panel::Empty),
    ensures
        before.update(i, moved_in).to_multiset() == old_ms.insert(moved_in).remove(Panel::Empty),
{
    vstd::seq_lib::to_multiset_update(before, i, moved_in);
    lemma_ms_step(old_ms, replaced, moved_in, Panel::Empty);
}

/// The first `k + 1` entries of `run` are all different.
#[verifier::opaque]
pub open spec fn distinct_upto(run: Seq<int>, k: int) -> bool {
    forall|j1: int, j2: int|
        0 <= j1 <= k && 0 <= j2 <= k && j1 != j2 ==> #[trigger] run[j1] != #[trigger] run[j2]
}

proof fn lemma_distinct_from(run: Seq<int>, k: int, t: int)
    requires
        distinct_upto(run, k),
        0 <= t <= k,
    ensures
        forall|j: int| 0 <= j <= k && j != t ==> #[trigger] run[j] != run[t],
{
    reveal(distinct_upto);
}

/// The slots of a run are all different.
proof fn lemma_run_distinct(m: PuzzleView, pos: IVec2, dir: IVec2)
    requires
        !(dir.x == 0 && dir.y == 0),
        m.can_slide(pos, dir),
        m.in_board(pos.x as int, pos.y as int),
    ensures
        distinct_upto(m.run(pos, dir), m.run_len(pos, dir)),
{
    reveal(distinct_upto);
    lemma_run_in_board(m, pos, dir);
    let k = m.run_len(pos, dir);
    assert forall|j1: int, j2: int|
        0 <= j1 <= k && 0 <= j2 <= k && j1 != j2 implies #[trigger] m.run(pos, dir)[j1]
        != #[trigger] m.run(pos, dir)[j2] by {
        lemma_line_distinct(m, pos, dir, j1, j2);
    }
}

proof fn lemma_ms_cancel(ms: vstd::multiset::Multiset<Panel>, a: Panel, e: Panel)
    requires
        ms.count(e) >= 1,
    ensures
        ms.insert(a).remove(e).insert(e).remove(a) =~= ms,
        ms.insert(a).remove(a) =~= ms,
{
}

proof fn lemma_ms_step(ms: vstd::multiset::Multiset<Panel>, a: Panel, c: Panel, e: Panel)
    requires
        ms.count(e) >= 1,
    ensures
        ms.insert(a).remove(e).insert(c).remove(a) =~= ms.insert(c).remove(e),
{
}

/// Column and row of slot `i` of a `w`-wide board lie on the board.
proof fn lemma_flat_coords_of_index(i: int, w: int, h: int)
    requires
        0 <= i < w * h,
        w > 0,
    ensures
        0 <= i % w < w,
        0 <= i / w < h,
{
    vstd::arithmetic::div_mod::lemma_fundamental_div_mod(i, w);
    assert(0 <= i / w < h) by (nonlinear_arith)
        requires
            0 <= i < w * h,
            w > 0,
            i == w * (i / w) + i % w,
            0 <= i % w < w,
    ;
}

/// The sign of `v`: -1, 0 or 1.
pub fn signum(v: i32) -> (r: i32)
    ensures
        v > 0 ==> r == 1,
        v == 0 ==> r == 0,
        v < 0 ==> r == -1,
{
    if v > 0 {
        1
    } else if v < 0 {
        -1
    } else {
        0
    }
}

/// The line back from the far end of a run, in the opposite direction,
/// meets the run's slots in reverse order.
proof fn lemma_reverse_line(pos: IVec2, dir: IVec2, k: int, back: IVec2, rev: IVec2, j: int)
    requires
        back.x == line_x(pos, dir, k),
        back.y == line_y(pos, dir, k),
        rev.x == -dir.x,
        rev.y == -dir.y,
    ensures
        line_x(back, rev, j) == line_x(pos, dir, k - j),
        line_y(back, rev, j) == line_y(pos, dir, k - j),
{
    assert(k * dir.x + j * (-dir.x) == (k - j) * dir.x) by (nonlinear_arith);
    assert(k * dir.y + j * (-dir.y) == (k - j) * dir.y) by (nonlinear_arith);
}

/// The push back from the slot a push filled, in the opposite direction,
/// finds the run again, ending at `pos`, and gives back the board `b`.
proof fn lemma_slid_back_to(
    b: PuzzleView,
    mid: PuzzleView,
    pos: IVec2,
    dir: IVec2,
    back: IVec2,
    rev: IVec2,
)
    requires
        b.wf(),
        mid.w == b.w && mid.h == b.h && mid.wf(),
        b.in_board(pos.x as int, pos.y as int),
        !(dir.x == 0 && dir.y == 0),
        b.cell(pos.x as int, pos.y as int) != Panel::Empty,
        b.can_slide(pos, dir),
        slid(b, mid, pos, dir),
        back.x == line_x(pos, dir, b.run_len(pos, dir)),
        back.y == line_y(pos, dir, b.run_len(pos, dir)),
        rev.x == -dir.x,
        rev.y == -dir.y,
    ensures
        mid.can_slide(back, rev),
        mid.run_len(back, rev) == b.run_len(pos, dir),
        mid.in_board(back.x as int, back.y as int),
        mid.cell(back.x as int, back.y as int) != Panel::Empty,
        slid(mid, b, back, rev),
{
    let k = b.run_len(pos, dir);
    lemma_run_in_board(b, pos, dir);
    let run = b.run(pos, dir);
    assert(run.len() == k + 1);
    assert forall|j: int| 0 <= j <= k implies #[trigger] run[j] == b.line_idx(pos, dir, j)
        && mid.line_idx(back, rev, k - j) == run[j] by {
        lemma_reverse_line(pos, dir, k, back, rev, k - j);
    }
    assert forall|j1: int, j2: int| 0 <= j1 <= k && 0 <= j2 <= k && j1 != j2 implies run[j1]
        != run[j2] by {
        lemma_line_distinct(b, pos, dir, j1, j2);
    }
    // The backward push from `back` runs exactly `k` steps, to `pos`.
    assert forall|j: int| 1 <= j < k implies #[trigger] mid.in_board(
        line_x(back, rev, j),
        line_y(back, rev, j),
    ) && mid.cell(line_x(back, rev, j), line_y(back, rev, j)) != Panel::Empty by {
        lemma_reverse_line(pos, dir, k, back, rev, j);
        assert(run[k - j] == b.line_idx(pos, dir, k - j));
        assert(mid.panels[run[k - j]] == b.panels[run[k - j - 1]]);
        if k - j - 1 >= 1 {
            assert(b.in_board(line_x(pos, dir, k - j - 1), line_y(pos, dir, k - j - 1)));
        } else {
            lemma_line_step(pos, dir, 0);
        }
    }
    lemma_reverse_line(pos, dir, k, back, rev, k);
    lemma_reverse_line(pos, dir, k, back, rev, 0);
    lemma_line_step(pos, dir, 0);
    lemma_line_step(back, rev, 0);
    assert(mid.run_ends_at(back, rev, k));
    lemma_run_unique(mid, back, rev, k, mid.run_len(back, rev));
    let run2 = mid.run(back, rev);
    assert forall|j: int| 0 <= j <= k implies #[trigger] run2[j] == run[k - j] by {
        lemma_reverse_line(pos, dir, k, back, rev, j);
        assert(run[k - j] == b.line_idx(pos, dir, k - j));
    }
    // The slot `back` now holds the panel pushed into it.
    assert(run2[0] == run[k]);
    assert(mid.panels[run[k]] == b.panels[run[k - 1]]);
    if k - 1 >= 1 {
        assert(b.in_board(line_x(pos, dir, k - 1), line_y(pos, dir, k - 1)));
    }
    assert(b.panels[run2[0]] == Panel::Empty);
    assert forall|j: int| 1 <= j < run2.len() implies b.panels[#[trigger] run2[j]] == mid.panels[run2[j
        - 1]] by {
        assert(run2[j] == run[k - j]);
        assert(run2[j - 1] == run[k - j + 1]);
        assert(mid.panels[run[k - j + 1]] == b.panels[run[k - j]]);
    }
    assert forall|i: int| 0 <= i < mid.panels.len() && !run2.contains(i) implies b.panels[i]
        == mid.panels[i] by {
        if run.contains(i) {
            let t = choose|t: int| 0 <= t < run.len() && run[t] == i;
            assert(run2[k - t] == i);
        }
    }
}

/// A push is determined by the board it starts from: two boards of the
/// same size that the same push leads to are the same.
proof fn lemma_slid_unique(x: PuzzleView, a1: PuzzleView, a2: PuzzleView, pos: IVec2, dir: IVec2)
    requires
        slid(x, a1, pos, dir),
        slid(x, a2, pos, dir),
        a1.panels.len() == x.panels.len(),
        a2.panels.len() == x.panels.len(),
    ensures
        a1.panels == a2.panels,
{
    if x.can_slide(pos, dir) {
        let run = x.run(pos, dir);
        assert forall|i: int| 0 <= i < x.panels.len() implies a1.panels[i] == a2.panels[i] by {
            if run.contains(i) {
                let t = choose|t: int| 0 <= t < run.len() && run[t] == i;
                if t == 0 {
                } else {
                    assert(a1.panels[run[t]] == x.panels[run[t - 1]]);
                }
            }
        }
        assert(a1.panels =~= a2.panels);
    }
}

/// Pushing back undoes a push: once the panels from `pos` have been pushed
/// one step towards the empty slot their line met, pushing from that slot
/// in the opposite direction finds the run again, ending at `pos`, and
/// restores every slot of the board.
pub proof fn law_slide_back(
    b: PuzzleView,
    mid: PuzzleView,
    end: PuzzleView,
    pos: IVec2,
    dir: IVec2,
    back: IVec2,
    rev: IVec2,
)
    requires
        b.wf(),
        mid.w == b.w && mid.h == b.h && mid.wf(),
        end.w == b.w && end.h == b.h && end.wf(),
        b.in_board(pos.x as int, pos.y as int),
        !(dir.x == 0 && dir.y == 0),
        b.cell(pos.x as int, pos.y as int) != Panel::Empty,
        b.can_slide(pos, dir),
        slid(b, mid, pos, dir),
        back.x == line_x(pos, dir, b.run_len(pos, dir)),
        back.y == line_y(pos, dir, b.run_len(pos, dir)),
        rev.x == -dir.x,
        rev.y == -dir.y,
        slid(mid, end, back, rev),
    ensures
        mid.can_slide(back, rev),
        mid.run_len(back, rev) == b.run_len(pos, dir),
        end.panels == b.panels,
{
    lemma_slid_back_to(b, mid, pos, dir, back, rev);
    lemma_slid_unique(mid, end, b, back, rev);
}

/// A way of at most `a` pushes is one of at most `b >= a` pushes.
proof fn lemma_pushes_more(x: PuzzleView, target: PuzzleView, a: nat, b: nat)
    requires
        x.pushes_lead(target, a),
        a <= b,
    ensures
        x.pushes_lead(target, b),
    decreases a,
{
    if x.panels != target.panels {
        let (pos, dir, next) = choose|pos: IVec2, dir: IVec2, next: PuzzleView|
            #![trigger slid(x, next, pos, dir)]
            {
                &&& x.is_push(pos, dir)
                &&& next.w == x.w && next.h == x.h && next.wf()
                &&& slid(x, next, pos, dir)
                &&& next.pushes_lead(target, (a - 1) as nat)
            };
        lemma_pushes_more(next, target, (a - 1) as nat, (b - 1) as nat);
        assert(slid(x, next, pos, dir));
    }
}

/// Two different slots both empty: the board has more than one empty slot.
proof fn lemma_two_empty(m: PuzzleView, i: int, j: int)
    requires
        0 <= i < m.panels.len(),
        0 <= j < m.panels.len(),
        i != j,
        m.panels[i] == Panel::Empty,
        m.panels[j] == Panel::Empty,
    ensures
        !m.one_empty(),
{
    broadcast use vstd::seq_lib::group_to_multiset_ensures;
    broadcast use vstd::multiset::group_multiset_axioms;

    let s = m.panels;
    let r = s.remove(j);
    let ri = if i < j { i } else { i - 1 };
    assert(r[ri] == Panel::Empty);
    assert(r.contains(Panel::Empty));
    assert(r.to_multiset().count(Panel::Empty) > 0);
    assert(r.to_multiset() =~= s.to_multiset().remove(s[j]));
    assert(s.to_multiset().count(Panel::Empty) >= 2);
}

/// One push on a board with one empty slot, from a slot on the board in
/// one of the four ways, can be undone by a push: the board before is at
/// most one push away from the board after, and so are its followers.
proof fn lemma_push_undone(cur: PuzzleView, mid: PuzzleView, m0: PuzzleView, pos: IVec2, dir: IVec2, n: nat)
    requires
        cur.wf(),
        cur.w <= i32::MAX,
        cur.h <= i32::MAX,
        cur.one_empty(),
        mid.w == cur.w && mid.h == cur.h && mid.wf(),
        cur.in_board(pos.x as int, pos.y as int),
        ((dir.x == 1 || dir.x == -1) && dir.y == 0) || (dir.x == 0 && (dir.y == 1 || dir.y == -1)),
        slid(cur, mid, pos, dir),
        cur.pushes_lead(m0, n),
    ensures
        mid.pushes_lead(m0, n + 1),
{
    if !cur.can_slide(pos, dir) {
        assert(mid.panels == cur.panels);
        assert(mid == cur);
        lemma_pushes_more(cur, m0, n, n + 1);
    } else if cur.cell(pos.x as int, pos.y as int) == Panel::Empty {
        lemma_run_in_board(cur, pos, dir);
        let k = cur.run_len(pos, dir);
        lemma_line_step(pos, dir, 0);
        lemma_line_distinct(cur, pos, dir, 0, k);
        lemma_flat_index(pos.x as int, pos.y as int, cur.w as int, cur.h as int);
        lemma_flat_index(line_x(pos, dir, k), line_y(pos, dir, k), cur.w as int, cur.h as int);
        lemma_two_empty(cur, cur.line_idx(pos, dir, 0), cur.line_idx(pos, dir, k));
    } else {
        let k = cur.run_len(pos, dir);
        lemma_run_in_board(cur, pos, dir);
        assert(cur.in_board(line_x(pos, dir, k), line_y(pos, dir, k)));
        let back = IVec2 { x: line_x(pos, dir, k) as i32, y: line_y(pos, dir, k) as i32 };
        let rev = IVec2 { x: -dir.x as i32, y: -dir.y as i32 };
        lemma_slid_back_to(cur, mid, pos, dir, back, rev);
        if mid.panels != m0.panels {
            assert(mid.is_push(back, rev));
            assert(slid(mid, cur, back, rev));
        }
    }
}

/// A shuffle of `i` steps followed by one more step, along a row or a
/// column as the alternation asks, is a shuffle of `i + 1` steps.
proof fn lemma_shuffle_extend(
    a: PuzzleView,
    cur: PuzzleView,
    mid: PuzzleView,
    pos: IVec2,
    dir: IVec2,
    i: nat,
    along_row: bool,
)
    requires
        a.shuffled_to(cur, i, along_row),
        cur.shuffle_step(mid, pos, dir, along_row == (i % 2 == 0)),
    ensures
        a.shuffled_to(mid, i + 1, along_row),
    decreases i,
{
    if i == 0 {
        assert(a == cur);
        assert(mid.shuffled_to(mid, 0, !along_row));
        assert(a.shuffle_step(mid, pos, dir, along_row));
    } else {
        let (p0, d0, n0) = choose|p0: IVec2, d0: IVec2, n0: PuzzleView|
            #[trigger] a.shuffle_step(n0, p0, d0, along_row) && n0.shuffled_to(
                cur,
                (i - 1) as nat,
                !along_row,
            );
        lemma_shuffle_extend(n0, cur, mid, pos, dir, (i - 1) as nat, !along_row);
        assert(a.shuffle_step(n0, p0, d0, along_row));
        assert(n0.shuffled_to(mid, i, !along_row));
    }
}

proof fn lemma_unit_mul(j: int, d: int)
    requires
        d == 1 || d == -1 || d == 0,
    ensures
        j * d == (if d == 1 {
            j
        } else if d == -1 {
            -j
        } else {
            0
        }),
{
    assert(j * d == (if d == 1 {
        j
    } else if d == -1 {
        -j
    } else {
        0
    })) by (nonlinear_arith)
        requires
            d == 1 || d == -1 || d == 0,
    ;
}

/// On a board whose one empty slot is `(ex, ey)`, a push from another slot
/// of its row (or column) towards it moves the panels in between.
proof fn lemma_push_towards_empty(m: PuzzleView, ex: int, ey: int, pos: IVec2, dir: IVec2)
    requires
        m.wf(),
        m.one_empty(),
        m.in_board(ex, ey),
        m.cell(ex, ey) == Panel::Empty,
        m.in_board(pos.x as int, pos.y as int),
        (dir.y == 0 && pos.y == ey && pos.x != ex && dir.x == (if ex > pos.x {
            1int
        } else {
            -1int
        })) || (dir.x == 0 && pos.x == ex && pos.y != ey && dir.y == (if ey > pos.y {
            1int
        } else {
            -1int
        })),
    ensures
        m.is_push(pos, dir),
        m.can_slide(pos, dir),
{
    let px = pos.x as int;
    let py = pos.y as int;
    let k = if dir.y == 0 {
        if ex > px {
            ex - px
        } else {
            px - ex
        }
    } else {
        if ey > py {
            ey - py
        } else {
            py - ey
        }
    };
    lemma_flat_index(ex, ey, m.w as int, m.h as int);
    lemma_flat_coords(ex, ey, m.w as int);
    assert forall|j: int| 0 <= j <= k implies line_x(pos, dir, j) == px + (if dir.x == 1 {
        j
    } else if dir.x == -1 {
        -j
    } else {
        0
    }) && line_y(pos, dir, j) == py + (if dir.y == 1 {
        j
    } else if dir.y == -1 {
        -j
    } else {
        0
    }) by {
        lemma_unit_mul(j, dir.x as int);
        lemma_unit_mul(j, dir.y as int);
    }
    // Every slot strictly between holds a panel: a second empty slot would
    // contradict the single one.
    assert forall|j: int| 0 <= j < k implies #[trigger] m.in_board(
        line_x(pos, dir, j),
        line_y(pos, dir, j),
    ) && m.cell(line_x(pos, dir, j), line_y(pos, dir, j)) != Panel::Empty by {
        let lx = line_x(pos, dir, j);
        let ly = line_y(pos, dir, j);
        assert(m.in_board(lx, ly));
        assert(lx != ex || ly != ey);
        lemma_flat_index(lx, ly, m.w as int, m.h as int);
        lemma_flat_coords(lx, ly, m.w as int);
        if m.cell(lx, ly) == Panel::Empty {
            lemma_two_empty(m, m.idx(lx, ly), m.idx(ex, ey));
        }
    }
    assert(line_x(pos, dir, k) == ex && line_y(pos, dir, k) == ey);
    assert(m.run_ends_at(pos, dir, k));
    assert(m.in_board(line_x(pos, dir, 0), line_y(pos, dir, 0)));
}

/// A board keeps exactly one empty slot whatever is slid: a push moves the
/// panels and the gap, it never adds or removes either.
pub proof fn law_slide_keeps_one_empty(before: PuzzleView, after: PuzzleView)
    requires
        before.one_empty(),
        after.panels.to_multiset() == before.panels.to_multiset(),
    ensures
        after.one_empty(),
{
}

/// A solved board of at least one slot has exactly one empty slot, the
/// last.
pub proof fn law_solved_one_empty(w: nat, h: nat)
    requires
        w * h >= 1,
    ensures
        (PuzzleView { w, h, panels: solved_panels(w, h) }).one_empty(),
{
    broadcast use vstd::seq_lib::group_to_multiset_ensures;
    broadcast use vstd::multiset::group_multiset_axioms;

    let s = solved_panels(w, h);
    let front = s.drop_last();
    assert(s =~= front.push(Panel::Empty));
    assert(!front.contains(Panel::Empty));
    assert(front.to_multiset().count(Panel::Empty) == 0);
    assert(s.to_multiset() =~= front.to_multiset().insert(Panel::Empty));
}

/// On a board with one empty slot, being solved means being exactly the
/// solved board: every slot before the last holds the panel numbered its
/// index plus one, and the gap is in the last slot. A board with any panel
/// out of place is not solved.
pub proof fn law_solved_iff_ordered(p: PuzzleView)
    requires
        p.wf(),
        p.w * p.h >= 1,
        p.one_empty(),
    ensures
        p.is_solved() <==> p.panels == solved_panels(p.w, p.h),
{
    broadcast use vstd::seq_lib::group_to_multiset_ensures;

    let n = p.w * p.h;
    let target = solved_panels(p.w, p.h);
    if p.is_solved() {
        assert(p.panels.to_multiset().count(Panel::Empty) > 0);
        assert(p.panels.contains(Panel::Empty));
        let k = choose|k: int| 0 <= k < p.panels.len() && p.panels[k] == Panel::Empty;
        if k < n - 1 {
            assert(p.panels[k] == Panel::PanelNumber(number_for(k)));
        }
        assert(k == n - 1);
        assert(p.panels =~= target);
    }
    if p.panels == target {
        assert forall|i: int| 0 <= i < n - 1 implies #[trigger] p.panels[i] == Panel::PanelNumber(
            number_for(i),
        ) by {
            assert(target[i] == Panel::PanelNumber(number_for(i)));
        }
    }
}

/// A freshly reset board is solved.
pub proof fn law_reset_is_solved(w: nat, h: nat)
    ensures
        (PuzzleView { w, h, panels: solved_panels(w, h) }).is_solved(),
{
}

} // verus!
