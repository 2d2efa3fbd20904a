//! Match three: a rectangular board of gems. Swapping two gems is kept
//! only when it lines up three or more of a kind; matched gems are popped,
//! the gems above them fall down their column and new gems drop in at the
//! top.

use vstd::prelude::*;
use crate::geometry::UVec2;
use crate::random::{fast_u32, fast_usize_upto, rand_choose};
use crate::shuffle::lemma_ms_swap;

verus! {

/// The board's size and how many kinds of gem it holds.
#[derive(Clone, Copy, Debug, PartialEq, Eq, Structural)]
pub struct Match3Config {
    /// Kinds of gem; a gem is a number below it.
    pub gem_types: u32,
    /// Columns (`x`) and rows (`y`) of the board.
    pub board_dimensions: UVec2,
}

impl Match3Config {
    /// Five kinds of gem on a 10x10 board.
    pub fn default() -> (r: Match3Config)
        ensures
            r.gem_types == 5,
            r.board_dimensions == (UVec2 { x: 10, y: 10 }),
    {
        Match3Config { gem_types: 5, board_dimensions: UVec2 { x: 10, y: 10 } }
    }
}

/// The board: `width` columns by `height` rows of gems, row after row, and
/// the kinds that new gems are drawn from.
pub struct Board {
    width: u32,
    height: u32,
    gems: Vec<u32>,
    types: Vec<u32>,
}

/// What a board is: its size, its gems row after row, and the kinds new
/// gems are drawn from.
pub struct BoardView {
    pub w: nat,
    pub h: nat,
    pub gems: Seq<u32>,
    pub types: Seq<u32>,
}

impl View for Board {
    type V = BoardView;

    closed spec fn view(&self) -> BoardView {
        BoardView { w: self.width as nat, h: self.height as nat, gems: self.gems@, types: self.types@ }
    }
}

impl BoardView {
    /// One gem per position.
    pub open spec fn wf(self) -> bool {
        self.gems.len() == self.w * self.h
    }

    pub open spec fn idx(self, x: int, y: int) -> int {
        x + y * self.w
    }

    pub open spec fn in_board(self, x: int, y: int) -> bool {
        0 <= x < self.w && 0 <= y < self.h
    }

    pub open spec fn gem(self, x: int, y: int) -> u32 {
        self.gems[self.idx(x, y)]
    }

    /// Three equal gems side by side, starting at `(x, y)`.
    pub open spec fn run_h(self, x: int, y: int) -> bool {
        &&& self.in_board(x, y)
        &&& self.in_board(x + 2, y)
        &&& self.gem(x, y) == self.gem(x + 1, y)
        &&& self.gem(x + 1, y) == self.gem(x + 2, y)
    }

    /// Three equal gems one above the other, starting at `(x, y)`.
    pub open spec fn run_v(self, x: int, y: int) -> bool {
        &&& self.in_board(x, y)
        &&& self.in_board(x, y + 2)
        &&& self.gem(x, y) == self.gem(x, y + 1)
        &&& self.gem(x, y + 1) == self.gem(x, y + 2)
    }

    /// Somewhere three or more equal gems line up.
    pub open spec fn has_match(self) -> bool {
        exists|x: int, y: int| #![trigger self.run_h(x, y)] #![trigger self.run_v(x, y)]
            self.run_h(x, y) || self.run_v(x, y)
    }

    /// The gem at `(x, y)` is part of a line of three or more.
    pub open spec fn in_match(self, x: int, y: int) -> bool {
        ||| self.run_h(x, y)
        ||| self.run_h(x - 1, y)
        ||| self.run_h(x - 2, y)
        ||| self.run_v(x, y)
        ||| self.run_v(x, y - 1)
        ||| self.run_v(x, y - 2)
    }
}

/// The board's position of flat index `i`, for a board `w` columns wide.
pub open spec fn pos_of(i: int, w: int) -> UVec2 {
    UVec2 { x: (i % w) as u32, y: (i / w) as u32 }
}

/// The matched positions, listed row after row.
pub open spec fn is_match_list(b: BoardView, list: Seq<UVec2>) -> bool {
    &&& forall|k: int|
        0 <= k < list.len() ==> b.in_board((#[trigger] list[k]).x as int, list[k].y as int)
            && b.in_match(list[k].x as int, list[k].y as int)
    &&& forall|x: int, y: int|
        b.in_board(x, y) && b.in_match(x, y) ==> list.contains(UVec2 { x: x as u32, y: y as u32 })
    &&& forall|k1: int, k2: int|
        0 <= k1 < k2 < list.len() ==> b.idx(list[k1].x as int, list[k1].y as int) < b.idx(
            list[k2].x as int,
            list[k2].y as int,
        )
}

proof fn lemma_flat(x: int, y: int, w: int, h: int)
    requires
        0 <= x < w,
        0 <= y < h,
    ensures
        0 <= x + y * w < w * h,
        (x + y * w) % w == x,
        (x + y * w) / w == y,
{
    assert(0 <= x + y * w < w * h) by (nonlinear_arith)
        requires
            0 <= x < w,
            0 <= y < h,
    ;
    vstd::arithmetic::div_mod::lemma_fundamental_div_mod_converse(x + y * w, w, y, x);
}

impl Board {
    /// A board read from its rows, top row first; new gems are drawn from
    /// the kinds it holds. The rows must all be as long as the first.
    pub fn from_rows(rows: &Vec<Vec<u32>>) -> (r: Board)
        requires
            rows@.len() > 0,
            rows@.len() <= u32::MAX,
            rows@[0]@.len() <= u32::MAX,
            rows@.len() * rows@[0]@.len() <= usize::MAX,
            forall|y: int| 0 <= y < rows@.len() ==> (#[trigger] rows@[y])@.len() == rows@[0]@.len(),
        ensures
            r@.wf(),
            r@.w == rows@[0]@.len(),
            r@.h == rows@.len(),
            forall|x: int, y: int| r@.in_board(x, y) ==> r@.gem(x, y) == rows@[y]@[x],
            forall|t: u32| r@.types.contains(t) <==> r@.gems.contains(t),
    {
        let w = rows[0].len();
        let h = rows.len();
        let mut gems: Vec<u32> = Vec::new();
        let mut types: Vec<u32> = Vec::new();
        let mut y: usize = 0;
        while y < h
            invariant
                y <= h,
                h == rows@.len(),
                w == rows@[0]@.len(),
                h * w <= usize::MAX,
                forall|yy: int| 0 <= yy < rows@.len() ==> (#[trigger] rows@[yy])@.len() == w,
                gems@.len() == y * w,
                forall|xx: int, yy: int|
                    0 <= xx < w && 0 <= yy < y ==> gems@[xx + yy * w] == rows@[yy]@[xx],
                forall|t: u32| types@.contains(t) <==> gems@.contains(t),
            decreases h - y,
        {
            let row = &rows[y];
            let mut x: usize = 0;
            while x < w
                invariant
                    x <= w,
                    y < h,
                    h == rows@.len(),
                    w == rows@[0]@.len(),
                    h * w <= usize::MAX,
                    row@ == rows@[y as int]@,
                    row@.len() == w,
                    gems@.len() == y * w + x,
                    forall|xx: int, yy: int|
                        0 <= xx < w && 0 <= yy < y ==> gems@[xx + yy * w] == rows@[yy]@[xx],
                    forall|xx: int| 0 <= xx < x ==> gems@[xx + y * w] == rows@[y as int]@[xx],
                    forall|t: u32| types@.contains(t) <==> gems@.contains(t),
                decreases w - x,
            {
                proof {
                    assert((y * w + x) < h * w) by (nonlinear_arith)
                        requires
                            y < h,
                            x < w,
                    ;
                }
                let g = row[x];
                let ghost before = gems@;
                let ghost tbefore = types@;
                gems.push(g);
                if !contains_u32(&types, g) {
                    types.push(g);
                }
                proof {
                    assert forall|t: u32| types@.contains(t) <==> gems@.contains(t) by {
                        lemma_push_contains_u32(before, g, t);
                        lemma_push_contains_u32(tbefore, g, t);
                        assert(tbefore.contains(t) <==> before.contains(t));
                    }
                    assert forall|xx: int, yy: int|
                        0 <= xx < w && 0 <= yy < y implies gems@[xx + yy * w] == rows@[yy]@[xx] by {
                        assert(xx + yy * w < y * w) by (nonlinear_arith)
                            requires
                                0 <= xx < w,
                                0 <= yy < y,
                        ;
                        assert(gems@[xx + yy * w] == before[xx + yy * w]);
                    }
                    assert((x + y * w) as int == y * w + x) by (nonlinear_arith);
                }
                x = x + 1;
            }
            proof {
                assert((y + 1) * w == y * w + w) by (nonlinear_arith);
                assert forall|xx: int, yy: int|
                    0 <= xx < w && 0 <= yy < y + 1 implies gems@[xx + yy * w] == rows@[yy]@[xx] by {
                    if yy == y {
                    }
                }
            }
            y = y + 1;
        }
        proof {
            assert(h * w == w * h) by (nonlinear_arith);
        }
        Board { width: w as u32, height: h as u32, gems, types }
    }
}

fn contains_u32(v: &Vec<u32>, g: u32) -> (r: bool)
    ensures
        r == v@.contains(g),
{
    let mut i: usize = 0;
    while i < v.len()
        invariant
            i <= v@.len(),
            forall|k: int| 0 <= k < i ==> v@[k] != g,
        decreases v@.len() - i,
    {
        if v[i] == g {
            return true;
        }
        i = i + 1;
    }
    false
}

proof fn lemma_push_contains_u32(s: Seq<u32>, e: u32, x: u32)
    ensures
        s.push(e).contains(x) == (s.contains(x) || x == e),
{
    if s.push(e).contains(x) {
        let k = choose|k: int| 0 <= k < s.push(e).len() && s.push(e)[k] == x;
        if k < s.len() {
            assert(s[k] == x);
        }
    }
    if s.contains(x) {
        let k = choose|k: int| 0 <= k < s.len() && s[k] == x;
        assert(s.push(e)[k] == x);
    }
    if x == e {
        assert(s.push(e)[s.len() as int] == x);
    }
}

impl Board {
    pub fn width(&self) -> (r: u32)
        ensures
            r == self@.w,
    {
        self.width
    }

    pub fn height(&self) -> (r: u32)
        ensures
            r == self@.h,
    {
        self.height
    }

    /// The gem at `pos`, if `pos` is on the board.
    pub fn get(&self, pos: UVec2) -> (r: Option<u32>)
        requires
            self@.wf(),
        ensures
            self@.in_board(pos.x as int, pos.y as int) ==> r == Some(
                self@.gem(pos.x as int, pos.y as int),
            ),
            !self@.in_board(pos.x as int, pos.y as int) ==> r is None,
    {
        if pos.x < self.width && pos.y < self.height {
            Some(self.gem_at(pos.x, pos.y))
        } else {
            None
        }
    }

    fn gem_at(&self, x: u32, y: u32) -> (r: u32)
        requires
            self@.wf(),
            self@.in_board(x as int, y as int),
        ensures
            r == self@.gem(x as int, y as int),
    {
        // the vector's length bounds the index arithmetic below
        let _len = self.gems.len();
        proof {
            lemma_flat(x as int, y as int, self@.w as int, self@.h as int);
        }
        self.gems[x as usize + y as usize * self.width as usize]
    }

    fn run_h_at(&self, x: u32, y: u32) -> (r: bool)
        requires
            self@.wf(),
        ensures
            r == self@.run_h(x as int, y as int),
    {
        if y < self.height && x < self.width && self.width - x > 2 {
            let a = self.gem_at(x, y);
            let b = self.gem_at(x + 1, y);
            let c = self.gem_at(x + 2, y);
            a == b && b == c
        } else {
            false
        }
    }

    fn run_v_at(&self, x: u32, y: u32) -> (r: bool)
        requires
            self@.wf(),
        ensures
            r == self@.run_v(x as int, y as int),
    {
        if x < self.width && y < self.height && self.height - y > 2 {
            let a = self.gem_at(x, y);
            let b = self.gem_at(x, y + 1);
            let c = self.gem_at(x, y + 2);
            a == b && b == c
        } else {
            false
        }
    }

    /// Whether three or more equal gems line up anywhere.
    pub fn find_match(&self) -> (r: bool)
        requires
            self@.wf(),
        ensures
            r == self@.has_match(),
    {
        let mut y: u32 = 0;
        while y < self.height
            invariant
                self@.wf(),
                y <= self@.h,
                forall|xx: int, yy: int|
                    0 <= yy < y && 0 <= xx < self@.w ==> !self@.run_h(xx, yy) && !self@.run_v(xx, yy),
            decreases self@.h - y,
        {
            let mut x: u32 = 0;
            while x < self.width
                invariant
                    self@.wf(),
                    y < self@.h,
                    x <= self@.w,
                    forall|xx: int, yy: int|
                        0 <= yy < y && 0 <= xx < self@.w ==> !self@.run_h(xx, yy) && !self@.run_v(xx, yy),
                    forall|xx: int| 0 <= xx < x ==> !self@.run_h(xx, y as int) && !self@.run_v(xx, y as int),
                decreases self@.w - x,
            {
                if self.run_h_at(x, y) || self.run_v_at(x, y) {
                    return true;
                }
                x = x + 1;
            }
            y = y + 1;
        }
        proof {
            assert forall|xx: int, yy: int| !(self@.run_h(xx, yy) || self@.run_v(xx, yy)) by {
                if self@.in_board(xx, yy) {
                }
            }
        }
        false
    }

    fn in_match_at(&self, x: u32, y: u32) -> (r: bool)
        requires
            self@.wf(),
        ensures
            r == self@.in_match(x as int, y as int),
    {
        self.run_h_at(x, y) || (x >= 1 && self.run_h_at(x - 1, y)) || (x >= 2 && self.run_h_at(
            x - 2,
            y,
        )) || self.run_v_at(x, y) || (y >= 1 && self.run_v_at(x, y - 1)) || (y >= 2
            && self.run_v_at(x, y - 2))
    }

    /// The positions of every gem in a line of three or more, row after row.
    pub fn get_matches(&self) -> (r: Vec<UVec2>)
        requires
            self@.wf(),
        ensures
            is_match_list(self@, r@),
    {
        let mut list: Vec<UVec2> = Vec::new();
        let mut y: u32 = 0;
        while y < self.height
            invariant
                self@.wf(),
                y <= self@.h,
                forall|k: int|
                    0 <= k < list@.len() ==> self@.in_board((#[trigger] list@[k]).x as int, list@[k].y as int)
                        && self@.in_match(list@[k].x as int, list@[k].y as int) && list@[k].y < y,
                forall|xx: int, yy: int|
                    0 <= yy < y && 0 <= xx < self@.w && self@.in_match(xx, yy) ==> list@.contains(
                        UVec2 { x: xx as u32, y: yy as u32 },
                    ),
                forall|k1: int, k2: int|
                    0 <= k1 < k2 < list@.len() ==> self@.idx(list@[k1].x as int, list@[k1].y as int)
                        < self@.idx(list@[k2].x as int, list@[k2].y as int),
            decreases self@.h - y,
        {
            proof {
                assert forall|k: int| 0 <= k < list@.len() implies self@.idx(
                    list@[k].x as int,
                    list@[k].y as int,
                ) < self@.idx(0, y as int) by {
                    let p = list@[k];
                    assert(self@.in_board(p.x as int, p.y as int));
                    assert(p.x + p.y * self@.w < y * self@.w) by (nonlinear_arith)
                        requires
                            p.x < self@.w,
                            p.y < y,
                    ;
                }
            }
            let mut x: u32 = 0;
            while x < self.width
                invariant
                    self@.wf(),
                    y < self@.h,
                    x <= self@.w,
                    forall|k: int|
                        0 <= k < list@.len() ==> self@.in_board((#[trigger] list@[k]).x as int, list@[k].y as int)
                            && self@.in_match(list@[k].x as int, list@[k].y as int)
                            && self@.idx(list@[k].x as int, list@[k].y as int) < self@.idx(x as int, y as int),
                    forall|xx: int, yy: int|
                        0 <= yy < y && 0 <= xx < self@.w && self@.in_match(xx, yy) ==> list@.contains(
                            UVec2 { x: xx as u32, y: yy as u32 },
                        ),
                    forall|xx: int|
                        0 <= xx < x && self@.in_match(xx, y as int) ==> list@.contains(
                            UVec2 { x: xx as u32, y: y },
                        ),
                    forall|k1: int, k2: int|
                        0 <= k1 < k2 < list@.len() ==> self@.idx(list@[k1].x as int, list@[k1].y as int)
                            < self@.idx(list@[k2].x as int, list@[k2].y as int),
                decreases self@.w - x,
            {
                if self.in_match_at(x, y) {
                    let ghost before = list@;
                    list.push(UVec2 { x, y });
                    proof {
                        assert forall|xx: int, yy: int|
                            0 <= yy < y && 0 <= xx < self@.w && self@.in_match(xx, yy) implies list@.contains(
                                UVec2 { x: xx as u32, y: yy as u32 },
                            ) by {
                            let k = choose|k: int| 0 <= k < before.len() && before[k] == UVec2 { x: xx as u32, y: yy as u32 };
                            assert(list@[k] == before[k]);
                        }
                        assert forall|xx: int|
                            0 <= xx < x + 1 && self@.in_match(xx, y as int) implies list@.contains(
                                UVec2 { x: xx as u32, y: y },
                            ) by {
                            if xx < x {
                                let k = choose|k: int| 0 <= k < before.len() && before[k] == UVec2 { x: xx as u32, y: y };
                                assert(list@[k] == before[k]);
                            } else {
                                assert(list@[before.len() as int] == UVec2 { x: xx as u32, y: y });
                            }
                        }
                    }
                }
                proof {
                    assert(self@.idx(x as int, y as int) < self@.idx(x + 1, y as int));
                }
                x = x + 1;
            }
            proof {
                assert forall|k: int| 0 <= k < list@.len() implies list@[k].y < y + 1 by {
                    let p = list@[k];
                    if p.y > y {
                        assert(self@.idx(p.x as int, p.y as int) >= (y + 1) * self@.w) by (nonlinear_arith)
                            requires
                                p.y >= y + 1,
                                p.x >= 0,
                        ;
                        assert(self@.idx(x as int, y as int) == self@.w + y * self@.w);
                        assert((y + 1) * self@.w == self@.w + y * self@.w) by (nonlinear_arith);
                    }
                }
            }
            y = y + 1;
        }
        list
    }
}

/// The board with the gems at two positions exchanged.
pub open spec fn swapped(b: BoardView, p1: UVec2, p2: UVec2) -> BoardView {
    let i1 = b.idx(p1.x as int, p1.y as int);
    let i2 = b.idx(p2.x as int, p2.y as int);
    BoardView { gems: b.gems.update(i1, b.gems[i2]).update(i2, b.gems[i1]), ..b }
}

/// Whether a pop command names the position `(x, y)`.
pub open spec fn popped(positions: Seq<UVec2>, x: int, y: int) -> bool {
    positions.contains(UVec2 { x: x as u32, y: y as u32 })
}

/// The rows of column `x`, among the first `n`, whose gems stay, top down.
pub open spec fn kept_rows(positions: Seq<UVec2>, x: int, n: int) -> Seq<u32>
    decreases n,
{
    if n <= 0 {
        Seq::empty()
    } else {
        let prev = kept_rows(positions, x, n - 1);
        if popped(positions, x, n - 1) {
            prev
        } else {
            prev.push((n - 1) as u32)
        }
    }
}

/// How many new gems drop into column `x` of a board `h` rows high: one
/// per popped gem.
pub open spec fn fresh_in(positions: Seq<UVec2>, h: int, x: int) -> int {
    h - kept_rows(positions, x, h).len()
}

/// The board after a pop: in every column the gems that stay fall to the
/// bottom in their order, and the cells above them get new gems of the
/// board's kinds.
pub open spec fn fell(b: BoardView, positions: Seq<UVec2>, nb: BoardView) -> bool {
    &&& nb.w == b.w && nb.h == b.h && nb.types == b.types && nb.wf()
    &&& forall|x: int, y: int| b.in_board(x, y) ==> #[trigger] cell_fell(b, positions, nb, x, y)
}

/// The cell `(x, y)` after a pop: the gem that falls to it, or a new gem.
pub open spec fn cell_fell(b: BoardView, positions: Seq<UVec2>, nb: BoardView, x: int, y: int) -> bool {
    let k = kept_rows(positions, x, b.h as int);
    let f = fresh_in(positions, b.h as int, x);
    &&& y >= f ==> nb.gem(x, y) == b.gem(x, k[y - f] as int)
    &&& y < f ==> b.types.contains(nb.gem(x, y))
}

/// The gem that falls to `(x, y)` comes from another row.
pub open spec fn moves(positions: Seq<UVec2>, h: int, x: int, y: int) -> bool {
    let f = fresh_in(positions, h, x);
    y >= f && kept_rows(positions, x, h)[y - f] != y
}

/// The move of the gem that falls to `(x, y)`: from its old cell to it.
pub open spec fn drop_for(positions: Seq<UVec2>, h: int, x: int, y: int) -> (UVec2, UVec2) {
    let f = fresh_in(positions, h, x);
    (
        UVec2 { x: x as u32, y: kept_rows(positions, x, h)[y - f] },
        UVec2 { x: x as u32, y: y as u32 },
    )
}

/// The cell `(x, y)` as a position.
pub open spec fn cell_pos(x: int, y: int) -> UVec2 {
    UVec2 { x: x as u32, y: y as u32 }
}

/// A listed drop: a gem falling to a cell of the board from another row.
pub open spec fn is_drop(b: BoardView, positions: Seq<UVec2>, d: (UVec2, UVec2)) -> bool {
    &&& b.in_board(d.1.x as int, d.1.y as int)
    &&& moves(positions, b.h as int, d.1.x as int, d.1.y as int)
    &&& d == drop_for(positions, b.h as int, d.1.x as int, d.1.y as int)
}

/// The moves of a pop, as listed: each a gem falling from another row, and
/// every such fall listed.
pub open spec fn drops_listed(b: BoardView, positions: Seq<UVec2>, d: Seq<(UVec2, UVec2)>) -> bool {
    &&& forall|k: int| 0 <= k < d.len() ==> is_drop(b, positions, #[trigger] d[k])
    &&& forall|x: int, y: int|
        b.in_board(x, y) && moves(positions, b.h as int, x, y) ==> d.contains(
            #[trigger] drop_for(positions, b.h as int, x, y),
        )
}

/// The new gems of a pop, as listed: each at a cell above the gems that
/// stay, and every such cell listed with its gem.
pub open spec fn spawns_listed(
    b: BoardView,
    positions: Seq<UVec2>,
    nb: BoardView,
    s: Seq<(UVec2, u32)>,
) -> bool {
    &&& forall|k: int| 0 <= k < s.len() ==> is_spawn(b, positions, nb, #[trigger] s[k])
    &&& forall|x: int, y: int|
        b.in_board(x, y) && y < fresh_in(positions, b.h as int, x) ==> s.contains(
            (#[trigger] cell_pos(x, y), nb.gem(x, y)),
        )
}

/// A listed spawn: a new gem at a cell above the gems that stay.
pub open spec fn is_spawn(b: BoardView, positions: Seq<UVec2>, nb: BoardView, s: (UVec2, u32)) -> bool {
    &&& b.in_board(s.0.x as int, s.0.y as int)
    &&& s.0.y < fresh_in(positions, b.h as int, s.0.x as int)
    &&& s.1 == nb.gem(s.0.x as int, s.0.y as int)
}

proof fn lemma_kept_rows(positions: Seq<UVec2>, x: int, n: int)
    requires
        n >= 0,
        n <= u32::MAX + 1,
    ensures
        kept_rows(positions, x, n).len() <= n,
        forall|j: int|
            0 <= j < kept_rows(positions, x, n).len() ==> #[trigger] kept_rows(positions, x, n)[j]
                < n && j <= kept_rows(positions, x, n)[j],
        forall|j1: int, j2: int|
            0 <= j1 < j2 < kept_rows(positions, x, n).len() ==> kept_rows(positions, x, n)[j1]
                < kept_rows(positions, x, n)[j2],
    decreases n,
{
    if n > 0 {
        lemma_kept_rows(positions, x, n - 1);
    }
}

fn contains_pos(positions: &Vec<UVec2>, x: u32, y: u32) -> (r: bool)
    ensures
        r == popped(positions@, x as int, y as int),
{
    let mut i: usize = 0;
    while i < positions.len()
        invariant
            i <= positions@.len(),
            forall|k: int| 0 <= k < i ==> positions@[k] != (UVec2 { x, y }),
        decreases positions@.len() - i,
    {
        let p = positions[i];
        if p.x == x && p.y == y {
            assert(positions@[i as int] == UVec2 { x, y });
            return true;
        }
        i = i + 1;
    }
    false
}

impl Board {
    fn set_gem(&mut self, x: u32, y: u32, g: u32)
        requires
            old(self)@.wf(),
            old(self)@.in_board(x as int, y as int),
        ensures
            final(self)@ == (BoardView {
                gems: old(self)@.gems.update(old(self)@.idx(x as int, y as int), g),
                ..old(self)@
            }),
            final(self)@.wf(),
    {
        // the vector's length bounds the index arithmetic below
        let _len = self.gems.len();
        proof {
            lemma_flat(x as int, y as int, self@.w as int, self@.h as int);
        }
        self.gems.set(x as usize + y as usize * self.width as usize, g);
    }

    /// Exchanges the gems at `pos1` and `pos2`, and keeps the exchange only
    /// when it lines up three or more equal gems somewhere. Answers whether
    /// it was kept. A position off the board exchanges nothing.
    pub fn swap(&mut self, pos1: UVec2, pos2: UVec2) -> (r: bool)
        requires
            old(self)@.wf(),
        ensures
            final(self)@.wf(),
            final(self)@.w == old(self)@.w && final(self)@.h == old(self)@.h,
            final(self)@.types == old(self)@.types,
            !(old(self)@.in_board(pos1.x as int, pos1.y as int) && old(self)@.in_board(
                pos2.x as int,
                pos2.y as int,
            )) ==> !r && final(self)@.gems == old(self)@.gems,
            old(self)@.in_board(pos1.x as int, pos1.y as int) && old(self)@.in_board(
                pos2.x as int,
                pos2.y as int,
            ) ==> {
                &&& r == swapped(old(self)@, pos1, pos2).has_match()
                &&& r ==> final(self)@.gems == swapped(old(self)@, pos1, pos2).gems
                &&& !r ==> final(self)@.gems == old(self)@.gems
            },
    {
        if !(pos1.x < self.width && pos1.y < self.height && pos2.x < self.width && pos2.y
            < self.height) {
            return false;
        }
        let ghost b = self@;
        let g1 = self.gem_at(pos1.x, pos1.y);
        let g2 = self.gem_at(pos2.x, pos2.y);
        self.set_gem(pos1.x, pos1.y, g2);
        self.set_gem(pos2.x, pos2.y, g1);
        proof {
            lemma_flat(pos1.x as int, pos1.y as int, b.w as int, b.h as int);
            lemma_flat(pos2.x as int, pos2.y as int, b.w as int, b.h as int);
            assert(self@.gems =~= swapped(b, pos1, pos2).gems);
        }
        if self.find_match() {
            true
        } else {
            self.set_gem(pos1.x, pos1.y, g1);
            self.set_gem(pos2.x, pos2.y, g2);
            proof {
                assert(self@.gems =~= b.gems);
            }
            false
        }
    }
}

/// Two positions on a board share their index only if they are the same.
proof fn lemma_idx_injective(b: BoardView, x1: int, y1: int, x2: int, y2: int)
    requires
        b.in_board(x1, y1),
        b.in_board(x2, y2),
        b.idx(x1, y1) == b.idx(x2, y2),
    ensures
        x1 == x2 && y1 == y2,
{
    lemma_flat(x1, y1, b.w as int, b.h as int);
    lemma_flat(x2, y2, b.w as int, b.h as int);
}

impl Board {
    /// Pops the gems at `positions` (positions off the board are ignored):
    /// in every column the gems that stay fall to the bottom, in their
    /// order, and new gems of the board's kinds drop in above them.
    /// Answers the moves of the gems that fell, as (from, to), and the new
    /// gems with their cells.
    pub fn pop(&mut self, positions: &Vec<UVec2>) -> (r: (Vec<(UVec2, UVec2)>, Vec<(UVec2, u32)>))
        requires
            old(self)@.wf(),
            old(self)@.types.len() > 0,
        ensures
            fell(old(self)@, positions@, final(self)@),
            drops_listed(old(self)@, positions@, r.0@),
            spawns_listed(old(self)@, positions@, final(self)@, r.1@),
    {
        let ghost b = self@;
        let h = self.height;
        let w = self.width;
        let mut drops: Vec<(UVec2, UVec2)> = Vec::new();
        let mut spawns: Vec<(UVec2, u32)> = Vec::new();
        let mut x: u32 = 0;
        while x < w
            invariant
                b.wf(),
                b.types.len() > 0,
                w == b.w,
                h == b.h,
                self@.wf(),
                self@.w == b.w,
                self@.h == b.h,
                self@.types == b.types,
                x <= w,
                forall|xx: int, yy: int|
                    0 <= xx < x && 0 <= yy < h ==> #[trigger] cell_fell(b, positions@, self@, xx, yy),
                forall|xx: int, yy: int|
                    x <= xx < w && 0 <= yy < h ==> #[trigger] self@.gem(xx, yy) == b.gem(xx, yy),
                forall|k: int|
                    0 <= k < drops@.len() ==> is_drop(b, positions@, #[trigger] drops@[k]) && drops@[k].1.x < x,
                forall|xx: int, yy: int|
                    0 <= xx < x && 0 <= yy < h && moves(positions@, h as int, xx, yy) ==> drops@.contains(
                        #[trigger] drop_for(positions@, h as int, xx, yy),
                    ),
                forall|k: int|
                    0 <= k < spawns@.len() ==> is_spawn(b, positions@, self@, #[trigger] spawns@[k])
                        && spawns@[k].0.x < x,
                forall|xx: int, yy: int|
                    0 <= xx < x && 0 <= yy < h && yy < fresh_in(positions@, h as int, xx)
                        ==> spawns@.contains((#[trigger] cell_pos(xx, yy), self@.gem(xx, yy))),
            decreases w - x,
        {
            // the gems of column `x` that stay, top down
            let mut kept_y: Vec<u32> = Vec::new();
            let mut kept_g: Vec<u32> = Vec::new();
            let mut y: u32 = 0;
            while y < h
                invariant
                    b.wf(),
                    w == b.w,
                    h == b.h,
                    x < w,
                    self@.wf(),
                    self@.w == b.w,
                    self@.h == b.h,
                    forall|xx: int, yy: int|
                        x <= xx < w && 0 <= yy < h ==> #[trigger] self@.gem(xx, yy) == b.gem(xx, yy),
                    y <= h,
                    kept_y@ == kept_rows(positions@, x as int, y as int),
                    kept_g@.len() == kept_y@.len(),
                    forall|j: int|
                        0 <= j < kept_y@.len() ==> #[trigger] kept_g@[j] == b.gem(x as int, kept_y@[j] as int),
                decreases h - y,
            {
                proof {
                    lemma_kept_rows(positions@, x as int, y as int);
                }
                if !contains_pos(positions, x, y) {
                    assert(self@.gem(x as int, y as int) == b.gem(x as int, y as int));
                    let g = self.gem_at(x, y);
                    kept_y.push(y);
                    kept_g.push(g);
                }
                y = y + 1;
            }
            proof {
                lemma_kept_rows(positions@, x as int, h as int);
            }
            let fresh = h - kept_y.len() as u32;
            let ghost k = kept_y@;
            let ghost s0 = self@;
            let ghost d0 = drops@;
            let ghost sp0 = spawns@;
            assert(fresh == fresh_in(positions@, h as int, x as int));
            let mut y: u32 = 0;
            while y < h
                invariant
                    b.wf(),
                    b.types.len() > 0,
                    w == b.w,
                    h == b.h,
                    x < w,
                    self@.wf(),
                    self@.w == b.w,
                    self@.h == b.h,
                    self@.types == b.types,
                    y <= h,
                    k == kept_rows(positions@, x as int, h as int),
                    kept_y@ == k,
                    kept_g@.len() == k.len(),
                    fresh == h - k.len(),
                    fresh == fresh_in(positions@, h as int, x as int),
                    forall|j: int|
                        0 <= j < k.len() ==> #[trigger] kept_g@[j] == b.gem(x as int, k[j] as int),
                    forall|j: int| 0 <= j < k.len() ==> #[trigger] k[j] < h && j <= k[j],
                    forall|yy: int| 0 <= yy < y ==> #[trigger] cell_fell(b, positions@, self@, x as int, yy),
                    d0.len() <= drops@.len(),
                    forall|j: int| 0 <= j < d0.len() ==> #[trigger] drops@[j] == d0[j],
                    forall|j: int|
                        d0.len() <= j < drops@.len() ==> is_drop(b, positions@, #[trigger] drops@[j])
                            && drops@[j].1.x == x,
                    forall|yy: int|
                        0 <= yy < y && moves(positions@, h as int, x as int, yy) ==> drops@.contains(
                            #[trigger] drop_for(positions@, h as int, x as int, yy),
                        ),
                    sp0.len() <= spawns@.len(),
                    forall|j: int| 0 <= j < sp0.len() ==> #[trigger] spawns@[j] == sp0[j],
                    forall|j: int|
                        sp0.len() <= j < spawns@.len() ==> is_spawn(b, positions@, self@, #[trigger] spawns@[j])
                            && spawns@[j].0.x == x && spawns@[j].0.y < y,
                    forall|yy: int|
                        0 <= yy < y && yy < fresh ==> spawns@.contains(
                            (#[trigger] cell_pos(x as int, yy), self@.gem(x as int, yy)),
                        ),
                    forall|xx: int, yy: int|
                        0 <= xx < w && xx != x && 0 <= yy < h ==> #[trigger] self@.gem(xx, yy) == s0.gem(xx, yy),
                decreases h - y,
            {
                let ghost before = self@;
                let ghost dbefore = drops@;
                let ghost spbefore = spawns@;
                let g = if y < fresh {
                    rand_choose(&self.types).unwrap()
                } else {
                    kept_g[(y - fresh) as usize]
                };
                self.set_gem(x, y, g);
                proof {
                    assert forall|xx: int, yy: int|
                        0 <= xx < w && 0 <= yy < h && !(xx == x && yy == y) implies #[trigger] self@.gem(
                            xx,
                            yy,
                        ) == before.gem(xx, yy) by {
                        lemma_flat(xx, yy, w as int, h as int);
                        lemma_flat(x as int, y as int, w as int, h as int);
                        if b.idx(xx, yy) == b.idx(x as int, y as int) {
                            lemma_idx_injective(b, xx, yy, x as int, y as int);
                        }
                        assert(self@.gems[b.idx(xx, yy)] == before.gems[b.idx(xx, yy)]);
                    }
                    lemma_flat(x as int, y as int, w as int, h as int);
                    assert(self@.gem(x as int, y as int) == g);
                    assert(cell_fell(b, positions@, self@, x as int, y as int));
                }
                if y < fresh {
                    spawns.push((UVec2 { x, y }, g));
                } else {
                    let j = (y - fresh) as usize;
                    if kept_y[j] != y {
                        drops.push((UVec2 { x, y: kept_y[j] }, UVec2 { x, y }));
                    }
                }
                proof {
                    assert forall|e: (UVec2, UVec2)| dbefore.contains(e) implies drops@.contains(e) by {
                        let i = choose|i: int| 0 <= i < dbefore.len() && dbefore[i] == e;
                        assert(drops@[i] == dbefore[i]);
                    }
                    assert forall|e: (UVec2, u32)| spbefore.contains(e) implies spawns@.contains(e) by {
                        let i = choose|i: int| 0 <= i < spbefore.len() && spbefore[i] == e;
                        assert(spawns@[i] == spbefore[i]);
                    }
                    assert forall|yy: int| 0 <= yy < y + 1 implies #[trigger] cell_fell(
                        b,
                        positions@,
                        self@,
                        x as int,
                        yy,
                    ) by {
                        if yy < y {
                            assert(cell_fell(b, positions@, before, x as int, yy));
                            assert(self@.gem(x as int, yy) == before.gem(x as int, yy));
                        }
                    }
                    assert forall|yy: int|
                        0 <= yy < y + 1 && moves(positions@, h as int, x as int, yy) implies drops@.contains(
                            #[trigger] drop_for(positions@, h as int, x as int, yy),
                        ) by {
                        if yy < y {
                            assert(dbefore.contains(drop_for(positions@, h as int, x as int, yy)));
                        } else {
                            assert(drops@[drops@.len() - 1] == drop_for(positions@, h as int, x as int, yy));
                        }
                    }
                    assert forall|yy: int|
                        0 <= yy < y + 1 && yy < fresh implies spawns@.contains(
                            (#[trigger] cell_pos(x as int, yy), self@.gem(x as int, yy)),
                        ) by {
                        if yy < y {
                            assert(self@.gem(x as int, yy) == before.gem(x as int, yy));
                            assert(spbefore.contains((cell_pos(x as int, yy), before.gem(x as int, yy))));
                        } else {
                            assert(spawns@[spawns@.len() - 1] == (cell_pos(x as int, yy), self@.gem(x as int, yy)));
                        }
                    }
                    assert forall|j: int|
                        sp0.len() <= j < spawns@.len() implies is_spawn(b, positions@, self@, #[trigger] spawns@[j])
                            && spawns@[j].0.x == x && spawns@[j].0.y < y + 1 by {
                        if j < spbefore.len() {
                            assert(spawns@[j] == spbefore[j]);
                            assert(is_spawn(b, positions@, before, spbefore[j]));
                            let p = spbefore[j].0;
                            assert(self@.gem(p.x as int, p.y as int) == before.gem(p.x as int, p.y as int));
                        }
                    }
                    assert forall|j: int|
                        d0.len() <= j < drops@.len() implies is_drop(b, positions@, #[trigger] drops@[j])
                            && drops@[j].1.x == x by {
                        if j < dbefore.len() {
                            assert(drops@[j] == dbefore[j]);
                        }
                    }
                }
                y = y + 1;
            }
            proof {
                assert forall|xx: int, yy: int|
                    0 <= xx < x + 1 && 0 <= yy < h implies #[trigger] cell_fell(b, positions@, self@, xx, yy) by {
                    if xx < x {
                        assert(cell_fell(b, positions@, s0, xx, yy));
                        assert(self@.gem(xx, yy) == s0.gem(xx, yy));
                    }
                }
                assert forall|kk: int|
                    0 <= kk < spawns@.len() implies is_spawn(b, positions@, self@, #[trigger] spawns@[kk])
                        && spawns@[kk].0.x < x + 1 by {
                    if kk < sp0.len() {
                        assert(spawns@[kk] == sp0[kk]);
                        assert(is_spawn(b, positions@, s0, sp0[kk]));
                        let p = sp0[kk].0;
                        assert(self@.gem(p.x as int, p.y as int) == s0.gem(p.x as int, p.y as int));
                    }
                }
                assert forall|xx: int, yy: int|
                    0 <= xx < x + 1 && 0 <= yy < h && yy < fresh_in(positions@, h as int, xx) implies spawns@.contains(
                        (#[trigger] cell_pos(xx, yy), self@.gem(xx, yy)),
                    ) by {
                    if xx < x {
                        assert(sp0.contains((cell_pos(xx, yy), s0.gem(xx, yy))));
                        let i = choose|i: int| 0 <= i < sp0.len() && sp0[i] == (cell_pos(xx, yy), s0.gem(xx, yy));
                        assert(spawns@[i] == sp0[i]);
                        assert(self@.gem(xx, yy) == s0.gem(xx, yy));
                    }
                }
                assert forall|xx: int, yy: int|
                    0 <= xx < x + 1 && 0 <= yy < h && moves(positions@, h as int, xx, yy) implies drops@.contains(
                        #[trigger] drop_for(positions@, h as int, xx, yy),
                    ) by {
                    if xx < x {
                        assert(d0.contains(drop_for(positions@, h as int, xx, yy)));
                        let i = choose|i: int| 0 <= i < d0.len() && d0[i] == drop_for(positions@, h as int, xx, yy);
                        assert(drops@[i] == d0[i]);
                    }
                }
                assert forall|kk: int|
                    0 <= kk < drops@.len() implies is_drop(b, positions@, #[trigger] drops@[kk]) && drops@[kk].1.x
                        < x + 1 by {
                    if kk < d0.len() {
                        assert(drops@[kk] == d0[kk]);
                    }
                }
            }
            x = x + 1;
        }
        (drops, spawns)
    }
}

impl Board {
    /// A board of the configured size filled with random gems, each drawn
    /// below `gem_types`; those are also the kinds new gems are drawn from.
    /// A board needs at least three kinds.
    pub fn new_random(config: Match3Config) -> (r: Board)
        requires
            config.gem_types >= 3,
            config.board_dimensions.x * config.board_dimensions.y <= usize::MAX,
        ensures
            r@.wf(),
            r@.w == config.board_dimensions.x,
            r@.h == config.board_dimensions.y,
            r@.types == Seq::new(config.gem_types as nat, |i: int| i as u32),
            forall|i: int| 0 <= i < r@.gems.len() ==> #[trigger] r@.gems[i] < config.gem_types,
    {
        let w = config.board_dimensions.x;
        let h = config.board_dimensions.y;
        let n = (w as usize) * (h as usize);
        let mut gems: Vec<u32> = Vec::new();
        let mut i: usize = 0;
        while i < n
            invariant
                i <= n,
                config.gem_types >= 3,
                gems@.len() == i,
                forall|k: int| 0 <= k < i ==> #[trigger] gems@[k] < config.gem_types,
            decreases n - i,
        {
            gems.push(fast_u32(0, config.gem_types));
            i = i + 1;
        }
        let mut types: Vec<u32> = Vec::new();
        let mut t: u32 = 0;
        while t < config.gem_types
            invariant
                t <= config.gem_types,
                types@ == Seq::new(t as nat, |i: int| i as u32),
            decreases config.gem_types - t,
        {
            types.push(t);
            t = t + 1;
            assert(types@ =~= Seq::new(t as nat, |i: int| i as u32));
        }
        Board { width: w, height: h, gems, types }
    }

    /// One pass of clearing the lines of a new board: every gem in a line
    /// of three or more is replaced by a random gem of the board's kinds.
    /// Answers whether there was a line; a new board is ready once a pass
    /// finds none.
    pub fn reroll_matches(&mut self) -> (r: bool)
        requires
            old(self)@.wf(),
            old(self)@.types.len() > 0,
        ensures
            final(self)@.wf(),
            final(self)@.w == old(self)@.w && final(self)@.h == old(self)@.h,
            final(self)@.types == old(self)@.types,
            r == old(self)@.has_match(),
            forall|x: int, y: int|
                old(self)@.in_board(x, y) ==> {
                    &&& !old(self)@.in_match(x, y) ==> #[trigger] final(self)@.gem(x, y) == old(self)@.gem(x, y)
                    &&& old(self)@.in_match(x, y) ==> old(self)@.types.contains(final(self)@.gem(x, y))
                },
    {
        let ghost b = self@;
        let matches = self.get_matches();
        let mut i: usize = 0;
        while i < matches.len()
            invariant
                b.wf(),
                b.types.len() > 0,
                is_match_list(b, matches@),
                i <= matches@.len(),
                self@.wf(),
                self@.w == b.w && self@.h == b.h && self@.types == b.types,
                forall|x: int, y: int|
                    b.in_board(x, y) ==> {
                        &&& matches@.take(i as int).contains(cell_pos(x, y)) ==> b.types.contains(
                            #[trigger] self@.gem(x, y),
                        )
                        &&& !matches@.take(i as int).contains(cell_pos(x, y)) ==> self@.gem(x, y) == b.gem(x, y)
                    },
            decreases matches@.len() - i,
        {
            let p = matches[i];
            let g = rand_choose(&self.types).unwrap();
            let ghost before = self@;
            self.set_gem(p.x, p.y, g);
            proof {
                assert(b.in_board(p.x as int, p.y as int));
                assert(matches@.take(i + 1) =~= matches@.take(i as int).push(p));
                assert forall|x: int, y: int| b.in_board(x, y) implies {
                    &&& matches@.take(i + 1).contains(cell_pos(x, y)) ==> b.types.contains(
                        #[trigger] self@.gem(x, y),
                    )
                    &&& !matches@.take(i + 1).contains(cell_pos(x, y)) ==> self@.gem(x, y) == b.gem(x, y)
                } by {
                    lemma_flat(x, y, b.w as int, b.h as int);
                    lemma_flat(p.x as int, p.y as int, b.w as int, b.h as int);
                    lemma_push_contains_pos(matches@.take(i as int), p, cell_pos(x, y));
                    if x == p.x && y == p.y {
                        assert(cell_pos(x, y) == p);
                    } else {
                        if b.idx(x, y) == b.idx(p.x as int, p.y as int) {
                            lemma_idx_injective(b, x, y, p.x as int, p.y as int);
                        }
                        assert(self@.gem(x, y) == before.gem(x, y));
                        assert(cell_pos(x, y) != p);
                    }
                }
            }
            i = i + 1;
        }
        proof {
            assert(matches@.take(i as int) =~= matches@);
            assert forall|x: int, y: int| b.in_board(x, y) && b.in_match(x, y) implies matches@.contains(
                cell_pos(x, y),
            ) by {}
        }
        let had = matches.len() > 0;
        proof {
            if had {
                let p = matches@[0];
                assert(b.in_match(p.x as int, p.y as int));
                let (px, py) = (p.x as int, p.y as int);
                if b.run_h(px, py) {
                } else if b.run_h(px - 1, py) {
                } else if b.run_h(px - 2, py) {
                } else if b.run_v(px, py) {
                } else if b.run_v(px, py - 1) {
                } else {
                    assert(b.run_v(px, py - 2));
                }
            } else {
                assert forall|x: int, y: int| !(#[trigger] b.run_h(x, y) || b.run_v(x, y)) by {
                    if b.run_h(x, y) {
                        assert(b.in_match(x, y));
                        assert(matches@.contains(cell_pos(x, y)));
                    }
                    if b.run_v(x, y) {
                        assert(b.in_match(x, y));
                        assert(matches@.contains(cell_pos(x, y)));
                    }
                }
            }
        }
        had
    }

    /// Shuffles the gems over the board (by random swaps, from the last
    /// cell down). Answers each gem's move as (from, to), one per cell.
    pub fn shuffle(&mut self) -> (r: Vec<(UVec2, UVec2)>)
        requires
            old(self)@.wf(),
        ensures
            final(self)@.wf(),
            final(self)@.w == old(self)@.w && final(self)@.h == old(self)@.h,
            final(self)@.types == old(self)@.types,
            final(self)@.gems.to_multiset() == old(self)@.gems.to_multiset(),
            r@.len() == old(self)@.gems.len(),
            forall|i: int|
                0 <= i < r@.len() ==> {
                    &&& (#[trigger] r@[i]).1 == pos_of(i, old(self)@.w as int)
                    &&& old(self)@.in_board(r@[i].0.x as int, r@[i].0.y as int)
                    &&& final(self)@.gems[i] == old(self)@.gem(r@[i].0.x as int, r@[i].0.y as int)
                },
    {
        let ghost b = self@;
        let n = self.gems.len();
        let mut origin: Vec<usize> = Vec::new();
        let mut k: usize = 0;
        while k < n
            invariant
                k <= n,
                origin@ == Seq::new(k as nat, |i: int| i as usize),
            decreases n - k,
        {
            origin.push(k);
            k = k + 1;
            assert(origin@ =~= Seq::new(k as nat, |i: int| i as usize));
        }
        if n >= 2 {
            let mut i: usize = n - 1;
            while i >= 1
                invariant
                    n >= 2,
                    i < n,
                    n == b.gems.len(),
                    self@.wf(),
                    self@.w == b.w && self@.h == b.h && self@.types == b.types,
                    self@.gems.len() == n,
                    origin@.len() == n,
                    self@.gems.to_multiset() == b.gems.to_multiset(),
                    forall|j: int|
                        0 <= j < n ==> #[trigger] origin@[j] < n && self@.gems[j] == b.gems[origin@[j] as int],
                decreases i,
            {
                let j = fast_usize_upto(i);
                let ghost before = self@.gems;
                let a = self.gems[i];
                let c = self.gems[j];
                self.gems.set(i, c);
                self.gems.set(j, a);
                let oa = origin[i];
                let oc = origin[j];
                origin.set(i, oc);
                origin.set(j, oa);
                proof {
                    vstd::seq_lib::to_multiset_update(before, i as int, c);
                    vstd::seq_lib::to_multiset_update(before.update(i as int, c), j as int, a);
                    before.to_multiset_ensures();
                    assert(before.contains(a));
                    assert(before.update(i as int, c)[j as int] == c);
                    lemma_ms_swap(before.to_multiset(), a, c);
                    assert(self@.gems.to_multiset() =~= before.to_multiset());
                }
                i = i - 1;
            }
        }
        let mut moves: Vec<(UVec2, UVec2)> = Vec::new();
        let w = self.width;
        let mut t: usize = 0;
        while t < n
            invariant
                t <= n,
                n == b.gems.len(),
                b.wf(),
                w == b.w,
                self@.gems.len() == n,
                origin@.len() == n,
                forall|j: int|
                    0 <= j < n ==> #[trigger] origin@[j] < n && self@.gems[j] == b.gems[origin@[j] as int],
                moves@.len() == t,
                forall|q: int|
                    0 <= q < t ==> {
                        &&& (#[trigger] moves@[q]).1 == pos_of(q, b.w as int)
                        &&& moves@[q].0 == pos_of(origin@[q] as int, b.w as int)
                    },
            decreases n - t,
        {
            proof {
                assert(w > 0) by (nonlinear_arith)
                    requires
                        n == w * b.h,
                        t < n,
                ;
                vstd::arithmetic::div_mod::lemma_div_is_ordered_by_denominator(t as int, 1, w as int);
                vstd::arithmetic::div_mod::lemma_div_is_ordered_by_denominator(origin@[t as int] as int, 1, w as int);
            }
            let o = origin[t];
            moves.push((UVec2 { x: (o % w as usize) as u32, y: (o / w as usize) as u32 }, UVec2 {
                x: (t % w as usize) as u32,
                y: (t / w as usize) as u32,
            }));
            t = t + 1;
        }
        proof {
            assert forall|q: int| 0 <= q < moves@.len() implies b.in_board(
                (#[trigger] moves@[q]).0.x as int,
                moves@[q].0.y as int,
            ) && self@.gems[q] == b.gem(moves@[q].0.x as int, moves@[q].0.y as int) by {
                let o = origin@[q] as int;
                let wi = b.w as int;
                let hi = b.h as int;
                assert(o < wi * hi);
                assert(wi > 0) by (nonlinear_arith)
                    requires
                        0 <= o < wi * hi,
                        hi >= 0,
                ;
                vstd::arithmetic::div_mod::lemma_fundamental_div_mod(o, wi);
                vstd::arithmetic::div_mod::lemma_mod_bound(o, wi);
                assert(0 <= o / wi < hi) by (nonlinear_arith)
                    requires
                        0 <= o < wi * hi,
                        wi > 0,
                        o == wi * (o / wi) + o % wi,
                        0 <= o % wi < wi,
                ;
                assert((o % wi) + (o / wi) * wi == o) by (nonlinear_arith)
                    requires
                        o == wi * (o / wi) + o % wi,
                ;
                assert(moves@[q].0 == pos_of(o, wi));
                assert(moves@[q].0.x as int == o % wi);
                assert(moves@[q].0.y as int == o / wi);
            }
        }
        moves
    }
}

proof fn lemma_push_contains_pos(s: Seq<UVec2>, e: UVec2, x: UVec2)
    ensures
        s.push(e).contains(x) == (s.contains(x) || x == e),
{
    if s.push(e).contains(x) {
        let k = choose|k: int| 0 <= k < s.push(e).len() && s.push(e)[k] == x;
        if k < s.len() {
            assert(s[k] == x);
        }
    }
    if s.contains(x) {
        let k = choose|k: int| 0 <= k < s.len() && s[k] == x;
        assert(s.push(e)[k] == x);
    }
    if x == e {
        assert(s.push(e)[s.len() as int] == x);
    }
}

/// What the game asks of the board.
#[derive(Clone, Debug)]
pub enum BoardCommand {
    /// Exchange two gems.
    Swap(UVec2, UVec2),
    /// Pop the gems at these positions.
    Pop(Vec<UVec2>),
    /// Shuffle every gem.
    Shuffle,
}

/// What the board tells the game it did.
#[derive(Clone, Debug)]
pub enum BoardEvent {
    Swapped(UVec2, UVec2),
    FailedSwap(UVec2, UVec2),
    Popped(UVec2),
    /// The gems in lines of three or more, which the game pops next.
    Matched(Vec<UVec2>),
    /// Gems that fell, as (from, to).
    Dropped(Vec<(UVec2, UVec2)>),
    /// New gems and their cells.
    Spawned(Vec<(UVec2, u32)>),
    /// Every gem's move, as (from, to).
    Shuffled(Vec<(UVec2, UVec2)>),
}

/// Carries out a command and answers the events it led to. A swap that
/// lines up three is reported with the lines it made; one that does not is
/// undone and reported as failed. A pop reports each position named, then
/// the falls and the new gems, then the new lines if the fall made any. A
/// shuffle reports every gem's move.
pub fn read_command(board: &mut Board, command: BoardCommand) -> (r: Vec<BoardEvent>)
    requires
        old(board)@.wf(),
        old(board)@.types.len() > 0,
    ensures
        final(board)@.wf(),
        final(board)@.w == old(board)@.w && final(board)@.h == old(board)@.h,
        final(board)@.types == old(board)@.types,
        command matches BoardCommand::Swap(p1, p2) ==> {
            let both = old(board)@.in_board(p1.x as int, p1.y as int) && old(board)@.in_board(
                p2.x as int,
                p2.y as int,
            );
            let kept = both && swapped(old(board)@, p1, p2).has_match();
            &&& kept ==> final(board)@.gems == swapped(old(board)@, p1, p2).gems && r@.len() == 2
                && r@[0] == BoardEvent::Swapped(p1, p2) && (r@[1] matches BoardEvent::Matched(ms)
                && is_match_list(final(board)@, ms@))
            &&& !kept ==> final(board)@.gems == old(board)@.gems && r@ == seq![
                BoardEvent::FailedSwap(p1, p2),
            ]
        },
        command matches BoardCommand::Pop(ps) ==> {
            let n = ps@.len() as int;
            &&& fell(old(board)@, ps@, final(board)@)
            &&& r@.len() == n + 2 + (if final(board)@.has_match() {
                1int
            } else {
                0int
            })
            &&& forall|k: int| 0 <= k < n ==> r@[k] == BoardEvent::Popped(#[trigger] ps@[k])
            &&& r@[n] matches BoardEvent::Dropped(d) && drops_listed(old(board)@, ps@, d@)
            &&& r@[n + 1] matches BoardEvent::Spawned(sp) && spawns_listed(
                old(board)@,
                ps@,
                final(board)@,
                sp@,
            )
            &&& final(board)@.has_match() ==> (r@[n + 2] matches BoardEvent::Matched(ms)
                && is_match_list(final(board)@, ms@))
        },
        command matches BoardCommand::Shuffle ==> {
            &&& final(board)@.gems.to_multiset() == old(board)@.gems.to_multiset()
            &&& r@.len() == 1
            &&& r@[0] matches BoardEvent::Shuffled(moves) && moves@.len() == old(board)@.gems.len()
                && forall|i: int|
                0 <= i < moves@.len() ==> {
                    &&& (#[trigger] moves@[i]).1 == pos_of(i, old(board)@.w as int)
                    &&& old(board)@.in_board(moves@[i].0.x as int, moves@[i].0.y as int)
                    &&& final(board)@.gems[i] == old(board)@.gem(
                        moves@[i].0.x as int,
                        moves@[i].0.y as int,
                    )
                }
        },
{
    let mut events: Vec<BoardEvent> = Vec::new();
    match command {
        BoardCommand::Swap(p1, p2) => {
            if board.swap(p1, p2) {
                events.push(BoardEvent::Swapped(p1, p2));
                let ms = board.get_matches();
                events.push(BoardEvent::Matched(ms));
            } else {
                events.push(BoardEvent::FailedSwap(p1, p2));
                assert(events@ =~= seq![BoardEvent::FailedSwap(p1, p2)]);
            }
        },
        BoardCommand::Pop(ps) => {
            let mut k: usize = 0;
            while k < ps.len()
                invariant
                    k <= ps@.len(),
                    events@.len() == k,
                    forall|j: int| 0 <= j < k ==> events@[j] == BoardEvent::Popped(#[trigger] ps@[j]),
                decreases ps@.len() - k,
            {
                events.push(BoardEvent::Popped(ps[k]));
                k = k + 1;
            }
            let (drops, spawns) = board.pop(&ps);
            events.push(BoardEvent::Dropped(drops));
            events.push(BoardEvent::Spawned(spawns));
            if board.find_match() {
                let ms = board.get_matches();
                events.push(BoardEvent::Matched(ms));
            }
        },
        BoardCommand::Shuffle => {
            let moves = board.shuffle();
            events.push(BoardEvent::Shuffled(moves));
        },
    }
    events
}

/// The command an event calls for: the gems of reported lines are popped
/// next; no other event calls for one.
pub fn follow_up(event: &BoardEvent) -> (r: Option<BoardCommand>)
    ensures
        event matches BoardEvent::Matched(ms) ==> (r matches Some(BoardCommand::Pop(ps)) && ps@
            == ms@),
        !(event is Matched) ==> r is None,
{
    match event {
        BoardEvent::Matched(ms) => Some(BoardCommand::Pop(ms.clone())),
        _ => None,
    }
}

/// With no position popped, every row of a column stays.
proof fn lemma_kept_rows_none(x: int, n: int)
    requires
        0 <= n <= u32::MAX + 1,
    ensures
        kept_rows(Seq::empty(), x, n) == Seq::new(n as nat, |i: int| i as u32),
    decreases n,
{
    if n > 0 {
        lemma_kept_rows_none(x, n - 1);
        assert(!popped(Seq::empty(), x, n - 1));
        assert(kept_rows(Seq::empty(), x, n) =~= Seq::new(n as nat, |i: int| i as u32));
    } else {
        assert(kept_rows(Seq::empty(), x, n) =~= Seq::new(n as nat, |i: int| i as u32));
    }
}

/// Popping nothing leaves every gem where it was.
pub proof fn law_pop_nothing(b: BoardView, nb: BoardView)
    requires
        b.wf(),
        b.h <= u32::MAX,
        fell(b, Seq::empty(), nb),
    ensures
        nb.gems == b.gems,
{
    assert forall|i: int| 0 <= i < b.gems.len() implies nb.gems[i] == b.gems[i] by {
        let w = b.w as int;
        let h = b.h as int;
        assert(w > 0) by (nonlinear_arith)
            requires
                0 <= i < w * h,
                h >= 0,
        ;
        let x = i % w;
        let y = i / w;
        vstd::arithmetic::div_mod::lemma_fundamental_div_mod(i, w);
        vstd::arithmetic::div_mod::lemma_mod_bound(i, w);
        assert(0 <= y < h) by (nonlinear_arith)
            requires
                0 <= i < w * h,
                w > 0,
                i == w * y + x,
                0 <= x < w,
        ;
        assert(x + y * w == i) by (nonlinear_arith)
            requires
                i == w * y + x,
        ;
        lemma_kept_rows_none(x, h);
        assert(cell_fell(b, Seq::empty(), nb, x, y));
    }
    assert(nb.gems =~= b.gems);
}

} // verus!
