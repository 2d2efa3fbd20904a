//! Maze generation: a growing-tree carver over a doubled-resolution grid of
//! wall tiles, compressed into one set of wall flags per maze cell.

use vstd::prelude::*;
use crate::geometry::IVec2;
use crate::random::{rand_below, rand_coin};

verus! {

/// The walls around one maze cell.
#[derive(Clone, Copy, Debug, PartialEq, Eq, Structural)]
pub struct CollisionFlags {
    pub up: bool,
    pub down: bool,
    pub left: bool,
    pub right: bool,
}

/// How many of the four walls are standing.
pub open spec fn wall_count(f: CollisionFlags) -> nat {
    (if f.up { 1nat } else { 0nat }) + (if f.down { 1nat } else { 0nat }) + (if f.left {
        1nat
    } else {
        0nat
    }) + (if f.right { 1nat } else { 0nat })
}

/// The bit pattern of the flags: up 1, down 2, left 4, right 8.
pub open spec fn flag_bits(f: CollisionFlags) -> nat {
    (if f.up { 1nat } else { 0nat }) + (if f.down { 2nat } else { 0nat }) + (if f.left {
        4nat
    } else {
        0nat
    }) + (if f.right { 8nat } else { 0nat })
}

impl CollisionFlags {
    /// No wall at all.
    pub fn none() -> (r: CollisionFlags)
        ensures
            !r.up && !r.down && !r.left && !r.right,
    {
        CollisionFlags { up: false, down: false, left: false, right: false }
    }

    /// The number of walls set.
    pub fn count_ones(self) -> (r: u32)
        ensures
            r == wall_count(self),
    {
        let mut n: u32 = 0;
        if self.up {
            n = n + 1;
        }
        if self.down {
            n = n + 1;
        }
        if self.left {
            n = n + 1;
        }
        if self.right {
            n = n + 1;
        }
        n
    }

    /// The flags as bits: up 1, down 2, left 4, right 8.
    pub fn bits(self) -> (r: u32)
        ensures
            r == flag_bits(self),
    {
        let mut n: u32 = 0;
        if self.up {
            n = n + 1;
        }
        if self.down {
            n = n + 2;
        }
        if self.left {
            n = n + 4;
        }
        if self.right {
            n = n + 8;
        }
        n
    }
}

/// Whether the walls `f` leave the way in direction `dir` open. Only the
/// four unit directions can be open.
pub open spec fn passage(f: CollisionFlags, dir: IVec2) -> bool {
    if dir.x == 1 && dir.y == 0 {
        !f.right
    } else if dir.x == 0 && dir.y == 1 {
        !f.down
    } else if dir.x == -1 && dir.y == 0 {
        !f.left
    } else if dir.x == 0 && dir.y == -1 {
        !f.up
    } else {
        false
    }
}

/// A maze of `w` by `h` cells, each with its walls.
pub struct MazeGenerator {
    w: usize,
    h: usize,
    tiles: Vec<CollisionFlags>,
}

/// What a maze is: its size and the walls of each cell, row after row.
pub struct MazeView {
    pub w: nat,
    pub h: nat,
    pub tiles: Seq<CollisionFlags>,
}

impl View for MazeGenerator {
    type V = MazeView;

    closed spec fn view(&self) -> MazeView {
        MazeView { w: self.w as nat, h: self.h as nat, tiles: self.tiles@ }
    }
}

impl MazeView {
    /// One set of walls per cell.
    pub open spec fn wf(self) -> bool {
        self.tiles.len() == self.w * self.h
    }

    /// Width of the doubled grid of wall tiles the carver works on.
    pub open spec fn rw(self) -> int {
        (2 * self.w + 1) as int
    }

    /// Height of the doubled grid of wall tiles.
    pub open spec fn rh(self) -> int {
        (2 * self.h + 1) as int
    }

    pub open spec fn in_grid(self, x: int, y: int) -> bool {
        0 <= x < self.w && 0 <= y < self.h
    }

    /// The walls of cell `(x, y)`.
    pub open spec fn tile(self, x: int, y: int) -> CollisionFlags {
        self.tiles[x + y * self.w]
    }

    /// What `can_go` answers: the cell is looked up at index `x + y * w`,
    /// and an index past the end answers no.
    pub open spec fn can_go(self, src: IVec2, dir: IVec2) -> bool {
        let i = src.x + src.y * self.w;
        0 <= i < self.tiles.len() && passage(self.tiles[i], dir)
    }

    /// The outer border of the maze is closed on every side.
    pub open spec fn walled_in(self) -> bool {
        forall|x: int, y: int|
            #![trigger self.tile(x, y)]
            self.in_grid(x, y) ==> {
                &&& (x == 0 ==> self.tile(x, y).left)
                &&& (x == self.w - 1 ==> self.tile(x, y).right)
                &&& (y == 0 ==> self.tile(x, y).up)
                &&& (y == self.h - 1 ==> self.tile(x, y).down)
            }
    }

    /// Every wall between two neighbouring cells is seen from both sides.
    pub open spec fn two_way(self) -> bool {
        &&& forall|x: int, y: int|
            #![trigger self.tile(x, y)]
            self.in_grid(x, y) && self.in_grid(x + 1, y) ==> self.tile(x, y).right == self.tile(
                x + 1,
                y,
            ).left
        &&& forall|x: int, y: int|
            #![trigger self.tile(x, y)]
            self.in_grid(x, y) && self.in_grid(x, y + 1) ==> self.tile(x, y).down == self.tile(
                x,
                y + 1,
            ).up
    }

    /// Whether cell number `i` (row-major) is a dead end: three walls.
    pub open spec fn is_deadend_index(self, i: int) -> bool {
        wall_count(self.tiles[i]) == 3
    }

    /// The dead ends among the first `n` cells, in row-major order, as
    /// positions.
    pub open spec fn deadends_before(self, n: nat) -> Seq<IVec2>
        decreases n,
    {
        if n == 0 {
            Seq::empty()
        } else {
            let prev = self.deadends_before((n - 1) as nat);
            let i = n - 1;
            if self.is_deadend_index(i) {
                prev.push(cell_position(i, self.w as int))
            } else {
                prev
            }
        }
    }

    /// All dead ends of the maze, in row-major order.
    pub open spec fn deadends(self) -> Seq<IVec2> {
        self.deadends_before(self.w * self.h)
    }

    /// Starting at `p`, at most `n` moves through open walls lead to `q`.
    pub open spec fn reaches(self, p: IVec2, q: IVec2, n: nat) -> bool
        decreases n,
    {
        if p == q {
            true
        } else if n == 0 {
            false
        } else {
            exists|d: IVec2|
                #[trigger] self.can_go(p, d) && self.reaches(moved(p, d), q, (n - 1) as nat)
        }
    }

    /// The wall of cell `(x, y)` on side `(dx, dy)` (one of the four unit
    /// directions) is open.
    pub open spec fn open_side(self, x: int, y: int, dx: int, dy: int) -> bool {
        if dx == 1 {
            !self.tile(x, y).right
        } else if dx == -1 {
            !self.tile(x, y).left
        } else if dy == 1 {
            !self.tile(x, y).down
        } else {
            !self.tile(x, y).up
        }
    }

    /// Cell `(x, y)` has an open wall on side `(dx, dy)` to a neighbouring
    /// cell of lower rank.
    pub open spec fn lower_link(self, rank: Map<(int, int), nat>, x: int, y: int, dx: int, dy: int) -> bool {
        &&& self.in_grid(x + dx, y + dy)
        &&& self.open_side(x, y, dx, dy)
        &&& rank[(x + dx, y + dy)] < rank[(x, y)]
    }

    /// On how many of its four sides cell `(x, y)` opens to a lower rank.
    pub open spec fn lower_links(self, rank: Map<(int, int), nat>, x: int, y: int) -> nat {
        (if self.lower_link(rank, x, y, 1, 0) {
            1nat
        } else {
            0nat
        }) + (if self.lower_link(rank, x, y, -1, 0) {
            1nat
        } else {
            0nat
        }) + (if self.lower_link(rank, x, y, 0, 1) {
            1nat
        } else {
            0nat
        }) + (if self.lower_link(rank, x, y, 0, -1) {
            1nat
        } else {
            0nat
        })
    }

    /// `rank` hangs the cells from the first one as a tree: the first cell
    /// has rank 0, every other cell opens to exactly one neighbour of lower
    /// rank, and every open wall between two cells joins different ranks.
    pub open spec fn tree_ranks(self, rank: Map<(int, int), nat>) -> bool {
        &&& forall|x: int, y: int|
            #![trigger self.in_grid(x, y)]
            self.in_grid(x, y) ==> rank.dom().contains((x, y))
        &&& self.in_grid(0, 0) ==> rank[(0, 0)] == 0
        &&& forall|x: int, y: int|
            #![trigger self.tile(x, y)]
            self.in_grid(x, y) && !(x == 0 && y == 0) ==> self.lower_links(rank, x, y) == 1
        &&& forall|x: int, y: int|
            #![trigger self.tile(x, y)]
            self.in_grid(x, y) && self.in_grid(x + 1, y) && !self.tile(x, y).right ==> rank[(x,
                y)] != rank[(x + 1, y)]
        &&& forall|x: int, y: int|
            #![trigger self.tile(x, y)]
            self.in_grid(x, y) && self.in_grid(x, y + 1) && !self.tile(x, y).down ==> rank[(x,
                y)] != rank[(x, y + 1)]
    }

    /// The open walls between cells form a tree spanning the cells (a
    /// perfect maze): under some ranking, each open wall is the one wall by
    /// which its higher-ranked cell opens downwards, and each cell but the
    /// first has exactly one such wall; the open walls thus pair off with
    /// the cells other than the first, and no loop can be walked.
    pub open spec fn is_spanning_tree(self) -> bool {
        exists|rank: Map<(int, int), nat>| #[trigger] self.tree_ranks(rank)
    }

    /// Some way through open walls leads from `p` to `q`.
    pub open spec fn joined(self, p: IVec2, q: IVec2) -> bool {
        exists|n: nat| #[trigger] self.reaches(p, q, n)
    }

    /// From every cell some way through open walls leads to the first cell
    /// `(0, 0)`.
    pub open spec fn all_lead_to_origin(self) -> bool {
        forall|x: int, y: int|
            #![trigger self.in_grid(x, y)]
            self.in_grid(x, y) ==> self.joined(
                IVec2 { x: x as i32, y: y as i32 },
                IVec2 { x: 0, y: 0 },
            )
    }
}

/// The cell one move from `p` in direction `d`.
pub open spec fn moved(p: IVec2, d: IVec2) -> IVec2 {
    IVec2 { x: (p.x + d.x) as i32, y: (p.y + d.y) as i32 }
}

/// The column and row of cell number `i` (row-major) in a grid `w` wide.
pub open spec fn cell_position(i: int, w: int) -> IVec2 {
    IVec2 { x: (i % w) as i32, y: (i / w) as i32 }
}

/// The size limits under which a maze can be generated: the doubled grid and
/// its coordinates must fit the machine integers used.
pub open spec fn generation_fits(w: nat, h: nat) -> bool {
    &&& 2 * w + 2 <= i32::MAX
    &&& 2 * h + 2 <= i32::MAX
    &&& (2 * w + 1) * (2 * h + 1) <= usize::MAX
}

// ----- the doubled grid of wall tiles used while carving -----

/// Index `i` of a `rw`-wide doubled grid of height `rh` lies on its border.
pub open spec fn is_border_index(i: int, rw: int, rh: int) -> bool {
    i % rw == 0 || i % rw == rw - 1 || i / rw == 0 || i / rw == rh - 1
}

/// Every border tile of the doubled grid is a wall.
pub open spec fn border_walled(raw: Seq<bool>, rw: int, rh: int) -> bool {
    forall|i: int| 0 <= i < raw.len() && #[trigger] is_border_index(i, rw, rh) ==> raw[i]
}

/// `(x, y)` is the centre of a cell of the doubled grid: odd coordinates,
/// inside the border.
pub open spec fn cell_centre(x: int, y: int, rw: int, rh: int) -> bool {
    &&& 1 <= x <= rw - 2
    &&& 1 <= y <= rh - 2
    &&& x % 2 == 1
    &&& y % 2 == 1
}

pub open spec fn is_axis_unit(d: IVec2) -> bool {
    (d.x == 1 && d.y == 0) || (d.x == 0 && d.y == 1) || (d.x == -1 && d.y == 0) || (d.x == 0
        && d.y == -1)
}

/// The tile of the doubled grid at `(x, y)`.
pub open spec fn raw_at(raw: Seq<bool>, rw: int, x: int, y: int) -> bool {
    raw[x + y * rw]
}

/// What `can_dig` answers: three steps from `p` in direction `d` still lie
/// in the doubled grid, and the cell two steps away is not carved yet.
pub open spec fn dig_ok(raw: Seq<bool>, rw: int, rh: int, p: IVec2, d: IVec2) -> bool {
    &&& 0 <= p.x + 3 * d.x < rw
    &&& 0 <= p.y + 3 * d.y < rh
    &&& raw_at(raw, rw, p.x + 2 * d.x, p.y + 2 * d.y)
}

/// The walls of cell `(cx, cy)` read off the doubled grid around its centre.
pub open spec fn flags_from_raw(raw: Seq<bool>, rw: int, cx: int, cy: int) -> CollisionFlags {
    let rx = 2 * cx + 1;
    let ry = 2 * cy + 1;
    CollisionFlags {
        up: raw_at(raw, rw, rx, ry - 1),
        down: raw_at(raw, rw, rx, ry + 1),
        left: raw_at(raw, rw, rx - 1, ry),
        right: raw_at(raw, rw, rx + 1, ry),
    }
}

/// The number of `true` tiles.
pub open spec fn count_true(s: Seq<bool>) -> nat
    decreases s.len(),
{
    if s.len() == 0 {
        0
    } else {
        count_true(s.drop_last()) + if s.last() {
            1nat
        } else {
            0nat
        }
    }
}

proof fn lemma_count_true_clear(s: Seq<bool>, i: int)
    requires
        0 <= i < s.len(),
    ensures
        count_true(s.update(i, false)) + (if s[i] { 1nat } else { 0nat }) == count_true(s),
    decreases s.len(),
{
    if i == s.len() - 1 {
        assert(s.update(i, false).drop_last() =~= s.drop_last());
    } else {
        lemma_count_true_clear(s.drop_last(), i);
        assert(s.update(i, false).drop_last() =~= s.drop_last().update(i, false));
    }
}

/// Cell `(x, y)` of a `w`-wide row-major grid of height `h` has an index
/// below `w * h`.
proof fn lemma_flat_index(x: int, y: int, w: int, h: int)
    requires
        0 <= x < w,
        0 <= y < h,
    ensures
        0 <= x + y * w < w * h,
        y * w + w == (y + 1) * w,
{
    assert(0 <= x + y * w < w * h) by (nonlinear_arith)
        requires
            0 <= x < w,
            0 <= y < h,
    ;
    assert(y * w + w == (y + 1) * w) by (nonlinear_arith);
}

/// Index `x + y * w` of a `w`-wide grid gives back its column and row.
proof fn lemma_flat_coords(x: int, y: int, w: int)
    requires
        0 <= x < w,
        0 <= y,
    ensures
        (x + y * w) % w == x,
        (x + y * w) / w == y,
{
    vstd::arithmetic::div_mod::lemma_fundamental_div_mod_converse(x + y * w, w, y, x);
}

/// A tile at `(x, y)` strictly inside the doubled grid is not on its border.
proof fn lemma_inside_not_border(x: int, y: int, rw: int, rh: int)
    requires
        1 <= x <= rw - 2,
        1 <= y <= rh - 2,
    ensures
        !is_border_index(x + y * rw, rw, rh),
        0 <= x + y * rw < rw * rh,
{
    lemma_flat_coords(x, y, rw);
    lemma_flat_index(x, y, rw, rh);
}

/// Clearing an inside tile keeps the border walled and does not raise the
/// number of walls.
proof fn lemma_clear_inside(raw: Seq<bool>, rw: int, rh: int, x: int, y: int)
    requires
        raw.len() == rw * rh,
        border_walled(raw, rw, rh),
        1 <= x <= rw - 2,
        1 <= y <= rh - 2,
    ensures
        border_walled(raw.update(x + y * rw, false), rw, rh),
        count_true(raw.update(x + y * rw, false)) + (if raw_at(raw, rw, x, y) {
            1nat
        } else {
            0nat
        }) == count_true(raw),
        raw.update(x + y * rw, false).len() == raw.len(),
        0 <= x + y * rw < rw * rh,
{
    lemma_inside_not_border(x, y, rw, rh);
    lemma_count_true_clear(raw, x + y * rw);
    let r2 = raw.update(x + y * rw, false);
    assert forall|i: int| 0 <= i < r2.len() && #[trigger] is_border_index(i, rw, rh) implies r2[i] by {
        assert(i != x + y * rw);
    }
}

// ----- what carving keeps: every carved centre joined to the first one -----

/// The tile `(x, y)`, if it is a cell centre of the doubled grid, is carved.
spec fn carved_if_centre(raw: Seq<bool>, rw: int, rh: int, x: int, y: int) -> bool {
    cell_centre(x, y, rw, rh) ==> !raw_at(raw, rw, x, y)
}

/// Every neighbouring cell centre of `(x, y)` is carved.
#[verifier::opaque]
spec fn surrounded(raw: Seq<bool>, rw: int, rh: int, x: int, y: int) -> bool {
    &&& carved_if_centre(raw, rw, rh, x + 2, y)
    &&& carved_if_centre(raw, rw, rh, x - 2, y)
    &&& carved_if_centre(raw, rw, rh, x, y + 2)
    &&& carved_if_centre(raw, rw, rh, x, y - 2)
}

/// `(x, y)` is one of the cells waiting on the carver's stack.
spec fn on_stack(cells: Seq<IVec2>, x: int, y: int) -> bool {
    exists|k: int| 0 <= k < cells.len() && cells[k].x == x && cells[k].y == y
}

/// Every carved centre that is not waiting on the stack has all its
/// neighbours carved.
spec fn explored(raw: Seq<bool>, rw: int, rh: int, cells: Seq<IVec2>) -> bool {
    forall|x: int, y: int|
        cell_centre(x, y, rw, rh) && !#[trigger] raw_at(raw, rw, x, y) && !on_stack(cells, x, y)
            ==> surrounded(raw, rw, rh, x, y)
}

/// `b` is `a` with possibly more tiles carved, none filled in.
spec fn carves_more(a: Seq<bool>, b: Seq<bool>) -> bool {
    &&& a.len() == b.len()
    &&& forall|i: int| #![trigger a[i]] #![trigger b[i]] 0 <= i < a.len() && !a[i] ==> !b[i]
}

/// Centre `(x, y)` is joined through the carved wall in direction
/// `(dx, dy)` to a neighbouring centre of lower rank.
spec fn parent_via(
    raw: Seq<bool>,
    rw: int,
    rank: Map<(int, int), nat>,
    x: int,
    y: int,
    dx: int,
    dy: int,
) -> bool {
    &&& rank.dom().contains((x + 2 * dx, y + 2 * dy))
    &&& !raw_at(raw, rw, x + dx, y + dy)
    &&& rank[(x + 2 * dx, y + 2 * dy)] < rank[(x, y)]
}

/// Centre `(x, y)` is joined to a neighbour of lower rank.
#[verifier::opaque]
spec fn has_parent(raw: Seq<bool>, rw: int, rank: Map<(int, int), nat>, x: int, y: int) -> bool {
    ||| parent_via(raw, rw, rank, x, y, 1, 0)
    ||| parent_via(raw, rw, rank, x, y, -1, 0)
    ||| parent_via(raw, rw, rank, x, y, 0, 1)
    ||| parent_via(raw, rw, rank, x, y, 0, -1)
}

/// The carved centres are exactly the keys of `rank`, and each of them but
/// the first cell's centre `(1, 1)` is joined to a neighbour of lower rank.
spec fn tree_ranked(raw: Seq<bool>, rw: int, rh: int, rank: Map<(int, int), nat>) -> bool {
    &&& forall|x: int, y: int|
        cell_centre(x, y, rw, rh) && !#[trigger] raw_at(raw, rw, x, y) ==> rank.dom().contains(
            (x, y),
        )
    &&& forall|x: int, y: int| #[trigger]
        rank.dom().contains((x, y)) ==> {
            &&& cell_centre(x, y, rw, rh)
            &&& !raw_at(raw, rw, x, y)
            &&& ((x == 1 && y == 1) || has_parent(raw, rw, rank, x, y))
        }
}

/// Carving more keeps every centre's neighbours carved.
proof fn lemma_surrounded_kept(a: Seq<bool>, b: Seq<bool>, rw: int, rh: int, x: int, y: int)
    requires
        a.len() == rw * rh,
        carves_more(a, b),
        surrounded(a, rw, rh, x, y),
    ensures
        surrounded(b, rw, rh, x, y),
{
    reveal(surrounded);
    if cell_centre(x + 2, y, rw, rh) {
        lemma_inside_not_border(x + 2, y, rw, rh);
    }
    if cell_centre(x - 2, y, rw, rh) {
        lemma_inside_not_border(x - 2, y, rw, rh);
    }
    if cell_centre(x, y + 2, rw, rh) {
        lemma_inside_not_border(x, y + 2, rw, rh);
    }
    if cell_centre(x, y - 2, rw, rh) {
        lemma_inside_not_border(x, y - 2, rw, rh);
    }
}

/// Carving more, and giving a rank to one new key, keeps the links of every
/// centre that had a rank.
proof fn lemma_parent_kept(
    a: Seq<bool>,
    b: Seq<bool>,
    rw: int,
    rh: int,
    rank: Map<(int, int), nat>,
    key: (int, int),
    v: nat,
    x: int,
    y: int,
)
    requires
        a.len() == rw * rh,
        carves_more(a, b),
        cell_centre(x, y, rw, rh),
        rank.dom().contains((x, y)),
        !rank.dom().contains(key),
        has_parent(a, rw, rank, x, y),
    ensures
        has_parent(b, rw, rank.insert(key, v), x, y),
{
    reveal(has_parent);
    let r2 = rank.insert(key, v);
    lemma_flat_index(x + 1, y, rw, rh);
    lemma_flat_index(x - 1, y, rw, rh);
    lemma_flat_index(x, y + 1, rw, rh);
    lemma_flat_index(x, y - 1, rw, rh);
    assert(r2[(x, y)] == rank[(x, y)]);
    if parent_via(a, rw, rank, x, y, 1, 0) {
        assert(parent_via(b, rw, r2, x, y, 1, 0));
    } else if parent_via(a, rw, rank, x, y, -1, 0) {
        assert(parent_via(b, rw, r2, x, y, -1, 0));
    } else if parent_via(a, rw, rank, x, y, 0, 1) {
        assert(parent_via(b, rw, r2, x, y, 0, 1));
    } else {
        assert(parent_via(b, rw, r2, x, y, 0, -1));
    }
}

/// Centre `(x, y)` is joined through the carved wall in direction
/// `(dx, dy)` to a ranked centre of lower rank.
spec fn link_lower(
    raw: Seq<bool>,
    rw: int,
    rank: Map<(int, int), nat>,
    x: int,
    y: int,
    dx: int,
    dy: int,
) -> bool {
    &&& !raw_at(raw, rw, x + dx, y + dy)
    &&& rank.dom().contains((x + 2 * dx, y + 2 * dy))
    &&& rank[(x + 2 * dx, y + 2 * dy)] < rank[(x, y)]
}

/// How many of the four directions join centre `(x, y)` to a lower rank.
#[verifier::opaque]
spec fn link_count(raw: Seq<bool>, rw: int, rank: Map<(int, int), nat>, x: int, y: int) -> nat {
    (if link_lower(raw, rw, rank, x, y, 1, 0) {
        1nat
    } else {
        0nat
    }) + (if link_lower(raw, rw, rank, x, y, -1, 0) {
        1nat
    } else {
        0nat
    }) + (if link_lower(raw, rw, rank, x, y, 0, 1) {
        1nat
    } else {
        0nat
    }) + (if link_lower(raw, rw, rank, x, y, 0, -1) {
        1nat
    } else {
        0nat
    })
}

/// The carving is a tree: every ranked centre but the first has exactly one
/// carved wall to a centre of lower rank, the first has rank 0, and every
/// carved wall between two centres joins ranked centres of different rank.
spec fn tree_links(raw: Seq<bool>, rw: int, rh: int, rank: Map<(int, int), nat>) -> bool {
    &&& forall|x: int, y: int|
        #[trigger] rank.dom().contains((x, y)) && !(x == 1 && y == 1) ==> link_count(
            raw,
            rw,
            rank,
            x,
            y,
        ) == 1
    &&& rank.dom().contains((1, 1)) ==> rank[(1, 1)] == 0
    &&& forall|x: int, y: int|
        cell_centre(x - 1, y, rw, rh) && cell_centre(x + 1, y, rw, rh) && !#[trigger] raw_at(
            raw,
            rw,
            x,
            y,
        ) ==> rank.dom().contains((x - 1, y)) && rank.dom().contains((x + 1, y)) && rank[(x
            - 1, y)] != rank[(x + 1, y)]
    &&& forall|x: int, y: int|
        cell_centre(x, y - 1, rw, rh) && cell_centre(x, y + 1, rw, rh) && !#[trigger] raw_at(
            raw,
            rw,
            x,
            y,
        ) ==> rank.dom().contains((x, y - 1)) && rank.dom().contains((x, y + 1)) && rank[(x, y
            - 1)] != rank[(x, y + 1)]
}

/// The link of centre `(x, y)` in one direction is the same on two
/// carvings and rankings that agree on the wall, the neighbour and the
/// centre.
proof fn lemma_link_same(
    a: Seq<bool>,
    b: Seq<bool>,
    rw: int,
    ra: Map<(int, int), nat>,
    rb: Map<(int, int), nat>,
    x: int,
    y: int,
    dx: int,
    dy: int,
)
    requires
        raw_at(a, rw, x + dx, y + dy) == raw_at(b, rw, x + dx, y + dy),
        ra.dom().contains((x + 2 * dx, y + 2 * dy)) == rb.dom().contains((x + 2 * dx, y + 2 * dy)),
        ra.dom().contains((x + 2 * dx, y + 2 * dy)) ==> ra[(x + 2 * dx, y + 2 * dy)] == rb[(x + 2
            * dx, y + 2 * dy)],
        ra[(x, y)] == rb[(x, y)],
    ensures
        link_lower(a, rw, ra, x, y, dx, dy) == link_lower(b, rw, rb, x, y, dx, dy),
{
}

/// A maze read off a carving that is a tree, with every centre carved,
/// is a spanning tree of its cells, ranked as their centres.
proof fn lemma_tree_read_off(m: MazeView, raw: Seq<bool>, rank: Map<(int, int), nat>)
    requires
        m.wf(),
        generation_fits(m.w, m.h),
        raw.len() == m.rw() * m.rh(),
        forall|x: int, y: int|
            #![trigger m.tile(x, y)]
            m.in_grid(x, y) ==> m.tile(x, y) == flags_from_raw(raw, m.rw(), x, y),
        tree_ranked(raw, m.rw(), m.rh(), rank),
        tree_links(raw, m.rw(), m.rh(), rank),
        forall|x: int, y: int| cell_centre(x, y, m.rw(), m.rh()) ==> !#[trigger] raw_at(raw, m.rw(), x, y),
    ensures
        m.is_spanning_tree(),
{
    let rw = m.rw();
    let rh = m.rh();
    let rm = Map::new(
        |k: (int, int)| m.in_grid(k.0, k.1),
        |k: (int, int)| rank[(2 * k.0 + 1, 2 * k.1 + 1)],
    );
    assert forall|x: int, y: int| m.in_grid(x, y) implies rank.dom().contains(
        (2 * x + 1, 2 * y + 1),
    ) by {
        assert(cell_centre(2 * x + 1, 2 * y + 1, rw, rh));
        assert(!raw_at(raw, rw, 2 * x + 1, 2 * y + 1));
    }
    assert forall|x: int, y: int| #![trigger m.tile(x, y)]
        m.in_grid(x, y) && !(x == 0 && y == 0) implies m.lower_links(rm, x, y) == 1 by {
        let rx = 2 * x + 1;
        let ry = 2 * y + 1;
        assert(rank.dom().contains((rx, ry)));
        assert(!(rx == 1 && ry == 1));
        assert(link_count(raw, rw, rank, rx, ry) == 1);
        reveal(link_count);
        assert(m.tile(x, y) == flags_from_raw(raw, rw, x, y));
        assert forall|dx: int, dy: int|
            (dx == 1 && dy == 0) || (dx == -1 && dy == 0) || (dx == 0 && dy == 1) || (dx == 0 && dy
                == -1) implies #[trigger] m.lower_link(rm, x, y, dx, dy) == link_lower(
            raw,
            rw,
            rank,
            rx,
            ry,
            dx,
            dy,
        ) by {
            let nx = x + dx;
            let ny = y + dy;
            assert(rx + 2 * dx == 2 * nx + 1 && ry + 2 * dy == 2 * ny + 1);
            if m.in_grid(nx, ny) {
                assert(rank.dom().contains((2 * nx + 1, 2 * ny + 1)));
                assert(rm[(nx, ny)] == rank[(2 * nx + 1, 2 * ny + 1)]);
            } else {
                if rank.dom().contains((2 * nx + 1, 2 * ny + 1)) {
                    assert(cell_centre(2 * nx + 1, 2 * ny + 1, rw, rh));
                }
            }
            assert(rm[(x, y)] == rank[(rx, ry)]);
        }
        assert(m.lower_link(rm, x, y, 1, 0) == link_lower(raw, rw, rank, rx, ry, 1, 0));
        assert(m.lower_link(rm, x, y, -1, 0) == link_lower(raw, rw, rank, rx, ry, -1, 0));
        assert(m.lower_link(rm, x, y, 0, 1) == link_lower(raw, rw, rank, rx, ry, 0, 1));
        assert(m.lower_link(rm, x, y, 0, -1) == link_lower(raw, rw, rank, rx, ry, 0, -1));
    }
    assert forall|x: int, y: int| #![trigger m.tile(x, y)]
        m.in_grid(x, y) && m.in_grid(x + 1, y) && !m.tile(x, y).right implies rm[(x, y)] != rm[(x
        + 1, y)] by {
        assert(m.tile(x, y) == flags_from_raw(raw, rw, x, y));
        let wx = 2 * x + 2;
        let wy = 2 * y + 1;
        assert(cell_centre(wx - 1, wy, rw, rh) && cell_centre(wx + 1, wy, rw, rh));
        assert(!raw_at(raw, rw, wx, wy));
    }
    assert forall|x: int, y: int| #![trigger m.tile(x, y)]
        m.in_grid(x, y) && m.in_grid(x, y + 1) && !m.tile(x, y).down implies rm[(x, y)] != rm[(x,
        y + 1)] by {
        assert(m.tile(x, y) == flags_from_raw(raw, rw, x, y));
        let wx = 2 * x + 1;
        let wy = 2 * y + 2;
        assert(cell_centre(wx, wy - 1, rw, rh) && cell_centre(wx, wy + 1, rw, rh));
        assert(!raw_at(raw, rw, wx, wy));
    }
    if m.in_grid(0, 0) {
        assert(rank.dom().contains((1int, 1int)));
    }
    assert(m.tree_ranks(rm));
}

/// Carving the starting centre: the stack holds it alone, and it gets rank
/// 0 if it is the first cell and was not carved yet.
proof fn lemma_start_step(
    raw0: Seq<bool>,
    raw1: Seq<bool>,
    rw: int,
    rh: int,
    rank: Map<(int, int), nat>,
    c: IVec2,
) -> (rank1: Map<(int, int), nat>)
    requires
        raw0.len() == rw * rh,
        cell_centre(c.x as int, c.y as int, rw, rh),
        raw1 == raw0.update(c.x + c.y * rw, false),
        explored(raw0, rw, rh, Seq::empty()),
        tree_ranked(raw0, rw, rh, rank),
        (c.x == 1 && c.y == 1) || !raw_at(raw0, rw, c.x as int, c.y as int),
    ensures
        explored(raw1, rw, rh, seq![c]),
        tree_ranked(raw1, rw, rh, rank1),
        carves_more(raw0, raw1),
        rank1 == (if raw_at(raw0, rw, c.x as int, c.y as int) {
            rank.insert((c.x as int, c.y as int), 0)
        } else {
            rank
        }),
{
    let x0 = c.x as int;
    let y0 = c.y as int;
    lemma_inside_not_border(x0, y0, rw, rh);
    assert(carves_more(raw0, raw1));
    assert forall|x: int, y: int|
        cell_centre(x, y, rw, rh) && !#[trigger] raw_at(raw1, rw, x, y) && !on_stack(
            seq![c],
            x,
            y,
        ) implies surrounded(raw1, rw, rh, x, y) by {
        if x == x0 && y == y0 {
            assert(seq![c][0].x == x && seq![c][0].y == y);
        } else {
            lemma_inside_not_border(x, y, rw, rh);
            lemma_flat_coords(x, y, rw);
            lemma_flat_coords(x0, y0, rw);
            assert(raw_at(raw1, rw, x, y) == raw_at(raw0, rw, x, y));
            assert(!on_stack(Seq::<IVec2>::empty(), x, y));
            lemma_surrounded_kept(raw0, raw1, rw, rh, x, y);
        }
    }
    if raw_at(raw0, rw, x0, y0) {
        let rank1 = rank.insert((x0, y0), 0);
        assert(!rank.dom().contains((x0, y0)));
        assert forall|x: int, y: int|
            cell_centre(x, y, rw, rh) && !#[trigger] raw_at(
                raw1,
                rw,
                x,
                y,
            ) implies rank1.dom().contains((x, y)) by {
            if !(x == x0 && y == y0) {
                lemma_inside_not_border(x, y, rw, rh);
                lemma_flat_coords(x, y, rw);
                lemma_flat_coords(x0, y0, rw);
                assert(raw_at(raw1, rw, x, y) == raw_at(raw0, rw, x, y));
            }
        }
        assert forall|x: int, y: int| #[trigger]
            rank1.dom().contains((x, y)) implies {
            &&& cell_centre(x, y, rw, rh)
            &&& !raw_at(raw1, rw, x, y)
            &&& ((x == 1 && y == 1) || has_parent(raw1, rw, rank1, x, y))
        } by {
            if !(x == x0 && y == y0) {
                assert(rank.dom().contains((x, y)));
                lemma_inside_not_border(x, y, rw, rh);
                if !(x == 1 && y == 1) {
                    lemma_parent_kept(raw0, raw1, rw, rh, rank, (x0, y0), 0, x, y);
                }
            }
        }
        rank1
    } else {
        assert(raw1 =~= raw0);
        rank
    }
}

/// Whether the tile of the doubled grid at `(x, y)` differs between `a` and
/// `a` with the two tiles `(x1, y1)` and `(x2, y2)` carved.
proof fn lemma_two_carved(
    a: Seq<bool>,
    rw: int,
    rh: int,
    x1: int,
    y1: int,
    x2: int,
    y2: int,
    x: int,
    y: int,
)
    requires
        a.len() == rw * rh,
        0 <= x1 < rw,
        0 <= y1 < rh,
        0 <= x2 < rw,
        0 <= y2 < rh,
        0 <= x < rw,
        0 <= y < rh,
    ensures
        raw_at(a.update(x1 + y1 * rw, false).update(x2 + y2 * rw, false), rw, x, y) == (raw_at(
            a,
            rw,
            x,
            y,
        ) && !(x == x1 && y == y1) && !(x == x2 && y == y2)),
{
    lemma_flat_coords(x, y, rw);
    lemma_flat_coords(x1, y1, rw);
    lemma_flat_coords(x2, y2, rw);
    lemma_flat_index(x, y, rw, rh);
    lemma_flat_index(x1, y1, rw, rh);
    lemma_flat_index(x2, y2, rw, rh);
}

/// Digging from the top cell of the stack in direction `dir`: the wall and
/// the centre behind it are carved, the new centre is pushed and ranked one
/// above the cell it was reached from.
proof fn lemma_dig_step(
    raw: Seq<bool>,
    raw2: Seq<bool>,
    rw: int,
    rh: int,
    cells: Seq<IVec2>,
    rank: Map<(int, int), nat>,
    cell: IVec2,
    dir: IVec2,
    dst2: IVec2,
) -> (rank2: Map<(int, int), nat>)
    requires
        raw.len() == rw * rh,
        cells.len() > 0,
        cell == cells.last(),
        cell_centre(cell.x as int, cell.y as int, rw, rh),
        !raw_at(raw, rw, cell.x as int, cell.y as int),
        is_axis_unit(dir),
        dig_ok(raw, rw, rh, cell, dir),
        dst2.x == cell.x + 2 * dir.x,
        dst2.y == cell.y + 2 * dir.y,
        raw2 == raw.update((cell.x + dir.x) + (cell.y + dir.y) * rw, false).update(
            dst2.x + dst2.y * rw,
            false,
        ),
        explored(raw, rw, rh, cells),
        tree_ranked(raw, rw, rh, rank),
    ensures
        explored(raw2, rw, rh, cells.push(dst2)),
        tree_ranked(raw2, rw, rh, rank2),
        carves_more(raw, raw2),
        cell_centre(dst2.x as int, dst2.y as int, rw, rh),
        !raw_at(raw2, rw, dst2.x as int, dst2.y as int),
        rank2 == rank.insert((dst2.x as int, dst2.y as int), rank[(cell.x as int, cell.y as int)] + 1),
{
    let cx = cell.x as int;
    let cy = cell.y as int;
    let x1 = cx + dir.x;
    let y1 = cy + dir.y;
    let x2 = dst2.x as int;
    let y2 = dst2.y as int;
    let cells2 = cells.push(dst2);
    assert(cell_centre(x2, y2, rw, rh));
    lemma_inside_not_border(x2, y2, rw, rh);
    lemma_inside_not_border(cx, cy, rw, rh);
    lemma_two_carved(raw, rw, rh, x1, y1, x2, y2, x2, y2);
    lemma_two_carved(raw, rw, rh, x1, y1, x2, y2, cx, cy);
    lemma_two_carved(raw, rw, rh, x1, y1, x2, y2, x1, y1);
    lemma_flat_index(x1, y1, rw, rh);
    assert(carves_more(raw, raw2)) by {
        assert forall|i: int| #![trigger raw[i]] #![trigger raw2[i]]
            0 <= i < raw.len() && !raw[i] implies !raw2[i] by {
            let i1 = x1 + y1 * rw;
            let i2 = x2 + y2 * rw;
            if i == i2 {
            } else if i == i1 {
            } else {
            }
        }
    }
    assert(cells2.last() == dst2);
    assert forall|x: int, y: int|
        cell_centre(x, y, rw, rh) && !#[trigger] raw_at(raw2, rw, x, y) && !on_stack(
            cells2,
            x,
            y,
        ) implies surrounded(raw2, rw, rh, x, y) by {
        lemma_inside_not_border(x, y, rw, rh);
        lemma_two_carved(raw, rw, rh, x1, y1, x2, y2, x, y);
        assert(!(x == x2 && y == y2)) by {
            if x == x2 && y == y2 {
                assert(cells2[cells.len() as int] == dst2);
            }
        }
        assert(!on_stack(cells, x, y)) by {
            if on_stack(cells, x, y) {
                let k = choose|k: int| 0 <= k < cells.len() && cells[k].x == x && cells[k].y == y;
                assert(cells2[k] == cells[k]);
            }
        }
        lemma_surrounded_kept(raw, raw2, rw, rh, x, y);
    }
    assert(raw_at(raw, rw, x2, y2));
    assert(!rank.dom().contains((x2, y2)));
    assert(rank.dom().contains((cx, cy)));
    let rank2 = rank.insert((x2, y2), rank[(cx, cy)] + 1);
    assert forall|x: int, y: int|
        cell_centre(x, y, rw, rh) && !#[trigger] raw_at(raw2, rw, x, y) implies rank2.dom().contains(
        (x, y),
    ) by {
        lemma_inside_not_border(x, y, rw, rh);
        lemma_two_carved(raw, rw, rh, x1, y1, x2, y2, x, y);
    }
    assert forall|x: int, y: int| #[trigger]
        rank2.dom().contains((x, y)) implies {
        &&& cell_centre(x, y, rw, rh)
        &&& !raw_at(raw2, rw, x, y)
        &&& ((x == 1 && y == 1) || has_parent(raw2, rw, rank2, x, y))
    } by {
        if x == x2 && y == y2 {
            reveal(has_parent);
            let dx = -dir.x;
            let dy = -dir.y;
            assert(x + 2 * dx == cx && y + 2 * dy == cy);
            assert(x + dx == x1 && y + dy == y1);
            assert(rank2[(cx, cy)] == rank[(cx, cy)]);
            assert(parent_via(raw2, rw, rank2, x, y, dx, dy));
        } else {
            assert(rank.dom().contains((x, y)));
            lemma_inside_not_border(x, y, rw, rh);
            lemma_two_carved(raw, rw, rh, x1, y1, x2, y2, x, y);
            if !(x == 1 && y == 1) {
                lemma_parent_kept(raw, raw2, rw, rh, rank, (x2, y2), rank[(cx, cy)] + 1, x, y);
            }
        }
    }
    rank2
}

/// Carving the first cell's centre as the start keeps the carving a tree.
proof fn lemma_start_tree(
    raw0: Seq<bool>,
    raw1: Seq<bool>,
    rw: int,
    rh: int,
    rank: Map<(int, int), nat>,
    rank1: Map<(int, int), nat>,
    c: IVec2,
)
    requires
        raw0.len() == rw * rh,
        cell_centre(c.x as int, c.y as int, rw, rh),
        raw1 == raw0.update(c.x + c.y * rw, false),
        tree_ranked(raw0, rw, rh, rank),
        tree_links(raw0, rw, rh, rank),
        (c.x == 1 && c.y == 1) || !raw_at(raw0, rw, c.x as int, c.y as int),
        rank1 == (if raw_at(raw0, rw, c.x as int, c.y as int) {
            rank.insert((c.x as int, c.y as int), 0)
        } else {
            rank
        }),
    ensures
        tree_links(raw1, rw, rh, rank1),
{
    let x0 = c.x as int;
    let y0 = c.y as int;
    lemma_inside_not_border(x0, y0, rw, rh);
    if !raw_at(raw0, rw, x0, y0) {
        assert(raw1 =~= raw0);
    } else {
        assert(!rank.dom().contains((1int, 1int)));
        assert forall|x: int, y: int| 0 <= x < rw && 0 <= y < rh && !(x == 1 && y == 1) implies raw_at(
            raw1,
            rw,
            x,
            y,
        ) == raw_at(raw0, rw, x, y) by {
            lemma_flat_coords(x, y, rw);
            lemma_flat_coords(1, 1, rw);
            lemma_flat_index(x, y, rw, rh);
        }
        assert forall|x: int, y: int| #[trigger]
            rank1.dom().contains((x, y)) && !(x == 1 && y == 1) implies link_count(
            raw1,
            rw,
            rank1,
            x,
            y,
        ) == 1 by {
            assert(rank.dom().contains((x, y)));
            assert(cell_centre(x, y, rw, rh));
            assert(link_count(raw0, rw, rank, x, y) == 1);
            lemma_start_link(raw0, raw1, rw, rh, rank, x, y, 1, 0);
            lemma_start_link(raw0, raw1, rw, rh, rank, x, y, -1, 0);
            lemma_start_link(raw0, raw1, rw, rh, rank, x, y, 0, 1);
            lemma_start_link(raw0, raw1, rw, rh, rank, x, y, 0, -1);
            reveal(link_count);
        }
        assert forall|x: int, y: int|
            cell_centre(x - 1, y, rw, rh) && cell_centre(x + 1, y, rw, rh) && !#[trigger] raw_at(
                raw1,
                rw,
                x,
                y,
            ) implies rank1.dom().contains((x - 1, y)) && rank1.dom().contains((x + 1, y))
            && rank1[(x - 1, y)] != rank1[(x + 1, y)] by {
            assert(raw_at(raw1, rw, x, y) == raw_at(raw0, rw, x, y));
        }
        assert forall|x: int, y: int|
            cell_centre(x, y - 1, rw, rh) && cell_centre(x, y + 1, rw, rh) && !#[trigger] raw_at(
                raw1,
                rw,
                x,
                y,
            ) implies rank1.dom().contains((x, y - 1)) && rank1.dom().contains((x, y + 1))
            && rank1[(x, y - 1)] != rank1[(x, y + 1)] by {
            assert(raw_at(raw1, rw, x, y) == raw_at(raw0, rw, x, y));
        }
    }
}

/// Carving the uncarved first cell's centre changes no link of a ranked
/// centre: the wall towards it is still standing.
proof fn lemma_start_link(
    raw0: Seq<bool>,
    raw1: Seq<bool>,
    rw: int,
    rh: int,
    rank: Map<(int, int), nat>,
    x: int,
    y: int,
    dx: int,
    dy: int,
)
    requires
        raw0.len() == rw * rh,
        cell_centre(1, 1, rw, rh),
        raw_at(raw0, rw, 1, 1),
        raw1 == raw0.update(1 + 1 * rw, false),
        tree_ranked(raw0, rw, rh, rank),
        tree_links(raw0, rw, rh, rank),
        rank.dom().contains((x, y)),
        (dx == 1 && dy == 0) || (dx == -1 && dy == 0) || (dx == 0 && dy == 1) || (dx == 0 && dy
            == -1),
    ensures
        link_lower(raw1, rw, rank.insert((1, 1), 0), x, y, dx, dy) == link_lower(
            raw0,
            rw,
            rank,
            x,
            y,
            dx,
            dy,
        ),
{
    let rank1 = rank.insert((1, 1), 0);
    assert(cell_centre(x, y, rw, rh));
    let wx = x + dx;
    let wy = y + dy;
    lemma_flat_coords(wx, wy, rw);
    lemma_flat_coords(1, 1, rw);
    lemma_flat_index(wx, wy, rw, rh);
    lemma_flat_index(1, 1, rw, rh);
    assert(!(wx == 1 && wy == 1)) by {
        if dx != 0 {
            assert(x % 2 == 1);
            assert(wx != 1);
        } else {
            assert(y % 2 == 1);
            assert(wy != 1);
        }
    }
    assert(wx + wy * rw != 1 + 1 * rw);
    assert(raw_at(raw1, rw, wx, wy) == raw_at(raw0, rw, wx, wy));
    if x + 2 * dx == 1 && y + 2 * dy == 1 {
        // The wall towards the uncarved centre still stands.
        if !raw_at(raw0, rw, wx, wy) {
            if dy == 0 {
                assert(cell_centre(wx - 1, wy, rw, rh) && cell_centre(wx + 1, wy, rw, rh));
            } else {
                assert(cell_centre(wx, wy - 1, rw, rh) && cell_centre(wx, wy + 1, rw, rh));
            }
            assert(false);
        }
    } else {
        assert(rank1[(x, y)] == rank[(x, y)]);
        lemma_link_same(raw0, raw1, rw, rank, rank1, x, y, dx, dy);
    }
}

/// Digging from `cell` to the uncarved centre `dst2` changes no link of a
/// centre ranked before.
proof fn lemma_dig_link(
    raw: Seq<bool>,
    raw2: Seq<bool>,
    rw: int,
    rh: int,
    rank: Map<(int, int), nat>,
    cell: IVec2,
    dir: IVec2,
    dst2: IVec2,
    x: int,
    y: int,
    dx: int,
    dy: int,
)
    requires
        raw.len() == rw * rh,
        cell_centre(cell.x as int, cell.y as int, rw, rh),
        rank.dom().contains((cell.x as int, cell.y as int)),
        is_axis_unit(dir),
        dst2.x == cell.x + 2 * dir.x,
        dst2.y == cell.y + 2 * dir.y,
        cell_centre(dst2.x as int, dst2.y as int, rw, rh),
        raw_at(raw, rw, dst2.x as int, dst2.y as int),
        raw2 == raw.update((cell.x + dir.x) + (cell.y + dir.y) * rw, false).update(
            dst2.x + dst2.y * rw,
            false,
        ),
        tree_ranked(raw, rw, rh, rank),
        tree_links(raw, rw, rh, rank),
        rank.dom().contains((x, y)),
        (dx == 1 && dy == 0) || (dx == -1 && dy == 0) || (dx == 0 && dy == 1) || (dx == 0 && dy
            == -1),
    ensures
        link_lower(
            raw2,
            rw,
            rank.insert(
                (dst2.x as int, dst2.y as int),
                rank[(cell.x as int, cell.y as int)] + 1,
            ),
            x,
            y,
            dx,
            dy,
        ) == link_lower(raw, rw, rank, x, y, dx, dy),
{
    let cx = cell.x as int;
    let cy = cell.y as int;
    let x1 = cx + dir.x;
    let y1 = cy + dir.y;
    let x2 = dst2.x as int;
    let y2 = dst2.y as int;
    let rank2 = rank.insert((x2, y2), rank[(cx, cy)] + 1);
    assert(cell_centre(x, y, rw, rh));
    assert(!rank.dom().contains((x2, y2)));
    let wx = x + dx;
    let wy = y + dy;
    lemma_two_carved(raw, rw, rh, x1, y1, x2, y2, wx, wy);
    assert(rank2[(x, y)] == rank[(x, y)]);
    if x + 2 * dx == x2 && y + 2 * dy == y2 {
        // The wall between a ranked centre and the uncarved `dst2` stood.
        if !raw_at(raw, rw, wx, wy) {
            if dy == 0 {
                assert(cell_centre(wx - 1, wy, rw, rh) && cell_centre(wx + 1, wy, rw, rh));
            } else {
                assert(cell_centre(wx, wy - 1, rw, rh) && cell_centre(wx, wy + 1, rw, rh));
            }
            assert(false);
        }
        assert(!link_lower(raw2, rw, rank2, x, y, dx, dy));
    } else {
        lemma_link_same(raw, raw2, rw, rank, rank2, x, y, dx, dy);
    }
}

/// Digging keeps the carving a tree: the new centre's one link is the wall
/// just carved, to the cell it was reached from.
proof fn lemma_dig_tree(
    raw: Seq<bool>,
    raw2: Seq<bool>,
    rw: int,
    rh: int,
    rank: Map<(int, int), nat>,
    cell: IVec2,
    dir: IVec2,
    dst2: IVec2,
)
    requires
        raw.len() == rw * rh,
        cell_centre(cell.x as int, cell.y as int, rw, rh),
        rank.dom().contains((cell.x as int, cell.y as int)),
        is_axis_unit(dir),
        dst2.x == cell.x + 2 * dir.x,
        dst2.y == cell.y + 2 * dir.y,
        cell_centre(dst2.x as int, dst2.y as int, rw, rh),
        raw_at(raw, rw, dst2.x as int, dst2.y as int),
        !raw_at(raw, rw, 1, 1),
        raw2 == raw.update((cell.x + dir.x) + (cell.y + dir.y) * rw, false).update(
            dst2.x + dst2.y * rw,
            false,
        ),
        tree_ranked(raw, rw, rh, rank),
        tree_links(raw, rw, rh, rank),
    ensures
        tree_links(
            raw2,
            rw,
            rh,
            rank.insert(
                (dst2.x as int, dst2.y as int),
                rank[(cell.x as int, cell.y as int)] + 1,
            ),
        ),
{
    let cx = cell.x as int;
    let cy = cell.y as int;
    let x1 = cx + dir.x;
    let y1 = cy + dir.y;
    let x2 = dst2.x as int;
    let y2 = dst2.y as int;
    let rank2 = rank.insert((x2, y2), rank[(cx, cy)] + 1);
    assert(!rank.dom().contains((x2, y2)));
    assert(cell_centre(1, 1, rw, rh));
    assert(rank.dom().contains((1int, 1int)));
    assert(!(x2 == 1 && y2 == 1));
    assert forall|x: int, y: int| #[trigger]
        rank2.dom().contains((x, y)) && !(x == 1 && y == 1) implies link_count(
        raw2,
        rw,
        rank2,
        x,
        y,
    ) == 1 by {
        if x == x2 && y == y2 {
            // Only the wall back to `cell` links the new centre downwards.
            reveal(link_count);
            assert forall|dx: int, dy: int|
                ((dx == 1 && dy == 0) || (dx == -1 && dy == 0) || (dx == 0 && dy == 1) || (dx == 0
                    && dy == -1)) && !(dx == -dir.x && dy == -dir.y) implies !#[trigger] link_lower(
                raw2,
                rw,
                rank2,
                x,
                y,
                dx,
                dy,
            ) by {
                let wx = x + dx;
                let wy = y + dy;
                lemma_two_carved(raw, rw, rh, x1, y1, x2, y2, wx, wy);
                if rank2.dom().contains((x + 2 * dx, y + 2 * dy)) {
                    assert(rank.dom().contains((x + 2 * dx, y + 2 * dy)));
                    assert(cell_centre(x + 2 * dx, y + 2 * dy, rw, rh));
                    if !raw_at(raw, rw, wx, wy) {
                        if dy == 0 {
                            assert(cell_centre(wx - 1, wy, rw, rh) && cell_centre(wx + 1, wy, rw, rh));
                        } else {
                            assert(cell_centre(wx, wy - 1, rw, rh) && cell_centre(wx, wy + 1, rw, rh));
                        }
                        assert(false);
                    }
                }
            }
            lemma_two_carved(raw, rw, rh, x1, y1, x2, y2, x1, y1);
            assert(x + -dir.x == x1 && y + -dir.y == y1);
            assert(x + 2 * -dir.x == cx && y + 2 * -dir.y == cy);
            assert(rank2[(cx, cy)] == rank[(cx, cy)]);
            assert(link_lower(raw2, rw, rank2, x, y, -dir.x, -dir.y));
            assert(!link_lower(raw2, rw, rank2, x, y, 1, 0) || (-dir.x == 1 && -dir.y == 0));
            assert(!link_lower(raw2, rw, rank2, x, y, -1, 0) || (-dir.x == -1 && -dir.y == 0));
            assert(!link_lower(raw2, rw, rank2, x, y, 0, 1) || (-dir.x == 0 && -dir.y == 1));
            assert(!link_lower(raw2, rw, rank2, x, y, 0, -1) || (-dir.x == 0 && -dir.y == -1));
        } else {
            assert(rank.dom().contains((x, y)));
            assert(link_count(raw, rw, rank, x, y) == 1);
            lemma_dig_link(raw, raw2, rw, rh, rank, cell, dir, dst2, x, y, 1, 0);
            lemma_dig_link(raw, raw2, rw, rh, rank, cell, dir, dst2, x, y, -1, 0);
            lemma_dig_link(raw, raw2, rw, rh, rank, cell, dir, dst2, x, y, 0, 1);
            lemma_dig_link(raw, raw2, rw, rh, rank, cell, dir, dst2, x, y, 0, -1);
            reveal(link_count);
        }
    }
    assert(rank2[(1int, 1int)] == rank[(1int, 1int)]);
    assert forall|x: int, y: int|
        cell_centre(x - 1, y, rw, rh) && cell_centre(x + 1, y, rw, rh) && !#[trigger] raw_at(
            raw2,
            rw,
            x,
            y,
        ) implies rank2.dom().contains((x - 1, y)) && rank2.dom().contains((x + 1, y))
        && rank2[(x - 1, y)] != rank2[(x + 1, y)] by {
        lemma_two_carved(raw, rw, rh, x1, y1, x2, y2, x, y);
        if !(x == x1 && y == y1) {
            assert(!raw_at(raw, rw, x, y));
        }
    }
    assert forall|x: int, y: int|
        cell_centre(x, y - 1, rw, rh) && cell_centre(x, y + 1, rw, rh) && !#[trigger] raw_at(
            raw2,
            rw,
            x,
            y,
        ) implies rank2.dom().contains((x, y - 1)) && rank2.dom().contains((x, y + 1))
        && rank2[(x, y - 1)] != rank2[(x, y + 1)] by {
        lemma_two_carved(raw, rw, rh, x1, y1, x2, y2, x, y);
        if !(x == x1 && y == y1) {
            assert(!raw_at(raw, rw, x, y));
        }
    }
}

/// A centre from which no direction can be dug has all its neighbours
/// carved.
proof fn lemma_stuck(raw: Seq<bool>, rw: int, rh: int, c: IVec2)
    requires
        cell_centre(c.x as int, c.y as int, rw, rh),
        !dig_ok(raw, rw, rh, c, IVec2 { x: 1, y: 0 }),
        !dig_ok(raw, rw, rh, c, IVec2 { x: 0, y: 1 }),
        !dig_ok(raw, rw, rh, c, IVec2 { x: -1i32, y: 0 }),
        !dig_ok(raw, rw, rh, c, IVec2 { x: 0, y: -1i32 }),
    ensures
        surrounded(raw, rw, rh, c.x as int, c.y as int),
{
    reveal(surrounded);
}

/// Popping a cell whose neighbours are all carved keeps every carved centre
/// off the stack surrounded.
proof fn lemma_pop_step(raw: Seq<bool>, rw: int, rh: int, cells: Seq<IVec2>)
    requires
        cells.len() > 0,
        surrounded(raw, rw, rh, cells.last().x as int, cells.last().y as int),
        explored(raw, rw, rh, cells),
    ensures
        explored(raw, rw, rh, cells.drop_last()),
{
    let rest = cells.drop_last();
    assert forall|x: int, y: int|
        cell_centre(x, y, rw, rh) && !#[trigger] raw_at(raw, rw, x, y) && !on_stack(
            rest,
            x,
            y,
        ) implies surrounded(raw, rw, rh, x, y) by {
        if on_stack(cells, x, y) {
            let k = choose|k: int| 0 <= k < cells.len() && cells[k].x == x && cells[k].y == y;
            if k < rest.len() {
                assert(rest[k] == cells[k]);
            }
        }
    }
}

/// Once no centre waits on the stack and the first cell is carved, every
/// cell centre is carved.
proof fn lemma_all_carved(raw: Seq<bool>, rw: int, rh: int, x: int, y: int)
    requires
        explored(raw, rw, rh, Seq::empty()),
        !raw_at(raw, rw, 1, 1),
        cell_centre(x, y, rw, rh),
    ensures
        !raw_at(raw, rw, x, y),
    decreases x + y,
{
    if x > 1 {
        lemma_all_carved(raw, rw, rh, x - 2, y);
        assert(!on_stack(Seq::<IVec2>::empty(), x - 2, y));
        assert(surrounded(raw, rw, rh, x - 2, y));
        reveal(surrounded);
    } else if y > 1 {
        lemma_all_carved(raw, rw, rh, x, y - 2);
        assert(!on_stack(Seq::<IVec2>::empty(), x, y - 2));
        assert(surrounded(raw, rw, rh, x, y - 2));
        reveal(surrounded);
    }
}

/// A way of at most `a` moves is also one of at most `b >= a` moves.
proof fn lemma_reaches_more(m: MazeView, p: IVec2, q: IVec2, a: nat, b: nat)
    requires
        m.reaches(p, q, a),
        a <= b,
    ensures
        m.reaches(p, q, b),
    decreases a,
{
    if p != q {
        let d = choose|d: IVec2|
            #[trigger] m.can_go(p, d) && m.reaches(moved(p, d), q, (a - 1) as nat);
        lemma_reaches_more(m, moved(p, d), q, (a - 1) as nat, (b - 1) as nat);
        assert(m.can_go(p, d) && m.reaches(moved(p, d), q, (b - 1) as nat));
    }
}

/// One move through an open wall in front of a way of `n - 1` moves makes a
/// way of `n` moves.
proof fn lemma_reaches_step(m: MazeView, p: IVec2, d: IVec2, q: IVec2, n: nat)
    requires
        n > 0,
        m.can_go(p, d),
        m.reaches(moved(p, d), q, (n - 1) as nat),
    ensures
        m.reaches(p, q, n),
{
}

/// A carved wall next to centre `(2 cx + 1, 2 cy + 1)` leaves the way open
/// from cell `(cx, cy)` in that direction.
proof fn lemma_carved_wall_open(m: MazeView, raw: Seq<bool>, cx: int, cy: int, dx: int, dy: int)
    requires
        m.wf(),
        generation_fits(m.w, m.h),
        forall|x: int, y: int|
            #![trigger m.tile(x, y)]
            m.in_grid(x, y) ==> m.tile(x, y) == flags_from_raw(raw, m.rw(), x, y),
        m.in_grid(cx, cy),
        (dx == 1 && dy == 0) || (dx == -1 && dy == 0) || (dx == 0 && dy == 1) || (dx == 0 && dy
            == -1),
        !raw_at(raw, m.rw(), 2 * cx + 1 + dx, 2 * cy + 1 + dy),
    ensures
        m.can_go(IVec2 { x: cx as i32, y: cy as i32 }, IVec2 { x: dx as i32, y: dy as i32 }),
{
    lemma_flat_index(cx, cy, m.w as int, m.h as int);
    assert(m.tile(cx, cy) == flags_from_raw(raw, m.rw(), cx, cy));
    assert(m.tiles[cx + cy * m.w] == m.tile(cx, cy));
}

/// A ranked centre other than the first cell's has a direction towards a
/// neighbour of lower rank through a carved wall.
proof fn lemma_parent_dir(raw: Seq<bool>, rw: int, rank: Map<(int, int), nat>, x: int, y: int) -> (r: (
    int,
    int,
))
    requires
        has_parent(raw, rw, rank, x, y),
    ensures
        (r.0 == 1 && r.1 == 0) || (r.0 == -1 && r.1 == 0) || (r.0 == 0 && r.1 == 1) || (r.0 == 0
            && r.1 == -1),
        parent_via(raw, rw, rank, x, y, r.0, r.1),
{
    reveal(has_parent);
    if parent_via(raw, rw, rank, x, y, 1, 0) {
        (1, 0)
    } else if parent_via(raw, rw, rank, x, y, -1, 0) {
        (-1, 0)
    } else if parent_via(raw, rw, rank, x, y, 0, 1) {
        (0, 1)
    } else {
        (0, -1)
    }
}

/// In a maze read off a ranked carving, cell `(cx, cy)` leads to the first
/// cell in at most as many moves as the rank of its centre.
proof fn lemma_leads_to_origin(
    m: MazeView,
    raw: Seq<bool>,
    rank: Map<(int, int), nat>,
    cx: int,
    cy: int,
)
    requires
        m.wf(),
        generation_fits(m.w, m.h),
        raw.len() == m.rw() * m.rh(),
        forall|x: int, y: int|
            #![trigger m.tile(x, y)]
            m.in_grid(x, y) ==> m.tile(x, y) == flags_from_raw(raw, m.rw(), x, y),
        tree_ranked(raw, m.rw(), m.rh(), rank),
        m.in_grid(cx, cy),
        rank.dom().contains((2 * cx + 1, 2 * cy + 1)),
    ensures
        m.reaches(
            IVec2 { x: cx as i32, y: cy as i32 },
            IVec2 { x: 0, y: 0 },
            rank[(2 * cx + 1, 2 * cy + 1)],
        ),
    decreases rank[(2 * cx + 1, 2 * cy + 1)],
{
    let rw = m.rw();
    let rx = 2 * cx + 1;
    let ry = 2 * cy + 1;
    let p = IVec2 { x: cx as i32, y: cy as i32 };
    let origin = IVec2 { x: 0, y: 0 };
    if !(cx == 0 && cy == 0) {
        assert(has_parent(raw, rw, rank, rx, ry));
        let n = rank[(rx, ry)];
        let (dx, dy) = lemma_parent_dir(raw, rw, rank, rx, ry);
        let qx = cx + dx;
        let qy = cy + dy;
        assert(rank.dom().contains((2 * qx + 1, 2 * qy + 1)));
        assert(cell_centre(2 * qx + 1, 2 * qy + 1, rw, m.rh()));
        lemma_leads_to_origin(m, raw, rank, qx, qy);
        let q = IVec2 { x: qx as i32, y: qy as i32 };
        lemma_reaches_more(m, q, origin, rank[(2 * qx + 1, 2 * qy + 1)], (n - 1) as nat);
        let d = IVec2 { x: dx as i32, y: dy as i32 };
        lemma_carved_wall_open(m, raw, cx, cy, dx, dy);
        assert(moved(p, d) == q);
        lemma_reaches_step(m, p, d, origin, n);
    }
}

/// Carving more, twice, is carving more.
proof fn lemma_carves_trans(a: Seq<bool>, b: Seq<bool>, c: Seq<bool>)
    requires
        carves_more(a, b),
        carves_more(b, c),
    ensures
        carves_more(a, c),
{
    assert forall|i: int| #![trigger a[i]] #![trigger c[i]] 0 <= i < a.len() && !a[i] implies !c[i] by {
        assert(!b[i]);
    }
}

/// Everything the carving loop keeps, bundled: the border stays walled,
/// the cells on the stack and the start are carved, the carving is explored
/// up to the stack, ranked as a tree hung from the first cell, and only
/// carves what the carving `raw0` it started from had carved and more.
#[verifier::opaque]
spec fn carving_ok(
    raw: Seq<bool>,
    raw0: Seq<bool>,
    rw: int,
    rh: int,
    cells: Seq<IVec2>,
    rank: Map<(int, int), nat>,
    x: int,
    y: int,
) -> bool {
    &&& raw.len() == rw * rh
    &&& raw0.len() == rw * rh
    &&& border_walled(raw, rw, rh)
    &&& forall|k: int|
        0 <= k < cells.len() ==> !raw_at(raw, rw, (#[trigger] cells[k]).x as int, cells[k].y as int)
    &&& explored(raw, rw, rh, cells)
    &&& tree_ranked(raw, rw, rh, rank)
    &&& tree_links(raw, rw, rh, rank)
    &&& !raw_at(raw, rw, 1, 1)
    &&& carves_more(raw0, raw)
    &&& !raw_at(raw, rw, x, y)
}

/// One dig of the carving loop keeps what the loop keeps; the new centre
/// gets the rank one above the cell it was reached from.
proof fn lemma_carve_dig(
    before: Seq<bool>,
    raw2: Seq<bool>,
    raw0: Seq<bool>,
    rw: int,
    rh: int,
    cells: Seq<IVec2>,
    rank: Map<(int, int), nat>,
    x: int,
    y: int,
    cell: IVec2,
    dir: IVec2,
    dst2: IVec2,
) -> (rank2: Map<(int, int), nat>)
    requires
        carving_ok(before, raw0, rw, rh, cells, rank, x, y),
        forall|k: int|
            0 <= k < cells.len() ==> cell_centre(
                (#[trigger] cells[k]).x as int,
                cells[k].y as int,
                rw,
                rh,
            ),
        cell_centre(x, y, rw, rh),
        cells.len() > 0,
        cell == cells.last(),
        is_axis_unit(dir),
        dig_ok(before, rw, rh, cell, dir),
        dst2.x == cell.x + 2 * dir.x,
        dst2.y == cell.y + 2 * dir.y,
        raw2 == before.update((cell.x + dir.x) + (cell.y + dir.y) * rw, false).update(
            dst2.x + dst2.y * rw,
            false,
        ),
    ensures
        carving_ok(raw2, raw0, rw, rh, cells.push(dst2), rank2, x, y),
        border_walled(raw2, rw, rh),
        cell_centre(dst2.x as int, dst2.y as int, rw, rh),
{
    reveal(carving_ok);
    let cx = cell.x as int;
    let cy = cell.y as int;
    let x1 = cx + dir.x;
    let y1 = cy + dir.y;
    assert(cell_centre(cx, cy, rw, rh));
    assert(!raw_at(before, rw, cx, cy));
    assert(rank.dom().contains((cx, cy)));
    lemma_clear_inside(before, rw, rh, x1, y1);
    let mid = before.update(x1 + y1 * rw, false);
    assert(cell_centre(dst2.x as int, dst2.y as int, rw, rh));
    lemma_flat_coords(x1, y1, rw);
    lemma_flat_coords(dst2.x as int, dst2.y as int, rw);
    lemma_clear_inside(mid, rw, rh, dst2.x as int, dst2.y as int);
    lemma_dig_tree(before, raw2, rw, rh, rank, cell, dir, dst2);
    let rank2 = lemma_dig_step(before, raw2, rw, rh, cells, rank, cell, dir, dst2);
    lemma_carves_trans(raw0, before, raw2);
    lemma_inside_not_border(x, y, rw, rh);
    lemma_inside_not_border(1, 1, rw, rh);
    let c2 = cells.push(dst2);
    assert forall|k: int| 0 <= k < c2.len() implies !raw_at(
        raw2,
        rw,
        (#[trigger] c2[k]).x as int,
        c2[k].y as int,
    ) by {
        if k < cells.len() {
            assert(c2[k] == cells[k]);
            assert(cell_centre(cells[k].x as int, cells[k].y as int, rw, rh));
            lemma_inside_not_border(cells[k].x as int, cells[k].y as int, rw, rh);
        }
    }
    rank2
}

/// Popping a cell from which nothing can be dug keeps what the loop keeps.
proof fn lemma_carve_pop(
    raw: Seq<bool>,
    raw0: Seq<bool>,
    rw: int,
    rh: int,
    cells: Seq<IVec2>,
    rank: Map<(int, int), nat>,
    x: int,
    y: int,
)
    requires
        carving_ok(raw, raw0, rw, rh, cells, rank, x, y),
        cells.len() > 0,
        cell_centre(cells.last().x as int, cells.last().y as int, rw, rh),
        !dig_ok(raw, rw, rh, cells.last(), IVec2 { x: 1, y: 0 }),
        !dig_ok(raw, rw, rh, cells.last(), IVec2 { x: 0, y: 1 }),
        !dig_ok(raw, rw, rh, cells.last(), IVec2 { x: -1i32, y: 0 }),
        !dig_ok(raw, rw, rh, cells.last(), IVec2 { x: 0, y: -1i32 }),
    ensures
        carving_ok(raw, raw0, rw, rh, cells.drop_last(), rank, x, y),
{
    reveal(carving_ok);
    lemma_stuck(raw, rw, rh, cells.last());
    lemma_pop_step(raw, rw, rh, cells);
    let rest = cells.drop_last();
    assert forall|k: int| 0 <= k < rest.len() implies !raw_at(
        raw,
        rw,
        (#[trigger] rest[k]).x as int,
        rest[k].y as int,
    ) by {
        assert(rest[k] == cells[k]);
    }
}

/// The four directions in which the carver looks, in order.
fn directions() -> (r: Vec<IVec2>)
    ensures
        r@.len() == 4,
        forall|k: int| 0 <= k < 4 ==> #[trigger] is_axis_unit(r@[k]),
        r@[0] == (IVec2 { x: 1, y: 0 }),
        r@[1] == (IVec2 { x: 0, y: 1 }),
        r@[2] == (IVec2 { x: -1i32, y: 0 }),
        r@[3] == (IVec2 { x: 0, y: -1i32 }),
{
    let mut v: Vec<IVec2> = Vec::new();
    v.push(IVec2 { x: 1, y: 0 });
    v.push(IVec2 { x: 0, y: 1 });
    v.push(IVec2 { x: -1, y: 0 });
    v.push(IVec2 { x: 0, y: -1 });
    v
}

fn contains_dir(v: &Vec<IVec2>, d: IVec2) -> (r: bool)
    ensures
        r == v@.contains(d),
{
    let mut k: usize = 0;
    while k < v.len()
        invariant
            k <= v.len(),
            forall|j: int| 0 <= j < k ==> v@[j] != d,
        decreases v.len() - k,
    {
        if v[k] == d {
            assert(v@[k as int] == d);
            return true;
        }
        k = k + 1;
    }
    false
}

impl MazeGenerator {
    /// A `w` by `h` maze without any wall.
    pub fn new(w: usize, h: usize) -> (r: MazeGenerator)
        requires
            w * h <= usize::MAX,
        ensures
            r@.w == w,
            r@.h == h,
            r@.wf(),
            forall|i: int| 0 <= i < w * h ==> wall_count(#[trigger] r@.tiles[i]) == 0,
    {
        let n = w * h;
        let mut tiles: Vec<CollisionFlags> = Vec::new();
        let mut k: usize = 0;
        while k < n
            invariant
                k <= n,
                tiles@.len() == k,
                forall|i: int| 0 <= i < k ==> wall_count(#[trigger] tiles@[i]) == 0,
            decreases n - k,
        {
            tiles.push(CollisionFlags::none());
            k = k + 1;
        }
        MazeGenerator { w, h, tiles }
    }

    pub fn height(&self) -> (r: usize)
        ensures
            r == self@.h,
    {
        self.h
    }

    pub fn width(&self) -> (r: usize)
        ensures
            r == self@.w,
    {
        self.w
    }

    /// The walls of cell number `i`, row after row (the text form of the
    /// maze prints them).
    pub fn tile_at(&self, i: usize) -> (r: Option<CollisionFlags>)
        ensures
            i < self@.tiles.len() ==> r == Some(self@.tiles[i as int]),
            i >= self@.tiles.len() ==> r is None,
    {
        if i < self.tiles.len() {
            Some(self.tiles[i])
        } else {
            None
        }
    }

    fn index(&self, x: usize, y: usize) -> (r: usize)
        requires
            x + y * self.w <= usize::MAX,
        ensures
            r == x + y * self.w,
    {
        x + y * self.w
    }

    /// Carves passages into the doubled grid, starting from the cell centre
    /// `(x, y)` and backtracking when stuck. The border stays walled.
    /// Every carved centre stays joined to the first cell's: the ranking
    /// `rank` of the carved centres is extended to the ones carved here.
    #[verifier::spinoff_prover]
    fn grow_maze(
        &self,
        x: i32,
        y: i32,
        raw_tiles: &mut Vec<bool>,
        Ghost(rank): Ghost<Map<(int, int), nat>>,
    ) -> (out: Ghost<Map<(int, int), nat>>)
        requires
            generation_fits(self@.w, self@.h),
            old(raw_tiles)@.len() == self@.rw() * self@.rh(),
            cell_centre(x as int, y as int, self@.rw(), self@.rh()),
            border_walled(old(raw_tiles)@, self@.rw(), self@.rh()),
            explored(old(raw_tiles)@, self@.rw(), self@.rh(), Seq::empty()),
            tree_ranked(old(raw_tiles)@, self@.rw(), self@.rh(), rank),
            (x == 1 && y == 1) || !raw_at(old(raw_tiles)@, self@.rw(), x as int, y as int),
            tree_links(old(raw_tiles)@, self@.rw(), self@.rh(), rank),
            (x == 1 && y == 1) || !raw_at(old(raw_tiles)@, self@.rw(), 1, 1),
        ensures
            tree_links(final(raw_tiles)@, self@.rw(), self@.rh(), out@),
            final(raw_tiles)@.len() == old(raw_tiles)@.len(),
            border_walled(final(raw_tiles)@, self@.rw(), self@.rh()),
            explored(final(raw_tiles)@, self@.rw(), self@.rh(), Seq::empty()),
            tree_ranked(final(raw_tiles)@, self@.rw(), self@.rh(), out@),
            carves_more(old(raw_tiles)@, final(raw_tiles)@),
            !raw_at(final(raw_tiles)@, self@.rw(), x as int, y as int),
    {
        let ghost rw: int = self@.rw();
        let ghost rh: int = self@.rh();
        let ghost raw0 = raw_tiles@;
        let raw_w: usize = self.w * 2 + 1;
        let mut last_dir = IVec2 { x: 0, y: 0 };
        proof {
            lemma_clear_inside(raw_tiles@, rw, rh, x as int, y as int);
            assert((x as int) + (y as int) * rw < rw * rh);
            assert((y as int) * rw <= (x as int) + (y as int) * rw);
        }
        let start = (x as usize) + (y as usize) * raw_w;
        raw_tiles.set(start, false);
        let ghost mut rk = lemma_start_step(raw0, raw_tiles@, rw, rh, rank, IVec2 { x, y });
        proof {
            lemma_flat_coords(x as int, y as int, rw);
            lemma_start_tree(raw0, raw_tiles@, rw, rh, rank, rk, IVec2 { x, y });
            lemma_inside_not_border(1, 1, rw, rh);
        }
        let mut cells: Vec<IVec2> = Vec::new();
        cells.push(IVec2 { x, y });
        assert(cells@ == seq![IVec2 { x, y }]);
        proof {
            reveal(carving_ok);
            assert(cells@[0] == IVec2 { x, y });
            assert(carving_ok(raw_tiles@, raw0, rw, rh, cells@, rk, x as int, y as int));
        }
        let dirs = directions();
        while cells.len() > 0
            invariant
                generation_fits(self@.w, self@.h),
                rw == 2 * self@.w + 1,
                rh == 2 * self@.h + 1,
                raw_w == rw,
                raw_tiles@.len() == rw * rh,
                raw0.len() == rw * rh,
                forall|k: int|
                    0 <= k < cells@.len() ==> cell_centre(
                        #[trigger] cells@[k].x as int,
                        cells@[k].y as int,
                        rw,
                        rh,
                    ),
                dirs@.len() == 4,
                forall|k: int| 0 <= k < 4 ==> #[trigger] is_axis_unit(dirs@[k]),
                dirs@[0] == (IVec2 { x: 1, y: 0 }),
                dirs@[1] == (IVec2 { x: 0, y: 1 }),
                dirs@[2] == (IVec2 { x: -1i32, y: 0 }),
                dirs@[3] == (IVec2 { x: 0, y: -1i32 }),
                carving_ok(raw_tiles@, raw0, rw, rh, cells@, rk, x as int, y as int),
                border_walled(raw_tiles@, rw, rh),
                cell_centre(x as int, y as int, rw, rh),
            decreases 2 * count_true(raw_tiles@) + cells@.len(),
        {
            let cell = cells[cells.len() - 1];
            assert(cell_centre(cell.x as int, cell.y as int, rw, rh));
            let mut unmade_cells: Vec<IVec2> = Vec::new();
            let mut k: usize = 0;
            while k < 4
                invariant
                    k <= 4,
                    dirs@.len() == 4,
                    forall|j: int| 0 <= j < 4 ==> #[trigger] is_axis_unit(dirs@[j]),
                    generation_fits(self@.w, self@.h),
                    rw == 2 * self@.w + 1,
                    rh == 2 * self@.h + 1,
                    raw_tiles@.len() == rw * rh,
                    cell_centre(cell.x as int, cell.y as int, rw, rh),
                    forall|j: int|
                        0 <= j < unmade_cells@.len() ==> is_axis_unit(#[trigger] unmade_cells@[j])
                            && dig_ok(raw_tiles@, rw, rh, cell, unmade_cells@[j]),
                    unmade_cells@.len() == 0 ==> forall|j: int|
                        0 <= j < k ==> !dig_ok(raw_tiles@, rw, rh, cell, #[trigger] dirs@[j]),
                decreases 4 - k,
            {
                let d = dirs[k];
                assert(is_axis_unit(dirs@[k as int]));
                if self.can_dig(cell, d, raw_tiles) {
                    unmade_cells.push(d);
                }
                k = k + 1;
            }
            if unmade_cells.len() > 0 {
                let dir = if contains_dir(&unmade_cells, last_dir) && rand_coin() {
                    let ghost j = choose|j: int|
                        0 <= j < unmade_cells@.len() && unmade_cells@[j] == last_dir;
                    assert(is_axis_unit(unmade_cells@[j]));
                    last_dir
                } else {
                    let j = rand_below(unmade_cells.len());
                    assert(is_axis_unit(unmade_cells@[j as int]));
                    unmade_cells[j]
                };
                assert(dig_ok(raw_tiles@, rw, rh, cell, dir));
                let dst = IVec2 { x: cell.x + dir.x, y: cell.y + dir.y };
                let dst2 = IVec2 { x: cell.x + dir.x * 2, y: cell.y + dir.y * 2 };
                let ghost before = raw_tiles@;
                proof {
                    lemma_clear_inside(before, rw, rh, dst.x as int, dst.y as int);
                    lemma_flat_coords(dst.x as int, dst.y as int, rw);
                    lemma_flat_coords(dst2.x as int, dst2.y as int, rw);
                    lemma_flat_index(dst2.x as int, dst2.y as int, rw, rh);
                    lemma_flat_index(dst.x as int, dst.y as int, rw, rh);
                    assert((dst.y as int) * rw <= (dst.x as int) + (dst.y as int) * rw);
                    assert((dst2.y as int) * rw <= (dst2.x as int) + (dst2.y as int) * rw);
                }
                let i1 = (dst.x as usize) + (dst.y as usize) * raw_w;
                raw_tiles.set(i1, false);
                let ghost mid = raw_tiles@;
                proof {
                    assert(i1 as int != dst2.x + dst2.y * rw);
                    assert(mid[dst2.x + dst2.y * rw] == before[dst2.x + dst2.y * rw]);
                    lemma_clear_inside(mid, rw, rh, dst2.x as int, dst2.y as int);
                }
                let i2 = (dst2.x as usize) + (dst2.y as usize) * raw_w;
                raw_tiles.set(i2, false);
                proof {
                    rk = lemma_carve_dig(
                        before,
                        raw_tiles@,
                        raw0,
                        rw,
                        rh,
                        cells@,
                        rk,
                        x as int,
                        y as int,
                        cell,
                        dir,
                        dst2,
                    );
                }
                cells.push(dst2);
                last_dir = dir;
            } else {
                proof {
                    assert(!dig_ok(raw_tiles@, rw, rh, cell, dirs@[0]));
                    assert(!dig_ok(raw_tiles@, rw, rh, cell, dirs@[1]));
                    assert(!dig_ok(raw_tiles@, rw, rh, cell, dirs@[2]));
                    assert(!dig_ok(raw_tiles@, rw, rh, cell, dirs@[3]));
                    lemma_carve_pop(raw_tiles@, raw0, rw, rh, cells@, rk, x as int, y as int);
                }
                cells.pop();
                last_dir = IVec2 { x: 0, y: 0 };
            }
        }
        proof {
            reveal(carving_ok);
            assert(cells@ =~= Seq::<IVec2>::empty());
        }
        Ghost(rk)
    }

    /// Whether the carver may dig from `p` in direction `d`.
    fn can_dig(&self, p: IVec2, d: IVec2, raw_tiles: &Vec<bool>) -> (r: bool)
        requires
            generation_fits(self@.w, self@.h),
            raw_tiles@.len() == self@.rw() * self@.rh(),
            cell_centre(p.x as int, p.y as int, self@.rw(), self@.rh()),
            is_axis_unit(d),
        ensures
            r == dig_ok(raw_tiles@, self@.rw(), self@.rh(), p, d),
    {
        let ghost rw: int = self@.rw();
        let ghost rh: int = self@.rh();
        let dst_x = p.x + d.x * 3;
        let dst_y = p.y + d.y * 3;
        let sx = self.w as i32 * 2 + 1;
        let sy = self.h as i32 * 2 + 1;
        if dst_x < 0 || dst_x >= sx || dst_y < 0 || dst_y >= sy {
            return false;
        }
        let x2 = p.x + d.x * 2;
        let y2 = p.y + d.y * 2;
        proof {
            lemma_flat_index(x2 as int, y2 as int, rw, rh);
        }
        let i = (x2 as usize) + (y2 as usize) * (self.w * 2 + 1);
        raw_tiles[i]
    }

    /// Reads the walls of every cell off the carved doubled grid.
    fn compress(&mut self, raw_tiles: Vec<bool>)
        requires
            old(self)@.wf(),
            generation_fits(old(self)@.w, old(self)@.h),
            raw_tiles@.len() == old(self)@.rw() * old(self)@.rh(),
        ensures
            final(self)@.w == old(self)@.w,
            final(self)@.h == old(self)@.h,
            final(self)@.wf(),
            forall|x: int, y: int|
                #![trigger final(self)@.tile(x, y)]
                final(self)@.in_grid(x, y) ==> final(self)@.tile(x, y) == flags_from_raw(
                    raw_tiles@,
                    old(self)@.rw(),
                    x,
                    y,
                ),
    {
        let ghost rw: int = self@.rw();
        let ghost rh: int = self@.rh();
        let ghost w: int = self@.w as int;
        let ghost h: int = self@.h as int;
        let raw_w: usize = self.w * 2 + 1;
        let tiles_len = self.tiles.len();
        assert(w * h <= usize::MAX);
        let mut cy: usize = 0;
        while cy < self.h
            invariant
                self@.w == w,
                self@.h == h,
                self@.wf(),
                generation_fits(self@.w, self@.h),
                rw == 2 * w + 1,
                rh == 2 * h + 1,
                raw_w == rw,
                raw_tiles@.len() == rw * rh,
                w * h <= usize::MAX,
                cy <= h,
                forall|x: int, y: int|
                    #![trigger self@.tile(x, y)]
                    0 <= x < w && 0 <= y < cy ==> self@.tile(x, y) == flags_from_raw(
                        raw_tiles@,
                        rw,
                        x,
                        y,
                    ),
            decreases h - cy,
        {
            let mut cx: usize = 0;
            while cx < self.w
                invariant
                    self@.w == w,
                    self@.h == h,
                    self@.wf(),
                    generation_fits(self@.w, self@.h),
                    rw == 2 * w + 1,
                    rh == 2 * h + 1,
                    raw_w == rw,
                    raw_tiles@.len() == rw * rh,
                    w * h <= usize::MAX,
                    cy < h,
                    cx <= w,
                    forall|x: int, y: int|
                        #![trigger self@.tile(x, y)]
                        0 <= x < w && 0 <= y < h && (y < cy || (y == cy && x < cx))
                            ==> self@.tile(x, y) == flags_from_raw(raw_tiles@, rw, x, y),
                decreases w - cx,
            {
                let rx = 2 * cx + 1;
                let ry = 2 * cy + 1;
                proof {
                    lemma_flat_index(rx as int, ry as int - 1, rw, rh);
                    lemma_flat_index(rx as int, ry as int + 1, rw, rh);
                    lemma_flat_index(rx as int - 1, ry as int, rw, rh);
                    lemma_flat_index(rx as int + 1, ry as int, rw, rh);
                    lemma_flat_index(cx as int, cy as int, w, h);
                    assert((cy as int) * w <= (cx as int) + (cy as int) * w);
                    assert((ry as int - 1) * rw <= (rx as int) + (ry as int - 1) * rw);
                    assert((ry as int + 1) * rw <= (rx as int) + (ry as int + 1) * rw);
                    assert((ry as int) * rw <= (rx as int - 1) + (ry as int) * rw);
                }
                let up = raw_tiles[rx + (ry - 1) * raw_w];
                let down = raw_tiles[rx + (ry + 1) * raw_w];
                let left = raw_tiles[(rx - 1) + ry * raw_w];
                let right = raw_tiles[(rx + 1) + ry * raw_w];
                let col = CollisionFlags { up, down, left, right };
                let index = cx + cy * self.w;
                let ghost old_tiles = self@;
                self.tiles.set(index, col);
                proof {
                    assert forall|x: int, y: int|
                        #![trigger self@.tile(x, y)]
                        0 <= x < w && 0 <= y < h && (y < cy || (y == cy && x <= cx))
                            implies self@.tile(x, y) == flags_from_raw(
                            raw_tiles@,
                            rw,
                            x,
                            y,
                        ) by {
                        lemma_flat_index(x, y, w, h);
                        if x == cx && y == cy {
                        } else {
                            lemma_flat_coords(x, y, w);
                            lemma_flat_coords(cx as int, cy as int, w);
                            assert(x + y * w != index);
                            assert(self@.tile(x, y) == old_tiles.tile(x, y));
                        }
                    }
                }
                cx = cx + 1;
            }
            cy = cy + 1;
        }
    }

    /// Generates a new random maze: every cell is carved, the outer border
    /// stays closed, the walls between neighbours agree from both sides, and
    /// from every cell a way through open walls leads to the first cell.
    pub fn generate(&mut self)
        requires
            old(self)@.wf(),
            generation_fits(old(self)@.w, old(self)@.h),
        ensures
            final(self)@.w == old(self)@.w,
            final(self)@.h == old(self)@.h,
            final(self)@.wf(),
            final(self)@.walled_in(),
            final(self)@.two_way(),
            final(self)@.all_lead_to_origin(),
            final(self)@.is_spanning_tree(),
    {
        let ghost rw: int = self@.rw();
        let ghost rh: int = self@.rh();
        let raw_w: usize = self.w * 2 + 1;
        let raw_h: usize = self.h * 2 + 1;
        let n = raw_w * raw_h;
        let mut raw_tiles: Vec<bool> = Vec::new();
        let mut k: usize = 0;
        while k < n
            invariant
                k <= n,
                n == rw * rh,
                raw_tiles@.len() == k,
                forall|i: int| 0 <= i < k ==> #[trigger] raw_tiles@[i],
            decreases n - k,
        {
            raw_tiles.push(true);
            k = k + 1;
        }
        let ghost mut rank: Map<(int, int), nat> = Map::empty();
        proof {
            assert forall|x: int, y: int| cell_centre(x, y, rw, rh) implies #[trigger] raw_at(
                raw_tiles@,
                rw,
                x,
                y,
            ) by {
                lemma_inside_not_border(x, y, rw, rh);
            }
            assert forall|x: int, y: int|
                cell_centre(x - 1, y, rw, rh) && cell_centre(x + 1, y, rw, rh) implies #[trigger] raw_at(
                raw_tiles@,
                rw,
                x,
                y,
            ) by {
                lemma_flat_index(x, y, rw, rh);
            }
            assert forall|x: int, y: int|
                cell_centre(x, y - 1, rw, rh) && cell_centre(x, y + 1, rw, rh) implies #[trigger] raw_at(
                raw_tiles@,
                rw,
                x,
                y,
            ) by {
                lemma_flat_index(x, y, rw, rh);
            }
            assert(tree_links(raw_tiles@, rw, rh, rank));
        }
        let mut hh: usize = 1;
        while hh < raw_h
            invariant
                self@.wf(),
                generation_fits(self@.w, self@.h),
                rw == 2 * self@.w + 1,
                rh == 2 * self@.h + 1,
                raw_w == rw,
                raw_h == rh,
                raw_tiles@.len() == rw * rh,
                border_walled(raw_tiles@, rw, rh),
                hh % 2 == 1,
                1 <= hh <= rh,
                explored(raw_tiles@, rw, rh, Seq::empty()),
                tree_ranked(raw_tiles@, rw, rh, rank),
                tree_links(raw_tiles@, rw, rh, rank),
                hh > 1 && cell_centre(1, 1, rw, rh) ==> !raw_at(raw_tiles@, rw, 1, 1),
            decreases rh - hh,
        {
            let mut ww: usize = 1;
            while ww < raw_w
                invariant
                    self@.wf(),
                    generation_fits(self@.w, self@.h),
                    rw == 2 * self@.w + 1,
                    rh == 2 * self@.h + 1,
                    raw_w == rw,
                    raw_h == rh,
                    raw_tiles@.len() == rw * rh,
                    border_walled(raw_tiles@, rw, rh),
                    hh % 2 == 1,
                    1 <= hh < rh,
                    ww % 2 == 1,
                    1 <= ww <= rw,
                    explored(raw_tiles@, rw, rh, Seq::empty()),
                    tree_ranked(raw_tiles@, rw, rh, rank),
                    tree_links(raw_tiles@, rw, rh, rank),
                    (hh > 1 || ww > 1) && cell_centre(1, 1, rw, rh) ==> !raw_at(raw_tiles@, rw, 1, 1),
                decreases rw - ww,
            {
                proof {
                    if hh > 1 || ww > 1 {
                        lemma_all_carved(raw_tiles@, rw, rh, ww as int, hh as int);
                    }
                }
                let ghost before = raw_tiles@;
                let grown = self.grow_maze(ww as i32, hh as i32, &mut raw_tiles, Ghost(rank));
                proof {
                    rank = grown@;
                    if hh > 1 || ww > 1 {
                        lemma_inside_not_border(1, 1, rw, rh);
                    }
                }
                ww = ww + 2;
            }
            hh = hh + 2;
        }
        let ghost raw = raw_tiles@;
        self.compress(raw_tiles);
        proof {
            lemma_compressed_walls(self@, raw);
            let m = self@;
            assert forall|x: int, y: int| #![trigger m.in_grid(x, y)] m.in_grid(x, y) implies m.joined(
                IVec2 { x: x as i32, y: y as i32 },
                IVec2 { x: 0, y: 0 },
            ) by {
                lemma_all_carved(raw, rw, rh, 2 * x + 1, 2 * y + 1);
                assert(rank.dom().contains((2 * x + 1, 2 * y + 1)));
                lemma_leads_to_origin(m, raw, rank, x, y);
            }
            assert forall|x: int, y: int| cell_centre(x, y, rw, rh) implies !#[trigger] raw_at(
                raw,
                rw,
                x,
                y,
            ) by {
                lemma_all_carved(raw, rw, rh, x, y);
            }
            lemma_tree_read_off(m, raw, rank);
        }
    }

    /// Whether one can leave cell `src` in direction `dir`: only the four
    /// unit directions can be open, and a cell index past the end answers no.
    pub fn can_go(&self, src: IVec2, dir: IVec2) -> (r: bool)
        requires
            self@.wf(),
            src.x >= 0,
            src.y >= 0,
            src.x + src.y * self@.w <= usize::MAX,
        ensures
            r == self@.can_go(src, dir),
    {
        let i = self.index(src.x as usize, src.y as usize);
        if i < self.tiles.len() {
            let tile = self.tiles[i];
            if dir.x == 1 && dir.y == 0 {
                !tile.right
            } else if dir.x == 0 && dir.y == 1 {
                !tile.down
            } else if dir.x == -1 && dir.y == 0 {
                !tile.left
            } else if dir.x == 0 && dir.y == -1 {
                !tile.up
            } else {
                false
            }
        } else {
            false
        }
    }

    fn is_deadend(&self, x: usize, y: usize) -> (r: bool)
        requires
            self@.wf(),
            x < self@.w,
            y < self@.h,
        ensures
            r == self@.is_deadend_index(x + y * self@.w),
    {
        // the vector's length bounds the index arithmetic below
        let _len = self.tiles.len();
        proof {
            lemma_flat_index(x as int, y as int, self@.w as int, self@.h as int);
        }
        let tile = self.tiles[self.index(x, y)];
        tile.count_ones() == 3
    }

    /// The cells with exactly three walls, row after row.
    pub fn get_deadends(&self) -> (r: Vec<IVec2>)
        requires
            self@.wf(),
            self@.w <= i32::MAX,
            self@.h <= i32::MAX,
        ensures
            r@ == self@.deadends(),
    {
        let ghost m = self@;
        let ghost w: int = self@.w as int;
        let ghost h: int = self@.h as int;
        let mut deadends: Vec<IVec2> = Vec::new();
        let mut y: usize = 0;
        while y < self.h
            invariant
                m == self@,
                w == m.w,
                h == m.h,
                m.wf(),
                m.w <= i32::MAX,
                m.h <= i32::MAX,
                y <= h,
                deadends@ == m.deadends_before((y * w) as nat),
            decreases h - y,
        {
            let mut x: usize = 0;
            while x < self.w
                invariant
                    m == self@,
                    w == m.w,
                    h == m.h,
                    m.wf(),
                    m.w <= i32::MAX,
                    m.h <= i32::MAX,
                    y < h,
                    x <= w,
                    deadends@ == m.deadends_before((x + y * w) as nat),
                decreases w - x,
            {
                proof {
                    lemma_flat_index(x as int, y as int, w, h);
                    lemma_flat_coords(x as int, y as int, w);
                }
                let ghost n: nat = (x + y * w + 1) as nat;
                if self.is_deadend(x, y) {
                    deadends.push(IVec2 { x: x as i32, y: y as i32 });
                }
                assert(deadends@ == m.deadends_before(n));
                x = x + 1;
            }
            proof {
                assert(y * w + w == (y + 1) * w) by (nonlinear_arith);
            }
            y = y + 1;
        }
        proof {
            assert(y * w == w * h) by (nonlinear_arith)
                requires
                    y == h,
            ;
        }
        deadends
    }
}

/// The walls read off a doubled grid whose border is walled close the maze
/// on every side and agree between neighbours.
proof fn lemma_compressed_walls(m: MazeView, raw: Seq<bool>)
    requires
        m.wf(),
        raw.len() == m.rw() * m.rh(),
        border_walled(raw, m.rw(), m.rh()),
        forall|x: int, y: int|
            #![trigger m.tile(x, y)]
            m.in_grid(x, y) ==> m.tile(x, y) == flags_from_raw(raw, m.rw(), x, y),
    ensures
        m.walled_in(),
        m.two_way(),
{
    lemma_compressed_walled_in(m, raw);
    lemma_compressed_two_way(m, raw);
}

proof fn lemma_compressed_walled_in(m: MazeView, raw: Seq<bool>)
    requires
        m.wf(),
        raw.len() == m.rw() * m.rh(),
        border_walled(raw, m.rw(), m.rh()),
        forall|x: int, y: int|
            #![trigger m.tile(x, y)]
            m.in_grid(x, y) ==> m.tile(x, y) == flags_from_raw(raw, m.rw(), x, y),
    ensures
        m.walled_in(),
{
    let rw = m.rw();
    let rh = m.rh();
    assert forall|x: int, y: int| #![trigger m.tile(x, y)] m.in_grid(x, y) implies {
        &&& (x == 0 ==> m.tile(x, y).left)
        &&& (x == m.w - 1 ==> m.tile(x, y).right)
        &&& (y == 0 ==> m.tile(x, y).up)
        &&& (y == m.h - 1 ==> m.tile(x, y).down)
    } by {
        let rx = 2 * x + 1;
        let ry = 2 * y + 1;
        if x == 0 {
            lemma_border_tile(raw, rw, rh, 0, ry);
        }
        if x == m.w - 1 {
            lemma_border_tile(raw, rw, rh, rx + 1, ry);
        }
        if y == 0 {
            lemma_border_tile(raw, rw, rh, rx, 0);
        }
        if y == m.h - 1 {
            lemma_border_tile(raw, rw, rh, rx, ry + 1);
        }
    }
}

proof fn lemma_compressed_two_way(m: MazeView, raw: Seq<bool>)
    requires
        m.wf(),
        forall|x: int, y: int|
            #![trigger m.tile(x, y)]
            m.in_grid(x, y) ==> m.tile(x, y) == flags_from_raw(raw, m.rw(), x, y),
    ensures
        m.two_way(),
{
    let rw = m.rw();
    assert forall|x: int, y: int|
        #![trigger m.tile(x, y)]
        m.in_grid(x, y) && m.in_grid(x + 1, y) implies m.tile(x, y).right == m.tile(
        x + 1,
        y,
    ).left by {
        assert(m.tile(x + 1, y) == flags_from_raw(raw, rw, x + 1, y));
    }
    assert forall|x: int, y: int|
        #![trigger m.tile(x, y)]
        m.in_grid(x, y) && m.in_grid(x, y + 1) implies m.tile(x, y).down == m.tile(
        x,
        y + 1,
    ).up by {
        assert(m.tile(x, y + 1) == flags_from_raw(raw, rw, x, y + 1));
    }
}

/// A tile on the border of a walled doubled grid is a wall.
proof fn lemma_border_tile(raw: Seq<bool>, rw: int, rh: int, x: int, y: int)
    requires
        raw.len() == rw * rh,
        border_walled(raw, rw, rh),
        0 <= x < rw,
        0 <= y < rh,
        x == 0 || y == 0 || x == rw - 1 || y == rh - 1,
    ensures
        raw_at(raw, rw, x, y),
{
    lemma_flat_coords(x, y, rw);
    lemma_flat_index(x, y, rw, rh);
    assert(is_border_index(x + y * rw, rw, rh));
}

/// A move through an open wall of a generated maze never leaves the grid.
pub proof fn law_passage_stays_in_grid(m: MazeView, src: IVec2, dir: IVec2)
    requires
        m.wf(),
        m.walled_in(),
        m.in_grid(src.x as int, src.y as int),
        m.can_go(src, dir),
    ensures
        m.in_grid(src.x + dir.x, src.y + dir.y),
{
    lemma_flat_index(src.x as int, src.y as int, m.w as int, m.h as int);
    assert(m.tile(src.x as int, src.y as int) == m.tiles[src.x + src.y * m.w]);
}

/// In a generated maze a passage can be walked both ways: one can go from
/// `src` in direction `dir` exactly when one can come back from the
/// neighbour in the opposite direction.
pub proof fn law_passage_two_way(m: MazeView, src: IVec2, dir: IVec2)
    requires
        m.wf(),
        m.two_way(),
        m.in_grid(src.x as int, src.y as int),
        m.in_grid(src.x + dir.x, src.y + dir.y),
        m.w <= i32::MAX,
        m.h <= i32::MAX,
        -i32::MAX <= dir.x,
        -i32::MAX <= dir.y,
    ensures
        m.can_go(src, dir) == m.can_go(
            IVec2 { x: (src.x + dir.x) as i32, y: (src.y + dir.y) as i32 },
            IVec2 { x: -dir.x as i32, y: -dir.y as i32 },
        ),
{
    let x = src.x as int;
    let y = src.y as int;
    let nx = src.x + dir.x;
    let ny = src.y + dir.y;
    lemma_flat_index(x, y, m.w as int, m.h as int);
    lemma_flat_index(nx, ny, m.w as int, m.h as int);
    assert(m.tile(x, y) == m.tiles[x + y * m.w]);
    assert(m.tile(nx, ny) == m.tiles[nx + ny * m.w]);
    if dir.x == 1 && dir.y == 0 {
        assert(m.tile(x, y).right == m.tile(x + 1, y).left);
    } else if dir.x == 0 && dir.y == 1 {
        assert(m.tile(x, y).down == m.tile(x, y + 1).up);
    } else if dir.x == -1 && dir.y == 0 {
        assert(m.tile(nx, ny).right == m.tile(nx + 1, ny).left);
    } else if dir.x == 0 && dir.y == -1 {
        assert(m.tile(nx, ny).down == m.tile(nx, ny + 1).up);
    }
}

/// A way from `p` to `r` followed by a way from `r` to `q` is a way from
/// `p` to `q`.
proof fn lemma_reaches_concat(m: MazeView, p: IVec2, r: IVec2, q: IVec2, a: nat, b: nat)
    requires
        m.reaches(p, r, a),
        m.reaches(r, q, b),
    ensures
        m.reaches(p, q, a + b),
    decreases a,
{
    if p == r {
        lemma_reaches_more(m, r, q, b, a + b);
    } else if p != q {
        let d = choose|d: IVec2|
            #[trigger] m.can_go(p, d) && m.reaches(moved(p, d), r, (a - 1) as nat);
        lemma_reaches_concat(m, moved(p, d), r, q, (a - 1) as nat, b);
        lemma_reaches_step(m, p, d, q, a + b);
    }
}

/// In a generated maze every way can be walked back: if `p` leads to `q` in
/// at most `n` moves, `q` leads back to `p` in at most `n` moves.
pub proof fn law_way_back(m: MazeView, p: IVec2, q: IVec2, n: nat)
    requires
        m.wf(),
        m.walled_in(),
        m.two_way(),
        m.w <= i32::MAX,
        m.h <= i32::MAX,
        m.in_grid(p.x as int, p.y as int),
        m.reaches(p, q, n),
    ensures
        m.reaches(q, p, n),
    decreases n,
{
    if p != q {
        let d = choose|d: IVec2|
            #[trigger] m.can_go(p, d) && m.reaches(moved(p, d), q, (n - 1) as nat);
        let r = moved(p, d);
        law_passage_stays_in_grid(m, p, d);
        assert(is_axis_unit(d));
        law_way_back(m, r, q, (n - 1) as nat);
        let e = IVec2 { x: -d.x as i32, y: -d.y as i32 };
        law_passage_two_way(m, p, d);
        assert(m.can_go(r, e));
        assert(moved(r, e) == p);
        assert(m.reaches(p, p, 0));
        lemma_reaches_step(m, r, e, p, 1);
        lemma_reaches_concat(m, q, r, p, (n - 1) as nat, 1);
    }
}

/// In a generated maze every cell can be reached from every other one.
pub proof fn law_cells_joined(m: MazeView, p: IVec2, q: IVec2)
    requires
        m.wf(),
        m.walled_in(),
        m.two_way(),
        m.all_lead_to_origin(),
        m.w <= i32::MAX,
        m.h <= i32::MAX,
        m.in_grid(p.x as int, p.y as int),
        m.in_grid(q.x as int, q.y as int),
    ensures
        m.joined(p, q),
{
    let origin = IVec2 { x: 0, y: 0 };
    assert(m.in_grid(p.x as int, p.y as int));
    assert(m.in_grid(q.x as int, q.y as int));
    assert(IVec2 { x: (p.x as int) as i32, y: (p.y as int) as i32 } == p);
    assert(IVec2 { x: (q.x as int) as i32, y: (q.y as int) as i32 } == q);
    let a = choose|n: nat| #[trigger] m.reaches(p, origin, n);
    let b = choose|n: nat| #[trigger] m.reaches(q, origin, n);
    law_way_back(m, q, origin, b);
    lemma_reaches_concat(m, p, origin, q, a, b);
}

/// The dead ends are listed once each: different cells give different
/// positions.
pub(crate) proof fn lemma_deadends_distinct(m: MazeView, n: nat)
    requires
        m.w > 0,
        m.w <= i32::MAX,
        n <= m.w * m.h,
        m.h <= i32::MAX,
    ensures
        m.deadends_before(n).no_duplicates(),
        forall|k: int|
            0 <= k < m.deadends_before(n).len() ==> exists|j: int|
                0 <= j < n && #[trigger] m.deadends_before(n)[k] == #[trigger] cell_position(
                    j,
                    m.w as int,
                ),
    decreases n,
{
    if n > 0 {
        lemma_deadends_distinct(m, (n - 1) as nat);
        let prev = m.deadends_before((n - 1) as nat);
        let cur = m.deadends_before(n);
        let i = n - 1;
        let w = m.w as int;
        if m.is_deadend_index(i) {
            let p = cell_position(i, w);
            assert(cur == prev.push(p));
            assert forall|k: int| 0 <= k < prev.len() implies cur[k] != p by {
                let j = choose|j: int| 0 <= j < n - 1 && prev[k] == #[trigger] cell_position(j, w);
                lemma_position_injective(i, j, w, m.h as int);
            }
        } else {
            assert(cur == prev);
        }
        assert forall|k: int| 0 <= k < cur.len() implies exists|j: int|
            0 <= j < n && #[trigger] cur[k] == #[trigger] cell_position(j, w) by {
            if k < prev.len() {
                assert(cur[k] == prev[k]);
                let j = choose|j: int| 0 <= j < n - 1 && prev[k] == #[trigger] cell_position(j, w);
                assert(cur[k] == cell_position(j, w));
            } else {
                assert(cur[k] == cell_position(i, w));
            }
        }
    }
}

/// Every dead end is a cell of the grid.
pub(crate) proof fn lemma_deadend_in_grid(m: MazeView, p: IVec2)
    requires
        m.w > 0,
        m.w <= i32::MAX,
        m.h <= i32::MAX,
        m.deadends().to_multiset().contains(p),
    ensures
        m.in_grid(p.x as int, p.y as int),
{
    broadcast use vstd::seq_lib::group_to_multiset_ensures;

    let w = m.w as int;
    let h = m.h as int;
    lemma_deadends_distinct(m, m.w * m.h);
    let ds = m.deadends();
    assert(ds.contains(p));
    let k = choose|k: int| 0 <= k < ds.len() && ds[k] == p;
    let j = choose|j: int| 0 <= j < m.w * m.h && #[trigger] ds[k] == #[trigger] cell_position(j, w);
    vstd::arithmetic::div_mod::lemma_fundamental_div_mod(j, w);
    vstd::arithmetic::div_mod::lemma_mod_bound(j, w);
    assert(0 <= j / w < h) by (nonlinear_arith)
        requires
            0 <= j < w * h,
            w > 0,
            j == w * (j / w) + j % w,
            0 <= j % w < w,
    ;
}

/// Two cells of a grid `w` wide and `h` high with the same column and row
/// are the same cell.
proof fn lemma_position_injective(i: int, j: int, w: int, h: int)
    requires
        0 <= i < w * h,
        0 <= j < w * h,
        i != j,
        w > 0,
        w <= i32::MAX,
        h <= i32::MAX,
    ensures
        cell_position(i, w) != cell_position(j, w),
{
    vstd::arithmetic::div_mod::lemma_fundamental_div_mod(i, w);
    vstd::arithmetic::div_mod::lemma_fundamental_div_mod(j, w);
    vstd::arithmetic::div_mod::lemma_mod_bound(i, w);
    vstd::arithmetic::div_mod::lemma_mod_bound(j, w);
    assert(0 <= i / w < h) by (nonlinear_arith)
        requires
            0 <= i < w * h,
            w > 0,
            i == w * (i / w) + i % w,
            0 <= i % w < w,
    ;
    assert(0 <= j / w < h) by (nonlinear_arith)
        requires
            0 <= j < w * h,
            w > 0,
            j == w * (j / w) + j % w,
            0 <= j % w < w,
    ;
    if i % w == j % w && i / w == j / w {
        assert(i == j);
    }
}

} // verus!
