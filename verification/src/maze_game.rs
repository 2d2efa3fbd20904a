//! The maze game: the player starts on a dead end of a fresh maze and walks
//! from cell to cell to collect the three items placed on other dead ends.

use vstd::prelude::*;
use crate::geometry::IVec2;
use crate::maze::MazeGenerator;
use crate::shuffle::swap_shuffle;

verus! {

/// Items to collect.
pub const NUM_ITEMS: usize = 3;

/// Side of the square maze, in cells.
pub const MAZE_SIZE: usize = 14;

/// Shuffles the dead ends, swapping each slot from the back with a random
/// slot at or before it.
pub fn shuffle_positions(positions: &mut Vec<IVec2>)
    ensures
        final(positions)@.to_multiset() == old(positions)@.to_multiset(),
{
    swap_shuffle(positions);
}

/// Where the player and the items start.
pub struct Placement {
    pub player: Option<IVec2>,
    pub items: Vec<IVec2>,
}

/// Places the player and the items on the dead ends, in the shuffled order:
/// the player on the first, an item on each of the next three (as far as
/// there are dead ends).
pub fn place_on_deadends(deadends: &Vec<IVec2>) -> (r: Placement)
    ensures
        deadends@.len() == 0 ==> r.player is None && r.items@.len() == 0,
        deadends@.len() > 0 ==> r.player == Some(deadends@[0]),
        r.items@.len() == (if deadends@.len() == 0 {
            0
        } else if deadends@.len() - 1 < NUM_ITEMS {
            deadends@.len() - 1
        } else {
            NUM_ITEMS as int
        }),
        forall|k: int| 0 <= k < r.items@.len() ==> r.items@[k] == deadends@[k + 1],
{
    if deadends.len() == 0 {
        return Placement { player: None, items: Vec::new() };
    }
    let loop_num = if NUM_ITEMS + 1 < deadends.len() {
        NUM_ITEMS + 1
    } else {
        deadends.len()
    };
    let mut items: Vec<IVec2> = Vec::new();
    let mut i: usize = 1;
    while i < loop_num
        invariant
            1 <= i <= loop_num,
            loop_num <= deadends@.len(),
            loop_num <= NUM_ITEMS + 1,
            items@.len() == i - 1,
            forall|k: int| 0 <= k < items@.len() ==> items@[k] == deadends@[k + 1],
        decreases loop_num - i,
    {
        items.push(deadends[i]);
        i = i + 1;
    }
    Placement { player: Some(deadends[0]), items }
}

/// The player stands on the first position of `order` and an item on each
/// of the next three, as far as there are positions.
pub open spec fn placed_in_order(order: Seq<IVec2>, r: Placement) -> bool {
    &&& order.len() == 0 ==> r.player is None && r.items@.len() == 0
    &&& order.len() > 0 ==> r.player == Some(order[0])
    &&& r.items@.len() == (if order.len() == 0 {
        0
    } else if order.len() - 1 < NUM_ITEMS {
        order.len() - 1
    } else {
        NUM_ITEMS as int
    })
    &&& forall|k: int| 0 <= k < r.items@.len() ==> r.items@[k] == order[k + 1]
}

/// A fresh round: a new maze, the player and items on its dead ends in
/// random order, and nothing collected yet.
pub fn reset_maze(maze: &mut MazeGenerator) -> (r: Placement)
    requires
        old(maze)@.wf(),
        crate::maze::generation_fits(old(maze)@.w, old(maze)@.h),
        old(maze)@.w * old(maze)@.h <= i32::MAX,
    ensures
        final(maze)@.w == old(maze)@.w,
        final(maze)@.h == old(maze)@.h,
        final(maze)@.wf(),
        final(maze)@.walled_in(),
        final(maze)@.two_way(),
        r.items@.len() <= NUM_ITEMS,
        r.player is Some ==> final(maze)@.deadends().to_multiset().contains(r.player->0),
        forall|k: int|
            0 <= k < r.items@.len() ==> final(maze)@.deadends().to_multiset().contains(
                #[trigger] r.items@[k],
            ),
        forall|k1: int, k2: int|
            0 <= k1 < k2 < r.items@.len() ==> r.items@[k1] != r.items@[k2],
        forall|k: int| 0 <= k < r.items@.len() ==> r.player != Some(#[trigger] r.items@[k]),
        final(maze)@.all_lead_to_origin(),
        final(maze)@.is_spanning_tree(),
        exists|order: Seq<IVec2>|
            #![trigger placed_in_order(order, r)]
            order.to_multiset() == final(maze)@.deadends().to_multiset() && placed_in_order(
                order,
                r,
            ),
        r.player is Some ==> forall|k: int|
            0 <= k < r.items@.len() ==> final(maze)@.joined(r.player->0, #[trigger] r.items@[k]),
{
    maze.generate();
    let mut deadends = maze.get_deadends();
    let ghost found = deadends@;
    shuffle_positions(&mut deadends);
    let placement = place_on_deadends(&deadends);
    proof {
        if maze@.w > 0 {
            crate::maze::lemma_deadends_distinct(maze@, maze@.w * maze@.h);
        } else {
            assert(maze@.w * maze@.h == 0) by (nonlinear_arith)
                requires
                    maze@.w == 0,
            ;
            assert(found.len() == 0);
        }
        crate::shuffle::lemma_same_items_distinct(found, deadends@);
        assert(placed_in_order(deadends@, placement));
        assert(deadends@.to_multiset() == maze@.deadends().to_multiset());
        assert forall|k1: int, k2: int|
            0 <= k1 < k2 < placement.items@.len() implies placement.items@[k1] != placement.items@[k2] by {
            assert(placement.items@[k1] == deadends@[k1 + 1]);
            assert(placement.items@[k2] == deadends@[k2 + 1]);
        }
        assert forall|k: int| 0 <= k < placement.items@.len() implies placement.player != Some(
            #[trigger] placement.items@[k],
        ) by {
            assert(placement.items@[k] == deadends@[k + 1]);
        }
        broadcast use vstd::seq_lib::group_to_multiset_ensures;

        if placement.player is Some {
            assert(deadends@.to_multiset().contains(deadends@[0]));
        }
        assert forall|k: int| 0 <= k < placement.items@.len() implies found.to_multiset().contains(
            #[trigger] placement.items@[k],
        ) by {
            assert(deadends@.to_multiset().contains(deadends@[k + 1]));
        }
        if placement.player is Some {
            let m = maze@;
            let pl = placement.player->0;
            assert(m.w > 0);
            assert(found.len() == deadends@.len()) by {
                assert(found.to_multiset().len() == deadends@.to_multiset().len());
            }
            if m.h == 0 {
                assert(m.w * m.h == 0) by (nonlinear_arith)
                    requires
                        m.h == 0,
                ;
                assert(found.len() == 0);
            }
            assert(m.w <= i32::MAX && m.h <= i32::MAX) by (nonlinear_arith)
                requires
                    m.w > 0,
                    m.h > 0,
                    m.w * m.h <= i32::MAX,
            ;
            crate::maze::lemma_deadend_in_grid(m, pl);
            assert forall|k: int| 0 <= k < placement.items@.len() implies m.joined(
                pl,
                #[trigger] placement.items@[k],
            ) by {
                crate::maze::lemma_deadend_in_grid(m, placement.items@[k]);
                crate::maze::law_cells_joined(m, pl, placement.items@[k]);
            }
        }
    }
    placement
}

/// The arrow keys (or W, A, S, D) held down.
#[derive(Clone, Copy, Debug, PartialEq, Eq, Structural)]
pub struct Keys {
    pub up: bool,
    pub down: bool,
    pub left: bool,
    pub right: bool,
}

/// The walker: its cell, the cell it walks to while moving, and the
/// direction asked for by the keys or the on-screen stick.
#[derive(Clone, Copy, Debug, PartialEq, Eq, Structural)]
pub struct MazePlayer {
    pub is_moving: bool,
    pub pos: IVec2,
    pub next_pos: IVec2,
    pub input: IVec2,
}

impl MazePlayer {
    pub fn new(pos: IVec2) -> (r: MazePlayer)
        ensures
            !r.is_moving,
            r.pos == pos,
            r.next_pos == pos,
            r.input == (IVec2 { x: 0, y: 0 }),
    {
        MazePlayer { is_moving: false, pos, next_pos: pos, input: IVec2 { x: 0, y: 0 } }
    }
}

/// The direction the keys ask for: up, down, left, right in that order of
/// precedence; with no key held, the keyboard (if it was in use) stops the
/// walker and the stick's direction stands otherwise. Answers whether the
/// keyboard is in use afterwards.
pub fn keyboard_input(keys: Keys, player: &mut MazePlayer, keyboard: bool) -> (r: bool)
    ensures
        keys.up ==> final(player).input == (IVec2 { x: 0, y: -1i32 }) && r,
        !keys.up && keys.down ==> final(player).input == (IVec2 { x: 0, y: 1 }) && r,
        !keys.up && !keys.down && keys.left ==> final(player).input == (IVec2 { x: -1i32, y: 0 })
            && r,
        !keys.up && !keys.down && !keys.left && keys.right ==> final(player).input == (IVec2 {
            x: 1,
            y: 0,
        }) && r,
        !keys.up && !keys.down && !keys.left && !keys.right ==> r == keyboard && (if keyboard {
            final(player).input == (IVec2 { x: 0, y: 0 })
        } else {
            final(player).input == old(player).input
        }),
        final(player).pos == old(player).pos,
        final(player).next_pos == old(player).next_pos,
        final(player).is_moving == old(player).is_moving,
{
    if keys.up {
        player.input = IVec2 { x: 0, y: -1 };
        true
    } else if keys.down {
        player.input = IVec2 { x: 0, y: 1 };
        true
    } else if keys.left {
        player.input = IVec2 { x: -1, y: 0 };
        true
    } else if keys.right {
        player.input = IVec2 { x: 1, y: 0 };
        true
    } else {
        if keyboard {
            player.input = IVec2 { x: 0, y: 0 };
        }
        keyboard
    }
}

/// Starts a step: a walker at rest with a direction asked for sets off to
/// the next cell when no wall is in the way. Answers whether it set off.
pub fn start_step(maze: &MazeGenerator, player: &mut MazePlayer) -> (r: bool)
    requires
        maze@.wf(),
        old(player).pos.x >= 0,
        old(player).pos.y >= 0,
        old(player).pos.x + old(player).pos.y * maze@.w <= usize::MAX,
        old(player).pos.x + old(player).input.x <= i32::MAX,
        old(player).pos.y + old(player).input.y <= i32::MAX,
        old(player).pos.x + old(player).input.x >= i32::MIN,
        old(player).pos.y + old(player).input.y >= i32::MIN,
    ensures
        r == (!old(player).is_moving && !(old(player).input == (IVec2 { x: 0, y: 0 }))
            && maze@.can_go(old(player).pos, old(player).input)),
        r ==> final(player).is_moving && final(player).next_pos == (IVec2 {
            x: (old(player).pos.x + old(player).input.x) as i32,
            y: (old(player).pos.y + old(player).input.y) as i32,
        }),
        !r ==> *final(player) == *old(player),
        final(player).pos == old(player).pos,
        final(player).input == old(player).input,
{
    if !player.is_moving && !(player.input.x == 0 && player.input.y == 0) && maze.can_go(
        player.pos,
        player.input,
    ) {
        player.is_moving = true;
        player.next_pos = IVec2 { x: player.pos.x + player.input.x, y: player.pos.y + player.input.y };
        true
    } else {
        false
    }
}

/// The walker has reached the next cell.
pub fn finish_step(player: &mut MazePlayer)
    ensures
        !final(player).is_moving,
        final(player).pos == old(player).next_pos,
        final(player).next_pos == old(player).next_pos,
        final(player).input == old(player).input,
{
    player.is_moving = false;
    player.pos = player.next_pos;
}

/// Whether a place is other than `pos`.
pub open spec fn not_at(pos: IVec2) -> spec_fn(IVec2) -> bool {
    |p: IVec2| p != pos
}

/// The walker picks up every item on its cell. Answers whether all three
/// items are now collected (the round is won).
pub fn collect_items(player_pos: IVec2, items: &mut Vec<IVec2>, count: &mut usize) -> (r: bool)
    requires
        *old(count) + old(items)@.len() <= usize::MAX,
    ensures
        final(items)@ == old(items)@.filter(not_at(player_pos)),
        *final(count) == *old(count) + (old(items)@.len() - final(items)@.len()),
        r == (*final(count) >= NUM_ITEMS && *final(count) > *old(count)),
{
    let mut kept: Vec<IVec2> = Vec::new();
    let mut collected = false;
    let mut i: usize = 0;
    while i < items.len()
        invariant
            i <= items@.len(),
            items@ == old(items)@,
            kept@ == old(items)@.take(i as int).filter(not_at(player_pos)),
            *count == *old(count) + (i - kept@.len()),
            kept@.len() <= i,
            *old(count) + old(items)@.len() <= usize::MAX,
            collected == (*count > *old(count)),
        decreases items@.len() - i,
    {
        let p = items[i];
        proof {
            assert(old(items)@.take(i + 1).drop_last() =~= old(items)@.take(i as int));
            reveal(Seq::filter);
            assert(old(items)@.take(i + 1).last() == p);
        }
        if p.x == player_pos.x && p.y == player_pos.y {
            *count = *count + 1;
            collected = true;
        } else {
            kept.push(p);
        }
        i = i + 1;
    }
    assert(old(items)@.take(i as int) =~= old(items)@);
    *items = kept;
    collected && *count >= NUM_ITEMS
}

} // verus!
