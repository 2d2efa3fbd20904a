//! Which sprite shows the gem at each board position of match three, kept in
//! step with the board's events: swaps, pops, falls, new gems and shuffles.
//! A sprite is the handle the engine gave it.

use vstd::prelude::*;
use std::collections::HashMap;
use crate::geometry::UVec2;

verus! {

broadcast use vstd::std_specs::hash::group_hash_axioms;

/// The key of board position `p`: its column in the high 32 bits, its row
/// in the low 32.
pub open spec fn pos_key(p: UVec2) -> u64 {
    (p.x * 4294967296int + p.y) as u64
}

fn key_of(p: UVec2) -> (k: u64)
    ensures
        k == pos_key(p),
{
    (p.x as u64) * 4294967296 + (p.y as u64)
}

/// The sprites of the gems on the board, by position key.
pub struct GemSprites {
    pub sprites: HashMap<u64, u64>,
}

impl View for GemSprites {
    type V = Map<u64, u64>;

    open spec fn view(&self) -> Map<u64, u64> {
        self.sprites@
    }
}

/// The sprites after the first `n` falls `(from, to)` of `drops`, each
/// sprite read off the sprites `snap` before any fall: the sprite from
/// `from` goes to `to` and `from` is left without one. `None` when a fall
/// starts where `snap` has no sprite.
pub open spec fn dropped_map(snap: Map<u64, u64>, drops: Seq<(UVec2, UVec2)>, n: int) -> Option<
    Map<u64, u64>,
>
    decreases n,
{
    if n <= 0 {
        Some(snap)
    } else {
        match dropped_map(snap, drops, n - 1) {
            None => None,
            Some(m) => {
                let from = pos_key(drops[n - 1].0);
                let to = pos_key(drops[n - 1].1);
                if snap.contains_key(from) {
                    Some(m.insert(to, snap[from]).remove(from))
                } else {
                    None
                }
            },
        }
    }
}

/// The sprites after the first `n` moves `(from, to)` of a shuffle, each
/// sprite read off `snap`: the sprite from `from` is placed at `to`. `None`
/// when a move starts where `snap` has no sprite.
pub open spec fn shuffled_map(snap: Map<u64, u64>, moves: Seq<(UVec2, UVec2)>, n: int) -> Option<
    Map<u64, u64>,
>
    decreases n,
{
    if n <= 0 {
        Some(snap)
    } else {
        match shuffled_map(snap, moves, n - 1) {
            None => None,
            Some(m) => {
                let from = pos_key(moves[n - 1].0);
                let to = pos_key(moves[n - 1].1);
                if snap.contains_key(from) {
                    Some(m.insert(to, snap[from]))
                } else {
                    None
                }
            },
        }
    }
}

/// The sprites after the first `n` new gems got their sprites: the gem at
/// `spawns[k].0` is shown by `handles[k]`.
pub open spec fn spawned_map(
    start: Map<u64, u64>,
    spawns: Seq<(UVec2, u32)>,
    handles: Seq<u64>,
    n: int,
) -> Map<u64, u64>
    decreases n,
{
    if n <= 0 {
        start
    } else {
        spawned_map(start, spawns, handles, n - 1).insert(pos_key(spawns[n - 1].0), handles[n - 1])
    }
}

proof fn lemma_dropped_none(snap: Map<u64, u64>, drops: Seq<(UVec2, UVec2)>, n: int, m: int)
    requires
        n <= m,
        dropped_map(snap, drops, n) is None,
    ensures
        dropped_map(snap, drops, m) is None,
    decreases m - n,
{
    if n < m {
        lemma_dropped_none(snap, drops, n, m - 1);
    }
}

proof fn lemma_shuffled_none(snap: Map<u64, u64>, moves: Seq<(UVec2, UVec2)>, n: int, m: int)
    requires
        n <= m,
        shuffled_map(snap, moves, n) is None,
    ensures
        shuffled_map(snap, moves, m) is None,
    decreases m - n,
{
    if n < m {
        lemma_shuffled_none(snap, moves, n, m - 1);
    }
}

impl GemSprites {
    /// No sprite yet.
    pub fn new() -> (r: GemSprites)
        ensures
            r@ == Map::<u64, u64>::empty(),
    {
        GemSprites { sprites: HashMap::new() }
    }

    /// The sprite of the gem at `p`, if there is one.
    pub fn sprite_at(&self, p: UVec2) -> (r: Option<u64>)
        ensures
            r == (if self@.contains_key(pos_key(p)) {
                Some(self@[pos_key(p)])
            } else {
                None
            }),
    {
        match self.sprites.get(&key_of(p)) {
            Some(s) => Some(*s),
            None => None,
        }
    }

    /// Two gems swapped places: so do their sprites. When either position
    /// has no sprite nothing changes; answers whether they swapped.
    pub fn swap_sprites(&mut self, p1: UVec2, p2: UVec2) -> (r: bool)
        ensures
            r == (old(self)@.contains_key(pos_key(p1)) && old(self)@.contains_key(pos_key(p2))),
            r ==> final(self)@ == old(self)@.insert(pos_key(p2), old(self)@[pos_key(p1)]).insert(
                pos_key(p1),
                old(self)@[pos_key(p2)],
            ),
            !r ==> final(self)@ == old(self)@,
    {
        let k1 = key_of(p1);
        let k2 = key_of(p2);
        let s1 = match self.sprites.get(&k1) {
            Some(s) => *s,
            None => {
                return false;
            },
        };
        let s2 = match self.sprites.get(&k2) {
            Some(s) => *s,
            None => {
                return false;
            },
        };
        self.sprites.insert(k2, s1);
        self.sprites.insert(k1, s2);
        true
    }

    /// The gem at `p` was popped: its sprite leaves the board and is handed
    /// back to be removed; `None`, and nothing changes, when there is none.
    pub fn pop_sprite(&mut self, p: UVec2) -> (r: Option<u64>)
        ensures
            r == (if old(self)@.contains_key(pos_key(p)) {
                Some(old(self)@[pos_key(p)])
            } else {
                None
            }),
            final(self)@ == old(self)@.remove(pos_key(p)),
    {
        self.sprites.remove(&key_of(p))
    }

    /// Gems fell: each sprite moves from where its gem was to where it
    /// fell, reading where the sprites were before any fall. When a fall
    /// starts where there is no sprite nothing changes; answers whether the
    /// falls were applied.
    pub fn drop_sprites(&mut self, drops: &Vec<(UVec2, UVec2)>) -> (r: bool)
        ensures
            match dropped_map(old(self)@, drops@, drops@.len() as int) {
                Some(m) => r && final(self)@ == m,
                None => !r && final(self)@ == old(self)@,
            },
    {
        let mut next = self.sprites.clone();
        let mut k: usize = 0;
        while k < drops.len()
            invariant
                k <= drops@.len(),
                dropped_map(self@, drops@, k as int) == Some(next@),
                self@ == old(self)@,
            decreases drops@.len() - k,
        {
            let (from, to) = drops[k];
            let kf = key_of(from);
            let kt = key_of(to);
            match self.sprites.get(&kf) {
                Some(s) => {
                    let s = *s;
                    next.insert(kt, s);
                    next.remove(&kf);
                },
                None => {
                    proof {
                        lemma_dropped_none(self@, drops@, k + 1, drops@.len() as int);
                    }
                    return false;
                },
            }
            k = k + 1;
        }
        self.sprites = next;
        true
    }

    /// The board was shuffled: each sprite moves to its gem's new place,
    /// reading where the sprites were before the shuffle. When a move starts
    /// where there is no sprite nothing changes; answers whether the moves
    /// were applied.
    pub fn shuffle_sprites(&mut self, moves: &Vec<(UVec2, UVec2)>) -> (r: bool)
        ensures
            match shuffled_map(old(self)@, moves@, moves@.len() as int) {
                Some(m) => r && final(self)@ == m,
                None => !r && final(self)@ == old(self)@,
            },
    {
        let mut next = self.sprites.clone();
        let mut k: usize = 0;
        while k < moves.len()
            invariant
                k <= moves@.len(),
                shuffled_map(self@, moves@, k as int) == Some(next@),
                self@ == old(self)@,
            decreases moves@.len() - k,
        {
            let (from, to) = moves[k];
            let kf = key_of(from);
            let kt = key_of(to);
            match self.sprites.get(&kf) {
                Some(s) => {
                    let s = *s;
                    next.insert(kt, s);
                },
                None => {
                    proof {
                        lemma_shuffled_none(self@, moves@, k + 1, moves@.len() as int);
                    }
                    return false;
                },
            }
            k = k + 1;
        }
        self.sprites = next;
        true
    }

    /// New gems appeared: the gem at `spawns[k].0` is shown by the sprite
    /// `handles[k]` made for it.
    pub fn spawn_sprites(&mut self, spawns: &Vec<(UVec2, u32)>, handles: &Vec<u64>)
        requires
            handles@.len() == spawns@.len(),
        ensures
            final(self)@ == spawned_map(old(self)@, spawns@, handles@, spawns@.len() as int),
    {
        let mut k: usize = 0;
        while k < spawns.len()
            invariant
                k <= spawns@.len(),
                handles@.len() == spawns@.len(),
                self@ == spawned_map(old(self)@, spawns@, handles@, k as int),
            decreases spawns@.len() - k,
        {
            let (pos, _kind) = spawns[k];
            self.sprites.insert(key_of(pos), handles[k]);
            k = k + 1;
        }
    }
}

} // verus!
