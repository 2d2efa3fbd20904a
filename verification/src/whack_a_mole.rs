//! Whack-a-mole: waves of moles pop out of a grid of holes; hitting one adds
//! (or, for the bad kind, takes away) points.

use vstd::prelude::*;
use crate::random::{fast_shuffle, fast_usize};

verus! {

pub const COLUMN: usize = 3;

pub const ROW: usize = 4;

/// How long a game lasts, in seconds.
pub const TIME_LIMIT: u64 = 20;

/// The kinds of mole.
pub const MOLE_VARIATIONS: usize = 3;

/// The points each kind of mole is worth.
pub open spec fn points_spec() -> Seq<i32> {
    seq![1i32, -1i32, 5i32]
}

/// The points of mole kind `variation`; kinds past the list are worth one.
pub fn points(variation: usize) -> (r: i32)
    ensures
        variation < MOLE_VARIATIONS ==> r == points_spec()[variation as int],
        variation >= MOLE_VARIATIONS ==> r == 1,
{
    if variation == 0 {
        1
    } else if variation == 1 {
        -1
    } else if variation == 2 {
        5
    } else {
        1
    }
}

/// The score after hitting a mole worth `point`: good moles add, bad ones
/// take away without going below zero; the score also stops at its top.
pub open spec fn score_after_hit(score: u32, point: i32) -> u32 {
    if point > 0 {
        if score + point > u32::MAX {
            u32::MAX
        } else {
            (score + point) as u32
        }
    } else if point < 0 {
        if score + point < 0 {
            0
        } else {
            (score + point) as u32
        }
    } else {
        score
    }
}

/// Scores a hit on a mole worth `point`.
pub fn hit_mole(score: u32, point: i32) -> (r: u32)
    requires
        point > i32::MIN,
    ensures
        r == score_after_hit(score, point),
        point < 0 && score + point >= 0 ==> r == score + point,
        point < 0 && score + point < 0 ==> r == 0,
        point >= 0 && score + point <= u32::MAX ==> r == score + point,
        point > 0 && score + point > u32::MAX ==> r == u32::MAX,
{
    if point > 0 {
        score.saturating_add(point as u32)
    } else if point < 0 {
        score.saturating_sub((-point) as u32)
    } else {
        score
    }
}

/// A bad mole takes away exactly its points from a score that has them,
/// and leaves a smaller score at zero; a good mole's points hit back by a
/// bad mole of the same worth give the score back, as long as the score did
/// not stop at its top.
pub proof fn law_hit_takes_its_points(score: u32, k: i32)
    requires
        0 < k,
    ensures
        score >= k ==> score_after_hit(score, (-k) as i32) + k == score,
        score < k ==> score_after_hit(score, (-k) as i32) == 0,
        score + k <= u32::MAX ==> score_after_hit(score, k) == score + k,
        score + k <= u32::MAX ==> score_after_hit(score_after_hit(score, k), (-k) as i32) == score,
        score_after_hit(score, 0) == score,
{
}

/// One mole of a wave: the hole it appears in and its kind.
#[derive(Clone, Copy, Debug, PartialEq, Eq, Structural)]
pub struct MoleSpawn {
    pub hole: usize,
    pub variation: usize,
}

/// Plans wave number `count`: between one and `max(2, count / 2) - 1`
/// moles, in different random holes; the first is always a good mole, the
/// others take the remaining kinds in random order. From the tenth wave on
/// a wave could ask for more moles than there are kinds; those waves are
/// left out.
pub fn plan_wave(count: usize) -> (r: Vec<MoleSpawn>)
    requires
        count / 2 <= MOLE_VARIATIONS + 1,
    ensures
        1 <= r@.len(),
        r@.len() < if count / 2 > 2 {
            count / 2
        } else {
            2
        },
        r@[0].variation == 0,
        forall|i: int| 0 <= i < r@.len() ==> #[trigger] r@[i].hole < COLUMN * ROW,
        forall|i: int| 0 <= i < r@.len() ==> #[trigger] r@[i].variation < MOLE_VARIATIONS,
        forall|i: int, j: int|
            0 <= i < r@.len() && 0 <= j < r@.len() && i != j ==> r@[i].hole != r@[j].hole
                && r@[i].variation != r@[j].variation,
{
    let mut positions: Vec<usize> = Vec::new();
    let mut p: usize = 0;
    while p < COLUMN * ROW
        invariant
            p <= COLUMN * ROW,
            positions@ == Seq::new(p as nat, |i: int| i as usize),
        decreases COLUMN * ROW - p,
    {
        positions.push(p);
        p = p + 1;
    }
    let ghost holes = positions@;
    fast_shuffle(&mut positions);
    let mut variations: Vec<usize> = Vec::new();
    variations.push(1);
    variations.push(2);
    assert(variations@ =~= seq![1usize, 2usize]);
    let ghost kinds = variations@;
    fast_shuffle(&mut variations);
    let ghost shuffled = variations@;
    variations.insert(0, 0);
    let half = count >> 1;
    let top = if half > 2 {
        half
    } else {
        2
    };
    let num = fast_usize(1, top);
    proof {
        lemma_permutation_distinct_below(holes, positions@, (COLUMN * ROW) as int);
        lemma_shuffled_kinds(kinds, shuffled, variations@);
        assert(count >> 1 == count / 2) by (bit_vector);
    }
    let mut moles: Vec<MoleSpawn> = Vec::new();
    let mut i: usize = 0;
    while i < num
        invariant
            i <= num,
            num < top,
            top <= MOLE_VARIATIONS + 1,
            num <= variations@.len(),
            positions@.len() == COLUMN * ROW,
            variations@.len() == MOLE_VARIATIONS,
            variations@[0] == 0,
            forall|k: int| 0 <= k < positions@.len() ==> #[trigger] positions@[k] < COLUMN * ROW,
            forall|k: int, l: int|
                0 <= k < positions@.len() && 0 <= l < positions@.len() && k != l ==> positions@[k]
                    != positions@[l],
            forall|k: int| 0 <= k < variations@.len() ==> #[trigger] variations@[k] < MOLE_VARIATIONS,
            forall|k: int, l: int|
                0 <= k < variations@.len() && 0 <= l < variations@.len() && k != l
                    ==> variations@[k] != variations@[l],
            moles@.len() == i,
            forall|k: int|
                0 <= k < i ==> #[trigger] moles@[k] == (MoleSpawn {
                    hole: positions@[k],
                    variation: variations@[k],
                }),
        decreases num - i,
    {
        moles.push(MoleSpawn { hole: positions[i], variation: variations[i] });
        i = i + 1;
    }
    moles
}

/// A shuffle of the numbers below `n` holds each of them once.
proof fn lemma_permutation_distinct_below(before: Seq<usize>, after: Seq<usize>, n: int)
    requires
        before == Seq::new(n as nat, |i: int| i as usize),
        after.to_multiset() == before.to_multiset(),
        0 <= n <= 100,
    ensures
        after.len() == n,
        forall|k: int| 0 <= k < after.len() ==> #[trigger] after[k] < n,
        forall|k: int, l: int|
            0 <= k < after.len() && 0 <= l < after.len() && k != l ==> after[k] != after[l],
{
    before.to_multiset_ensures();
    after.to_multiset_ensures();
    assert forall|k: int| 0 <= k < after.len() implies #[trigger] after[k] < n by {
        assert(after.contains(after[k]));
        assert(after.to_multiset().count(after[k]) > 0);
        assert(before.to_multiset().count(after[k]) > 0);
        assert(before.contains(after[k]));
    }
    assert(before.no_duplicates()) by {
        assert forall|k: int, l: int|
            0 <= k < before.len() && 0 <= l < before.len() && k != l implies before[k]
            != before[l] by {}
    }
    before.lemma_multiset_has_no_duplicates();
    after.lemma_multiset_has_no_duplicates_conv();
}

/// The kinds of a wave after the shuffle: the good kind first, then the two
/// others in some order.
proof fn lemma_shuffled_kinds(kinds: Seq<usize>, s: Seq<usize>, shuffled_with_first: Seq<usize>)
    requires
        kinds == seq![1usize, 2usize],
        s.to_multiset() == kinds.to_multiset(),
        shuffled_with_first == s.insert(0, 0usize),
    ensures
        shuffled_with_first.len() == MOLE_VARIATIONS,
        shuffled_with_first[0] == 0,
        forall|k: int| 0 <= k < shuffled_with_first.len() ==> #[trigger] shuffled_with_first[k] < MOLE_VARIATIONS,
        forall|k: int, l: int|
            0 <= k < shuffled_with_first.len() && 0 <= l < shuffled_with_first.len() && k != l
                ==> shuffled_with_first[k] != shuffled_with_first[l],
{
    kinds.to_multiset_ensures();
    s.to_multiset_ensures();
    assert(s.len() == 2);
    assert(s.contains(s[0]) && s.contains(s[1]));
    assert(s.to_multiset().count(s[0]) > 0 && s.to_multiset().count(s[1]) > 0);
    assert(kinds.to_multiset().count(s[0]) > 0 && kinds.to_multiset().count(s[1]) > 0);
    assert(kinds.contains(s[0]) && kinds.contains(s[1]));
    assert(kinds.to_multiset().count(1usize) == 1) by {
        assert(kinds =~= seq![1usize].push(2usize));
        assert(seq![1usize] =~= Seq::<usize>::empty().push(1usize));
        Seq::<usize>::empty().to_multiset_ensures();
        seq![1usize].to_multiset_ensures();
    }
    if s[0] == s[1] {
        assert(s =~= seq![s[0]].push(s[0]));
        assert(seq![s[0]] =~= Seq::<usize>::empty().push(s[0]));
        Seq::<usize>::empty().to_multiset_ensures();
        seq![s[0]].to_multiset_ensures();
        assert(s.to_multiset().count(s[0]) == 2);
        assert(kinds =~= seq![1usize].push(2usize));
        seq![1usize].to_multiset_ensures();
        assert(seq![1usize] =~= Seq::<usize>::empty().push(1usize));
        assert(kinds.to_multiset().count(2usize) == 1);
    }
}

/// How the board shows its texts: as the parent does, hidden, or shown.
#[derive(Clone, Copy, Debug, PartialEq, Eq, Structural)]
pub enum Visibility {
    Inherited,
    Hidden,
    Visible,
}

/// The score display: the score, how many digits it is padded to, its
/// visibility, and whether it must be redrawn.
pub struct ScoreUI {
    pub score: u32,
    pub digit: usize,
    pub visibility: Visibility,
    pub is_dirty: bool,
}

impl ScoreUI {
    pub fn new() -> (r: ScoreUI)
        ensures
            r.score == 0,
            r.digit == 0,
            r.visibility == Visibility::Inherited,
            !r.is_dirty,
    {
        ScoreUI { score: 0, digit: 0, visibility: Visibility::Inherited, is_dirty: false }
    }

    pub fn update(&mut self, new_score: u32)
        ensures
            final(self).score == new_score,
            final(self).digit == old(self).digit,
            final(self).visibility == old(self).visibility,
            final(self).is_dirty,
    {
        self.score = new_score;
        self.is_dirty = true;
    }

    pub fn set_visiblity(&mut self, new_visiblity: Visibility)
        ensures
            final(self).score == old(self).score,
            final(self).digit == old(self).digit,
            final(self).visibility == new_visiblity,
            final(self).is_dirty,
    {
        self.visibility = new_visiblity;
        self.is_dirty = true;
    }

    pub fn set_digit(&mut self, new_digit: usize)
        ensures
            final(self).score == old(self).score,
            final(self).digit == new_digit,
            final(self).visibility == old(self).visibility,
            final(self).is_dirty,
    {
        self.digit = new_digit;
        self.is_dirty = true;
    }
}

/// The time display: the time left in milliseconds, its visibility, and
/// whether it must be redrawn.
pub struct TimeUI {
    pub time_millis: u64,
    pub visibility: Visibility,
    pub is_dirty: bool,
}

impl TimeUI {
    pub fn new() -> (r: TimeUI)
        ensures
            r.time_millis == 0,
            r.visibility == Visibility::Inherited,
            !r.is_dirty,
    {
        TimeUI { time_millis: 0, visibility: Visibility::Inherited, is_dirty: false }
    }

    pub fn update(&mut self, new_time_millis: u64)
        ensures
            final(self).time_millis == new_time_millis,
            final(self).visibility == old(self).visibility,
            final(self).is_dirty,
    {
        self.time_millis = new_time_millis;
        self.is_dirty = true;
    }

    pub fn set_visiblity(&mut self, new_visibility: Visibility)
        ensures
            final(self).time_millis == old(self).time_millis,
            final(self).visibility == new_visibility,
            final(self).is_dirty,
    {
        self.visibility = new_visibility;
        self.is_dirty = true;
    }
}

/// A text display in the middle of the screen.
pub struct CenterTextUI {
    pub text: String,
    pub visibility: Visibility,
    pub is_dirty: bool,
}

impl CenterTextUI {
    pub fn new() -> (r: CenterTextUI)
        ensures
            r.text@.len() == 0,
            r.visibility == Visibility::Inherited,
            !r.is_dirty,
    {
        CenterTextUI { text: String::new(), visibility: Visibility::Inherited, is_dirty: false }
    }

    pub fn update(&mut self, new_text: String)
        ensures
            final(self).text@ == new_text@,
            final(self).visibility == old(self).visibility,
            final(self).is_dirty,
    {
        self.text = new_text;
        self.is_dirty = true;
    }

    pub fn set_visiblity(&mut self, new_visibility: Visibility)
        ensures
            final(self).text@ == old(self).text@,
            final(self).visibility == new_visibility,
            final(self).is_dirty,
    {
        self.visibility = new_visibility;
        self.is_dirty = true;
    }
}

/// A text display at the bottom of the screen.
pub struct BottomTextUI {
    pub text: String,
    pub visibility: Visibility,
    pub is_dirty: bool,
}

impl BottomTextUI {
    pub fn new() -> (r: BottomTextUI)
        ensures
            r.text@.len() == 0,
            r.visibility == Visibility::Inherited,
            !r.is_dirty,
    {
        BottomTextUI { text: String::new(), visibility: Visibility::Inherited, is_dirty: false }
    }

    pub fn update(&mut self, new_text: String)
        ensures
            final(self).text@ == new_text@,
            final(self).visibility == old(self).visibility,
            final(self).is_dirty,
    {
        self.text = new_text;
        self.is_dirty = true;
    }

    pub fn set_visiblity(&mut self, new_visibility: Visibility)
        ensures
            final(self).text@ == old(self).text@,
            final(self).visibility == new_visibility,
            final(self).is_dirty,
    {
        self.visibility = new_visibility;
        self.is_dirty = true;
    }
}

} // verus!
