//! Code breaking: the player guesses a hidden code of digits; each guess is
//! answered slot by slot with a hit (right digit, right place), a blow
//! (right digit, other place) or a miss.

use vstd::prelude::*;
use vstd::multiset::Multiset;
use crate::random::fast_u32;
use crate::ribbit::BitResult;

verus! {

/// The number of digits in a code.
pub const CODE_LENGTH: usize = 4;

/// The number of guesses the board has room for.
pub const MAX_TURN: usize = 8;

/// The answer for one slot of a guess.
#[derive(Clone, Copy, Debug, PartialEq, Eq, Structural, Default)]
pub enum DecodeResult {
    #[default]
    Invalid,
    Miss,
    Blow,
    Hit,
}

/// The state of a game: the guess being typed, the hidden code, the row
/// (turn) and the slot (index) the next digit goes to.
pub struct GameProgress {
    pub turn: usize,
    pub index: usize,
    pub encoded: Vec<char>,
    pub decoding: Vec<char>,
}

impl GameProgress {
    /// The code and the guess have one digit per slot. (The cursor
    /// `index` may stand past the last slot; typing then does nothing.)
    pub open spec fn wf(&self) -> bool {
        &&& self.encoded@.len() == CODE_LENGTH
        &&& self.decoding@.len() == CODE_LENGTH
    }

    /// A game before its first code is drawn: blank code and guess.
    pub fn new() -> (r: GameProgress)
        ensures
            r.wf(),
            r.turn == 0,
            r.index == 0,
            r.encoded@ == seq![' ', ' ', ' ', ' '],
            r.decoding@ == seq![' ', ' ', ' ', ' '],
    {
        GameProgress {
            turn: 0,
            index: 0,
            encoded: vec![' ', ' ', ' ', ' '],
            decoding: vec![' ', ' ', ' ', ' '],
        }
    }
}

// ----- the answer to a guess -----

/// The first slot `j`, from `from` on, other than `i`, that holds `c` in the
/// code and is not yet spoken for.
pub open spec fn first_free_match(
    enc: Seq<char>,
    c: char,
    i: int,
    checked: Seq<bool>,
    from: int,
) -> Option<int>
    decreases enc.len() - from,
{
    if from >= enc.len() || from < 0 {
        None
    } else if from != i && enc[from] == c && !checked[from] {
        Some(from)
    } else {
        first_free_match(enc, c, i, checked, from + 1)
    }
}

/// The answers for slots `i` on: a slot equal to the code is a hit; any
/// other slot takes, as a blow, the first code slot not yet spoken for that
/// holds its digit, or else is a miss.
pub open spec fn answers_from(enc: Seq<char>, dec: Seq<char>, i: int, checked: Seq<bool>) -> Seq<
    DecodeResult,
>
    decreases dec.len() - i,
{
    if i >= dec.len() || i < 0 {
        Seq::empty()
    } else if dec[i] == enc[i] {
        seq![DecodeResult::Hit] + answers_from(enc, dec, i + 1, checked)
    } else {
        match first_free_match(enc, dec[i], i, checked, 0) {
            Some(j) => seq![DecodeResult::Blow] + answers_from(
                enc,
                dec,
                i + 1,
                checked.update(j, true),
            ),
            None => seq![DecodeResult::Miss] + answers_from(enc, dec, i + 1, checked),
        }
    }
}

proof fn lemma_answers_len(enc: Seq<char>, dec: Seq<char>, i: int, checked: Seq<bool>)
    requires
        0 <= i <= dec.len(),
    ensures
        answers_from(enc, dec, i, checked).len() == dec.len() - i,
    decreases dec.len() - i,
{
    if i < dec.len() {
        if dec[i] == enc[i] {
            lemma_answers_len(enc, dec, i + 1, checked);
        } else {
            match first_free_match(enc, dec[i], i, checked, 0) {
                Some(j) => lemma_answers_len(enc, dec, i + 1, checked.update(j, true)),
                None => lemma_answers_len(enc, dec, i + 1, checked),
            }
        }
    }
}

/// The slots where the guess equals the code: these are spoken for before
/// any blow is given.
pub open spec fn hit_mask(enc: Seq<char>, dec: Seq<char>) -> Seq<bool> {
    Seq::new(enc.len(), |j: int| dec[j] == enc[j])
}

/// The answer to the guess `dec` for the code `enc`, slot by slot.
pub open spec fn answers(enc: Seq<char>, dec: Seq<char>) -> Seq<DecodeResult> {
    answers_from(enc, dec, 0, hit_mask(enc, dec))
}

/// The number of slots where the guess equals the code.
pub open spec fn hit_count(enc: Seq<char>, dec: Seq<char>, n: int) -> nat
    decreases n,
{
    if n <= 0 {
        0
    } else {
        hit_count(enc, dec, n - 1) + if dec[n - 1] == enc[n - 1] {
            1nat
        } else {
            0nat
        }
    }
}

/// Finds the first code slot from `from` on, other than `i`, that holds `c`
/// and is not yet spoken for.
fn find_free_match(enc: &Vec<char>, c: char, i: usize, checked: &Vec<bool>) -> (r: Option<usize>)
    requires
        checked@.len() == enc@.len(),
    ensures
        r matches Some(j) ==> first_free_match(enc@, c, i as int, checked@, 0) == Some(j as int)
            && j < enc@.len(),
        r is None ==> first_free_match(enc@, c, i as int, checked@, 0) is None,
{
    let mut j: usize = 0;
    while j < enc.len()
        invariant
            j <= enc@.len(),
            checked@.len() == enc@.len(),
            first_free_match(enc@, c, i as int, checked@, 0) == first_free_match(
                enc@,
                c,
                i as int,
                checked@,
                j as int,
            ),
        decreases enc@.len() - j,
    {
        if j != i && enc[j] == c && !checked[j] {
            return Some(j);
        }
        j = j + 1;
    }
    None
}

/// Answers the guess: the code maker's turn. When every slot is a hit the
/// code is broken and the state is kept; otherwise the next row begins.
pub fn decode_characters(game_progress: &mut GameProgress) -> (r: (bool, Vec<DecodeResult>))
    requires
        old(game_progress).wf(),
        old(game_progress).turn < usize::MAX,
    ensures
        r.0 == (old(game_progress).decoding@ == old(game_progress).encoded@),
        r.1@ == answers(old(game_progress).encoded@, old(game_progress).decoding@),
        final(game_progress).encoded@ == old(game_progress).encoded@,
        final(game_progress).decoding@ == old(game_progress).decoding@,
        r.0 ==> final(game_progress).turn == old(game_progress).turn && final(game_progress).index
            == old(game_progress).index,
        !r.0 ==> final(game_progress).turn == old(game_progress).turn + 1 && final(game_progress).index == 0,
        final(game_progress).wf(),
{
    let ghost enc = game_progress.encoded@;
    let ghost dec = game_progress.decoding@;
    let mut count: usize = 0;
    let mut checked: Vec<bool> = Vec::new();
    let mut k: usize = 0;
    while k < CODE_LENGTH
        invariant
            enc == game_progress.encoded@,
            dec == game_progress.decoding@,
            enc.len() == CODE_LENGTH,
            dec.len() == CODE_LENGTH,
            k <= CODE_LENGTH,
            checked@ == hit_mask(enc, dec).take(k as int),
            count == hit_count(enc, dec, k as int),
            count <= k,
        decreases CODE_LENGTH - k,
    {
        if game_progress.decoding[k] == game_progress.encoded[k] {
            count = count + 1;
            checked.push(true);
        } else {
            checked.push(false);
        }
        assert(checked@ =~= hit_mask(enc, dec).take(k + 1));
        k = k + 1;
    }
    assert(checked@ =~= hit_mask(enc, dec));
    let mut result: Vec<DecodeResult> = Vec::new();
    let mut index: usize = 0;
    while index < CODE_LENGTH
        invariant
            enc == game_progress.encoded@,
            dec == game_progress.decoding@,
            enc.len() == CODE_LENGTH,
            dec.len() == CODE_LENGTH,
            index <= CODE_LENGTH,
            checked@.len() == CODE_LENGTH,
            result@ + answers_from(enc, dec, index as int, checked@) == answers(enc, dec),
        decreases CODE_LENGTH - index,
    {
        let decoding_char = game_progress.decoding[index];
        let ghost before = checked@;
        if decoding_char == game_progress.encoded[index] {
            result.push(DecodeResult::Hit);
        } else {
            match find_free_match(&game_progress.encoded, decoding_char, index, &checked) {
                Some(j) => {
                    checked.set(j, true);
                    result.push(DecodeResult::Blow);
                },
                None => {
                    result.push(DecodeResult::Miss);
                },
            }
        }
        assert(result@ + answers_from(enc, dec, index + 1, checked@) =~= answers(enc, dec)) by {
            assert(answers_from(enc, dec, index as int, before) == seq![result@.last()]
                + answers_from(enc, dec, index + 1, checked@));
            assert(result@ =~= result@.drop_last().push(result@.last()));
        }
        index = index + 1;
    }
    assert(answers_from(enc, dec, 4, checked@) =~= Seq::<DecodeResult>::empty());
    assert(result@ =~= answers(enc, dec));
    proof {
        lemma_hit_count_all(enc, dec, CODE_LENGTH as int);
    }
    if count == CODE_LENGTH {
        return (true, result);
    }
    game_progress.index = 0;
    game_progress.turn = game_progress.turn + 1;
    (false, result)
}

/// A slot is answered with a hit exactly when the guess has the code's
/// digit there; so every slot is a hit exactly when the code is broken.
pub proof fn law_hits_where_equal(enc: Seq<char>, dec: Seq<char>, k: int)
    requires
        enc.len() == CODE_LENGTH,
        dec.len() == CODE_LENGTH,
        0 <= k < CODE_LENGTH,
    ensures
        answers(enc, dec).len() == CODE_LENGTH,
        (answers(enc, dec)[k] == DecodeResult::Hit) == (dec[k] == enc[k]),
        (forall|j: int| 0 <= j < CODE_LENGTH ==> #[trigger] answers(enc, dec)[j] == DecodeResult::Hit)
            == (dec == enc),
{
    lemma_answers_len(enc, dec, 0, hit_mask(enc, dec));
    lemma_answers_hit(enc, dec, 0, hit_mask(enc, dec), k);
    if dec == enc {
        assert forall|j: int| 0 <= j < CODE_LENGTH implies #[trigger] answers(enc, dec)[j]
            == DecodeResult::Hit by {
            lemma_answers_hit(enc, dec, 0, hit_mask(enc, dec), j);
        }
    }
    if forall|j: int| 0 <= j < CODE_LENGTH ==> #[trigger] answers(enc, dec)[j] == DecodeResult::Hit {
        assert forall|j: int| 0 <= j < CODE_LENGTH implies dec[j] == enc[j] by {
            lemma_answers_hit(enc, dec, 0, hit_mask(enc, dec), j);
            assert(answers(enc, dec)[j] == DecodeResult::Hit);
        }
        assert(dec =~= enc);
    }
}

// ----- how many answers score: hits and blows together -----

/// How many answers are hits or blows.
pub open spec fn scored(s: Seq<DecodeResult>) -> nat
    decreases s.len(),
{
    if s.len() == 0 {
        0
    } else {
        (if s[0] == DecodeResult::Hit || s[0] == DecodeResult::Blow {
            1nat
        } else {
            0nat
        }) + scored(s.drop_first())
    }
}

/// The code digits from slot `i` on that are not yet spoken for.
spec fn free_codes(enc: Seq<char>, checked: Seq<bool>, i: int) -> Multiset<char>
    decreases enc.len() - i,
{
    if i < 0 || i >= enc.len() {
        Multiset::empty()
    } else if checked[i] {
        free_codes(enc, checked, i + 1)
    } else {
        free_codes(enc, checked, i + 1).insert(enc[i])
    }
}

/// The guessed digits from slot `i` on that differ from the code there.
spec fn open_guesses(enc: Seq<char>, dec: Seq<char>, i: int) -> Multiset<char>
    decreases dec.len() - i,
{
    if i < 0 || i >= dec.len() {
        Multiset::empty()
    } else if dec[i] == enc[i] {
        open_guesses(enc, dec, i + 1)
    } else {
        open_guesses(enc, dec, i + 1).insert(dec[i])
    }
}

/// The digits guessed right from slot `i` on.
spec fn hit_digits(enc: Seq<char>, dec: Seq<char>, i: int) -> Multiset<char>
    decreases dec.len() - i,
{
    if i < 0 || i >= dec.len() {
        Multiset::empty()
    } else if dec[i] == enc[i] {
        hit_digits(enc, dec, i + 1).insert(enc[i])
    } else {
        hit_digits(enc, dec, i + 1)
    }
}

/// The slot that `first_free_match` finds holds the digit and is free; when
/// it finds none, no free slot other than `i` holds the digit.
proof fn lemma_first_free_match(enc: Seq<char>, c: char, i: int, checked: Seq<bool>, from: int)
    requires
        0 <= from,
    ensures
        first_free_match(enc, c, i, checked, from) matches Some(j) ==> from <= j < enc.len() && j
            != i && enc[j] == c && !checked[j],
        first_free_match(enc, c, i, checked, from) is None ==> forall|j: int|
            from <= j < enc.len() && j != i && enc[j] == c ==> checked[j],
    decreases enc.len() - from,
{
    if from < enc.len() {
        lemma_first_free_match(enc, c, i, checked, from + 1);
    }
}

/// Speaking for a free slot `j` takes its digit out of the free digits.
proof fn lemma_free_codes_take(enc: Seq<char>, checked: Seq<bool>, j: int, i: int)
    requires
        checked.len() == enc.len(),
        0 <= i <= j < enc.len(),
        !checked[j],
    ensures
        free_codes(enc, checked, i) == free_codes(enc, checked.update(j, true), i).insert(enc[j]),
    decreases enc.len() - i,
{
    broadcast use vstd::multiset::group_multiset_axioms;

    let c2 = checked.update(j, true);
    if i == j {
        assert(free_codes(enc, checked, i + 1) =~= free_codes(enc, c2, i + 1)) by {
            lemma_free_codes_same(enc, checked, c2, i + 1);
        }
    } else {
        lemma_free_codes_take(enc, checked, j, i + 1);
        if checked[i] {
        } else {
            assert(free_codes(enc, checked, i) =~= free_codes(enc, c2, i).insert(enc[j]));
        }
    }
}

/// The free digits from slot `i` on depend only on those slots.
proof fn lemma_free_codes_same(enc: Seq<char>, a: Seq<bool>, b: Seq<bool>, i: int)
    requires
        a.len() == enc.len(),
        b.len() == enc.len(),
        0 <= i,
        forall|k: int| i <= k < enc.len() ==> a[k] == b[k],
    ensures
        free_codes(enc, a, i) == free_codes(enc, b, i),
    decreases enc.len() - i,
{
    if i < enc.len() {
        lemma_free_codes_same(enc, a, b, i + 1);
    }
}

/// A digit held by no free slot is not among the free digits.
proof fn lemma_free_codes_absent(enc: Seq<char>, checked: Seq<bool>, c: char, i: int)
    requires
        checked.len() == enc.len(),
        0 <= i,
        forall|k: int| i <= k < enc.len() && !checked[k] ==> enc[k] != c,
    ensures
        free_codes(enc, checked, i).count(c) == 0,
    decreases enc.len() - i,
{
    broadcast use vstd::multiset::group_multiset_axioms;

    if i < enc.len() {
        lemma_free_codes_absent(enc, checked, c, i + 1);
    }
}

/// Taking one `c` from each of two multisets that hold it takes one from
/// what they have in common.
proof fn lemma_common_insert(a: Multiset<char>, b: Multiset<char>, c: char)
    ensures
        a.insert(c).intersection_with(b.insert(c)).len() == a.intersection_with(b).len() + 1,
{
    broadcast use vstd::multiset::group_multiset_axioms;
    broadcast use vstd::multiset::lemma_intersection_count;

    assert(a.insert(c).intersection_with(b.insert(c)) =~= a.intersection_with(b).insert(c)) by {
        assert forall|v: char| #[trigger]
            a.insert(c).intersection_with(b.insert(c)).count(v) == a.intersection_with(b).insert(
                c,
            ).count(v) by {
            vstd::multiset::lemma_intersection_count(a.insert(c), b.insert(c), v);
            vstd::multiset::lemma_intersection_count(a, b, v);
        }
    }
}

/// A digit that one multiset lacks adds nothing in common.
proof fn lemma_common_absent(a: Multiset<char>, b: Multiset<char>, c: char)
    requires
        a.count(c) == 0,
    ensures
        a.intersection_with(b.insert(c)) == a.intersection_with(b),
{
    broadcast use vstd::multiset::group_multiset_axioms;

    assert forall|v: char| #[trigger] a.intersection_with(b.insert(c)).count(v)
        == a.intersection_with(b).count(v) by {
        vstd::multiset::lemma_intersection_count(a, b.insert(c), v);
        vstd::multiset::lemma_intersection_count(a, b, v);
    }
    assert(a.intersection_with(b.insert(c)) =~= a.intersection_with(b));
}

/// Nothing in common with the empty multiset.
proof fn lemma_common_empty(a: Multiset<char>)
    ensures
        a.intersection_with(Multiset::empty()).len() == 0,
{
    broadcast use vstd::multiset::group_multiset_axioms;

    assert forall|v: char| #[trigger] a.intersection_with(Multiset::empty()).count(v) == 0 by {
        vstd::multiset::lemma_intersection_count(a, Multiset::empty(), v);
    }
    assert(a.intersection_with(Multiset::empty()) =~= Multiset::empty());
}

/// Adding the same digits to both sides adds them to what they have in
/// common.
proof fn lemma_common_add(a: Multiset<char>, b: Multiset<char>, h: Multiset<char>)
    ensures
        a.add(h).intersection_with(b.add(h)).len() == a.intersection_with(b).len() + h.len(),
{
    broadcast use vstd::multiset::group_multiset_axioms;

    assert forall|v: char| #[trigger] a.add(h).intersection_with(b.add(h)).count(v)
        == a.intersection_with(b).add(h).count(v) by {
        vstd::multiset::lemma_intersection_count(a.add(h), b.add(h), v);
        vstd::multiset::lemma_intersection_count(a, b, v);
    }
    assert(a.add(h).intersection_with(b.add(h)) =~= a.intersection_with(b).add(h));
}

/// From slot `i` on, the answers score the hits there plus as many blows as
/// the free code digits and the wrongly placed guessed digits have in
/// common, and none is invalid.
proof fn lemma_scored_from(enc: Seq<char>, dec: Seq<char>, i: int, checked: Seq<bool>)
    requires
        enc.len() == dec.len(),
        checked.len() == enc.len(),
        0 <= i <= dec.len(),
        forall|k: int| i <= k < dec.len() && dec[k] == enc[k] ==> checked[k],
    ensures
        scored(answers_from(enc, dec, i, checked)) == hit_digits(enc, dec, i).len()
            + free_codes(enc, checked, 0).intersection_with(open_guesses(enc, dec, i)).len(),
        forall|k: int|
            0 <= k < answers_from(enc, dec, i, checked).len() ==> #[trigger] answers_from(
                enc,
                dec,
                i,
                checked,
            )[k] != DecodeResult::Invalid,
    decreases dec.len() - i,
{
    broadcast use vstd::multiset::group_multiset_axioms;
    broadcast use vstd::multiset::lemma_insert_len;

    let whole = answers_from(enc, dec, i, checked);
    if i == dec.len() {
        lemma_common_empty(free_codes(enc, checked, 0));
    } else {
        let c = dec[i];
        if dec[i] == enc[i] {
            let rest = answers_from(enc, dec, i + 1, checked);
            lemma_scored_from(enc, dec, i + 1, checked);
            assert(whole == seq![DecodeResult::Hit] + rest);
            assert(whole.drop_first() =~= rest);
        } else {
            lemma_first_free_match(enc, c, i, checked, 0);
            match first_free_match(enc, c, i, checked, 0) {
                Some(j) => {
                    let c2 = checked.update(j, true);
                    let rest = answers_from(enc, dec, i + 1, c2);
                    lemma_scored_from(enc, dec, i + 1, c2);
                    assert(whole == seq![DecodeResult::Blow] + rest);
                    assert(whole.drop_first() =~= rest);
                    lemma_free_codes_take(enc, checked, j, 0);
                    lemma_common_insert(
                        free_codes(enc, c2, 0),
                        open_guesses(enc, dec, i + 1),
                        c,
                    );
                },
                None => {
                    let rest = answers_from(enc, dec, i + 1, checked);
                    lemma_scored_from(enc, dec, i + 1, checked);
                    assert(whole == seq![DecodeResult::Miss] + rest);
                    assert(whole.drop_first() =~= rest);
                    lemma_free_codes_absent(enc, checked, c, 0);
                    lemma_common_absent(free_codes(enc, checked, 0), open_guesses(enc, dec, i + 1), c);
                },
            }
        }
        assert forall|k: int| 0 <= k < whole.len() implies #[trigger] whole[k]
            != DecodeResult::Invalid by {
            if k > 0 {
                assert(whole[k] == whole.drop_first()[k - 1]);
            }
        }
    }
}

/// A sequence's items from slot `i` on: the item at `i` and those after.
proof fn lemma_skip_items(s: Seq<char>, i: int)
    requires
        0 <= i < s.len(),
    ensures
        s.skip(i).to_multiset() == s.skip(i + 1).to_multiset().insert(s[i]),
{
    broadcast use vstd::seq_lib::group_to_multiset_ensures;
    broadcast use vstd::multiset::group_multiset_axioms;

    let t = s.skip(i);
    assert(t.remove(0) =~= s.skip(i + 1));
    assert(t.contains(s[i])) by {
        assert(t[0] == s[i]);
    }
    assert(t.to_multiset() =~= t.remove(0).to_multiset().insert(s[i]));
}

/// The code's digits from slot `i` on are its unchecked ones plus the hit
/// ones, and the guess's are its wrongly placed ones plus the same hits.
proof fn lemma_split_digits(enc: Seq<char>, dec: Seq<char>, i: int)
    requires
        enc.len() == dec.len(),
        0 <= i <= enc.len(),
    ensures
        enc.skip(i).to_multiset() == free_codes(enc, hit_mask(enc, dec), i).add(
            hit_digits(enc, dec, i),
        ),
        dec.skip(i).to_multiset() == open_guesses(enc, dec, i).add(hit_digits(enc, dec, i)),
    decreases enc.len() - i,
{
    broadcast use vstd::seq_lib::group_to_multiset_ensures;
    broadcast use vstd::multiset::group_multiset_axioms;

    if i == enc.len() {
        assert(enc.skip(i) =~= Seq::<char>::empty());
        assert(dec.skip(i) =~= Seq::<char>::empty());
        assert(enc.skip(i).to_multiset() =~= Multiset::empty());
        assert(dec.skip(i).to_multiset() =~= Multiset::empty());
    } else {
        lemma_split_digits(enc, dec, i + 1);
        lemma_skip_items(enc, i);
        lemma_skip_items(dec, i);
        let f1 = free_codes(enc, hit_mask(enc, dec), i + 1);
        let h1 = hit_digits(enc, dec, i + 1);
        let g1 = open_guesses(enc, dec, i + 1);
        assert(hit_mask(enc, dec)[i] == (dec[i] == enc[i]));
        if dec[i] == enc[i] {
            assert(f1.add(h1).insert(enc[i]) =~= f1.add(h1.insert(enc[i])));
            assert(g1.add(h1).insert(dec[i]) =~= g1.add(h1.insert(enc[i])));
        } else {
            assert(f1.add(h1).insert(enc[i]) =~= f1.insert(enc[i]).add(h1));
            assert(g1.add(h1).insert(dec[i]) =~= g1.insert(dec[i]).add(h1));
        }
    }
}

/// Hits and blows together are as many as the code and the guess have
/// digits in common, counting each digit as often as both have it; and no
/// answer is invalid.
pub proof fn law_hits_and_blows(enc: Seq<char>, dec: Seq<char>)
    requires
        enc.len() == dec.len(),
    ensures
        scored(answers(enc, dec)) == enc.to_multiset().intersection_with(dec.to_multiset()).len(),
        forall|k: int|
            0 <= k < answers(enc, dec).len() ==> #[trigger] answers(enc, dec)[k]
                != DecodeResult::Invalid,
{
    broadcast use vstd::multiset::group_multiset_axioms;

    let m = hit_mask(enc, dec);
    lemma_scored_from(enc, dec, 0, m);
    lemma_split_digits(enc, dec, 0);
    assert(enc.skip(0) =~= enc);
    assert(dec.skip(0) =~= dec);
    lemma_common_add(free_codes(enc, m, 0), open_guesses(enc, dec, 0), hit_digits(enc, dec, 0));
}

/// In the answers from slot `i` on, the one for slot `k` is a hit exactly
/// when the guess equals the code at `k`.
proof fn lemma_answers_hit(enc: Seq<char>, dec: Seq<char>, i: int, checked: Seq<bool>, k: int)
    requires
        0 <= i <= k < dec.len(),
    ensures
        (answers_from(enc, dec, i, checked)[k - i] == DecodeResult::Hit) == (dec[k] == enc[k]),
    decreases k - i,
{
    let whole = answers_from(enc, dec, i, checked);
    let next_checked = if dec[i] == enc[i] {
        checked
    } else {
        match first_free_match(enc, dec[i], i, checked, 0) {
            Some(j) => checked.update(j, true),
            None => checked,
        }
    };
    let rest = answers_from(enc, dec, i + 1, next_checked);
    lemma_answers_len(enc, dec, i + 1, next_checked);
    assert(whole == seq![whole[0]] + rest);
    if k > i {
        lemma_answers_hit(enc, dec, i + 1, next_checked, k);
        assert(whole[k - i] == rest[k - i - 1]);
    }
}

/// All `n` first slots are hits exactly when the guess and the code agree
/// on them.
proof fn lemma_hit_count_all(enc: Seq<char>, dec: Seq<char>, n: int)
    requires
        0 <= n <= enc.len(),
        n <= dec.len(),
    ensures
        hit_count(enc, dec, n) <= n,
        (hit_count(enc, dec, n) == n) == (forall|j: int| 0 <= j < n ==> dec[j] == enc[j]),
        enc.len() == n && dec.len() == n ==> ((hit_count(enc, dec, n) == n) == (dec == enc)),
    decreases n,
{
    if n > 0 {
        lemma_hit_count_all(enc, dec, n - 1);
        if hit_count(enc, dec, n) == n {
            assert forall|j: int| 0 <= j < n implies dec[j] == enc[j] by {
                if j < n - 1 {
                }
            }
        }
    }
    if enc.len() == n && dec.len() == n && (forall|j: int| 0 <= j < n ==> dec[j] == enc[j]) {
        assert(dec =~= enc);
    }
}

/// Typing `c` into a slot before the last of the row took the game from
/// `before` to `after`: the digit is in the slot and the cursor one further.
pub open spec fn typed_in_row(before: GameProgress, after: GameProgress, c: char) -> bool {
    &&& before.index < CODE_LENGTH - 1
    &&& after.decoding@ == before.decoding@.update(before.index as int, c)
    &&& after.index == before.index + 1
    &&& after.turn == before.turn
    &&& after.encoded@ == before.encoded@
}

/// Erasing took the game from `before` to `after`: the slot before the
/// cursor is blank again and the cursor stands on it.
pub open spec fn erased(before: GameProgress, after: GameProgress) -> bool {
    &&& 0 < before.index <= CODE_LENGTH
    &&& after.decoding@ == before.decoding@.update(before.index - 1, ' ')
    &&& after.index == before.index - 1
    &&& after.turn == before.turn
    &&& after.encoded@ == before.encoded@
}

/// Typing a digit into a blank slot before the last of the row and erasing
/// it again gives back the game as it was.
pub proof fn law_type_then_erase(
    before: GameProgress,
    mid: GameProgress,
    after: GameProgress,
    c: char,
)
    requires
        before.wf(),
        before.index < CODE_LENGTH - 1,
        before.decoding@[before.index as int] == ' ',
        typed_in_row(before, mid, c),
        erased(mid, after),
    ensures
        after.decoding@ == before.decoding@,
        after.index == before.index,
        after.turn == before.turn,
        after.encoded@ == before.encoded@,
{
    assert(after.decoding@ =~= before.decoding@);
}

/// Types digit `c` into the current slot: the code breaker's turn. The
/// last slot of a row submits the guess for an answer. With the cursor past
/// the last slot nothing happens.
pub fn enter_character(c: char, game_progress: &mut GameProgress) -> (r: (bool, Vec<DecodeResult>))
    requires
        old(game_progress).wf(),
        old(game_progress).turn < usize::MAX,
    ensures
        final(game_progress).wf(),
        final(game_progress).encoded@ == old(game_progress).encoded@,
        old(game_progress).index < CODE_LENGTH - 1 ==> typed_in_row(
            *old(game_progress),
            *final(game_progress),
            c,
        ),
        old(game_progress).index >= CODE_LENGTH ==> r.0 == false && r.1@.len() == 0
            && final(game_progress).decoding@ == old(game_progress).decoding@
            && final(game_progress).index == old(game_progress).index
            && final(game_progress).turn == old(game_progress).turn,
        old(game_progress).index < CODE_LENGTH ==> ({
            let guess = old(game_progress).decoding@.update(old(game_progress).index as int, c);
            &&& final(game_progress).decoding@ == guess
            &&& old(game_progress).index < CODE_LENGTH - 1 ==> {
                &&& r.0 == false
                &&& r.1@.len() == 0
                &&& final(game_progress).index == old(game_progress).index + 1
                &&& final(game_progress).turn == old(game_progress).turn
            }
            &&& old(game_progress).index == CODE_LENGTH - 1 ==> {
                &&& r.0 == (guess == old(game_progress).encoded@)
                &&& r.1@ == answers(old(game_progress).encoded@, guess)
                &&& r.0 ==> final(game_progress).index == old(game_progress).index
                    && final(game_progress).turn == old(game_progress).turn
                &&& !r.0 ==> final(game_progress).index == 0 && final(game_progress).turn == old(game_progress).turn + 1
            }
        }),
{
    let index = game_progress.index;
    if index >= CODE_LENGTH {
        return (false, Vec::new());
    }
    game_progress.decoding.set(index, c);
    if game_progress.index < CODE_LENGTH - 1 {
        game_progress.index = game_progress.index + 1;
        return (false, Vec::new());
    }
    decode_characters(game_progress)
}

/// Erases the digit before the current slot; answers whether there was one
/// (there is none before the first slot, nor with the cursor more than one
/// past the last).
pub fn delete_character(game_progress: &mut GameProgress) -> (r: bool)
    requires
        old(game_progress).wf(),
    ensures
        final(game_progress).wf(),
        final(game_progress).encoded@ == old(game_progress).encoded@,
        final(game_progress).turn == old(game_progress).turn,
        r == (0 < old(game_progress).index <= CODE_LENGTH),
        r ==> erased(*old(game_progress), *final(game_progress)),
        r ==> final(game_progress).index == old(game_progress).index - 1
            && final(game_progress).decoding@ == old(game_progress).decoding@.update(
            old(game_progress).index - 1,
            ' ',
        ),
        !r ==> final(game_progress).index == old(game_progress).index && final(game_progress).decoding@ == old(game_progress).decoding@,
{
    let index = game_progress.index;
    if index == 0 || index > CODE_LENGTH {
        return false;
    }
    game_progress.decoding.set(index - 1, ' ');
    game_progress.index = index - 1;
    true
}

/// `ch` is one of the characters `'0'` to `'9'`.
pub open spec fn is_decimal_digit(ch: char) -> bool {
    48 <= (ch as u32) <= 57
}

/// The character of decimal digit `d`.
fn char_from_digit(d: u32) -> (r: char)
    requires
        d < 10,
    ensures
        r as u32 == 48 + d,
        is_decimal_digit(r),
{
    let b: u8 = 48 + d as u8;
    b as char
}

/// Draws a new hidden code of random decimal digits.
pub fn encode_characters(game_progress: &mut GameProgress)
    requires
        old(game_progress).wf(),
    ensures
        final(game_progress).wf(),
        final(game_progress).turn == old(game_progress).turn,
        final(game_progress).index == old(game_progress).index,
        final(game_progress).decoding@ == old(game_progress).decoding@,
        forall|j: int|
            0 <= j < CODE_LENGTH ==> is_decimal_digit(#[trigger] final(game_progress).encoded@[j]),
{
    let mut code: Vec<char> = Vec::new();
    let mut k: usize = 0;
    while k < CODE_LENGTH
        invariant
            k <= CODE_LENGTH,
            code@.len() == k,
            forall|j: int| 0 <= j < k ==> is_decimal_digit(#[trigger] code@[j]),
        decreases CODE_LENGTH - k,
    {
        let d = fast_u32(0, 10);
        let ch = char_from_digit(d);
        code.push(ch);
        assert(is_decimal_digit(code@[k as int]));
        k = k + 1;
    }
    game_progress.encoded = code;
}

/// Starts a new game: a new hidden code, the cursor back at the first slot
/// of the first row.
pub fn reset_game(game_progress: &mut GameProgress)
    requires
        old(game_progress).wf(),
    ensures
        final(game_progress).wf(),
        final(game_progress).turn == 0,
        final(game_progress).index == 0,
        final(game_progress).decoding@ == old(game_progress).decoding@,
        forall|j: int|
            0 <= j < CODE_LENGTH ==> is_decimal_digit(#[trigger] final(game_progress).encoded@[j]),
{
    encode_characters(game_progress);
    game_progress.index = 0;
    game_progress.turn = 0;
}

/// What the board shows after a digit is typed.
pub struct InputOutcome {
    /// Column of the cursor after the digit went in.
    pub cursor_x: usize,
    /// Row of the cursor after the digit went in.
    pub cursor_y: usize,
    /// The row that was answered, and its answers, when a guess was
    /// submitted.
    pub answered: Option<(usize, Vec<DecodeResult>)>,
    /// The end of the game, when it ended.
    pub end: Option<BitResult>,
}

/// Typing `c` took the game from `before` to `after` and the board shows
/// `r`: the digit goes into the current slot and the cursor moves on; the
/// last slot submits the row, whose answers are shown; the game is won when
/// the code is broken, lost when the last row was answered otherwise.
pub open spec fn input_applied(before: GameProgress, after: GameProgress, c: char, r: InputOutcome) -> bool {
    &&& after.encoded@ == before.encoded@
    &&& r.cursor_x == after.index
    &&& r.cursor_y == after.turn
    &&& before.index >= CODE_LENGTH ==> r.answered is None && r.end is None && after.index
        == before.index && after.turn == before.turn && after.decoding@ == before.decoding@
    &&& before.index < CODE_LENGTH ==> after.decoding@ == before.decoding@.update(
        before.index as int,
        c,
    )
    &&& before.index < CODE_LENGTH - 1 ==> r.answered is None && r.end is None && after.index
        == before.index + 1 && after.turn == before.turn
    &&& before.index == CODE_LENGTH - 1 ==> {
        let guess = before.decoding@.update(before.index as int, c);
        let won = guess == before.encoded@;
        &&& r.answered matches Some((row, a)) && row == before.turn && a@ == answers(
            before.encoded@,
            guess,
        )
        &&& won ==> r.end == Some(BitResult::Success)
        &&& !won && before.turn == MAX_TURN - 1 ==> r.end == Some(BitResult::Failure)
        &&& !won && before.turn != MAX_TURN - 1 ==> r.end is None
        &&& won ==> after.index == before.index && after.turn == before.turn
        &&& !won ==> after.index == 0 && after.turn == before.turn + 1
    }
}

/// Types digit `c` and decides what the board shows: where the cursor goes,
/// the answers of a submitted row, and the end of the game, won when the code
/// is broken, lost when the last row was answered otherwise.
pub fn common_input(c: char, game_progress: &mut GameProgress) -> (r: InputOutcome)
    requires
        old(game_progress).wf(),
        old(game_progress).turn < usize::MAX,
    ensures
        final(game_progress).wf(),
        input_applied(*old(game_progress), *final(game_progress), c, r),
{
    let row = game_progress.turn;
    proof {
        let guess = game_progress.decoding@.update(game_progress.index as int, c);
        lemma_answers_len(game_progress.encoded@, guess, 0, hit_mask(game_progress.encoded@, guess));
    }
    let (res, colors) = enter_character(c, game_progress);
    let cursor_x = game_progress.index;
    let cursor_y = game_progress.turn;
    if colors.len() == CODE_LENGTH {
        let end = if res {
            Some(BitResult::Success)
        } else if row == MAX_TURN - 1 {
            Some(BitResult::Failure)
        } else {
            None
        };
        InputOutcome { cursor_x, cursor_y, answered: Some((row, colors)), end }
    } else {
        InputOutcome { cursor_x, cursor_y, answered: None, end: None }
    }
}

/// A key of the keypad or the keyboard.
#[derive(Clone, Copy, Debug, PartialEq, Eq, Structural)]
pub enum Key {
    /// A digit key, `0` to `9`.
    Digit(u8),
    /// Backspace (or minus on the keyboard).
    Backspace,
    Other,
}

/// The key a keypad button stands for, read off its label: a single digit
/// `0` to `9` is that digit, `BS` is backspace, anything else is no key.
pub open spec fn key_of_label(label: Seq<char>) -> Key {
    if label.len() == 1 && is_decimal_digit(label[0]) {
        Key::Digit(((label[0] as u32) - 48) as u8)
    } else if label == seq!['B', 'S'] {
        Key::Backspace
    } else {
        Key::Other
    }
}

/// Reads a keypad button's label as a key.
pub fn key_for_label(label: &str) -> (r: Key)
    ensures
        r == key_of_label(label@),
{
    let n = label.unicode_len();
    if n == 1 {
        let c = label.get_char(0);
        let code = c as u32;
        if 48 <= code && code <= 57 {
            Key::Digit((code - 48) as u8)
        } else {
            Key::Other
        }
    } else if n == 2 && label.get_char(0) == 'B' && label.get_char(1) == 'S' {
        proof {
            assert(label@ =~= seq!['B', 'S']);
        }
        Key::Backspace
    } else {
        proof {
            if label@ == seq!['B', 'S'] {
                assert(label@[0] == 'B' && label@[1] == 'S');
            }
        }
        Key::Other
    }
}

/// What a key press did.
pub enum KeyOutcome {
    /// A digit was typed.
    Typed(InputOutcome),
    /// The digit before the cursor was erased; the cursor's new place.
    Erased { cursor_x: usize, cursor_y: usize },
    Ignored,
}

/// Handles a key: digits are typed, backspace erases the digit before the
/// cursor, any other key does nothing.
pub fn press_key(key: Key, game_progress: &mut GameProgress) -> (r: KeyOutcome)
    requires
        old(game_progress).wf(),
        old(game_progress).turn < usize::MAX,
    ensures
        final(game_progress).wf(),
        key is Digit && key->0 < 10 ==> (r matches KeyOutcome::Typed(out) && input_applied(
            *old(game_progress),
            *final(game_progress),
            (48 + key->0) as char,
            out,
        )),
        key == Key::Backspace && 0 < old(game_progress).index <= CODE_LENGTH ==> (r matches KeyOutcome::Erased {
            cursor_x,
            cursor_y,
        } && cursor_x == old(game_progress).index - 1 && cursor_y == old(game_progress).turn)
            && final(game_progress).index == old(game_progress).index - 1
            && final(game_progress).turn == old(game_progress).turn
            && final(game_progress).encoded@ == old(game_progress).encoded@
            && final(game_progress).decoding@ == old(game_progress).decoding@.update(
            old(game_progress).index - 1,
            ' ',
        ),
        (key == Key::Backspace && (old(game_progress).index == 0 || old(game_progress).index
            > CODE_LENGTH)) || key == Key::Other || (
        key is Digit && key->0 >= 10) ==> r is Ignored && final(game_progress).index
            == old(game_progress).index && final(game_progress).turn == old(game_progress).turn
            && final(game_progress).encoded@ == old(game_progress).encoded@
            && final(game_progress).decoding@ == old(game_progress).decoding@,
{
    match key {
        Key::Digit(d) => {
            if d < 10 {
                let c = char_from_digit(d as u32);
                KeyOutcome::Typed(common_input(c, game_progress))
            } else {
                KeyOutcome::Ignored
            }
        },
        Key::Backspace => {
            if delete_character(game_progress) {
                KeyOutcome::Erased { cursor_x: game_progress.index, cursor_y: game_progress.turn }
            } else {
                KeyOutcome::Ignored
            }
        },
        Key::Other => KeyOutcome::Ignored,
    }
}

} // verus!
