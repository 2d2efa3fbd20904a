//! The math quiz: four stages of growing difficulty, each a question with
//! four answers to pick from; a wrong pick ends the game.

use vstd::prelude::*;
use crate::random::{fast_bool, fast_i32, fast_usize};
use crate::shuffle::swap_shuffle;
use crate::ribbit::BitResult;

verus! {

/// The number of answers offered for a question.
pub const ANSWER_COUNT: usize = 4;

/// The last stage; answering it right wins the game.
pub const LAST_STAGE: u32 = 4;

#[derive(Clone, Copy, Debug, PartialEq, Eq, Structural)]
pub enum Op {
    Plus,
    Minus,
}

/// A question as it is shown: `a x b`, `a + b`, or `a op1 b(b op2 c)`.
#[derive(Clone, Copy, Debug, PartialEq, Eq, Structural)]
pub enum Question {
    Times(i32, i32),
    Sum(i32, i32),
    Nested(i32, Op, i32, Op, i32),
}

pub open spec fn apply(op: Op, x: int, y: int) -> int {
    match op {
        Op::Plus => x + y,
        Op::Minus => x - y,
    }
}

/// The value of a question.
pub open spec fn question_value(q: Question) -> int {
    match q {
        Question::Times(a, b) => a * b,
        Question::Sum(a, b) => a + b,
        Question::Nested(a, op1, b, op2, c) => apply(op1, a as int, b * apply(op2, b as int, c as int)),
    }
}

/// The value of `a op1 b(b op2 c)` in closed form, over all operands: the
/// first operator puts its sign in front of the bracket term `b(b op2 c)`,
/// the second decides the sign of `b*c` inside it, each independently of the
/// other (so `50 - 3(3 - 2)` is `50 - 9 + 6`); and the plus and minus forms
/// of the first operator lie symmetrically around `a`.
pub proof fn law_nested_value(a: i32, b: i32, c: i32, op2: Op)
    ensures
        question_value(Question::Nested(a, Op::Plus, b, Op::Plus, c)) == a + b * b + b * c,
        question_value(Question::Nested(a, Op::Plus, b, Op::Minus, c)) == a + b * b - b * c,
        question_value(Question::Nested(a, Op::Minus, b, Op::Plus, c)) == a - b * b - b * c,
        question_value(Question::Nested(a, Op::Minus, b, Op::Minus, c)) == a - b * b + b * c,
        question_value(Question::Nested(a, Op::Plus, b, op2, c)) + question_value(
            Question::Nested(a, Op::Minus, b, op2, c),
        ) == 2 * a,
{
    assert(b * (b + c) == b * b + b * c) by (nonlinear_arith);
    assert(b * (b - c) == b * b - b * c) by (nonlinear_arith);
}

/// The other questions are worth their product and their sum.
pub proof fn law_simple_value(a: i32, b: i32)
    ensures
        question_value(Question::Times(a, b)) == a * b,
        question_value(Question::Sum(a, b)) == a + b,
        question_value(Question::Times(a, b)) == question_value(Question::Times(b, a)),
{
    assert(a * b == b * a) by (nonlinear_arith);
}

/// The operands of a question lie in the ranges its stage draws them from.
pub open spec fn question_of_stage(q: Question, stage: u32) -> bool {
    match q {
        Question::Times(a, b) => (stage == 1 && 2 <= a < 10 && 2 <= b < 10) || (stage == 3 && 10
            <= a < 100 && 2 <= b < 10),
        Question::Sum(a, b) => stage == 2 && 10 <= a < 100 && 10 <= b < 100,
        Question::Nested(a, _, b, _, c) => stage == 4 && 10 <= a < 100 && 1 <= b < 10 && 1 <= c
            < 10,
    }
}

/// A question drawn by some stage.
pub open spec fn small_question(q: Question) -> bool {
    exists|s: u32| 1 <= s <= LAST_STAGE && question_of_stage(q, s)
}

/// The value of a drawn question.
pub fn correct_answer(q: Question) -> (r: i32)
    requires
        small_question(q),
    ensures
        r == question_value(q),
        -2000 <= r <= 2000,
        q matches Question::Nested(a, Op::Minus, b, Op::Minus, c) ==> r == a - b * b + b * c,
        q matches Question::Nested(a, Op::Minus, b, Op::Plus, c) ==> r == a - b * b - b * c,
        q matches Question::Nested(a, Op::Plus, b, Op::Minus, c) ==> r == a + b * b - b * c,
        q matches Question::Nested(a, Op::Plus, b, Op::Plus, c) ==> r == a + b * b + b * c,
{
    if let Question::Nested(a, _, b, op2, c) = q {
        proof {
            law_nested_value(a, b, c, op2);
        }
    }
    match q {
        Question::Times(a, b) => {
            assert(-1000 <= a * b <= 1000) by (nonlinear_arith)
                requires
                    2 <= a < 100,
                    2 <= b < 10,
            ;
            a * b
        },
        Question::Sum(a, b) => a + b,
        Question::Nested(a, op1, b, op2, c) => {
            let inner = match op2 {
                Op::Plus => b + c,
                Op::Minus => b - c,
            };
            assert(-1000 <= b * inner <= 1000) by (nonlinear_arith)
                requires
                    1 <= b < 10,
                    -9 <= inner <= 18,
            ;
            let scaled = b * inner;
            match op1 {
                Op::Plus => a + scaled,
                Op::Minus => a - scaled,
            }
        },
    }
}

fn random_op() -> (r: Op) {
    if fast_bool() {
        Op::Plus
    } else {
        Op::Minus
    }
}

/// Draws the question of `stage`; stages past the last draw none.
pub fn make_question(stage: u32) -> (r: Option<Question>)
    ensures
        1 <= stage <= LAST_STAGE ==> (r matches Some(q) && question_of_stage(q, stage)),
        !(1 <= stage <= LAST_STAGE) ==> r is None,
{
    if stage == 1 {
        let a = fast_i32(2, 10);
        let b = fast_i32(2, 10);
        Some(Question::Times(a, b))
    } else if stage == 2 {
        let a = fast_i32(10, 100);
        let b = fast_i32(10, 100);
        Some(Question::Sum(a, b))
    } else if stage == 3 {
        let a = fast_i32(10, 100);
        let b = fast_i32(2, 10);
        Some(Question::Times(a, b))
    } else if stage == 4 {
        let a = fast_i32(10, 100);
        let b = fast_i32(1, 10);
        let c = fast_i32(1, 10);
        let op1 = random_op();
        let op2 = random_op();
        Some(Question::Nested(a, op1, b, op2, c))
    } else {
        None
    }
}

/// The last digit of `v` with its sign, as Rust's `%` by ten gives it.
pub open spec fn last_digit(v: int) -> int {
    if v >= 0 {
        v % 10
    } else {
        -((-v) % 10)
    }
}

fn rem10(v: i32) -> (r: i32)
    ensures
        r == last_digit(v as int),
{
    if v == i32::MIN {
        -8
    } else if v >= 0 {
        v % 10
    } else {
        -((-v) % 10)
    }
}

fn contains_value(v: &Vec<i32>, x: i32) -> (r: bool)
    ensures
        r == v@.contains(x),
{
    let mut k: usize = 0;
    while k < v.len()
        invariant
            k <= v@.len(),
            forall|j: int| 0 <= j < k ==> v@[j] != x,
        decreases v@.len() - k,
    {
        if v[k] == x {
            assert(v@[k as int] == x);
            return true;
        }
        k = k + 1;
    }
    false
}

/// The answers offered are the right one and wrong ones, all different, all
/// within ten of the right one.
pub open spec fn valid_answers(answers: Seq<i32>, correct: int) -> bool {
    &&& answers.len() >= 1
    &&& answers[0] == correct
    &&& forall|i: int, j: int|
        0 <= i < answers.len() && 0 <= j < answers.len() && i != j ==> answers[i] != answers[j]
    &&& forall|i: int| 0 <= i < answers.len() ==> correct - 10 <= #[trigger] answers[i] < correct + 10
}

/// Starts the answers with the right one, then tries up to a hundred
/// random draws near it for a wrong answer with the same last digit.
pub fn seed_answers(correct: i32) -> (r: Vec<i32>)
    requires
        i32::MIN + 10 <= correct <= i32::MAX - 9,
    ensures
        1 <= r@.len() <= 2,
        valid_answers(r@, correct as int),
        r@.len() == 2 ==> last_digit(r@[1] as int) == last_digit(correct as int),
{
    let final_digit = rem10(correct);
    let mut answers: Vec<i32> = Vec::new();
    answers.push(correct);
    let mut attempts: u32 = 0;
    while answers.len() < 2 && attempts < 100
        invariant
            i32::MIN + 10 <= correct <= i32::MAX - 9,
            final_digit == last_digit(correct as int),
            1 <= answers@.len() <= 2,
            valid_answers(answers@, correct as int),
            answers@.len() == 2 ==> last_digit(answers@[1] as int) == last_digit(correct as int),
            attempts <= 100,
        decreases 100 - attempts,
    {
        let wrong_answer = correct + fast_i32(-10, 10);
        offer_same_digit(&mut answers, correct, wrong_answer);
        attempts = attempts + 1;
    }
    answers
}

/// Adds the drawn `wrong_answer` to the answers when there is only the
/// right one so far and it differs from it but ends in the same digit;
/// answers whether it was added.
pub fn offer_same_digit(answers: &mut Vec<i32>, correct: i32, wrong_answer: i32) -> (r: bool)
    requires
        valid_answers(old(answers)@, correct as int),
        old(answers)@.len() == 1,
        correct - 10 <= wrong_answer < correct + 10,
    ensures
        r == (wrong_answer != correct && last_digit(wrong_answer as int) == last_digit(
            correct as int,
        )),
        r ==> final(answers)@ == old(answers)@.push(wrong_answer),
        !r ==> final(answers)@ == old(answers)@,
        valid_answers(final(answers)@, correct as int),
{
    if wrong_answer != correct && rem10(wrong_answer) == rem10(correct) {
        let added = offer_wrong_answer(answers, correct, wrong_answer);
        proof {
            assert(!old(answers)@.contains(wrong_answer)) by {
                if old(answers)@.contains(wrong_answer) {
                    let k = choose|k: int| 0 <= k < old(answers)@.len() && old(answers)@[k] == wrong_answer;
                    assert(k == 0);
                }
            }
        }
        true
    } else {
        false
    }
}

/// Adds `wrong_answer` to the answers when it differs from the right one
/// and from every answer already there; answers whether it was added.
pub fn offer_wrong_answer(answers: &mut Vec<i32>, correct: i32, wrong_answer: i32) -> (r: bool)
    requires
        valid_answers(old(answers)@, correct as int),
        correct - 10 <= wrong_answer < correct + 10,
    ensures
        r == (wrong_answer != correct && !old(answers)@.contains(wrong_answer)),
        r ==> final(answers)@ == old(answers)@.push(wrong_answer),
        !r ==> final(answers)@ == old(answers)@,
        valid_answers(final(answers)@, correct as int),
{
    if wrong_answer != correct && !contains_value(answers, wrong_answer) {
        answers.push(wrong_answer);
        proof {
            let s = answers@;
            assert forall|i: int, j: int|
                0 <= i < s.len() && 0 <= j < s.len() && i != j implies s[i] != s[j] by {
                if i == s.len() - 1 {
                    assert(!old(answers)@.contains(s[i]));
                    assert(old(answers)@[j] == s[j]);
                } else if j == s.len() - 1 {
                    assert(!old(answers)@.contains(s[j]));
                    assert(old(answers)@[i] == s[i]);
                }
            }
        }
        true
    } else {
        false
    }
}

/// The values within ten of the right answer (from ten below to nine above)
/// that are not among the answers yet, in increasing order.
pub fn unused_answers(answers: &Vec<i32>, correct: i32) -> (r: Vec<i32>)
    requires
        i32::MIN + 10 <= correct <= i32::MAX - 9,
    ensures
        forall|v: i32|
            r@.contains(v) <==> (correct - 10 <= v < correct + 10 && !answers@.contains(v)),
        forall|i: int, j: int| 0 <= i < j < r@.len() ==> r@[i] < r@[j],
{
    let mut r: Vec<i32> = Vec::new();
    let mut k: i32 = -10;
    while k < 10
        invariant
            i32::MIN + 10 <= correct <= i32::MAX - 9,
            -10 <= k <= 10,
            forall|v: i32|
                r@.contains(v) <==> (correct - 10 <= v < correct + k && !answers@.contains(v)),
            forall|i: int, j: int| 0 <= i < j < r@.len() ==> r@[i] < r@[j],
            forall|i: int| 0 <= i < r@.len() ==> r@[i] < correct + k,
        decreases 10 - k,
    {
        let v = correct + k;
        let ghost before = r@;
        if !contains_value(answers, v) {
            r.push(v);
        }
        proof {
            assert forall|x: i32| r@.contains(x) <==> (correct - 10 <= x < correct + k + 1
                && !answers@.contains(x)) by {
                if r@.contains(x) {
                    let t = choose|t: int| 0 <= t < r@.len() && r@[t] == x;
                    if t < before.len() {
                        assert(before[t] == x);
                        assert(before.contains(x));
                    }
                }
                if correct - 10 <= x < correct + k && !answers@.contains(x) {
                    assert(before.contains(x));
                    let t = choose|t: int| 0 <= t < before.len() && before[t] == x;
                    assert(r@[t] == x);
                }
                if x == v && !answers@.contains(x) {
                    assert(r@[r@.len() - 1] == x);
                }
            }
        }
        k = k + 1;
    }
    r
}

/// Fills the answers up to four with wrong ones, each drawn among the
/// values within ten of the right answer that are not used yet (which picks
/// each of them as often as drawing near the right answer and drawing again
/// on a used one would). The answers already there stay in front.
pub fn fill_answers(answers: &mut Vec<i32>, correct: i32)
    requires
        i32::MIN + 10 <= correct <= i32::MAX - 9,
        valid_answers(old(answers)@, correct as int),
        old(answers)@.len() <= ANSWER_COUNT,
    ensures
        final(answers)@.len() == ANSWER_COUNT,
        valid_answers(final(answers)@, correct as int),
        final(answers)@.subrange(0, old(answers)@.len() as int) == old(answers)@,
{
    while answers.len() < ANSWER_COUNT
        invariant
            i32::MIN + 10 <= correct <= i32::MAX - 9,
            valid_answers(answers@, correct as int),
            old(answers)@.len() <= answers@.len() <= ANSWER_COUNT,
            answers@.subrange(0, old(answers)@.len() as int) == old(answers)@,
        decreases ANSWER_COUNT - answers@.len(),
    {
        let unused = unused_answers(answers, correct);
        proof {
            // Three answers at most, the right one among them: one of the
            // four values from ten below is still free.
            let a = answers@;
            let c0 = (correct - 10) as i32;
            let c1 = (correct - 9) as i32;
            let c2 = (correct - 8) as i32;
            let c3 = (correct - 7) as i32;
            let free = if !a.contains(c0) {
                c0
            } else if !a.contains(c1) {
                c1
            } else if !a.contains(c2) {
                c2
            } else {
                c3
            };
            if a.contains(c0) && a.contains(c1) && a.contains(c2) && a.contains(c3) {
                let k0 = choose|k: int| 0 <= k < a.len() && a[k] == c0;
                let k1 = choose|k: int| 0 <= k < a.len() && a[k] == c1;
                let k2 = choose|k: int| 0 <= k < a.len() && a[k] == c2;
                let k3 = choose|k: int| 0 <= k < a.len() && a[k] == c3;
                assert(false);
            }
            assert(unused@.contains(free));
        }
        let pick = fast_usize(0, unused.len());
        let v = unused[pick];
        proof {
            assert(unused@.contains(v));
            assert(v != correct) by {
                assert(answers@[0] == correct);
                assert(answers@.contains(correct));
            }
        }
        let ghost before = answers@;
        let added = offer_wrong_answer(answers, correct, v);
        proof {
            assert(added);
            assert(answers@.subrange(0, old(answers)@.len() as int) =~= before.subrange(
                0,
                old(answers)@.len() as int,
            ));
        }
    }
}

/// Shuffles the answers, swapping from the back with a random earlier slot.
pub fn shuffle_answers(answers: &mut Vec<i32>)
    ensures
        final(answers)@.to_multiset() == old(answers)@.to_multiset(),
{
    swap_shuffle(answers);
}

/// The quiz state.
pub struct GameData {
    /// The stage reached, counted from 1.
    pub current_stage: u32,
    pub current_question: Option<Question>,
    pub correct_answer: i32,
    pub last_answer_correct: bool,
    /// An answer was picked and its feedback is being shown.
    pub waiting_for_feedback: bool,
}

impl GameData {
    pub fn default() -> (r: GameData)
        ensures
            r.current_stage == 1,
            r.current_question is None,
            r.correct_answer == 0,
            !r.last_answer_correct,
            !r.waiting_for_feedback,
    {
        GameData {
            current_stage: 1,
            current_question: None,
            correct_answer: 0,
            last_answer_correct: false,
            waiting_for_feedback: false,
        }
    }
}

/// The first half of `generate_question`: draws the question of the
/// current stage and starts its answers with the right one, and possibly
/// one wrong answer with the same last digit. Stages past the last keep the
/// question they had.
pub fn pose_question(game_data: &mut GameData) -> (r: Vec<i32>)
    requires
        1 <= old(game_data).current_stage <= LAST_STAGE || i32::MIN + 10 <= old(
            game_data,
        ).correct_answer <= i32::MAX - 9,
    ensures
        final(game_data).current_stage == old(game_data).current_stage,
        1 <= old(game_data).current_stage <= LAST_STAGE ==> (final(game_data).current_question matches Some(q)
            && question_of_stage(q, old(game_data).current_stage) && final(game_data).correct_answer
            == question_value(q)),
        !(1 <= old(game_data).current_stage <= LAST_STAGE) ==> final(game_data).current_question
            == old(game_data).current_question
            && final(game_data).correct_answer == old(game_data).correct_answer,
        !final(game_data).waiting_for_feedback,
        final(game_data).last_answer_correct == old(game_data).last_answer_correct,
        1 <= r@.len() <= 2,
        valid_answers(r@, final(game_data).correct_answer as int),
        r@.len() == 2 ==> last_digit(r@[1] as int) == last_digit(
            final(game_data).correct_answer as int,
        ),
        i32::MIN + 10 <= final(game_data).correct_answer <= i32::MAX - 9,
{
    let q = make_question(game_data.current_stage);
    match q {
        Some(q) => {
            let value = correct_answer(q);
            game_data.current_question = Some(q);
            game_data.correct_answer = value;
        },
        None => {},
    }
    game_data.waiting_for_feedback = false;
    seed_answers(game_data.correct_answer)
}

/// Draws the question of the current stage with its four answers, in
/// random order: the right one and three wrong ones, all different and
/// within ten of the right one (ten below to nine above). Stages past the
/// last keep the question they had.
pub fn generate_question(game_data: &mut GameData) -> (r: Vec<i32>)
    requires
        1 <= old(game_data).current_stage <= LAST_STAGE || i32::MIN + 10 <= old(
            game_data,
        ).correct_answer <= i32::MAX - 9,
    ensures
        final(game_data).current_stage == old(game_data).current_stage,
        1 <= old(game_data).current_stage <= LAST_STAGE ==> (final(game_data).current_question matches Some(q)
            && question_of_stage(q, old(game_data).current_stage) && final(game_data).correct_answer
            == question_value(q)),
        !(1 <= old(game_data).current_stage <= LAST_STAGE) ==> final(game_data).current_question
            == old(game_data).current_question
            && final(game_data).correct_answer == old(game_data).correct_answer,
        !final(game_data).waiting_for_feedback,
        final(game_data).last_answer_correct == old(game_data).last_answer_correct,
        r@.len() == ANSWER_COUNT,
        r@.contains(final(game_data).correct_answer),
        forall|i: int, j: int| 0 <= i < j < r@.len() ==> r@[i] != r@[j],
        forall|i: int|
            0 <= i < r@.len() ==> final(game_data).correct_answer - 10 <= #[trigger] r@[i]
                < final(game_data).correct_answer + 10,
{
    let mut answers = pose_question(game_data);
    let correct = game_data.correct_answer;
    fill_answers(&mut answers, correct);
    let ghost filled = answers@;
    shuffle_answers(&mut answers);
    proof {
        broadcast use vstd::seq_lib::group_to_multiset_ensures;

        assert(filled.no_duplicates());
        crate::shuffle::lemma_same_items_distinct(filled, answers@);
        assert(answers@.len() == filled.len()) by {
            assert(answers@.to_multiset().len() == filled.to_multiset().len());
        }
        assert(answers@.contains(correct)) by {
            assert(filled.to_multiset().count(correct) > 0);
        }
        assert(filled.contains(correct)) by {
            assert(filled[0] == correct);
        }
        assert forall|i: int| 0 <= i < answers@.len() implies correct - 10 <= #[trigger] answers@[i]
            < correct + 10 by {
            assert(answers@.contains(answers@[i]));
            assert(answers@.to_multiset().count(answers@[i]) > 0);
            assert(filled.contains(answers@[i]));
            let k = choose|k: int| 0 <= k < filled.len() && filled[k] == answers@[i];
        }
    }
    answers
}

/// The player picked the answer `value`. While feedback is shown nothing
/// happens (`None`); otherwise answers whether the pick is right, and a
/// right pick moves on a stage.
pub fn check_answer(game_data: &mut GameData, value: i32) -> (r: Option<bool>)
    requires
        old(game_data).current_stage < u32::MAX,
    ensures
        old(game_data).waiting_for_feedback ==> r is None && *final(game_data) == *old(game_data),
        !old(game_data).waiting_for_feedback ==> {
            let right = value == old(game_data).correct_answer;
            &&& r == Some(right)
            &&& final(game_data).last_answer_correct == right
            &&& final(game_data).waiting_for_feedback
            &&& final(game_data).current_stage == if right {
                old(game_data).current_stage + 1
            } else {
                old(game_data).current_stage as int
            }
            &&& final(game_data).correct_answer == old(game_data).correct_answer
            &&& final(game_data).current_question == old(game_data).current_question
        },
{
    if game_data.waiting_for_feedback {
        return None;
    }
    let is_correct = value == game_data.correct_answer;
    game_data.last_answer_correct = is_correct;
    if is_correct {
        game_data.current_stage = game_data.current_stage + 1;
    }
    game_data.waiting_for_feedback = true;
    Some(is_correct)
}

/// What follows the feedback on a pick.
#[derive(Clone, Copy, Debug, PartialEq, Eq, Structural)]
pub enum FeedbackOutcome {
    /// Ask the question of the next stage.
    NextQuestion,
    /// The game is over with this result.
    GameOver(BitResult),
}

/// Once the feedback has been shown: a right pick past the last stage wins
/// with the time taken, another right pick leads to the next question, a
/// wrong pick loses.
pub fn feedback_over(game_data: &mut GameData, elapsed_millis: u64) -> (r: FeedbackOutcome)
    ensures
        old(game_data).last_answer_correct && old(game_data).current_stage > LAST_STAGE ==> r
            == FeedbackOutcome::GameOver(BitResult::FastestDuration(elapsed_millis)),
        old(game_data).last_answer_correct && old(game_data).current_stage <= LAST_STAGE ==> r
            == FeedbackOutcome::NextQuestion,
        !old(game_data).last_answer_correct ==> r == FeedbackOutcome::GameOver(BitResult::Failure),
        !final(game_data).waiting_for_feedback,
        final(game_data).current_stage == old(game_data).current_stage,
        final(game_data).last_answer_correct == old(game_data).last_answer_correct,
        final(game_data).correct_answer == old(game_data).correct_answer,
        final(game_data).current_question == old(game_data).current_question,
{
    game_data.waiting_for_feedback = false;
    if game_data.last_answer_correct {
        if game_data.current_stage > LAST_STAGE {
            FeedbackOutcome::GameOver(BitResult::FastestDuration(elapsed_millis))
        } else {
            FeedbackOutcome::NextQuestion
        }
    } else {
        FeedbackOutcome::GameOver(BitResult::Failure)
    }
}

} // verus!
