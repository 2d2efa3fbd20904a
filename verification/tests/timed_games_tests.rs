use bevy_bits::math_quiz::{
    check_answer, correct_answer, feedback_over, generate_question, make_question,
    offer_wrong_answer, seed_answers, shuffle_answers, FeedbackOutcome, GameData as QuizData, Op,
    Question,
};
use bevy_bits::memoji::{
    deal_cards, initial_wait_over, reveal_over, set_all_face_up, click_card, handle_card_flipping, Card, FlipState, GameDifficulty, GameProgress as MemojiProgress,
    PairOutcome,
};
use bevy_bits::ribbit::BitResult;
use bevy_bits::tower_tumble::{
    finish_initial_wait, interaction_status, InteractionStatus, check_level_complete, check_tower_stability, level_time_up, GameProgress as TowerProgress,
    LevelOutcome, LevelSettings,
};
use bevy_bits::whack_a_mole::{hit_mole, plan_wave, points, ScoreUI, TimeUI, Visibility};

#[test]
fn quiz_question_values() {
    assert_eq!(correct_answer(Question::Times(7, 8)), 56);
    assert_eq!(correct_answer(Question::Sum(45, 38)), 83);
    assert_eq!(correct_answer(Question::Nested(50, Op::Minus, 3, Op::Plus, 4)), 50 - 3 * 7);
    assert_eq!(correct_answer(Question::Nested(20, Op::Plus, 2, Op::Minus, 5)), 20 + 2 * -3);
    assert!(make_question(0).is_none());
    assert!(make_question(5).is_none());
    for stage in 1..=4 {
        assert!(make_question(stage).is_some());
    }
}

#[test]
fn quiz_answers_are_distinct_and_near() {
    let seeded = seed_answers(56);
    assert_eq!(seeded[0], 56);
    if seeded.len() == 2 {
        assert_eq!(seeded[1].rem_euclid(10), 6);
        assert_ne!(seeded[1], 56);
    }
    let mut answers = vec![56];
    assert!(offer_wrong_answer(&mut answers, 56, 50));
    assert!(!offer_wrong_answer(&mut answers, 56, 50));
    assert!(!offer_wrong_answer(&mut answers, 56, 56));
    assert_eq!(answers, vec![56, 50]);
    let mut shuffled = vec![1, 2, 3, 4];
    shuffle_answers(&mut shuffled);
    shuffled.sort();
    assert_eq!(shuffled, vec![1, 2, 3, 4]);
}

#[test]
fn quiz_round_trip() {
    let mut data = QuizData::default();
    let answers = generate_question(&mut data);
    assert!(answers.contains(&data.correct_answer));
    let right = data.correct_answer;
    assert_eq!(check_answer(&mut data, right), Some(true));
    assert_eq!(check_answer(&mut data, right), None);
    assert_eq!(feedback_over(&mut data, 1000), FeedbackOutcome::NextQuestion);
    generate_question(&mut data);
    let wrong = data.correct_answer + 1;
    assert_eq!(check_answer(&mut data, wrong), Some(false));
    assert_eq!(feedback_over(&mut data, 2000), FeedbackOutcome::GameOver(BitResult::Failure));
}

#[test]
fn quiz_win_after_last_stage() {
    let mut data = QuizData::default();
    data.current_stage = 4;
    generate_question(&mut data);
    let right = data.correct_answer;
    assert_eq!(check_answer(&mut data, right), Some(true));
    assert_eq!(
        feedback_over(&mut data, 12_345),
        FeedbackOutcome::GameOver(BitResult::FastestDuration(12_345))
    );
}

#[test]
fn whack_points_and_hits() {
    assert_eq!((points(0), points(1), points(2), points(7)), (1, -1, 5, 1));
    assert_eq!(hit_mole(3, 5), 8);
    assert_eq!(hit_mole(0, -1), 0);
    assert_eq!(hit_mole(u32::MAX, 5), u32::MAX);
}

#[test]
fn whack_waves_are_distinct() {
    for count in 0..10 {
        let wave = plan_wave(count);
        let top = std::cmp::max(2, count / 2);
        assert!(!wave.is_empty() && wave.len() < top);
        assert_eq!(wave[0].variation, 0);
        for i in 0..wave.len() {
            assert!(wave[i].hole < 12 && wave[i].variation < 3);
            for j in 0..i {
                assert_ne!(wave[i].hole, wave[j].hole);
                assert_ne!(wave[i].variation, wave[j].variation);
            }
        }
    }
}

#[test]
fn whack_ui_marks_changes() {
    let mut s = ScoreUI::new();
    assert!(!s.is_dirty);
    s.update(12);
    assert!(s.is_dirty && s.score == 12);
    s.set_visiblity(Visibility::Hidden);
    assert_eq!(s.visibility, Visibility::Hidden);
    let mut t = TimeUI::new();
    t.update(5_000);
    assert_eq!(t.time_millis, 5_000);
}

#[test]
fn tower_scoring_and_collapse() {
    let mut p = TowerProgress::default();
    assert!(p.is_interaction_blocked());
    p.initial_wait_timer = None;
    assert!(!p.is_interaction_blocked());
    for _ in 0..14 {
        assert!(!p.record_block_removal());
    }
    assert!(p.record_block_removal());
    assert_eq!(p.score, 150);
    assert_eq!(check_level_complete(&p), LevelOutcome::LevelComplete);
    p.add_time_bonus(10);
    assert_eq!(p.score, 200);
    let next = p.next_level();
    assert_eq!((next.score, next.blocks_removed), (200, 0));

    let mut q = TowerProgress::default();
    q.initial_wait_timer = None;
    let seven = vec![true; 7];
    assert!(!check_tower_stability(&mut q, &seven));
    let eight = vec![true, false, true, true, true, true, true, true, true];
    assert!(check_tower_stability(&mut q, &eight));
    assert_eq!(check_level_complete(&q), LevelOutcome::GameOver(BitResult::HighestScore(0)));

    let mut r = TowerProgress::default();
    level_time_up(&mut r);
    assert!(r.tower_collapsed);
}

#[test]
fn tower_grows_with_levels() {
    let mut s = LevelSettings::default();
    assert_eq!((s.level, s.tower_height, s.tower_width, s.num_blocks), (1, 4, 3, 12));
    s.advance_level();
    assert_eq!((s.level, s.tower_height, s.tower_width, s.num_blocks), (2, 6, 3, 18));
    s.advance_level();
    s.advance_level();
    assert_eq!((s.level, s.tower_height, s.tower_width), (4, 8, 3));
    s.advance_level();
    assert_eq!((s.level, s.tower_height, s.tower_width, s.num_blocks), (5, 9, 4, 36));
}

#[test]
fn memoji_stages_size_their_grids() {
    let mut d = GameDifficulty::default();
    assert_eq!((d.stage, d.grid_cols, d.grid_rows, d.num_pairs), (1, 4, 2, 4));
    d.advance_stage();
    assert_eq!((d.stage, d.grid_cols, d.grid_rows, d.num_pairs), (2, 3, 3, 4));
    d.advance_stage();
    assert_eq!((d.stage, d.grid_cols, d.grid_rows, d.num_pairs), (3, 3, 3, 4));
    for _ in 0..30 {
        d.advance_stage();
    }
    assert!(d.grid_cols * d.grid_rows >= 24 && d.num_pairs == 12);
}

#[test]
fn memoji_turns_and_matches() {
    let mut cards = vec![
        Card { emoji_index: 1, face_up: false, locked: false },
        Card { emoji_index: 2, face_up: false, locked: false },
        Card { emoji_index: 1, face_up: false, locked: false },
    ];
    let mut flip = FlipState::default();
    let mut progress = MemojiProgress::default();
    assert_eq!(click_card(&mut cards, &mut flip, &progress, &vec![0]), None);
    progress.initial_wait_timer = None;
    assert_eq!(click_card(&mut cards, &mut flip, &progress, &vec![0]), Some(0));
    assert_eq!(click_card(&mut cards, &mut flip, &progress, &vec![0, 2]), Some(2));
    let r = handle_card_flipping(&mut cards, &mut flip, &mut progress, false);
    assert_eq!(r, PairOutcome::Matched { stage_complete: false });
    assert!(cards[0].locked && cards[2].locked);
    assert_eq!(click_card(&mut cards, &mut flip, &progress, &vec![1]), Some(1));
    assert_eq!(handle_card_flipping(&mut cards, &mut flip, &mut progress, false), PairOutcome::Waiting);
}

#[test]
fn memoji_mistakes_end_the_game() {
    let mut cards = vec![
        Card { emoji_index: 1, face_up: false, locked: false },
        Card { emoji_index: 2, face_up: false, locked: false },
    ];
    let mut flip = FlipState::default();
    let mut progress = MemojiProgress::default();
    progress.initial_wait_timer = None;
    progress.mistakes = 3;
    click_card(&mut cards, &mut flip, &progress, &vec![0]);
    click_card(&mut cards, &mut flip, &progress, &vec![1]);
    assert_eq!(handle_card_flipping(&mut cards, &mut flip, &mut progress, false), PairOutcome::GameOver);
    assert!(progress.game_over);
    assert_eq!(progress.mistakes, 4);
    assert_eq!(progress.game_over_reveal_timer, Some(bevy_bits::memoji::GAME_OVER_REVEAL_MILLIS));
}

#[test]
fn memoji_third_mistake_is_not_yet_game_over() {
    let mut cards = vec![
        Card { emoji_index: 1, face_up: false, locked: false },
        Card { emoji_index: 2, face_up: false, locked: false },
    ];
    let mut flip = FlipState::default();
    let mut progress = MemojiProgress::default();
    progress.initial_wait_timer = None;
    progress.mistakes = 2;
    click_card(&mut cards, &mut flip, &progress, &vec![0]);
    click_card(&mut cards, &mut flip, &progress, &vec![1]);
    assert_eq!(handle_card_flipping(&mut cards, &mut flip, &mut progress, false), PairOutcome::Mismatched);
    assert!(!progress.game_over);
    assert_eq!(progress.mistakes, 3);
    assert!(progress.game_over_reveal_timer.is_none());
}

#[test]
fn quiz_question_first_half_leads_with_the_right_answer() {
    let mut data = QuizData::default();
    let answers = bevy_bits::math_quiz::pose_question(&mut data);
    assert_eq!(answers[0], data.correct_answer);
    assert!(answers.len() <= 2);
}

#[test]
fn memoji_deals_pairs_and_shows_them() {
    let mut cards = deal_cards(&vec![4, 9, 2], 2, 4);
    assert_eq!(cards.len(), 6);
    let mut emojis: Vec<usize> = cards.iter().map(|c| c.emoji_index).collect();
    emojis.sort();
    assert_eq!(emojis, vec![2, 2, 4, 4, 9, 9]);
    assert!(cards.iter().all(|c| !c.face_up && !c.locked));
    let cut = deal_cards(&vec![1, 2, 3], 2, 2);
    assert_eq!(cut.len(), 4);
    let mut progress = MemojiProgress::default();
    initial_wait_over(&mut progress, &mut cards);
    assert!(cards.iter().all(|c| c.face_up));
    assert!(progress.cards_revealed && progress.initial_wait_timer.is_none());
    assert_eq!(progress.reveal_timer, Some(3000));
    reveal_over(&mut progress, &mut cards);
    assert!(cards.iter().all(|c| !c.face_up));
    assert!(!progress.cards_revealed && progress.reveal_timer.is_none());
    set_all_face_up(&mut cards, true);
    assert!(cards.iter().all(|c| c.face_up));
}

#[test]
fn tower_banner() {
    let mut p = TowerProgress::default();
    assert_eq!(interaction_status(&p, 1), InteractionStatus::Waiting(1));
    assert_eq!(interaction_status(&p, 1000), InteractionStatus::Waiting(1));
    assert_eq!(interaction_status(&p, 1001), InteractionStatus::Waiting(2));
    finish_initial_wait(&mut p);
    assert_eq!(interaction_status(&p, 0), InteractionStatus::Enabled);
    p.record_tower_collapse();
    assert_eq!(interaction_status(&p, 0), InteractionStatus::Blocked);
}

#[test]
fn memoji_game_ends_only_past_the_allowed_mistakes() {
    let mut p = MemojiProgress::default();
    assert!(!p.record_mistake());
    assert!(!p.record_mistake());
    assert!(!p.record_mistake());
    assert_eq!(p.mistakes, 3);
    assert!(!p.game_over);
    assert!(p.game_over_reveal_timer.is_none());
    assert!(p.record_mistake());
    assert!(p.game_over);
    assert!(p.game_over_reveal_timer.is_some());
}

#[test]
fn quiz_questions_come_with_four_answers() {
    for stage in 1..=4u32 {
        for _ in 0..20 {
            let mut g = bevy_bits::math_quiz::GameData::default();
            g.current_stage = stage;
            let answers = bevy_bits::math_quiz::generate_question(&mut g);
            let c = g.correct_answer;
            assert_eq!(answers.len(), 4);
            assert_eq!(answers.iter().filter(|a| **a == c).count(), 1);
            for i in 0..4 {
                assert!(c - 10 <= answers[i] && answers[i] < c + 10);
                for j in i + 1..4 {
                    assert_ne!(answers[i], answers[j]);
                }
            }
        }
    }
}

#[test]
fn quiz_answers_are_drawn_among_unused_values() {
    let unused = bevy_bits::math_quiz::unused_answers(&vec![50, 45, 59], 50);
    assert_eq!(unused.len(), 17);
    assert_eq!(unused[0], 40);
    assert!(!unused.contains(&45) && !unused.contains(&50) && !unused.contains(&59));
    let mut answers = vec![50, 45];
    bevy_bits::math_quiz::fill_answers(&mut answers, 50);
    assert_eq!(answers.len(), 4);
    assert_eq!(&answers[..2], &[50, 45]);
    let mut one = vec![23];
    assert!(!bevy_bits::math_quiz::offer_same_digit(&mut one, 23, 24));
    assert!(!bevy_bits::math_quiz::offer_same_digit(&mut one, 23, 23));
    assert!(bevy_bits::math_quiz::offer_same_digit(&mut one, 23, 13));
    assert_eq!(one, vec![23, 13]);
}

#[test]
fn memoji_next_stage_sizes_grid_and_reveal_time() {
    let mut d = GameDifficulty::default();
    let p = bevy_bits::memoji::prepare_next_stage(&mut d);
    assert_eq!((d.stage, d.grid_cols, d.grid_rows, d.num_pairs), (2, 3, 3, 4));
    assert_eq!(p.reveal_timer, Some(9 * 500));
    assert_eq!(p.initial_wait_timer, Some(bevy_bits::memoji::INITIAL_WAIT_MILLIS));
    assert_eq!(p.mistakes, 0);
    assert!(!p.game_over && !p.cards_revealed);
}
