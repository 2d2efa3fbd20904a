use bevy_bits::ribbit::BitResult;
use bevy_bits::master_mind::{
    press_key, Key, KeyOutcome, common_input, decode_characters, delete_character, encode_characters, enter_character,
    reset_game, DecodeResult, GameProgress,
};

fn game_with_code(code: &str) -> GameProgress {
    let mut g = GameProgress::new();
    g.encoded = code.chars().collect();
    g
}

#[test]
fn exact_guess_breaks_the_code() {
    let mut g = game_with_code("1234");
    g.decoding = "1234".chars().collect();
    let (broken, answers) = decode_characters(&mut g);
    assert!(broken);
    assert_eq!(answers, vec![DecodeResult::Hit; 4]);
    assert_eq!(g.turn, 0);
}

#[test]
fn swapped_digits_are_blows() {
    let mut g = game_with_code("1234");
    g.decoding = "1243".chars().collect();
    let (broken, answers) = decode_characters(&mut g);
    assert!(!broken);
    assert_eq!(
        answers,
        vec![DecodeResult::Hit, DecodeResult::Hit, DecodeResult::Blow, DecodeResult::Blow]
    );
    assert_eq!(g.turn, 1);
    assert_eq!(g.index, 0);
}

#[test]
fn repeated_digit_blows_only_once() {
    let mut g = game_with_code("1123");
    g.decoding = "5511".chars().collect();
    let (_, answers) = decode_characters(&mut g);
    assert_eq!(
        answers,
        vec![DecodeResult::Miss, DecodeResult::Miss, DecodeResult::Blow, DecodeResult::Blow]
    );
    let mut g = game_with_code("1234");
    g.decoding = "2222".chars().collect();
    let (_, answers) = decode_characters(&mut g);
    assert_eq!(
        answers,
        vec![DecodeResult::Miss, DecodeResult::Hit, DecodeResult::Miss, DecodeResult::Miss]
    );
}

#[test]
fn encode_draws_four_digits() {
    let mut g = GameProgress::new();
    encode_characters(&mut g);
    assert_eq!(g.encoded.len(), 4);
    assert!(g.encoded.iter().all(|c| c.is_ascii_digit()));
}

#[test]
fn typing_and_deleting_digits() {
    let mut g = game_with_code("9876");
    let (done, _) = enter_character('9', &mut g);
    assert!(!done);
    assert_eq!(g.decoding[0], '9');
    assert_eq!(g.index, 1);
    assert!(delete_character(&mut g));
    assert_eq!(g.index, 0);
    assert_eq!(g.decoding[0], ' ');
    reset_game(&mut g);
    assert_eq!(g.turn, 0);
    assert_eq!(g.index, 0);
}

#[test]
fn common_input_answers_a_full_row() {
    let mut g = game_with_code("1234");
    let mut last = None;
    for c in ['1', '2', '3', '4'] {
        last = Some(common_input(c, &mut g));
    }
    let out = last.unwrap();
    assert_eq!(out.end, Some(BitResult::Success));
    assert_eq!(out.answered.map(|(row, a)| (row, a.len())), Some((0, 4)));
}

#[test]
fn keys_type_erase_or_do_nothing() {
    let mut g = game_with_code("1234");
    assert!(matches!(press_key(Key::Backspace, &mut g), KeyOutcome::Ignored));
    match press_key(Key::Digit(7), &mut g) {
        KeyOutcome::Typed(out) => assert_eq!((out.cursor_x, out.cursor_y), (1, 0)),
        _ => panic!("digit not typed"),
    }
    assert_eq!(g.decoding[0], '7');
    assert!(matches!(press_key(Key::Digit(12), &mut g), KeyOutcome::Ignored));
    assert!(matches!(press_key(Key::Other, &mut g), KeyOutcome::Ignored));
    match press_key(Key::Backspace, &mut g) {
        KeyOutcome::Erased { cursor_x, cursor_y } => assert_eq!((cursor_x, cursor_y), (0, 0)),
        _ => panic!("digit not erased"),
    }
    assert_eq!(g.decoding[0], ' ');
}

#[test]
fn hits_and_blows_count_the_digits_in_common() {
    for (code, guess) in [("1123", "1312"), ("1234", "1155"), ("9999", "1999"), ("1212", "2121"), ("0000", "1234")] {
        let mut g = game_with_code(code);
        g.decoding = guess.chars().collect();
        let (_, answers) = decode_characters(&mut g);
        let scored = answers
            .iter()
            .filter(|a| **a == DecodeResult::Hit || **a == DecodeResult::Blow)
            .count();
        let common: usize = "0123456789"
            .chars()
            .map(|d| {
                let a = code.chars().filter(|c| *c == d).count();
                let b = guess.chars().filter(|c| *c == d).count();
                a.min(b)
            })
            .sum();
        assert_eq!(scored, common);
        assert!(answers.iter().all(|a| *a != DecodeResult::Invalid));
    }
}

#[test]
fn typing_past_the_last_slot_does_nothing() {
    let mut g = game_with_code("1234");
    g.decoding = "5678".chars().collect();
    g.index = 4;
    let (broken, answers) = enter_character('9', &mut g);
    assert!(!broken && answers.is_empty());
    assert_eq!(g.decoding, "5678".chars().collect::<Vec<char>>());
    assert_eq!(g.index, 4);
    assert!(delete_character(&mut g));
    assert_eq!(g.index, 3);
    assert_eq!(g.decoding[3], ' ');
    g.index = 6;
    assert!(!delete_character(&mut g));
    assert_eq!(g.index, 6);
}

#[test]
fn keypad_labels_name_their_keys() {
    assert_eq!(bevy_bits::master_mind::key_for_label("7"), Key::Digit(7));
    assert_eq!(bevy_bits::master_mind::key_for_label("0"), Key::Digit(0));
    assert_eq!(bevy_bits::master_mind::key_for_label("BS"), Key::Backspace);
    assert_eq!(bevy_bits::master_mind::key_for_label("B"), Key::Other);
    assert_eq!(bevy_bits::master_mind::key_for_label("12"), Key::Other);
    assert_eq!(bevy_bits::master_mind::key_for_label(""), Key::Other);
}

#[test]
fn typing_then_erasing_gives_the_row_back() {
    let mut g = game_with_code("1234");
    g.decoding = "5   ".chars().collect();
    g.index = 1;
    let before_decoding = g.decoding.clone();
    enter_character('7', &mut g);
    assert_eq!(g.index, 2);
    assert!(delete_character(&mut g));
    assert_eq!(g.decoding, before_decoding);
    assert_eq!(g.index, 1);
    assert_eq!(g.turn, 0);
}
