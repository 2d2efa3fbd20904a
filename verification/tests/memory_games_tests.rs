use bevy_bits::shape_memorizer::{GameData, RevealOutcome, Shape, NO_COLOR};
use bevy_bits::wheres_waldo::{inquire, plan_puzzle, GameProgress, Hit, InquireOutcome};
use std::collections::HashSet;

#[test]
fn memorizer_grid_has_three_targets_at_least() {
    for _ in 0..50 {
        let mut g = GameData::default();
        assert_eq!(g.target_color, NO_COLOR);
        g.choose_target();
        assert!(g.target_color < 4);
        g.mistakes = 1;
        g.setup_game();
        assert_eq!((g.mistakes, g.correct_guesses), (0, 0));
        assert_eq!(g.grid.len(), 32);
        let mut targets = 0;
        for (i, c) in g.grid.iter().enumerate() {
            assert_eq!((c.row, c.col), (i / 4, i % 4));
            assert!(!c.is_revealed);
            assert_eq!(c.is_target, c.shape == g.target_shape && c.color == g.target_color);
            if c.is_target {
                targets += 1;
            }
        }
        assert!(targets >= 3);
    }
}

#[test]
fn memorizer_unchosen_target_still_gets_three() {
    let mut g = GameData::default();
    g.setup_game();
    let targets: Vec<_> = g.grid.iter().filter(|c| c.is_target).collect();
    assert_eq!(targets.len(), 3);
    assert!(targets.iter().all(|c| c.shape == Shape::Circle && c.color == NO_COLOR));
}

#[test]
fn memorizer_finds_and_mistakes() {
    let mut g = GameData::default();
    g.choose_target();
    g.setup_game();
    let targets: Vec<usize> = (0..32).filter(|&i| g.grid[i].is_target).collect();
    let others: Vec<usize> = (0..32).filter(|&i| !g.grid[i].is_target).collect();
    let t0 = targets[0];
    assert_eq!(g.reveal_cell(t0 / 4, t0 % 4), RevealOutcome::Correct { game_won: false });
    assert_eq!(g.reveal_cell(t0 / 4, t0 % 4), RevealOutcome::Ignored);
    let o0 = others[0];
    assert_eq!(g.reveal_cell(o0 / 4, o0 % 4), RevealOutcome::Mistake { game_over: false });
    let o1 = others[1];
    assert_eq!(g.reveal_cell(o1 / 4, o1 % 4), RevealOutcome::Mistake { game_over: true });
    assert!(!g.won());
}

#[test]
fn memorizer_three_finds_win() {
    let mut g = GameData::default();
    g.setup_game();
    let targets: Vec<usize> = (0..32).filter(|&i| g.grid[i].is_target).collect();
    assert_eq!(g.reveal_cell(targets[0] / 4, targets[0] % 4), RevealOutcome::Correct { game_won: false });
    assert_eq!(g.reveal_cell(targets[1] / 4, targets[1] % 4), RevealOutcome::Correct { game_won: false });
    assert_eq!(g.reveal_cell(targets[2] / 4, targets[2] % 4), RevealOutcome::Correct { game_won: true });
    assert!(g.won());
}

#[test]
fn waldo_puzzle_layout() {
    assert!(plan_puzzle(&vec![]).is_none());
    let candidates: Vec<usize> = (100..140).collect();
    let p = plan_puzzle(&candidates).unwrap();
    assert_eq!(p.waldo, 100);
    assert_eq!(p.others.len(), 39);
    let mut cells = HashSet::new();
    assert!(cells.insert((p.waldo_cell.x, p.waldo_cell.y)));
    for (i, (emoji, cell)) in p.others.iter().enumerate() {
        assert_eq!(*emoji, 101 + i);
        assert!(cell.x < 8 && cell.y < 8);
        assert!(cells.insert((cell.x, cell.y)));
    }
    let few = plan_puzzle(&vec![7, 8, 9]).unwrap();
    assert_eq!(few.waldo, 7);
    assert_eq!(few.others.iter().map(|o| o.0).collect::<Vec<_>>(), vec![8, 9]);
    let many: Vec<usize> = (0..70).collect();
    assert_eq!(plan_puzzle(&many).unwrap().others.len(), 39);
}

#[test]
fn waldo_inquiries() {
    let mut p = GameProgress::new();
    assert_eq!(inquire(&mut p, Hit::Nothing), InquireOutcome::Nothing);
    assert_eq!(inquire(&mut p, Hit::Other), InquireOutcome::WrongFeedback);
    assert_eq!(inquire(&mut p, Hit::Other), InquireOutcome::WrongFeedback);
    assert_eq!(inquire(&mut p, Hit::Other), InquireOutcome::GameOver);
    assert_eq!(p.mistakes, 3);
    assert!(!p.result);
    let mut q = GameProgress::new();
    assert_eq!(inquire(&mut q, Hit::Waldo), InquireOutcome::Found);
    assert!(q.result);
}
