use bevy_bits::shape_matcher::{
    check_game_over, deal_cells, hide_all_cells, hide_cells, make_combinations, reveal_cell,
    setup_stage, stage_at, ClickOutcome, CurrentStage, GameData, GridCell, StageOutcome,
};
use bevy_bits::shapes::Shape;
fn kind_counts(cells: &[GridCell]) -> Vec<usize> {
    cells
        .iter()
        .map(|c| cells.iter().filter(|d| d.shape == c.shape && d.color == c.color).count())
        .collect()
}

#[test]
fn stages_grow() {
    assert_eq!((stage_at(0).grid_cols, stage_at(0).grid_rows), (2, 4));
    assert_eq!((stage_at(1).grid_cols, stage_at(1).grid_rows), (3, 4));
    assert_eq!((stage_at(2).grid_cols, stage_at(2).grid_rows), (4, 4));
    let mut s = CurrentStage::new();
    assert!(!s.is_final());
    assert!(s.advance());
    assert!(s.advance());
    assert!(s.is_final());
    assert!(!s.advance());
    assert_eq!(s.index, 2);
}

#[test]
fn combinations_use_shapes_in_order_and_distinct_colours() {
    let c = make_combinations(8);
    assert_eq!(c.len(), 8);
    let order = [
        Shape::Circle,
        Shape::Square,
        Shape::Triangle,
        Shape::Hexagon,
        Shape::Pentagon,
        Shape::Octagon,
        Shape::Quad,
    ];
    for i in 0..7 {
        assert_eq!(c[i].0, order[i]);
    }
    let mut colours: Vec<u8> = c.iter().map(|k| k.1).collect();
    colours.sort();
    colours.dedup();
    assert_eq!(colours.len(), 8);
    let many = make_combinations(25);
    assert_eq!(many.len(), 25);
    assert!(many.iter().all(|k| k.1 < 10));
}

#[test]
fn no_repeat_until_the_palette_is_refilled() {
    let deck = make_combinations(30);
    for i in 0..deck.len() {
        for j in i + 1..deck.len() {
            if i / 10 == j / 10 {
                assert_ne!(deck[i].1, deck[j].1);
            }
            if i / 7 == j / 7 {
                assert_ne!(deck[i].0, deck[j].0);
            }
        }
    }
}

#[test]
fn every_kind_is_dealt_twice() {
    let mut data = GameData::default();
    data.mistakes = 2;
    let cells = setup_stage(&mut data, stage_at(2));
    assert_eq!(data.mistakes, 0);
    assert_eq!(cells.len(), 16);
    for (i, c) in cells.iter().enumerate() {
        assert_eq!((c.row, c.col), (i / 4, i % 4));
        assert!(c.is_revealed && !c.is_matched && !c.is_locked);
    }
    assert!(kind_counts(&cells).iter().all(|&n| n == 2));
    let dealt = deal_cells(&vec![(Shape::Quad, 3)], 2);
    assert_eq!(dealt.len(), 2);
    assert!(dealt.iter().all(|c| c.shape == Shape::Quad && c.color == 3));
}

fn cell(row: usize, col: usize, shape: Shape, color: u8) -> GridCell {
    GridCell { row, col, shape, color, is_revealed: false, is_matched: false, is_locked: false }
}

#[test]
fn a_turn_matches_or_locks() {
    let mut cells = vec![
        cell(0, 0, Shape::Circle, 1),
        cell(0, 1, Shape::Square, 2),
        cell(1, 0, Shape::Circle, 1),
        cell(1, 1, Shape::Square, 2),
    ];
    let mut data = GameData::default();
    let mut stage = CurrentStage::new();
    let r = reveal_cell(&mut data, &mut cells, &mut stage, 0, 0);
    assert_eq!(r, (ClickOutcome::FirstRevealed(0), StageOutcome::Continue));
    let r = reveal_cell(&mut data, &mut cells, &mut stage, 0, 0);
    assert_eq!(r.0, ClickOutcome::Ignored);
    let r = reveal_cell(&mut data, &mut cells, &mut stage, 1, 0);
    assert_eq!(r.0, ClickOutcome::Matched(0, 2));
    assert_eq!(data.matched_pairs, 1);
    assert!(cells[0].is_matched && cells[2].is_matched);
    reveal_cell(&mut data, &mut cells, &mut stage, 0, 1);
    let r = reveal_cell(&mut data, &mut cells, &mut stage, 1, 1);
    assert_eq!(r.0, ClickOutcome::Matched(1, 3));
    assert_eq!(data.matched_pairs, 2);
    // two pairs do not clear a 2x4 stage
    assert_eq!(r.1, StageOutcome::Continue);
}

#[test]
fn a_mismatch_locks_then_hides() {
    let mut cells = vec![cell(0, 0, Shape::Circle, 1), cell(0, 1, Shape::Square, 2)];
    let mut data = GameData::default();
    let mut stage = CurrentStage::new();
    reveal_cell(&mut data, &mut cells, &mut stage, 0, 0);
    let r = reveal_cell(&mut data, &mut cells, &mut stage, 0, 1);
    assert_eq!(r.0, ClickOutcome::Mismatched(0, 1));
    assert_eq!(data.mistakes, 1);
    assert!(cells[0].is_locked && cells[1].is_locked);
    hide_cells(&mut cells, 0, 1);
    assert!(!cells[0].is_revealed && !cells[0].is_locked);
    assert!(!cells[1].is_revealed && !cells[1].is_locked);
}

#[test]
fn clearing_stages_advances_then_ends() {
    let mut data = GameData::default();
    let mut stage = CurrentStage::new();
    data.matched_pairs = 3;
    let mut cells = vec![cell(0, 0, Shape::Circle, 1), cell(0, 1, Shape::Circle, 1)];
    reveal_cell(&mut data, &mut cells, &mut stage, 0, 0);
    let r = reveal_cell(&mut data, &mut cells, &mut stage, 0, 1);
    assert_eq!(r, (ClickOutcome::Matched(0, 1), StageOutcome::StageComplete));
    assert_eq!(stage.index, 1);
    let mut last = CurrentStage { index: 2, config: stage_at(2) };
    let mut data = GameData { mistakes: 0, matched_pairs: 7, first_revealed: None };
    let mut cells = vec![cell(0, 0, Shape::Quad, 9), cell(3, 3, Shape::Quad, 9)];
    reveal_cell(&mut data, &mut cells, &mut last, 0, 0);
    let r = reveal_cell(&mut data, &mut cells, &mut last, 3, 3);
    assert_eq!(r.1, StageOutcome::GameOver);
    assert!(check_game_over(&data, &last, &mut cells));
}

#[test]
fn three_mistakes_show_everything() {
    let data = GameData { mistakes: 3, matched_pairs: 0, first_revealed: None };
    let stage = CurrentStage::new();
    let mut cells = vec![cell(0, 0, Shape::Circle, 1), cell(0, 1, Shape::Square, 2)];
    assert!(check_game_over(&data, &stage, &mut cells));
    assert!(cells.iter().all(|c| c.is_revealed));
    hide_all_cells(&mut cells);
    assert!(cells.iter().all(|c| !c.is_revealed));
    let calm = GameData { mistakes: 2, matched_pairs: 0, first_revealed: None };
    assert!(!check_game_over(&calm, &stage, &mut cells));
}
