use bevy_bits::geometry::UVec2;
use bevy_bits::match3::{follow_up, read_command, Board, BoardCommand, BoardEvent, Match3Config};

fn numbered_board() -> Vec<Vec<u32>> {
    vec![
        vec![0, 1, 2, 3, 4],
        vec![5, 6, 7, 8, 9],
        vec![10, 11, 12, 13, 14],
        vec![15, 16, 17, 18, 19],
        vec![20, 21, 22, 23, 24],
        vec![25, 26, 27, 28, 29],
        vec![30, 31, 32, 33, 34],
    ]
}

fn cells(board: &Board) -> Vec<Option<u32>> {
    let mut out = Vec::new();
    for y in 0..board.height() {
        for x in 0..board.width() {
            out.push(board.get(UVec2::new(x, y)));
        }
    }
    out
}

#[test]
fn swap_gems() {
    let mut rows = numbered_board();
    rows[3][2] = 11;
    rows[4][2] = 11;
    let mut board = Board::from_rows(&rows);
    let before = cells(&board);
    read_command(&mut board, BoardCommand::Swap(UVec2::new(1, 2), UVec2::new(2, 2)));
    assert_ne!(before, cells(&board));
    assert_eq!(board.get(UVec2::new(1, 2)), Some(12));
    assert_eq!(board.get(UVec2::new(2, 2)), Some(11));
}

#[test]
fn fail_to_swap_gems() {
    let mut board = Board::from_rows(&numbered_board());
    let before = cells(&board);
    read_command(&mut board, BoardCommand::Swap(UVec2::new(1, 2), UVec2::new(2, 2)));
    assert_eq!(before, cells(&board));
    assert_eq!(board.get(UVec2::new(1, 2)), Some(11));
    assert_eq!(board.get(UVec2::new(2, 2)), Some(12));
}

#[test]
fn pop_gem() {
    let mut board = Board::from_rows(&numbered_board());
    let before = cells(&board);
    read_command(&mut board, BoardCommand::Pop(vec![UVec2::new(1, 4)]));
    assert_ne!(before, cells(&board));
    assert_eq!(board.get(UVec2::new(1, 4)), Some(16));
    assert_eq!(board.get(UVec2::new(1, 3)), Some(11));
    assert_eq!(board.get(UVec2::new(1, 2)), Some(6));
    assert_eq!(board.get(UVec2::new(1, 1)), Some(1));
    assert!(board.get(UVec2::new(1, 0)).is_some());
}

#[test]
fn pop_gems_vertical() {
    let mut board = Board::from_rows(&numbered_board());
    let before = cells(&board);
    read_command(
        &mut board,
        BoardCommand::Pop(vec![UVec2::new(3, 6), UVec2::new(3, 5), UVec2::new(3, 4)]),
    );
    assert_ne!(before, cells(&board));
    assert_eq!(board.get(UVec2::new(3, 6)), Some(18));
    assert_eq!(board.get(UVec2::new(3, 5)), Some(13));
    assert_eq!(board.get(UVec2::new(3, 4)), Some(8));
    assert_eq!(board.get(UVec2::new(3, 3)), Some(3));
    assert!(board.get(UVec2::new(3, 0)).is_some());
    assert!(board.get(UVec2::new(3, 1)).is_some());
    assert!(board.get(UVec2::new(3, 2)).is_some());
}

#[test]
fn pop_gems_horizontal() {
    let mut board = Board::from_rows(&numbered_board());
    let before = cells(&board);
    read_command(
        &mut board,
        BoardCommand::Pop(vec![UVec2::new(0, 5), UVec2::new(1, 5), UVec2::new(2, 5)]),
    );
    assert_ne!(before, cells(&board));
    assert_eq!(board.get(UVec2::new(0, 5)), Some(20));
    assert_eq!(board.get(UVec2::new(1, 5)), Some(21));
    assert_eq!(board.get(UVec2::new(2, 5)), Some(22));
    assert!(board.get(UVec2::new(0, 0)).is_some());
    assert!(board.get(UVec2::new(1, 0)).is_some());
    assert!(board.get(UVec2::new(2, 0)).is_some());
}

#[test]
fn successful_swap_reports_its_lines() {
    let mut rows = numbered_board();
    rows[3][2] = 11;
    rows[4][2] = 11;
    let mut board = Board::from_rows(&rows);
    let events = read_command(&mut board, BoardCommand::Swap(UVec2::new(1, 2), UVec2::new(2, 2)));
    assert_eq!(events.len(), 2);
    match &events[1] {
        BoardEvent::Matched(ms) => {
            assert_eq!(ms, &vec![UVec2::new(2, 2), UVec2::new(2, 3), UVec2::new(2, 4)])
        }
        other => panic!("unexpected {other:?}"),
    }
    assert!(board.get_matches().len() == 3);
}

#[test]
fn failed_swap_and_off_board_swap() {
    let mut board = Board::from_rows(&numbered_board());
    let events = read_command(&mut board, BoardCommand::Swap(UVec2::new(0, 0), UVec2::new(9, 9)));
    assert!(matches!(events[0], BoardEvent::FailedSwap(_, _)));
    assert_eq!(events.len(), 1);
}

#[test]
fn pop_reports_falls_and_new_gems() {
    let mut board = Board::from_rows(&numbered_board());
    let events = read_command(&mut board, BoardCommand::Pop(vec![UVec2::new(1, 4)]));
    assert!(matches!(events[0], BoardEvent::Popped(p) if p == UVec2::new(1, 4)));
    match &events[1] {
        BoardEvent::Dropped(d) => {
            let mut d = d.clone();
            d.sort_by_key(|(_, to)| to.y);
            assert_eq!(
                d,
                vec![
                    (UVec2::new(1, 0), UVec2::new(1, 1)),
                    (UVec2::new(1, 1), UVec2::new(1, 2)),
                    (UVec2::new(1, 2), UVec2::new(1, 3)),
                    (UVec2::new(1, 3), UVec2::new(1, 4)),
                ]
            );
        }
        other => panic!("unexpected {other:?}"),
    }
    match &events[2] {
        BoardEvent::Spawned(s) => {
            assert_eq!(s.len(), 1);
            assert_eq!(s[0].0, UVec2::new(1, 0));
            assert_eq!(Some(s[0].1), board.get(UVec2::new(1, 0)));
        }
        other => panic!("unexpected {other:?}"),
    }
}

#[test]
fn shuffle_keeps_every_gem() {
    let mut board = Board::from_rows(&numbered_board());
    let events = read_command(&mut board, BoardCommand::Shuffle);
    let mut all: Vec<u32> = cells(&board).into_iter().map(|c| c.unwrap()).collect();
    all.sort();
    assert_eq!(all, (0..35).collect::<Vec<u32>>());
    match &events[0] {
        BoardEvent::Shuffled(moves) => {
            assert_eq!(moves.len(), 35);
            for (i, (from, to)) in moves.iter().enumerate() {
                assert_eq!(*to, UVec2::new(i as u32 % 5, i as u32 / 5));
                assert_eq!(board.get(*to), Some(from.x + from.y * 5));
            }
        }
        other => panic!("unexpected {other:?}"),
    }
}

#[test]
fn random_board_can_be_cleared_of_lines() {
    let config = Match3Config { gem_types: 5, board_dimensions: UVec2::new(8, 8) };
    let mut board = Board::new_random(config);
    assert_eq!((board.width(), board.height()), (8, 8));
    assert!(cells(&board).iter().all(|c| c.unwrap() < 5));
    let mut passes = 0;
    while board.reroll_matches() {
        passes += 1;
        assert!(passes < 10_000);
    }
    assert!(!board.find_match());
    assert!(board.get_matches().is_empty());
}

#[test]
fn lines_are_popped_next() {
    let ms = vec![UVec2::new(0, 0), UVec2::new(1, 0), UVec2::new(2, 0)];
    match follow_up(&BoardEvent::Matched(ms.clone())) {
        Some(BoardCommand::Pop(ps)) => assert_eq!(ps, ms),
        other => panic!("unexpected {other:?}"),
    }
    assert!(follow_up(&BoardEvent::Popped(UVec2::new(0, 0))).is_none());
}

#[test]
fn sprites_follow_the_board_events() {
    let mut s = bevy_bits::gem_sprites::GemSprites::new();
    let p = |x: u32, y: u32| bevy_bits::geometry::UVec2::new(x, y);
    s.spawn_sprites(&vec![(p(0, 0), 1), (p(0, 1), 2), (p(1, 1), 3)], &vec![10, 11, 12]);
    assert_eq!(s.sprite_at(p(0, 1)), Some(11));
    assert!(s.swap_sprites(p(0, 1), p(1, 1)));
    assert_eq!(s.sprite_at(p(0, 1)), Some(12));
    assert_eq!(s.sprite_at(p(1, 1)), Some(11));
    assert!(!s.swap_sprites(p(0, 1), p(5, 5)));
    assert_eq!(s.pop_sprite(p(0, 1)), Some(12));
    assert_eq!(s.pop_sprite(p(0, 1)), None);
    // the gem above falls into the gap
    assert!(s.drop_sprites(&vec![(p(0, 0), p(0, 1))]));
    assert_eq!(s.sprite_at(p(0, 1)), Some(10));
    assert_eq!(s.sprite_at(p(0, 0)), None);
    // a fall from an empty place changes nothing
    assert!(!s.drop_sprites(&vec![(p(0, 0), p(0, 1))]));
    assert_eq!(s.sprite_at(p(0, 1)), Some(10));
    // a shuffle reads the places before it
    assert!(s.shuffle_sprites(&vec![(p(0, 1), p(1, 1)), (p(1, 1), p(0, 1))]));
    assert_eq!(s.sprite_at(p(0, 1)), Some(11));
    assert_eq!(s.sprite_at(p(1, 1)), Some(10));
}
