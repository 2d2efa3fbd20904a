use bevy_bits::geometry::IVec2;
use bevy_bits::maze::MazeGenerator;
use bevy_bits::maze_game::{
    collect_items, finish_step, keyboard_input, place_on_deadends, reset_maze, shuffle_positions,
    start_step, Keys, MazePlayer, MAZE_SIZE,
};

#[test]
fn placement_uses_the_first_dead_ends() {
    let ends: Vec<IVec2> = (0..6).map(|i| IVec2::new(i, 0)).collect();
    let p = place_on_deadends(&ends);
    assert_eq!(p.player, Some(IVec2::new(0, 0)));
    assert_eq!(p.items, vec![IVec2::new(1, 0), IVec2::new(2, 0), IVec2::new(3, 0)]);
    let two = place_on_deadends(&vec![IVec2::new(5, 5), IVec2::new(6, 6)]);
    assert_eq!(two.items, vec![IVec2::new(6, 6)]);
    let none = place_on_deadends(&vec![]);
    assert!(none.player.is_none() && none.items.is_empty());
}

#[test]
fn shuffled_positions_keep_their_items() {
    let mut v: Vec<IVec2> = (0..20).map(|i| IVec2::new(i, -i)).collect();
    shuffle_positions(&mut v);
    let mut xs: Vec<i32> = v.iter().map(|p| p.x).collect();
    xs.sort();
    assert_eq!(xs, (0..20).collect::<Vec<i32>>());
    assert!(v.iter().all(|p| p.y == -p.x));
}

#[test]
fn a_round_starts_on_dead_ends() {
    let mut maze = MazeGenerator::new(MAZE_SIZE, MAZE_SIZE);
    let placement = reset_maze(&mut maze);
    let deadends = maze.get_deadends();
    let player = placement.player.unwrap();
    assert!(deadends.contains(&player));
    assert_eq!(placement.items.len(), 3);
    for item in &placement.items {
        assert!(deadends.contains(item));
        assert_ne!(*item, player);
    }
}

#[test]
fn the_player_can_walk_to_every_item() {
    let mut maze = MazeGenerator::new(MAZE_SIZE, MAZE_SIZE);
    let placement = reset_maze(&mut maze);
    let player = placement.player.unwrap();
    let w = MAZE_SIZE;
    let mut seen = vec![false; w * w];
    let mut stack = vec![player];
    seen[player.x as usize + player.y as usize * w] = true;
    let dirs = [IVec2::new(1, 0), IVec2::new(-1, 0), IVec2::new(0, 1), IVec2::new(0, -1)];
    while let Some(p) = stack.pop() {
        for d in dirs {
            if maze.can_go(p, d) {
                let n = IVec2::new(p.x + d.x, p.y + d.y);
                let i = n.x as usize + n.y as usize * w;
                if !seen[i] {
                    seen[i] = true;
                    stack.push(n);
                }
            }
        }
    }
    for item in &placement.items {
        assert!(seen[item.x as usize + item.y as usize * w]);
    }
}

#[test]
fn keys_pick_a_direction() {
    let mut p = MazePlayer::new(IVec2::new(1, 1));
    let none = Keys { up: false, down: false, left: false, right: false };
    assert!(keyboard_input(Keys { up: true, right: true, ..none }, &mut p, false));
    assert_eq!(p.input, IVec2::new(0, -1));
    assert!(keyboard_input(Keys { left: true, ..none }, &mut p, true));
    assert_eq!(p.input, IVec2::new(-1, 0));
    assert!(!keyboard_input(none, &mut p, false));
    assert_eq!(p.input, IVec2::new(-1, 0));
    assert!(keyboard_input(none, &mut p, true));
    assert_eq!(p.input, IVec2::new(0, 0));
}

#[test]
fn steps_follow_the_walls() {
    let maze = MazeGenerator::new(3, 3);
    let mut p = MazePlayer::new(IVec2::new(0, 0));
    assert!(!start_step(&maze, &mut p));
    p.input = IVec2::new(1, 0);
    assert!(start_step(&maze, &mut p));
    assert_eq!(p.next_pos, IVec2::new(1, 0));
    assert!(!start_step(&maze, &mut p));
    finish_step(&mut p);
    assert_eq!(p.pos, IVec2::new(1, 0));
    assert!(!p.is_moving);
    let mut walled = MazeGenerator::new(3, 3);
    walled.generate();
    let mut q = MazePlayer::new(IVec2::new(0, 0));
    q.input = IVec2::new(-1, 0);
    assert!(!start_step(&walled, &mut q));
}

#[test]
fn items_are_collected_until_three() {
    let mut items = vec![IVec2::new(1, 1), IVec2::new(2, 2), IVec2::new(1, 1)];
    let mut count = 0;
    assert!(!collect_items(IVec2::new(0, 0), &mut items, &mut count));
    assert_eq!(count, 0);
    assert!(!collect_items(IVec2::new(1, 1), &mut items, &mut count));
    assert_eq!(count, 2);
    assert_eq!(items, vec![IVec2::new(2, 2)]);
    assert!(collect_items(IVec2::new(2, 2), &mut items, &mut count));
    assert_eq!(count, 3);
    assert!(items.is_empty());
}
