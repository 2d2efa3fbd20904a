use bevy_bits::geometry::IVec2;
use bevy_bits::maze::{CollisionFlags, MazeGenerator};

fn generated(w: usize, h: usize) -> MazeGenerator {
    let mut m = MazeGenerator::new(w, h);
    m.generate();
    m
}

#[test]
fn new_maze_has_no_walls() {
    let m = MazeGenerator::new(3, 2);
    assert_eq!(m.width(), 3);
    assert_eq!(m.height(), 2);
    for i in 0..6 {
        assert_eq!(m.tile_at(i), Some(CollisionFlags::none()));
    }
    assert_eq!(m.tile_at(6), None);
}

#[test]
fn flags_count_and_bits() {
    let f = CollisionFlags { up: true, down: false, left: true, right: true };
    assert_eq!(f.count_ones(), 3);
    assert_eq!(f.bits(), 1 + 4 + 8);
    assert_eq!(CollisionFlags::none().bits(), 0);
}

#[test]
fn generated_maze_is_walled_in() {
    let (w, h) = (6usize, 5usize);
    let m = generated(w, h);
    for y in 0..h {
        for x in 0..w {
            let t = m.tile_at(x + y * w).unwrap();
            if x == 0 {
                assert!(t.left);
            }
            if x == w - 1 {
                assert!(t.right);
            }
            if y == 0 {
                assert!(t.up);
            }
            if y == h - 1 {
                assert!(t.down);
            }
        }
    }
}

#[test]
fn generated_walls_are_seen_from_both_sides() {
    let (w, h) = (5usize, 5usize);
    let m = generated(w, h);
    for y in 0..h {
        for x in 0..w {
            let t = m.tile_at(x + y * w).unwrap();
            if x + 1 < w {
                assert_eq!(t.right, m.tile_at(x + 1 + y * w).unwrap().left);
            }
            if y + 1 < h {
                assert_eq!(t.down, m.tile_at(x + (y + 1) * w).unwrap().up);
            }
        }
    }
}

#[test]
fn generated_maze_reaches_every_cell() {
    let (w, h) = (7usize, 4usize);
    let m = generated(w, h);
    let mut seen = vec![false; w * h];
    let mut stack = vec![(0i32, 0i32)];
    seen[0] = true;
    let dirs = [IVec2::new(1, 0), IVec2::new(-1, 0), IVec2::new(0, 1), IVec2::new(0, -1)];
    while let Some((x, y)) = stack.pop() {
        for d in dirs {
            if m.can_go(IVec2::new(x, y), d) {
                let (nx, ny) = (x + d.x, y + d.y);
                let i = nx as usize + ny as usize * w;
                if !seen[i] {
                    seen[i] = true;
                    stack.push((nx, ny));
                }
            }
        }
    }
    assert!(seen.iter().all(|&s| s));
}

#[test]
fn can_go_follows_the_walls() {
    let m = MazeGenerator::new(2, 2);
    assert!(m.can_go(IVec2::new(0, 0), IVec2::new(1, 0)));
    let m = generated(3, 3);
    assert!(!m.can_go(IVec2::new(0, 0), IVec2::new(-1, 0)));
    assert!(!m.can_go(IVec2::new(0, 0), IVec2::new(0, -1)));
}

#[test]
fn deadends_have_three_walls() {
    let (w, h) = (6usize, 6usize);
    let m = generated(w, h);
    let deadends = m.get_deadends();
    assert!(!deadends.is_empty());
    for d in &deadends {
        let t = m.tile_at(d.x as usize + d.y as usize * w).unwrap();
        assert_eq!(t.count_ones(), 3);
    }
    let mut count = 0;
    for i in 0..w * h {
        if m.tile_at(i).unwrap().count_ones() == 3 {
            count += 1;
        }
    }
    assert_eq!(count, deadends.len());
}

#[test]
fn generated_maze_is_a_spanning_tree() {
    for (w, h) in [(1usize, 1usize), (5, 3), (7, 4), (14, 14)] {
        let m = generated(w, h);
        let mut open = 0;
        for y in 0..h {
            for x in 0..w {
                let t = m.tile_at(x + y * w).unwrap();
                if x + 1 < w && !t.right {
                    open += 1;
                }
                if y + 1 < h && !t.down {
                    open += 1;
                }
            }
        }
        assert_eq!(open, w * h - 1);
    }
}
