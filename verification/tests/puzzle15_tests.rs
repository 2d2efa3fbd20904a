use bevy_bits::geometry::IVec2;
use bevy_bits::puzzle15::{Panel, PuzzlePanels};

fn solved(w: usize, h: usize) -> PuzzlePanels {
    let mut p = PuzzlePanels::new(w, h);
    p.reset();
    p
}

#[test]
fn reset_board_is_solved_and_ordered() {
    let p = solved(3, 3);
    assert!(p.is_solved());
    assert_eq!(p.get_panel(0, 0), Some(&Panel::PanelNumber(1)));
    assert_eq!(p.get_panel(2, 1), Some(&Panel::PanelNumber(6)));
    assert_eq!(p.get_panel(2, 2), Some(&Panel::Empty));
    assert_eq!(p.get_panel(0, 3), None);
    // a column past the edge reads on into the next row
    assert_eq!(p.get_panel(3, 0), Some(&Panel::PanelNumber(4)));
    assert_eq!(p.width(), 3);
    assert_eq!(p.height(), 3);
}

#[test]
fn get_index_finds_panel_coordinates() {
    let p = solved(4, 4);
    assert_eq!(p.get_index(1), IVec2::new(0, 0));
    assert_eq!(p.get_index(6), IVec2::new(1, 1));
    assert_eq!(p.get_index(15), IVec2::new(2, 3));
}

#[test]
fn slide_pushes_the_run_towards_the_empty_slot() {
    let mut p = solved(3, 3);
    p.slide(IVec2::new(2, 0), IVec2::new(0, 1));
    assert_eq!(p.get_panel(2, 0), Some(&Panel::Empty));
    assert_eq!(p.get_panel(2, 1), Some(&Panel::PanelNumber(3)));
    assert_eq!(p.get_panel(2, 2), Some(&Panel::PanelNumber(6)));
    assert!(!p.is_solved());
}

#[test]
fn slide_without_empty_on_line_changes_nothing() {
    let mut p = solved(3, 3);
    p.slide(IVec2::new(0, 0), IVec2::new(1, 0));
    assert!(p.is_solved());
    assert_eq!(p.get_panel(0, 0), Some(&Panel::PanelNumber(1)));
}

#[test]
fn sliding_back_restores_the_board() {
    let mut p = solved(3, 3);
    p.slide(IVec2::new(0, 2), IVec2::new(1, 0));
    assert_eq!(p.get_panel(0, 2), Some(&Panel::Empty));
    assert_eq!(p.get_panel(1, 2), Some(&Panel::PanelNumber(7)));
    assert_eq!(p.get_panel(2, 2), Some(&Panel::PanelNumber(8)));
    p.slide(IVec2::new(2, 2), IVec2::new(-1, 0));
    assert!(p.is_solved());
    assert_eq!(p.get_panel(2, 2), Some(&Panel::Empty));
}

#[test]
fn slide_random_keeps_every_panel() {
    let mut p = solved(4, 4);
    p.slide_random(30);
    let mut seen = vec![0u32; 16];
    for y in 0..4 {
        for x in 0..4 {
            match p.get_panel(x, y) {
                Some(Panel::Empty) => seen[0] += 1,
                Some(Panel::PanelNumber(n)) => seen[*n as usize] += 1,
                None => panic!("cell missing"),
            }
        }
    }
    assert!(seen.iter().all(|&c| c == 1));
}

fn snapshot(p: &PuzzlePanels) -> Vec<Panel> {
    let mut v = Vec::new();
    for y in 0..p.height() {
        for x in 0..p.width() {
            v.push(*p.get_panel(x, y).unwrap());
        }
    }
    v
}

fn empty_slot(p: &PuzzlePanels) -> (usize, usize) {
    for y in 0..p.height() {
        for x in 0..p.width() {
            if *p.get_panel(x, y).unwrap() == Panel::Empty {
                return (x, y);
            }
        }
    }
    panic!("no empty slot");
}

// Tries every push sequence of at most `depth` pushes, undoing each push by
// pushing back from the slot that was empty.
fn solvable_within(p: &mut PuzzlePanels, depth: usize) -> bool {
    if p.is_solved() {
        return true;
    }
    if depth == 0 {
        return false;
    }
    let dirs = [IVec2::new(1, 0), IVec2::new(-1, 0), IVec2::new(0, 1), IVec2::new(0, -1)];
    for y in 0..p.height() {
        for x in 0..p.width() {
            if *p.get_panel(x, y).unwrap() == Panel::Empty {
                continue;
            }
            for d in dirs {
                let before = snapshot(p);
                let (ex, ey) = empty_slot(p);
                p.slide(IVec2::new(x as i32, y as i32), d);
                if snapshot(p) == before {
                    continue;
                }
                let found = solvable_within(p, depth - 1);
                p.slide(IVec2::new(ex as i32, ey as i32), IVec2::new(-d.x, -d.y));
                assert_eq!(snapshot(p), before);
                if found {
                    return true;
                }
            }
        }
    }
    false
}

#[test]
fn a_shuffled_board_can_be_pushed_back_to_solved() {
    for _ in 0..5 {
        let mut p = solved(4, 4);
        p.slide_random(4);
        assert!(solvable_within(&mut p, 4));
    }
}

#[test]
fn one_shuffle_push_runs_along_the_empty_row() {
    for _ in 0..10 {
        let mut p = solved(4, 4);
        p.slide_random(1);
        let (ex, ey) = empty_slot(&p);
        assert_eq!(ey, 3);
        assert_ne!(ex, 3);
        assert!(!p.is_solved());
        let mut q = solved(4, 4);
        q.slide_random(2);
        let (_, qy) = empty_slot(&q);
        assert_ne!(qy, 3);
    }
}
