use bevy_bits::marble_dropper::{
    bucket_color, score_after_landing, spawn_interval_millis, spawn_marble, MarbleColor,
    GAME_DURATION_MILLIS,
};
use bevy_bits::shape_finder::{click_emoji, emoji_lineup, stage_over, StageCounts};
use bevy_bits::shape_grabber::{catch_shape, colors_except, spawn_shape, choose_target, TargetShape, ShapeType};
use bevy_bits::shape_masher::{choose_target as masher_target, make_shape_pool, score_after_click};
use bevy_bits::shape_shooter::bullet_hit;
use bevy_bits::shape_sidescroller::{resolve_collision, Collision, CollisionOutcome, INITIAL_SCORE};
use bevy_bits::shapes::Shape;

#[test]
fn marble_scores_five_or_loses_two() {
    assert_eq!(score_after_landing(0, true, MarbleColor::Red, MarbleColor::Red), 5);
    assert_eq!(score_after_landing(0, true, MarbleColor::Red, MarbleColor::Blue), -2);
    assert_eq!(score_after_landing(7, false, MarbleColor::Grey, MarbleColor::Green), 5);
}

#[test]
fn marble_buckets_and_spawns() {
    assert_eq!(bucket_color(0), MarbleColor::Red);
    assert_eq!(bucket_color(1), MarbleColor::Green);
    assert_eq!(bucket_color(2), MarbleColor::Blue);
    for _ in 0..200 {
        let m = spawn_marble();
        assert!(m.target_bucket < 3);
        assert_eq!(m.is_target, m.color != MarbleColor::Grey);
        if m.is_target {
            assert_eq!(m.color, bucket_color(m.target_bucket));
        }
    }
}

#[test]
fn marble_spawn_rate_rises_by_thirds() {
    let t = GAME_DURATION_MILLIS;
    assert_eq!(spawn_interval_millis(0, t), 1500);
    assert_eq!(spawn_interval_millis(9_999, t), 1500);
    assert_eq!(spawn_interval_millis(10_000, t), 1000);
    assert_eq!(spawn_interval_millis(20_000, t), 500);
    assert_eq!(spawn_interval_millis(30_000, t), 500);
    let mut last = u64::MAX;
    for e in (0..=t).step_by(500) {
        let r = spawn_interval_millis(e, t);
        assert!(r <= last);
        last = r;
    }
}

#[test]
fn finder_lineup_holds_targets_and_others() {
    let others = vec![10, 11, 12, 13];
    let mut lineup = emoji_lineup(3, 5, &others);
    assert_eq!(lineup.len(), 9);
    assert_eq!(lineup.iter().filter(|&&e| e == 3).count(), 5);
    lineup.sort();
    assert_eq!(lineup, vec![3, 3, 3, 3, 3, 10, 11, 12, 13]);
}

#[test]
fn finder_clicks_and_stages() {
    assert_eq!(click_emoji(0, 0, true, 5), (1, 1, false));
    assert_eq!(click_emoji(4, 4, true, 5), (5, 5, true));
    assert_eq!(click_emoji(0, 2, false, 5), (-1, 2, false));
    assert!(stage_over(true, 0, 5));
    assert!(stage_over(false, 5, 5));
    assert!(!stage_over(false, 4, 5));
    let mut s = StageCounts::default();
    assert_eq!((s.total_emojis, s.correct_emojis, s.current_stage_number), (30, 5, 1));
    s.advance();
    assert_eq!((s.total_emojis, s.correct_emojis, s.current_stage_number), (35, 5, 2));
}

#[test]
fn grabber_catches() {
    assert_eq!(catch_shape(0, true), (1, false));
    assert_eq!(catch_shape(9, true), (10, true));
    assert_eq!(catch_shape(3, false), (3, true));
    assert_eq!(colors_except(2), vec![0, 1, 3]);
    let t = TargetShape::default();
    assert_eq!((t.shape_type, t.color), (ShapeType::Circle, 0));
}

#[test]
fn grabber_spawns_are_tagged_correctly() {
    let target = choose_target();
    assert!(target.color < 4);
    for _ in 0..300 {
        let s = spawn_shape(target);
        assert!(s.color < 4);
        assert_eq!(s.is_correct, s.shape_type == target.shape_type && s.color == target.color);
    }
}

#[test]
fn masher_scores_by_shape_only() {
    assert_eq!(score_after_click(3, Some(Shape::Square), Shape::Square), 4);
    assert_eq!(score_after_click(3, Some(Shape::Circle), Shape::Square), 2);
    assert_eq!(score_after_click(0, Some(Shape::Circle), Shape::Square), 0);
    assert_eq!(score_after_click(0, None, Shape::Square), 0);
    assert_eq!(score_after_click(5, None, Shape::Square), 4);
    let pool = make_shape_pool();
    assert_eq!(pool.len(), 10);
    assert!(pool.iter().all(|s| s.color < 10));
    assert!(masher_target().color < 10);
}

#[test]
fn sidescroller_collisions() {
    let mut score = INITIAL_SCORE;
    assert_eq!(resolve_collision(&mut score, Collision::Obstacle), CollisionOutcome::Knocked);
    assert_eq!(score, 9);
    assert_eq!(resolve_collision(&mut score, Collision::Hole), CollisionOutcome::Falling);
    assert_eq!(resolve_collision(&mut score, Collision::Castle), CollisionOutcome::GameOver);
    assert_eq!(resolve_collision(&mut score, Collision::Nothing), CollisionOutcome::Continue);
    assert_eq!(score, 9);
    let mut one = 1;
    assert_eq!(resolve_collision(&mut one, Collision::Obstacle), CollisionOutcome::GameOver);
    assert_eq!(one, 0);
}

#[test]
fn shooter_bullets() {
    assert_eq!(bullet_hit(3, 0), (2, false, 0));
    assert_eq!(bullet_hit(1, 7), (0, true, 8));
}

#[test]
fn swaps_are_applied_from_the_last_slot_down() {
    let mut v = vec!['a', 'b', 'c', 'd'];
    bevy_bits::shuffle::apply_swaps(&mut v, &vec![0, 0, 1]);
    assert_eq!(v, vec!['d', 'c', 'a', 'b']);
    let mut same = vec![1, 2, 3];
    bevy_bits::shuffle::apply_swaps(&mut same, &vec![1, 2]);
    assert_eq!(same, vec![1, 2, 3]);
    let mut w: Vec<u32> = (0..30).collect();
    bevy_bits::shuffle::swap_shuffle(&mut w);
    let mut sorted = w.clone();
    sorted.sort();
    assert_eq!(sorted, (0..30).collect::<Vec<u32>>());
}

#[test]
fn marble_follows_its_draws() {
    let m = bevy_bits::marble_dropper::marble_from_draws(2, 1);
    assert!(m.is_target);
    assert_eq!(m.target_bucket, 1);
    assert_eq!(m.color, bucket_color(1));
    let g = bevy_bits::marble_dropper::marble_from_draws(3, 2);
    assert!(!g.is_target);
    assert_eq!(g.color, MarbleColor::Grey);
    assert_eq!(g.target_bucket, 2);
}
