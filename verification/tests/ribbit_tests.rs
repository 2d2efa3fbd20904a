use bevy_bits::geometry::UVec2;
use bevy_bits::match3::Match3Config;
use bevy_bits::ribbit::{
    BitDuration, BitResult, MarbleDropper, MasterMind, RibbitMatch3, ShapeMasher, ShapeRacer,
    TowerTumble, WheresWaldo,
};

#[test]
fn end_results_and_durations() {
    assert_eq!(RibbitMatch3::end_result(), BitResult::Failure);
    assert_eq!(RibbitMatch3::duration(), BitDuration::MaxDuration);
    assert_eq!(MasterMind::end_result(), BitResult::Failure);
    assert_eq!(MarbleDropper::end_result(-4), BitResult::HighestScore(-4));
    assert_eq!(ShapeMasher::end_result(9), BitResult::HighestScore(9));
    assert_eq!(ShapeMasher::duration(), BitDuration::Millis(23_000));
    assert_eq!(ShapeRacer::end_result(4_500), BitResult::LongestDuration(4_500));
    assert_eq!(TowerTumble::end_result(120), BitResult::HighestScore(120));
    assert_eq!(WheresWaldo::end_result(), BitResult::Failure);
}

#[test]
fn match3_default_config() {
    let c = Match3Config::default();
    assert_eq!(c.gem_types, 5);
    assert_eq!(c.board_dimensions, UVec2::new(10, 10));
}
