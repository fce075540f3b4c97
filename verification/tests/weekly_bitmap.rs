use rust_kernel::weekly_bitmap::{MeetingBlock, WeeklyOccupancy};

fn mb(day: &str, s: i32, e: i32) -> MeetingBlock {
    MeetingBlock {
        day_code: day.into(),
        start_min: s,
        end_min: e,
    }
}

#[test]
fn try_add_detects_overlap_same_day() {
    let mut occ = WeeklyOccupancy::new();
    assert!(occ.try_add_blocks(&[mb("T", 530, 610)]));
    assert!(!occ.try_add_blocks(&[mb("T", 570, 620)]));
}

#[test]
fn remove_blocks_restores_try_add() {
    let mut occ = WeeklyOccupancy::new();
    let a = vec![mb("T", 530, 610)];
    assert!(occ.try_add_blocks(&a));
    occ.remove_blocks(&a);
    assert!(occ.try_add_blocks(&[mb("T", 570, 620)]));
}

#[test]
fn weekly_bitmap_matches_half_open_overlap_semantics() {
    let mut occ = WeeklyOccupancy::new();
    assert!(occ.try_add_blocks(&[mb("T", 530, 610)]));
    assert!(!occ.try_add_blocks(&[mb("T", 570, 620)])); // overlap
    occ.remove_blocks(&[mb("T", 530, 610)]);
    assert!(occ.try_add_blocks(&[mb("T", 480, 540)]));
    assert!(occ.try_add_blocks(&[mb("T", 540, 600)])); // adjacent, no overlap
    occ.remove_blocks(&[mb("T", 480, 540)]);
    occ.remove_blocks(&[mb("T", 540, 600)]);
    assert!(occ.try_add_blocks(&[mb("T", 480, 540)]));
    assert!(occ.try_add_blocks(&[mb("T", 600, 660)])); // gap, no overlap
}

#[test]
fn blocks_are_clamped_to_the_day_and_days_are_separate() {
    let mut occ = WeeklyOccupancy::new();
    assert!(occ.try_add_blocks(&[mb("T", -100, 10), mb("T", 1430, 2000)]));
    assert!(!occ.try_add_blocks(&[mb("T", 1439, 1500)]));
    assert!(!occ.try_add_blocks(&[mb("T", 0, 1)]));
    assert!(occ.try_add_blocks(&[mb("T", 10, 1430)]));
    assert!(occ.try_add_blocks(&[mb("W", 0, 1440)]));
    // Empty and out-of-day ranges take nothing.
    assert!(occ.try_add_blocks(&[mb("T", 600, 600), mb("T", 1500, 1600), mb("T", -5, 0)]));
}

#[test]
fn refused_addition_changes_nothing() {
    let mut occ = WeeklyOccupancy::new();
    assert!(occ.try_add_blocks(&[mb("T", 100, 200)]));
    // The second block overlaps; the first (free) one must not be marked.
    assert!(!occ.try_add_blocks(&[mb("M", 0, 50), mb("T", 150, 160)]));
    assert!(occ.try_add_blocks(&[mb("M", 0, 50)]));
}

#[test]
fn blocks_of_one_call_are_not_checked_against_each_other() {
    let mut occ = WeeklyOccupancy::new();
    assert!(occ.try_add_blocks(&[mb("T", 100, 200), mb("T", 150, 250)]));
    assert!(!occ.try_add_blocks(&[mb("T", 240, 260)]));
    occ.remove_blocks(&[mb("T", 100, 250)]);
    assert!(occ.try_add_blocks(&[mb("T", 0, 1440)]));
}

#[test]
fn word_boundaries_are_exact() {
    let mut occ = WeeklyOccupancy::new();
    assert!(occ.try_add_blocks(&[mb("T", 63, 65), mb("T", 127, 128)]));
    assert!(occ.try_add_blocks(&[mb("T", 0, 63), mb("T", 65, 127), mb("T", 128, 1440)]));
    assert!(!occ.try_add_blocks(&[mb("T", 64, 65)]));
    occ.remove_blocks(&[mb("T", 64, 65)]);
    assert!(occ.try_add_blocks(&[mb("T", 64, 65)]));
}

#[test]
fn default_week_is_empty() {
    let mut occ = WeeklyOccupancy::default();
    assert!(occ.try_add_blocks(&[mb("M", 0, 1440)]));
    assert!(!occ.try_add_blocks(&[mb("M", 1439, 1440)]));
    assert!(occ.try_add_blocks(&[mb("T", 1439, 1440)]));
}
