use blockcopy::chunk_tracker::{classify, CellState, calculate_display_detail, ChunkTracker, FLAG_DIRTY, FLAG_UNPROCESSED};

#[test]
fn new_tracker_is_all_unprocessed() {
    let tracker = ChunkTracker::new(10);
    assert_eq!(tracker.get_chunk_count(), 10);
    for i in 0..10 {
        assert_eq!(tracker.get_flags(i), FLAG_UNPROCESSED);
    }
    assert_eq!(tracker.find_next(0), Some(0));
    assert_eq!(tracker.find_next(9), Some(9));
    assert_eq!(tracker.find_next(10), None);
}

#[test]
fn clearing_and_marking_drive_find_next() {
    let mut tracker = ChunkTracker::new(10);
    for i in 0..10 {
        tracker.clear_chunk(i);
    }
    assert_eq!(tracker.find_next(0), None);
    tracker.mark_chunk(3);
    tracker.mark_chunk(7);
    assert_eq!(tracker.get_flags(3), FLAG_DIRTY);
    assert_eq!(tracker.find_next(0), Some(3));
    assert_eq!(tracker.find_next(4), Some(7));
    assert_eq!(tracker.find_next(8), None);
    tracker.clear_chunk(3);
    assert_eq!(tracker.find_next(0), Some(7));
}

#[test]
fn mark_chunks_clips_to_the_device() {
    let mut tracker = ChunkTracker::new(6);
    for i in 0..6 {
        tracker.clear_chunk(i);
    }
    tracker.mark_chunks(4, 100);
    assert_eq!(tracker.find_next(0), Some(4));
    assert_eq!(tracker.get_flags(5), FLAG_DIRTY);
    tracker.mark_chunks(1, 2);
    assert_eq!(tracker.find_next(0), Some(1));
    assert_eq!(tracker.get_flags(2), 0);
}

#[test]
fn snapshot_levels() {
    let mut tracker = ChunkTracker::new(5);
    for i in 0..5 {
        tracker.clear_chunk(i);
    }
    tracker.mark_chunk(1);
    assert_eq!(tracker.snapshot_level(0), vec![0, 1, 0, 0, 0]);
    assert_eq!(tracker.snapshot_level(1), vec![1, 0, 0]);
    assert_eq!(tracker.snapshot_level(2), vec![1, 0]);
    assert_eq!(tracker.snapshot_level(3), vec![1]);
    assert_eq!(tracker.snapshot_level(70), vec![1]);
    let unprocessed = ChunkTracker::new(3);
    assert_eq!(unprocessed.snapshot_level(1), vec![FLAG_UNPROCESSED, FLAG_UNPROCESSED]);
    assert_eq!(ChunkTracker::new(0).snapshot_level(0), Vec::<u8>::new());
}

#[test]
fn display_detail() {
    assert_eq!(calculate_display_detail(100, 100), 0);
    assert_eq!(calculate_display_detail(101, 100), 1);
    assert_eq!(calculate_display_detail(200, 100), 1);
    assert_eq!(calculate_display_detail(201, 100), 2);
    assert_eq!(calculate_display_detail(1 << 20, 1), 20);
    assert_eq!(calculate_display_detail(0, 0), 0);
}

#[test]
fn fresh_tracker_snapshot_is_all_unprocessed() {
    let t = ChunkTracker::new(5);
    assert_eq!(t.snapshot_level(0), vec![FLAG_UNPROCESSED; 5]);
    assert_eq!(t.snapshot_level(2), vec![FLAG_UNPROCESSED; 2]);
    for k in 0..5 {
        assert_eq!(t.find_next(k), Some(k));
    }
}

#[test]
fn cells_are_classified() {
    assert_eq!(classify(0), CellState::Done);
    assert_eq!(classify(FLAG_DIRTY), CellState::Dirty);
    assert_eq!(classify(FLAG_UNPROCESSED), CellState::Unprocessed);
    assert_eq!(classify(3), CellState::Both);
}
