use manpick::fetch::RequestTracker;
use manpick::viewport::{ViewportScroller, PAGE_STEP};

#[test]
fn moving_up_from_top_wraps_to_bottom() {
    let mut v = ViewportScroller::new(25, 10);
    v.move_by(-1);
    assert_eq!(v.selection(), 24);
    assert_eq!(v.offset(), 15);
}

#[test]
fn short_list_never_scrolls() {
    let mut v = ViewportScroller::new(5, 10);
    for _ in 0..12 {
        v.move_by(1);
        assert!(v.selection() < 5);
        assert_eq!(v.offset(), 0);
    }
    v.move_by(-PAGE_STEP);
    assert_eq!(v.offset(), 0);
}

#[test]
fn shrinking_count_clamps_selection() {
    let mut v = ViewportScroller::new(25, 10);
    v.move_by(-1);
    v.on_item_count_changed(5);
    assert_eq!(v.selection(), 4);
    assert_eq!(v.offset(), 4);
    assert_eq!(v.item_count(), 5);
}

#[test]
fn growing_count_keeps_selection() {
    let mut v = ViewportScroller::new(5, 10);
    v.move_by(3);
    v.on_item_count_changed(50);
    assert_eq!(v.selection(), 3);
    assert_eq!(v.offset(), 0);
}

#[test]
fn empty_list_rests_at_zero() {
    let mut v = ViewportScroller::new(25, 10);
    v.move_by(7);
    v.on_item_count_changed(0);
    assert_eq!((v.selection(), v.offset()), (0, 0));
    v.move_by(1);
    v.move_by(-PAGE_STEP);
    assert_eq!((v.selection(), v.offset()), (0, 0));
}

#[test]
fn page_steps_wrap_round() {
    let mut v = ViewportScroller::new(25, 10);
    v.move_by(PAGE_STEP);
    assert_eq!((v.selection(), v.offset()), (10, 1));
    v.move_by(PAGE_STEP);
    assert_eq!((v.selection(), v.offset()), (20, 11));
    v.move_by(PAGE_STEP);
    assert_eq!((v.selection(), v.offset()), (5, 5));
    v.move_by(-PAGE_STEP);
    assert_eq!((v.selection(), v.offset()), (20, 11));
}

#[test]
fn down_moves_window_only_when_needed() {
    let mut v = ViewportScroller::new(25, 10);
    for _ in 0..9 {
        v.move_by(1);
    }
    assert_eq!((v.selection(), v.offset()), (9, 0));
    v.move_by(1);
    assert_eq!((v.selection(), v.offset()), (10, 1));
    v.move_by(1);
    v.move_by(1);
    v.move_by(-1);
    assert_eq!((v.selection(), v.offset()), (11, 3));
}

#[test]
fn shrinking_height_follows_selection() {
    let mut v = ViewportScroller::new(25, 10);
    v.move_by(8);
    v.set_height(3);
    assert_eq!((v.selection(), v.offset(), v.height()), (8, 6, 3));
    v.set_height(20);
    assert_eq!(v.offset(), 6);
}

#[test]
fn huge_deltas_wrap() {
    let mut v = ViewportScroller::new(7, 3);
    v.move_by(isize::MIN);
    let expected = (isize::MIN as i128).rem_euclid(7) as usize;
    assert_eq!(v.selection(), expected);
    v.move_by(isize::MAX);
    let back = ((expected as i128) + isize::MAX as i128).rem_euclid(7) as usize;
    assert_eq!(v.selection(), back);
}

#[test]
fn only_latest_request_is_current() {
    let mut t = RequestTracker::new();
    let first = t.issue();
    assert!(t.is_current(first));
    let second = t.issue();
    assert_eq!(second, first + 1);
    assert!(!t.is_current(first));
    assert!(t.is_current(second));
    assert!(t.can_issue());
}
