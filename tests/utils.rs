use fxkv::utils::{First, Windows};

#[test]
fn test_windows() {
    let mut windows = Windows::start_with(100);
    for i in 100..107 {
        windows.put(i);
        assert!(windows.completed());
        assert_eq!(windows.head, 100);
    }
    windows.put(107);
    assert!(windows.completed());
    assert_eq!(windows.head, 108);

    let mut windows = Windows::start_with(100);
    for i in (100..500).rev() {
        windows.put(i);
        assert_eq!(windows.completed(), i == 100);
    }
    assert_eq!(windows.head, 500);
}

#[test]
fn window_reverse_arrival_up_to_500() {
    let mut windows = Windows::start_with(100);
    for i in (101..=500).rev() {
        windows.put(i);
        assert!(!windows.completed());
    }
    windows.put(100);
    assert!(windows.completed());
    // `head` moves by whole bytes: ids 100..=499 fill fifty bytes and 500 is
    // the first bit of the next one, so the next unresolved id is 501.
    assert_eq!(windows.head, 500);
    windows.put(501);
    assert!(windows.completed());
    assert_eq!(windows.head, 500);
}

#[test]
fn window_gap_is_not_completed() {
    let mut windows = Windows::start_with(0);
    windows.put(0);
    windows.put(2);
    assert!(!windows.completed());
    windows.put(1);
    assert!(windows.completed());
    assert_eq!(windows.head, 0);
}

#[test]
fn window_stray_byte_is_not_completed() {
    let mut windows = Windows::start_with(0);
    windows.put(0);
    windows.put(40);
    assert!(!windows.completed());
}

#[test]
fn window_empty_is_not_completed() {
    let mut windows = Windows::start_with(8);
    assert!(!windows.completed());
    assert_eq!(windows.head, 8);
}

#[test]
fn first_gives_first_then_next() {
    let mut first = First::new(5u64, 1u64);
    assert!(first.first());
    assert_eq!(first.get(), 5);
    assert!(!first.first());
    assert_eq!(first.get(), 1);
    assert_eq!(first.get(), 1);
}

#[test]
fn window_reports_resolved_ids() {
    let mut windows = Windows::start_with(10);
    windows.put(12);
    assert!(windows.is_resolved(3));
    assert!(!windows.is_resolved(10));
    assert!(windows.is_resolved(12));
    assert!(!windows.is_resolved(13));
    assert!(!windows.is_resolved(1000));
}
