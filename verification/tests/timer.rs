use btdht::timer::Timer;

#[test]
fn new_timer_is_empty() {
    let mut timer: Timer<u32> = Timer::new();
    assert!(timer.is_empty());
    assert_eq!(timer.len(), 0);
    assert_eq!(timer.next_deadline(), None);
    assert_eq!(timer.next(u128::MAX), None);
}

#[test]
fn next_yields_only_after_the_deadline() {
    let mut timer: Timer<&str> = Timer::new();
    timer.schedule_in(5, "a", 100);
    assert!(!timer.is_empty());
    assert_eq!(timer.next_deadline(), Some(105));
    assert_eq!(timer.next(104), None);
    assert_eq!(timer.len(), 1);
    assert_eq!(timer.next(105), Some("a"));
    assert!(timer.is_empty());
}

#[test]
fn next_yields_the_earliest_deadline_first() {
    let mut timer: Timer<u8> = Timer::new();
    timer.schedule_in(30, 3, 0);
    timer.schedule_in(10, 1, 0);
    timer.schedule_in(20, 2, 0);
    assert_eq!(timer.next_deadline(), Some(10));
    assert_eq!(timer.next(100), Some(1));
    assert_eq!(timer.next(100), Some(2));
    assert_eq!(timer.next(100), Some(3));
    assert_eq!(timer.next(100), None);
}

#[test]
fn equal_deadlines_come_in_the_order_of_scheduling() {
    let mut timer: Timer<u8> = Timer::new();
    timer.schedule_in(10, 1, 0);
    timer.schedule_in(5, 2, 5);
    timer.schedule_in(0, 3, 10);
    assert_eq!(timer.next(10), Some(1));
    assert_eq!(timer.next(10), Some(2));
    assert_eq!(timer.next(10), Some(3));
}

#[test]
fn deadline_saturates() {
    let mut timer: Timer<u8> = Timer::new();
    timer.schedule_in(u128::MAX, 1, 5);
    assert_eq!(timer.next_deadline(), Some(u128::MAX));
    assert_eq!(timer.next(u128::MAX - 1), None);
    assert_eq!(timer.next(u128::MAX), Some(1));
}
