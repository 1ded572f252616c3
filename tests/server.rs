use prio_queue::server::ConnectionLimit;

#[test]
fn connections_over_the_ceiling_are_refused() {
    let mut limit = ConnectionLimit::new(2);
    assert!(limit.try_admit());
    assert!(limit.try_admit());
    assert!(!limit.try_admit());
    assert_eq!(limit.active(), 2);
    limit.release();
    assert_eq!(limit.active(), 1);
    assert!(limit.try_admit());
    assert_eq!(limit.max(), 2);
}

#[test]
fn release_never_goes_below_zero() {
    let mut limit = ConnectionLimit::new(0);
    assert!(!limit.try_admit());
    limit.release();
    assert_eq!(limit.active(), 0);
}
