use dir_crawler::limiter::Limiter;

#[test]
fn permits_run_out_at_the_capacity() {
    let mut limiter = Limiter::new(2);
    assert_eq!(limiter.permits(), 2);
    assert_eq!(limiter.held(), 0);
    assert_eq!(limiter.available(), 2);
    assert!(limiter.try_acquire());
    assert!(limiter.try_acquire());
    assert!(!limiter.try_acquire());
    assert_eq!(limiter.held(), 2);
    assert_eq!(limiter.available(), 0);
}

#[test]
fn released_permit_can_be_taken_again() {
    let mut limiter = Limiter::new(1);
    assert!(limiter.try_acquire());
    assert!(!limiter.try_acquire());
    assert!(limiter.release());
    assert_eq!(limiter.held(), 0);
    assert!(limiter.try_acquire());
    assert_eq!(limiter.held(), 1);
}

#[test]
fn release_without_a_permit_out_changes_nothing() {
    let mut limiter = Limiter::new(3);
    assert!(!limiter.release());
    assert_eq!(limiter.held(), 0);
    assert_eq!(limiter.permits(), 3);
}

#[test]
fn limiter_without_permits_never_grants() {
    let mut limiter = Limiter::new(0);
    assert!(!limiter.try_acquire());
    assert_eq!(limiter.held(), 0);
}
