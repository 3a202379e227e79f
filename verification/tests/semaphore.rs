use nix_cache_mirror::update::semaphore::Semaphore;

#[test]
fn permits_are_counted() {
    let mut s = Semaphore::new(2);
    assert_eq!(s.available(), 2);
    assert!(s.acquire(1));
    assert!(s.acquire(2));
    assert_eq!(s.available(), 0);
    assert!(!s.acquire(3));
    assert!(!s.acquire(4));
    // The task that came last is woken first.
    assert_eq!(s.release(), Some(4));
    assert_eq!(s.available(), 1);
    assert!(s.acquire(4));
    assert_eq!(s.release(), Some(3));
    assert_eq!(s.release(), None);
    assert_eq!(s.available(), 2);
    // No more permits than the semaphore was made with.
    assert_eq!(s.release(), None);
    assert_eq!(s.available(), 2);
}

#[test]
fn no_permits_means_everyone_waits() {
    let mut s = Semaphore::new(0);
    assert!(!s.acquire(7));
    assert_eq!(s.release(), Some(7));
    assert_eq!(s.available(), 0);
}
