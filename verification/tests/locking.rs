use linhash::lock::StripeLock;

#[test]
fn test_lock_read_read_ok() {
    let lock = StripeLock::new(4);
    let g1 = lock.read_lock(0);
    let g2 = lock.read_lock(0);
    let _ = (g1, g2);
}

#[test]
fn test_lock_selective_read_ok() {
    let lock = StripeLock::new(4);
    let g1 = lock.selective_lock(0);
    let g2 = lock.read_lock(0);
    let _ = (g1, g2);
}

#[test]
fn test_lock_selective_selective_fail() {
    let lock = StripeLock::new(4);
    let _g1 = lock.selective_lock(0);
    let g2 = lock.try_selective_lock(0);
    assert_eq!(g2.is_none(), true);
}

#[test]
fn test_selective_exclusive_fail() {
    let lock = StripeLock::new(4);
    let _g1 = lock.selective_lock(0);
    let g2 = lock.try_exclusive_lock(0);
    assert_eq!(g2.is_none(), true);
}

#[test]
fn test_exclusive_exclusive_fail() {
    let lock = StripeLock::new(4);
    let _g1 = lock.exclusive_lock(0);
    let g2 = lock.try_exclusive_lock(0);
    assert_eq!(g2.is_none(), true);
}

#[test]
fn test_selective_downgrade_releases_mutex() {
    let lock = StripeLock::new(4);
    let g1 = lock.selective_lock(0);
    let _g1 = g1.downgrade();
    let g2 = lock.try_selective_lock(0);
    assert!(g2.is_some());
}
