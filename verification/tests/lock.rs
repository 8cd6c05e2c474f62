use archive_core::lock::{lock_outcome, LockAttempt, LOCK_FILE};

#[test]
fn lock_lock_non_existing_directory() {
    let error = lock_outcome(LockAttempt::DirectoryMissing);
    assert_eq!("Err(NotFound)", format!("{:?}", error));
}

#[test]
fn lock_lock_empty_directory() {
    let lock = lock_outcome(LockAttempt::Taken);
    assert!(lock.is_ok());
}

#[test]
fn lock_two_locks_on_same_directory() {
    let lock1 = lock_outcome(LockAttempt::Taken);
    let lock2 = lock_outcome(LockAttempt::HeldElsewhere);
    assert!(lock1.is_ok());
    assert_eq!("Err(Collision)", format!("{:?}", lock2));
}

#[test]
fn a_lock_file_that_cannot_be_made_is_a_collision() {
    assert_eq!(
        "Err(Collision)",
        format!("{:?}", lock_outcome(LockAttempt::FileRefused))
    );
    assert_eq!(".lock", LOCK_FILE);
}
