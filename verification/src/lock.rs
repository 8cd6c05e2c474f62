//! What an attempt to lock a store's directory comes to.

use crate::error::ErrorKind;
use vstd::prelude::*;

verus! {

/// The name of the lock file inside a store's directory.
pub const LOCK_FILE: &'static str = ".lock";

/// How an attempt to take the lock went.
#[derive(Debug, Clone, Copy, PartialEq, Eq, Structural)]
pub enum LockAttempt {
    /// The directory does not exist.
    DirectoryMissing,
    /// The lock file could not be made for another reason.
    FileRefused,
    /// The lock file is there and another holder has it.
    HeldElsewhere,
    /// The lock has been taken.
    Taken,
}

/// The outcome of an attempt: `NotFound` for a missing directory,
/// `Collision` where the lock cannot be had, success otherwise.
pub fn lock_outcome(attempt: LockAttempt) -> (outcome: Result<(), Box<ErrorKind>>)
    ensures
        match outcome {
            Ok(_) => attempt == LockAttempt::Taken,
            Err(error) => *error == (if attempt == LockAttempt::DirectoryMissing {
                ErrorKind::NotFound
            } else {
                ErrorKind::Collision
            }) && attempt != LockAttempt::Taken,
        },
{
    match attempt {
        LockAttempt::DirectoryMissing => Err(Box::new(ErrorKind::NotFound)),
        LockAttempt::FileRefused => Err(Box::new(ErrorKind::Collision)),
        LockAttempt::HeldElsewhere => Err(Box::new(ErrorKind::Collision)),
        LockAttempt::Taken => Ok(()),
    }
}

} // verus!
