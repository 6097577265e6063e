//! Decisions taken around file access, on plain values that the caller got
//! from the operating system: what a failed read means, whether to retry it,
//! where the HTTP body of a file starts, and how to make a helper executable.
use vstd::prelude::*;
use crate::wire::{le32, le64, le_u32, le_u64};
use crate::simple_cache::{SIMPLE_CACHE_MAGIC, SIMPLE_CACHE_HEADER_SIZE};

verus! {

/// The OS error number of a sandbox or Full Disk Access denial.
pub const ERRNO_EPERM: i32 = 1;

/// The OS error number of a byte-range lock conflict on a cache file.
pub const ERRNO_EACCES: i32 = 13;

/// How many times a read blocked by a lock conflict is retried.
pub const LOCK_RETRY_LIMIT: u64 = 5;

/// Delay step of the lock-conflict retries, in milliseconds.
pub const LOCK_RETRY_STEP_MS: u64 = 100;

/// Largest number of body bytes a header read returns.
pub const HEADER_READ_LIMIT: usize = 4096;

/// What a failed read means for the user.
#[derive(Clone, Copy, Debug, PartialEq, Eq, Structural)]
pub enum ReadErrorKind {
    /// The sandbox or Full Disk Access denies the read.
    AccessDenied,
    /// The owning application holds a lock on the file.
    LockConflict,
    /// Any other failure.
    Other,
}

/// What to do after a failed read.
#[derive(Clone, Copy, Debug, PartialEq, Eq, Structural)]
pub enum RetryDecision {
    /// Wait this many milliseconds, then read again.
    Retry { delay_ms: u64 },
    /// Report the failure.
    GiveUp,
}

/// The kind of a failed read from its raw OS error number.
pub fn classify_read_error(raw: Option<i32>) -> (r: ReadErrorKind)
    ensures
        r == (if raw == Some(ERRNO_EPERM) {
            ReadErrorKind::AccessDenied
        } else if raw == Some(ERRNO_EACCES) {
            ReadErrorKind::LockConflict
        } else {
            ReadErrorKind::Other
        }),
{
    match raw {
        Some(ERRNO_EPERM) => ReadErrorKind::AccessDenied,
        Some(ERRNO_EACCES) => ReadErrorKind::LockConflict,
        _ => ReadErrorKind::Other,
    }
}

/// After failed attempt number `attempt` (0 for the first read): a lock
/// conflict is retried up to five times, with a delay growing by 100 ms each
/// time; any other failure is reported at once.
pub fn lock_retry_step(attempt: u64, raw: Option<i32>) -> (r: RetryDecision)
    ensures
        raw == Some(ERRNO_EACCES) && attempt < LOCK_RETRY_LIMIT ==> r == (RetryDecision::Retry {
            delay_ms: (LOCK_RETRY_STEP_MS * (attempt + 1)) as u64,
        }),
        !(raw == Some(ERRNO_EACCES) && attempt < LOCK_RETRY_LIMIT) ==> r == RetryDecision::GiveUp,
{
    if raw == Some(ERRNO_EACCES) && attempt < LOCK_RETRY_LIMIT {
        RetryDecision::Retry { delay_ms: LOCK_RETRY_STEP_MS * (attempt + 1) }
    } else {
        RetryDecision::GiveUp
    }
}

/// Where to read the first bytes of a file's HTTP body, given the first bytes
/// read from it (up to 24): past the header and key of a Simple Cache entry,
/// else from the start; and how many bytes, at most 4096.
pub fn body_read_window(head: &[u8], size: usize) -> (r: (u64, usize))
    ensures
        r.0 == (if head@.len() == 24 && le64(head@, 0) == SIMPLE_CACHE_MAGIC {
            24 + le32(head@, 12)
        } else {
            0
        }),
        r.1 == (if size < HEADER_READ_LIMIT {
            size
        } else {
            HEADER_READ_LIMIT
        }),
{
    let count = if size < HEADER_READ_LIMIT {
        size
    } else {
        HEADER_READ_LIMIT
    };
    if head.len() == SIMPLE_CACHE_HEADER_SIZE && le_u64(head, 0) == SIMPLE_CACHE_MAGIC {
        let key_length = le_u32(head, 12) as u64;
        (SIMPLE_CACHE_HEADER_SIZE as u64 + key_length, count)
    } else {
        (0, count)
    }
}

/// The permission bits to give a helper binary: none to change where some
/// execute bit is set, else the mode with `0o755` added.
pub fn executable_mode_fix(mode: u32) -> (r: Option<u32>)
    ensures
        r == (if mode & 0o111 != 0 {
            None::<u32>
        } else {
            Some(mode | 0o755)
        }),
{
    if mode & 0o111 != 0 {
        None
    } else {
        Some(mode | 0o755)
    }
}

} // verus!
