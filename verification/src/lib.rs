use vstd::prelude::*;

pub mod detect;
pub mod kernel;
pub mod ledger;
pub mod manager;
pub mod sync;
pub mod sys_process;
pub mod sys_sync;
pub mod task;

verus! {

pub use crate::task::TaskStatus;

/// Scheduling constant: each selected task's stride advances by
/// `BIG_STRIDE / priority`.
pub const BIG_STRIDE: u64 = 65536;

/// Return code of an acquire that the deadlock detector refused: granting the
/// request could never be followed by every task finishing.
pub const DEADLOCK_RC: isize = -0xDEAD;

/// Bytes per page of the address space.
pub const PAGE_SIZE: usize = 4096;

/// Return code of a spinning-mutex acquire that found the lock held: the
/// caller was suspended at its yield point and retries when it runs again.
pub const RETRY_RC: isize = -2;

} // verus!
