use vstd::prelude::*;

verus! {

/// A mutual-exclusion lock slot. The two kinds share one state shape and
/// differ only in the wait strategy: a spinning mutex never queues a waiter
/// (a contended acquire suspends the caller, who retries), while a blocking
/// mutex parks contended callers on a FIFO wait list and hands the lock
/// directly to the head waiter on release.
pub struct MutexState {
    pub blocking: bool,
    pub locked: bool,
    pub wait_queue: Vec<usize>,
}

/// A counting semaphore: `count` available units and a FIFO wait list of
/// tasks blocked on an empty semaphore.
pub struct Semaphore {
    pub count: usize,
    pub wait_queue: Vec<usize>,
}

/// A condition variable: only a FIFO wait list; the associated mutex is
/// released by `wait` and reacquired by the woken task itself.
pub struct Condvar {
    pub wait_queue: Vec<usize>,
}

/// Exclusive access to the mutex in slot `i`.
pub fn mutex_mut(list: &mut Vec<Option<MutexState>>, i: usize) -> (m: &mut MutexState)
    requires
        i < old(list).len(),
        old(list)@[i as int] is Some,
    ensures
        *m == old(list)@[i as int]->Some_0,
        final(list)@ == old(list)@.update(i as int, Some(*final(m))),
{
    match &mut list[i] {
        Some(m) => m,
        None => vstd::pervasive::unreached(),
    }
}

/// Exclusive access to the semaphore in slot `i`.
pub fn sem_mut(list: &mut Vec<Option<Semaphore>>, i: usize) -> (s: &mut Semaphore)
    requires
        i < old(list).len(),
        old(list)@[i as int] is Some,
    ensures
        *s == old(list)@[i as int]->Some_0,
        final(list)@ == old(list)@.update(i as int, Some(*final(s))),
{
    match &mut list[i] {
        Some(s) => s,
        None => vstd::pervasive::unreached(),
    }
}

/// Exclusive access to the condition variable in slot `i`.
pub fn condvar_mut(list: &mut Vec<Option<Condvar>>, i: usize) -> (cv: &mut Condvar)
    requires
        i < old(list).len(),
        old(list)@[i as int] is Some,
    ensures
        *cv == old(list)@[i as int]->Some_0,
        final(list)@ == old(list)@.update(i as int, Some(*final(cv))),
{
    match &mut list[i] {
        Some(cv) => cv,
        None => vstd::pervasive::unreached(),
    }
}

} // verus!
