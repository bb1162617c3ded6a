use vstd::prelude::*;

use crate::detect::{bump, detect_safe, feasible, haves_of, int_view, needs_of};
use crate::kernel::{sched_from, Kernel};
use crate::ledger::res_need;
use crate::manager::{advance_stride, lemma_sched_agree, ready_at, selected_at};
use crate::task::{ledgers_like, slot_like, tasks_like};
use crate::ledger::{
    lemma_sum_have_at_least, lemma_sum_have_congruence, lemma_sum_have_two, lemma_sum_have_zero,
    res_have, sum_have,
};
use crate::task::{have_of, need_of, task_updated};
use crate::sync::{condvar_mut, mutex_mut, sem_mut, Condvar, MutexState, Semaphore};
use crate::task::{res_mut, task_mut, TaskControlBlock, TaskStatus, WaitTarget};

verus! {

/// Turns deadlock detection for the process on (`enabled == 1`), off
/// (`enabled == 0`), or rejects any other argument with -1.
pub fn sys_enable_deadlock_detect(k: &mut Kernel, enabled: usize) -> (r: isize)
    requires
        old(k).wf(),
    ensures
        final(k).wf(),
        r == if enabled <= 1 {
            0isize
        } else {
            -1isize
        },
        final(k).deadlock_detect_enable == if enabled == 1 {
            true
        } else if enabled == 0 {
            false
        } else {
            old(k).deadlock_detect_enable
        },
        final(k).tasks == old(k).tasks,
        final(k).manager == old(k).manager,
        final(k).current == old(k).current,
        final(k).mutex_list == old(k).mutex_list,
        final(k).mutex_status == old(k).mutex_status,
        final(k).semaphore_list == old(k).semaphore_list,
        final(k).semaphore_status == old(k).semaphore_status,
        final(k).semaphore_cap == old(k).semaphore_cap,
        final(k).condvar_list == old(k).condvar_list,
        final(k).time_us == old(k).time_us,
        final(k).timers == old(k).timers,
        final(k).apps == old(k).apps,
        final(k).mapped_pages == old(k).mapped_pages,
{
    let r: isize;
    if enabled == 1 {
        k.deadlock_detect_enable = true;
        r = 0;
    } else if enabled == 0 {
        k.deadlock_detect_enable = false;
        r = 0;
    } else {
        r = -1;
    }
    proof {
        lemma_wf_same_tables(*old(k), *k);
    }
    r
}

/// Slot `b` holds the same task as `a` with the ledger vectors of one
/// resource class grown by a single zero entry.
pub open spec fn grown(a: Option<TaskControlBlock>, b: Option<TaskControlBlock>, mutexes: bool) -> bool {
    match (a, b) {
        (Option::Some(x), Option::Some(y)) => {
            &&& y.tid == x.tid
            &&& y.task_status == x.task_status
            &&& y.stride == x.stride
            &&& y.priority == x.priority
            &&& y.exit_code == x.exit_code
            &&& y.parent == x.parent
            &&& y.children == x.children
            &&& y.heap_bottom == x.heap_bottom
            &&& y.program_brk == x.program_brk
            &&& y.blocked_on@ == x.blocked_on@
            &&& match (x.res, y.res) {
                (Option::Some(rx), Option::Some(ry)) => {
                    if mutexes {
                        &&& ry.mutex_need@ == rx.mutex_need@.push(0usize)
                        &&& ry.mutex_have@ == rx.mutex_have@.push(0usize)
                        &&& ry.semaphore_need == rx.semaphore_need
                        &&& ry.semaphore_have == rx.semaphore_have
                    } else {
                        &&& ry.semaphore_need@ == rx.semaphore_need@.push(0usize)
                        &&& ry.semaphore_have@ == rx.semaphore_have@.push(0usize)
                        &&& ry.mutex_need == rx.mutex_need
                        &&& ry.mutex_have == rx.mutex_have
                    }
                },
                (Option::None, Option::None) => true,
                _ => false,
            }
        },
        (Option::None, Option::None) => true,
        _ => false,
    }
}

/// Grows every task's `need`/`have` vectors of one resource class by one
/// zero-valued, index-aligned entry.
fn grow_ledgers(tasks: &mut Vec<Option<TaskControlBlock>>, mutexes: bool)
    ensures
        final(tasks)@.len() == old(tasks)@.len(),
        forall|t: int|
            0 <= t < old(tasks)@.len() ==> grown(
                old(tasks)@[t],
                #[trigger] final(tasks)@[t],
                mutexes,
            ),
{
    let n = tasks.len();
    let mut t: usize = 0;
    while t < n
        invariant
            t <= n,
            n == tasks.len(),
            old(tasks)@.len() == n,
            forall|x: int| 0 <= x < t ==> grown(old(tasks)@[x], #[trigger] tasks@[x], mutexes),
            forall|x: int| t <= x < n ==> #[trigger] tasks@[x] == old(tasks)@[x],
        decreases n - t,
    {
        let has_task = tasks[t].is_some();
        if has_task {
            let tc = task_mut(tasks, t);
            let has_res = tc.res.is_some();
            if has_res {
                let r = res_mut(tc);
                if mutexes {
                    r.mutex_need.push(0);
                    r.mutex_have.push(0);
                } else {
                    r.semaphore_need.push(0);
                    r.semaphore_have.push(0);
                }
            }
        }
        t = t + 1;
    }
}

/// Creates a new mutex slot: spinning when `blocking` is false, blocking
/// otherwise. A freed slot would be reused; since no operation of this
/// interface frees one, a new slot is appended, with one available unit, and
/// every task's mutex ledger grows by one aligned zero entry. Returns the
/// slot index as the handle.
pub fn sys_mutex_create(k: &mut Kernel, blocking: bool) -> (r: isize)
    requires
        old(k).wf(),
        old(k).mutex_list@.len() < isize::MAX,
    ensures
        final(k).wf(),
        r == old(k).mutex_list@.len() as isize,
        final(k).mutex_list@.len() == old(k).mutex_list@.len() + 1,
        final(k).mutex_list@[r as int] == Some(
            (MutexState { blocking, locked: false, wait_queue: final(k).mutex_list@[r as int]->Some_0.wait_queue }),
        ),
        final(k).mutex_list@[r as int]->Some_0.wait_queue@.len() == 0,
        forall|i: int|
            0 <= i < old(k).mutex_list@.len() ==> #[trigger] final(k).mutex_list@[i] == old(
                k,
            ).mutex_list@[i],
        final(k).mutex_status@ == old(k).mutex_status@.push(1usize),
        final(k).tasks@.len() == old(k).tasks@.len(),
        forall|t: int|
            0 <= t < old(k).tasks@.len() ==> grown(
                old(k).tasks@[t],
                #[trigger] final(k).tasks@[t],
                true,
            ),
        final(k).manager == old(k).manager,
        final(k).current == old(k).current,
        final(k).semaphore_list == old(k).semaphore_list,
        final(k).semaphore_status == old(k).semaphore_status,
        final(k).semaphore_cap == old(k).semaphore_cap,
        final(k).condvar_list == old(k).condvar_list,
        final(k).deadlock_detect_enable == old(k).deadlock_detect_enable,
        final(k).time_us == old(k).time_us,
        final(k).timers == old(k).timers,
        final(k).apps == old(k).apps,
        final(k).mapped_pages == old(k).mapped_pages,
{
    let n = k.mutex_list.len();
    let mut i: usize = 0;
    while i < n
        invariant
            old(k).wf(),
            k == old(k),
            n == k.mutex_list.len(),
        decreases n - i,
    {
        if k.mutex_list[i].is_none() {
            proof {
                assert(old(k).mutex_ok(i as int));
            }
            k.mutex_list.set(
                i,
                Some(MutexState { blocking, locked: false, wait_queue: Vec::new() }),
            );
            return i as isize;
        }
        i = i + 1;
    }
    k.mutex_list.push(Some(MutexState { blocking, locked: false, wait_queue: Vec::new() }));
    k.mutex_status.push(1);
    grow_ledgers(&mut k.tasks, true);
    proof {
        let a = *old(k);
        let id = a.mutex_list@.len() as int;
        assert forall|t: int| k.live(t) implies #[trigger] k.task_ok(t) by {
            assert(a.task_ok(t));
            assert(grown(a.tasks@[t], k.tasks@[t], true));
            let rx = a.tasks@[t]->Some_0.res->Some_0;
            let ry = k.tasks@[t]->Some_0.res->Some_0;
            if a.tasks@[t]->Some_0.res is Some {
                assert forall|j: int|
                    0 <= j < ry.mutex_need@.len() && #[trigger] ry.mutex_need@[j] != 0 implies {
                    &&& k.tasks@[t]->Some_0.task_status == TaskStatus::Blocked
                    &&& k.tasks@[t]->Some_0.blocked_on@ == Some(WaitTarget::OnMutex(j as usize))
                    &&& ry.mutex_need@[j] == 1
                } by {
                    assert(j < rx.mutex_need@.len() + 1);
                    if j < rx.mutex_need@.len() {
                        assert(rx.mutex_need@[j] != 0);
                    } else {
                        assert(ry.mutex_need@[j] == 0);
                    }
                }
            }
        }
        assert forall|x: int| 0 <= x < k.manager.ready_queue@.len() implies
            #[trigger] k.ready_ok(x) by {
            assert(a.ready_ok(x));
            assert(grown(a.tasks@[a.manager.ready_queue@[x] as int], k.tasks@[a.manager.ready_queue@[x] as int], true));
        }
        assert forall|mi: int| 0 <= mi < k.mutex_list@.len() implies #[trigger] k.mutex_ok(mi) by {
            if mi < id {
                assert(a.mutex_ok(mi));
                let m = k.mutex_list@[mi]->Some_0;
                assert forall|x: int| 0 <= x < m.wait_queue@.len() implies k.mutex_waiter_ok(
                    mi,
                    #[trigger] m.wait_queue@[x] as int,
                ) by {
                    let w = m.wait_queue@[x] as int;
                    assert(a.mutex_waiter_ok(mi, w));
                    assert(a.task_ok(w));
                    assert(grown(a.tasks@[w], k.tasks@[w], true));
                }
            } else {
                assert(k.mutex_list@[mi]->Some_0.wait_queue@.len() == 0);
            }
        }
        assert forall|si: int| 0 <= si < k.semaphore_list@.len() implies #[trigger] k.sem_ok(si) by {
            assert(a.sem_ok(si));
            let s = k.semaphore_list@[si]->Some_0;
            assert forall|x: int| 0 <= x < s.wait_queue@.len() implies k.sem_waiter_ok(
                si,
                #[trigger] s.wait_queue@[x] as int,
            ) by {
                let w = s.wait_queue@[x] as int;
                assert(a.sem_waiter_ok(si, w));
                assert(a.task_ok(w));
                assert(grown(a.tasks@[w], k.tasks@[w], true));
            }
        }
        assert forall|ci: int| 0 <= ci < k.condvar_list@.len() implies #[trigger] k.condvar_ok(ci)
            by {
            assert(a.condvar_ok(ci));
            let cv = k.condvar_list@[ci]->Some_0;
            assert forall|x: int| 0 <= x < cv.wait_queue@.len() implies k.condvar_waiter_ok(
                ci,
                #[trigger] cv.wait_queue@[x] as int,
            ) by {
                let w = cv.wait_queue@[x] as int;
                assert(a.condvar_waiter_ok(ci, w));
                assert(grown(a.tasks@[w], k.tasks@[w], true));
            }
        }
        assert forall|x: int| 0 <= x < k.timers@.len() implies #[trigger] k.timer_ok(x) by {
            assert(a.timer_ok(x));
            assert(grown(a.tasks@[k.timers@[x].1 as int], k.tasks@[k.timers@[x].1 as int], true));
        }
        assert forall|mi: int| 0 <= mi < k.mutex_status@.len() implies
            #[trigger] k.mutex_status@[mi] + sum_have(k.tasks@, true, mi) == 1 by {
            if mi < id {
                assert forall|t: int|
                    0 <= t < k.tasks@.len() implies res_have(#[trigger] k.tasks@[t], true, mi)
                    == res_have(a.tasks@[t], true, mi) by {
                    assert(grown(a.tasks@[t], k.tasks@[t], true));
                }
                lemma_sum_have_congruence(a.tasks@, k.tasks@, true, mi);
            } else {
                assert forall|t: int|
                    0 <= t < k.tasks@.len() implies res_have(#[trigger] k.tasks@[t], true, mi)
                    == 0 by {
                    assert(grown(a.tasks@[t], k.tasks@[t], true));
                    assert(a.task_ok(t) || !a.live(t));
                }
                lemma_sum_have_zero(k.tasks@, true, mi);
            }
        }
        assert forall|si: int| 0 <= si < k.semaphore_status@.len() implies
            #[trigger] k.semaphore_status@[si] + sum_have(k.tasks@, false, si)
            == k.semaphore_cap@[si] by {
            assert forall|t: int|
                0 <= t < k.tasks@.len() implies res_have(#[trigger] k.tasks@[t], false, si)
                == res_have(a.tasks@[t], false, si) by {
                assert(grown(a.tasks@[t], k.tasks@[t], true));
            }
            lemma_sum_have_congruence(a.tasks@, k.tasks@, false, si);
        }
    }
    (n) as isize
}

/// Re-establishes the invariant pieces that do not read the fields a purely
/// scalar change touched.
proof fn lemma_wf_same_tables(a: Kernel, b: Kernel)
    requires
        a.wf(),
        b.tasks == a.tasks,
        b.manager == a.manager,
        b.current == a.current,
        b.mutex_list == a.mutex_list,
        b.mutex_status == a.mutex_status,
        b.semaphore_list == a.semaphore_list,
        b.semaphore_status == a.semaphore_status,
        b.semaphore_cap == a.semaphore_cap,
        b.condvar_list == a.condvar_list,
        b.timers == a.timers,
    ensures
        b.wf(),
{
    assert forall|t: int| b.live(t) implies #[trigger] b.task_ok(t) by {
        assert(a.task_ok(t));
    }
    assert forall|i: int| 0 <= i < b.manager.ready_queue@.len() implies #[trigger] b.ready_ok(i)
        by {
        assert(a.ready_ok(i));
    }
    assert forall|mi: int| 0 <= mi < b.mutex_list@.len() implies #[trigger] b.mutex_ok(mi) by {
        assert(a.mutex_ok(mi));
    }
    assert forall|si: int| 0 <= si < b.semaphore_list@.len() implies #[trigger] b.sem_ok(si) by {
        assert(a.sem_ok(si));
    }
    assert forall|ci: int| 0 <= ci < b.condvar_list@.len() implies #[trigger] b.condvar_ok(ci) by {
        assert(a.condvar_ok(ci));
    }
    assert forall|x: int| 0 <= x < b.timers@.len() implies #[trigger] b.timer_ok(x) by {
        assert(a.timer_ok(x));
    }
}

/// Creates a new counting semaphore slot with `res_count` initially
/// available units. A freed slot would be reused; since no operation of this
/// interface frees one, a new slot is appended and every task's semaphore
/// ledger grows by one aligned zero entry. Returns the slot index.
pub fn sys_semaphore_create(k: &mut Kernel, res_count: usize) -> (r: isize)
    requires
        old(k).wf(),
        old(k).semaphore_list@.len() < isize::MAX,
    ensures
        final(k).wf(),
        r == old(k).semaphore_list@.len() as isize,
        final(k).semaphore_list@.len() == old(k).semaphore_list@.len() + 1,
        final(k).semaphore_list@[r as int] is Some,
        final(k).semaphore_list@[r as int]->Some_0.count == res_count,
        final(k).semaphore_list@[r as int]->Some_0.wait_queue@.len() == 0,
        forall|i: int|
            0 <= i < old(k).semaphore_list@.len() ==> #[trigger] final(k).semaphore_list@[i]
                == old(k).semaphore_list@[i],
        final(k).semaphore_status@ == old(k).semaphore_status@.push(res_count),
        final(k).semaphore_cap@ == old(k).semaphore_cap@.push(res_count as int),
        final(k).tasks@.len() == old(k).tasks@.len(),
        forall|t: int|
            0 <= t < old(k).tasks@.len() ==> grown(
                old(k).tasks@[t],
                #[trigger] final(k).tasks@[t],
                false,
            ),
        final(k).manager == old(k).manager,
        final(k).current == old(k).current,
        final(k).mutex_list == old(k).mutex_list,
        final(k).mutex_status == old(k).mutex_status,
        final(k).condvar_list == old(k).condvar_list,
        final(k).deadlock_detect_enable == old(k).deadlock_detect_enable,
        final(k).time_us == old(k).time_us,
        final(k).timers == old(k).timers,
        final(k).apps == old(k).apps,
        final(k).mapped_pages == old(k).mapped_pages,
{
    let n = k.semaphore_list.len();
    let mut i: usize = 0;
    while i < n
        invariant
            old(k).wf(),
            k == old(k),
            n == k.semaphore_list.len(),
        decreases n - i,
    {
        if k.semaphore_list[i].is_none() {
            proof {
                assert(old(k).sem_ok(i as int));
            }
            k.semaphore_list.set(i, Some(Semaphore { count: res_count, wait_queue: Vec::new() }));
            return i as isize;
        }
        i = i + 1;
    }
    k.semaphore_list.push(Some(Semaphore { count: res_count, wait_queue: Vec::new() }));
    k.semaphore_status.push(res_count);
    proof {
        k.semaphore_cap@ = k.semaphore_cap@.push(res_count as int);
    }
    grow_ledgers(&mut k.tasks, false);
    proof {
        let a = *old(k);
        let id = a.semaphore_list@.len() as int;
        assert forall|t: int| k.live(t) implies #[trigger] k.task_ok(t) by {
            assert(a.task_ok(t));
            assert(grown(a.tasks@[t], k.tasks@[t], false));
            let rx = a.tasks@[t]->Some_0.res->Some_0;
            let ry = k.tasks@[t]->Some_0.res->Some_0;
            if a.tasks@[t]->Some_0.res is Some {
                assert forall|j: int|
                    0 <= j < ry.semaphore_need@.len() && #[trigger] ry.semaphore_need@[j]
                    != 0 implies {
                    &&& k.tasks@[t]->Some_0.task_status == TaskStatus::Blocked
                    &&& k.tasks@[t]->Some_0.blocked_on@ == Some(
                        WaitTarget::OnSemaphore(j as usize),
                    )
                    &&& ry.semaphore_need@[j] == 1
                } by {
                    if j < rx.semaphore_need@.len() {
                        assert(rx.semaphore_need@[j] != 0);
                    } else {
                        assert(ry.semaphore_need@[j] == 0);
                    }
                }
            }
        }
        assert forall|x: int| 0 <= x < k.manager.ready_queue@.len() implies
            #[trigger] k.ready_ok(x) by {
            assert(a.ready_ok(x));
            assert(grown(
                a.tasks@[a.manager.ready_queue@[x] as int],
                k.tasks@[a.manager.ready_queue@[x] as int],
                false,
            ));
        }
        assert forall|mi: int| 0 <= mi < k.mutex_list@.len() implies #[trigger] k.mutex_ok(mi) by {
            assert(a.mutex_ok(mi));
            let m = k.mutex_list@[mi]->Some_0;
            assert forall|x: int| 0 <= x < m.wait_queue@.len() implies k.mutex_waiter_ok(
                mi,
                #[trigger] m.wait_queue@[x] as int,
            ) by {
                let w = m.wait_queue@[x] as int;
                assert(a.mutex_waiter_ok(mi, w));
                assert(a.task_ok(w));
                assert(grown(a.tasks@[w], k.tasks@[w], false));
            }
        }
        assert forall|si: int| 0 <= si < k.semaphore_list@.len() implies #[trigger] k.sem_ok(si)
            by {
            if si < id {
                assert(a.sem_ok(si));
                let s = k.semaphore_list@[si]->Some_0;
                assert forall|x: int| 0 <= x < s.wait_queue@.len() implies k.sem_waiter_ok(
                    si,
                    #[trigger] s.wait_queue@[x] as int,
                ) by {
                    let w = s.wait_queue@[x] as int;
                    assert(a.sem_waiter_ok(si, w));
                    assert(a.task_ok(w));
                    assert(grown(a.tasks@[w], k.tasks@[w], false));
                }
            } else {
                assert(k.semaphore_list@[si]->Some_0.wait_queue@.len() == 0);
            }
        }
        assert forall|ci: int| 0 <= ci < k.condvar_list@.len() implies #[trigger] k.condvar_ok(ci)
            by {
            assert(a.condvar_ok(ci));
            let cv = k.condvar_list@[ci]->Some_0;
            assert forall|x: int| 0 <= x < cv.wait_queue@.len() implies k.condvar_waiter_ok(
                ci,
                #[trigger] cv.wait_queue@[x] as int,
            ) by {
                let w = cv.wait_queue@[x] as int;
                assert(a.condvar_waiter_ok(ci, w));
                assert(grown(a.tasks@[w], k.tasks@[w], false));
            }
        }
        assert forall|x: int| 0 <= x < k.timers@.len() implies #[trigger] k.timer_ok(x) by {
            assert(a.timer_ok(x));
            assert(grown(a.tasks@[k.timers@[x].1 as int], k.tasks@[k.timers@[x].1 as int], false));
        }
        assert forall|mi: int| 0 <= mi < k.mutex_status@.len() implies
            #[trigger] k.mutex_status@[mi] + sum_have(k.tasks@, true, mi) == 1 by {
            assert forall|t: int|
                0 <= t < k.tasks@.len() implies res_have(#[trigger] k.tasks@[t], true, mi)
                == res_have(a.tasks@[t], true, mi) by {
                assert(grown(a.tasks@[t], k.tasks@[t], false));
            }
            lemma_sum_have_congruence(a.tasks@, k.tasks@, true, mi);
        }
        assert forall|si: int| 0 <= si < k.semaphore_status@.len() implies
            #[trigger] k.semaphore_status@[si] + sum_have(k.tasks@, false, si)
            == k.semaphore_cap@[si] by {
            if si < id {
                assert forall|t: int|
                    0 <= t < k.tasks@.len() implies res_have(#[trigger] k.tasks@[t], false, si)
                    == res_have(a.tasks@[t], false, si) by {
                    assert(grown(a.tasks@[t], k.tasks@[t], false));
                }
                lemma_sum_have_congruence(a.tasks@, k.tasks@, false, si);
            } else {
                assert forall|t: int|
                    0 <= t < k.tasks@.len() implies res_have(#[trigger] k.tasks@[t], false, si)
                    == 0 by {
                    assert(grown(a.tasks@[t], k.tasks@[t], false));
                    assert(a.task_ok(t) || !a.live(t));
                }
                lemma_sum_have_zero(k.tasks@, false, si);
            }
        }
    }
    (n) as isize
}

/// Creates a new condition-variable slot and returns its index. A freed slot
/// would be reused; none ever is, so a new slot is appended. Condition
/// variables carry no resource units, so no ledger grows.
pub fn sys_condvar_create(k: &mut Kernel) -> (r: isize)
    requires
        old(k).wf(),
        old(k).condvar_list@.len() < isize::MAX,
    ensures
        final(k).wf(),
        r == old(k).condvar_list@.len() as isize,
        final(k).condvar_list@.len() == old(k).condvar_list@.len() + 1,
        final(k).condvar_list@[r as int] is Some,
        final(k).condvar_list@[r as int]->Some_0.wait_queue@.len() == 0,
        forall|i: int|
            0 <= i < old(k).condvar_list@.len() ==> #[trigger] final(k).condvar_list@[i] == old(
                k,
            ).condvar_list@[i],
        final(k).tasks == old(k).tasks,
        final(k).manager == old(k).manager,
        final(k).current == old(k).current,
        final(k).mutex_list == old(k).mutex_list,
        final(k).mutex_status == old(k).mutex_status,
        final(k).semaphore_list == old(k).semaphore_list,
        final(k).semaphore_status == old(k).semaphore_status,
        final(k).semaphore_cap == old(k).semaphore_cap,
        final(k).deadlock_detect_enable == old(k).deadlock_detect_enable,
        final(k).time_us == old(k).time_us,
        final(k).timers == old(k).timers,
        final(k).apps == old(k).apps,
        final(k).mapped_pages == old(k).mapped_pages,
{
    let n = k.condvar_list.len();
    let mut i: usize = 0;
    while i < n
        invariant
            old(k).wf(),
            k == old(k),
            n == k.condvar_list.len(),
        decreases n - i,
    {
        if k.condvar_list[i].is_none() {
            proof {
                assert(old(k).condvar_ok(i as int));
            }
            k.condvar_list.set(i, Some(Condvar { wait_queue: Vec::new() }));
            return i as isize;
        }
        i = i + 1;
    }
    k.condvar_list.push(Some(Condvar { wait_queue: Vec::new() }));
    proof {
        let a = *old(k);
        assert forall|t: int| k.live(t) implies #[trigger] k.task_ok(t) by {
            assert(a.task_ok(t));
        }
        assert forall|x: int| 0 <= x < k.manager.ready_queue@.len() implies
            #[trigger] k.ready_ok(x) by {
            assert(a.ready_ok(x));
        }
        assert forall|mi: int| 0 <= mi < k.mutex_list@.len() implies #[trigger] k.mutex_ok(mi) by {
            assert(a.mutex_ok(mi));
        }
        assert forall|si: int| 0 <= si < k.semaphore_list@.len() implies #[trigger] k.sem_ok(si)
            by {
            assert(a.sem_ok(si));
        }
        assert forall|ci: int| 0 <= ci < k.condvar_list@.len() implies #[trigger] k.condvar_ok(ci)
            by {
            if ci < a.condvar_list@.len() {
                assert(a.condvar_ok(ci));
            } else {
                assert(k.condvar_list@[ci]->Some_0.wait_queue@.len() == 0);
            }
        }
        assert forall|x: int| 0 <= x < k.timers@.len() implies #[trigger] k.timer_ok(x) by {
            assert(a.timer_ok(x));
        }
    }
    (n) as isize
}

/// Wakes the head of the condition variable's FIFO wait list, if any; a
/// signal with no waiter is a no-op. Returns 0, or -1 for an unknown handle.
pub fn sys_condvar_signal(k: &mut Kernel, condvar_id: usize) -> (r: isize)
    requires
        old(k).wf(),
    ensures
        final(k).wf(),
        r == if condvar_id < old(k).condvar_list@.len() {
            0isize
        } else {
            -1isize
        },
        condvar_id >= old(k).condvar_list@.len() ==> *final(k) == *old(k),
        condvar_id < old(k).condvar_list@.len() && old(
            k,
        ).condvar_list@[condvar_id as int]->Some_0.wait_queue@.len() == 0 ==> *final(k) == *old(k),
        condvar_id < old(k).condvar_list@.len() && old(
            k,
        ).condvar_list@[condvar_id as int]->Some_0.wait_queue@.len() > 0 ==> {
            let wq = old(k).condvar_list@[condvar_id as int]->Some_0.wait_queue@;
            let w = wq[0];
            &&& final(k).condvar_list@ == old(k).condvar_list@.update(
                condvar_id as int,
                Some((Condvar { wait_queue: final(k).condvar_list@[condvar_id as int]->Some_0.wait_queue })),
            )
            &&& final(k).condvar_list@[condvar_id as int]->Some_0.wait_queue@ == wq.remove(0)
            &&& final(k).tasks@ == old(k).tasks@.update(
                w as int,
                Some(
                    (TaskControlBlock {
                        task_status: TaskStatus::Ready,
                        blocked_on: Ghost(None),
                        ..old(k).tasks@[w as int]->Some_0
                    }),
                ),
            )
            &&& final(k).manager.ready_queue@ == old(k).manager.ready_queue@.push(w)
            &&& final(k).current == old(k).current
            &&& final(k).mutex_list == old(k).mutex_list
            &&& final(k).mutex_status == old(k).mutex_status
            &&& final(k).semaphore_list == old(k).semaphore_list
            &&& final(k).semaphore_status == old(k).semaphore_status
            &&& final(k).semaphore_cap == old(k).semaphore_cap
            &&& final(k).deadlock_detect_enable == old(k).deadlock_detect_enable
            &&& final(k).time_us == old(k).time_us
            &&& final(k).timers == old(k).timers
            &&& final(k).apps == old(k).apps
            &&& final(k).mapped_pages == old(k).mapped_pages
        },
{
    if condvar_id >= k.condvar_list.len() {
        return -1;
    }
    let has_waiter = match &k.condvar_list[condvar_id] {
        Some(cv) => cv.wait_queue.len() > 0,
        None => vstd::pervasive::unreached(),
    };
    if !has_waiter {
        return 0;
    }
    proof {
        assert(old(k).condvar_ok(condvar_id as int));
    }
    let cv = condvar_mut(&mut k.condvar_list, condvar_id);
    let w = cv.wait_queue.remove(0);
    proof {
        let a = *old(k);
        let wq = a.condvar_list@[condvar_id as int]->Some_0.wait_queue@;
        assert(a.condvar_waiter_ok(condvar_id as int, w as int));
        assert forall|i: int|
            0 <= i < k.manager.ready_queue@.len() implies #[trigger] k.manager.ready_queue@[i]
            != w by {
            assert(a.ready_ok(i));
        }
    }
    k.wake_task(w);
    proof {
        let a = *old(k);
        let ci0 = condvar_id as int;
        let wq = a.condvar_list@[ci0]->Some_0.wait_queue@;
        wq.remove_ensures(0);
        assert(a.condvar_waiter_ok(ci0, w as int));
        let vfinal = k.tasks@[w as int];
        assert forall|t: int| k.live(t) implies #[trigger] k.task_ok(t) by {
            assert(a.task_ok(t));
        }
        assert forall|i: int| 0 <= i < k.manager.ready_queue@.len() implies
            #[trigger] k.ready_ok(i) by {
            if i < a.manager.ready_queue@.len() {
                assert(a.ready_ok(i));
            }
        }
        assert forall|mi: int| 0 <= mi < k.mutex_list@.len() implies #[trigger] k.mutex_ok(mi) by {
            assert(a.mutex_ok(mi));
            let m = k.mutex_list@[mi]->Some_0;
            assert forall|x: int| 0 <= x < m.wait_queue@.len() implies k.mutex_waiter_ok(
                mi,
                #[trigger] m.wait_queue@[x] as int,
            ) by {
                assert(a.mutex_waiter_ok(mi, m.wait_queue@[x] as int));
            }
        }
        assert forall|si: int| 0 <= si < k.semaphore_list@.len() implies #[trigger] k.sem_ok(si)
            by {
            assert(a.sem_ok(si));
            let sv = k.semaphore_list@[si]->Some_0;
            assert forall|x: int| 0 <= x < sv.wait_queue@.len() implies k.sem_waiter_ok(
                si,
                #[trigger] sv.wait_queue@[x] as int,
            ) by {
                assert(a.sem_waiter_ok(si, sv.wait_queue@[x] as int));
            }
        }
        assert forall|ci: int| 0 <= ci < k.condvar_list@.len() implies #[trigger] k.condvar_ok(ci)
            by {
            assert(a.condvar_ok(ci));
            let cvv = k.condvar_list@[ci]->Some_0;
            assert forall|x: int| 0 <= x < cvv.wait_queue@.len() implies k.condvar_waiter_ok(
                ci,
                #[trigger] cvv.wait_queue@[x] as int,
            ) by {
                if ci == ci0 {
                    assert(cvv.wait_queue@[x] == wq[x + 1]);
                    assert(a.condvar_waiter_ok(ci, wq[x + 1] as int));
                    assert(wq[x + 1] != wq[0]);
                } else {
                    assert(a.condvar_waiter_ok(ci, cvv.wait_queue@[x] as int));
                }
            }
            if ci == ci0 {
                assert forall|x: int, y: int|
                    0 <= x < cvv.wait_queue@.len() && 0 <= y < cvv.wait_queue@.len() && x
                    != y implies cvv.wait_queue@[x] != cvv.wait_queue@[y] by {
                    assert(cvv.wait_queue@[x] == wq[x + 1] && cvv.wait_queue@[y] == wq[y + 1]);
                }
            }
        }
        assert forall|x: int| 0 <= x < k.timers@.len() implies #[trigger] k.timer_ok(x) by {
            assert(a.timer_ok(x));
        }
        assert forall|mi: int| 0 <= mi < k.mutex_status@.len() implies
            #[trigger] k.mutex_status@[mi] + sum_have(k.tasks@, true, mi) == 1 by {
            crate::ledger::lemma_sum_have_same_res(a.tasks@, true, mi, w as int, vfinal);
        }
        assert forall|si: int| 0 <= si < k.semaphore_status@.len() implies
            #[trigger] k.semaphore_status@[si] + sum_have(k.tasks@, false, si)
            == k.semaphore_cap@[si] by {
            crate::ledger::lemma_sum_have_same_res(a.tasks@, false, si, w as int, vfinal);
        }
        assert(k.condvar_list@ =~= a.condvar_list@.update(
            ci0,
            Some((Condvar { wait_queue: k.condvar_list@[ci0]->Some_0.wait_queue })),
        ));
    }
    0
}

/// Releases the mutex the calling task holds. With waiters queued, the lock
/// is handed directly to the head of the FIFO wait list, which is granted
/// the unit (its pending request is cleared) and woken; with no waiter the
/// lock becomes free and the availability counter returns to 1. Releasing a
/// unit not held is a kernel-contract violation and is excluded by contract.
/// Returns 0, or -1 for an unknown handle.
pub fn sys_mutex_unlock(k: &mut Kernel, mutex_id: usize) -> (r: isize)
    requires
        old(k).wf(),
        old(k).current is Some,
        mutex_id < old(k).mutex_list@.len() ==> old(k).task_at(old(k).cur()).res is Some && need_of(
            old(k).tasks@[old(k).cur()],
            true,
        ).len() > mutex_id && have_of(old(k).tasks@[old(k).cur()], true)[mutex_id as int] >= 1,
    ensures
        final(k).wf(),
        r == if mutex_id < old(k).mutex_list@.len() {
            0isize
        } else {
            -1isize
        },
        mutex_id >= old(k).mutex_list@.len() ==> *final(k) == *old(k),
        mutex_id < old(k).mutex_list@.len() ==> {
            let a = *old(k);
            let c = a.cur();
            let m = a.mutex_list@[mutex_id as int]->Some_0;
            let wq = m.wait_queue@;
            &&& final(k).current == a.current
            &&& final(k).semaphore_list == a.semaphore_list
            &&& final(k).semaphore_status == a.semaphore_status
            &&& final(k).semaphore_cap == a.semaphore_cap
            &&& final(k).condvar_list == a.condvar_list
            &&& final(k).deadlock_detect_enable == a.deadlock_detect_enable
            &&& final(k).time_us == a.time_us
            &&& final(k).timers == a.timers
            &&& final(k).apps == a.apps
            &&& final(k).mapped_pages == a.mapped_pages
            &&& final(k).tasks@.len() == a.tasks@.len()
            &&& if wq.len() == 0 {
                &&& final(k).manager == a.manager
                &&& final(k).mutex_status@ == a.mutex_status@.update(mutex_id as int, 1usize)
                &&& final(k).mutex_list@[mutex_id as int]->Some_0 == (MutexState {
                    locked: false,
                    ..m
                })
                &&& forall|i: int|
                    0 <= i < a.mutex_list@.len() && i != mutex_id
                        ==> #[trigger] final(k).mutex_list@[i] == a.mutex_list@[i]
                &&& forall|t: int|
                    0 <= t < a.tasks@.len() && t != c ==> #[trigger] final(k).tasks@[t]
                        == a.tasks@[t]
                &&& task_updated(
                    a.tasks@[c],
                    final(k).tasks@[c],
                    TaskStatus::Running,
                    a.task_at(c).blocked_on@,
                    need_of(a.tasks@[c], true),
                    have_of(a.tasks@[c], true).update(mutex_id as int, 0usize),
                    need_of(a.tasks@[c], false),
                    have_of(a.tasks@[c], false),
                )
            } else {
                let w = wq[0] as int;
                &&& final(k).manager.ready_queue@ == a.manager.ready_queue@.push(wq[0])
                &&& final(k).mutex_status@ == a.mutex_status@
                &&& final(k).mutex_list@[mutex_id as int]->Some_0.locked == m.locked
                &&& final(k).mutex_list@[mutex_id as int]->Some_0.blocking == m.blocking
                &&& final(k).mutex_list@[mutex_id as int]->Some_0.wait_queue@ == wq.remove(0)
                &&& forall|i: int|
                    0 <= i < a.mutex_list@.len() && i != mutex_id
                        ==> #[trigger] final(k).mutex_list@[i] == a.mutex_list@[i]
                &&& forall|t: int|
                    0 <= t < a.tasks@.len() && t != c && t != w ==> #[trigger] final(k).tasks@[t]
                        == a.tasks@[t]
                &&& task_updated(
                    a.tasks@[c],
                    final(k).tasks@[c],
                    TaskStatus::Running,
                    a.task_at(c).blocked_on@,
                    need_of(a.tasks@[c], true),
                    have_of(a.tasks@[c], true).update(mutex_id as int, 0usize),
                    need_of(a.tasks@[c], false),
                    have_of(a.tasks@[c], false),
                )
                &&& task_updated(
                    a.tasks@[w],
                    final(k).tasks@[w],
                    TaskStatus::Ready,
                    None,
                    need_of(a.tasks@[w], true).update(mutex_id as int, 0usize),
                    have_of(a.tasks@[w], true).update(mutex_id as int, 1usize),
                    need_of(a.tasks@[w], false),
                    have_of(a.tasks@[w], false),
                )
            }
        },
{
    if mutex_id >= k.mutex_list.len() {
        return -1;
    }
    let c = match k.current {
        Some(c) => c,
        None => vstd::pervasive::unreached(),
    };
    let ghost a = *old(k);
    let ghost mid = mutex_id as int;
    proof {
        assert(a.mutex_ok(mid));
        assert(a.live(c as int));
        assert(a.task_ok(c as int));
        lemma_sum_have_at_least(a.tasks@, true, mid, c as int);
        assert(res_have(a.tasks@[c as int], true, mid) >= 1);
        assert(a.mutex_status@[mid] == 0);
    }
    // The holder returns its unit.
    {
        let t = task_mut(&mut k.tasks, c);
        let rr = res_mut(t);
        let v = rr.mutex_have[mutex_id];
        rr.mutex_have.set(mutex_id, v - 1);
    }
    let ghost tc = k.tasks@;
    let ghost vc = k.tasks@[c as int];
    let has_waiter = match &k.mutex_list[mutex_id] {
        Some(m) => m.wait_queue.len() > 0,
        None => vstd::pervasive::unreached(),
    };
    if !has_waiter {
        // Nobody waits: the lock becomes free.
        let m = mutex_mut(&mut k.mutex_list, mutex_id);
        m.locked = false;
        k.mutex_status.set(mutex_id, 1);
        proof {
            assert forall|t: int| k.live(t) implies #[trigger] k.task_ok(t) by {
                assert(a.task_ok(t));
            }
            assert forall|i: int| 0 <= i < k.manager.ready_queue@.len() implies
                #[trigger] k.ready_ok(i) by {
                assert(a.ready_ok(i));
            }
            assert forall|mi: int| 0 <= mi < k.mutex_list@.len() implies #[trigger] k.mutex_ok(mi)
                by {
                assert(a.mutex_ok(mi));
                let m2 = k.mutex_list@[mi]->Some_0;
                assert forall|x: int| 0 <= x < m2.wait_queue@.len() implies k.mutex_waiter_ok(
                    mi,
                    #[trigger] m2.wait_queue@[x] as int,
                ) by {
                    assert(a.mutex_waiter_ok(mi, m2.wait_queue@[x] as int));
                    assert(a.task_ok(m2.wait_queue@[x] as int));
                }
            }
            assert forall|si: int| 0 <= si < k.semaphore_list@.len() implies #[trigger] k.sem_ok(
                si,
            ) by {
                assert(a.sem_ok(si));
                let sv = k.semaphore_list@[si]->Some_0;
                assert forall|x: int| 0 <= x < sv.wait_queue@.len() implies k.sem_waiter_ok(
                    si,
                    #[trigger] sv.wait_queue@[x] as int,
                ) by {
                    assert(a.sem_waiter_ok(si, sv.wait_queue@[x] as int));
                }
            }
            assert forall|ci: int| 0 <= ci < k.condvar_list@.len() implies #[trigger] k.condvar_ok(
                ci,
            ) by {
                assert(a.condvar_ok(ci));
                let cvv = k.condvar_list@[ci]->Some_0;
                assert forall|x: int| 0 <= x < cvv.wait_queue@.len() implies k.condvar_waiter_ok(
                    ci,
                    #[trigger] cvv.wait_queue@[x] as int,
                ) by {
                    assert(a.condvar_waiter_ok(ci, cvv.wait_queue@[x] as int));
                }
            }
            assert forall|x: int| 0 <= x < k.timers@.len() implies #[trigger] k.timer_ok(x) by {
                assert(a.timer_ok(x));
            }
            assert forall|mi: int| 0 <= mi < k.mutex_status@.len() implies
                #[trigger] k.mutex_status@[mi] + sum_have(k.tasks@, true, mi) == 1 by {
                crate::ledger::lemma_sum_have_update(a.tasks@, true, mi, c as int, vc);
                if mi != mid {
                    assert(res_have(vc, true, mi) == res_have(a.tasks@[c as int], true, mi));
                } else {
                    assert(res_have(vc, true, mid) == res_have(a.tasks@[c as int], true, mid) - 1);
                }
            }
            assert forall|si: int| 0 <= si < k.semaphore_status@.len() implies
                #[trigger] k.semaphore_status@[si] + sum_have(k.tasks@, false, si)
                == k.semaphore_cap@[si] by {
                crate::ledger::lemma_sum_have_same_class(a.tasks@, false, si, c as int, vc);
            }
        }
        return 0;
    }
    // Hand the lock straight to the longest-waiting task.
    let w = {
        let m = mutex_mut(&mut k.mutex_list, mutex_id);
        m.wait_queue.remove(0)
    };
    proof {
        let wq = a.mutex_list@[mid]->Some_0.wait_queue@;
        assert(a.mutex_waiter_ok(mid, w as int));
        assert(a.task_ok(w as int));
        assert(w != c) by {
            assert(a.status_at(w as int) == TaskStatus::Blocked);
        }
        lemma_sum_have_two(a.tasks@, true, mid, c as int, w as int);
        assert(res_have(a.tasks@[w as int], true, mid) == 0);
    }
    {
        let t = task_mut(&mut k.tasks, w);
        let rr = res_mut(t);
        let hv = rr.mutex_have[mutex_id];
        rr.mutex_have.set(mutex_id, hv + 1);
        let nv = rr.mutex_need[mutex_id];
        rr.mutex_need.set(mutex_id, nv - 1);
    }
    proof {
        assert forall|i: int| 0 <= i < k.manager.ready_queue@.len() implies
            #[trigger] k.manager.ready_queue@[i] != w by {
            assert(a.ready_ok(i));
        }
    }
    k.wake_task(w);
    proof {
        let wq = a.mutex_list@[mid]->Some_0.wait_queue@;
        wq.remove_ensures(0);
        let vw = k.tasks@[w as int];
        assert(k.tasks@ =~= tc.update(w as int, vw));
        assert forall|t: int| k.live(t) implies #[trigger] k.task_ok(t) by {
            assert(a.task_ok(t));
        }
        assert forall|i: int| 0 <= i < k.manager.ready_queue@.len() implies #[trigger] k.ready_ok(
            i,
        ) by {
            if i < a.manager.ready_queue@.len() {
                assert(a.ready_ok(i));
            }
        }
        assert forall|mi: int| 0 <= mi < k.mutex_list@.len() implies #[trigger] k.mutex_ok(mi) by {
            assert(a.mutex_ok(mi));
            let m2 = k.mutex_list@[mi]->Some_0;
            assert forall|x: int| 0 <= x < m2.wait_queue@.len() implies k.mutex_waiter_ok(
                mi,
                #[trigger] m2.wait_queue@[x] as int,
            ) by {
                if mi == mid {
                    assert(m2.wait_queue@[x] == wq[x + 1]);
                    assert(a.mutex_waiter_ok(mi, wq[x + 1] as int));
                    assert(a.task_ok(wq[x + 1] as int));
                    assert(wq[x + 1] != wq[0]);
                } else {
                    assert(a.mutex_waiter_ok(mi, m2.wait_queue@[x] as int));
                    assert(a.task_ok(m2.wait_queue@[x] as int));
                    assert(m2.wait_queue@[x] != wq[0]) by {
                        assert(a.task_at(m2.wait_queue@[x] as int).blocked_on@ == Some(
                            WaitTarget::OnMutex(mi as usize),
                        ));
                        assert(a.task_at(wq[0] as int).blocked_on@ == Some(
                            WaitTarget::OnMutex(mutex_id),
                        ));
                    }
                }
            }
            if mi == mid {
                assert forall|x: int, y: int|
                    0 <= x < m2.wait_queue@.len() && 0 <= y < m2.wait_queue@.len() && x
                    != y implies m2.wait_queue@[x] != m2.wait_queue@[y] by {
                    assert(m2.wait_queue@[x] == wq[x + 1] && m2.wait_queue@[y] == wq[y + 1]);
                }
            }
        }
        assert forall|si: int| 0 <= si < k.semaphore_list@.len() implies #[trigger] k.sem_ok(si)
            by {
            assert(a.sem_ok(si));
            let sv = k.semaphore_list@[si]->Some_0;
            assert forall|x: int| 0 <= x < sv.wait_queue@.len() implies k.sem_waiter_ok(
                si,
                #[trigger] sv.wait_queue@[x] as int,
            ) by {
                assert(a.sem_waiter_ok(si, sv.wait_queue@[x] as int));
                assert(sv.wait_queue@[x] != wq[0]) by {
                    assert(a.task_at(sv.wait_queue@[x] as int).blocked_on@ == Some(
                        WaitTarget::OnSemaphore(si as usize),
                    ));
                }
            }
        }
        assert forall|ci: int| 0 <= ci < k.condvar_list@.len() implies #[trigger] k.condvar_ok(ci)
            by {
            assert(a.condvar_ok(ci));
            let cvv = k.condvar_list@[ci]->Some_0;
            assert forall|x: int| 0 <= x < cvv.wait_queue@.len() implies k.condvar_waiter_ok(
                ci,
                #[trigger] cvv.wait_queue@[x] as int,
            ) by {
                assert(a.condvar_waiter_ok(ci, cvv.wait_queue@[x] as int));
                assert(cvv.wait_queue@[x] != wq[0]) by {
                    assert(a.task_at(cvv.wait_queue@[x] as int).blocked_on@ == Some(
                        WaitTarget::OnCondvar(ci as usize),
                    ));
                }
            }
        }
        assert forall|x: int| 0 <= x < k.timers@.len() implies #[trigger] k.timer_ok(x) by {
            assert(a.timer_ok(x));
            assert(k.timers@[x].1 != wq[0]) by {
                assert(a.task_at(k.timers@[x].1 as int).blocked_on@ == Some(WaitTarget::Sleeping));
            }
        }
        assert forall|mi: int| 0 <= mi < k.mutex_status@.len() implies
            #[trigger] k.mutex_status@[mi] + sum_have(k.tasks@, true, mi) == 1 by {
            crate::ledger::lemma_sum_have_update(a.tasks@, true, mi, c as int, vc);
            crate::ledger::lemma_sum_have_update(tc, true, mi, w as int, vw);
            if mi != mid {
                assert(res_have(vc, true, mi) == res_have(a.tasks@[c as int], true, mi));
                assert(res_have(vw, true, mi) == res_have(tc[w as int], true, mi));
            } else {
                assert(res_have(vc, true, mid) == res_have(a.tasks@[c as int], true, mid) - 1);
                assert(res_have(vw, true, mid) == res_have(tc[w as int], true, mid) + 1);
            }
        }
        assert forall|si: int| 0 <= si < k.semaphore_status@.len() implies
            #[trigger] k.semaphore_status@[si] + sum_have(k.tasks@, false, si)
            == k.semaphore_cap@[si] by {
            crate::ledger::lemma_sum_have_same_class(a.tasks@, false, si, c as int, vc);
            crate::ledger::lemma_sum_have_same_class(tc, false, si, w as int, vw);
        }
    }
    0
}

/// Releases one semaphore unit the calling task holds. With waiters queued,
/// the unit is handed directly to the head of the FIFO wait list, which is
/// granted it (its pending request is cleared) and woken; with no waiter the
/// available count grows by one. Releasing a unit not held is a
/// kernel-contract violation and is excluded by contract. Returns 0, or -1
/// for an unknown handle.
pub fn sys_semaphore_up(k: &mut Kernel, sem_id: usize) -> (r: isize)
    requires
        old(k).wf(),
        old(k).current is Some,
        sem_id < old(k).semaphore_list@.len() ==> old(k).task_at(old(k).cur()).res is Some
            && need_of(old(k).tasks@[old(k).cur()], false).len() > sem_id && have_of(
            old(k).tasks@[old(k).cur()],
            false,
        )[sem_id as int] >= 1,
    ensures
        final(k).wf(),
        r == if sem_id < old(k).semaphore_list@.len() {
            0isize
        } else {
            -1isize
        },
        sem_id >= old(k).semaphore_list@.len() ==> *final(k) == *old(k),
        sem_id < old(k).semaphore_list@.len() ==> {
            let a = *old(k);
            let c = a.cur();
            let s = a.semaphore_list@[sem_id as int]->Some_0;
            let wq = s.wait_queue@;
            &&& final(k).current == a.current
            &&& final(k).mutex_list == a.mutex_list
            &&& final(k).mutex_status == a.mutex_status
            &&& final(k).semaphore_cap == a.semaphore_cap
            &&& final(k).condvar_list == a.condvar_list
            &&& final(k).deadlock_detect_enable == a.deadlock_detect_enable
            &&& final(k).time_us == a.time_us
            &&& final(k).timers == a.timers
            &&& final(k).apps == a.apps
            &&& final(k).mapped_pages == a.mapped_pages
            &&& final(k).tasks@.len() == a.tasks@.len()
            &&& if wq.len() == 0 {
                &&& final(k).manager == a.manager
                &&& final(k).semaphore_status@ == a.semaphore_status@.update(
                    sem_id as int,
                    ((a.semaphore_status@[sem_id as int] + 1) as usize),
                )
                &&& final(k).semaphore_list@[sem_id as int]->Some_0.count == s.count + 1
                &&& final(k).semaphore_list@[sem_id as int]->Some_0.wait_queue@ == wq
                &&& forall|i: int|
                    0 <= i < a.semaphore_list@.len() && i != sem_id
                        ==> #[trigger] final(k).semaphore_list@[i] == a.semaphore_list@[i]
                &&& forall|t: int|
                    0 <= t < a.tasks@.len() && t != c ==> #[trigger] final(k).tasks@[t]
                        == a.tasks@[t]
                &&& task_updated(
                    a.tasks@[c],
                    final(k).tasks@[c],
                    TaskStatus::Running,
                    a.task_at(c).blocked_on@,
                    need_of(a.tasks@[c], true),
                    have_of(a.tasks@[c], true),
                    need_of(a.tasks@[c], false),
                    have_of(a.tasks@[c], false).update(
                        sem_id as int,
                        ((have_of(a.tasks@[c], false)[sem_id as int] - 1) as usize),
                    ),
                )
            } else {
                let w = wq[0] as int;
                &&& final(k).manager.ready_queue@ == a.manager.ready_queue@.push(wq[0])
                &&& final(k).semaphore_status@ == a.semaphore_status@
                &&& final(k).semaphore_list@[sem_id as int]->Some_0.count == s.count
                &&& final(k).semaphore_list@[sem_id as int]->Some_0.wait_queue@ == wq.remove(0)
                &&& forall|i: int|
                    0 <= i < a.semaphore_list@.len() && i != sem_id
                        ==> #[trigger] final(k).semaphore_list@[i] == a.semaphore_list@[i]
                &&& forall|t: int|
                    0 <= t < a.tasks@.len() && t != c && t != w ==> #[trigger] final(k).tasks@[t]
                        == a.tasks@[t]
                &&& task_updated(
                    a.tasks@[c],
                    final(k).tasks@[c],
                    TaskStatus::Running,
                    a.task_at(c).blocked_on@,
                    need_of(a.tasks@[c], true),
                    have_of(a.tasks@[c], true),
                    need_of(a.tasks@[c], false),
                    have_of(a.tasks@[c], false).update(
                        sem_id as int,
                        ((have_of(a.tasks@[c], false)[sem_id as int] - 1) as usize),
                    ),
                )
                &&& task_updated(
                    a.tasks@[w],
                    final(k).tasks@[w],
                    TaskStatus::Ready,
                    None,
                    need_of(a.tasks@[w], true),
                    have_of(a.tasks@[w], true),
                    need_of(a.tasks@[w], false).update(sem_id as int, 0usize),
                    have_of(a.tasks@[w], false).update(
                        sem_id as int,
                        ((have_of(a.tasks@[w], false)[sem_id as int] + 1) as usize),
                    ),
                )
            }
        },
{
    if sem_id >= k.semaphore_list.len() {
        return -1;
    }
    let c = match k.current {
        Some(c) => c,
        None => vstd::pervasive::unreached(),
    };
    let ghost a = *old(k);
    let ghost sid = sem_id as int;
    proof {
        assert(a.sem_ok(sid));
        assert(a.live(c as int));
        assert(a.task_ok(c as int));
        lemma_sum_have_at_least(a.tasks@, false, sid, c as int);
        assert(res_have(a.tasks@[c as int], false, sid) >= 1);
    }
    // The caller returns its unit.
    {
        let t = task_mut(&mut k.tasks, c);
        let rr = res_mut(t);
        let v = rr.semaphore_have[sem_id];
        rr.semaphore_have.set(sem_id, v - 1);
    }
    let ghost tc = k.tasks@;
    let ghost vc = k.tasks@[c as int];
    let has_waiter = match &k.semaphore_list[sem_id] {
        Some(s) => s.wait_queue.len() > 0,
        None => vstd::pervasive::unreached(),
    };
    if !has_waiter {
        // Nobody waits: the unit becomes available.
        let s = sem_mut(&mut k.semaphore_list, sem_id);
        let cnt = s.count;
        s.count = cnt + 1;
        let st = k.semaphore_status[sem_id];
        k.semaphore_status.set(sem_id, st + 1);
        proof {
            assert forall|t: int| k.live(t) implies #[trigger] k.task_ok(t) by {
                assert(a.task_ok(t));
            }
            assert forall|i: int| 0 <= i < k.manager.ready_queue@.len() implies
                #[trigger] k.ready_ok(i) by {
                assert(a.ready_ok(i));
            }
            assert forall|mi: int| 0 <= mi < k.mutex_list@.len() implies #[trigger] k.mutex_ok(mi)
                by {
                assert(a.mutex_ok(mi));
                let m2 = k.mutex_list@[mi]->Some_0;
                assert forall|x: int| 0 <= x < m2.wait_queue@.len() implies k.mutex_waiter_ok(
                    mi,
                    #[trigger] m2.wait_queue@[x] as int,
                ) by {
                    assert(a.mutex_waiter_ok(mi, m2.wait_queue@[x] as int));
                }
            }
            assert forall|si: int| 0 <= si < k.semaphore_list@.len() implies #[trigger] k.sem_ok(
                si,
            ) by {
                assert(a.sem_ok(si));
                let sv = k.semaphore_list@[si]->Some_0;
                assert forall|x: int| 0 <= x < sv.wait_queue@.len() implies k.sem_waiter_ok(
                    si,
                    #[trigger] sv.wait_queue@[x] as int,
                ) by {
                    assert(a.sem_waiter_ok(si, sv.wait_queue@[x] as int));
                }
            }
            assert forall|ci: int| 0 <= ci < k.condvar_list@.len() implies #[trigger] k.condvar_ok(
                ci,
            ) by {
                assert(a.condvar_ok(ci));
                let cvv = k.condvar_list@[ci]->Some_0;
                assert forall|x: int| 0 <= x < cvv.wait_queue@.len() implies k.condvar_waiter_ok(
                    ci,
                    #[trigger] cvv.wait_queue@[x] as int,
                ) by {
                    assert(a.condvar_waiter_ok(ci, cvv.wait_queue@[x] as int));
                }
            }
            assert forall|x: int| 0 <= x < k.timers@.len() implies #[trigger] k.timer_ok(x) by {
                assert(a.timer_ok(x));
            }
            assert forall|mi: int| 0 <= mi < k.mutex_status@.len() implies
                #[trigger] k.mutex_status@[mi] + sum_have(k.tasks@, true, mi) == 1 by {
                crate::ledger::lemma_sum_have_same_class(a.tasks@, true, mi, c as int, vc);
            }
            assert forall|si: int| 0 <= si < k.semaphore_status@.len() implies
                #[trigger] k.semaphore_status@[si] + sum_have(k.tasks@, false, si)
                == k.semaphore_cap@[si] by {
                crate::ledger::lemma_sum_have_update(a.tasks@, false, si, c as int, vc);
                if si != sid {
                    assert(res_have(vc, false, si) == res_have(a.tasks@[c as int], false, si));
                } else {
                    assert(res_have(vc, false, sid) == res_have(a.tasks@[c as int], false, sid)
                        - 1);
                }
            }
        }
        return 0;
    }
    // Hand the unit straight to the longest-waiting task.
    let w = {
        let s = sem_mut(&mut k.semaphore_list, sem_id);
        s.wait_queue.remove(0)
    };
    proof {
        let wq = a.semaphore_list@[sid]->Some_0.wait_queue@;
        assert(a.sem_waiter_ok(sid, w as int));
        assert(a.task_ok(w as int));
        assert(w != c) by {
            assert(a.status_at(w as int) == TaskStatus::Blocked);
        }
        lemma_sum_have_two(a.tasks@, false, sid, c as int, w as int);
    }
    {
        let t = task_mut(&mut k.tasks, w);
        let rr = res_mut(t);
        let hv = rr.semaphore_have[sem_id];
        rr.semaphore_have.set(sem_id, hv + 1);
        let nv = rr.semaphore_need[sem_id];
        rr.semaphore_need.set(sem_id, nv - 1);
    }
    proof {
        assert forall|i: int| 0 <= i < k.manager.ready_queue@.len() implies
            #[trigger] k.manager.ready_queue@[i] != w by {
            assert(a.ready_ok(i));
        }
    }
    k.wake_task(w);
    proof {
        let wq = a.semaphore_list@[sid]->Some_0.wait_queue@;
        wq.remove_ensures(0);
        let vw = k.tasks@[w as int];
        assert(k.tasks@ =~= tc.update(w as int, vw));
        assert forall|t: int| k.live(t) implies #[trigger] k.task_ok(t) by {
            assert(a.task_ok(t));
        }
        assert forall|i: int| 0 <= i < k.manager.ready_queue@.len() implies #[trigger] k.ready_ok(
            i,
        ) by {
            if i < a.manager.ready_queue@.len() {
                assert(a.ready_ok(i));
            }
        }
        assert forall|mi: int| 0 <= mi < k.mutex_list@.len() implies #[trigger] k.mutex_ok(mi) by {
            assert(a.mutex_ok(mi));
            let m2 = k.mutex_list@[mi]->Some_0;
            assert forall|x: int| 0 <= x < m2.wait_queue@.len() implies k.mutex_waiter_ok(
                mi,
                #[trigger] m2.wait_queue@[x] as int,
            ) by {
                assert(a.mutex_waiter_ok(mi, m2.wait_queue@[x] as int));
                assert(m2.wait_queue@[x] != wq[0]) by {
                    assert(a.task_at(m2.wait_queue@[x] as int).blocked_on@ == Some(
                        WaitTarget::OnMutex(mi as usize),
                    ));
                    assert(a.task_at(wq[0] as int).blocked_on@ == Some(
                        WaitTarget::OnSemaphore(sem_id),
                    ));
                }
            }
        }
        assert forall|si: int| 0 <= si < k.semaphore_list@.len() implies #[trigger] k.sem_ok(si)
            by {
            assert(a.sem_ok(si));
            let sv = k.semaphore_list@[si]->Some_0;
            assert forall|x: int| 0 <= x < sv.wait_queue@.len() implies k.sem_waiter_ok(
                si,
                #[trigger] sv.wait_queue@[x] as int,
            ) by {
                if si == sid {
                    assert(sv.wait_queue@[x] == wq[x + 1]);
                    assert(a.sem_waiter_ok(si, wq[x + 1] as int));
                    assert(a.task_ok(wq[x + 1] as int));
                    assert(wq[x + 1] != wq[0]);
                } else {
                    assert(a.sem_waiter_ok(si, sv.wait_queue@[x] as int));
                    assert(sv.wait_queue@[x] != wq[0]) by {
                        assert(a.task_at(sv.wait_queue@[x] as int).blocked_on@ == Some(
                            WaitTarget::OnSemaphore(si as usize),
                        ));
                    }
                }
            }
            if si == sid {
                assert forall|x: int, y: int|
                    0 <= x < sv.wait_queue@.len() && 0 <= y < sv.wait_queue@.len() && x
                    != y implies sv.wait_queue@[x] != sv.wait_queue@[y] by {
                    assert(sv.wait_queue@[x] == wq[x + 1] && sv.wait_queue@[y] == wq[y + 1]);
                }
            }
        }
        assert forall|ci: int| 0 <= ci < k.condvar_list@.len() implies #[trigger] k.condvar_ok(ci)
            by {
            assert(a.condvar_ok(ci));
            let cvv = k.condvar_list@[ci]->Some_0;
            assert forall|x: int| 0 <= x < cvv.wait_queue@.len() implies k.condvar_waiter_ok(
                ci,
                #[trigger] cvv.wait_queue@[x] as int,
            ) by {
                assert(a.condvar_waiter_ok(ci, cvv.wait_queue@[x] as int));
                assert(cvv.wait_queue@[x] != wq[0]) by {
                    assert(a.task_at(cvv.wait_queue@[x] as int).blocked_on@ == Some(
                        WaitTarget::OnCondvar(ci as usize),
                    ));
                }
            }
        }
        assert forall|x: int| 0 <= x < k.timers@.len() implies #[trigger] k.timer_ok(x) by {
            assert(a.timer_ok(x));
            assert(k.timers@[x].1 != wq[0]) by {
                assert(a.task_at(k.timers@[x].1 as int).blocked_on@ == Some(WaitTarget::Sleeping));
            }
        }
        assert forall|mi: int| 0 <= mi < k.mutex_status@.len() implies
            #[trigger] k.mutex_status@[mi] + sum_have(k.tasks@, true, mi) == 1 by {
            crate::ledger::lemma_sum_have_same_class(a.tasks@, true, mi, c as int, vc);
            crate::ledger::lemma_sum_have_same_class(tc, true, mi, w as int, vw);
        }
        assert forall|si: int| 0 <= si < k.semaphore_status@.len() implies
            #[trigger] k.semaphore_status@[si] + sum_have(k.tasks@, false, si)
            == k.semaphore_cap@[si] by {
            crate::ledger::lemma_sum_have_update(a.tasks@, false, si, c as int, vc);
            crate::ledger::lemma_sum_have_update(tc, false, si, w as int, vw);
            if si != sid {
                assert(res_have(vc, false, si) == res_have(a.tasks@[c as int], false, si));
                assert(res_have(vw, false, si) == res_have(tc[w as int], false, si));
            } else {
                assert(res_have(vc, false, sid) == res_have(a.tasks@[c as int], false, sid) - 1);
                assert(res_have(vw, false, sid) == res_have(tc[w as int], false, sid) + 1);
            }
        }
    }
    0
}


/// Withdraws a refused mutex request: the caller's pending `need` entry is
/// rolled back, leaving the ledgers exactly as before the request.
fn lock_withdraw(k: &mut Kernel, mutex_id: usize, c: usize, Ghost(a): Ghost<Kernel>)
    requires
        a.wf(),
        a.current == Some(c),
        a.task_at(c as int).res is Some,
        mutex_id < a.mutex_list@.len(),
        need_of(a.tasks@[c as int], true)[mutex_id as int] == 0,
        old(k).manager == a.manager,
        old(k).current == a.current,
        old(k).mutex_list == a.mutex_list,
        old(k).mutex_status == a.mutex_status,
        old(k).semaphore_list == a.semaphore_list,
        old(k).semaphore_status == a.semaphore_status,
        old(k).semaphore_cap == a.semaphore_cap,
        old(k).condvar_list == a.condvar_list,
        old(k).deadlock_detect_enable == a.deadlock_detect_enable,
        old(k).time_us == a.time_us,
        old(k).timers == a.timers,
        old(k).apps == a.apps,
        old(k).mapped_pages == a.mapped_pages,
        old(k).tasks@.len() == a.tasks@.len(),
        forall|t: int|
            0 <= t < a.tasks@.len() && t != c ==> #[trigger] old(k).tasks@[t] == a.tasks@[t],
        task_updated(
            a.tasks@[c as int],
            old(k).tasks@[c as int],
            TaskStatus::Running,
            a.task_at(c as int).blocked_on@,
            need_of(a.tasks@[c as int], true).update(mutex_id as int, 1usize),
            have_of(a.tasks@[c as int], true),
            need_of(a.tasks@[c as int], false),
            have_of(a.tasks@[c as int], false),
        ),
    ensures
        final(k).wf(),
        tasks_like(final(k).tasks@, a.tasks@),
        final(k).manager == a.manager,
        final(k).current == a.current,
        final(k).mutex_list == a.mutex_list,
        final(k).mutex_status == a.mutex_status,
        final(k).semaphore_list == a.semaphore_list,
        final(k).semaphore_status == a.semaphore_status,
        final(k).semaphore_cap == a.semaphore_cap,
        final(k).condvar_list == a.condvar_list,
        final(k).deadlock_detect_enable == a.deadlock_detect_enable,
        final(k).time_us == a.time_us,
        final(k).timers == a.timers,
        final(k).apps == a.apps,
        final(k).mapped_pages == a.mapped_pages,
{
    let ghost mid = mutex_id as int;
    let ghost treq = k.tasks@;
    proof {
        assert(a.live(c as int));
        assert(a.task_ok(c as int));
    }
    // Infeasible: withdraw the request and refuse.
    {
        let t = task_mut(&mut k.tasks, c);
        let rr = res_mut(t);
        let v = rr.mutex_need[mutex_id];
        rr.mutex_need.set(mutex_id, v - 1);
    }
    proof {
        let vc = k.tasks@[c as int];
        assert(need_of(vc, true) =~= need_of(a.tasks@[c as int], true));
        assert forall|t: int|
            0 <= t < a.tasks@.len() implies slot_like(
            #[trigger] final(k).tasks@[t],
            a.tasks@[t],
        ) by {}
        assert forall|t: int|
            0 <= t < a.tasks@.len() implies slot_like(
            #[trigger] a.tasks@[t],
            final(k).tasks@[t],
        ) by {}
        assert forall|t: int| k.live(t) implies #[trigger] k.task_ok(t) by {
            assert(a.task_ok(t));
            if t == c as int {
                assert(need_of(k.tasks@[t], true) == need_of(a.tasks@[t], true));
            }
        }
        assert forall|i: int| 0 <= i < k.manager.ready_queue@.len() implies
            #[trigger] k.ready_ok(i) by {
            assert(a.ready_ok(i));
        }
        assert forall|mi: int| 0 <= mi < k.mutex_list@.len() implies #[trigger] k.mutex_ok(
            mi,
        ) by {
            assert(a.mutex_ok(mi));
            let m2 = k.mutex_list@[mi]->Some_0;
            assert forall|x: int| 0 <= x < m2.wait_queue@.len() implies k.mutex_waiter_ok(
                mi,
                #[trigger] m2.wait_queue@[x] as int,
            ) by {
                assert(a.mutex_waiter_ok(mi, m2.wait_queue@[x] as int));
                assert(m2.wait_queue@[x] != c) by {
                    assert(a.status_at(m2.wait_queue@[x] as int) == TaskStatus::Blocked);
                }
            }
        }
        assert forall|si: int| 0 <= si < k.semaphore_list@.len() implies
            #[trigger] k.sem_ok(si) by {
            assert(a.sem_ok(si));
            let sv = k.semaphore_list@[si]->Some_0;
            assert forall|x: int| 0 <= x < sv.wait_queue@.len() implies k.sem_waiter_ok(
                si,
                #[trigger] sv.wait_queue@[x] as int,
            ) by {
                assert(a.sem_waiter_ok(si, sv.wait_queue@[x] as int));
                assert(sv.wait_queue@[x] != c) by {
                    assert(a.status_at(sv.wait_queue@[x] as int) == TaskStatus::Blocked);
                }
            }
        }
        assert forall|ci: int| 0 <= ci < k.condvar_list@.len() implies
            #[trigger] k.condvar_ok(ci) by {
            assert(a.condvar_ok(ci));
            let cvv = k.condvar_list@[ci]->Some_0;
            assert forall|x: int|
                0 <= x < cvv.wait_queue@.len() implies k.condvar_waiter_ok(
                ci,
                #[trigger] cvv.wait_queue@[x] as int,
            ) by {
                assert(a.condvar_waiter_ok(ci, cvv.wait_queue@[x] as int));
                assert(cvv.wait_queue@[x] != c) by {
                    assert(a.status_at(cvv.wait_queue@[x] as int) == TaskStatus::Blocked);
                }
            }
        }
        assert forall|x: int| 0 <= x < k.timers@.len() implies #[trigger] k.timer_ok(x)
            by {
            assert(a.timer_ok(x));
            assert(k.timers@[x].1 != c) by {
                assert(a.status_at(k.timers@[x].1 as int) == TaskStatus::Blocked);
            }
        }
        assert(k.tasks@ =~= a.tasks@.update(c as int, vc));
        assert forall|mi: int| 0 <= mi < k.mutex_status@.len() implies
            #[trigger] k.mutex_status@[mi] + sum_have(k.tasks@, true, mi) == 1 by {
            crate::ledger::lemma_sum_have_same_class(a.tasks@, true, mi, c as int, vc);
        }
        assert forall|si: int| 0 <= si < k.semaphore_status@.len() implies
            #[trigger] k.semaphore_status@[si] + sum_have(k.tasks@, false, si)
            == k.semaphore_cap@[si] by {
            crate::ledger::lemma_sum_have_same_class(a.tasks@, false, si, c as int, vc);
        }
    }
}

/// Grants a free mutex to the caller at once: the lock is claimed, the
/// availability counter drops to 0, and the caller's pending request turns
/// into a holding.
fn lock_grant(k: &mut Kernel, mutex_id: usize, c: usize, Ghost(a): Ghost<Kernel>)
    requires
        a.wf(),
        a.current == Some(c),
        a.task_at(c as int).res is Some,
        mutex_id < a.mutex_list@.len(),
        need_of(a.tasks@[c as int], true)[mutex_id as int] == 0,
        old(k).manager == a.manager,
        old(k).current == a.current,
        old(k).mutex_list == a.mutex_list,
        old(k).mutex_status == a.mutex_status,
        old(k).semaphore_list == a.semaphore_list,
        old(k).semaphore_status == a.semaphore_status,
        old(k).semaphore_cap == a.semaphore_cap,
        old(k).condvar_list == a.condvar_list,
        old(k).deadlock_detect_enable == a.deadlock_detect_enable,
        old(k).time_us == a.time_us,
        old(k).timers == a.timers,
        old(k).apps == a.apps,
        old(k).mapped_pages == a.mapped_pages,
        old(k).tasks@.len() == a.tasks@.len(),
        forall|t: int|
            0 <= t < a.tasks@.len() && t != c ==> #[trigger] old(k).tasks@[t] == a.tasks@[t],
        task_updated(
            a.tasks@[c as int],
            old(k).tasks@[c as int],
            TaskStatus::Running,
            a.task_at(c as int).blocked_on@,
            need_of(a.tasks@[c as int], true).update(mutex_id as int, 1usize),
            have_of(a.tasks@[c as int], true),
            need_of(a.tasks@[c as int], false),
            have_of(a.tasks@[c as int], false),
        ),
        a.mutex_status@[mutex_id as int] == 1,
    ensures
        final(k).wf(),
        final(k).manager == a.manager,
        final(k).current == a.current,
        final(k).mutex_status@ == a.mutex_status@.update(mutex_id as int, 0usize),
        final(k).mutex_list@[mutex_id as int]->Some_0 == (MutexState {
            locked: true,
            ..a.mutex_list@[mutex_id as int]->Some_0
        }),
        forall|i: int|
            0 <= i < a.mutex_list@.len() && i != mutex_id ==> #[trigger] final(k).mutex_list@[i]
                == a.mutex_list@[i],
        final(k).tasks@.len() == a.tasks@.len(),
        forall|t: int|
            0 <= t < a.tasks@.len() && t != c ==> #[trigger] final(k).tasks@[t] == a.tasks@[t],
        task_updated(
            a.tasks@[c as int],
            final(k).tasks@[c as int],
            TaskStatus::Running,
            a.task_at(c as int).blocked_on@,
            need_of(a.tasks@[c as int], true),
            have_of(a.tasks@[c as int], true).update(
                mutex_id as int,
                ((have_of(a.tasks@[c as int], true)[mutex_id as int] + 1) as usize),
            ),
            need_of(a.tasks@[c as int], false),
            have_of(a.tasks@[c as int], false),
        ),
        final(k).semaphore_list == a.semaphore_list,
        final(k).semaphore_status == a.semaphore_status,
        final(k).semaphore_cap == a.semaphore_cap,
        final(k).condvar_list == a.condvar_list,
        final(k).deadlock_detect_enable == a.deadlock_detect_enable,
        final(k).time_us == a.time_us,
        final(k).timers == a.timers,
        final(k).apps == a.apps,
        final(k).mapped_pages == a.mapped_pages,
{
    let ghost mid = mutex_id as int;
    let ghost treq = k.tasks@;
    proof {
        assert(a.live(c as int));
        assert(a.task_ok(c as int));
        assert(a.mutex_ok(mid));
    }
    // Free: grant the lock at once.
    proof {
        crate::ledger::lemma_sum_have_nonneg(a.tasks@, true, mid);
        lemma_sum_have_at_least(a.tasks@, true, mid, c as int);
        assert(a.mutex_status@[mid] == 1);
        assert(res_have(a.tasks@[c as int], true, mid) == 0) by {
            crate::ledger::lemma_sum_have_at_least(a.tasks@, true, mid, c as int);
        }
    }
    {
        let m = mutex_mut(&mut k.mutex_list, mutex_id);
        m.locked = true;
    }
    k.mutex_status.set(mutex_id, 0);
    {
        let t = task_mut(&mut k.tasks, c);
        let rr = res_mut(t);
        let hv = rr.mutex_have[mutex_id];
        rr.mutex_have.set(mutex_id, hv + 1);
        let nv = rr.mutex_need[mutex_id];
        rr.mutex_need.set(mutex_id, nv - 1);
    }
    proof {
        let vc = k.tasks@[c as int];
        assert(k.tasks@ =~= treq.update(c as int, vc));
        assert(k.tasks@ =~= a.tasks@.update(c as int, vc));
        assert(need_of(vc, true) =~= need_of(a.tasks@[c as int], true));
        assert forall|t: int| k.live(t) implies #[trigger] k.task_ok(t) by {
            assert(a.task_ok(t));
            if t == c as int {
                assert(need_of(k.tasks@[t], true) == need_of(a.tasks@[t], true));
            }
        }
        assert forall|i: int| 0 <= i < k.manager.ready_queue@.len() implies
            #[trigger] k.ready_ok(i) by {
            assert(a.ready_ok(i));
        }
        assert forall|mi: int| 0 <= mi < k.mutex_list@.len() implies #[trigger] k.mutex_ok(mi)
            by {
            assert(a.mutex_ok(mi));
            let m2 = k.mutex_list@[mi]->Some_0;
            assert forall|x: int| 0 <= x < m2.wait_queue@.len() implies k.mutex_waiter_ok(
                mi,
                #[trigger] m2.wait_queue@[x] as int,
            ) by {
                assert(a.mutex_waiter_ok(mi, m2.wait_queue@[x] as int));
                assert(m2.wait_queue@[x] != c) by {
                    assert(a.status_at(m2.wait_queue@[x] as int) == TaskStatus::Blocked);
                }
            }
        }
        assert forall|si: int| 0 <= si < k.semaphore_list@.len() implies #[trigger] k.sem_ok(
            si,
        ) by {
            assert(a.sem_ok(si));
            let sv = k.semaphore_list@[si]->Some_0;
            assert forall|x: int| 0 <= x < sv.wait_queue@.len() implies k.sem_waiter_ok(
                si,
                #[trigger] sv.wait_queue@[x] as int,
            ) by {
                assert(a.sem_waiter_ok(si, sv.wait_queue@[x] as int));
                assert(sv.wait_queue@[x] != c) by {
                    assert(a.status_at(sv.wait_queue@[x] as int) == TaskStatus::Blocked);
                }
            }
        }
        assert forall|ci: int| 0 <= ci < k.condvar_list@.len() implies #[trigger] k.condvar_ok(
            ci,
        ) by {
            assert(a.condvar_ok(ci));
            let cvv = k.condvar_list@[ci]->Some_0;
            assert forall|x: int| 0 <= x < cvv.wait_queue@.len() implies k.condvar_waiter_ok(
                ci,
                #[trigger] cvv.wait_queue@[x] as int,
            ) by {
                assert(a.condvar_waiter_ok(ci, cvv.wait_queue@[x] as int));
                assert(cvv.wait_queue@[x] != c) by {
                    assert(a.status_at(cvv.wait_queue@[x] as int) == TaskStatus::Blocked);
                }
            }
        }
        assert forall|x: int| 0 <= x < k.timers@.len() implies #[trigger] k.timer_ok(x) by {
            assert(a.timer_ok(x));
            assert(k.timers@[x].1 != c) by {
                assert(a.status_at(k.timers@[x].1 as int) == TaskStatus::Blocked);
            }
        }
        assert forall|mi: int| 0 <= mi < k.mutex_status@.len() implies
            #[trigger] k.mutex_status@[mi] + sum_have(k.tasks@, true, mi) == 1 by {
            crate::ledger::lemma_sum_have_update(a.tasks@, true, mi, c as int, vc);
            if mi != mid {
                assert(res_have(vc, true, mi) == res_have(a.tasks@[c as int], true, mi));
            } else {
                assert(res_have(vc, true, mid) == res_have(a.tasks@[c as int], true, mid) + 1);
            }
        }
        assert forall|si: int| 0 <= si < k.semaphore_status@.len() implies
            #[trigger] k.semaphore_status@[si] + sum_have(k.tasks@, false, si)
            == k.semaphore_cap@[si] by {
            crate::ledger::lemma_sum_have_same_class(a.tasks@, false, si, c as int, vc);
        }
    }
}

/// Parks the caller at the tail of the FIFO wait list of a held blocking
/// mutex, with its request pending, and hands control to the scheduler.
fn lock_block(k: &mut Kernel, mutex_id: usize, c: usize, Ghost(a): Ghost<Kernel>)
    requires
        a.wf(),
        a.current == Some(c),
        a.task_at(c as int).res is Some,
        mutex_id < a.mutex_list@.len(),
        need_of(a.tasks@[c as int], true)[mutex_id as int] == 0,
        old(k).manager == a.manager,
        old(k).current == a.current,
        old(k).mutex_list == a.mutex_list,
        old(k).mutex_status == a.mutex_status,
        old(k).semaphore_list == a.semaphore_list,
        old(k).semaphore_status == a.semaphore_status,
        old(k).semaphore_cap == a.semaphore_cap,
        old(k).condvar_list == a.condvar_list,
        old(k).deadlock_detect_enable == a.deadlock_detect_enable,
        old(k).time_us == a.time_us,
        old(k).timers == a.timers,
        old(k).apps == a.apps,
        old(k).mapped_pages == a.mapped_pages,
        old(k).tasks@.len() == a.tasks@.len(),
        forall|t: int|
            0 <= t < a.tasks@.len() && t != c ==> #[trigger] old(k).tasks@[t] == a.tasks@[t],
        task_updated(
            a.tasks@[c as int],
            old(k).tasks@[c as int],
            TaskStatus::Running,
            a.task_at(c as int).blocked_on@,
            need_of(a.tasks@[c as int], true).update(mutex_id as int, 1usize),
            have_of(a.tasks@[c as int], true),
            need_of(a.tasks@[c as int], false),
            have_of(a.tasks@[c as int], false),
        ),
        a.mutex_status@[mutex_id as int] == 0,
        a.mutex_list@[mutex_id as int]->Some_0.blocking,
    ensures
        final(k).wf(),
        final(k).mutex_status == a.mutex_status,
        final(k).mutex_list@[mutex_id as int]->Some_0.wait_queue@ == a.mutex_list@[mutex_id as int]->Some_0.wait_queue@.push(c),
        final(k).mutex_list@[mutex_id as int]->Some_0.locked,
        final(k).mutex_list@[mutex_id as int]->Some_0.blocking,
        forall|i: int|
            0 <= i < a.mutex_list@.len() && i != mutex_id ==> #[trigger] final(k).mutex_list@[i]
                == a.mutex_list@[i],
        task_updated(
            a.tasks@[c as int],
            final(k).tasks@[c as int],
            TaskStatus::Blocked,
            Some(WaitTarget::OnMutex(mutex_id)),
            need_of(a.tasks@[c as int], true).update(mutex_id as int, 1usize),
            have_of(a.tasks@[c as int], true),
            need_of(a.tasks@[c as int], false),
            have_of(a.tasks@[c as int], false),
        ),
        sched_from(a.manager.ready_queue@, a.tasks@, *final(k), c as int),
        final(k).semaphore_list == a.semaphore_list,
        final(k).semaphore_status == a.semaphore_status,
        final(k).semaphore_cap == a.semaphore_cap,
        final(k).condvar_list == a.condvar_list,
        final(k).deadlock_detect_enable == a.deadlock_detect_enable,
        final(k).time_us == a.time_us,
        final(k).timers == a.timers,
        final(k).apps == a.apps,
        final(k).mapped_pages == a.mapped_pages,
{
    let ghost mid = mutex_id as int;
    let ghost treq = k.tasks@;
    proof {
        assert(a.live(c as int));
        assert(a.task_ok(c as int));
        assert(a.mutex_ok(mid));
    }
    // Held: park the caller at the tail of the FIFO wait list and run
    // the scheduler; the lock will be handed over in arrival order.
    {
        let m = mutex_mut(&mut k.mutex_list, mutex_id);
        m.wait_queue.push(c);
    }
    {
        let t = task_mut(&mut k.tasks, c);
        t.task_status = TaskStatus::Blocked;
        t.blocked_on = Ghost(Some(WaitTarget::OnMutex(mutex_id)));
    }
    k.current = None;
    let ghost tb = k.tasks@;
    proof {
        let vc = k.tasks@[c as int];
        assert(k.tasks@ =~= treq.update(c as int, vc));
        assert(k.tasks@ =~= a.tasks@.update(c as int, vc));
        assert forall|t: int| k.live(t) implies #[trigger] k.task_ok(t) by {
            assert(a.task_ok(t));
            if t == c as int {
                let rr = k.tasks@[t]->Some_0.res->Some_0;
                assert(rr.mutex_need@ == need_of(a.tasks@[t], true).update(mid, 1usize));
                assert forall|j: int|
                    0 <= j < rr.mutex_need@.len() && #[trigger] rr.mutex_need@[j]
                    != 0 implies {
                    &&& k.tasks@[t]->Some_0.task_status == TaskStatus::Blocked
                    &&& k.tasks@[t]->Some_0.blocked_on@ == Some(
                        WaitTarget::OnMutex(j as usize),
                    )
                    &&& rr.mutex_need@[j] == 1
                } by {
                    if j != mid {
                        assert(need_of(a.tasks@[t], true)[j] != 0);
                        assert(a.status_at(t) == TaskStatus::Blocked);
                    }
                }
            }
        }
        assert forall|i: int| 0 <= i < k.manager.ready_queue@.len() implies
            #[trigger] k.ready_ok(i) by {
            assert(a.ready_ok(i));
            assert(k.manager.ready_queue@[i] != c) by {
                assert(a.status_at(k.manager.ready_queue@[i] as int) == TaskStatus::Ready);
            }
        }
        assert forall|mi: int| 0 <= mi < k.mutex_list@.len() implies #[trigger] k.mutex_ok(mi)
            by {
            assert(a.mutex_ok(mi));
            let m2 = k.mutex_list@[mi]->Some_0;
            let wq0 = a.mutex_list@[mi]->Some_0.wait_queue@;
            assert forall|x: int| 0 <= x < m2.wait_queue@.len() implies k.mutex_waiter_ok(
                mi,
                #[trigger] m2.wait_queue@[x] as int,
            ) by {
                if mi == mid && x == wq0.len() {
                    assert(m2.wait_queue@[x] == c);
                } else {
                    assert(a.mutex_waiter_ok(mi, m2.wait_queue@[x] as int));
                    assert(m2.wait_queue@[x] != c) by {
                        assert(a.status_at(m2.wait_queue@[x] as int) == TaskStatus::Blocked);
                    }
                }
            }
            if mi == mid {
                assert forall|x: int, y: int|
                    0 <= x < m2.wait_queue@.len() && 0 <= y < m2.wait_queue@.len() && x
                    != y implies m2.wait_queue@[x] != m2.wait_queue@[y] by {
                    if x < wq0.len() && y < wq0.len() {
                        assert(wq0[x] != wq0[y]);
                    } else if x < wq0.len() {
                        assert(a.mutex_waiter_ok(mid, wq0[x] as int));
                        assert(a.status_at(wq0[x] as int) == TaskStatus::Blocked);
                    } else if y < wq0.len() {
                        assert(a.mutex_waiter_ok(mid, wq0[y] as int));
                        assert(a.status_at(wq0[y] as int) == TaskStatus::Blocked);
                    }
                }
            }
        }
        assert forall|si: int| 0 <= si < k.semaphore_list@.len() implies #[trigger] k.sem_ok(
            si,
        ) by {
            assert(a.sem_ok(si));
            let sv = k.semaphore_list@[si]->Some_0;
            assert forall|x: int| 0 <= x < sv.wait_queue@.len() implies k.sem_waiter_ok(
                si,
                #[trigger] sv.wait_queue@[x] as int,
            ) by {
                assert(a.sem_waiter_ok(si, sv.wait_queue@[x] as int));
                assert(sv.wait_queue@[x] != c) by {
                    assert(a.status_at(sv.wait_queue@[x] as int) == TaskStatus::Blocked);
                }
            }
        }
        assert forall|ci: int| 0 <= ci < k.condvar_list@.len() implies #[trigger] k.condvar_ok(
            ci,
        ) by {
            assert(a.condvar_ok(ci));
            let cvv = k.condvar_list@[ci]->Some_0;
            assert forall|x: int| 0 <= x < cvv.wait_queue@.len() implies k.condvar_waiter_ok(
                ci,
                #[trigger] cvv.wait_queue@[x] as int,
            ) by {
                assert(a.condvar_waiter_ok(ci, cvv.wait_queue@[x] as int));
                assert(cvv.wait_queue@[x] != c) by {
                    assert(a.status_at(cvv.wait_queue@[x] as int) == TaskStatus::Blocked);
                }
            }
        }
        assert forall|x: int| 0 <= x < k.timers@.len() implies #[trigger] k.timer_ok(x) by {
            assert(a.timer_ok(x));
            assert(k.timers@[x].1 != c) by {
                assert(a.status_at(k.timers@[x].1 as int) == TaskStatus::Blocked);
            }
        }
        assert forall|mi: int| 0 <= mi < k.mutex_status@.len() implies
            #[trigger] k.mutex_status@[mi] + sum_have(k.tasks@, true, mi) == 1 by {
            crate::ledger::lemma_sum_have_same_class(a.tasks@, true, mi, c as int, vc);
        }
        assert forall|si: int| 0 <= si < k.semaphore_status@.len() implies
            #[trigger] k.semaphore_status@[si] + sum_have(k.tasks@, false, si)
            == k.semaphore_cap@[si] by {
            crate::ledger::lemma_sum_have_same_class(a.tasks@, false, si, c as int, vc);
        }
        assert(k.wf());
    }
    let _ = k.fetch_task();
    proof {
        let q = a.manager.ready_queue@;
        assert forall|x: int| 0 <= x < q.len() implies #[trigger] tb[q[x] as int] == a.tasks@[q[x] as int] by {
            assert(a.ready_ok(x));
            assert(q[x] != c) by {
                assert(a.status_at(q[x] as int) == TaskStatus::Ready);
            }
        }
        lemma_sched_agree(q, a.tasks@, tb);
        if exists|i: int| ready_at(q, a.tasks@, i) {
            let i = choose|i: int|
                {
                    &&& #[trigger] selected_at(q, tb, i)
                    &&& k.current == Some(q[i])
                    &&& k.manager.ready_queue@ == q.remove(i)
                    &&& k.tasks@ == tb.update(
                        q[i] as int,
                        Some(
                            (TaskControlBlock {
                                stride: advance_stride(
                                    tb[q[i] as int]->Some_0.stride,
                                    tb[q[i] as int]->Some_0.priority,
                                ),
                                task_status: TaskStatus::Running,
                                ..tb[q[i] as int]->Some_0
                            }),
                        ),
                    )
                };
            assert(q[i] != c) by {
                assert(ready_at(q, tb, i));
                assert(a.status_at(q[i] as int) == TaskStatus::Ready);
            }
            assert(selected_at(q, a.tasks@, i));
            assert(tb[q[i] as int] == a.tasks@[q[i] as int]);
            assert(sched_from(q, a.tasks@, *k, c as int));
        } else {
            assert forall|i: int| !ready_at(q, tb, i) by {
                assert(!ready_at(q, a.tasks@, i));
            }
            assert(sched_from(q, a.tasks@, *k, c as int));
        }
    }
}

/// Suspends the caller of a contended spinning mutex at its yield point: the
/// request is withdrawn, the task re-queued as `Ready`, and the scheduler
/// runs; the caller retries when it runs again.
fn lock_spin_retry(k: &mut Kernel, mutex_id: usize, c: usize, Ghost(a): Ghost<Kernel>)
    requires
        a.wf(),
        a.current == Some(c),
        a.task_at(c as int).res is Some,
        mutex_id < a.mutex_list@.len(),
        need_of(a.tasks@[c as int], true)[mutex_id as int] == 0,
        old(k).manager == a.manager,
        old(k).current == a.current,
        old(k).mutex_list == a.mutex_list,
        old(k).mutex_status == a.mutex_status,
        old(k).semaphore_list == a.semaphore_list,
        old(k).semaphore_status == a.semaphore_status,
        old(k).semaphore_cap == a.semaphore_cap,
        old(k).condvar_list == a.condvar_list,
        old(k).deadlock_detect_enable == a.deadlock_detect_enable,
        old(k).time_us == a.time_us,
        old(k).timers == a.timers,
        old(k).apps == a.apps,
        old(k).mapped_pages == a.mapped_pages,
        old(k).tasks@.len() == a.tasks@.len(),
        forall|t: int|
            0 <= t < a.tasks@.len() && t != c ==> #[trigger] old(k).tasks@[t] == a.tasks@[t],
        task_updated(
            a.tasks@[c as int],
            old(k).tasks@[c as int],
            TaskStatus::Running,
            a.task_at(c as int).blocked_on@,
            need_of(a.tasks@[c as int], true).update(mutex_id as int, 1usize),
            have_of(a.tasks@[c as int], true),
            need_of(a.tasks@[c as int], false),
            have_of(a.tasks@[c as int], false),
        ),
        a.mutex_status@[mutex_id as int] == 0,
        !a.mutex_list@[mutex_id as int]->Some_0.blocking,
    ensures
        final(k).wf(),
        final(k).mutex_status == a.mutex_status,
        final(k).mutex_list == a.mutex_list,
        ledgers_like(final(k).tasks@, a.tasks@),
        (exists|ts: Seq<Option<TaskControlBlock>>|
            {
                &&& tasks_like(
                    ts,
                    a.tasks@.update(
                        c as int,
                        Some(
                            (TaskControlBlock {
                                task_status: TaskStatus::Ready,
                                ..a.tasks@[c as int]->Some_0
                            }),
                        ),
                    ),
                )
                &&& #[trigger] Kernel::schedule_rel(a.manager.ready_queue@.push(c), ts, *final(k))
            }),
        final(k).semaphore_list == a.semaphore_list,
        final(k).semaphore_status == a.semaphore_status,
        final(k).semaphore_cap == a.semaphore_cap,
        final(k).condvar_list == a.condvar_list,
        final(k).deadlock_detect_enable == a.deadlock_detect_enable,
        final(k).time_us == a.time_us,
        final(k).timers == a.timers,
        final(k).apps == a.apps,
        final(k).mapped_pages == a.mapped_pages,
{
    let ghost mid = mutex_id as int;
    let ghost treq = k.tasks@;
    proof {
        assert(a.live(c as int));
        assert(a.task_ok(c as int));
        assert(a.mutex_ok(mid));
    }
    {
        let t = task_mut(&mut k.tasks, c);
        let rr = res_mut(t);
        let v = rr.mutex_need[mutex_id];
        rr.mutex_need.set(mutex_id, v - 1);
        t.task_status = TaskStatus::Ready;
    }
    k.current = None;
    let ghost ty = k.tasks@;
    proof {
        let vc = k.tasks@[c as int];
        assert(k.tasks@ =~= treq.update(c as int, vc));
        assert(k.tasks@ =~= a.tasks@.update(c as int, vc));
        assert(need_of(vc, true) =~= need_of(a.tasks@[c as int], true));
        assert forall|t: int| k.live(t) implies #[trigger] k.task_ok(t) by {
            assert(a.task_ok(t));
            if t == c as int {
                assert(need_of(k.tasks@[t], true) == need_of(a.tasks@[t], true));
            }
        }
        assert forall|i: int| 0 <= i < k.manager.ready_queue@.len() implies #[trigger] k.ready_ok(
            i,
        ) by {
            assert(a.ready_ok(i));
            assert(k.manager.ready_queue@[i] != c) by {
                assert(a.status_at(k.manager.ready_queue@[i] as int) == TaskStatus::Ready);
            }
        }
        assert forall|mi: int| 0 <= mi < k.mutex_list@.len() implies #[trigger] k.mutex_ok(mi) by {
            assert(a.mutex_ok(mi));
            let m2 = k.mutex_list@[mi]->Some_0;
            assert forall|x: int| 0 <= x < m2.wait_queue@.len() implies k.mutex_waiter_ok(
                mi,
                #[trigger] m2.wait_queue@[x] as int,
            ) by {
                assert(a.mutex_waiter_ok(mi, m2.wait_queue@[x] as int));
                assert(m2.wait_queue@[x] != c) by {
                    assert(a.status_at(m2.wait_queue@[x] as int) == TaskStatus::Blocked);
                }
            }
        }
        assert forall|si: int| 0 <= si < k.semaphore_list@.len() implies #[trigger] k.sem_ok(si)
            by {
            assert(a.sem_ok(si));
            let sv = k.semaphore_list@[si]->Some_0;
            assert forall|x: int| 0 <= x < sv.wait_queue@.len() implies k.sem_waiter_ok(
                si,
                #[trigger] sv.wait_queue@[x] as int,
            ) by {
                assert(a.sem_waiter_ok(si, sv.wait_queue@[x] as int));
                assert(sv.wait_queue@[x] != c) by {
                    assert(a.status_at(sv.wait_queue@[x] as int) == TaskStatus::Blocked);
                }
            }
        }
        assert forall|ci: int| 0 <= ci < k.condvar_list@.len() implies #[trigger] k.condvar_ok(ci)
            by {
            assert(a.condvar_ok(ci));
            let cvv = k.condvar_list@[ci]->Some_0;
            assert forall|x: int| 0 <= x < cvv.wait_queue@.len() implies k.condvar_waiter_ok(
                ci,
                #[trigger] cvv.wait_queue@[x] as int,
            ) by {
                assert(a.condvar_waiter_ok(ci, cvv.wait_queue@[x] as int));
                assert(cvv.wait_queue@[x] != c) by {
                    assert(a.status_at(cvv.wait_queue@[x] as int) == TaskStatus::Blocked);
                }
            }
        }
        assert forall|x: int| 0 <= x < k.timers@.len() implies #[trigger] k.timer_ok(x) by {
            assert(a.timer_ok(x));
            assert(k.timers@[x].1 != c) by {
                assert(a.status_at(k.timers@[x].1 as int) == TaskStatus::Blocked);
            }
        }
        assert forall|mi: int| 0 <= mi < k.mutex_status@.len() implies
            #[trigger] k.mutex_status@[mi] + sum_have(k.tasks@, true, mi) == 1 by {
            crate::ledger::lemma_sum_have_same_class(a.tasks@, true, mi, c as int, vc);
        }
        assert forall|si: int| 0 <= si < k.semaphore_status@.len() implies
            #[trigger] k.semaphore_status@[si] + sum_have(k.tasks@, false, si)
            == k.semaphore_cap@[si] by {
            crate::ledger::lemma_sum_have_same_class(a.tasks@, false, si, c as int, vc);
        }
        assert(k.wf());
        assert forall|i: int|
            0 <= i < k.manager.ready_queue@.len() implies #[trigger] k.manager.ready_queue@[i]
            != c by {
            assert(a.ready_ok(i));
            assert(a.status_at(k.manager.ready_queue@[i] as int) == TaskStatus::Ready);
        }
    }
    k.add_task(c);
    let _ = k.fetch_task();
    proof {
        assert forall|t: int|
            0 <= t < a.tasks@.len() implies {
            &&& (#[trigger] k.tasks@[t]) is Some == a.tasks@[t] is Some
            &&& (k.tasks@[t] is Some ==> crate::task::res_like(
                k.tasks@[t]->Some_0.res,
                a.tasks@[t]->Some_0.res,
            ))
        } by {}
        let target = a.tasks@.update(
            c as int,
            Some(
                (TaskControlBlock {
                    task_status: TaskStatus::Ready,
                    ..a.tasks@[c as int]->Some_0
                }),
            ),
        );
        assert(tasks_like(ty, target)) by {
            assert forall|t: int|
                0 <= t < ty.len() implies slot_like(#[trigger] ty[t], target[t]) by {
                if t == c as int {
                    assert(need_of(ty[t], true) == need_of(a.tasks@[t], true));
                }
            }
        }
        assert(Kernel::schedule_rel(a.manager.ready_queue@.push(c), ty, *k));
    }
}

/// Acquires a mutex for the calling task. The request is recorded in the
/// task's `need` ledger first; with deadlock detection enabled for the
/// process, the feasibility simulation then judges the state with the request
/// pending, and an infeasible request is rolled back and refused with the
/// deadlock sentinel instead of being allowed to wait. A free mutex is
/// granted at once. A held blocking mutex parks the caller at the tail of
/// the FIFO wait list; the lock will be handed over in arrival order, so 0 is
/// returned for the granted request. A held spinning mutex suspends the
/// caller at its yield point without queueing it: the request is withdrawn
/// and the retry sentinel returned. Returns -1 for an unknown handle.
pub fn sys_mutex_lock(k: &mut Kernel, mutex_id: usize) -> (r: isize)
    requires
        old(k).wf(),
        old(k).current is Some,
        old(k).task_at(old(k).cur()).res is Some,
    ensures
        final(k).wf(),
        final(k).semaphore_list == old(k).semaphore_list,
        final(k).semaphore_status == old(k).semaphore_status,
        final(k).semaphore_cap == old(k).semaphore_cap,
        final(k).condvar_list == old(k).condvar_list,
        final(k).deadlock_detect_enable == old(k).deadlock_detect_enable,
        final(k).time_us == old(k).time_us,
        final(k).timers == old(k).timers,
        final(k).apps == old(k).apps,
        final(k).mapped_pages == old(k).mapped_pages,
        mutex_id >= old(k).mutex_list@.len() ==> r == -1 && *final(k) == *old(k),
        mutex_id < old(k).mutex_list@.len() ==> {
            let a = *old(k);
            let c = a.cur();
            let w = a.mutex_status@.len();
            let nm = needs_of(a.tasks@, true, w as nat);
            let hm = haves_of(a.tasks@, true, w as nat);
            let feas = feasible(
                bump(nm, c, mutex_id as int),
                hm,
                int_view(a.mutex_status@),
            );
            let m = a.mutex_list@[mutex_id as int]->Some_0;
            if a.deadlock_detect_enable && !feas {
                // Refused: the pending request is withdrawn, nothing granted.
                &&& r == crate::DEADLOCK_RC
                &&& tasks_like(final(k).tasks@, a.tasks@)
                &&& final(k).manager == a.manager
                &&& final(k).current == a.current
                &&& final(k).mutex_list == a.mutex_list
                &&& final(k).mutex_status == a.mutex_status
                &&& final(k).semaphore_list == a.semaphore_list
                &&& final(k).semaphore_status == a.semaphore_status
                &&& final(k).condvar_list == a.condvar_list
                &&& final(k).deadlock_detect_enable == a.deadlock_detect_enable
                &&& final(k).timers == a.timers
            } else if a.mutex_status@[mutex_id as int] == 1 {
                // Free: granted at once.
                &&& r == 0
                &&& final(k).manager == a.manager
                &&& final(k).current == a.current
                &&& final(k).mutex_status@ == a.mutex_status@.update(mutex_id as int, 0usize)
                &&& final(k).mutex_list@[mutex_id as int]->Some_0 == (MutexState {
                    locked: true,
                    ..m
                })
                &&& forall|i: int|
                    0 <= i < a.mutex_list@.len() && i != mutex_id
                        ==> #[trigger] final(k).mutex_list@[i] == a.mutex_list@[i]
                &&& final(k).tasks@.len() == a.tasks@.len()
                &&& forall|t: int|
                    0 <= t < a.tasks@.len() && t != c ==> #[trigger] final(k).tasks@[t]
                        == a.tasks@[t]
                &&& task_updated(
                    a.tasks@[c],
                    final(k).tasks@[c],
                    TaskStatus::Running,
                    a.task_at(c).blocked_on@,
                    need_of(a.tasks@[c], true),
                    have_of(a.tasks@[c], true).update(
                        mutex_id as int,
                        ((have_of(a.tasks@[c], true)[mutex_id as int] + 1) as usize),
                    ),
                    need_of(a.tasks@[c], false),
                    have_of(a.tasks@[c], false),
                )
                &&& final(k).semaphore_status == a.semaphore_status
                &&& final(k).condvar_list == a.condvar_list
                &&& final(k).timers == a.timers
            } else if m.blocking {
                // Held, blocking kind: the caller joins the FIFO wait list
                // and the scheduler runs; the lock is owed to it in turn.
                &&& r == 0
                &&& final(k).mutex_status == a.mutex_status
                &&& final(k).mutex_list@[mutex_id as int]->Some_0.wait_queue@
                    == m.wait_queue@.push(c as usize)
                &&& final(k).mutex_list@[mutex_id as int]->Some_0.locked
                &&& final(k).mutex_list@[mutex_id as int]->Some_0.blocking
                &&& forall|i: int|
                    0 <= i < a.mutex_list@.len() && i != mutex_id
                        ==> #[trigger] final(k).mutex_list@[i] == a.mutex_list@[i]
                &&& task_updated(
                    a.tasks@[c],
                    final(k).tasks@[c],
                    TaskStatus::Blocked,
                    Some(WaitTarget::OnMutex(mutex_id)),
                    need_of(a.tasks@[c], true).update(mutex_id as int, 1usize),
                    have_of(a.tasks@[c], true),
                    need_of(a.tasks@[c], false),
                    have_of(a.tasks@[c], false),
                )
                &&& sched_from(a.manager.ready_queue@, a.tasks@, *final(k), c)
                &&& final(k).semaphore_status == a.semaphore_status
                &&& final(k).condvar_list == a.condvar_list
                &&& final(k).timers == a.timers
            } else {
                // Held, spinning kind: no queueing; the caller re-enters the
                // ready queue and one scheduling step runs; it will retry,
                // its request withdrawn meanwhile.
                &&& r == crate::RETRY_RC
                &&& final(k).mutex_status == a.mutex_status
                &&& final(k).mutex_list == a.mutex_list
                &&& ledgers_like(final(k).tasks@, a.tasks@)
                &&& (exists|ts: Seq<Option<TaskControlBlock>>|
                    {
                        &&& tasks_like(
                            ts,
                            a.tasks@.update(
                                c,
                                Some(
                                    (TaskControlBlock {
                                        task_status: TaskStatus::Ready,
                                        ..a.tasks@[c]->Some_0
                                    }),
                                ),
                            ),
                        )
                        &&& #[trigger] Kernel::schedule_rel(
                            a.manager.ready_queue@.push(c as usize),
                            ts,
                            *final(k),
                        )
                    })
                &&& final(k).semaphore_status == a.semaphore_status
                &&& final(k).condvar_list == a.condvar_list
                &&& final(k).timers == a.timers
            }
        },
{
    if mutex_id >= k.mutex_list.len() {
        return -1;
    }
    let c = match k.current {
        Some(c) => c,
        None => vstd::pervasive::unreached(),
    };
    let ghost a = *old(k);
    let ghost mid = mutex_id as int;
    let ghost wlen = a.mutex_status@.len();
    let ghost nm = needs_of(a.tasks@, true, wlen as nat);
    let ghost hm = haves_of(a.tasks@, true, wlen as nat);
    proof {
        assert(a.mutex_ok(mid));
        assert(a.live(c as int));
        assert(a.task_ok(c as int));
        assert(need_of(a.tasks@[c as int], true)[mid] == 0) by {
            let rr = a.tasks@[c as int]->Some_0.res->Some_0;
            if rr.mutex_need@[mid] != 0 {
                assert(a.status_at(c as int) == TaskStatus::Blocked);
            }
        }
    }
    // Record the pending request in the caller's ledger.
    {
        let t = task_mut(&mut k.tasks, c);
        let rr = res_mut(t);
        let v = rr.mutex_need[mutex_id];
        rr.mutex_need.set(mutex_id, v + 1);
    }
    let ghost treq = k.tasks@;
    let ghost vreq = k.tasks@[c as int];
    proof {
        assert(need_of(vreq, true) =~= need_of(a.tasks@[c as int], true).update(mid, 1usize));
        assert forall|mi: int| 0 <= mi < k.mutex_status@.len() implies
            #[trigger] k.mutex_status@[mi] + sum_have(k.tasks@, true, mi) == 1 by {
            crate::ledger::lemma_sum_have_same_class(a.tasks@, true, mi, c as int, vreq);
        }
        assert(needs_of(treq, true, wlen as nat) =~~= bump(nm, c as int, mid)) by {
            assert(nm[c as int] =~= Seq::new(
                wlen as nat,
                |j: int| res_need(a.tasks@[c as int], true, j),
            ));
        }
        assert(haves_of(treq, true, wlen as nat) =~~= hm);
    }
    if k.deadlock_detect_enable {
        let safe = detect_safe(&k.tasks, &k.mutex_status, true);
        if !safe {
            lock_withdraw(k, mutex_id, c, Ghost(a));
            return crate::DEADLOCK_RC;
        }
    }
    let (blocking, locked) = match &k.mutex_list[mutex_id] {
        Some(m) => (m.blocking, m.locked),
        None => vstd::pervasive::unreached(),
    };
    if !locked {
        proof {
            crate::ledger::lemma_sum_have_nonneg(a.tasks@, true, mid);
            lemma_sum_have_at_least(a.tasks@, true, mid, c as int);
            assert(a.mutex_status@[mid] == 1);
        }
        lock_grant(k, mutex_id, c, Ghost(a));
        return 0;
    }
    if blocking {
        lock_block(k, mutex_id, c, Ghost(a));
        return 0;
    }
    lock_spin_retry(k, mutex_id, c, Ghost(a));
    proof {
        let target = a.tasks@.update(
            c as int,
            Some(
                (TaskControlBlock {
                    task_status: TaskStatus::Ready,
                    ..a.tasks@[c as int]->Some_0
                }),
            ),
        );
        let ts = choose|ts: Seq<Option<TaskControlBlock>>|
            {
                &&& tasks_like(ts, target)
                &&& #[trigger] Kernel::schedule_rel(a.manager.ready_queue@.push(c), ts, *k)
            };
        assert(a.cur() == c as int);
        assert(Kernel::schedule_rel(a.manager.ready_queue@.push(a.cur() as usize), ts, *k));
    }
    crate::RETRY_RC
}

/// Withdraws a refused semaphore request: the caller's pending `need` entry
/// is rolled back, leaving the ledgers exactly as before the request.
fn down_withdraw(k: &mut Kernel, sem_id: usize, c: usize, Ghost(a): Ghost<Kernel>)
    requires
        a.wf(),
        a.current == Some(c),
        a.task_at(c as int).res is Some,
        sem_id < a.semaphore_list@.len(),
        need_of(a.tasks@[c as int], false)[sem_id as int] == 0,
        old(k).manager == a.manager,
        old(k).current == a.current,
        old(k).mutex_list == a.mutex_list,
        old(k).mutex_status == a.mutex_status,
        old(k).semaphore_list == a.semaphore_list,
        old(k).semaphore_status == a.semaphore_status,
        old(k).semaphore_cap == a.semaphore_cap,
        old(k).condvar_list == a.condvar_list,
        old(k).deadlock_detect_enable == a.deadlock_detect_enable,
        old(k).time_us == a.time_us,
        old(k).timers == a.timers,
        old(k).apps == a.apps,
        old(k).mapped_pages == a.mapped_pages,
        old(k).tasks@.len() == a.tasks@.len(),
        forall|t: int|
            0 <= t < a.tasks@.len() && t != c ==> #[trigger] old(k).tasks@[t] == a.tasks@[t],
        task_updated(
            a.tasks@[c as int],
            old(k).tasks@[c as int],
            TaskStatus::Running,
            a.task_at(c as int).blocked_on@,
            need_of(a.tasks@[c as int], true),
            have_of(a.tasks@[c as int], true),
            need_of(a.tasks@[c as int], false).update(sem_id as int, 1usize),
            have_of(a.tasks@[c as int], false),
        ),
    ensures
        final(k).wf(),
        tasks_like(final(k).tasks@, a.tasks@),
        final(k).manager == a.manager,
        final(k).current == a.current,
        final(k).mutex_list == a.mutex_list,
        final(k).mutex_status == a.mutex_status,
        final(k).semaphore_list == a.semaphore_list,
        final(k).semaphore_status == a.semaphore_status,
        final(k).semaphore_cap == a.semaphore_cap,
        final(k).condvar_list == a.condvar_list,
        final(k).deadlock_detect_enable == a.deadlock_detect_enable,
        final(k).time_us == a.time_us,
        final(k).timers == a.timers,
        final(k).apps == a.apps,
        final(k).mapped_pages == a.mapped_pages,
{
    let ghost sid = sem_id as int;
    proof {
        assert(a.live(c as int));
        assert(a.task_ok(c as int));
    }
    {
        let t = task_mut(&mut k.tasks, c);
        let rr = res_mut(t);
        let v = rr.semaphore_need[sem_id];
        rr.semaphore_need.set(sem_id, v - 1);
    }
    proof {
        let vc = k.tasks@[c as int];
        assert(need_of(vc, false) =~= need_of(a.tasks@[c as int], false));
        assert(k.tasks@ =~= a.tasks@.update(c as int, vc));
        assert forall|t: int|
            0 <= t < a.tasks@.len() implies slot_like(#[trigger] final(k).tasks@[t], a.tasks@[t])
            by {}
        assert forall|t: int| k.live(t) implies #[trigger] k.task_ok(t) by {
            assert(a.task_ok(t));
            if t == c as int {
                assert(need_of(k.tasks@[t], false) == need_of(a.tasks@[t], false));
            }
        }
        assert forall|i: int| 0 <= i < k.manager.ready_queue@.len() implies
            #[trigger] k.ready_ok(i) by {
            assert(a.ready_ok(i));
        }
        assert forall|mi: int| 0 <= mi < k.mutex_list@.len() implies #[trigger] k.mutex_ok(mi)
            by {
            assert(a.mutex_ok(mi));
            let m2 = k.mutex_list@[mi]->Some_0;
            assert forall|x: int| 0 <= x < m2.wait_queue@.len() implies k.mutex_waiter_ok(
                mi,
                #[trigger] m2.wait_queue@[x] as int,
            ) by {
                assert(a.mutex_waiter_ok(mi, m2.wait_queue@[x] as int));
                assert(m2.wait_queue@[x] != c) by {
                    assert(a.status_at(m2.wait_queue@[x] as int) == TaskStatus::Blocked);
                }
            }
        }
        assert forall|si: int| 0 <= si < k.semaphore_list@.len() implies #[trigger] k.sem_ok(si)
            by {
            assert(a.sem_ok(si));
            let sv = k.semaphore_list@[si]->Some_0;
            assert forall|x: int| 0 <= x < sv.wait_queue@.len() implies k.sem_waiter_ok(
                si,
                #[trigger] sv.wait_queue@[x] as int,
            ) by {
                assert(a.sem_waiter_ok(si, sv.wait_queue@[x] as int));
                assert(sv.wait_queue@[x] != c) by {
                    assert(a.status_at(sv.wait_queue@[x] as int) == TaskStatus::Blocked);
                }
            }
        }
        assert forall|ci: int| 0 <= ci < k.condvar_list@.len() implies #[trigger] k.condvar_ok(ci)
            by {
            assert(a.condvar_ok(ci));
            let cvv = k.condvar_list@[ci]->Some_0;
            assert forall|x: int| 0 <= x < cvv.wait_queue@.len() implies k.condvar_waiter_ok(
                ci,
                #[trigger] cvv.wait_queue@[x] as int,
            ) by {
                assert(a.condvar_waiter_ok(ci, cvv.wait_queue@[x] as int));
                assert(cvv.wait_queue@[x] != c) by {
                    assert(a.status_at(cvv.wait_queue@[x] as int) == TaskStatus::Blocked);
                }
            }
        }
        assert forall|x: int| 0 <= x < k.timers@.len() implies #[trigger] k.timer_ok(x) by {
            assert(a.timer_ok(x));
            assert(k.timers@[x].1 != c) by {
                assert(a.status_at(k.timers@[x].1 as int) == TaskStatus::Blocked);
            }
        }
        assert forall|mi: int| 0 <= mi < k.mutex_status@.len() implies
            #[trigger] k.mutex_status@[mi] + sum_have(k.tasks@, true, mi) == 1 by {
            crate::ledger::lemma_sum_have_same_class(a.tasks@, true, mi, c as int, vc);
        }
        assert forall|si: int| 0 <= si < k.semaphore_status@.len() implies
            #[trigger] k.semaphore_status@[si] + sum_have(k.tasks@, false, si)
            == k.semaphore_cap@[si] by {
            crate::ledger::lemma_sum_have_same_class(a.tasks@, false, si, c as int, vc);
        }
    }
}

/// Grants an available semaphore unit to the caller at once.
fn down_grant(k: &mut Kernel, sem_id: usize, c: usize, Ghost(a): Ghost<Kernel>)
    requires
        a.wf(),
        a.current == Some(c),
        a.task_at(c as int).res is Some,
        sem_id < a.semaphore_list@.len(),
        need_of(a.tasks@[c as int], false)[sem_id as int] == 0,
        old(k).manager == a.manager,
        old(k).current == a.current,
        old(k).mutex_list == a.mutex_list,
        old(k).mutex_status == a.mutex_status,
        old(k).semaphore_list == a.semaphore_list,
        old(k).semaphore_status == a.semaphore_status,
        old(k).semaphore_cap == a.semaphore_cap,
        old(k).condvar_list == a.condvar_list,
        old(k).deadlock_detect_enable == a.deadlock_detect_enable,
        old(k).time_us == a.time_us,
        old(k).timers == a.timers,
        old(k).apps == a.apps,
        old(k).mapped_pages == a.mapped_pages,
        old(k).tasks@.len() == a.tasks@.len(),
        forall|t: int|
            0 <= t < a.tasks@.len() && t != c ==> #[trigger] old(k).tasks@[t] == a.tasks@[t],
        task_updated(
            a.tasks@[c as int],
            old(k).tasks@[c as int],
            TaskStatus::Running,
            a.task_at(c as int).blocked_on@,
            need_of(a.tasks@[c as int], true),
            have_of(a.tasks@[c as int], true),
            need_of(a.tasks@[c as int], false).update(sem_id as int, 1usize),
            have_of(a.tasks@[c as int], false),
        ),
        a.semaphore_status@[sem_id as int] >= 1,
    ensures
        final(k).wf(),
        final(k).manager == a.manager,
        final(k).current == a.current,
        final(k).mutex_list == a.mutex_list,
        final(k).mutex_status == a.mutex_status,
        final(k).semaphore_status@ == a.semaphore_status@.update(
            sem_id as int,
            ((a.semaphore_status@[sem_id as int] - 1) as usize),
        ),
        final(k).semaphore_list@[sem_id as int]->Some_0.count == a.semaphore_list@[sem_id as int]->Some_0.count - 1,
        final(k).semaphore_list@[sem_id as int]->Some_0.wait_queue
            == a.semaphore_list@[sem_id as int]->Some_0.wait_queue,
        forall|i: int|
            0 <= i < a.semaphore_list@.len() && i != sem_id ==> #[trigger] final(k).semaphore_list@[i] == a.semaphore_list@[i],
        final(k).tasks@.len() == a.tasks@.len(),
        forall|t: int|
            0 <= t < a.tasks@.len() && t != c ==> #[trigger] final(k).tasks@[t] == a.tasks@[t],
        task_updated(
            a.tasks@[c as int],
            final(k).tasks@[c as int],
            TaskStatus::Running,
            a.task_at(c as int).blocked_on@,
            need_of(a.tasks@[c as int], true),
            have_of(a.tasks@[c as int], true),
            need_of(a.tasks@[c as int], false),
            have_of(a.tasks@[c as int], false).update(
                sem_id as int,
                ((have_of(a.tasks@[c as int], false)[sem_id as int] + 1) as usize),
            ),
        ),
        final(k).semaphore_cap == a.semaphore_cap,
        final(k).condvar_list == a.condvar_list,
        final(k).deadlock_detect_enable == a.deadlock_detect_enable,
        final(k).time_us == a.time_us,
        final(k).timers == a.timers,
        final(k).apps == a.apps,
        final(k).mapped_pages == a.mapped_pages,
{
    let ghost sid = sem_id as int;
    let ghost treq = k.tasks@;
    proof {
        assert(a.live(c as int));
        assert(a.task_ok(c as int));
        assert(a.sem_ok(sid));
        crate::ledger::lemma_sum_have_at_least(a.tasks@, false, sid, c as int);
    }
    {
        let s = sem_mut(&mut k.semaphore_list, sem_id);
        let cnt = s.count;
        s.count = cnt - 1;
    }
    let st = k.semaphore_status[sem_id];
    k.semaphore_status.set(sem_id, st - 1);
    {
        let t = task_mut(&mut k.tasks, c);
        let rr = res_mut(t);
        let hv = rr.semaphore_have[sem_id];
        proof {
            assert(res_have(a.tasks@[c as int], false, sid) + a.semaphore_status@[sid]
                <= a.semaphore_cap@[sid]);
        }
        rr.semaphore_have.set(sem_id, hv + 1);
        let nv = rr.semaphore_need[sem_id];
        rr.semaphore_need.set(sem_id, nv - 1);
    }
    proof {
        let vc = k.tasks@[c as int];
        assert(k.tasks@ =~= treq.update(c as int, vc));
        assert(k.tasks@ =~= a.tasks@.update(c as int, vc));
        assert(need_of(vc, false) =~= need_of(a.tasks@[c as int], false));
        assert forall|t: int| k.live(t) implies #[trigger] k.task_ok(t) by {
            assert(a.task_ok(t));
            if t == c as int {
                assert(need_of(k.tasks@[t], false) == need_of(a.tasks@[t], false));
            }
        }
        assert forall|i: int| 0 <= i < k.manager.ready_queue@.len() implies
            #[trigger] k.ready_ok(i) by {
            assert(a.ready_ok(i));
        }
        assert forall|mi: int| 0 <= mi < k.mutex_list@.len() implies #[trigger] k.mutex_ok(mi)
            by {
            assert(a.mutex_ok(mi));
            let m2 = k.mutex_list@[mi]->Some_0;
            assert forall|x: int| 0 <= x < m2.wait_queue@.len() implies k.mutex_waiter_ok(
                mi,
                #[trigger] m2.wait_queue@[x] as int,
            ) by {
                assert(a.mutex_waiter_ok(mi, m2.wait_queue@[x] as int));
                assert(m2.wait_queue@[x] != c) by {
                    assert(a.status_at(m2.wait_queue@[x] as int) == TaskStatus::Blocked);
                }
            }
        }
        assert forall|si: int| 0 <= si < k.semaphore_list@.len() implies #[trigger] k.sem_ok(si)
            by {
            assert(a.sem_ok(si));
            let sv = k.semaphore_list@[si]->Some_0;
            assert forall|x: int| 0 <= x < sv.wait_queue@.len() implies k.sem_waiter_ok(
                si,
                #[trigger] sv.wait_queue@[x] as int,
            ) by {
                assert(a.sem_waiter_ok(si, sv.wait_queue@[x] as int));
                assert(sv.wait_queue@[x] != c) by {
                    assert(a.status_at(sv.wait_queue@[x] as int) == TaskStatus::Blocked);
                }
            }
        }
        assert forall|ci: int| 0 <= ci < k.condvar_list@.len() implies #[trigger] k.condvar_ok(ci)
            by {
            assert(a.condvar_ok(ci));
            let cvv = k.condvar_list@[ci]->Some_0;
            assert forall|x: int| 0 <= x < cvv.wait_queue@.len() implies k.condvar_waiter_ok(
                ci,
                #[trigger] cvv.wait_queue@[x] as int,
            ) by {
                assert(a.condvar_waiter_ok(ci, cvv.wait_queue@[x] as int));
                assert(cvv.wait_queue@[x] != c) by {
                    assert(a.status_at(cvv.wait_queue@[x] as int) == TaskStatus::Blocked);
                }
            }
        }
        assert forall|x: int| 0 <= x < k.timers@.len() implies #[trigger] k.timer_ok(x) by {
            assert(a.timer_ok(x));
            assert(k.timers@[x].1 != c) by {
                assert(a.status_at(k.timers@[x].1 as int) == TaskStatus::Blocked);
            }
        }
        assert forall|mi: int| 0 <= mi < k.mutex_status@.len() implies
            #[trigger] k.mutex_status@[mi] + sum_have(k.tasks@, true, mi) == 1 by {
            crate::ledger::lemma_sum_have_same_class(a.tasks@, true, mi, c as int, vc);
        }
        assert forall|si: int| 0 <= si < k.semaphore_status@.len() implies
            #[trigger] k.semaphore_status@[si] + sum_have(k.tasks@, false, si)
            == k.semaphore_cap@[si] by {
            crate::ledger::lemma_sum_have_update(a.tasks@, false, si, c as int, vc);
            if si != sid {
                assert(res_have(vc, false, si) == res_have(a.tasks@[c as int], false, si));
            } else {
                assert(res_have(vc, false, sid) == res_have(a.tasks@[c as int], false, sid) + 1);
            }
        }
    }
}

/// Parks the caller at the tail of the FIFO wait list of an empty semaphore,
/// with its request pending, and hands control to the scheduler.
fn down_block(k: &mut Kernel, sem_id: usize, c: usize, Ghost(a): Ghost<Kernel>)
    requires
        a.wf(),
        a.current == Some(c),
        a.task_at(c as int).res is Some,
        sem_id < a.semaphore_list@.len(),
        need_of(a.tasks@[c as int], false)[sem_id as int] == 0,
        old(k).manager == a.manager,
        old(k).current == a.current,
        old(k).mutex_list == a.mutex_list,
        old(k).mutex_status == a.mutex_status,
        old(k).semaphore_list == a.semaphore_list,
        old(k).semaphore_status == a.semaphore_status,
        old(k).semaphore_cap == a.semaphore_cap,
        old(k).condvar_list == a.condvar_list,
        old(k).deadlock_detect_enable == a.deadlock_detect_enable,
        old(k).time_us == a.time_us,
        old(k).timers == a.timers,
        old(k).apps == a.apps,
        old(k).mapped_pages == a.mapped_pages,
        old(k).tasks@.len() == a.tasks@.len(),
        forall|t: int|
            0 <= t < a.tasks@.len() && t != c ==> #[trigger] old(k).tasks@[t] == a.tasks@[t],
        task_updated(
            a.tasks@[c as int],
            old(k).tasks@[c as int],
            TaskStatus::Running,
            a.task_at(c as int).blocked_on@,
            need_of(a.tasks@[c as int], true),
            have_of(a.tasks@[c as int], true),
            need_of(a.tasks@[c as int], false).update(sem_id as int, 1usize),
            have_of(a.tasks@[c as int], false),
        ),
        a.semaphore_status@[sem_id as int] == 0,
    ensures
        final(k).wf(),
        final(k).mutex_list == a.mutex_list,
        final(k).mutex_status == a.mutex_status,
        final(k).semaphore_status == a.semaphore_status,
        final(k).semaphore_list@[sem_id as int]->Some_0.wait_queue@
            == a.semaphore_list@[sem_id as int]->Some_0.wait_queue@.push(c),
        final(k).semaphore_list@[sem_id as int]->Some_0.count
            == a.semaphore_list@[sem_id as int]->Some_0.count,
        forall|i: int|
            0 <= i < a.semaphore_list@.len() && i != sem_id ==> #[trigger] final(k).semaphore_list@[i] == a.semaphore_list@[i],
        task_updated(
            a.tasks@[c as int],
            final(k).tasks@[c as int],
            TaskStatus::Blocked,
            Some(WaitTarget::OnSemaphore(sem_id)),
            need_of(a.tasks@[c as int], true),
            have_of(a.tasks@[c as int], true),
            need_of(a.tasks@[c as int], false).update(sem_id as int, 1usize),
            have_of(a.tasks@[c as int], false),
        ),
        sched_from(a.manager.ready_queue@, a.tasks@, *final(k), c as int),
        final(k).semaphore_cap == a.semaphore_cap,
        final(k).condvar_list == a.condvar_list,
        final(k).deadlock_detect_enable == a.deadlock_detect_enable,
        final(k).time_us == a.time_us,
        final(k).timers == a.timers,
        final(k).apps == a.apps,
        final(k).mapped_pages == a.mapped_pages,
{
    let ghost sid = sem_id as int;
    let ghost treq = k.tasks@;
    proof {
        assert(a.live(c as int));
        assert(a.task_ok(c as int));
        assert(a.sem_ok(sid));
    }
    {
        let s = sem_mut(&mut k.semaphore_list, sem_id);
        s.wait_queue.push(c);
    }
    {
        let t = task_mut(&mut k.tasks, c);
        t.task_status = TaskStatus::Blocked;
        t.blocked_on = Ghost(Some(WaitTarget::OnSemaphore(sem_id)));
    }
    k.current = None;
    let ghost tb = k.tasks@;
    proof {
        let vc = k.tasks@[c as int];
        assert(k.tasks@ =~= treq.update(c as int, vc));
        assert(k.tasks@ =~= a.tasks@.update(c as int, vc));
        assert forall|t: int| k.live(t) implies #[trigger] k.task_ok(t) by {
            assert(a.task_ok(t));
            if t == c as int {
                let rr = k.tasks@[t]->Some_0.res->Some_0;
                assert(rr.semaphore_need@ == need_of(a.tasks@[t], false).update(sid, 1usize));
                assert forall|j: int|
                    0 <= j < rr.semaphore_need@.len() && #[trigger] rr.semaphore_need@[j]
                    != 0 implies {
                    &&& k.tasks@[t]->Some_0.task_status == TaskStatus::Blocked
                    &&& k.tasks@[t]->Some_0.blocked_on@ == Some(
                        WaitTarget::OnSemaphore(j as usize),
                    )
                    &&& rr.semaphore_need@[j] == 1
                } by {
                    if j != sid {
                        assert(need_of(a.tasks@[t], false)[j] != 0);
                        assert(a.status_at(t) == TaskStatus::Blocked);
                    }
                }
            }
        }
        assert forall|i: int| 0 <= i < k.manager.ready_queue@.len() implies
            #[trigger] k.ready_ok(i) by {
            assert(a.ready_ok(i));
            assert(k.manager.ready_queue@[i] != c) by {
                assert(a.status_at(k.manager.ready_queue@[i] as int) == TaskStatus::Ready);
            }
        }
        assert forall|mi: int| 0 <= mi < k.mutex_list@.len() implies #[trigger] k.mutex_ok(mi)
            by {
            assert(a.mutex_ok(mi));
            let m2 = k.mutex_list@[mi]->Some_0;
            assert forall|x: int| 0 <= x < m2.wait_queue@.len() implies k.mutex_waiter_ok(
                mi,
                #[trigger] m2.wait_queue@[x] as int,
            ) by {
                assert(a.mutex_waiter_ok(mi, m2.wait_queue@[x] as int));
                assert(m2.wait_queue@[x] != c) by {
                    assert(a.status_at(m2.wait_queue@[x] as int) == TaskStatus::Blocked);
                }
            }
        }
        assert forall|si: int| 0 <= si < k.semaphore_list@.len() implies #[trigger] k.sem_ok(si)
            by {
            assert(a.sem_ok(si));
            let sv = k.semaphore_list@[si]->Some_0;
            let wq0 = a.semaphore_list@[si]->Some_0.wait_queue@;
            assert forall|x: int| 0 <= x < sv.wait_queue@.len() implies k.sem_waiter_ok(
                si,
                #[trigger] sv.wait_queue@[x] as int,
            ) by {
                if si == sid && x == wq0.len() {
                    assert(sv.wait_queue@[x] == c);
                } else {
                    assert(a.sem_waiter_ok(si, sv.wait_queue@[x] as int));
                    assert(sv.wait_queue@[x] != c) by {
                        assert(a.status_at(sv.wait_queue@[x] as int) == TaskStatus::Blocked);
                    }
                }
            }
            if si == sid {
                assert forall|x: int, y: int|
                    0 <= x < sv.wait_queue@.len() && 0 <= y < sv.wait_queue@.len() && x
                    != y implies sv.wait_queue@[x] != sv.wait_queue@[y] by {
                    if x < wq0.len() && y < wq0.len() {
                        assert(wq0[x] != wq0[y]);
                    } else if x < wq0.len() {
                        assert(a.sem_waiter_ok(sid, wq0[x] as int));
                        assert(a.status_at(wq0[x] as int) == TaskStatus::Blocked);
                    } else if y < wq0.len() {
                        assert(a.sem_waiter_ok(sid, wq0[y] as int));
                        assert(a.status_at(wq0[y] as int) == TaskStatus::Blocked);
                    }
                }
            }
        }
        assert forall|ci: int| 0 <= ci < k.condvar_list@.len() implies #[trigger] k.condvar_ok(ci)
            by {
            assert(a.condvar_ok(ci));
            let cvv = k.condvar_list@[ci]->Some_0;
            assert forall|x: int| 0 <= x < cvv.wait_queue@.len() implies k.condvar_waiter_ok(
                ci,
                #[trigger] cvv.wait_queue@[x] as int,
            ) by {
                assert(a.condvar_waiter_ok(ci, cvv.wait_queue@[x] as int));
                assert(cvv.wait_queue@[x] != c) by {
                    assert(a.status_at(cvv.wait_queue@[x] as int) == TaskStatus::Blocked);
                }
            }
        }
        assert forall|x: int| 0 <= x < k.timers@.len() implies #[trigger] k.timer_ok(x) by {
            assert(a.timer_ok(x));
            assert(k.timers@[x].1 != c) by {
                assert(a.status_at(k.timers@[x].1 as int) == TaskStatus::Blocked);
            }
        }
        assert forall|mi: int| 0 <= mi < k.mutex_status@.len() implies
            #[trigger] k.mutex_status@[mi] + sum_have(k.tasks@, true, mi) == 1 by {
            crate::ledger::lemma_sum_have_same_class(a.tasks@, true, mi, c as int, vc);
        }
        assert forall|si: int| 0 <= si < k.semaphore_status@.len() implies
            #[trigger] k.semaphore_status@[si] + sum_have(k.tasks@, false, si)
            == k.semaphore_cap@[si] by {
            crate::ledger::lemma_sum_have_same_class(a.tasks@, false, si, c as int, vc);
        }
        assert(k.wf());
    }
    let _ = k.fetch_task();
    proof {
        let q = a.manager.ready_queue@;
        assert forall|x: int| 0 <= x < q.len() implies #[trigger] tb[q[x] as int] == a.tasks@[q[x] as int] by {
            assert(a.ready_ok(x));
            assert(q[x] != c) by {
                assert(a.status_at(q[x] as int) == TaskStatus::Ready);
            }
        }
        lemma_sched_agree(q, a.tasks@, tb);
        if exists|i: int| ready_at(q, a.tasks@, i) {
            let i = choose|i: int|
                {
                    &&& #[trigger] selected_at(q, tb, i)
                    &&& k.current == Some(q[i])
                    &&& k.manager.ready_queue@ == q.remove(i)
                    &&& k.tasks@ == tb.update(
                        q[i] as int,
                        Some(
                            (TaskControlBlock {
                                stride: advance_stride(
                                    tb[q[i] as int]->Some_0.stride,
                                    tb[q[i] as int]->Some_0.priority,
                                ),
                                task_status: TaskStatus::Running,
                                ..tb[q[i] as int]->Some_0
                            }),
                        ),
                    )
                };
            assert(q[i] != c) by {
                assert(ready_at(q, tb, i));
                assert(a.status_at(q[i] as int) == TaskStatus::Ready);
            }
            assert(selected_at(q, a.tasks@, i));
            assert(tb[q[i] as int] == a.tasks@[q[i] as int]);
            assert(sched_from(q, a.tasks@, *k, c as int));
        } else {
            assert forall|i: int| !ready_at(q, tb, i) by {
                assert(!ready_at(q, a.tasks@, i));
            }
            assert(sched_from(q, a.tasks@, *k, c as int));
        }
    }
}

/// Takes one unit of a counting semaphore for the calling task. The request
/// is recorded in the task's `need` ledger first; with deadlock detection
/// enabled, the feasibility simulation judges the state with the request
/// pending, and an infeasible request is rolled back and refused with the
/// deadlock sentinel. An available unit is granted at once; with none
/// available the caller is parked at the tail of the FIFO wait list and the
/// unit will be handed over in arrival order, so 0 is returned for the
/// granted request. Returns -1 for an unknown handle.
pub fn sys_semaphore_down(k: &mut Kernel, sem_id: usize) -> (r: isize)
    requires
        old(k).wf(),
        old(k).current is Some,
        old(k).task_at(old(k).cur()).res is Some,
    ensures
        final(k).wf(),
        final(k).mutex_list == old(k).mutex_list,
        final(k).mutex_status == old(k).mutex_status,
        final(k).semaphore_cap == old(k).semaphore_cap,
        final(k).condvar_list == old(k).condvar_list,
        final(k).deadlock_detect_enable == old(k).deadlock_detect_enable,
        final(k).time_us == old(k).time_us,
        final(k).timers == old(k).timers,
        final(k).apps == old(k).apps,
        final(k).mapped_pages == old(k).mapped_pages,
        sem_id >= old(k).semaphore_list@.len() ==> r == -1 && *final(k) == *old(k),
        sem_id < old(k).semaphore_list@.len() ==> {
            let a = *old(k);
            let c = a.cur();
            let w = a.semaphore_status@.len();
            let ns = needs_of(a.tasks@, false, w as nat);
            let hs = haves_of(a.tasks@, false, w as nat);
            let feas = feasible(
                bump(ns, c, sem_id as int),
                hs,
                int_view(a.semaphore_status@),
            );
            if a.deadlock_detect_enable && !feas {
                // Refused: the pending request is withdrawn, nothing granted.
                &&& r == crate::DEADLOCK_RC
                &&& tasks_like(final(k).tasks@, a.tasks@)
                &&& final(k).manager == a.manager
                &&& final(k).current == a.current
                &&& final(k).mutex_list == a.mutex_list
                &&& final(k).mutex_status == a.mutex_status
                &&& final(k).semaphore_list == a.semaphore_list
                &&& final(k).semaphore_status == a.semaphore_status
                &&& final(k).condvar_list == a.condvar_list
                &&& final(k).timers == a.timers
            } else if a.semaphore_status@[sem_id as int] >= 1 {
                // Units available: granted at once.
                &&& r == 0
                &&& final(k).manager == a.manager
                &&& final(k).current == a.current
                &&& final(k).semaphore_status@ == a.semaphore_status@.update(
                    sem_id as int,
                    ((a.semaphore_status@[sem_id as int] - 1) as usize),
                )
                &&& final(k).tasks@.len() == a.tasks@.len()
                &&& forall|t: int|
                    0 <= t < a.tasks@.len() && t != c ==> #[trigger] final(k).tasks@[t]
                        == a.tasks@[t]
                &&& task_updated(
                    a.tasks@[c],
                    final(k).tasks@[c],
                    TaskStatus::Running,
                    a.task_at(c).blocked_on@,
                    need_of(a.tasks@[c], true),
                    have_of(a.tasks@[c], true),
                    need_of(a.tasks@[c], false),
                    have_of(a.tasks@[c], false).update(
                        sem_id as int,
                        ((have_of(a.tasks@[c], false)[sem_id as int] + 1) as usize),
                    ),
                )
                &&& final(k).mutex_status == a.mutex_status
                &&& final(k).condvar_list == a.condvar_list
                &&& final(k).timers == a.timers
            } else {
                // Empty: the caller joins the FIFO wait list and the
                // scheduler runs; a unit is owed to it in arrival order.
                &&& r == 0
                &&& final(k).semaphore_status == a.semaphore_status
                &&& final(k).semaphore_list@[sem_id as int]->Some_0.wait_queue@
                    == a.semaphore_list@[sem_id as int]->Some_0.wait_queue@.push(c as usize)
                &&& forall|i: int|
                    0 <= i < a.semaphore_list@.len() && i != sem_id
                        ==> #[trigger] final(k).semaphore_list@[i] == a.semaphore_list@[i]
                &&& task_updated(
                    a.tasks@[c],
                    final(k).tasks@[c],
                    TaskStatus::Blocked,
                    Some(WaitTarget::OnSemaphore(sem_id)),
                    need_of(a.tasks@[c], true),
                    have_of(a.tasks@[c], true),
                    need_of(a.tasks@[c], false).update(sem_id as int, 1usize),
                    have_of(a.tasks@[c], false),
                )
                &&& sched_from(a.manager.ready_queue@, a.tasks@, *final(k), c)
                &&& final(k).mutex_status == a.mutex_status
                &&& final(k).condvar_list == a.condvar_list
                &&& final(k).timers == a.timers
            }
        },
{
    if sem_id >= k.semaphore_list.len() {
        return -1;
    }
    let c = match k.current {
        Some(c) => c,
        None => vstd::pervasive::unreached(),
    };
    let ghost a = *old(k);
    let ghost sid = sem_id as int;
    let ghost wlen = a.semaphore_status@.len();
    let ghost ns = needs_of(a.tasks@, false, wlen as nat);
    let ghost hs = haves_of(a.tasks@, false, wlen as nat);
    proof {
        assert(a.sem_ok(sid));
        assert(a.live(c as int));
        assert(a.task_ok(c as int));
        assert(need_of(a.tasks@[c as int], false)[sid] == 0) by {
            let rr = a.tasks@[c as int]->Some_0.res->Some_0;
            if rr.semaphore_need@[sid] != 0 {
                assert(a.status_at(c as int) == TaskStatus::Blocked);
            }
        }
    }
    // Record the pending request in the caller's ledger.
    {
        let t = task_mut(&mut k.tasks, c);
        let rr = res_mut(t);
        let v = rr.semaphore_need[sem_id];
        rr.semaphore_need.set(sem_id, v + 1);
    }
    let ghost treq = k.tasks@;
    let ghost vreq = k.tasks@[c as int];
    proof {
        assert(need_of(vreq, false) =~= need_of(a.tasks@[c as int], false).update(sid, 1usize));
        assert forall|si: int| 0 <= si < k.semaphore_status@.len() implies
            #[trigger] k.semaphore_status@[si] + sum_have(k.tasks@, false, si)
            == k.semaphore_cap@[si] by {
            crate::ledger::lemma_sum_have_same_class(a.tasks@, false, si, c as int, vreq);
        }
        assert(needs_of(treq, false, wlen as nat) =~~= bump(ns, c as int, sid)) by {
            assert(ns[c as int] =~= Seq::new(
                wlen as nat,
                |j: int| res_need(a.tasks@[c as int], false, j),
            ));
        }
        assert(haves_of(treq, false, wlen as nat) =~~= hs);
    }
    if k.deadlock_detect_enable {
        let safe = detect_safe(&k.tasks, &k.semaphore_status, false);
        if !safe {
            down_withdraw(k, sem_id, c, Ghost(a));
            return crate::DEADLOCK_RC;
        }
    }
    let avail = k.semaphore_status[sem_id];
    if avail > 0 {
        down_grant(k, sem_id, c, Ghost(a));
        return 0;
    }
    down_block(k, sem_id, c, Ghost(a));
    0
}

/// Suspends the calling task until `ms` milliseconds from now: a timer with
/// the expiry timestamp is registered, the task blocks, and the scheduler
/// runs. The task returns to `Ready` when the timer fires. Always returns 0.
pub fn sys_sleep(k: &mut Kernel, ms: usize) -> (r: isize)
    requires
        old(k).wf(),
        old(k).current is Some,
        old(k).time_us / 1000 + ms <= usize::MAX,
    ensures
        final(k).wf(),
        r == 0,
        final(k).timers@ == old(k).timers@.push(
            (((old(k).time_us / 1000 + ms) as usize), old(k).current->Some_0),
        ),
        task_updated(
            old(k).tasks@[old(k).cur()],
            final(k).tasks@[old(k).cur()],
            TaskStatus::Blocked,
            Some(WaitTarget::Sleeping),
            need_of(old(k).tasks@[old(k).cur()], true),
            have_of(old(k).tasks@[old(k).cur()], true),
            need_of(old(k).tasks@[old(k).cur()], false),
            have_of(old(k).tasks@[old(k).cur()], false),
        ) || old(k).task_at(old(k).cur()).res is None,
        sched_from(old(k).manager.ready_queue@, old(k).tasks@, *final(k), old(k).cur()),
        final(k).status_at(old(k).cur()) == TaskStatus::Blocked,
        final(k).mutex_list == old(k).mutex_list,
        final(k).mutex_status == old(k).mutex_status,
        final(k).semaphore_list == old(k).semaphore_list,
        final(k).semaphore_status == old(k).semaphore_status,
        final(k).semaphore_cap == old(k).semaphore_cap,
        final(k).condvar_list == old(k).condvar_list,
        final(k).deadlock_detect_enable == old(k).deadlock_detect_enable,
        final(k).time_us == old(k).time_us,
        final(k).apps == old(k).apps,
        final(k).mapped_pages == old(k).mapped_pages,
{
    let c = match k.current {
        Some(c) => c,
        None => vstd::pervasive::unreached(),
    };
    let ghost a = *old(k);
    let expire_ms = k.time_us / 1000 + ms;
    k.timers.push((expire_ms, c));
    proof {
        assert(a.live(c as int));
        assert(a.task_ok(c as int));
    }
    {
        let t = task_mut(&mut k.tasks, c);
        t.task_status = TaskStatus::Blocked;
        t.blocked_on = Ghost(Some(WaitTarget::Sleeping));
    }
    k.current = None;
    let ghost tb = k.tasks@;
    proof {
        let vc = k.tasks@[c as int];
        assert(k.tasks@ =~= a.tasks@.update(c as int, vc));
        assert forall|t: int| k.live(t) implies #[trigger] k.task_ok(t) by {
            assert(a.task_ok(t));
        }
        assert forall|i: int| 0 <= i < k.manager.ready_queue@.len() implies
            #[trigger] k.ready_ok(i) by {
            assert(a.ready_ok(i));
            assert(k.manager.ready_queue@[i] != c) by {
                assert(a.status_at(k.manager.ready_queue@[i] as int) == TaskStatus::Ready);
            }
        }
        assert forall|mi: int| 0 <= mi < k.mutex_list@.len() implies #[trigger] k.mutex_ok(mi)
            by {
            assert(a.mutex_ok(mi));
            let m2 = k.mutex_list@[mi]->Some_0;
            assert forall|x: int| 0 <= x < m2.wait_queue@.len() implies k.mutex_waiter_ok(
                mi,
                #[trigger] m2.wait_queue@[x] as int,
            ) by {
                assert(a.mutex_waiter_ok(mi, m2.wait_queue@[x] as int));
                assert(m2.wait_queue@[x] != c) by {
                    assert(a.status_at(m2.wait_queue@[x] as int) == TaskStatus::Blocked);
                }
            }
        }
        assert forall|si: int| 0 <= si < k.semaphore_list@.len() implies #[trigger] k.sem_ok(si)
            by {
            assert(a.sem_ok(si));
            let sv = k.semaphore_list@[si]->Some_0;
            assert forall|x: int| 0 <= x < sv.wait_queue@.len() implies k.sem_waiter_ok(
                si,
                #[trigger] sv.wait_queue@[x] as int,
            ) by {
                assert(a.sem_waiter_ok(si, sv.wait_queue@[x] as int));
                assert(sv.wait_queue@[x] != c) by {
                    assert(a.status_at(sv.wait_queue@[x] as int) == TaskStatus::Blocked);
                }
            }
        }
        assert forall|ci: int| 0 <= ci < k.condvar_list@.len() implies #[trigger] k.condvar_ok(ci)
            by {
            assert(a.condvar_ok(ci));
            let cvv = k.condvar_list@[ci]->Some_0;
            assert forall|x: int| 0 <= x < cvv.wait_queue@.len() implies k.condvar_waiter_ok(
                ci,
                #[trigger] cvv.wait_queue@[x] as int,
            ) by {
                assert(a.condvar_waiter_ok(ci, cvv.wait_queue@[x] as int));
                assert(cvv.wait_queue@[x] != c) by {
                    assert(a.status_at(cvv.wait_queue@[x] as int) == TaskStatus::Blocked);
                }
            }
        }
        assert forall|x: int| 0 <= x < k.timers@.len() implies #[trigger] k.timer_ok(x) by {
            if x < a.timers@.len() {
                assert(a.timer_ok(x));
                assert(k.timers@[x].1 != c) by {
                    assert(a.status_at(k.timers@[x].1 as int) == TaskStatus::Blocked);
                }
            }
        }
        assert forall|x: int, y: int|
            0 <= x < k.timers@.len() && 0 <= y < k.timers@.len() && x != y implies (
        #[trigger] k.timers@[x]).1 != (#[trigger] k.timers@[y]).1 by {
            if x < a.timers@.len() && y < a.timers@.len() {
            } else if x < a.timers@.len() {
                assert(a.timer_ok(x));
                assert(a.status_at(k.timers@[x].1 as int) == TaskStatus::Blocked);
            } else if y < a.timers@.len() {
                assert(a.timer_ok(y));
                assert(a.status_at(k.timers@[y].1 as int) == TaskStatus::Blocked);
            }
        }
        assert forall|mi: int| 0 <= mi < k.mutex_status@.len() implies
            #[trigger] k.mutex_status@[mi] + sum_have(k.tasks@, true, mi) == 1 by {
            crate::ledger::lemma_sum_have_same_res(a.tasks@, true, mi, c as int, vc);
        }
        assert forall|si: int| 0 <= si < k.semaphore_status@.len() implies
            #[trigger] k.semaphore_status@[si] + sum_have(k.tasks@, false, si)
            == k.semaphore_cap@[si] by {
            crate::ledger::lemma_sum_have_same_res(a.tasks@, false, si, c as int, vc);
        }
        assert(k.wf());
    }
    let _ = k.fetch_task();
    proof {
        let q = a.manager.ready_queue@;
        assert forall|x: int| 0 <= x < q.len() implies #[trigger] tb[q[x] as int] == a.tasks@[q[x] as int] by {
            assert(a.ready_ok(x));
            assert(q[x] != c) by {
                assert(a.status_at(q[x] as int) == TaskStatus::Ready);
            }
        }
        lemma_sched_agree(q, a.tasks@, tb);
        if exists|i: int| ready_at(q, a.tasks@, i) {
            let i = choose|i: int|
                {
                    &&& #[trigger] selected_at(q, tb, i)
                    &&& k.current == Some(q[i])
                    &&& k.manager.ready_queue@ == q.remove(i)
                    &&& k.tasks@ == tb.update(
                        q[i] as int,
                        Some(
                            (TaskControlBlock {
                                stride: advance_stride(
                                    tb[q[i] as int]->Some_0.stride,
                                    tb[q[i] as int]->Some_0.priority,
                                ),
                                task_status: TaskStatus::Running,
                                ..tb[q[i] as int]->Some_0
                            }),
                        ),
                    )
                };
            assert(q[i] != c) by {
                assert(ready_at(q, tb, i));
                assert(a.status_at(q[i] as int) == TaskStatus::Ready);
            }
            assert(selected_at(q, a.tasks@, i));
            assert(tb[q[i] as int] == a.tasks@[q[i] as int]);
            assert(sched_from(q, a.tasks@, *k, c as int));
        } else {
            assert forall|i: int| !ready_at(q, tb, i) by {
                assert(!ready_at(q, a.tasks@, i));
            }
            assert(sched_from(q, a.tasks@, *k, c as int));
        }
    }
    0
}

/// Atomically releases the given mutex and parks the calling task on the
/// condition variable's FIFO wait list; a later signal wakes it, and the
/// woken task reacquires the mutex itself (no implicit reacquire). Returns
/// 0, or -1 when either handle is unknown.
pub fn sys_condvar_wait(k: &mut Kernel, condvar_id: usize, mutex_id: usize) -> (r: isize)
    requires
        old(k).wf(),
        old(k).current is Some,
        condvar_id < old(k).condvar_list@.len() && mutex_id < old(k).mutex_list@.len() ==> old(
            k,
        ).task_at(old(k).cur()).res is Some && need_of(old(k).tasks@[old(k).cur()], true).len()
            > mutex_id && have_of(old(k).tasks@[old(k).cur()], true)[mutex_id as int] >= 1,
    ensures
        final(k).wf(),
        r == if condvar_id < old(k).condvar_list@.len() && mutex_id < old(k).mutex_list@.len() {
            0isize
        } else {
            -1isize
        },
        (condvar_id >= old(k).condvar_list@.len() || mutex_id >= old(k).mutex_list@.len())
            ==> *final(k) == *old(k),
        condvar_id < old(k).condvar_list@.len() && mutex_id < old(k).mutex_list@.len() ==> {
            let a = *old(k);
            let c = a.cur();
            &&& final(k).condvar_list@[condvar_id as int]->Some_0.wait_queue@
                == a.condvar_list@[condvar_id as int]->Some_0.wait_queue@.push(c as usize)
            &&& forall|i: int|
                0 <= i < a.condvar_list@.len() && i != condvar_id
                    ==> #[trigger] final(k).condvar_list@[i] == a.condvar_list@[i]
            &&& final(k).status_at(c) == TaskStatus::Blocked
            &&& final(k).task_at(c).blocked_on@ == Some(WaitTarget::OnCondvar(condvar_id))
            &&& need_of(final(k).tasks@[c], true) == need_of(a.tasks@[c], true)
            &&& have_of(final(k).tasks@[c], true) == have_of(a.tasks@[c], true).update(
                mutex_id as int,
                0usize,
            )
            &&& (a.mutex_list@[mutex_id as int]->Some_0.wait_queue@.len() == 0 ==> {
                // Nobody waited on the mutex: the lock became free.
                &&& final(k).mutex_status@ == a.mutex_status@.update(mutex_id as int, 1usize)
                &&& final(k).mutex_list@[mutex_id as int]->Some_0 == (MutexState {
                    locked: false,
                    ..a.mutex_list@[mutex_id as int]->Some_0
                })
            })
            &&& (a.mutex_list@[mutex_id as int]->Some_0.wait_queue@.len() > 0 ==> {
                // The lock was handed straight to the head waiter.
                let m = a.mutex_list@[mutex_id as int]->Some_0;
                let w = m.wait_queue@[0] as int;
                &&& final(k).mutex_status@ == a.mutex_status@
                &&& final(k).mutex_list@[mutex_id as int]->Some_0.locked == m.locked
                &&& final(k).mutex_list@[mutex_id as int]->Some_0.blocking == m.blocking
                &&& final(k).mutex_list@[mutex_id as int]->Some_0.wait_queue@
                    == m.wait_queue@.remove(0)
                &&& need_of(final(k).tasks@[w], true) == need_of(a.tasks@[w], true).update(
                    mutex_id as int,
                    0usize,
                )
                &&& have_of(final(k).tasks@[w], true) == have_of(a.tasks@[w], true).update(
                    mutex_id as int,
                    1usize,
                )
            })
            &&& forall|i: int|
                0 <= i < a.mutex_list@.len() && i != mutex_id ==> #[trigger] final(k).mutex_list@[i]
                    == a.mutex_list@[i]
            &&& (a.mutex_list@[mutex_id as int]->Some_0.wait_queue@.len() == 0 ==> exists|
                ts: Seq<Option<TaskControlBlock>>,
            |
                {
                    &&& ts.len() == a.tasks@.len()
                    &&& task_updated(
                        a.tasks@[c],
                        ts[c],
                        TaskStatus::Blocked,
                        Some(WaitTarget::OnCondvar(condvar_id)),
                        need_of(a.tasks@[c], true),
                        have_of(a.tasks@[c], true).update(mutex_id as int, 0usize),
                        need_of(a.tasks@[c], false),
                        have_of(a.tasks@[c], false),
                    )
                    &&& (forall|t: int|
                        0 <= t < a.tasks@.len() && t != c ==> #[trigger] ts[t] == a.tasks@[t])
                    &&& #[trigger] Kernel::schedule_rel(a.manager.ready_queue@, ts, *final(k))
                })
            &&& (a.mutex_list@[mutex_id as int]->Some_0.wait_queue@.len() > 0 ==> exists|
                ts: Seq<Option<TaskControlBlock>>,
            |
                {
                    let w = a.mutex_list@[mutex_id as int]->Some_0.wait_queue@[0] as int;
                    &&& ts.len() == a.tasks@.len()
                    &&& task_updated(
                        a.tasks@[c],
                        ts[c],
                        TaskStatus::Blocked,
                        Some(WaitTarget::OnCondvar(condvar_id)),
                        need_of(a.tasks@[c], true),
                        have_of(a.tasks@[c], true).update(mutex_id as int, 0usize),
                        need_of(a.tasks@[c], false),
                        have_of(a.tasks@[c], false),
                    )
                    &&& task_updated(
                        a.tasks@[w],
                        ts[w],
                        TaskStatus::Ready,
                        None,
                        need_of(a.tasks@[w], true).update(mutex_id as int, 0usize),
                        have_of(a.tasks@[w], true).update(mutex_id as int, 1usize),
                        need_of(a.tasks@[w], false),
                        have_of(a.tasks@[w], false),
                    )
                    &&& (forall|t: int|
                        0 <= t < a.tasks@.len() && t != c && t != w ==> #[trigger] ts[t]
                            == a.tasks@[t])
                    &&& #[trigger] Kernel::schedule_rel(
                        a.manager.ready_queue@.push(
                            a.mutex_list@[mutex_id as int]->Some_0.wait_queue@[0],
                        ),
                        ts,
                        *final(k),
                    )
                })
            &&& final(k).semaphore_status == a.semaphore_status
            &&& final(k).semaphore_list == a.semaphore_list
            &&& final(k).semaphore_cap == a.semaphore_cap
            &&& final(k).deadlock_detect_enable == a.deadlock_detect_enable
            &&& final(k).time_us == a.time_us
            &&& final(k).timers == a.timers
            &&& final(k).apps == a.apps
            &&& final(k).mapped_pages == a.mapped_pages
        },
{
    if condvar_id >= k.condvar_list.len() || mutex_id >= k.mutex_list.len() {
        return -1;
    }
    let c = match k.current {
        Some(c) => c,
        None => vstd::pervasive::unreached(),
    };
    let ghost a = *old(k);
    let _ = sys_mutex_unlock(k, mutex_id);
    let ghost a2 = *k;
    proof {
        assert(a2.wf());
        assert(a2.current == Some(c));
        assert(a2.live(c as int));
        assert(a2.task_ok(c as int));
    }
    {
        let cv = condvar_mut(&mut k.condvar_list, condvar_id);
        cv.wait_queue.push(c);
    }
    {
        let t = task_mut(&mut k.tasks, c);
        t.task_status = TaskStatus::Blocked;
        t.blocked_on = Ghost(Some(WaitTarget::OnCondvar(condvar_id)));
    }
    k.current = None;
    let ghost cid = condvar_id as int;
    proof {
        let vc = k.tasks@[c as int];
        assert(k.tasks@ =~= a2.tasks@.update(c as int, vc));
        assert forall|t: int| k.live(t) implies #[trigger] k.task_ok(t) by {
            assert(a2.task_ok(t));
            if t == c as int {
                let rr2 = k.tasks@[t]->Some_0.res->Some_0;
                assert forall|j: int|
                    0 <= j < rr2.mutex_need@.len() && #[trigger] rr2.mutex_need@[j] != 0 implies {
                    &&& k.tasks@[t]->Some_0.task_status == TaskStatus::Blocked
                    &&& k.tasks@[t]->Some_0.blocked_on@ == Some(WaitTarget::OnMutex(j as usize))
                    &&& rr2.mutex_need@[j] == 1
                } by {
                    assert(a2.status_at(t) == TaskStatus::Running);
                }
                assert forall|j: int|
                    0 <= j < rr2.semaphore_need@.len() && #[trigger] rr2.semaphore_need@[j]
                    != 0 implies {
                    &&& k.tasks@[t]->Some_0.task_status == TaskStatus::Blocked
                    &&& k.tasks@[t]->Some_0.blocked_on@ == Some(
                        WaitTarget::OnSemaphore(j as usize),
                    )
                    &&& rr2.semaphore_need@[j] == 1
                } by {
                    assert(a2.status_at(t) == TaskStatus::Running);
                }
            }
        }
        assert forall|i: int| 0 <= i < k.manager.ready_queue@.len() implies
            #[trigger] k.ready_ok(i) by {
            assert(a2.ready_ok(i));
            assert(k.manager.ready_queue@[i] != c) by {
                assert(a2.status_at(k.manager.ready_queue@[i] as int) == TaskStatus::Ready);
            }
        }
        assert forall|mi: int| 0 <= mi < k.mutex_list@.len() implies #[trigger] k.mutex_ok(mi)
            by {
            assert(a2.mutex_ok(mi));
            let m2 = k.mutex_list@[mi]->Some_0;
            assert forall|x: int| 0 <= x < m2.wait_queue@.len() implies k.mutex_waiter_ok(
                mi,
                #[trigger] m2.wait_queue@[x] as int,
            ) by {
                assert(a2.mutex_waiter_ok(mi, m2.wait_queue@[x] as int));
                assert(m2.wait_queue@[x] != c) by {
                    assert(a2.status_at(m2.wait_queue@[x] as int) == TaskStatus::Blocked);
                }
            }
        }
        assert forall|si: int| 0 <= si < k.semaphore_list@.len() implies #[trigger] k.sem_ok(si)
            by {
            assert(a2.sem_ok(si));
            let sv = k.semaphore_list@[si]->Some_0;
            assert forall|x: int| 0 <= x < sv.wait_queue@.len() implies k.sem_waiter_ok(
                si,
                #[trigger] sv.wait_queue@[x] as int,
            ) by {
                assert(a2.sem_waiter_ok(si, sv.wait_queue@[x] as int));
                assert(sv.wait_queue@[x] != c) by {
                    assert(a2.status_at(sv.wait_queue@[x] as int) == TaskStatus::Blocked);
                }
            }
        }
        assert forall|ci: int| 0 <= ci < k.condvar_list@.len() implies #[trigger] k.condvar_ok(ci)
            by {
            assert(a2.condvar_ok(ci));
            let cvv = k.condvar_list@[ci]->Some_0;
            let wq0 = a2.condvar_list@[ci]->Some_0.wait_queue@;
            assert forall|x: int| 0 <= x < cvv.wait_queue@.len() implies k.condvar_waiter_ok(
                ci,
                #[trigger] cvv.wait_queue@[x] as int,
            ) by {
                if ci == cid && x == wq0.len() {
                    assert(cvv.wait_queue@[x] == c);
                } else {
                    assert(a2.condvar_waiter_ok(ci, cvv.wait_queue@[x] as int));
                    assert(cvv.wait_queue@[x] != c) by {
                        assert(a2.status_at(cvv.wait_queue@[x] as int) == TaskStatus::Blocked);
                    }
                }
            }
            if ci == cid {
                assert forall|x: int, y: int|
                    0 <= x < cvv.wait_queue@.len() && 0 <= y < cvv.wait_queue@.len() && x
                    != y implies cvv.wait_queue@[x] != cvv.wait_queue@[y] by {
                    if x < wq0.len() && y < wq0.len() {
                        assert(wq0[x] != wq0[y]);
                    } else if x < wq0.len() {
                        assert(a2.condvar_waiter_ok(cid, wq0[x] as int));
                        assert(a2.status_at(wq0[x] as int) == TaskStatus::Blocked);
                    } else if y < wq0.len() {
                        assert(a2.condvar_waiter_ok(cid, wq0[y] as int));
                        assert(a2.status_at(wq0[y] as int) == TaskStatus::Blocked);
                    }
                }
            }
        }
        assert forall|x: int| 0 <= x < k.timers@.len() implies #[trigger] k.timer_ok(x) by {
            assert(a2.timer_ok(x));
            assert(k.timers@[x].1 != c) by {
                assert(a2.status_at(k.timers@[x].1 as int) == TaskStatus::Blocked);
            }
        }
        assert forall|mi: int| 0 <= mi < k.mutex_status@.len() implies
            #[trigger] k.mutex_status@[mi] + sum_have(k.tasks@, true, mi) == 1 by {
            crate::ledger::lemma_sum_have_same_res(a2.tasks@, true, mi, c as int, vc);
        }
        assert forall|si: int| 0 <= si < k.semaphore_status@.len() implies
            #[trigger] k.semaphore_status@[si] + sum_have(k.tasks@, false, si)
            == k.semaphore_cap@[si] by {
            crate::ledger::lemma_sum_have_same_res(a2.tasks@, false, si, c as int, vc);
        }
        assert(k.wf());
    }
    let ghost tb = k.tasks@;
    let _ = k.fetch_task();
    proof {
        let mid2 = mutex_id as int;
        let mwq = a.mutex_list@[mid2]->Some_0.wait_queue@;
        let q1: Seq<usize> = if mwq.len() == 0 {
            a.manager.ready_queue@
        } else {
            a.manager.ready_queue@.push(mwq[0])
        };
        assert(task_updated(
            a.tasks@[c as int],
            tb[c as int],
            TaskStatus::Blocked,
            Some(WaitTarget::OnCondvar(condvar_id)),
            need_of(a.tasks@[c as int], true),
            have_of(a.tasks@[c as int], true).update(mid2, 0usize),
            need_of(a.tasks@[c as int], false),
            have_of(a.tasks@[c as int], false),
        ));
        if mwq.len() > 0 {
            let w = mwq[0] as int;
            assert(a.mutex_ok(mid2));
            assert(a.mutex_waiter_ok(mid2, w));
            assert(w != c as int) by {
                assert(a.status_at(w) == TaskStatus::Blocked);
            }
            assert(tb[w] == a2.tasks@[w]);
            assert(task_updated(
                a.tasks@[w],
                tb[w],
                TaskStatus::Ready,
                None,
                need_of(a.tasks@[w], true).update(mid2, 0usize),
                have_of(a.tasks@[w], true).update(mid2, 1usize),
                need_of(a.tasks@[w], false),
                have_of(a.tasks@[w], false),
            ));
        }
        assert(Kernel::schedule_rel(q1, tb, *k));
        // The scheduler step preserves every task's ledger, so the head
        // waiter's grant survives into the final state.
        if mwq.len() > 0 {
            let w = mwq[0] as int;
            if exists|i: int| ready_at(q1, tb, i) {
                let i = choose|i: int|
                    {
                        &&& #[trigger] selected_at(q1, tb, i)
                        &&& k.current == Some(q1[i])
                        &&& k.manager.ready_queue@ == q1.remove(i)
                        &&& k.tasks@ == tb.update(
                            q1[i] as int,
                            Some(
                                (TaskControlBlock {
                                    stride: advance_stride(
                                        tb[q1[i] as int]->Some_0.stride,
                                        tb[q1[i] as int]->Some_0.priority,
                                    ),
                                    task_status: TaskStatus::Running,
                                    ..tb[q1[i] as int]->Some_0
                                }),
                            ),
                        )
                    };
                assert(need_of(k.tasks@[w], true) == need_of(tb[w], true));
                assert(have_of(k.tasks@[w], true) == have_of(tb[w], true));
            }
            assert(need_of(k.tasks@[w], true) == need_of(a.tasks@[w], true).update(mid2, 0usize));
            assert(have_of(k.tasks@[w], true) == have_of(a.tasks@[w], true).update(mid2, 1usize));
        }
    }
    0
}

} // verus!
