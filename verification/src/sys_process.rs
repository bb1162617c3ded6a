use vstd::prelude::*;

use crate::kernel::Kernel;
use crate::ledger::{res_have, sum_have};
use crate::manager::{ready_at, selected_at};
use crate::task::{have_of, need_of, task_mut, TaskControlBlock, TaskStatus, TaskUserRes};

verus! {

/// Number of distinct system calls a task-information record counts.
pub const MAX_SYSCALL_NUM: usize = 500;

/// A wall-clock instant, seconds and microseconds.
#[derive(Debug)]
pub struct TimeVal {
    pub sec: usize,
    pub usec: usize,
}

/// A snapshot of one task: its lifecycle status, how often it made each
/// system call, and its total running time in milliseconds.
pub struct TaskInfo {
    pub status: TaskStatus,
    pub syscall_times: [u32; 500],
    pub time: usize,
}

/// The running task's identity.
pub fn sys_getpid(k: &Kernel) -> (r: isize)
    requires
        k.wf(),
        k.current is Some,
        k.tasks@.len() < isize::MAX,
    ensures
        r == k.cur(),
{
    let c = match k.current {
        Some(c) => c,
        None => vstd::pervasive::unreached(),
    };
    proof {
        assert(k.live(c as int));
    }
    c as isize
}

/// Fills `ts` with the current time, split into seconds and microseconds.
pub fn sys_get_time(k: &Kernel, ts: &mut TimeVal, tz: usize) -> (r: isize)
    ensures
        r == 0,
        final(ts).sec == k.time_us / 1_000_000,
        final(ts).usec == k.time_us % 1_000_000,
{
    ts.sec = k.time_us / 1_000_000;
    ts.usec = k.time_us % 1_000_000;
    0
}

/// Sets the running task's scheduling priority. Priorities of 1 or below are
/// rejected with -1; otherwise the priority is set and returned.
pub fn sys_set_priority(k: &mut Kernel, prio: isize) -> (r: isize)
    requires
        old(k).wf(),
        old(k).current is Some,
    ensures
        final(k).wf(),
        r == if prio <= 1 {
            -1isize
        } else {
            prio
        },
        prio <= 1 ==> *final(k) == *old(k),
        prio > 1 ==> {
            &&& final(k).tasks@ == old(k).tasks@.update(
                old(k).cur(),
                Some(
                    (TaskControlBlock {
                        priority: prio as u64,
                        ..old(k).tasks@[old(k).cur()]->Some_0
                    }),
                ),
            )
            &&& final(k).manager == old(k).manager
            &&& final(k).current == old(k).current
            &&& final(k).mutex_list == old(k).mutex_list
            &&& final(k).mutex_status == old(k).mutex_status
            &&& final(k).semaphore_list == old(k).semaphore_list
            &&& final(k).semaphore_status == old(k).semaphore_status
            &&& final(k).condvar_list == old(k).condvar_list
            &&& final(k).timers == old(k).timers
        },
{
    if prio <= 1 {
        return -1;
    }
    let c = match k.current {
        Some(c) => c,
        None => vstd::pervasive::unreached(),
    };
    let ghost a = *old(k);
    proof {
        assert(a.live(c as int));
        assert(a.task_ok(c as int));
    }
    let t = task_mut(&mut k.tasks, c);
    t.priority = prio as u64;
    proof {
        let vc = k.tasks@[c as int];
        assert forall|t2: int| k.live(t2) implies #[trigger] k.task_ok(t2) by {
            assert(a.task_ok(t2));
        }
        assert forall|i: int| 0 <= i < k.manager.ready_queue@.len() implies #[trigger] k.ready_ok(
            i,
        ) by {
            assert(a.ready_ok(i));
        }
        assert forall|mi: int| 0 <= mi < k.mutex_list@.len() implies #[trigger] k.mutex_ok(mi) by {
            assert(a.mutex_ok(mi));
            let m2 = k.mutex_list@[mi]->Some_0;
            assert forall|x: int| 0 <= x < m2.wait_queue@.len() implies k.mutex_waiter_ok(
                mi,
                #[trigger] m2.wait_queue@[x] as int,
            ) by {
                assert(a.mutex_waiter_ok(mi, m2.wait_queue@[x] as int));
            }
        }
        assert forall|si: int| 0 <= si < k.semaphore_list@.len() implies #[trigger] k.sem_ok(si)
            by {
            assert(a.sem_ok(si));
            let sv = k.semaphore_list@[si]->Some_0;
            assert forall|x: int| 0 <= x < sv.wait_queue@.len() implies k.sem_waiter_ok(
                si,
                #[trigger] sv.wait_queue@[x] as int,
            ) by {
                assert(a.sem_waiter_ok(si, sv.wait_queue@[x] as int));
            }
        }
        assert forall|ci: int| 0 <= ci < k.condvar_list@.len() implies #[trigger] k.condvar_ok(ci)
            by {
            assert(a.condvar_ok(ci));
            let cvv = k.condvar_list@[ci]->Some_0;
            assert forall|x: int| 0 <= x < cvv.wait_queue@.len() implies k.condvar_waiter_ok(
                ci,
                #[trigger] cvv.wait_queue@[x] as int,
            ) by {
                assert(a.condvar_waiter_ok(ci, cvv.wait_queue@[x] as int));
            }
        }
        assert forall|x: int| 0 <= x < k.timers@.len() implies #[trigger] k.timer_ok(x) by {
            assert(a.timer_ok(x));
        }
        assert forall|mi: int| 0 <= mi < k.mutex_status@.len() implies
            #[trigger] k.mutex_status@[mi] + sum_have(k.tasks@, true, mi) == 1 by {
            crate::ledger::lemma_sum_have_same_res(a.tasks@, true, mi, c as int, vc);
        }
        assert forall|si: int| 0 <= si < k.semaphore_status@.len() implies
            #[trigger] k.semaphore_status@[si] + sum_have(k.tasks@, false, si)
            == k.semaphore_cap@[si] by {
            crate::ledger::lemma_sum_have_same_res(a.tasks@, false, si, c as int, vc);
        }
    }
    prio
}

/// The running task gives up the core: it returns to the ready queue and the
/// scheduler picks the next task (possibly the same one). Returns 0.
pub fn sys_yield(k: &mut Kernel) -> (r: isize)
    requires
        old(k).wf(),
        old(k).current is Some,
    ensures
        final(k).wf(),
        r == 0,
        Kernel::schedule_rel(
            old(k).manager.ready_queue@.push(old(k).current->Some_0),
            old(k).tasks@.update(
                old(k).cur(),
                Some(
                    (TaskControlBlock {
                        task_status: TaskStatus::Ready,
                        ..old(k).tasks@[old(k).cur()]->Some_0
                    }),
                ),
            ),
            *final(k),
        ),
        final(k).mutex_list == old(k).mutex_list,
        final(k).mutex_status == old(k).mutex_status,
        final(k).semaphore_list == old(k).semaphore_list,
        final(k).semaphore_status == old(k).semaphore_status,
        final(k).semaphore_cap == old(k).semaphore_cap,
        final(k).condvar_list == old(k).condvar_list,
        final(k).deadlock_detect_enable == old(k).deadlock_detect_enable,
        final(k).time_us == old(k).time_us,
        final(k).timers == old(k).timers,
        final(k).apps == old(k).apps,
        final(k).mapped_pages == old(k).mapped_pages,
{
    let c = match k.current {
        Some(c) => c,
        None => vstd::pervasive::unreached(),
    };
    let ghost a = *old(k);
    proof {
        assert(a.live(c as int));
        assert(a.task_ok(c as int));
    }
    {
        let t = task_mut(&mut k.tasks, c);
        t.task_status = TaskStatus::Ready;
    }
    k.current = None;
    proof {
        let vc = k.tasks@[c as int];
        assert forall|t2: int| k.live(t2) implies #[trigger] k.task_ok(t2) by {
            assert(a.task_ok(t2));
        }
        assert forall|i: int| 0 <= i < k.manager.ready_queue@.len() implies #[trigger] k.ready_ok(
            i,
        ) by {
            assert(a.ready_ok(i));
            assert(k.manager.ready_queue@[i] != c) by {
                assert(a.status_at(k.manager.ready_queue@[i] as int) == TaskStatus::Ready);
            }
        }
        assert forall|mi: int| 0 <= mi < k.mutex_list@.len() implies #[trigger] k.mutex_ok(mi) by {
            assert(a.mutex_ok(mi));
            let m2 = k.mutex_list@[mi]->Some_0;
            assert forall|x: int| 0 <= x < m2.wait_queue@.len() implies k.mutex_waiter_ok(
                mi,
                #[trigger] m2.wait_queue@[x] as int,
            ) by {
                assert(a.mutex_waiter_ok(mi, m2.wait_queue@[x] as int));
                assert(m2.wait_queue@[x] != c) by {
                    assert(a.status_at(m2.wait_queue@[x] as int) == TaskStatus::Blocked);
                }
            }
        }
        assert forall|si: int| 0 <= si < k.semaphore_list@.len() implies #[trigger] k.sem_ok(si)
            by {
            assert(a.sem_ok(si));
            let sv = k.semaphore_list@[si]->Some_0;
            assert forall|x: int| 0 <= x < sv.wait_queue@.len() implies k.sem_waiter_ok(
                si,
                #[trigger] sv.wait_queue@[x] as int,
            ) by {
                assert(a.sem_waiter_ok(si, sv.wait_queue@[x] as int));
                assert(sv.wait_queue@[x] != c) by {
                    assert(a.status_at(sv.wait_queue@[x] as int) == TaskStatus::Blocked);
                }
            }
        }
        assert forall|ci: int| 0 <= ci < k.condvar_list@.len() implies #[trigger] k.condvar_ok(ci)
            by {
            assert(a.condvar_ok(ci));
            let cvv = k.condvar_list@[ci]->Some_0;
            assert forall|x: int| 0 <= x < cvv.wait_queue@.len() implies k.condvar_waiter_ok(
                ci,
                #[trigger] cvv.wait_queue@[x] as int,
            ) by {
                assert(a.condvar_waiter_ok(ci, cvv.wait_queue@[x] as int));
                assert(cvv.wait_queue@[x] != c) by {
                    assert(a.status_at(cvv.wait_queue@[x] as int) == TaskStatus::Blocked);
                }
            }
        }
        assert forall|x: int| 0 <= x < k.timers@.len() implies #[trigger] k.timer_ok(x) by {
            assert(a.timer_ok(x));
            assert(k.timers@[x].1 != c) by {
                assert(a.status_at(k.timers@[x].1 as int) == TaskStatus::Blocked);
            }
        }
        assert forall|mi: int| 0 <= mi < k.mutex_status@.len() implies
            #[trigger] k.mutex_status@[mi] + sum_have(k.tasks@, true, mi) == 1 by {
            crate::ledger::lemma_sum_have_same_res(a.tasks@, true, mi, c as int, vc);
        }
        assert forall|si: int| 0 <= si < k.semaphore_status@.len() implies
            #[trigger] k.semaphore_status@[si] + sum_have(k.tasks@, false, si)
            == k.semaphore_cap@[si] by {
            crate::ledger::lemma_sum_have_same_res(a.tasks@, false, si, c as int, vc);
        }
        assert(k.wf());
        assert forall|i: int|
            0 <= i < k.manager.ready_queue@.len() implies #[trigger] k.manager.ready_queue@[i]
            != c by {
            assert(a.ready_ok(i));
            assert(a.status_at(k.manager.ready_queue@[i] as int) == TaskStatus::Ready);
        }
    }
    k.add_task(c);
    let _ = k.fetch_task();
    0
}

/// Whether two byte strings are equal.
fn bytes_eq(x: &Vec<u8>, y: &Vec<u8>) -> (r: bool)
    ensures
        r == (x@ == y@),
{
    if x.len() != y.len() {
        proof {
            assert(x@.len() != y@.len());
        }
        return false;
    }
    let n = x.len();
    let mut i: usize = 0;
    while i < n
        invariant
            i <= n,
            n == x.len() == y.len(),
            forall|j: int| 0 <= j < i ==> x@[j] == #[trigger] y@[j],
        decreases n - i,
    {
        if x[i] != y[i] {
            return false;
        }
        i = i + 1;
    }
    proof {
        assert(x@ =~= y@);
    }
    true
}

/// Whether a loadable program of this name exists.
fn find_app(apps: &Vec<Vec<u8>>, path: &Vec<u8>) -> (r: bool)
    ensures
        r == (exists|i: int| 0 <= i < apps@.len() && (#[trigger] apps@[i])@ == path@),
{
    let n = apps.len();
    let mut i: usize = 0;
    while i < n
        invariant
            i <= n,
            n == apps.len(),
            forall|j: int| 0 <= j < i ==> (#[trigger] apps@[j])@ != path@,
        decreases n - i,
    {
        if bytes_eq(&apps[i], path) {
            return true;
        }
        i = i + 1;
    }
    false
}

/// Replaces the running task's program image by the named one. The loading
/// itself is the program loader's work; this core only validates the name.
/// Returns 0 when the program exists, -1 otherwise.
pub fn sys_exec(k: &Kernel, path: &Vec<u8>) -> (r: isize)
    requires
        k.wf(),
        k.current is Some,
    ensures
        r == if exists|i: int| 0 <= i < k.apps@.len() && (#[trigger] k.apps@[i])@ == path@ {
            0isize
        } else {
            -1isize
        },
{
    if find_app(&k.apps, path) {
        0
    } else {
        -1
    }
}

/// A vector of `n` zero entries.
fn zero_vec(n: usize) -> (v: Vec<usize>)
    ensures
        v@.len() == n,
        forall|j: int| 0 <= j < n ==> #[trigger] v@[j] == 0,
{
    let mut v: Vec<usize> = Vec::new();
    let mut i: usize = 0;
    while i < n
        invariant
            i <= n,
            v@.len() == i,
            forall|j: int| 0 <= j < i ==> #[trigger] v@[j] == 0,
        decreases n - i,
    {
        v.push(0);
        i = i + 1;
    }
    v
}

/// Admits a new task to the task set and the ready queue: it enters `Ready`
/// with a zero-valued, index-aligned resource record, and its id — the new
/// task-table slot — is returned. Shared by `sys_fork` and `sys_spawn`.
fn admit_task(k: &mut Kernel, stride: u64, priority: u64, heap_bottom: usize, program_brk: usize) -> (r: usize)
    requires
        old(k).wf(),
        old(k).current is Some,
        priority >= 2,
    ensures
        final(k).wf(),
        r == old(k).tasks@.len(),
        final(k).tasks@.len() == old(k).tasks@.len() + 1,
        forall|t: int|
            0 <= t < old(k).tasks@.len() && t != old(k).cur() ==> #[trigger] final(k).tasks@[t]
                == old(k).tasks@[t],
        final(k).live(r as int),
        final(k).task_at(r as int).task_status == TaskStatus::Ready,
        final(k).task_at(r as int).stride == stride,
        final(k).task_at(r as int).priority == priority,
        final(k).task_at(r as int).parent == Some(old(k).current->Some_0),
        final(k).task_at(r as int).children@.len() == 0,
        final(k).task_at(r as int).res is Some,
        final(k).task_at(old(k).cur()).children@ == old(k).task_at(old(k).cur()).children@.push(r),
        final(k).tasks@[old(k).cur()] == Some(
            (TaskControlBlock {
                children: final(k).tasks@[old(k).cur()]->Some_0.children,
                ..old(k).tasks@[old(k).cur()]->Some_0
            }),
        ),
        final(k).manager.ready_queue@ == old(k).manager.ready_queue@.push(r),
        final(k).current == old(k).current,
        final(k).mutex_list == old(k).mutex_list,
        final(k).mutex_status == old(k).mutex_status,
        final(k).semaphore_list == old(k).semaphore_list,
        final(k).semaphore_status == old(k).semaphore_status,
        final(k).semaphore_cap == old(k).semaphore_cap,
        final(k).condvar_list == old(k).condvar_list,
        final(k).deadlock_detect_enable == old(k).deadlock_detect_enable,
        final(k).time_us == old(k).time_us,
        final(k).timers == old(k).timers,
        final(k).apps == old(k).apps,
        final(k).mapped_pages == old(k).mapped_pages,
{
    let c = match k.current {
        Some(c) => c,
        None => vstd::pervasive::unreached(),
    };
    let ghost a = *old(k);
    let tid = k.tasks.len();
    let child = TaskControlBlock {
        tid,
        task_status: TaskStatus::Ready,
        stride,
        priority,
        exit_code: 0,
        res: Some(
            TaskUserRes {
                mutex_need: zero_vec(k.mutex_list.len()),
                mutex_have: zero_vec(k.mutex_list.len()),
                semaphore_need: zero_vec(k.semaphore_list.len()),
                semaphore_have: zero_vec(k.semaphore_list.len()),
            },
        ),
        parent: Some(c),
        children: Vec::new(),
        heap_bottom,
        program_brk,
        blocked_on: Ghost(None),
    };
    k.tasks.push(Some(child));
    proof {
        assert(a.live(c as int));
        assert(a.task_ok(c as int));
    }
    {
        let t = task_mut(&mut k.tasks, c);
        t.children.push(tid);
    }
    let ghost tmid = k.tasks@;
    proof {
        let vc = k.tasks@[c as int];
        let vnew = k.tasks@[tid as int];
        assert(k.tasks@ =~= a.tasks@.push(vnew).update(c as int, vc));
        assert forall|t2: int| k.live(t2) implies #[trigger] k.task_ok(t2) by {
            if t2 < a.tasks@.len() {
                assert(a.task_ok(t2));
            } else {
                assert(res_have(k.tasks@[t2], true, 0) >= 0);
            }
        }
        assert forall|i: int| 0 <= i < k.manager.ready_queue@.len() implies #[trigger] k.ready_ok(
            i,
        ) by {
            assert(a.ready_ok(i));
        }
        assert forall|mi: int| 0 <= mi < k.mutex_list@.len() implies #[trigger] k.mutex_ok(mi) by {
            assert(a.mutex_ok(mi));
            let m2 = k.mutex_list@[mi]->Some_0;
            assert forall|x: int| 0 <= x < m2.wait_queue@.len() implies k.mutex_waiter_ok(
                mi,
                #[trigger] m2.wait_queue@[x] as int,
            ) by {
                assert(a.mutex_waiter_ok(mi, m2.wait_queue@[x] as int));
            }
        }
        assert forall|si: int| 0 <= si < k.semaphore_list@.len() implies #[trigger] k.sem_ok(si)
            by {
            assert(a.sem_ok(si));
            let sv = k.semaphore_list@[si]->Some_0;
            assert forall|x: int| 0 <= x < sv.wait_queue@.len() implies k.sem_waiter_ok(
                si,
                #[trigger] sv.wait_queue@[x] as int,
            ) by {
                assert(a.sem_waiter_ok(si, sv.wait_queue@[x] as int));
            }
        }
        assert forall|ci: int| 0 <= ci < k.condvar_list@.len() implies #[trigger] k.condvar_ok(ci)
            by {
            assert(a.condvar_ok(ci));
            let cvv = k.condvar_list@[ci]->Some_0;
            assert forall|x: int| 0 <= x < cvv.wait_queue@.len() implies k.condvar_waiter_ok(
                ci,
                #[trigger] cvv.wait_queue@[x] as int,
            ) by {
                assert(a.condvar_waiter_ok(ci, cvv.wait_queue@[x] as int));
            }
        }
        assert forall|x: int| 0 <= x < k.timers@.len() implies #[trigger] k.timer_ok(x) by {
            assert(a.timer_ok(x));
        }
        assert forall|mi: int| 0 <= mi < k.mutex_status@.len() implies
            #[trigger] k.mutex_status@[mi] + sum_have(k.tasks@, true, mi) == 1 by {
            crate::ledger::lemma_sum_have_push(a.tasks@, true, mi, vnew);
            crate::ledger::lemma_sum_have_same_res(a.tasks@.push(vnew), true, mi, c as int, vc);
        }
        assert forall|si: int| 0 <= si < k.semaphore_status@.len() implies
            #[trigger] k.semaphore_status@[si] + sum_have(k.tasks@, false, si)
            == k.semaphore_cap@[si] by {
            crate::ledger::lemma_sum_have_push(a.tasks@, false, si, vnew);
            crate::ledger::lemma_sum_have_same_res(a.tasks@.push(vnew), false, si, c as int, vc);
        }
        assert(k.wf());
        assert forall|i: int|
            0 <= i < k.manager.ready_queue@.len() implies #[trigger] k.manager.ready_queue@[i]
            != tid by {
            assert(a.ready_ok(i));
        }
    }
    k.add_task(tid);
    tid
}

/// Forks the running task: the child enters the ready queue as a fresh task
/// with the parent's priority and stride, an empty ledger of the current
/// width, and the parent listed as its parent. Returns the child's id.
pub fn sys_fork(k: &mut Kernel) -> (r: isize)
    requires
        old(k).wf(),
        old(k).current is Some,
        old(k).tasks@.len() < isize::MAX,
    ensures
        final(k).wf(),
        r == old(k).tasks@.len(),
        final(k).tasks@.len() == old(k).tasks@.len() + 1,
        final(k).live(r as int),
        final(k).task_at(r as int).task_status == TaskStatus::Ready,
        final(k).task_at(r as int).priority == old(k).task_at(old(k).cur()).priority,
        final(k).task_at(r as int).stride == old(k).task_at(old(k).cur()).stride,
        final(k).task_at(r as int).parent == old(k).current,
        final(k).task_at(old(k).cur()).children@ == old(k).task_at(
            old(k).cur(),
        ).children@.push(r as usize),
        final(k).tasks@[old(k).cur()] == Some(
            (TaskControlBlock {
                children: final(k).tasks@[old(k).cur()]->Some_0.children,
                ..old(k).tasks@[old(k).cur()]->Some_0
            }),
        ),
        forall|t: int|
            0 <= t < old(k).tasks@.len() && t != old(k).cur() ==> #[trigger] final(k).tasks@[t]
                == old(k).tasks@[t],
        final(k).manager.ready_queue@ == old(k).manager.ready_queue@.push(r as usize),
        final(k).current == old(k).current,
        final(k).mutex_list == old(k).mutex_list,
        final(k).mutex_status == old(k).mutex_status,
        final(k).semaphore_list == old(k).semaphore_list,
        final(k).semaphore_status == old(k).semaphore_status,
        final(k).semaphore_cap == old(k).semaphore_cap,
        final(k).condvar_list == old(k).condvar_list,
        final(k).deadlock_detect_enable == old(k).deadlock_detect_enable,
        final(k).time_us == old(k).time_us,
        final(k).timers == old(k).timers,
        final(k).apps == old(k).apps,
        final(k).mapped_pages == old(k).mapped_pages,
{
    let c = match k.current {
        Some(c) => c,
        None => vstd::pervasive::unreached(),
    };
    proof {
        assert(old(k).live(c as int));
        assert(old(k).task_ok(c as int));
    }
    let (stride, priority, hb, pb) = match &k.tasks[c] {
        Some(t) => (t.stride, t.priority, t.heap_bottom, t.program_brk),
        None => vstd::pervasive::unreached(),
    };
    let tid = admit_task(k, stride, priority, hb, pb);
    tid as isize
}

/// Creates a new task running the named program: with an unknown name
/// nothing happens and -1 is returned; otherwise the new task enters the
/// ready queue with the default priority and a fresh ledger, as a child of
/// the caller, and its id is returned.
pub fn sys_spawn(k: &mut Kernel, path: &Vec<u8>) -> (r: isize)
    requires
        old(k).wf(),
        old(k).current is Some,
        old(k).tasks@.len() < isize::MAX,
    ensures
        final(k).wf(),
        !(exists|i: int| 0 <= i < old(k).apps@.len() && (#[trigger] old(k).apps@[i])@ == path@)
            ==> r == -1 && *final(k) == *old(k),
        (exists|i: int| 0 <= i < old(k).apps@.len() && (#[trigger] old(k).apps@[i])@ == path@)
            ==> {
            &&& r == old(k).tasks@.len()
            &&& final(k).tasks@.len() == old(k).tasks@.len() + 1
            &&& final(k).live(r as int)
            &&& final(k).task_at(r as int).task_status == TaskStatus::Ready
            &&& final(k).task_at(r as int).priority == 16
            &&& final(k).task_at(r as int).stride == 0
            &&& final(k).task_at(r as int).parent == old(k).current
            &&& final(k).task_at(old(k).cur()).children@ == old(k).task_at(
                old(k).cur(),
            ).children@.push(r as usize)
            &&& final(k).manager.ready_queue@ == old(k).manager.ready_queue@.push(r as usize)
            &&& final(k).current == old(k).current
            &&& forall|t: int|
                0 <= t < old(k).tasks@.len() && t != old(k).cur() ==> #[trigger] final(k).tasks@[t] == old(k).tasks@[t]
        },
        final(k).mutex_list == old(k).mutex_list,
        final(k).mutex_status == old(k).mutex_status,
        final(k).semaphore_list == old(k).semaphore_list,
        final(k).semaphore_status == old(k).semaphore_status,
        final(k).semaphore_cap == old(k).semaphore_cap,
        final(k).condvar_list == old(k).condvar_list,
        final(k).deadlock_detect_enable == old(k).deadlock_detect_enable,
        final(k).time_us == old(k).time_us,
        final(k).timers == old(k).timers,
        final(k).apps == old(k).apps,
        final(k).mapped_pages == old(k).mapped_pages,
{
    if !find_app(&k.apps, path) {
        return -1;
    }
    let tid = admit_task(k, 0, 16, 0, 0);
    tid as isize
}


/// First page of the range starting at `start`.
pub open spec fn page_start(start: usize) -> int {
    start as int / crate::PAGE_SIZE as int
}

/// One past the last page of the range `[start, start + len)`.
pub open spec fn page_end(start: usize, len: usize) -> int {
    if len == 0 {
        page_start(start)
    } else {
        (start + len - 1) / (crate::PAGE_SIZE as int) + 1
    }
}

/// Some page in `[s, e)` is in the page list.
pub open spec fn any_in_range(m: Seq<usize>, s: int, e: int) -> bool {
    exists|v: usize| s <= v < e && m.contains(v)
}

/// Some page in `[s, e)` is missing from the page list.
pub open spec fn any_missing(m: Seq<usize>, s: int, e: int) -> bool {
    exists|v: usize| s <= v < e && !m.contains(v)
}

/// Whether a page of the address space is currently mapped.
fn page_mapped(pages: &Vec<usize>, v: usize) -> (r: bool)
    ensures
        r == pages@.contains(v),
{
    let n = pages.len();
    let mut i: usize = 0;
    while i < n
        invariant
            i <= n,
            n == pages.len(),
            forall|j: int| 0 <= j < i ==> pages@[j] != v,
        decreases n - i,
    {
        if pages[i] == v {
            assert(pages@[i as int] == v);
            return true;
        }
        i = i + 1;
    }
    proof {
        assert(!pages@.contains(v)) by {
            if pages@.contains(v) {
                let j = choose|j: int| 0 <= j < pages@.len() && pages@[j] == v;
            }
        }
    }
    false
}

/// Maps the pages covering `[start, start + len)` with the given permission
/// bits. Rejected with -1 when `start` is not page-aligned, when `port` has
/// bits outside the low three or none of them, or when any page of the range
/// is already mapped; nothing is mapped on rejection's page check path
/// before the check completes. On success every page of the range is added.
pub fn sys_mmap(k: &mut Kernel, start: usize, len: usize, port: usize) -> (r: isize)
    requires
        old(k).wf(),
        start + len <= usize::MAX,
    ensures
        final(k).wf(),
        final(k).tasks == old(k).tasks,
        final(k).manager == old(k).manager,
        final(k).current == old(k).current,
        final(k).mutex_list == old(k).mutex_list,
        final(k).mutex_status == old(k).mutex_status,
        final(k).semaphore_list == old(k).semaphore_list,
        final(k).semaphore_status == old(k).semaphore_status,
        final(k).semaphore_cap == old(k).semaphore_cap,
        final(k).condvar_list == old(k).condvar_list,
        final(k).timers == old(k).timers,
        r == -1 || r == 0,
        r == -1 <==> (start % crate::PAGE_SIZE != 0 || port & !0x7usize != 0 || port & 0x7usize
            == 0 || any_in_range(old(k).mapped_pages@, page_start(start), page_end(start, len))),
        r == -1 ==> final(k).mapped_pages == old(k).mapped_pages,
        r == 0 ==> final(k).mapped_pages@ == old(k).mapped_pages@ + Seq::new(
            (page_end(start, len) - page_start(start)) as nat,
            |x: int| (page_start(start) + x) as usize,
        ),
{
    let ghost a = *old(k);
    let s = start / crate::PAGE_SIZE;
    let e = if len == 0 {
        s
    } else {
        (start + len - 1) / crate::PAGE_SIZE + 1
    };
    if start % crate::PAGE_SIZE != 0 || port & !0x7 != 0 || port & 0x7 == 0 {
        return -1;
    }
    let mut v = s;
    while v < e
        invariant
            s <= v <= e,
            s as int == page_start(start),
            e as int == page_end(start, len),
            k.tasks == a.tasks,
            k.manager == a.manager,
            k.current == a.current,
            k.mutex_list == a.mutex_list,
            k.mutex_status == a.mutex_status,
            k.semaphore_list == a.semaphore_list,
            k.semaphore_status == a.semaphore_status,
            k.semaphore_cap == a.semaphore_cap,
            k.condvar_list == a.condvar_list,
            k.deadlock_detect_enable == a.deadlock_detect_enable,
            k.time_us == a.time_us,
            k.timers == a.timers,
            k.apps == a.apps,
            k.mapped_pages == a.mapped_pages,
            a.wf(),
            forall|x: usize| s <= x < v ==> !a.mapped_pages@.contains(x),
        decreases e - v,
    {
        if page_mapped(&k.mapped_pages, v) {
            proof {
                lemma_wf_pages(a, *k);
                assert(s as int == page_start(start));
                assert(e as int == page_end(start, len));
                assert(a.mapped_pages@.contains(v));
                assert(any_in_range(a.mapped_pages@, page_start(start), page_end(start, len)))
                    by {
                    assert(page_start(start) <= v < page_end(start, len)
                        && a.mapped_pages@.contains(v));
                }
            }
            return -1;
        }
        v = v + 1;
    }
    proof {
        assert(k.mapped_pages@ =~= a.mapped_pages@ + Seq::new(0nat, |x: int| (s + x) as usize));
    }
    let mut v2 = s;
    while v2 < e
        invariant
            s <= v2 <= e,
            s as int == page_start(start),
            e as int == page_end(start, len),
            k.tasks == a.tasks,
            k.manager == a.manager,
            k.current == a.current,
            k.mutex_list == a.mutex_list,
            k.mutex_status == a.mutex_status,
            k.semaphore_list == a.semaphore_list,
            k.semaphore_status == a.semaphore_status,
            k.semaphore_cap == a.semaphore_cap,
            k.condvar_list == a.condvar_list,
            k.deadlock_detect_enable == a.deadlock_detect_enable,
            k.time_us == a.time_us,
            k.timers == a.timers,
            k.apps == a.apps,
            a.wf(),
            k.mapped_pages@ == a.mapped_pages@ + Seq::new(
                (v2 - s) as nat,
                |x: int| (s + x) as usize,
            ),
        decreases e - v2,
    {
        k.mapped_pages.push(v2);
        proof {
            assert(k.mapped_pages@ =~= a.mapped_pages@ + Seq::new(
                (v2 + 1 - s) as nat,
                |x: int| (s + x) as usize,
            ));
        }
        v2 = v2 + 1;
    }
    proof {
        assert(k.mapped_pages@ =~= a.mapped_pages@ + Seq::new(
            (e - s) as nat,
            |x: int| (s + x) as usize,
        ));
        assert(!any_in_range(a.mapped_pages@, page_start(start), page_end(start, len))) by {
            if any_in_range(a.mapped_pages@, page_start(start), page_end(start, len)) {
                let w = choose|w: usize|
                    page_start(start) <= w < page_end(start, len) && a.mapped_pages@.contains(w);
                assert(!a.mapped_pages@.contains(w));
            }
        }
        lemma_wf_pages(a, *k);
    }
    0
}

/// The page list with every page in `[s, e)` taken out, order kept.
pub open spec fn without_range(m: Seq<usize>, s: int, e: int) -> Seq<usize>
    decreases m.len(),
{
    if m.len() == 0 {
        Seq::empty()
    } else {
        let rest = without_range(m.drop_last(), s, e);
        if s <= m.last() < e {
            rest
        } else {
            rest.push(m.last())
        }
    }
}

/// Unmaps the pages covering `[start, start + len)`. Rejected with -1 when
/// `start` is not page-aligned or when any page of the range is not mapped;
/// on success exactly the pages of the range are removed.
pub fn sys_munmap(k: &mut Kernel, start: usize, len: usize) -> (r: isize)
    requires
        old(k).wf(),
        start + len <= usize::MAX,
    ensures
        final(k).wf(),
        final(k).tasks == old(k).tasks,
        final(k).manager == old(k).manager,
        final(k).current == old(k).current,
        final(k).mutex_list == old(k).mutex_list,
        final(k).mutex_status == old(k).mutex_status,
        final(k).semaphore_list == old(k).semaphore_list,
        final(k).semaphore_status == old(k).semaphore_status,
        final(k).semaphore_cap == old(k).semaphore_cap,
        final(k).condvar_list == old(k).condvar_list,
        final(k).timers == old(k).timers,
        r == -1 || r == 0,
        r == -1 <==> (start % crate::PAGE_SIZE != 0 || any_missing(
            old(k).mapped_pages@,
            page_start(start),
            page_end(start, len),
        )),
        r == -1 ==> final(k).mapped_pages == old(k).mapped_pages,
        r == 0 ==> final(k).mapped_pages@ == without_range(
            old(k).mapped_pages@,
            page_start(start),
            page_end(start, len),
        ),
{
    let ghost a = *old(k);
    let s = start / crate::PAGE_SIZE;
    let e = if len == 0 {
        s
    } else {
        (start + len - 1) / crate::PAGE_SIZE + 1
    };
    if start % crate::PAGE_SIZE != 0 {
        return -1;
    }
    let mut v = s;
    while v < e
        invariant
            s <= v <= e,
            s as int == page_start(start),
            e as int == page_end(start, len),
            k.tasks == a.tasks,
            k.manager == a.manager,
            k.current == a.current,
            k.mutex_list == a.mutex_list,
            k.mutex_status == a.mutex_status,
            k.semaphore_list == a.semaphore_list,
            k.semaphore_status == a.semaphore_status,
            k.semaphore_cap == a.semaphore_cap,
            k.condvar_list == a.condvar_list,
            k.deadlock_detect_enable == a.deadlock_detect_enable,
            k.time_us == a.time_us,
            k.timers == a.timers,
            k.apps == a.apps,
            k.mapped_pages == a.mapped_pages,
            a.wf(),
            forall|x: usize| s <= x < v ==> a.mapped_pages@.contains(x),
        decreases e - v,
    {
        if !page_mapped(&k.mapped_pages, v) {
            proof {
                lemma_wf_pages(a, *k);
                assert(s as int == page_start(start));
                assert(e as int == page_end(start, len));
                assert(!a.mapped_pages@.contains(v));
                assert(any_missing(a.mapped_pages@, page_start(start), page_end(start, len)))
                    by {
                    assert(page_start(start) <= v < page_end(start, len)
                        && !a.mapped_pages@.contains(v));
                }
            }
            return -1;
        }
        v = v + 1;
    }
    let n = k.mapped_pages.len();
    let mut out: Vec<usize> = Vec::new();
    let mut i: usize = 0;
    while i < n
        invariant
            i <= n,
            n == k.mapped_pages.len(),
            k.tasks == a.tasks,
            k.manager == a.manager,
            k.current == a.current,
            k.mutex_list == a.mutex_list,
            k.mutex_status == a.mutex_status,
            k.semaphore_list == a.semaphore_list,
            k.semaphore_status == a.semaphore_status,
            k.semaphore_cap == a.semaphore_cap,
            k.condvar_list == a.condvar_list,
            k.deadlock_detect_enable == a.deadlock_detect_enable,
            k.time_us == a.time_us,
            k.timers == a.timers,
            k.apps == a.apps,
            k.mapped_pages == a.mapped_pages,
            a.wf(),
            s == start as int / crate::PAGE_SIZE as int,
            out@ == without_range(a.mapped_pages@.subrange(0, i as int), s as int, e as int),
        decreases n - i,
    {
        let p = k.mapped_pages[i];
        proof {
            assert(a.mapped_pages@.subrange(0, i + 1).drop_last() =~= a.mapped_pages@.subrange(
                0,
                i as int,
            ));
        }
        if !(s <= p && p < e) {
            out.push(p);
        }
        i = i + 1;
    }
    proof {
        assert(a.mapped_pages@.subrange(0, n as int) =~= a.mapped_pages@);
    }
    k.mapped_pages = out;
    proof {
        assert(!any_missing(a.mapped_pages@, page_start(start), page_end(start, len))) by {
            if any_missing(a.mapped_pages@, page_start(start), page_end(start, len)) {
                let w = choose|w: usize|
                    page_start(start) <= w < page_end(start, len) && !a.mapped_pages@.contains(w);
                assert(a.mapped_pages@.contains(w));
            }
        }
        lemma_wf_pages(a, *k);
    }
    0
}

/// Moves the running task's program break by `size` bytes, returning the old
/// break, or -1 when the move would fall below the heap bottom or overflow.
pub fn sys_sbrk(k: &mut Kernel, size: i32) -> (r: isize)
    requires
        old(k).wf(),
        old(k).current is Some,
        old(k).task_at(old(k).cur()).program_brk <= isize::MAX,
    ensures
        final(k).wf(),
        ({
            let old_brk = old(k).task_at(old(k).cur()).program_brk;
            let bottom = old(k).task_at(old(k).cur()).heap_bottom;
            let moved = old_brk + size;
            if bottom <= moved <= usize::MAX {
                &&& r == old_brk
                &&& final(k).tasks@ == old(k).tasks@.update(
                    old(k).cur(),
                    Some(
                        (TaskControlBlock {
                            program_brk: moved as usize,
                            ..old(k).tasks@[old(k).cur()]->Some_0
                        }),
                    ),
                )
            } else {
                r == -1 && *final(k) == *old(k)
            }
        }),
        final(k).manager == old(k).manager,
        final(k).current == old(k).current,
        final(k).mutex_list == old(k).mutex_list,
        final(k).mutex_status == old(k).mutex_status,
        final(k).semaphore_list == old(k).semaphore_list,
        final(k).semaphore_status == old(k).semaphore_status,
        final(k).semaphore_cap == old(k).semaphore_cap,
        final(k).condvar_list == old(k).condvar_list,
        final(k).timers == old(k).timers,
{
    let c = match k.current {
        Some(c) => c,
        None => vstd::pervasive::unreached(),
    };
    let ghost a = *old(k);
    proof {
        assert(a.live(c as int));
        assert(a.task_ok(c as int));
    }
    let (old_brk, bottom) = match &k.tasks[c] {
        Some(t) => (t.program_brk, t.heap_bottom),
        None => vstd::pervasive::unreached(),
    };
    let ok: bool;
    let moved: usize;
    if size >= 0 {
        let d = size as usize;
        if old_brk <= usize::MAX - d {
            moved = old_brk + d;
            ok = true;
        } else {
            moved = 0;
            ok = false;
        }
    } else {
        let d = (-(size as i64)) as usize;
        if old_brk >= d && old_brk - d >= bottom {
            moved = old_brk - d;
            ok = true;
        } else {
            moved = 0;
            ok = false;
        }
    }
    if !ok || moved < bottom {
        return -1;
    }
    {
        let t = task_mut(&mut k.tasks, c);
        t.program_brk = moved;
    }
    proof {
        let vc = k.tasks@[c as int];
        assert forall|t2: int| k.live(t2) implies #[trigger] k.task_ok(t2) by {
            assert(a.task_ok(t2));
        }
        assert forall|i: int| 0 <= i < k.manager.ready_queue@.len() implies #[trigger] k.ready_ok(
            i,
        ) by {
            assert(a.ready_ok(i));
        }
        assert forall|mi: int| 0 <= mi < k.mutex_list@.len() implies #[trigger] k.mutex_ok(mi) by {
            assert(a.mutex_ok(mi));
            let m2 = k.mutex_list@[mi]->Some_0;
            assert forall|x: int| 0 <= x < m2.wait_queue@.len() implies k.mutex_waiter_ok(
                mi,
                #[trigger] m2.wait_queue@[x] as int,
            ) by {
                assert(a.mutex_waiter_ok(mi, m2.wait_queue@[x] as int));
            }
        }
        assert forall|si: int| 0 <= si < k.semaphore_list@.len() implies #[trigger] k.sem_ok(si)
            by {
            assert(a.sem_ok(si));
            let sv = k.semaphore_list@[si]->Some_0;
            assert forall|x: int| 0 <= x < sv.wait_queue@.len() implies k.sem_waiter_ok(
                si,
                #[trigger] sv.wait_queue@[x] as int,
            ) by {
                assert(a.sem_waiter_ok(si, sv.wait_queue@[x] as int));
            }
        }
        assert forall|ci: int| 0 <= ci < k.condvar_list@.len() implies #[trigger] k.condvar_ok(ci)
            by {
            assert(a.condvar_ok(ci));
            let cvv = k.condvar_list@[ci]->Some_0;
            assert forall|x: int| 0 <= x < cvv.wait_queue@.len() implies k.condvar_waiter_ok(
                ci,
                #[trigger] cvv.wait_queue@[x] as int,
            ) by {
                assert(a.condvar_waiter_ok(ci, cvv.wait_queue@[x] as int));
            }
        }
        assert forall|x: int| 0 <= x < k.timers@.len() implies #[trigger] k.timer_ok(x) by {
            assert(a.timer_ok(x));
        }
        assert forall|mi: int| 0 <= mi < k.mutex_status@.len() implies
            #[trigger] k.mutex_status@[mi] + sum_have(k.tasks@, true, mi) == 1 by {
            crate::ledger::lemma_sum_have_same_res(a.tasks@, true, mi, c as int, vc);
        }
        assert forall|si: int| 0 <= si < k.semaphore_status@.len() implies
            #[trigger] k.semaphore_status@[si] + sum_have(k.tasks@, false, si)
            == k.semaphore_cap@[si] by {
            crate::ledger::lemma_sum_have_same_res(a.tasks@, false, si, c as int, vc);
        }
    }
    old_brk as isize
}

/// Re-establishes the invariant after a change that only touched the mapped
/// pages or other fields the invariant does not read.
proof fn lemma_wf_pages(a: Kernel, b: Kernel)
    requires
        a.wf(),
        b.tasks == a.tasks,
        b.manager == a.manager,
        b.current == a.current,
        b.mutex_list == a.mutex_list,
        b.mutex_status == a.mutex_status,
        b.semaphore_list == a.semaphore_list,
        b.semaphore_status == a.semaphore_status,
        b.semaphore_cap == a.semaphore_cap,
        b.condvar_list == a.condvar_list,
        b.timers == a.timers,
    ensures
        b.wf(),
{
    assert forall|t: int| b.live(t) implies #[trigger] b.task_ok(t) by {
        assert(a.task_ok(t));
    }
    assert forall|i: int| 0 <= i < b.manager.ready_queue@.len() implies #[trigger] b.ready_ok(i)
        by {
        assert(a.ready_ok(i));
    }
    assert forall|mi: int| 0 <= mi < b.mutex_list@.len() implies #[trigger] b.mutex_ok(mi) by {
        assert(a.mutex_ok(mi));
    }
    assert forall|si: int| 0 <= si < b.semaphore_list@.len() implies #[trigger] b.sem_ok(si) by {
        assert(a.sem_ok(si));
    }
    assert forall|ci: int| 0 <= ci < b.condvar_list@.len() implies #[trigger] b.condvar_ok(ci) by {
        assert(a.condvar_ok(ci));
    }
    assert forall|x: int| 0 <= x < b.timers@.len() implies #[trigger] b.timer_ok(x) by {
        assert(a.timer_ok(x));
    }
}

/// The running task exits with the given code: every mutex and semaphore
/// unit it still holds is released through the ordinary release paths (so
/// waiting tasks are granted or counters restored), its resource record is
/// dropped, it becomes a `Zombie` holding the exit code for its parent to
/// reap, and the scheduler runs. Returns 0; on real hardware this call would
/// not return to the caller — here control returns to the driver loop.
pub fn sys_exit(k: &mut Kernel, exit_code: i32) -> (r: isize)
    requires
        old(k).wf(),
        old(k).current is Some,
        old(k).task_at(old(k).cur()).res is Some,
    ensures
        final(k).wf(),
        r == 0,
        final(k).live(old(k).cur()),
        final(k).status_at(old(k).cur()) == TaskStatus::Zombie,
        final(k).task_at(old(k).cur()).exit_code == exit_code,
        final(k).task_at(old(k).cur()).res is None,
        final(k).tasks@.len() == old(k).tasks@.len(),
        final(k).mutex_list@.len() == old(k).mutex_list@.len(),
        final(k).semaphore_list@.len() == old(k).semaphore_list@.len(),
        final(k).semaphore_cap == old(k).semaphore_cap,
        final(k).condvar_list == old(k).condvar_list,
        final(k).deadlock_detect_enable == old(k).deadlock_detect_enable,
        final(k).time_us == old(k).time_us,
        final(k).timers == old(k).timers,
        final(k).apps == old(k).apps,
        final(k).mapped_pages == old(k).mapped_pages,
        final(k).current != Some(old(k).current->Some_0),
{
    let c = match k.current {
        Some(c) => c,
        None => vstd::pervasive::unreached(),
    };
    let ghost a = *old(k);
    let n = k.mutex_list.len();
    let mut mi: usize = 0;
    while mi < n
        invariant
            mi <= n,
            k.wf(),
            k.current == Some(c),
            k.live(c as int),
            k.task_at(c as int).res is Some,
            k.mutex_list@.len() == n,
            k.tasks@.len() == old(k).tasks@.len(),
            k.semaphore_list@.len() == old(k).semaphore_list@.len(),
            k.semaphore_cap == old(k).semaphore_cap,
            k.apps == old(k).apps,
            k.condvar_list == old(k).condvar_list,
            k.deadlock_detect_enable == old(k).deadlock_detect_enable,
            k.time_us == old(k).time_us,
            k.timers == old(k).timers,
            k.mapped_pages == old(k).mapped_pages,
            forall|x: int| 0 <= x < mi ==> res_have(k.tasks@[c as int], true, x) == 0,
        decreases n - mi,
    {
        proof {
            assert(k.task_ok(c as int));
        }
        let hv = crate::detect::have_entry(&k.tasks, c, mi, true);
        if hv > 0 {
            let ghost b = *k;
            let _ = crate::sys_sync::sys_mutex_unlock(k, mi);
            proof {
                assert forall|x: int| 0 <= x <= mi implies res_have(k.tasks@[c as int], true, x)
                    == 0 by {
                    assert(crate::task::task_updated(
                        b.tasks@[c as int],
                        k.tasks@[c as int],
                        TaskStatus::Running,
                        b.task_at(c as int).blocked_on@,
                        need_of(b.tasks@[c as int], true),
                        have_of(b.tasks@[c as int], true).update(mi as int, 0usize),
                        need_of(b.tasks@[c as int], false),
                        have_of(b.tasks@[c as int], false),
                    ));
                    if x < mi {
                        assert(res_have(b.tasks@[c as int], true, x) == 0);
                    }
                }
            }
        }
        mi = mi + 1;
    }
    let m = k.semaphore_list.len();
    let mut si: usize = 0;
    while si < m
        invariant
            si <= m,
            k.wf(),
            k.current == Some(c),
            k.live(c as int),
            k.task_at(c as int).res is Some,
            k.semaphore_list@.len() == m,
            k.mutex_list@.len() == n,
            k.tasks@.len() == old(k).tasks@.len(),
            k.semaphore_cap == old(k).semaphore_cap,
            k.apps == old(k).apps,
            k.condvar_list == old(k).condvar_list,
            k.deadlock_detect_enable == old(k).deadlock_detect_enable,
            k.time_us == old(k).time_us,
            k.timers == old(k).timers,
            k.mapped_pages == old(k).mapped_pages,
            forall|x: int| 0 <= x < n ==> res_have(k.tasks@[c as int], true, x) == 0,
            forall|x: int| 0 <= x < si ==> res_have(k.tasks@[c as int], false, x) == 0,
        decreases m - si,
    {
        proof {
            assert(k.task_ok(c as int));
        }
        let mut hv = crate::detect::have_entry(&k.tasks, c, si, false);
        while hv > 0
            invariant
                k.wf(),
                k.current == Some(c),
                k.live(c as int),
                k.task_at(c as int).res is Some,
                si < m,
                k.semaphore_list@.len() == m,
                k.mutex_list@.len() == n,
                k.tasks@.len() == old(k).tasks@.len(),
                k.semaphore_cap == old(k).semaphore_cap,
                k.apps == old(k).apps,
                k.condvar_list == old(k).condvar_list,
                k.deadlock_detect_enable == old(k).deadlock_detect_enable,
                k.time_us == old(k).time_us,
                k.timers == old(k).timers,
                k.mapped_pages == old(k).mapped_pages,
                hv as int == res_have(k.tasks@[c as int], false, si as int),
                forall|x: int| 0 <= x < n ==> res_have(k.tasks@[c as int], true, x) == 0,
                forall|x: int| 0 <= x < si ==> res_have(k.tasks@[c as int], false, x) == 0,
            decreases hv,
        {
            let ghost b = *k;
            proof {
                assert(k.task_ok(c as int));
            }
            let _ = crate::sys_sync::sys_semaphore_up(k, si);
            proof {
                assert(crate::task::task_updated(
                    b.tasks@[c as int],
                    k.tasks@[c as int],
                    TaskStatus::Running,
                    b.task_at(c as int).blocked_on@,
                    need_of(b.tasks@[c as int], true),
                    have_of(b.tasks@[c as int], true),
                    need_of(b.tasks@[c as int], false),
                    have_of(b.tasks@[c as int], false).update(
                        si as int,
                        ((have_of(b.tasks@[c as int], false)[si as int] - 1) as usize),
                    ),
                ));
                assert forall|x: int| 0 <= x < n implies res_have(k.tasks@[c as int], true, x)
                    == 0 by {
                    assert(res_have(b.tasks@[c as int], true, x) == 0);
                }
                assert forall|x: int| 0 <= x < si implies res_have(k.tasks@[c as int], false, x)
                    == 0 by {
                    assert(res_have(b.tasks@[c as int], false, x) == 0);
                }
            }
            hv = hv - 1;
        }
        si = si + 1;
    }
    let ghost a3 = *k;
    proof {
        assert(a3.task_ok(c as int));
    }
    {
        let t = task_mut(&mut k.tasks, c);
        t.res = None;
        t.task_status = TaskStatus::Zombie;
        t.exit_code = exit_code;
    }
    k.current = None;
    proof {
        let vc = k.tasks@[c as int];
        let a2 = a3;
        assert forall|t2: int| k.live(t2) implies #[trigger] k.task_ok(t2) by {
            assert(a2.task_ok(t2));
        }
        assert forall|i: int| 0 <= i < k.manager.ready_queue@.len() implies #[trigger] k.ready_ok(
            i,
        ) by {
            assert(a2.ready_ok(i));
            assert(k.manager.ready_queue@[i] != c) by {
                assert(a2.status_at(k.manager.ready_queue@[i] as int) == TaskStatus::Ready);
            }
        }
        assert forall|mi2: int| 0 <= mi2 < k.mutex_list@.len() implies #[trigger] k.mutex_ok(mi2)
            by {
            assert(a2.mutex_ok(mi2));
            let m2 = k.mutex_list@[mi2]->Some_0;
            assert forall|x: int| 0 <= x < m2.wait_queue@.len() implies k.mutex_waiter_ok(
                mi2,
                #[trigger] m2.wait_queue@[x] as int,
            ) by {
                assert(a2.mutex_waiter_ok(mi2, m2.wait_queue@[x] as int));
                assert(m2.wait_queue@[x] != c) by {
                    assert(a2.status_at(m2.wait_queue@[x] as int) == TaskStatus::Blocked);
                }
            }
        }
        assert forall|si2: int| 0 <= si2 < k.semaphore_list@.len() implies #[trigger] k.sem_ok(
            si2,
        ) by {
            assert(a2.sem_ok(si2));
            let sv = k.semaphore_list@[si2]->Some_0;
            assert forall|x: int| 0 <= x < sv.wait_queue@.len() implies k.sem_waiter_ok(
                si2,
                #[trigger] sv.wait_queue@[x] as int,
            ) by {
                assert(a2.sem_waiter_ok(si2, sv.wait_queue@[x] as int));
                assert(sv.wait_queue@[x] != c) by {
                    assert(a2.status_at(sv.wait_queue@[x] as int) == TaskStatus::Blocked);
                }
            }
        }
        assert forall|ci: int| 0 <= ci < k.condvar_list@.len() implies #[trigger] k.condvar_ok(ci)
            by {
            assert(a2.condvar_ok(ci));
            let cvv = k.condvar_list@[ci]->Some_0;
            assert forall|x: int| 0 <= x < cvv.wait_queue@.len() implies k.condvar_waiter_ok(
                ci,
                #[trigger] cvv.wait_queue@[x] as int,
            ) by {
                assert(a2.condvar_waiter_ok(ci, cvv.wait_queue@[x] as int));
                assert(cvv.wait_queue@[x] != c) by {
                    assert(a2.status_at(cvv.wait_queue@[x] as int) == TaskStatus::Blocked);
                }
            }
        }
        assert forall|x: int| 0 <= x < k.timers@.len() implies #[trigger] k.timer_ok(x) by {
            assert(a2.timer_ok(x));
            assert(k.timers@[x].1 != c) by {
                assert(a2.status_at(k.timers@[x].1 as int) == TaskStatus::Blocked);
            }
        }
        assert forall|mi2: int| 0 <= mi2 < k.mutex_status@.len() implies
            #[trigger] k.mutex_status@[mi2] + sum_have(k.tasks@, true, mi2) == 1 by {
            crate::ledger::lemma_sum_have_update(a2.tasks@, true, mi2, c as int, vc);
            assert(res_have(a2.tasks@[c as int], true, mi2) == 0);
            assert(res_have(vc, true, mi2) == 0);
        }
        assert forall|si2: int| 0 <= si2 < k.semaphore_status@.len() implies
            #[trigger] k.semaphore_status@[si2] + sum_have(k.tasks@, false, si2)
            == k.semaphore_cap@[si2] by {
            crate::ledger::lemma_sum_have_update(a2.tasks@, false, si2, c as int, vc);
            assert(res_have(a2.tasks@[c as int], false, si2) == 0);
            assert(res_have(vc, false, si2) == 0);
        }
        assert(k.wf());
    }
    let ghost a4 = *k;
    let _ = k.fetch_task();
    proof {
        // The exited task is a Zombie and so cannot be the task now running.
        if k.current == Some(c) {
            let q = a4.manager.ready_queue@;
            if exists|i: int| ready_at(q, a4.tasks@, i) {
                let i = choose|i: int|
                    {
                        &&& #[trigger] selected_at(q, a4.tasks@, i)
                        &&& k.current == Some(q[i])
                    };
                assert(ready_at(q, a4.tasks@, i));
                assert(crate::task::status_of(a4.tasks@[q[i] as int]) == TaskStatus::Ready);
                assert(a4.status_at(c as int) == TaskStatus::Zombie);
            }
        }
    }
    0
}

/// Whether the child id matches the wait request: -1 waits for any child.
pub open spec fn pid_matches(pid: isize, child: usize) -> bool {
    pid == -1 || pid == child
}

/// Reaps one exited child. With no child matching `pid` (-1 means any), -1.
/// With matching children but none of them a `Zombie` yet, -2. Otherwise the
/// first matching `Zombie` child is removed from the child list and the task
/// table, its exit code is stored through `exit_code_ptr`, and its id is
/// returned.
pub fn sys_waitpid(k: &mut Kernel, pid: isize, exit_code_ptr: &mut i32) -> (r: isize)
    requires
        old(k).wf(),
        old(k).current is Some,
        old(k).tasks@.len() < isize::MAX,
    ensures
        final(k).wf(),
        r == -1 || r == -2 || r >= 0,
        r < 0 ==> *final(exit_code_ptr) == *old(exit_code_ptr),
        ({
            let a = *old(k);
            let c = a.cur();
            let kids = a.task_at(c).children@;
            &&& (r == -1 <==> (forall|x: int|
                0 <= x < kids.len() ==> !pid_matches(pid, #[trigger] kids[x])))
            &&& r == -1 ==> *final(k) == *old(k)
            &&& (r == -2 <==> (exists|x: int|
                0 <= x < kids.len() && pid_matches(pid, #[trigger] kids[x])) && (forall|x: int|
                0 <= x < kids.len() && pid_matches(pid, #[trigger] kids[x]) ==> !(
                a.live(kids[x] as int) && a.status_at(kids[x] as int) == TaskStatus::Zombie)))
            &&& r == -2 ==> *final(k) == *old(k)
            &&& r >= 0 ==> exists|x: int|
                {
                    &&& 0 <= x < kids.len()
                    &&& pid_matches(pid, #[trigger] kids[x])
                    &&& a.live(kids[x] as int)
                    &&& a.status_at(kids[x] as int) == TaskStatus::Zombie
                    &&& r == kids[x]
                    &&& *final(exit_code_ptr) == a.task_at(kids[x] as int).exit_code
                    &&& final(k).tasks@ == a.tasks@.update(
                        c,
                        Some(
                            (TaskControlBlock {
                                children: final(k).tasks@[c]->Some_0.children,
                                ..a.tasks@[c]->Some_0
                            }),
                        ),
                    ).update(kids[x] as int, None)
                    &&& final(k).task_at(c).children@ == kids.remove(x)
                }
        }),
{
    let c = match k.current {
        Some(c) => c,
        None => vstd::pervasive::unreached(),
    };
    let ghost a = *old(k);
    proof {
        assert(a.live(c as int));
        assert(a.task_ok(c as int));
    }
    let nkids = match &k.tasks[c] {
        Some(t) => t.children.len(),
        None => vstd::pervasive::unreached(),
    };
    let ghost kids = a.task_at(c as int).children@;
    // First pass: is any child a match at all?
    let mut anym = false;
    let mut x: usize = 0;
    while x < nkids
        invariant
            x <= nkids,
            k == old(k),
            a == *old(k),
            a.live(c as int),
            nkids == kids.len(),
            kids == a.task_at(c as int).children@,
            anym == exists|j: int| 0 <= j < x && pid_matches(pid, #[trigger] kids[j]),
        decreases nkids - x,
    {
        let kid = match &k.tasks[c] {
            Some(t) => t.children[x],
            None => vstd::pervasive::unreached(),
        };
        if pid == -1 || (pid >= 0 && kid == pid as usize) {
            proof {
                assert(pid_matches(pid, kids[x as int]));
            }
            anym = true;
        }
        x = x + 1;
    }
    if !anym {
        return -1;
    }
    // Second pass: the first matching child that has exited.
    let mut found: usize = 0;
    let mut have_found = false;
    let mut y: usize = 0;
    while y < nkids
        invariant
            y <= nkids,
            k == old(k),
            a == *old(k),
            a.wf(),
            a.live(c as int),
            a.task_ok(c as int),
            nkids == kids.len(),
            kids == a.task_at(c as int).children@,
            !have_found ==> forall|j: int|
                0 <= j < y ==> !(pid_matches(pid, #[trigger] kids[j]) && a.live(kids[j] as int)
                    && a.status_at(kids[j] as int) == TaskStatus::Zombie),
            have_found ==> {
                &&& found < y
                &&& pid_matches(pid, kids[found as int])
                &&& a.live(kids[found as int] as int)
                &&& a.status_at(kids[found as int] as int) == TaskStatus::Zombie
            },
        decreases nkids - y,
    {
        if !have_found {
            let kid = match &k.tasks[c] {
                Some(t) => t.children[y],
                None => vstd::pervasive::unreached(),
            };
            if pid == -1 || (pid >= 0 && kid == pid as usize) {
                proof {
                    assert(kids[y as int] < k.tasks@.len()) by {
                        assert(a.task_ok(c as int));
                    }
                }
                let zomb = match &k.tasks[kid] {
                    Some(t) => t.task_status == TaskStatus::Zombie,
                    None => false,
                };
                if zomb {
                    found = y;
                    have_found = true;
                }
            }
        }
        y = y + 1;
    }
    if !have_found {
        return -2;
    }
    let kid = match &k.tasks[c] {
        Some(t) => t.children[found],
        None => vstd::pervasive::unreached(),
    };
    let code = match &k.tasks[kid] {
        Some(t) => t.exit_code,
        None => vstd::pervasive::unreached(),
    };
    *exit_code_ptr = code;
    {
        let t = task_mut(&mut k.tasks, c);
        let _ = t.children.remove(found);
    }
    let ghost tmid = k.tasks@;
    k.tasks.set(kid, None);
    proof {
        let vc = tmid[c as int];
        assert(tmid =~= a.tasks@.update(c as int, vc));
        assert(k.tasks@ =~= tmid.update(kid as int, None));
        assert(kid != c) by {
            assert(a.status_at(c as int) == TaskStatus::Running);
        }
        kids.remove_ensures(found as int);
        assert forall|t2: int| k.live(t2) implies #[trigger] k.task_ok(t2) by {
            assert(a.task_ok(t2));
        }
        assert forall|i: int| 0 <= i < k.manager.ready_queue@.len() implies #[trigger] k.ready_ok(
            i,
        ) by {
            assert(a.ready_ok(i));
            assert(k.manager.ready_queue@[i] != kid) by {
                assert(a.status_at(k.manager.ready_queue@[i] as int) == TaskStatus::Ready);
            }
            assert(k.manager.ready_queue@[i] != c) by {
                assert(a.status_at(k.manager.ready_queue@[i] as int) == TaskStatus::Ready);
            }
        }
        assert forall|mi2: int| 0 <= mi2 < k.mutex_list@.len() implies #[trigger] k.mutex_ok(mi2)
            by {
            assert(a.mutex_ok(mi2));
            let m2 = k.mutex_list@[mi2]->Some_0;
            assert forall|x2: int| 0 <= x2 < m2.wait_queue@.len() implies k.mutex_waiter_ok(
                mi2,
                #[trigger] m2.wait_queue@[x2] as int,
            ) by {
                assert(a.mutex_waiter_ok(mi2, m2.wait_queue@[x2] as int));
                assert(m2.wait_queue@[x2] != kid && m2.wait_queue@[x2] != c) by {
                    assert(a.status_at(m2.wait_queue@[x2] as int) == TaskStatus::Blocked);
                }
            }
        }
        assert forall|si2: int| 0 <= si2 < k.semaphore_list@.len() implies #[trigger] k.sem_ok(
            si2,
        ) by {
            assert(a.sem_ok(si2));
            let sv = k.semaphore_list@[si2]->Some_0;
            assert forall|x2: int| 0 <= x2 < sv.wait_queue@.len() implies k.sem_waiter_ok(
                si2,
                #[trigger] sv.wait_queue@[x2] as int,
            ) by {
                assert(a.sem_waiter_ok(si2, sv.wait_queue@[x2] as int));
                assert(sv.wait_queue@[x2] != kid && sv.wait_queue@[x2] != c) by {
                    assert(a.status_at(sv.wait_queue@[x2] as int) == TaskStatus::Blocked);
                }
            }
        }
        assert forall|ci: int| 0 <= ci < k.condvar_list@.len() implies #[trigger] k.condvar_ok(ci)
            by {
            assert(a.condvar_ok(ci));
            let cvv = k.condvar_list@[ci]->Some_0;
            assert forall|x2: int| 0 <= x2 < cvv.wait_queue@.len() implies k.condvar_waiter_ok(
                ci,
                #[trigger] cvv.wait_queue@[x2] as int,
            ) by {
                assert(a.condvar_waiter_ok(ci, cvv.wait_queue@[x2] as int));
                assert(cvv.wait_queue@[x2] != kid && cvv.wait_queue@[x2] != c) by {
                    assert(a.status_at(cvv.wait_queue@[x2] as int) == TaskStatus::Blocked);
                }
            }
        }
        assert forall|x2: int| 0 <= x2 < k.timers@.len() implies #[trigger] k.timer_ok(x2) by {
            assert(a.timer_ok(x2));
            assert(k.timers@[x2].1 != kid && k.timers@[x2].1 != c) by {
                assert(a.status_at(k.timers@[x2].1 as int) == TaskStatus::Blocked);
            }
        }
        assert forall|mi2: int| 0 <= mi2 < k.mutex_status@.len() implies
            #[trigger] k.mutex_status@[mi2] + sum_have(k.tasks@, true, mi2) == 1 by {
            crate::ledger::lemma_sum_have_same_res(a.tasks@, true, mi2, c as int, vc);
            crate::ledger::lemma_sum_have_update(tmid, true, mi2, kid as int, None);
            assert(res_have(tmid[kid as int], true, mi2) == 0) by {
                assert(a.task_ok(kid as int));
                assert(a.task_at(kid as int).res is None);
            }
        }
        assert forall|si2: int| 0 <= si2 < k.semaphore_status@.len() implies
            #[trigger] k.semaphore_status@[si2] + sum_have(k.tasks@, false, si2)
            == k.semaphore_cap@[si2] by {
            crate::ledger::lemma_sum_have_same_res(a.tasks@, false, si2, c as int, vc);
            crate::ledger::lemma_sum_have_update(tmid, false, si2, kid as int, None);
            assert(res_have(tmid[kid as int], false, si2) == 0) by {
                assert(a.task_ok(kid as int));
                assert(a.task_at(kid as int).res is None);
            }
        }
        assert(k.wf());
    }
    kid as isize
}

} // verus!
