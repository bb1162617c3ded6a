use vstd::prelude::*;

use crate::ledger::{lemma_sum_have_same_res, sum_have};
use crate::manager::{advance_stride, ready_at, selected_at, TaskManager};
use crate::sync::{Condvar, MutexState, Semaphore};
use crate::task::{task_mut, TaskControlBlock, TaskStatus, TaskUserRes, WaitTarget};

verus! {

/// The scheduling and synchronization state of one process on one core,
/// passed explicitly to every kernel entry point: the task table, the ready
/// queue, the per-process resource tables of the three primitive kinds, the
/// per-slot availability counters the deadlock detector reads, the sleep
/// timers, and the table of loadable program names.
pub struct Kernel {
    pub tasks: Vec<Option<TaskControlBlock>>,
    pub manager: TaskManager,
    pub current: Option<usize>,
    pub mutex_list: Vec<Option<MutexState>>,
    pub mutex_status: Vec<usize>,
    pub semaphore_list: Vec<Option<Semaphore>>,
    pub semaphore_status: Vec<usize>,
    pub semaphore_cap: Ghost<Seq<int>>,
    pub condvar_list: Vec<Option<Condvar>>,
    pub deadlock_detect_enable: bool,
    pub time_us: usize,
    pub timers: Vec<(usize, usize)>,
    pub apps: Vec<Vec<u8>>,
    pub mapped_pages: Vec<usize>,
}

/// What one scheduling decision, taken from ready queue `q` and a task table
/// that agrees with `ta` on every slot but `skip`, does to the kernel `b`:
/// either no queued task is `Ready` and the kernel goes idle, or the first
/// minimal-stride `Ready` entry is removed, its stride advanced, and it runs.
pub open spec fn sched_from(
    q: Seq<usize>,
    ta: Seq<Option<TaskControlBlock>>,
    b: Kernel,
    skip: int,
) -> bool {
    if forall|i: int| !ready_at(q, ta, i) {
        &&& b.current is None
        &&& b.manager.ready_queue@ == q
        &&& b.tasks@.len() == ta.len()
        &&& forall|t: int| 0 <= t < ta.len() && t != skip ==> #[trigger] b.tasks@[t] == ta[t]
    } else {
        exists|i: int|
            {
                &&& #[trigger] selected_at(q, ta, i)
                &&& b.current == Some(q[i])
                &&& b.manager.ready_queue@ == q.remove(i)
                &&& b.tasks@.len() == ta.len()
                &&& b.tasks@[q[i] as int] == Some(
                    (TaskControlBlock {
                        stride: advance_stride(
                            ta[q[i] as int]->Some_0.stride,
                            ta[q[i] as int]->Some_0.priority,
                        ),
                        task_status: TaskStatus::Running,
                        ..ta[q[i] as int]->Some_0
                    }),
                )
                &&& forall|t: int|
                    0 <= t < ta.len() && t != skip && t != q[i] ==> #[trigger] b.tasks@[t] == ta[t]
            }
    }
}

impl Kernel {
    /// Slot `t` exists and holds a task.
    pub open spec fn live(self, t: int) -> bool {
        0 <= t < self.tasks@.len() && self.tasks@[t] is Some
    }

    /// The task in slot `t`.
    pub open spec fn task_at(self, t: int) -> TaskControlBlock {
        self.tasks@[t]->Some_0
    }

    /// The id of the running task.
    pub open spec fn cur(self) -> int {
        self.current->Some_0 as int
    }

    pub open spec fn status_at(self, t: int) -> TaskStatus {
        self.task_at(t).task_status
    }

    /// Task slot `t` is well-formed: the task knows its own id, its
    /// priority is at least 2, its resource record (if any) is aligned with
    /// the process resource tables, a nonzero `need` entry records exactly
    /// one pending request for the resource the task is blocked on, a task
    /// that has exited has released its record, and its child list only
    /// names task-table slots.
    pub open spec fn task_ok(self, t: int) -> bool {
        let tcb = self.tasks@[t]->Some_0;
        &&& tcb.tid == t
        &&& tcb.priority >= 2
        &&& (tcb.res matches Some(r) ==> {
            &&& r.mutex_need@.len() == self.mutex_list@.len()
            &&& r.mutex_have@.len() == self.mutex_list@.len()
            &&& r.semaphore_need@.len() == self.semaphore_list@.len()
            &&& r.semaphore_have@.len() == self.semaphore_list@.len()
            &&& forall|j: int|
                0 <= j < r.mutex_need@.len() && #[trigger] r.mutex_need@[j] != 0 ==> {
                    &&& tcb.task_status == TaskStatus::Blocked
                    &&& tcb.blocked_on@ == Some(WaitTarget::OnMutex(j as usize))
                    &&& r.mutex_need@[j] == 1
                }
            &&& forall|j: int|
                0 <= j < r.semaphore_need@.len() && #[trigger] r.semaphore_need@[j] != 0 ==> {
                    &&& tcb.task_status == TaskStatus::Blocked
                    &&& tcb.blocked_on@ == Some(WaitTarget::OnSemaphore(j as usize))
                    &&& r.semaphore_need@[j] == 1
                }
        })
        &&& (tcb.task_status == TaskStatus::Zombie ==> tcb.res is None)
        &&& forall|x: int|
            0 <= x < tcb.children@.len() ==> #[trigger] tcb.children@[x] < self.tasks@.len()
    }

    pub open spec fn wf_tasks(self) -> bool {
        forall|t: int| self.live(t) ==> #[trigger] self.task_ok(t)
    }

    /// The resource tables are index-aligned and no slot has been freed
    /// (no operation of this interface ever frees one).
    pub open spec fn wf_lists(self) -> bool {
        &&& self.mutex_status@.len() == self.mutex_list@.len()
        &&& self.semaphore_status@.len() == self.semaphore_list@.len()
        &&& self.semaphore_cap@.len() == self.semaphore_list@.len()
        &&& forall|i: int| 0 <= i < self.mutex_list@.len() ==> #[trigger] self.mutex_list@[i] is Some
        &&& forall|i: int|
            0 <= i < self.semaphore_list@.len() ==> #[trigger] self.semaphore_list@[i] is Some
        &&& forall|i: int|
            0 <= i < self.condvar_list@.len() ==> #[trigger] self.condvar_list@[i] is Some
    }

    /// The running task, when there is one, is a live `Running` task.
    pub open spec fn wf_current(self) -> bool {
        self.current matches Some(c) ==> self.live(c as int) && self.status_at(c as int)
            == TaskStatus::Running
    }

    /// Entry `i` of the ready queue names a live `Ready` task.
    pub open spec fn ready_ok(self, i: int) -> bool {
        let t = self.manager.ready_queue@[i] as int;
        self.live(t) && self.status_at(t) == TaskStatus::Ready
    }

    /// Ready-queue entries are distinct live `Ready` tasks.
    pub open spec fn wf_ready(self) -> bool {
        &&& self.manager.ready_queue@.no_duplicates()
        &&& forall|i: int|
            0 <= i < self.manager.ready_queue@.len() ==> #[trigger] self.ready_ok(i)
    }

    /// A task blocked on the wait list of mutex `mi`.
    pub open spec fn mutex_waiter_ok(self, mi: int, w: int) -> bool {
        &&& self.live(w)
        &&& self.status_at(w) == TaskStatus::Blocked
        &&& self.task_at(w).blocked_on@ == Some(WaitTarget::OnMutex(mi as usize))
        &&& self.task_at(w).res matches Some(r) && r.mutex_need@[mi] == 1
    }

    /// Mutex slot `mi` is occupied and consistent: the lock flag mirrors the
    /// availability counter, a spinning mutex queues nobody, waiters only
    /// stand in line while the lock is held, and they are distinct blocked
    /// tasks each with exactly one pending request for this mutex.
    pub open spec fn mutex_ok(self, mi: int) -> bool {
        let m = self.mutex_list@[mi]->Some_0;
        &&& self.mutex_list@[mi] is Some
        &&& m.locked == (self.mutex_status@[mi] == 0)
        &&& (!m.blocking ==> m.wait_queue@.len() == 0)
        &&& (!m.locked ==> m.wait_queue@.len() == 0)
        &&& m.wait_queue@.no_duplicates()
        &&& forall|x: int|
            0 <= x < m.wait_queue@.len() ==> self.mutex_waiter_ok(
                mi,
                #[trigger] m.wait_queue@[x] as int,
            )
    }

    pub open spec fn wf_mutexes(self) -> bool {
        forall|mi: int| 0 <= mi < self.mutex_list@.len() ==> #[trigger] self.mutex_ok(mi)
    }

    /// A task blocked on the wait list of semaphore `si`.
    pub open spec fn sem_waiter_ok(self, si: int, w: int) -> bool {
        &&& self.live(w)
        &&& self.status_at(w) == TaskStatus::Blocked
        &&& self.task_at(w).blocked_on@ == Some(WaitTarget::OnSemaphore(si as usize))
        &&& self.task_at(w).res matches Some(r) && r.semaphore_need@[si] == 1
    }

    /// Semaphore slot `si` is occupied and consistent: the primitive's count
    /// mirrors the availability counter, nobody waits while units are
    /// available, and the waiters are distinct blocked tasks each with
    /// exactly one pending request for this semaphore.
    pub open spec fn sem_ok(self, si: int) -> bool {
        let s = self.semaphore_list@[si]->Some_0;
        &&& self.semaphore_list@[si] is Some
        &&& s.count == self.semaphore_status@[si]
        &&& (s.count > 0 ==> s.wait_queue@.len() == 0)
        &&& s.wait_queue@.no_duplicates()
        &&& forall|x: int|
            0 <= x < s.wait_queue@.len() ==> self.sem_waiter_ok(
                si,
                #[trigger] s.wait_queue@[x] as int,
            )
    }

    pub open spec fn wf_semaphores(self) -> bool {
        forall|si: int| 0 <= si < self.semaphore_list@.len() ==> #[trigger] self.sem_ok(si)
    }

    pub open spec fn condvar_waiter_ok(self, ci: int, w: int) -> bool {
        &&& self.live(w)
        &&& self.status_at(w) == TaskStatus::Blocked
        &&& self.task_at(w).blocked_on@ == Some(WaitTarget::OnCondvar(ci as usize))
    }

    /// Condition-variable slot `ci` is occupied and its waiters are distinct
    /// blocked tasks.
    pub open spec fn condvar_ok(self, ci: int) -> bool {
        let cv = self.condvar_list@[ci]->Some_0;
        &&& self.condvar_list@[ci] is Some
        &&& cv.wait_queue@.no_duplicates()
        &&& forall|x: int|
            0 <= x < cv.wait_queue@.len() ==> self.condvar_waiter_ok(
                ci,
                #[trigger] cv.wait_queue@[x] as int,
            )
    }

    pub open spec fn wf_condvars(self) -> bool {
        forall|ci: int| 0 <= ci < self.condvar_list@.len() ==> #[trigger] self.condvar_ok(ci)
    }

    /// Timer entry `x` names a live task blocked in a sleep.
    pub open spec fn timer_ok(self, x: int) -> bool {
        let w = self.timers@[x].1 as int;
        self.live(w) && self.status_at(w) == TaskStatus::Blocked && self.task_at(w).blocked_on@
            == Some(WaitTarget::Sleeping)
    }

    pub open spec fn wf_timers(self) -> bool {
        &&& forall|x: int| 0 <= x < self.timers@.len() ==> #[trigger] self.timer_ok(x)
        &&& forall|x: int, y: int|
            0 <= x < self.timers@.len() && 0 <= y < self.timers@.len() && x != y
                ==> (#[trigger] self.timers@[x]).1 != (#[trigger] self.timers@[y]).1
    }

    /// Conservation: for every mutex slot the availability counter plus all
    /// holdings is exactly 1; for every semaphore slot it is the capacity the
    /// slot was created with.
    pub open spec fn wf_conservation(self) -> bool {
        &&& forall|mi: int|
            0 <= mi < self.mutex_status@.len() ==> #[trigger] self.mutex_status@[mi] + sum_have(
                self.tasks@,
                true,
                mi,
            ) == 1
        &&& forall|si: int|
            0 <= si < self.semaphore_status@.len() ==> #[trigger] self.semaphore_status@[si]
                + sum_have(self.tasks@, false, si) == self.semaphore_cap@[si]
        &&& forall|si: int|
            0 <= si < self.semaphore_cap@.len() ==> 0 <= #[trigger] self.semaphore_cap@[si]
                <= usize::MAX
    }

    pub open spec fn wf(self) -> bool {
        &&& self.wf_tasks()
        &&& self.wf_lists()
        &&& self.wf_current()
        &&& self.wf_ready()
        &&& self.wf_mutexes()
        &&& self.wf_semaphores()
        &&& self.wf_condvars()
        &&& self.wf_timers()
        &&& self.wf_conservation()
    }

    /// A fresh kernel context: one root task, running, with an empty ledger;
    /// no primitives yet; the given table of loadable program names.
    pub fn new(apps: Vec<Vec<u8>>) -> (k: Kernel)
        ensures
            k.wf(),
            k.tasks@.len() == 1,
            k.live(0),
            k.task_at(0).task_status == TaskStatus::Running,
            k.task_at(0).priority == 16,
            k.task_at(0).stride == 0,
            k.current == Some(0usize),
            k.manager.ready_queue@.len() == 0,
            k.mutex_list@.len() == 0,
            k.semaphore_list@.len() == 0,
            k.condvar_list@.len() == 0,
            k.deadlock_detect_enable == false,
            k.time_us == 0,
            k.timers@.len() == 0,
            k.apps == apps,
            k.mapped_pages@.len() == 0,
    {
        let root = TaskControlBlock {
            tid: 0,
            task_status: TaskStatus::Running,
            stride: 0,
            priority: 16,
            exit_code: 0,
            res: Some(
                TaskUserRes {
                    mutex_need: Vec::new(),
                    mutex_have: Vec::new(),
                    semaphore_need: Vec::new(),
                    semaphore_have: Vec::new(),
                },
            ),
            parent: None,
            children: Vec::new(),
            heap_bottom: 0,
            program_brk: 0,
            blocked_on: Ghost(None),
        };
        let mut tasks: Vec<Option<TaskControlBlock>> = Vec::new();
        tasks.push(Some(root));
        Kernel {
            tasks,
            manager: TaskManager::new(),
            current: Some(0),
            mutex_list: Vec::new(),
            mutex_status: Vec::new(),
            semaphore_list: Vec::new(),
            semaphore_status: Vec::new(),
            semaphore_cap: Ghost(Seq::empty()),
            condvar_list: Vec::new(),
            deadlock_detect_enable: false,
            time_us: 0,
            timers: Vec::new(),
            apps,
            mapped_pages: Vec::new(),
        }
    }

    /// Appends a `Ready` task to the ready queue.
    pub fn add_task(&mut self, tid: usize)
        requires
            old(self).wf(),
            old(self).live(tid as int),
            old(self).status_at(tid as int) == TaskStatus::Ready,
            forall|i: int|
                0 <= i < old(self).manager.ready_queue@.len()
                    ==> #[trigger] old(self).manager.ready_queue@[i] != tid,
        ensures
            final(self).wf(),
            final(self).manager.ready_queue@ == old(self).manager.ready_queue@.push(tid),
            final(self).tasks == old(self).tasks,
            final(self).current == old(self).current,
            final(self).mutex_list == old(self).mutex_list,
            final(self).mutex_status == old(self).mutex_status,
            final(self).semaphore_list == old(self).semaphore_list,
            final(self).semaphore_status == old(self).semaphore_status,
            final(self).semaphore_cap == old(self).semaphore_cap,
            final(self).condvar_list == old(self).condvar_list,
            final(self).deadlock_detect_enable == old(self).deadlock_detect_enable,
            final(self).time_us == old(self).time_us,
            final(self).timers == old(self).timers,
            final(self).apps == old(self).apps,
            final(self).mapped_pages == old(self).mapped_pages,
    {
        self.manager.add(tid);
        proof {
            let a = *old(self);
            assert forall|t: int| self.live(t) implies #[trigger] self.task_ok(t) by {
                assert(a.task_ok(t));
            }
            let q0 = a.manager.ready_queue@;
            let q1 = self.manager.ready_queue@;
            assert forall|x: int, y: int|
                0 <= x < q1.len() && 0 <= y < q1.len() && x != y implies q1[x] != q1[y] by {
                if x < q0.len() && y < q0.len() {
                    assert(q0[x] != q0[y]);
                }
            }
            assert forall|i: int| 0 <= i < q1.len() implies #[trigger] self.ready_ok(i) by {
                if i < q0.len() {
                    assert(a.ready_ok(i));
                }
            }
            assert forall|mi: int| 0 <= mi < self.mutex_list@.len() implies
                #[trigger] self.mutex_ok(mi) by {
                assert(a.mutex_ok(mi));
            }
            assert forall|si: int| 0 <= si < self.semaphore_list@.len() implies
                #[trigger] self.sem_ok(si) by {
                assert(a.sem_ok(si));
            }
            assert forall|ci: int| 0 <= ci < self.condvar_list@.len() implies
                #[trigger] self.condvar_ok(ci) by {
                assert(a.condvar_ok(ci));
            }
            assert forall|x: int| 0 <= x < self.timers@.len() implies #[trigger] self.timer_ok(x)
                by {
                assert(a.timer_ok(x));
            }
        }
    }

    /// Wakes task `w`: marks it `Ready` and appends it to the ready queue.
    /// The caller has already detached `w` from whatever wait list held it.
    pub(crate) fn wake_task(&mut self, w: usize)
        requires
            w < old(self).tasks@.len(),
            old(self).tasks@[w as int] is Some,
            forall|i: int|
                0 <= i < old(self).manager.ready_queue@.len()
                    ==> #[trigger] old(self).manager.ready_queue@[i] != w,
        ensures
            final(self).tasks@ == old(self).tasks@.update(
                w as int,
                Some(
                    (TaskControlBlock {
                        task_status: TaskStatus::Ready,
                        blocked_on: Ghost(None),
                        ..old(self).tasks@[w as int]->Some_0
                    }),
                ),
            ),
            final(self).manager.ready_queue@ == old(self).manager.ready_queue@.push(w),
            final(self).current == old(self).current,
            final(self).mutex_list == old(self).mutex_list,
            final(self).mutex_status == old(self).mutex_status,
            final(self).semaphore_list == old(self).semaphore_list,
            final(self).semaphore_status == old(self).semaphore_status,
            final(self).semaphore_cap == old(self).semaphore_cap,
            final(self).condvar_list == old(self).condvar_list,
            final(self).deadlock_detect_enable == old(self).deadlock_detect_enable,
            final(self).time_us == old(self).time_us,
            final(self).timers == old(self).timers,
            final(self).apps == old(self).apps,
            final(self).mapped_pages == old(self).mapped_pages,
    {
        let t = task_mut(&mut self.tasks, w);
        t.task_status = TaskStatus::Ready;
        t.blocked_on = Ghost(None);
        self.manager.add(w);
    }

    /// What one scheduling decision does to the ready queue `q` and task
    /// table `tasks` it starts from: either no queued task is `Ready` and
    /// nothing changes (idle), or the first minimal-stride `Ready` entry is
    /// removed, its stride advanced, and it becomes the running task.
    pub open spec fn schedule_rel(
        q: Seq<usize>,
        tasks: Seq<Option<TaskControlBlock>>,
        k2: Kernel,
    ) -> bool {
        if forall|i: int| !ready_at(q, tasks, i) {
            &&& k2.current is None
            &&& k2.manager.ready_queue@ == q
            &&& k2.tasks@ == tasks
        } else {
            exists|i: int|
                {
                    &&& #[trigger] selected_at(q, tasks, i)
                    &&& k2.current == Some(q[i])
                    &&& k2.manager.ready_queue@ == q.remove(i)
                    &&& k2.tasks@ == tasks.update(
                        q[i] as int,
                        Some(
                            (TaskControlBlock {
                                stride: advance_stride(
                                    tasks[q[i] as int]->Some_0.stride,
                                    tasks[q[i] as int]->Some_0.priority,
                                ),
                                task_status: TaskStatus::Running,
                                ..tasks[q[i] as int]->Some_0
                            }),
                        ),
                    )
                }
        }
    }

    /// Takes the next task out of the ready queue, if any is `Ready`, and
    /// makes it the running task, advancing its stride; with no runnable task
    /// the kernel goes idle. Returns the id of the task now running.
    pub fn fetch_task(&mut self) -> (r: Option<usize>)
        requires
            old(self).wf(),
            old(self).current is None,
        ensures
            final(self).wf(),
            r == final(self).current,
            Kernel::schedule_rel(
                old(self).manager.ready_queue@,
                old(self).tasks@,
                *final(self),
            ),
            final(self).mutex_list == old(self).mutex_list,
            final(self).mutex_status == old(self).mutex_status,
            final(self).semaphore_list == old(self).semaphore_list,
            final(self).semaphore_status == old(self).semaphore_status,
            final(self).semaphore_cap == old(self).semaphore_cap,
            final(self).condvar_list == old(self).condvar_list,
            final(self).deadlock_detect_enable == old(self).deadlock_detect_enable,
            final(self).time_us == old(self).time_us,
            final(self).timers == old(self).timers,
            final(self).apps == old(self).apps,
            final(self).mapped_pages == old(self).mapped_pages,
    {
        let ghost q0 = self.manager.ready_queue@;
        let ghost t0 = self.tasks@;
        proof {
            assert forall|i: int| 0 <= i < q0.len() implies #[trigger] q0[i] < t0.len()
                && t0[q0[i] as int] is Some && t0[q0[i] as int]->Some_0.priority >= 1 by {
                assert(old(self).ready_ok(i));
                assert(old(self).task_ok(q0[i] as int));
            }
        }
        let picked = self.manager.fetch(&mut self.tasks);
        match picked {
            None => {
                self.current = None;
                proof {
                    assert(forall|i: int| !ready_at(q0, t0, i));
                    let a = *old(self);
                    assert forall|t: int| self.live(t) implies #[trigger] self.task_ok(t) by {
                        assert(a.task_ok(t));
                    }
                    assert forall|i: int|
                        0 <= i < self.manager.ready_queue@.len() implies
                        #[trigger] self.ready_ok(i) by {
                        assert(a.ready_ok(i));
                    }
                    assert forall|mi: int| 0 <= mi < self.mutex_list@.len() implies
                        #[trigger] self.mutex_ok(mi) by {
                        assert(a.mutex_ok(mi));
                    }
                    assert forall|si: int| 0 <= si < self.semaphore_list@.len() implies
                        #[trigger] self.sem_ok(si) by {
                        assert(a.sem_ok(si));
                    }
                    assert forall|ci: int| 0 <= ci < self.condvar_list@.len() implies
                        #[trigger] self.condvar_ok(ci) by {
                        assert(a.condvar_ok(ci));
                    }
                    assert forall|x: int| 0 <= x < self.timers@.len() implies
                        #[trigger] self.timer_ok(x) by {
                        assert(a.timer_ok(x));
                    }
                }
                None
            },
            Some(tid) => {
                let ghost t1 = self.tasks@;
                let ghost i: int = choose|i: int|
                    {
                        &&& #[trigger] selected_at(q0, t0, i)
                        &&& tid == q0[i]
                        &&& self.manager.ready_queue@ == q0.remove(i)
                        &&& t1 == t0.update(
                            tid as int,
                            Some(
                                (TaskControlBlock {
                                    stride: advance_stride(
                                        t0[tid as int]->Some_0.stride,
                                        t0[tid as int]->Some_0.priority,
                                    ),
                                    ..t0[tid as int]->Some_0
                                }),
                            ),
                        )
                    };
                proof {
                    assert(ready_at(q0, t0, i));
                }
                let t = task_mut(&mut self.tasks, tid);
                t.task_status = TaskStatus::Running;
                self.current = Some(tid);
                proof {
                    let vfinal = self.tasks@[tid as int];
                    assert(vfinal->Some_0 == (TaskControlBlock {
                        stride: advance_stride(
                            t0[tid as int]->Some_0.stride,
                            t0[tid as int]->Some_0.priority,
                        ),
                        task_status: TaskStatus::Running,
                        ..t0[tid as int]->Some_0
                    }));
                    assert(self.tasks@ =~= t0.update(tid as int, vfinal));
                    assert forall|mi: int| 0 <= mi < self.mutex_status@.len() implies
                        #[trigger] self.mutex_status@[mi] + sum_have(self.tasks@, true, mi)
                        == 1 by {
                        lemma_sum_have_same_res(t0, true, mi, tid as int, vfinal);
                    }
                    assert forall|si: int| 0 <= si < self.semaphore_status@.len() implies
                        #[trigger] self.semaphore_status@[si] + sum_have(self.tasks@, false, si)
                        == self.semaphore_cap@[si] by {
                        lemma_sum_have_same_res(t0, false, si, tid as int, vfinal);
                    }
                    q0.remove_ensures(i);
                    let q1 = self.manager.ready_queue@;
                    assert forall|x: int, y: int|
                        0 <= x < q1.len() && 0 <= y < q1.len() && x != y implies q1[x]
                        != q1[y] by {
                        let xo: int = if x < i {
                            x
                        } else {
                            x + 1
                        };
                        let yo: int = if y < i {
                            y
                        } else {
                            y + 1
                        };
                        assert(q1[x] == q0[xo] && q1[y] == q0[yo]);
                    }
                    assert forall|x: int| 0 <= x < q1.len() implies q1[x] != tid by {
                        let xo: int = if x < i {
                            x
                        } else {
                            x + 1
                        };
                        assert(q1[x] == q0[xo] && xo != i);
                    }
                    let a = *old(self);
                    assert forall|t: int| self.live(t) implies #[trigger] self.task_ok(t) by {
                        assert(a.task_ok(t));
                    }
                    assert forall|x: int| 0 <= x < q1.len() implies #[trigger] self.ready_ok(x)
                        by {
                        let xo: int = if x < i {
                            x
                        } else {
                            x + 1
                        };
                        assert(q1[x] == q0[xo]);
                        assert(a.ready_ok(xo));
                    }
                    assert forall|mi: int| 0 <= mi < self.mutex_list@.len() implies
                        #[trigger] self.mutex_ok(mi) by {
                        assert(a.mutex_ok(mi));
                    }
                    assert forall|si: int| 0 <= si < self.semaphore_list@.len() implies
                        #[trigger] self.sem_ok(si) by {
                        assert(a.sem_ok(si));
                    }
                    assert forall|ci: int| 0 <= ci < self.condvar_list@.len() implies
                        #[trigger] self.condvar_ok(ci) by {
                        assert(a.condvar_ok(ci));
                    }
                    assert forall|x: int| 0 <= x < self.timers@.len() implies
                        #[trigger] self.timer_ok(x) by {
                        assert(a.timer_ok(x));
                    }
                    assert(self.wf());
                }
                Some(tid)
            },
        }
    }
}

/// The timers that stay registered once every expiry at or before `now` has
/// fired: the unexpired entries, order kept.
pub open spec fn kept_timers(ts: Seq<(usize, usize)>, now: int) -> Seq<(usize, usize)>
    decreases ts.len(),
{
    if ts.len() == 0 {
        Seq::empty()
    } else {
        let rest = kept_timers(ts.drop_last(), now);
        if ts.last().0 > now {
            rest.push(ts.last())
        } else {
            rest
        }
    }
}

/// The tasks woken when every expiry at or before `now` fires, in timer
/// registration order.
pub open spec fn woken_tids(ts: Seq<(usize, usize)>, now: int) -> Seq<usize>
    decreases ts.len(),
{
    if ts.len() == 0 {
        Seq::empty()
    } else {
        let rest = woken_tids(ts.drop_last(), now);
        if ts.last().0 <= now {
            rest.push(ts.last().1)
        } else {
            rest
        }
    }
}

/// Every kept timer is unexpired.
pub proof fn lemma_kept_timers_unexpired(ts: Seq<(usize, usize)>, now: int)
    ensures
        forall|x: int|
            0 <= x < kept_timers(ts, now).len() ==> (#[trigger] kept_timers(ts, now)[x]).0 > now,
    decreases ts.len(),
{
    if ts.len() > 0 {
        lemma_kept_timers_unexpired(ts.drop_last(), now);
        assert forall|x: int|
            0 <= x < kept_timers(ts, now).len() implies (#[trigger] kept_timers(ts, now)[x]).0
            > now by {
            if x < kept_timers(ts.drop_last(), now).len() {
                assert(kept_timers(ts, now)[x] == kept_timers(ts.drop_last(), now)[x]);
            }
        }
    }
}

/// A task is among the woken exactly when some expired timer names it.
pub proof fn lemma_woken_members(ts: Seq<(usize, usize)>, now: int, v: usize)
    ensures
        woken_tids(ts, now).contains(v) <==> exists|x: int|
            0 <= x < ts.len() && (#[trigger] ts[x]).0 <= now && ts[x].1 == v,
    decreases ts.len(),
{
    if ts.len() > 0 {
        lemma_woken_members(ts.drop_last(), now, v);
        let prev = woken_tids(ts.drop_last(), now);
        let last = ts.len() - 1;
        if woken_tids(ts, now).contains(v) {
            let j = choose|j: int| 0 <= j < woken_tids(ts, now).len() && woken_tids(ts, now)[j] == v;
            if ts.last().0 <= now && j == woken_tids(ts, now).len() - 1 {
                assert(ts[last].0 <= now && ts[last].1 == v);
            } else {
                assert(prev[j] == v);
                assert(prev.contains(v));
                let x = choose|x: int|
                    0 <= x < ts.drop_last().len() && (#[trigger] ts.drop_last()[x]).0 <= now
                        && ts.drop_last()[x].1 == v;
                assert(ts[x].0 <= now && ts[x].1 == v);
            }
        }
        if exists|x: int| 0 <= x < ts.len() && (#[trigger] ts[x]).0 <= now && ts[x].1 == v {
            let x = choose|x: int| 0 <= x < ts.len() && (#[trigger] ts[x]).0 <= now && ts[x].1 == v;
            if x == last {
                assert(woken_tids(ts, now).last() == v);
            } else {
                assert(ts.drop_last()[x].0 <= now && ts.drop_last()[x].1 == v);
                assert(prev.contains(v));
                let j = choose|j: int| 0 <= j < prev.len() && prev[j] == v;
                assert(woken_tids(ts, now)[j] == v);
            }
        }
    }
}

impl Kernel {
    /// Fires expired sleep timers: every timer whose expiry is at or before
    /// the current time is deregistered and its task woken — set back to
    /// `Ready` and appended to the ready queue, in timer registration order;
    /// unexpired timers stay registered in order, and no other task changes.
    pub fn check_timer(&mut self)
        requires
            old(self).wf(),
        ensures
            final(self).wf(),
            final(self).timers@ == kept_timers(old(self).timers@, old(self).time_us as int / 1000),
            final(self).manager.ready_queue@ == old(self).manager.ready_queue@ + woken_tids(
                old(self).timers@,
                old(self).time_us as int / 1000,
            ),
            final(self).tasks@.len() == old(self).tasks@.len(),
            forall|x: int|
                0 <= x < old(self).timers@.len() && (#[trigger] old(self).timers@[x]).0 <= old(
                    self,
                ).time_us / 1000 ==> final(self).tasks@[old(self).timers@[x].1 as int] == Some(
                    (TaskControlBlock {
                        task_status: TaskStatus::Ready,
                        blocked_on: Ghost(None),
                        ..old(self).tasks@[old(self).timers@[x].1 as int]->Some_0
                    }),
                ),
            forall|t: int|
                0 <= t < old(self).tasks@.len() && !woken_tids(
                    old(self).timers@,
                    old(self).time_us as int / 1000,
                ).contains(t as usize) ==> #[trigger] final(self).tasks@[t] == old(self).tasks@[t],
            forall|x: int|
                0 <= x < final(self).timers@.len() ==> (#[trigger] final(self).timers@[x]).0
                    > final(self).time_us / 1000,
            final(self).current == old(self).current,
            final(self).mutex_list == old(self).mutex_list,
            final(self).mutex_status == old(self).mutex_status,
            final(self).semaphore_list == old(self).semaphore_list,
            final(self).semaphore_status == old(self).semaphore_status,
            final(self).semaphore_cap == old(self).semaphore_cap,
            final(self).condvar_list == old(self).condvar_list,
            final(self).deadlock_detect_enable == old(self).deadlock_detect_enable,
            final(self).time_us == old(self).time_us,
            final(self).apps == old(self).apps,
            final(self).mapped_pages == old(self).mapped_pages,
    {
        let now = self.time_us / 1000;
        let ghost tall = old(self).timers@;
        let ghost nowi = now as int;
        let mut i: usize = 0;
        let ghost p: int = 0;
        while i < self.timers.len()
            invariant
                self.wf(),
                old(self).wf(),
                0 <= p <= tall.len(),
                now == self.time_us / 1000,
                nowi == now as int,
                tall == old(self).timers@,
                self.timers@ == kept_timers(tall.take(p), nowi) + tall.skip(p),
                i == kept_timers(tall.take(p), nowi).len(),
                self.manager.ready_queue@ == old(self).manager.ready_queue@ + woken_tids(
                    tall.take(p),
                    nowi,
                ),
                self.tasks@.len() == old(self).tasks@.len(),
                forall|x: int|
                    0 <= x < p && (#[trigger] tall[x]).0 <= nowi ==> self.tasks@[tall[x].1 as int]
                        == Some(
                        (TaskControlBlock {
                            task_status: TaskStatus::Ready,
                            blocked_on: Ghost(None),
                            ..old(self).tasks@[tall[x].1 as int]->Some_0
                        }),
                    ),
                forall|t: int|
                    0 <= t < old(self).tasks@.len() && !woken_tids(tall.take(p), nowi).contains(
                        t as usize,
                    ) ==> #[trigger] self.tasks@[t] == old(self).tasks@[t],
                self.current == old(self).current,
                self.mutex_list == old(self).mutex_list,
                self.mutex_status == old(self).mutex_status,
                self.semaphore_list == old(self).semaphore_list,
                self.semaphore_status == old(self).semaphore_status,
                self.semaphore_cap == old(self).semaphore_cap,
                self.condvar_list == old(self).condvar_list,
                self.deadlock_detect_enable == old(self).deadlock_detect_enable,
                self.time_us == old(self).time_us,
                self.apps == old(self).apps,
                self.mapped_pages == old(self).mapped_pages,
            decreases tall.len() - p,
        {
            proof {
                assert(tall.take(p + 1).drop_last() =~= tall.take(p));
                assert(self.timers@[i as int] == tall[p]) by {
                    assert(tall.skip(p)[0] == tall[p]);
                }
            }
            let expire = self.timers[i].0;
            if expire <= now {
                let ghost a = *self;
                proof {
                    assert(a.timer_ok(i as int));
                }
                let entry2 = self.timers.remove(i);
                let w = entry2.1;
                proof {
                    assert(w == tall[p].1);
                    assert forall|q: int|
                        0 <= q < self.manager.ready_queue@.len() implies
                        #[trigger] self.manager.ready_queue@[q] != w by {
                        assert(a.ready_ok(q));
                        assert(a.status_at(self.manager.ready_queue@[q] as int)
                            == TaskStatus::Ready);
                    }
                }
                self.wake_task(w);
                proof {
                    a.timers@.remove_ensures(i as int);
                    let vw = self.tasks@[w as int];
                    assert forall|t: int| self.live(t) implies #[trigger] self.task_ok(t) by {
                        assert(a.task_ok(t));
                    }
                    assert forall|q: int|
                        0 <= q < self.manager.ready_queue@.len() implies #[trigger] self.ready_ok(
                        q,
                    ) by {
                        if q < a.manager.ready_queue@.len() {
                            assert(a.ready_ok(q));
                        }
                    }
                    assert forall|mi: int|
                        0 <= mi < self.mutex_list@.len() implies #[trigger] self.mutex_ok(mi) by {
                        assert(a.mutex_ok(mi));
                        let m2 = self.mutex_list@[mi]->Some_0;
                        assert forall|x: int|
                            0 <= x < m2.wait_queue@.len() implies self.mutex_waiter_ok(
                            mi,
                            #[trigger] m2.wait_queue@[x] as int,
                        ) by {
                            assert(a.mutex_waiter_ok(mi, m2.wait_queue@[x] as int));
                            assert(m2.wait_queue@[x] != w) by {
                                assert(a.task_at(m2.wait_queue@[x] as int).blocked_on@ == Some(
                                    WaitTarget::OnMutex(mi as usize),
                                ));
                                assert(a.task_at(w as int).blocked_on@ == Some(
                                    WaitTarget::Sleeping,
                                ));
                            }
                        }
                    }
                    assert forall|si: int|
                        0 <= si < self.semaphore_list@.len() implies #[trigger] self.sem_ok(si)
                        by {
                        assert(a.sem_ok(si));
                        let sv = self.semaphore_list@[si]->Some_0;
                        assert forall|x: int|
                            0 <= x < sv.wait_queue@.len() implies self.sem_waiter_ok(
                            si,
                            #[trigger] sv.wait_queue@[x] as int,
                        ) by {
                            assert(a.sem_waiter_ok(si, sv.wait_queue@[x] as int));
                            assert(sv.wait_queue@[x] != w) by {
                                assert(a.task_at(sv.wait_queue@[x] as int).blocked_on@ == Some(
                                    WaitTarget::OnSemaphore(si as usize),
                                ));
                            }
                        }
                    }
                    assert forall|ci: int|
                        0 <= ci < self.condvar_list@.len() implies #[trigger] self.condvar_ok(ci)
                        by {
                        assert(a.condvar_ok(ci));
                        let cvv = self.condvar_list@[ci]->Some_0;
                        assert forall|x: int|
                            0 <= x < cvv.wait_queue@.len() implies self.condvar_waiter_ok(
                            ci,
                            #[trigger] cvv.wait_queue@[x] as int,
                        ) by {
                            assert(a.condvar_waiter_ok(ci, cvv.wait_queue@[x] as int));
                            assert(cvv.wait_queue@[x] != w) by {
                                assert(a.task_at(cvv.wait_queue@[x] as int).blocked_on@ == Some(
                                    WaitTarget::OnCondvar(ci as usize),
                                ));
                            }
                        }
                    }
                    assert forall|x: int|
                        0 <= x < self.timers@.len() implies #[trigger] self.timer_ok(x) by {
                        let xo: int = if x < i {
                            x
                        } else {
                            x + 1
                        };
                        assert(self.timers@[x] == a.timers@[xo]);
                        assert(a.timer_ok(xo));
                        assert(self.timers@[x].1 != w) by {
                            assert(a.timers@[xo].1 != a.timers@[i as int].1);
                        }
                    }
                    assert forall|x: int, y: int|
                        0 <= x < self.timers@.len() && 0 <= y < self.timers@.len() && x
                        != y implies (#[trigger] self.timers@[x]).1 != (
                    #[trigger] self.timers@[y]).1 by {
                        let xo: int = if x < i {
                            x
                        } else {
                            x + 1
                        };
                        let yo: int = if y < i {
                            y
                        } else {
                            y + 1
                        };
                        assert(self.timers@[x] == a.timers@[xo] && self.timers@[y]
                            == a.timers@[yo]);
                    }
                    assert forall|mi: int|
                        0 <= mi < self.mutex_status@.len() implies
                        #[trigger] self.mutex_status@[mi] + sum_have(self.tasks@, true, mi)
                        == 1 by {
                        lemma_sum_have_same_res(a.tasks@, true, mi, w as int, vw);
                    }
                    assert forall|si: int|
                        0 <= si < self.semaphore_status@.len() implies
                        #[trigger] self.semaphore_status@[si] + sum_have(self.tasks@, false, si)
                        == self.semaphore_cap@[si] by {
                        lemma_sum_have_same_res(a.tasks@, false, si, w as int, vw);
                    }
                    assert(self.wf());
                    // The tracked shapes advance by one processed entry.
                    assert(kept_timers(tall.take(p + 1), nowi) =~= kept_timers(
                        tall.take(p),
                        nowi,
                    ));
                    assert(woken_tids(tall.take(p + 1), nowi) =~= woken_tids(
                        tall.take(p),
                        nowi,
                    ).push(w));
                    assert(self.timers@ =~= kept_timers(tall.take(p + 1), nowi) + tall.skip(p + 1))
                        by {
                        assert forall|x: int|
                            0 <= x < self.timers@.len() implies self.timers@[x] == (kept_timers(
                            tall.take(p + 1),
                            nowi,
                        ) + tall.skip(p + 1))[x] by {
                            let xo: int = if x < i {
                                x
                            } else {
                                x + 1
                            };
                            assert(self.timers@[x] == a.timers@[xo]);
                            if x >= i {
                                assert(a.timers@[xo] == tall.skip(p)[xo - i]);
                                assert(tall.skip(p)[xo - i] == tall[p + xo - i]);
                                assert(tall.skip(p + 1)[x - i] == tall[p + 1 + x - i]);
                            }
                        }
                    }
                    assert(self.manager.ready_queue@ =~= old(self).manager.ready_queue@
                        + woken_tids(tall.take(p + 1), nowi));
                    // The woken task was not woken before, so its pre-state
                    // is its original state.
                    assert(!woken_tids(tall.take(p), nowi).contains(w)) by {
                        lemma_woken_members(tall.take(p), nowi, w);
                        if exists|x: int|
                            0 <= x < tall.take(p).len() && (#[trigger] tall.take(p)[x]).0 <= nowi
                                && tall.take(p)[x].1 == w {
                            let x = choose|x: int|
                                0 <= x < tall.take(p).len() && (#[trigger] tall.take(p)[x]).0
                                    <= nowi && tall.take(p)[x].1 == w;
                            assert(old(self).timers@[x].1 == old(self).timers@[p].1);
                        }
                    }
                    assert forall|t: int|
                        0 <= t < old(self).tasks@.len() && !woken_tids(
                            tall.take(p + 1),
                            nowi,
                        ).contains(t as usize) implies #[trigger] self.tasks@[t] == old(
                        self,
                    ).tasks@[t] by {
                        assert(!woken_tids(tall.take(p), nowi).contains(t as usize)) by {
                            if woken_tids(tall.take(p), nowi).contains(t as usize) {
                                let j = choose|j: int|
                                    0 <= j < woken_tids(tall.take(p), nowi).len() && woken_tids(
                                        tall.take(p),
                                        nowi,
                                    )[j] == t as usize;
                                assert(woken_tids(tall.take(p + 1), nowi)[j] == t as usize);
                            }
                        }
                        assert(t != w as int) by {
                            assert(woken_tids(tall.take(p + 1), nowi).last() == w);
                        }
                        assert(self.tasks@[t] == a.tasks@[t]);
                        assert(a.tasks@[t] == old(self).tasks@[t]);
                    }
                    assert forall|x: int|
                        0 <= x < p + 1 && (#[trigger] tall[x]).0 <= nowi implies
                        self.tasks@[tall[x].1 as int] == Some(
                        (TaskControlBlock {
                            task_status: TaskStatus::Ready,
                            blocked_on: Ghost(None),
                            ..old(self).tasks@[tall[x].1 as int]->Some_0
                        }),
                    ) by {
                        if x < p {
                            assert(old(self).timer_ok(x));
                            assert(tall[x].1 != w) by {
                                assert(old(self).timers@[x].1 != old(self).timers@[p].1);
                            }
                            assert(self.tasks@[tall[x].1 as int] == a.tasks@[tall[x].1 as int]);
                            assert(a.tasks@[tall[x].1 as int] == Some(
                                (TaskControlBlock {
                                    task_status: TaskStatus::Ready,
                                    blocked_on: Ghost(None),
                                    ..old(self).tasks@[tall[x].1 as int]->Some_0
                                }),
                            ));
                        } else {
                            assert(a.tasks@[w as int] == old(self).tasks@[w as int]) by {
                                lemma_woken_members(tall.take(p), nowi, w);
                            }
                            assert(self.tasks@[w as int] == Some(
                                (TaskControlBlock {
                                    task_status: TaskStatus::Ready,
                                    blocked_on: Ghost(None),
                                    ..a.tasks@[w as int]->Some_0
                                }),
                            ));
                        }
                    }
                }
                proof {
                    p = p + 1;
                }
            } else {
                proof {
                    assert(kept_timers(tall.take(p + 1), nowi) =~= kept_timers(
                        tall.take(p),
                        nowi,
                    ).push(tall[p]));
                    assert(woken_tids(tall.take(p + 1), nowi) =~= woken_tids(tall.take(p), nowi));
                    assert(self.timers@ =~= kept_timers(tall.take(p + 1), nowi) + tall.skip(p + 1))
                        by {
                        assert forall|x: int|
                            0 <= x < self.timers@.len() implies self.timers@[x] == (kept_timers(
                            tall.take(p + 1),
                            nowi,
                        ) + tall.skip(p + 1))[x] by {
                            if x < i {
                            } else if x == i {
                                assert(self.timers@[x] == tall[p]);
                            } else {
                                assert(self.timers@[x] == tall.skip(p)[x - i]);
                                assert(tall.skip(p)[x - i] == tall[p + x - i]);
                                assert(tall.skip(p + 1)[x - (i + 1)] == tall[p + x - i]);
                            }
                        }
                    }
                    p = p + 1;
                }
                i = i + 1;
            }
        }
        proof {
            assert(tall.skip(p).len() == 0);
            assert(tall.take(p) =~= tall);
            lemma_kept_timers_unexpired(tall, nowi);
            assert(self.timers@ =~= kept_timers(tall, nowi));
        }
    }
}

/// Mutual exclusion: in any well-formed kernel state, when one task holds a
/// mutex no other task holds it, and its availability counter is 0.
pub proof fn lemma_mutual_exclusion(k: Kernel, mi: int, t1: int, t2: int)
    requires
        k.wf(),
        0 <= mi < k.mutex_status@.len(),
        k.live(t1),
        k.live(t2),
        t1 != t2,
        crate::ledger::res_have(k.tasks@[t1], true, mi) >= 1,
    ensures
        crate::ledger::res_have(k.tasks@[t2], true, mi) == 0,
        k.mutex_status@[mi] == 0,
{
    crate::ledger::lemma_sum_have_two(k.tasks@, true, mi, t1, t2);
    crate::ledger::lemma_sum_have_nonneg(k.tasks@, true, mi);
    assert(k.mutex_status@[mi] + crate::ledger::sum_have(k.tasks@, true, mi) == 1);
    assert(crate::ledger::res_have(k.tasks@[t2], true, mi) >= 0) by {
        crate::ledger::lemma_sum_have_at_least(k.tasks@.subrange(t2, t2 + 1), true, mi, 0);
        assert(k.tasks@.subrange(t2, t2 + 1)[0] == k.tasks@[t2]);
        crate::ledger::lemma_sum_have_nonneg(k.tasks@.subrange(t2, t2 + 1), true, mi);
    }
}

/// A mutex availability counter is always 0 or 1.
pub proof fn lemma_mutex_counter_binary(k: Kernel, mi: int)
    requires
        k.wf(),
        0 <= mi < k.mutex_status@.len(),
    ensures
        k.mutex_status@[mi] <= 1,
{
    crate::ledger::lemma_sum_have_nonneg(k.tasks@, true, mi);
}

/// Semaphore conservation: in any well-formed kernel state the availability
/// counter of a semaphore plus the units held across all tasks equals the
/// capacity the slot was created with; every operation of this interface
/// preserves it, since every operation preserves well-formedness.
pub proof fn lemma_semaphore_conservation(k: Kernel, si: int)
    requires
        k.wf(),
        0 <= si < k.semaphore_status@.len(),
    ensures
        k.semaphore_status@[si] + crate::ledger::sum_have(k.tasks@, false, si)
            == k.semaphore_cap@[si],
{
}

/// FIFO fairness for blocking mutexes: a release always grants to the head
/// of the wait list (see `sys_mutex_unlock`) and a blocked acquire joins at
/// the tail (see `sys_mutex_lock`), so a task that blocked earlier — at a
/// smaller index — is granted before one that blocked later: the later task
/// is never the head while the earlier one still waits.
pub proof fn lemma_mutex_fifo(k: Kernel, mi: int, i: int, j: int)
    requires
        k.wf(),
        0 <= mi < k.mutex_list@.len(),
        0 <= i < j < k.mutex_list@[mi]->Some_0.wait_queue@.len(),
    ensures
        k.mutex_list@[mi]->Some_0.wait_queue@[0] != k.mutex_list@[mi]->Some_0.wait_queue@[j],
{
    assert(k.mutex_ok(mi));
}

/// FIFO fairness for semaphores, as for blocking mutexes: `sys_semaphore_up`
/// grants to the head of the wait list and `sys_semaphore_down` joins at the
/// tail, so of two queued waiters the earlier is always granted first.
pub proof fn lemma_semaphore_fifo(k: Kernel, si: int, i: int, j: int)
    requires
        k.wf(),
        0 <= si < k.semaphore_list@.len(),
        0 <= i < j < k.semaphore_list@[si]->Some_0.wait_queue@.len(),
    ensures
        k.semaphore_list@[si]->Some_0.wait_queue@[0] != k.semaphore_list@[si]->Some_0.wait_queue@[j],
{
    assert(k.sem_ok(si));
}

} // verus!
