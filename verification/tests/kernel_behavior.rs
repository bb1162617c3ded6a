use os_core::kernel::Kernel;
use os_core::sys_process::{
    sys_exec, sys_exit, sys_fork, sys_get_time, sys_getpid, sys_mmap, sys_munmap, sys_sbrk,
    sys_set_priority, sys_spawn, sys_waitpid, sys_yield, TimeVal,
};
use os_core::sys_sync::{
    sys_condvar_create, sys_condvar_signal, sys_condvar_wait, sys_enable_deadlock_detect,
    sys_mutex_create, sys_mutex_lock, sys_mutex_unlock, sys_semaphore_create, sys_semaphore_down,
    sys_semaphore_up, sys_sleep,
};
use os_core::task::{TaskControlBlock, TaskStatus};
use os_core::{DEADLOCK_RC, RETRY_RC};

fn task(k: &Kernel, t: usize) -> &TaskControlBlock {
    k.tasks[t].as_ref().unwrap()
}

fn mutex_need(k: &Kernel, t: usize, i: usize) -> usize {
    task(k, t).res.as_ref().unwrap().mutex_need[i]
}

fn mutex_have(k: &Kernel, t: usize, i: usize) -> usize {
    task(k, t).res.as_ref().unwrap().mutex_have[i]
}

fn sem_need(k: &Kernel, t: usize, i: usize) -> usize {
    task(k, t).res.as_ref().unwrap().semaphore_need[i]
}

fn sem_have(k: &Kernel, t: usize, i: usize) -> usize {
    task(k, t).res.as_ref().unwrap().semaphore_have[i]
}

#[test]
fn getpid_of_root_task() {
    let k = Kernel::new(Vec::new());
    assert_eq!(sys_getpid(&k), 0);
}

#[test]
fn deadlock_detection_rejects_infeasible_request() {
    // One mutex, detection enabled. The holder requests a second unit of the
    // mutex it already holds: have = [1], the speculative need = [1], and no
    // available unit can ever cover it. The request must be refused with the
    // deadlock sentinel, the availability counter must stay 0, and the
    // pending need must be rolled back to [0].
    let mut k = Kernel::new(Vec::new());
    assert_eq!(sys_mutex_create(&mut k, true), 0);
    assert_eq!(sys_enable_deadlock_detect(&mut k, 1), 0);
    assert_eq!(sys_mutex_lock(&mut k, 0), 0);
    assert_eq!(mutex_have(&k, 0, 0), 1);
    assert_eq!(k.mutex_status[0], 0);
    let r = sys_mutex_lock(&mut k, 0);
    assert_eq!(r, DEADLOCK_RC);
    assert_eq!(r, -0xDEAD);
    assert_eq!(k.mutex_status[0], 0);
    assert_eq!(mutex_need(&k, 0, 0), 0);
    assert_eq!(mutex_have(&k, 0, 0), 1);
}

#[test]
fn deadlock_detection_allows_feasible_request() {
    let mut k = Kernel::new(Vec::new());
    assert_eq!(sys_mutex_create(&mut k, true), 0);
    assert_eq!(sys_enable_deadlock_detect(&mut k, 1), 0);
    assert_eq!(sys_fork(&mut k), 1);
    // The mutex is free: the request is feasible and granted at once.
    assert_eq!(sys_mutex_lock(&mut k, 0), 0);
    assert_eq!(mutex_have(&k, 0, 0), 1);
    assert_eq!(mutex_need(&k, 0, 0), 0);
}

#[test]
fn semaphore_three_downs_third_blocks_and_is_woken_in_order() {
    // A semaphore with two units; three tasks each take one. The first two
    // succeed at once (2 -> 1 -> 0), the third blocks; a later release wakes
    // exactly the third, in arrival order.
    let mut k = Kernel::new(Vec::new());
    assert_eq!(sys_fork(&mut k), 1);
    assert_eq!(sys_fork(&mut k), 2);
    assert_eq!(sys_semaphore_create(&mut k, 2), 0);
    assert_eq!(k.semaphore_status[0], 2);

    assert_eq!(sys_semaphore_down(&mut k, 0), 0);
    assert_eq!(k.semaphore_status[0], 1);
    assert_eq!(sys_yield(&mut k), 0);
    assert_eq!(k.current, Some(1));

    assert_eq!(sys_semaphore_down(&mut k, 0), 0);
    assert_eq!(k.semaphore_status[0], 0);
    assert_eq!(sys_yield(&mut k), 0);
    assert_eq!(k.current, Some(2));

    // No unit left: the third caller blocks on the FIFO wait list.
    assert_eq!(sys_semaphore_down(&mut k, 0), 0);
    assert_eq!(task(&k, 2).task_status, TaskStatus::Blocked);
    assert_eq!(k.semaphore_list[0].as_ref().unwrap().wait_queue, vec![2]);
    assert_eq!(sem_need(&k, 2, 0), 1);

    // A holder releases: the unit goes straight to the head waiter.
    let holder = k.current.unwrap();
    assert!(sem_have(&k, holder, 0) == 1);
    assert_eq!(sys_semaphore_up(&mut k, 0), 0);
    assert_eq!(task(&k, 2).task_status, TaskStatus::Ready);
    assert_eq!(sem_have(&k, 2, 0), 1);
    assert_eq!(sem_need(&k, 2, 0), 0);
    assert!(k.semaphore_list[0].as_ref().unwrap().wait_queue.is_empty());
    assert_eq!(k.semaphore_status[0], 0);
}

fn stride_run() -> (Vec<usize>, Kernel) {
    // Task 0 has priority 4, task 1 priority 2, both starting near stride 0:
    // the priority-4 task accumulates stride at half the rate and is selected
    // more often.
    let mut k = Kernel::new(Vec::new());
    assert_eq!(sys_set_priority(&mut k, 4), 4);
    assert_eq!(sys_fork(&mut k), 1);
    assert_eq!(sys_yield(&mut k), 0);
    assert_eq!(k.current, Some(1));
    assert_eq!(sys_set_priority(&mut k, 2), 2);
    let mut order = Vec::new();
    for _ in 0..8 {
        assert_eq!(sys_yield(&mut k), 0);
        order.push(k.current.unwrap());
    }
    (order, k)
}

#[test]
fn stride_scheduling_prefers_higher_priority_and_is_deterministic() {
    let (order1, k) = stride_run();
    let (order2, _) = stride_run();
    // The same initial strides give the same selection order on every run.
    assert_eq!(order1, order2);
    let runs0 = order1.iter().filter(|&&t| t == 0).count();
    let runs1 = order1.iter().filter(|&&t| t == 1).count();
    // The priority-4 task runs at least as often as the priority-2 task.
    assert!(runs0 > runs1);
    // The lower-priority task's stride has grown at least as far.
    assert!(task(&k, 1).stride >= task(&k, 0).stride);
}

#[test]
fn stride_tie_breaks_on_queue_position() {
    let mut k = Kernel::new(Vec::new());
    assert_eq!(sys_fork(&mut k), 1);
    // Both tasks have stride 0; yielding queues the caller behind the child,
    // so the child (first in the queue) is selected on the tie.
    assert_eq!(sys_yield(&mut k), 0);
    assert_eq!(k.current, Some(1));
}

#[test]
fn spin_mutex_contention_suspends_and_retries() {
    let mut k = Kernel::new(Vec::new());
    assert_eq!(sys_mutex_create(&mut k, false), 0);
    assert_eq!(sys_mutex_lock(&mut k, 0), 0);
    assert_eq!(sys_fork(&mut k), 1);
    assert_eq!(sys_yield(&mut k), 0);
    assert_eq!(k.current, Some(1));
    // The spinning mutex is held: the caller is suspended at its yield point
    // and told to retry; nothing is granted and nothing queued.
    let r = sys_mutex_lock(&mut k, 0);
    assert_eq!(r, RETRY_RC);
    assert_eq!(k.mutex_status[0], 0);
    assert!(k.mutex_list[0].as_ref().unwrap().wait_queue.is_empty());
    assert_eq!(mutex_need(&k, 1, 0), 0);
    assert_eq!(mutex_have(&k, 1, 0), 0);
}

#[test]
fn blocking_mutex_is_granted_in_fifo_order() {
    let mut k = Kernel::new(Vec::new());
    assert_eq!(sys_mutex_create(&mut k, true), 0);
    assert_eq!(sys_mutex_lock(&mut k, 0), 0);
    assert_eq!(sys_fork(&mut k), 1);
    assert_eq!(sys_fork(&mut k), 2);
    assert_eq!(sys_yield(&mut k), 0);
    assert_eq!(k.current, Some(1));
    // Task 1 blocks first, then task 2.
    assert_eq!(sys_mutex_lock(&mut k, 0), 0);
    assert_eq!(k.current, Some(2));
    assert_eq!(sys_mutex_lock(&mut k, 0), 0);
    assert_eq!(k.current, Some(0));
    assert_eq!(k.mutex_list[0].as_ref().unwrap().wait_queue, vec![1, 2]);
    // The release hands the lock to the longest-waiting task, task 1.
    assert_eq!(sys_mutex_unlock(&mut k, 0), 0);
    assert_eq!(mutex_have(&k, 1, 0), 1);
    assert_eq!(task(&k, 1).task_status, TaskStatus::Ready);
    assert_eq!(task(&k, 2).task_status, TaskStatus::Blocked);
    assert_eq!(k.mutex_list[0].as_ref().unwrap().wait_queue, vec![2]);
    // The lock stayed held through the handover.
    assert_eq!(k.mutex_status[0], 0);
}

#[test]
fn condvar_wait_releases_mutex_and_signal_wakes_head() {
    let mut k = Kernel::new(Vec::new());
    assert_eq!(sys_mutex_create(&mut k, true), 0);
    assert_eq!(sys_condvar_create(&mut k), 0);
    assert_eq!(sys_fork(&mut k), 1);
    assert_eq!(sys_mutex_lock(&mut k, 0), 0);
    // Wait releases the mutex and parks the caller on the condvar.
    assert_eq!(sys_condvar_wait(&mut k, 0, 0), 0);
    assert_eq!(k.mutex_status[0], 1);
    assert_eq!(mutex_have(&k, 0, 0), 0);
    assert_eq!(task(&k, 0).task_status, TaskStatus::Blocked);
    assert_eq!(k.condvar_list[0].as_ref().unwrap().wait_queue, vec![0]);
    assert_eq!(k.current, Some(1));
    // Signal wakes the head waiter; it must reacquire the mutex itself.
    assert_eq!(sys_condvar_signal(&mut k, 0), 0);
    assert_eq!(task(&k, 0).task_status, TaskStatus::Ready);
    assert!(k.condvar_list[0].as_ref().unwrap().wait_queue.is_empty());
    // A signal with no waiter is a no-op.
    assert_eq!(sys_condvar_signal(&mut k, 0), 0);
}

#[test]
fn unknown_handles_are_rejected() {
    let mut k = Kernel::new(Vec::new());
    assert_eq!(sys_mutex_lock(&mut k, 7), -1);
    assert_eq!(sys_mutex_unlock(&mut k, 7), -1);
    assert_eq!(sys_semaphore_down(&mut k, 3), -1);
    assert_eq!(sys_semaphore_up(&mut k, 3), -1);
    assert_eq!(sys_condvar_signal(&mut k, 2), -1);
    assert_eq!(sys_condvar_wait(&mut k, 0, 0), -1);
    assert_eq!(sys_enable_deadlock_detect(&mut k, 5), -1);
    assert_eq!(sys_set_priority(&mut k, 1), -1);
    assert_eq!(sys_set_priority(&mut k, 0), -1);
}

#[test]
fn enable_deadlock_detect_tri_state() {
    let mut k = Kernel::new(Vec::new());
    assert!(!k.deadlock_detect_enable);
    assert_eq!(sys_enable_deadlock_detect(&mut k, 1), 0);
    assert!(k.deadlock_detect_enable);
    assert_eq!(sys_enable_deadlock_detect(&mut k, 0), 0);
    assert!(!k.deadlock_detect_enable);
    assert_eq!(sys_enable_deadlock_detect(&mut k, 2), -1);
    assert!(!k.deadlock_detect_enable);
}

#[test]
fn semaphore_up_without_waiter_restores_counter() {
    let mut k = Kernel::new(Vec::new());
    assert_eq!(sys_semaphore_create(&mut k, 1), 0);
    assert_eq!(sys_semaphore_down(&mut k, 0), 0);
    assert_eq!(k.semaphore_status[0], 0);
    assert_eq!(sys_semaphore_up(&mut k, 0), 0);
    assert_eq!(k.semaphore_status[0], 1);
    assert_eq!(sem_have(&k, 0, 0), 0);
}

#[test]
fn creating_primitives_grows_ledgers_in_step() {
    let mut k = Kernel::new(Vec::new());
    assert_eq!(sys_mutex_create(&mut k, true), 0);
    assert_eq!(sys_mutex_create(&mut k, false), 1);
    assert_eq!(sys_semaphore_create(&mut k, 3), 0);
    assert_eq!(sys_condvar_create(&mut k), 0);
    assert_eq!(sys_condvar_create(&mut k), 1);
    let r = task(&k, 0).res.as_ref().unwrap();
    assert_eq!(r.mutex_need.len(), 2);
    assert_eq!(r.mutex_have.len(), 2);
    assert_eq!(r.semaphore_need.len(), 1);
    assert_eq!(r.semaphore_have.len(), 1);
    assert_eq!(k.mutex_status, vec![1, 1]);
    assert_eq!(k.semaphore_status, vec![3]);
}

#[test]
fn get_time_splits_seconds_and_microseconds() {
    let mut k = Kernel::new(Vec::new());
    k.time_us = 2_500_000;
    let mut ts = TimeVal { sec: 0, usec: 0 };
    assert_eq!(sys_get_time(&k, &mut ts, 0), 0);
    assert_eq!(ts.sec, 2);
    assert_eq!(ts.usec, 500_000);
}

#[test]
fn sleep_blocks_until_timer_fires() {
    let mut k = Kernel::new(Vec::new());
    assert_eq!(sys_sleep(&mut k, 10), 0);
    assert_eq!(task(&k, 0).task_status, TaskStatus::Blocked);
    assert_eq!(k.timers, vec![(10, 0)]);
    assert_eq!(k.current, None);
    // Before the expiry nothing wakes.
    k.check_timer();
    assert_eq!(task(&k, 0).task_status, TaskStatus::Blocked);
    // At the expiry the sleeper returns to the ready queue.
    k.time_us = 10_000;
    k.check_timer();
    assert_eq!(task(&k, 0).task_status, TaskStatus::Ready);
    assert!(k.timers.is_empty());
    assert_eq!(k.fetch_task(), Some(0));
    assert_eq!(k.current, Some(0));
}

#[test]
fn waitpid_reaps_zombie_child() {
    let mut k = Kernel::new(Vec::new());
    assert_eq!(sys_fork(&mut k), 1);
    let mut code: i32 = 0;
    // The child is still running: -2.
    assert_eq!(sys_waitpid(&mut k, 1, &mut code), -2);
    // No such child: -1.
    assert_eq!(sys_waitpid(&mut k, 9, &mut code), -1);
    assert_eq!(sys_yield(&mut k), 0);
    assert_eq!(k.current, Some(1));
    assert_eq!(sys_exit(&mut k, 42), 0);
    assert_eq!(task(&k, 1).task_status, TaskStatus::Zombie);
    assert_eq!(k.current, Some(0));
    assert_eq!(sys_waitpid(&mut k, -1, &mut code), 1);
    assert_eq!(code, 42);
    assert!(k.tasks[1].is_none());
    assert_eq!(sys_waitpid(&mut k, 1, &mut code), -1);
}

#[test]
fn exit_releases_held_units_to_waiters() {
    let mut k = Kernel::new(Vec::new());
    assert_eq!(sys_semaphore_create(&mut k, 1), 0);
    assert_eq!(sys_semaphore_down(&mut k, 0), 0);
    assert_eq!(sys_fork(&mut k), 1);
    assert_eq!(sys_yield(&mut k), 0);
    assert_eq!(k.current, Some(1));
    // The child blocks on the empty semaphore.
    assert_eq!(sys_semaphore_down(&mut k, 0), 0);
    assert_eq!(k.current, Some(0));
    // The holder exits: its unit is released through the ordinary release
    // path and goes to the head waiter.
    assert_eq!(sys_exit(&mut k, 0), 0);
    assert_eq!(task(&k, 0).task_status, TaskStatus::Zombie);
    assert!(task(&k, 0).res.is_none());
    assert_eq!(sem_have(&k, 1, 0), 1);
    // The woken waiter was then scheduled and is running.
    assert_eq!(k.current, Some(1));
    assert_eq!(task(&k, 1).task_status, TaskStatus::Running);
}

#[test]
fn exec_and_spawn_validate_program_names() {
    let apps = vec![b"init".to_vec(), b"shell".to_vec()];
    let mut k = Kernel::new(apps);
    assert_eq!(sys_exec(&k, &b"init".to_vec()), 0);
    assert_eq!(sys_exec(&k, &b"nope".to_vec()), -1);
    assert_eq!(sys_spawn(&mut k, &b"nope".to_vec()), -1);
    assert_eq!(k.tasks.len(), 1);
    assert_eq!(sys_spawn(&mut k, &b"shell".to_vec()), 1);
    assert_eq!(task(&k, 1).priority, 16);
    assert_eq!(task(&k, 1).stride, 0);
    assert_eq!(task(&k, 1).parent, Some(0));
    assert_eq!(task(&k, 0).children, vec![1]);
}

#[test]
fn mmap_and_munmap_manage_pages() {
    let mut k = Kernel::new(Vec::new());
    assert_eq!(sys_mmap(&mut k, 0x1000, 0x2000, 3), 0);
    assert_eq!(k.mapped_pages, vec![1, 2]);
    // Overlap, misalignment, and bad permission bits are rejected.
    assert_eq!(sys_mmap(&mut k, 0x1000, 0x1000, 3), -1);
    assert_eq!(sys_mmap(&mut k, 0x1001, 0x1000, 3), -1);
    assert_eq!(sys_mmap(&mut k, 0x8000, 0x1000, 0), -1);
    assert_eq!(sys_mmap(&mut k, 0x8000, 0x1000, 8), -1);
    // Unmapping an unmapped range is rejected; a mapped one is removed.
    assert_eq!(sys_munmap(&mut k, 0x5000, 0x1000), -1);
    assert_eq!(sys_munmap(&mut k, 0x1000, 0x1000), 0);
    assert_eq!(k.mapped_pages, vec![2]);
}

#[test]
fn sbrk_moves_the_program_break() {
    let mut k = Kernel::new(Vec::new());
    assert_eq!(sys_sbrk(&mut k, 100), 0);
    assert_eq!(task(&k, 0).program_brk, 100);
    assert_eq!(sys_sbrk(&mut k, -40), 100);
    assert_eq!(task(&k, 0).program_brk, 60);
    assert_eq!(sys_sbrk(&mut k, -100), -1);
    assert_eq!(task(&k, 0).program_brk, 60);
}

#[test]
fn fork_inherits_priority_and_aligned_ledgers() {
    let mut k = Kernel::new(Vec::new());
    assert_eq!(sys_mutex_create(&mut k, true), 0);
    assert_eq!(sys_set_priority(&mut k, 7), 7);
    assert_eq!(sys_fork(&mut k), 1);
    assert_eq!(task(&k, 1).priority, 7);
    assert_eq!(task(&k, 1).task_status, TaskStatus::Ready);
    let r = task(&k, 1).res.as_ref().unwrap();
    assert_eq!(r.mutex_need, vec![0]);
    assert_eq!(r.mutex_have, vec![0]);
}

#[test]
fn spin_mutex_retry_succeeds_once_released() {
    let mut k = Kernel::new(Vec::new());
    assert_eq!(sys_mutex_create(&mut k, false), 0);
    assert_eq!(sys_mutex_lock(&mut k, 0), 0);
    assert_eq!(sys_fork(&mut k), 1);
    assert_eq!(sys_yield(&mut k), 0);
    assert_eq!(k.current, Some(1));
    assert_eq!(sys_mutex_lock(&mut k, 0), RETRY_RC);
    // The suspended caller's turn comes again only after the holder ran.
    assert_eq!(k.current, Some(0));
    assert_eq!(sys_mutex_unlock(&mut k, 0), 0);
    assert_eq!(k.mutex_status[0], 1);
    assert_eq!(sys_yield(&mut k), 0);
    assert_eq!(k.current, Some(1));
    // The retry now finds the lock free and takes it.
    assert_eq!(sys_mutex_lock(&mut k, 0), 0);
    assert_eq!(mutex_have(&k, 1, 0), 1);
    assert_eq!(k.mutex_status[0], 0);
}

#[test]
fn expired_timers_wake_in_registration_order() {
    let mut k = Kernel::new(Vec::new());
    assert_eq!(sys_fork(&mut k), 1);
    assert_eq!(sys_sleep(&mut k, 5), 0);
    assert_eq!(k.current, Some(1));
    assert_eq!(sys_sleep(&mut k, 10), 0);
    assert_eq!(k.current, None);
    assert_eq!(k.timers, vec![(5, 0), (10, 1)]);
    // Only the first expiry has been reached.
    k.time_us = 5_000;
    k.check_timer();
    assert_eq!(task(&k, 0).task_status, TaskStatus::Ready);
    assert_eq!(task(&k, 1).task_status, TaskStatus::Blocked);
    assert_eq!(k.timers, vec![(10, 1)]);
    assert_eq!(k.manager.ready_queue, vec![0]);
    // Both have been reached: the second sleeper joins behind the first.
    k.time_us = 10_000;
    k.check_timer();
    assert_eq!(task(&k, 1).task_status, TaskStatus::Ready);
    assert!(k.timers.is_empty());
    assert_eq!(k.manager.ready_queue, vec![0, 1]);
}
