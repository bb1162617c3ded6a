use vstd::prelude::*;

use crate::task::{status_of, stride_of, task_mut, TaskControlBlock, TaskStatus};
use crate::BIG_STRIDE;

verus! {

/// The ready queue: an unordered collection of task ids from which the stride
/// discipline selects the next task to run.
pub struct TaskManager {
    pub ready_queue: Vec<usize>,
}

/// Entry `i` of the queue names a task that is currently `Ready`.
pub open spec fn ready_at(q: Seq<usize>, tasks: Seq<Option<TaskControlBlock>>, i: int) -> bool {
    0 <= i < q.len() && q[i] < tasks.len() && status_of(tasks[q[i] as int])
        == TaskStatus::Ready
}

/// Entry `i` is the selection the stride discipline makes: a `Ready` entry of
/// minimal stride, the earliest such entry on a tie.
pub open spec fn selected_at(
    q: Seq<usize>,
    tasks: Seq<Option<TaskControlBlock>>,
    i: int,
) -> bool {
    &&& ready_at(q, tasks, i)
    &&& forall|j: int|
        #[trigger] ready_at(q, tasks, j) ==> stride_of(tasks[q[i] as int]) <= stride_of(
            tasks[q[j] as int],
        )
    &&& forall|j: int|
        0 <= j < i && #[trigger] ready_at(q, tasks, j) ==> stride_of(tasks[q[j] as int])
            > stride_of(tasks[q[i] as int])
}

/// The stride counter after one selection: it grows by `BIG_STRIDE / priority`
/// and saturates at the counter maximum, so it never decreases. With a 64-bit
/// counter and priorities of at least 2 the saturation point is unreachable in
/// any practical run; saturating keeps the comparison plain and the counter
/// monotonic, where plain wrapping addition would reorder tasks.
pub open spec fn advance_stride(s: u64, p: u64) -> u64
    recommends
        p >= 1,
{
    if s + BIG_STRIDE as int / (p as int) > u64::MAX {
        u64::MAX
    } else {
        (s + BIG_STRIDE as int / (p as int)) as u64
    }
}

/// A task's stride never decreases when it is selected.
pub proof fn lemma_stride_monotonic(s: u64, p: u64)
    requires
        p >= 1,
    ensures
        advance_stride(s, p) >= s,
{
    vstd::arithmetic::div_mod::lemma_div_is_ordered_by_denominator(
        BIG_STRIDE as int,
        1,
        p as int,
    );
}

/// A task with a larger priority value receives a stride increment no larger
/// than a task with a smaller priority value, so under equal selection
/// frequency the lower-priority task accumulates stride at least as fast.
pub proof fn lemma_stride_rate(p_low: u64, p_high: u64)
    requires
        1 <= p_low <= p_high,
    ensures
        BIG_STRIDE as int / (p_low as int) >= BIG_STRIDE as int / (p_high as int),
{
    vstd::arithmetic::div_mod::lemma_div_is_ordered_by_denominator(
        BIG_STRIDE as int,
        p_low as int,
        p_high as int,
    );
}

/// Queue entries that look the same in two task tables make the same
/// readiness and selection judgements.
pub proof fn lemma_sched_agree(
    q: Seq<usize>,
    ta: Seq<Option<TaskControlBlock>>,
    tb: Seq<Option<TaskControlBlock>>,
)
    requires
        ta.len() == tb.len(),
        forall|x: int| 0 <= x < q.len() ==> #[trigger] tb[q[x] as int] == ta[q[x] as int],
    ensures
        forall|i: int| #[trigger] ready_at(q, ta, i) == ready_at(q, tb, i),
        forall|i: int| #[trigger] selected_at(q, ta, i) == selected_at(q, tb, i),
{
    assert forall|i: int| #[trigger] ready_at(q, ta, i) == ready_at(q, tb, i) by {
        if 0 <= i < q.len() {
            assert(tb[q[i] as int] == ta[q[i] as int]);
        }
    }
    assert forall|i: int| #[trigger] selected_at(q, ta, i) == selected_at(q, tb, i) by {
        if 0 <= i < q.len() {
            assert(tb[q[i] as int] == ta[q[i] as int]);
            if selected_at(q, ta, i) {
                assert forall|j: int| #[trigger] ready_at(q, tb, j) implies stride_of(
                    tb[q[i] as int],
                ) <= stride_of(tb[q[j] as int]) by {
                    assert(ready_at(q, ta, j));
                    assert(tb[q[j] as int] == ta[q[j] as int]);
                }
                assert forall|j: int|
                    0 <= j < i && #[trigger] ready_at(q, tb, j) implies stride_of(tb[q[j] as int])
                    > stride_of(tb[q[i] as int]) by {
                    assert(ready_at(q, ta, j));
                    assert(tb[q[j] as int] == ta[q[j] as int]);
                }
            }
            if selected_at(q, tb, i) {
                assert forall|j: int| #[trigger] ready_at(q, ta, j) implies stride_of(
                    ta[q[i] as int],
                ) <= stride_of(ta[q[j] as int]) by {
                    assert(ready_at(q, tb, j));
                    assert(tb[q[j] as int] == ta[q[j] as int]);
                }
                assert forall|j: int|
                    0 <= j < i && #[trigger] ready_at(q, ta, j) implies stride_of(ta[q[j] as int])
                    > stride_of(ta[q[i] as int]) by {
                    assert(ready_at(q, tb, j));
                    assert(tb[q[j] as int] == ta[q[j] as int]);
                }
            }
        }
    }
}

impl TaskManager {
    /// An empty ready queue.
    pub fn new() -> (m: TaskManager)
        ensures
            m.ready_queue@ =~= Seq::<usize>::empty(),
    {
        TaskManager { ready_queue: Vec::new() }
    }

    /// Appends a task id to the ready queue; always succeeds.
    pub fn add(&mut self, tid: usize)
        ensures
            final(self).ready_queue@ == old(self).ready_queue@.push(tid),
    {
        self.ready_queue.push(tid);
    }

    /// Removes and returns the queued `Ready` task with the smallest stride,
    /// earliest queue position on a tie, advancing its stride by
    /// `BIG_STRIDE / priority`; returns `None` when no queued task is `Ready`.
    /// Entries whose task is not currently `Ready` are skipped and left queued.
    pub fn fetch(&mut self, tasks: &mut Vec<Option<TaskControlBlock>>) -> (r: Option<usize>)
        requires
            forall|i: int|
                0 <= i < old(self).ready_queue@.len() ==> #[trigger] old(self).ready_queue@[i]
                    < old(tasks)@.len() && old(tasks)@[old(self).ready_queue@[i] as int] is Some
                    && old(tasks)@[old(self).ready_queue@[i] as int]->Some_0.priority >= 1,
        ensures
            r is None ==> final(self).ready_queue@ == old(self).ready_queue@ && final(tasks)@
                == old(tasks)@ && (forall|i: int| !ready_at(old(self).ready_queue@, old(tasks)@, i)),
            r matches Some(tid) ==> exists|i: int|
                {
                    &&& #[trigger] selected_at(old(self).ready_queue@, old(tasks)@, i)
                    &&& tid == old(self).ready_queue@[i]
                    &&& final(self).ready_queue@ == old(self).ready_queue@.remove(i)
                    &&& final(tasks)@ == old(tasks)@.update(
                        tid as int,
                        Some(
                            (TaskControlBlock {
                                stride: advance_stride(
                                    old(tasks)@[tid as int]->Some_0.stride,
                                    old(tasks)@[tid as int]->Some_0.priority,
                                ),
                                ..old(tasks)@[tid as int]->Some_0
                            }),
                        ),
                    )
                    &&& final(tasks)@[tid as int]->Some_0.stride >= old(
                        tasks,
                    )@[tid as int]->Some_0.stride
                },
    {
        let ghost q = self.ready_queue@;
        let n = self.ready_queue.len();
        let mut best: Option<usize> = None;
        let mut best_stride: u64 = 0;
        let mut i: usize = 0;
        while i < n
            invariant
                i <= n,
                n == self.ready_queue.len(),
                self.ready_queue@ == q,
                tasks@ == old(tasks)@,
                forall|x: int|
                    0 <= x < q.len() ==> #[trigger] q[x] < tasks@.len() && tasks@[q[x] as int]
                        is Some && tasks@[q[x] as int]->Some_0.priority >= 1,
                best is None ==> forall|j: int| 0 <= j < i ==> !ready_at(q, tasks@, j),
                best matches Some(bi) ==> {
                    &&& 0 <= bi < i
                    &&& ready_at(q, tasks@, bi as int)
                    &&& best_stride == stride_of(tasks@[q[bi as int] as int])
                    &&& forall|j: int|
                        0 <= j < i && #[trigger] ready_at(q, tasks@, j) ==> best_stride
                            <= stride_of(tasks@[q[j] as int])
                    &&& forall|j: int|
                        0 <= j < bi && #[trigger] ready_at(q, tasks@, j) ==> stride_of(
                            tasks@[q[j] as int],
                        ) > best_stride
                },
            decreases n - i,
        {
            let tid = self.ready_queue[i];
            let slot = &tasks[tid];
            match slot {
                Some(t) => {
                    if t.task_status == TaskStatus::Ready {
                        if best.is_none() || t.stride < best_stride {
                            best = Some(i);
                            best_stride = t.stride;
                        }
                    }
                },
                None => {},
            }
            i = i + 1;
        }
        match best {
            None => None,
            Some(bi) => {
                proof {
                    assert(selected_at(q, tasks@, bi as int));
                }
                let tid = self.ready_queue.remove(bi);
                let t = task_mut(tasks, tid);
                let inc = BIG_STRIDE / t.priority;
                if t.stride > u64::MAX - inc {
                    t.stride = u64::MAX;
                } else {
                    t.stride = t.stride + inc;
                }
                proof {
                    lemma_stride_monotonic(
                        old(tasks)@[tid as int]->Some_0.stride,
                        old(tasks)@[tid as int]->Some_0.priority,
                    );
                }
                Some(tid)
            },
        }
    }
}

} // verus!
