use vstd::prelude::*;

verus! {

/// Where a blocked task is parked, recorded alongside its status so that the
/// kernel invariant can tell the wait lists of distinct primitives apart.
pub enum WaitTarget {
    OnMutex(usize),
    OnSemaphore(usize),
    OnCondvar(usize),
    Sleeping,
}

/// Lifecycle state of a schedulable task.
#[derive(PartialEq, Eq, Structural, Clone, Copy, Debug)]
pub enum TaskStatus {
    Ready,
    Running,
    Blocked,
    Zombie,
}

/// Per-task resource-usage ledger: for every mutex slot and every semaphore
/// slot of the process, how many units the task has requested but not yet been
/// granted (`need`) and how many it currently holds (`have`).
pub struct TaskUserRes {
    pub mutex_need: Vec<usize>,
    pub mutex_have: Vec<usize>,
    pub semaphore_need: Vec<usize>,
    pub semaphore_have: Vec<usize>,
}

/// A schedulable unit of execution.
pub struct TaskControlBlock {
    pub tid: usize,
    pub task_status: TaskStatus,
    pub stride: u64,
    pub priority: u64,
    pub exit_code: i32,
    pub res: Option<TaskUserRes>,
    pub parent: Option<usize>,
    pub children: Vec<usize>,
    pub heap_bottom: usize,
    pub program_brk: usize,
    pub blocked_on: Ghost<Option<WaitTarget>>,
}

/// Status of the task in a slot; an empty slot reads as `Zombie`.
pub open spec fn status_of(slot: Option<TaskControlBlock>) -> TaskStatus {
    match slot {
        Option::Some(t) => t.task_status,
        Option::None => TaskStatus::Zombie,
    }
}

/// Stride of the task in a slot; an empty slot reads as the counter maximum.
pub open spec fn stride_of(slot: Option<TaskControlBlock>) -> u64 {
    match slot {
        Option::Some(t) => t.stride,
        Option::None => u64::MAX,
    }
}

/// The two resource records hold the same ledgers.
pub open spec fn res_like(a: Option<TaskUserRes>, b: Option<TaskUserRes>) -> bool {
    match (a, b) {
        (Option::Some(x), Option::Some(y)) => {
            &&& x.mutex_need@ == y.mutex_need@
            &&& x.mutex_have@ == y.mutex_have@
            &&& x.semaphore_need@ == y.semaphore_need@
            &&& x.semaphore_have@ == y.semaphore_have@
        },
        (Option::None, Option::None) => true,
        _ => false,
    }
}

/// The two task slots hold the same task state, ledgers compared by view.
pub open spec fn slot_like(a: Option<TaskControlBlock>, b: Option<TaskControlBlock>) -> bool {
    match (a, b) {
        (Option::Some(x), Option::Some(y)) => {
            &&& x.tid == y.tid
            &&& x.task_status == y.task_status
            &&& x.stride == y.stride
            &&& x.priority == y.priority
            &&& x.exit_code == y.exit_code
            &&& res_like(x.res, y.res)
            &&& x.parent == y.parent
            &&& x.children@ == y.children@
            &&& x.heap_bottom == y.heap_bottom
            &&& x.program_brk == y.program_brk
            &&& x.blocked_on@ == y.blocked_on@
        },
        (Option::None, Option::None) => true,
        _ => false,
    }
}

/// The two task tables hold the same tasks, slot by slot.
pub open spec fn tasks_like(a: Seq<Option<TaskControlBlock>>, b: Seq<Option<TaskControlBlock>>) -> bool {
    a.len() == b.len() && forall|t: int| 0 <= t < a.len() ==> slot_like(#[trigger] a[t], b[t])
}

/// The two task tables agree on every resource ledger (statuses and strides
/// may differ).
pub open spec fn ledgers_like(
    a: Seq<Option<TaskControlBlock>>,
    b: Seq<Option<TaskControlBlock>>,
) -> bool {
    a.len() == b.len() && forall|t: int|
        0 <= t < a.len() ==> {
            &&& (#[trigger] a[t]) is Some == b[t] is Some
            &&& (a[t] is Some ==> res_like(a[t]->Some_0.res, b[t]->Some_0.res))
        }
}

/// Slot `b` holds the task of slot `a` with the given status, wait target,
/// and ledger vector views; every other field is unchanged.
pub open spec fn task_updated(
    a: Option<TaskControlBlock>,
    b: Option<TaskControlBlock>,
    st: TaskStatus,
    bl: Option<WaitTarget>,
    mn: Seq<usize>,
    mh: Seq<usize>,
    sn: Seq<usize>,
    sh: Seq<usize>,
) -> bool {
    match (a, b) {
        (Option::Some(x), Option::Some(y)) => {
            &&& y.tid == x.tid
            &&& y.task_status == st
            &&& y.stride == x.stride
            &&& y.priority == x.priority
            &&& y.exit_code == x.exit_code
            &&& y.parent == x.parent
            &&& y.children == x.children
            &&& y.heap_bottom == x.heap_bottom
            &&& y.program_brk == x.program_brk
            &&& y.blocked_on@ == bl
            &&& y.res matches Some(r) && r.mutex_need@ == mn && r.mutex_have@ == mh
                && r.semaphore_need@ == sn && r.semaphore_have@ == sh
        },
        _ => false,
    }
}

/// The ledger vector views of the resource record in slot `a`.
pub open spec fn need_of(a: Option<TaskControlBlock>, mutexes: bool) -> Seq<usize> {
    if mutexes {
        a->Some_0.res->Some_0.mutex_need@
    } else {
        a->Some_0.res->Some_0.semaphore_need@
    }
}

pub open spec fn have_of(a: Option<TaskControlBlock>, mutexes: bool) -> Seq<usize> {
    if mutexes {
        a->Some_0.res->Some_0.mutex_have@
    } else {
        a->Some_0.res->Some_0.semaphore_have@
    }
}

/// Exclusive access to the resource record of a task.
pub fn res_mut(t: &mut TaskControlBlock) -> (r: &mut TaskUserRes)
    requires
        old(t).res is Some,
    ensures
        *r == old(t).res->Some_0,
        *final(t) == (TaskControlBlock { res: Some(*final(r)), ..*old(t) }),
{
    match &mut t.res {
        Some(r) => r,
        None => vstd::pervasive::unreached(),
    }
}

/// Exclusive access to the task in slot `tid`.
pub fn task_mut(tasks: &mut Vec<Option<TaskControlBlock>>, tid: usize) -> (t: &mut TaskControlBlock)
    requires
        tid < old(tasks).len(),
        old(tasks)@[tid as int] is Some,
    ensures
        *t == old(tasks)@[tid as int]->Some_0,
        final(tasks)@ == old(tasks)@.update(tid as int, Some(*final(t))),
{
    match &mut tasks[tid] {
        Some(t) => t,
        None => vstd::pervasive::unreached(),
    }
}

} // verus!
