use vstd::prelude::*;

use crate::task::{TaskControlBlock, TaskUserRes};

verus! {

/// The resource record of a task slot, if the slot holds a task that has one.
pub open spec fn res_of(slot: Option<TaskControlBlock>) -> Option<TaskUserRes> {
    match slot {
        Option::Some(t) => t.res,
        Option::None => Option::None,
    }
}

// The resource classes (mutexes and semaphores) share one ledger theory.
// A row is one task's `need` or `have` vector for the class picked by the
// `mutexes` flag; an absent task slot, or a task without a resource record,
// reads as a row of zeroes.

/// Units of the resource in column `j` that the task in `slot` has requested
/// but not yet been granted.
pub open spec fn res_need(slot: Option<TaskControlBlock>, mutexes: bool, j: int) -> int {
    match slot {
        Option::Some(t) => match t.res {
            Option::Some(r) => {
                let v = if mutexes {
                    r.mutex_need@
                } else {
                    r.semaphore_need@
                };
                if 0 <= j < v.len() {
                    v[j] as int
                } else {
                    0
                }
            },
            Option::None => 0,
        },
        Option::None => 0,
    }
}

/// Units of the resource in column `j` that the task in `slot` currently holds.
pub open spec fn res_have(slot: Option<TaskControlBlock>, mutexes: bool, j: int) -> int {
    match slot {
        Option::Some(t) => match t.res {
            Option::Some(r) => {
                let v = if mutexes {
                    r.mutex_have@
                } else {
                    r.semaphore_have@
                };
                if 0 <= j < v.len() {
                    v[j] as int
                } else {
                    0
                }
            },
            Option::None => 0,
        },
        Option::None => 0,
    }
}

/// Sum of column `j` of the `have` ledger over all task slots.
pub open spec fn sum_have(tasks: Seq<Option<TaskControlBlock>>, mutexes: bool, j: int) -> int
    decreases tasks.len(),
{
    if tasks.len() == 0 {
        0
    } else {
        sum_have(tasks.drop_last(), mutexes, j) + res_have(tasks.last(), mutexes, j)
    }
}

/// Whether `done` marks slot `i` as finished.
pub open spec fn mark(done: Seq<bool>, i: int) -> bool {
    0 <= i < done.len() && done[i]
}

/// Sum of column `j` of the `have` ledger over the task slots marked in `done`.
pub open spec fn sum_have_done(
    tasks: Seq<Option<TaskControlBlock>>,
    mutexes: bool,
    done: Seq<bool>,
    j: int,
) -> int
    decreases tasks.len(),
{
    if tasks.len() == 0 {
        0
    } else {
        let i = tasks.len() - 1;
        sum_have_done(tasks.drop_last(), mutexes, done, j) + if mark(done, i) {
            res_have(tasks[i], mutexes, j)
        } else {
            0
        }
    }
}

/// How many task slots `done` marks as finished.
pub open spec fn count_done(done: Seq<bool>) -> nat
    decreases done.len(),
{
    if done.len() == 0 {
        0
    } else {
        count_done(done.drop_last()) + if done.last() {
            1nat
        } else {
            0nat
        }
    }
}

pub proof fn lemma_sum_have_nonneg(tasks: Seq<Option<TaskControlBlock>>, mutexes: bool, j: int)
    ensures
        sum_have(tasks, mutexes, j) >= 0,
    decreases tasks.len(),
{
    if tasks.len() > 0 {
        lemma_sum_have_nonneg(tasks.drop_last(), mutexes, j);
    }
}

pub proof fn lemma_sum_have_update(
    tasks: Seq<Option<TaskControlBlock>>,
    mutexes: bool,
    j: int,
    t: int,
    v: Option<TaskControlBlock>,
)
    requires
        0 <= t < tasks.len(),
    ensures
        sum_have(tasks.update(t, v), mutexes, j) == sum_have(tasks, mutexes, j) - res_have(
            tasks[t],
            mutexes,
            j,
        ) + res_have(v, mutexes, j),
    decreases tasks.len(),
{
    let upd = tasks.update(t, v);
    if t == tasks.len() - 1 {
        assert(upd.drop_last() =~= tasks.drop_last());
    } else {
        assert(upd.drop_last() =~= tasks.drop_last().update(t, v));
        lemma_sum_have_update(tasks.drop_last(), mutexes, j, t, v);
    }
}

pub proof fn lemma_sum_have_push(
    tasks: Seq<Option<TaskControlBlock>>,
    mutexes: bool,
    j: int,
    v: Option<TaskControlBlock>,
)
    ensures
        sum_have(tasks.push(v), mutexes, j) == sum_have(tasks, mutexes, j) + res_have(
            v,
            mutexes,
            j,
        ),
{
    assert(tasks.push(v).drop_last() =~= tasks);
}

/// Replacing a task slot by one with the same resource record leaves every
/// column sum unchanged.
pub proof fn lemma_sum_have_same_res(
    tasks: Seq<Option<TaskControlBlock>>,
    mutexes: bool,
    j: int,
    t: int,
    v: Option<TaskControlBlock>,
)
    requires
        0 <= t < tasks.len(),
        res_of(v) == res_of(tasks[t]),
    ensures
        sum_have(tasks.update(t, v), mutexes, j) == sum_have(tasks, mutexes, j),
{
    lemma_sum_have_update(tasks, mutexes, j, t, v);
    assert(res_have(v, mutexes, j) == res_have(tasks[t], mutexes, j));
}

/// Replacing a task slot by one holding the same amount in column `j` leaves
/// that column's sum unchanged.
pub proof fn lemma_sum_have_same_class(
    tasks: Seq<Option<TaskControlBlock>>,
    mutexes: bool,
    j: int,
    t: int,
    v: Option<TaskControlBlock>,
)
    requires
        0 <= t < tasks.len(),
        res_have(v, mutexes, j) == res_have(tasks[t], mutexes, j),
    ensures
        sum_have(tasks.update(t, v), mutexes, j) == sum_have(tasks, mutexes, j),
{
    lemma_sum_have_update(tasks, mutexes, j, t, v);
}

/// The sum of a column is at least the combined entries of two distinct slots.
pub proof fn lemma_sum_have_two(
    tasks: Seq<Option<TaskControlBlock>>,
    mutexes: bool,
    j: int,
    t1: int,
    t2: int,
)
    requires
        0 <= t1 < tasks.len(),
        0 <= t2 < tasks.len(),
        t1 != t2,
    ensures
        sum_have(tasks, mutexes, j) >= res_have(tasks[t1], mutexes, j) + res_have(
            tasks[t2],
            mutexes,
            j,
        ),
    decreases tasks.len(),
{
    let last = tasks.len() - 1;
    if t1 == last {
        lemma_sum_have_at_least(tasks.drop_last(), mutexes, j, t2);
    } else if t2 == last {
        lemma_sum_have_at_least(tasks.drop_last(), mutexes, j, t1);
    } else {
        lemma_sum_have_two(tasks.drop_last(), mutexes, j, t1, t2);
        assert(res_have(tasks.last(), mutexes, j) >= 0);
    }
}

/// The sum of a column is at least any single slot's entry.
pub proof fn lemma_sum_have_at_least(
    tasks: Seq<Option<TaskControlBlock>>,
    mutexes: bool,
    j: int,
    t: int,
)
    requires
        0 <= t < tasks.len(),
    ensures
        sum_have(tasks, mutexes, j) >= res_have(tasks[t], mutexes, j),
    decreases tasks.len(),
{
    if t == tasks.len() - 1 {
        lemma_sum_have_nonneg(tasks.drop_last(), mutexes, j);
    } else {
        lemma_sum_have_at_least(tasks.drop_last(), mutexes, j, t);
        assert(res_have(tasks.last(), mutexes, j) >= 0);
    }
}

/// Two task tables whose slots hold the same amounts in column `j` have the
/// same column sum.
pub proof fn lemma_sum_have_congruence(
    a: Seq<Option<TaskControlBlock>>,
    b: Seq<Option<TaskControlBlock>>,
    mutexes: bool,
    j: int,
)
    requires
        a.len() == b.len(),
        forall|t: int|
            0 <= t < a.len() ==> res_have(#[trigger] a[t], mutexes, j) == res_have(
                b[t],
                mutexes,
                j,
            ),
    ensures
        sum_have(a, mutexes, j) == sum_have(b, mutexes, j),
    decreases a.len(),
{
    if a.len() > 0 {
        assert forall|t: int|
            0 <= t < a.drop_last().len() implies res_have(
            #[trigger] a.drop_last()[t],
            mutexes,
            j,
        ) == res_have(b.drop_last()[t], mutexes, j) by {
            assert(a.drop_last()[t] == a[t] && b.drop_last()[t] == b[t]);
        }
        lemma_sum_have_congruence(a.drop_last(), b.drop_last(), mutexes, j);
    }
}

/// A column in which no slot holds anything sums to zero.
pub proof fn lemma_sum_have_zero(tasks: Seq<Option<TaskControlBlock>>, mutexes: bool, j: int)
    requires
        forall|t: int| 0 <= t < tasks.len() ==> res_have(#[trigger] tasks[t], mutexes, j) == 0,
    ensures
        sum_have(tasks, mutexes, j) == 0,
    decreases tasks.len(),
{
    if tasks.len() > 0 {
        assert(forall|t: int|
            0 <= t < tasks.drop_last().len() ==> res_have(
                #[trigger] tasks.drop_last()[t],
                mutexes,
                j,
            ) == 0);
        lemma_sum_have_zero(tasks.drop_last(), mutexes, j);
        assert(tasks.last() == tasks[tasks.len() - 1]);
    }
}

pub proof fn lemma_sum_done_le_sum(
    tasks: Seq<Option<TaskControlBlock>>,
    mutexes: bool,
    done: Seq<bool>,
    j: int,
)
    ensures
        sum_have_done(tasks, mutexes, done, j) <= sum_have(tasks, mutexes, j),
    decreases tasks.len(),
{
    if tasks.len() > 0 {
        lemma_sum_done_le_sum(tasks.drop_last(), mutexes, done, j);
        let i = tasks.len() - 1;
        if !(0 <= i < done.len() && done[i]) {
            assert(res_have(tasks.last(), mutexes, j) >= 0);
        }
    }
}

pub proof fn lemma_sum_done_update(
    tasks: Seq<Option<TaskControlBlock>>,
    mutexes: bool,
    done: Seq<bool>,
    i: int,
    j: int,
)
    requires
        0 <= i < tasks.len(),
        i < done.len(),
        !done[i],
    ensures
        sum_have_done(tasks, mutexes, done.update(i, true), j) == sum_have_done(
            tasks,
            mutexes,
            done,
            j,
        ) + res_have(tasks[i], mutexes, j),
    decreases tasks.len(),
{
    let upd = done.update(i, true);
    let last = tasks.len() - 1;
    if i == last {
        assert(sum_have_done(tasks.drop_last(), mutexes, upd, j) == sum_have_done(
            tasks.drop_last(),
            mutexes,
            done,
            j,
        )) by {
            lemma_sum_done_agree(tasks.drop_last(), mutexes, done, upd, j);
        }
    } else {
        lemma_sum_done_update(tasks.drop_last(), mutexes, done, i, j);
    }
}

/// The finished-column sum only reads the marks of slots that exist.
pub proof fn lemma_sum_done_agree(
    tasks: Seq<Option<TaskControlBlock>>,
    mutexes: bool,
    d1: Seq<bool>,
    d2: Seq<bool>,
    j: int,
)
    requires
        forall|i: int| 0 <= i < tasks.len() ==> #[trigger] mark(d1, i) == mark(d2, i),
    ensures
        sum_have_done(tasks, mutexes, d1, j) == sum_have_done(tasks, mutexes, d2, j),
    decreases tasks.len(),
{
    if tasks.len() > 0 {
        lemma_sum_done_agree(tasks.drop_last(), mutexes, d1, d2, j);
    }
}

pub proof fn lemma_count_done_update(done: Seq<bool>, i: int)
    requires
        0 <= i < done.len(),
        !done[i],
    ensures
        count_done(done.update(i, true)) == count_done(done) + 1,
    decreases done.len(),
{
    let upd = done.update(i, true);
    if i == done.len() - 1 {
        assert(upd.drop_last() =~= done.drop_last());
    } else {
        assert(upd.drop_last() =~= done.drop_last().update(i, true));
        lemma_count_done_update(done.drop_last(), i);
    }
}

pub proof fn lemma_count_done_zero(done: Seq<bool>)
    requires
        forall|i: int| 0 <= i < done.len() ==> !done[i],
    ensures
        count_done(done) == 0,
    decreases done.len(),
{
    if done.len() > 0 {
        assert(forall|i: int|
            0 <= i < done.drop_last().len() ==> #[trigger] done.drop_last()[i] == done[i]);
        lemma_count_done_zero(done.drop_last());
    }
}

pub proof fn lemma_count_done_le(done: Seq<bool>)
    ensures
        count_done(done) <= done.len(),
    decreases done.len(),
{
    if done.len() > 0 {
        lemma_count_done_le(done.drop_last());
    }
}

/// When every slot is counted, every mark is set.
pub proof fn lemma_count_done_full(done: Seq<bool>)
    requires
        count_done(done) == done.len(),
    ensures
        forall|i: int| 0 <= i < done.len() ==> done[i],
    decreases done.len(),
{
    if done.len() > 0 {
        lemma_count_done_le(done.drop_last());
        lemma_count_done_full(done.drop_last());
        assert forall|i: int| 0 <= i < done.len() implies done[i] by {
            if i < done.len() - 1 {
                assert(done.drop_last()[i]);
            }
        }
    }
}

} // verus!
