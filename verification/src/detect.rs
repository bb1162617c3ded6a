use vstd::prelude::*;

use crate::ledger::{
    count_done, lemma_count_done_full, lemma_count_done_le, lemma_count_done_update,
    lemma_count_done_zero, lemma_sum_done_le_sum, lemma_sum_done_update, mark, res_have, res_need,
    sum_have, sum_have_done,
};
use crate::task::TaskControlBlock;

verus! {

// Deadlock avoidance: before a mutex or semaphore unit is granted, the kernel
// simulates whether, with the request pending, every task could still finish.
// A task can finish when each entry of its `need` row is covered by the
// resources still available (`work`); a finished task returns its `have` row
// to `work`. The request is refused exactly when this simulation gets stuck.
// The simulation is specified over plain matrices: row `t` of `needs` and
// `haves` is task `t`'s ledger for one resource class.

/// The availability counters as a mathematical vector.
pub open spec fn int_view(s: Seq<usize>) -> Seq<int> {
    s.map_values(|v: usize| v as int)
}

/// The matrix `rows` with one more unit requested at row `t`, column `j`.
pub open spec fn bump(rows: Seq<Seq<int>>, t: int, j: int) -> Seq<Seq<int>> {
    rows.update(t, rows[t].update(j, rows[t][j] + 1))
}

/// Entry `j` of a ledger row; absent entries read as zero.
pub open spec fn entry(row: Seq<int>, j: int) -> int {
    if 0 <= j < row.len() {
        row[j]
    } else {
        0
    }
}

/// The `need` matrix of the tasks for one resource class, at width `w`.
pub open spec fn needs_of(tasks: Seq<Option<TaskControlBlock>>, mutexes: bool, w: nat) -> Seq<
    Seq<int>,
> {
    Seq::new(tasks.len(), |t: int| Seq::new(w, |j: int| res_need(tasks[t], mutexes, j)))
}

/// The `have` matrix of the tasks for one resource class, at width `w`.
pub open spec fn haves_of(tasks: Seq<Option<TaskControlBlock>>, mutexes: bool, w: nat) -> Seq<
    Seq<int>,
> {
    Seq::new(tasks.len(), |t: int| Seq::new(w, |j: int| res_have(tasks[t], mutexes, j)))
}

/// No ledger row holds a negative entry.
pub open spec fn rows_nonneg(rows: Seq<Seq<int>>) -> bool {
    forall|t: int, j: int| 0 <= t < rows.len() ==> #[trigger] entry(rows[t], j) >= 0
}

/// Every entry of the `need` row is covered by `work`.
pub open spec fn row_le(row: Seq<int>, work: Seq<int>) -> bool {
    forall|j: int| 0 <= j < work.len() ==> entry(row, j) <= #[trigger] work[j]
}

/// `work` after a task has finished and returned the holdings in `row`.
pub open spec fn add_have(work: Seq<int>, row: Seq<int>) -> Seq<int> {
    Seq::new(work.len(), |j: int| work[j] + entry(row, j))
}

/// Sum of column `j` of the rows marked in `done`.
pub open spec fn sum_done(rows: Seq<Seq<int>>, done: Seq<bool>, j: int) -> int
    decreases rows.len(),
{
    if rows.len() == 0 {
        0
    } else {
        sum_done(rows.drop_last(), done, j) + if mark(done, rows.len() - 1) {
            entry(rows[rows.len() - 1], j)
        } else {
            0
        }
    }
}

/// There is an order in which all still-unfinished tasks can finish, taking at
/// most `fuel` steps, starting from the available vector `work`.
pub open spec fn feasible_from(
    needs: Seq<Seq<int>>,
    haves: Seq<Seq<int>>,
    work: Seq<int>,
    done: Seq<bool>,
    fuel: nat,
) -> bool
    decreases fuel,
{
    if forall|i: int| 0 <= i < needs.len() ==> mark(done, i) {
        true
    } else if fuel == 0 {
        false
    } else {
        exists|i: int|
            0 <= i < needs.len() && !mark(done, i) && row_le(needs[i], work) && feasible_from(
                needs,
                haves,
                add_have(work, haves[i]),
                done.update(i, true),
                (fuel - 1) as nat,
            )
    }
}

/// The allocation state is feasible: every task could finish, in some order,
/// from the available vector `work`.
pub open spec fn feasible(needs: Seq<Seq<int>>, haves: Seq<Seq<int>>, work: Seq<int>) -> bool {
    feasible_from(needs, haves, work, Seq::new(needs.len(), |i: int| false), needs.len())
}

/// Finishing one coverable task first is a valid head of a feasible order.
proof fn lemma_feasible_step(
    needs: Seq<Seq<int>>,
    haves: Seq<Seq<int>>,
    work: Seq<int>,
    done: Seq<bool>,
    i: int,
    fuel: nat,
)
    requires
        0 <= i < needs.len(),
        !mark(done, i),
        row_le(needs[i], work),
        feasible_from(needs, haves, add_have(work, haves[i]), done.update(i, true), fuel),
    ensures
        feasible_from(needs, haves, work, done, (fuel + 1) as nat),
{
}

/// The available vector once the tasks marked in `done` have finished.
pub open spec fn avail(haves: Seq<Seq<int>>, work0: Seq<int>, done: Seq<bool>) -> Seq<int> {
    Seq::new(work0.len(), |j: int| work0[j] + sum_done(haves, done, j))
}

proof fn lemma_sum_done_m_nonneg(rows: Seq<Seq<int>>, done: Seq<bool>, j: int)
    requires
        rows_nonneg(rows),
    ensures
        sum_done(rows, done, j) >= 0,
    decreases rows.len(),
{
    if rows.len() > 0 {
        assert(rows_nonneg(rows.drop_last())) by {
            assert(forall|t: int|
                0 <= t < rows.len() - 1 ==> #[trigger] rows.drop_last()[t] == rows[t]);
        }
        lemma_sum_done_m_nonneg(rows.drop_last(), done, j);
        assert(entry(rows[rows.len() - 1], j) >= 0);
    }
}

/// Marking more rows can only grow the marked-column sum.
proof fn lemma_sum_done_m_mono(rows: Seq<Seq<int>>, d1: Seq<bool>, d2: Seq<bool>, j: int)
    requires
        rows_nonneg(rows),
        forall|i: int| #[trigger] mark(d1, i) ==> mark(d2, i),
    ensures
        sum_done(rows, d1, j) <= sum_done(rows, d2, j),
    decreases rows.len(),
{
    if rows.len() > 0 {
        assert(rows_nonneg(rows.drop_last())) by {
            assert(forall|t: int|
                0 <= t < rows.len() - 1 ==> #[trigger] rows.drop_last()[t] == rows[t]);
        }
        lemma_sum_done_m_mono(rows.drop_last(), d1, d2, j);
        assert(entry(rows[rows.len() - 1], j) >= 0);
    }
}

proof fn lemma_sum_done_m_update(rows: Seq<Seq<int>>, done: Seq<bool>, i: int, j: int)
    requires
        0 <= i < rows.len(),
        i < done.len(),
        !done[i],
    ensures
        sum_done(rows, done.update(i, true), j) == sum_done(rows, done, j) + entry(rows[i], j),
    decreases rows.len(),
{
    let upd = done.update(i, true);
    if i == rows.len() - 1 {
        lemma_sum_done_m_agree(rows.drop_last(), done, upd, j);
    } else {
        lemma_sum_done_m_update(rows.drop_last(), done, i, j);
    }
}

/// The marked-column sum only reads the marks of rows that exist.
proof fn lemma_sum_done_m_agree(rows: Seq<Seq<int>>, d1: Seq<bool>, d2: Seq<bool>, j: int)
    requires
        forall|i: int| 0 <= i < rows.len() ==> #[trigger] mark(d1, i) == mark(d2, i),
    ensures
        sum_done(rows, d1, j) == sum_done(rows, d2, j),
    decreases rows.len(),
{
    if rows.len() > 0 {
        lemma_sum_done_m_agree(rows.drop_last(), d1, d2, j);
    }
}

/// An all-false mark vector selects nothing.
proof fn lemma_sum_done_m_none(rows: Seq<Seq<int>>, done: Seq<bool>, j: int)
    requires
        forall|i: int| !(#[trigger] mark(done, i)),
    ensures
        sum_done(rows, done, j) == 0,
    decreases rows.len(),
{
    if rows.len() > 0 {
        lemma_sum_done_m_none(rows.drop_last(), done, j);
    }
}

/// When the simulation is stuck — some tasks are unfinished and none of them
/// is coverable even after every finished task returned its holdings — no
/// order at all can finish every task.
proof fn lemma_stuck_infeasible(
    needs: Seq<Seq<int>>,
    haves: Seq<Seq<int>>,
    work0: Seq<int>,
    stuck: Seq<bool>,
    done: Seq<bool>,
    work: Seq<int>,
    fuel: nat,
)
    requires
        rows_nonneg(haves),
        haves.len() == needs.len(),
        stuck.len() == needs.len(),
        done.len() == needs.len(),
        exists|i: int| 0 <= i < needs.len() && !mark(stuck, i),
        forall|i: int|
            0 <= i < needs.len() && !mark(stuck, i) ==> !row_le(
                #[trigger] needs[i],
                avail(haves, work0, stuck),
            ),
        forall|i: int| #[trigger] mark(done, i) ==> mark(stuck, i),
        work.len() == work0.len(),
        forall|j: int| 0 <= j < work.len() ==> #[trigger] work[j] <= avail(haves, work0, done)[j],
    ensures
        !feasible_from(needs, haves, work, done, fuel),
    decreases fuel,
{
    let wd = avail(haves, work0, done);
    let ws = avail(haves, work0, stuck);
    if feasible_from(needs, haves, work, done, fuel) {
        let u = choose|i: int| 0 <= i < needs.len() && !mark(stuck, i);
        assert(!mark(done, u));
        assert(fuel > 0);
        let i = choose|i: int|
            0 <= i < needs.len() && !mark(done, i) && row_le(needs[i], work) && feasible_from(
                needs,
                haves,
                add_have(work, haves[i]),
                done.update(i, true),
                (fuel - 1) as nat,
            );
        if mark(stuck, i) {
            // The step finishes a task the stuck state had already finished;
            // the remaining state is still dominated by the stuck state.
            let done2 = done.update(i, true);
            let work2 = add_have(work, haves[i]);
            assert forall|j: int|
                0 <= j < work2.len() implies #[trigger] work2[j] <= avail(haves, work0, done2)[j] by {
                lemma_sum_done_m_update(haves, done, i, j);
            }
            assert forall|x: int| #[trigger] mark(done2, x) implies mark(stuck, x) by {
                if x != i {
                    assert(mark(done, x));
                }
            }
            lemma_stuck_infeasible(needs, haves, work0, stuck, done2, work2, (fuel - 1) as nat);
        } else {
            // The step would cover a task the stuck state cannot cover —
            // impossible, since work is dominated by the stuck available vector.
            assert forall|j: int| 0 <= j < ws.len() implies entry(needs[i], j) <= #[trigger] ws[j] by {
                lemma_sum_done_m_mono(haves, done, stuck, j);
                assert(work[j] <= wd[j]);
                assert(entry(needs[i], j) <= work[j]);
            }
            assert(row_le(needs[i], ws));
        }
    }
}

/// Column sums of the `have` matrix agree with the tasks' ledgers.
proof fn lemma_sum_bridge(
    tasks: Seq<Option<TaskControlBlock>>,
    mutexes: bool,
    w: nat,
    done: Seq<bool>,
    j: int,
)
    requires
        0 <= j < w,
    ensures
        sum_done(haves_of(tasks, mutexes, w), done, j) == sum_have_done(tasks, mutexes, done, j),
    decreases tasks.len(),
{
    let rows = haves_of(tasks, mutexes, w);
    if tasks.len() > 0 {
        lemma_sum_bridge(tasks.drop_last(), mutexes, w, done, j);
        assert(rows.drop_last() =~= haves_of(tasks.drop_last(), mutexes, w));
        assert(entry(rows[rows.len() - 1], j) == res_have(tasks[tasks.len() - 1], mutexes, j));
    }
}

/// Whether the allocation state described by the availability vector `status`
/// and the tasks' ledgers for one resource class is feasible: `true` means
/// every task can finish in some order, `false` means the state is already
/// committed to a deadlock. Runs the round-based coverage simulation over all
/// task slots; slots that are empty or carry no resource record read as rows
/// of zeroes and finish trivially.
pub fn detect_safe(
    tasks: &Vec<Option<TaskControlBlock>>,
    status: &Vec<usize>,
    mutexes: bool,
) -> (r: bool)
    requires
        forall|j: int|
            0 <= j < status@.len() ==> #[trigger] status@[j] + sum_have(tasks@, mutexes, j)
                <= usize::MAX,
    ensures
        r == feasible(
            needs_of(tasks@, mutexes, status@.len()),
            haves_of(tasks@, mutexes, status@.len()),
            status@.map_values(|v: usize| v as int),
        ),
{
    let ghost work0 = status@.map_values(|v: usize| v as int);
    let ghost needs = needs_of(tasks@, mutexes, status@.len());
    let ghost haves = haves_of(tasks@, mutexes, status@.len());
    let n = tasks.len();
    let m = status.len();
    let mut finish: Vec<bool> = Vec::new();
    let mut work: Vec<usize> = Vec::new();
    let mut t: usize = 0;
    while t < n
        invariant
            t <= n,
            finish.len() == t,
            forall|i: int| 0 <= i < t ==> !finish@[i],
        decreases n - t,
    {
        finish.push(false);
        t = t + 1;
    }
    let mut c: usize = 0;
    while c < m
        invariant
            c <= m,
            m == status.len(),
            work.len() == c,
            forall|j: int| 0 <= j < c ==> #[trigger] work@[j] == status@[j],
        decreases m - c,
    {
        work.push(status[c]);
        c = c + 1;
    }
    proof {
        assert(Seq::new(tasks@.len(), |i: int| false) =~= finish@);
        assert forall|j: int| 0 <= j < m implies #[trigger] work@[j] == work0[j] + sum_have_done(
            tasks@,
            mutexes,
            finish@,
            j,
        ) by {
            lemma_sum_done_none(tasks@, mutexes, finish@, j);
        }
        lemma_count_done_zero(finish@);
        assert(work@.map_values(|v: usize| v as int) =~= work0);
    }
    let mut rounds: usize = 0;
    while rounds < n
        invariant
            n == tasks.len(),
            m == status.len(),
            finish.len() == n,
            work.len() == m,
            rounds <= n,
            count_done(finish@) >= rounds,
            needs == needs_of(tasks@, mutexes, status@.len()),
            haves == haves_of(tasks@, mutexes, status@.len()),
            forall|j: int|
                0 <= j < status@.len() ==> #[trigger] status@[j] + sum_have(tasks@, mutexes, j)
                    <= usize::MAX,
            work0 == status@.map_values(|v: usize| v as int),
            forall|j: int|
                0 <= j < m ==> #[trigger] work@[j] == work0[j] + sum_have_done(
                    tasks@,
                    mutexes,
                    finish@,
                    j,
                ),
            feasible_from(
                needs,
                haves,
                work@.map_values(|v: usize| v as int),
                finish@,
                (n - count_done(finish@)) as nat,
            ) ==> feasible(needs, haves, work0),
        decreases n - rounds,
    {
        let mut progressed = false;
        let mut i: usize = 0;
        let ghost finish_in = finish@;
        let ghost work_in = work@;
        while i < n
            invariant
                n == tasks.len(),
                m == status.len(),
                finish.len() == n,
                work.len() == m,
                i <= n,
                count_done(finish@) >= count_done(finish_in) + if progressed {
                    1nat
                } else {
                    0nat
                },
                needs == needs_of(tasks@, mutexes, status@.len()),
                haves == haves_of(tasks@, mutexes, status@.len()),
                forall|j: int|
                    0 <= j < status@.len() ==> #[trigger] status@[j] + sum_have(tasks@, mutexes, j)
                        <= usize::MAX,
                work0 == status@.map_values(|v: usize| v as int),
                forall|j: int|
                    0 <= j < m ==> #[trigger] work@[j] == work0[j] + sum_have_done(
                        tasks@,
                        mutexes,
                        finish@,
                        j,
                    ),
                feasible_from(
                    needs,
                    haves,
                    work@.map_values(|v: usize| v as int),
                    finish@,
                    (n - count_done(finish@)) as nat,
                ) ==> feasible(needs, haves, work0),
                !progressed ==> finish@ == finish_in && work@ == work_in,
                !progressed ==> forall|t: int|
                    0 <= t < i && !mark(finish@, t) ==> !row_le(
                        #[trigger] needs[t],
                        work@.map_values(|v: usize| v as int),
                    ),
            decreases n - i,
        {
            if !finish[i] && covers(tasks, i, &work, mutexes) {
                let ghost finish_pre = finish@;
                let ghost work_pre = work@;
                let ghost wpre = work_pre.map_values(|v: usize| v as int);
                proof {
                    lemma_count_done_le(finish_pre);
                    lemma_count_done_update(finish_pre, i as int);
                    assert forall|j: int| 0 <= j < m implies work_pre[j] + res_have(
                        tasks@[i as int],
                        mutexes,
                        j,
                    ) <= usize::MAX by {
                        lemma_sum_done_update(tasks@, mutexes, finish_pre, i as int, j);
                        lemma_sum_done_le_sum(tasks@, mutexes, finish_pre.update(i as int, true), j);
                    }
                }
                finish.set(i, true);
                add_row(&mut work, tasks, i, mutexes);
                progressed = true;
                proof {
                    assert forall|j: int| 0 <= j < m implies #[trigger] work@[j] == work0[j]
                        + sum_have_done(tasks@, mutexes, finish@, j) by {
                        lemma_sum_done_update(tasks@, mutexes, finish_pre, i as int, j);
                    }
                    assert(work@.map_values(|v: usize| v as int) =~= add_have(
                        wpre,
                        haves[i as int],
                    ));
                    assert(row_le(needs[i as int], wpre));
                    lemma_count_done_le(finish@);
                    let fuel_new = (n - count_done(finish@)) as nat;
                    if feasible_from(needs, haves, work@.map_values(|v: usize| v as int), finish@,
                        fuel_new) {
                        lemma_feasible_step(needs, haves, wpre, finish_pre, i as int, fuel_new);
                        assert((fuel_new + 1) as nat == (n - count_done(finish_pre)) as nat);
                    }
                }
            }
            i = i + 1;
        }
        if !progressed {
            // No unfinished task is coverable: the simulation is stuck.
            let r = all_marked(&finish);
            proof {
                if !r {
                    let ghost iv = work@.map_values(|v: usize| v as int);
                    let ghost none = Seq::new(needs.len(), |x: int| false);
                    assert forall|t: int|
                        0 <= t < n && !mark(finish@, t) implies !row_le(
                        #[trigger] needs[t],
                        avail(haves, work0, finish@),
                    ) by {
                        assert forall|j: int| 0 <= j < work0.len() implies avail(
                            haves,
                            work0,
                            finish@,
                        )[j] == iv[j] by {
                            lemma_sum_bridge(tasks@, mutexes, status@.len(), finish@, j);
                        }
                        assert(avail(haves, work0, finish@) =~= iv);
                    }
                    assert forall|j: int| 0 <= j < work0.len() implies #[trigger] work0[j] <= avail(
                        haves,
                        work0,
                        none,
                    )[j] by {
                        lemma_sum_done_m_none(haves, none, j);
                    }
                    assert(rows_nonneg(haves));
                    lemma_stuck_infeasible(needs, haves, work0, finish@, none, work0, needs.len());
                    assert(none =~= Seq::new(needs.len(), |i: int| false));
                } else {
                    assert(feasible_from(
                        needs,
                        haves,
                        work@.map_values(|v: usize| v as int),
                        finish@,
                        (n - count_done(finish@)) as nat,
                    ));
                }
            }
            return r;
        }
        rounds = rounds + 1;
    }
    proof {
        lemma_count_done_le(finish@);
        lemma_count_done_full(finish@);
        assert(feasible_from(
            needs,
            haves,
            work@.map_values(|v: usize| v as int),
            finish@,
            (n - count_done(finish@)) as nat,
        ));
    }
    true
}

/// An all-false mark vector selects no task ledger.
proof fn lemma_sum_done_none(
    tasks: Seq<Option<TaskControlBlock>>,
    mutexes: bool,
    done: Seq<bool>,
    j: int,
)
    requires
        forall|i: int| !(#[trigger] mark(done, i)),
    ensures
        sum_have_done(tasks, mutexes, done, j) == 0,
    decreases tasks.len(),
{
    if tasks.len() > 0 {
        lemma_sum_done_none(tasks.drop_last(), mutexes, done, j);
    }
}

/// Whether every entry of the `need` row of task slot `i` is covered by `work`.
fn covers(tasks: &Vec<Option<TaskControlBlock>>, i: usize, work: &Vec<usize>, mutexes: bool) -> (r:
    bool)
    requires
        i < tasks@.len(),
    ensures
        r == row_le(
            needs_of(tasks@, mutexes, work@.len())[i as int],
            work@.map_values(|v: usize| v as int),
        ),
{
    let ghost iv = work@.map_values(|v: usize| v as int);
    let ghost row = needs_of(tasks@, mutexes, work@.len())[i as int];
    let mut j: usize = 0;
    let m = work.len();
    while j < m
        invariant
            j <= m,
            m == work.len(),
            i < tasks@.len(),
            iv == work@.map_values(|v: usize| v as int),
            row == needs_of(tasks@, mutexes, work@.len())[i as int],
            forall|x: int| 0 <= x < j ==> entry(row, x) <= #[trigger] iv[x],
        decreases m - j,
    {
        let nd = need_entry(tasks, i, j, mutexes);
        proof {
            assert(entry(row, j as int) == res_need(tasks@[i as int], mutexes, j as int));
        }
        if nd > work[j] {
            assert(!(entry(row, j as int) <= iv[j as int]));
            return false;
        }
        proof {
            assert(entry(row, j as int) <= iv[j as int]);
        }
        j = j + 1;
    }
    true
}

/// The `need` entry of task slot `i` in column `j`; zero when the slot is
/// empty or the task has no resource record.
fn need_entry(tasks: &Vec<Option<TaskControlBlock>>, i: usize, j: usize, mutexes: bool) -> (r:
    usize)
    requires
        i < tasks@.len(),
    ensures
        r as int == res_need(tasks@[i as int], mutexes, j as int),
{
    match &tasks[i] {
        Some(t) => match &t.res {
            Some(r) => {
                let v = if mutexes {
                    &r.mutex_need
                } else {
                    &r.semaphore_need
                };
                if j < v.len() {
                    v[j]
                } else {
                    0
                }
            },
            None => 0,
        },
        None => 0,
    }
}

/// The `have` entry of task slot `i` in column `j`.
pub(crate) fn have_entry(tasks: &Vec<Option<TaskControlBlock>>, i: usize, j: usize, mutexes: bool) -> (r:
    usize)
    requires
        i < tasks@.len(),
    ensures
        r as int == res_have(tasks@[i as int], mutexes, j as int),
{
    match &tasks[i] {
        Some(t) => match &t.res {
            Some(r) => {
                let v = if mutexes {
                    &r.mutex_have
                } else {
                    &r.semaphore_have
                };
                if j < v.len() {
                    v[j]
                } else {
                    0
                }
            },
            None => 0,
        },
        None => 0,
    }
}

/// Returns the holdings of task slot `i` to the available vector.
fn add_row(work: &mut Vec<usize>, tasks: &Vec<Option<TaskControlBlock>>, i: usize, mutexes: bool)
    requires
        i < tasks@.len(),
        forall|j: int|
            0 <= j < old(work)@.len() ==> #[trigger] old(work)@[j] + res_have(
                tasks@[i as int],
                mutexes,
                j,
            ) <= usize::MAX,
    ensures
        final(work)@.len() == old(work)@.len(),
        forall|j: int|
            0 <= j < old(work)@.len() ==> #[trigger] final(work)@[j] == old(work)@[j] + res_have(
                tasks@[i as int],
                mutexes,
                j,
            ),
{
    let m = work.len();
    let mut j: usize = 0;
    while j < m
        invariant
            j <= m,
            m == work.len(),
            old(work)@.len() == m,
            i < tasks@.len(),
            forall|x: int|
                0 <= x < old(work)@.len() ==> #[trigger] old(work)@[x] + res_have(
                    tasks@[i as int],
                    mutexes,
                    x,
                ) <= usize::MAX,
            forall|x: int| j <= x < m ==> #[trigger] work@[x] == old(work)@[x],
            forall|x: int|
                0 <= x < j ==> #[trigger] work@[x] == old(work)@[x] + res_have(
                    tasks@[i as int],
                    mutexes,
                    x,
                ),
        decreases m - j,
    {
        let h = have_entry(tasks, i, j, mutexes);
        let w = work[j];
        proof {
            assert(work@[j as int] == old(work)@[j as int]);
            assert(old(work)@[j as int] + res_have(tasks@[i as int], mutexes, j as int)
                <= usize::MAX);
        }
        work.set(j, w + h);
        j = j + 1;
    }
}

/// Whether every mark is set.
fn all_marked(finish: &Vec<bool>) -> (r: bool)
    ensures
        r == (forall|i: int| 0 <= i < finish@.len() ==> mark(finish@, i)),
{
    let mut i: usize = 0;
    let n = finish.len();
    while i < n
        invariant
            i <= n,
            n == finish.len(),
            forall|x: int| 0 <= x < i ==> mark(finish@, x),
        decreases n - i,
    {
        if !finish[i] {
            assert(!mark(finish@, i as int));
            return false;
        }
        i = i + 1;
    }
    true
}

} // verus!
