//! Properties of the task manager that span several of its operations.
use vstd::prelude::*;
use crate::mm::{
    MapArea, areas_map, first_spanning, first_starting, vpn_ceil, vpn_floor, lemma_first_spanning,
    lemma_first_starting, lemma_first_starting_same_starts, lemma_port_permission_bits,
    range_mapped, range_unmapped,
    lemma_vpn_ceil_bounds, lemma_vpn_floor_bounds,
};
use super::task::{TaskControlBlock, TaskStatus, brk_step, lemma_brk_step_outcome};
use super::{
    TaskManager, TaskSwitch, brk_effect, mmap_area, mmap_effect, munmap_accepts, munmap_effect,
    next_ready, none_ready, range_end, range_start, ring_at, schedules, ring_distance, run_next_effect,
    with_status, count_effect, lemma_range_pages, heap_area_ok, only_current_changes,
    same_but_memory, same_but_counters,
};
use crate::config::{MAX_SYSCALL_NUM, PAGE_SIZE};

verus! {

/// The round-robin choice is unique: at most one task is the next `Ready` one after `cur`.
pub proof fn lemma_next_ready_unique(tasks: Seq<TaskControlBlock>, cur: int, a: int, b: int)
    requires
        0 <= cur < tasks.len(),
        next_ready(tasks, cur, a),
        next_ready(tasks, cur, b),
    ensures
        a == b,
{
    let n = tasks.len() as int;
    let da = ring_distance(cur, a, n);
    let db = ring_distance(cur, b, n);
    assert(ring_at(cur, da, n) == a);
    assert(ring_at(cur, db, n) == b);
    if da < db {
        assert(tasks[ring_at(cur, da, n)].task_status != TaskStatus::Ready);
    } else if db < da {
        assert(tasks[ring_at(cur, db, n)].task_status != TaskStatus::Ready);
    }
}

/// After a switch, the task switched to is the current one and it is `Running`.
pub proof fn lemma_switched_task_runs(
    before: Seq<TaskControlBlock>,
    cur: int,
    now: usize,
    sw: TaskSwitch,
    after: TaskManager,
)
    requires
        run_next_effect(before, cur, now, sw, after),
    ensures
        after.current_task == sw.to,
        after.current().task_status == TaskStatus::Running,
        after.current().has_runed,
{
}

/// Yielding when no other task is `Ready` switches back to the task that yielded.
pub proof fn lemma_yield_alone_resumes_self(
    tasks: Seq<TaskControlBlock>,
    cur: int,
    now: usize,
    sw: TaskSwitch,
    after: TaskManager,
)
    requires
        0 <= cur < tasks.len(),
        forall|i: int|
            0 <= i < tasks.len() && i != cur ==> #[trigger] tasks[i].task_status
                != TaskStatus::Ready,
        run_next_effect(with_status(tasks, cur, TaskStatus::Ready), cur, now, sw, after),
    ensures
        sw == (TaskSwitch { from: cur as usize, to: cur as usize }),
{
    let mid = with_status(tasks, cur, TaskStatus::Ready);
    if sw.to != cur {
        assert(mid[sw.to as int] == tasks[sw.to as int]);
    }
}

/// No task but the current one is `Running`.
pub open spec fn only_current_running(tasks: Seq<TaskControlBlock>, cur: int) -> bool {
    forall|i: int|
        0 <= i < tasks.len() && i != cur ==> #[trigger] tasks[i].task_status
            != TaskStatus::Running
}

/// Suspending or exiting the current task and running the next keeps exactly one task
/// `Running`: the new current one.
pub proof fn lemma_switch_keeps_one_running(
    tasks: Seq<TaskControlBlock>,
    cur: int,
    status: TaskStatus,
    now: usize,
    sw: TaskSwitch,
    after: TaskManager,
)
    requires
        0 <= cur < tasks.len(),
        status == TaskStatus::Ready || status == TaskStatus::Exited,
        only_current_running(tasks, cur),
        run_next_effect(with_status(tasks, cur, status), cur, now, sw, after),
    ensures
        only_current_running(after.tasks@, after.current_task as int),
        after.current().task_status == TaskStatus::Running,
{
    let mid = with_status(tasks, cur, status);
    assert forall|i: int| 0 <= i < tasks.len() && i != cur implies #[trigger] mid[i] == tasks[i] by {}
    assert(mid[cur].task_status != TaskStatus::Running);
    assert forall|i: int|
        0 <= i < after.tasks@.len() && i != after.current_task implies #[trigger] after.tasks@[i].task_status
        != TaskStatus::Running by {
        assert(after.tasks@[i] == mid[i]);
    }
}

/// Running the first task from a state where no task is `Running` leaves exactly the
/// first task `Running`.
pub proof fn lemma_first_run_single_running(
    tasks: Seq<TaskControlBlock>,
    now: usize,
    after: Seq<TaskControlBlock>,
)
    requires
        tasks.len() > 0,
        forall|i: int| 0 <= i < tasks.len() ==> #[trigger] tasks[i].task_status
            != TaskStatus::Running,
        schedules(tasks, 0, now, after),
    ensures
        after[0].task_status == TaskStatus::Running,
        only_current_running(after, 0),
{
    assert forall|i: int| 0 <= i < after.len() && i != 0 implies #[trigger] after[i].task_status
        != TaskStatus::Running by {
        assert(after[i] == tasks[i]);
    }
}

/// An exiting task can be left only for another task: the kernel has a task to switch to
/// exactly when some other task is `Ready`, and the switch never goes back to the task
/// that exited.
pub proof fn lemma_exit_leaves_for_another(
    tasks: Seq<TaskControlBlock>,
    cur: int,
    now: usize,
    sw: TaskSwitch,
    after: TaskManager,
)
    requires
        0 <= cur < tasks.len(),
        run_next_effect(with_status(tasks, cur, TaskStatus::Exited), cur, now, sw, after),
    ensures
        sw.to != cur,
        !none_ready(with_status(tasks, cur, TaskStatus::Exited)) <==> (exists|i: int|
            0 <= i < tasks.len() && i != cur && #[trigger] tasks[i].task_status
                == TaskStatus::Ready),
{
    let mid = with_status(tasks, cur, TaskStatus::Exited);
    assert forall|i: int| 0 <= i < tasks.len() && i != cur implies #[trigger] mid[i] == tasks[i] by {}
    assert(mid[sw.to as int].task_status == TaskStatus::Ready);
    if !none_ready(mid) {
        let i = choose|i: int| 0 <= i < mid.len() && #[trigger] mid[i].task_status == TaskStatus::Ready;
        assert(mid[i] == tasks[i]);
    }
}

/// Counting a system call and then reading the counters shows that call's count up by
/// one and every other count as it was.
pub proof fn lemma_count_then_read(
    a: TaskManager,
    scall_id: int,
    res: Result<usize, String>,
    b: TaskManager,
)
    requires
        a.wf(),
        a.num_app > 0,
        0 <= scall_id < MAX_SYSCALL_NUM,
        count_effect(a, scall_id, res, b),
        a.current().sys_calls@[scall_id] < u32::MAX,
    ensures
        res == Ok::<usize, String>(scall_id as usize),
        b.current().sys_calls@[scall_id] == a.current().sys_calls@[scall_id] + 1,
        forall|j: int|
            0 <= j < MAX_SYSCALL_NUM && j != scall_id ==> #[trigger] b.current().sys_calls@[j]
                == a.current().sys_calls@[j],
{
}

/// After a successful `mmap`, every page of the range is mapped, and every other page is
/// mapped exactly when it was before.
pub proof fn lemma_mmap_maps_range(
    a: TaskManager,
    avail_a: int,
    start: int,
    len: int,
    port: usize,
    b: TaskManager,
    avail_b: int,
)
    requires
        a.wf(),
        a.num_app > 0,
        start >= 0,
        len >= 0,
        start + len <= usize::MAX,
        mmap_effect(a, avail_a, start, len, port, 0, b, avail_b),
    ensures
        forall|vpn: int|
            range_start(start) <= vpn < range_end(start, len) ==> #[trigger] areas_map(
                b.current().memory_set@,
                vpn,
            ),
        forall|vpn: int|
            !(range_start(start) <= vpn < range_end(start, len)) ==> #[trigger] areas_map(
                b.current().memory_set@,
                vpn,
            ) == areas_map(a.current().memory_set@, vpn),
{
    let old_areas = a.current().memory_set@;
    let new_areas = b.current().memory_set@;
    lemma_range_pages(start, len);
    assert(new_areas[old_areas.len() as int] == mmap_area(start, len, port));
    assert forall|vpn: int| range_start(start) <= vpn < range_end(start, len) implies #[trigger] areas_map(
        new_areas,
        vpn,
    ) by {
        assert(new_areas[old_areas.len() as int].contains(vpn));
    }
    assert forall|vpn: int| !(range_start(start) <= vpn < range_end(start, len)) implies #[trigger] areas_map(
        new_areas,
        vpn,
    ) == areas_map(old_areas, vpn) by {
        if areas_map(old_areas, vpn) {
            let i = choose|i: int| 0 <= i < old_areas.len() && (#[trigger] old_areas[i]).contains(vpn);
            assert(new_areas[i] == old_areas[i]);
        }
        if areas_map(new_areas, vpn) {
            let i = choose|i: int| 0 <= i < new_areas.len() && (#[trigger] new_areas[i]).contains(vpn);
            if i < old_areas.len() {
                assert(new_areas[i] == old_areas[i]);
            }
        }
    }
}

/// Unmapping a non-empty range right after mapping it succeeds, and gives back the
/// address space and the free frame count that there were before the mapping.
pub proof fn lemma_mmap_then_munmap(
    a: TaskManager,
    avail_a: int,
    start: int,
    len: int,
    port: usize,
    b: TaskManager,
    avail_b: int,
    res: isize,
    c: TaskManager,
    avail_c: int,
)
    requires
        a.wf(),
        a.num_app > 0,
        start >= 0,
        len > 0,
        start + len <= usize::MAX,
        avail_a <= usize::MAX,
        mmap_effect(a, avail_a, start, len, port, 0, b, avail_b),
        munmap_effect(b, avail_b, start, len, res, c, avail_c),
    ensures
        res == 0,
        c.current().memory_set@ == a.current().memory_set@,
        avail_c == avail_a,
        c.current().program_brk == a.current().program_brk,
        c.current().memory_set.root_ppn == a.current().memory_set.root_ppn,
        c.current_task == a.current_task,
        forall|i: int|
            0 <= i < a.tasks@.len() && i != a.current_task ==> #[trigger] c.tasks@[i]
                == a.tasks@[i],
{
    let old_areas = a.current().memory_set@;
    let new_areas = b.current().memory_set@;
    let lo = range_start(start);
    let hi = range_end(start, len);
    lemma_mmap_maps_range(a, avail_a, start, len, port, b, avail_b);
    lemma_range_pages(start, len);
    lemma_first_spanning(old_areas, lo, hi);
    if first_spanning(old_areas, lo, hi) >= 0 {
        let k = first_spanning(old_areas, lo, hi);
        assert(old_areas[k].contains(lo));
        assert(areas_map(old_areas, lo));
    }
    assert(new_areas.drop_last() =~= old_areas);
    assert(first_spanning(new_areas, lo, hi) == old_areas.len());
    assert(munmap_accepts(new_areas, start, len));
    assert(new_areas.remove(old_areas.len() as int) =~= old_areas);
}

/// Moving the break by `size` and then by `-size` succeeds the second time whenever it
/// succeeded the first, and brings the break back where it was.
pub proof fn lemma_brk_round_trip(brk: int, heap_bottom: int, areas: Seq<MapArea>, size: int)
    requires
        heap_bottom <= brk,
        brk_step(brk, heap_bottom, areas, size) is Some,
    ensures
        ({
            let (brk1, areas1) = brk_step(brk, heap_bottom, areas, size).unwrap();
            let k = first_starting(areas, vpn_floor(heap_bottom));
            &&& brk_step(brk1, heap_bottom, areas1, -size) == Some(
                (brk, areas1.update(k, MapArea { end_vpn: vpn_ceil(brk) as usize, ..areas1[k] })),
            )
        }),
{
    let s = vpn_floor(heap_bottom);
    let k = first_starting(areas, s);
    lemma_first_starting(areas, s);
    let areas1 = areas.update(k, MapArea { end_vpn: vpn_ceil(brk + size) as usize, ..areas[k] });
    assert forall|i: int| 0 <= i < areas.len() implies (#[trigger] areas1[i]).start_vpn
        == areas[i].start_vpn by {}
    lemma_first_starting_same_starts(areas1, areas, s);
}

/// At the level of the task manager: `sbrk(size)` followed by `sbrk(-size)` brings the
/// current task's break back, the second call succeeding whenever the first did.
pub proof fn lemma_sbrk_round_trip(
    a: TaskManager,
    size: int,
    r1: Option<usize>,
    b: TaskManager,
    r2: Option<usize>,
    c: TaskManager,
)
    requires
        a.wf(),
        a.num_app > 0,
        r1 is Some,
        brk_effect(a, size, r1, b),
        brk_effect(b, -size, r2, c),
    ensures
        r1 == Some(a.current().program_brk),
        r2 == Some(b.current().program_brk),
        b.current().program_brk == a.current().program_brk + size,
        c.current().program_brk == a.current().program_brk,
{
    lemma_brk_round_trip(
        a.current().program_brk as int,
        a.current().heap_bottom as int,
        a.current().memory_set@,
        size,
    );
}

/// Unmapping a non-empty range a second time fails and changes nothing: once unmapped,
/// none of its pages is mapped.
pub proof fn lemma_munmap_twice_refused(
    a: TaskManager,
    avail_a: int,
    start: int,
    len: int,
    b: TaskManager,
    avail_b: int,
    res: isize,
    c: TaskManager,
    avail_c: int,
)
    requires
        a.wf(),
        a.num_app > 0,
        start >= 0,
        len > 0,
        munmap_effect(a, avail_a, start, len, 0, b, avail_b),
        munmap_effect(b, avail_b, start, len, res, c, avail_c),
    ensures
        res == -1,
        c.current().memory_set@ == b.current().memory_set@,
        avail_c == avail_b,
{
    lemma_range_pages(start, len);
    let lo = range_start(start);
    assert(!areas_map(b.current().memory_set@, lo));
}

/// Once a non-empty range is mapped, a later `mmap` of a range sharing a page with it
/// fails and changes nothing; in particular, repeating a successful `mmap` fails.
pub proof fn lemma_mmap_overlap_refused(
    a: TaskManager,
    avail_a: int,
    start: int,
    len: int,
    port: usize,
    b: TaskManager,
    avail_b: int,
    start2: int,
    len2: int,
    port2: usize,
    res: isize,
    c: TaskManager,
    avail_c: int,
    vpn: int,
)
    requires
        a.wf(),
        a.num_app > 0,
        start >= 0,
        len >= 0,
        start + len <= usize::MAX,
        range_start(start) <= vpn < range_end(start, len),
        range_start(start2) <= vpn < range_end(start2, len2),
        mmap_effect(a, avail_a, start, len, port, 0, b, avail_b),
        mmap_effect(b, avail_b, start2, len2, port2, res, c, avail_c),
    ensures
        res == -1,
        c.current().memory_set@ == b.current().memory_set@,
        avail_c == avail_b,
{
    lemma_mmap_maps_range(a, avail_a, start, len, port, b, avail_b);
    assert(areas_map(b.current().memory_set@, vpn));
}

/// `sbrk(0)` gives the current break and changes nothing, for a task whose heap area is
/// in place (as `TaskControlBlock::new` makes it, and as moving the break and `mmap` keep it).
pub proof fn lemma_sbrk_zero(a: TaskManager, res: Option<usize>, b: TaskManager)
    requires
        a.wf(),
        a.num_app > 0,
        heap_area_ok(
            a.current().heap_bottom as int,
            a.current().program_brk as int,
            a.current().memory_set@,
        ),
        brk_effect(a, 0, res, b),
    ensures
        res == Some(a.current().program_brk),
        b.current().program_brk == a.current().program_brk,
        b.current().memory_set@ == a.current().memory_set@,
        b.current_task == a.current_task,
        forall|i: int|
            0 <= i < a.tasks@.len() && i != a.current_task ==> #[trigger] b.tasks@[i]
                == a.tasks@[i],
{
    let areas = a.current().memory_set@;
    let k = first_starting(areas, vpn_floor(a.current().heap_bottom as int));
    lemma_first_starting(areas, vpn_floor(a.current().heap_bottom as int));
    let updated = areas.update(
        k,
        MapArea { end_vpn: vpn_ceil(a.current().program_brk as int) as usize, ..areas[k] },
    );
    assert(updated =~= areas);
}

/// Every task that has run keeps its first-run flag and its start time from `a` to `b`.
pub open spec fn start_times_kept(a: Seq<TaskControlBlock>, b: Seq<TaskControlBlock>) -> bool {
    &&& b.len() == a.len()
    &&& forall|i: int|
        0 <= i < a.len() && (#[trigger] a[i]).has_runed ==> b[i].has_runed && b[i].start_time
            == a[i].start_time
}

/// Suspending or exiting the current task and switching keeps the start time of every
/// task that has run: a start time is written only when a task is first scheduled.
pub proof fn lemma_switch_keeps_start_times(
    tasks: Seq<TaskControlBlock>,
    cur: int,
    status: TaskStatus,
    now: usize,
    sw: TaskSwitch,
    after: TaskManager,
)
    requires
        0 <= cur < tasks.len(),
        run_next_effect(with_status(tasks, cur, status), cur, now, sw, after),
    ensures
        start_times_kept(tasks, after.tasks@),
{
    let mid = with_status(tasks, cur, status);
    assert forall|i: int| 0 <= i < tasks.len() && (#[trigger] tasks[i]).has_runed implies after.tasks@[i].has_runed
        && after.tasks@[i].start_time == tasks[i].start_time by {
        assert(mid[i].has_runed == tasks[i].has_runed);
        assert(mid[i].start_time == tasks[i].start_time);
    }
}

/// Running the first task keeps the start time of every task that has run.
pub proof fn lemma_first_run_keeps_start_times(
    tasks: Seq<TaskControlBlock>,
    now: usize,
    after: Seq<TaskControlBlock>,
)
    requires
        tasks.len() > 0,
        schedules(tasks, 0, now, after),
    ensures
        start_times_kept(tasks, after),
{
}

/// Moving the break, `mmap`, `munmap` and counting a system call (each leaves the current
/// task's status, start time and first-run flag alone, see `same_but_memory` and
/// `same_but_counters`) keep the start time of every task.
pub proof fn lemma_task_updates_keep_start_times(a: TaskManager, b: TaskManager)
    requires
        a.wf(),
        a.num_app > 0,
        only_current_changes(a, b),
        same_but_memory(a.current(), b.current()) || same_but_counters(a.current(), b.current()),
    ensures
        start_times_kept(a.tasks@, b.tasks@),
{
}

/// Going `k` steps round a ring of `n` slots from `from` lands on `(from + k) % n`, a slot
/// that lies `k` steps forward from `from`.
pub proof fn lemma_ring_steps(from: int, k: int, n: int)
    requires
        0 <= from < n,
        1 <= k <= n,
    ensures
        ring_at(from, k, n) == (from + k) % n,
        0 <= ring_at(from, k, n) < n,
        ring_distance(from, ring_at(from, k, n), n) == k,
{
    if from + k < n {
        vstd::arithmetic::div_mod::lemma_fundamental_div_mod_converse(from + k, n, 0, from + k);
    } else {
        vstd::arithmetic::div_mod::lemma_fundamental_div_mod_converse(from + k, n, 1, from + k - n);
    }
}

/// The area that a successful `mmap(start, len, port)` adds covers the pages from the one
/// holding `start` up to the least page boundary at or above `start + len`, and reads
/// exactly when bit 0 of `port` is set, writes exactly when bit 1 is set, executes exactly
/// when bit 2 is set, with user access.
pub proof fn lemma_mmap_area_shape(
    a: TaskManager,
    avail_a: int,
    start: int,
    len: int,
    port: usize,
    b: TaskManager,
    avail_b: int,
)
    requires
        start >= 0,
        len >= 0,
        start + len <= usize::MAX,
        mmap_effect(a, avail_a, start, len, port, 0, b, avail_b),
    ensures
        ({
            let area = b.current().memory_set@.last();
            &&& b.current().memory_set@.len() == a.current().memory_set@.len() + 1
            &&& area.start_vpn * PAGE_SIZE == start
            &&& len > 0 ==> (area.end_vpn - 1) * PAGE_SIZE < start + len <= area.end_vpn
                * PAGE_SIZE
            &&& len == 0 ==> area.end_vpn == area.start_vpn
            &&& area.perm.readable == (port & 1 != 0)
            &&& area.perm.writable == (port & 2 != 0)
            &&& area.perm.executable == (port & 4 != 0)
            &&& area.perm.user
            &&& avail_b == avail_a - (len + PAGE_SIZE - 1) / (PAGE_SIZE as int)
        }),
{
    lemma_port_permission_bits(port);
    lemma_vpn_ceil_bounds(start + len);
    lemma_vpn_ceil_bounds(len);
    lemma_vpn_floor_bounds(start);
}

/// `mmap(start, len, port)` succeeds exactly when `start` is a multiple of the page size,
/// `port` is between 1 and 7, no page from the one holding `start` to the one holding the
/// last byte of the range is mapped, and there are at least `ceil(len / PAGE_SIZE)` free frames.
pub proof fn lemma_mmap_succeeds_iff(
    a: TaskManager,
    avail_a: int,
    start: int,
    len: int,
    port: usize,
    res: isize,
    b: TaskManager,
    avail_b: int,
)
    requires
        start >= 0,
        len >= 0,
        mmap_effect(a, avail_a, start, len, port, res, b, avail_b),
    ensures
        (res == 0) == (start % 4096 == 0 && 1 <= port <= 7 && (forall|vpn: int|
            start <= vpn * 4096 < start + len ==> !#[trigger] areas_map(
                a.current().memory_set@,
                vpn,
            )) && (len + 4095) / 4096 <= avail_a),
        res == 0 || res == -1,
{
    let areas = a.current().memory_set@;
    let lo = range_start(start);
    let hi = range_end(start, len);
    lemma_vpn_ceil_bounds(start + len);
    lemma_vpn_ceil_bounds(len);
    if start % 4096 == 0 {
        let explicit = forall|vpn: int|
            start <= vpn * 4096 < start + len ==> !#[trigger] areas_map(areas, vpn);
        if explicit {
            assert forall|vpn: int| lo <= vpn < hi implies !#[trigger] areas_map(areas, vpn) by {
                assert(start <= vpn * 4096 < start + len);
            }
        }
        if range_unmapped(areas, lo, hi) {
            assert forall|vpn: int| start <= vpn * 4096 < start + len implies !#[trigger] areas_map(
                areas,
                vpn,
            ) by {
                assert(lo <= vpn < hi);
            }
        }
    }
}

/// `munmap(start, len)` succeeds exactly when `start` is a multiple of the page size, every
/// page from the one holding `start` to the one holding the last byte of the range is
/// mapped, and some area spans exactly those pages; then none of them is mapped afterwards.
pub proof fn lemma_munmap_succeeds_iff(
    a: TaskManager,
    avail_a: int,
    start: int,
    len: int,
    res: isize,
    b: TaskManager,
    avail_b: int,
)
    requires
        start >= 0,
        len >= 0,
        munmap_effect(a, avail_a, start, len, res, b, avail_b),
    ensures
        (res == 0) == (start % 4096 == 0 && (forall|vpn: int|
            start <= vpn * 4096 < start + len ==> #[trigger] areas_map(
                a.current().memory_set@,
                vpn,
            )) && (exists|i: int|
            0 <= i < a.current().memory_set@.len() && (#[trigger] a.current().memory_set@[i]).start_vpn
                * 4096 == start && a.current().memory_set@[i].end_vpn == (start + len + 4095)
                / 4096)),
        res == 0 ==> forall|vpn: int|
            start <= vpn * 4096 < start + len ==> !#[trigger] areas_map(b.current().memory_set@, vpn),
        res == 0 ==> avail_b == if avail_a + (len + 4095) / 4096 <= usize::MAX {
            avail_a + (len + 4095) / 4096
        } else {
            usize::MAX as int
        },
        res == -1 ==> avail_b == avail_a && b.current().memory_set@ == a.current().memory_set@,
        res == 0 || res == -1,
{
    let areas = a.current().memory_set@;
    let lo = range_start(start);
    let hi = range_end(start, len);
    lemma_vpn_ceil_bounds(start + len);
    lemma_first_spanning(areas, lo, hi);
    if start % 4096 == 0 {
        let explicit = forall|vpn: int|
            start <= vpn * 4096 < start + len ==> #[trigger] areas_map(areas, vpn);
        if explicit {
            assert forall|vpn: int| lo <= vpn < hi implies #[trigger] areas_map(areas, vpn) by {
                assert(start <= vpn * 4096 < start + len);
            }
        }
        if range_mapped(areas, lo, hi) {
            assert forall|vpn: int| start <= vpn * 4096 < start + len implies #[trigger] areas_map(
                areas,
                vpn,
            ) by {
                assert(lo <= vpn < hi);
            }
        }
        if munmap_accepts(areas, start, len) {
            assert forall|vpn: int| start <= vpn * 4096 < start + len implies !#[trigger] areas_map(
                b.current().memory_set@,
                vpn,
            ) by {
                assert(lo <= vpn < hi);
            }
        }
        if exists|i: int| 0 <= i < areas.len() && (#[trigger] areas[i]).start_vpn * 4096 == start
            && areas[i].end_vpn == (start + len + 4095) / 4096 {
            let i = choose|i: int| 0 <= i < areas.len() && (#[trigger] areas[i]).start_vpn * 4096
                == start && areas[i].end_vpn == (start + len + 4095) / 4096;
            assert(crate::mm::area_spans(areas[i], lo, hi));
        }
        if first_spanning(areas, lo, hi) >= 0 {
            let k = first_spanning(areas, lo, hi);
            assert(areas[k].start_vpn * 4096 == start);
        }
    }
}

/// Moving the current task's break by `size` succeeds exactly when the new break is not
/// below the heap's bottom and some area starts at the heap bottom's page; it then gives
/// the old break and the break becomes `old + size`.
pub proof fn lemma_sbrk_succeeds_iff(a: TaskManager, size: int, res: Option<usize>, b: TaskManager)
    requires
        a.wf(),
        a.num_app > 0,
        a.current().program_brk + size <= usize::MAX,
        brk_effect(a, size, res, b),
    ensures
        res.is_some() == (a.current().program_brk + size >= a.current().heap_bottom && (exists|
            i: int,
        |
            0 <= i < a.current().memory_set@.len() && (#[trigger] a.current().memory_set@[i]).start_vpn
                == a.current().heap_bottom / 4096)),
        res.is_some() ==> res == Some(a.current().program_brk) && b.current().program_brk
            == a.current().program_brk + size,
{
    lemma_brk_step_outcome(
        a.current().program_brk as int,
        a.current().heap_bottom as int,
        a.current().memory_set@,
        size,
    );
}

/// The task that the round-robin search picks while `cur` is current is `(cur + k) % n` for
/// the least `k` in `1..=n` whose task is `Ready`, and any such least `k` gives it.
pub proof fn lemma_next_ready_is_first_ready_after(
    tasks: Seq<TaskControlBlock>,
    cur: int,
    k: int,
)
    requires
        0 <= cur < tasks.len(),
        1 <= k <= tasks.len(),
    ensures
        next_ready(tasks, cur, (cur + k) % (tasks.len() as int)) <== (tasks[(cur + k) % (
        tasks.len() as int)].task_status == TaskStatus::Ready && forall|j: int|
            1 <= j < k ==> #[trigger] tasks[(cur + j) % (tasks.len() as int)].task_status
                != TaskStatus::Ready),
        next_ready(tasks, cur, (cur + k) % (tasks.len() as int)) ==> (tasks[(cur + k) % (
        tasks.len() as int)].task_status == TaskStatus::Ready && forall|j: int|
            1 <= j < k ==> #[trigger] tasks[(cur + j) % (tasks.len() as int)].task_status
                != TaskStatus::Ready),
{
    let n = tasks.len() as int;
    lemma_ring_steps(cur, k, n);
    assert forall|j: int| 1 <= j < k implies ring_at(cur, j, n) == (cur + j) % n by {
        lemma_ring_steps(cur, j, n);
    }
    if next_ready(tasks, cur, (cur + k) % n) {
        assert forall|j: int| 1 <= j < k implies #[trigger] tasks[(cur + j) % n].task_status
            != TaskStatus::Ready by {
            lemma_ring_steps(cur, j, n);
            assert(tasks[ring_at(cur, j, n)].task_status != TaskStatus::Ready);
        }
    }
}

} // verus!
