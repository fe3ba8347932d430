//! Task management: the tasks of the system, which of them runs, and the
//! round-robin choice of the next one.
//!
//! A [`TaskManager`] holds every task. The functions at the end of this module
//! are the kernel's entry points into it; each works on the manager it is given.
//! Where the kernel must switch contexts, they return the [`TaskSwitch`] to
//! perform instead of performing it.
mod task;
pub mod laws;

use vstd::prelude::*;
use crate::config::{MAX_SYSCALL_NUM, PAGE_SIZE};
use crate::mm::{
    FrameAllocator, MapArea, MapPermission, areas_map, first_spanning, pages_for,
    port_permission, range_mapped, range_unmapped, satp_token, vpn_ceil, vpn_floor, va_ceil, va_floor,
    lemma_disjoint_remove, lemma_first_spanning, lemma_first_starting_push, first_starting,
    lemma_first_starting,
};

pub use task::{
    TaskContext, TaskControlBlock, TaskStatus, brk_clear, brk_step, heap_area_ok, heap_permission,
};

verus! {

/// The slot `k` steps after `from` on a ring of `n` slots (for `0 <= from < n`, `0 <= k <= n`).
pub open spec fn ring_at(from: int, k: int, n: int) -> int {
    if from + k < n {
        from + k
    } else {
        from + k - n
    }
}

/// How many steps forward it takes to go from slot `from` to slot `to` on a ring of `n`
/// slots, counting a full turn when they are the same (so between 1 and `n`).
pub open spec fn ring_distance(from: int, to: int, n: int) -> int {
    if to > from {
        to - from
    } else {
        to + n - from
    }
}

/// A context switch to perform: save the running context into task `from`'s
/// and resume task `to`'s.
#[derive(Clone, Copy, PartialEq, Eq, Structural, Debug)]
pub struct TaskSwitch {
    pub from: usize,
    pub to: usize,
}

/// The task manager, where all the tasks are kept and the running one is recorded.
pub struct TaskManager {
    /// total number of tasks
    pub num_app: usize,
    /// task list
    pub tasks: Vec<TaskControlBlock>,
    /// index of the current `Running` task
    pub current_task: usize,
}

/// `b` is `a` with (at most) a different status, start time and first-run flag.
pub open spec fn same_but_schedule(a: TaskControlBlock, b: TaskControlBlock) -> bool {
    &&& b.task_cx == a.task_cx
    &&& b.memory_set == a.memory_set
    &&& b.trap_cx_ppn == a.trap_cx_ppn
    &&& b.base_size == a.base_size
    &&& b.heap_bottom == a.heap_bottom
    &&& b.program_brk == a.program_brk
    &&& b.sys_calls == a.sys_calls
}

/// `b` is `a` with (at most) different system call counters.
pub open spec fn same_but_counters(a: TaskControlBlock, b: TaskControlBlock) -> bool {
    &&& b.task_status == a.task_status
    &&& b.task_cx == a.task_cx
    &&& b.memory_set == a.memory_set
    &&& b.trap_cx_ppn == a.trap_cx_ppn
    &&& b.base_size == a.base_size
    &&& b.heap_bottom == a.heap_bottom
    &&& b.program_brk == a.program_brk
    &&& b.start_time == a.start_time
    &&& b.has_runed == a.has_runed
}

/// `b` is `a` with (at most) a different address space (same page table root) and break.
pub open spec fn same_but_memory(a: TaskControlBlock, b: TaskControlBlock) -> bool {
    &&& b.task_status == a.task_status
    &&& b.task_cx == a.task_cx
    &&& b.memory_set.root_ppn == a.memory_set.root_ppn
    &&& b.trap_cx_ppn == a.trap_cx_ppn
    &&& b.base_size == a.base_size
    &&& b.heap_bottom == a.heap_bottom
    &&& b.start_time == a.start_time
    &&& b.sys_calls == a.sys_calls
    &&& b.has_runed == a.has_runed
}

/// `t` scheduled to run at clock reading `now`: it becomes `Running`, and if it never ran
/// before, it is marked as having run and its start time becomes `now`.
pub open spec fn scheduled(t: TaskControlBlock, now: usize, u: TaskControlBlock) -> bool {
    &&& same_but_schedule(t, u)
    &&& u.task_status == TaskStatus::Running
    &&& u.has_runed
    &&& u.start_time == if t.has_runed {
        t.start_time
    } else {
        now
    }
}

/// The pages `mmap(start, len, ..)` covers start here.
pub open spec fn range_start(start: int) -> int {
    start / (PAGE_SIZE as int)
}

/// The pages `mmap(start, len, ..)` covers end here (exclusive).
pub open spec fn range_end(start: int, len: int) -> int {
    vpn_ceil(start + len)
}

/// Whether `mmap(start, len, port)` succeeds in an address space with `areas` while
/// `available` frames are free: `start` is page aligned, `port` asks for some of read,
/// write and execute and nothing else, none of the pages is mapped yet, and there are
/// frames enough for `len` bytes.
pub open spec fn mmap_accepts(
    areas: Seq<MapArea>,
    available: int,
    start: int,
    len: int,
    port: int,
) -> bool {
    &&& start % (PAGE_SIZE as int) == 0
    &&& 1 <= port <= 7
    &&& range_unmapped(areas, range_start(start), range_end(start, len))
    &&& pages_for(len) <= available
}

/// The area that a successful `mmap(start, len, port)` adds.
pub open spec fn mmap_area(start: int, len: int, port: usize) -> MapArea {
    MapArea {
        start_vpn: range_start(start) as usize,
        end_vpn: range_end(start, len) as usize,
        perm: port_permission(port),
    }
}

/// Whether `munmap(start, len)` succeeds in an address space with `areas`: `start` is
/// page aligned, every page of the range is mapped, and some area spans exactly the range.
pub open spec fn munmap_accepts(areas: Seq<MapArea>, start: int, len: int) -> bool {
    &&& start % (PAGE_SIZE as int) == 0
    &&& range_mapped(areas, range_start(start), range_end(start, len))
    &&& first_spanning(areas, range_start(start), range_end(start, len)) >= 0
}

/// What the frame count becomes when `pages` frames come back to a pool of `available`.
pub open spec fn refunded(available: int, pages: int) -> int {
    if available + pages <= usize::MAX {
        available + pages
    } else {
        usize::MAX as int
    }
}

/// The pages of an aligned range `[start, start + len)` are as many as `len` bytes need.
proof fn lemma_range_pages(start: int, len: int)
    requires
        start % (PAGE_SIZE as int) == 0,
        start >= 0,
        len >= 0,
    ensures
        range_end(start, len) - range_start(start) == pages_for(len),
        range_start(start) <= range_end(start, len),
        len > 0 ==> range_start(start) < range_end(start, len),
{
}

/// Task `to` is the one that the round-robin search picks in `tasks` while task `cur`
/// is current: it is `Ready`, and no task met before it, going forward round the list
/// from `cur`, is.
pub open spec fn next_ready(tasks: Seq<TaskControlBlock>, cur: int, to: int) -> bool {
    let n = tasks.len() as int;
    &&& 0 <= to < n
    &&& tasks[to].task_status == TaskStatus::Ready
    &&& forall|k: int|
        1 <= k < ring_distance(cur, to, n) ==> #[trigger] tasks[ring_at(cur, k, n)].task_status
            != TaskStatus::Ready
}

/// No task of `tasks` is `Ready`.
pub open spec fn none_ready(tasks: Seq<TaskControlBlock>) -> bool {
    forall|i: int| 0 <= i < tasks.len() ==> #[trigger] tasks[i].task_status != TaskStatus::Ready
}

/// `after` is `before` with task `to` scheduled at clock reading `now`, and nothing else changed.
pub open spec fn schedules(
    before: Seq<TaskControlBlock>,
    to: int,
    now: usize,
    after: Seq<TaskControlBlock>,
) -> bool {
    &&& after.len() == before.len()
    &&& scheduled(before[to], now, after[to])
    &&& forall|i: int| 0 <= i < before.len() && i != to ==> #[trigger] after[i] == before[i]
}

/// What running the next task does, from the task list `before` with task `cur` current
/// (some task being `Ready`): it switches from `cur` to the task that the round-robin
/// search picks, which becomes current and is scheduled at `now`.
pub open spec fn run_next_effect(
    before: Seq<TaskControlBlock>,
    cur: int,
    now: usize,
    sw: TaskSwitch,
    after: TaskManager,
) -> bool {
    &&& sw.from == cur
    &&& next_ready(before, cur, sw.to as int)
    &&& after.current_task == sw.to
    &&& schedules(before, sw.to as int, now, after.tasks@)
}

/// The task list `tasks` with the status of task `cur` set to `status`.
pub open spec fn with_status(tasks: Seq<TaskControlBlock>, cur: int, status: TaskStatus) -> Seq<
    TaskControlBlock,
> {
    tasks.update(cur, TaskControlBlock { task_status: status, ..tasks[cur] })
}

/// `b` is a well-formed manager that differs from `a` at most in the current task,
/// which stays current.
pub open spec fn only_current_changes(a: TaskManager, b: TaskManager) -> bool {
    &&& b.wf()
    &&& b.num_app == a.num_app
    &&& b.current_task == a.current_task
    &&& b.tasks@.len() == a.tasks@.len()
    &&& forall|i: int|
        0 <= i < a.tasks@.len() && i != a.current_task ==> #[trigger] b.tasks@[i] == a.tasks@[i]
}

/// Moving the current task's break by `size` takes manager `a` to `b` and gives `res`:
/// the outcome that `brk_step` describes, with nothing else changed.
pub open spec fn brk_effect(a: TaskManager, size: int, res: Option<usize>, b: TaskManager) -> bool {
    &&& only_current_changes(a, b)
    &&& same_but_memory(a.current(), b.current())
    &&& match brk_step(
        a.current().program_brk as int,
        a.current().heap_bottom as int,
        a.current().memory_set@,
        size,
    ) {
        Some((new_brk, new_areas)) => {
            &&& res == Some(a.current().program_brk)
            &&& b.current().program_brk == new_brk
            &&& b.current().memory_set@ == new_areas
            &&& heap_area_ok(
                b.current().heap_bottom as int,
                b.current().program_brk as int,
                b.current().memory_set@,
            )
        },
        None => {
            &&& res.is_none()
            &&& b.current().program_brk == a.current().program_brk
            &&& b.current().memory_set@ == a.current().memory_set@
        },
    }
}

/// `mmap(start, len, port)` takes manager `a`, with `avail_a` free frames, to manager `b`
/// with `avail_b` free frames, and gives `res`: when `mmap_accepts`, 0, the area added to
/// the current task's address space and its frames taken; else -1 and no change.
pub open spec fn mmap_effect(
    a: TaskManager,
    avail_a: int,
    start: int,
    len: int,
    port: usize,
    res: isize,
    b: TaskManager,
    avail_b: int,
) -> bool {
    &&& only_current_changes(a, b)
    &&& same_but_memory(a.current(), b.current())
    &&& b.current().program_brk == a.current().program_brk
    &&& if mmap_accepts(a.current().memory_set@, avail_a, start, len, port as int) {
        &&& res == 0
        &&& b.current().memory_set@ == a.current().memory_set@.push(mmap_area(start, len, port))
        &&& avail_b == avail_a - pages_for(len)
        &&& heap_area_ok(
            a.current().heap_bottom as int,
            a.current().program_brk as int,
            a.current().memory_set@,
        ) ==> heap_area_ok(
            b.current().heap_bottom as int,
            b.current().program_brk as int,
            b.current().memory_set@,
        )
    } else {
        &&& res == -1
        &&& b.current().memory_set@ == a.current().memory_set@
        &&& avail_b == avail_a
    }
}

/// `munmap(start, len)` takes manager `a`, with `avail_a` free frames, to manager `b` with
/// `avail_b` free frames, and gives `res`: when `munmap_accepts`, 0, the first area spanning
/// the range removed from the current task's address space and its frames given back;
/// else -1 and no change.
pub open spec fn munmap_effect(
    a: TaskManager,
    avail_a: int,
    start: int,
    len: int,
    res: isize,
    b: TaskManager,
    avail_b: int,
) -> bool {
    &&& only_current_changes(a, b)
    &&& same_but_memory(a.current(), b.current())
    &&& b.current().program_brk == a.current().program_brk
    &&& if munmap_accepts(a.current().memory_set@, start, len) {
        &&& res == 0
        &&& b.current().memory_set@ == a.current().memory_set@.remove(
            first_spanning(a.current().memory_set@, range_start(start), range_end(start, len)),
        )
        &&& range_unmapped(b.current().memory_set@, range_start(start), range_end(start, len))
        &&& forall|vpn: int|
            !(range_start(start) <= vpn < range_end(start, len)) ==> #[trigger] areas_map(
                b.current().memory_set@,
                vpn,
            ) == areas_map(a.current().memory_set@, vpn)
        &&& avail_b == refunded(avail_a, pages_for(len))
    } else {
        &&& res == -1
        &&& b.current().memory_set@ == a.current().memory_set@
        &&& avail_b == avail_a
    }
}

/// Counting a use of system call `scall_id` takes manager `a` to `b` and gives `res`: ids
/// above `MAX_SYSCALL_NUM` are refused with an error message and change nothing; below it,
/// the current task's counter for the id grows by one and nothing else changes.
pub open spec fn count_effect(
    a: TaskManager,
    scall_id: int,
    res: Result<usize, String>,
    b: TaskManager,
) -> bool {
    &&& only_current_changes(a, b)
    &&& scall_id > MAX_SYSCALL_NUM ==> {
        &&& res matches Err(msg) && msg@ == "The scall_id is out of bound!"@
        &&& b.tasks@ == a.tasks@
    }
    &&& scall_id < MAX_SYSCALL_NUM ==> {
        &&& res == Ok::<usize, String>(scall_id as usize)
        &&& same_but_counters(a.current(), b.current())
        &&& b.current().sys_calls@ == a.current().sys_calls@.update(
            scall_id,
            (a.current().sys_calls@[scall_id] + 1) as u32,
        )
    }
}

/// `u` is the copy of `t` that `get_current_task` hands out: every field of `t`, but a
/// zeroed context, a heap bottom of 0 and the first-run flag set.
pub open spec fn snapshot_of(t: TaskControlBlock, u: TaskControlBlock) -> bool {
    &&& u.task_status == t.task_status
    &&& u.task_cx.ra == 0
    &&& u.task_cx.sp == 0
    &&& (forall|i: int| 0 <= i < 12 ==> u.task_cx.s@[i] == 0)
    &&& u.memory_set.root_ppn == t.memory_set.root_ppn
    &&& u.memory_set@ == t.memory_set@
    &&& u.trap_cx_ppn == t.trap_cx_ppn
    &&& u.base_size == t.base_size
    &&& u.heap_bottom == 0
    &&& u.program_brk == t.program_brk
    &&& u.start_time == t.start_time
    &&& u.sys_calls == t.sys_calls
    &&& u.has_runed
}

impl TaskManager {
    /// The task list has `num_app` well-formed tasks, and the current index is
    /// within it (or 0 when there is none).
    pub open spec fn wf(&self) -> bool {
        &&& self.tasks.len() == self.num_app
        &&& (self.num_app == 0 ==> self.current_task == 0)
        &&& (self.num_app > 0 ==> self.current_task < self.num_app)
        &&& forall|i: int| 0 <= i < self.tasks.len() ==> (#[trigger] self.tasks@[i]).wf()
    }

    /// The current task.
    pub open spec fn current(&self) -> TaskControlBlock {
        self.tasks@[self.current_task as int]
    }

    /// A manager of the given tasks; the first of them is the current one.
    pub fn new(tasks: Vec<TaskControlBlock>) -> (tm: Self)
        requires
            forall|i: int| 0 <= i < tasks.len() ==> (#[trigger] tasks@[i]).wf(),
        ensures
            tm.wf(),
            tm.num_app == tasks.len(),
            tm.tasks@ == tasks@,
            tm.current_task == 0,
    {
        let num_app = tasks.len();
        TaskManager { num_app, tasks, current_task: 0 }
    }

    /// Marks the first task `Running` (starting its clock at `now` if it never ran);
    /// the caller then switches to its context.
    fn run_first_task(&mut self, now: usize)
        requires
            old(self).wf(),
            old(self).num_app > 0,
        ensures
            final(self).wf(),
            final(self).num_app == old(self).num_app,
            final(self).current_task == old(self).current_task,
            schedules(old(self).tasks@, 0, now, final(self).tasks@),
    {
        self.tasks[0].task_status = TaskStatus::Running;
        if !self.tasks[0].has_runed {
            self.tasks[0].has_runed = true;
            self.tasks[0].start_time = now;
        }
    }

    /// Changes the status of the current task into `Ready`.
    fn mark_current_suspended(&mut self)
        requires
            old(self).wf(),
            old(self).num_app > 0,
        ensures
            final(self).wf(),
            final(self).num_app == old(self).num_app,
            final(self).current_task == old(self).current_task,
            final(self).tasks@ == with_status(
                old(self).tasks@,
                old(self).current_task as int,
                TaskStatus::Ready,
            ),
    {
        let cur = self.current_task;
        self.tasks[cur].task_status = TaskStatus::Ready;
        assert(self.tasks@ =~= with_status(old(self).tasks@, cur as int, TaskStatus::Ready));
    }

    /// Changes the status of the current task into `Exited`.
    fn mark_current_exited(&mut self)
        requires
            old(self).wf(),
            old(self).num_app > 0,
        ensures
            final(self).wf(),
            final(self).num_app == old(self).num_app,
            final(self).current_task == old(self).current_task,
            final(self).tasks@ == with_status(
                old(self).tasks@,
                old(self).current_task as int,
                TaskStatus::Exited,
            ),
    {
        let cur = self.current_task;
        self.tasks[cur].task_status = TaskStatus::Exited;
        assert(self.tasks@ =~= with_status(old(self).tasks@, cur as int, TaskStatus::Exited));
    }

    /// Finds the next task to run: the first `Ready` task after the current one, going
    /// round the task list (the current task itself last); `None` when no task is `Ready`.
    pub fn find_next_task(&self) -> (next: Option<usize>)
        requires
            self.wf(),
        ensures
            match next {
                Some(id) => next_ready(self.tasks@, self.current_task as int, id as int),
                None => none_ready(self.tasks@),
            },
    {
        let n = self.num_app;
        let current = self.current_task;
        let mut id = current;
        let mut k: usize = 0;
        while k < n
            invariant
                self.wf(),
                n == self.num_app,
                current == self.current_task,
                k <= n,
                id as int == ring_at(current as int, k as int, n as int),
                n > 0 ==> id < n,
                forall|j: int|
                    1 <= j <= k ==> #[trigger] self.tasks@[ring_at(
                        current as int,
                        j,
                        n as int,
                    )].task_status != TaskStatus::Ready,
            decreases n - k,
        {
            id = if id + 1 == n {
                0
            } else {
                id + 1
            };
            k = k + 1;
            if self.tasks[id].task_status == TaskStatus::Ready {
                assert(ring_distance(current as int, id as int, n as int) == k);
                return Some(id);
            }
        }
        assert forall|i: int| 0 <= i < n implies #[trigger] self.tasks@[i].task_status
            != TaskStatus::Ready by {
            let j = ring_distance(current as int, i, n as int);
            assert(ring_at(current as int, j, n as int) == i);
        }
        None
    }

    /// The current task's page table token.
    fn get_current_token(&self) -> (token: u64)
        requires
            self.wf(),
            self.num_app > 0,
        ensures
            token == satp_token(self.current().memory_set.root_ppn as int),
    {
        self.tasks[self.current_task].get_user_token()
    }

    /// The page number of the current task's trap context.
    fn get_current_trap_cx(&self) -> (ppn: usize)
        requires
            self.wf(),
            self.num_app > 0,
        ensures
            ppn == self.current().trap_cx_ppn,
    {
        self.tasks[self.current_task].get_trap_cx()
    }

    /// Moves the current task's program break by `size` bytes (see `brk_effect`); gives the
    /// old break, or `None` where the move is refused.
    pub fn change_current_program_brk(&mut self, size: i32) -> (old_brk: Option<usize>)
        requires
            old(self).wf(),
            old(self).num_app > 0,
            old(self).current().program_brk + size <= isize::MAX,
            brk_clear(
                old(self).current().program_brk as int,
                old(self).current().heap_bottom as int,
                old(self).current().memory_set@,
                size as int,
            ),
        ensures
            brk_effect(*old(self), size as int, old_brk, *final(self)),
    {
        let cur = self.current_task;
        self.tasks[cur].change_program_brk(size)
    }

    /// Switches to the task that `find_next_task` picks (see `run_next_effect`). Some task
    /// must be `Ready`; when none is, every application has completed and the kernel stops.
    fn run_next_task(&mut self, now: usize) -> (switch: TaskSwitch)
        requires
            old(self).wf(),
            !none_ready(old(self).tasks@),
        ensures
            final(self).wf(),
            final(self).num_app == old(self).num_app,
            run_next_effect(
                old(self).tasks@,
                old(self).current_task as int,
                now,
                switch,
                *final(self),
            ),
    {
        let next = self.find_next_task().unwrap();
        let current = self.current_task;
        self.tasks[next].task_status = TaskStatus::Running;
        if !self.tasks[next].has_runed {
            self.tasks[next].has_runed = true;
            self.tasks[next].start_time = now;
        }
        self.current_task = next;
        TaskSwitch { from: current, to: next }
    }

    /// A copy of the current task's control block, with a zeroed context, a heap bottom
    /// of 0 and the first-run flag set.
    fn get_current_task(&self) -> (tcb: TaskControlBlock)
        requires
            self.wf(),
            self.num_app > 0,
        ensures
            snapshot_of(self.current(), tcb),
    {
        let current_task = &self.tasks[self.current_task];
        TaskControlBlock {
            task_cx: TaskContext::zero_init(),
            heap_bottom: 0,
            task_status: current_task.task_status,
            start_time: current_task.start_time,
            sys_calls: current_task.sys_calls,
            memory_set: current_task.memory_set.duplicate(),
            base_size: current_task.base_size,
            trap_cx_ppn: current_task.trap_cx_ppn,
            program_brk: current_task.program_brk,
            has_runed: true,
        }
    }

    /// When the current task first ran.
    fn get_start_time(&self) -> (t: usize)
        requires
            self.wf(),
            self.num_app > 0,
        ensures
            t == self.current().start_time,
    {
        self.tasks[self.current_task].start_time
    }

    /// How many times the current task made each system call.
    fn get_system_calls(&self) -> (counts: [u32; MAX_SYSCALL_NUM])
        requires
            self.wf(),
            self.num_app > 0,
        ensures
            counts == self.current().sys_calls,
    {
        self.tasks[self.current_task].sys_calls
    }

    /// Counts one more use of system call `scall_id` by the current task (see
    /// `count_effect`).
    fn add_system_calls(&mut self, scall_id: usize) -> (res: Result<usize, String>)
        requires
            old(self).wf(),
            old(self).num_app > 0,
            scall_id != MAX_SYSCALL_NUM,
            scall_id < MAX_SYSCALL_NUM ==> old(self).current().sys_calls@[scall_id as int]
                < u32::MAX,
        ensures
            count_effect(*old(self), scall_id as int, res, *final(self)),
    {
        if scall_id > MAX_SYSCALL_NUM {
            return Err("The scall_id is out of bound!".to_owned());
        } else {
            let cur = self.current_task;
            self.tasks[cur].sys_calls[scall_id] += 1;
            Ok(scall_id)
        }
    }

    /// Maps `[start, start + len)` into the current task's address space with the access
    /// rights that `port` asks for (bit 0 read, bit 1 write, bit 2 execute, user access
    /// always), taking the frames it needs from `frames`. Returns 0 when `mmap_accepts`
    /// holds, else -1 and changes nothing.
    pub fn mmap_current_area(
        &mut self,
        frames: &mut FrameAllocator,
        start: usize,
        len: usize,
        port: usize,
    ) -> (res: isize)
        requires
            old(self).wf(),
            old(self).num_app > 0,
            start % PAGE_SIZE == 0 && 1 <= port <= 7 ==> start + len <= usize::MAX,
        ensures
            mmap_effect(
                *old(self),
                old(frames).available as int,
                start as int,
                len as int,
                port,
                res,
                *final(self),
                final(frames).available as int,
            ),
    {
        if start % PAGE_SIZE != 0 {
            return -1;
        }
        if port & !7usize != 0 || port & 7usize == 0 {
            assert(!(1 <= port <= 7)) by (bit_vector)
                requires
                    port & !7usize != 0 || port & 7usize == 0,
            ;
            return -1;
        }
        assert(1 <= port <= 7) by (bit_vector)
            requires
                !(port & !7usize != 0 || port & 7usize == 0),
        ;
        let cur = self.current_task;
        let lo = start / PAGE_SIZE;
        let hi = va_ceil(start + len);
        proof {
            lemma_range_pages(start as int, len as int);
        }
        let mut vpn = lo;
        while vpn < hi
            invariant
                self.wf(),
                self.num_app > 0,
                cur == self.current_task,
                *self == *old(self),
                lo == range_start(start as int),
                hi == range_end(start as int, len as int),
                lo <= vpn <= hi,
                forall|v: int|
                    lo <= v < vpn ==> !#[trigger] areas_map(self.current().memory_set@, v),
            decreases hi - vpn,
        {
            if self.tasks[cur].memory_set.is_pte_valid(vpn) {
                return -1;
            }
            vpn = vpn + 1;
        }
        if !frames.is_addr_space_sufficient(len) {
            return -1;
        }
        let permission = MapPermission::from_port(port);
        let ghost old_areas = self.current().memory_set@;
        self.tasks[cur].memory_set.insert_framed_area(start, start + len, permission);
        proof {
            let hb = vpn_floor(self.current().heap_bottom as int);
            lemma_first_starting(old_areas, hb);
            if first_starting(old_areas, hb) >= 0 {
                lemma_first_starting_push(old_areas, mmap_area(start as int, len as int, port), hb);
                let k = first_starting(old_areas, hb);
                assert(self.current().memory_set@[k] == old_areas[k]);
            }
        }
        frames.take(va_ceil(len));
        let ghost new_areas = self.current().memory_set@;
        assert(new_areas.last() == mmap_area(start as int, len as int, port));
        let mut vpn = lo;
        while vpn < hi
            invariant
                self.wf(),
                self.num_app > 0,
                cur == self.current_task,
                self.current().memory_set@ == new_areas,
                new_areas.len() > 0,
                new_areas.last() == mmap_area(start as int, len as int, port),
                lo == range_start(start as int),
                hi == range_end(start as int, len as int),
                lo <= vpn <= hi,
            decreases hi - vpn,
        {
            assert(new_areas[new_areas.len() - 1].contains(vpn as int));
            if !self.tasks[cur].memory_set.is_pte_valid(vpn) {
                return -1;
            }
            vpn = vpn + 1;
        }
        0
    }

    /// Unmaps `[start, start + len)` from the current task's address space, returning its
    /// frames to `frames`. Returns 0 when `munmap_accepts` holds (the first area spanning
    /// exactly the range is removed), else -1 and changes nothing.
    pub fn munmap_current_area(&mut self, frames: &mut FrameAllocator, start: usize, len: usize) -> (res: isize)
        requires
            old(self).wf(),
            old(self).num_app > 0,
            start % PAGE_SIZE == 0 ==> start + len <= usize::MAX,
        ensures
            munmap_effect(
                *old(self),
                old(frames).available as int,
                start as int,
                len as int,
                res,
                *final(self),
                final(frames).available as int,
            ),
    {
        if start % PAGE_SIZE != 0 {
            return -1;
        }
        let cur = self.current_task;
        let lo = start / PAGE_SIZE;
        let hi = va_ceil(start + len);
        proof {
            lemma_range_pages(start as int, len as int);
        }
        let mut vpn = lo;
        while vpn < hi
            invariant
                self.wf(),
                self.num_app > 0,
                cur == self.current_task,
                *self == *old(self),
                lo == range_start(start as int),
                hi == range_end(start as int, len as int),
                lo <= vpn <= hi,
                forall|v: int|
                    lo <= v < vpn ==> #[trigger] areas_map(self.current().memory_set@, v),
            decreases hi - vpn,
        {
            if !self.tasks[cur].memory_set.is_pte_valid(vpn) {
                return -1;
            }
            vpn = vpn + 1;
        }
        proof {
            let areas = self.current().memory_set@;
            lemma_first_spanning(areas, lo as int, hi as int);
            let k = first_spanning(areas, lo as int, hi as int);
            if k >= 0 {
                lemma_disjoint_remove(areas, k);
            }
        }
        if self.tasks[cur].memory_set.remove_area(start, len) {
            frames.give_back(va_ceil(len));
            0
        } else {
            -1
        }
    }
}

/// Runs the first task in the task list: marks it `Running` (starting its clock at `now`
/// if it never ran); the caller then switches to its context.
pub fn run_first_task(manager: &mut TaskManager, now: usize)
    requires
        old(manager).wf(),
        old(manager).num_app > 0,
    ensures
        final(manager).wf(),
        final(manager).num_app == old(manager).num_app,
        final(manager).current_task == old(manager).current_task,
        schedules(old(manager).tasks@, 0, now, final(manager).tasks@),
        old(manager).current_task == 0 ==> final(manager).current().task_status
            == TaskStatus::Running,
{
    manager.run_first_task(now);
}

/// Switches to the next `Ready` task (see `run_next_effect`); some task must be `Ready`.
fn run_next_task(manager: &mut TaskManager, now: usize) -> (switch: TaskSwitch)
    requires
        old(manager).wf(),
        !none_ready(old(manager).tasks@),
    ensures
        final(manager).wf(),
        final(manager).num_app == old(manager).num_app,
        run_next_effect(
            old(manager).tasks@,
            old(manager).current_task as int,
            now,
            switch,
            *final(manager),
        ),
{
    manager.run_next_task(now)
}

/// Changes the status of the current task into `Ready`.
fn mark_current_suspended(manager: &mut TaskManager)
    requires
        old(manager).wf(),
        old(manager).num_app > 0,
    ensures
        final(manager).wf(),
        final(manager).num_app == old(manager).num_app,
        final(manager).current_task == old(manager).current_task,
        final(manager).tasks@ == with_status(
            old(manager).tasks@,
            old(manager).current_task as int,
            TaskStatus::Ready,
        ),
{
    manager.mark_current_suspended();
}

/// Changes the status of the current task into `Exited`.
fn mark_current_exited(manager: &mut TaskManager)
    requires
        old(manager).wf(),
        old(manager).num_app > 0,
    ensures
        final(manager).wf(),
        final(manager).num_app == old(manager).num_app,
        final(manager).current_task == old(manager).current_task,
        final(manager).tasks@ == with_status(
            old(manager).tasks@,
            old(manager).current_task as int,
            TaskStatus::Exited,
        ),
{
    manager.mark_current_exited();
}

/// Whether some task other than the current one is `Ready`, that is, whether the kernel
/// has a task to switch to when the current one exits.
pub fn other_task_ready(manager: &TaskManager) -> (ready: bool)
    requires
        manager.wf(),
        manager.num_app > 0,
    ensures
        ready == !none_ready(
            with_status(manager.tasks@, manager.current_task as int, TaskStatus::Exited),
        ),
{
    let n = manager.num_app;
    let cur = manager.current_task;
    let ghost after_exit = with_status(manager.tasks@, cur as int, TaskStatus::Exited);
    let mut i: usize = 0;
    while i < n
        invariant
            manager.wf(),
            n == manager.num_app,
            cur == manager.current_task,
            cur < n,
            after_exit == with_status(manager.tasks@, cur as int, TaskStatus::Exited),
            i <= n,
            forall|j: int| 0 <= j < i ==> #[trigger] after_exit[j].task_status != TaskStatus::Ready,
        decreases n - i,
    {
        if i != cur && manager.tasks[i].task_status == TaskStatus::Ready {
            assert(after_exit[i as int].task_status == TaskStatus::Ready);
            return true;
        }
        i = i + 1;
    }
    false
}

/// Whether the current task's break may move by `size` bytes without growing its heap
/// over pages that are already mapped (see `brk_clear`).
pub fn brk_move_clear(manager: &TaskManager, size: i32) -> (clear: bool)
    requires
        manager.wf(),
        manager.num_app > 0,
        manager.current().program_brk + size <= isize::MAX,
    ensures
        clear == brk_clear(
            manager.current().program_brk as int,
            manager.current().heap_bottom as int,
            manager.current().memory_set@,
            size as int,
        ),
{
    let task = &manager.tasks[manager.current_task];
    let new_brk: isize = task.program_brk as isize + size as isize;
    if new_brk < task.heap_bottom as isize {
        return true;
    }
    match task.memory_set.find_starting(va_floor(task.heap_bottom)) {
        Some(k) => {
            let end = task.memory_set.areas[k].end_vpn;
            task.memory_set.pages_unmapped(end, va_ceil(new_brk as usize))
        },
        None => true,
    }
}

/// Suspends the current task (it becomes `Ready`) and switches to the next `Ready` task.
/// There always is one, since the suspended task itself is `Ready`; the switch goes back
/// to the same task when no other is `Ready`. The task switched to is `Running`.
pub fn suspend_current_and_run_next(manager: &mut TaskManager, now: usize) -> (switch: TaskSwitch)
    requires
        old(manager).wf(),
        old(manager).num_app > 0,
    ensures
        final(manager).wf(),
        final(manager).num_app == old(manager).num_app,
        final(manager).current().task_status == TaskStatus::Running,
        run_next_effect(
            with_status(old(manager).tasks@, old(manager).current_task as int, TaskStatus::Ready),
            old(manager).current_task as int,
            now,
            switch,
            *final(manager),
        ),
{
    mark_current_suspended(manager);
    proof {
        let mid = with_status(
            old(manager).tasks@,
            old(manager).current_task as int,
            TaskStatus::Ready,
        );
        assert(mid[old(manager).current_task as int].task_status == TaskStatus::Ready);
    }
    run_next_task(manager, now)
}

/// Exits the current task (it becomes `Exited`) and switches to the next `Ready` task,
/// which is `Running` afterwards. Some other task must be `Ready` (see `other_task_ready`);
/// when none is, every application has completed and the kernel stops.
pub fn exit_current_and_run_next(manager: &mut TaskManager, now: usize) -> (switch: TaskSwitch)
    requires
        old(manager).wf(),
        old(manager).num_app > 0,
        !none_ready(
            with_status(old(manager).tasks@, old(manager).current_task as int, TaskStatus::Exited),
        ),
    ensures
        final(manager).wf(),
        final(manager).num_app == old(manager).num_app,
        final(manager).current().task_status == TaskStatus::Running,
        run_next_effect(
            with_status(old(manager).tasks@, old(manager).current_task as int, TaskStatus::Exited),
            old(manager).current_task as int,
            now,
            switch,
            *final(manager),
        ),
{
    mark_current_exited(manager);
    run_next_task(manager, now)
}

/// The current task's page table token.
pub fn current_user_token(manager: &TaskManager) -> (token: u64)
    requires
        manager.wf(),
        manager.num_app > 0,
    ensures
        token == satp_token(manager.current().memory_set.root_ppn as int),
{
    manager.get_current_token()
}

/// The physical page number of the current task's trap context.
pub fn current_trap_cx(manager: &TaskManager) -> (ppn: usize)
    requires
        manager.wf(),
        manager.num_app > 0,
    ensures
        ppn == manager.current().trap_cx_ppn,
{
    manager.get_current_trap_cx()
}

/// Moves the current task's program break by `size` bytes (see `brk_effect`).
pub fn change_program_brk(manager: &mut TaskManager, size: i32) -> (old_brk: Option<usize>)
    requires
        old(manager).wf(),
        old(manager).num_app > 0,
        old(manager).current().program_brk + size <= isize::MAX,
        brk_clear(
            old(manager).current().program_brk as int,
            old(manager).current().heap_bottom as int,
            old(manager).current().memory_set@,
            size as int,
        ),
    ensures
        brk_effect(*old(manager), size as int, old_brk, *final(manager)),
{
    manager.change_current_program_brk(size)
}

/// A copy of the current task's control block (see `snapshot_of`).
pub fn get_current_task(manager: &TaskManager) -> (tcb: TaskControlBlock)
    requires
        manager.wf(),
        manager.num_app > 0,
    ensures
        snapshot_of(manager.current(), tcb),
{
    manager.get_current_task()
}

/// Counts one more use of system call `scall_id` by the current task (see `count_effect`).
pub fn add_system_call(manager: &mut TaskManager, scall_id: usize) -> (res: Result<usize, String>)
    requires
        old(manager).wf(),
        old(manager).num_app > 0,
        scall_id != MAX_SYSCALL_NUM,
        scall_id < MAX_SYSCALL_NUM ==> old(manager).current().sys_calls@[scall_id as int]
            < u32::MAX,
    ensures
        count_effect(*old(manager), scall_id as int, res, *final(manager)),
{
    manager.add_system_calls(scall_id)
}

/// How many times the current task made each system call.
pub fn current_sys_calls(manager: &TaskManager) -> (counts: [u32; MAX_SYSCALL_NUM])
    requires
        manager.wf(),
        manager.num_app > 0,
    ensures
        counts == manager.current().sys_calls,
{
    manager.get_system_calls()
}

/// When the current task first ran.
pub fn current_start_time(manager: &TaskManager) -> (t: usize)
    requires
        manager.wf(),
        manager.num_app > 0,
    ensures
        t == manager.current().start_time,
{
    manager.get_start_time()
}

/// Maps `[start, start + len)` into the current task's address space (see `mmap_effect`).
pub fn mmap_current_area(
    manager: &mut TaskManager,
    frames: &mut FrameAllocator,
    start: usize,
    len: usize,
    port: usize,
) -> (res: isize)
    requires
        old(manager).wf(),
        old(manager).num_app > 0,
        start % PAGE_SIZE == 0 && 1 <= port <= 7 ==> start + len <= usize::MAX,
    ensures
        mmap_effect(
            *old(manager),
            old(frames).available as int,
            start as int,
            len as int,
            port,
            res,
            *final(manager),
            final(frames).available as int,
        ),
{
    manager.mmap_current_area(frames, start, len, port)
}

/// Unmaps `[start, start + len)` from the current task's address space (see `munmap_effect`).
pub fn munmap_current_area(
    manager: &mut TaskManager,
    frames: &mut FrameAllocator,
    start: usize,
    len: usize,
) -> (res: isize)
    requires
        old(manager).wf(),
        old(manager).num_app > 0,
        start % PAGE_SIZE == 0 ==> start + len <= usize::MAX,
    ensures
        munmap_effect(
            *old(manager),
            old(frames).available as int,
            start as int,
            len as int,
            res,
            *final(manager),
            final(frames).available as int,
        ),
{
    manager.munmap_current_area(frames, start, len)
}

} // verus!
