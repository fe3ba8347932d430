//! Types related to one task: its status, saved context and control block.
use vstd::prelude::*;
use crate::config::{MAX_SYSCALL_NUM, PAGE_SIZE};
use crate::mm::{
    MemorySet, MapArea, MapPermission, first_starting, vpn_ceil, vpn_floor, satp_token,
    range_unmapped, lemma_first_starting, lemma_first_starting_same_starts,
};

verus! {

/// The status of a task in its life cycle.
#[derive(Clone, Copy, PartialEq, Eq, Structural, Debug)]
pub enum TaskStatus {
    UnInit,
    Ready,
    Running,
    Exited,
}

/// The callee-saved registers that a context switch saves and restores.
#[derive(Clone, Copy, Debug)]
pub struct TaskContext {
    /// return address, where the switch returns to
    pub ra: usize,
    /// kernel stack pointer
    pub sp: usize,
    /// callee-saved registers s0..s11
    pub s: [usize; 12],
}

impl TaskContext {
    /// A context with every register zero.
    pub fn zero_init() -> (cx: Self)
        ensures
            cx.ra == 0,
            cx.sp == 0,
            forall|i: int| 0 <= i < 12 ==> cx.s@[i] == 0,
    {
        let cx = TaskContext { ra: 0, sp: 0, s: [0, 0, 0, 0, 0, 0, 0, 0, 0, 0, 0, 0] };
        assert(cx.s@ =~= seq![0usize, 0, 0, 0, 0, 0, 0, 0, 0, 0, 0, 0]);
        cx
    }
}

/// What happens to the program break when it is moved by `size` bytes: `None` where the
/// request is refused, else the new break and the new areas of the address space.
///
/// The request is refused where the new break would fall below the heap's bottom, or
/// where no area starts at the heap's bottom page; otherwise that area is made to end
/// at the page boundary at or above the new break.
pub open spec fn brk_step(brk: int, heap_bottom: int, areas: Seq<MapArea>, size: int) -> Option<
    (int, Seq<MapArea>),
> {
    let new_brk = brk + size;
    let k = first_starting(areas, vpn_floor(heap_bottom));
    if new_brk < heap_bottom || k < 0 {
        None
    } else {
        Some((new_brk, areas.update(k, MapArea { end_vpn: vpn_ceil(new_brk) as usize, ..areas[k] })))
    }
}

/// Moving the break by `size` is refused exactly when the new break would fall below the
/// heap's bottom or no area starts at the heap bottom's page; otherwise the break becomes
/// `brk + size`, and only the first area starting at that page changes: it keeps its
/// start and permission and now ends at the least page boundary at or above the new break.
pub proof fn lemma_brk_step_outcome(brk: int, heap_bottom: int, areas: Seq<MapArea>, size: int)
    requires
        heap_bottom >= 0,
        brk + size <= usize::MAX,
    ensures
        (brk_step(brk, heap_bottom, areas, size) is Some) == (brk + size >= heap_bottom && (exists|
            i: int,
        |
            0 <= i < areas.len() && (#[trigger] areas[i]).start_vpn == heap_bottom / (
            PAGE_SIZE as int))),
        brk_step(brk, heap_bottom, areas, size) is Some ==> {
            let (new_brk, new_areas) = brk_step(brk, heap_bottom, areas, size).unwrap();
            let k = first_starting(areas, heap_bottom / (PAGE_SIZE as int));
            &&& new_brk == brk + size
            &&& new_areas.len() == areas.len()
            &&& 0 <= k < areas.len()
            &&& areas[k].start_vpn == heap_bottom / (PAGE_SIZE as int)
            &&& (forall|j: int| 0 <= j < k ==> (#[trigger] areas[j]).start_vpn != heap_bottom / (
            PAGE_SIZE as int))
            &&& new_areas[k].start_vpn == areas[k].start_vpn
            &&& new_areas[k].perm == areas[k].perm
            &&& (new_areas[k].end_vpn - 1) * PAGE_SIZE < brk + size <= new_areas[k].end_vpn
                * PAGE_SIZE || (brk + size == 0 && new_areas[k].end_vpn == 0)
            &&& forall|j: int| 0 <= j < areas.len() && j != k ==> #[trigger] new_areas[j] == areas[j]
        },
{
    let s = heap_bottom / (PAGE_SIZE as int);
    lemma_first_starting(areas, s);
    if brk + size >= 0 {
        crate::mm::lemma_vpn_ceil_bounds(brk + size);
    }
    if exists|i: int| 0 <= i < areas.len() && (#[trigger] areas[i]).start_vpn == s {
        let i = choose|i: int| 0 <= i < areas.len() && (#[trigger] areas[i]).start_vpn == s;
        assert(first_starting(areas, s) >= 0);
    }
}

/// Whether the break may move by `size` bytes without running into mapped pages: when
/// the move is not refused, no area maps the pages between the heap area's end and the
/// page boundary at or above the new break (growing the heap maps each of them, and
/// mapping a page twice is a kernel panic).
pub open spec fn brk_clear(brk: int, heap_bottom: int, areas: Seq<MapArea>, size: int) -> bool {
    let k = first_starting(areas, vpn_floor(heap_bottom));
    brk + size >= heap_bottom && k >= 0 ==> range_unmapped(
        areas,
        areas[k].end_vpn as int,
        vpn_ceil(brk + size),
    )
}

/// The heap area of `areas` for a heap from `heap_bottom` to `brk`: the first area starting
/// at the heap bottom's page exists and ends at the page boundary at or above the break.
pub open spec fn heap_area_ok(heap_bottom: int, brk: int, areas: Seq<MapArea>) -> bool {
    let k = first_starting(areas, vpn_floor(heap_bottom));
    &&& k >= 0
    &&& areas[k].end_vpn == vpn_ceil(brk)
}

/// The permission of a task's heap: read, write and user access.
pub open spec fn heap_permission() -> MapPermission {
    MapPermission { readable: true, writable: true, executable: false, user: true }
}

/// Everything the kernel keeps about one task.
pub struct TaskControlBlock {
    /// where the task is in its life cycle
    pub task_status: TaskStatus,
    /// the context saved when the task was switched out
    pub task_cx: TaskContext,
    /// the task's address space
    pub memory_set: MemorySet,
    /// physical page number of the frame holding the task's trap context
    pub trap_cx_ppn: usize,
    /// size of the task's image (code, data and user stack) in bytes
    pub base_size: usize,
    /// lowest address of the task's heap
    pub heap_bottom: usize,
    /// current end of the task's heap
    pub program_brk: usize,
    /// clock reading (microseconds) when the task first ran
    pub start_time: usize,
    /// how many times the task made each system call
    pub sys_calls: [u32; MAX_SYSCALL_NUM],
    /// whether the task has ever been scheduled
    pub has_runed: bool,
}

impl TaskControlBlock {
    /// The address space is well formed and the break lies between the heap's bottom
    /// and `isize::MAX`.
    pub open spec fn wf(&self) -> bool {
        &&& self.memory_set.wf()
        &&& self.heap_bottom <= self.program_brk <= isize::MAX
    }

    /// A task that is ready to run for the first time: no system calls counted yet,
    /// and its break at the bottom of its heap, where an empty heap area is added to
    /// its address space.
    pub fn new(
        memory_set: MemorySet,
        task_cx: TaskContext,
        trap_cx_ppn: usize,
        base_size: usize,
        heap_bottom: usize,
    ) -> (tcb: Self)
        requires
            memory_set.wf(),
            heap_bottom <= isize::MAX,
            range_unmapped(
                memory_set@,
                vpn_floor(heap_bottom as int),
                vpn_ceil(heap_bottom as int),
            ),
            forall|i: int|
                0 <= i < memory_set@.len() ==> (#[trigger] memory_set@[i]).start_vpn != vpn_floor(
                    heap_bottom as int,
                ),
        ensures
            tcb.wf(),
            tcb.task_status == TaskStatus::Ready,
            tcb.task_cx == task_cx,
            tcb.memory_set.root_ppn == memory_set.root_ppn,
            tcb.memory_set@ == memory_set@.push(
                MapArea {
                    start_vpn: vpn_floor(heap_bottom as int) as usize,
                    end_vpn: vpn_ceil(heap_bottom as int) as usize,
                    perm: heap_permission(),
                },
            ),
            heap_area_ok(heap_bottom as int, heap_bottom as int, tcb.memory_set@),
            tcb.trap_cx_ppn == trap_cx_ppn,
            tcb.base_size == base_size,
            tcb.heap_bottom == heap_bottom,
            tcb.program_brk == heap_bottom,
            tcb.start_time == 0,
            forall|i: int| 0 <= i < MAX_SYSCALL_NUM ==> tcb.sys_calls@[i] == 0,
            !tcb.has_runed,
    {
        let mut memory_set = memory_set;
        let ghost before = memory_set@;
        memory_set.insert_framed_area(
            heap_bottom,
            heap_bottom,
            MapPermission { readable: true, writable: true, executable: false, user: true },
        );
        proof {
            lemma_first_starting(before, vpn_floor(heap_bottom as int));
            assert(memory_set@.drop_last() =~= before);
        }
        TaskControlBlock {
            task_status: TaskStatus::Ready,
            task_cx,
            memory_set,
            trap_cx_ppn,
            base_size,
            heap_bottom,
            program_brk: heap_bottom,
            start_time: 0,
            sys_calls: [0u32; 500],
            has_runed: false,
        }
    }

    /// The `satp` token of the task's address space.
    pub fn get_user_token(&self) -> (token: u64)
        requires
            self.wf(),
        ensures
            token == satp_token(self.memory_set.root_ppn as int),
    {
        self.memory_set.token()
    }

    /// Physical page number of the frame holding the task's trap context.
    pub fn get_trap_cx(&self) -> (ppn: usize)
        ensures
            ppn == self.trap_cx_ppn,
    {
        self.trap_cx_ppn
    }

    /// Moves the program break by `size` bytes, growing or shrinking the heap area;
    /// gives the old break, or `None` where the move is refused (see `brk_step`).
    pub fn change_program_brk(&mut self, size: i32) -> (old_brk: Option<usize>)
        requires
            old(self).wf(),
            old(self).program_brk + size <= isize::MAX,
            brk_clear(
                old(self).program_brk as int,
                old(self).heap_bottom as int,
                old(self).memory_set@,
                size as int,
            ),
        ensures
            final(self).wf(),
            old_brk.is_some() ==> heap_area_ok(
                final(self).heap_bottom as int,
                final(self).program_brk as int,
                final(self).memory_set@,
            ),
            final(self).task_status == old(self).task_status,
            final(self).task_cx == old(self).task_cx,
            final(self).memory_set.root_ppn == old(self).memory_set.root_ppn,
            final(self).trap_cx_ppn == old(self).trap_cx_ppn,
            final(self).base_size == old(self).base_size,
            final(self).heap_bottom == old(self).heap_bottom,
            final(self).start_time == old(self).start_time,
            final(self).sys_calls == old(self).sys_calls,
            final(self).has_runed == old(self).has_runed,
            match brk_step(
                old(self).program_brk as int,
                old(self).heap_bottom as int,
                old(self).memory_set@,
                size as int,
            ) {
                Some((new_brk, new_areas)) => {
                    &&& old_brk == Some(old(self).program_brk)
                    &&& final(self).program_brk == new_brk
                    &&& final(self).memory_set@ == new_areas
                },
                None => {
                    &&& old_brk.is_none()
                    &&& final(self).program_brk == old(self).program_brk
                    &&& final(self).memory_set@ == old(self).memory_set@
                },
            },
    {
        let old_break = self.program_brk;
        let new_brk: isize = self.program_brk as isize + size as isize;
        if new_brk < self.heap_bottom as isize {
            return None;
        }
        let result = if size < 0 {
            self.memory_set.shrink_to(self.heap_bottom, new_brk as usize)
        } else {
            self.memory_set.append_to(self.heap_bottom, new_brk as usize)
        };
        if result {
            proof {
                let k = first_starting(old(self).memory_set@, vpn_floor(self.heap_bottom as int));
                lemma_first_starting(old(self).memory_set@, vpn_floor(self.heap_bottom as int));
                let new_areas = self.memory_set@;
                assert(new_areas == old(self).memory_set@.update(
                    k,
                    MapArea { end_vpn: vpn_ceil(new_brk as int) as usize, ..old(self).memory_set@[k] },
                ));
                assert forall|i: int| 0 <= i < new_areas.len() implies (#[trigger] new_areas[i]).start_vpn
                    == old(self).memory_set@[i].start_vpn by {}
                lemma_first_starting_same_starts(
                    new_areas,
                    old(self).memory_set@,
                    vpn_floor(self.heap_bottom as int),
                );
            }
            self.program_brk = new_brk as usize;
            Some(old_break)
        } else {
            None
        }
    }
}

} // verus!
