use os_task::config::{MAX_SYSCALL_NUM, PAGE_SIZE};
use os_task::mm::{FrameAllocator, MapArea, MapPermission, MemorySet};
use os_task::syscall::process::{sys_mmap, sys_munmap, sys_sbrk};
use os_task::task::{change_program_brk, mmap_current_area, munmap_current_area};
use os_task::task::{brk_move_clear, TaskContext, TaskControlBlock, TaskManager, TaskStatus};

const HEAP: usize = 0x8000;

fn manager() -> TaskManager {
    let ms = MemorySet::new(0x80);
    let t = TaskControlBlock::new(ms, TaskContext::zero_init(), 0x90, HEAP, HEAP);
    TaskManager::new(vec![t])
}

fn mapped(m: &TaskManager, addr: usize) -> bool {
    m.tasks[m.current_task].memory_set.is_pte_valid(addr / PAGE_SIZE)
}

#[test]
fn permission_from_port() {
    let p = MapPermission::from_port(0b011);
    assert!(p.readable && p.writable && !p.executable && p.user);
    assert_eq!(p.bits(), 2 + 4 + 16);
    let p = MapPermission::from_port(0b100);
    assert_eq!(p.bits(), 8 + 16);
}

#[test]
fn mmap_maps_pages() {
    let mut m = manager();
    let mut f = FrameAllocator::new(10);
    assert_eq!(mmap_current_area(&mut m, &mut f, 0x10000, 0x2001, 0b011), 0);
    assert!(mapped(&m, 0x10000));
    assert!(mapped(&m, 0x11000));
    assert!(mapped(&m, 0x12000));
    assert!(!mapped(&m, 0x13000));
    assert!(!mapped(&m, 0xf000));
    assert_eq!(f.available, 7);
    let area = *m.tasks[0].memory_set.areas.last().unwrap();
    assert_eq!(
        area,
        MapArea {
            start_vpn: 0x10,
            end_vpn: 0x13,
            perm: MapPermission { readable: true, writable: true, executable: false, user: true },
        }
    );
}

#[test]
fn mmap_refuses_unaligned_start() {
    let mut m = manager();
    let mut f = FrameAllocator::new(10);
    assert_eq!(sys_mmap(&mut m, &mut f, 0x10001, 0x1000, 1), -1);
    assert_eq!(f.available, 10);
    assert_eq!(m.tasks[0].memory_set.areas.len(), 1);
}

#[test]
fn mmap_refuses_bad_port() {
    let mut m = manager();
    let mut f = FrameAllocator::new(10);
    assert_eq!(sys_mmap(&mut m, &mut f, 0x10000, 0x1000, 0), -1);
    assert_eq!(sys_mmap(&mut m, &mut f, 0x10000, 0x1000, 8), -1);
    assert_eq!(sys_mmap(&mut m, &mut f, 0x10000, 0x1000, 0b1001), -1);
    assert_eq!(m.tasks[0].memory_set.areas.len(), 1);
    assert_eq!(sys_mmap(&mut m, &mut f, 0x10000, 0x1000, 7), 0);
}

#[test]
fn mmap_refuses_overlap() {
    let mut m = manager();
    let mut f = FrameAllocator::new(10);
    assert_eq!(sys_mmap(&mut m, &mut f, 0x10000, 0x2000, 1), 0);
    assert_eq!(sys_mmap(&mut m, &mut f, 0x11000, 0x2000, 1), -1);
    assert_eq!(sys_mmap(&mut m, &mut f, 0x12000, 0x1000, 1), 0);
    assert_eq!(f.available, 7);
}

#[test]
fn mmap_refuses_when_frames_run_out() {
    let mut m = manager();
    let mut f = FrameAllocator::new(2);
    assert!(!f.is_addr_space_sufficient(0x2001));
    assert_eq!(sys_mmap(&mut m, &mut f, 0x10000, 0x2001, 1), -1);
    assert_eq!(f.available, 2);
    assert_eq!(sys_mmap(&mut m, &mut f, 0x10000, 0x2000, 1), 0);
    assert_eq!(f.available, 0);
}

#[test]
fn mmap_of_nothing_succeeds() {
    let mut m = manager();
    let mut f = FrameAllocator::new(0);
    assert_eq!(sys_mmap(&mut m, &mut f, 0x20000, 0, 1), 0);
    assert_eq!(m.tasks[0].memory_set.areas.len(), 2);
}

#[test]
fn munmap_undoes_mmap() {
    let mut m = manager();
    let mut f = FrameAllocator::new(10);
    let before = m.tasks[0].memory_set.areas.clone();
    assert_eq!(sys_mmap(&mut m, &mut f, 0x10000, 0x3000, 3), 0);
    assert_eq!(sys_munmap(&mut m, &mut f, 0x10000, 0x3000), 0);
    assert_eq!(m.tasks[0].memory_set.areas, before);
    assert_eq!(f.available, 10);
    assert!(!mapped(&m, 0x10000));
}

#[test]
fn munmap_refuses_unmapped_or_partial_ranges() {
    let mut m = manager();
    let mut f = FrameAllocator::new(10);
    assert_eq!(munmap_current_area(&mut m, &mut f, 0x10000, 0x1000), -1);
    assert_eq!(sys_mmap(&mut m, &mut f, 0x10000, 0x3000, 3), 0);
    assert_eq!(munmap_current_area(&mut m, &mut f, 0x10001, 0x1000), -1);
    assert_eq!(munmap_current_area(&mut m, &mut f, 0x10000, 0x4000), -1);
    assert_eq!(munmap_current_area(&mut m, &mut f, 0x10000, 0x1000), -1);
    assert_eq!(f.available, 7);
    assert!(mapped(&m, 0x12000));
}

#[test]
fn sbrk_grows_and_shrinks_the_heap() {
    let mut m = manager();
    assert_eq!(sys_sbrk(&mut m, 0x1800), HEAP as isize);
    assert_eq!(m.tasks[0].program_brk, HEAP + 0x1800);
    assert_eq!(m.tasks[0].memory_set.areas[0].end_vpn, (HEAP + 0x2000) / PAGE_SIZE);
    assert_eq!(sys_sbrk(&mut m, -0x1800), (HEAP + 0x1800) as isize);
    assert_eq!(m.tasks[0].program_brk, HEAP);
    assert_eq!(m.tasks[0].memory_set.areas[0].end_vpn, HEAP / PAGE_SIZE);
}

#[test]
fn sbrk_below_heap_bottom_is_refused() {
    let mut m = manager();
    assert_eq!(sys_sbrk(&mut m, -1), -1);
    assert_eq!(m.tasks[0].program_brk, HEAP);
    assert_eq!(change_program_brk(&mut m, 0), Some(HEAP));
}

#[test]
fn sbrk_without_heap_area_is_refused() {
    let t = TaskControlBlock {
        task_status: TaskStatus::Ready,
        task_cx: TaskContext::zero_init(),
        memory_set: MemorySet::new(1),
        trap_cx_ppn: 2,
        base_size: HEAP,
        heap_bottom: HEAP,
        program_brk: HEAP,
        start_time: 0,
        sys_calls: [0; MAX_SYSCALL_NUM],
        has_runed: false,
    };
    let mut m = TaskManager::new(vec![t]);
    assert_eq!(sys_sbrk(&mut m, 0x100), -1);
    assert_eq!(m.tasks[0].program_brk, HEAP);
}

#[test]
fn new_task_has_an_empty_heap_area() {
    let m = manager();
    let area = m.tasks[0].memory_set.areas[0];
    assert_eq!(area.start_vpn, HEAP / PAGE_SIZE);
    assert_eq!(area.end_vpn, HEAP / PAGE_SIZE);
    assert!(area.perm.readable && area.perm.writable && !area.perm.executable && area.perm.user);
}

#[test]
fn munmap_leaves_range_unmapped_and_cannot_repeat() {
    let mut m = manager();
    let mut f = FrameAllocator::new(10);
    assert_eq!(sys_mmap(&mut m, &mut f, 0x10000, 0x2000, 1), 0);
    assert_eq!(sys_munmap(&mut m, &mut f, 0x10000, 0x2000), 0);
    assert!(!mapped(&m, 0x10000));
    assert!(!mapped(&m, 0x11000));
    assert_eq!(sys_munmap(&mut m, &mut f, 0x10000, 0x2000), -1);
    assert_eq!(f.available, 10);
}

#[test]
fn repeating_mmap_is_refused() {
    let mut m = manager();
    let mut f = FrameAllocator::new(10);
    assert_eq!(sys_mmap(&mut m, &mut f, 0x10000, 0x2000, 1), 0);
    let before = m.tasks[0].memory_set.areas.clone();
    assert_eq!(sys_mmap(&mut m, &mut f, 0x10000, 0x2000, 1), -1);
    assert_eq!(sys_mmap(&mut m, &mut f, 0xf000, 0x2000, 2), -1);
    assert_eq!(m.tasks[0].memory_set.areas, before);
    assert_eq!(f.available, 8);
}

#[test]
fn sbrk_zero_reports_the_break() {
    let mut m = manager();
    assert_eq!(sys_sbrk(&mut m, 0x100), HEAP as isize);
    let areas = m.tasks[0].memory_set.areas.clone();
    assert_eq!(sys_sbrk(&mut m, 0), (HEAP + 0x100) as isize);
    assert_eq!(m.tasks[0].program_brk, HEAP + 0x100);
    assert_eq!(m.tasks[0].memory_set.areas, areas);
}

#[test]
fn heap_cannot_grow_over_mapped_pages() {
    let mut m = manager();
    let mut f = FrameAllocator::new(10);
    assert_eq!(sys_mmap(&mut m, &mut f, HEAP + 0x2000, 0x1000, 3), 0);
    assert!(brk_move_clear(&m, 0x2000));
    assert!(!brk_move_clear(&m, 0x2001));
    assert!(brk_move_clear(&m, -1));
}
