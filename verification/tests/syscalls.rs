use os_task::mm::MemorySet;
use os_task::syscall::process::{
    copy_to_user_buffers, sys_exit, sys_get_time, sys_task_info, sys_yield, TimeVal,
};
use os_task::task::{add_system_call, other_task_ready, run_first_task};
use os_task::task::{TaskContext, TaskControlBlock, TaskManager, TaskStatus, TaskSwitch};

fn manager(n: usize) -> TaskManager {
    let mut tasks = Vec::new();
    for i in 0..n {
        tasks.push(TaskControlBlock::new(
            MemorySet::new(i),
            TaskContext::zero_init(),
            i,
            0x1000,
            0x1000,
        ));
    }
    TaskManager::new(tasks)
}

#[test]
fn time_val_splits_microseconds() {
    let tv = TimeVal::from_us(3_250_017);
    assert_eq!(tv, TimeVal { sec: 3, usec: 250_017 });
}

#[test]
fn time_val_bytes_are_little_endian() {
    let tv = TimeVal { sec: 0x0102, usec: 0x0a0b0c };
    let b = tv.as_bytes();
    assert_eq!(b.len(), 16);
    assert_eq!(&b[0..8], &[0x02, 0x01, 0, 0, 0, 0, 0, 0]);
    assert_eq!(&b[8..16], &[0x0c, 0x0b, 0x0a, 0, 0, 0, 0, 0]);
}

#[test]
fn get_time_fills_split_buffers() {
    let mut bufs = vec![vec![0xffu8; 5], vec![0xffu8; 11]];
    assert_eq!(sys_get_time(&mut bufs, 0, 2_000_001), 0);
    let mut all = bufs[0].clone();
    all.extend_from_slice(&bufs[1]);
    let sec = usize::from_le_bytes(all[0..8].try_into().unwrap());
    let usec = usize::from_le_bytes(all[8..16].try_into().unwrap());
    assert_eq!(sec, 2);
    assert_eq!(usec, 1);
}

#[test]
fn copy_keeps_what_the_bytes_do_not_reach() {
    let mut bufs = vec![vec![9u8; 2], vec![9u8; 3], vec![9u8; 2]];
    copy_to_user_buffers(&mut bufs, &vec![1, 2, 3, 4]);
    assert_eq!(bufs, vec![vec![1, 2], vec![3, 4, 9], vec![9, 9]]);
}

#[test]
fn copy_drops_bytes_that_do_not_fit() {
    let mut bufs = vec![vec![0u8; 1], vec![]];
    copy_to_user_buffers(&mut bufs, &vec![7, 8, 9]);
    assert_eq!(bufs, vec![vec![7u8], vec![]]);
}

#[test]
fn task_info_reports_status_counts_and_milliseconds() {
    let mut m = manager(2);
    run_first_task(&mut m, 1_000);
    add_system_call(&mut m, 410).unwrap();
    add_system_call(&mut m, 410).unwrap();
    let info = sys_task_info(&m, 501_999);
    assert_eq!(info.status, TaskStatus::Running);
    assert_eq!(info.syscall_times[410], 2);
    assert_eq!(info.syscall_times[64], 0);
    assert_eq!(info.time, 500);
}

#[test]
fn yield_returns_zero_and_switches() {
    let mut m = manager(2);
    run_first_task(&mut m, 0);
    let (r, sw) = sys_yield(&mut m, 5);
    assert_eq!(r, 0);
    assert_eq!(sw, TaskSwitch { from: 0, to: 1 });
}

#[test]
fn exit_runs_remaining_tasks_then_completes() {
    let mut m = manager(2);
    run_first_task(&mut m, 0);
    assert_eq!(sys_exit(&mut m, 0, 1), TaskSwitch { from: 0, to: 1 });
    assert_eq!(m.tasks[0].task_status, TaskStatus::Exited);
    assert!(!other_task_ready(&m));
}
