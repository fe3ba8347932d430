use os_task::config::MAX_SYSCALL_NUM;
use os_task::mm::MemorySet;
use os_task::task::{
    add_system_call, current_start_time, current_sys_calls, current_trap_cx, current_user_token,
    exit_current_and_run_next, get_current_task, other_task_ready, run_first_task,
    suspend_current_and_run_next,
    TaskContext, TaskControlBlock, TaskManager, TaskStatus, TaskSwitch,
};

fn make_task(root_ppn: usize, trap_cx_ppn: usize, heap_bottom: usize) -> TaskControlBlock {
    let ms = MemorySet::new(root_ppn);
    TaskControlBlock::new(ms, TaskContext::zero_init(), trap_cx_ppn, heap_bottom, heap_bottom)
}

fn make_manager(n: usize) -> TaskManager {
    let mut tasks = Vec::new();
    for i in 0..n {
        tasks.push(make_task(0x100 + i, 0x200 + i, 0x10000));
    }
    TaskManager::new(tasks)
}

#[test]
fn new_task_is_ready_with_no_counts() {
    let t = make_task(7, 9, 0x3000);
    assert_eq!(t.task_status, TaskStatus::Ready);
    assert!(!t.has_runed);
    assert_eq!(t.start_time, 0);
    assert_eq!(t.program_brk, 0x3000);
    assert!(t.sys_calls.iter().all(|c| *c == 0));
}

#[test]
fn run_first_task_marks_first_running() {
    let mut m = make_manager(3);
    run_first_task(&mut m, 42);
    assert_eq!(m.tasks[0].task_status, TaskStatus::Running);
    assert!(m.tasks[0].has_runed);
    assert_eq!(m.tasks[0].start_time, 42);
    assert_eq!(m.tasks[1].task_status, TaskStatus::Ready);
    assert_eq!(m.current_task, 0);
}

#[test]
fn find_next_task_goes_round_robin() {
    let mut m = make_manager(3);
    run_first_task(&mut m, 0);
    assert_eq!(m.find_next_task(), Some(1));
    m.tasks[1].task_status = TaskStatus::Exited;
    assert_eq!(m.find_next_task(), Some(2));
    m.current_task = 2;
    m.tasks[2].task_status = TaskStatus::Running;
    m.tasks[0].task_status = TaskStatus::Ready;
    assert_eq!(m.find_next_task(), Some(0));
}

#[test]
fn find_next_task_takes_current_last() {
    let mut m = make_manager(3);
    m.tasks[1].task_status = TaskStatus::Exited;
    m.tasks[2].task_status = TaskStatus::Exited;
    assert_eq!(m.find_next_task(), Some(0));
    m.tasks[0].task_status = TaskStatus::Running;
    assert_eq!(m.find_next_task(), None);
}

#[test]
fn find_next_task_on_empty_manager() {
    let m = make_manager(0);
    assert_eq!(m.find_next_task(), None);
}

#[test]
fn suspend_switches_to_next_ready() {
    let mut m = make_manager(3);
    run_first_task(&mut m, 10);
    let sw = suspend_current_and_run_next(&mut m, 20);
    assert_eq!(sw, TaskSwitch { from: 0, to: 1 });
    assert_eq!(m.current_task, 1);
    assert_eq!(m.tasks[0].task_status, TaskStatus::Ready);
    assert_eq!(m.tasks[1].task_status, TaskStatus::Running);
    assert_eq!(m.tasks[1].start_time, 20);
    let sw = suspend_current_and_run_next(&mut m, 30);
    assert_eq!(sw, TaskSwitch { from: 1, to: 2 });
    let sw = suspend_current_and_run_next(&mut m, 40);
    assert_eq!(sw, TaskSwitch { from: 2, to: 0 });
    assert_eq!(m.current_task, 0);
}

#[test]
fn start_time_is_set_only_on_first_run() {
    let mut m = make_manager(2);
    run_first_task(&mut m, 5);
    suspend_current_and_run_next(&mut m, 7);
    suspend_current_and_run_next(&mut m, 100);
    assert_eq!(m.current_task, 0);
    assert_eq!(m.tasks[0].start_time, 5);
    assert_eq!(m.tasks[1].start_time, 7);
    assert_eq!(current_start_time(&m), 5);
}

#[test]
fn yield_alone_resumes_self() {
    let mut m = make_manager(1);
    run_first_task(&mut m, 1);
    let sw = suspend_current_and_run_next(&mut m, 2);
    assert_eq!(sw, TaskSwitch { from: 0, to: 0 });
    assert_eq!(m.tasks[0].task_status, TaskStatus::Running);
    assert_eq!(m.tasks[0].start_time, 1);
}

#[test]
fn exit_switches_to_another_task() {
    let mut m = make_manager(2);
    run_first_task(&mut m, 1);
    let sw = exit_current_and_run_next(&mut m, 2);
    assert_eq!(sw, TaskSwitch { from: 0, to: 1 });
    assert_eq!(m.tasks[0].task_status, TaskStatus::Exited);
    assert_eq!(m.tasks[1].task_status, TaskStatus::Running);
}

#[test]
fn exit_of_last_task_leaves_nothing_to_run() {
    let mut m = make_manager(2);
    run_first_task(&mut m, 1);
    assert!(other_task_ready(&m));
    exit_current_and_run_next(&mut m, 2);
    assert_eq!(m.tasks[0].task_status, TaskStatus::Exited);
    assert_eq!(m.current_task, 1);
    assert!(!other_task_ready(&m));
}

#[test]
fn other_task_ready_ignores_the_current_task() {
    let mut m = make_manager(3);
    run_first_task(&mut m, 0);
    m.tasks[1].task_status = TaskStatus::Exited;
    assert!(other_task_ready(&m));
    m.tasks[2].task_status = TaskStatus::Exited;
    m.tasks[0].task_status = TaskStatus::Ready;
    assert!(!other_task_ready(&m));
}

#[test]
fn system_calls_are_counted_per_task() {
    let mut m = make_manager(2);
    run_first_task(&mut m, 0);
    assert_eq!(add_system_call(&mut m, 64), Ok(64));
    assert_eq!(add_system_call(&mut m, 64), Ok(64));
    assert_eq!(add_system_call(&mut m, 93), Ok(93));
    let counts = current_sys_calls(&m);
    assert_eq!(counts[64], 2);
    assert_eq!(counts[93], 1);
    assert_eq!(counts[0], 0);
    assert_eq!(m.tasks[1].sys_calls[64], 0);
    assert_eq!(add_system_call(&mut m, MAX_SYSCALL_NUM - 1), Ok(MAX_SYSCALL_NUM - 1));
    assert_eq!(current_sys_calls(&m)[MAX_SYSCALL_NUM - 1], 1);
}

#[test]
fn out_of_bound_system_call_is_refused() {
    let mut m = make_manager(1);
    let before = current_sys_calls(&m);
    let res = add_system_call(&mut m, MAX_SYSCALL_NUM + 1);
    assert_eq!(res, Err(String::from("The scall_id is out of bound!")));
    assert_eq!(current_sys_calls(&m), before);
}

#[test]
fn user_token_is_sv39_satp() {
    let m = make_manager(2);
    assert_eq!(current_user_token(&m), 0x8000_0000_0000_0100);
    assert_eq!(current_trap_cx(&m), 0x200);
}

#[test]
fn current_task_snapshot() {
    let mut m = make_manager(2);
    run_first_task(&mut m, 3);
    add_system_call(&mut m, 1).unwrap();
    let t = get_current_task(&m);
    assert_eq!(t.task_status, TaskStatus::Running);
    assert_eq!(t.heap_bottom, 0);
    assert_eq!(t.program_brk, 0x10000);
    assert!(t.has_runed);
    assert_eq!(t.start_time, 3);
    assert_eq!(t.sys_calls[1], 1);
    assert_eq!(t.task_cx.ra, 0);
    assert_eq!(t.memory_set.root_ppn, 0x100);
    assert_eq!(t.memory_set.areas, m.tasks[0].memory_set.areas);
}

#[test]
fn start_time_survives_later_operations() {
    let mut m = make_manager(2);
    run_first_task(&mut m, 11);
    add_system_call(&mut m, 3).unwrap();
    suspend_current_and_run_next(&mut m, 12);
    exit_current_and_run_next(&mut m, 13);
    assert_eq!(m.tasks[0].start_time, 11);
    assert_eq!(m.tasks[1].start_time, 12);
    assert!(m.tasks[0].has_runed && m.tasks[1].has_runed);
}

#[test]
fn only_the_current_task_runs() {
    let mut m = make_manager(4);
    run_first_task(&mut m, 0);
    let running = |m: &TaskManager| {
        m.tasks.iter().filter(|t| t.task_status == TaskStatus::Running).count()
    };
    assert_eq!(running(&m), 1);
    for step in 0..10usize {
        if step % 3 == 2 && other_task_ready(&m) {
            exit_current_and_run_next(&mut m, step);
        } else {
            suspend_current_and_run_next(&mut m, step);
        }
        assert_eq!(running(&m), 1);
        assert_eq!(m.tasks[m.current_task].task_status, TaskStatus::Running);
    }
}
