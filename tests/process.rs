use oskernel::abi::{TaskInfo as TaskInfoReply, TimeVal};
use oskernel::config::BIG_STRIDE;
use oskernel::fs::{LinkTable, OpenFlags, CREATE, RDWR, WRONLY};
use oskernel::info::TaskInfo;
use oskernel::process::{
    sys_exec, sys_exit, sys_fork, sys_get_time, sys_getpid, sys_mmap, sys_set_priority,
    sys_spawn, sys_task_info, sys_waitpid, sys_yield, syscall_entry,
};
use oskernel::task::{Kernel, TaskStatus};

fn kernel() -> Kernel {
    Kernel::new(&vec![0x13u8; 100]).unwrap()
}

fn byte_at(k: &Kernel, pid: usize, a: usize) -> Option<u8> {
    k.tasks[pid].as_ref().unwrap().memory_set.load_byte(a)
}

#[test]
fn getpid_reports_current() {
    let mut k = kernel();
    assert_eq!(sys_getpid(&k), 0);
    assert_eq!(sys_fork(&mut k), 1);
    assert_eq!(sys_getpid(&k), 0);
    assert_eq!(sys_yield(&mut k), 0);
    assert_eq!(sys_getpid(&k), 1);
}

#[test]
fn fork_sets_child_return_register() {
    let mut k = kernel();
    k.tasks[0].as_mut().unwrap().trap_cx.ret = 55;
    assert_eq!(sys_fork(&mut k), 1);
    let c = k.tasks[1].as_ref().unwrap();
    assert_eq!(c.trap_cx.ret, 0);
    assert_eq!(c.parent, Some(0));
    assert_eq!(c.status, TaskStatus::Ready);
    assert_eq!(k.tasks[0].as_ref().unwrap().children, vec![1]);
    assert_eq!(k.ready, vec![1]);
}

#[test]
fn waitpid_codes_and_reaping() {
    let mut k = kernel();
    assert_eq!(sys_mmap(&mut k, 0x1000, 0x1000, 0b011), 0);
    assert_eq!(sys_waitpid(&mut k, -1, 0x1000), -1);
    assert_eq!(sys_fork(&mut k), 1);
    assert_eq!(sys_waitpid(&mut k, -1, 0x1000), -2);
    assert_eq!(sys_waitpid(&mut k, 5, 0x1000), -1);
    assert_eq!(sys_waitpid(&mut k, 1, 0x1000), -2);
    sys_yield(&mut k);
    assert_eq!(k.current, Some(1));
    sys_exit(&mut k, 7);
    assert_eq!(k.current, Some(0));
    assert_eq!(k.tasks[1].as_ref().unwrap().status, TaskStatus::Zombie);
    assert_eq!(sys_waitpid(&mut k, -1, 0x1000), 1);
    assert_eq!(byte_at(&k, 0, 0x1000), Some(7));
    assert_eq!(byte_at(&k, 0, 0x1001), Some(0));
    assert!(k.tasks[1].is_none());
    assert_eq!(sys_waitpid(&mut k, -1, 0x1000), -1);
}

#[test]
fn waitpid_negative_exit_code_and_bad_pointer() {
    let mut k = kernel();
    assert_eq!(sys_fork(&mut k), 1);
    sys_yield(&mut k);
    sys_exit(&mut k, -2);
    assert_eq!(sys_waitpid(&mut k, 1, 0x1000), -1);
    assert!(k.tasks[1].is_some());
    assert_eq!(sys_mmap(&mut k, 0x1000, 0x1000, 0b011), 0);
    assert_eq!(sys_waitpid(&mut k, 1, 0x1000), 1);
    assert_eq!(byte_at(&k, 0, 0x1000), Some(0xfe));
    assert_eq!(byte_at(&k, 0, 0x1003), Some(0xff));
}

#[test]
fn exit_hands_children_to_init() {
    let mut k = kernel();
    assert_eq!(sys_fork(&mut k), 1);
    sys_yield(&mut k);
    assert_eq!(k.current, Some(1));
    assert_eq!(sys_fork(&mut k), 2);
    sys_exit(&mut k, 3);
    let init = k.tasks[0].as_ref().unwrap();
    assert_eq!(init.children, vec![1, 2]);
    assert_eq!(k.tasks[2].as_ref().unwrap().parent, Some(0));
    let z = k.tasks[1].as_ref().unwrap();
    assert_eq!(z.exit_code, 3);
    assert!(z.children.is_empty());
    assert!(z.memory_set.pages.is_empty());
}

#[test]
fn exit_of_last_task_leaves_nothing_running() {
    let mut k = kernel();
    sys_exit(&mut k, 0);
    assert_eq!(k.current, None);
    assert_eq!(k.tasks[0].as_ref().unwrap().status, TaskStatus::Zombie);
}

#[test]
fn set_priority_rejects_small_values() {
    let mut k = kernel();
    let before = k.tasks[0].as_ref().unwrap().pass;
    assert_eq!(sys_set_priority(&mut k, 1), -1);
    assert_eq!(sys_set_priority(&mut k, -5), -1);
    assert_eq!(k.tasks[0].as_ref().unwrap().pass, before);
    assert_eq!(k.tasks[0].as_ref().unwrap().stride, 0);
    assert_eq!(sys_set_priority(&mut k, 10), 10);
    assert_eq!(k.tasks[0].as_ref().unwrap().priority, 10);
    assert_eq!(k.tasks[0].as_ref().unwrap().pass, BIG_STRIDE / 10);
}

fn run_rounds(prios: &[isize], rounds: usize) -> Vec<usize> {
    let mut k = kernel();
    for _ in 1..prios.len() {
        sys_fork(&mut k);
    }
    for (pid, p) in prios.iter().enumerate() {
        let t = k.tasks[pid].as_mut().unwrap();
        t.priority = *p as u64;
        t.pass = BIG_STRIDE / (*p as u64);
    }
    let mut counts = vec![0usize; prios.len()];
    for _ in 0..rounds {
        sys_yield(&mut k);
        counts[k.current.unwrap()] += 1;
    }
    counts
}

#[test]
fn stride_two_to_one() {
    let counts = run_rounds(&[10, 5], 30);
    assert_eq!(counts[0] + counts[1], 30);
    assert!(counts[0] >= 19 && counts[0] <= 21, "{:?}", counts);
}

#[test]
fn stride_proportional_to_priority() {
    let prios = [2isize, 4, 8];
    let counts = run_rounds(&prios, 700);
    for (i, p) in prios.iter().enumerate() {
        let expected = 700 * (*p as usize) / 14;
        assert!(counts[i] + 3 >= expected && counts[i] <= expected + 3, "{:?}", counts);
    }
}

#[test]
fn spawn_builds_fresh_child() {
    let mut k = kernel();
    assert_eq!(sys_mmap(&mut k, 0x1000, 0x1000, 0b011), 0);
    let image: Vec<u8> = vec![0xaa; 5000];
    assert_eq!(sys_spawn(&mut k, Some(&image)), 1);
    let c = k.tasks[1].as_ref().unwrap();
    assert_eq!(c.parent, Some(0));
    assert_eq!(c.memory_set.load_byte(0x1000), None);
    assert_eq!(c.memory_set.load_byte(0x10000 + 4999), Some(0xaa));
    assert_eq!(k.ready, vec![1]);
    assert_eq!(sys_spawn(&mut k, None), -1);
    assert_eq!(sys_spawn(&mut k, Some(&Vec::new())), -1);
    assert_eq!(k.tasks.len(), 2);
}

#[test]
fn exec_replaces_address_space() {
    let mut k = kernel();
    assert_eq!(sys_mmap(&mut k, 0x1000, 0x1000, 0b011), 0);
    assert_eq!(sys_exec(&mut k, None), -1);
    assert_eq!(byte_at(&k, 0, 0x1000), Some(0));
    let image: Vec<u8> = vec![7u8; 10];
    assert_eq!(sys_exec(&mut k, Some(&image)), 0);
    assert_eq!(byte_at(&k, 0, 0x1000), None);
    assert_eq!(byte_at(&k, 0, 0x10009), Some(7));
    assert_eq!(sys_getpid(&k), 0);
}

#[test]
fn get_time_writes_timeval() {
    let mut k = kernel();
    assert_eq!(sys_get_time(&mut k, 0x1000, 0, 3_000_500), -1);
    assert_eq!(sys_mmap(&mut k, 0x1000, 0x1000, 0b011), 0);
    assert_eq!(sys_get_time(&mut k, 0x1000, 0, 3_000_500), 0);
    let expected = TimeVal { sec: 3, usec: 500 }.to_bytes();
    for i in 0..16 {
        assert_eq!(byte_at(&k, 0, 0x1000 + i), Some(expected[i]));
    }
    assert_eq!(byte_at(&k, 0, 0x1008), Some(0xf4));
    assert_eq!(byte_at(&k, 0, 0x1009), Some(0x01));
}

#[test]
fn task_info_reports_counters() {
    let mut k = kernel();
    assert_eq!(sys_mmap(&mut k, 0x1000, 0x1000, 0b011), 0);
    syscall_entry(&mut k, 169, 100);
    syscall_entry(&mut k, 169, 130);
    syscall_entry(&mut k, 410, 150);
    assert_eq!(sys_task_info(&mut k, 0x1000), 0);
    let mut times = vec![0u32; 500];
    times[169] = 2;
    times[410] = 1;
    let expected = TaskInfoReply { status: TaskStatus::Running, syscall_times: times, time: 50 }.to_bytes();
    assert_eq!(expected.len(), 2016);
    for i in 0..expected.len() {
        assert_eq!(byte_at(&k, 0, 0x1000 + i), Some(expected[i]));
    }
    assert_eq!(byte_at(&k, 0, 0x1000), Some(1));
    assert_eq!(byte_at(&k, 0, 0x1000 + 4 + 169 * 4), Some(2));
    assert_eq!(byte_at(&k, 0, 0x1000 + 2008), Some(50));
}

#[test]
fn task_info_syscalled_tracks_time() {
    let mut info = TaskInfo::init();
    assert_eq!(info.syscall_times.len(), 500);
    info.syscalled(64, 1000);
    assert_eq!(info.first_time, Some(1000));
    assert_eq!(info.time, 0);
    info.syscalled(64, 1250);
    assert_eq!(info.syscall_times[64], 2);
    assert_eq!(info.time, 250);
}

#[test]
fn open_flags_read_write() {
    assert_eq!(OpenFlags { bits: 0 }.read_write(), (true, false));
    assert_eq!(OpenFlags { bits: WRONLY }.read_write(), (false, true));
    assert_eq!(OpenFlags { bits: RDWR }.read_write(), (true, true));
    assert_eq!(OpenFlags { bits: RDWR | CREATE }.read_write(), (true, true));
}

#[test]
fn link_table_counts() {
    let mut t = LinkTable::new();
    assert_eq!(t.link_count(4), 1);
    t.link(4);
    assert_eq!(t.link_count(4), 2);
    t.link(4);
    assert_eq!(t.link_count(4), 3);
    assert!(t.unlink(4));
    assert!(t.unlink(4));
    assert_eq!(t.link_count(4), 1);
    assert!(t.entries.is_empty());
    assert!(!t.unlink(4));
}
