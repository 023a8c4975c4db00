//! The process and memory system calls. Each acts on behalf of the current
//! task and returns a signed result: a value, or a negative error code.
use vstd::prelude::*;

use crate::abi;
use crate::abi::{counters_bytes, le_bytes, TimeVal};
use crate::config::{APP_BASE, BIG_STRIDE, DEFAULT_PRIORITY, INITPROC_PID, MAX_SYSCALL_NUM, MIN_PRIORITY,
    PAGE_SIZE};
use crate::info::TaskInfo;
use crate::mm::{
    data_perm, data_perm_exec, image_fits, image_layout, mmap_result, munmap_result, page_ceil, range_free, stored,
    user_stack_top, user_writable, with_range, without_range, MemorySet, PageView,
};
use crate::task::{
    lemma_replace_task, live, task, task_view, Kernel, KernelView, TaskControlBlock, TaskStatus, TaskView,
    TrapContext,
};

verus! {

impl KernelView {
    /// The current task, abstractly.
    pub open spec fn cur(self) -> TaskView {
        self.task(self.current.unwrap() as int)
    }

    /// This state with the current task replaced by `t`.
    pub open spec fn with_cur(self, t: TaskView) -> KernelView {
        KernelView { tasks: self.tasks.update(self.current.unwrap() as int, Some(t)), ..self }
    }

    /// The current task takes priority `p`; its pass becomes `BIG_STRIDE / p`.
    pub open spec fn set_priority(self, p: u64) -> KernelView {
        self.with_cur(TaskView { priority: p, pass: (BIG_STRIDE / p) as u64, ..self.cur() })
    }

    /// The task that `fork` creates from task `t`: same pages, registers and
    /// heap, 0 in its return register, fresh scheduling and accounting.
    pub open spec fn forked(t: TaskView, parent: usize) -> TaskView {
        TaskView {
            status: TaskStatus::Ready,
            parent: Some(parent),
            children: Seq::empty(),
            trap_cx: TrapContext { ret: 0, ..t.trap_cx },
            memory: t.memory,
            exit_code: 0,
            priority: DEFAULT_PRIORITY,
            pass: (BIG_STRIDE / DEFAULT_PRIORITY) as u64,
            stride: 0,
            syscall_times: Seq::new(MAX_SYSCALL_NUM as nat, |i: int| 0u32),
            time: 0,
            first_time: None,
            heap_bottom: t.heap_bottom,
            program_brk: t.program_brk,
        }
    }

    /// The state after task `t` joins as a child of the current task: it
    /// takes the next pid, is listed last among the current task's children
    /// and joins the back of the ready queue.
    pub open spec fn add_child(self, t: TaskView) -> KernelView {
        let c = self.current.unwrap();
        let n = self.tasks.len();
        let parent = TaskView { children: self.cur().children.push(n as usize), ..self.cur() };
        KernelView {
            tasks: self.tasks.update(c as int, Some(parent)).push(Some(t)),
            ready: self.ready.push(n as usize),
            current: self.current,
        }
    }

    /// The state after the current task forks.
    pub open spec fn fork(self) -> KernelView {
        self.add_child(KernelView::forked(self.cur(), self.current.unwrap()))
    }
}

/// Records in the kernel state that task `p`, taken out and changed into `t`
/// without touching its status, parent or children, is back in its slot.
pub proof fn lemma_put_back(k0: Kernel, k1: Kernel, p: int, t: TaskControlBlock)
    requires
        k0.wf(),
        k0@.live(p),
        k1.tasks@ == k0.tasks@.update(p, Some(t)),
        k1.ready == k0.ready,
        k1.current == k0.current,
        t.wf(),
        t.status == k0.tasks@[p]->Some_0.status,
        t.parent == k0.tasks@[p]->Some_0.parent,
        t.children@ == k0.tasks@[p]->Some_0.children@,
    ensures
        k1.wf(),
        k1@ == (KernelView { tasks: k0@.tasks.update(p, Some(t@)), ..k0@ }),
{
    assert(k1@.tasks =~= k0@.tasks.update(p, Some(t@)));
    lemma_replace_task(k0@, p, t@);
    assert forall|q: int|
        0 <= q < k1.tasks@.len() && #[trigger] k1.tasks@[q] is Some implies k1.tasks@[q]->Some_0.wf() by {
        if q != p {
            assert(k1.tasks@[q] == k0.tasks@[q]);
        }
    }
}

/// The current task's pid.
pub fn sys_getpid(k: &Kernel) -> (r: isize)
    requires
        k.wf(),
        k.current is Some,
    ensures
        r == k.current.unwrap() as isize,
{
    match k.current {
        Some(c) => c as isize,
        None => -1,
    }
}

/// The current task gives up the CPU: it goes to the back of the ready
/// queue and the scheduler picks the next task. Returns 0.
pub fn sys_yield(k: &mut Kernel) -> (r: isize)
    requires
        old(k).wf(),
        old(k).current is Some,
    ensures
        r == 0,
        final(k).wf(),
        final(k)@ == old(k)@.suspend().schedule(),
{
    k.suspend_current();
    k.run_next();
    0
}

/// Sets the current task's priority. Below 2 it is refused with -1 and
/// nothing changes; otherwise the pass is recomputed and `prio` returned.
pub fn sys_set_priority(k: &mut Kernel, prio: isize) -> (r: isize)
    requires
        old(k).wf(),
        old(k).current is Some,
    ensures
        final(k).wf(),
        prio < 2 ==> r == -1 && final(k)@ == old(k)@,
        prio >= 2 ==> r == prio && final(k)@ == old(k)@.set_priority(prio as u64),
{
    if prio < MIN_PRIORITY {
        return -1;
    }
    let ghost k0 = *k;
    let c = match k.current {
        Some(c) => c,
        None => 0,
    };
    assert(live(k@.tasks, c as int));
    let mut t = k.take_task(c);
    t.priority = prio as u64;
    t.pass = BIG_STRIDE / (prio as u64);
    k.put_task(c, t);
    proof {
        assert(k.tasks@ =~= k0.tasks@.update(c as int, Some(t)));
        lemma_put_back(k0, *k, c as int, t);
        assert(k@ =~= k0@.set_priority(prio as u64));
    }
    prio
}

/// Maps `[start, start + len)` into the current task's address space with
/// protection `prot` (read 1, write 2, execute 4), as `mmap_result` states:
/// 0 on success, -1 with nothing changed otherwise.
pub fn sys_mmap(k: &mut Kernel, start: usize, len: usize, prot: usize) -> (r: isize)
    requires
        old(k).wf(),
        old(k).current is Some,
    ensures
        final(k).wf(),
        r == mmap_result(old(k)@.cur().memory, start as int, len as int, prot).0,
        final(k)@ == old(k)@.with_cur(
            TaskView {
                memory: mmap_result(old(k)@.cur().memory, start as int, len as int, prot).1,
                ..old(k)@.cur()
            },
        ),
{
    let ghost k0 = *k;
    let c = match k.current {
        Some(c) => c,
        None => 0,
    };
    assert(live(k@.tasks, c as int));
    let mut t = k.take_task(c);
    let r = t.memory_set.mmap(start, len, prot);
    k.put_task(c, t);
    proof {
        assert(k.tasks@ =~= k0.tasks@.update(c as int, Some(t)));
        lemma_put_back(k0, *k, c as int, t);
    }
    r
}

/// Unmaps `[start, start + len)` from the current task's address space, as
/// `munmap_result` states: 0 on success, -1 with nothing changed otherwise.
pub fn sys_munmap(k: &mut Kernel, start: usize, len: usize) -> (r: isize)
    requires
        old(k).wf(),
        old(k).current is Some,
    ensures
        final(k).wf(),
        r == munmap_result(old(k)@.cur().memory, start as int, len as int).0,
        final(k)@ == old(k)@.with_cur(
            TaskView {
                memory: munmap_result(old(k)@.cur().memory, start as int, len as int).1,
                ..old(k)@.cur()
            },
        ),
{
    let ghost k0 = *k;
    let c = match k.current {
        Some(c) => c,
        None => 0,
    };
    assert(live(k@.tasks, c as int));
    let mut t = k.take_task(c);
    let r = t.memory_set.munmap(start, len);
    k.put_task(c, t);
    proof {
        assert(k.tasks@ =~= k0.tasks@.update(c as int, Some(t)));
        lemma_put_back(k0, *k, c as int, t);
    }
    r
}

/// Adds `child` to the process table under the next pid, as the last child
/// of the current task and at the back of the ready queue.
fn add_child(k: &mut Kernel, child: TaskControlBlock) -> (n: usize)
    requires
        old(k).wf(),
        old(k).current is Some,
        child.wf(),
        child.status == TaskStatus::Ready,
        child.parent == old(k).current,
        child.children@ == Seq::<usize>::empty(),
    ensures
        final(k).wf(),
        n == old(k)@.tasks.len(),
        final(k)@ == old(k)@.add_child(child@),
{
    let ghost k0 = *k;
    let ghost v = k@;
    let c = match k.current {
        Some(c) => c,
        None => 0,
    };
    assert(live(v.tasks, c as int));
    let mut parent = k.take_task(c);
    let n = k.tasks.len();
    parent.children.push(n);
    k.put_task(c, parent);
    k.tasks.push(Some(child));
    k.ready.push(n);
    proof {
        let w = v.add_child(child@);
        assert(k@.tasks =~= w.tasks);
        assert(k@.ready =~= w.ready);
        assert(w.tasks[n as int] == Some(child@));
        assert(k@ == w);
        let ts = w.tasks;
        assert forall|q: int| #[trigger] live(v.tasks, q) implies live(ts, q) && q < n && (q != c ==> task(ts, q)
            == task(v.tasks, q)) by {}
        assert forall|q: int, j: int|
            live(ts, q) && 0 <= j < task(ts, q).children.len() implies live(
            ts,
            #[trigger] task(ts, q).children[j] as int,
        ) && task(ts, task(ts, q).children[j] as int).parent == Some(q as usize)
            && task(ts, q).children[j] as int != q by {
            if q == c as int {
                if j < task(v.tasks, q).children.len() {
                    assert(task(ts, q).children[j] == task(v.tasks, q).children[j]);
                }
            } else if q < n {
                assert(live(v.tasks, q));
            }
            if q < n && j < task(v.tasks, q).children.len() && task(ts, q).children[j] == task(v.tasks, q).children[j] {
                assert(live(v.tasks, task(v.tasks, q).children[j] as int));
            }
        }
        assert forall|q: int, a: int, b: int|
            live(ts, q) && 0 <= a < b < task(ts, q).children.len() implies #[trigger] task(
            ts,
            q,
        ).children[a] != #[trigger] task(ts, q).children[b] by {
            if q == c as int {
                if b < task(v.tasks, q).children.len() {
                    assert(task(v.tasks, q).children[a] != task(v.tasks, q).children[b]);
                } else {
                    assert(task(ts, q).children[a] == task(v.tasks, q).children[a]);
                    assert(live(v.tasks, task(v.tasks, q).children[a] as int));
                }
            } else if q < n {
                assert(live(v.tasks, q));
                assert(task(v.tasks, q).children[a] != task(v.tasks, q).children[b]);
            }
        }
        assert forall|j: int| 0 <= j < w.ready.len() implies live(ts, #[trigger] w.ready[j] as int) && task(
            ts,
            w.ready[j] as int,
        ).status == TaskStatus::Ready by {
            if j < v.ready.len() {
                assert(live(v.tasks, v.ready[j] as int));
            }
        }
        assert forall|a: int, b: int| 0 <= a < b < w.ready.len() implies #[trigger] w.ready[a]
            != #[trigger] w.ready[b] by {
            if b == v.ready.len() {
                assert(live(v.tasks, v.ready[a] as int));
            }
        }
        assert forall|q: int|
            0 <= q < k.tasks@.len() && #[trigger] k.tasks@[q] is Some implies k.tasks@[q]->Some_0.wf() by {
            if q != c && q < n {
                assert(k.tasks@[q] == k0.tasks@[q]);
            }
        }
    }
    n
}

/// Forks the current task, as `KernelView::fork` states, and returns the
/// child's pid. The child sees 0 in its return register.
pub fn sys_fork(k: &mut Kernel) -> (r: isize)
    requires
        old(k).wf(),
        old(k).current is Some,
    ensures
        final(k).wf(),
        r == old(k)@.tasks.len() as isize,
        final(k)@ == old(k)@.fork(),
{
    let c = match k.current {
        Some(c) => c,
        None => 0,
    };
    assert(live(k@.tasks, c as int));
    assert(k@.tasks[c as int] == task_view(k.tasks@[c as int]));
    let child = match &k.tasks[c] {
        Some(parent) => TaskControlBlock {
            status: TaskStatus::Ready,
            parent: Some(c),
            children: Vec::new(),
            trap_cx: TrapContext { ret: 0, pc: parent.trap_cx.pc, sp: parent.trap_cx.sp },
            memory_set: parent.memory_set.duplicate(),
            exit_code: 0,
            priority: DEFAULT_PRIORITY,
            pass: BIG_STRIDE / DEFAULT_PRIORITY,
            stride: 0,
            info: TaskInfo::init(),
            heap_bottom: parent.heap_bottom,
            program_brk: parent.program_brk,
        },
        None => {
            return -1;
        },
    };
    assert(child@.syscall_times =~= Seq::new(MAX_SYSCALL_NUM as nat, |i: int| 0u32));
    assert(child@.children =~= Seq::<usize>::empty());
    assert(child@ == KernelView::forked(k@.cur(), c));
    let n = add_child(k, child);
    n as isize
}


/// Whether child `c` is what `waitpid(pid, ..)` asks for: any child for -1,
/// else the child with that pid.
pub open spec fn pid_matches(pid: isize, c: usize) -> bool {
    pid == -1 || pid as int == c as int
}

/// The four little-endian bytes of `x`.
pub open spec fn i32_le_bytes(x: i32) -> Seq<u8> {
    let u = x as u32;
    seq![(u % 256) as u8, ((u / 256) % 256) as u8, ((u / 65536) % 256) as u8, (u / 16777216) as u8]
}

fn i32_to_le_bytes(x: i32) -> (r: Vec<u8>)
    ensures
        r@ == i32_le_bytes(x),
{
    let u = x as u32;
    let mut r: Vec<u8> = Vec::new();
    r.push((u % 256) as u8);
    r.push(((u / 256) % 256) as u8);
    r.push(((u / 65536) % 256) as u8);
    r.push((u / 16777216) as u8);
    assert(r@ =~= i32_le_bytes(x));
    r
}

impl KernelView {
    /// Some child of the current task matches `pid`.
    pub open spec fn has_match(self, pid: isize) -> bool {
        exists|j: int|
            0 <= j < self.cur().children.len() && pid_matches(pid, #[trigger] self.cur().children[j])
    }

    /// The current task's child at position `j` matches `pid` and has exited.
    pub open spec fn zombie_at(self, pid: isize, j: int) -> bool {
        &&& 0 <= j < self.cur().children.len()
        &&& pid_matches(pid, self.cur().children[j])
        &&& self.task(self.cur().children[j] as int).status == TaskStatus::Zombie
    }

    /// `j` is the first position of a matching child that has exited.
    pub open spec fn first_zombie(self, pid: isize, j: int) -> bool {
        self.zombie_at(pid, j) && forall|i: int| 0 <= i < j ==> !#[trigger] self.zombie_at(pid, i)
    }

    /// The state after the current task reaps its child at position `j`,
    /// its pages then being `m`: the child leaves the children list and the
    /// process table.
    pub open spec fn reap(self, j: int, m: Map<int, PageView>) -> KernelView {
        let c = self.cur().children[j];
        KernelView {
            tasks: self.tasks.update(c as int, None).update(
                self.current.unwrap() as int,
                Some(TaskView { children: self.cur().children.remove(j), memory: m, ..self.cur() }),
            ),
            ..self
        }
    }
}

/// Position of the first child matching `pid` that has exited, and whether
/// any child matches at all.
fn find_zombie_child(k: &Kernel, pid: isize) -> (r: (bool, Option<usize>))
    requires
        k.wf(),
        k.current is Some,
    ensures
        r.0 == k@.has_match(pid),
        match r.1 {
            Some(j) => k@.first_zombie(pid, j as int),
            None => forall|j: int| !#[trigger] k@.zombie_at(pid, j),
        },
{
    let c = match k.current {
        Some(c) => c,
        None => 0,
    };
    assert(live(k@.tasks, c as int));
    let t = match &k.tasks[c] {
        Some(t) => t,
        None => {
            return (false, None);
        },
    };
    let mut any = false;
    let mut j: usize = 0;
    assert(k@.cur().children == t.children@);
    while j < t.children.len()
        invariant
            k.wf(),
            k@.cur().children == t.children@,
            k.tasks@[c as int] == Some(*t),
            live(k@.tasks, c as int),
            k.current == Some(c),
            j <= t.children@.len(),
            any == exists|i: int| 0 <= i < j && pid_matches(pid, #[trigger] t.children@[i]),
            forall|i: int| 0 <= i < j ==> !#[trigger] k@.zombie_at(pid, i),
        decreases t.children@.len() - j,
    {
        let ch = t.children[j];
        if pid == -1 || (pid >= 0 && pid as usize == ch) {
            any = true;
            assert(pid_matches(pid, t.children@[j as int]));
            assert(task(k@.tasks, c as int).children[j as int] == ch);
            assert(live(k@.tasks, ch as int));
            match &k.tasks[ch] {
                Some(ct) => {
                    if ct.status == TaskStatus::Zombie {
                        return (true, Some(j));
                    }
                },
                None => {},
            }
        } else {
            assert(!pid_matches(pid, t.children@[j as int]));
        }
        j += 1;
    }
    assert forall|i: int| !#[trigger] k@.zombie_at(pid, i) by {
        if 0 <= i < j {
        }
    }
    (any, None)
}

/// Reaps an exited child of the current task. `pid` -1 asks for any child,
/// another value for that pid. Returns -1 when no child matches, -2 when
/// matching children exist but none has exited (try again later). Otherwise
/// the first such child in the children list leaves the process table, its
/// exit code is written as four little-endian bytes at user address
/// `exit_code_ptr`, and its pid is returned; if those four bytes are not
/// user-writable, -1 is returned and the child stays.
pub fn sys_waitpid(k: &mut Kernel, pid: isize, exit_code_ptr: usize) -> (r: isize)
    requires
        old(k).wf(),
        old(k).current is Some,
    ensures
        final(k).wf(),
        !old(k)@.has_match(pid) ==> r == -1 && final(k)@ == old(k)@,
        old(k)@.has_match(pid) && (forall|j: int| !#[trigger] old(k)@.zombie_at(pid, j)) ==> r == -2
            && final(k)@ == old(k)@,
        forall|j: int| #[trigger]
            old(k)@.first_zombie(pid, j) ==> {
                let child = old(k)@.cur().children[j];
                let code = old(k)@.task(child as int).exit_code;
                if exit_code_ptr + 4 <= usize::MAX && forall|i: int|
                    0 <= i < 4 ==> #[trigger] user_writable(old(k)@.cur().memory, exit_code_ptr + i) {
                    &&& r == child as isize
                    &&& stored(
                        old(k)@.cur().memory,
                        final(k)@.cur().memory,
                        exit_code_ptr as int,
                        i32_le_bytes(code),
                    )
                    &&& final(k)@ == old(k)@.reap(j, final(k)@.cur().memory)
                } else {
                    r == -1 && final(k)@ == old(k)@
                }
            },
{
    let ghost k0 = *k;
    let ghost v = k@;
    let (any, found) = find_zombie_child(k, pid);
    if !any {
        return -1;
    }
    let j = match found {
        Some(j) => j,
        None => {
            return -2;
        },
    };
    let c = match k.current {
        Some(c) => c,
        None => 0,
    };
    assert(live(v.tasks, c as int));
    if exit_code_ptr > usize::MAX - 4 {
        return -1;
    }
    let ok = match &k.tasks[c] {
        Some(t) => t.memory_set.is_user_writable(exit_code_ptr, 4),
        None => false,
    };
    if !ok {
        return -1;
    }
    let mut t = k.take_task(c);
    let child = t.children.remove(j);
    assert(child == v.cur().children[j as int]);
    assert(live(v.tasks, child as int));
    let ct = k.take_task(child);
    let bytes = i32_to_le_bytes(ct.exit_code);
    let wrote = t.memory_set.copy_to_user(exit_code_ptr, &bytes);
    k.put_task(c, t);
    proof {
        let w = v.reap(j as int, t.memory_set@);
        assert(k@.tasks =~= w.tasks);
        assert(k@ == w);
        assert(w.cur().memory == t.memory_set@);
        let ts = w.tasks;
        let ch0 = v.cur().children;
        assert(task(v.tasks, child as int).parent == Some(c));
        assert forall|q: int| #[trigger] live(ts, q) implies live(v.tasks, q) && q != child && (q != c ==> task(ts, q)
            == task(v.tasks, q)) by {}
        assert forall|q: int, i: int|
            live(ts, q) && 0 <= i < task(ts, q).children.len() implies live(
            ts,
            #[trigger] task(ts, q).children[i] as int,
        ) && task(ts, task(ts, q).children[i] as int).parent == Some(q as usize)
            && task(ts, q).children[i] as int != q by {
            let i0 = if q == c as int && i >= j { i + 1 } else { i };
            assert(task(ts, q).children[i] == task(v.tasks, q).children[i0]);
            let x = task(v.tasks, q).children[i0];
            assert(live(v.tasks, x as int));
            assert(task(v.tasks, x as int).parent == Some(q as usize));
            assert(x as int != q);
            if x == child {
                if q == c as int {
                    assert(i0 != j);
                    assert(task(v.tasks, c as int).children[j as int] == child);
                    if i0 < j {
                        assert(task(v.tasks, q).children[i0] != task(v.tasks, q).children[j as int]);
                    } else {
                        assert(task(v.tasks, q).children[j as int] != task(v.tasks, q).children[i0]);
                    }
                    assert(false);
                } else {
                    assert(task(v.tasks, child as int).parent == Some(c));
                    assert(task(v.tasks, child as int).parent == Some(q as usize));
                    assert(v.tasks.len() == k0.tasks.len());
                    assert(q as usize == c);
                    assert(false);
                }
            }
            assert(x != child);
            assert(live(ts, x as int));
            assert(task(ts, x as int).parent == task(v.tasks, x as int).parent);
        }
        assert forall|q: int, a: int, b: int|
            live(ts, q) && 0 <= a < b < task(ts, q).children.len() implies #[trigger] task(
            ts,
            q,
        ).children[a] != #[trigger] task(ts, q).children[b] by {
            let a0 = if q == c as int && a >= j { a + 1 } else { a };
            let b0 = if q == c as int && b >= j { b + 1 } else { b };
            assert(task(ts, q).children[a] == task(v.tasks, q).children[a0]);
            assert(task(ts, q).children[b] == task(v.tasks, q).children[b0]);
            assert(task(v.tasks, q).children[a0] != task(v.tasks, q).children[b0]);
        }
        assert forall|i: int| 0 <= i < w.ready.len() implies live(ts, #[trigger] w.ready[i] as int) && task(
            ts,
            w.ready[i] as int,
        ).status == TaskStatus::Ready by {
            assert(live(v.tasks, v.ready[i] as int));
        }
        assert forall|q: int|
            0 <= q < k.tasks@.len() && #[trigger] k.tasks@[q] is Some implies k.tasks@[q]->Some_0.wf() by {
            if q != c {
                assert(k.tasks@[q] == k0.tasks@[q]);
            }
        }
        assert forall|jj: int| #[trigger] v.first_zombie(pid, jj) implies jj == j by {
            if jj < j {
                assert(!v.zombie_at(pid, jj));
            } else if jj > j {
                assert(!v.zombie_at(pid, j as int));
            }
        }
    }
    child as isize
}

impl KernelView {
    /// Who adopts the children of the exiting current task: the first
    /// process, if it is alive, is not the one exiting and is not among its
    /// children. Otherwise they are left without a parent.
    pub open spec fn adopter(self) -> Option<usize> {
        if self.live(INITPROC_PID as int) && self.current != Some(INITPROC_PID)
            && !self.cur().children.contains(INITPROC_PID) {
            Some(INITPROC_PID)
        } else {
            None
        }
    }

    /// The state after the current task exits with `code`: it becomes a
    /// zombie holding `code`, its pages are released, its children pass to
    /// the adopter (appended to its children, in order), and nothing runs.
    pub open spec fn exit_current(self, code: i32) -> KernelView {
        let c = self.current.unwrap();
        let ch = self.cur().children;
        let np = self.adopter();
        KernelView {
            tasks: Seq::new(
                self.tasks.len(),
                |i: int|
                    if i == c as int {
                        Some(
                            TaskView {
                                status: TaskStatus::Zombie,
                                exit_code: code,
                                children: Seq::empty(),
                                memory: Map::empty(),
                                ..self.cur()
                            },
                        )
                    } else if np == Some(i as usize) {
                        Some(TaskView { children: self.task(i).children + ch, ..self.task(i) })
                    } else if self.live(i) && ch.contains(i as usize) {
                        Some(TaskView { parent: np, ..self.task(i) })
                    } else {
                        self.tasks[i]
                    },
            ),
            ready: self.ready,
            current: None,
        }
    }
}

/// Exiting keeps the process tree, the ready queue and the current task
/// well formed.
pub proof fn lemma_exit_wf(v: KernelView, code: i32)
    requires
        v.wf(),
        v.current is Some,
        v.tasks.len() <= usize::MAX,
    ensures
        v.exit_current(code).wf(),
{
    let w = v.exit_current(code);
    let ts = w.tasks;
    let c = v.current.unwrap();
    let ch = v.cur().children;
    let np = v.adopter();
    assert(live(v.tasks, c as int));
    assert forall|q: int| #[trigger] live(ts, q) == live(v.tasks, q) by {
        if 0 <= q < ts.len() && q != c as int && np == Some(q as usize) {
            assert(q == INITPROC_PID as int);
            assert(v.live(INITPROC_PID as int));
        }
    }
    assert forall|x: int| #[trigger] live(v.tasks, x) && ch.contains(x as usize) implies task(v.tasks, x).parent
        == Some(c) && x != c as int by {
        let j = choose|j: int| 0 <= j < ch.len() && #[trigger] ch[j] == x as usize;
        assert(task(v.tasks, c as int).children[j] == ch[j]);
        assert(live(v.tasks, ch[j] as int));
        assert(x == ch[j] as int);
    }
    assert forall|q: int, i: int|
        live(ts, q) && 0 <= i < task(ts, q).children.len() implies live(
        ts,
        #[trigger] task(ts, q).children[i] as int,
    ) && task(ts, task(ts, q).children[i] as int).parent == Some(q as usize)
        && task(ts, q).children[i] as int != q by {
        let x = task(ts, q).children[i];
        if q != c as int {
            let old_ch = task(v.tasks, q).children;
            if np == Some(q as usize) && i >= old_ch.len() {
                let j = i - old_ch.len();
                assert(x == ch[j]);
                assert(task(v.tasks, c as int).children[j] == ch[j]);
                assert(live(v.tasks, x as int));
                assert(ch.contains(x));
                assert(x as int != c as int);
                assert(x as int != q);
            } else {
                assert(x == old_ch[i]);
                assert(task(v.tasks, q).children[i] == x);
                assert(live(v.tasks, x as int));
                assert(task(v.tasks, x as int).parent == Some(q as usize));
                if ch.contains(x) {
                    assert(task(v.tasks, x as int).parent == Some(c));
                    assert(v.tasks.len() <= usize::MAX);
                    assert(false);
                }
                if np == Some(x) {
                    assert(x as int != q);
                }
            }
        }
    }
    assert forall|q: int, a: int, b: int|
        live(ts, q) && 0 <= a < b < task(ts, q).children.len() implies #[trigger] task(
        ts,
        q,
    ).children[a] != #[trigger] task(ts, q).children[b] by {
        if q != c as int {
            let old_ch = task(v.tasks, q).children;
            if np == Some(q as usize) && b >= old_ch.len() {
                if a >= old_ch.len() {
                    assert(task(v.tasks, c as int).children[a - old_ch.len()] != task(
                        v.tasks,
                        c as int,
                    ).children[b - old_ch.len()]);
                } else {
                    let x = old_ch[a];
                    assert(task(v.tasks, q).children[a] == x);
                    assert(task(v.tasks, x as int).parent == Some(q as usize));
                    let y = ch[b - old_ch.len()];
                    assert(task(v.tasks, c as int).children[b - old_ch.len()] == y);
                    assert(task(v.tasks, y as int).parent == Some(c));
                    assert(v.tasks.len() <= usize::MAX);
                }
            } else {
                assert(task(v.tasks, q).children[a] != task(v.tasks, q).children[b]);
            }
        }
    }
    assert forall|k: int| 0 <= k < w.ready.len() implies live(ts, #[trigger] w.ready[k] as int) && task(
        ts,
        w.ready[k] as int,
    ).status == TaskStatus::Ready by {
        assert(live(v.tasks, v.ready[k] as int));
    }
}

fn vec_contains(v: &Vec<usize>, x: usize) -> (r: bool)
    ensures
        r == v@.contains(x),
{
    let mut i: usize = 0;
    while i < v.len()
        invariant
            i <= v@.len(),
            forall|j: int| 0 <= j < i ==> v@[j] != x,
        decreases v@.len() - i,
    {
        if v[i] == x {
            return true;
        }
        i += 1;
    }
    false
}

/// The process table part-way through an exit: the exiting task is the
/// zombie `zt`, and the children in `done` have been handed to `np`.
pub open spec fn exit_partial(v: KernelView, zt: TaskView, np: Option<usize>, done: Seq<usize>) -> Seq<
    Option<TaskView>,
> {
    Seq::new(
        v.tasks.len(),
        |x: int|
            if x == v.current.unwrap() as int {
                Some(zt)
            } else if live(v.tasks, x) && done.contains(x as usize) {
                Some(TaskView { parent: np, ..task(v.tasks, x) })
            } else {
                v.tasks[x]
            },
    )
}

/// The current task exits with `exit_code`, as `KernelView::exit_current`
/// states, and the scheduler picks the next task.
pub fn sys_exit(k: &mut Kernel, exit_code: i32)
    requires
        old(k).wf(),
        old(k).current is Some,
    ensures
        final(k).wf(),
        final(k)@ == old(k)@.exit_current(exit_code).schedule(),
{
    let ghost v = k@;
    let ghost k0 = *k;
    let c = match k.current {
        Some(c) => c,
        None => 0,
    };
    assert(live(v.tasks, c as int));
    let mut t = k.take_task(c);
    let mut ch: Vec<usize> = Vec::new();
    core::mem::swap(&mut ch, &mut t.children);
    t.status = TaskStatus::Zombie;
    t.exit_code = exit_code;
    t.memory_set = MemorySet::new_bare();
    k.put_task(c, t);
    let adopt = INITPROC_PID < k.tasks.len() && k.tasks[INITPROC_PID].is_some() && INITPROC_PID != c
        && !vec_contains(&ch, INITPROC_PID);
    let np = if adopt {
        Some(INITPROC_PID)
    } else {
        None
    };
    assert(np == v.adopter());
    let ghost zt = TaskView {
        status: TaskStatus::Zombie,
        exit_code: exit_code,
        children: Seq::empty(),
        memory: Map::empty(),
        ..v.cur()
    };
    assert(t@ =~= zt);
    let mut i: usize = 0;
    assert(v.tasks.len() == k0.tasks.len());
    while i < ch.len()
        invariant
            v.wf(),
            v.tasks.len() <= usize::MAX,
            v.current == Some(c),
            live(v.tasks, c as int),
            ch@ == v.cur().children,
            np == v.adopter(),
            i <= ch@.len(),
            k.ready == k0.ready,
            k.tasks@.len() == v.tasks.len(),
            k@.tasks == exit_partial(v, zt, np, ch@.subrange(0, i as int)),
            forall|p: int|
                0 <= p < k.tasks@.len() && #[trigger] k.tasks@[p] is Some ==> k.tasks@[p]->Some_0.wf(),
        decreases ch@.len() - i,
    {
        let q = ch[i];
        assert(task(v.tasks, c as int).children[i as int] == q);
        assert(live(v.tasks, q as int));
        assert(q as int != c as int);
        assert(!ch@.subrange(0, i as int).contains(q)) by {
            if ch@.subrange(0, i as int).contains(q) {
                let j = choose|j: int| 0 <= j < i && #[trigger] ch@.subrange(0, i as int)[j] == q;
                assert(task(v.tasks, c as int).children[j] != task(v.tasks, c as int).children[i as int]);
            }
        }
        assert(k@.tasks[q as int] == Some(task(v.tasks, q as int)));
        assert(k@.tasks[q as int] == task_view(k.tasks@[q as int]));
        assert(k.tasks@[q as int] is Some);
        let ghost kb = *k;
        let ghost pre = ch@.subrange(0, i as int);
        let mut qt = k.take_task(q);
        qt.parent = np;
        k.put_task(q, qt);
        i += 1;
        proof {
            let post = ch@.subrange(0, i as int);
            assert(kb@.tasks[q as int] == v.tasks[q as int]);
            assert(qt@ == TaskView { parent: np, ..task(v.tasks, q as int) });
            assert(k@.tasks =~= kb@.tasks.update(q as int, Some(qt@)));
            assert forall|x: int| 0 <= x < v.tasks.len() implies #[trigger] k@.tasks[x] == exit_partial(
                v,
                zt,
                np,
                post,
            )[x] by {
                if x != q as int {
                    if post.contains(x as usize) {
                        let j = choose|j: int| 0 <= j < post.len() && #[trigger] post[j] == x as usize;
                        if j < pre.len() {
                            assert(pre[j] == x as usize);
                        }
                    }
                    if pre.contains(x as usize) {
                        let j = choose|j: int| 0 <= j < pre.len() && #[trigger] pre[j] == x as usize;
                        assert(post[j] == x as usize);
                    }
                } else {
                    assert(post[post.len() - 1] == q);
                }
            }
            assert(k@.tasks =~= exit_partial(v, zt, np, post));
            assert forall|p: int|
                0 <= p < k.tasks@.len() && #[trigger] k.tasks@[p] is Some implies k.tasks@[p]->Some_0.wf() by {
                if p != q {
                    assert(k.tasks@[p] == kb.tasks@[p]);
                }
            }
        }
    }
    assert(ch@.subrange(0, i as int) =~= ch@);
    assert(k@.tasks == exit_partial(v, zt, np, ch@));
    let ghost mid = k@.tasks;
    if adopt {
        assert(v.live(0));
        assert(!ch@.contains(0usize));
        assert(k@.tasks[0] == v.tasks[0]);
        assert(k@.tasks[0] == task_view(k.tasks@[0]));
        assert(k.tasks@[0] is Some);
        let ghost kb = *k;
        let mut it = k.take_task(INITPROC_PID);
        let ghost before = it.children@;
        assert(before == v.task(0).children);
        assert(it.wf());
        let ghost it0 = it@;
        let mut j: usize = 0;
        while j < ch.len()
            invariant
                it.wf(),
                it@ == (TaskView { children: it.children@, ..it0 }),
                j <= ch@.len(),
                it.children@ == before + ch@.subrange(0, j as int),
            decreases ch@.len() - j,
        {
            it.children.push(ch[j]);
            j += 1;
            assert(it@ == (TaskView { children: it.children@, ..it0 }));
            assert(it.children@ =~= before + ch@.subrange(0, j as int));
        }
        assert(ch@.subrange(0, j as int) =~= ch@);
        k.put_task(INITPROC_PID, it);
        proof {
            assert(k@.tasks =~= mid.update(0, Some(TaskView { children: v.task(0).children + ch@, ..v.task(0) })));
            assert forall|p: int|
                0 <= p < k.tasks@.len() && #[trigger] k.tasks@[p] is Some implies k.tasks@[p]->Some_0.wf() by {
                if p != 0 {
                    assert(k.tasks@[p] == kb.tasks@[p]);
                }
            }
        }
    }
    k.current = None;
    proof {
        let w = v.exit_current(exit_code);
        assert forall|x: int| 0 <= x < v.tasks.len() implies #[trigger] k@.tasks[x] == w.tasks[x] by {
            if adopt && x == 0 {
                assert(k@.tasks[0] == Some(TaskView { children: v.task(0).children + ch@, ..v.task(0) }));
            } else if !adopt {
                assert(k@.tasks[x] == mid[x]);
            } else {
                assert(k@.tasks[x] == mid[x]);
            }
        }
        assert(k@.tasks =~= v.exit_current(exit_code).tasks);
        assert(k@.ready =~= v.exit_current(exit_code).ready);
        assert(k@ == v.exit_current(exit_code));
        assert(v.tasks.len() == k0.tasks.len());
        lemma_exit_wf(v, exit_code);
    }
    k.run_next();
}

/// `t` is a task freshly built from `image`: the image loaded as
/// `MemorySet::from_image` states, execution starting at `APP_BASE` with the
/// stack pointer at the top of the stack, an empty heap there, and fresh
/// scheduling and accounting.
pub open spec fn spawned_task(t: TaskView, image: Seq<u8>, parent: Option<usize>, status: TaskStatus) -> bool {
    let sp = user_stack_top(image.len() as int);
    &&& t.status == status
    &&& t.parent == parent
    &&& t.children == Seq::<usize>::empty()
    &&& t.trap_cx == TrapContext { ret: 0, pc: APP_BASE, sp: sp as usize }
    &&& stored(image_layout(image.len() as int), t.memory, APP_BASE as int, image)
    &&& t.exit_code == 0
    &&& t.priority == DEFAULT_PRIORITY
    &&& t.pass == BIG_STRIDE / DEFAULT_PRIORITY
    &&& t.stride == 0
    &&& t.syscall_times == Seq::new(MAX_SYSCALL_NUM as nat, |i: int| 0u32)
    &&& t.time == 0
    &&& t.first_time is None
    &&& t.heap_bottom == sp
    &&& t.program_brk == sp
}

/// A task built from `image`, or `None` when the image cannot be loaded.
fn task_from_image(image: &Vec<u8>, parent: Option<usize>, status: TaskStatus) -> (r: Option<TaskControlBlock>)
    ensures
        r is Some <==> image_fits(image@.len() as int),
        r matches Some(t) ==> t.wf() && spawned_task(t@, image@, parent, status),
{
    match MemorySet::from_image(image) {
        Some((memory_set, sp)) => {
            let t = TaskControlBlock {
                status,
                parent,
                children: Vec::new(),
                trap_cx: TrapContext { ret: 0, pc: APP_BASE, sp },
                memory_set,
                exit_code: 0,
                priority: DEFAULT_PRIORITY,
                pass: BIG_STRIDE / DEFAULT_PRIORITY,
                stride: 0,
                info: TaskInfo::init(),
                heap_bottom: sp,
                program_brk: sp,
            };
            assert(t@.children =~= Seq::<usize>::empty());
            Some(t)
        },
        None => None,
    }
}

impl Kernel {
    /// A kernel whose only task, pid 0, runs `image`. `None` when the image
    /// cannot be loaded.
    pub fn new(image: &Vec<u8>) -> (r: Option<Kernel>)
        ensures
            r is Some <==> image_fits(image@.len() as int),
            r matches Some(k) ==> {
                &&& k.wf()
                &&& k@.tasks.len() == 1
                &&& k@.current == Some(0usize)
                &&& k@.ready == Seq::<usize>::empty()
                &&& k@.live(0)
                &&& spawned_task(k@.task(0), image@, None, TaskStatus::Running)
            },
    {
        match task_from_image(image, None, TaskStatus::Running) {
            Some(t) => {
                let mut tasks: Vec<Option<TaskControlBlock>> = Vec::new();
                tasks.push(Some(t));
                let k = Kernel { tasks, ready: Vec::new(), current: Some(0) };
                assert(k@.tasks[0] == Some(t@));
                assert(k@.ready =~= Seq::<usize>::empty());
                Some(k)
            },
            None => None,
        }
    }
}

/// Starts a new child of the current task running `image` (the contents of
/// the file named by the caller; `None` when there is no such file), without
/// copying the caller's address space. Returns the child's pid, or -1 with
/// nothing changed when there is no image or it cannot be loaded.
pub fn sys_spawn(k: &mut Kernel, image: Option<&Vec<u8>>) -> (r: isize)
    requires
        old(k).wf(),
        old(k).current is Some,
    ensures
        final(k).wf(),
        match image {
            Some(img) if image_fits(img@.len() as int) => {
                &&& r == old(k)@.tasks.len() as isize
                &&& final(k)@ == old(k)@.add_child(final(k)@.task(old(k)@.tasks.len() as int))
                &&& spawned_task(
                    final(k)@.task(old(k)@.tasks.len() as int),
                    img@,
                    old(k).current,
                    TaskStatus::Ready,
                )
            },
            _ => r == -1 && final(k)@ == old(k)@,
        },
{
    let img = match image {
        Some(img) => img,
        None => {
            return -1;
        },
    };
    let child = match task_from_image(img, k.current, TaskStatus::Ready) {
        Some(t) => t,
        None => {
            return -1;
        },
    };
    let n = add_child(k, child);
    assert(k@.tasks[n as int] == Some(child@));
    n as isize
}

/// Replaces the current task's program by `image` (the contents of the file
/// named by the caller; `None` when there is no such file): a new address
/// space, execution from the image's entry with a fresh stack and empty
/// heap. Pid, parent, children and scheduling stay. Returns 0, or -1 with
/// nothing changed when there is no image or it cannot be loaded.
pub fn sys_exec(k: &mut Kernel, image: Option<&Vec<u8>>) -> (r: isize)
    requires
        old(k).wf(),
        old(k).current is Some,
    ensures
        final(k).wf(),
        match image {
            Some(img) if image_fits(img@.len() as int) => {
                let sp = user_stack_top(img@.len() as int) as usize;
                &&& r == 0
                &&& stored(image_layout(img@.len() as int), final(k)@.cur().memory, APP_BASE as int, img@)
                &&& final(k)@ == old(k)@.with_cur(
                    TaskView {
                        memory: final(k)@.cur().memory,
                        trap_cx: TrapContext { ret: 0, pc: APP_BASE, sp },
                        heap_bottom: sp,
                        program_brk: sp,
                        ..old(k)@.cur()
                    },
                )
            },
            _ => r == -1 && final(k)@ == old(k)@,
        },
{
    let img = match image {
        Some(img) => img,
        None => {
            return -1;
        },
    };
    let (memory_set, sp) = match MemorySet::from_image(img) {
        Some(p) => p,
        None => {
            return -1;
        },
    };
    let ghost k0 = *k;
    let c = match k.current {
        Some(c) => c,
        None => 0,
    };
    assert(live(k@.tasks, c as int));
    let mut t = k.take_task(c);
    t.memory_set = memory_set;
    t.trap_cx = TrapContext { ret: 0, pc: APP_BASE, sp };
    t.heap_bottom = sp;
    t.program_brk = sp;
    k.put_task(c, t);
    proof {
        assert(k.tasks@ =~= k0.tasks@.update(c as int, Some(t)));
        lemma_put_back(k0, *k, c as int, t);
    }
    0
}

/// The program break that `sbrk(size)` asks for, if it is allowed: not below
/// the heap's bottom, within the address space, and, when growing, onto
/// pages that are not mapped yet.
pub open spec fn sbrk_target(t: TaskView, size: i32) -> Option<int> {
    let nb = t.program_brk + size;
    if nb < t.heap_bottom || nb > usize::MAX || (size > 0 && !range_free(
        t.memory,
        page_ceil(t.program_brk as int),
        page_ceil(nb),
    )) {
        None
    } else {
        Some(nb)
    }
}

/// Moves the current task's program break by `size` bytes, mapping fresh
/// read-write pages when it grows and unmapping whole pages when it
/// shrinks. Returns the previous break, or -1 with nothing changed when
/// `sbrk_target` refuses the move.
pub fn sys_sbrk(k: &mut Kernel, size: i32) -> (r: isize)
    requires
        old(k).wf(),
        old(k).current is Some,
    ensures
        final(k).wf(),
        match sbrk_target(old(k)@.cur(), size) {
            None => r == -1 && final(k)@ == old(k)@,
            Some(nb) => {
                let t = old(k)@.cur();
                &&& r == t.program_brk as isize
                &&& final(k)@ == old(k)@.with_cur(
                    TaskView {
                        program_brk: nb as usize,
                        memory: if size > 0 {
                            with_range(t.memory, page_ceil(t.program_brk as int), page_ceil(nb), data_perm())
                        } else {
                            without_range(t.memory, page_ceil(nb), page_ceil(t.program_brk as int))
                        },
                        ..t
                    },
                )
            },
        },
{
    let ghost k0 = *k;
    let c = match k.current {
        Some(c) => c,
        None => 0,
    };
    assert(live(k@.tasks, c as int));
    assert(k@.tasks[c as int] == task_view(k.tasks@[c as int]));
    let (brk, bottom) = match &k.tasks[c] {
        Some(t) => (t.program_brk, t.heap_bottom),
        None => {
            return -1;
        },
    };
    let nb: usize;
    if size >= 0 {
        let d = size as usize;
        if brk > usize::MAX - d {
            return -1;
        }
        nb = brk + d;
    } else {
        let d = (0 - (size as i64)) as usize;
        if d > brk || brk - d < bottom {
            return -1;
        }
        nb = brk - d;
    }
    if nb < bottom {
        return -1;
    }
    let old_end = brk / PAGE_SIZE + if brk % PAGE_SIZE == 0 { 0 } else { 1 };
    let new_end = nb / PAGE_SIZE + if nb % PAGE_SIZE == 0 { 0 } else { 1 };
    assert(old_end == page_ceil(brk as int));
    assert(new_end == page_ceil(nb as int));
    if size > 0 {
        let free = match &k.tasks[c] {
            Some(t) => t.memory_set.is_range_free(old_end, new_end),
            None => false,
        };
        if !free {
            return -1;
        }
    }
    let mut t = k.take_task(c);
    if size > 0 {
        t.memory_set.map_range(old_end, new_end, data_perm_exec());
    } else {
        t.memory_set.unmap_range(new_end, old_end);
    }
    t.program_brk = nb;
    k.put_task(c, t);
    proof {
        assert(k.tasks@ =~= k0.tasks@.update(c as int, Some(t)));
        lemma_put_back(k0, *k, c as int, t);
    }
    brk as isize
}

/// The current task wrote `data` at user address `ptr` of its own address
/// space, and nothing else changed, as `stored` describes.
pub open spec fn wrote_current(old: KernelView, new: KernelView, ptr: int, data: Seq<u8>) -> bool {
    &&& stored(old.cur().memory, new.cur().memory, ptr, data)
    &&& new == old.with_cur(TaskView { memory: new.cur().memory, ..old.cur() })
}

/// Every byte of `[ptr, ptr + len)` is user-writable in the current task.
pub open spec fn current_writable(v: KernelView, ptr: int, len: int) -> bool {
    ptr + len <= usize::MAX && forall|i: int| 0 <= i < len ==> #[trigger] user_writable(v.cur().memory, ptr + i)
}

/// Copies `data` into the current task's memory at `ptr`; `false`, with
/// nothing changed, when a byte of the destination is not user-writable.
fn write_current(k: &mut Kernel, ptr: usize, data: &Vec<u8>) -> (r: bool)
    requires
        old(k).wf(),
        old(k).current is Some,
    ensures
        final(k).wf(),
        r == current_writable(old(k)@, ptr as int, data@.len() as int),
        r ==> wrote_current(old(k)@, final(k)@, ptr as int, data@),
        !r ==> final(k)@ == old(k)@,
{
    let ghost k0 = *k;
    let c = match k.current {
        Some(c) => c,
        None => 0,
    };
    assert(live(k@.tasks, c as int));
    let mut t = k.take_task(c);
    let ghost t0 = t@;
    assert(k0@.tasks[c as int] == task_view(k0.tasks@[c as int]));
    assert(k0@.cur() == t0);
    let ok = t.memory_set.copy_to_user(ptr, data);
    k.put_task(c, t);
    proof {
        assert(k.tasks@ =~= k0.tasks@.update(c as int, Some(t)));
        lemma_put_back(k0, *k, c as int, t);
        assert(k0@.cur().memory == t0.memory);
        if ok {
            assert(current_writable(k0@, ptr as int, data@.len() as int));
        } else {
            if current_writable(k0@, ptr as int, data@.len() as int) {
                assert forall|i: int| 0 <= i < data@.len() implies #[trigger] user_writable(t0.memory, ptr + i) by {
                    assert(user_writable(k0@.cur().memory, ptr + i));
                }
            }
            assert(t@ == t0);
            assert(k@.tasks =~= k0@.tasks);
        }
    }
    ok
}

/// Accounts system call `syscall_id`, made at `now` milliseconds, to the
/// current task, as `TaskInfo::syscalled` describes.
pub fn syscall_entry(k: &mut Kernel, syscall_id: usize, now: usize)
    requires
        old(k).wf(),
        old(k).current is Some,
        syscall_id < MAX_SYSCALL_NUM,
        old(k)@.cur().syscall_times[syscall_id as int] < u32::MAX,
        old(k)@.cur().first_time matches Some(f) ==> f <= now,
    ensures
        final(k).wf(),
        final(k)@ == old(k)@.with_cur(
            TaskView {
                syscall_times: old(k)@.cur().syscall_times.update(
                    syscall_id as int,
                    (old(k)@.cur().syscall_times[syscall_id as int] + 1) as u32,
                ),
                first_time: match old(k)@.cur().first_time {
                    Some(f) => Some(f),
                    None => Some(now),
                },
                time: match old(k)@.cur().first_time {
                    Some(f) => (now - f) as usize,
                    None => 0,
                },
                ..old(k)@.cur()
            },
        ),
{
    let ghost k0 = *k;
    let c = match k.current {
        Some(c) => c,
        None => 0,
    };
    assert(live(k@.tasks, c as int));
    let mut t = k.take_task(c);
    t.info.syscalled(syscall_id, now);
    k.put_task(c, t);
    proof {
        assert(k.tasks@ =~= k0.tasks@.update(c as int, Some(t)));
        lemma_put_back(k0, *k, c as int, t);
    }
}

/// The time `now_us` microseconds as seconds and microseconds.
pub open spec fn time_val_of(now_us: usize) -> TimeVal {
    TimeVal { sec: now_us / 1_000_000, usec: now_us % 1_000_000 }
}

/// Writes the time `now_us` (microseconds) as a `TimeVal` at user address
/// `ts`. `_tz` is ignored. Returns 0, or -1 with nothing changed when the
/// destination is not user-writable.
pub fn sys_get_time(k: &mut Kernel, ts: usize, _tz: usize, now_us: usize) -> (r: isize)
    requires
        old(k).wf(),
        old(k).current is Some,
    ensures
        final(k).wf(),
        r == 0 <==> current_writable(old(k)@, ts as int, 16),
        r == 0 ==> wrote_current(old(k)@, final(k)@, ts as int, time_val_of(now_us).spec_bytes()),
        r != 0 ==> r == -1 && final(k)@ == old(k)@,
{
    let tv = TimeVal { sec: now_us / 1_000_000, usec: now_us % 1_000_000 };
    let bytes = tv.to_bytes();
    assert(bytes@.len() == 16) by {
        reveal_with_fuel(le_bytes, 9);
    }
    if write_current(k, ts, &bytes) {
        0
    } else {
        -1
    }
}

/// The bytes that `task_info` writes for task `t`: running status, its
/// counters and its time, laid out as `abi::TaskInfo::spec_bytes` states.
pub open spec fn task_info_bytes(t: TaskView) -> Seq<u8> {
    le_bytes(1, 4) + counters_bytes(t.syscall_times) + le_bytes(0, 4) + le_bytes(t.time as nat, 8)
}

/// Writes the current task's status, system-call counters and running time
/// at user address `ti`. Returns 0, or -1 with nothing changed when the
/// destination is not user-writable.
pub fn sys_task_info(k: &mut Kernel, ti: usize) -> (r: isize)
    requires
        old(k).wf(),
        old(k).current is Some,
    ensures
        final(k).wf(),
        r == 0 <==> current_writable(old(k)@, ti as int, task_info_bytes(old(k)@.cur()).len() as int),
        r == 0 ==> wrote_current(old(k)@, final(k)@, ti as int, task_info_bytes(old(k)@.cur())),
        r != 0 ==> r == -1 && final(k)@ == old(k)@,
{
    let c = match k.current {
        Some(c) => c,
        None => 0,
    };
    assert(live(k@.tasks, c as int));
    assert(k@.tasks[c as int] == task_view(k.tasks@[c as int]));
    let info = match &k.tasks[c] {
        Some(t) => {
            let mut times: Vec<u32> = Vec::new();
            let mut i: usize = 0;
            while i < t.info.syscall_times.len()
                invariant
                    i <= t.info.syscall_times@.len(),
                    times@ == t.info.syscall_times@.subrange(0, i as int),
                decreases t.info.syscall_times@.len() - i,
            {
                times.push(t.info.syscall_times[i]);
                i += 1;
                assert(times@ =~= t.info.syscall_times@.subrange(0, i as int));
            }
            assert(times@ =~= t.info.syscall_times@);
            abi::TaskInfo { status: TaskStatus::Running, syscall_times: times, time: t.info.time }
        },
        None => {
            return -1;
        },
    };
    let bytes = info.to_bytes();
    assert(bytes@ == task_info_bytes(k@.cur()));
    if write_current(k, ti, &bytes) {
        0
    } else {
        -1
    }
}

/// Right after a fork, the child holds exactly the parent's pages and bytes.
pub proof fn lemma_fork_copies_memory(v: KernelView)
    requires
        v.wf(),
        v.current is Some,
    ensures
        v.fork().live(v.tasks.len() as int),
        v.fork().task(v.tasks.len() as int).memory == v.cur().memory,
        v.fork().cur().memory == v.cur().memory,
{
}

/// A write into the current task's memory leaves every other task as it
/// was: after a fork, what the parent writes the child never sees, and the
/// other way round once the child runs.
pub proof fn lemma_write_isolated(v: KernelView, w: KernelView, ptr: int, data: Seq<u8>, q: int)
    requires
        v.wf(),
        v.current is Some,
        wrote_current(v, w, ptr, data),
        0 <= q < v.tasks.len(),
        q != v.current.unwrap() as int,
    ensures
        w.tasks[q] == v.tasks[q],
{
}
} // verus!
