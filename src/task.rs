//! Process control blocks, the process table and the stride scheduler.
use vstd::prelude::*;

use crate::info::TaskInfo;
use crate::mm::{MemorySet, PageView};

verus! {

/// Where a task is in its life cycle.
#[derive(Clone, Copy, Debug, PartialEq, Eq, Structural)]
pub enum TaskStatus {
    Ready,
    Running,
    Zombie,
}

/// The saved user registers that process management reads or sets.
#[derive(Clone, Copy, Debug, PartialEq, Eq, Structural)]
pub struct TrapContext {
    /// The return-value register (`a0`).
    pub ret: usize,
    /// Where user execution resumes.
    pub pc: usize,
    /// The user stack pointer.
    pub sp: usize,
}

/// A process control block, abstractly.
pub struct TaskView {
    pub status: TaskStatus,
    pub parent: Option<usize>,
    pub children: Seq<usize>,
    pub trap_cx: TrapContext,
    pub memory: Map<int, PageView>,
    pub exit_code: i32,
    pub priority: u64,
    pub pass: u64,
    pub stride: u64,
    pub syscall_times: Seq<u32>,
    pub time: usize,
    pub first_time: Option<usize>,
    pub heap_bottom: usize,
    pub program_brk: usize,
}

/// A process control block. Its pid is its index in the process table.
pub struct TaskControlBlock {
    pub status: TaskStatus,
    /// The parent's pid; a back-reference used for lookups only.
    pub parent: Option<usize>,
    /// The children's pids, in the order they were created or adopted.
    pub children: Vec<usize>,
    pub trap_cx: TrapContext,
    pub memory_set: MemorySet,
    pub exit_code: i32,
    pub priority: u64,
    /// How far the stride advances each time the task is picked.
    pub pass: u64,
    pub stride: u64,
    pub info: TaskInfo,
    /// Lowest address of the heap.
    pub heap_bottom: usize,
    /// Current end of the heap.
    pub program_brk: usize,
}

impl View for TaskControlBlock {
    type V = TaskView;

    open spec fn view(&self) -> TaskView {
        TaskView {
            status: self.status,
            parent: self.parent,
            children: self.children@,
            trap_cx: self.trap_cx,
            memory: self.memory_set@,
            exit_code: self.exit_code,
            priority: self.priority,
            pass: self.pass,
            stride: self.stride,
            syscall_times: self.info.syscall_times@,
            time: self.info.time,
            first_time: self.info.first_time,
            heap_bottom: self.heap_bottom,
            program_brk: self.program_brk,
        }
    }
}

impl TaskControlBlock {
    pub open spec fn wf(&self) -> bool {
        self.memory_set.wf() && self.info.wf()
    }
}

pub open spec fn live(ts: Seq<Option<TaskView>>, p: int) -> bool {
    0 <= p < ts.len() && ts[p] is Some
}

pub open spec fn task(ts: Seq<Option<TaskView>>, p: int) -> TaskView {
    ts[p]->Some_0
}

/// Every child is a live task other than its parent, whose parent link
/// points back, and no child is listed twice.
pub open spec fn tree_wf(ts: Seq<Option<TaskView>>) -> bool {
    &&& forall|p: int, k: int|
        live(ts, p) && 0 <= k < task(ts, p).children.len() ==> live(
            ts,
            #[trigger] task(ts, p).children[k] as int,
        ) && task(ts, task(ts, p).children[k] as int).parent == Some(p as usize)
            && task(ts, p).children[k] as int != p
    &&& forall|p: int, j: int, k: int|
        live(ts, p) && 0 <= j < k < task(ts, p).children.len() ==> #[trigger] task(ts, p).children[j]
            != #[trigger] task(ts, p).children[k]
}

/// The ready queue holds distinct live tasks, all of them ready.
pub open spec fn ready_wf(ts: Seq<Option<TaskView>>, ready: Seq<usize>) -> bool {
    &&& forall|k: int|
        0 <= k < ready.len() ==> live(ts, #[trigger] ready[k] as int) && task(
            ts,
            ready[k] as int,
        ).status == TaskStatus::Ready
    &&& forall|j: int, k: int| 0 <= j < k < ready.len() ==> #[trigger] ready[j] != #[trigger] ready[k]
}

pub open spec fn current_wf(ts: Seq<Option<TaskView>>, current: Option<usize>) -> bool {
    current matches Some(c) ==> live(ts, c as int) && task(ts, c as int).status == TaskStatus::Running
}

/// The whole kernel state, abstractly.
pub struct KernelView {
    pub tasks: Seq<Option<TaskView>>,
    pub ready: Seq<usize>,
    pub current: Option<usize>,
}

/// The task picked when `t` is scheduled: its stride advances by its pass
/// (stopping at the largest value) and it runs.
pub open spec fn advanced(t: TaskView) -> TaskView {
    TaskView {
        stride: if t.stride + t.pass <= u64::MAX {
            (t.stride + t.pass) as u64
        } else {
            u64::MAX
        },
        status: TaskStatus::Running,
        ..t
    }
}

impl KernelView {
    pub open spec fn wf(self) -> bool {
        &&& tree_wf(self.tasks)
        &&& ready_wf(self.tasks, self.ready)
        &&& current_wf(self.tasks, self.current)
    }

    pub open spec fn live(self, p: int) -> bool {
        live(self.tasks, p)
    }

    pub open spec fn task(self, p: int) -> TaskView {
        task(self.tasks, p)
    }

    /// The stride of the task at position `k` of the ready queue.
    pub open spec fn stride_at(self, k: int) -> u64 {
        self.task(self.ready[k] as int).stride
    }

    /// Position of the first task with the least stride among the first
    /// `n` of the ready queue.
    pub open spec fn first_min(self, n: int) -> int
        decreases n,
    {
        if n <= 1 {
            0
        } else {
            let m = self.first_min(n - 1);
            if self.stride_at(n - 1) < self.stride_at(m) {
                n - 1
            } else {
                m
            }
        }
    }

    /// Picks the next task: the ready task of least stride, the earliest in
    /// the queue on ties. It leaves the queue and becomes current. With an
    /// empty queue nothing is current.
    pub open spec fn schedule(self) -> KernelView {
        if self.ready.len() == 0 {
            KernelView { current: None, ..self }
        } else {
            let k = self.first_min(self.ready.len() as int);
            let p = self.ready[k];
            KernelView {
                tasks: self.tasks.update(p as int, Some(advanced(self.task(p as int)))),
                ready: self.ready.remove(k),
                current: Some(p),
            }
        }
    }

    /// The current task goes back to the end of the ready queue.
    pub open spec fn suspend(self) -> KernelView {
        let c = self.current.unwrap();
        KernelView {
            tasks: self.tasks.update(
                c as int,
                Some(TaskView { status: TaskStatus::Ready, ..self.task(c as int) }),
            ),
            ready: self.ready.push(c),
            current: None,
        }
    }
}

pub proof fn lemma_first_min_range(v: KernelView, n: int)
    requires
        n >= 1,
    ensures
        0 <= v.first_min(n) < n,
    decreases n,
{
    if n > 1 {
        lemma_first_min_range(v, n - 1);
    }
}

/// The scheduler picks a task of least stride, and no task before it in the
/// queue has that stride.
pub proof fn lemma_first_min_is_least(v: KernelView, n: int)
    requires
        n >= 1,
    ensures
        forall|j: int| 0 <= j < n ==> v.stride_at(v.first_min(n)) <= #[trigger] v.stride_at(j),
        forall|j: int| 0 <= j < v.first_min(n) ==> v.stride_at(v.first_min(n)) < #[trigger] v.stride_at(j),
    decreases n,
{
    if n > 1 {
        lemma_first_min_is_least(v, n - 1);
        lemma_first_min_range(v, n - 1);
    }
}

/// Replacing a task by one with the same parent and children keeps the
/// process tree well formed.
pub proof fn lemma_tree_keep(ts0: Seq<Option<TaskView>>, p: int, t: TaskView)
    requires
        tree_wf(ts0),
        live(ts0, p),
        t.parent == task(ts0, p).parent,
        t.children == task(ts0, p).children,
    ensures
        tree_wf(ts0.update(p, Some(t))),
{
    let ts = ts0.update(p, Some(t));
    assert forall|q: int| #[trigger] live(ts, q) implies live(ts0, q) && task(ts, q).parent == task(
        ts0,
        q,
    ).parent && task(ts, q).children == task(ts0, q).children by {}
    assert forall|q: int| #[trigger] live(ts0, q) implies live(ts, q) by {}
    assert forall|q: int, k: int|
        live(ts, q) && 0 <= k < task(ts, q).children.len() implies live(
        ts,
        #[trigger] task(ts, q).children[k] as int,
    ) && task(ts, task(ts, q).children[k] as int).parent == Some(q as usize) by {
        assert(live(ts0, task(ts0, q).children[k] as int));
    }
    assert forall|q: int, a: int, b: int|
        live(ts, q) && 0 <= a < b < task(ts, q).children.len() implies #[trigger] task(
        ts,
        q,
    ).children[a] != #[trigger] task(ts, q).children[b] by {
        assert(task(ts0, q).children[a] != task(ts0, q).children[b]);
    }
}

/// Replacing a task by one with the same status, parent and children keeps
/// the process tree, the ready queue and the current task well formed.
pub proof fn lemma_replace_task(v: KernelView, p: int, t: TaskView)
    requires
        v.wf(),
        v.live(p),
        t.status == v.task(p).status,
        t.parent == v.task(p).parent,
        t.children == v.task(p).children,
    ensures
        (KernelView { tasks: v.tasks.update(p, Some(t)), ..v }).wf(),
{
    let ts = v.tasks.update(p, Some(t));
    assert forall|q: int| #[trigger] live(ts, q) implies live(v.tasks, q) && task(ts, q).status == task(
        v.tasks,
        q,
    ).status && task(ts, q).parent == task(v.tasks, q).parent && task(ts, q).children == task(
        v.tasks,
        q,
    ).children by {}
    assert forall|q: int| #[trigger] live(v.tasks, q) implies live(ts, q) by {}
    assert forall|q: int, k: int|
        live(ts, q) && 0 <= k < task(ts, q).children.len() implies live(
        ts,
        #[trigger] task(ts, q).children[k] as int,
    ) && task(ts, task(ts, q).children[k] as int).parent == Some(q as usize) by {
        assert(task(ts, q).children[k] == task(v.tasks, q).children[k]);
        assert(live(v.tasks, task(v.tasks, q).children[k] as int));
    }
    assert forall|q: int, j: int, k: int|
        live(ts, q) && 0 <= j < k < task(ts, q).children.len() implies #[trigger] task(
        ts,
        q,
    ).children[j] != #[trigger] task(ts, q).children[k] by {
        assert(task(ts, q).children == task(v.tasks, q).children);
        assert(task(v.tasks, q).children[j] != task(v.tasks, q).children[k]);
    }
    assert forall|k: int| 0 <= k < v.ready.len() implies live(ts, #[trigger] v.ready[k] as int) && task(
        ts,
        v.ready[k] as int,
    ).status == TaskStatus::Ready by {
        assert(live(v.tasks, v.ready[k] as int));
    }
}

/// The process table and the scheduler's state.
pub struct Kernel {
    /// Indexed by pid; a reaped task leaves `None` behind.
    pub tasks: Vec<Option<TaskControlBlock>>,
    /// Ready tasks, in the order they became ready.
    pub ready: Vec<usize>,
    /// The task on the CPU.
    pub current: Option<usize>,
}

pub open spec fn task_view(o: Option<TaskControlBlock>) -> Option<TaskView> {
    match o {
        Some(t) => Some(t@),
        None => None,
    }
}

impl View for Kernel {
    type V = KernelView;

    open spec fn view(&self) -> KernelView {
        KernelView {
            tasks: self.tasks@.map_values(|o: Option<TaskControlBlock>| task_view(o)),
            ready: self.ready@,
            current: self.current,
        }
    }
}

impl Kernel {
    pub open spec fn wf(&self) -> bool {
        &&& self@.wf()
        &&& forall|p: int|
            0 <= p < self.tasks@.len() && #[trigger] self.tasks@[p] is Some ==> self.tasks@[p]->Some_0.wf()
    }

    /// Takes task `pid` out of the table, leaving its slot empty.
    pub fn take_task(&mut self, pid: usize) -> (t: TaskControlBlock)
        requires
            pid < old(self).tasks@.len(),
            old(self).tasks@[pid as int] is Some,
        ensures
            t == old(self).tasks@[pid as int]->Some_0,
            final(self).tasks@ == old(self).tasks@.update(pid as int, None),
            final(self).ready == old(self).ready,
            final(self).current == old(self).current,
    {
        let mut slot: Option<TaskControlBlock> = None;
        self.tasks.set_and_swap(pid, &mut slot);
        slot.unwrap()
    }

    /// Puts `t` into slot `pid` of the table.
    pub fn put_task(&mut self, pid: usize, t: TaskControlBlock)
        requires
            pid < old(self).tasks@.len(),
        ensures
            final(self).tasks@ == old(self).tasks@.update(pid as int, Some(t)),
            final(self).ready == old(self).ready,
            final(self).current == old(self).current,
    {
        self.tasks.set(pid, Some(t));
    }

    /// The stride of the task at position `k` of the ready queue.
    fn stride_at(&self, k: usize) -> (r: u64)
        requires
            self.wf(),
            k < self.ready@.len(),
        ensures
            r == self@.stride_at(k as int),
    {
        let p = self.ready[k];
        assert(live(self@.tasks, p as int));
        match &self.tasks[p] {
            Some(t) => t.stride,
            None => 0,
        }
    }

    /// Runs the next task as `KernelView::schedule` describes.
    pub fn run_next(&mut self)
        requires
            old(self).wf(),
            old(self).current is None,
        ensures
            final(self).wf(),
            final(self)@ == old(self)@.schedule(),
    {
        if self.ready.len() == 0 {
            assert(self@ =~= old(self)@.schedule());
            return;
        }
        let ghost v = self@;
        let mut best: usize = 0;
        let mut best_stride = self.stride_at(0);
        let mut j: usize = 1;
        while j < self.ready.len()
            invariant
                self.wf(),
                self@ == v,
                1 <= j <= self.ready@.len(),
                best == v.first_min(j as int),
                best < j,
                best_stride == v.stride_at(best as int),
            decreases self.ready@.len() - j,
        {
            let s = self.stride_at(j);
            if s < best_stride {
                best = j;
                best_stride = s;
            }
            j += 1;
        }
        let pid = self.ready.remove(best);
        assert(v.ready[best as int] == pid);
        assert(live(v.tasks, pid as int));
        let mut t = self.take_task(pid);
        t.stride = if t.stride <= u64::MAX - t.pass {
            t.stride + t.pass
        } else {
            u64::MAX
        };
        t.status = TaskStatus::Running;
        self.put_task(pid, t);
        self.current = Some(pid);
        proof {
            let w = v.schedule();
            assert(self@.tasks =~= w.tasks);
            assert(self@.ready =~= w.ready);
            let ts = w.tasks;
            let old_t = v.task(pid as int);
            assert forall|q: int| #[trigger] live(ts, q) implies live(v.tasks, q) && task(ts, q).parent == task(
                v.tasks,
                q,
            ).parent && task(ts, q).children == task(v.tasks, q).children by {}
            assert forall|q: int| #[trigger] live(v.tasks, q) implies live(ts, q) by {}
            assert forall|q: int, k: int|
                live(ts, q) && 0 <= k < task(ts, q).children.len() implies live(
                ts,
                #[trigger] task(ts, q).children[k] as int,
            ) && task(ts, task(ts, q).children[k] as int).parent == Some(q as usize) by {
                assert(live(v.tasks, task(v.tasks, q).children[k] as int));
            }
            assert forall|q: int, a: int, b: int|
                live(ts, q) && 0 <= a < b < task(ts, q).children.len() implies #[trigger] task(
                ts,
                q,
            ).children[a] != #[trigger] task(ts, q).children[b] by {
                assert(task(v.tasks, q).children[a] != task(v.tasks, q).children[b]);
            }
            assert forall|k: int| 0 <= k < w.ready.len() implies live(ts, #[trigger] w.ready[k] as int)
                && task(ts, w.ready[k] as int).status == TaskStatus::Ready by {
                let k0 = if k < best { k } else { k + 1 };
                assert(w.ready[k] == v.ready[k0]);
                assert(v.ready[k0] != pid);
            }
            assert forall|a: int, b: int| 0 <= a < b < w.ready.len() implies #[trigger] w.ready[a]
                != #[trigger] w.ready[b] by {
                let a0 = if a < best { a } else { a + 1 };
                let b0 = if b < best { b } else { b + 1 };
                assert(w.ready[a] == v.ready[a0]);
                assert(w.ready[b] == v.ready[b0]);
            }
        }
    }

    /// Puts the current task back at the end of the ready queue.
    pub fn suspend_current(&mut self)
        requires
            old(self).wf(),
            old(self).current is Some,
        ensures
            final(self).wf(),
            final(self)@ == old(self)@.suspend(),
    {
        let ghost v = self@;
        let c = match self.current {
            Some(c) => c,
            None => 0,
        };
        let mut t = self.take_task(c);
        t.status = TaskStatus::Ready;
        self.put_task(c, t);
        self.ready.push(c);
        self.current = None;
        proof {
            let w = v.suspend();
            assert(self@.tasks =~= w.tasks);
            assert(self@.ready =~= w.ready);
            lemma_tree_keep(v.tasks, c as int, w.task(c as int));
            let ts = w.tasks;
            assert forall|k: int| 0 <= k < w.ready.len() implies live(ts, #[trigger] w.ready[k] as int)
                && task(ts, w.ready[k] as int).status == TaskStatus::Ready by {
                if k < v.ready.len() {
                    assert(w.ready[k] == v.ready[k]);
                    assert(live(v.tasks, v.ready[k] as int));
                }
            }
            assert forall|a: int, b: int| 0 <= a < b < w.ready.len() implies #[trigger] w.ready[a]
                != #[trigger] w.ready[b] by {
                if b == v.ready.len() {
                    assert(task(v.tasks, v.ready[a] as int).status == TaskStatus::Ready);
                }
            }
        }
    }
}

} // verus!
