//! Per-task accounting: how often each system call was made, and how long
//! the task has been running since its first system call.
use vstd::prelude::*;

use crate::config::MAX_SYSCALL_NUM;

verus! {

/// The accounting record of one task.
pub struct TaskInfo {
    /// How many times each system call was made, indexed by call number.
    pub syscall_times: Vec<u32>,
    /// Milliseconds between the first and the latest system call.
    pub time: usize,
    /// When the first system call was made, in milliseconds.
    pub first_time: Option<usize>,
}

impl TaskInfo {
    pub open spec fn wf(&self) -> bool {
        self.syscall_times@.len() == MAX_SYSCALL_NUM
    }

    /// A record with every counter at zero and no call seen yet.
    pub fn init() -> (r: TaskInfo)
        ensures
            r.wf(),
            r.syscall_times@ == Seq::new(MAX_SYSCALL_NUM as nat, |i: int| 0u32),
            r.time == 0,
            r.first_time is None,
    {
        let mut times: Vec<u32> = Vec::new();
        while times.len() < MAX_SYSCALL_NUM
            invariant
                times.len() <= MAX_SYSCALL_NUM,
                forall|i: int| 0 <= i < times.len() ==> times@[i] == 0u32,
            decreases MAX_SYSCALL_NUM - times.len(),
        {
            times.push(0u32);
        }
        assert(times@ =~= Seq::new(MAX_SYSCALL_NUM as nat, |i: int| 0u32));
        TaskInfo { syscall_times: times, time: 0, first_time: None }
    }

    /// Records system call `syscall_id` made at time `now` (milliseconds):
    /// its counter goes up by one; the first call fixes the start time, and
    /// each later call sets `time` to the span since then.
    pub fn syscalled(&mut self, syscall_id: usize, now: usize)
        requires
            old(self).wf(),
            syscall_id < MAX_SYSCALL_NUM,
            old(self).syscall_times@[syscall_id as int] < u32::MAX,
            old(self).first_time matches Some(f) ==> f <= now,
        ensures
            final(self).wf(),
            final(self).syscall_times@ == old(self).syscall_times@.update(
                syscall_id as int,
                (old(self).syscall_times@[syscall_id as int] + 1) as u32,
            ),
            final(self).first_time == (match old(self).first_time {
                Some(f) => Some(f),
                None => Some(now),
            }),
            final(self).time == (match old(self).first_time {
                Some(f) => (now - f) as usize,
                None => 0,
            }),
    {
        let c = self.syscall_times[syscall_id];
        self.syscall_times.set(syscall_id, c + 1);
        match self.first_time {
            Some(f) => {
                self.time = now - f;
            },
            None => {
                self.first_time = Some(now);
                self.time = 0;
            },
        }
    }
}

} // verus!
