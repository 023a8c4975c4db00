//! The structures that system calls write into user memory, and their byte
//! layout: little-endian integers, laid out as a C compiler would.
use vstd::prelude::*;

use crate::task::TaskStatus;

verus! {

/// The `n` low bytes of `x`, least significant first.
pub open spec fn le_bytes(x: nat, n: nat) -> Seq<u8>
    decreases n,
{
    if n == 0 {
        Seq::empty()
    } else {
        seq![(x % 256) as u8] + le_bytes(x / 256, (n - 1) as nat)
    }
}

/// Appends the `n` low bytes of `x`, least significant first.
pub fn push_le(out: &mut Vec<u8>, x: u64, n: usize)
    ensures
        final(out)@ == old(out)@ + le_bytes(x as nat, n as nat),
{
    let ghost start = out@;
    let mut cur: u64 = x;
    let mut i: usize = 0;
    assert(start + le_bytes(x as nat, n as nat) =~= out@ + le_bytes(cur as nat, (n - i) as nat));
    while i < n
        invariant
            i <= n,
            out@ + le_bytes(cur as nat, (n - i) as nat) == start + le_bytes(x as nat, n as nat),
        decreases n - i,
    {
        let ghost before = out@;
        out.push((cur % 256) as u8);
        assert(le_bytes(cur as nat, (n - i) as nat) == seq![(cur % 256) as u8] + le_bytes(
            (cur / 256) as nat,
            (n - i - 1) as nat,
        ));
        cur = cur / 256;
        i += 1;
        assert(out@ + le_bytes(cur as nat, (n - i) as nat) =~= before + (seq![(out@.last())] + le_bytes(
            cur as nat,
            (n - i) as nat,
        )));
    }
    assert(le_bytes(cur as nat, 0) =~= Seq::<u8>::empty());
    assert(out@ =~= out@ + le_bytes(cur as nat, 0));
}

/// A time of day as `get_time` reports it.
#[derive(Clone, Copy, Debug, PartialEq, Eq, Structural)]
pub struct TimeVal {
    pub sec: usize,
    pub usec: usize,
}

impl TimeVal {
    pub open spec fn spec_bytes(&self) -> Seq<u8> {
        le_bytes(self.sec as nat, 8) + le_bytes(self.usec as nat, 8)
    }

    /// The 16 bytes of the structure: `sec`, then `usec`.
    pub fn to_bytes(&self) -> (r: Vec<u8>)
        ensures
            r@ == self.spec_bytes(),
    {
        let mut out: Vec<u8> = Vec::new();
        push_le(&mut out, self.sec as u64, 8);
        push_le(&mut out, self.usec as u64, 8);
        assert(out@ =~= self.spec_bytes());
        out
    }
}

/// The number that stands for a status in user memory.
pub open spec fn status_code(s: TaskStatus) -> nat {
    match s {
        TaskStatus::Ready => 0,
        TaskStatus::Running => 1,
        TaskStatus::Zombie => 2,
    }
}

/// The bytes of a counter array: each counter in four bytes, in order.
pub open spec fn counters_bytes(s: Seq<u32>) -> Seq<u8>
    decreases s.len(),
{
    if s.len() == 0 {
        Seq::empty()
    } else {
        counters_bytes(s.drop_last()) + le_bytes(s.last() as nat, 4)
    }
}

/// What `task_info` reports about the calling task.
pub struct TaskInfo {
    pub status: TaskStatus,
    /// How many times each system call was made, indexed by call number.
    pub syscall_times: Vec<u32>,
    /// Milliseconds between the first and the latest system call.
    pub time: usize,
}

impl TaskInfo {
    /// Status in four bytes, the counters, four bytes of padding, then
    /// `time` in eight bytes.
    pub open spec fn spec_bytes(&self) -> Seq<u8> {
        le_bytes(status_code(self.status), 4) + counters_bytes(self.syscall_times@) + le_bytes(0, 4)
            + le_bytes(self.time as nat, 8)
    }

    /// The structure's bytes as `spec_bytes` lays them out.
    pub fn to_bytes(&self) -> (r: Vec<u8>)
        ensures
            r@ == self.spec_bytes(),
    {
        let mut out: Vec<u8> = Vec::new();
        let code: u64 = match self.status {
            TaskStatus::Ready => 0,
            TaskStatus::Running => 1,
            TaskStatus::Zombie => 2,
        };
        push_le(&mut out, code, 4);
        let ghost head = out@;
        let mut i: usize = 0;
        while i < self.syscall_times.len()
            invariant
                i <= self.syscall_times@.len(),
                out@ == head + counters_bytes(self.syscall_times@.subrange(0, i as int)),
            decreases self.syscall_times@.len() - i,
        {
            push_le(&mut out, self.syscall_times[i] as u64, 4);
            i += 1;
            assert(self.syscall_times@.subrange(0, i as int).drop_last() =~= self.syscall_times@.subrange(
                0,
                i - 1,
            ));
            assert(out@ =~= head + counters_bytes(self.syscall_times@.subrange(0, i as int)));
        }
        assert(self.syscall_times@.subrange(0, i as int) =~= self.syscall_times@);
        push_le(&mut out, 0, 4);
        push_le(&mut out, self.time as u64, 8);
        assert(out@ =~= self.spec_bytes());
        out
    }
}

} // verus!
