//! The part of the file layer that is this kernel's own logic: open flags
//! and the table of hard-link counts that `fstat` reports.
use vstd::prelude::*;

verus! {

/// Flags of the `open` call, ORed together.
#[derive(Clone, Copy, Debug, PartialEq, Eq, Structural)]
pub struct OpenFlags {
    pub bits: u32,
}

/// Read only.
pub const RDONLY: u32 = 0;
/// Write only.
pub const WRONLY: u32 = 1;
/// Read and write.
pub const RDWR: u32 = 2;
/// Create the file when it does not exist.
pub const CREATE: u32 = 512;
/// Truncate the file to zero length.
pub const TRUNC: u32 = 1024;

impl OpenFlags {
    pub open spec fn spec_read_write(self) -> (bool, bool) {
        if self.bits == 0 {
            (true, false)
        } else if self.bits % 2 == 1 {
            (false, true)
        } else {
            (true, true)
        }
    }

    /// Whether the file is opened for reading and for writing: no flag means
    /// read only, `WRONLY` write only, anything else both.
    pub fn read_write(&self) -> (r: (bool, bool))
        ensures
            r == self.spec_read_write(),
    {
        if self.bits == 0 {
            (true, false)
        } else if self.bits % 2 == 1 {
            (false, true)
        } else {
            (true, true)
        }
    }
}

/// Link counts of the inodes that have more than one name: each entry is an
/// inode number with its count (at least 2). Other inodes have one link.
pub struct LinkTable {
    pub entries: Vec<(u32, u32)>,
}

impl LinkTable {
    pub open spec fn wf(&self) -> bool {
        &&& forall|i: int, j: int|
            0 <= i < j < self.entries@.len() ==> #[trigger] self.entries@[i].0 != #[trigger] self.entries@[j].0
        &&& forall|i: int| 0 <= i < self.entries@.len() ==> #[trigger] self.entries@[i].1 >= 2
    }

    /// The position of inode `ino` in the table.
    pub open spec fn has_at(&self, ino: u32, i: int) -> bool {
        0 <= i < self.entries@.len() && self.entries@[i].0 == ino
    }

    /// The link count of inode `ino`.
    pub open spec fn count_of(&self, ino: u32) -> nat {
        if exists|i: int| self.has_at(ino, i) {
            self.entries@[choose|i: int| self.has_at(ino, i)].1 as nat
        } else {
            1
        }
    }

    pub fn new() -> (r: LinkTable)
        ensures
            r.wf(),
            r.entries@ == Seq::<(u32, u32)>::empty(),
    {
        LinkTable { entries: Vec::new() }
    }

    fn find(&self, ino: u32) -> (r: Option<usize>)
        ensures
            match r {
                Some(i) => self.has_at(ino, i as int),
                None => forall|i: int| !#[trigger] self.has_at(ino, i),
            },
    {
        let mut i: usize = 0;
        while i < self.entries.len()
            invariant
                i <= self.entries@.len(),
                forall|j: int| 0 <= j < i ==> !#[trigger] self.has_at(ino, j),
            decreases self.entries@.len() - i,
        {
            if self.entries[i].0 == ino {
                return Some(i);
            }
            i += 1;
        }
        None
    }

    /// Inode `ino` gains a name: its count goes up by one (staying at the
    /// largest value once there), or it enters the table with two links.
    pub fn link(&mut self, ino: u32)
        requires
            old(self).wf(),
        ensures
            final(self).wf(),
            forall|i: int| #[trigger]
                old(self).has_at(ino, i) ==> final(self).entries@ == old(self).entries@.update(
                    i,
                    (ino, if old(self).entries@[i].1 < u32::MAX {
                        (old(self).entries@[i].1 + 1) as u32
                    } else {
                        u32::MAX
                    }),
                ),
            (forall|i: int| !#[trigger] old(self).has_at(ino, i)) ==> final(self).entries@ == old(
                self,
            ).entries@.push((ino, 2u32)),
    {
        match self.find(ino) {
            Some(i) => {
                let c = self.entries[i].1;
                let n = if c < u32::MAX {
                    c + 1
                } else {
                    u32::MAX
                };
                self.entries.set(i, (ino, n));
                assert forall|j: int| #[trigger] old(self).has_at(ino, j) implies j == i by {
                    if j < i {
                        assert(old(self).entries@[j].0 != old(self).entries@[i as int].0);
                    } else if j > i {
                        assert(old(self).entries@[i as int].0 != old(self).entries@[j].0);
                    }
                }
            },
            None => {
                self.entries.push((ino, 2));
                assert forall|a: int, b: int|
                    0 <= a < b < self.entries@.len() implies #[trigger] self.entries@[a].0
                    != #[trigger] self.entries@[b].0 by {
                    if b == self.entries@.len() - 1 {
                        assert(!old(self).has_at(ino, a));
                    }
                }
            },
        }
    }

    /// Inode `ino` loses a name. Returns whether it was in the table; if so
    /// its count goes down by one, and it leaves the table at one link.
    pub fn unlink(&mut self, ino: u32) -> (r: bool)
        requires
            old(self).wf(),
        ensures
            final(self).wf(),
            r == exists|i: int| old(self).has_at(ino, i),
            forall|i: int| #[trigger]
                old(self).has_at(ino, i) ==> final(self).entries@ == (if old(self).entries@[i].1 == 2 {
                    old(self).entries@.remove(i)
                } else {
                    old(self).entries@.update(i, (ino, (old(self).entries@[i].1 - 1) as u32))
                }),
            !r ==> final(self).entries@ == old(self).entries@,
    {
        match self.find(ino) {
            Some(i) => {
                assert forall|j: int| #[trigger] old(self).has_at(ino, j) implies j == i by {
                    if j < i {
                        assert(old(self).entries@[j].0 != old(self).entries@[i as int].0);
                    } else if j > i {
                        assert(old(self).entries@[i as int].0 != old(self).entries@[j].0);
                    }
                }
                let c = self.entries[i].1;
                if c == 2 {
                    self.entries.remove(i);
                    assert forall|a: int, b: int|
                        0 <= a < b < self.entries@.len() implies #[trigger] self.entries@[a].0
                        != #[trigger] self.entries@[b].0 by {
                        let a0 = if a < i { a } else { a + 1 };
                        let b0 = if b < i { b } else { b + 1 };
                        assert(old(self).entries@[a0].0 != old(self).entries@[b0].0);
                    }
                    assert forall|a: int| 0 <= a < self.entries@.len() implies #[trigger] self.entries@[a].1 >= 2 by {
                        let a0 = if a < i { a } else { a + 1 };
                        assert(self.entries@[a] == old(self).entries@[a0]);
                    }
                } else {
                    self.entries.set(i, (ino, c - 1));
                }
                true
            },
            None => false,
        }
    }

    /// The link count of inode `ino`, as `fstat` reports it.
    pub fn link_count(&self, ino: u32) -> (r: u32)
        requires
            self.wf(),
        ensures
            r as nat == self.count_of(ino),
    {
        match self.find(ino) {
            Some(i) => {
                assert forall|j: int| #[trigger] self.has_at(ino, j) implies j == i by {
                    if j < i {
                        assert(self.entries@[j].0 != self.entries@[i as int].0);
                    } else if j > i {
                        assert(self.entries@[i as int].0 != self.entries@[j].0);
                    }
                }
                self.entries[i].1
            },
            None => 1,
        }
    }
}

} // verus!
