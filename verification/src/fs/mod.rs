pub mod mails;

pub use mails::Mails;

use vstd::prelude::*;

verus! {

/// Flag bits that `open` knows: write-only (bit 0), read-write (bit 1),
/// create (bit 9) and truncate (bit 10); no bits means read-only.
pub const OPEN_FLAGS_KNOWN: u32 = 0x603;

/// Whether `flags` sets only bits that `open` knows.
pub open spec fn open_flags_valid(flags: u32) -> bool {
    flags & !OPEN_FLAGS_KNOWN == 0
}

/// What `fstat` reports of a file.
#[derive(Clone, Copy, PartialEq, Eq, Debug)]
pub struct Stat {
    pub dev: u64,
    pub ino: u64,
    pub mode: u32,
    pub nlink: u32,
}

/// An open file as a task's descriptor table holds it. `id` names the open
/// file object, so that two descriptors with the same `id` share it; the other
/// fields are what the kernel reads of the file when it decides a call.
#[derive(Clone, Copy, PartialEq, Eq, Debug)]
pub struct FileHandle {
    pub id: usize,
    pub readable: bool,
    pub writable: bool,
    pub stat: Option<Stat>,
}

/// What the kernel asks of an open file before it reads or writes it.
pub trait File {
    fn readable(&self) -> bool;

    fn writable(&self) -> bool;

    /// What the file reports to `fstat`; a file that keeps no such record
    /// reports nothing.
    fn get_stat(&self) -> (r: Option<Stat>)
        default_ensures
            r is None,
    {
        None
    }
}

impl File for FileHandle {
    fn readable(&self) -> (r: bool)
        ensures
            r == self.readable,
    {
        self.readable
    }

    fn writable(&self) -> (r: bool)
        ensures
            r == self.writable,
    {
        self.writable
    }

    fn get_stat(&self) -> (r: Option<Stat>)
        ensures
            r == self.stat,
    {
        self.stat
    }
}

} // verus!
