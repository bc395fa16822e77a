pub mod scheduler;

use vstd::prelude::*;
use std::collections::HashMap;
use crate::fs::{FileHandle, Mails};
use crate::fs::mails::{copy_bytes, MAX_MAILS_NUM};
use crate::mm::MemorySet;
use crate::task::scheduler::{advance, advance_stride, runs_before, Stride, BIG_STRIDE};

verus! {

broadcast use vstd::std_specs::hash::group_hash_axioms;

/// Where a task is in its life.
#[derive(Clone, Copy, PartialEq, Eq, Structural, Debug)]
pub enum TaskStatus {
    Ready,
    Running,
    Zombie,
}

/// A task (process) as the kernel keeps it.
pub struct Task {
    pub pid: usize,
    pub parent: Option<usize>,
    pub children: Vec<usize>,
    pub status: TaskStatus,
    pub exit_code: i32,
    pub fd_table: Vec<Option<FileHandle>>,
    pub mails: Mails,
    pub memory_set: MemorySet,
    pub priority: usize,
    pub stride: usize,
    pub a0: usize,
    pub args: Vec<Vec<u8>>,
}

/// The priority a task starts with.
pub const DEFAULT_PRIORITY: usize = 16;

/// A separate copy of an argument list.
pub fn copy_args(args: &Vec<Vec<u8>>) -> (c: Vec<Vec<u8>>)
    ensures
        c@.map_values(|a: Vec<u8>| a@) == args@.map_values(|a: Vec<u8>| a@),
{
    let mut c: Vec<Vec<u8>> = Vec::new();
    let mut i: usize = 0;
    while i < args.len()
        invariant
            i <= args@.len(),
            c@.len() == i,
            forall|j: int| 0 <= j < i ==> (#[trigger] c@[j])@ == args@[j]@,
        decreases args@.len() - i,
    {
        c.push(copy_bytes(&args[i]));
        i = i + 1;
    }
    assert(c@.map_values(|a: Vec<u8>| a@) =~= args@.map_values(|a: Vec<u8>| a@));
    c
}

impl Task {
    /// The arguments the task's program was started with.
    pub open spec fn args_view(&self) -> Seq<Seq<u8>> {
        self.args@.map_values(|a: Vec<u8>| a@)
    }

    /// A task's own consistency: no child listed twice, and its mailbox within bounds.
    pub open spec fn wf(&self) -> bool {
        &&& self.children@.no_duplicates()
        &&& self.mails@.len() <= MAX_MAILS_NUM
        &&& self.priority >= 2
    }

    /// The lowest descriptor that is free, or the table's length if none is.
    pub fn alloc_fd(&mut self) -> (fd: usize)
        requires
            old(self).fd_table@.len() < usize::MAX,
        ensures
            fd <= old(self).fd_table@.len(),
            forall|i: int| 0 <= i < fd ==> old(self).fd_table@[i] is Some,
            fd < old(self).fd_table@.len() ==> old(self).fd_table@[fd as int] is None
                && final(self).fd_table@ == old(self).fd_table@,
            fd == old(self).fd_table@.len() ==> final(self).fd_table@ == old(self).fd_table@.push(None),
            final(self).pid == old(self).pid,
            final(self).parent == old(self).parent,
            final(self).children == old(self).children,
            final(self).status == old(self).status,
            final(self).exit_code == old(self).exit_code,
            final(self).mails == old(self).mails,
            final(self).memory_set == old(self).memory_set,
            final(self).priority == old(self).priority,
            final(self).stride == old(self).stride,
            final(self).a0 == old(self).a0,
            final(self).args == old(self).args,
    {
        let mut fd: usize = 0;
        while fd < self.fd_table.len()
            invariant
                fd <= self.fd_table@.len(),
                forall|i: int| 0 <= i < fd ==> self.fd_table@[i] is Some,
            decreases self.fd_table@.len() - fd,
        {
            if self.fd_table[fd].is_none() {
                return fd;
            }
            fd = fd + 1;
        }
        self.fd_table.push(None);
        fd
    }
}

/// Hands out process ids: recycled ones first, the most recently freed first,
/// then fresh ones counting up.
pub struct PidAllocator {
    pub current: usize,
    pub recycled: Vec<usize>,
}

impl PidAllocator {
    pub fn new() -> (a: Self)
        ensures
            a.current == 0,
            a.recycled@ == Seq::<usize>::empty(),
    {
        PidAllocator { current: 0, recycled: Vec::new() }
    }

    /// Whether a pid can be handed out.
    pub open spec fn can_alloc(&self) -> bool {
        self.recycled@.len() > 0 || self.current < usize::MAX
    }

    pub fn allocate(&mut self) -> (pid: usize)
        requires
            old(self).can_alloc(),
        ensures
            old(self).recycled@.len() > 0 ==> pid == old(self).recycled@.last() && final(self).recycled@ == old(self).recycled@.drop_last() && final(self).current == old(self).current,
            old(self).recycled@.len() == 0 ==> pid == old(self).current && final(self).current
                == old(self).current + 1 && final(self).recycled@ == old(self).recycled@,
    {
        match self.recycled.pop() {
            Some(pid) => pid,
            None => {
                self.current = self.current + 1;
                self.current - 1
            },
        }
    }

    pub fn deallocate(&mut self, pid: usize)
        requires
            pid < old(self).current,
            !old(self).recycled@.contains(pid),
        ensures
            final(self).current == old(self).current,
            final(self).recycled@ == old(self).recycled@.push(pid),
    {
        self.recycled.push(pid);
    }
}

/// The kernel's task bookkeeping: every live task by pid (zombies included
/// until their parent reaps them), the task running now, the tasks ready to
/// run (the scheduler picks among them by stride), the first task, and the pid
/// allocator.
pub struct Kernel {
    pub tasks: HashMap<usize, Task>,
    pub current: Option<usize>,
    pub ready: Vec<usize>,
    pub initproc: usize,
    pub pids: PidAllocator,
}

/// Two task records that agree on everything the task tree and the scheduler read.
pub open spec fn same_family(a: Task, b: Task) -> bool {
    &&& a.pid == b.pid
    &&& a.parent == b.parent
    &&& a.children@ == b.children@
    &&& a.status == b.status
}

impl Kernel {
    #[verifier::inline]
    pub open spec fn has(&self, pid: usize) -> bool {
        self.tasks@.contains_key(pid)
    }

    #[verifier::inline]
    pub open spec fn task(&self, pid: usize) -> Task {
        self.tasks@[pid]
    }

    /// The pid of the running task.
    #[verifier::inline]
    pub open spec fn cur(&self) -> usize {
        self.current.unwrap()
    }

    /// The running task.
    #[verifier::inline]
    pub open spec fn cur_task(&self) -> Task {
        self.task(self.cur())
    }

    pub open spec fn pids_match(&self) -> bool {
        forall|p: usize| #[trigger] self.has(p) ==> self.task(p).pid == p && self.task(p).wf()
    }

    pub open spec fn current_wf(&self) -> bool {
        &&& (self.current is Some ==> self.has(self.cur()) && self.cur_task().status
            == TaskStatus::Running)
        &&& forall|p: usize|
            self.has(p) && #[trigger] self.task(p).status == TaskStatus::Running ==> self.current
                == Some(p)
    }

    pub open spec fn ready_wf(&self) -> bool {
        &&& self.ready@.no_duplicates()
        &&& forall|i: int|
            0 <= i < self.ready@.len() ==> self.has(#[trigger] self.ready@[i]) && self.task(
                self.ready@[i],
            ).status == TaskStatus::Ready
    }

    pub open spec fn initproc_wf(&self) -> bool {
        &&& self.has(self.initproc)
        &&& self.task(self.initproc).status != TaskStatus::Zombie
        &&& self.task(self.initproc).parent is None
    }

    /// Parents and children point at each other, nobody is its own parent, and a
    /// zombie has no children left.
    pub open spec fn family_wf(&self) -> bool {
        &&& forall|p: usize, c: usize|
            self.has(p) && #[trigger] self.task(p).children@.contains(c) ==> self.has(c)
                && self.task(c).parent == Some(p)
        &&& forall|c: usize|
            self.has(c) && #[trigger] self.task(c).parent is Some ==> self.has(
                self.task(c).parent.unwrap(),
            ) && self.task(self.task(c).parent.unwrap()).children@.contains(c)
        &&& forall|p: usize| #[trigger] self.has(p) ==> self.task(p).parent != Some(p)
        &&& forall|p: usize|
            self.has(p) && #[trigger] self.task(p).status == TaskStatus::Zombie ==> self.task(
                p,
            ).children@.len() == 0
    }

    /// No live task holds a pid that the allocator could hand out again.
    pub open spec fn pids_wf(&self) -> bool {
        &&& self.pids.recycled@.no_duplicates()
        &&& forall|i: int|
            0 <= i < self.pids.recycled@.len() ==> #[trigger] self.pids.recycled@[i]
                < self.pids.current && !self.has(self.pids.recycled@[i])
        &&& forall|p: usize| #[trigger] self.has(p) ==> p < self.pids.current
    }

    /// The kernel's invariant.
    pub open spec fn wf(&self) -> bool {
        &&& self.pids_match()
        &&& self.current_wf()
        &&& self.ready_wf()
        &&& self.initproc_wf()
        &&& self.family_wf()
        &&& self.pids_wf()
    }

    /// Everything but the record of task `pid` is as in `before`, and that
    /// record keeps its place in the task tree.
    pub open spec fn only_changed(&self, before: Kernel, pid: usize) -> bool {
        &&& self.current == before.current
        &&& self.ready@ == before.ready@
        &&& self.initproc == before.initproc
        &&& self.pids.current == before.pids.current
        &&& self.pids.recycled@ == before.pids.recycled@
        &&& self.tasks@.dom() == before.tasks@.dom()
        &&& forall|p: usize| p != pid ==> #[trigger] self.tasks@[p] == before.tasks@[p]
        &&& same_family(self.task(pid), before.task(pid))
    }

    /// `only_changed` for the running task.
    pub open spec fn only_current_changed(&self, before: Kernel) -> bool {
        self.only_changed(before, before.cur())
    }

    /// A kernel whose first task holds the console on descriptors 0, 1 and 2
    /// and waits to be queued.
    pub fn new(stdin: FileHandle, stdout: FileHandle) -> (k: Kernel)
        ensures
            k.wf(),
            k.initproc == 0,
            k.pids.current == 1,
            k.pids.recycled@ == Seq::<usize>::empty(),
            k.current is None,
            k.ready@ == Seq::<usize>::empty(),
            k.tasks@.dom() == set![0usize],
            k.task(0).status == TaskStatus::Ready,
            k.task(0).children@ == Seq::<usize>::empty(),
            k.task(0).fd_table@ == seq![Some(stdin), Some(stdout), Some(stdout)],
            k.task(0).mails@ == Seq::<Seq<u8>>::empty(),
            k.task(0).memory_set@ == Map::<usize, u8>::empty(),
            k.task(0).exit_code == 0,
            k.task(0).priority == DEFAULT_PRIORITY,
            k.task(0).stride == 0,
            k.task(0).a0 == 0,
            k.task(0).args_view() == Seq::<Seq<u8>>::empty(),
    {
        let mut pids = PidAllocator::new();
        let pid = pids.allocate();
        let mut fd_table: Vec<Option<FileHandle>> = Vec::new();
        fd_table.push(Some(stdin));
        fd_table.push(Some(stdout));
        fd_table.push(Some(stdout));
        let init = Task {
            pid,
            parent: None,
            children: Vec::new(),
            status: TaskStatus::Ready,
            exit_code: 0,
            fd_table,
            mails: Mails::new(),
            memory_set: MemorySet::new(),
            priority: DEFAULT_PRIORITY,
            stride: 0,
            a0: 0,
            args: Vec::new(),
        };
        let mut tasks: HashMap<usize, Task> = HashMap::new();
        tasks.insert(pid, init);
        let k = Kernel { tasks, current: None, ready: Vec::new(), initproc: pid, pids };
        proof {
            assert(k.tasks@.dom() =~= set![0usize]);
            assert(k.task(0).fd_table@ =~= seq![Some(stdin), Some(stdout), Some(stdout)]);
            assert(k.task(0).args_view() =~= Seq::<Seq<u8>>::empty());
        }
        k
    }

    /// Takes the record of task `pid` out of the table, to be put back with
    /// `put_task`.
    pub fn take_task(&mut self, pid: usize) -> (t: Task)
        requires
            old(self).has(pid),
        ensures
            t == old(self).task(pid),
            final(self).tasks@ == old(self).tasks@.remove(pid),
            final(self).current == old(self).current,
            final(self).ready == old(self).ready,
            final(self).initproc == old(self).initproc,
            final(self).pids == old(self).pids,
    {
        self.tasks.remove(&pid).unwrap()
    }

    /// Puts a task record into the table under its pid.
    pub fn put_task(&mut self, t: Task)
        ensures
            final(self).tasks@ == old(self).tasks@.insert(t.pid, t),
            final(self).current == old(self).current,
            final(self).ready == old(self).ready,
            final(self).initproc == old(self).initproc,
            final(self).pids == old(self).pids,
    {
        let pid = t.pid;
        self.tasks.insert(pid, t);
    }
}

impl Kernel {
    /// The running task, if there is one.
    pub fn current_task(&self) -> (r: Option<usize>)
        ensures
            r == self.current,
    {
        self.current
    }

    /// Finds a task that can be reached by pid: the running one, or one waiting
    /// in the ready queue.
    pub fn get_task_by_pid(&self, pid: usize) -> (r: Option<usize>)
        ensures
            r == (if self.current == Some(pid) || self.ready@.contains(pid) {
                Some(pid)
            } else {
                None
            }),
    {
        if self.current == Some(pid) {
            return Some(pid);
        }
        let mut i: usize = 0;
        while i < self.ready.len()
            invariant
                i <= self.ready@.len(),
                forall|j: int| 0 <= j < i ==> self.ready@[j] != pid,
            decreases self.ready@.len() - i,
        {
            if self.ready[i] == pid {
                return Some(pid);
            }
            i = i + 1;
        }
        None
    }

    /// Puts a ready task at the back of the ready queue.
    pub fn add_task(&mut self, pid: usize)
        requires
            old(self).wf(),
            old(self).has(pid),
            old(self).task(pid).status == TaskStatus::Ready,
            !old(self).ready@.contains(pid),
        ensures
            final(self).wf(),
            final(self).ready@ == old(self).ready@.push(pid),
            final(self).tasks@ == old(self).tasks@,
            final(self).current == old(self).current,
            final(self).initproc == old(self).initproc,
            final(self).pids == old(self).pids,
    {
        self.ready.push(pid);
        proof {
            assert forall|i: int, j: int|
                0 <= i < self.ready@.len() && 0 <= j < self.ready@.len() && i != j implies #[trigger] self.ready@[i]
                != #[trigger] self.ready@[j] by {
                if i == old(self).ready@.len() {
                    assert(old(self).ready@[j] == self.ready@[j]);
                } else if j == old(self).ready@.len() {
                    assert(old(self).ready@[i] == self.ready@[i]);
                }
            }
            assert forall|i: int| 0 <= i < self.ready@.len() implies self.has(
                #[trigger] self.ready@[i],
            ) && self.task(self.ready@[i]).status == TaskStatus::Ready by {
                if i < old(self).ready@.len() {
                    assert(self.ready@[i] == old(self).ready@[i]);
                }
            }
        }
    }

    /// Queues the first task.
    pub fn add_initproc(&mut self)
        requires
            old(self).wf(),
            old(self).task(old(self).initproc).status == TaskStatus::Ready,
            !old(self).ready@.contains(old(self).initproc),
        ensures
            final(self).wf(),
            final(self).ready@ == old(self).ready@.push(old(self).initproc),
            final(self).tasks@ == old(self).tasks@,
            final(self).current == old(self).current,
            final(self).initproc == old(self).initproc,
            final(self).pids == old(self).pids,
    {
        let init = self.initproc;
        self.add_task(init);
    }

    /// The scheduler's entry for task `pid`.
    pub open spec fn entry(&self, pid: usize) -> Stride {
        Stride { stride: self.task(pid).stride, pid }
    }

    /// When no task runs, takes the ready task with the smallest stride (the
    /// smallest pid among equal strides), advances its stride by
    /// `BIG_STRIDE / priority` and runs it; returns its pid, or `None` if no
    /// task is ready.
    pub fn run_next(&mut self) -> (r: Option<usize>)
        requires
            old(self).wf(),
            old(self).current is None,
        ensures
            final(self).wf(),
            final(self).initproc == old(self).initproc,
            final(self).pids == old(self).pids,
            old(self).ready@.len() == 0 ==> r is None && final(self).current is None
                && final(self).ready@ == old(self).ready@ && final(self).tasks@ == old(self).tasks@,
            old(self).ready@.len() > 0 ==> exists|i: int|
                0 <= i < old(self).ready@.len() && {
                    let p = #[trigger] old(self).ready@[i];
                    &&& r == Some(p)
                    &&& forall|j: int|
                        0 <= j < old(self).ready@.len() ==> !runs_before(
                            old(self).entry(#[trigger] old(self).ready@[j]),
                            old(self).entry(p),
                        )
                    &&& final(self).current == Some(p)
                    &&& final(self).ready@ == old(self).ready@.remove(i)
                    &&& final(self).tasks@.dom() == old(self).tasks@.dom()
                    &&& forall|q: usize| q != p ==> #[trigger] final(self).tasks@[q] == old(
                        self,
                    ).tasks@[q]
                    &&& final(self).task(p).status == TaskStatus::Running
                    &&& final(self).task(p).stride == advance(
                        old(self).task(p).stride,
                        BIG_STRIDE / old(self).task(p).priority,
                    )
                    &&& final(self).task(p).pid == old(self).task(p).pid
                    &&& final(self).task(p).parent == old(self).task(p).parent
                    &&& final(self).task(p).children == old(self).task(p).children
                    &&& final(self).task(p).exit_code == old(self).task(p).exit_code
                    &&& final(self).task(p).fd_table == old(self).task(p).fd_table
                    &&& final(self).task(p).mails == old(self).task(p).mails
                    &&& final(self).task(p).memory_set == old(self).task(p).memory_set
                    &&& final(self).task(p).priority == old(self).task(p).priority
                    &&& final(self).task(p).a0 == old(self).task(p).a0
                    &&& final(self).task(p).args == old(self).task(p).args
                },
    {
        if self.ready.len() == 0 {
            return None;
        }
        let ghost before = *self;
        assert(before.has(before.ready@[0]));
        let mut best: usize = 0;
        let mut best_stride = self.tasks.get(&self.ready[0]).unwrap().stride;
        let mut i: usize = 1;
        while i < self.ready.len()
            invariant
                before == *self,
                before.wf(),
                best < i <= self.ready@.len(),
                best_stride == self.task(self.ready@[best as int]).stride,
                forall|j: int|
                    0 <= j < i ==> !runs_before(
                        self.entry(#[trigger] self.ready@[j]),
                        self.entry(self.ready@[best as int]),
                    ),
            decreases self.ready@.len() - i,
        {
            let p = self.ready[i];
            assert(self.has(self.ready@[i as int]));
            let s = self.tasks.get(&p).unwrap().stride;
            if s < best_stride || (s == best_stride && p < self.ready[best]) {
                best = i;
                best_stride = s;
            }
            i = i + 1;
        }
        let pid = self.ready.remove(best);
        assert(before.has(pid));
        let mut t = self.take_task(pid);
        t.status = TaskStatus::Running;
        let pass = BIG_STRIDE / t.priority;
        t.stride = advance_stride(t.stride, pass);
        self.put_task(t);
        self.current = Some(pid);
        proof {
            let b = best as int;
            assert(before.ready@[b] == pid);
            assert forall|k: int| 0 <= k < self.ready@.len() implies #[trigger] self.ready@[k]
                == before.ready@[if k < b {
                k
            } else {
                k + 1
            }] by {}
            assert forall|x: int, y: int|
                0 <= x < self.ready@.len() && 0 <= y < self.ready@.len() && x != y implies #[trigger] self.ready@[x]
                != #[trigger] self.ready@[y] by {
                let x2 = if x < b { x } else { x + 1 };
                let y2 = if y < b { y } else { y + 1 };
                assert(self.ready@[x] == before.ready@[x2]);
                assert(self.ready@[y] == before.ready@[y2]);
            }
            assert(self.tasks@.dom() =~= before.tasks@.dom());
            assert forall|p: usize| #[trigger] before.has(p) implies same_tree(
                self.task(p),
                before.task(p),
            ) && self.task(p).wf() && (self.task(p).status == TaskStatus::Zombie ==> before.task(
                p,
            ).status == TaskStatus::Zombie) by {}
            lemma_same_tree_wf(before, *self);
            assert forall|p: usize|
                self.has(p) && #[trigger] self.task(p).status == TaskStatus::Running implies self.current
                == Some(p) by {
                if p != pid {
                    assert(before.has(p));
                    assert(before.task(p).status == TaskStatus::Running);
                }
            }
            assert forall|k: int| 0 <= k < self.ready@.len() implies self.has(
                #[trigger] self.ready@[k],
            ) && self.task(self.ready@[k]).status == TaskStatus::Ready by {
                let k2 = if k < b { k } else { k + 1 };
                assert(self.ready@[k] == before.ready@[k2]);
                assert(before.has(before.ready@[k2]));
            }
            assert(exists|i: int|
                0 <= i < before.ready@.len() && #[trigger] before.ready@[i] == pid && self.ready@
                    == before.ready@.remove(i)) by {
                assert(self.ready@ =~= before.ready@.remove(b));
            }
        }
        Some(pid)
    }
}

/// Two task records that agree on everything but the descriptor table, the
/// mailbox and the mapped pages.
pub open spec fn same_core(a: Task, b: Task) -> bool {
    &&& a.pid == b.pid
    &&& a.parent == b.parent
    &&& a.children == b.children
    &&& a.status == b.status
    &&& a.exit_code == b.exit_code
    &&& a.priority == b.priority
    &&& a.stride == b.stride
    &&& a.a0 == b.a0
    &&& a.args == b.args
}

/// Two task records that agree on everything but status, parent and children.
pub open spec fn same_contents(a: Task, b: Task) -> bool {
    &&& a.pid == b.pid
    &&& a.exit_code == b.exit_code
    &&& a.fd_table == b.fd_table
    &&& a.mails == b.mails
    &&& a.memory_set == b.memory_set
    &&& a.priority == b.priority
    &&& a.stride == b.stride
    &&& a.a0 == b.a0
    &&& a.args == b.args
}

impl Task {
    /// A copy of the descriptor table; both copies name the same open files.
    pub fn copy_fd_table(&self) -> (fds: Vec<Option<FileHandle>>)
        ensures
            fds@ == self.fd_table@,
    {
        let mut fds: Vec<Option<FileHandle>> = Vec::new();
        let mut i: usize = 0;
        while i < self.fd_table.len()
            invariant
                i <= self.fd_table@.len(),
                fds@ == self.fd_table@.subrange(0, i as int),
            decreases self.fd_table@.len() - i,
        {
            fds.push(self.fd_table[i]);
            i = i + 1;
            assert(fds@ =~= self.fd_table@.subrange(0, i as int));
        }
        assert(fds@ =~= self.fd_table@);
        fds
    }
}

impl Kernel {
    /// Takes the running task off the processor and puts it at the back of the
    /// ready queue; the next task to run is picked later.
    pub fn suspend_current_and_run_next(&mut self)
        requires
            old(self).wf(),
            old(self).current is Some,
        ensures
            final(self).wf(),
            final(self).current is None,
            final(self).ready@ == old(self).ready@.push(old(self).cur()),
            final(self).initproc == old(self).initproc,
            final(self).pids == old(self).pids,
            final(self).tasks@.dom() == old(self).tasks@.dom(),
            forall|q: usize| q != old(self).cur() ==> #[trigger] final(self).tasks@[q] == old(
                self,
            ).tasks@[q],
            final(self).task(old(self).cur()).status == TaskStatus::Ready,
            final(self).task(old(self).cur()).parent == old(self).cur_task().parent,
            final(self).task(old(self).cur()).children == old(self).cur_task().children,
            same_contents(final(self).task(old(self).cur()), old(self).cur_task()),
    {
        let ghost before = *self;
        let c = self.current.unwrap();
        let mut t = self.take_task(c);
        t.status = TaskStatus::Ready;
        self.put_task(t);
        self.current = None;
        self.ready.push(c);
        proof {
            assert(!before.ready@.contains(c)) by {
                if before.ready@.contains(c) {
                    let i = choose|i: int| 0 <= i < before.ready@.len() && before.ready@[i] == c;
                    assert(before.task(before.ready@[i]).status == TaskStatus::Ready);
                }
            }
            assert(self.tasks@.dom() =~= before.tasks@.dom());
            assert forall|i: int, j: int|
                0 <= i < self.ready@.len() && 0 <= j < self.ready@.len() && i != j implies #[trigger] self.ready@[i]
                != #[trigger] self.ready@[j] by {
                if i == before.ready@.len() {
                    assert(before.ready@[j] == self.ready@[j]);
                } else if j == before.ready@.len() {
                    assert(before.ready@[i] == self.ready@[i]);
                }
            }
            assert forall|i: int| 0 <= i < self.ready@.len() implies self.has(
                #[trigger] self.ready@[i],
            ) && self.task(self.ready@[i]).status == TaskStatus::Ready by {
                if i < before.ready@.len() {
                    assert(self.ready@[i] == before.ready@[i]);
                    assert(before.has(before.ready@[i]));
                }
            }
            assert forall|p: usize| #[trigger] before.has(p) implies same_tree(
                self.task(p),
                before.task(p),
            ) && self.task(p).wf() && (self.task(p).status == TaskStatus::Zombie ==> before.task(
                p,
            ).status == TaskStatus::Zombie) by {}
            lemma_same_tree_wf(before, *self);
            assert forall|p: usize|
                self.has(p) && #[trigger] self.task(p).status == TaskStatus::Running implies self.current
                == Some(p) by {
                assert(before.task(p).status == TaskStatus::Running);
            }
        }
    }

    /// Maps an area of the running task's memory; see
    /// `MemorySet::insert_framed_area`.
    pub fn insert_framed_area(&mut self, start_va: usize, end_va: usize, perm: u8) -> (r: Result<
        (),
        (),
    >)
        requires
            old(self).wf(),
            old(self).current is Some,
        ensures
            final(self).wf(),
            final(self).only_current_changed(*old(self)),
            final(self).cur_task().fd_table == old(self).cur_task().fd_table,
            final(self).cur_task().mails == old(self).cur_task().mails,
            final(self).cur_task().exit_code == old(self).cur_task().exit_code,
            same_core(final(self).cur_task(), old(self).cur_task()),
            r is Err <==> crate::mm::any_mapped(
                old(self).cur_task().memory_set@,
                crate::mm::page_floor(start_va as nat),
                crate::mm::page_ceil(end_va as nat),
            ),
            r is Ok ==> final(self).cur_task().memory_set@ == crate::mm::with_range(
                old(self).cur_task().memory_set@,
                crate::mm::page_floor(start_va as nat),
                crate::mm::page_ceil(end_va as nat),
                perm,
            ),
            r is Err ==> final(self).tasks@ == old(self).tasks@,
    {
        let ghost before = *self;
        let c = self.current.unwrap();
        let mut t = self.take_task(c);
        let r = t.memory_set.insert_framed_area(start_va, end_va, perm);
        self.put_task(t);
        proof {
            assert(self.tasks@ =~= before.tasks@.insert(c, self.task(c)));
            lemma_task_update_wf(before, *self, c);
            if r is Err {
                assert(self.tasks@ =~= before.tasks@);
            }
        }
        r
    }

    /// Unmaps an area of the running task's memory; see
    /// `MemorySet::remove_framed_area`.
    pub fn remove_framed_area(&mut self, start_va: usize, end_va: usize) -> (r: Result<(), ()>)
        requires
            old(self).wf(),
            old(self).current is Some,
        ensures
            final(self).wf(),
            final(self).only_current_changed(*old(self)),
            final(self).cur_task().fd_table == old(self).cur_task().fd_table,
            final(self).cur_task().mails == old(self).cur_task().mails,
            final(self).cur_task().exit_code == old(self).cur_task().exit_code,
            same_core(final(self).cur_task(), old(self).cur_task()),
            r is Ok <==> crate::mm::all_mapped(
                old(self).cur_task().memory_set@,
                crate::mm::page_floor(start_va as nat),
                crate::mm::page_ceil(end_va as nat),
            ),
            r is Ok ==> final(self).cur_task().memory_set@ == crate::mm::without_range(
                old(self).cur_task().memory_set@,
                crate::mm::page_floor(start_va as nat),
                crate::mm::page_ceil(end_va as nat),
            ),
            r is Err ==> final(self).tasks@ == old(self).tasks@,
    {
        let ghost before = *self;
        let c = self.current.unwrap();
        let mut t = self.take_task(c);
        let r = t.memory_set.remove_framed_area(start_va, end_va);
        self.put_task(t);
        proof {
            assert(self.tasks@ =~= before.tasks@.insert(c, self.task(c)));
            lemma_task_update_wf(before, *self, c);
            if r is Err {
                assert(self.tasks@ =~= before.tasks@);
            }
        }
        r
    }

    /// Replaces task `pid`'s program with one started on `args`: the pages it
    /// mapped for itself are gone, and it finds the number of arguments in a0;
    /// its descriptors, mailbox and priority stay.
    pub fn exec_task(&mut self, pid: usize, args: Vec<Vec<u8>>)
        requires
            old(self).wf(),
            old(self).has(pid),
        ensures
            final(self).wf(),
            final(self).only_changed(*old(self), pid),
            final(self).task(pid).fd_table == old(self).task(pid).fd_table,
            final(self).task(pid).mails == old(self).task(pid).mails,
            final(self).task(pid).exit_code == old(self).task(pid).exit_code,
            final(self).task(pid).priority == old(self).task(pid).priority,
            final(self).task(pid).stride == old(self).task(pid).stride,
            final(self).task(pid).memory_set@ == Map::<usize, u8>::empty(),
            final(self).task(pid).args@ == args@,
            final(self).task(pid).a0 == args@.len(),
    {
        let ghost before = *self;
        let mut t = self.take_task(pid);
        t.memory_set = MemorySet::new();
        t.a0 = args.len();
        t.args = args;
        self.put_task(t);
        proof {
            assert(self.tasks@ =~= before.tasks@.insert(pid, self.task(pid)));
            lemma_task_update_wf(before, *self, pid);
        }
    }
}

impl Kernel {
    /// Gives the running task priority `prio`.
    pub fn set_priority(&mut self, prio: usize)
        requires
            prio >= 2,
            old(self).wf(),
            old(self).current is Some,
        ensures
            final(self).wf(),
            final(self).only_current_changed(*old(self)),
            final(self).cur_task().priority == prio,
            final(self).cur_task().fd_table == old(self).cur_task().fd_table,
            final(self).cur_task().mails == old(self).cur_task().mails,
            final(self).cur_task().memory_set == old(self).cur_task().memory_set,
            final(self).cur_task().exit_code == old(self).cur_task().exit_code,
            final(self).cur_task().stride == old(self).cur_task().stride,
            final(self).cur_task().a0 == old(self).cur_task().a0,
            final(self).cur_task().args == old(self).cur_task().args,
    {
        let ghost before = *self;
        let c = self.current.unwrap();
        let mut t = self.take_task(c);
        t.priority = prio;
        self.put_task(t);
        proof {
            assert(self.tasks@ =~= before.tasks@.insert(c, self.task(c)));
            lemma_task_update_wf(before, *self, c);
        }
    }

    /// Whether a new pid can be handed out.
    pub open spec fn can_fork(&self) -> bool {
        self.pids.can_alloc()
    }

    /// The pid that the next new task gets.
    pub open spec fn next_pid(&self) -> usize {
        if self.pids.recycled@.len() > 0 {
            self.pids.recycled@.last()
        } else {
            self.pids.current
        }
    }

    /// Makes a child of the running task: a new ready task, not yet queued,
    /// with a copy of the parent's memory, arguments, descriptor table and
    /// mailbox, no children, the starting priority, and 0 in a0, which is what
    /// the child sees `fork` return. Returns the child's pid.
    pub fn fork_current(&mut self) -> (child: usize)
        requires
            old(self).wf(),
            old(self).current is Some,
            old(self).can_fork(),
        ensures
            final(self).wf(),
            child == old(self).next_pid(),
            !old(self).has(child),
            final(self).current == old(self).current,
            final(self).ready@ == old(self).ready@,
            final(self).initproc == old(self).initproc,
            final(self).pids.current == (if old(self).pids.recycled@.len() > 0 {
                old(self).pids.current as int
            } else {
                old(self).pids.current + 1
            }),
            final(self).pids.recycled@ == (if old(self).pids.recycled@.len() > 0 {
                old(self).pids.recycled@.drop_last()
            } else {
                old(self).pids.recycled@
            }),
            final(self).tasks@.dom() == old(self).tasks@.dom().insert(child),
            forall|q: usize|
                q != old(self).cur() && q != child ==> #[trigger] final(self).tasks@[q] == old(
                    self,
                ).tasks@[q],
            final(self).cur_task().children@ == old(self).cur_task().children@.push(child),
            final(self).cur_task().status == old(self).cur_task().status,
            final(self).cur_task().parent == old(self).cur_task().parent,
            same_contents(final(self).cur_task(), old(self).cur_task()),
            final(self).task(child).pid == child,
            final(self).task(child).parent == Some(old(self).cur()),
            final(self).task(child).children@ == Seq::<usize>::empty(),
            final(self).task(child).status == TaskStatus::Ready,
            final(self).task(child).exit_code == 0,
            final(self).task(child).fd_table@ == old(self).cur_task().fd_table@,
            final(self).task(child).mails@ == old(self).cur_task().mails@,
            final(self).task(child).memory_set@ == old(self).cur_task().memory_set@,
            final(self).task(child).priority == DEFAULT_PRIORITY,
            final(self).task(child).stride == 0,
            final(self).task(child).a0 == 0,
            final(self).task(child).args_view() == old(self).cur_task().args_view(),
    {
        let ghost before = *self;
        let c = self.current.unwrap();
        let new_pid = self.pids.allocate();
        proof {
            if before.pids.recycled@.len() > 0 {
                let i = before.pids.recycled@.len() - 1;
                assert(!before.has(before.pids.recycled@[i]));
            }
        }
        let mut parent = self.take_task(c);
        let fd_table = parent.copy_fd_table();
        let memory_set = parent.memory_set.copy();
        let mails = parent.mails.copy();
        let args = copy_args(&parent.args);
        let child = Task {
            pid: new_pid,
            parent: Some(c),
            children: Vec::new(),
            status: TaskStatus::Ready,
            exit_code: 0,
            fd_table,
            mails,
            memory_set,
            priority: DEFAULT_PRIORITY,
            stride: 0,
            a0: 0,
            args,
        };
        parent.children.push(new_pid);
        self.put_task(parent);
        self.put_task(child);
        proof {
            let t = self.tasks@;
            assert(t.dom() =~= before.tasks@.dom().insert(new_pid));
            assert(self.task(c).children@.no_duplicates()) by {
                assert(!before.task(c).children@.contains(new_pid));
                assert forall|i: int, j: int|
                    0 <= i < self.task(c).children@.len() && 0 <= j < self.task(c).children@.len()
                        && i != j implies #[trigger] self.task(c).children@[i] != #[trigger] self.task(
                    c,
                ).children@[j] by {
                    let n = before.task(c).children@.len() as int;
                    if i == n {
                        assert(before.task(c).children@[j] == self.task(c).children@[j]);
                    } else if j == n {
                        assert(before.task(c).children@[i] == self.task(c).children@[i]);
                    }
                }
            }
            assert forall|p: usize| #[trigger] self.has(p) implies self.task(p).pid == p
                && self.task(p).wf() by {
                if p != new_pid && p != c {
                    assert(before.has(p));
                }
            }
            assert forall|p: usize|
                self.has(p) && #[trigger] self.task(p).status == TaskStatus::Running implies self.current
                == Some(p) by {
                if p != new_pid {
                    assert(before.has(p));
                }
            }
            assert forall|i: int| 0 <= i < self.ready@.len() implies self.has(
                #[trigger] self.ready@[i],
            ) && self.task(self.ready@[i]).status == TaskStatus::Ready by {
                assert(before.has(before.ready@[i]));
            }
            assert forall|p: usize, q: usize|
                self.has(p) && #[trigger] self.task(p).children@.contains(q) implies self.has(q)
                && self.task(q).parent == Some(p) by {
                if p == c {
                    if q != new_pid {
                        let k = choose|k: int|
                            0 <= k < self.task(c).children@.len() && self.task(c).children@[k] == q;
                        assert(before.task(c).children@[k] == q);
                        assert(before.task(c).children@.contains(q));
                    }
                } else if p != new_pid {
                    assert(before.has(p));
                    assert(before.task(p).children@.contains(q));
                    assert(before.has(q));
                    assert(q != new_pid);
                }
            }
            assert forall|q: usize|
                self.has(q) && #[trigger] self.task(q).parent is Some implies self.has(
                self.task(q).parent.unwrap(),
            ) && self.task(self.task(q).parent.unwrap()).children@.contains(q) by {
                if q == new_pid {
                    assert(self.task(c).children@[self.task(c).children@.len() - 1] == new_pid);
                } else {
                    assert(before.has(q));
                    assert(before.task(q).parent is Some);
                    let pp = before.task(q).parent.unwrap();
                    assert(before.has(pp));
                    assert(before.task(pp).children@.contains(q));
                    if pp == c {
                        let k = choose|k: int|
                            0 <= k < before.task(c).children@.len() && before.task(c).children@[k]
                                == q;
                        assert(self.task(c).children@[k] == q);
                    }
                }
            }
            assert forall|p: usize| #[trigger] self.has(p) implies self.task(p).parent != Some(p) by {
                if p != new_pid {
                    assert(before.has(p));
                }
            }
            assert forall|p: usize|
                self.has(p) && #[trigger] self.task(p).status == TaskStatus::Zombie implies self.task(
                p,
            ).children@.len() == 0 by {
                if p != new_pid {
                    assert(before.has(p));
                    assert(before.task(p).status == TaskStatus::Zombie);
                }
            }
            assert forall|i: int| 0 <= i < self.pids.recycled@.len() implies #[trigger] self.pids.recycled@[i]
                < self.pids.current && !self.has(self.pids.recycled@[i]) by {
                assert(self.pids.recycled@[i] == before.pids.recycled@[i]);
                assert(!before.has(before.pids.recycled@[i]));
                if before.pids.recycled@.len() > 0 {
                    assert(self.pids.recycled@[i] != before.pids.recycled@[before.pids.recycled@.len() - 1]);
                }
            }
            assert forall|p: usize| #[trigger] self.has(p) implies p < self.pids.current by {
                if p != new_pid {
                    assert(before.has(p));
                }
            }
        }
        new_pid
    }
}

impl Kernel {
    /// Ends the running task: it becomes a zombie holding `exit_code`, its
    /// children are handed to the first task, and the pages it mapped are
    /// freed; the processor is left free for the next task. Its descriptors and
    /// mailbox stay until its parent reaps it.
    pub fn exit_current_and_run_next(&mut self, exit_code: i32)
        requires
            old(self).wf(),
            old(self).current is Some,
            old(self).cur() != old(self).initproc,
        ensures
            final(self).wf(),
            final(self).current is None,
            final(self).ready@ == old(self).ready@,
            final(self).initproc == old(self).initproc,
            final(self).pids == old(self).pids,
            final(self).tasks@.dom() == old(self).tasks@.dom(),
            final(self).task(old(self).cur()).status == TaskStatus::Zombie,
            final(self).task(old(self).cur()).exit_code == exit_code,
            final(self).task(old(self).cur()).children@ == Seq::<usize>::empty(),
            final(self).task(old(self).cur()).memory_set@ == Map::<usize, u8>::empty(),
            final(self).task(old(self).cur()).parent == old(self).cur_task().parent,
            final(self).task(old(self).cur()).fd_table == old(self).cur_task().fd_table,
            final(self).task(old(self).cur()).mails == old(self).cur_task().mails,
        final(self).task(old(self).cur()).pid == old(self).cur_task().pid,
        final(self).task(old(self).cur()).priority == old(self).cur_task().priority,
        final(self).task(old(self).cur()).stride == old(self).cur_task().stride,
        final(self).task(old(self).cur()).a0 == old(self).cur_task().a0,
        final(self).task(old(self).cur()).args == old(self).cur_task().args,
            final(self).task(old(self).initproc).children@ == old(self).task(
                old(self).initproc,
            ).children@ + old(self).cur_task().children@,
            final(self).task(old(self).initproc).status == old(self).task(old(self).initproc).status,
            final(self).task(old(self).initproc).parent == old(self).task(old(self).initproc).parent,
            same_contents(final(self).task(old(self).initproc), old(self).task(old(self).initproc)),
            forall|q: usize|
                old(self).cur_task().children@.contains(q) ==> {
                    &&& #[trigger] final(self).task(q).parent == Some(old(self).initproc)
                    &&& final(self).task(q).children == old(self).task(q).children
                    &&& final(self).task(q).status == old(self).task(q).status
                    &&& same_contents(final(self).task(q), old(self).task(q))
                },
            forall|q: usize|
                old(self).has(q) && q != old(self).cur() && q != old(self).initproc && !old(
                    self,
                ).cur_task().children@.contains(q) ==> #[trigger] final(self).tasks@[q] == old(
                    self,
                ).tasks@[q],
    {
        let ghost before = *self;
        let c = self.current.unwrap();
        let init_pid = self.initproc;
        let mut t = self.take_task(c);
        let mut init = self.take_task(init_pid);
        let ghost kids = t.children@;
        proof {
            assert forall|q: usize| kids.contains(q) implies before.has(q) && before.task(q).parent
                == Some(c) && q != c && q != init_pid by {
                assert(before.task(c).children@.contains(q));
            }
        }
        let mut i: usize = 0;
        while i < t.children.len()
            invariant
                i <= kids.len(),
                before.wf(),
                before.current == Some(c),
                before.initproc == init_pid,
                c != init_pid,
                t == before.task(c),
                init.parent == before.task(init_pid).parent,
                init.status == before.task(init_pid).status,
                same_contents(init, before.task(init_pid)),
                t.children@ == kids,
                kids.no_duplicates(),
                forall|q: usize| #[trigger] kids.contains(q) ==> before.has(q) && before.task(q).parent
                    == Some(c) && q != c && q != init_pid,
                init.children@ == before.task(init_pid).children@ + kids.subrange(0, i as int),
                init.pid == init_pid,
                self.tasks@.dom() == before.tasks@.dom().remove(c).remove(init_pid),
                forall|j: int|
                    0 <= j < i ==> {
                        let q = #[trigger] kids[j];
                        &&& self.task(q).parent == Some(init_pid)
                        &&& self.task(q).children == before.task(q).children
                        &&& self.task(q).status == before.task(q).status
                        &&& same_contents(self.task(q), before.task(q))
                    },
                forall|q: usize|
                    self.has(q) && !kids.subrange(0, i as int).contains(q) ==> #[trigger] self.tasks@[q]
                        == before.tasks@[q],
                self.current == before.current,
                self.ready == before.ready,
                self.initproc == before.initproc,
                self.pids == before.pids,
            decreases kids.len() - i,
        {
            let q = t.children[i];
            assert(kids.contains(q));
            assert(!kids.subrange(0, i as int).contains(q)) by {
                if kids.subrange(0, i as int).contains(q) {
                    let k = choose|k: int| 0 <= k < i && kids.subrange(0, i as int)[k] == q;
                    assert(kids[k] == kids[i as int]);
                }
            }
            let mut child = self.take_task(q);
            child.parent = Some(init_pid);
            self.put_task(child);
            init.children.push(q);
            i = i + 1;
            proof {
                assert(init.children@ =~= before.task(init_pid).children@ + kids.subrange(
                    0,
                    i as int,
                ));
                assert(self.tasks@.dom() =~= before.tasks@.dom().remove(c).remove(init_pid));
                assert forall|q2: usize|
                    self.has(q2) && !kids.subrange(0, i as int).contains(q2) implies #[trigger] self.tasks@[q2]
                    == before.tasks@[q2] by {
                    assert(kids.subrange(0, i as int)[i - 1] == q);
                    let prev = kids.subrange(0, i - 1);
                    if prev.contains(q2) {
                        let k = choose|k: int| 0 <= k < prev.len() && prev[k] == q2;
                        assert(kids.subrange(0, i as int)[k] == q2);
                    }
                }
            }
        }
        t.children.clear();
        t.status = TaskStatus::Zombie;
        t.exit_code = exit_code;
        t.memory_set = MemorySet::new();
        self.put_task(t);
        self.put_task(init);
        self.current = None;
        proof {
            assert(kids.subrange(0, kids.len() as int) =~= kids);
            assert(self.tasks@.dom() =~= before.tasks@.dom());
            assert forall|q: usize| kids.contains(q) implies {
                &&& #[trigger] self.task(q).parent == Some(init_pid)
                &&& self.task(q).children == before.task(q).children
                &&& self.task(q).status == before.task(q).status
                &&& same_contents(self.task(q), before.task(q))
            } by {
                let k = choose|k: int| 0 <= k < kids.len() && kids[k] == q;
            }
            let t_init = self.task(init_pid);
            assert(t_init.wf()) by {
                assert forall|a: int, b: int|
                    0 <= a < t_init.children@.len() && 0 <= b < t_init.children@.len() && a != b implies #[trigger] t_init.children@[a]
                    != #[trigger] t_init.children@[b] by {
                    let n = before.task(init_pid).children@.len() as int;
                    if a < n && b >= n {
                        let qa = before.task(init_pid).children@[a];
                        assert(before.task(init_pid).children@.contains(qa));
                        assert(kids.contains(t_init.children@[b]));
                    } else if a >= n && b < n {
                        let qb = before.task(init_pid).children@[b];
                        assert(before.task(init_pid).children@.contains(qb));
                        assert(kids.contains(t_init.children@[a]));
                    } else if a >= n && b >= n {
                        assert(t_init.children@[a] == kids[a - n]);
                        assert(t_init.children@[b] == kids[b - n]);
                    }
                }
            }
            assert forall|p: usize| #[trigger] self.has(p) implies self.task(p).pid == p
                && self.task(p).wf() by {
                assert(before.has(p));
            }
            assert forall|p: usize|
                self.has(p) && #[trigger] self.task(p).status == TaskStatus::Running implies self.current
                == Some(p) by {
                assert(before.has(p));
                if p != c {
                    assert(before.task(p).status == TaskStatus::Running);
                }
            }
            assert forall|i: int| 0 <= i < self.ready@.len() implies self.has(
                #[trigger] self.ready@[i],
            ) && self.task(self.ready@[i]).status == TaskStatus::Ready by {
                assert(before.has(before.ready@[i]));
                if self.ready@[i] == c {
                    assert(before.task(c).status == TaskStatus::Ready);
                }
            }
            assert forall|p: usize, q: usize|
                self.has(p) && #[trigger] self.task(p).children@.contains(q) implies self.has(q)
                && self.task(q).parent == Some(p) by {
                assert(before.has(p));
                if p == init_pid {
                    let k = choose|k: int|
                        0 <= k < self.task(p).children@.len() && self.task(p).children@[k] == q;
                    let n = before.task(init_pid).children@.len() as int;
                    if k < n {
                        assert(before.task(init_pid).children@.contains(q));
                        assert(before.task(q).parent == Some(init_pid));
                        assert(!kids.contains(q));
                    } else {
                        assert(kids[k - n] == q);
                        assert(kids.contains(q));
                    }
                } else if p != c {
                    assert(before.task(p).children@.contains(q));
                    assert(before.task(q).parent == Some(p));
                    if kids.contains(q) {
                        assert(false);
                    }
                }
            }
            assert forall|q: usize|
                self.has(q) && #[trigger] self.task(q).parent is Some implies self.has(
                self.task(q).parent.unwrap(),
            ) && self.task(self.task(q).parent.unwrap()).children@.contains(q) by {
                assert(before.has(q));
                if kids.contains(q) {
                    let k = choose|k: int| 0 <= k < kids.len() && kids[k] == q;
                    let n = before.task(init_pid).children@.len() as int;
                    assert(self.task(init_pid).children@[n + k] == q);
                } else {
                    assert(before.task(q).parent is Some);
                    let pp = before.task(q).parent.unwrap();
                    assert(before.task(pp).children@.contains(q));
                    assert(pp != c);
                    if pp == init_pid {
                        let k = choose|k: int|
                            0 <= k < before.task(init_pid).children@.len() && before.task(
                                init_pid,
                            ).children@[k] == q;
                        assert(self.task(init_pid).children@[k] == q);
                    }
                }
            }
            assert forall|p: usize| #[trigger] self.has(p) implies self.task(p).parent != Some(p) by {
                assert(before.has(p));
            }
            assert forall|p: usize|
                self.has(p) && #[trigger] self.task(p).status == TaskStatus::Zombie implies self.task(
                p,
            ).children@.len() == 0 by {
                assert(before.has(p));
                if p != c {
                    assert(before.task(p).status == TaskStatus::Zombie);
                }
            }
            assert forall|i: int| 0 <= i < self.pids.recycled@.len() implies #[trigger] self.pids.recycled@[i]
                < self.pids.current && !self.has(self.pids.recycled@[i]) by {
                assert(!before.has(before.pids.recycled@[i]));
            }
            assert forall|p: usize| #[trigger] self.has(p) implies p < self.pids.current by {
                assert(before.has(p));
            }
        }
    }
}

/// In a consistent kernel no mailbox holds more than 16 mails.
pub proof fn mailbox_bounded(k: Kernel, pid: usize)
    requires
        k.wf(),
        k.has(pid),
    ensures
        k.task(pid).mails@.len() <= MAX_MAILS_NUM,
        MAX_MAILS_NUM == 16,
{
}

/// Two task records that hold the same place in the task tree.
pub open spec fn same_tree(a: Task, b: Task) -> bool {
    &&& a.pid == b.pid
    &&& a.parent == b.parent
    &&& a.children@ == b.children@
}

/// The parts of the kernel's invariant that concern the task tree and the pid
/// allocator hold after any change that keeps every task's place in the tree,
/// makes no new zombie and keeps each record consistent.
pub proof fn lemma_same_tree_wf(before: Kernel, after: Kernel)
    requires
        before.wf(),
        after.tasks@.dom() == before.tasks@.dom(),
        after.initproc == before.initproc,
        after.pids.current == before.pids.current,
        after.pids.recycled@ == before.pids.recycled@,
        forall|p: usize|
            #[trigger] before.has(p) ==> same_tree(after.task(p), before.task(p)) && after.task(
                p,
            ).wf() && (after.task(p).status == TaskStatus::Zombie ==> before.task(p).status
                == TaskStatus::Zombie),
    ensures
        after.pids_match(),
        after.initproc_wf(),
        after.family_wf(),
        after.pids_wf(),
{
    assert(before.has(after.initproc));
    assert forall|p: usize| #[trigger] after.has(p) implies after.task(p).pid == p && after.task(
        p,
    ).wf() by {
        assert(before.has(p));
    }
    assert forall|p: usize, q: usize|
        after.has(p) && #[trigger] after.task(p).children@.contains(q) implies after.has(q)
        && after.task(q).parent == Some(p) by {
        assert(before.has(p));
        assert(before.task(p).children@.contains(q));
        assert(before.has(q));
    }
    assert forall|q: usize|
        after.has(q) && #[trigger] after.task(q).parent is Some implies after.has(
        after.task(q).parent.unwrap(),
    ) && after.task(after.task(q).parent.unwrap()).children@.contains(q) by {
        assert(before.has(q));
        assert(before.task(q).parent is Some);
        assert(before.has(before.task(q).parent.unwrap()));
    }
    assert forall|p: usize| #[trigger] after.has(p) implies after.task(p).parent != Some(p) by {
        assert(before.has(p));
    }
    assert forall|p: usize|
        after.has(p) && #[trigger] after.task(p).status == TaskStatus::Zombie implies after.task(
        p,
    ).children@.len() == 0 by {
        assert(before.has(p));
        assert(before.task(p).status == TaskStatus::Zombie);
    }
    assert forall|i: int| 0 <= i < after.pids.recycled@.len() implies #[trigger] after.pids.recycled@[i]
        < after.pids.current && !after.has(after.pids.recycled@[i]) by {
        assert(!before.has(before.pids.recycled@[i]));
    }
    assert forall|p: usize| #[trigger] after.has(p) implies p < after.pids.current by {
        assert(before.has(p));
    }
}

/// Changing one task's record in ways that leave its place in the task tree
/// alone keeps the kernel's invariant.
pub proof fn lemma_task_update_wf(before: Kernel, after: Kernel, c: usize)
    requires
        before.wf(),
        before.has(c),
        after.only_changed(before, c),
        after.task(c).wf(),
    ensures
        after.wf(),
{
    assert forall|p: usize| #[trigger] before.has(p) implies same_tree(after.task(p), before.task(p))
        && after.task(p).wf() && (after.task(p).status == TaskStatus::Zombie ==> before.task(
        p,
    ).status == TaskStatus::Zombie) by {}
    lemma_same_tree_wf(before, after);
    assert forall|p: usize|
        after.has(p) && #[trigger] after.task(p).status == TaskStatus::Running implies after.current
        == Some(p) by {
        assert(before.has(p));
        if p != c {
            assert(before.task(p).status == TaskStatus::Running);
        }
    }
    assert forall|i: int| 0 <= i < after.ready@.len() implies after.has(#[trigger] after.ready@[i])
        && after.task(after.ready@[i]).status == TaskStatus::Ready by {
        assert(before.has(before.ready@[i]));
    }
}

} // verus!
