use vstd::prelude::*;
use crate::mm::{
    ceil, page_ceil, page_floor, any_mapped, all_mapped, with_range, without_range, PAGE_SIZE,
    PERM_R, PERM_U, PERM_W, PERM_X,
};
use crate::task::{Kernel, TaskStatus, same_contents, same_core, DEFAULT_PRIORITY};

verus! {

broadcast use vstd::std_specs::hash::group_hash_axioms;

/// A point in time as seconds and microseconds.
#[derive(Clone, Copy, PartialEq, Eq, Debug)]
pub struct TimeVal {
    pub sec: usize,
    pub usec: usize,
}

/// Ends the running task with `exit_code`; see
/// `Kernel::exit_current_and_run_next`.
pub fn sys_exit(kernel: &mut Kernel, exit_code: i32)
    requires
        old(kernel).wf(),
        old(kernel).current is Some,
        old(kernel).cur() != old(kernel).initproc,
    ensures
        final(kernel).wf(),
        final(kernel).current is None,
        final(kernel).ready@ == old(kernel).ready@,
        final(kernel).initproc == old(kernel).initproc,
        final(kernel).pids == old(kernel).pids,
        final(kernel).tasks@.dom() == old(kernel).tasks@.dom(),
        final(kernel).task(old(kernel).cur()).status == TaskStatus::Zombie,
        final(kernel).task(old(kernel).cur()).exit_code == exit_code,
        final(kernel).task(old(kernel).cur()).children@ == Seq::<usize>::empty(),
        final(kernel).task(old(kernel).cur()).memory_set@ == Map::<usize, u8>::empty(),
        final(kernel).task(old(kernel).cur()).parent == old(kernel).cur_task().parent,
        final(kernel).task(old(kernel).cur()).fd_table == old(kernel).cur_task().fd_table,
        final(kernel).task(old(kernel).cur()).mails == old(kernel).cur_task().mails,
        final(kernel).task(old(kernel).cur()).pid == old(kernel).cur_task().pid,
        final(kernel).task(old(kernel).cur()).priority == old(kernel).cur_task().priority,
        final(kernel).task(old(kernel).cur()).stride == old(kernel).cur_task().stride,
        final(kernel).task(old(kernel).cur()).a0 == old(kernel).cur_task().a0,
        final(kernel).task(old(kernel).cur()).args == old(kernel).cur_task().args,
        final(kernel).task(old(kernel).initproc).children@ == old(kernel).task(
            old(kernel).initproc,
        ).children@ + old(kernel).cur_task().children@,
        final(kernel).task(old(kernel).initproc).status == old(kernel).task(old(kernel).initproc).status,
        final(kernel).task(old(kernel).initproc).parent == old(kernel).task(old(kernel).initproc).parent,
        same_contents(final(kernel).task(old(kernel).initproc), old(kernel).task(old(kernel).initproc)),
        forall|q: usize|
            old(kernel).cur_task().children@.contains(q) ==> {
                &&& #[trigger] final(kernel).task(q).parent == Some(old(kernel).initproc)
                &&& final(kernel).task(q).children == old(kernel).task(q).children
                &&& final(kernel).task(q).status == old(kernel).task(q).status
                &&& same_contents(final(kernel).task(q), old(kernel).task(q))
            },
        forall|q: usize|
            old(kernel).has(q) && q != old(kernel).cur() && q != old(kernel).initproc && !old(kernel).cur_task().children@.contains(q) ==> #[trigger] final(kernel).tasks@[q] == old(kernel).tasks@[q],
{
    kernel.exit_current_and_run_next(exit_code);
}

/// Gives up the processor: the running task goes to the back of the ready
/// queue. Returns 0.
pub fn sys_yield(kernel: &mut Kernel) -> (r: isize)
    requires
        old(kernel).wf(),
        old(kernel).current is Some,
    ensures
        r == 0,
        final(kernel).wf(),
        final(kernel).current is None,
        final(kernel).ready@ == old(kernel).ready@.push(old(kernel).cur()),
        final(kernel).initproc == old(kernel).initproc,
        final(kernel).pids == old(kernel).pids,
        final(kernel).tasks@.dom() == old(kernel).tasks@.dom(),
        forall|q: usize| q != old(kernel).cur() ==> #[trigger] final(kernel).tasks@[q] == old(kernel).tasks@[q],
        final(kernel).task(old(kernel).cur()).status == TaskStatus::Ready,
        final(kernel).task(old(kernel).cur()).children == old(kernel).cur_task().children,
        final(kernel).task(old(kernel).cur()).parent == old(kernel).cur_task().parent,
        same_contents(final(kernel).task(old(kernel).cur()), old(kernel).cur_task()),
{
    kernel.suspend_current_and_run_next();
    0
}

/// Splits a time in microseconds into seconds and microseconds; the call
/// stores the result for the caller and returns 0.
pub fn sys_get_time(us: usize) -> (t: TimeVal)
    ensures
        t.sec == us / 1_000_000,
        t.usec == us % 1_000_000,
        t.sec * 1_000_000 + t.usec == us,
        t.usec < 1_000_000,
{
    TimeVal { sec: us / 1_000_000, usec: us % 1_000_000 }
}

/// Gives the running task priority `prio` if it is at least 2 and returns
/// it; returns -1 and changes nothing otherwise.
pub fn sys_set_priority(kernel: &mut Kernel, prio: isize) -> (r: isize)
    requires
        old(kernel).wf(),
        old(kernel).current is Some,
    ensures
        final(kernel).wf(),
        final(kernel).only_current_changed(*old(kernel)),
        prio < 2 ==> r == -1 && final(kernel).tasks@ == old(kernel).tasks@,
        prio >= 2 ==> {
            &&& r == prio
            &&& final(kernel).cur_task().priority == prio
            &&& final(kernel).cur_task().fd_table == old(kernel).cur_task().fd_table
            &&& final(kernel).cur_task().mails == old(kernel).cur_task().mails
            &&& final(kernel).cur_task().memory_set == old(kernel).cur_task().memory_set
            &&& final(kernel).cur_task().exit_code == old(kernel).cur_task().exit_code
            &&& final(kernel).cur_task().a0 == old(kernel).cur_task().a0
            &&& final(kernel).cur_task().args == old(kernel).cur_task().args
            &&& final(kernel).cur_task().stride == old(kernel).cur_task().stride
        },
{
    if prio < 2 {
        -1
    } else {
        kernel.set_priority(prio as usize);
        prio
    }
}

/// The permission bits that `mmap` gives pages for a `port` of 1 to 7: user
/// access always, and read, write, execute for port bits 0, 1, 2.
pub open spec fn mmap_perm(port: usize) -> u8 {
    (PERM_U + (if port % 2 == 1 {
        PERM_R
    } else {
        0
    }) + (if (port / 2) % 2 == 1 {
        PERM_W
    } else {
        0
    }) + (if (port / 4) % 2 == 1 {
        PERM_X
    } else {
        0
    })) as u8
}

/// The address at which an area of `len` bytes from `start` ends, rounded up
/// to a page.
pub open spec fn area_end(start: usize, len: usize) -> nat {
    page_ceil((start + len) as nat) * (PAGE_SIZE as nat)
}

/// Maps `len` bytes from the page-aligned `start` into the running task, with
/// the permissions that `port` asks for (bit 0 read, bit 1 write, bit 2
/// execute; at least one, no others). Returns the length mapped, rounded up to
/// pages, or -1 if `port` or `start` is refused or a page is mapped already.
pub fn sys_mmap(kernel: &mut Kernel, start: usize, len: usize, port: usize) -> (r: isize)
    requires
        old(kernel).wf(),
        old(kernel).current is Some,
        1 <= port <= 7 && start % PAGE_SIZE == 0 ==> start + len <= usize::MAX - (PAGE_SIZE - 1),
    ensures
        final(kernel).wf(),
        final(kernel).only_current_changed(*old(kernel)),
        final(kernel).cur_task().fd_table == old(kernel).cur_task().fd_table,
        final(kernel).cur_task().mails == old(kernel).cur_task().mails,
        same_core(final(kernel).cur_task(), old(kernel).cur_task()),
        ({
            let pages = old(kernel).cur_task().memory_set@;
            let first = page_floor(start as nat);
            let last = page_ceil((start + len) as nat);
            if port == 0 || port > 7 || start % PAGE_SIZE != 0 || any_mapped(pages, first, last) {
                r == -1 && final(kernel).tasks@ == old(kernel).tasks@
            } else {
                &&& r == (area_end(start, len) - start) as isize
                &&& final(kernel).cur_task().memory_set@ == with_range(
                    pages,
                    first,
                    last,
                    mmap_perm(port),
                )
            }
        }),
{
    if (port & !0x7) != 0 || (port & 0x7) == 0 || start % PAGE_SIZE != 0 {
        proof {
            assert((port & !0x7usize) != 0 || (port & 0x7usize) == 0 ==> port == 0 || port > 7)
                by (bit_vector);
        }
        return -1;
    }
    proof {
        assert((port & !0x7usize) == 0 && (port & 0x7usize) != 0 ==> 1 <= port <= 7)
            by (bit_vector);
    }
    let mut permission: u8 = PERM_U;
    if port & 0x1 != 0 {
        permission = permission + PERM_R;
    }
    if port & 0x2 != 0 {
        permission = permission + PERM_W;
    }
    if port & 0x4 != 0 {
        permission = permission + PERM_X;
    }
    proof {
        assert(1 <= port <= 7 ==> ((port & 0x1usize != 0) == (port % 2 == 1)) && ((port & 0x2usize
            != 0) == ((port / 2) % 2 == 1)) && ((port & 0x4usize != 0) == ((port / 4) % 2 == 1)))
            by (bit_vector);
    }
    let end_vpn = ceil(start + len);
    let end = end_vpn * PAGE_SIZE;
    proof {
        assert(end_vpn * PAGE_SIZE == page_ceil((start + len) as nat) * PAGE_SIZE);
        assert(page_ceil(end as nat) == end_vpn);
    }
    match kernel.insert_framed_area(start, end, permission) {
        Ok(_) => (end - start) as isize,
        Err(_) => -1,
    }
}

/// Unmaps `len` bytes from `start` in the running task, whole pages from the
/// one holding `start`. Returns the length unmapped, counted from `start` and
/// rounded up to pages, or -1 if a page in the range is not mapped.
pub fn sys_munmap(kernel: &mut Kernel, start: usize, len: usize) -> (r: isize)
    requires
        old(kernel).wf(),
        old(kernel).current is Some,
        start + len <= usize::MAX - (PAGE_SIZE - 1),
    ensures
        final(kernel).wf(),
        final(kernel).only_current_changed(*old(kernel)),
        final(kernel).cur_task().fd_table == old(kernel).cur_task().fd_table,
        final(kernel).cur_task().mails == old(kernel).cur_task().mails,
        same_core(final(kernel).cur_task(), old(kernel).cur_task()),
        ({
            let pages = old(kernel).cur_task().memory_set@;
            let first = page_floor(start as nat);
            let last = page_ceil((start + len) as nat);
            if !all_mapped(pages, first, last) {
                r == -1 && final(kernel).tasks@ == old(kernel).tasks@
            } else {
                &&& r == (area_end(start, len) - start) as isize
                &&& final(kernel).cur_task().memory_set@ == without_range(pages, first, last)
            }
        }),
{
    let end_vpn = ceil(start + len);
    let end = end_vpn * PAGE_SIZE;
    proof {
        assert(page_ceil(end as nat) == end_vpn);
    }
    match kernel.remove_framed_area(start, end) {
        Ok(_) => (end - start) as isize,
        Err(_) => -1,
    }
}

/// The running task's pid.
pub fn sys_getpid(kernel: &Kernel) -> (r: isize)
    requires
        kernel.current is Some,
    ensures
        r == kernel.cur() as isize,
{
    kernel.current.unwrap() as isize
}

/// Makes a child of the running task and queues it, and returns the child's
/// pid; see `Kernel::fork_current`. `memory_ok` says whether the frames for the
/// child's copy of the parent's memory could be had; when they could not,
/// returns -1 and changes nothing.
pub fn sys_fork(kernel: &mut Kernel, memory_ok: bool) -> (r: isize)
    requires
        old(kernel).wf(),
        old(kernel).current is Some,
        memory_ok ==> old(kernel).can_fork(),
    ensures
        final(kernel).wf(),
        final(kernel).current == old(kernel).current,
        final(kernel).initproc == old(kernel).initproc,
        !memory_ok ==> r == -1 && final(kernel).tasks@ == old(kernel).tasks@ && final(kernel).ready@
            == old(kernel).ready@ && final(kernel).pids == old(kernel).pids,
        memory_ok ==> {
            let child = old(kernel).next_pid();
            &&& r == child as isize
            &&& !old(kernel).has(child)
            &&& final(kernel).ready@ == old(kernel).ready@.push(child)
            &&& final(kernel).pids.current == (if old(kernel).pids.recycled@.len() > 0 {
                old(kernel).pids.current as int
            } else {
                old(kernel).pids.current + 1
            })
            &&& final(kernel).pids.recycled@ == (if old(kernel).pids.recycled@.len() > 0 {
                old(kernel).pids.recycled@.drop_last()
            } else {
                old(kernel).pids.recycled@
            })
            &&& final(kernel).tasks@.dom() == old(kernel).tasks@.dom().insert(child)
            &&& final(kernel).cur_task().children@ == old(kernel).cur_task().children@.push(child)
            &&& final(kernel).cur_task().status == old(kernel).cur_task().status
            &&& final(kernel).cur_task().parent == old(kernel).cur_task().parent
            &&& same_contents(final(kernel).cur_task(), old(kernel).cur_task())
            &&& forall|q: usize|
                q != old(kernel).cur() && q != child ==> #[trigger] final(kernel).tasks@[q] == old(kernel).tasks@[q]
            &&& final(kernel).task(child).parent == Some(old(kernel).cur())
            &&& final(kernel).task(child).status == TaskStatus::Ready
            &&& final(kernel).task(child).children@ == Seq::<usize>::empty()
            &&& final(kernel).task(child).exit_code == 0
            &&& final(kernel).task(child).fd_table@ == old(kernel).cur_task().fd_table@
            &&& final(kernel).task(child).memory_set@ == old(kernel).cur_task().memory_set@
            &&& final(kernel).task(child).mails@ == old(kernel).cur_task().mails@
            &&& final(kernel).task(child).args_view() == old(kernel).cur_task().args_view()
            &&& final(kernel).task(child).priority == DEFAULT_PRIORITY
            &&& final(kernel).task(child).stride == 0
            &&& final(kernel).task(child).a0 == 0
            &&& final(kernel).task(child).pid == child
        },
{
    if !memory_ok {
        return -1;
    }
    let new_pid = kernel.fork_current();
    proof {
        assert(!kernel.ready@.contains(new_pid)) by {
            if kernel.ready@.contains(new_pid) {
                let i = choose|i: int| 0 <= i < kernel.ready@.len() && kernel.ready@[i] == new_pid;
                assert(old(kernel).has(old(kernel).ready@[i]));
            }
        }
    }
    kernel.add_task(new_pid);
    new_pid as isize
}

/// Runs a new program, started on `args`, in the running task if the file
/// system found one: returns the number of arguments, which the program also
/// finds in a0, or -1 if none was found.
pub fn sys_exec(kernel: &mut Kernel, app_found: bool, args: Vec<Vec<u8>>) -> (r: isize)
    requires
        old(kernel).wf(),
        old(kernel).current is Some,
    ensures
        final(kernel).wf(),
        final(kernel).only_current_changed(*old(kernel)),
        !app_found ==> r == -1 && final(kernel).tasks@ == old(kernel).tasks@,
        app_found ==> {
            &&& r == args@.len() as isize
            &&& final(kernel).cur_task().memory_set@ == Map::<usize, u8>::empty()
            &&& final(kernel).cur_task().args@ == args@
            &&& final(kernel).cur_task().a0 == args@.len()
            &&& final(kernel).cur_task().fd_table == old(kernel).cur_task().fd_table
            &&& final(kernel).cur_task().mails == old(kernel).cur_task().mails
            &&& final(kernel).cur_task().priority == old(kernel).cur_task().priority
            &&& final(kernel).cur_task().exit_code == old(kernel).cur_task().exit_code
            &&& final(kernel).cur_task().stride == old(kernel).cur_task().stride
        },
{
    if app_found {
        let c = kernel.current.unwrap();
        let argc = args.len();
        kernel.exec_task(c, args);
        argc as isize
    } else {
        -1
    }
}

/// Starts a new program, on `args`, in a new child of the running task if the
/// file system found one, and queues it: returns the child's pid; -1 if no
/// program was found, or if the frames for the child could not be had
/// (`memory_ok` false). The child keeps copies of the parent's descriptors and
/// mailbox, and finds the number of its arguments in a0.
pub fn sys_spawn(kernel: &mut Kernel, app_found: bool, memory_ok: bool, args: Vec<Vec<u8>>) -> (r:
    isize)
    requires
        old(kernel).wf(),
        old(kernel).current is Some,
        app_found && memory_ok ==> old(kernel).can_fork(),
    ensures
        final(kernel).wf(),
        final(kernel).current == old(kernel).current,
        final(kernel).initproc == old(kernel).initproc,
        !(app_found && memory_ok) ==> r == -1 && final(kernel).tasks@ == old(kernel).tasks@
            && final(kernel).ready@ == old(kernel).ready@ && final(kernel).pids == old(kernel).pids,
        app_found && memory_ok ==> {
            let child = old(kernel).next_pid();
            &&& r == child as isize
            &&& !old(kernel).has(child)
            &&& final(kernel).ready@ == old(kernel).ready@.push(child)
            &&& final(kernel).pids.current == (if old(kernel).pids.recycled@.len() > 0 {
                old(kernel).pids.current as int
            } else {
                old(kernel).pids.current + 1
            })
            &&& final(kernel).pids.recycled@ == (if old(kernel).pids.recycled@.len() > 0 {
                old(kernel).pids.recycled@.drop_last()
            } else {
                old(kernel).pids.recycled@
            })
            &&& final(kernel).tasks@.dom() == old(kernel).tasks@.dom().insert(child)
            &&& final(kernel).cur_task().children@ == old(kernel).cur_task().children@.push(child)
            &&& final(kernel).cur_task().status == old(kernel).cur_task().status
            &&& final(kernel).cur_task().parent == old(kernel).cur_task().parent
            &&& same_contents(final(kernel).cur_task(), old(kernel).cur_task())
            &&& forall|q: usize|
                q != old(kernel).cur() && q != child ==> #[trigger] final(kernel).tasks@[q] == old(kernel).tasks@[q]
            &&& final(kernel).task(child).parent == Some(old(kernel).cur())
            &&& final(kernel).task(child).status == TaskStatus::Ready
            &&& final(kernel).task(child).children@ == Seq::<usize>::empty()
            &&& final(kernel).task(child).fd_table@ == old(kernel).cur_task().fd_table@
            &&& final(kernel).task(child).memory_set@ == Map::<usize, u8>::empty()
            &&& final(kernel).task(child).mails@ == old(kernel).cur_task().mails@
            &&& final(kernel).task(child).args@ == args@
            &&& final(kernel).task(child).a0 == args@.len()
            &&& final(kernel).task(child).priority == DEFAULT_PRIORITY
            &&& final(kernel).task(child).stride == 0
            &&& final(kernel).task(child).exit_code == 0
            &&& final(kernel).task(child).pid == child
        },
{
    if !app_found || !memory_ok {
        return -1;
    }
    let new_pid = kernel.fork_current();
    kernel.exec_task(new_pid, args);
    proof {
        assert(!kernel.ready@.contains(new_pid)) by {
            if kernel.ready@.contains(new_pid) {
                let i = choose|i: int| 0 <= i < kernel.ready@.len() && kernel.ready@[i] == new_pid;
                assert(old(kernel).has(old(kernel).ready@[i]));
            }
        }
    }
    kernel.add_task(new_pid);
    new_pid as isize
}

/// Whether child `child` is one that `waitpid(pid)` waits for.
pub open spec fn wanted(pid: isize, child: usize) -> bool {
    pid == -1 || pid as usize == child
}

/// Waits for a child of the running task: `pid` -1 means any child. Returns
/// -1 if no child is wanted, -2 if no wanted child has exited yet; otherwise
/// reaps the first wanted zombie child in the order the children were made
/// and returns its pid and exit code.
pub fn sys_waitpid(kernel: &mut Kernel, pid: isize) -> (r: (isize, Option<i32>))
    requires
        old(kernel).wf(),
        old(kernel).current is Some,
    ensures
        final(kernel).wf(),
        final(kernel).current == old(kernel).current,
        final(kernel).ready@ == old(kernel).ready@,
        final(kernel).initproc == old(kernel).initproc,
        final(kernel).pids.current == old(kernel).pids.current,
        ({
            let kids = old(kernel).cur_task().children@;
            if !(exists|i: int| 0 <= i < kids.len() && wanted(pid, #[trigger] kids[i])) {
                r == (-1isize, None::<i32>) && final(kernel).tasks@ == old(kernel).tasks@
                    && final(kernel).pids.recycled@ == old(kernel).pids.recycled@
            } else if !(exists|i: int|
                0 <= i < kids.len() && wanted(pid, #[trigger] kids[i]) && old(kernel).task(
                    kids[i],
                ).status == TaskStatus::Zombie) {
                r == (-2isize, None::<i32>) && final(kernel).tasks@ == old(kernel).tasks@
                    && final(kernel).pids.recycled@ == old(kernel).pids.recycled@
            } else {
                exists|i: int|
                    #![trigger kids[i]]
                    0 <= i < kids.len() && wanted(pid, kids[i]) && old(kernel).task(kids[i]).status
                        == TaskStatus::Zombie && (forall|j: int|
                        0 <= j < i ==> !(wanted(pid, #[trigger] kids[j]) && old(kernel).task(
                            kids[j],
                        ).status == TaskStatus::Zombie)) && r == (
                        kids[i] as isize,
                        Some(old(kernel).task(kids[i]).exit_code),
                    ) && final(kernel).tasks@.dom() == old(kernel).tasks@.dom().remove(kids[i])
                        && final(kernel).cur_task().children@ == kids.remove(i)
                        && final(kernel).pids.recycled@ == old(kernel).pids.recycled@.push(kids[i])
                        && final(kernel).cur_task().status == old(kernel).cur_task().status
                        && final(kernel).cur_task().parent == old(kernel).cur_task().parent
                        && same_contents(final(kernel).cur_task(), old(kernel).cur_task())
                        && (forall|q: usize|
                        q != old(kernel).cur() && q != kids[i] ==> #[trigger] final(kernel).tasks@[q]
                            == old(kernel).tasks@[q])
            }
        }),
{
    let ghost before = *kernel;
    let c = kernel.current.unwrap();
    let ghost kids = before.cur_task().children@;
    let mut found_any = false;
    let mut found: Option<usize> = None;
    {
        let t = kernel.tasks.get(&c).unwrap();
        let mut i: usize = 0;
        while i < t.children.len()
            invariant
                t.children@ == kids,
                i <= kids.len(),
                before.wf(),
                before.tasks@ == kernel.tasks@,
                forall|q: usize| #[trigger] kids.contains(q) ==> before.has(q),
                found_any <==> exists|j: int| 0 <= j < i && wanted(pid, #[trigger] kids[j]),
                found is None ==> forall|j: int|
                    0 <= j < i ==> !(wanted(pid, #[trigger] kids[j]) && before.task(kids[j]).status
                        == TaskStatus::Zombie),
                found matches Some(k) ==> k < i && wanted(pid, kids[k as int]) && before.task(
                    kids[k as int],
                ).status == TaskStatus::Zombie && forall|j: int|
                    0 <= j < k ==> !(wanted(pid, #[trigger] kids[j]) && before.task(kids[j]).status
                        == TaskStatus::Zombie),
            decreases kids.len() - i,
        {
            let ch = t.children[i];
            assert(kids.contains(ch));
            if pid == -1 || pid as usize == ch {
                found_any = true;
                let child = kernel.tasks.get(&ch).unwrap();
                if found.is_none() && child.status == TaskStatus::Zombie {
                    found = Some(i);
                }
            }
            i = i + 1;
        }
    }
    if !found_any {
        return (-1, None);
    }
    match found {
        None => (-2, None),
        Some(idx) => {
            proof {
                assert(before.cur_task().children@.contains(kids[idx as int]));
            }
            let mut t = kernel.take_task(c);
            let child_pid = t.children.remove(idx);
            kernel.put_task(t);
            let child = kernel.take_task(child_pid);
            let exit_code = child.exit_code;
            proof {
                assert(before.has(child_pid));
                assert(child_pid < before.pids.current);
                assert(!before.pids.recycled@.contains(child_pid)) by {
                    if before.pids.recycled@.contains(child_pid) {
                        let k = choose|k: int|
                            0 <= k < before.pids.recycled@.len() && before.pids.recycled@[k]
                                == child_pid;
                        assert(!before.has(before.pids.recycled@[k]));
                    }
                }
            }
            kernel.pids.deallocate(child_pid);
            proof {
                assert(kernel.tasks@ =~= before.tasks@.insert(c, kernel.task(c)).remove(child_pid));
                lemma_reap_wf(before, *kernel, c, idx as int);
            }
            (child_pid as isize, Some(exit_code))
        },
    }
}

/// Removing a zombie child from its parent's list and from the task table, and
/// handing its pid back to the allocator, keeps the kernel's invariant.
proof fn lemma_reap_wf(before: Kernel, after: Kernel, c: usize, idx: int)
    requires
        before.wf(),
        before.current == Some(c),
        0 <= idx < before.task(c).children@.len(),
        before.task(before.task(c).children@[idx]).status == TaskStatus::Zombie,
        after.current == before.current,
        after.ready@ == before.ready@,
        after.initproc == before.initproc,
        after.pids.current == before.pids.current,
        after.pids.recycled@ == before.pids.recycled@.push(before.task(c).children@[idx]),
        after.tasks@ == before.tasks@.insert(
            c,
            after.task(c),
        ).remove(before.task(c).children@[idx]),
        after.task(c).children@ == before.task(c).children@.remove(idx),
        after.task(c).status == before.task(c).status,
        after.task(c).parent == before.task(c).parent,
        same_contents(after.task(c), before.task(c)),
    ensures
        after.wf(),
{
    let z = before.task(c).children@[idx];
    let kids = before.task(c).children@;
    assert(before.task(c).children@.contains(z));
    assert(before.has(z) && before.task(z).parent == Some(c));
    assert(z != c);
    assert(after.task(c).wf()) by {
        assert forall|a: int, b: int|
            0 <= a < after.task(c).children@.len() && 0 <= b < after.task(c).children@.len() && a
                != b implies #[trigger] after.task(c).children@[a] != #[trigger] after.task(
            c,
        ).children@[b] by {
            let a2 = if a < idx { a } else { a + 1 };
            let b2 = if b < idx { b } else { b + 1 };
            assert(after.task(c).children@[a] == kids[a2]);
            assert(after.task(c).children@[b] == kids[b2]);
        }
    }
    assert(!after.task(c).children@.contains(z)) by {
        if after.task(c).children@.contains(z) {
            let k = choose|k: int|
                0 <= k < after.task(c).children@.len() && after.task(c).children@[k] == z;
            let k2 = if k < idx { k } else { k + 1 };
            assert(kids[k2] == z);
        }
    }
    assert forall|p: usize| #[trigger] after.has(p) implies after.task(p).pid == p && after.task(
        p,
    ).wf() by {
        assert(before.has(p));
    }
    assert forall|p: usize|
        after.has(p) && #[trigger] after.task(p).status == TaskStatus::Running implies after.current
        == Some(p) by {
        assert(before.has(p));
        if p != c {
            assert(before.task(p).status == TaskStatus::Running);
        }
    }
    assert forall|i: int| 0 <= i < after.ready@.len() implies after.has(#[trigger] after.ready@[i])
        && after.task(after.ready@[i]).status == TaskStatus::Ready by {
        assert(before.has(before.ready@[i]));
        assert(before.ready@[i] != z);
    }
    assert forall|p: usize, q: usize|
        after.has(p) && #[trigger] after.task(p).children@.contains(q) implies after.has(q)
        && after.task(q).parent == Some(p) by {
        assert(before.has(p));
        if p == c {
            let k = choose|k: int|
                0 <= k < after.task(c).children@.len() && after.task(c).children@[k] == q;
            let k2 = if k < idx { k } else { k + 1 };
            assert(kids[k2] == q);
            assert(before.task(c).children@.contains(q));
            assert(q != z);
        } else {
            assert(before.task(p).children@.contains(q));
            assert(before.task(q).parent == Some(p));
            assert(q != z);
        }
    }
    assert forall|q: usize|
        after.has(q) && #[trigger] after.task(q).parent is Some implies after.has(
        after.task(q).parent.unwrap(),
    ) && after.task(after.task(q).parent.unwrap()).children@.contains(q) by {
        assert(before.has(q));
        assert(before.task(q).parent is Some);
        let pp = before.task(q).parent.unwrap();
        assert(before.task(pp).children@.contains(q));
        if pp == z {
            assert(before.task(z).children@.len() == 0);
        }
        if pp == c {
            assert(q != z);
            let k = choose|k: int| 0 <= k < kids.len() && kids[k] == q;
            assert(k != idx);
            let k2 = if k < idx { k } else { k - 1 };
            assert(after.task(c).children@[k2] == q);
        }
    }
    assert forall|p: usize| #[trigger] after.has(p) implies after.task(p).parent != Some(p) by {
        assert(before.has(p));
    }
    assert forall|p: usize|
        after.has(p) && #[trigger] after.task(p).status == TaskStatus::Zombie implies after.task(
        p,
    ).children@.len() == 0 by {
        assert(before.has(p));
        if p != c {
            assert(before.task(p).status == TaskStatus::Zombie);
        }
    }
    assert forall|i: int, j: int|
        0 <= i < after.pids.recycled@.len() && 0 <= j < after.pids.recycled@.len() && i != j implies #[trigger] after.pids.recycled@[i]
        != #[trigger] after.pids.recycled@[j] by {
        let n = before.pids.recycled@.len() as int;
        if i == n {
            assert(!before.has(before.pids.recycled@[j]));
        } else if j == n {
            assert(!before.has(before.pids.recycled@[i]));
        }
    }
    assert forall|i: int| 0 <= i < after.pids.recycled@.len() implies #[trigger] after.pids.recycled@[i]
        < after.pids.current && !after.has(after.pids.recycled@[i]) by {
        if i < before.pids.recycled@.len() {
            assert(!before.has(before.pids.recycled@[i]));
        }
    }
    assert forall|p: usize| #[trigger] after.has(p) implies p < after.pids.current by {
        assert(before.has(p));
    }
}

/// Bit facts that link the arithmetic form of the permission to its bits.
proof fn lemma_perm_bits(r: bool, w: bool, x: bool, perm: u8)
    by (bit_vector)
    requires
        perm == 16 + (if r { 2u8 } else { 0u8 }) + (if w { 4u8 } else { 0u8 }) + (if x {
            8u8
        } else {
            0u8
        }),
    ensures
        (perm & 2 != 0) == r,
        (perm & 4 != 0) == w,
        (perm & 8 != 0) == x,
        perm & 16 != 0,
        perm & !30u8 == 0,
{
}

/// The port bits as the arithmetic form of `mmap_perm` reads them.
proof fn lemma_port_bits(port: usize)
    by (bit_vector)
    requires
        port <= 7,
    ensures
        (port & 1 != 0) == (port % 2 == 1),
        (port & 2 != 0) == ((port / 2) % 2 == 1),
        (port & 4 != 0) == ((port / 4) % 2 == 1),
{
}

/// The pages that `mmap` maps for an accepted `port` are user pages that are
/// readable exactly when port bit 0 is set, writable exactly when bit 1 is
/// set, and executable exactly when bit 2 is set, and carry no other bit.
pub proof fn mmap_perm_follows_port(port: usize)
    requires
        1 <= port <= 7,
    ensures
        (mmap_perm(port) & 2 != 0) == (port & 1 != 0),
        (mmap_perm(port) & 4 != 0) == (port & 2 != 0),
        (mmap_perm(port) & 8 != 0) == (port & 4 != 0),
        mmap_perm(port) & 16 != 0,
        mmap_perm(port) & !30u8 == 0,
        PERM_R == 2 && PERM_W == 4 && PERM_X == 8 && PERM_U == 16,
{
    lemma_port_bits(port);
    lemma_perm_bits(port % 2 == 1, (port / 2) % 2 == 1, (port / 4) % 2 == 1, mmap_perm(port));
}

/// The length that `mmap` and `munmap` return, `area_end(start, len) - start`,
/// reaches from `start` to the first page boundary at or after `start + len`.
pub proof fn area_end_rounds_up(start: usize, len: usize)
    ensures
        area_end(start, len) % 4096 == 0,
        start + len <= area_end(start, len) < start + len + 4096,
{
    crate::mm::page_rounding((start + len) as nat);
    assert(area_end(start, len) == page_ceil((start + len) as nat) * 4096);
    assert((page_ceil((start + len) as nat) * 4096) % 4096 == 0) by (nonlinear_arith);
}

/// `munmap` undoes an accepted `mmap` of the same range: every page that
/// `mmap(start, len, port)` mapped is mapped, so `munmap(start, len)` succeeds
/// and returns the same length, `area_end(start, len) - start`, and the pages
/// are as they were before the `mmap`.
pub proof fn munmap_undoes_mmap(pages: Map<usize, u8>, start: usize, len: usize, port: usize)
    requires
        1 <= port <= 7,
        start % PAGE_SIZE == 0,
        !any_mapped(pages, page_floor(start as nat), page_ceil((start + len) as nat)),
    ensures
        ({
            let first = page_floor(start as nat);
            let last = page_ceil((start + len) as nat);
            let mapped = with_range(pages, first, last, mmap_perm(port));
            &&& all_mapped(mapped, first, last)
            &&& without_range(mapped, first, last) == pages
        }),
{
    crate::mm::unmap_undoes_map(
        pages,
        page_floor(start as nat),
        page_ceil((start + len) as nat),
        mmap_perm(port),
    );
}

/// `waitpid(-1)` wants every child; a `pid` of 0 or more wants exactly the
/// child with that pid.
pub proof fn wanted_any_or_exact(pid: isize, child: usize)
    ensures
        wanted(-1isize, child),
        0 <= pid ==> (wanted(pid, child) <==> pid == child),
{
}

/// A parent that waits for a child which has not exited yet is told to come
/// back later (-2): the child is wanted, and no wanted child is a zombie.
pub proof fn waiting_for_live_child(k: Kernel, child: usize)
    requires
        k.wf(),
        k.current is Some,
        k.cur_task().children@.contains(child),
        k.task(child).status != TaskStatus::Zombie,
        child < isize::MAX,
    ensures
        ({
            let kids = k.cur_task().children@;
            &&& exists|i: int| 0 <= i < kids.len() && wanted(child as isize, #[trigger] kids[i])
            &&& !(exists|i: int|
                0 <= i < kids.len() && wanted(child as isize, #[trigger] kids[i]) && k.task(
                    kids[i],
                ).status == TaskStatus::Zombie)
        }),
{
    let kids = k.cur_task().children@;
    let i = choose|i: int| 0 <= i < kids.len() && kids[i] == child;
    assert(wanted(child as isize, kids[i]));
    assert forall|j: int| 0 <= j < kids.len() && wanted(child as isize, #[trigger] kids[j]) implies k.task(
        kids[j],
    ).status != TaskStatus::Zombie by {
        assert(kids[j] == child);
    }
}

/// A parent that waits for a child which has exited reaps exactly that child:
/// it is the first wanted zombie, so `waitpid` returns its pid and exit code.
pub proof fn waiting_for_exited_child(k: Kernel, child: usize)
    requires
        k.wf(),
        k.current is Some,
        k.cur_task().children@.contains(child),
        k.task(child).status == TaskStatus::Zombie,
        child < isize::MAX,
    ensures
        ({
            let kids = k.cur_task().children@;
            exists|i: int|
                #![trigger kids[i]]
                0 <= i < kids.len() && kids[i] == child && wanted(child as isize, kids[i]) && k.task(
                    kids[i],
                ).status == TaskStatus::Zombie && (forall|j: int|
                    0 <= j < i ==> !(wanted(child as isize, #[trigger] kids[j]) && k.task(
                        kids[j],
                    ).status == TaskStatus::Zombie))
        }),
{
    let kids = k.cur_task().children@;
    let i = choose|i: int| 0 <= i < kids.len() && kids[i] == child;
    assert(wanted(child as isize, kids[i]));
    assert forall|j: int| 0 <= j < i implies !(wanted(child as isize, #[trigger] kids[j]) && k.task(
        kids[j],
    ).status == TaskStatus::Zombie) by {
        if wanted(child as isize, kids[j]) {
            assert(kids[j] == child);
        }
    }
}

} // verus!
