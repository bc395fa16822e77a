use vstd::prelude::*;
use crate::fs::{open_flags_valid, File, FileHandle, Stat};
use crate::fs::mails::{copied_len, copy_front, MAX_MAILS_NUM};
use crate::mm::UserBuffer;
use crate::task::{lemma_task_update_wf, same_core, Kernel};

verus! {

broadcast use vstd::std_specs::hash::group_hash_axioms;

/// The most bytes one mail call moves.
pub const MAX_MAIL_LEN: usize = 256;

/// What a read or write call asks of the file system once the kernel has
/// checked it: nothing, or a transfer between an open file and the user buffer.
/// The call returns -1 when refused, else the number of bytes the file moved.
pub enum FileIo {
    Refused,
    Read { file: FileHandle, buffer: UserBuffer },
    Write { file: FileHandle, buffer: UserBuffer },
}

/// The open file behind descriptor `fd` of a table, if there is one.
pub open spec fn file_at(table: Seq<Option<FileHandle>>, fd: usize) -> Option<FileHandle> {
    if fd < table.len() {
        table[fd as int]
    } else {
        None
    }
}

/// `fd` is the lowest descriptor that is free in `table`, or the table's length
/// when none is.
pub open spec fn lowest_free(table: Seq<Option<FileHandle>>, fd: usize) -> bool {
    &&& fd <= table.len()
    &&& forall|i: int| 0 <= i < fd ==> table[i] is Some
    &&& fd < table.len() ==> table[fd as int] is None
}

/// `table` after `file` was installed at descriptor `fd`.
pub open spec fn install(table: Seq<Option<FileHandle>>, fd: usize, file: FileHandle) -> Seq<
    Option<FileHandle>,
> {
    if fd < table.len() {
        table.update(fd as int, Some(file))
    } else {
        table.push(Some(file))
    }
}

/// How many bytes a mail call moves for a request of `len` bytes.
pub open spec fn mail_len(len: usize) -> usize {
    if len < MAX_MAIL_LEN {
        len
    } else {
        MAX_MAIL_LEN
    }
}

/// Installs `file` at the lowest free descriptor of the running task.
fn install_file(kernel: &mut Kernel, file: FileHandle) -> (fd: usize)
    requires
        old(kernel).wf(),
        old(kernel).current is Some,
        old(kernel).cur_task().fd_table@.len() < usize::MAX,
    ensures
        final(kernel).wf(),
        final(kernel).only_current_changed(*old(kernel)),
        lowest_free(old(kernel).cur_task().fd_table@, fd),
        final(kernel).cur_task().fd_table@ == install(old(kernel).cur_task().fd_table@, fd, file),
        final(kernel).cur_task().mails == old(kernel).cur_task().mails,
        final(kernel).cur_task().memory_set == old(kernel).cur_task().memory_set,
        same_core(final(kernel).cur_task(), old(kernel).cur_task()),
        final(kernel).cur_task().exit_code == old(kernel).cur_task().exit_code,
{
    let ghost before = *kernel;
    let c = kernel.current.unwrap();
    let mut t = kernel.take_task(c);
    let fd = t.alloc_fd();
    t.fd_table.set(fd, Some(file));
    kernel.put_task(t);
    proof {
        assert(kernel.tasks@ =~= before.tasks@.insert(c, kernel.task(c)));
        assert(kernel.cur_task().fd_table@ =~= install(before.cur_task().fd_table@, fd, file));
        lemma_task_update_wf(before, *kernel, c);
    }
    fd
}

/// Checks a write to descriptor `fd` from the user buffer `buf`, which holds
/// the bytes the kernel could reach of the `len` the caller named.
pub fn sys_write(kernel: &Kernel, fd: usize, buf: UserBuffer, len: usize) -> (r: FileIo)
    requires
        kernel.wf(),
        kernel.current is Some,
        buf@.len() <= len,
    ensures
        ({
            let file = file_at(kernel.cur_task().fd_table@, fd);
            if file is Some && file.unwrap().writable && buf@.len() == len {
                r matches FileIo::Write { file: f, buffer } && f == file.unwrap() && buffer@
                    == buf@
            } else {
                r is Refused
            }
        }),
{
    let c = kernel.current.unwrap();
    let t = kernel.tasks.get(&c).unwrap();
    if fd >= t.fd_table.len() {
        return FileIo::Refused;
    }
    if let Some(file) = &t.fd_table[fd] {
        if !file.writable() {
            return FileIo::Refused;
        }
        let file = *file;
        if buf.len() == len {
            FileIo::Write { file, buffer: buf }
        } else {
            FileIo::Refused
        }
    } else {
        FileIo::Refused
    }
}

/// Checks a read from descriptor `fd` into the user buffer `buf`, which holds
/// the bytes the kernel could reach of the `len` the caller named.
pub fn sys_read(kernel: &Kernel, fd: usize, buf: UserBuffer, len: usize) -> (r: FileIo)
    requires
        kernel.wf(),
        kernel.current is Some,
        buf@.len() <= len,
    ensures
        ({
            let file = file_at(kernel.cur_task().fd_table@, fd);
            if file is Some && file.unwrap().readable && buf@.len() == len {
                r matches FileIo::Read { file: f, buffer } && f == file.unwrap() && buffer@
                    == buf@
            } else {
                r is Refused
            }
        }),
{
    let c = kernel.current.unwrap();
    let t = kernel.tasks.get(&c).unwrap();
    if fd >= t.fd_table.len() {
        return FileIo::Refused;
    }
    if let Some(file) = &t.fd_table[fd] {
        let file = *file;
        if !file.readable() {
            return FileIo::Refused;
        }
        if buf.len() == len {
            FileIo::Read { file, buffer: buf }
        } else {
            FileIo::Refused
        }
    } else {
        FileIo::Refused
    }
}

/// Installs the file that the file system opened for `flags`, if it opened
/// one, at the lowest free descriptor; returns that descriptor, or -1. Flags
/// with unknown bits are not a request the kernel takes.
pub fn sys_open(kernel: &mut Kernel, flags: u32, opened: Option<FileHandle>) -> (r: isize)
    requires
        open_flags_valid(flags),
        old(kernel).wf(),
        old(kernel).current is Some,
        old(kernel).cur_task().fd_table@.len() < isize::MAX,
    ensures
        final(kernel).wf(),
        final(kernel).only_current_changed(*old(kernel)),
        final(kernel).cur_task().mails == old(kernel).cur_task().mails,
        final(kernel).cur_task().memory_set == old(kernel).cur_task().memory_set,
        same_core(final(kernel).cur_task(), old(kernel).cur_task()),
        opened is None ==> r == -1 && final(kernel).tasks@ == old(kernel).tasks@,
        opened is Some ==> r >= 0 && lowest_free(old(kernel).cur_task().fd_table@, r as usize)
            && final(kernel).cur_task().fd_table@ == install(
            old(kernel).cur_task().fd_table@,
            r as usize,
            opened.unwrap(),
        ),
{
    if let Some(inode) = opened {
        let fd = install_file(kernel, inode);
        fd as isize
    } else {
        -1
    }
}

/// Closes descriptor `fd`: 0, or -1 if it was not open.
pub fn sys_close(kernel: &mut Kernel, fd: usize) -> (r: isize)
    requires
        old(kernel).wf(),
        old(kernel).current is Some,
    ensures
        final(kernel).wf(),
        final(kernel).only_current_changed(*old(kernel)),
        final(kernel).cur_task().mails == old(kernel).cur_task().mails,
        final(kernel).cur_task().memory_set == old(kernel).cur_task().memory_set,
        same_core(final(kernel).cur_task(), old(kernel).cur_task()),
        file_at(old(kernel).cur_task().fd_table@, fd) is None ==> r == -1 && final(kernel).tasks@
            == old(kernel).tasks@,
        file_at(old(kernel).cur_task().fd_table@, fd) is Some ==> r == 0 && final(kernel).cur_task().fd_table@ == old(kernel).cur_task().fd_table@.update(fd as int, None),
{
    let ghost before = *kernel;
    let c = kernel.current.unwrap();
    {
        let t = kernel.tasks.get(&c).unwrap();
        if fd >= t.fd_table.len() {
            return -1;
        }
        if t.fd_table[fd].is_none() {
            return -1;
        }
    }
    let mut t = kernel.take_task(c);
    t.fd_table.set(fd, None);
    kernel.put_task(t);
    proof {
        assert(kernel.tasks@ =~= before.tasks@.insert(c, kernel.task(c)));
        lemma_task_update_wf(before, *kernel, c);
    }
    0
}

/// Installs the two ends of a new pipe, the read end first, each at the
/// lowest free descriptor; returns the two descriptors.
pub fn sys_pipe(kernel: &mut Kernel, pipe_read: FileHandle, pipe_write: FileHandle) -> (fds: (
    usize,
    usize,
))
    requires
        old(kernel).wf(),
        old(kernel).current is Some,
        old(kernel).cur_task().fd_table@.len() < usize::MAX - 1,
    ensures
        final(kernel).wf(),
        final(kernel).only_current_changed(*old(kernel)),
        final(kernel).cur_task().mails == old(kernel).cur_task().mails,
        final(kernel).cur_task().memory_set == old(kernel).cur_task().memory_set,
        same_core(final(kernel).cur_task(), old(kernel).cur_task()),
        lowest_free(old(kernel).cur_task().fd_table@, fds.0),
        lowest_free(install(old(kernel).cur_task().fd_table@, fds.0, pipe_read), fds.1),
        final(kernel).cur_task().fd_table@ == install(
            install(old(kernel).cur_task().fd_table@, fds.0, pipe_read),
            fds.1,
            pipe_write,
        ),
{
    let read_fd = install_file(kernel, pipe_read);
    let write_fd = install_file(kernel, pipe_write);
    (read_fd, write_fd)
}

/// Gives the file open at descriptor `fd` a second descriptor, the lowest free
/// one, and returns it; -1 if `fd` is not open.
pub fn sys_dup(kernel: &mut Kernel, fd: usize) -> (r: isize)
    requires
        old(kernel).wf(),
        old(kernel).current is Some,
        old(kernel).cur_task().fd_table@.len() < isize::MAX,
    ensures
        final(kernel).wf(),
        final(kernel).only_current_changed(*old(kernel)),
        final(kernel).cur_task().mails == old(kernel).cur_task().mails,
        final(kernel).cur_task().memory_set == old(kernel).cur_task().memory_set,
        same_core(final(kernel).cur_task(), old(kernel).cur_task()),
        file_at(old(kernel).cur_task().fd_table@, fd) is None ==> r == -1 && final(kernel).tasks@
            == old(kernel).tasks@,
        file_at(old(kernel).cur_task().fd_table@, fd) is Some ==> r >= 0 && lowest_free(
            old(kernel).cur_task().fd_table@,
            r as usize,
        ) && final(kernel).cur_task().fd_table@ == install(
            old(kernel).cur_task().fd_table@,
            r as usize,
            file_at(old(kernel).cur_task().fd_table@, fd).unwrap(),
        ),
{
    let c = kernel.current.unwrap();
    let file = {
        let t = kernel.tasks.get(&c).unwrap();
        if fd >= t.fd_table.len() {
            return -1;
        }
        match t.fd_table[fd] {
            Some(f) => f,
            None => {
                return -1;
            },
        }
    };
    let new_fd = install_file(kernel, file);
    new_fd as isize
}

/// Reads the oldest mail of the running task into `buf`, which holds the bytes
/// the kernel could reach of the `len` the caller named; at most 256 bytes
/// move, and `buf` keeps just the bytes that go back to the caller. Returns the
/// number of bytes read, 0 when `len` is 0, or -1 when no mail waits or the
/// buffer cannot be reached.
pub fn sys_mail_read(kernel: &mut Kernel, buf: &mut UserBuffer, len: usize) -> (r: isize)
    requires
        old(kernel).wf(),
        old(kernel).current is Some,
        old(buf)@.len() <= len,
    ensures
        final(kernel).wf(),
        final(kernel).only_current_changed(*old(kernel)),
        final(kernel).cur_task().fd_table == old(kernel).cur_task().fd_table,
        final(kernel).cur_task().memory_set == old(kernel).cur_task().memory_set,
        same_core(final(kernel).cur_task(), old(kernel).cur_task()),
        ({
            let mails = old(kernel).cur_task().mails@;
            let n = mail_len(len);
            if mails.len() == 0 || (len != 0 && old(buf)@.len() < n) {
                &&& r == -1
                &&& final(kernel).tasks@ == old(kernel).tasks@
                &&& final(buf)@ == old(buf)@
            } else if len == 0 {
                &&& r == 0
                &&& final(kernel).tasks@ == old(kernel).tasks@
                &&& final(buf)@ == old(buf)@
            } else {
                &&& r == copied_len(mails[0], n as nat)
                &&& final(buf)@ == copy_front(old(buf)@.subrange(0, n as int), mails[0], r as nat)
                &&& final(kernel).cur_task().mails@ == mails.drop_first()
            }
        }),
{
    let ghost before = *kernel;
    let c = kernel.current.unwrap();
    {
        let t = kernel.tasks.get(&c).unwrap();
        if !t.mails.readable() {
            return -1;
        } else if len == 0 {
            return 0;
        }
    }
    let len = if len < MAX_MAIL_LEN {
        len
    } else {
        MAX_MAIL_LEN
    };
    if buf.len() < len {
        return -1;
    }
    buf.bytes.truncate(len);
    let mut t = kernel.take_task(c);
    let n = t.mails.read(buf);
    kernel.put_task(t);
    proof {
        assert(kernel.tasks@ =~= before.tasks@.insert(c, kernel.task(c)));
        lemma_task_update_wf(before, *kernel, c);
    }
    n as isize
}

/// Sends the first bytes of `buf`, which holds the bytes the kernel could
/// reach of the `len` the caller named, as a mail to task `pid` (the running
/// task or one in the ready queue); at most 256 bytes go. Returns the number of
/// bytes sent, 0 when `len` is 0, or -1 when there is no such task, its mailbox
/// is full, or the buffer cannot be reached.
pub fn sys_mail_write(kernel: &mut Kernel, pid: usize, buf: &UserBuffer, len: usize) -> (r: isize)
    requires
        old(kernel).wf(),
        old(kernel).current is Some,
        buf@.len() <= len,
    ensures
        final(kernel).wf(),
        ({
            let reachable = old(kernel).current == Some(pid) || old(kernel).ready@.contains(pid);
            let n = mail_len(len);
            if !reachable || old(kernel).task(pid).mails@.len() >= MAX_MAILS_NUM || (len != 0
                && buf@.len() < n) {
                r == -1 && final(kernel).tasks@ == old(kernel).tasks@
            } else if len == 0 {
                r == 0 && final(kernel).tasks@ == old(kernel).tasks@
            } else {
                &&& r == n
                &&& final(kernel).only_changed(*old(kernel), pid)
                &&& final(kernel).task(pid).mails@ == old(kernel).task(pid).mails@.push(
                    buf@.subrange(0, n as int),
                )
                &&& final(kernel).task(pid).fd_table == old(kernel).task(pid).fd_table
                &&& final(kernel).task(pid).memory_set == old(kernel).task(pid).memory_set
                &&& final(kernel).task(pid).exit_code == old(kernel).task(pid).exit_code
                &&& same_core(final(kernel).task(pid), old(kernel).task(pid))
            }
        }),
        final(kernel).current == old(kernel).current,
        final(kernel).ready == old(kernel).ready,
        final(kernel).initproc == old(kernel).initproc,
        final(kernel).pids.current == old(kernel).pids.current,
        final(kernel).pids.recycled@ == old(kernel).pids.recycled@,
{
    let ghost before = *kernel;
    let target = match kernel.get_task_by_pid(pid) {
        Some(p) => p,
        None => {
            return -1;
        },
    };
    proof {
        if before.current == Some(pid) {
        } else {
            let i = choose|i: int| 0 <= i < before.ready@.len() && before.ready@[i] == pid;
            assert(before.has(before.ready@[i]));
        }
    }
    {
        let t = kernel.tasks.get(&target).unwrap();
        if !t.mails.writable() {
            return -1;
        } else if len == 0 {
            return 0;
        }
    }
    let len = if len < MAX_MAIL_LEN {
        len
    } else {
        MAX_MAIL_LEN
    };
    if buf.len() < len {
        return -1;
    }
    let mut mail: Vec<u8> = Vec::new();
    let mut i: usize = 0;
    while i < len
        invariant
            i <= len,
            len <= buf@.len(),
            mail@ == buf@.subrange(0, i as int),
        decreases len - i,
    {
        mail.push(buf.bytes[i]);
        i = i + 1;
        assert(mail@ =~= buf@.subrange(0, i as int));
    }
    let mail = UserBuffer::new(mail);
    let mut t = kernel.take_task(target);
    t.mails.write(&mail);
    kernel.put_task(t);
    proof {
        assert(kernel.tasks@ =~= before.tasks@.insert(pid, kernel.task(pid)));
        lemma_task_update_wf(before, *kernel, pid);
    }
    len as isize
}

/// What `fstat` reports of the file open at descriptor `fd`; `None`, which the
/// call answers with -1, if `fd` is not open or the file has nothing to report.
pub fn sys_fstat(kernel: &Kernel, fd: usize) -> (r: Option<Stat>)
    requires
        kernel.wf(),
        kernel.current is Some,
    ensures
        r == (match file_at(kernel.cur_task().fd_table@, fd) {
            Some(f) => f.stat,
            None => None,
        }),
{
    let c = kernel.current.unwrap();
    let t = kernel.tasks.get(&c).unwrap();
    if fd >= t.fd_table.len() {
        return None;
    }
    match &t.fd_table[fd] {
        Some(file) => file.get_stat(),
        None => None,
    }
}

/// A mail call moves the smaller of the length asked for and 256 bytes: never
/// more than 256, and all of a request of 256 bytes or less.
pub proof fn mail_len_is_capped(len: usize)
    ensures
        mail_len(len) <= 256,
        mail_len(len) <= len,
        len <= 256 ==> mail_len(len) == len,
        len >= 256 ==> mail_len(len) == 256,
{
}

/// A successful `mail_read` of `len` bytes returns the smallest of the mail's
/// length, `len` and 256, and that many bytes of the mail reach the caller.
pub proof fn mail_read_count(mail: Seq<u8>, buf: Seq<u8>, len: usize)
    requires
        buf.len() >= mail_len(len),
    ensures
        ({
            let n = copied_len(mail, mail_len(len) as nat);
            let out = copy_front(buf.subrange(0, mail_len(len) as int), mail, n);
            &&& n <= mail.len()
            &&& n <= len
            &&& n <= 256
            &&& (n == mail.len() || n == len || n == 256)
            &&& out.len() == mail_len(len)
            &&& forall|i: int| 0 <= i < n ==> #[trigger] out[i] == mail[i]
        }),
{
    mail_len_is_capped(len);
    crate::fs::mails::mail_read_copies_prefix(buf.subrange(0, mail_len(len) as int), mail);
}

/// A descriptor handed out is free and every lower one is in use; installing
/// a file there makes the descriptor name that file and leaves every other
/// descriptor as it was.
pub proof fn install_places_file(table: Seq<Option<FileHandle>>, fd: usize, file: FileHandle)
    requires
        lowest_free(table, fd),
    ensures
        file_at(table, fd) is None,
        forall|d: usize| d < fd ==> #[trigger] file_at(table, d) is Some,
        file_at(install(table, fd, file), fd) == Some(file),
        forall|d: usize| d != fd ==> #[trigger] file_at(install(table, fd, file), d) == file_at(table, d),
        install(table, fd, file).len() == if fd < table.len() { table.len() } else { table.len() + 1 },
{
}

/// After a successful `dup`, the new descriptor and the old one name the same
/// open file, and they are different descriptors.
pub proof fn dup_shares_file(table: Seq<Option<FileHandle>>, fd: usize, new_fd: usize)
    requires
        file_at(table, fd) is Some,
        lowest_free(table, new_fd),
    ensures
        new_fd != fd,
        file_at(install(table, new_fd, file_at(table, fd).unwrap()), new_fd) == file_at(table, fd),
        file_at(install(table, new_fd, file_at(table, fd).unwrap()), fd) == file_at(table, fd),
{
}

/// A closed descriptor is no longer open, so closing it again fails.
pub proof fn close_twice_fails(table: Seq<Option<FileHandle>>, fd: usize)
    requires
        file_at(table, fd) is Some,
    ensures
        file_at(table.update(fd as int, None), fd) is None,
{
}

/// Closing the descriptor that was just handed out gives back the table as it
/// was, save for one more free slot when the table had to grow, and the next
/// descriptor handed out is that same one again.
pub proof fn close_undoes_install(table: Seq<Option<FileHandle>>, fd: usize, file: FileHandle)
    requires
        lowest_free(table, fd),
    ensures
        fd < table.len() ==> install(table, fd, file).update(fd as int, None) == table,
        fd == table.len() ==> install(table, fd, file).update(fd as int, None) == table.push(
            None,
        ),
        lowest_free(install(table, fd, file).update(fd as int, None), fd),
{
    if fd < table.len() {
        assert(install(table, fd, file).update(fd as int, None) =~= table);
    } else {
        assert(install(table, fd, file).update(fd as int, None) =~= table.push(None));
    }
}

/// A mail sent with `mail_write` comes back whole from a `mail_read` whose
/// buffer is at least as long: the reader gets exactly the bytes the writer
/// sent, the first 256 of them at most.
pub proof fn mail_read_returns_mail_written(sent: Seq<u8>, sent_len: usize, buf: Seq<u8>, buf_len: usize)
    requires
        sent_len > 0,
        sent.len() >= mail_len(sent_len),
        buf_len > 0,
        buf.len() >= mail_len(buf_len),
        mail_len(buf_len) >= mail_len(sent_len),
    ensures
        ({
            let mail = sent.subrange(0, mail_len(sent_len) as int);
            let space = buf.subrange(0, mail_len(buf_len) as int);
            let n = copied_len(mail, mail_len(buf_len) as nat);
            &&& n == mail_len(sent_len)
            &&& copy_front(space, mail, n).subrange(0, n as int) == mail
        }),
{
    let mail = sent.subrange(0, mail_len(sent_len) as int);
    let space = buf.subrange(0, mail_len(buf_len) as int);
    crate::fs::mails::mail_read_gives_back_write(space, mail);
}

} // verus!
