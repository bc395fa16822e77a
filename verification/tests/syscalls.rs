use lib::fs::{FileHandle, Stat};
use lib::mm::{UserBuffer, PERM_R, PERM_U, PERM_W, PERM_X};
use lib::syscall::fs::{
    sys_close, sys_dup, sys_fstat, sys_mail_read, sys_mail_write, sys_open, sys_pipe, sys_read,
    sys_write, FileIo,
};
use lib::syscall::process::{
    sys_exec, sys_exit, sys_fork, sys_get_time, sys_getpid, sys_mmap, sys_munmap,
    sys_set_priority, sys_spawn, sys_waitpid, sys_yield,
};
use lib::task::scheduler::BIG_STRIDE;
use lib::task::{Kernel, TaskStatus, DEFAULT_PRIORITY};

const STDIN: FileHandle = FileHandle { id: 0, readable: true, writable: false, stat: None };
const STDOUT: FileHandle = FileHandle { id: 1, readable: false, writable: true, stat: None };

fn inode(id: usize) -> FileHandle {
    FileHandle {
        id,
        readable: true,
        writable: true,
        stat: Some(Stat { dev: 0, ino: id as u64, mode: 0o100000, nlink: 1 }),
    }
}

/// A kernel with the first task running.
fn booted() -> Kernel {
    let mut k = Kernel::new(STDIN, STDOUT);
    k.add_initproc();
    assert_eq!(k.run_next(), Some(0));
    k
}

fn fds(k: &Kernel) -> Vec<Option<FileHandle>> {
    k.tasks.get(&k.current.unwrap()).unwrap().fd_table.clone()
}

fn ubuf(bytes: &[u8]) -> UserBuffer {
    UserBuffer::new(bytes.to_vec())
}

#[test]
fn boot_runs_the_first_task() {
    let k = booted();
    assert_eq!(sys_getpid(&k), 0);
    assert_eq!(fds(&k), vec![Some(STDIN), Some(STDOUT), Some(STDOUT)]);
    assert_eq!(k.tasks.get(&0).unwrap().status, TaskStatus::Running);
    assert!(k.ready.is_empty());
}

#[test]
fn open_takes_lowest_free_descriptor() {
    let mut k = booted();
    assert_eq!(sys_open(&mut k, 0, Some(inode(5))), 3);
    assert_eq!(sys_close(&mut k, 1), 0);
    assert_eq!(sys_open(&mut k, 0, Some(inode(6))), 1);
    assert_eq!(fds(&k)[1], Some(inode(6)));
    assert_eq!(sys_open(&mut k, 0, None), -1);
    assert_eq!(fds(&k).len(), 4);
}

#[test]
fn close_refuses_bad_descriptors() {
    let mut k = booted();
    assert_eq!(sys_close(&mut k, 2), 0);
    assert_eq!(sys_close(&mut k, 2), -1);
    assert_eq!(sys_close(&mut k, 3), -1);
    assert_eq!(sys_close(&mut k, usize::MAX), -1);
    assert_eq!(fds(&k), vec![Some(STDIN), Some(STDOUT), None]);
}

#[test]
fn dup_shares_the_open_file() {
    let mut k = booted();
    assert_eq!(sys_close(&mut k, 0), 0);
    assert_eq!(sys_dup(&mut k, 1), 0);
    assert_eq!(fds(&k)[0], Some(STDOUT));
    assert_eq!(sys_dup(&mut k, 2), 3);
    assert_eq!(fds(&k)[3], fds(&k)[2]);
    assert_eq!(sys_dup(&mut k, 9), -1);
}

#[test]
fn pipe_installs_read_end_first() {
    let mut k = booted();
    sys_close(&mut k, 1);
    let r = FileHandle { id: 7, readable: true, writable: false, stat: None };
    let w = FileHandle { id: 7, readable: false, writable: true, stat: None };
    assert_eq!(sys_pipe(&mut k, r, w), (1, 3));
    assert_eq!(fds(&k)[1], Some(r));
    assert_eq!(fds(&k)[3], Some(w));
}

#[test]
fn write_goes_to_a_writable_file_only() {
    let k = booted();
    match sys_write(&k, 1, ubuf(b"hi"), 2) {
        FileIo::Write { file, buffer } => {
            assert_eq!(file, STDOUT);
            assert_eq!(buffer.bytes, b"hi".to_vec());
        }
        _ => panic!("write refused"),
    }
    assert!(matches!(sys_write(&k, 0, ubuf(b"hi"), 2), FileIo::Refused));
    assert!(matches!(sys_write(&k, 5, ubuf(b"hi"), 2), FileIo::Refused));
    // only one of the two bytes could be reached
    assert!(matches!(sys_write(&k, 1, ubuf(b"h"), 2), FileIo::Refused));
}

#[test]
fn read_comes_from_a_readable_file_only() {
    let mut k = booted();
    match sys_read(&k, 0, ubuf(&[0; 4]), 4) {
        FileIo::Read { file, buffer } => {
            assert_eq!(file, STDIN);
            assert_eq!(buffer.bytes.len(), 4);
        }
        _ => panic!("read refused"),
    }
    assert!(matches!(sys_read(&k, 1, ubuf(&[0; 4]), 4), FileIo::Refused));
    sys_close(&mut k, 0);
    assert!(matches!(sys_read(&k, 0, ubuf(&[0; 4]), 4), FileIo::Refused));
    assert!(matches!(sys_read(&k, 0, ubuf(&[]), 0), FileIo::Refused));
}

#[test]
fn fstat_reports_the_file() {
    let mut k = booted();
    assert_eq!(sys_fstat(&k, 0), None);
    assert_eq!(sys_fstat(&k, 8), None);
    let fd = sys_open(&mut k, 0, Some(inode(4))) as usize;
    assert_eq!(sys_fstat(&k, fd), inode(4).stat);
}

#[test]
fn mail_to_self_round_trip() {
    let mut k = booted();
    assert_eq!(sys_mail_write(&mut k, 0, &ubuf(b"ping"), 4), 4);
    let mut buf = ubuf(&[0; 10]);
    assert_eq!(sys_mail_read(&mut k, &mut buf, 10), 4);
    assert_eq!(buf.bytes, b"ping\0\0\0\0\0\0".to_vec());
    // mailbox empty now
    let mut buf = ubuf(&[0; 10]);
    assert_eq!(sys_mail_read(&mut k, &mut buf, 10), -1);
}

#[test]
fn mail_is_cut_at_256_bytes() {
    let mut k = booted();
    let long: Vec<u8> = (0..300).map(|i| i as u8).collect();
    assert_eq!(sys_mail_write(&mut k, 0, &UserBuffer::new(long.clone()), 300), 256);
    let mut buf = UserBuffer::new(vec![0; 300]);
    assert_eq!(sys_mail_read(&mut k, &mut buf, 300), 256);
    assert_eq!(buf.bytes, long[..256].to_vec());
}

#[test]
fn mail_read_cuts_to_the_buffer() {
    let mut k = booted();
    sys_mail_write(&mut k, 0, &ubuf(b"abcdef"), 6);
    let mut buf = ubuf(&[0; 3]);
    assert_eq!(sys_mail_read(&mut k, &mut buf, 3), 3);
    assert_eq!(buf.bytes, b"abc".to_vec());
}

#[test]
fn mail_zero_length_and_unreachable_buffers() {
    let mut k = booted();
    assert_eq!(sys_mail_write(&mut k, 0, &ubuf(b""), 0), 0);
    // nothing was sent
    let mut buf = ubuf(&[]);
    assert_eq!(sys_mail_read(&mut k, &mut buf, 0), -1);
    assert_eq!(sys_mail_write(&mut k, 0, &ubuf(b"ab"), 5), -1);
    assert_eq!(sys_mail_write(&mut k, 0, &ubuf(b"xy"), 2), 2);
    let mut buf = ubuf(&[]);
    assert_eq!(sys_mail_read(&mut k, &mut buf, 0), 0);
    let mut buf = ubuf(&[0; 1]);
    assert_eq!(sys_mail_read(&mut k, &mut buf, 4), -1);
    assert_eq!(buf.bytes, vec![0]);
    let mut buf = ubuf(&[0; 4]);
    assert_eq!(sys_mail_read(&mut k, &mut buf, 4), 2);
}

#[test]
fn mail_to_unknown_task_or_full_mailbox_fails() {
    let mut k = booted();
    assert_eq!(sys_mail_write(&mut k, 42, &ubuf(b"x"), 1), -1);
    for _ in 0..16 {
        assert_eq!(sys_mail_write(&mut k, 0, &ubuf(b"x"), 1), 1);
    }
    assert_eq!(sys_mail_write(&mut k, 0, &ubuf(b"x"), 1), -1);
    assert_eq!(sys_mail_write(&mut k, 0, &ubuf(b""), 0), -1);
}

#[test]
fn mail_to_a_ready_task() {
    let mut k = booted();
    let child = sys_fork(&mut k, true) as usize;
    assert_eq!(sys_mail_write(&mut k, child, &ubuf(b"hey"), 3), 3);
    assert_eq!(sys_yield(&mut k), 0);
    assert_eq!(k.run_next(), Some(child));
    let mut buf = ubuf(&[0; 3]);
    assert_eq!(sys_mail_read(&mut k, &mut buf, 3), 3);
    assert_eq!(buf.bytes, b"hey".to_vec());
}

#[test]
fn set_priority_accepts_two_and_up() {
    let mut k = booted();
    assert_eq!(sys_set_priority(&mut k, 1), -1);
    assert_eq!(sys_set_priority(&mut k, -5), -1);
    assert_eq!(k.tasks.get(&0).unwrap().priority, DEFAULT_PRIORITY);
    assert_eq!(sys_set_priority(&mut k, 2), 2);
    assert_eq!(k.tasks.get(&0).unwrap().priority, 2);
    assert_eq!(sys_set_priority(&mut k, 16), 16);
    assert_eq!(k.tasks.get(&0).unwrap().priority, 16);
}

#[test]
fn stride_scheduling_favours_high_priority() {
    let mut k = booted();
    assert_eq!(k.tasks.get(&0).unwrap().stride, BIG_STRIDE / 16);
    let a = sys_fork(&mut k, true) as usize;
    assert_eq!(sys_set_priority(&mut k, 4), 4);
    // a has stride 0, the first task BIG_STRIDE / 16
    sys_yield(&mut k);
    assert_eq!(k.run_next(), Some(a));
    assert_eq!(k.tasks.get(&a).unwrap().stride, BIG_STRIDE / 16);
    // equal strides: the smaller pid runs
    sys_yield(&mut k);
    assert_eq!(k.run_next(), Some(0));
    assert_eq!(k.tasks.get(&0).unwrap().stride, BIG_STRIDE / 16 + BIG_STRIDE / 4);
    // a, at priority 16, now runs four times before the first task again
    for _ in 0..4 {
        sys_yield(&mut k);
        assert_eq!(k.run_next(), Some(a));
    }
    sys_yield(&mut k);
    assert_eq!(k.run_next(), Some(0));
}

#[test]
fn get_time_splits_microseconds() {
    let t = sys_get_time(3_250_001);
    assert_eq!((t.sec, t.usec), (3, 250_001));
    let t = sys_get_time(999_999);
    assert_eq!((t.sec, t.usec), (0, 999_999));
    let t = sys_get_time(0);
    assert_eq!((t.sec, t.usec), (0, 0));
}

#[test]
fn mmap_checks_port_and_alignment() {
    let mut k = booted();
    assert_eq!(sys_mmap(&mut k, 4096, 10, 0), -1);
    assert_eq!(sys_mmap(&mut k, 4096, 10, 8), -1);
    assert_eq!(sys_mmap(&mut k, 4096, 10, 0xf), -1);
    assert_eq!(sys_mmap(&mut k, 100, 10, 1), -1);
    assert!(k.tasks.get(&0).unwrap().memory_set.pages.is_empty());
}

#[test]
fn mmap_maps_whole_pages_with_the_asked_permissions() {
    let mut k = booted();
    assert_eq!(sys_mmap(&mut k, 0x10000, 4097, 7), 8192);
    let pages = &k.tasks.get(&0).unwrap().memory_set.pages;
    assert_eq!(pages.len(), 2);
    assert_eq!(pages.get(&0x10), Some(&(PERM_U | PERM_R | PERM_W | PERM_X)));
    assert_eq!(sys_mmap(&mut k, 0x20000, 1, 2), 4096);
    assert_eq!(k.tasks.get(&0).unwrap().memory_set.pages.get(&0x20), Some(&(PERM_U | PERM_W)));
    assert_eq!(sys_mmap(&mut k, 0x30000, 0, 5), 0);
}

#[test]
fn mmap_twice_fails_and_munmap_undoes_it() {
    let mut k = booted();
    assert_eq!(sys_mmap(&mut k, 0x10000, 4096, 3), 4096);
    assert_eq!(sys_mmap(&mut k, 0x10000, 4096, 3), -1);
    assert_eq!(sys_munmap(&mut k, 0x10000, 4096), 4096);
    assert!(k.tasks.get(&0).unwrap().memory_set.pages.is_empty());
    assert_eq!(sys_munmap(&mut k, 0x10000, 4096), -1);
    assert_eq!(sys_mmap(&mut k, 0x10000, 4096, 3), 4096);
}

#[test]
fn munmap_from_an_unaligned_start() {
    let mut k = booted();
    assert_eq!(sys_mmap(&mut k, 0x10000, 8192, 1), 8192);
    assert_eq!(sys_munmap(&mut k, 0x10010, 10), 4096 - 0x10);
    assert_eq!(k.tasks.get(&0).unwrap().memory_set.pages.len(), 1);
}

#[test]
fn fork_makes_a_queued_child() {
    let mut k = booted();
    sys_mmap(&mut k, 0x10000, 4096, 3);
    sys_open(&mut k, 0, Some(inode(9)));
    let child = sys_fork(&mut k, true);
    assert_eq!(child, 1);
    assert_eq!(k.ready, vec![1]);
    let c = k.tasks.get(&1).unwrap();
    assert_eq!(c.parent, Some(0));
    assert_eq!(c.status, TaskStatus::Ready);
    assert_eq!(c.fd_table, fds(&k));
    assert_eq!(c.memory_set.pages.len(), 1);
    assert_eq!(c.mails.len(), 0);
    assert_eq!(k.tasks.get(&0).unwrap().children, vec![1]);
}

#[test]
fn exec_drops_mapped_pages_and_keeps_descriptors() {
    let mut k = booted();
    sys_mmap(&mut k, 0x10000, 4096, 3);
    assert_eq!(sys_exec(&mut k, false, vec![]), -1);
    assert_eq!(k.tasks.get(&0).unwrap().memory_set.pages.len(), 1);
    assert_eq!(sys_exec(&mut k, true, vec![]), 0);
    assert!(k.tasks.get(&0).unwrap().memory_set.pages.is_empty());
    assert_eq!(fds(&k).len(), 3);
}

#[test]
fn spawn_starts_a_fresh_child() {
    let mut k = booted();
    sys_mmap(&mut k, 0x10000, 4096, 3);
    assert_eq!(sys_spawn(&mut k, false, true, vec![]), -1);
    assert_eq!(k.tasks.len(), 1);
    assert_eq!(sys_spawn(&mut k, true, true, vec![]), 1);
    let c = k.tasks.get(&1).unwrap();
    assert!(c.memory_set.pages.is_empty());
    assert_eq!(c.parent, Some(0));
    assert_eq!(k.ready, vec![1]);
}

#[test]
fn waitpid_without_children() {
    let mut k = booted();
    assert_eq!(sys_waitpid(&mut k, -1), (-1, None));
    assert_eq!(sys_waitpid(&mut k, 3), (-1, None));
}

#[test]
fn waitpid_on_a_running_child_says_later() {
    let mut k = booted();
    let child = sys_fork(&mut k, true);
    assert_eq!(sys_waitpid(&mut k, child), (-2, None));
    assert_eq!(sys_waitpid(&mut k, -1), (-2, None));
    assert_eq!(sys_waitpid(&mut k, child + 1), (-1, None));
}

#[test]
fn exit_then_waitpid_reaps_the_child() {
    let mut k = booted();
    let child = sys_fork(&mut k, true) as usize;
    sys_yield(&mut k);
    assert_eq!(k.run_next(), Some(child));
    assert_eq!(sys_getpid(&k), child as isize);
    sys_exit(&mut k, 42);
    assert_eq!(k.current, None);
    assert_eq!(k.tasks.get(&child).unwrap().status, TaskStatus::Zombie);
    assert_eq!(k.run_next(), Some(0));
    assert_eq!(sys_waitpid(&mut k, child as isize), (child as isize, Some(42)));
    assert!(k.tasks.get(&child).is_none());
    assert!(k.tasks.get(&0).unwrap().children.is_empty());
    assert_eq!(sys_waitpid(&mut k, -1), (-1, None));
    // the reaped pid is handed out again
    assert_eq!(sys_fork(&mut k, true), child as isize);
}

#[test]
fn waitpid_any_reaps_the_first_exited_child() {
    let mut k = booted();
    let a = sys_fork(&mut k, true) as usize;
    let b = sys_fork(&mut k, true) as usize;
    let c = sys_fork(&mut k, true) as usize;
    sys_yield(&mut k);
    assert_eq!(k.run_next(), Some(a));
    sys_yield(&mut k);
    assert_eq!(k.run_next(), Some(b));
    sys_exit(&mut k, 2);
    assert_eq!(k.run_next(), Some(c));
    sys_exit(&mut k, 3);
    assert_eq!(k.run_next(), Some(0));
    assert_eq!(sys_waitpid(&mut k, -1), (b as isize, Some(2)));
    assert_eq!(sys_waitpid(&mut k, -1), (c as isize, Some(3)));
    assert_eq!(sys_waitpid(&mut k, -1), (-2, None));
}

#[test]
fn exit_hands_children_to_the_first_task() {
    let mut k = booted();
    let parent = sys_fork(&mut k, true) as usize;
    sys_yield(&mut k);
    assert_eq!(k.run_next(), Some(parent));
    let g1 = sys_fork(&mut k, true) as usize;
    let g2 = sys_fork(&mut k, true) as usize;
    sys_exit(&mut k, 0);
    assert_eq!(k.tasks.get(&g1).unwrap().parent, Some(0));
    assert_eq!(k.tasks.get(&g2).unwrap().parent, Some(0));
    assert_eq!(k.tasks.get(&0).unwrap().children, vec![parent, g1, g2]);
    assert!(k.tasks.get(&parent).unwrap().children.is_empty());
}

#[test]
fn yield_and_run_next_rotate_the_ready_queue() {
    let mut k = booted();
    let a = sys_fork(&mut k, true) as usize;
    assert_eq!(k.get_task_by_pid(a), Some(a));
    assert_eq!(k.get_task_by_pid(0), Some(0));
    assert_eq!(k.get_task_by_pid(77), None);
    assert_eq!(sys_yield(&mut k), 0);
    assert_eq!(k.current, None);
    assert_eq!(k.ready, vec![a, 0]);
    assert_eq!(k.run_next(), Some(a));
    assert_eq!(k.ready, vec![0]);
    sys_yield(&mut k);
    assert_eq!(k.run_next(), Some(0));
    assert_eq!(k.ready, vec![a]);
}

#[test]
fn fork_copies_the_mailbox() {
    let mut k = booted();
    sys_mail_write(&mut k, 0, &ubuf(b"first"), 5);
    sys_mail_write(&mut k, 0, &ubuf(b"second"), 6);
    let child = sys_fork(&mut k, true) as usize;
    assert_eq!(k.tasks.get(&child).unwrap().mails.len(), 2);
    // the copies are separate: reading in the parent leaves the child's
    let mut buf = ubuf(&[0; 8]);
    assert_eq!(sys_mail_read(&mut k, &mut buf, 8), 5);
    assert_eq!(k.tasks.get(&0).unwrap().mails.len(), 1);
    assert_eq!(k.tasks.get(&child).unwrap().mails.len(), 2);
    sys_yield(&mut k);
    assert_eq!(k.run_next(), Some(child));
    let mut buf = ubuf(&[0; 8]);
    assert_eq!(sys_mail_read(&mut k, &mut buf, 8), 5);
    assert_eq!(&buf.bytes[..5], b"first");
}

#[test]
fn fork_child_sees_zero_and_keeps_arguments() {
    let mut k = booted();
    assert_eq!(sys_exec(&mut k, true, vec![b"init".to_vec(), b"-v".to_vec()]), 2);
    let child = sys_fork(&mut k, true) as usize;
    let c = k.tasks.get(&child).unwrap();
    assert_eq!(c.a0, 0);
    assert_eq!(c.args, vec![b"init".to_vec(), b"-v".to_vec()]);
    assert_eq!(c.priority, DEFAULT_PRIORITY);
    assert_eq!(c.stride, 0);
}

#[test]
fn fork_without_memory_fails() {
    let mut k = booted();
    assert_eq!(sys_fork(&mut k, false), -1);
    assert_eq!(k.tasks.len(), 1);
    assert!(k.ready.is_empty());
    assert!(k.tasks.get(&0).unwrap().children.is_empty());
    // the pid was not used up
    assert_eq!(sys_fork(&mut k, true), 1);
}

#[test]
fn exec_passes_arguments() {
    let mut k = booted();
    let args = vec![b"cat".to_vec(), b"file1".to_vec(), b"file2".to_vec()];
    assert_eq!(sys_exec(&mut k, true, args.clone()), 3);
    let t = k.tasks.get(&0).unwrap();
    assert_eq!(t.args, args);
    assert_eq!(t.a0, 3);
}

#[test]
fn spawn_passes_arguments_and_copies_mailbox() {
    let mut k = booted();
    sys_mail_write(&mut k, 0, &ubuf(b"m"), 1);
    assert_eq!(sys_spawn(&mut k, true, false, vec![b"x".to_vec()]), -1);
    assert_eq!(k.tasks.len(), 1);
    let child = sys_spawn(&mut k, true, true, vec![b"grep".to_vec(), b"word".to_vec()]) as usize;
    let c = k.tasks.get(&child).unwrap();
    assert_eq!(c.args, vec![b"grep".to_vec(), b"word".to_vec()]);
    assert_eq!(c.a0, 2);
    assert_eq!(c.mails.len(), 1);
    assert_eq!(c.fd_table, fds(&k));
}
