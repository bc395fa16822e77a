# lib: the task, file-descriptor, mailbox and memory-mapping calls of a small teaching kernel, verified

The crate holds the decisions that the kernel's system calls make, over a
model of the state they read and change:

- `fs/mails.rs`: a task's mailbox, a FIFO of at most 16 mails.
- `fs/mod.rs`: open files as descriptor tables hold them (`FileHandle`, `Stat`, `File`).
- `mm.rs`: page rounding, the pages a task maps at run time (`MemorySet`), and
  `UserBuffer`, the bytes of a user buffer that the kernel could reach.
- `task/mod.rs`: the task table (`Kernel`), with its invariant `Kernel::wf`:
  pids, the running task, the ready tasks, the parent/child tree, the pid
  allocator; stride scheduling, fork, exec, yield and exit.
- `task/scheduler.rs`: the stride scheduler's order and stride advance.
- `syscall/fs.rs`, `syscall/process.rs`: the calls themselves.

Work that only hardware or the file system can do (moving bytes between a
file and user memory, opening a path, loading a program, reading the clock,
finding free frames) is
left to the caller: a call takes its outcome as an argument (`opened`,
`app_found`, `memory_ok`, the time in microseconds), or hands back what is to be done
(`FileIo`, the descriptors of a new pipe, a `Stat`, a `TimeVal`, an exit code).
