pub mod fs;
pub mod mm;
pub mod syscall;
pub mod task;
