pub mod fs;
pub mod process;
