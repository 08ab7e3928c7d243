pub mod debug;
pub mod init;
pub mod trap;
