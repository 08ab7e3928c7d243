pub mod csr;
pub mod fwi;
pub mod monitor;
pub mod regs;
pub mod timer;
pub mod trap;
pub mod vm;
