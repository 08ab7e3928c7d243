pub mod riscv64;

pub use self::riscv64::{csr, fwi, monitor, regs, timer, trap, vm};
